//! The graph laws, stated on their own: what holds of every well-formed
//! symbol graph after any sequence of builds, edits and resolver drains.

use vstd::prelude::*;
use crate::symbol::{Ast, lemma_live_parent};

verus! {

/// Every non-root live symbol's range lies inside its parent's range, and the
/// parent is live and reachable among the parent's declared children. This
/// holds of every well-formed graph, and every build, shift, splice, comment
/// and resolve pass ends in a well-formed graph.
pub proof fn theorem_containment_and_parent(a: Ast, s: int)
    requires
        a.wf_graph(),
        a.is_live(s),
        a.n(s).parent is Some,
    ensures
        a.n(s).range.spec_inside(a.n(a.n(s).parent->Some_0 as int).range),
        a.is_live(a.n(s).parent->Some_0 as int),
        a.child_in_field(a.n(s).parent->Some_0 as int, s),
{
    let p = a.n(s).parent->Some_0 as int;
    lemma_live_parent(a, s);
    assert(a.n(p).live && a.child_in_field(p, s));
    let (f, k) = choose|f: int, k: int|
        0 <= f < a.n(p).fields@.len() && 0 <= k < a.n(p).fields@[f]@.len() && #[trigger] a.n(
            p,
        ).fields@[f]@[k] == s;
    assert(a.node_graph_ok(p));
    assert(a.n(a.n(p).fields@[f]@[k] as int).range.spec_inside(a.n(p).range));
}

/// Every resolved reference whose target is still alive appears among that
/// target's referrers.
pub proof fn theorem_referrer_soundness(a: Ast, r: int)
    requires
        a.wf_graph(),
        a.is_live(r),
        a.n(r).target is Some,
        a.is_live(a.n(r).target->Some_0 as int),
    ensures
        a.n(a.n(r).target->Some_0 as int).referrers@.contains(r as usize),
{
}

/// Sibling symbols cover pairwise disjoint ranges. Proper syntax trees have
/// this shape; the law of the deepest symbol presupposes it.
pub open spec fn disjoint_siblings(a: Ast) -> bool {
    forall|p: int, f1: int, k1: int, f2: int, k2: int|
        0 <= p < a.spec_len() && 0 <= f1 < a.n(p).fields@.len() && 0 <= k1 < a.n(
            p,
        ).fields@[f1]@.len() && 0 <= f2 < a.n(p).fields@.len() && 0 <= k2 < a.n(
            p,
        ).fields@[f2]@.len() && (f1 != f2 || k1 != k2) ==> (#[trigger] a.n(
            a.n(p).fields@[f1]@[k1] as int,
        ).range).spec_disjoint(#[trigger] a.n(a.n(p).fields@[f2]@[k2] as int).range)
}

/// Every live symbol sits in the root's subtree.
proof fn lemma_live_under_root(a: Ast, x: int)
    requires
        a.wf_graph(),
        a.is_live(x),
        a.root is Some,
    ensures
        a.in_subtree(a.root->Some_0 as int, x),
    decreases x,
{
    assert(a.node_graph_ok(x));
    lemma_live_parent(a, x);
    match a.n(x).parent {
        Some(p) => {
            assert(a.n(p as int).live);
            lemma_live_under_root(a, p as int);
            assert(a.in_subtree(a.root->Some_0 as int, x));
        },
        None => {
            assert(a.root == Some(x as usize));
            assert(a.nodes@.len() <= usize::MAX) by {
                broadcast use vstd::std_specs::vec::axiom_spec_len;

                assert(vstd::std_specs::vec::spec_vec_len(&a.nodes) <= usize::MAX);
            }
            assert((x as usize) as int == x);
            assert(a.in_subtree(a.root->Some_0 as int, x));
        },
    }
}

/// A descendant's range lies inside its ancestor's.
proof fn lemma_subtree_range(a: Ast, anc: int, x: int)
    requires
        a.wf_graph(),
        a.is_live(x),
        0 <= anc < a.spec_len(),
        a.in_subtree(anc, x),
    ensures
        a.n(x).range.spec_inside(a.n(anc).range),
    decreases x,
{
    assert(a.node_graph_ok(x));
    lemma_live_parent(a, x);
    if x == anc {
    } else {
        match a.n(x).parent {
            Some(p) => {
                assert(a.n(p as int).live && a.child_in_field(p as int, x));
                lemma_subtree_range(a, anc, p as int);
                let (f, k) = choose|f: int, k: int|
                    0 <= f < a.n(p as int).fields@.len() && 0 <= k < a.n(
                        p as int,
                    ).fields@[f]@.len() && #[trigger] a.n(p as int).fields@[f]@[k] == x;
                assert(a.node_graph_ok(p as int));
                assert(a.n(a.n(p as int).fields@[f]@[k] as int).range.spec_inside(
                    a.n(p as int).range,
                ));
            },
            None => {},
        }
    }
}

/// A strict ancestor reaches a descendant through one of its own children.
proof fn lemma_descend_step(a: Ast, anc: int, x: int) -> (c: int)
    requires
        a.wf_graph(),
        a.is_live(x),
        0 <= anc < a.spec_len(),
        a.in_subtree(anc, x),
        x != anc,
    ensures
        a.child_in_field(anc, c),
        anc < c < a.spec_len(),
        a.is_live(c),
        a.in_subtree(c, x),
    decreases x,
{
    assert(a.node_graph_ok(x));
    lemma_live_parent(a, x);
    match a.n(x).parent {
        Some(p) => {
            assert(a.n(p as int).live && a.child_in_field(p as int, x));
            if p as int == anc {
                assert(a.in_subtree(x, x));
                let (f, k) = choose|f: int, k: int|
                    0 <= f < a.n(anc).fields@.len() && 0 <= k < a.n(anc).fields@[f]@.len()
                        && #[trigger] a.n(anc).fields@[f]@[k] == x;
                assert(a.node_graph_ok(anc));
                x
            } else {
                let c = lemma_descend_step(a, anc, p as int);
                assert(a.in_subtree(c, p as int));
                assert(a.in_subtree(c, x));
                c
            }
        },
        None => {
            assert(false);
            0
        },
    }
}

/// The law of the deepest symbol: when siblings are disjoint, at most one
/// live symbol contains a byte offset while none of its children does — so
/// the descent from the root lands on the one symbol `find_at_offset`'s
/// contract describes, and that symbol is unique.
pub proof fn theorem_deepest_unique(a: Ast, o: int, s1: int, s2: int)
    requires
        a.wf_graph(),
        disjoint_siblings(a),
        a.is_live(s1),
        a.is_live(s2),
        a.n(s1).range.spec_contains(o),
        a.n(s2).range.spec_contains(o),
        forall|f: int, k: int|
            0 <= f < a.n(s1).fields@.len() && 0 <= k < a.n(s1).fields@[f]@.len() ==> !a.n(
                #[trigger] a.n(s1).fields@[f]@[k] as int,
            ).range.spec_contains(o),
        forall|f: int, k: int|
            0 <= f < a.n(s2).fields@.len() && 0 <= k < a.n(s2).fields@[f]@.len() ==> !a.n(
                #[trigger] a.n(s2).fields@[f]@[k] as int,
            ).range.spec_contains(o),
    ensures
        s1 == s2,
{
    match a.root {
        Some(rt) => {
            lemma_live_under_root(a, s1);
            lemma_live_under_root(a, s2);
            lemma_meet(a, o, rt as int, s1, s2);
        },
        None => {
            assert(!a.n(s1).live);
        },
    }
}

/// Walking down from a common live ancestor that contains the offset, the
/// two childless-at-the-offset symbols must be the same.
proof fn lemma_meet(a: Ast, o: int, anc: int, s1: int, s2: int)
    requires
        a.wf_graph(),
        disjoint_siblings(a),
        a.is_live(anc),
        a.is_live(s1),
        a.is_live(s2),
        a.n(s1).range.spec_contains(o),
        a.n(s2).range.spec_contains(o),
        a.in_subtree(anc, s1),
        a.in_subtree(anc, s2),
        forall|f: int, k: int|
            0 <= f < a.n(s1).fields@.len() && 0 <= k < a.n(s1).fields@[f]@.len() ==> !a.n(
                #[trigger] a.n(s1).fields@[f]@[k] as int,
            ).range.spec_contains(o),
        forall|f: int, k: int|
            0 <= f < a.n(s2).fields@.len() && 0 <= k < a.n(s2).fields@[f]@.len() ==> !a.n(
                #[trigger] a.n(s2).fields@[f]@[k] as int,
            ).range.spec_contains(o),
    ensures
        s1 == s2,
    decreases a.spec_len() - anc,
{
    if anc == s1 && anc == s2 {
    } else if anc == s1 {
        // a child of s1 on the way to s2 would contain the offset
        let c = lemma_descend_step(a, anc, s2);
        lemma_subtree_range(a, c, s2);
        let (f, k) = choose|f: int, k: int|
            0 <= f < a.n(anc).fields@.len() && 0 <= k < a.n(anc).fields@[f]@.len()
                && #[trigger] a.n(anc).fields@[f]@[k] == c;
        assert(a.n(c).range.spec_contains(o));
        assert(false);
    } else if anc == s2 {
        let c = lemma_descend_step(a, anc, s1);
        lemma_subtree_range(a, c, s1);
        let (f, k) = choose|f: int, k: int|
            0 <= f < a.n(anc).fields@.len() && 0 <= k < a.n(anc).fields@[f]@.len()
                && #[trigger] a.n(anc).fields@[f]@[k] == c;
        assert(a.n(c).range.spec_contains(o));
        assert(false);
    } else {
        let c1 = lemma_descend_step(a, anc, s1);
        let c2 = lemma_descend_step(a, anc, s2);
        lemma_subtree_range(a, c1, s1);
        lemma_subtree_range(a, c2, s2);
        assert(a.n(c1).range.spec_contains(o));
        assert(a.n(c2).range.spec_contains(o));
        let (f1, k1) = choose|f1: int, k1: int|
            0 <= f1 < a.n(anc).fields@.len() && 0 <= k1 < a.n(anc).fields@[f1]@.len()
                && #[trigger] a.n(anc).fields@[f1]@[k1] == c1;
        let (f2, k2) = choose|f2: int, k2: int|
            0 <= f2 < a.n(anc).fields@.len() && 0 <= k2 < a.n(anc).fields@[f2]@.len()
                && #[trigger] a.n(anc).fields@[f2]@[k2] == c2;
        if f1 != f2 || k1 != k2 {
            assert(a.n(c1).range.spec_disjoint(a.n(c2).range));
            assert(false);
        }
        assert(c1 == c2);
        lemma_meet(a, o, c1, s1, s2);
    }
}

} // verus!
