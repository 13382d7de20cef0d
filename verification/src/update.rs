//! Incremental re-synchronisation: range shifting after a text edit, and the
//! dynamic swap that rebuilds the smallest subtree containing an edit.

use vstd::prelude::*;
use crate::range::ByteRange;
use crate::symbol::{Ast, Symbol, lemma_in_subtree_below};
use crate::schema::Schema;

verus! {

/// One text edit, already applied to the document: the half-open byte span it
/// replaced, the end of its replacement, and whether only whitespace changed.
#[derive(Clone, Copy, Debug, PartialEq, Eq, Structural)]
pub struct TextEdit {
    pub start: usize,
    pub old_end: usize,
    pub new_end: usize,
    pub whitespace_only: bool,
}

impl TextEdit {
    pub open spec fn wf(self) -> bool {
        self.start <= self.old_end && self.start <= self.new_end
    }

    /// An edit that replaces nothing with nothing.
    pub open spec fn is_noop(self) -> bool {
        self.old_end == self.start && self.new_end == self.start
    }
}

/// Where a byte position lands after the edit: positions before the edit stay,
/// positions at or past it move by the edit's growth, clamped so they neither
/// fall back before the edit's start nor overflow.
pub open spec fn shift_pos(p: int, e: TextEdit) -> int {
    if p < e.start {
        p
    } else {
        let q = p + e.new_end - e.old_end;
        if q < e.start {
            e.start as int
        } else if q > usize::MAX {
            usize::MAX as int
        } else {
            q
        }
    }
}

/// Shifting keeps positions in order.
pub proof fn lemma_shift_pos_monotone(p1: int, p2: int, e: TextEdit)
    requires
        p1 <= p2,
    ensures
        shift_pos(p1, e) <= shift_pos(p2, e),
{
}

/// A range after the shift pass.
pub open spec fn shift_range(r: ByteRange, e: TextEdit) -> ByteRange {
    ByteRange { start: shift_pos(r.start as int, e) as usize, end: shift_pos(r.end as int, e) as usize }
}

fn shift_pos_exec(p: usize, e: &TextEdit) -> (r: usize)
    requires
        e.wf(),
    ensures
        r == shift_pos(p as int, *e),
{
    if p < e.start {
        p
    } else if e.new_end >= e.old_end {
        let delta = e.new_end - e.old_end;
        if p > usize::MAX - delta {
            usize::MAX
        } else {
            p + delta
        }
    } else {
        let delta = e.old_end - e.new_end;
        if p < delta || p - delta < e.start {
            e.start
        } else {
            p - delta
        }
    }
}

impl Ast {
    /// The shift pass of an incremental update: move every symbol's range
    /// past the edit by the edit's growth. Only ranges change; the graph,
    /// liveness, queues and diagnostics are untouched.
    pub fn edit_range(&mut self, e: &TextEdit)
        requires
            e.wf(),
            old(self).wf_graph(),
        ensures
            final(self).wf_graph(),
            final(self).spec_len() == old(self).spec_len(),
            final(self).root == old(self).root,
            forall|i: int| 0 <= i < old(self).spec_len() ==> #[trigger] final(self).n(i)
                == (crate::symbol::Symbol {
                range: shift_range(old(self).n(i).range, *e),
                ..old(self).n(i)
            }),
    {
        let n = self.nodes.len();
        let mut i: usize = 0;
        while i < n
            invariant
                e.wf(),
                old(self).wf_graph(),
                n == self.spec_len(),
                n == old(self).spec_len(),
                i <= n,
                self.root == old(self).root,
                forall|j: int| 0 <= j < i ==> #[trigger] self.n(j) == (crate::symbol::Symbol {
                    range: shift_range(old(self).n(j).range, *e),
                    ..old(self).n(j)
                }),
                forall|j: int| i <= j < n ==> #[trigger] self.n(j) == old(self).n(j),
            decreases n - i,
        {
            let rg = self.nodes[i].range;
            proof {
                assert(self.n(i as int) == old(self).n(i as int));
                assert(old(self).node_graph_ok(i as int));
                assert(rg == old(self).n(i as int).range);
                assert(rg.wf());
            }
            let ns = shift_pos_exec(rg.start, e);
            let ne = shift_pos_exec(rg.end, e);
            proof {
                lemma_shift_pos_monotone(rg.start as int, rg.end as int, *e);
            }
            let ghost snap = *self;
            self.nodes[i].range = ByteRange { start: ns, end: ne };
            proof {
                assert(self.n(i as int) == (crate::symbol::Symbol {
                    range: ByteRange { start: ns, end: ne },
                    ..old(self).n(i as int)
                }));
                assert(ByteRange { start: ns, end: ne } == shift_range(
                    old(self).n(i as int).range,
                    *e,
                ));
                assert forall|j: int| 0 <= j < n && j != i implies #[trigger] self.n(j) == snap.n(
                    j,
                ) by {}
            }
            i += 1;
        }
        proof {
            let a = *self;
            let b = *old(self);
            assert forall|j: int| 0 <= j < a.spec_len() implies a.node_graph_ok(j) by {
                assert(b.node_graph_ok(j));
                assert forall|f: int, k: int|
                    0 <= f < a.n(j).fields@.len() && 0 <= k < a.n(j).fields@[f]@.len() implies {
                    let c = #[trigger] a.n(j).fields@[f]@[k];
                    &&& j < c < a.spec_len()
                    &&& a.n(c as int).parent == Some(j as usize)
                    &&& a.n(c as int).live == a.n(j).live
                    &&& a.n(c as int).range.spec_inside(a.n(j).range)
                } by {
                    let c = a.n(j).fields@[f]@[k];
                    assert(b.n(j).fields@[f]@[k] == c);
                    lemma_shift_pos_monotone(
                        b.n(j).range.start as int,
                        b.n(c as int).range.start as int,
                        *e,
                    );
                    lemma_shift_pos_monotone(
                        b.n(c as int).range.end as int,
                        b.n(j).range.end as int,
                        *e,
                    );
                }
            }
            assert forall|j: int| 0 <= j < a.spec_len() && a.n(j).live implies match a.n(
                j,
            ).parent {
                Some(p) => a.n(p as int).live && a.child_in_field(p as int, j),
                None => a.root == Some(j as usize),
            } by {
                assert(b.n(j).live);
                assert(b.node_graph_ok(j));
                match b.n(j).parent {
                    Some(p) => {
                        assert(0 <= p < j);
                        assert(b.child_in_field(p as int, j));
                        let (f, k) = choose|f: int, k: int|
                            0 <= f < b.n(p as int).fields@.len() && 0 <= k < b.n(
                                p as int,
                            ).fields@[f]@.len() && #[trigger] b.n(p as int).fields@[f]@[k] == j;
                        assert(a.n(p as int).fields@[f]@[k] == j);
                        assert(a.child_in_field(p as int, j));
                    },
                    None => {},
                }
            }
            assert forall|j: int| 0 <= j < a.spec_len() && a.n(j).live implies match a.n(
                j,
            ).target {
                Some(t) => t < a.spec_len() && (a.n(t as int).live ==> a.n(
                    t as int,
                ).referrers@.contains(j as usize)),
                None => true,
            } by {
                assert(b.n(j).live);
                match b.n(j).target {
                    Some(t) => {
                        assert(a.n(t as int).referrers@ == b.n(t as int).referrers@);
                    },
                    None => {},
                }
            }
        }
    }
}

/// Shift every index in `v` up by `base`.
fn shift_indices(v: &Vec<usize>, base: usize, bound: usize) -> (r: Vec<usize>)
    requires
        forall|k: int| 0 <= k < v@.len() ==> #[trigger] v@[k] < bound,
        base + bound <= usize::MAX,
    ensures
        r@.len() == v@.len(),
        forall|k: int| 0 <= k < v@.len() ==> #[trigger] r@[k] == v@[k] + base,
{
    let mut r: Vec<usize> = Vec::new();
    let n = v.len();
    let mut i: usize = 0;
    while i < n
        invariant
            n == v@.len(),
            forall|k: int| 0 <= k < n ==> #[trigger] v@[k] < bound,
            base + bound <= usize::MAX,
            i <= n,
            r@.len() == i,
            forall|k: int| 0 <= k < i ==> #[trigger] r@[k] == v@[k] + base,
        decreases n - i,
    {
        r.push(v[i] + base);
        i += 1;
    }
    r
}


/// Everything the splice's passes established, gathered for the final
/// well-formedness argument: how old slots, the redirected slot, and the
/// appended slots relate to the two input arenas.
pub open spec fn splice_rel(
    a0: Ast,
    fin: Ast,
    sub: Ast,
    schema: Schema,
    ki: int,
    bi: int,
    sri: int,
    pki: int,
    f0: int,
    k0: int,
) -> bool {
    &&& schema.wf()
    &&& a0.wf(schema)
    &&& sub.wf(schema)
    &&& 0 <= pki < ki < bi
    &&& bi == a0.spec_len()
    &&& fin.spec_len() == bi + sub.spec_len()
    &&& bi + sub.spec_len() <= usize::MAX
    &&& 0 <= sri < sub.spec_len()
    &&& sub.root == Some(sri as usize)
    &&& a0.n(ki).live
    &&& a0.n(ki).parent == Some(pki as usize)
    &&& sub.n(sri).type_id == a0.n(ki).type_id
    &&& sub.n(sri).range.spec_inside(a0.n(pki).range)
    &&& forall|x: int| 0 <= x < sub.spec_len() ==> (#[trigger] sub.n(x)).live && sub.n(
        x,
    ).target is None && sub.n(x).referrers@.len() == 0
    &&& fin.root == a0.root
    &&& forall|j: int| 0 <= j < bi ==> (#[trigger] fin.n(j)).type_id == a0.n(j).type_id
        && fin.n(j).range == a0.n(j).range && fin.n(j).parent == a0.n(j).parent && fin.n(
        j,
    ).target == a0.n(j).target && fin.n(j).referrers@ == a0.n(j).referrers@ && fin.n(j).comment
        == a0.n(j).comment && fin.n(j).live == (a0.n(j).live && !a0.in_subtree(ki, j))
    &&& forall|j: int| 0 <= j < bi && j != pki ==> #[trigger] fin.n(j).fields == a0.n(j).fields
    &&& fin.n(pki).fields@.len() == a0.n(pki).fields@.len()
    &&& 0 <= f0 < a0.n(pki).fields@.len()
    &&& 0 <= k0 < a0.n(pki).fields@[f0]@.len()
    &&& a0.n(pki).fields@[f0]@[k0] == ki as usize
    &&& forall|f: int| 0 <= f < a0.n(pki).fields@.len() && f != f0
        ==> #[trigger] fin.n(pki).fields@[f] == a0.n(pki).fields@[f]
    &&& fin.n(pki).fields@[f0]@ == a0.n(pki).fields@[f0]@.update(k0, (bi + sri) as usize)
    &&& forall|x: int| 0 <= x < sub.spec_len() ==> (#[trigger] fin.n(bi + x)).type_id == sub.n(
        x,
    ).type_id && fin.n(bi + x).range == sub.n(x).range && fin.n(bi + x).live && fin.n(
        bi + x,
    ).target is None && fin.n(bi + x).referrers@.len() == 0 && fin.n(bi + x).parent == (if x
        == sri {
        Some(pki as usize)
    } else {
        Some((sub.n(x).parent->Some_0 + bi) as usize)
    }) && fin.n(bi + x).fields@.len() == sub.n(x).fields@.len()
    &&& forall|x: int, f: int, kx: int|
        0 <= x < sub.spec_len() && 0 <= f < sub.n(x).fields@.len() && 0 <= kx < sub.n(
            x,
        ).fields@[f]@.len() ==> #[trigger] fin.n(bi + x).fields@[f]@[kx] == sub.n(x).fields@[
            f]@[kx] + bi
    &&& forall|x: int, f: int| 0 <= x < sub.spec_len() && 0 <= f < sub.n(x).fields@.len()
        ==> (#[trigger] fin.n(bi + x).fields@[f])@.len() == sub.n(x).fields@[f]@.len()
}

/// After a splice, every slot keeps the per-slot graph conditions.
proof fn lemma_splice_node_graph_ok(
    a0: Ast,
    fin: Ast,
    sub: Ast,
    schema: Schema,
    ki: int,
    bi: int,
    sri: int,
    pki: int,
    f0: int,
    k0: int,
    j: int,
)
    requires
        splice_rel(a0, fin, sub, schema, ki, bi, sri, pki, f0, k0),
        0 <= j < fin.spec_len(),
    ensures
        fin.node_graph_ok(j),
{
    if j < bi {
        assert(a0.node_graph_ok(j));
        assert forall|f: int, kx: int|
            0 <= f < fin.n(j).fields@.len() && 0 <= kx < fin.n(j).fields@[f]@.len() implies {
            let c = #[trigger] fin.n(j).fields@[f]@[kx];
            &&& j < c < fin.spec_len()
            &&& fin.n(c as int).parent == Some(j as usize)
            &&& fin.n(c as int).live == fin.n(j).live
            &&& fin.n(c as int).range.spec_inside(fin.n(j).range)
        } by {
            if j == pki && f == f0 && kx == k0 {
                let c = (bi + sri) as usize;
                assert(fin.n(j) == fin.n(pki));
                assert(fin.n(pki).fields@[f0]@ == a0.n(pki).fields@[f0]@.update(
                    k0,
                    (bi + sri) as usize,
                ));
                assert(0 <= k0 < a0.n(pki).fields@[f0]@.len());
                assert(a0.n(pki).fields@[f0]@.update(k0, (bi + sri) as usize)[k0] == (bi
                    + sri) as usize);
                assert(fin.n(pki).fields@[f0]@[k0] == (bi + sri) as usize);
                assert(fin.n(j).fields@[f]@[kx] == c);
                assert(c as int == bi + sri);
                assert(fin.n(bi + sri) == fin.n(c as int));
                assert(fin.n(bi + sri).parent == Some(pki as usize));
                assert(fin.n(c as int).live);
                assert(fin.n(j).live == (a0.n(j).live && !a0.in_subtree(ki, j)));
                assert(a0.child_in_field(pki, ki)) by {
                    assert(a0.n(pki).fields@[f0]@[k0] == ki as usize);
                }
                assert(a0.n(pki).live);
                lemma_in_subtree_below(a0, ki, pki);
                assert(fin.n(j).live);
                assert(fin.n(c as int).range == sub.n(sri).range);
                assert(fin.n(j).range == a0.n(pki).range);
            } else {
                let c = fin.n(j).fields@[f]@[kx];
                assert(c == a0.n(j).fields@[f]@[kx]) by {
                    if j == pki {
                        if f == f0 {
                            assert(fin.n(pki).fields@[f0]@[kx] == a0.n(pki).fields@[f0]@.update(
                                k0,
                                (bi + sri) as usize,
                            )[kx]);
                        }
                    }
                }
                assert(j < c < a0.spec_len());
                assert(a0.n(c as int).parent == Some(j as usize));
                assert(fin.n(c as int).parent == Some(j as usize));
                // the only slot whose owner changed was `k`'s
                if c as int == ki {
                    assert(a0.n(ki).parent == Some(j as usize));
                    assert(j == pki);
                    assert(a0.node_graph_ok(pki));
                    if f != f0 || kx != k0 {
                        assert(a0.n(pki).fields@[f]@[kx] != a0.n(pki).fields@[f0]@[k0]);
                        assert(false);
                    }
                }
                assert(c as int != ki);
                // liveness travels with the owner
                assert(fin.n(c as int).live == (a0.n(c as int).live && !a0.in_subtree(
                    ki,
                    c as int,
                )));
                assert(fin.n(j).live == (a0.n(j).live && !a0.in_subtree(ki, j)));
                assert(a0.n(c as int).live == a0.n(j).live);
                assert(a0.in_subtree(ki, c as int) == a0.in_subtree(ki, j));
            }
        }
        // no child is listed twice
        assert forall|fa: int, ka: int, fb: int, kb: int|
            0 <= fa < fin.n(j).fields@.len() && 0 <= ka < fin.n(j).fields@[fa]@.len() && 0 <= fb
                < fin.n(j).fields@.len() && 0 <= kb < fin.n(j).fields@[fb]@.len() && (fa != fb
                || ka != kb) implies #[trigger] fin.n(j).fields@[fa]@[ka] != #[trigger] fin.n(
            j,
        ).fields@[fb]@[kb] by {
            let va = fin.n(j).fields@[fa]@[ka];
            let vb = fin.n(j).fields@[fb]@[kb];
            let a_new = j == pki && fa == f0 && ka == k0;
            let b_new = j == pki && fb == f0 && kb == k0;
            if !a_new {
                assert(va == a0.n(j).fields@[fa]@[ka]) by {
                    if j == pki && fa == f0 {
                        assert(fin.n(pki).fields@[f0]@[ka] == a0.n(pki).fields@[f0]@.update(
                            k0,
                            (bi + sri) as usize,
                        )[ka]);
                    }
                }
                assert(va < bi);
            }
            if !b_new {
                assert(vb == a0.n(j).fields@[fb]@[kb]) by {
                    if j == pki && fb == f0 {
                        assert(fin.n(pki).fields@[f0]@[kb] == a0.n(pki).fields@[f0]@.update(
                            k0,
                            (bi + sri) as usize,
                        )[kb]);
                    }
                }
                assert(vb < bi);
            }
            if a_new && !b_new {
                assert(va == (bi + sri) as usize);
            } else if !a_new && b_new {
                assert(vb == (bi + sri) as usize);
            } else if !a_new && !b_new {
                assert(a0.node_graph_ok(j));
            }
        }
    } else {
        let x = j - bi;
        assert(sub.node_graph_ok(x));
        assert(fin.n(j) == fin.n(bi + x));
        assert forall|f: int, kx: int|
            0 <= f < fin.n(j).fields@.len() && 0 <= kx < fin.n(j).fields@[f]@.len() implies {
            let c = #[trigger] fin.n(j).fields@[f]@[kx];
            &&& j < c < fin.spec_len()
            &&& fin.n(c as int).parent == Some(j as usize)
            &&& fin.n(c as int).live == fin.n(j).live
            &&& fin.n(c as int).range.spec_inside(fin.n(j).range)
        } by {
            assert(fin.n(j) == fin.n(bi + x));
            let cs = sub.n(x).fields@[f]@[kx];
            assert(fin.n(bi + x).fields@[f]@[kx] == cs + bi);
            assert(fin.n(j).fields@[f]@[kx] == cs + bi);
            assert(x < cs < sub.spec_len());
            assert(sub.n(cs as int).parent == Some(x as usize));
            // a child of any subtree node is not the subtree root
            if cs as int == sri {
                assert(sub.n(sri).live);
                assert(false);
            }
            assert(fin.n(bi + cs as int).parent == Some((bi + x) as usize));
            assert(fin.n(j).fields@[f]@[kx] == (bi + cs as int) as usize);
            assert((x + bi) as usize == (bi + x) as usize);
        }
        assert forall|fa: int, ka: int, fb: int, kb: int|
            0 <= fa < fin.n(j).fields@.len() && 0 <= ka < fin.n(j).fields@[fa]@.len() && 0 <= fb
                < fin.n(j).fields@.len() && 0 <= kb < fin.n(j).fields@[fb]@.len() && (fa != fb
                || ka != kb) implies #[trigger] fin.n(j).fields@[fa]@[ka] != #[trigger] fin.n(
            j,
        ).fields@[fb]@[kb] by {
            assert(fin.n(j) == fin.n(bi + x));
            assert(fin.n(bi + x).fields@[fa]@[ka] == sub.n(x).fields@[fa]@[ka] + bi);
            assert(fin.n(bi + x).fields@[fb]@[kb] == sub.n(x).fields@[fb]@[kb] + bi);
        }
        match fin.n(j).parent {
            Some(p) => {
                assert(fin.n(j) == fin.n(bi + x));
                if x == sri {
                    assert(p == pki as usize);
                } else {
                    assert(sub.n(x).parent is Some) by {
                        if sub.n(x).parent is None {
                            assert(sub.n(x).live);
                            assert(sub.root == Some(x as usize));
                        }
                    }
                    assert(p == (sub.n(x).parent->Some_0 + bi) as usize);
                    assert(sub.n(x).parent->Some_0 < x);
                }
            },
            None => {},
        }
    }
}

/// After a splice, every slot still matches the schema.
proof fn lemma_splice_node_schema_ok(
    a0: Ast,
    fin: Ast,
    sub: Ast,
    schema: Schema,
    ki: int,
    bi: int,
    sri: int,
    pki: int,
    f0: int,
    k0: int,
    j: int,
)
    requires
        splice_rel(a0, fin, sub, schema, ki, bi, sri, pki, f0, k0),
        0 <= j < fin.spec_len(),
    ensures
        fin.node_schema_ok(schema, j),
{
    if j < bi {
        assert(a0.node_schema_ok(schema, j));
        assert(a0.node_graph_ok(j));
        assert forall|f: int, kx: int|
            0 <= f < fin.n(j).fields@.len() && 0 <= kx < fin.n(j).fields@[f]@.len() implies
            schema.types@[fin.n(j).type_id as int].fields@[f].types@.contains(
            fin.n(#[trigger] fin.n(j).fields@[f]@[kx] as int).type_id,
        ) by {
            if j == pki && f == f0 && kx == k0 {
                assert(fin.n(j).fields@[f]@[kx] == (bi + sri) as usize);
                assert(fin.n(bi + sri).type_id == sub.n(sri).type_id);
                assert(sub.n(sri).type_id == a0.n(ki).type_id);
                assert(schema.types@[a0.n(pki).type_id as int].fields@[f0].types@.contains(
                    a0.n(ki).type_id,
                )) by {
                    assert(a0.n(pki).fields@[f0]@[k0] == ki as usize);
                }
            } else {
                let c = fin.n(j).fields@[f]@[kx];
                assert(c == a0.n(j).fields@[f]@[kx]) by {
                    if j == pki && f == f0 {
                        assert(fin.n(pki).fields@[f0]@[kx] == a0.n(pki).fields@[f0]@.update(
                            k0,
                            (bi + sri) as usize,
                        )[kx]);
                    }
                }
                assert(j < c < a0.spec_len());
                assert(fin.n(c as int).type_id == a0.n(c as int).type_id);
            }
        }
        assert forall|f: int| 0 <= f < fin.n(j).fields@.len() implies match (
        #[trigger] schema.types@[fin.n(j).type_id as int].fields@[f]).kind {
            crate::schema::FieldKind::Single => fin.n(j).fields@[f]@.len() == 1,
            crate::schema::FieldKind::Optional => fin.n(j).fields@[f]@.len() <= 1,
            crate::schema::FieldKind::Many => true,
        } by {
            assert(fin.n(j).fields@[f]@.len() == a0.n(j).fields@[f]@.len()) by {
                if j == pki && f == f0 {
                    assert(fin.n(pki).fields@[f0]@ == a0.n(pki).fields@[f0]@.update(
                        k0,
                        (bi + sri) as usize,
                    ));
                }
            }
        }
    } else {
        let x = j - bi;
        assert(sub.node_schema_ok(schema, x));
        assert(sub.node_graph_ok(x));
        assert(fin.n(j) == fin.n(bi + x));
        assert forall|f: int, kx: int|
            0 <= f < fin.n(j).fields@.len() && 0 <= kx < fin.n(j).fields@[f]@.len() implies
            schema.types@[fin.n(j).type_id as int].fields@[f].types@.contains(
            fin.n(#[trigger] fin.n(j).fields@[f]@[kx] as int).type_id,
        ) by {
            assert(fin.n(j) == fin.n(bi + x));
            let cs = sub.n(x).fields@[f]@[kx];
            assert(fin.n(bi + x).fields@[f]@[kx] == cs + bi);
            assert(x < cs < sub.spec_len());
            assert(fin.n(bi + cs as int).type_id == sub.n(cs as int).type_id);
            assert(fin.n(j).fields@[f]@[kx] == (bi + cs as int) as usize);
        }
        assert forall|f: int| 0 <= f < fin.n(j).fields@.len() implies match (
        #[trigger] schema.types@[fin.n(j).type_id as int].fields@[f]).kind {
            crate::schema::FieldKind::Single => fin.n(j).fields@[f]@.len() == 1,
            crate::schema::FieldKind::Optional => fin.n(j).fields@[f]@.len() <= 1,
            crate::schema::FieldKind::Many => true,
        } by {
            assert(fin.n(j) == fin.n(bi + x));
            assert(fin.n(bi + x).fields@[f]@.len() == sub.n(x).fields@[f]@.len());
        }
    }
}

/// After a splice, every live symbol hangs off a live parent that lists it.
proof fn lemma_splice_live_parent(
    a0: Ast,
    fin: Ast,
    sub: Ast,
    schema: Schema,
    ki: int,
    bi: int,
    sri: int,
    pki: int,
    f0: int,
    k0: int,
    j: int,
)
    requires
        splice_rel(a0, fin, sub, schema, ki, bi, sri, pki, f0, k0),
        0 <= j < fin.spec_len(),
        fin.n(j).live,
    ensures
        match fin.n(j).parent {
            Some(p) => fin.n(p as int).live && fin.child_in_field(p as int, j),
            None => fin.root == Some(j as usize),
        },
{
    if j < bi {
        assert(a0.n(j).live && !a0.in_subtree(ki, j));
        assert(a0.node_graph_ok(j));
        match a0.n(j).parent {
            Some(p) => {
                assert(j != ki);
                assert(!a0.in_subtree(ki, p as int));
                assert(a0.n(p as int).live);
                assert(fin.n(p as int).live);
                assert(a0.child_in_field(p as int, j));
                let (f, kx) = choose|f: int, kx: int|
                    0 <= f < a0.n(p as int).fields@.len() && 0 <= kx < a0.n(
                        p as int,
                    ).fields@[f]@.len() && #[trigger] a0.n(p as int).fields@[f]@[kx] == j;
                if p as int == pki && f == f0 && kx == k0 {
                    assert(a0.n(pki).fields@[f0]@[k0] == ki as usize);
                    assert(false);
                }
                assert(fin.n(p as int).fields@[f]@[kx] == j) by {
                    if p as int == pki {
                        if f == f0 {
                            assert(fin.n(pki).fields@[f0]@[kx] == a0.n(pki).fields@[f0]@.update(
                                k0,
                                (bi + sri) as usize,
                            )[kx]);
                        }
                    }
                }
                assert(0 <= f < fin.n(p as int).fields@.len() && 0 <= kx < fin.n(
                    p as int,
                ).fields@[f]@.len()) by {
                    if p as int == pki {
                        assert(fin.n(pki).fields@.len() == a0.n(pki).fields@.len());
                        if f == f0 {
                            assert(fin.n(pki).fields@[f0]@.len() == a0.n(pki).fields@[
                                f0]@.len());
                        }
                    }
                }
                assert(fin.child_in_field(p as int, j));
            },
            None => {
                assert(a0.root == Some(j as usize));
            },
        }
    } else {
        let x = j - bi;
        assert(sub.node_graph_ok(x));
        assert(fin.n(j) == fin.n(bi + x));
        if x == sri {
            assert(fin.n(j).parent == Some(pki as usize));
            assert(a0.n(pki).live) by {
                assert(a0.child_in_field(pki, ki)) by {
                    assert(a0.n(pki).fields@[f0]@[k0] == ki as usize);
                }
            }
            lemma_in_subtree_below(a0, ki, pki);
            assert(fin.n(pki).live);
            assert(fin.n(pki).fields@[f0]@[k0] == (bi + sri) as usize) by {
                assert(fin.n(pki).fields@[f0]@ == a0.n(pki).fields@[f0]@.update(
                    k0,
                    (bi + sri) as usize,
                ));
            }
            assert(0 <= f0 < fin.n(pki).fields@.len() && 0 <= k0 < fin.n(pki).fields@[
                f0]@.len());
            assert(fin.child_in_field(pki, j));
        } else {
            assert(sub.n(x).live);
            match sub.n(x).parent {
                Some(sp) => {
                    assert(sub.child_in_field(sp as int, x));
                    let (f, kx) = choose|f: int, kx: int|
                        0 <= f < sub.n(sp as int).fields@.len() && 0 <= kx < sub.n(
                            sp as int,
                        ).fields@[f]@.len() && #[trigger] sub.n(sp as int).fields@[f]@[kx] == x;
                    assert(fin.n(bi + sp as int).parent == fin.n(bi + sp as int).parent);
                    assert(fin.n(j).parent == Some((sub.n(x).parent->Some_0 + bi) as usize));
                    assert(fin.n(bi + sp as int).live);
                    assert(fin.n(bi + sp as int).fields@[f]@[kx] == sub.n(
                        sp as int,
                    ).fields@[f]@[kx] + bi);
                    assert(fin.n(bi + sp as int).fields@[f]@[kx] == j);
                    assert(0 <= f < fin.n(bi + sp as int).fields@.len() && 0 <= kx < fin.n(
                        bi + sp as int,
                    ).fields@[f]@.len());
                    assert(fin.child_in_field(bi + sp as int, j));
                },
                None => {
                    assert(sub.root == Some(x as usize));
                    assert(false);
                },
            }
        }
    }
}

impl Ast {
    /// Find the field slot of `p` that holds child `c`.
    fn find_child_slot(&self, p: usize, c: usize) -> (r: Option<(usize, usize)>)
        requires
            p < self.spec_len(),
        ensures
            match r {
                Some(slot) => slot.0 < self.n(p as int).fields@.len() && slot.1 < self.n(
                    p as int,
                ).fields@[slot.0 as int]@.len() && self.n(p as int).fields@[slot.0 as int]@[
                    slot.1 as int] == c,
                None => forall|f: int, kk: int|
                    0 <= f < self.n(p as int).fields@.len() && 0 <= kk < self.n(
                        p as int,
                    ).fields@[f]@.len() ==> #[trigger] self.n(p as int).fields@[f]@[kk] != c,
            },
    {
        let nf = self.nodes[p].fields.len();
        let mut f: usize = 0;
        while f < nf
            invariant
                p < self.spec_len(),
                nf == self.n(p as int).fields@.len(),
                f <= nf,
                forall|ff: int, kk: int|
                    0 <= ff < f && 0 <= kk < self.n(p as int).fields@[ff]@.len()
                        ==> #[trigger] self.n(p as int).fields@[ff]@[kk] != c,
            decreases nf - f,
        {
            let nk = self.nodes[p].fields[f].len();
            let mut kk: usize = 0;
            while kk < nk
                invariant
                    p < self.spec_len(),
                    nf == self.n(p as int).fields@.len(),
                    f < nf,
                    nk == self.n(p as int).fields@[f as int]@.len(),
                    kk <= nk,
                    forall|k2: int| 0 <= k2 < kk
                        ==> #[trigger] self.n(p as int).fields@[f as int]@[k2] != c,
                decreases nk - kk,
            {
                if self.nodes[p].fields[f][kk] == c {
                    return Some((f, kk));
                }
                kk += 1;
            }
            f += 1;
        }
        None
    }

    /// Splice the freshly rebuilt subtree `sub` in place of live symbol `k`:
    /// `sub`'s root takes `k`'s slot in `k`'s parent's field, the old subtree
    /// dies, and every other symbol keeps its slot, so outside handles stay
    /// meaningful. Returns false (and changes nothing) only if the arena
    /// would overflow.
    #[verifier::rlimit(100)]
    pub fn splice_subtree(&mut self, schema: &Schema, k: usize, sub: &Ast) -> (r: bool)
        requires
            schema.wf(),
            old(self).wf(*schema),
            sub.wf(*schema),
            old(self).is_live(k as int),
            old(self).n(k as int).parent is Some,
            sub.root is Some,
            // a freshly built subtree: all live, nothing resolved yet
            forall|i: int| 0 <= i < sub.spec_len() ==> (#[trigger] sub.n(i)).live && sub.n(
                i,
            ).target is None && sub.n(i).referrers@.len() == 0,
            // the rebuilt root stands for the old symbol: same type, and it
            // stays inside the parent's range
            sub.n(sub.root->Some_0 as int).type_id == old(self).n(k as int).type_id,
            sub.n(sub.root->Some_0 as int).range.spec_inside(
                old(self).n(old(self).n(k as int).parent->Some_0 as int).range,
            ),
        ensures
            !r ==> *final(self) == *old(self),
            // refused only when the combined arena would overflow
            old(self).spec_len() + sub.spec_len() <= usize::MAX ==> r,
            r ==> {
                let base = old(self).spec_len() as int;
                let sr = sub.root->Some_0 as int;
                let pk = old(self).n(k as int).parent->Some_0 as int;
                &&& final(self).wf(*schema)
                &&& final(self).spec_len() == old(self).spec_len() + sub.spec_len()
                &&& final(self).root == old(self).root
                &&& forall|i: int| 0 <= i < base ==> #[trigger] final(self).n(i).type_id
                    == old(self).n(i).type_id && final(self).n(i).range == old(self).n(i).range
                    && final(self).n(i).target == old(self).n(i).target
                &&& forall|i: int| 0 <= i < base ==> #[trigger] final(self).n(i).live == (old(
                    self,
                ).n(i).live && !old(self).in_subtree(k as int, i))
                &&& forall|s: int| 0 <= s < sub.spec_len() ==> #[trigger] final(self).n(
                    base + s,
                ).type_id == sub.n(s).type_id && final(self).n(base + s).range == sub.n(s).range
                    && final(self).n(base + s).live
                &&& final(self).is_live(base + sr)
                &&& final(self).n(base + sr).parent == Some(pk as usize)
                &&& final(self).child_in_field(pk, base + sr)
            },
    {
        let base = self.nodes.len();
        let sn = sub.nodes.len();
        if sn > usize::MAX - base {
            return false;
        }
        let sr = match sub.root {
            Some(x) => x,
            None => {
                proof {
                    assert(false);
                }
                return false;
            },
        };
        let pk = match self.nodes[k].parent {
            Some(x) => x,
            None => {
                proof {
                    assert(false);
                }
                return false;
            },
        };
        proof {
            assert(old(self).node_graph_ok(k as int));
            assert(0 <= pk < k);
        }
        // 1. redirect the parent's slot that held `k` to the incoming root
        let slot = self.find_child_slot(pk, k);
        let (f0, k0) = match slot {
            Some(x) => x,
            None => {
                proof {
                    assert(old(self).child_in_field(pk as int, k as int));
                    assert(false);
                }
                return false;
            },
        };
        let ghost a0 = *old(self);
        self.nodes[pk].fields[f0][k0] = base + sr;
        let ghost a1 = *self;
        proof {
            assert forall|i: int| 0 <= i < base && i != pk implies a1.n(i) == a0.n(i) by {}
            assert(a1.n(pk as int) == (Symbol {
                fields: a1.n(pk as int).fields,
                ..a0.n(pk as int)
            }));
            assert(a1.n(pk as int).fields@.len() == a0.n(pk as int).fields@.len());
            assert forall|f: int| 0 <= f < a1.n(pk as int).fields@.len() && f != f0 implies
                a1.n(pk as int).fields@[f] == a0.n(pk as int).fields@[f] by {}
            assert(a1.n(pk as int).fields@[f0 as int]@ == a0.n(pk as int).fields@[
                f0 as int]@.update(k0 as int, (base + sr) as usize));
        }
        // 2. the old subtree dies: a symbol dies when its owner does
        let mut i: usize = k;
        while i < base
            invariant
                a0.wf_graph(),
                a1.spec_len() == base,
                self.spec_len() == base,
                a0.spec_len() == base,
                k <= i,
                k < base,
                self.root == a1.root,
                forall|j: int| 0 <= j < base ==> #[trigger] self.n(j) == (Symbol {
                    live: self.n(j).live,
                    ..a1.n(j)
                }),
                forall|j: int| 0 <= j < k ==> #[trigger] self.n(j).live == a1.n(j).live,
                forall|j: int| i <= j < base ==> #[trigger] self.n(j).live == a1.n(j).live,
                forall|j: int| 0 <= j < base ==> #[trigger] a1.n(j).live == a0.n(j).live
                    && a1.n(j).parent == a0.n(j).parent,
                forall|j: int| k <= j < i ==> #[trigger] self.n(j).live == (a0.n(j).live && !a0.in_subtree(
                    k as int,
                    j,
                )),
            decreases base - i,
        {
            proof {
                assert(a0.node_graph_ok(i as int));
                assert(self.n(i as int) == (Symbol { live: self.n(i as int).live, ..a1.n(
                    i as int,
                ) }));
                assert(self.n(i as int).live == a0.n(i as int).live);
                assert(self.n(i as int).parent == a0.n(i as int).parent);
            }
            let ghost snapk = *self;
            if i == k {
                self.nodes[i].live = false;
                proof {
                    assert(a0.in_subtree(k as int, i as int));
                }
            } else {
                let alive = self.nodes[i].live;
                if alive {
                    match self.nodes[i].parent {
                        Some(p) => {
                            proof {
                                assert(a0.n(i as int).live);
                                assert(0 <= p < i);
                                assert(a0.n(p as int).live);
                                assert(self.n(p as int).parent == a0.n(p as int).parent);
                                if p < k {
                                    lemma_in_subtree_below(a0, k as int, p as int);
                                    assert(self.n(p as int).live == a0.n(p as int).live);
                                } else {
                                    assert(self.n(p as int).live == (a0.n(p as int).live
                                        && !a0.in_subtree(k as int, p as int)));
                                }
                                assert(a0.in_subtree(k as int, i as int) == a0.in_subtree(
                                    k as int,
                                    p as int,
                                ));
                            }
                            if !self.nodes[p].live {
                                self.nodes[i].live = false;
                            }
                        },
                        None => {
                            proof {
                                assert(!a0.in_subtree(k as int, i as int));
                            }
                        },
                    }
                } else {
                    proof {
                        assert(!a0.n(i as int).live);
                    }
                }
            }
            proof {
                assert forall|j: int| 0 <= j < base && j != i implies #[trigger] self.n(j)
                    == snapk.n(j) by {}
                assert(self.n(i as int) == (Symbol { live: self.n(i as int).live, ..snapk.n(
                    i as int,
                ) }));
            }
            i += 1;
        }
        let ghost a2 = *self;
        // 3. append the rebuilt subtree, shifted into place
        let mut snew: usize = 0;
        while snew < sn
            invariant
                schema.wf(),
                sub.wf(*schema),
                forall|x: int| 0 <= x < sub.spec_len() ==> (#[trigger] sub.n(x)).live && sub.n(
                    x,
                ).target is None && sub.n(x).referrers@.len() == 0,
                sn == sub.spec_len(),
                base + sn <= usize::MAX,
                sr < sn,
                sub.root == Some(sr),
                pk < base,
                a2.spec_len() == base,
                snew <= sn,
                self.spec_len() == base + snew,
                self.root == a2.root,
                forall|j: int| 0 <= j < base ==> #[trigger] self.n(j) == a2.n(j),
                forall|x: int| 0 <= x < snew ==> #[trigger] self.n(base + x) == (Symbol {
                    type_id: sub.n(x).type_id,
                    range: sub.n(x).range,
                    parent: if x == sr {
                        Some(pk as usize)
                    } else {
                        Some((sub.n(x).parent->Some_0 + base) as usize)
                    },
                    fields: self.n(base + x).fields,
                    referrers: self.n(base + x).referrers,
                    target: None,
                    comment: sub.n(x).comment,
                    live: true,
                }),
                forall|x: int| 0 <= x < snew ==> (#[trigger] self.n(base + x)).referrers@.len()
                    == 0,
                forall|x: int| 0 <= x < snew ==> (#[trigger] self.n(base + x)).fields@.len()
                    == sub.n(x).fields@.len(),
                forall|x: int, f: int, kx: int|
                    0 <= x < snew && 0 <= f < sub.n(x).fields@.len() && 0 <= kx < sub.n(
                        x,
                    ).fields@[f]@.len() ==> #[trigger] self.n(base + x).fields@[f]@[kx] == sub.n(
                        x,
                    ).fields@[f]@[kx] + base,
                forall|x: int, f: int| 0 <= x < snew && 0 <= f < sub.n(x).fields@.len()
                    ==> (#[trigger] self.n(base + x).fields@[f])@.len() == sub.n(
                    x,
                ).fields@[f]@.len(),
            decreases sn - snew,
        {
            proof {
                assert(sub.node_graph_ok(snew as int));
            }
            let par: Option<usize> = if snew == sr {
                Some(pk)
            } else {
                match sub.nodes[snew].parent {
                    Some(p) => Some(p + base),
                    None => {
                        proof {
                            // a live parentless symbol is the root
                            assert(sub.n(snew as int).live);
                            assert(sub.root == Some(snew));
                            assert(false);
                        }
                        Some(pk)
                    },
                }
            };
            let src = &sub.nodes[snew];
            let nf2 = src.fields.len();
            let mut fields2: Vec<Vec<usize>> = Vec::new();
            let mut f2: usize = 0;
            while f2 < nf2
                invariant
                    sub.wf_graph(),
                    snew < sub.spec_len(),
                    src == sub.n(snew as int),
                    sub.node_graph_ok(snew as int),
                    nf2 == src.fields@.len(),
                    sn == sub.spec_len(),
                    base + sub.spec_len() <= usize::MAX,
                    f2 <= nf2,
                    fields2@.len() == f2,
                    forall|f: int| 0 <= f < f2 ==> (#[trigger] fields2@[f])@.len()
                        == src.fields@[f]@.len(),
                    forall|f: int, kx: int| 0 <= f < f2 && 0 <= kx < src.fields@[f]@.len()
                        ==> #[trigger] fields2@[f]@[kx] == src.fields@[f]@[kx] + base,
                decreases nf2 - f2,
            {
                proof {
                    assert forall|kx: int| 0 <= kx < src.fields@[f2 as int]@.len() implies
                        #[trigger] src.fields@[f2 as int]@[kx] < sub.spec_len() by {}
                }
                let shifted = shift_indices(&src.fields[f2], base, sn);
                fields2.push(shifted);
                f2 += 1;
            }
            let ghost snapa = *self;
            self.nodes.push(
                Symbol {
                    type_id: src.type_id,
                    range: src.range,
                    parent: par,
                    fields: fields2,
                    referrers: Vec::new(),
                    target: None,
                    comment: src.comment,
                    live: true,
                },
            );
            proof {
                assert forall|j: int| 0 <= j < base + snew implies #[trigger] self.n(j)
                    == snapa.n(j) by {}
                assert(self.n((base + snew) as int).fields == fields2);
                assert(self.n((base + snew) as int).parent == par);
            }
            snew += 1;
        }
        proof {
            let fin = *self;
            let ki = k as int;
            let bi = base as int;
            let sri = sr as int;
            let pki = pk as int;
            // how every old slot ends up
            assert forall|j: int| 0 <= j < bi implies #[trigger] fin.n(j).type_id == a0.n(
                j,
            ).type_id && fin.n(j).range == a0.n(j).range && fin.n(j).parent == a0.n(j).parent
                && fin.n(j).target == a0.n(j).target && fin.n(j).referrers@ == a0.n(j).referrers@
                && fin.n(j).comment == a0.n(j).comment && fin.n(j).live == (a0.n(j).live
                && !a0.in_subtree(ki, j)) by {
                assert(fin.n(j) == a2.n(j));
                assert(a2.n(j) == (Symbol { live: a2.n(j).live, ..a1.n(j) }));
                if j != pki {
                    assert(a1.n(j) == a0.n(j));
                }
                if j < ki {
                    lemma_in_subtree_below(a0, ki, j);
                    assert(a2.n(j).live == a1.n(j).live);
                } else {
                    assert(a2.n(j).live == (a0.n(j).live && !a0.in_subtree(ki, j)));
                }
            }
            // old fields survive except the one redirected slot
            assert forall|j: int| 0 <= j < bi && j != pki implies #[trigger] fin.n(j).fields
                == a0.n(j).fields by {
                assert(fin.n(j) == a2.n(j));
                assert(a1.n(j) == a0.n(j));
            }
            assert(fin.n(pki).fields@.len() == a0.n(pki).fields@.len());
            assert forall|f: int| 0 <= f < a0.n(pki).fields@.len() && f != f0 implies
                #[trigger] fin.n(pki).fields@[f] == a0.n(pki).fields@[f] by {
                assert(fin.n(pki) == a2.n(pki));
            }
            assert(fin.n(pki).fields@[f0 as int]@ == a0.n(pki).fields@[f0 as int]@.update(
                k0 as int,
                (base + sr) as usize,
            ));
            // how every new slot ends up
            assert forall|x: int| 0 <= x < sn implies #[trigger] fin.n(bi + x).type_id == sub.n(
                x,
            ).type_id && fin.n(bi + x).range == sub.n(x).range && fin.n(bi + x).live && fin.n(
                bi + x,
            ).target is None && fin.n(bi + x).referrers@.len() == 0 && fin.n(bi + x).parent == (
            if x == sri {
                Some(pk as usize)
            } else {
                Some((sub.n(x).parent->Some_0 + base) as usize)
            }) && fin.n(bi + x).fields@.len() == sub.n(x).fields@.len() by {}
            assert forall|x: int, f: int, kx: int|
                0 <= x < sn && 0 <= f < sub.n(x).fields@.len() && 0 <= kx < sub.n(
                    x,
                ).fields@[f]@.len() implies #[trigger] fin.n(bi + x).fields@[f]@[kx] == sub.n(
                x,
            ).fields@[f]@[kx] + base && (#[trigger] fin.n(bi + x).fields@[f])@.len() == sub.n(
                x,
            ).fields@[f]@.len() by {}
            // useful global facts
            assert(a0.n(ki).live && a0.n(ki).parent == Some(pk as usize));
            assert(a0.node_graph_ok(ki));
            assert(a0.n(pki).live) by {
                assert(a0.child_in_field(pki, ki));
            }
            assert(!a0.in_subtree(ki, pki)) by {
                lemma_in_subtree_below(a0, ki, pki);
            }
            assert(fin.n(pki).live);
            assert(fin.is_live(bi + sri));
            assert(fin.n(bi + sri).parent == Some(pk as usize));
            assert(fin.child_in_field(pki, bi + sri)) by {
                assert(fin.n(pki).fields@[f0 as int]@[k0 as int] == (base + sr) as usize);
            }
            assert(splice_rel(a0, fin, *sub, *schema, ki, bi, sri, pki, f0 as int, k0 as int));
            // per-slot well-formedness
            assert forall|j: int| 0 <= j < fin.spec_len() implies #[trigger] fin.node_graph_ok(
                j,
            ) by {
                lemma_splice_node_graph_ok(a0, fin, *sub, *schema, ki, bi, sri, pki,
                    f0 as int, k0 as int, j);
            }
            assert forall|j: int| 0 <= j < fin.spec_len() implies #[trigger] fin.node_schema_ok(
                *schema,
                j,
            ) by {
                lemma_splice_node_schema_ok(a0, fin, *sub, *schema, ki, bi, sri, pki,
                    f0 as int, k0 as int, j);
            }
            // the root survives untouched
            match a0.root {
                Some(r0) => {
                    assert(fin.root == Some(r0));
                    assert(r0 != k);
                    assert(a0.node_graph_ok(r0 as int));
                    assert(!a0.in_subtree(ki, r0 as int));
                    assert(fin.n(r0 as int).live);
                },
                None => {
                    assert(!a0.n(ki).live);
                    assert(false);
                },
            }
            // live symbols still hang off live parents that list them
            assert forall|i2: int| 0 <= i2 < fin.spec_len() && fin.n(i2).live implies match
                fin.n(i2).parent {
                Some(p) => fin.n(p as int).live && fin.child_in_field(p as int, i2),
                None => fin.root == Some(i2 as usize),
            } by {
                lemma_splice_live_parent(a0, fin, *sub, *schema, ki, bi, sri, pki,
                    f0 as int, k0 as int, i2);
            }
            // resolved targets keep their referrer entries
            assert forall|i2: int| 0 <= i2 < fin.spec_len() && fin.n(i2).live implies match
                fin.n(i2).target {
                Some(t) => t < fin.spec_len() && (fin.n(t as int).live ==> fin.n(
                    t as int,
                ).referrers@.contains(i2 as usize)),
                None => true,
            } by {
                if i2 < bi {
                    assert(a0.n(i2).live);
                    match a0.n(i2).target {
                        Some(t) => {
                            assert(fin.n(i2).target == Some(t));
                            if fin.n(t as int).live {
                                assert(a0.n(t as int).live);
                                assert(a0.n(t as int).referrers@.contains(i2 as usize));
                                assert(fin.n(t as int).referrers@ == a0.n(t as int).referrers@);
                            }
                        },
                        None => {},
                    }
                } else {
                    assert(fin.n(i2) == fin.n(bi + (i2 - bi)));
                    assert(fin.n(i2).target is None);
                }
            }
        }
        true
    }
}

impl Ast {
    /// The first child of `cur` whose range covers `rg` entirely.
    fn first_child_covering(&self, cur: usize, rg: ByteRange) -> (r: Option<usize>)
        requires
            self.wf_graph(),
            cur < self.spec_len(),
        ensures
            match r {
                Some(c) => cur < c < self.spec_len() && self.n(c as int).live == self.n(
                    cur as int,
                ).live && rg.spec_inside(self.n(c as int).range),
                None => forall|f: int, k: int|
                    0 <= f < self.n(cur as int).fields@.len() && 0 <= k < self.n(
                        cur as int,
                    ).fields@[f]@.len() ==> !rg.spec_inside(
                        self.n(#[trigger] self.n(cur as int).fields@[f]@[k] as int).range,
                    ),
            },
    {
        proof {
            assert(self.node_graph_ok(cur as int));
        }
        let nf = self.nodes[cur].fields.len();
        let mut f: usize = 0;
        while f < nf
            invariant
                self.wf_graph(),
                cur < self.spec_len(),
                self.node_graph_ok(cur as int),
                nf == self.n(cur as int).fields@.len(),
                f <= nf,
                forall|ff: int, k: int|
                    0 <= ff < f && 0 <= k < self.n(cur as int).fields@[ff]@.len()
                        ==> !rg.spec_inside(
                        self.n(#[trigger] self.n(cur as int).fields@[ff]@[k] as int).range,
                    ),
            decreases nf - f,
        {
            let nk = self.nodes[cur].fields[f].len();
            let mut k: usize = 0;
            while k < nk
                invariant
                    self.wf_graph(),
                    cur < self.spec_len(),
                    self.node_graph_ok(cur as int),
                    nf == self.n(cur as int).fields@.len(),
                    f < nf,
                    nk == self.n(cur as int).fields@[f as int]@.len(),
                    k <= nk,
                    forall|kk: int| 0 <= kk < k ==> !rg.spec_inside(
                        self.n(
                            #[trigger] self.n(cur as int).fields@[f as int]@[kk] as int,
                        ).range,
                    ),
                decreases nk - k,
            {
                let c = self.nodes[cur].fields[f][k];
                if rg.inside(&self.nodes[c].range) {
                    proof {
                        assert(self.n(cur as int).fields@[f as int]@[k as int] == c);
                    }
                    return Some(c);
                }
                k += 1;
            }
            f += 1;
        }
        None
    }

    /// The deepest live symbol whose range fully contains `rg`.
    pub fn find_covering(&self, rg: ByteRange) -> (r: Option<usize>)
        requires
            self.wf_graph(),
        ensures
            match r {
                Some(s) => self.is_live(s as int) && rg.spec_inside(self.n(s as int).range)
                    && (forall|f: int, k: int|
                    0 <= f < self.n(s as int).fields@.len() && 0 <= k < self.n(
                        s as int,
                    ).fields@[f]@.len() ==> !rg.spec_inside(
                        self.n(#[trigger] self.n(s as int).fields@[f]@[k] as int).range,
                    )),
                None => match self.root {
                    Some(rt) => !rg.spec_inside(self.n(rt as int).range),
                    None => true,
                },
            },
    {
        let mut cur: usize;
        match self.root {
            Some(rt) => {
                if !rg.inside(&self.nodes[rt].range) {
                    return None;
                }
                cur = rt;
            },
            None => {
                return None;
            },
        }
        loop
            invariant
                self.wf_graph(),
                cur < self.spec_len(),
                self.is_live(cur as int),
                rg.spec_inside(self.n(cur as int).range),
            decreases self.spec_len() - cur,
        {
            match self.first_child_covering(cur, rg) {
                Some(c) => {
                    cur = c;
                },
                None => {
                    return Some(cur);
                },
            }
        }
    }
}

} // verus!
