//! The symbol graph: an arena of AST cells.
//!
//! Every AST node is a [`Symbol`] slot in one growable arena. Owning edges run
//! from a symbol to the children recorded in its `fields`; all back-edges
//! (`parent`, `referrers`, `target`) are plain indices that act as weak
//! handles: they may name a slot whose symbol has since died (`live` is
//! false), and every consumer checks liveness before use, the way a weak
//! reference fails to upgrade. Slots are never reused, so an index never
//! dangles into a different symbol.
//!
//! The owning edges always point from a lower index to a higher one, which
//! makes the strong graph acyclic by construction and gives every downward
//! walk an obvious termination measure.

use vstd::prelude::*;
use crate::range::ByteRange;
use crate::schema::{FieldKind, Schema};

verus! {

/// One AST cell.
#[derive(Clone, Debug)]
pub struct Symbol {
    /// Index of this node's type in the schema table.
    pub type_id: usize,
    /// Source range of the node, shifted on every edit.
    pub range: ByteRange,
    /// Weak back-reference to the enclosing symbol; `None` only for the root.
    pub parent: Option<usize>,
    /// Owned children, one list per schema field, in source order.
    pub fields: Vec<Vec<usize>>,
    /// Weak back-edges from symbols that resolved to this one. May dangle.
    pub referrers: Vec<usize>,
    /// For a reference symbol: the symbol it currently resolves to. May dangle.
    pub target: Option<usize>,
    /// Range of a preceding comment attached to this symbol.
    pub comment: Option<ByteRange>,
    /// Whether the symbol is still part of the tree. Cleared when its owning
    /// edge is overwritten by a dynamic swap or a reparse.
    pub live: bool,
}

/// The arena of symbols plus the root handle.
#[derive(Clone, Debug)]
pub struct Ast {
    pub nodes: Vec<Symbol>,
    pub root: Option<usize>,
}

impl Ast {
    pub open spec fn spec_len(self) -> nat {
        self.nodes@.len()
    }

    /// The symbol in slot `i`.
    pub open spec fn n(self, i: int) -> Symbol {
        self.nodes@[i]
    }

    pub open spec fn is_live(self, i: int) -> bool {
        0 <= i < self.spec_len() && self.n(i).live
    }

    /// Does slot `p` list `c` among its owned children?
    pub open spec fn child_in_field(self, p: int, c: int) -> bool {
        exists|f: int, k: int|
            0 <= f < self.n(p).fields@.len() && 0 <= k < self.n(p).fields@[f]@.len()
                && #[trigger] self.n(p).fields@[f]@[k] == c
    }

    /// Per-slot structural soundness, schema aside: children exist at larger
    /// indices, point back to their parent, share its liveness, stay inside
    /// its range, and no child is listed twice.
    pub open spec fn node_graph_ok(self, i: int) -> bool {
        let s = self.n(i);
        &&& s.range.wf()
        &&& (match s.parent {
            Some(p) => 0 <= p < i,
            None => true,
        })
        &&& forall|f: int, k: int|
            0 <= f < s.fields@.len() && 0 <= k < s.fields@[f]@.len()
                ==> {
                    let c = #[trigger] s.fields@[f]@[k];
                    &&& i < c < self.spec_len()
                    &&& self.n(c as int).parent == Some(i as usize)
                    &&& self.n(c as int).live == s.live
                    &&& self.n(c as int).range.spec_inside(s.range)
                }
        &&& forall|f1: int, k1: int, f2: int, k2: int|
            0 <= f1 < s.fields@.len() && 0 <= k1 < s.fields@[f1]@.len()
                && 0 <= f2 < s.fields@.len() && 0 <= k2 < s.fields@[f2]@.len()
                && (f1 != f2 || k1 != k2)
                ==> #[trigger] s.fields@[f1]@[k1] != #[trigger] s.fields@[f2]@[k2]
    }

    /// The schema-free part of well-formedness.
    pub open spec fn wf_graph(self) -> bool {
        &&& forall|i: int| 0 <= i < self.spec_len() ==> self.node_graph_ok(i)
        &&& (match self.root {
            Some(r) => r < self.spec_len() && self.n(r as int).live
                && self.n(r as int).parent is None,
            None => forall|i: int| 0 <= i < self.spec_len() ==> !(#[trigger] self.n(i).live),
        })
        // a live non-root symbol hangs off a live parent that lists it
        &&& forall|i: int|
            0 <= i < self.spec_len() && self.n(i).live
                ==> match #[trigger] self.n(i).parent {
                    Some(p) => self.n(p as int).live && self.child_in_field(p as int, i),
                    None => self.root == Some(i as usize),
                }
        // a resolved reference's live target lists it as a referrer
        &&& forall|i: int|
            0 <= i < self.spec_len() && self.n(i).live
                ==> match #[trigger] self.n(i).target {
                    Some(t) => t < self.spec_len()
                        && (self.n(t as int).live ==> self.n(t as int).referrers@.contains(
                        i as usize,
                    )),
                    None => true,
                }
    }

    /// Every slot agrees with the schema: its type exists, its field lists
    /// match the declared fields in number, content type, and arity.
    pub open spec fn node_schema_ok(self, schema: Schema, i: int) -> bool {
        let s = self.n(i);
        &&& s.type_id < schema.spec_len()
        &&& s.fields@.len() == schema.types@[s.type_id as int].fields@.len()
        &&& forall|f: int, k: int|
            0 <= f < s.fields@.len() && 0 <= k < s.fields@[f]@.len()
                ==> schema.types@[s.type_id as int].fields@[f].types@.contains(
                    self.n(#[trigger] s.fields@[f]@[k] as int).type_id,
                )
        &&& forall|f: int|
            0 <= f < s.fields@.len()
                ==> match #[trigger] schema.types@[s.type_id as int].fields@[f].kind {
                    FieldKind::Single => s.fields@[f]@.len() == 1,
                    FieldKind::Optional => s.fields@[f]@.len() <= 1,
                    FieldKind::Many => true,
                }
    }

    pub open spec fn wf_schema(self, schema: Schema) -> bool {
        forall|i: int| 0 <= i < self.spec_len() ==> self.node_schema_ok(schema, i)
    }

    /// Full well-formedness: the invariant every completed build or
    /// incremental pass must re-establish.
    pub open spec fn wf(self, schema: Schema) -> bool {
        self.wf_graph() && self.wf_schema(schema)
    }

    /// An arena with no symbols at all.
    pub fn empty() -> (r: Ast)
        ensures
            r.spec_len() == 0,
            r.root is None,
            r.wf_graph(),
            forall|schema: Schema| r.wf(schema),
    {
        Ast { nodes: Vec::new(), root: None }
    }

    pub fn len(&self) -> (r: usize)
        ensures
            r == self.spec_len(),
    {
        self.nodes.len()
    }

    /// Range of symbol `i`.
    pub fn get_range(&self, i: usize) -> (r: ByteRange)
        requires
            i < self.spec_len(),
        ensures
            r == self.n(i as int).range,
    {
        self.nodes[i].range
    }

    /// Parent handle of symbol `i`.
    pub fn get_parent(&self, i: usize) -> (r: Option<usize>)
        requires
            i < self.spec_len(),
        ensures
            r == self.n(i as int).parent,
    {
        self.nodes[i].parent
    }

    /// Type of symbol `i`.
    pub fn get_type(&self, i: usize) -> (r: usize)
        requires
            i < self.spec_len(),
        ensures
            r == self.n(i as int).type_id,
    {
        self.nodes[i].type_id
    }

    /// Upgrade a weak handle: the index back, but only while the symbol lives.
    pub fn upgrade(&self, i: usize) -> (r: Option<usize>)
        ensures
            match r {
                Some(s) => s == i && self.is_live(i as int),
                None => !self.is_live(i as int),
            },
    {
        if i < self.nodes.len() && self.nodes[i].live {
            Some(i)
        } else {
            None
        }
    }

    /// Resolved target of symbol `i`, upgraded (`None` when unresolved or
    /// when the target has died).
    pub fn get_target(&self, i: usize) -> (r: Option<usize>)
        requires
            i < self.spec_len(),
        ensures
            match r {
                Some(t) => self.n(i as int).target == Some(t) && self.is_live(t as int),
                None => match self.n(i as int).target {
                    Some(t) => !self.is_live(t as int),
                    None => true,
                },
            },
    {
        match self.nodes[i].target {
            Some(t) => self.upgrade(t),
            None => None,
        }
    }

    /// Comment range attached to symbol `i`.
    pub fn get_comment_range(&self, i: usize) -> (r: Option<ByteRange>)
        requires
            i < self.spec_len(),
        ensures
            r == self.n(i as int).comment,
    {
        self.nodes[i].comment
    }

    /// The source text covered by symbol `i`, or `None` when the symbol's
    /// range reaches outside the document.
    pub fn get_text(&self, i: usize, text: &Vec<u8>) -> (r: Option<Vec<u8>>)
        requires
            i < self.spec_len(),
        ensures
            match r {
                Some(b) => self.n(i as int).range.wf() && self.n(i as int).range.end
                    <= text@.len() && b@ == text@.subrange(
                    self.n(i as int).range.start as int,
                    self.n(i as int).range.end as int,
                ),
                None => !(self.n(i as int).range.wf() && self.n(i as int).range.end
                    <= text@.len()),
            },
    {
        let rg = self.nodes[i].range;
        if rg.start <= rg.end && rg.end <= text.len() {
            Some(crate::text::slice_range(text, rg.start, rg.end))
        } else {
            None
        }
    }

    /// The children of symbol `i` in field `f`.
    pub fn children_of(&self, i: usize, f: usize) -> (r: Vec<usize>)
        requires
            i < self.spec_len(),
            f < self.n(i as int).fields@.len(),
        ensures
            r@ == self.n(i as int).fields@[f as int]@,
    {
        self.nodes[i].fields[f].clone()
    }

    /// How many fields symbol `i` has.
    pub fn field_count(&self, i: usize) -> (r: usize)
        requires
            i < self.spec_len(),
        ensures
            r == self.n(i as int).fields@.len(),
    {
        self.nodes[i].fields.len()
    }

    /// The first child of `cur` (in field order, then source order) whose
    /// range contains byte offset `o`.
    pub fn first_child_containing(&self, cur: usize, o: usize) -> (r: Option<usize>)
        requires
            self.wf_graph(),
            cur < self.spec_len(),
        ensures
            r == self.first_from_field(cur as int, o as int, 0),
            match r {
                Some(c) => {
                    &&& cur < c < self.spec_len()
                    &&& self.child_in_field(cur as int, c as int)
                    &&& self.n(c as int).live == self.n(cur as int).live
                    &&& self.n(c as int).range.spec_contains(o as int)
                },
                None => forall|f: int, k: int|
                    0 <= f < self.n(cur as int).fields@.len() && 0 <= k < self.n(
                        cur as int,
                    ).fields@[f]@.len() ==> !self.n(
                        #[trigger] self.n(cur as int).fields@[f]@[k] as int,
                    ).range.spec_contains(o as int),
            },
    {
        proof {
            assert(self.node_graph_ok(cur as int));
        }
        let nf = self.nodes[cur].fields.len();
        let mut f: usize = 0;
        while f < nf
            invariant
                self.wf_graph(),
                cur < self.spec_len(),
                self.node_graph_ok(cur as int),
                nf == self.n(cur as int).fields@.len(),
                f <= nf,
                self.first_from_field(cur as int, o as int, 0) == self.first_from_field(
                    cur as int,
                    o as int,
                    f as int,
                ),
                forall|ff: int, k: int|
                    0 <= ff < f && 0 <= k < self.n(cur as int).fields@[ff]@.len()
                        ==> !self.n(
                        #[trigger] self.n(cur as int).fields@[ff]@[k] as int,
                    ).range.spec_contains(o as int),
            decreases nf - f,
        {
            let nk = self.nodes[cur].fields[f].len();
            let mut k: usize = 0;
            while k < nk
                invariant
                    self.wf_graph(),
                    cur < self.spec_len(),
                    self.node_graph_ok(cur as int),
                    nf == self.n(cur as int).fields@.len(),
                    f < nf,
                    nk == self.n(cur as int).fields@[f as int]@.len(),
                    k <= nk,
                    self.first_from_field(cur as int, o as int, 0) == self.first_from_field(
                        cur as int,
                        o as int,
                        f as int,
                    ),
                    self.first_in_row(cur as int, o as int, f as int, 0) == self.first_in_row(
                        cur as int,
                        o as int,
                        f as int,
                        k as int,
                    ),
                    forall|kk: int| 0 <= kk < k ==> !self.n(
                        #[trigger] self.n(cur as int).fields@[f as int]@[kk] as int,
                    ).range.spec_contains(o as int),
                decreases nk - k,
            {
                let c = self.nodes[cur].fields[f][k];
                if self.nodes[c].range.contains_offset(o) {
                    assert(self.n(cur as int).fields@[f as int]@[k as int] == c);
                    proof {
                        assert(self.first_in_row(cur as int, o as int, f as int, k as int)
                            == Some(c));
                    }
                    return Some(c);
                }
                k += 1;
            }
            proof {
                assert(self.first_in_row(cur as int, o as int, f as int, nk as int) is None);
            }
            f += 1;
        }
        proof {
            assert(self.first_from_field(cur as int, o as int, nf as int) is None);
        }
        None
    }

    /// Descend from the root to the deepest live symbol whose range contains
    /// byte offset `o`, taking the first containing child at every level.
    pub fn find_at_offset(&self, o: usize) -> (r: Option<usize>)
        requires
            self.wf_graph(),
        ensures
            r == self.find_at_spec(o as int),
            match r {
                Some(s) => {
                    &&& self.is_live(s as int)
                    &&& self.n(s as int).range.spec_contains(o as int)
                    &&& forall|f: int, k: int|
                        0 <= f < self.n(s as int).fields@.len() && 0 <= k < self.n(
                            s as int,
                        ).fields@[f]@.len() ==> !self.n(
                            #[trigger] self.n(s as int).fields@[f]@[k] as int,
                        ).range.spec_contains(o as int)
                },
                None => match self.root {
                    Some(rt) => !self.n(rt as int).range.spec_contains(o as int),
                    None => true,
                },
            },
    {
        let mut cur: usize;
        match self.root {
            Some(rt) => {
                if !self.nodes[rt].range.contains_offset(o) {
                    return None;
                }
                cur = rt;
            },
            None => {
                return None;
            },
        }
        loop
            invariant
                self.wf_graph(),
                cur < self.spec_len(),
                self.is_live(cur as int),
                self.n(cur as int).range.spec_contains(o as int),
                self.find_at_spec(o as int) == Some(self.descend_spec(o as int, cur)),
            decreases self.spec_len() - cur,
        {
            match self.first_child_containing(cur, o) {
                Some(c) => {
                    proof {
                        lemma_descend_step_spec(*self, o as int, cur, c);
                    }
                    cur = c;
                },
                None => {
                    proof {
                        lemma_descend_fixpoint(*self, o as int, cur);
                    }
                    return Some(cur);
                },
            }
        }
    }
}

/// Is `j` inside the subtree rooted at `k` (following parent pointers)?
impl Ast {
    pub open spec fn in_subtree(self, k: int, j: int) -> bool
        decreases j,
            when self.wf_graph() && 0 <= j < self.spec_len()
            via Self::in_subtree_decreases
    {
        j == k || (match self.n(j).parent {
            Some(p) => self.in_subtree(k, p as int),
            None => false,
        })
    }

    #[via_fn]
    proof fn in_subtree_decreases(self, k: int, j: int) {
        assert(self.node_graph_ok(j));
    }
}


impl Ast {
    /// The first child of `cur` in field `f` at position `k` or later whose
    /// range contains offset `o`.
    pub open spec fn first_in_row(self, cur: int, o: int, f: int, k: int) -> Option<usize>
        decreases self.n(cur).fields@[f]@.len() - k,
            when 0 <= k
    {
        if k >= self.n(cur).fields@[f]@.len() {
            None
        } else if self.n(self.n(cur).fields@[f]@[k] as int).range.spec_contains(o) {
            Some(self.n(cur).fields@[f]@[k])
        } else {
            self.first_in_row(cur, o, f, k + 1)
        }
    }

    /// The first child of `cur` in field `f` or a later field whose range
    /// contains offset `o`.
    pub open spec fn first_from_field(self, cur: int, o: int, f: int) -> Option<usize>
        decreases self.n(cur).fields@.len() - f,
            when 0 <= f
    {
        if f >= self.n(cur).fields@.len() {
            None
        } else {
            match self.first_in_row(cur, o, f, 0) {
                Some(c) => Some(c),
                None => self.first_from_field(cur, o, f + 1),
            }
        }
    }

    /// What the descent lands on from `cur`: follow the first containing
    /// child until none contains `o`.
    pub open spec fn descend_spec(self, o: int, cur: usize) -> usize
        decreases self.spec_len() - cur,
            when self.wf_graph() && (cur as int) < self.spec_len()
            via Self::descend_spec_decreases
    {
        match self.first_from_field(cur as int, o, 0) {
            Some(c) => self.descend_spec(o, c),
            None => cur,
        }
    }

    #[via_fn]
    proof fn descend_spec_decreases(self, o: int, cur: usize) {
        match self.first_from_field(cur as int, o, 0) {
            Some(c) => {
                self.lemma_first_from_field_some(cur as int, o, 0);
            },
            None => {},
        }
    }

    /// The deepest symbol the descent from the root reaches, or `None` when
    /// there is no root or the root does not contain the offset. This is the
    /// whole meaning of `find_at_offset`.
    pub open spec fn find_at_spec(self, o: int) -> Option<usize> {
        match self.root {
            Some(rt) => if self.n(rt as int).range.spec_contains(o) {
                Some(self.descend_spec(o, rt))
            } else {
                None
            },
            None => None,
        }
    }

    /// A hit of the row search is a proper child past `cur` that contains `o`.
    pub proof fn lemma_first_in_row_some(self, cur: int, o: int, f: int, k: int)
        requires
            self.wf_graph(),
            0 <= cur < self.spec_len(),
            0 <= f < self.n(cur).fields@.len(),
            0 <= k,
        ensures
            match self.first_in_row(cur, o, f, k) {
                Some(c) => cur < c < self.spec_len() && self.child_in_field(cur, c as int)
                    && self.n(c as int).live == self.n(cur).live && self.n(
                    c as int,
                ).range.spec_contains(o),
                None => true,
            },
        decreases self.n(cur).fields@[f]@.len() - k,
    {
        assert(self.node_graph_ok(cur));
        if k >= self.n(cur).fields@[f]@.len() {
        } else if self.n(self.n(cur).fields@[f]@[k] as int).range.spec_contains(o) {
            assert(self.n(cur).fields@[f]@[k] == self.n(cur).fields@[f]@[k]);
        } else {
            self.lemma_first_in_row_some(cur, o, f, k + 1);
        }
    }

    /// A hit of the field search is a proper child past `cur` containing `o`.
    pub proof fn lemma_first_from_field_some(self, cur: int, o: int, f: int)
        requires
            self.wf_graph(),
            0 <= cur < self.spec_len(),
            0 <= f,
        ensures
            match self.first_from_field(cur, o, f) {
                Some(c) => cur < c < self.spec_len() && self.child_in_field(cur, c as int)
                    && self.n(c as int).live == self.n(cur).live && self.n(
                    c as int,
                ).range.spec_contains(o),
                None => true,
            },
        decreases self.n(cur).fields@.len() - f,
    {
        if f >= self.n(cur).fields@.len() {
        } else {
            self.lemma_first_in_row_some(cur, o, f, 0);
            match self.first_in_row(cur, o, f, 0) {
                Some(c) => {},
                None => {
                    self.lemma_first_from_field_some(cur, o, f + 1);
                },
            }
        }
    }
}


/// Where the search finds no containing child, the descent stops.
proof fn lemma_descend_fixpoint(a: Ast, o: int, cur: usize)
    requires
        a.wf_graph(),
        (cur as int) < a.spec_len(),
        a.first_from_field(cur as int, o, 0) is None,
    ensures
        a.descend_spec(o, cur) == cur,
{
}

/// Where the search finds a containing child, the descent continues there.
proof fn lemma_descend_step_spec(a: Ast, o: int, cur: usize, c: usize)
    requires
        a.wf_graph(),
        (cur as int) < a.spec_len(),
        a.first_from_field(cur as int, o, 0) == Some(c),
    ensures
        a.descend_spec(o, cur) == a.descend_spec(o, c),
{
    a.lemma_first_from_field_some(cur as int, o, 0);
}

/// What well-formedness says of one live symbol's parent link.
pub proof fn lemma_live_parent(a: Ast, i: int)
    requires
        a.wf_graph(),
        a.is_live(i),
    ensures
        match a.n(i).parent {
            Some(p) => 0 <= p < i && a.n(p as int).live && a.child_in_field(p as int, i),
            None => a.root == Some(i as usize),
        },
{
    assert(a.node_graph_ok(i));
    assert(0 <= i < a.spec_len() && a.n(i).live);
}

/// Nothing below `k` in the arena can be inside `k`'s subtree.
pub proof fn lemma_in_subtree_below(a: Ast, k: int, j: int)
    requires
        a.wf_graph(),
        0 <= j < a.spec_len(),
        j < k,
    ensures
        !a.in_subtree(k, j),
    decreases j,
{
    assert(a.node_graph_ok(j));
    match a.n(j).parent {
        Some(p) => {
            lemma_in_subtree_below(a, k, p as int);
        },
        None => {},
    }
}

/// Two arenas agree on everything the lookup walks: shape, ranges, liveness
/// and types — `target`, `referrers` and `comment` fields are free to differ.
pub open spec fn same_skeleton(a: Ast, b: Ast) -> bool {
    &&& a.spec_len() == b.spec_len()
    &&& a.root == b.root
    &&& forall|j: int| 0 <= j < a.spec_len() ==> (#[trigger] a.n(j)).type_id == b.n(j).type_id
        && a.n(j).range == b.n(j).range && a.n(j).parent == b.n(j).parent && a.n(j).fields == b.n(
        j,
    ).fields && a.n(j).live == b.n(j).live
}

/// The row search reads only the skeleton.
proof fn lemma_first_in_row_skeleton(a: Ast, b: Ast, cur: int, o: int, f: int, k: int)
    requires
        same_skeleton(a, b),
        a.wf_graph(),
        0 <= cur < a.spec_len(),
        0 <= f < a.n(cur).fields@.len(),
        0 <= k,
    ensures
        a.first_in_row(cur, o, f, k) == b.first_in_row(cur, o, f, k),
    decreases a.n(cur).fields@[f]@.len() - k,
{
    assert(a.n(cur).fields == b.n(cur).fields);
    assert(a.node_graph_ok(cur));
    if k >= a.n(cur).fields@[f]@.len() {
    } else {
        let c = a.n(cur).fields@[f]@[k];
        assert(cur < c < a.spec_len());
        assert(a.n(c as int).range == b.n(c as int).range);
        lemma_first_in_row_skeleton(a, b, cur, o, f, k + 1);
    }
}

/// The field search reads only the skeleton.
proof fn lemma_first_from_field_skeleton(a: Ast, b: Ast, cur: int, o: int, f: int)
    requires
        same_skeleton(a, b),
        a.wf_graph(),
        0 <= cur < a.spec_len(),
        0 <= f,
    ensures
        a.first_from_field(cur, o, f) == b.first_from_field(cur, o, f),
    decreases a.n(cur).fields@.len() - f,
{
    assert(a.n(cur).fields == b.n(cur).fields);
    if f >= a.n(cur).fields@.len() {
    } else {
        lemma_first_in_row_skeleton(a, b, cur, o, f, 0);
        lemma_first_from_field_skeleton(a, b, cur, o, f + 1);
    }
}

/// The descent reads only the skeleton.
proof fn lemma_descend_skeleton(a: Ast, b: Ast, o: int, cur: usize)
    requires
        same_skeleton(a, b),
        a.wf_graph(),
        b.wf_graph(),
        (cur as int) < a.spec_len(),
    ensures
        a.descend_spec(o, cur) == b.descend_spec(o, cur),
    decreases a.spec_len() - cur,
{
    lemma_first_from_field_skeleton(a, b, cur as int, o, 0);
    match a.first_from_field(cur as int, o, 0) {
        Some(c) => {
            a.lemma_first_from_field_some(cur as int, o, 0);
            lemma_descend_skeleton(a, b, o, c);
        },
        None => {},
    }
}

/// The deepest-symbol search reads only the skeleton.
pub proof fn lemma_find_at_skeleton(a: Ast, b: Ast, o: int)
    requires
        same_skeleton(a, b),
        a.wf_graph(),
        b.wf_graph(),
    ensures
        a.find_at_spec(o) == b.find_at_spec(o),
{
    match a.root {
        Some(rt) => {
            assert(a.n(rt as int).range == b.n(rt as int).range);
            if a.n(rt as int).range.spec_contains(o) {
                lemma_descend_skeleton(a, b, o, rt);
            }
        },
        None => {},
    }
}

/// The descent never leaves the arena.
proof fn lemma_descend_in_bounds(a: Ast, o: int, cur: usize)
    requires
        a.wf_graph(),
        (cur as int) < a.spec_len(),
    ensures
        (a.descend_spec(o, cur) as int) < a.spec_len(),
    decreases a.spec_len() - cur,
{
    match a.first_from_field(cur as int, o, 0) {
        Some(c) => {
            a.lemma_first_from_field_some(cur as int, o, 0);
            lemma_descend_in_bounds(a, o, c);
        },
        None => {},
    }
}

impl Ast {
    /// The deepest-symbol search never leaves the arena.
    pub proof fn lemma_find_at_in_bounds(self, o: int)
        requires
            self.wf_graph(),
        ensures
            match self.find_at_spec(o) {
                Some(e) => (e as int) < self.spec_len(),
                None => true,
            },
    {
        match self.root {
            Some(rt) => {
                if self.n(rt as int).range.spec_contains(o) {
                    lemma_descend_in_bounds(self, o, rt);
                }
            },
            None => {},
        }
    }
}

} // verus!
