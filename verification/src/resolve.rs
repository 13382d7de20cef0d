//! Deferred resolution: the identifier-lookup walk for references, and the
//! drains of the two work queues.

use vstd::prelude::*;
use crate::schema::Schema;
use crate::symbol::Ast;
use crate::builder::MainBuilder;
use crate::diag::{Diagnostic, DiagnosticKind, Severity, push_diag_spec};

verus! {

/// The nearest strict ancestor of `i` that is live and scope-typed: the
/// whole meaning of `get_parent_scope`.
pub open spec fn nearest_scope(a: Ast, schema: Schema, i: int) -> Option<usize>
    decreases i,
        when a.wf_graph() && 0 <= i < a.spec_len()
        via nearest_scope_decreases
{
    match a.n(i).parent {
        Some(p) => if a.n(p as int).live && (a.n(p as int).type_id as int) < schema.spec_len()
            && schema.types@[a.n(p as int).type_id as int].is_scope {
            Some(p)
        } else {
            nearest_scope(a, schema, p as int)
        },
        None => None,
    }
}

#[via_fn]
proof fn nearest_scope_decreases(a: Ast, schema: Schema, i: int) {
    assert(a.node_graph_ok(i));
}

/// Stepping to a non-scope parent keeps the nearest scope.
proof fn lemma_nearest_scope_step(a: Ast, schema: Schema, i: int)
    requires
        a.wf_graph(),
        0 <= i < a.spec_len(),
    ensures
        match a.n(i).parent {
            Some(p) => nearest_scope(a, schema, i) == (if a.n(p as int).live && (a.n(
                p as int,
            ).type_id as int) < schema.spec_len() && schema.types@[a.n(
                p as int,
            ).type_id as int].is_scope {
                Some(p)
            } else {
                nearest_scope(a, schema, p as int)
            }),
            None => nearest_scope(a, schema, i) is None,
        },
{
    assert(a.node_graph_ok(i));
}

/// The nearest scope of `i` is a live, scope-typed strict ancestor.
proof fn lemma_nearest_scope_props(a: Ast, schema: Schema, i: int)
    requires
        a.wf_graph(),
        0 <= i < a.spec_len(),
    ensures
        match nearest_scope(a, schema, i) {
            Some(p) => 0 <= p < i && a.n(p as int).live && (a.n(p as int).type_id as int)
                < schema.spec_len() && schema.types@[a.n(p as int).type_id as int].is_scope,
            None => true,
        },
    decreases i,
{
    assert(a.node_graph_ok(i));
    lemma_nearest_scope_step(a, schema, i);
    match a.n(i).parent {
        Some(p) => {
            if !(a.n(p as int).live && (a.n(p as int).type_id as int) < schema.spec_len()
                && schema.types@[a.n(p as int).type_id as int].is_scope) {
                lemma_nearest_scope_props(a, schema, p as int);
            }
        },
        None => {},
    }
}

/// The acceptable hit at one offset: the spelling occurs there, the descent
/// lands on a symbol with a readable range, equal spelling, and a range other
/// than the reference's own.
pub open spec fn hit_at(
    a: Ast,
    text: Seq<u8>,
    pattern: Seq<u8>,
    ir: crate::range::ByteRange,
    off: int,
) -> Option<usize> {
    if !crate::text::spec_match_at(text, pattern, off) {
        None
    } else {
        match a.find_at_spec(off) {
            Some(e) => {
                let er = a.n(e as int).range;
                if er != ir && er.wf() && er.end <= text.len() && text.subrange(
                    er.start as int,
                    er.end as int,
                ) == pattern {
                    Some(e)
                } else {
                    None
                }
            },
            None => None,
        }
    }
}

/// The first acceptable hit at an offset in `[off, hi)`.
pub open spec fn scan_scope(
    a: Ast,
    text: Seq<u8>,
    pattern: Seq<u8>,
    ir: crate::range::ByteRange,
    off: int,
    hi: int,
) -> Option<usize>
    decreases hi - off,
{
    if off >= hi {
        None
    } else {
        match hit_at(a, text, pattern, ir, off) {
            Some(e) => Some(e),
            None => scan_scope(a, text, pattern, ir, off + 1, hi),
        }
    }
}

/// The identifier lookup from a scope outward: scan each enclosing scope's
/// text for the first acceptable hit, and give up at the root.
pub open spec fn find_ref_from(
    a: Ast,
    schema: Schema,
    text: Seq<u8>,
    pattern: Seq<u8>,
    ir: crate::range::ByteRange,
    sc: Option<usize>,
) -> Option<usize>
    decreases (match sc {
        Some(s) => s as int + 1,
        None => 0,
    }),
        when a.wf_graph() && (match sc {
            Some(s) => (s as int) < a.spec_len(),
            None => true,
        })
        via find_ref_from_decreases
{
    match sc {
        None => None,
        Some(s) => {
            let rg = a.n(s as int).range;
            let hi = if rg.end <= text.len() {
                rg.end as int
            } else {
                text.len() as int
            };
            match scan_scope(a, text, pattern, ir, rg.start as int, hi) {
                Some(e) => Some(e),
                None => find_ref_from(a, schema, text, pattern, ir, nearest_scope(
                    a,
                    schema,
                    s as int,
                )),
            }
        },
    }
}

#[via_fn]
proof fn find_ref_from_decreases(
    a: Ast,
    schema: Schema,
    text: Seq<u8>,
    pattern: Seq<u8>,
    ir: crate::range::ByteRange,
    sc: Option<usize>,
) {
    match sc {
        Some(s) => {
            lemma_nearest_scope_props(a, schema, s as int);
        },
        None => {},
    }
}

/// The whole meaning of the default identifier lookup for reference `i`: its
/// own spelling, looked up outward from its nearest scope; `None` when the
/// reference's own range is unreadable.
pub open spec fn find_ref_spec(a: Ast, schema: Schema, text: Seq<u8>, i: int) -> Option<usize> {
    let ir = a.n(i).range;
    if ir.wf() && ir.end <= text.len() {
        find_ref_from(
            a,
            schema,
            text,
            text.subrange(ir.start as int, ir.end as int),
            ir,
            nearest_scope(a, schema, i),
        )
    } else {
        None
    }
}

/// Unfolding of the lookup when the scope's scan misses.
proof fn lemma_find_from_miss(
    a: Ast,
    schema: Schema,
    text: Seq<u8>,
    pattern: Seq<u8>,
    ir: crate::range::ByteRange,
    s: usize,
)
    requires
        a.wf_graph(),
        (s as int) < a.spec_len(),
        scan_scope(
            a,
            text,
            pattern,
            ir,
            a.n(s as int).range.start as int,
            if a.n(s as int).range.end <= text.len() {
                a.n(s as int).range.end as int
            } else {
                text.len() as int
            },
        ) is None,
    ensures
        find_ref_from(a, schema, text, pattern, ir, Some(s)) == find_ref_from(
            a,
            schema,
            text,
            pattern,
            ir,
            nearest_scope(a, schema, s as int),
        ),
{
    lemma_nearest_scope_props(a, schema, s as int);
}

/// Unfolding of the lookup when the scope's scan hits.
proof fn lemma_find_from_hit(
    a: Ast,
    schema: Schema,
    text: Seq<u8>,
    pattern: Seq<u8>,
    ir: crate::range::ByteRange,
    s: usize,
    e: usize,
)
    requires
        a.wf_graph(),
        (s as int) < a.spec_len(),
        scan_scope(
            a,
            text,
            pattern,
            ir,
            a.n(s as int).range.start as int,
            if a.n(s as int).range.end <= text.len() {
                a.n(s as int).range.end as int
            } else {
                text.len() as int
            },
        ) == Some(e),
    ensures
        find_ref_from(a, schema, text, pattern, ir, Some(s)) == Some(e),
{
}

impl Ast {
    /// The nearest ancestor of `i` whose type the schema marks as a scope.
    pub fn get_parent_scope(&self, schema: &Schema, i: usize) -> (r: Option<usize>)
        requires
            self.wf_graph(),
            self.wf_schema(*schema),
            i < self.spec_len(),
        ensures
            r == nearest_scope(*self, *schema, i as int),
            match r {
                Some(s) => s < i && self.is_live(s as int)
                    && schema.types@[self.n(s as int).type_id as int].is_scope,
                None => true,
            },
    {
        let mut cur = i;
        loop
            invariant
                self.wf_graph(),
                self.wf_schema(*schema),
                cur <= i,
                cur < self.spec_len(),
                nearest_scope(*self, *schema, i as int) == nearest_scope(
                    *self,
                    *schema,
                    cur as int,
                ),
            decreases cur,
        {
            proof {
                assert(self.node_graph_ok(cur as int));
                lemma_nearest_scope_step(*self, *schema, cur as int);
            }
            match self.nodes[cur].parent {
                Some(p) => {
                    proof {
                        assert(self.node_schema_ok(*schema, p as int));
                    }
                    if self.nodes[p].live
                        && crate::schema::node_is_scope(schema, self.nodes[p].type_id) {
                        return Some(p);
                    }
                    cur = p;
                },
                None => {
                    return None;
                },
            }
        }
    }

    /// The default identifier lookup for a reference: walk the enclosing
    /// scopes outward; in each scope, scan its source text for occurrences of
    /// the reference's own spelling; at each occurrence, descend to the
    /// symbol there and accept the first whose text equals the spelling and
    /// whose range is not the reference's own. Reaching the root without a
    /// match means "not yet".
    pub fn find_in_file(&self, schema: &Schema, text: &Vec<u8>, i: usize) -> (r: Option<usize>)
        requires
            self.wf_graph(),
            self.wf_schema(*schema),
            i < self.spec_len(),
        ensures
            r == find_ref_spec(*self, *schema, text@, i as int),
            match r {
                Some(t) => {
                    &&& self.is_live(t as int)
                    &&& self.n(t as int).range != self.n(i as int).range
                    &&& self.n(i as int).range.wf() && self.n(i as int).range.end <= text@.len()
                    &&& self.n(t as int).range.wf() && self.n(t as int).range.end <= text@.len()
                    &&& text@.subrange(
                        self.n(t as int).range.start as int,
                        self.n(t as int).range.end as int,
                    ) == text@.subrange(
                        self.n(i as int).range.start as int,
                        self.n(i as int).range.end as int,
                    )
                },
                None => true,
            },
    {
        let ghost ir = self.n(i as int).range;
        let pattern = match self.get_text(i, text) {
            Some(p) => p,
            None => {
                return None;
            },
        };
        let m = pattern.len();
        let mut scope_opt = self.get_parent_scope(schema, i);
        loop
            invariant
                self.wf_graph(),
                self.wf_schema(*schema),
                i < self.spec_len(),
                m == pattern@.len(),
                ir == self.n(i as int).range,
                self.n(i as int).range.wf(),
                self.n(i as int).range.end <= text@.len(),
                pattern@ == text@.subrange(
                    self.n(i as int).range.start as int,
                    self.n(i as int).range.end as int,
                ),
                match scope_opt {
                    Some(s) => s < self.spec_len(),
                    None => true,
                },
                find_ref_spec(*self, *schema, text@, i as int) == find_ref_from(
                    *self,
                    *schema,
                    text@,
                    pattern@,
                    ir,
                    scope_opt,
                ),
            decreases (match scope_opt {
                Some(s) => s as int + 1,
                None => 0,
            }),
        {
            let scope = match scope_opt {
                Some(s) => s,
                None => {
                    return None;
                },
            };
            let rg = self.nodes[scope].range;
            let lo = rg.start;
            let hi = if rg.end <= text.len() {
                rg.end
            } else {
                text.len()
            };
            let mut off: usize = lo;
            while off < hi
                invariant
                    self.wf_graph(),
                    self.wf_schema(*schema),
                    i < self.spec_len(),
                    scope < self.spec_len(),
                    m == pattern@.len(),
                    ir == self.n(i as int).range,
                    self.n(i as int).range.wf(),
                    self.n(i as int).range.end <= text@.len(),
                    pattern@ == text@.subrange(
                        self.n(i as int).range.start as int,
                        self.n(i as int).range.end as int,
                    ),
                    hi <= text@.len(),
                    rg == self.n(scope as int).range,
                    lo == rg.start,
                    hi as int == (if rg.end <= text@.len() {
                        rg.end as int
                    } else {
                        text@.len() as int
                    }),
                    lo <= off,
                    find_ref_spec(*self, *schema, text@, i as int) == find_ref_from(
                        *self,
                        *schema,
                        text@,
                        pattern@,
                        ir,
                        Some(scope),
                    ),
                    scan_scope(*self, text@, pattern@, ir, lo as int, hi as int) == scan_scope(
                        *self,
                        text@,
                        pattern@,
                        ir,
                        off as int,
                        hi as int,
                    ),
                decreases hi - off,
            {
                let ghost pre_off = off as int;
                if crate::text::match_at(text, &pattern, off) {
                    match self.find_at_offset(off) {
                        Some(elem) => {
                            let er = self.nodes[elem].range;
                            let irx = self.nodes[i].range;
                            if !(er.start == irx.start && er.end == irx.end) {
                                match self.get_text(elem, text) {
                                    Some(et) => {
                                        if crate::text::bytes_eq(&et, &pattern) {
                                            proof {
                                                assert(hit_at(*self, text@, pattern@, ir, pre_off)
                                                    == Some(elem));
                                                assert(scan_scope(
                                                    *self,
                                                    text@,
                                                    pattern@,
                                                    ir,
                                                    pre_off,
                                                    hi as int,
                                                ) == Some(elem));
                                                lemma_find_from_hit(
                                                    *self,
                                                    *schema,
                                                    text@,
                                                    pattern@,
                                                    ir,
                                                    scope,
                                                    elem,
                                                );
                                            }
                                            return Some(elem);
                                        }
                                    },
                                    None => {},
                                }
                            }
                        },
                        None => {},
                    }
                }
                proof {
                    assert(hit_at(*self, text@, pattern@, ir, pre_off) is None);
                    assert(scan_scope(*self, text@, pattern@, ir, pre_off, hi as int)
                        == scan_scope(*self, text@, pattern@, ir, pre_off + 1, hi as int));
                }
                off += 1;
            }
            proof {
                assert(self.node_graph_ok(scope as int));
                assert(scan_scope(*self, text@, pattern@, ir, hi as int, hi as int) is None);
                lemma_find_from_miss(*self, *schema, text@, pattern@, ir, scope);
            }
            scope_opt = self.get_parent_scope(schema, scope);
        }
    }
}

/// The scope walk reads only the skeleton.
proof fn lemma_nearest_scope_skeleton(a: Ast, b: Ast, schema: Schema, i: int)
    requires
        crate::symbol::same_skeleton(a, b),
        a.wf_graph(),
        b.wf_graph(),
        0 <= i < a.spec_len(),
    ensures
        nearest_scope(a, schema, i) == nearest_scope(b, schema, i),
    decreases i,
{
    assert(a.node_graph_ok(i));
    lemma_nearest_scope_step(a, schema, i);
    lemma_nearest_scope_step(b, schema, i);
    match a.n(i).parent {
        Some(p) => {
            assert(a.n(p as int).live == b.n(p as int).live);
            assert(a.n(p as int).type_id == b.n(p as int).type_id);
            if !(a.n(p as int).live && (a.n(p as int).type_id as int) < schema.spec_len()
                && schema.types@[a.n(p as int).type_id as int].is_scope) {
                lemma_nearest_scope_skeleton(a, b, schema, p as int);
            }
        },
        None => {},
    }
}

/// One scan step reads only the skeleton.
proof fn lemma_hit_at_skeleton(
    a: Ast,
    b: Ast,
    text: Seq<u8>,
    pattern: Seq<u8>,
    ir: crate::range::ByteRange,
    off: int,
)
    requires
        crate::symbol::same_skeleton(a, b),
        a.wf_graph(),
        b.wf_graph(),
    ensures
        hit_at(a, text, pattern, ir, off) == hit_at(b, text, pattern, ir, off),
{
    crate::symbol::lemma_find_at_skeleton(a, b, off);
    a.lemma_find_at_in_bounds(off);
    match a.find_at_spec(off) {
        Some(e) => {
            assert(a.n(e as int).range == b.n(e as int).range);
        },
        None => {},
    }
}

/// The scope scan reads only the skeleton.
proof fn lemma_scan_scope_skeleton(
    a: Ast,
    b: Ast,
    text: Seq<u8>,
    pattern: Seq<u8>,
    ir: crate::range::ByteRange,
    off: int,
    hi: int,
)
    requires
        crate::symbol::same_skeleton(a, b),
        a.wf_graph(),
        b.wf_graph(),
    ensures
        scan_scope(a, text, pattern, ir, off, hi) == scan_scope(b, text, pattern, ir, off, hi),
    decreases hi - off,
{
    if off >= hi {
    } else {
        lemma_hit_at_skeleton(a, b, text, pattern, ir, off);
        lemma_scan_scope_skeleton(a, b, text, pattern, ir, off + 1, hi);
    }
}

/// The outward lookup reads only the skeleton.
proof fn lemma_find_from_skeleton(
    a: Ast,
    b: Ast,
    schema: Schema,
    text: Seq<u8>,
    pattern: Seq<u8>,
    ir: crate::range::ByteRange,
    sc: Option<usize>,
)
    requires
        crate::symbol::same_skeleton(a, b),
        a.wf_graph(),
        b.wf_graph(),
        match sc {
            Some(s) => (s as int) < a.spec_len(),
            None => true,
        },
    ensures
        find_ref_from(a, schema, text, pattern, ir, sc) == find_ref_from(
            b,
            schema,
            text,
            pattern,
            ir,
            sc,
        ),
    decreases (match sc {
        Some(s) => s as int + 1,
        None => 0,
    }),
{
    match sc {
        Some(s) => {
            assert(a.n(s as int).range == b.n(s as int).range);
            let rg = a.n(s as int).range;
            let hi = if rg.end <= text.len() {
                rg.end as int
            } else {
                text.len() as int
            };
            lemma_scan_scope_skeleton(a, b, text, pattern, ir, rg.start as int, hi);
            lemma_nearest_scope_skeleton(a, b, schema, s as int);
            lemma_nearest_scope_props(a, schema, s as int);
            match scan_scope(a, text, pattern, ir, rg.start as int, hi) {
                Some(e) => {
                    lemma_find_from_hit(a, schema, text, pattern, ir, s, e);
                    lemma_find_from_hit(b, schema, text, pattern, ir, s, e);
                },
                None => {
                    lemma_find_from_miss(a, schema, text, pattern, ir, s);
                    lemma_find_from_miss(b, schema, text, pattern, ir, s);
                    lemma_find_from_skeleton(
                        a,
                        b,
                        schema,
                        text,
                        pattern,
                        ir,
                        nearest_scope(a, schema, s as int),
                    );
                },
            }
        },
        None => {},
    }
}

/// The whole lookup reads only the skeleton: a pass that writes nothing but
/// `target` and `referrers` fields cannot change any entry's outcome.
pub proof fn lemma_find_ref_spec_skeleton(a: Ast, b: Ast, schema: Schema, text: Seq<u8>, i: int)
    requires
        crate::symbol::same_skeleton(a, b),
        a.wf_graph(),
        b.wf_graph(),
        0 <= i < a.spec_len(),
    ensures
        find_ref_spec(a, schema, text, i) == find_ref_spec(b, schema, text, i),
{
    assert(a.n(i).range == b.n(i).range);
    let ir = a.n(i).range;
    if ir.wf() && ir.end <= text.len() {
        lemma_nearest_scope_skeleton(a, b, schema, i);
        lemma_nearest_scope_props(a, schema, i);
        lemma_find_from_skeleton(
            a,
            b,
            schema,
            text,
            text.subrange(ir.start as int, ir.end as int),
            ir,
            nearest_scope(a, schema, i),
        );
    }
}

/// Does a queue entry stay after a reference drain: it is alive and its
/// lookup still comes up empty.
pub open spec fn ref_kept(a: Ast, schema: Schema, text: Seq<u8>, x: usize) -> bool {
    a.is_live(x as int) && find_ref_spec(a, schema, text, x as int) is None
}

/// The references queue left after a drain, from position `i` on: exactly
/// the live entries whose lookup found nothing, in order. Dead entries and
/// resolved entries leave.
pub open spec fn kept_refs(
    a: Ast,
    schema: Schema,
    text: Seq<u8>,
    q: Seq<usize>,
    i: int,
) -> Seq<usize>
    decreases q.len() - i,
{
    if i < 0 || i >= q.len() {
        Seq::empty()
    } else if ref_kept(a, schema, text, q[i]) {
        seq![q[i]] + kept_refs(a, schema, text, q, i + 1)
    } else {
        kept_refs(a, schema, text, q, i + 1)
    }
}

/// Every entry the drain keeps is a kept entry.
proof fn lemma_kept_refs_all_kept(a: Ast, schema: Schema, text: Seq<u8>, q: Seq<usize>, i: int)
    requires
        0 <= i,
    ensures
        forall|w: int| 0 <= w < kept_refs(a, schema, text, q, i).len() ==> ref_kept(
            a,
            schema,
            text,
            #[trigger] kept_refs(a, schema, text, q, i)[w],
        ),
    decreases q.len() - i,
{
    if i >= q.len() {
    } else {
        lemma_kept_refs_all_kept(a, schema, text, q, i + 1);
        let rest = kept_refs(a, schema, text, q, i + 1);
        if ref_kept(a, schema, text, q[i]) {
            assert forall|w: int| 0 <= w < kept_refs(a, schema, text, q, i).len() implies
                ref_kept(a, schema, text, #[trigger] kept_refs(a, schema, text, q, i)[w]) by {
                assert(kept_refs(a, schema, text, q, i) == seq![q[i]] + rest);
                if w == 0 {
                    assert(kept_refs(a, schema, text, q, i)[0] == q[i]);
                } else {
                    assert(kept_refs(a, schema, text, q, i)[w] == rest[w - 1]);
                }
            }
        }
    }
}

/// A queue of kept entries re-drains to itself.
proof fn lemma_kept_refs_fixpoint(a0: Ast, a1: Ast, schema: Schema, text: Seq<u8>, q: Seq<usize>, i: int)
    requires
        crate::symbol::same_skeleton(a0, a1),
        a0.wf_graph(),
        a1.wf_graph(),
        0 <= i <= q.len(),
        forall|w: int| i <= w < q.len() ==> ref_kept(a0, schema, text, #[trigger] q[w]),
    ensures
        kept_refs(a1, schema, text, q, i) == q.subrange(i, q.len() as int),
    decreases q.len() - i,
{
    if i >= q.len() {
        assert(kept_refs(a1, schema, text, q, i) =~= q.subrange(i, q.len() as int));
    } else {
        assert(ref_kept(a0, schema, text, q[i]));
        assert(a0.is_live(q[i] as int));
        lemma_find_ref_spec_skeleton(a0, a1, schema, text, q[i] as int);
        assert(a1.is_live(q[i] as int));
        assert(ref_kept(a1, schema, text, q[i]));
        lemma_kept_refs_fixpoint(a0, a1, schema, text, q, i + 1);
        assert(kept_refs(a1, schema, text, q, i) == seq![q[i]] + kept_refs(
            a1,
            schema,
            text,
            q,
            i + 1,
        ));
        assert(seq![q[i]] + q.subrange(i + 1, q.len() as int) =~= q.subrange(
            i,
            q.len() as int,
        ));
    }
}

/// Draining the references queue twice is the same as draining it once: the
/// entries the first drain keeps are alive with an empty lookup; the first
/// drain changes nothing the lookup reads; so a second drain keeps them all
/// and resolves nothing.
pub proof fn lemma_resolve_references_idempotent(
    a0: Ast,
    a1: Ast,
    schema: Schema,
    text: Seq<u8>,
    q: Seq<usize>,
)
    requires
        crate::symbol::same_skeleton(a0, a1),
        a0.wf_graph(),
        a1.wf_graph(),
    ensures
        kept_refs(a1, schema, text, kept_refs(a0, schema, text, q, 0), 0) == kept_refs(
            a0,
            schema,
            text,
            q,
            0,
        ),
{
    let kq = kept_refs(a0, schema, text, q, 0);
    lemma_kept_refs_all_kept(a0, schema, text, q, 0);
    lemma_kept_refs_fixpoint(a0, a1, schema, text, kq, 0);
    assert(kq.subrange(0, kq.len() as int) =~= kq);
}

/// What one semantic check decided: passed, must be retried later, or failed.
#[derive(Clone, Copy, Debug, PartialEq, Eq, Structural)]
pub enum CheckOutcome {
    Passed,
    Retry,
    Failed,
}

/// Does entry `q` with outcome `o` stay in the checks queue?
pub open spec fn check_kept(ast: Ast, q: usize, o: CheckOutcome) -> bool {
    ast.is_live(q as int) && (o is Retry || o is Failed)
}

/// The checks queue left after a drain, from position `i` on.
pub open spec fn kept_checks(ast: Ast, q: Seq<usize>, o: Seq<CheckOutcome>, i: int) -> Seq<usize>
    decreases q.len() - i,
{
    if i < 0 || i >= q.len() {
        Seq::empty()
    } else if check_kept(ast, q[i], o[i]) {
        seq![q[i]] + kept_checks(ast, q, o, i + 1)
    } else {
        kept_checks(ast, q, o, i + 1)
    }
}

/// The outcomes of the kept entries, in queue order.
pub open spec fn kept_outcomes(ast: Ast, q: Seq<usize>, o: Seq<CheckOutcome>, i: int) -> Seq<
    CheckOutcome,
>
    decreases q.len() - i,
{
    if i < 0 || i >= q.len() {
        Seq::empty()
    } else if check_kept(ast, q[i], o[i]) {
        seq![o[i]] + kept_outcomes(ast, q, o, i + 1)
    } else {
        kept_outcomes(ast, q, o, i + 1)
    }
}

/// The diagnostic a failed check on symbol `q` reports.
pub open spec fn check_diag(ast: Ast, q: usize) -> Diagnostic {
    Diagnostic { range: ast.n(q as int).range, severity: Severity::Error, kind: DiagnosticKind::CheckFailed }
}

/// The diagnostics after a drain of the checks queue from position `i` on.
pub open spec fn check_drain_diags(
    ast: Ast,
    q: Seq<usize>,
    o: Seq<CheckOutcome>,
    i: int,
    d: Seq<Diagnostic>,
) -> Seq<Diagnostic>
    decreases q.len() - i,
{
    if i < 0 || i >= q.len() {
        d
    } else if ast.is_live(q[i] as int) && o[i] is Failed {
        check_drain_diags(ast, q, o, i + 1, push_diag_spec(d, check_diag(ast, q[i])))
    } else {
        check_drain_diags(ast, q, o, i + 1, d)
    }
}

impl MainBuilder {
    /// Drain the checks queue against the outcomes the host computed, one per
    /// queue entry in order. A passed or dead entry leaves the queue; a
    /// retried or failed entry stays for the next cycle; a failed entry also
    /// reports a diagnostic at its symbol's range.
    pub fn resolve_checks(&mut self, outcomes: &Vec<CheckOutcome>)
        requires
            outcomes@.len() == old(self).unsolved_checks@.len(),
        ensures
            final(self).ast == old(self).ast,
            final(self).unsolved_references == old(self).unsolved_references,
            final(self).unsolved_checks@ == kept_checks(
                old(self).ast,
                old(self).unsolved_checks@,
                outcomes@,
                0,
            ),
            final(self).diagnostics@ == check_drain_diags(
                old(self).ast,
                old(self).unsolved_checks@,
                outcomes@,
                0,
                old(self).diagnostics@,
            ),
    {
        let n = self.unsolved_checks.len();
        let mut newq: Vec<usize> = Vec::new();
        let mut i: usize = 0;
        let ghost q0 = self.unsolved_checks@;
        let ghost d0 = self.diagnostics@;
        while i < n
            invariant
                n == q0.len(),
                outcomes@.len() == n,
                self.unsolved_checks@ == q0,
                self.ast == old(self).ast,
                self.unsolved_references == old(self).unsolved_references,
                i <= n,
                newq@ + kept_checks(self.ast, q0, outcomes@, i as int) == kept_checks(
                    self.ast,
                    q0,
                    outcomes@,
                    0,
                ),
                check_drain_diags(self.ast, q0, outcomes@, i as int, self.diagnostics@)
                    == check_drain_diags(self.ast, q0, outcomes@, 0, d0),
            decreases n - i,
        {
            let q = self.unsolved_checks[i];
            let live = q < self.ast.len() && {
                let l = self.ast.nodes[q].live;
                l
            };
            let ghost dpre = self.diagnostics@;
            let ghost nq_pre = newq@;
            if live {
                match outcomes[i] {
                    CheckOutcome::Passed => {},
                    CheckOutcome::Retry => {
                        newq.push(q);
                    },
                    CheckOutcome::Failed => {
                        newq.push(q);
                        let rg = self.ast.get_range(q);
                        crate::diag::push_diag(
                            &mut self.diagnostics,
                            Diagnostic::error(rg, DiagnosticKind::CheckFailed),
                        );
                        proof {
                            assert((Diagnostic {
                                range: rg,
                                severity: Severity::Error,
                                kind: DiagnosticKind::CheckFailed,
                            }) == check_diag(self.ast, q));
                        }
                    },
                }
            }
            proof {
                assert(kept_checks(self.ast, q0, outcomes@, i as int) == (if check_kept(
                    self.ast,
                    q0[i as int],
                    outcomes@[i as int],
                ) {
                    seq![q0[i as int]] + kept_checks(self.ast, q0, outcomes@, i + 1)
                } else {
                    kept_checks(self.ast, q0, outcomes@, i + 1)
                }));
                if check_kept(self.ast, q0[i as int], outcomes@[i as int]) {
                    assert(newq@ == nq_pre.push(q));
                    assert(nq_pre + (seq![q0[i as int]] + kept_checks(
                        self.ast,
                        q0,
                        outcomes@,
                        i + 1,
                    )) =~= newq@ + kept_checks(self.ast, q0, outcomes@, i + 1));
                }
            }
            i += 1;
        }
        proof {
            assert(kept_checks(self.ast, q0, outcomes@, n as int) =~= Seq::<usize>::empty());
            assert(newq@ + Seq::<usize>::empty() =~= newq@);
        }
        self.unsolved_checks = newq;
    }

    /// Drain the references queue: upgrade each entry, run the identifier
    /// lookup, and on success record the target on the reference and the
    /// reference among the target's referrers. Entries that resolved or died
    /// leave the queue; the rest stay for the next cycle. Only `target` and
    /// `referrers` fields change: the tree's shape, ranges and liveness are
    /// untouched.
    pub fn resolve_references(&mut self, schema: &Schema, text: &Vec<u8>)
        requires
            schema.wf(),
            old(self).wf(*schema),
        ensures
            final(self).wf(*schema),
            final(self).ast.spec_len() == old(self).ast.spec_len(),
            final(self).ast.root == old(self).ast.root,
            final(self).diagnostics == old(self).diagnostics,
            final(self).unsolved_checks == old(self).unsolved_checks,
            forall|j: int| 0 <= j < old(self).ast.spec_len() ==> {
                let a = #[trigger] final(self).ast.n(j);
                let b = old(self).ast.n(j);
                a.type_id == b.type_id && a.range == b.range && a.parent == b.parent && a.fields
                    == b.fields && a.comment == b.comment && a.live == b.live
            },
            // an entry leaves the queue exactly when it died or its lookup
            // succeeded; the rest stay, in order
            final(self).unsolved_references@ == kept_refs(
                old(self).ast,
                *schema,
                text@,
                old(self).unsolved_references@,
                0,
            ),
            // a queued symbol's target becomes its lookup's result; every
            // other target is untouched
            forall|x: int|
                0 <= x < old(self).ast.spec_len() ==> (#[trigger] final(self).ast.n(x)).target
                    == (if old(self).unsolved_references@.contains(x as usize) && old(
                    self,
                ).ast.is_live(x) && find_ref_spec(old(self).ast, *schema, text@, x) is Some {
                    find_ref_spec(old(self).ast, *schema, text@, x)
                } else {
                    old(self).ast.n(x).target
                }),
            // a resolved reference points at a live symbol of equal spelling
            forall|j: int|
                0 <= j < old(self).ast.spec_len() && old(self).ast.n(j).target is None
                    ==> match #[trigger] final(self).ast.n(j).target {
                    Some(t) => final(self).ast.is_live(t as int) && final(self).ast.n(
                        t as int,
                    ).range != final(self).ast.n(j).range,
                    None => true,
                },
    {
        let n = self.unsolved_references.len();
        let mut newq: Vec<usize> = Vec::new();
        let mut i: usize = 0;
        let ghost a0 = self.ast;
        let ghost q0 = self.unsolved_references@;
        while i < n
            invariant
                schema.wf(),
                n == q0.len(),
                self.unsolved_references@ == q0,
                self.wf(*schema),
                self.diagnostics == old(self).diagnostics,
                self.unsolved_checks == old(self).unsolved_checks,
                a0 == old(self).ast,
                a0.wf(*schema),
                self.ast.spec_len() == a0.spec_len(),
                self.ast.root == a0.root,
                forall|j: int| 0 <= j < a0.spec_len() ==> {
                    let a = #[trigger] self.ast.n(j);
                    let b = a0.n(j);
                    a.type_id == b.type_id && a.range == b.range && a.parent == b.parent
                        && a.fields == b.fields && a.comment == b.comment && a.live == b.live
                },
                crate::symbol::same_skeleton(a0, self.ast),
                forall|x: usize| newq@.contains(x) ==> q0.contains(x),
                newq@ + kept_refs(a0, *schema, text@, q0, i as int) == kept_refs(
                    a0,
                    *schema,
                    text@,
                    q0,
                    0,
                ),
                forall|x: int|
                    0 <= x < a0.spec_len() ==> (#[trigger] self.ast.n(x)).target == (if (
                    exists|j: int| 0 <= j < i && q0[j] == x as usize) && a0.is_live(x)
                        && find_ref_spec(a0, *schema, text@, x) is Some {
                        find_ref_spec(a0, *schema, text@, x)
                    } else {
                        a0.n(x).target
                    }),
                forall|j: int|
                    0 <= j < a0.spec_len() && a0.n(j).target is None
                        ==> match #[trigger] self.ast.n(j).target {
                        Some(t) => self.ast.is_live(t as int) && self.ast.n(t as int).range
                            != self.ast.n(j).range,
                        None => true,
                    },
                i <= n,
                forall|q: int| 0 <= q < self.unsolved_checks@.len()
                    ==> #[trigger] self.unsolved_checks@[q] < self.ast.spec_len()
                    && schema.types@[self.ast.n(
                    self.unsolved_checks@[q] as int,
                ).type_id as int].is_check,
            decreases n - i,
        {
            let q = self.unsolved_references[i];
            let ghost newq0 = newq@;
            let ghost ast_i = self.ast;
            proof {
                assert(q0[i as int] == q);
                assert(q0.contains(q));
            }
            if q < self.ast.len() && self.ast.nodes[q].live {
                proof {
                    assert(a0.is_live(q as int));
                }
                match self.ast.find_in_file(schema, text, q) {
                    Some(t) => {
                        proof {
                            lemma_find_ref_spec_skeleton(a0, ast_i, *schema, text@, q as int);
                            assert(find_ref_spec(a0, *schema, text@, q as int) == Some(t));
                            assert(!ref_kept(a0, *schema, text@, q));
                        }
                        let ghost pre = self.ast;
                        // record the back-edge first, then the forward edge
                        self.ast.nodes[t].referrers.push(q);
                        let ghost mid = self.ast;
                        self.ast.nodes[q].target = Some(t);
                        proof {
                            lemma_set_target_wf(pre, mid, self.ast, *schema, q, t);
                            assert forall|j: int| 0 <= j < a0.spec_len() implies (
                            #[trigger] self.ast.n(j)).type_id == a0.n(j).type_id && self.ast.n(
                                j,
                            ).range == a0.n(j).range && self.ast.n(j).parent == a0.n(j).parent
                                && self.ast.n(j).fields == a0.n(j).fields && self.ast.n(j).live
                                == a0.n(j).live by {}
                        }
                    },
                    None => {
                        proof {
                            lemma_find_ref_spec_skeleton(a0, ast_i, *schema, text@, q as int);
                            assert(find_ref_spec(a0, *schema, text@, q as int) is None);
                            assert(ref_kept(a0, *schema, text@, q));
                        }
                        newq.push(q);
                    },
                }
            } else {
                proof {
                    assert(!a0.is_live(q as int));
                    assert(!ref_kept(a0, *schema, text@, q));
                }
            }
            proof {
                // the queue spec consumes one entry per iteration
                assert(kept_refs(a0, *schema, text@, q0, i as int) == (if ref_kept(
                    a0,
                    *schema,
                    text@,
                    q0[i as int],
                ) {
                    seq![q0[i as int]] + kept_refs(a0, *schema, text@, q0, i + 1)
                } else {
                    kept_refs(a0, *schema, text@, q0, i + 1)
                }));
                if ref_kept(a0, *schema, text@, q) {
                    assert(newq@ == newq0.push(q));
                    assert(newq0 + (seq![q] + kept_refs(a0, *schema, text@, q0, i + 1))
                        =~= newq@ + kept_refs(a0, *schema, text@, q0, i + 1));
                }
                assert forall|x: int|
                    0 <= x < a0.spec_len() implies (#[trigger] self.ast.n(x)).target == (if (
                    exists|j: int| 0 <= j < i + 1 && q0[j] == x as usize) && a0.is_live(x)
                        && find_ref_spec(a0, *schema, text@, x) is Some {
                        find_ref_spec(a0, *schema, text@, x)
                    } else {
                        a0.n(x).target
                    }) by {
                    if x == q as int {
                        assert(q0[i as int] == x as usize);
                    } else {
                        assert(self.ast.n(x).target == ast_i.n(x).target);
                        if exists|j: int| 0 <= j < i + 1 && q0[j] == x as usize {
                            let j = choose|j: int| 0 <= j < i + 1 && q0[j] == x as usize;
                            assert(j < i);
                            assert(exists|j2: int| 0 <= j2 < i && q0[j2] == x as usize);
                        }
                    }
                }
            }
            i += 1;
        }
        proof {
            assert(kept_refs(a0, *schema, text@, q0, n as int) =~= Seq::<usize>::empty());
            assert(newq@ + Seq::<usize>::empty() =~= newq@);
        }
        self.unsolved_references = newq;
        proof {
            assert(old(self).queues_ok(*schema));
            assert forall|qi: int| 0 <= qi < self.unsolved_references@.len() implies
                #[trigger] self.unsolved_references@[qi] < self.ast.spec_len()
                && schema.types@[self.ast.n(
                self.unsolved_references@[qi] as int,
            ).type_id as int].is_reference by {
                let x = self.unsolved_references@[qi];
                assert(newq@.contains(x));
                assert(q0.contains(x));
                let w = choose|w: int| 0 <= w < q0.len() && q0[w] == x;
                assert(old(self).unsolved_references@[w] == x);
                assert(old(self).ast.n(x as int).type_id == self.ast.n(x as int).type_id);
            }
        }
    }
}

/// Recording a resolution keeps the arena well formed: pushing the reference
/// onto the target's referrers and then setting the reference's target
/// changes no other field of any symbol.
proof fn lemma_set_target_wf(pre: Ast, mid: Ast, fin: Ast, schema: Schema, q: usize, t: usize)
    requires
        pre.wf(schema),
        q < pre.spec_len(),
        t < pre.spec_len(),
        pre.n(q as int).live,
        pre.n(t as int).live,
        mid.spec_len() == pre.spec_len(),
        mid.root == pre.root,
        forall|j: int| 0 <= j < pre.spec_len() && j != t ==> #[trigger] mid.n(j) == pre.n(j),
        mid.n(t as int) == (crate::symbol::Symbol {
            referrers: mid.n(t as int).referrers,
            ..pre.n(t as int)
        }),
        mid.n(t as int).referrers@ == pre.n(t as int).referrers@.push(q),
        fin.spec_len() == mid.spec_len(),
        fin.root == mid.root,
        forall|j: int| 0 <= j < mid.spec_len() && j != q ==> #[trigger] fin.n(j) == mid.n(j),
        fin.n(q as int) == (crate::symbol::Symbol {
            target: Some(t),
            ..mid.n(q as int)
        }),
    ensures
        fin.wf(schema),
        forall|j: int| 0 <= j < pre.spec_len() ==> {
            let a = #[trigger] fin.n(j);
            let b = pre.n(j);
            a.type_id == b.type_id && a.range == b.range && a.parent == b.parent && a.fields
                == b.fields && a.comment == b.comment && a.live == b.live
        },
        fin.n(q as int).target == Some(t),
        forall|j: int| 0 <= j < pre.spec_len() && j != q
            ==> #[trigger] fin.n(j).target == pre.n(j).target,
{
    assert forall|j: int| 0 <= j < fin.spec_len() implies {
        let a = #[trigger] fin.n(j);
        let b = pre.n(j);
        a.type_id == b.type_id && a.range == b.range && a.parent == b.parent && a.fields
            == b.fields && a.comment == b.comment && a.live == b.live
    } by {
        if j == q {
        } else if j == t {
        }
    }
    assert forall|j: int| 0 <= j < fin.spec_len() implies fin.node_graph_ok(j) by {
        assert(pre.node_graph_ok(j));
        assert forall|f: int, k: int|
            0 <= f < fin.n(j).fields@.len() && 0 <= k < fin.n(j).fields@[f]@.len() implies {
            let c = #[trigger] fin.n(j).fields@[f]@[k];
            &&& j < c < fin.spec_len()
            &&& fin.n(c as int).parent == Some(j as usize)
            &&& fin.n(c as int).live == fin.n(j).live
            &&& fin.n(c as int).range.spec_inside(fin.n(j).range)
        } by {
            assert(fin.n(j).fields == pre.n(j).fields);
            let c = fin.n(j).fields@[f]@[k];
            assert(pre.n(j).fields@[f]@[k] == c);
        }
        assert(fin.n(j).fields == pre.n(j).fields);
    }
    assert forall|j: int| 0 <= j < fin.spec_len() implies fin.node_schema_ok(schema, j) by {
        assert(pre.node_schema_ok(schema, j));
        assert(fin.n(j).fields == pre.n(j).fields);
        assert(fin.n(j).type_id == pre.n(j).type_id);
        assert forall|f: int, k: int|
            0 <= f < fin.n(j).fields@.len() && 0 <= k < fin.n(j).fields@[f]@.len() implies
            schema.types@[fin.n(j).type_id as int].fields@[f].types@.contains(
            fin.n(#[trigger] fin.n(j).fields@[f]@[k] as int).type_id,
        ) by {
            let c = fin.n(j).fields@[f]@[k];
            assert(pre.n(j).fields@[f]@[k] == c);
            assert(pre.node_graph_ok(j));
            assert(fin.n(c as int).type_id == pre.n(c as int).type_id);
        }
    }
    assert forall|j: int| 0 <= j < fin.spec_len() && fin.n(j).live implies match fin.n(
        j,
    ).parent {
        Some(p) => fin.n(p as int).live && fin.child_in_field(p as int, j),
        None => fin.root == Some(j as usize),
    } by {
        assert(pre.n(j).live);
        assert(pre.node_graph_ok(j));
        match pre.n(j).parent {
            Some(p) => {
                assert(pre.child_in_field(p as int, j));
                let (f, k) = choose|f: int, k: int|
                    0 <= f < pre.n(p as int).fields@.len() && 0 <= k < pre.n(
                        p as int,
                    ).fields@[f]@.len() && #[trigger] pre.n(p as int).fields@[f]@[k] == j;
                assert(fin.n(p as int).fields == pre.n(p as int).fields);
                assert(fin.n(p as int).fields@[f]@[k] == j);
                assert(fin.child_in_field(p as int, j));
            },
            None => {},
        }
    }
    assert forall|j: int| 0 <= j < fin.spec_len() && fin.n(j).live implies match fin.n(
        j,
    ).target {
        Some(t2) => t2 < fin.spec_len() && (fin.n(t2 as int).live ==> fin.n(
            t2 as int,
        ).referrers@.contains(j as usize)),
        None => true,
    } by {
        if j == q {
            assert(fin.n(q as int).target == Some(t));
            assert(fin.n(t as int).referrers@ == pre.n(t as int).referrers@.push(q));
            assert(fin.n(t as int).referrers@[pre.n(t as int).referrers@.len() as int] == q);
            assert(fin.n(t as int).referrers@.contains(q));
        } else {
            assert(pre.n(j).live);
            match pre.n(j).target {
                Some(t2) => {
                    assert(fin.n(j).target == Some(t2));
                    if fin.n(t2 as int).live {
                        assert(pre.n(t2 as int).referrers@.contains(j as usize));
                        if t2 == t {
                            let w = choose|w: int|
                                0 <= w < pre.n(t as int).referrers@.len() && pre.n(
                                    t as int,
                                ).referrers@[w] == j as usize;
                            assert(fin.n(t as int).referrers@[w] == j as usize);
                            assert(fin.n(t2 as int).referrers@.contains(j as usize));
                        } else {
                            assert(fin.n(t2 as int).referrers@ == pre.n(t2 as int).referrers@);
                        }
                    }
                },
                None => {},
            }
        }
    }
}


/// Indexing into a one-element prefix plus a tail.
proof fn lemma_cons_index<A>(h: A, rest: Seq<A>, s: Seq<A>)
    requires
        s == seq![h] + rest,
    ensures
        s.len() == rest.len() + 1,
        s[0] == h,
        forall|j: int| 0 <= j < rest.len() ==> s[j + 1] == #[trigger] rest[j],
{
    assert(s[0] == (seq![h] + rest)[0]);
    assert forall|j: int| 0 <= j < rest.len() implies s[j + 1] == #[trigger] rest[j] by {
        assert(s[j + 1] == (seq![h] + rest)[j + 1]);
    }
}

/// The kept queue and the kept outcomes stay aligned.
proof fn lemma_kept_len(ast: Ast, q: Seq<usize>, o: Seq<CheckOutcome>, i: int)
    requires
        o.len() == q.len(),
    ensures
        kept_checks(ast, q, o, i).len() == kept_outcomes(ast, q, o, i).len(),
    decreases q.len() - i,
{
    if i < 0 || i >= q.len() {
    } else {
        lemma_kept_len(ast, q, o, i + 1);
    }
}

/// Draining the checks queue twice is the same as draining it once: the
/// entries that stayed carry the same outcomes, every failed entry's
/// diagnostic is already recorded, so the second pass changes nothing.
pub proof fn lemma_resolve_checks_idempotent(
    ast: Ast,
    q: Seq<usize>,
    o: Seq<CheckOutcome>,
    d: Seq<Diagnostic>,
)
    requires
        o.len() == q.len(),
    ensures
        kept_checks(ast, kept_checks(ast, q, o, 0), kept_outcomes(ast, q, o, 0), 0)
            == kept_checks(ast, q, o, 0),
        check_drain_diags(
            ast,
            kept_checks(ast, q, o, 0),
            kept_outcomes(ast, q, o, 0),
            0,
            check_drain_diags(ast, q, o, 0, d),
        ) == check_drain_diags(ast, q, o, 0, d),
{
    lemma_drain_idem_rec(ast, q, o, 0, d);
}

/// All diagnostics already present stay present through a drain.
proof fn lemma_drain_diags_monotone(
    ast: Ast,
    q: Seq<usize>,
    o: Seq<CheckOutcome>,
    i: int,
    d: Seq<Diagnostic>,
    x: Diagnostic,
)
    requires
        d.contains(x),
    ensures
        check_drain_diags(ast, q, o, i, d).contains(x),
    decreases q.len() - i,
{
    if i < 0 || i >= q.len() {
    } else if ast.is_live(q[i] as int) && o[i] is Failed {
        let d1 = push_diag_spec(d, check_diag(ast, q[i]));
        assert(d1.contains(x)) by {
            if !d.contains(check_diag(ast, q[i])) {
                let w = choose|w: int| 0 <= w < d.len() && d[w] == x;
                assert(d.push(check_diag(ast, q[i]))[w] == x);
            }
        }
        lemma_drain_diags_monotone(ast, q, o, i + 1, d1, x);
    } else {
        lemma_drain_diags_monotone(ast, q, o, i + 1, d, x);
    }
}

/// A drain whose failing entries' diagnostics are all present already
/// changes neither the queue (when outcomes repeat) nor the diagnostics.
proof fn lemma_drain_stable(
    ast: Ast,
    q: Seq<usize>,
    o: Seq<CheckOutcome>,
    i: int,
    d: Seq<Diagnostic>,
)
    requires
        0 <= i <= q.len(),
        o.len() == q.len(),
        forall|j: int| i <= j < q.len() && check_kept(ast, q[j], o[j])
            ==> check_kept(ast, #[trigger] q[j], o[j]),
        forall|j: int| i <= j < q.len() && ast.is_live(q[j] as int) && o[j] is Failed
            ==> d.contains(check_diag(ast, #[trigger] q[j])),
    ensures
        check_drain_diags(ast, q, o, i, d) == d,
    decreases q.len() - i,
{
    if i >= q.len() {
    } else {
        if ast.is_live(q[i] as int) && o[i] is Failed {
            assert(d.contains(check_diag(ast, q[i])));
            assert(push_diag_spec(d, check_diag(ast, q[i])) == d);
        }
        lemma_drain_stable(ast, q, o, i + 1, d);
    }
}

proof fn lemma_drain_idem_rec(
    ast: Ast,
    q: Seq<usize>,
    o: Seq<CheckOutcome>,
    i: int,
    d: Seq<Diagnostic>,
)
    requires
        0 <= i <= q.len(),
        o.len() == q.len(),
    ensures
        kept_checks(ast, kept_checks(ast, q, o, i), kept_outcomes(ast, q, o, i), 0)
            == kept_checks(ast, q, o, i),
        forall|j: int| i <= j < q.len() && ast.is_live(q[j] as int) && o[j] is Failed
            ==> check_drain_diags(ast, q, o, i, d).contains(check_diag(ast, #[trigger] q[j])),
        check_drain_diags(
            ast,
            kept_checks(ast, q, o, i),
            kept_outcomes(ast, q, o, i),
            0,
            check_drain_diags(ast, q, o, i, d),
        ) == check_drain_diags(ast, q, o, i, d),
    decreases q.len() - i,
{
    if i >= q.len() {
        assert(kept_checks(ast, q, o, i) =~= Seq::<usize>::empty());
        assert(kept_checks(ast, Seq::<usize>::empty(), kept_outcomes(ast, q, o, i), 0)
            =~= Seq::<usize>::empty());
    } else {
        let kq = kept_checks(ast, q, o, i);
        let ko = kept_outcomes(ast, q, o, i);
        let kq1 = kept_checks(ast, q, o, i + 1);
        let ko1 = kept_outcomes(ast, q, o, i + 1);
        if ast.is_live(q[i] as int) && o[i] is Failed {
            let d1 = push_diag_spec(d, check_diag(ast, q[i]));
            lemma_drain_idem_rec(ast, q, o, i + 1, d1);
            assert(d1.contains(check_diag(ast, q[i]))) by {
                if !d.contains(check_diag(ast, q[i])) {
                    assert(d.push(check_diag(ast, q[i]))[d.len() as int] == check_diag(
                        ast,
                        q[i],
                    ));
                }
            }
            lemma_drain_diags_monotone(ast, q, o, i + 1, d1, check_diag(ast, q[i]));
        } else {
            lemma_drain_idem_rec(ast, q, o, i + 1, d);
        }
        // queue: the kept prefix re-drains to itself
        if check_kept(ast, q[i], o[i]) {
            assert(kq == seq![q[i]] + kq1);
            assert(ko == seq![o[i]] + ko1);
            lemma_cons_index(q[i], kq1, kq);
            lemma_cons_index(o[i], ko1, ko);
            lemma_kept_len(ast, q, o, i + 1);
            lemma_kept_shift(ast, kq, ko, kq1, ko1, q[i], o[i]);
        } else {
            assert(kq =~= kq1);
            assert(ko =~= ko1);
        }
        // diagnostics: the second drain adds nothing new
        let dfin = check_drain_diags(ast, q, o, i, d);
        lemma_kept_len(ast, q, o, i);
        assert forall|j: int| 0 <= j < kq.len() && ast.is_live(kq[j] as int) && (
        #[trigger] ko[j]) is Failed implies dfin.contains(check_diag(ast, kq[j])) by {
            lemma_kept_failed_diag(ast, q, o, i, d, j);
        }
        lemma_drain_stable(ast, kq, ko, 0, dfin);
    }
}

/// Re-draining a queue whose head is kept keeps the head and re-drains the
/// tail.
proof fn lemma_kept_shift(
    ast: Ast,
    kq: Seq<usize>,
    ko: Seq<CheckOutcome>,
    kq1: Seq<usize>,
    ko1: Seq<CheckOutcome>,
    h: usize,
    ho: CheckOutcome,
)
    requires
        kq == seq![h] + kq1,
        ko == seq![ho] + ko1,
        check_kept(ast, h, ho),
        kept_checks(ast, kq1, ko1, 0) == kq1,
        kq1.len() == ko1.len(),
    ensures
        kept_checks(ast, kq, ko, 0) == kq,
    decreases kq.len(),
{
    lemma_cons_index(h, kq1, kq);
    lemma_cons_index(ho, ko1, ko);
    lemma_kept_tail(ast, kq, ko, kq1, ko1, 1);
    assert(kept_checks(ast, kq, ko, 0) == seq![h] + kept_checks(ast, kq, ko, 1));
    assert(kept_checks(ast, kq, ko, 1) == kept_checks(ast, kq1, ko1, 0));
    assert(seq![h] + kq1 =~= kq);
}

/// Draining from position `s` of the extended queue equals draining the
/// tail from the matching position.
proof fn lemma_kept_tail(
    ast: Ast,
    kq: Seq<usize>,
    ko: Seq<CheckOutcome>,
    kq1: Seq<usize>,
    ko1: Seq<CheckOutcome>,
    s: int,
)
    requires
        1 <= s <= kq.len(),
        kq.len() == kq1.len() + 1,
        ko.len() == ko1.len() + 1,
        kq.len() == ko.len(),
        forall|j: int| 0 <= j < kq1.len() ==> kq[j + 1] == #[trigger] kq1[j],
        forall|j: int| 0 <= j < ko1.len() ==> ko[j + 1] == #[trigger] ko1[j],
    ensures
        kept_checks(ast, kq, ko, s) == kept_checks(ast, kq1, ko1, s - 1),
    decreases kq.len() - s,
{
    if s >= kq.len() {
        assert(kept_checks(ast, kq, ko, s) =~= Seq::<usize>::empty());
        assert(kept_checks(ast, kq1, ko1, s - 1) =~= Seq::<usize>::empty());
    } else {
        lemma_kept_tail(ast, kq, ko, kq1, ko1, s + 1);
        assert(kq[s] == kq1[s - 1]);
        assert(ko[s] == ko1[s - 1]);
    }
}

/// Every kept entry that failed has its diagnostic in the drain's output.
proof fn lemma_kept_failed_diag(
    ast: Ast,
    q: Seq<usize>,
    o: Seq<CheckOutcome>,
    i: int,
    d: Seq<Diagnostic>,
    j: int,
)
    requires
        0 <= i <= q.len(),
        o.len() == q.len(),
        0 <= j < kept_checks(ast, q, o, i).len(),
        ast.is_live(kept_checks(ast, q, o, i)[j] as int),
        kept_outcomes(ast, q, o, i)[j] is Failed,
    ensures
        check_drain_diags(ast, q, o, i, d).contains(
            check_diag(ast, kept_checks(ast, q, o, i)[j]),
        ),
    decreases q.len() - i,
{
    lemma_kept_len(ast, q, o, i);
    if i >= q.len() {
    } else {
        let kq = kept_checks(ast, q, o, i);
        let ko = kept_outcomes(ast, q, o, i);
        if check_kept(ast, q[i], o[i]) {
            assert(kq == seq![q[i]] + kept_checks(ast, q, o, i + 1));
            assert(ko == seq![o[i]] + kept_outcomes(ast, q, o, i + 1));
            lemma_cons_index(q[i], kept_checks(ast, q, o, i + 1), kq);
            lemma_cons_index(o[i], kept_outcomes(ast, q, o, i + 1), ko);
            if j == 0 {
                assert(kq[0] == q[i] && ko[0] == o[i]);
                if ast.is_live(q[i] as int) && o[i] is Failed {
                    let d1 = push_diag_spec(d, check_diag(ast, q[i]));
                    assert(d1.contains(check_diag(ast, q[i]))) by {
                        if !d.contains(check_diag(ast, q[i])) {
                            assert(d.push(check_diag(ast, q[i]))[d.len() as int] == check_diag(
                                ast,
                                q[i],
                            ));
                        }
                    }
                    lemma_drain_diags_monotone(ast, q, o, i + 1, d1, check_diag(ast, q[i]));
                }
            } else {
                lemma_kept_len(ast, q, o, i + 1);
                assert(kq[j] == kept_checks(ast, q, o, i + 1)[j - 1]);
                assert(ko[j] == kept_outcomes(ast, q, o, i + 1)[j - 1]);
                if ast.is_live(q[i] as int) && o[i] is Failed {
                    lemma_kept_failed_diag(
                        ast,
                        q,
                        o,
                        i + 1,
                        push_diag_spec(d, check_diag(ast, q[i])),
                        j - 1,
                    );
                } else {
                    lemma_kept_failed_diag(ast, q, o, i + 1, d, j - 1);
                }
            }
        } else {
            if ast.is_live(q[i] as int) && o[i] is Failed {
                lemma_kept_failed_diag(
                    ast,
                    q,
                    o,
                    i + 1,
                    push_diag_spec(d, check_diag(ast, q[i])),
                    j,
                );
            } else {
                lemma_kept_failed_diag(ast, q, o, i + 1, d, j);
            }
        }
    }
}

} // verus!
