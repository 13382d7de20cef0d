//! The two-phase construction pipeline: captures in, typed AST out.
//!
//! Raw query captures are typed against the schema, put in source order
//! (start byte ascending, longer ranges first, emission order breaking ties),
//! assembled into a transient pending tree by range containment, validated,
//! and lowered into the symbol arena. Every structural failure becomes a
//! diagnostic; a failed subtree never aborts its siblings.

use vstd::prelude::*;
use crate::range::ByteRange;
use crate::diag::{Diagnostic, DiagnosticKind};
use crate::schema::Schema;

verus! {

/// A capture as the query executor hands it over: which capture of the query
/// matched, and where.
#[derive(Clone, Copy, Debug, PartialEq, Eq, Structural)]
pub struct RawCapture {
    pub capture_ix: usize,
    pub start: usize,
    pub end: usize,
}

/// A capture resolved against the schema: the node type it produces, its
/// range, and its position in the emission order (used to break ties).
#[derive(Clone, Copy, Debug, PartialEq, Eq, Structural)]
pub struct TypedCapture {
    pub type_id: usize,
    pub range: ByteRange,
    pub pos: usize,
}

/// The byte range a raw capture covers.
pub open spec fn raw_range(rc: RawCapture) -> ByteRange {
    ByteRange { start: rc.start, end: rc.end }
}


/// The clamped range an out-of-bounds capture is reported at.
pub open spec fn invalid_range_clamp(rc: RawCapture, text_len: int) -> ByteRange {
    ByteRange {
        start: if rc.start <= rc.end {
            rc.start
        } else {
            0
        },
        end: if rc.end <= text_len {
            rc.end
        } else {
            text_len as usize
        },
    }
}

/// Capture `rc` justifies diagnostic `d`: the diagnostic's kind names a rule
/// this capture (or the node built from it) violates, and its range is the
/// capture's.
pub open spec fn capture_justifies(
    d: Diagnostic,
    schema: Schema,
    names: Seq<Vec<u8>>,
    rc: RawCapture,
    text_len: int,
) -> bool {
    d.severity == crate::diag::Severity::Error && match d.kind {
        DiagnosticKind::InvalidRange => (rc.start > rc.end || rc.end > text_len) && d.range
            == invalid_range_clamp(rc, text_len),
        DiagnosticKind::UnknownCapture => rc.capture_ix >= names.len() && d.range == raw_range(
            rc,
        ),
        DiagnosticKind::UnknownQueryName => rc.capture_ix < names.len() && (forall|t: int|
            0 <= t < schema.spec_len() ==> (#[trigger] schema.types@[t].query_name)@
                != names[rc.capture_ix as int]@) && d.range == raw_range(rc),
        DiagnosticKind::ZeroWidthForbidden => rc.start == rc.end && rc.end <= text_len
            && d.range == raw_range(rc),
        DiagnosticKind::OrphanCapture => d.range == raw_range(rc),
        DiagnosticKind::NoAcceptingField => d.range == raw_range(rc),
        DiagnosticKind::FieldAlreadyFilled => d.range == raw_range(rc),
        DiagnosticKind::MissingField => d.range == raw_range(rc),
        _ => false,
    }
}

/// Some capture of the run justifies diagnostic `d`.
pub open spec fn diag_sourced(
    d: Diagnostic,
    schema: Schema,
    names: Seq<Vec<u8>>,
    raw: Seq<RawCapture>,
    text_len: int,
) -> bool {
    exists|j: int| 0 <= j < raw.len() && capture_justifies(d, schema, names, #[trigger] raw[j], text_len)
}

/// Source order on captures: start byte ascending, then longer ranges first,
/// then emission order.
pub open spec fn cap_lt(a: TypedCapture, b: TypedCapture) -> bool {
    ||| a.range.start < b.range.start
    ||| (a.range.start == b.range.start && a.range.end > b.range.end)
    ||| (a.range.start == b.range.start && a.range.end == b.range.end && a.pos < b.pos)
}

/// Non-strict sortedness: no later element comes strictly before an earlier one.
pub open spec fn caps_sorted(s: Seq<TypedCapture>) -> bool {
    forall|i: int, j: int| 0 <= i < j < s.len() ==> !cap_lt(#[trigger] s[j], #[trigger] s[i])
}

proof fn lemma_cap_lt_trans(a: TypedCapture, b: TypedCapture, c: TypedCapture)
    requires
        cap_lt(a, b),
        cap_lt(b, c),
    ensures
        cap_lt(a, c),
{
}

fn cap_lt_exec(a: &TypedCapture, b: &TypedCapture) -> (r: bool)
    ensures
        r == cap_lt(*a, *b),
{
    a.range.start < b.range.start
        || (a.range.start == b.range.start && a.range.end > b.range.end)
        || (a.range.start == b.range.start && a.range.end == b.range.end && a.pos < b.pos)
}

/// Resolve each raw capture to a node type. Captures with an inverted range,
/// a range past the end of the document, an out-of-range capture index, or a
/// capture name that matches no node type are dropped with a diagnostic.
pub fn type_captures(
    schema: &Schema,
    names: &Vec<Vec<u8>>,
    raw: &Vec<RawCapture>,
    text_len: usize,
    diags: &mut Vec<Diagnostic>,
) -> (r: Vec<TypedCapture>)
    ensures
        r@.len() <= raw@.len(),
        forall|i: int| 0 <= i < r@.len() ==> (#[trigger] r@[i]).type_id < schema.spec_len(),
        forall|i: int| 0 <= i < r@.len() ==> (#[trigger] r@[i]).range.wf()
            && r@[i].range.end <= text_len,
        forall|i: int, j: int| 0 <= i < j < r@.len()
            ==> (#[trigger] r@[i]).pos < (#[trigger] r@[j]).pos,
        forall|i: int| 0 <= i < r@.len() ==> (#[trigger] r@[i]).pos < raw@.len()
            && r@[i].range == raw_range(raw@[r@[i].pos as int]),
        // each typed capture's type is the one its capture name names
        forall|i: int| 0 <= i < r@.len() ==> (#[trigger] r@[i]).pos < raw@.len()
            && raw@[r@[i].pos as int].capture_ix < names@.len()
            && schema.types@[r@[i].type_id as int].query_name@ == names@[raw@[r@[
            i].pos as int].capture_ix as int]@,
        // every diagnostic this pass adds is justified by a capture
        forall|k: int| old(diags)@.len() <= k < final(diags)@.len() ==> diag_sourced(
            #[trigger] final(diags)@[k],
            *schema,
            names@,
            raw@,
            text_len as int,
        ),
        old(diags)@.len() == 0 && final(diags)@.len() == 0 ==> r@.len() == raw@.len(),
        old(diags)@.len() <= final(diags)@.len(),
        final(diags)@.len() <= old(diags)@.len() + raw@.len(),
        final(diags)@.subrange(0, old(diags)@.len() as int) == old(diags)@,
{
    let mut out: Vec<TypedCapture> = Vec::new();
    let n = raw.len();
    let mut j: usize = 0;
    while j < n
        invariant
            n == raw@.len(),
            j <= n,
            out@.len() <= j,
            forall|i: int| 0 <= i < out@.len()
                ==> (#[trigger] out@[i]).type_id < schema.spec_len(),
            forall|i: int| 0 <= i < out@.len() ==> (#[trigger] out@[i]).range.wf()
                && out@[i].range.end <= text_len,
            forall|i1: int, i2: int| 0 <= i1 < i2 < out@.len()
                ==> (#[trigger] out@[i1]).pos < (#[trigger] out@[i2]).pos,
            forall|i: int| 0 <= i < out@.len() ==> (#[trigger] out@[i]).pos < j,
            forall|i: int| 0 <= i < out@.len() ==> (#[trigger] out@[i]).pos < raw@.len()
                && out@[i].range == raw_range(raw@[out@[i].pos as int]),
            forall|i: int| 0 <= i < out@.len() ==> (#[trigger] out@[i]).pos < raw@.len()
                && raw@[out@[i].pos as int].capture_ix < names@.len()
                && schema.types@[out@[i].type_id as int].query_name@ == names@[raw@[out@[
                i].pos as int].capture_ix as int]@,
            forall|k: int| old(diags)@.len() <= k < diags@.len() ==> diag_sourced(
                #[trigger] diags@[k],
                *schema,
                names@,
                raw@,
                text_len as int,
            ),
            old(diags)@.len() == 0 && diags@.len() == 0 ==> out@.len() == j,
            old(diags)@.len() <= diags@.len(),
            diags@.len() <= old(diags)@.len() + j,
            diags@.subrange(0, old(diags)@.len() as int) == old(diags)@,
        decreases n - j,
    {
        let c = raw[j];
        let rg = ByteRange { start: c.start, end: c.end };
        if c.start > c.end || c.end > text_len {
            let d = Diagnostic::error(
                ByteRange { start: if c.start <= c.end { c.start } else { 0 }, end: if c.end <= text_len { c.end } else { text_len } },
                DiagnosticKind::InvalidRange,
            );
            proof {
                assert(capture_justifies(d, *schema, names@, raw@[j as int], text_len as int));
            }
            push_new_diag(diags, d);
        } else if c.capture_ix >= names.len() {
            let d = Diagnostic::error(rg, DiagnosticKind::UnknownCapture);
            proof {
                assert(rg == raw_range(raw@[j as int]));
                assert(capture_justifies(d, *schema, names@, raw@[j as int], text_len as int));
            }
            push_new_diag(diags, d);
        } else {
            match schema.type_of_query_name(names[c.capture_ix].as_slice()) {
                Some(t) => {
                    out.push(TypedCapture { type_id: t, range: rg, pos: j });
                    proof {
                        assert(rg == raw_range(raw@[j as int]));
                        assert(names@[c.capture_ix as int] == names@[raw@[
                            j as int].capture_ix as int]);
                    }
                },
                None => {
                    let d = Diagnostic::error(rg, DiagnosticKind::UnknownQueryName);
                    proof {
                        assert(rg == raw_range(raw@[j as int]));
                        assert(capture_justifies(
                            d,
                            *schema,
                            names@,
                            raw@[j as int],
                            text_len as int,
                        ));
                    }
                    push_new_diag(diags, d);
                },
            }
        }
        j += 1;
    }
    out
}

/// Append a diagnostic while keeping the earlier entries in place.
fn push_new_diag(diags: &mut Vec<Diagnostic>, d: Diagnostic)
    ensures
        final(diags)@ == crate::diag::push_diag_spec(old(diags)@, d),
        old(diags)@.len() <= final(diags)@.len(),
        final(diags)@.subrange(0, old(diags)@.len() as int) == old(diags)@,
{
    crate::diag::push_diag(diags, d);
    proof {
        if old(diags)@.contains(d) {
            assert(diags@.subrange(0, old(diags)@.len() as int) =~= old(diags)@);
        } else {
            assert(diags@.subrange(0, old(diags)@.len() as int) =~= old(diags)@);
        }
    }
}

/// Sort the typed captures into source order. The result holds exactly the
/// same captures (as a multiset).
pub fn sort_captures(caps: Vec<TypedCapture>) -> (r: Vec<TypedCapture>)
    ensures
        r@.to_multiset() == caps@.to_multiset(),
        r@.len() == caps@.len(),
        caps_sorted(r@),
        forall|i: int| 0 <= i < r@.len() ==> caps@.contains(#[trigger] r@[i]),
{
    broadcast use vstd::seq_lib::group_to_multiset_ensures;

    let mut rem = caps;
    let mut out: Vec<TypedCapture> = Vec::new();
    proof {
        assert(out@.to_multiset().add(rem@.to_multiset()) =~= caps@.to_multiset());
    }
    while rem.len() > 0
        invariant
            out@.to_multiset().add(rem@.to_multiset()) == caps@.to_multiset(),
            out@.len() + rem@.len() == caps@.len(),
            caps_sorted(out@),
            forall|oi: int, rj: int| 0 <= oi < out@.len() && 0 <= rj < rem@.len()
                ==> !cap_lt(#[trigger] rem@[rj], #[trigger] out@[oi]),
            forall|oi: int| 0 <= oi < out@.len() ==> caps@.contains(#[trigger] out@[oi]),
            forall|rj: int| 0 <= rj < rem@.len() ==> caps@.contains(#[trigger] rem@[rj]),
        decreases rem@.len(),
    {
        broadcast use vstd::seq_lib::group_to_multiset_ensures;

        let mut m: usize = 0;
        let mut k: usize = 1;
        while k < rem.len()
            invariant
                rem@.len() > 0,
                m < k,
                k <= rem@.len(),
                forall|kk: int| 0 <= kk < k ==> !cap_lt(#[trigger] rem@[kk], rem@[m as int]),
            decreases rem@.len() - k,
        {
            if cap_lt_exec(&rem[k], &rem[m]) {
                proof {
                    let mold = m as int;
                    assert forall|kk: int| 0 <= kk < k implies !cap_lt(
                        #[trigger] rem@[kk],
                        rem@[k as int],
                    ) by {
                        if cap_lt(rem@[kk], rem@[k as int]) {
                            lemma_cap_lt_trans(rem@[kk], rem@[k as int], rem@[mold]);
                        }
                    }
                }
                m = k;
            }
            k += 1;
        }
        let ghost rem0 = rem@;
        let x = rem.remove(m);
        proof {
            assert(caps@.contains(x));
            assert forall|rj: int| 0 <= rj < rem@.len() implies caps@.contains(
                #[trigger] rem@[rj],
            ) by {
                if rj < m {
                    assert(rem@[rj] == rem0[rj]);
                } else {
                    assert(rem@[rj] == rem0[rj + 1]);
                }
            }
            assert forall|oi: int, rj: int|
                0 <= oi < out@.len() + 1 && 0 <= rj < rem@.len() implies !cap_lt(
                #[trigger] rem@[rj],
                #[trigger] out@.push(x)[oi],
            ) by {
                if oi < out@.len() {
                } else {
                    assert(out@.push(x)[oi] == x);
                }
            }
            assert forall|i: int, j: int| 0 <= i < j < out@.len() + 1 implies !cap_lt(
                #[trigger] out@.push(x)[j],
                #[trigger] out@.push(x)[i],
            ) by {}
        }
        out.push(x);
    }
    proof {
        assert(rem@.to_multiset().len() == 0);
        assert(out@.to_multiset().add(rem@.to_multiset()) =~= out@.to_multiset());
    }
    out
}

/// A transient node of the pending tree: the capture it came from, its raw
/// range, its structural parent, and its child slots.
#[derive(Clone, Debug)]
pub struct PendNode {
    pub type_id: usize,
    pub range: ByteRange,
    pub parent: Option<usize>,
    /// Which field of the parent this node was placed in.
    pub parent_field: usize,
    pub fields: Vec<Vec<usize>>,
    /// Index into the sorted capture list this node was made from.
    pub cap_pos: usize,
}

/// Per-node soundness of the pending tree: see [`pend_wf`].
pub open spec fn pend_node_ok(pend: Seq<PendNode>, schema: Schema, x: int) -> bool {
    let s = pend[x];
    &&& s.type_id < schema.spec_len()
    &&& s.range.wf()
    &&& s.fields@.len() == schema.types@[s.type_id as int].fields@.len()
    &&& (match s.parent {
        Some(p) => p < x && s.parent_field < pend[p as int].fields@.len()
            && pend[p as int].fields@[s.parent_field as int]@.contains(x as usize),
        None => x == 0,
    })
    &&& (s.range.start == s.range.end
        ==> schema.types@[s.type_id as int].permits_zero_width)
    &&& forall|f: int, k: int|
        0 <= f < s.fields@.len() && 0 <= k < s.fields@[f]@.len()
            ==> {
                let c = #[trigger] s.fields@[f]@[k];
                &&& x < c < pend.len()
                &&& pend[c as int].parent == Some(x as usize)
                &&& pend[c as int].parent_field == f
                &&& pend[c as int].range.spec_inside(s.range)
                &&& schema.types@[s.type_id as int].fields@[f].types@.contains(
                    pend[c as int].type_id,
                )
            }
    &&& forall|f: int|
        0 <= f < s.fields@.len()
            ==> match #[trigger] schema.types@[s.type_id as int].fields@[f].kind {
                crate::schema::FieldKind::Single => s.fields@[f]@.len() <= 1,
                crate::schema::FieldKind::Optional => s.fields@[f]@.len() <= 1,
                crate::schema::FieldKind::Many => true,
            }
}

/// Every pending field lists its children in strictly increasing slot order
/// (they are appended as they are created).
pub open spec fn pend_fields_sorted(pend: Seq<PendNode>) -> bool {
    forall|x: int, f: int, k1: int, k2: int|
        0 <= x < pend.len() && 0 <= f < pend[x].fields@.len() && 0 <= k1 < k2 < pend[
            x].fields@[f]@.len() ==> #[trigger] pend[x].fields@[f]@[k1] < #[trigger] pend[
            x].fields@[f]@[k2]
}

/// The pending tree is sound: every node's type exists in the schema, only
/// node 0 is parentless, children are nested in range and placed in a field
/// that accepts their type, and single and optional slots hold at most one.
pub open spec fn pend_wf(pend: Seq<PendNode>, schema: Schema) -> bool {
    forall|x: int| 0 <= x < pend.len() ==> pend_node_ok(pend, schema, x)
}

/// `n` empty child slots.
fn empty_fields(n: usize) -> (r: Vec<Vec<usize>>)
    ensures
        r@.len() == n,
        forall|f: int| 0 <= f < n ==> (#[trigger] r@[f])@.len() == 0,
    decreases n,
{
    let mut r: Vec<Vec<usize>> = Vec::new();
    let mut i: usize = 0;
    while i < n
        invariant
            i <= n,
            r@.len() == i,
            forall|f: int| 0 <= f < i ==> (#[trigger] r@[f])@.len() == 0,
        decreases n - i,
    {
        r.push(Vec::new());
        i += 1;
    }
    r
}

/// The field of `parent_type` that accepts a child of type `child_type`.
/// Schema validity makes this field unique when it exists.
fn find_accepting_field(schema: &Schema, parent_type: usize, child_type: usize) -> (r: Option<
    usize,
>)
    requires
        parent_type < schema.spec_len(),
    ensures
        match r {
            Some(f) => f < schema.types@[parent_type as int].fields@.len()
                && schema.types@[parent_type as int].fields@[f as int].types@.contains(child_type),
            None => forall|f: int|
                0 <= f < schema.types@[parent_type as int].fields@.len()
                    ==> !(#[trigger] schema.types@[parent_type as int].fields@[f]).types@.contains(
                    child_type,
                ),
        },
{
    let node = &schema.types[parent_type];
    let nf = node.fields.len();
    let mut f: usize = 0;
    while f < nf
        invariant
            node == schema.types@[parent_type as int],
            nf == node.fields@.len(),
            f <= nf,
            forall|ff: int| 0 <= ff < f
                ==> !(#[trigger] node.fields@[ff]).types@.contains(child_type),
        decreases nf - f,
    {
        let nk = node.fields[f].types.len();
        let mut k: usize = 0;
        while k < nk
            invariant
                node == schema.types@[parent_type as int],
                nf == node.fields@.len(),
                f < nf,
                nk == node.fields@[f as int].types@.len(),
                k <= nk,
                forall|kk: int| 0 <= kk < k
                    ==> #[trigger] node.fields@[f as int].types@[kk] != child_type,
            decreases nk - k,
        {
            if node.fields[f].types[k] == child_type {
                return Some(f);
            }
            k += 1;
        }
        proof {
            assert forall|kk: int| 0 <= kk < node.fields@[f as int].types@.len()
                implies node.fields@[f as int].types@[kk] != child_type by {}
        }
        f += 1;
    }
    None
}


/// A diagnostic of the pending pass is pinned to one of the typed captures.
pub open spec fn pend_diag_ok(d: Diagnostic, caps: Seq<TypedCapture>) -> bool {
    &&& d.severity == crate::diag::Severity::Error
    &&& (d.kind == DiagnosticKind::ZeroWidthForbidden || d.kind == DiagnosticKind::OrphanCapture
        || d.kind == DiagnosticKind::NoAcceptingField || d.kind
        == DiagnosticKind::FieldAlreadyFilled)
    &&& exists|j: int|
        0 <= j < caps.len() && d.range == (#[trigger] caps[j]).range && (d.kind
            == DiagnosticKind::ZeroWidthForbidden ==> caps[j].range.start == caps[j].range.end)
}


/// Attaching one fresh node under `p` (appended at slot `ix`, recorded in
/// field `f`) keeps the pending tree sound.
proof fn lemma_pending_attach(
    pend0: Seq<PendNode>,
    pn: Seq<PendNode>,
    schema: Schema,
    p: usize,
    f: usize,
    ix: usize,
)
    requires
        schema.wf(),
        pend_wf(pend0, schema),
        pend_fields_sorted(pend0),
        pend0.len() == ix,
        (p as int) < pend0.len(),
        (f as int) < pend0[p as int].fields@.len(),
        pn.len() == pend0.len() + 1,
        forall|x: int| 0 <= x < pend0.len() && x != p ==> #[trigger] pn[x] == pend0[x],
        pn[p as int].type_id == pend0[p as int].type_id,
        pn[p as int].range == pend0[p as int].range,
        pn[p as int].parent == pend0[p as int].parent,
        pn[p as int].parent_field == pend0[p as int].parent_field,
        pn[p as int].cap_pos == pend0[p as int].cap_pos,
        pn[p as int].fields@.len() == pend0[p as int].fields@.len(),
        forall|ff: int| 0 <= ff < pend0[p as int].fields@.len() && ff != f
            ==> #[trigger] pn[p as int].fields@[ff] == pend0[p as int].fields@[ff],
        pn[p as int].fields@[f as int]@ == pend0[p as int].fields@[f as int]@.push(ix),
        // the appended node itself
        pn[ix as int].type_id < schema.spec_len(),
        pn[ix as int].range.wf(),
        pn[ix as int].parent == Some(p),
        pn[ix as int].parent_field == f,
        pn[ix as int].fields@.len() == schema.types@[pn[ix as int].type_id as int].fields@.len(),
        forall|ff: int| 0 <= ff < pn[ix as int].fields@.len()
            ==> (#[trigger] pn[ix as int].fields@[ff])@.len() == 0,
        pn[ix as int].range.spec_inside(pend0[p as int].range),
        schema.types@[pend0[p as int].type_id as int].fields@[f as int].types@.contains(
            pn[ix as int].type_id,
        ),
        !(schema.types@[pend0[p as int].type_id as int].fields@[f as int].kind is Many)
            ==> pend0[p as int].fields@[f as int]@.len() == 0,
        pn[ix as int].range.start == pn[ix as int].range.end ==> schema.types@[pn[
            ix as int].type_id as int].permits_zero_width,
    ensures
        pend_wf(pn, schema),
        pend_fields_sorted(pn),
{
    assert forall|x: int, ff: int, k1: int, k2: int|
        0 <= x < pn.len() && 0 <= ff < pn[x].fields@.len() && 0 <= k1 < k2 < pn[
            x].fields@[ff]@.len() implies #[trigger] pn[x].fields@[ff]@[k1] < #[trigger] pn[
        x].fields@[ff]@[k2] by {
        if x == ix as int {
        } else if x == p as int && ff == f as int && k2 == pn[x].fields@[ff]@.len() - 1 {
            assert(pn[x].fields@[ff]@[k1] == pend0[x].fields@[ff]@[k1]);
            assert(pend_node_ok(pend0, schema, x));
            assert(pend0[x].fields@[ff]@[k1] < pend0.len());
        } else {
            assert(pn[x].fields@[ff]@[k1] == pend0[x].fields@[ff]@[k1]);
            assert(pn[x].fields@[ff]@[k2] == pend0[x].fields@[ff]@[k2]);
        }
    }
    assert forall|x: int| 0 <= x < pn.len() implies pend_node_ok(pn, schema, x) by {
        assert(pend_node_ok(pend0, schema, x) || x == ix);
        // the parent backlink survives the push
        if x == ix {
            assert(pn[p as int].fields@[f as int]@[pn[p as int].fields@[f as int]@.len() - 1]
                == ix);
            assert(pn[p as int].fields@[f as int]@.contains(ix as usize));
        } else {
            match pend0[x].parent {
                Some(px) => {
                    let pfx = pend0[x].parent_field;
                    if px == p && pfx == f {
                        let k0 = choose|k0: int|
                            0 <= k0 < pend0[p as int].fields@[f as int]@.len() && pend0[
                                p as int].fields@[f as int]@[k0] == x as usize;
                        assert(pn[p as int].fields@[f as int]@[k0] == x as usize);
                        assert(pn[p as int].fields@[f as int]@.contains(x as usize));
                    } else {
                        assert(pn[px as int].fields@[pfx as int]@ == pend0[px as int].fields@[
                            pfx as int]@);
                    }
                },
                None => {},
            }
        }
        if x == p {
            assert forall|ff: int, k: int|
                0 <= ff < pn[x].fields@.len() && 0 <= k < pn[x].fields@[ff]@.len() implies {
                let cc = #[trigger] pn[x].fields@[ff]@[k];
                &&& x < cc < pn.len()
                &&& pn[cc as int].parent == Some(x as usize)
                &&& pn[cc as int].parent_field == ff
                &&& pn[cc as int].range.spec_inside(pn[x].range)
                &&& schema.types@[pn[x].type_id as int].fields@[ff].types@.contains(
                    pn[cc as int].type_id,
                )
            } by {
                if ff == f && k == pn[x].fields@[ff]@.len() - 1 {
                    assert(pn[x].fields@[ff]@[k] == ix);
                } else {
                    assert(pn[x].fields@[ff]@[k] == pend0[x].fields@[ff]@[k]);
                }
            }
        } else if x == ix {
        } else {
        }
    }
}


/// Any two raw capture ranges are nested or disjoint — the shape the
/// captures of one concrete syntax tree always have.
pub open spec fn raw_properly_nested(raw: Seq<RawCapture>) -> bool {
    forall|i: int, j: int|
        0 <= i < raw.len() && 0 <= j < raw.len() ==> ((#[trigger] raw_range(raw[i])).spec_inside(
            #[trigger] raw_range(raw[j]),
        ) || raw_range(raw[j]).spec_inside(raw_range(raw[i])) || raw_range(raw[i]).spec_disjoint(
            raw_range(raw[j]),
        ))
}

/// Any two capture ranges are nested or disjoint — the shape a proper
/// concrete syntax tree's captures always have.
pub open spec fn properly_nested(caps: Seq<TypedCapture>) -> bool {
    forall|i: int, j: int|
        0 <= i < caps.len() && 0 <= j < caps.len() ==> ((#[trigger] caps[i]).range.spec_inside(
            (#[trigger] caps[j]).range,
        ) || caps[j].range.spec_inside(caps[i].range) || caps[i].range.spec_disjoint(
            caps[j].range,
        ))
}

/// Pending siblings cover pairwise disjoint ranges.
pub open spec fn pend_siblings_disjoint(pend: Seq<PendNode>) -> bool {
    forall|x: int, f1: int, k1: int, f2: int, k2: int|
        0 <= x < pend.len() && 0 <= f1 < pend[x].fields@.len() && 0 <= k1 < pend[
            x].fields@[f1]@.len() && 0 <= f2 < pend[x].fields@.len() && 0 <= k2 < pend[
            x].fields@[f2]@.len() && (f1 != f2 || k1 != k2) ==> (#[trigger] pend[pend[
            x].fields@[f1]@[k1] as int].range).spec_disjoint(
            #[trigger] pend[pend[x].fields@[f2]@[k2] as int].range,
        )
}

/// Attaching one capture under the innermost open node keeps the two
/// nesting facts: every closed node still ends before the captures to
/// come, and siblings stay pairwise disjoint.
proof fn lemma_attach_nested(
    caps: Seq<TypedCapture>,
    pend0: Seq<PendNode>,
    pn: Seq<PendNode>,
    schema: Schema,
    st_pre: Seq<usize>,
    st: Seq<usize>,
    p: usize,
    f: usize,
    ix: usize,
    j: int,
)
    requires
        properly_nested(caps),
        caps_sorted(caps),
        0 <= j < caps.len(),
        schema.wf(),
        pend_wf(pend0, schema),
        pend_siblings_disjoint(pend0),
        forall|x: int| 0 <= x < pend0.len() ==> (#[trigger] pend0[x]).cap_pos < j && pend0[x].range
            == caps[pend0[x].cap_pos as int].range,
        ix == pend0.len(),
        pn.len() == pend0.len() + 1,
        (p as int) < pend0.len(),
        forall|x: int| 0 <= x < pend0.len() && x != p as int ==> #[trigger] pn[x] == pend0[x],
        pn[p as int].range == pend0[p as int].range,
        pn[p as int].fields@.len() == pend0[p as int].fields@.len(),
        (f as int) < pend0[p as int].fields@.len(),
        forall|f2: int| 0 <= f2 < pend0[p as int].fields@.len() && f2 != f as int
            ==> #[trigger] pn[p as int].fields@[f2] == pend0[p as int].fields@[f2],
        pn[p as int].fields@[f as int]@ == pend0[p as int].fields@[f as int]@.push(ix),
        pn[ix as int].range == caps[j].range,
        forall|f2: int| 0 <= f2 < pn[ix as int].fields@.len() ==> (#[trigger] pn[
            ix as int].fields@[f2])@.len() == 0,
        st == st_pre.push(ix),
        forall|s: int| 0 <= s < st_pre.len() ==> (#[trigger] st_pre[s]) < pend0.len(),
        forall|s1: int, s2: int| 0 <= s1 < s2 < st_pre.len() ==> #[trigger] st_pre[s1]
            < #[trigger] st_pre[s2],
        forall|s: int| 1 <= s < st_pre.len() ==> pend0[#[trigger] st_pre[s] as int].parent == Some(
            st_pre[s - 1],
        ),
        st_pre.len() > 0,
        st_pre[st_pre.len() - 1] == p,
        st_pre[0] == 0,
        forall|x: int, j2: int|
            0 <= x < pend0.len() && !st_pre.contains(x as usize) && j <= j2 < caps.len()
                ==> (#[trigger] pend0[x]).range.end <= (#[trigger] caps[j2]).range.start,
    ensures
        forall|x: int, j2: int|
            0 <= x < pn.len() && !st.contains(x as usize) && j + 1 <= j2 < caps.len()
                ==> (#[trigger] pn[x]).range.end <= (#[trigger] caps[j2]).range.start,
        pend_siblings_disjoint(pn),
{
    // older children of the open node are closed, so they end before this
    // capture: the new sibling is disjoint from each of them
    assert forall|cc: int| 0 <= cc < pend0.len() && pend0[cc].parent == Some(p)
        implies !st_pre.contains(cc as usize) by {
        if st_pre.contains(cc as usize) {
            let si = choose|si: int| 0 <= si < st_pre.len() && st_pre[si] == cc as usize;
            if si == 0 {
                assert(pend_node_ok(pend0, schema, cc));
            } else {
                assert(pend0[st_pre[si] as int].parent == Some(st_pre[si - 1]));
                assert(st_pre[si - 1] == p);
                assert(st_pre[st_pre.len() - 1] == p);
                if si - 1 < st_pre.len() - 1 {
                    assert(st_pre[si - 1] < st_pre[st_pre.len() - 1]);
                }
                assert(si == st_pre.len());
                assert(false);
            }
        }
    }
    assert forall|x: int, j2: int|
        0 <= x < pn.len() && !st.contains(x as usize) && j + 1 <= j2 < caps.len()
            implies (#[trigger] pn[x]).range.end <= (#[trigger] caps[j2]).range.start by {
        assert(st[st.len() - 1] == ix);
        assert(x != ix as int);
        assert(pn[x].range == pend0[x].range);
        if st_pre.contains(x as usize) {
            let si = choose|si: int| 0 <= si < st_pre.len() && st_pre[si] == x as usize;
            assert(st[si] == x as usize);
            assert(false);
        }
        assert(!cap_lt(caps[j2], caps[j]));
    }
    assert forall|x: int, f1: int, k1: int, f2: int, k2: int|
        0 <= x < pn.len() && 0 <= f1 < pn[x].fields@.len() && 0 <= k1 < pn[x].fields@[f1]@.len()
            && 0 <= f2 < pn[x].fields@.len() && 0 <= k2 < pn[x].fields@[f2]@.len() && (f1 != f2
            || k1 != k2) implies (#[trigger] pn[pn[x].fields@[f1]@[k1] as int].range).spec_disjoint(
        #[trigger] pn[pn[x].fields@[f2]@[k2] as int].range,
    ) by {
        let a_new = x == p as int && f1 == f as int && k1 == pn[x].fields@[f1]@.len() - 1;
        let b_new = x == p as int && f2 == f as int && k2 == pn[x].fields@[f2]@.len() - 1;
        if a_new && b_new {
            assert(false);
        } else if a_new {
            let co = pn[x].fields@[f2]@[k2];
            assert(co == pend0[x].fields@[f2]@[k2]);
            assert(pend_node_ok(pend0, schema, p as int));
            assert(pend0[co as int].parent == Some(p));
            assert(!st_pre.contains(co as usize));
            assert(pend0[co as int].range.end <= caps[j].range.start);
            assert(pn[co as int].range == pend0[co as int].range);
            assert(pn[pn[x].fields@[f1]@[k1] as int].range == caps[j].range);
        } else if b_new {
            let co = pn[x].fields@[f1]@[k1];
            assert(co == pend0[x].fields@[f1]@[k1]);
            assert(pend_node_ok(pend0, schema, p as int));
            assert(pend0[co as int].parent == Some(p));
            assert(!st_pre.contains(co as usize));
            assert(pend0[co as int].range.end <= caps[j].range.start);
            assert(pn[co as int].range == pend0[co as int].range);
            assert(pn[pn[x].fields@[f2]@[k2] as int].range == caps[j].range);
        } else {
            assert(pn[x].fields@[f1]@[k1] == pend0[x].fields@[f1]@[k1]);
            assert(pn[x].fields@[f2]@[k2] == pend0[x].fields@[f2]@[k2]);
            assert(pend_node_ok(pend0, schema, x));
            assert(pn[pend0[x].fields@[f1]@[k1] as int].range == pend0[pend0[x].fields@[f1]@[
                k1] as int].range);
            assert(pn[pend0[x].fields@[f2]@[k2] as int].range == pend0[pend0[x].fields@[f2]@[
                k2] as int].range);
        }
    }
}

/// Assemble the pending tree from the sorted captures.

///
/// Each capture becomes one pending node whose structural parent is the
/// innermost open node whose range contains it; when ranges tie, the
/// earlier-emitted capture is the parent. A capture that no open node can
/// host, that targets a filled single or optional slot, that matches no
/// declared field, or that is zero-width against the schema's word, is
/// dropped with a diagnostic and its siblings proceed.
#[verifier::rlimit(100)]
pub(crate) fn build_pending(
    schema: &Schema,
    caps: &Vec<TypedCapture>,
    diags: &mut Vec<Diagnostic>,
) -> (r: Vec<PendNode>)
    requires
        schema.wf(),
        caps_sorted(caps@),
        forall|j: int| 0 <= j < caps@.len() ==> (#[trigger] caps@[j]).type_id < schema.spec_len(),
        forall|j: int| 0 <= j < caps@.len() ==> (#[trigger] caps@[j]).range.wf(),
    ensures
        pend_wf(r@, *schema),
        pend_fields_sorted(r@),
        // properly nested captures yield pairwise disjoint siblings
        properly_nested(caps@) ==> pend_siblings_disjoint(r@),
        r@.len() <= caps@.len(),
        forall|x: int| 0 <= x < r@.len() ==> (#[trigger] r@[x]).cap_pos < caps@.len()
            && r@[x].type_id == caps@[r@[x].cap_pos as int].type_id
            && r@[x].range == caps@[r@[x].cap_pos as int].range,
        forall|x1: int, x2: int| 0 <= x1 < x2 < r@.len()
            ==> (#[trigger] r@[x1]).cap_pos < (#[trigger] r@[x2]).cap_pos,
        old(diags)@.len() <= final(diags)@.len(),
        final(diags)@.len() <= old(diags)@.len() + caps@.len(),
        final(diags)@.subrange(0, old(diags)@.len() as int) == old(diags)@,
        forall|k: int| old(diags)@.len() <= k < final(diags)@.len() ==> pend_diag_ok(
            #[trigger] final(diags)@[k],
            caps@,
        ),
        old(diags)@.len() == 0 && final(diags)@.len() == 0 ==> r@.len() == caps@.len()
            && (forall|x: int| 0 <= x < r@.len() ==> (#[trigger] r@[x]).cap_pos == x),
{
    let mut pend: Vec<PendNode> = Vec::new();
    let mut stack: Vec<usize> = Vec::new();
    let n = caps.len();
    let mut j: usize = 0;
    while j < n
        invariant
            schema.wf(),
            caps_sorted(caps@),
            forall|jj: int| 0 <= jj < caps@.len()
                ==> (#[trigger] caps@[jj]).type_id < schema.spec_len(),
            forall|jj: int| 0 <= jj < caps@.len() ==> (#[trigger] caps@[jj]).range.wf(),
            n == caps@.len(),
            j <= n,
            pend_wf(pend@, *schema),
            pend_fields_sorted(pend@),
            pend@.len() <= j,
            forall|x: int| 0 <= x < pend@.len() ==> (#[trigger] pend@[x]).cap_pos < j
                && pend@[x].type_id == caps@[pend@[x].cap_pos as int].type_id
                && pend@[x].range == caps@[pend@[x].cap_pos as int].range,
            forall|x1: int, x2: int| 0 <= x1 < x2 < pend@.len()
                ==> (#[trigger] pend@[x1]).cap_pos < (#[trigger] pend@[x2]).cap_pos,
            forall|s: int| 0 <= s < stack@.len() ==> #[trigger] stack@[s] < pend@.len(),
            forall|s1: int, s2: int| 0 <= s1 < s2 < stack@.len()
                ==> #[trigger] stack@[s1] < #[trigger] stack@[s2],
            forall|s: int| 1 <= s < stack@.len()
                ==> pend@[#[trigger] stack@[s] as int].parent == Some(stack@[s - 1]),
            stack@.len() > 0 ==> stack@[0] == 0,
            // under proper nesting: a closed node ends before every capture
            // still to come, and siblings placed so far are disjoint
            properly_nested(caps@) ==> (forall|x: int, j2: int|
                0 <= x < pend@.len() && !stack@.contains(x as usize) && j <= j2 < n
                    ==> (#[trigger] pend@[x]).range.end <= (#[trigger] caps@[j2]).range.start),
            properly_nested(caps@) ==> pend_siblings_disjoint(pend@),
            old(diags)@.len() <= diags@.len(),
            diags@.len() <= old(diags)@.len() + j,
            diags@.subrange(0, old(diags)@.len() as int) == old(diags)@,
            forall|k: int| old(diags)@.len() <= k < diags@.len() ==> pend_diag_ok(
                #[trigger] diags@[k],
                caps@,
            ),
            old(diags)@.len() == 0 && diags@.len() == 0 ==> pend@.len() == j
                && (forall|x: int| 0 <= x < pend@.len() ==> (#[trigger] pend@[x]).cap_pos == x),
        decreases n - j,
    {
        let c = caps[j];
        // zero-width acceptance is the schema's to grant
        if c.range.start == c.range.end && !schema.types[c.type_id].permits_zero_width {
            let d = Diagnostic::error(c.range, DiagnosticKind::ZeroWidthForbidden);
            proof {
                assert(caps@[j as int].range == c.range);
                assert(pend_diag_ok(d, caps@));
            }
            push_new_diag(diags, d);
            j += 1;
            continue ;
        }
        // close every open node that ends before this capture does
        while stack.len() > 0 && pend[stack[stack.len() - 1]].range.end < c.range.end
            invariant
                n == caps@.len(),
                j < n,
                c == caps@[j as int],
                caps_sorted(caps@),
                forall|x: int| 0 <= x < pend@.len() ==> (#[trigger] pend@[x]).cap_pos < j
                    && pend@[x].type_id == caps@[pend@[x].cap_pos as int].type_id
                    && pend@[x].range == caps@[pend@[x].cap_pos as int].range,
                forall|s: int| 0 <= s < stack@.len() ==> #[trigger] stack@[s] < pend@.len(),
                forall|s1: int, s2: int| 0 <= s1 < s2 < stack@.len()
                    ==> #[trigger] stack@[s1] < #[trigger] stack@[s2],
                forall|s: int| 1 <= s < stack@.len()
                    ==> pend@[#[trigger] stack@[s] as int].parent == Some(stack@[s - 1]),
                stack@.len() > 0 ==> stack@[0] == 0,
                properly_nested(caps@) ==> (forall|x: int, j2: int|
                    0 <= x < pend@.len() && !stack@.contains(x as usize) && j <= j2 < n
                        ==> (#[trigger] pend@[x]).range.end <= (
                    #[trigger] caps@[j2]).range.start),
            decreases stack@.len(),
        {
            let ghost st0 = stack@;
            let ghost t = stack@[stack@.len() - 1] as int;
            proof {
                // under proper nesting, a node closed by this capture ends
                // at or before it: containment either way is ruled out by
                // the sort order, so the two are disjoint
                if properly_nested(caps@) {
                    let tp = pend@[t].cap_pos as int;
                    assert(!cap_lt(caps@[j as int], caps@[tp]));
                    assert(caps@[tp].range.spec_inside(caps@[j as int].range) || caps@[
                        j as int].range.spec_inside(caps@[tp].range) || caps@[
                        tp].range.spec_disjoint(caps@[j as int].range));
                    assert(pend@[t].range.end <= caps@[j as int].range.start);
                    assert forall|x: int, j2: int|
                        0 <= x < pend@.len() && !st0.drop_last().contains(x as usize) && j <= j2
                            < n implies (#[trigger] pend@[x]).range.end <= (
                    #[trigger] caps@[j2]).range.start by {
                        if x == t {
                            assert(!cap_lt(caps@[j2], caps@[j as int]));
                        } else {
                            if st0.contains(x as usize) {
                                let si = choose|si: int|
                                    0 <= si < st0.len() && st0[si] == x as usize;
                                assert(st0[si] == x as usize);
                                assert(st0[st0.len() - 1] as int == t);
                                assert(0 <= x < pend@.len());
                                assert(pend@.len() <= usize::MAX) by {
                                    broadcast use vstd::std_specs::vec::axiom_spec_len;

                                    assert(vstd::std_specs::vec::spec_vec_len(&pend)
                                        <= usize::MAX);
                                }
                                assert((x as usize) as int == x);
                                assert(si != st0.len() - 1);
                                assert(st0.drop_last()[si] == st0[si]);
                                assert(false);
                            }
                        }
                    }
                }
            }
            stack.pop();
            proof {
                assert(stack@ =~= st0.drop_last());
            }
        }
        if pend.len() == 0 {
            // the first accepted capture roots the pending tree
            let fields = empty_fields(schema.types[c.type_id].fields.len());
            pend.push(
                PendNode {
                    type_id: c.type_id,
                    range: c.range,
                    parent: None,
                    parent_field: 0,
                    fields,
                    cap_pos: j,
                },
            );
            let ghost st_before = stack@;
            stack.push(0);
            proof {
                assert forall|x: int| 0 <= x < pend@.len() implies pend_node_ok(
                    pend@,
                    *schema,
                    x,
                ) by {}
                // the stack was empty: it can only hold prior pending slots
                assert(st_before.len() == 0) by {
                    if st_before.len() > 0 {
                        assert(st_before[0] < 0);
                    }
                }
                assert(stack@[0] == 0usize);
                assert(stack@.contains(0usize));
            }

        } else if stack.len() == 0 {
            // nothing open can host this capture
            let d = Diagnostic::error(c.range, DiagnosticKind::OrphanCapture);
            proof {
                assert(caps@[j as int].range == c.range);
                assert(pend_diag_ok(d, caps@));
            }
            push_new_diag(diags, d);

        } else {
            let p = stack[stack.len() - 1];
            let ptype = pend[p].type_id;
            proof {
                assert(pend_node_ok(pend@, *schema, p as int));
                // sortedness puts the open node's start at or before ours
                assert(!cap_lt(caps@[j as int], caps@[pend@[p as int].cap_pos as int]));
            }
            match find_accepting_field(schema, ptype, c.type_id) {
                None => {
                    let d = Diagnostic::error(c.range, DiagnosticKind::NoAcceptingField);
                    proof {
                        assert(caps@[j as int].range == c.range);
                        assert(pend_diag_ok(d, caps@));
                    }
                    push_new_diag(diags, d);
                },
                Some(f) => {
                    let is_many = matches!(
                        schema.types[ptype].fields[f].kind,
                        crate::schema::FieldKind::Many
                    );
                    if !is_many && pend[p].fields[f].len() > 0 {
                        let d = Diagnostic::error(c.range, DiagnosticKind::FieldAlreadyFilled);
                        proof {
                            assert(caps@[j as int].range == c.range);
                            assert(pend_diag_ok(d, caps@));
                        }
                        push_new_diag(diags, d);
                    } else {
                        let ix = pend.len();
                        let ghost pend0 = pend@;
                        let ghost st_pre = stack@;
                        pend[p].fields[f].push(ix);
                        let fields = empty_fields(schema.types[c.type_id].fields.len());
                        pend.push(
                            PendNode {
                                type_id: c.type_id,
                                range: c.range,
                                parent: Some(p),
                                parent_field: f,
                                fields,
                                cap_pos: j,
                            },
                        );
                        stack.push(ix);
                        proof {
                            let pn = pend@;
                            assert(pn[p as int].fields@[f as int]@
                                == pend0[p as int].fields@[f as int]@.push(ix));
                            lemma_pending_attach(pend0, pn, *schema, p, f, ix);
                            if properly_nested(caps@) {
                                assert(pend@.len() <= usize::MAX) by {
                                    broadcast use vstd::std_specs::vec::axiom_spec_len;

                                    assert(vstd::std_specs::vec::spec_vec_len(&pend)
                                        <= usize::MAX);
                                }
                                lemma_attach_nested(
                                    caps@,
                                    pend0,
                                    pend@,
                                    *schema,
                                    st_pre,
                                    stack@,
                                    p,
                                    f,
                                    ix,
                                    j as int,
                                );
                            }
                        }
                    }
                },
            }
        }

        j += 1;
    }
    pend
}

/// Is pending node `x` lowerable, given the validity of every node after it?
/// A node is valid when each of its single fields holds exactly one valid
/// child; optional and repeated fields never block a node.
pub open spec fn node_valid_at(
    pend: Seq<PendNode>,
    schema: Schema,
    valid: Seq<bool>,
    x: int,
) -> bool {
    forall|f: int|
        0 <= f < pend[x].fields@.len()
            && (#[trigger] schema.types@[pend[x].type_id as int].fields@[f].kind) is Single
            ==> pend[x].fields@[f]@.len() == 1 && valid[pend[x].fields@[f]@[0] as int]
}


/// A node's verdict depends only on the verdicts of nodes after it.
proof fn lemma_valid_at_stable(
    pend: Seq<PendNode>,
    schema: Schema,
    a: Seq<bool>,
    b: Seq<bool>,
    x: int,
)
    requires
        pend_wf(pend, schema),
        0 <= x < pend.len(),
        forall|c: int| x < c < pend.len() ==> a[c] == b[c],
    ensures
        node_valid_at(pend, schema, a, x) == node_valid_at(pend, schema, b, x),
{
    assert(pend_node_ok(pend, schema, x));
    if node_valid_at(pend, schema, a, x) {
        assert forall|f: int|
            0 <= f < pend[x].fields@.len()
                && (#[trigger] schema.types@[pend[x].type_id as int].fields@[f].kind) is Single
                implies pend[x].fields@[f]@.len() == 1 && b[pend[x].fields@[f]@[0] as int] by {
            assert(pend[x].fields@[f]@.len() == 1 && a[pend[x].fields@[f]@[0] as int]);
            assert(pend[x].fields@[f]@[0] > x);
        }
    }
    if node_valid_at(pend, schema, b, x) {
        assert forall|f: int|
            0 <= f < pend[x].fields@.len()
                && (#[trigger] schema.types@[pend[x].type_id as int].fields@[f].kind) is Single
                implies pend[x].fields@[f]@.len() == 1 && a[pend[x].fields@[f]@[0] as int] by {
            assert(pend[x].fields@[f]@.len() == 1 && b[pend[x].fields@[f]@[0] as int]);
            assert(pend[x].fields@[f]@[0] > x);
        }
    }
}

/// The validating half of lowering: decide, bottom-up, which pending nodes
/// can be lowered, and report a diagnostic at each node whose mandatory
/// single field stayed empty or lost its child.
pub(crate) fn compute_valid(
    schema: &Schema,
    pend: &Vec<PendNode>,
    diags: &mut Vec<Diagnostic>,
) -> (valid: Vec<bool>)
    requires
        schema.wf(),
        pend_wf(pend@, *schema),
    ensures
        valid@.len() == pend@.len(),
        forall|x: int| 0 <= x < pend@.len()
            ==> #[trigger] valid@[x] == node_valid_at(pend@, *schema, valid@, x),
        old(diags)@.len() <= final(diags)@.len(),
        final(diags)@.len() <= old(diags)@.len() + pend@.len(),
        final(diags)@.subrange(0, old(diags)@.len() as int) == old(diags)@,
        forall|k: int| old(diags)@.len() <= k < final(diags)@.len()
            ==> (#[trigger] final(diags)@[k]).severity == crate::diag::Severity::Error
            && final(diags)@[k].kind == DiagnosticKind::MissingField && (exists|x: int|
            0 <= x < pend@.len() && !valid@[x] && final(diags)@[k].range == (
            #[trigger] pend@[x]).range),
        old(diags)@.len() == 0 && final(diags)@.len() == 0 ==> forall|x: int|
            0 <= x < pend@.len() ==> #[trigger] valid@[x],
{
    let n = pend.len();
    let mut valid: Vec<bool> = Vec::new();
    let mut i: usize = 0;
    while i < n
        invariant
            i <= n,
            valid@.len() == i,
        decreases n - i,
    {
        valid.push(false);
        i += 1;
    }
    let mut ix: usize = n;
    while ix > 0
        invariant
            n == pend@.len(),
            schema.wf(),
            pend_wf(pend@, *schema),
            ix <= n,
            valid@.len() == n,
            forall|x: int| ix <= x < n
                ==> #[trigger] valid@[x] == node_valid_at(pend@, *schema, valid@, x),
            old(diags)@.len() <= diags@.len(),
            diags@.len() <= old(diags)@.len() + n - ix,
            diags@.subrange(0, old(diags)@.len() as int) == old(diags)@,
            forall|k: int| old(diags)@.len() <= k < diags@.len() ==> (#[trigger] diags@[
                k]).severity == crate::diag::Severity::Error && diags@[k].kind
                == DiagnosticKind::MissingField && (exists|x: int|
                ix <= x < pend@.len() && !valid@[x] && diags@[k].range == (
                #[trigger] pend@[x]).range),
            old(diags)@.len() == 0 && diags@.len() == 0 ==> forall|x: int|
                ix <= x < n ==> #[trigger] valid@[x],
        decreases ix,
    {
        ix -= 1;
        proof {
            assert(pend_node_ok(pend@, *schema, ix as int));
        }
        let node = &pend[ix];
        let nf = node.fields.len();
        let mut ok = true;
        let mut f: usize = 0;
        while f < nf
            invariant
                n == pend@.len(),
                schema.wf(),
                pend_wf(pend@, *schema),
                ix < n,
                node == pend@[ix as int],
                nf == node.fields@.len(),
                pend_node_ok(pend@, *schema, ix as int),
                f <= nf,
                valid@.len() == n,
                ok == (forall|ff: int|
                    0 <= ff < f
                        && (#[trigger] schema.types@[node.type_id as int].fields@[ff].kind)
                        is Single ==> node.fields@[ff]@.len() == 1
                        && valid@[node.fields@[ff]@[0] as int]),
            decreases nf - f,
        {
            let is_single = matches!(
                schema.types[node.type_id].fields[f].kind,
                crate::schema::FieldKind::Single
            );
            if is_single {
                if node.fields[f].len() != 1 {
                    ok = false;
                } else {
                    let c = node.fields[f][0];
                    if !valid[c] {
                        ok = false;
                    }
                }
            }
            f += 1;
        }
        let ghost valid0 = valid@;
        valid[ix] = ok;
        if !ok {
            let d = Diagnostic::error(node.range, DiagnosticKind::MissingField);
            proof {
                assert(pend@[ix as int].range == node.range);
                assert(!valid@[ix as int]);
            }
            push_new_diag(diags, d);
        }
        proof {
            // updating slot `ix` leaves every later node's verdict alone,
            // since its children sit at strictly larger indices
            assert forall|x: int| ix <= x < n implies #[trigger] valid@[x] == node_valid_at(
                pend@,
                *schema,
                valid@,
                x,
            ) by {
                if x == ix {
                    assert(valid@[x] == ok);
                    assert forall|ff: int|
                        0 <= ff < pend@[x].fields@.len()
                            && (#[trigger] schema.types@[pend@[x].type_id as int].fields@[ff].kind)
                            is Single implies (pend@[x].fields@[ff]@.len() == 1 && valid@[
                        pend@[x].fields@[ff]@[0] as int] == valid0[
                        pend@[x].fields@[ff]@[0] as int]) || !ok by {
                        if ok {
                            assert(pend@[x].fields@[ff]@.len() == 1);
                            assert(pend@[x].fields@[ff]@[0] > x);
                        }
                    }
                    if !ok {
                    } else {
                        assert(node_valid_at(pend@, *schema, valid@, x));
                    }
                } else {
                    assert(valid0[x] == node_valid_at(pend@, *schema, valid0, x));
                    lemma_valid_at_stable(pend@, *schema, valid@, valid0, x);
                }
            }
        }
        ix = ix;
    }
    valid
}

/// Final symbol `e` carries the type and range of pending node `y`.
pub open spec fn emitted_from(ast: crate::symbol::Ast, e: int, pend: Seq<PendNode>, y: int) -> bool {
    &&& 0 <= y < pend.len()
    &&& ast.n(e).type_id == pend[y].type_id
    &&& ast.n(e).range == pend[y].range
}


/// Two strictly increasing index lists with the same members are equal.
proof fn lemma_sorted_same_members(s1: Seq<usize>, s2: Seq<usize>)
    requires
        forall|k1: int, k2: int| 0 <= k1 < k2 < s1.len() ==> #[trigger] s1[k1] < #[trigger] s1[k2],
        forall|k1: int, k2: int| 0 <= k1 < k2 < s2.len() ==> #[trigger] s2[k1] < #[trigger] s2[k2],
        forall|x: usize| s1.contains(x) <==> s2.contains(x),
    ensures
        s1 == s2,
    decreases s1.len(),
{
    if s1.len() == 0 {
        if s2.len() > 0 {
            assert(s2.contains(s2[0]));
            assert(s1.contains(s2[0]));
            assert(false);
        }
        assert(s1 =~= s2);
    } else if s2.len() == 0 {
        assert(s1.contains(s1[0]));
        assert(s2.contains(s1[0]));
        assert(false);
    } else {
        assert(s1.contains(s1[0]));
        assert(s2.contains(s1[0]));
        let j = choose|j: int| 0 <= j < s2.len() && s2[j] == s1[0];
        if j > 0 {
            assert(s2[0] < s2[j]);
            assert(s2.contains(s2[0]));
            assert(s1.contains(s2[0]));
            let i = choose|i: int| 0 <= i < s1.len() && s1[i] == s2[0];
            if i > 0 {
                assert(s1[0] < s1[i]);
            }
            assert(false);
        }
        assert(s2[0] == s1[0]);
        let t1 = s1.drop_first();
        let t2 = s2.drop_first();
        assert forall|x: usize| t1.contains(x) implies t2.contains(x) by {
            let k = choose|k: int| 0 <= k < t1.len() && t1[k] == x;
            assert(s1[k + 1] == x);
            assert(s1.contains(x));
            assert(s2.contains(x));
            let m = choose|m: int| 0 <= m < s2.len() && s2[m] == x;
            assert(s1[0] < s1[k + 1]);
            if m == 0 {
                assert(false);
            }
            assert(t2[m - 1] == x);
        }
        assert forall|x: usize| t2.contains(x) implies t1.contains(x) by {
            let k = choose|k: int| 0 <= k < t2.len() && t2[k] == x;
            assert(s2[k + 1] == x);
            assert(s2.contains(x));
            assert(s1.contains(x));
            let m = choose|m: int| 0 <= m < s1.len() && s1[m] == x;
            assert(s2[0] < s2[k + 1]);
            if m == 0 {
                assert(false);
            }
            assert(t1[m - 1] == x);
        }
        assert forall|k1: int, k2: int| 0 <= k1 < k2 < t1.len() implies #[trigger] t1[k1]
            < #[trigger] t1[k2] by {
            assert(s1[k1 + 1] < s1[k2 + 1]);
        }
        assert forall|k1: int, k2: int| 0 <= k1 < k2 < t2.len() implies #[trigger] t2[k1]
            < #[trigger] t2[k2] by {
            assert(s2[k1 + 1] < s2[k2 + 1]);
        }
        lemma_sorted_same_members(t1, t2);
        assert(s1.len() == s2.len());
        assert forall|i: int| 0 <= i < s1.len() implies s1[i] == s2[i] by {
            if i > 0 {
                assert(t1[i - 1] == t2[i - 1]);
            }
        }
        assert(s1 =~= s2);
    }
}


/// Is pending node `y` lowered: it is valid, and so is every ancestor up to
/// the root — an invalid node drops only its own subtree, never siblings.
pub open spec fn lowerable(pend: Seq<PendNode>, valid: Seq<bool>, y: int) -> bool
    decreases y,
{
    &&& 0 <= y < pend.len()
    &&& valid[y]
    &&& match pend[y].parent {
        Some(p) => if 0 <= p < y {
            lowerable(pend, valid, p as int)
        } else {
            false
        },
        None => true,
    }
}

/// Node `y` produced some emitted symbol.
pub open spec fn emits_node(ast: crate::symbol::Ast, pend: Seq<PendNode>, y: int) -> bool {
    exists|e: int| 0 <= e < ast.spec_len() && #[trigger] emitted_from(ast, e, pend, y)
}

/// The emission condition, replayed per node, equals lowerability.
proof fn lemma_emit_cond_lowerable(
    pend: Seq<PendNode>,
    valid: Seq<bool>,
    emit_map: Seq<Option<usize>>,
    schema: Schema,
    y: int,
)
    requires
        pend_wf(pend, schema),
        emit_map.len() == pend.len(),
        0 <= y < pend.len(),
        forall|x: int| 0 <= x < pend.len() ==> ((#[trigger] emit_map[x]) is Some <==> (valid[x]
            && (match pend[x].parent {
            Some(p) => emit_map[p as int] is Some,
            None => true,
        }))),
    ensures
        emit_map[y] is Some <==> lowerable(pend, valid, y),
    decreases y,
{
    assert(pend_node_ok(pend, schema, y));
    match pend[y].parent {
        Some(p) => {
            lemma_emit_cond_lowerable(pend, valid, emit_map, schema, p as int);
        },
        None => {},
    }
}

/// Slot `e` satisfies both halves of per-node well-formedness.
pub open spec fn node_ok_full(ast: crate::symbol::Ast, schema: Schema, e: int) -> bool {
    ast.node_graph_ok(e) && ast.node_schema_ok(schema, e)
}

/// Some pending node supplied symbol `e`'s type and range.
pub open spec fn has_source(ast: crate::symbol::Ast, e: int, pend: Seq<PendNode>) -> bool {
    exists|y: int| #[trigger] emitted_from(ast, e, pend, y)
}

/// The emitting half of lowering: copy every lowerable pending node whose
/// ancestors are all lowerable into a fresh symbol arena, wire parents and
/// children, and enqueue each new symbol that the schema marks for a deferred
/// check or for reference resolution.
#[verifier::rlimit(100)]
pub(crate) fn emit_ast(
    schema: &Schema,
    pend: &Vec<PendNode>,
    valid: &Vec<bool>,
) -> (r: (crate::symbol::Ast, Vec<usize>, Vec<usize>))
    requires
        schema.wf(),
        pend_wf(pend@, *schema),
        pend_fields_sorted(pend@),
        valid@.len() == pend@.len(),
        forall|x: int| 0 <= x < pend@.len()
            ==> #[trigger] valid@[x] == node_valid_at(pend@, *schema, valid@, x),
    ensures
        r.0.wf(*schema),
        r.0.spec_len() <= pend@.len(),
        forall|e: int| 0 <= e < r.0.spec_len() ==> (#[trigger] r.0.n(e)).live
            && r.0.n(e).target is None && r.0.n(e).referrers@.len() == 0
            && r.0.n(e).comment is None,
        forall|e: int| 0 <= e < r.0.spec_len() ==> #[trigger] has_source(r.0, e, pend@),
        r.0.root is Some <==> (pend@.len() > 0 && valid@[0]),
        pend@.len() > 0 && valid@[0] ==> r.0.root == Some(0usize),
        // partial lowering: a valid node under valid ancestors is emitted,
        // whatever became of its siblings
        forall|y: int| 0 <= y < pend@.len() && lowerable(pend@, valid@, y)
            ==> #[trigger] emits_node(r.0, pend@, y),
        // sibling disjointness carries over from the pending tree
        pend_siblings_disjoint(pend@) ==> crate::laws::disjoint_siblings(r.0),
        // checks and references queues: sound, complete, in emission order
        forall|q: int| 0 <= q < r.1@.len() ==> #[trigger] r.1@[q] < r.0.spec_len()
            && schema.types@[r.0.n(r.1@[q] as int).type_id as int].is_check,
        forall|e: int| 0 <= e < r.0.spec_len()
            && schema.types@[(#[trigger] r.0.n(e)).type_id as int].is_check
            ==> r.1@.contains(e as usize),
        forall|q1: int, q2: int| 0 <= q1 < q2 < r.1@.len()
            ==> #[trigger] r.1@[q1] < #[trigger] r.1@[q2],
        forall|q: int| 0 <= q < r.2@.len() ==> #[trigger] r.2@[q] < r.0.spec_len()
            && schema.types@[r.0.n(r.2@[q] as int).type_id as int].is_reference,
        forall|e: int| 0 <= e < r.0.spec_len()
            && schema.types@[(#[trigger] r.0.n(e)).type_id as int].is_reference
            ==> r.2@.contains(e as usize),
        forall|q1: int, q2: int| 0 <= q1 < q2 < r.2@.len()
            ==> #[trigger] r.2@[q1] < #[trigger] r.2@[q2],
        // when every pending node is lowerable, lowering loses nothing:
        // each slot keeps its place and its exact field lists
        (forall|x: int| 0 <= x < pend@.len() ==> #[trigger] valid@[x]) ==> r.0.spec_len()
            == pend@.len() && (forall|y: int| 0 <= y < pend@.len() ==> emitted_from(
            r.0,
            y,
            pend@,
            y,
        )) && (forall|y: int, f: int|
            0 <= y < pend@.len() && 0 <= f < r.0.n(y).fields@.len() ==> (#[trigger] r.0.n(
                y,
            ).fields@[f])@ == pend@[y].fields@[f]@),
{
    let n = pend.len();
    let mut ast = crate::symbol::Ast::empty();
    let mut checks: Vec<usize> = Vec::new();
    let mut refs: Vec<usize> = Vec::new();
    let mut emit_map: Vec<Option<usize>> = Vec::new();
    let ghost mut srcs: Seq<int> = Seq::empty();
    let mut x: usize = 0;
    while x < n
        invariant
            schema.wf(),
            pend_wf(pend@, *schema),
            n == pend@.len(),
            valid@.len() == n,
            forall|xx: int| 0 <= xx < n
                ==> #[trigger] valid@[xx] == node_valid_at(pend@, *schema, valid@, xx),
            x <= n,
            emit_map@.len() == x,
            srcs.len() == ast.spec_len(),
            ast.root is None,
            ast.spec_len() <= x,
            // the two maps invert each other
            forall|e: int| 0 <= e < ast.spec_len() ==> 0 <= #[trigger] srcs[e] < x
                && emit_map@[srcs[e]] == Some(e as usize),
            forall|y: int| 0 <= y < x ==> match #[trigger] emit_map@[y] {
                Some(e) => e < ast.spec_len() && srcs[e as int] == y && valid@[y],
                None => true,
            },
            forall|e1: int, e2: int| 0 <= e1 < e2 < ast.spec_len()
                ==> #[trigger] srcs[e1] < #[trigger] srcs[e2],
            // the emission condition, replayed
            forall|y: int| 0 <= y < x
                ==> ((#[trigger] emit_map@[y]) is Some <==> (valid@[y] && (match pend@[y].parent {
                    Some(p) => emit_map@[p as int] is Some,
                    None => true,
                }))),
            // node contents mirror their pending sources
            forall|e: int| 0 <= e < ast.spec_len() ==> {
                let y = #[trigger] srcs[e];
                &&& ast.n(e).type_id == pend@[y].type_id
                &&& ast.n(e).range == pend@[y].range
                &&& ast.n(e).live
                &&& ast.n(e).target is None
                &&& ast.n(e).referrers@.len() == 0
                &&& ast.n(e).comment is None
                &&& ast.n(e).fields@.len() == schema.types@[pend@[y].type_id as int].fields@.len()
                &&& (match pend@[y].parent {
                    Some(p) => ast.n(e).parent == emit_map@[p as int]
                        && emit_map@[p as int] is Some,
                    None => ast.n(e).parent is None,
                })
            },
            // every final child entry comes from a pending child placed there
            forall|e: int, f: int, k: int|
                0 <= e < ast.spec_len() && 0 <= f < ast.n(e).fields@.len() && 0 <= k < ast.n(
                    e,
                ).fields@[f]@.len() ==> {
                    let c = #[trigger] ast.n(e).fields@[f]@[k];
                    &&& e < c < ast.spec_len()
                    &&& pend@[srcs[c as int]].parent == Some(srcs[e] as usize)
                    &&& pend@[srcs[c as int]].parent_field == f
                },
            forall|e: int, f: int, k1: int, k2: int|
                0 <= e < ast.spec_len() && 0 <= f < ast.n(e).fields@.len() && 0 <= k1 < k2
                    < ast.n(e).fields@[f]@.len()
                    ==> #[trigger] ast.n(e).fields@[f]@[k1] < #[trigger] ast.n(e).fields@[f]@[k2],
            // every emitted pending child already processed is wired in
            forall|y: int, f: int, kk: int|
                0 <= y < x && (#[trigger] emit_map@[y]) is Some && 0 <= f < pend@[y].fields@.len()
                    && 0 <= kk < pend@[y].fields@[f]@.len() ==> {
                    let cp = #[trigger] pend@[y].fields@[f]@[kk];
                    &&& (cp < x && valid@[cp as int] ==> emit_map@[cp as int] is Some
                        && ast.n(emit_map@[y]->Some_0 as int).fields@[f]@.contains(
                        emit_map@[cp as int]->Some_0,
                    ))
                },
            // queues: sound, complete so far, in emission order
            forall|q: int| 0 <= q < checks@.len() ==> #[trigger] checks@[q] < ast.spec_len()
                && schema.types@[ast.n(checks@[q] as int).type_id as int].is_check,
            forall|e: int| 0 <= e < ast.spec_len()
                && schema.types@[(#[trigger] ast.n(e)).type_id as int].is_check
                ==> checks@.contains(e as usize),
            forall|q1: int, q2: int| 0 <= q1 < q2 < checks@.len()
                ==> #[trigger] checks@[q1] < #[trigger] checks@[q2],
            forall|q: int| 0 <= q < refs@.len() ==> #[trigger] refs@[q] < ast.spec_len()
                && schema.types@[ast.n(refs@[q] as int).type_id as int].is_reference,
            forall|e: int| 0 <= e < ast.spec_len()
                && schema.types@[(#[trigger] ast.n(e)).type_id as int].is_reference
                ==> refs@.contains(e as usize),
            forall|q1: int, q2: int| 0 <= q1 < q2 < refs@.len()
                ==> #[trigger] refs@[q1] < #[trigger] refs@[q2],
            // if the root was not emitted nothing was
            (x > 0 && emit_map@[0] is None) ==> ast.spec_len() == 0,
            x > 0 && emit_map@[0] is Some ==> emit_map@[0] == Some(0usize),
            // the clean path emits everything in place
            (forall|yy: int| 0 <= yy < n ==> #[trigger] valid@[yy]) ==> (ast.spec_len() == x
                && (forall|y: int| 0 <= y < x ==> #[trigger] emit_map@[y] == Some(y as usize))),
        decreases n - x,
    {
        proof {
            assert(pend_node_ok(pend@, *schema, x as int));
        }
        let ghost em0 = emit_map@;
        let ghost ast_a = ast;
        let ghost srcs0 = srcs;
        let can_emit = if !valid[x] {
            false
        } else {
            match pend[x].parent {
                None => true,
                Some(p) => matches!(emit_map[p], Some(_)),
            }
        };
        proof {
            assert(can_emit == (valid@[x as int] && (match pend@[x as int].parent {
                Some(p) => em0[p as int] is Some,
                None => true,
            })));
        }
        if !can_emit {
            emit_map.push(None);
            proof {
                assert(emit_map@ == em0.push(None));
                assert forall|y: int| 0 <= y < x + 1 implies ((#[trigger] emit_map@[y]) is Some
                    <==> (valid@[y] && (match pend@[y].parent {
                    Some(p) => emit_map@[p as int] is Some,
                    None => true,
                }))) by {
                    if y < x {
                        assert(emit_map@[y] == em0[y]);
                        match pend@[y].parent {
                            Some(p) => {
                                assert(pend_node_ok(pend@, *schema, y));
                                assert(emit_map@[p as int] == em0[p as int]);
                            },
                            None => {},
                        }
                    } else {
                        match pend@[y].parent {
                            Some(p) => {
                                assert(emit_map@[p as int] == em0[p as int]);
                            },
                            None => {},
                        }
                    }
                }
                assert forall|e: int| 0 <= e < ast.spec_len() implies 0 <= #[trigger] srcs[e]
                    < x + 1 && emit_map@[srcs[e]] == Some(e as usize) by {
                    assert(emit_map@[srcs[e]] == em0[srcs[e]]);
                }
                assert forall|e: int| 0 <= e < ast.spec_len() implies {
                    let y = #[trigger] srcs[e];
                    &&& ast.n(e).type_id == pend@[y].type_id
                    &&& ast.n(e).range == pend@[y].range
                    &&& ast.n(e).live
                    &&& ast.n(e).target is None
                    &&& ast.n(e).referrers@.len() == 0
                    &&& ast.n(e).comment is None
                    &&& ast.n(e).fields@.len() == schema.types@[pend@[
                        y].type_id as int].fields@.len()
                    &&& (match pend@[y].parent {
                        Some(p) => ast.n(e).parent == emit_map@[p as int] && emit_map@[
                            p as int
                        ] is Some,
                        None => ast.n(e).parent is None,
                    })
                } by {
                    let y = srcs[e];
                    assert(0 <= y < x);
                    assert(pend_node_ok(pend@, *schema, y));
                    match pend@[y].parent {
                        Some(p) => {
                            assert(p < y);
                            assert(emit_map@[p as int] == em0[p as int]);
                        },
                        None => {},
                    }
                }
                assert forall|y: int, f: int, kk: int|
                    0 <= y < x + 1 && (#[trigger] emit_map@[y]) is Some && 0 <= f < pend@[
                        y].fields@.len() && 0 <= kk < pend@[y].fields@[f]@.len() implies {
                    let cp = #[trigger] pend@[y].fields@[f]@[kk];
                    (cp < x + 1 && valid@[cp as int] ==> emit_map@[cp as int] is Some && ast.n(
                        emit_map@[y]->Some_0 as int,
                    ).fields@[f]@.contains(emit_map@[cp as int]->Some_0))
                } by {
                    let cp = pend@[y].fields@[f]@[kk];
                    assert(y < x);
                    assert(pend_node_ok(pend@, *schema, y));
                    assert(cp > y);
                    if cp < x + 1 && valid@[cp as int] {
                        if cp < x {
                            assert(emit_map@[cp as int] == em0[cp as int]);
                            assert(emit_map@[y] == em0[y]);
                        } else {
                            // cp == x: it is a valid child of an emitted parent,
                            // so it would have been emitted; contradiction
                            assert(cp == x);
                            assert(pend@[cp as int].parent == Some(y as usize));
                            assert(em0[y] is Some);
                            assert(valid@[x as int]);
                            assert(can_emit);
                            assert(false);
                        }
                    }
                }
            }
        } else {
            let e = ast.len();
            let parent_final: Option<usize> = match pend[x].parent {
                None => None,
                Some(p) => emit_map[p],
            };
            let tid = pend[x].type_id;
            let fields = empty_fields(schema.types[tid].fields.len());
            ast.nodes.push(
                crate::symbol::Symbol {
                    type_id: tid,
                    range: pend[x].range,
                    parent: parent_final,
                    fields,
                    referrers: Vec::new(),
                    target: None,
                    comment: None,
                    live: true,
                },
            );
            proof {
                srcs = srcs.push(x as int);
            }
            emit_map.push(Some(e));
            let ghost checks0 = checks@;
            let ghost refs0 = refs@;
            if schema.types[tid].is_check {
                checks.push(e);
            }
            if schema.types[tid].is_reference {
                refs.push(e);
            }
            let ghost ast_b = ast;
            match parent_final {
                Some(pe) => {
                    let pf = pend[x].parent_field;
                    proof {
                        let py = pend@[x as int].parent->Some_0;
                        assert(em0[py as int] == Some(pe));
                        assert(srcs[pe as int] == py as int);
                        assert(pend_node_ok(pend@, *schema, py as int));
                        assert(ast.n(pe as int).fields@.len() == schema.types@[pend@[
                            py as int].type_id as int].fields@.len());
                        assert(pf < ast.n(pe as int).fields@.len());
                    }
                    ast.nodes[pe].fields[pf].push(e);
                    proof {
                        assert(ast.n(pe as int).fields@[pf as int]@ == ast_b.n(
                            pe as int,
                        ).fields@[pf as int]@.push(e));
                        assert forall|ee: int| 0 <= ee < ast.spec_len() && ee != pe
                            implies ast.n(ee) == ast_b.n(ee) by {}
                    }
                },
                None => {},
            }
            proof {
                let an = ast;
                let py_opt = pend@[x as int].parent;
                assert(emit_map@ == em0.push(Some(e as usize)));
                assert(srcs == srcs0.push(x as int));
                assert(an.spec_len() == ast_a.spec_len() + 1);
                assert(srcs[e as int] == x as int);
                // frame: only the parent slot (fields only) and the new slot changed
                assert forall|ee: int| 0 <= ee < ast_a.spec_len() implies an.n(ee).type_id
                    == ast_a.n(ee).type_id && an.n(ee).range == ast_a.n(ee).range && an.n(
                    ee,
                ).live == ast_a.n(ee).live && an.n(ee).target == ast_a.n(ee).target && an.n(
                    ee,
                ).referrers@ == ast_a.n(ee).referrers@ && an.n(ee).comment == ast_a.n(ee).comment
                    && an.n(ee).parent == ast_a.n(ee).parent && an.n(ee).fields@.len() == ast_a.n(
                    ee,
                ).fields@.len() by {}
                assert(an.n(e as int).type_id == pend@[x as int].type_id);
                assert forall|y: int| 0 <= y < x + 1 implies ((#[trigger] emit_map@[y]) is Some
                    <==> (valid@[y] && (match pend@[y].parent {
                    Some(p) => emit_map@[p as int] is Some,
                    None => true,
                }))) by {
                    if y < x {
                        assert(emit_map@[y] == em0[y]);
                        assert(pend_node_ok(pend@, *schema, y));
                        match pend@[y].parent {
                            Some(p) => {
                                assert(p < y);
                                assert(emit_map@[p as int] == em0[p as int]);
                            },
                            None => {},
                        }
                    } else {
                        assert(emit_map@[y] == Some(e as usize));
                        match pend@[y].parent {
                            Some(p) => {
                                assert(emit_map@[p as int] == em0[p as int]);
                            },
                            None => {},
                        }
                    }
                }
                assert forall|ee: int| 0 <= ee < an.spec_len() implies 0 <= #[trigger] srcs[ee]
                    < x + 1 && emit_map@[srcs[ee]] == Some(ee as usize) by {
                    if ee < ast_a.spec_len() {
                        assert(srcs[ee] == srcs0[ee]);
                        assert(emit_map@[srcs[ee]] == em0[srcs[ee]]);
                    } else {
                        assert(ee == e as int);
                    }
                }
                assert forall|ee: int| 0 <= ee < an.spec_len() implies {
                    let y = #[trigger] srcs[ee];
                    &&& an.n(ee).type_id == pend@[y].type_id
                    &&& an.n(ee).range == pend@[y].range
                    &&& an.n(ee).live
                    &&& an.n(ee).target is None
                    &&& an.n(ee).referrers@.len() == 0
                    &&& an.n(ee).comment is None
                    &&& an.n(ee).fields@.len() == schema.types@[pend@[
                        y].type_id as int].fields@.len()
                    &&& (match pend@[y].parent {
                        Some(p) => an.n(ee).parent == emit_map@[p as int] && emit_map@[
                            p as int
                        ] is Some,
                        None => an.n(ee).parent is None,
                    })
                } by {
                    let y = srcs[ee];
                    if ee < ast_a.spec_len() {
                        assert(srcs[ee] == srcs0[ee]);
                        assert(0 <= y < x);
                        assert(pend_node_ok(pend@, *schema, y));
                        match pend@[y].parent {
                            Some(p) => {
                                assert(p < y);
                                assert(emit_map@[p as int] == em0[p as int]);
                            },
                            None => {},
                        }
                    } else {
                        assert(ee == e as int);
                        assert(y == x as int);
                        match pend@[y].parent {
                            Some(p) => {
                                assert(emit_map@[p as int] == em0[p as int]);
                            },
                            None => {},
                        }
                    }
                }
                // child-entry soundness and ordering
                assert forall|ee: int, f: int, k: int|
                    0 <= ee < an.spec_len() && 0 <= f < an.n(ee).fields@.len() && 0 <= k < an.n(
                        ee,
                    ).fields@[f]@.len() implies {
                    let c = #[trigger] an.n(ee).fields@[f]@[k];
                    &&& ee < c < an.spec_len()
                    &&& pend@[srcs[c as int]].parent == Some(srcs[ee] as usize)
                    &&& pend@[srcs[c as int]].parent_field == f
                } by {
                    if ee == e as int {
                        assert(an.n(ee).fields@[f]@.len() == 0);
                    } else {
                        let changed = match parent_final {
                            Some(pe) => ee == pe as int && f == pend@[
                                x as int].parent_field as int,
                            None => false,
                        };
                        if changed && k == an.n(ee).fields@[f]@.len() - 1 {
                            assert(an.n(ee).fields@[f]@[k] == e as usize);
                            assert(pend@[x as int].parent == Some(srcs[ee] as usize));
                        } else {
                            assert(an.n(ee).fields@[f]@[k] == ast_a.n(ee).fields@[f]@[k]);
                            let c = ast_a.n(ee).fields@[f]@[k];
                            assert(srcs[c as int] == srcs0[c as int]);
                        }
                    }
                }
                assert forall|ee: int, f: int, k1: int, k2: int|
                    0 <= ee < an.spec_len() && 0 <= f < an.n(ee).fields@.len() && 0 <= k1 < k2
                        < an.n(ee).fields@[f]@.len() implies #[trigger] an.n(ee).fields@[f]@[k1]
                    < #[trigger] an.n(ee).fields@[f]@[k2] by {
                    if ee != e as int {
                        let changed = match parent_final {
                            Some(pe) => ee == pe as int && f == pend@[
                                x as int].parent_field as int,
                            None => false,
                        };
                        if changed && k2 == an.n(ee).fields@[f]@.len() - 1 {
                            assert(an.n(ee).fields@[f]@[k1] == ast_a.n(ee).fields@[f]@[k1]);
                            assert(an.n(ee).fields@[f]@[k2] == e as usize);
                            assert(ast_a.n(ee).fields@[f]@[k1] < ast_a.spec_len());
                        } else {
                            assert(an.n(ee).fields@[f]@[k1] == ast_a.n(ee).fields@[f]@[k1]);
                            assert(an.n(ee).fields@[f]@[k2] == ast_a.n(ee).fields@[f]@[k2]);
                        }
                    }
                }
                // wiring completeness
                assert forall|y: int, f: int, kk: int|
                    0 <= y < x + 1 && (#[trigger] emit_map@[y]) is Some && 0 <= f < pend@[
                        y].fields@.len() && 0 <= kk < pend@[y].fields@[f]@.len() implies {
                    let cp = #[trigger] pend@[y].fields@[f]@[kk];
                    (cp < x + 1 && valid@[cp as int] ==> emit_map@[cp as int] is Some && an.n(
                        emit_map@[y]->Some_0 as int,
                    ).fields@[f]@.contains(emit_map@[cp as int]->Some_0))
                } by {
                    let cp = pend@[y].fields@[f]@[kk];
                    assert(pend_node_ok(pend@, *schema, y));
                    assert(cp > y);
                    if cp < x + 1 && valid@[cp as int] {
                        if y == x as int {
                            // children of the new node are still unprocessed
                            assert(cp > x);
                            assert(false);
                        } else {
                            assert(emit_map@[y] == em0[y]);
                            let ye = em0[y]->Some_0;
                            if cp == x as int {
                                assert(pend@[cp as int].parent == Some(y as usize));
                                assert(pend@[cp as int].parent_field == f);
                                assert(parent_final == em0[y]);
                                assert(emit_map@[cp as int] == Some(e as usize));
                                assert(an.n(ye as int).fields@[f]@[an.n(
                                    ye as int,
                                ).fields@[f]@.len() - 1] == e as usize);
                                assert(an.n(ye as int).fields@[f]@.contains(e as usize));
                            } else {
                                assert(emit_map@[cp as int] == em0[cp as int]);
                                assert(ast_a.n(ye as int).fields@[f]@.contains(em0[
                                    cp as int]->Some_0));
                                let kw = choose|kw: int|
                                    0 <= kw < ast_a.n(ye as int).fields@[f]@.len() && ast_a.n(
                                        ye as int,
                                    ).fields@[f]@[kw] == em0[cp as int]->Some_0;
                                assert(an.n(ye as int).fields@[f]@[kw] == em0[
                                    cp as int]->Some_0);
                                assert(an.n(ye as int).fields@[f]@.contains(em0[
                                    cp as int]->Some_0));
                            }
                        }
                    }
                }
                // queue invariants
                assert forall|ee: int| 0 <= ee < an.spec_len() && schema.types@[(
                #[trigger] an.n(ee)).type_id as int].is_check implies checks@.contains(
                    ee as usize,
                ) by {
                    if ee < ast_a.spec_len() {
                        assert(an.n(ee).type_id == ast_a.n(ee).type_id);
                        assert(checks0.contains(ee as usize));
                        let kw = choose|kw: int|
                            0 <= kw < checks0.len() && checks0[kw] == ee as usize;
                        assert(checks@[kw] == ee as usize);
                    } else {
                        assert(ee == e as int);
                        assert(checks@[checks@.len() - 1] == e as usize);
                    }
                }
                assert forall|ee: int| 0 <= ee < an.spec_len() && schema.types@[(
                #[trigger] an.n(ee)).type_id as int].is_reference implies refs@.contains(
                    ee as usize,
                ) by {
                    if ee < ast_a.spec_len() {
                        assert(an.n(ee).type_id == ast_a.n(ee).type_id);
                        assert(refs0.contains(ee as usize));
                        let kw = choose|kw: int|
                            0 <= kw < refs0.len() && refs0[kw] == ee as usize;
                        assert(refs@[kw] == ee as usize);
                    } else {
                        assert(ee == e as int);
                        assert(refs@[refs@.len() - 1] == e as usize);
                    }
                }
            }
        }
        x += 1;
    }
    let ghost ast_pre = ast;
    if n > 0 {
        proof {
            assert((emit_map@[0] is Some) <==> (valid@[0] && (match pend@[0].parent {
                Some(p) => emit_map@[p as int] is Some,
                None => true,
            })));
            assert(pend_node_ok(pend@, *schema, 0));
        }
        match emit_map[0] {
            Some(r0) => {
                ast.root = Some(r0);
            },
            None => {},
        }
    }
    proof {
        // well-formedness of the emitted arena
        let a = ast;
        assert(a.nodes == ast_pre.nodes);
        assert forall|e: int| 0 <= e < a.spec_len() && schema.types@[(
        #[trigger] a.n(e)).type_id as int].is_check implies checks@.contains(e as usize) by {
            assert(a.n(e) == ast_pre.n(e));
        }
        assert forall|e: int| 0 <= e < a.spec_len() && schema.types@[(
        #[trigger] a.n(e)).type_id as int].is_reference implies refs@.contains(e as usize) by {
            assert(a.n(e) == ast_pre.n(e));
        }
        // the root clause of well-formedness
        match a.root {
            Some(r0) => {
                assert(r0 == 0);
                assert(emit_map@[0] == Some(0usize));
                assert(a.spec_len() > 0);
                assert(srcs[0] == 0);
                assert(pend_node_ok(pend@, *schema, 0));
                assert(a.n(0).live);
                assert(a.n(0).parent is None);
            },
            None => {
                if n > 0 {
                    assert(emit_map@[0] is None);
                }
                assert(a.spec_len() == 0);
            },
        }
        assert forall|e: int| 0 <= e < a.spec_len() implies #[trigger] node_ok_full(
            a,
            *schema,
            e,
        ) by {
            let y = srcs[e];
            assert(pend_node_ok(pend@, *schema, y));
            assert(a.n(e).range.wf());
            match pend@[y].parent {
                Some(py) => {
                    let pe = emit_map@[py as int]->Some_0;
                    assert(emit_map@[py as int] == Some(pe));
                    assert(srcs[pe as int] == py as int);
                    assert(py < y);
                    if pe as int >= e {
                        if pe as int == e {
                            assert(false);
                        } else {
                            assert(srcs[e] < srcs[pe as int]);
                            assert(false);
                        }
                    }
                    assert(a.n(e).parent == Some(pe));
                    assert(0 <= pe < e);
                },
                None => {
                    assert(a.n(e).parent is None);
                },
            }
            assert forall|f: int, k: int|
                0 <= f < a.n(e).fields@.len() && 0 <= k < a.n(e).fields@[f]@.len() implies {
                let c = #[trigger] a.n(e).fields@[f]@[k];
                &&& e < c < a.spec_len()
                &&& a.n(c as int).parent == Some(e as usize)
                &&& a.n(c as int).live == a.n(e).live
                &&& a.n(c as int).range.spec_inside(a.n(e).range)
                &&& schema.types@[a.n(e).type_id as int].fields@[f].types@.contains(
                    a.n(c as int).type_id,
                )
            } by {
                let c = a.n(e).fields@[f]@[k];
                let cy = srcs[c as int];
                assert(pend@[cy].parent == Some(y as usize));
                assert(pend_node_ok(pend@, *schema, cy));
                assert(pend@[y as int].fields@[f]@.contains(cy as usize));
                let kk = choose|kk: int|
                    0 <= kk < pend@[y as int].fields@[f]@.len() && pend@[y as int].fields@[f]@[kk]
                        == cy as usize;
                assert(pend@[y as int].fields@[f]@[kk] == cy as usize);
            }
            // single fields hold exactly one child, optional at most one
            assert forall|f: int| 0 <= f < a.n(e).fields@.len() implies match (
            #[trigger] schema.types@[a.n(e).type_id as int].fields@[f]).kind {
                crate::schema::FieldKind::Single => a.n(e).fields@[f]@.len() == 1,
                crate::schema::FieldKind::Optional => a.n(e).fields@[f]@.len() <= 1,
                crate::schema::FieldKind::Many => true,
            } by {
                let kind = schema.types@[a.n(e).type_id as int].fields@[f].kind;
                if kind is Single || kind is Optional {
                    if a.n(e).fields@[f]@.len() > 1 {
                        let c1 = a.n(e).fields@[f]@[0];
                        let c2 = a.n(e).fields@[f]@[1];
                        assert(c1 < c2);
                        let cy1 = srcs[c1 as int];
                        let cy2 = srcs[c2 as int];
                        assert(cy1 < cy2);
                        assert(pend@[cy1].parent == Some(y as usize));
                        assert(pend@[cy2].parent == Some(y as usize));
                        assert(pend_node_ok(pend@, *schema, cy1));
                        assert(pend_node_ok(pend@, *schema, cy2));
                        assert(pend@[y].fields@[f]@.contains(cy1 as usize));
                        assert(pend@[y].fields@[f]@.contains(cy2 as usize));
                        let kk1 = choose|kk: int|
                            0 <= kk < pend@[y].fields@[f]@.len() && pend@[y].fields@[f]@[kk]
                                == cy1 as usize;
                        let kk2 = choose|kk: int|
                            0 <= kk < pend@[y].fields@[f]@.len() && pend@[y].fields@[f]@[kk]
                                == cy2 as usize;
                        assert(pend@[y].fields@[f]@.len() <= 1);
                        assert(kk1 == kk2);
                        assert(false);
                    }
                    if kind is Single && a.n(e).fields@[f]@.len() == 0 {
                        // validity promised exactly one lowerable child here
                        assert(valid@[y] == node_valid_at(pend@, *schema, valid@, y));
                        assert(valid@[y]);
                        assert(pend@[y].fields@[f]@.len() == 1);
                        let cp = pend@[y].fields@[f]@[0];
                        assert(valid@[cp as int]);
                        assert(emit_map@[y] == Some(e as usize));
                        assert(cp < n);
                        assert(emit_map@[cp as int] is Some);
                        assert(a.n(e).fields@[f]@.contains(emit_map@[cp as int]->Some_0));
                        assert(false);
                    }
                }
            }
        }
        assert forall|e: int| 0 <= e < a.spec_len() implies #[trigger] a.node_graph_ok(e) by {
            assert(node_ok_full(a, *schema, e));
        }
        assert forall|e: int| 0 <= e < a.spec_len() implies #[trigger] a.node_schema_ok(
            *schema,
            e,
        ) by {
            assert(node_ok_full(a, *schema, e));
        }
        assert forall|i: int| 0 <= i < a.spec_len() && a.n(i).live implies match a.n(i).parent {
            Some(p) => a.n(p as int).live && a.child_in_field(p as int, i),
            None => a.root == Some(i as usize),
        } by {
            let y = srcs[i];
            assert(pend_node_ok(pend@, *schema, y));
            match pend@[y].parent {
                Some(py) => {
                    let pe = emit_map@[py as int]->Some_0;
                    assert(a.n(i).parent == Some(pe));
                    assert(pend@[py as int].fields@[pend@[y].parent_field as int]@.contains(
                        y as usize,
                    ));
                    let kk = choose|kk: int|
                        0 <= kk < pend@[py as int].fields@[pend@[y].parent_field as int]@.len()
                            && pend@[py as int].fields@[pend@[y].parent_field as int]@[kk]
                            == y as usize;
                    assert(pend@[py as int].fields@[pend@[y].parent_field as int]@[kk]
                        == y as usize);
                    assert(valid@[y as int]);
                    assert(emit_map@[y] == Some(i as usize));
                    assert(a.n(pe as int).fields@[pend@[y].parent_field as int]@.contains(
                        i as usize,
                    ));
                    let k2 = choose|k2: int|
                        0 <= k2 < a.n(pe as int).fields@[pend@[y].parent_field as int]@.len()
                            && a.n(pe as int).fields@[pend@[y].parent_field as int]@[k2]
                            == i as usize;
                    assert(srcs[pe as int] == py as int);
                    assert(pend_node_ok(pend@, *schema, py as int));
                    assert(a.n(pe as int).fields@.len() == schema.types@[pend@[
                        py as int].type_id as int].fields@.len());
                    assert(pend@[y].parent_field < a.n(pe as int).fields@.len());
                    assert(a.n(pe as int).fields@[pend@[y].parent_field as int]@[k2]
                        == i as usize);
                    assert(a.child_in_field(pe as int, i));
                },
                None => {
                    assert(y == 0);
                    assert(emit_map@[0] == Some(i as usize));
                    if i != 0 {
                        assert(srcs[0] < srcs[i]);
                        assert(false);
                    }
                    assert(i == 0);
                },
            }
        }
        if pend_siblings_disjoint(pend@) {
            assert forall|p2: int, f1: int, k1: int, f2: int, k2: int|
                0 <= p2 < a.spec_len() && 0 <= f1 < a.n(p2).fields@.len() && 0 <= k1 < a.n(
                    p2,
                ).fields@[f1]@.len() && 0 <= f2 < a.n(p2).fields@.len() && 0 <= k2 < a.n(
                    p2,
                ).fields@[f2]@.len() && (f1 != f2 || k1 != k2) implies (#[trigger] a.n(
                a.n(p2).fields@[f1]@[k1] as int,
            ).range).spec_disjoint(#[trigger] a.n(a.n(p2).fields@[f2]@[k2] as int).range) by {
                let c1 = a.n(p2).fields@[f1]@[k1];
                let c2 = a.n(p2).fields@[f2]@[k2];
                assert(a.node_graph_ok(p2));
                assert(c1 != c2);
                let y1 = srcs[c1 as int];
                let y2 = srcs[c2 as int];
                assert(y1 != y2) by {
                    assert(emit_map@[y1] == Some(c1));
                    assert(emit_map@[y2] == Some(c2));
                }
                let yp = srcs[p2];
                assert(pend@[y1].parent == Some(yp as usize));
                assert(pend@[y2].parent == Some(yp as usize));
                assert(pend@[y1].parent_field == f1);
                assert(pend@[y2].parent_field == f2);
                assert(pend_node_ok(pend@, *schema, y1));
                assert(pend_node_ok(pend@, *schema, y2));
                assert(pend@[yp as int].fields@[f1 as int]@.contains(y1 as usize));
                assert(pend@[yp as int].fields@[f2 as int]@.contains(y2 as usize));
                let kk1 = choose|kk: int|
                    0 <= kk < pend@[yp as int].fields@[f1 as int]@.len() && pend@[
                        yp as int].fields@[f1 as int]@[kk] == y1 as usize;
                let kk2 = choose|kk: int|
                    0 <= kk < pend@[yp as int].fields@[f2 as int]@.len() && pend@[
                        yp as int].fields@[f2 as int]@[kk] == y2 as usize;
                assert(f1 != f2 || kk1 != kk2);
                assert((pend@[pend@[yp as int].fields@[f1 as int]@[kk1] as int].range).spec_disjoint(
                    pend@[pend@[yp as int].fields@[f2 as int]@[kk2] as int].range,
                ));
                assert(a.n(c1 as int).range == pend@[y1].range);
                assert(a.n(c2 as int).range == pend@[y2].range);
            }
        }
        // partial lowering: replay the emission condition per node
        assert forall|y: int| 0 <= y < pend@.len() && lowerable(pend@, valid@, y) implies
            #[trigger] emits_node(a, pend@, y) by {
            lemma_emit_cond_lowerable(pend@, valid@, emit_map@, *schema, y);
            let e = emit_map@[y]->Some_0;
            assert(emit_map@[y] == Some(e));
            assert(srcs[e as int] == y);
            assert(emitted_from(a, e as int, pend@, y));
        }
        // accounting witnesses
        assert forall|e: int| 0 <= e < a.spec_len() implies (#[trigger] a.n(e)).live && a.n(
            e,
        ).target is None && a.n(e).referrers@.len() == 0 && a.n(e).comment is None by {
            let y = srcs[e];
        }
        assert forall|i: int| 0 <= i < a.spec_len() && a.n(i).live implies match (
        #[trigger] a.n(i)).target {
            Some(t) => t < a.spec_len() && (a.n(t as int).live ==> a.n(
                t as int,
            ).referrers@.contains(i as usize)),
            None => true,
        } by {
            let y = srcs[i];
            assert(a.n(i).target is None);
        }
        assert forall|e: int| 0 <= e < a.spec_len() implies #[trigger] has_source(
            a,
            e,
            pend@,
        ) by {
            assert(emitted_from(a, e, pend@, srcs[e]));
        }
        if (forall|xx: int| 0 <= xx < pend@.len() ==> #[trigger] valid@[xx]) {
            assert forall|y: int| 0 <= y < pend@.len() implies emitted_from(a, y, pend@, y) by {
                assert(emit_map@[y] == Some(y as usize));
                assert(srcs[y] == y);
            }
            // with nothing dropped, the field lists carry over exactly:
            // both sides are strictly increasing with the same members
            assert forall|y: int, f: int|
                0 <= y < pend@.len() && 0 <= f < a.n(y).fields@.len() implies (#[trigger] a.n(
                y,
            ).fields@[f])@ == pend@[y].fields@[f]@ by {
                assert(pend_node_ok(pend@, *schema, y));
                assert(emit_map@[y] == Some(y as usize));
                assert(srcs[y] == y);
                assert forall|xv: usize| a.n(y).fields@[f]@.contains(xv) implies pend@[
                    y].fields@[f]@.contains(xv) by {
                    let k = choose|k: int|
                        0 <= k < a.n(y).fields@[f]@.len() && a.n(y).fields@[f]@[k] == xv;
                    assert(a.n(y).fields@[f]@[k] == xv);
                    assert(y < xv < a.spec_len());
                    assert(srcs[xv as int] == xv as int) by {
                        assert(emit_map@[xv as int] == Some(xv));
                    }
                    assert(pend@[xv as int].parent == Some(y as usize));
                    assert(pend@[xv as int].parent_field == f);
                    assert(pend_node_ok(pend@, *schema, xv as int));
                    assert(pend@[y].fields@[f]@.contains(xv));
                }
                assert forall|xv: usize| pend@[y].fields@[f]@.contains(xv) implies a.n(
                    y,
                ).fields@[f]@.contains(xv) by {
                    let kk = choose|kk: int|
                        0 <= kk < pend@[y].fields@[f]@.len() && pend@[y].fields@[f]@[kk] == xv;
                    assert(pend@[y].fields@[f]@[kk] == xv);
                    assert(y < xv < pend@.len());
                    assert(valid@[xv as int]);
                    assert(emit_map@[xv as int] == Some(xv));
                    assert(a.n(emit_map@[y]->Some_0 as int).fields@[f]@.contains(
                        emit_map@[xv as int]->Some_0,
                    ));
                }
                lemma_sorted_same_members(a.n(y).fields@[f]@, pend@[y].fields@[f]@);
            }
        }
    }
    (ast, checks, refs)
}

/// Symbol `e`'s range came from one of the raw captures.
pub open spec fn sourced_in_raw(
    ast: crate::symbol::Ast,
    e: int,
    raw: Seq<RawCapture>,
) -> bool {
    exists|j: int| 0 <= j < raw.len() && ast.n(e).range == raw_range(#[trigger] raw[j])
}

/// The state a build pass produces and later passes re-drive: the typed AST,
/// the diagnostics of the cycle, and the two deferred work queues.
#[derive(Clone, Debug)]
pub struct MainBuilder {
    pub ast: crate::symbol::Ast,
    pub diagnostics: Vec<Diagnostic>,
    pub unsolved_checks: Vec<usize>,
    pub unsolved_references: Vec<usize>,
}

impl MainBuilder {
    /// Queue entries always name an arena slot of the matching capability.
    /// (They may name a dead slot: a dangling weak handle is normal.)
    pub open spec fn queues_ok(self, schema: Schema) -> bool {
        &&& forall|q: int| 0 <= q < self.unsolved_checks@.len()
            ==> #[trigger] self.unsolved_checks@[q] < self.ast.spec_len()
            && schema.types@[self.ast.n(self.unsolved_checks@[q] as int).type_id as int].is_check
        &&& forall|q: int| 0 <= q < self.unsolved_references@.len()
            ==> #[trigger] self.unsolved_references@[q] < self.ast.spec_len()
            && schema.types@[self.ast.n(
            self.unsolved_references@[q] as int,
        ).type_id as int].is_reference
    }

    pub open spec fn wf(self, schema: Schema) -> bool {
        self.ast.wf(schema) && self.queues_ok(schema)
    }

    /// Build the typed AST from one query pass over the document.
    ///
    /// `names` are the query's capture names (capture index keyed); `raw` are
    /// the captures; `text_len` bounds acceptable ranges. Construction never
    /// fails as a whole: every rejected capture and every unlowerable node
    /// becomes a diagnostic, and the rest of the tree is kept.
    pub fn build(
        schema: &Schema,
        names: &Vec<Vec<u8>>,
        raw: &Vec<RawCapture>,
        text_len: usize,
    ) -> (r: MainBuilder)
        requires
            schema.wf(),
        ensures
            r.wf(*schema),
            forall|e: int| 0 <= e < r.ast.spec_len() ==> (#[trigger] r.ast.n(e)).live
                && r.ast.n(e).target is None && r.ast.n(e).referrers@.len() == 0
                && r.ast.n(e).comment is None,
            // a fresh build enqueues exactly the check- and reference-capable symbols
            forall|e: int| 0 <= e < r.ast.spec_len()
                && schema.types@[(#[trigger] r.ast.n(e)).type_id as int].is_check
                ==> r.unsolved_checks@.contains(e as usize),
            forall|e: int| 0 <= e < r.ast.spec_len()
                && schema.types@[(#[trigger] r.ast.n(e)).type_id as int].is_reference
                ==> r.unsolved_references@.contains(e as usize),
            // an empty capture set yields an empty tree and no diagnostics
            raw@.len() == 0 ==> r.ast.spec_len() == 0 && r.ast.root is None
                && r.diagnostics@.len() == 0,
            // a zero-width symbol exists only where the schema permits it
            forall|e: int| 0 <= e < r.ast.spec_len() && (#[trigger] r.ast.n(e)).range.start
                == r.ast.n(e).range.end ==> schema.types@[r.ast.n(
                e,
            ).type_id as int].permits_zero_width,
            // every symbol's range is one of the captures' ranges
            forall|e: int| 0 <= e < r.ast.spec_len() ==> #[trigger] sourced_in_raw(
                r.ast,
                e,
                raw@,
            ),
            // every diagnostic is pinned to a capture that violates the rule
            // its kind names; in particular none is invented
            forall|k: int| 0 <= k < r.diagnostics@.len() ==> diag_sourced(
                #[trigger] r.diagnostics@[k],
                *schema,
                names@,
                raw@,
                text_len as int,
            ),
            // nested captures yield pairwise disjoint siblings in the tree
            raw_properly_nested(raw@) ==> crate::laws::disjoint_siblings(r.ast),
            // a silent build lowered every capture
            r.diagnostics@.len() == 0 ==> r.ast.spec_len() == raw@.len(),
            r.ast.spec_len() <= raw@.len(),
            r.ast.root is None ==> forall|e: int|
                0 <= e < r.ast.spec_len() ==> !(#[trigger] r.ast.n(e)).live,
    {
        broadcast use vstd::seq_lib::group_to_multiset_ensures;

        let mut diags: Vec<Diagnostic> = Vec::new();
        let typed = type_captures(schema, names, raw, text_len, &mut diags);
        let ghost dl1 = diags@.len();
        let sorted = sort_captures(typed);
        let ghost d1 = diags@;
        proof {
            assert forall|j: int| 0 <= j < sorted@.len() implies (#[trigger] sorted@[j]).type_id
                < schema.spec_len() && sorted@[j].range.wf() && sorted@[j].range.end <= text_len
                && sorted@[j].pos < raw@.len() && sorted@[j].range == raw_range(
                raw@[sorted@[j].pos as int],
            ) by {
                assert(typed@.contains(sorted@[j]));
                let i = choose|i: int| 0 <= i < typed@.len() && typed@[i] == sorted@[j];
                assert(typed@[i] == sorted@[j]);
            }
        }
        let pend = build_pending(schema, &sorted, &mut diags);
        let ghost dl2 = diags@.len();
        let ghost d2 = diags@;
        let valid = compute_valid(schema, &pend, &mut diags);
        let (ast, checks, refs) = emit_ast(schema, &pend, &valid);
        proof {
            // zero-width and range accounting transfer along the pipeline
            assert forall|e: int| 0 <= e < ast.spec_len() implies ((#[trigger] ast.n(
                e,
            )).range.start == ast.n(e).range.end ==> schema.types@[ast.n(
                e,
            ).type_id as int].permits_zero_width) by {
                assert(has_source(ast, e, pend@));
                let y = choose|y: int| #[trigger] emitted_from(ast, e, pend@, y);
                assert(pend_node_ok(pend@, *schema, y));
            }
            assert forall|e: int| 0 <= e < ast.spec_len() implies #[trigger] sourced_in_raw(
                ast,
                e,
                raw@,
            ) by {
                assert(has_source(ast, e, pend@));
                let y = choose|y: int| #[trigger] emitted_from(ast, e, pend@, y);
                let cp = pend@[y].cap_pos as int;
                assert(pend@[y].range == sorted@[cp].range);
                assert(sorted@[cp].range == raw_range(raw@[sorted@[cp].pos as int]));
                assert(ast.n(e).range == raw_range(raw@[sorted@[cp].pos as int]));
            }
            if diags@.len() == 0 {
                assert(dl1 == 0 && dl2 == 0);
                assert(typed@.len() == raw@.len());
                assert(pend@.len() == sorted@.len());
                assert(forall|x: int| 0 <= x < pend@.len() ==> #[trigger] valid@[x]);
                assert(ast.spec_len() == pend@.len());
            }
            if raw@.len() == 0 {
                assert(typed@.len() == 0);
                assert(pend@.len() == 0);
                assert(ast.spec_len() == 0);
            }
            if raw_properly_nested(raw@) {
                assert forall|i: int, j2: int|
                    0 <= i < sorted@.len() && 0 <= j2 < sorted@.len() implies ((
                #[trigger] sorted@[i]).range.spec_inside((#[trigger] sorted@[j2]).range)
                    || sorted@[j2].range.spec_inside(sorted@[i].range)
                    || sorted@[i].range.spec_disjoint(sorted@[j2].range)) by {
                    assert(sorted@[i].range == raw_range(raw@[sorted@[i].pos as int]));
                    assert(sorted@[j2].range == raw_range(raw@[sorted@[j2].pos as int]));
                }
                assert(properly_nested(sorted@));
                assert(pend_siblings_disjoint(pend@));
                assert(crate::laws::disjoint_siblings(ast));
            }
            // every diagnostic traces back to a raw capture, whichever pass
            // reported it
            assert forall|k: int| 0 <= k < diags@.len() implies diag_sourced(
                #[trigger] diags@[k],
                *schema,
                names@,
                raw@,
                text_len as int,
            ) by {
                if k < dl1 {
                    assert(diags@.subrange(0, dl2 as int) == d2);
                    assert(diags@[k] == d2[k]);
                    assert(d2.subrange(0, dl1 as int) == d1);
                    assert(d2[k] == d1[k]);
                    assert(diag_sourced(d1[k], *schema, names@, raw@, text_len as int));
                } else if k < dl2 {
                    assert(diags@.subrange(0, dl2 as int) == d2);
                    assert(diags@[k] == d2[k]);
                    assert(pend_diag_ok(d2[k], sorted@));
                    let j = choose|j: int|
                        0 <= j < sorted@.len() && d2[k].range == (#[trigger] sorted@[j]).range
                            && (d2[k].kind == DiagnosticKind::ZeroWidthForbidden
                            ==> sorted@[j].range.start == sorted@[j].range.end);
                    let rc = raw@[sorted@[j].pos as int];
                    assert(sorted@[j].range == raw_range(rc));
                    assert(capture_justifies(diags@[k], *schema, names@, rc, text_len as int));
                } else {
                    assert(diags@[k].kind == DiagnosticKind::MissingField);
                    let x = choose|x: int|
                        0 <= x < pend@.len() && diags@[k].range == (#[trigger] pend@[x]).range;
                    let cp = pend@[x].cap_pos as int;
                    assert(pend@[x].range == sorted@[cp].range);
                    let rc = raw@[sorted@[cp].pos as int];
                    assert(sorted@[cp].range == raw_range(rc));
                    assert(capture_justifies(diags@[k], *schema, names@, rc, text_len as int));
                }
            }
        }
        MainBuilder {
            ast,
            diagnostics: diags,
            unsolved_checks: checks,
            unsolved_references: refs,
        }
    }
}

} // verus!
