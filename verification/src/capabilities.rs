//! Capability dispatch: the host-facing value objects and the walks that
//! produce them from the symbol graph.

use vstd::prelude::*;
use crate::range::ByteRange;
use crate::schema::Schema;
use crate::symbol::Ast;

verus! {

/// One outline entry: a name, an outline kind code, the node's range, the
/// name field's range to select, and nested children.
pub struct DocumentSymbol {
    pub name: Vec<u8>,
    pub kind: u32,
    pub range: ByteRange,
    pub selection_range: ByteRange,
    pub children: Vec<DocumentSymbol>,
}

/// One semantic token before delta encoding: absolute position and length.
#[derive(Clone, Copy, Debug, PartialEq, Eq, Structural)]
pub struct AbsToken {
    pub line: usize,
    pub character: usize,
    pub length: usize,
    pub token_type: u32,
}

/// One semantic token in the wire shape: position deltas, length, type index,
/// and a modifier bitset.
#[derive(Clone, Copy, Debug, PartialEq, Eq, Structural)]
pub struct SemanticToken {
    pub delta_line: usize,
    pub delta_start: usize,
    pub length: usize,
    pub token_type: u32,
    pub token_modifiers: u32,
}

/// Hover content: the rendered bytes.
#[derive(Clone, Debug)]
pub struct Hover {
    pub value: Vec<u8>,
}

/// One inlay hint: where it anchors, its label text, and its kind code.
#[derive(Clone, Debug)]
pub struct InlayHint {
    pub offset: usize,
    pub label: Vec<u8>,
    pub kind: u32,
}

/// One code lens anchor.
#[derive(Clone, Copy, Debug, PartialEq, Eq, Structural)]
pub struct CodeLens {
    pub range: ByteRange,
}

/// One completion proposal.
#[derive(Clone, Debug)]
pub struct CompletionItem {
    pub label: Vec<u8>,
    pub kind: u32,
}

/// The nested selection ranges for one position, innermost first.
#[derive(Clone, Debug)]
pub struct SelectionRange {
    pub ranges: Vec<ByteRange>,
}



/// The symbol whose text names symbol `ix`'s outline entry: the declared
/// name field's first child, when present.
pub open spec fn outline_name_sym(schema: Schema, ast: Ast, ix: int) -> Option<int> {
    match schema.types@[ast.n(ix).type_id as int].document_symbol {
        Some(ds) => if ds.name_field < ast.n(ix).fields@.len() && ast.n(ix).fields@[
            ds.name_field as int]@.len() > 0 {
            Some(ast.n(ix).fields@[ds.name_field as int]@[0] as int)
        } else {
            None
        },
        None => None,
    }
}

/// The outline entry's name for symbol `ix`: the name symbol's text, empty
/// when it is absent or unreadable.
pub open spec fn outline_name_spec(schema: Schema, ast: Ast, text: Seq<u8>, ix: int) -> Seq<u8> {
    match outline_name_sym(schema, ast, ix) {
        Some(ns) => if ast.n(ns).range.wf() && ast.n(ns).range.end <= text.len() {
            text.subrange(ast.n(ns).range.start as int, ast.n(ns).range.end as int)
        } else {
            Seq::empty()
        },
        None => Seq::empty(),
    }
}

/// The range an outline entry selects: the name symbol's, falling back to
/// the node's own.
pub open spec fn outline_selection_spec(schema: Schema, ast: Ast, ix: int) -> ByteRange {
    match outline_name_sym(schema, ast, ix) {
        Some(ns) => ast.n(ns).range,
        None => ast.n(ix).range,
    }
}

/// Entry `e` is symbol `ix`'s: the declared kind, the node's range, the name
/// field's text and selection range.
pub open spec fn outline_src(schema: Schema, ast: Ast, text: Seq<u8>, e: DocumentSymbol, ix: int) -> bool {
    &&& ast.is_live(ix)
    &&& (schema.types@[ast.n(ix).type_id as int].document_symbol matches Some(d) && e.kind
        == d.kind)
    &&& e.range == ast.n(ix).range
    &&& e.selection_range == outline_selection_spec(schema, ast, ix)
    &&& e.name@ == outline_name_spec(schema, ast, text, ix)
}

/// Every entry of the outline tree, nested ones included, is some live
/// opted-in symbol's entry.
pub open spec fn outline_entry_ok(schema: Schema, ast: Ast, text: Seq<u8>, e: DocumentSymbol) -> bool
    decreases e,
{
    &&& exists|ix: int| #[trigger] outline_src(schema, ast, text, e, ix)
    &&& forall|k: int| 0 <= k < e.children@.len() ==> outline_entry_ok(
        schema,
        ast,
        text,
        #[trigger] e.children@[k],
    )
}

/// The number of entries in one outline tree.
pub open spec fn sym_total(d: DocumentSymbol) -> nat
    decreases d,
{
    1 + total_entries(d.children@)
}

/// The number of entries in a forest of outline trees, nested ones included.
pub open spec fn total_entries(s: Seq<DocumentSymbol>) -> nat
    decreases s,
{
    if s.len() == 0 {
        0
    } else {
        sym_total(s[0]) + total_entries(s.drop_first())
    }
}


/// The number of outline entries the subtree under `ix` contributes: one for
/// the node itself when its type opts in, plus its children's.
pub open spec fn outline_count(schema: Schema, ast: Ast, ix: int) -> nat
    decreases ast.spec_len() - ix, 2int, 0int, 0int,
        when ast.wf_graph() && 0 <= ix < ast.spec_len()
{
    (if schema.types@[ast.n(ix).type_id as int].document_symbol is Some {
        1nat
    } else {
        0nat
    }) + outline_fields_count(schema, ast, ix, 0)
}

/// The entries contributed by the children in field `f` and later fields.
pub open spec fn outline_fields_count(schema: Schema, ast: Ast, ix: int, f: int) -> nat
    decreases ast.spec_len() - ix, 1int, ast.n(ix).fields@.len() - f + 1, 0int,
        when ast.wf_graph() && 0 <= ix < ast.spec_len() && 0 <= f
{
    if f >= ast.n(ix).fields@.len() {
        0
    } else {
        outline_row_count(schema, ast, ix, f, 0) + outline_fields_count(schema, ast, ix, f + 1)
    }
}

/// The entries contributed by the children of field `f` from position `k` on.
pub open spec fn outline_row_count(schema: Schema, ast: Ast, ix: int, f: int, k: int) -> nat
    decreases ast.spec_len() - ix, 1int, ast.n(ix).fields@.len() - f, ast.n(
        ix,
    ).fields@[f]@.len() - k,
        when ast.wf_graph() && 0 <= ix < ast.spec_len() && 0 <= f < ast.n(ix).fields@.len()
            && 0 <= k
        via outline_row_count_decreases
{
    if k >= ast.n(ix).fields@[f]@.len() {
        0
    } else {
        outline_count(schema, ast, ast.n(ix).fields@[f]@[k] as int) + outline_row_count(
            schema,
            ast,
            ix,
            f,
            k + 1,
        )
    }
}

#[via_fn]
proof fn outline_row_count_decreases(schema: Schema, ast: Ast, ix: int, f: int, k: int) {
    assert(ast.node_graph_ok(ix));
}

/// Adding an outline tree at the end adds its entries.
pub proof fn lemma_total_push(s: Seq<DocumentSymbol>, d: DocumentSymbol)
    ensures
        total_entries(s.push(d)) == total_entries(s) + sym_total(d),
    decreases s,
{
    assert(s.push(d).len() == s.len() + 1);
    assert(total_entries(s.push(d)) == sym_total(s.push(d)[0]) + total_entries(
        s.push(d).drop_first(),
    ));
    if s.len() == 0 {
        assert(s.push(d)[0] == d);
        assert(s.push(d).drop_first() =~= Seq::<DocumentSymbol>::empty());
        assert(total_entries(Seq::<DocumentSymbol>::empty()) == 0);
    } else {
        assert(s.push(d)[0] == s[0]);
        assert(s.push(d).drop_first() =~= s.drop_first().push(d));
        lemma_total_push(s.drop_first(), d);
        assert(total_entries(s) == sym_total(s[0]) + total_entries(s.drop_first()));
    }
}

/// The range a symbol's semantic token covers: the named field's first
/// child when the feature names one, the symbol's own range otherwise.
pub open spec fn token_range_spec(schema: Schema, ast: Ast, i: int) -> ByteRange {
    let s = ast.n(i);
    match schema.types@[s.type_id as int].semantic_token {
        Some(st) => match st.range_field {
            Some(f) => if f < s.fields@.len() && s.fields@[f as int]@.len() > 0 {
                ast.n(s.fields@[f as int]@[0] as int).range
            } else {
                s.range
            },
            None => s.range,
        },
        None => s.range,
    }
}

/// Does live symbol `i` emit a semantic token?
pub open spec fn emits_token(schema: Schema, ast: Ast, i: int) -> bool {
    ast.is_live(i) && schema.types@[ast.n(i).type_id as int].semantic_token is Some
}

/// The token symbol `i` emits.
pub open spec fn token_of(schema: Schema, ast: Ast, i: int) -> (ByteRange, u32) {
    (
        token_range_spec(schema, ast, i),
        schema.types@[ast.n(i).type_id as int].semantic_token->Some_0.token_type,
    )
}

/// The token ranges of the arena from slot `i` on, in slot order.
pub open spec fn scan_tokens(schema: Schema, ast: Ast, i: int) -> Seq<(ByteRange, u32)>
    decreases ast.spec_len() - i,
{
    if i < 0 || i >= ast.spec_len() {
        Seq::empty()
    } else if emits_token(schema, ast, i) {
        seq![token_of(schema, ast, i)] + scan_tokens(schema, ast, i + 1)
    } else {
        scan_tokens(schema, ast, i + 1)
    }
}

impl crate::builder::MainBuilder {
    /// Collect the semantic-token ranges of every live symbol whose type
    /// opts in, in arena order.
    pub fn collect_semantic_ranges(&self, schema: &Schema) -> (r: Vec<(ByteRange, u32)>)
        requires
            schema.wf(),
            self.ast.wf(*schema),
        ensures
            r@ == scan_tokens(*schema, self.ast, 0),
    {
        let n = self.ast.len();
        let mut out: Vec<(ByteRange, u32)> = Vec::new();
        let mut i: usize = 0;
        while i < n
            invariant
                schema.wf(),
                self.ast.wf(*schema),
                n == self.ast.spec_len(),
                i <= n,
                out@ + scan_tokens(*schema, self.ast, i as int) == scan_tokens(
                    *schema,
                    self.ast,
                    0,
                ),
            decreases n - i,
        {
            proof {
                assert(self.ast.node_schema_ok(*schema, i as int));
                assert(self.ast.node_graph_ok(i as int));
            }
            let ghost pre = out@;
            if self.ast.nodes[i].live {
                let tid = self.ast.nodes[i].type_id;
                match &schema.types[tid].semantic_token {
                    Some(st) => {
                        let rg: ByteRange = match st.range_field {
                            Some(f) => {
                                if f < self.ast.nodes[i].fields.len()
                                    && self.ast.nodes[i].fields[f].len() > 0 {
                                    let c = self.ast.nodes[i].fields[f][0];
                                    self.ast.nodes[c].range
                                } else {
                                    self.ast.nodes[i].range
                                }
                            },
                            None => self.ast.nodes[i].range,
                        };
                        out.push((rg, st.token_type));
                        proof {
                            assert(rg == token_range_spec(*schema, self.ast, i as int));
                            assert(pre + (seq![token_of(*schema, self.ast, i as int)]
                                + scan_tokens(*schema, self.ast, i + 1)) =~= out@ + scan_tokens(
                                *schema,
                                self.ast,
                                i + 1,
                            ));
                        }
                    },
                    None => {},
                }
            }
            i += 1;
        }
        proof {
            assert(scan_tokens(*schema, self.ast, n as int) =~= Seq::<(ByteRange, u32)>::empty());
            assert(out@ + Seq::<(ByteRange, u32)>::empty() =~= out@);
        }
        out
    }

    /// Hover for the symbol at `off`: the type's declared prefix followed by
    /// the symbol's own text.
    pub fn get_hover(&self, schema: &Schema, text: &Vec<u8>, off: usize) -> (r: Option<Hover>)
        requires
            schema.wf(),
            self.ast.wf(*schema),
        ensures
            // hover is owed exactly when the deepest symbol at the offset
            // opts in and its range is readable
            r is Some <==> (match self.ast.find_at_spec(off as int) {
                Some(s) => schema.types@[self.ast.n(s as int).type_id as int].hover is Some
                    && self.ast.n(s as int).range.wf() && self.ast.n(s as int).range.end
                    <= text@.len(),
                None => false,
            }),
            match r {
                Some(h) => exists|s: int|
                    {
                        &&& #[trigger] self.ast.is_live(s)
                        &&& self.ast.n(s).range.spec_contains(off as int)
                        &&& schema.types@[self.ast.n(s).type_id as int].hover matches Some(hf)
                        &&& self.ast.n(s).range.end <= text@.len()
                        &&& h.value@ == hf.prefix@ + text@.subrange(
                            self.ast.n(s).range.start as int,
                            self.ast.n(s).range.end as int,
                        )
                    },
                None => true,
            },
    {
        let s = match self.ast.find_at_offset(off) {
            Some(s) => s,
            None => {
                return None;
            },
        };
        proof {
            assert(self.ast.node_schema_ok(*schema, s as int));
        }
        let tid = self.ast.nodes[s].type_id;
        match &schema.types[tid].hover {
            Some(hf) => {
                match self.ast.get_text(s, text) {
                    Some(t) => {
                        let mut value: Vec<u8> = Vec::new();
                        let mut i: usize = 0;
                        let np = hf.prefix.len();
                        while i < np
                            invariant
                                np == hf.prefix@.len(),
                                i <= np,
                                value@ == hf.prefix@.subrange(0, i as int),
                            decreases np - i,
                        {
                            value.push(hf.prefix[i]);
                            proof {
                                assert(value@ =~= hf.prefix@.subrange(0, i + 1));
                            }
                            i += 1;
                        }
                        proof {
                            assert(value@ =~= hf.prefix@);
                        }
                        let mut k: usize = 0;
                        let nt = t.len();
                        while k < nt
                            invariant
                                nt == t@.len(),
                                k <= nt,
                                value@ == hf.prefix@ + t@.subrange(0, k as int),
                            decreases nt - k,
                        {
                            value.push(t[k]);
                            proof {
                                assert(value@ =~= hf.prefix@ + t@.subrange(0, k + 1));
                            }
                            k += 1;
                        }
                        proof {
                            assert(t@.subrange(0, nt as int) =~= t@);
                        }
                        Some(Hover { value })
                    },
                    None => None,
                }
            },
            None => None,
        }
    }

    /// Go to the definition of the symbol at `off`: the range of its
    /// currently resolved target, if the target is still alive.
    pub fn go_to_definition(&self, off: usize) -> (r: Option<(usize, ByteRange)>)
        requires
            self.ast.wf_graph(),
        ensures
            // a location is owed exactly when the deepest symbol at the
            // offset has a resolved, still-living target
            r is Some <==> (match self.ast.find_at_spec(off as int) {
                Some(s) => self.ast.n(s as int).target matches Some(t) && self.ast.is_live(
                    t as int,
                ),
                None => false,
            }),
            match r {
                Some(t) => self.ast.is_live(t.0 as int) && t.1 == self.ast.n(t.0 as int).range
                    && (match self.ast.find_at_spec(off as int) {
                    Some(s) => self.ast.n(s as int).target == Some(t.0),
                    None => false,
                }),
                None => true,
            },
    {
        let s = match self.ast.find_at_offset(off) {
            Some(s) => s,
            None => {
                return None;
            },
        };
        match self.ast.get_target(s) {
            Some(t) => {
                proof {
                    assert(self.ast.is_live(s as int) && self.ast.n(s as int).target == Some(t));
                }
                Some((t, self.ast.get_range(t)))
            },
            None => None,
        }
    }

    /// Go to the declaration of the symbol at `off`: for reference types
    /// that opt in, forwards to the resolved target, like definition.
    pub fn go_to_declaration(&self, schema: &Schema, off: usize) -> (r: Option<(usize, ByteRange)>)
        requires
            schema.wf(),
            self.ast.wf(*schema),
        ensures
            // owed exactly when the deepest symbol opts in and its target,
            // once resolved, is still alive; the location is the target's
            r is Some <==> (match self.ast.find_at_spec(off as int) {
                Some(s) => schema.types@[self.ast.n(
                    s as int,
                ).type_id as int].go_to_declaration is Some && (self.ast.n(
                    s as int,
                ).target matches Some(t) && self.ast.is_live(t as int)),
                None => false,
            }),
            match r {
                Some(t) => self.ast.is_live(t.0 as int) && t.1 == self.ast.n(t.0 as int).range
                    && (match self.ast.find_at_spec(off as int) {
                    Some(s) => self.ast.n(s as int).target == Some(t.0),
                    None => false,
                }),
                None => true,
            },
    {
        let s = match self.ast.find_at_offset(off) {
            Some(s) => s,
            None => {
                return None;
            },
        };
        proof {
            assert(self.ast.node_schema_ok(*schema, s as int));
        }
        let tid = self.ast.nodes[s].type_id;
        if matches!(schema.types[tid].go_to_declaration, Some(_)) {
            match self.ast.get_target(s) {
                Some(t) => Some((t, self.ast.get_range(t))),
                None => None,
            }
        } else {
            None
        }
    }
}


/// Tokens sorted by document position.
pub open spec fn sorted_toks(abs: Seq<AbsToken>) -> bool {
    forall|i: int| 0 < i < abs.len() ==> (#[trigger] abs[i]).line >= abs[i - 1].line && (abs[
        i].line == abs[i - 1].line ==> abs[i].character >= abs[i - 1].character)
}

/// The delta encoding of one token against its predecessor.
pub open spec fn enc_at(abs: Seq<AbsToken>, i: int) -> SemanticToken {
    if i == 0 {
        SemanticToken {
            delta_line: abs[0].line,
            delta_start: abs[0].character,
            length: abs[0].length,
            token_type: abs[0].token_type,
            token_modifiers: 0,
        }
    } else {
        SemanticToken {
            delta_line: (abs[i].line - abs[i - 1].line) as usize,
            delta_start: if abs[i].line == abs[i - 1].line {
                (abs[i].character - abs[i - 1].character) as usize
            } else {
                abs[i].character
            },
            length: abs[i].length,
            token_type: abs[i].token_type,
            token_modifiers: 0,
        }
    }
}

/// The delta encoding of a sorted token list.
pub open spec fn encode_spec(abs: Seq<AbsToken>) -> Seq<SemanticToken> {
    Seq::new(abs.len(), |i: int| enc_at(abs, i))
}

/// Delta-encode absolute tokens, which must be sorted by position: the first
/// token's deltas are its absolute position; each later token's line delta is
/// relative to the previous token, and its start delta is relative to the
/// previous token's start when they share a line.
pub fn encode_tokens(abs: &Vec<AbsToken>) -> (r: Vec<SemanticToken>)
    requires
        sorted_toks(abs@),
    ensures
        r@ == encode_spec(abs@),
        r@.len() == abs@.len(),
        forall|i: int| 0 <= i < r@.len() ==> {
            let t = #[trigger] r@[i];
            let a = abs@[i];
            &&& t.length == a.length
            &&& t.token_type == a.token_type
            &&& t.token_modifiers == 0
            &&& (i == 0 ==> t.delta_line == a.line && t.delta_start == a.character)
            &&& (i > 0 ==> t.delta_line == a.line - abs@[i - 1].line && (a.line == abs@[i - 1].line
                ==> t.delta_start == a.character - abs@[i - 1].character) && (a.line != abs@[
                i - 1].line ==> t.delta_start == a.character))
        },
{
    let mut out: Vec<SemanticToken> = Vec::new();
    let n = abs.len();
    let mut i: usize = 0;
    while i < n
        invariant
            n == abs@.len(),
            i <= n,
            out@.len() == i,
            forall|k: int| 0 < k < abs@.len() ==> (#[trigger] abs@[k]).line >= abs@[k - 1].line
                && (abs@[k].line == abs@[k - 1].line ==> abs@[k].character >= abs@[k - 1].character),
            forall|k: int| 0 <= k < i ==> {
                let t = #[trigger] out@[k];
                let a = abs@[k];
                &&& t.length == a.length
                &&& t.token_type == a.token_type
                &&& t.token_modifiers == 0
                &&& (k == 0 ==> t.delta_line == a.line && t.delta_start == a.character)
                &&& (k > 0 ==> t.delta_line == a.line - abs@[k - 1].line && (a.line == abs@[k - 1].line
                    ==> t.delta_start == a.character - abs@[k - 1].character) && (a.line
                    != abs@[k - 1].line ==> t.delta_start == a.character))
            },
        decreases n - i,
    {
        let a = abs[i];
        let tok = if i == 0 {
            SemanticToken {
                delta_line: a.line,
                delta_start: a.character,
                length: a.length,
                token_type: a.token_type,
                token_modifiers: 0,
            }
        } else {
            let p = abs[i - 1];
            SemanticToken {
                delta_line: a.line - p.line,
                delta_start: if a.line == p.line {
                    a.character - p.character
                } else {
                    a.character
                },
                length: a.length,
                token_type: a.token_type,
                token_modifiers: 0,
            }
        };
        out.push(tok);
        i += 1;
    }
    proof {
        assert forall|k: int| 0 <= k < out@.len() implies out@[k] == encode_spec(abs@)[k] by {
            assert(encode_spec(abs@)[k] == enc_at(abs@, k));
        }
        assert(out@ =~= encode_spec(abs@));
    }
    out
}

/// Sort absolute tokens by document position (insertion sort, stable).
pub fn sort_tokens(toks: Vec<AbsToken>) -> (r: Vec<AbsToken>)
    ensures
        r@.len() == toks@.len(),
        r@.to_multiset() == toks@.to_multiset(),
        sorted_toks(r@),
{
    broadcast use vstd::seq_lib::group_to_multiset_ensures;

    let mut rem = toks;
    let mut out: Vec<AbsToken> = Vec::new();
    proof {
        assert(out@.to_multiset().add(rem@.to_multiset()) =~= toks@.to_multiset());
    }
    while rem.len() > 0
        invariant
            out@.to_multiset().add(rem@.to_multiset()) == toks@.to_multiset(),
            out@.len() + rem@.len() == toks@.len(),
            forall|i: int| 0 < i < out@.len() ==> (#[trigger] out@[i]).line >= out@[i - 1].line
                && (out@[i].line == out@[i - 1].line ==> out@[i].character >= out@[i - 1].character),
            forall|oi: int, rj: int| 0 <= oi < out@.len() && 0 <= rj < rem@.len()
                ==> tok_le(#[trigger] out@[oi], #[trigger] rem@[rj]),
        decreases rem@.len(),
    {
        broadcast use vstd::seq_lib::group_to_multiset_ensures;

        let mut m: usize = 0;
        let mut k: usize = 1;
        while k < rem.len()
            invariant
                rem@.len() > 0,
                m < k,
                k <= rem@.len(),
                forall|kk: int| 0 <= kk < k ==> tok_le(rem@[m as int], #[trigger] rem@[kk]),
            decreases rem@.len() - k,
        {
            if rem[k].line < rem[m].line
                || (rem[k].line == rem[m].line && rem[k].character < rem[m].character) {
                m = k;
            }
            k += 1;
        }
        let ghost rem0 = rem@;
        let x = rem.remove(m);
        proof {
            assert(rem0[m as int] == x);
            assert forall|rj: int| 0 <= rj < rem@.len() implies tok_le(
                x,
                #[trigger] rem@[rj],
            ) by {
                if rj < m {
                    assert(rem@[rj] == rem0[rj]);
                } else {
                    assert(rem@[rj] == rem0[rj + 1]);
                }
            }
            let ghost o0 = out@;
            assert forall|i: int| 0 < i < out@.len() + 1 implies (#[trigger] out@.push(x)[
                i]).line >= out@.push(x)[i - 1].line && (out@.push(x)[i].line == out@.push(x)[
                i - 1].line ==> out@.push(x)[i].character >= out@.push(x)[i - 1].character) by {
                if i == out@.len() {
                    if out@.len() > 0 {
                        assert(tok_le(out@[i - 1], x));
                    }
                }
            }
        }
        out.push(x);
    }
    proof {
        assert(rem@.to_multiset().len() == 0);
        assert(out@.to_multiset().add(rem@.to_multiset()) =~= out@.to_multiset());
    }
    out
}

/// Position order on absolute tokens.
pub open spec fn tok_le(a: AbsToken, b: AbsToken) -> bool {
    a.line < b.line || (a.line == b.line && a.character <= b.character)
}

/// `[ws, we)` is the maximal run of identifier bytes around offset `off`.
pub open spec fn is_word_span(text: Seq<u8>, off: int, ws: int, we: int) -> bool {
    &&& 0 <= ws <= off <= we <= text.len()
    &&& forall|k: int| ws <= k < we ==> crate::text::spec_is_word_byte(#[trigger] text[k])
    &&& (ws > 0 ==> !crate::text::spec_is_word_byte(text[ws - 1]))
    &&& (we < text.len() ==> !crate::text::spec_is_word_byte(text[we]))
}

/// The maximal word span around an offset is unique.
pub proof fn lemma_word_span_unique(text: Seq<u8>, off: int, ws1: int, we1: int, ws2: int, we2: int)
    requires
        is_word_span(text, off, ws1, we1),
        is_word_span(text, off, ws2, we2),
    ensures
        ws1 == ws2,
        we1 == we2,
{
    if ws1 < ws2 {
        assert(crate::text::spec_is_word_byte(text[ws2 - 1]));
    }
    if ws2 < ws1 {
        assert(crate::text::spec_is_word_byte(text[ws1 - 1]));
    }
    if we1 < we2 {
        assert(crate::text::spec_is_word_byte(text[we1]));
    }
    if we2 < we1 {
        assert(crate::text::spec_is_word_byte(text[we2]));
    }
}

/// The word (identifier bytes) around offset `off` in `text`.
pub fn word_at(text: &Vec<u8>, off: usize) -> (r: (usize, usize))
    ensures
        r.0 <= r.1 <= text@.len(),
        forall|k: int| r.0 <= k < r.1 ==> crate::text::spec_is_word_byte(#[trigger] text@[k]),
        off <= text@.len() ==> is_word_span(text@, off as int, r.0 as int, r.1 as int),
{
    let n = text.len();
    if off > n {
        return (0, 0);
    }
    let mut start = off;
    while start > 0 && crate::text::is_word_byte(text[start - 1])
        invariant
            n == text@.len(),
            start <= off <= n,
            forall|k: int| start <= k < off ==> crate::text::spec_is_word_byte(
                #[trigger] text@[k],
            ),
        decreases start,
    {
        start -= 1;
    }
    let mut end = off;
    while end < n && crate::text::is_word_byte(text[end])
        invariant
            n == text@.len(),
            off <= end <= n,
            start <= off,
            forall|k: int| off <= k < end ==> crate::text::spec_is_word_byte(
                #[trigger] text@[k],
            ),
        decreases n - end,
    {
        end += 1;
    }
    (start, end)
}

/// The symbol whose text labels symbol `i`'s hint: the declared label
/// field's first child, or the symbol itself.
pub open spec fn hint_label_sym(schema: Schema, ast: Ast, i: int) -> int {
    match schema.types@[ast.n(i).type_id as int].inlay_hint {
        Some(hf) => match hf.label_field {
            Some(f) => if f < ast.n(i).fields@.len() && ast.n(i).fields@[f as int]@.len() > 0 {
                ast.n(i).fields@[f as int]@[0] as int
            } else {
                i
            },
            None => i,
        },
        None => i,
    }
}

/// The hint label for symbol `i`: the label symbol's text, empty when its
/// range is unreadable.
pub open spec fn hint_label_spec(schema: Schema, ast: Ast, text: Seq<u8>, i: int) -> Seq<u8> {
    let ls = hint_label_sym(schema, ast, i);
    if ast.n(ls).range.wf() && ast.n(ls).range.end <= text.len() {
        text.subrange(ast.n(ls).range.start as int, ast.n(ls).range.end as int)
    } else {
        Seq::empty()
    }
}

/// The slots of the live hint-emitting symbols from slot `i` on, in arena
/// order.
pub open spec fn hint_syms(schema: Schema, ast: Ast, i: int) -> Seq<int>
    decreases ast.spec_len() - i,
{
    if i < 0 || i >= ast.spec_len() {
        Seq::empty()
    } else if emits_hint(schema, ast, i) {
        seq![i] + hint_syms(schema, ast, i + 1)
    } else {
        hint_syms(schema, ast, i + 1)
    }
}

/// `h` is exactly the hint symbol `i` emits: anchored at its declared label
/// symbol's start, labelled with that symbol's text, tagged with the
/// declared kind.
pub open spec fn hint_matches(schema: Schema, ast: Ast, text: Seq<u8>, h: InlayHint, i: int) -> bool {
    &&& h.offset == ast.n(hint_label_sym(schema, ast, i)).range.start
    &&& h.kind == schema.types@[ast.n(i).type_id as int].inlay_hint->Some_0.kind
    &&& h.label@ == hint_label_spec(schema, ast, text, i)
}

/// Item `c` is the proposal for symbol `i`: the symbol is live, opts in,
/// its text is readable and begins with `word`, the item's label is that
/// text and its kind the declared one.
/// The symbol whose declaration a completion proposal comes from: a
/// reference forwards to its resolved target (offering nothing while the
/// target is dead, unresolved or not completion-capable); any other symbol
/// offers itself.
pub open spec fn completion_src(schema: Schema, ast: Ast, i: int) -> Option<int> {
    if schema.types@[ast.n(i).type_id as int].is_reference {
        match ast.n(i).target {
            Some(t) => if ast.is_live(t as int) && (ast.n(t as int).type_id as int)
                < schema.spec_len() && schema.types@[ast.n(t as int).type_id as int].completion
                is Some {
                Some(t as int)
            } else {
                None
            },
            None => None,
        }
    } else {
        Some(i)
    }
}

/// The symbol whose text labels symbol `j`'s proposal: the declared label
/// field's first child, or `j` itself.
pub open spec fn completion_label_sym(schema: Schema, ast: Ast, j: int) -> int {
    match schema.types@[ast.n(j).type_id as int].completion {
        Some(cf) => match cf.label_field {
            Some(f) => if f < ast.n(j).fields@.len() && ast.n(j).fields@[f as int]@.len() > 0 {
                ast.n(j).fields@[f as int]@[0] as int
            } else {
                j
            },
            None => j,
        },
        None => j,
    }
}

/// The proposal label for source symbol `j`: its label symbol's text, empty
/// when unreadable.
pub open spec fn completion_label_spec(schema: Schema, ast: Ast, text: Seq<u8>, j: int) -> Seq<
    u8,
> {
    let ls = completion_label_sym(schema, ast, j);
    if ast.n(ls).range.wf() && ast.n(ls).range.end <= text.len() {
        text.subrange(ast.n(ls).range.start as int, ast.n(ls).range.end as int)
    } else {
        Seq::empty()
    }
}

pub open spec fn item_for(
    schema: Schema,
    ast: Ast,
    text: Seq<u8>,
    word: Seq<u8>,
    i: int,
    c: CompletionItem,
) -> bool {
    &&& ast.is_live(i)
    &&& schema.types@[ast.n(i).type_id as int].completion is Some
    &&& ast.n(i).range.wf() && ast.n(i).range.end <= text.len()
    &&& crate::text::spec_match_at(text, word, ast.n(i).range.start as int)
    &&& (completion_src(schema, ast, i) matches Some(j) && c.kind == schema.types@[ast.n(
        j,
    ).type_id as int].completion->Some_0.kind && c.label@ == completion_label_spec(
        schema,
        ast,
        text,
        j,
    ))
}

/// The proposal's label is the word-prefixed text of some live
/// completion-capable symbol, and its kind is that symbol's declared kind.
pub open spec fn completion_ok(
    schema: Schema,
    ast: Ast,
    text: Seq<u8>,
    word: Seq<u8>,
    c: CompletionItem,
) -> bool {
    exists|i: int| #[trigger] item_for(schema, ast, text, word, i, c)
}

/// Symbol `i` is offered among the proposals.
pub open spec fn offered(
    r: Seq<CompletionItem>,
    schema: Schema,
    ast: Ast,
    text: Seq<u8>,
    word: Seq<u8>,
    i: int,
) -> bool {
    exists|k: int| 0 <= k < r.len() && item_for(schema, ast, text, word, i, #[trigger] r[k])
}

/// Does live symbol `i` emit an inlay hint?
pub open spec fn emits_hint(schema: Schema, ast: Ast, i: int) -> bool {
    ast.is_live(i) && schema.types@[ast.n(i).type_id as int].inlay_hint is Some
}

/// Does live symbol `i` emit a code lens?
pub open spec fn emits_lens(schema: Schema, ast: Ast, i: int) -> bool {
    ast.is_live(i) && schema.types@[ast.n(i).type_id as int].code_lens is Some
}

/// The anchor range of symbol `i`'s code lens.
pub open spec fn lens_range_spec(schema: Schema, ast: Ast, i: int) -> ByteRange {
    let s = ast.n(i);
    match schema.types@[s.type_id as int].code_lens {
        Some(cl) => match cl.range_field {
            Some(f) => if f < s.fields@.len() && s.fields@[f as int]@.len() > 0 {
                ast.n(s.fields@[f as int]@[0] as int).range
            } else {
                s.range
            },
            None => s.range,
        },
        None => s.range,
    }
}

/// The code lenses of the arena from slot `i` on, in slot order.
pub open spec fn scan_lenses(schema: Schema, ast: Ast, i: int) -> Seq<ByteRange>
    decreases ast.spec_len() - i,
{
    if i < 0 || i >= ast.spec_len() {
        Seq::empty()
    } else if emits_lens(schema, ast, i) {
        seq![lens_range_spec(schema, ast, i)] + scan_lenses(schema, ast, i + 1)
    } else {
        scan_lenses(schema, ast, i + 1)
    }
}

impl crate::builder::MainBuilder {
    /// Collect the code lens anchors of every live symbol whose type opts
    /// in, in arena order.
    pub fn build_code_lens(&self, schema: &Schema) -> (r: Vec<CodeLens>)
        requires
            schema.wf(),
            self.ast.wf(*schema),
        ensures
            r@.len() == scan_lenses(*schema, self.ast, 0).len(),
            forall|k: int| 0 <= k < r@.len() ==> (#[trigger] r@[k]).range == scan_lenses(
                *schema,
                self.ast,
                0,
            )[k],
    {
        let n = self.ast.len();
        let mut out: Vec<CodeLens> = Vec::new();
        let mut i: usize = 0;
        while i < n
            invariant
                schema.wf(),
                self.ast.wf(*schema),
                n == self.ast.spec_len(),
                i <= n,
                out@.map_values(|c: CodeLens| c.range) + scan_lenses(*schema, self.ast, i as int)
                    == scan_lenses(*schema, self.ast, 0),
            decreases n - i,
        {
            proof {
                assert(self.ast.node_schema_ok(*schema, i as int));
                assert(self.ast.node_graph_ok(i as int));
            }
            let ghost pre = out@;
            if self.ast.nodes[i].live {
                let tid = self.ast.nodes[i].type_id;
                match &schema.types[tid].code_lens {
                    Some(cl) => {
                        let rg: ByteRange = match cl.range_field {
                            Some(f) => {
                                if f < self.ast.nodes[i].fields.len()
                                    && self.ast.nodes[i].fields[f].len() > 0 {
                                    let c = self.ast.nodes[i].fields[f][0];
                                    self.ast.nodes[c].range
                                } else {
                                    self.ast.nodes[i].range
                                }
                            },
                            None => self.ast.nodes[i].range,
                        };
                        out.push(CodeLens { range: rg });
                        proof {
                            assert(rg == lens_range_spec(*schema, self.ast, i as int));
                            assert(out@.map_values(|c: CodeLens| c.range) =~= pre.map_values(
                                |c: CodeLens| c.range,
                            ).push(rg));
                            assert(pre.map_values(|c: CodeLens| c.range) + (seq![rg]
                                + scan_lenses(*schema, self.ast, i + 1)) =~= out@.map_values(
                                |c: CodeLens| c.range,
                            ) + scan_lenses(*schema, self.ast, i + 1));
                        }
                    },
                    None => {},
                }
            }
            i += 1;
        }
        proof {
            assert(scan_lenses(*schema, self.ast, n as int) =~= Seq::<ByteRange>::empty());
            assert(out@.map_values(|c: CodeLens| c.range) + Seq::<ByteRange>::empty()
                =~= out@.map_values(|c: CodeLens| c.range));
        }
        out
    }

    /// Collect the inlay hints of every live symbol whose type opts in: the
    /// hint anchors at the symbol's start and is labelled with the text of
    /// the declared field (or of the symbol itself).
    pub fn build_inlay_hint(&self, schema: &Schema, text: &Vec<u8>) -> (r: Vec<InlayHint>)
        requires
            schema.wf(),
            self.ast.wf(*schema),
        ensures
            // exactly one hint per live opted-in symbol, in arena order,
            // each pinned to its symbol's declared label and anchor
            r@.len() == hint_syms(*schema, self.ast, 0).len(),
            forall|k: int| 0 <= k < r@.len() ==> #[trigger] hint_matches(
                *schema,
                self.ast,
                text@,
                r@[k],
                hint_syms(*schema, self.ast, 0)[k],
            ),
    {
        let n = self.ast.len();
        let mut out: Vec<InlayHint> = Vec::new();
        let ghost mut done: Seq<int> = Seq::empty();
        let mut i: usize = 0;
        while i < n
            invariant
                schema.wf(),
                self.ast.wf(*schema),
                n == self.ast.spec_len(),
                i <= n,
                done.len() == out@.len(),
                done + hint_syms(*schema, self.ast, i as int) == hint_syms(
                    *schema,
                    self.ast,
                    0,
                ),
                forall|k: int| 0 <= k < out@.len() ==> #[trigger] hint_matches(
                    *schema,
                    self.ast,
                    text@,
                    out@[k],
                    done[k],
                ),
            decreases n - i,
        {
            proof {
                assert(self.ast.node_schema_ok(*schema, i as int));
                assert(self.ast.node_graph_ok(i as int));
            }
            let ghost pre_out = out@;
            let ghost pre_done = done;
            if self.ast.nodes[i].live {
                let tid = self.ast.nodes[i].type_id;
                match &schema.types[tid].inlay_hint {
                    Some(hf) => {
                        let label_sym: usize = match hf.label_field {
                            Some(f) => {
                                if f < self.ast.nodes[i].fields.len()
                                    && self.ast.nodes[i].fields[f].len() > 0 {
                                    self.ast.nodes[i].fields[f][0]
                                } else {
                                    i
                                }
                            },
                            None => i,
                        };
                        let label = match self.ast.get_text(label_sym, text) {
                            Some(t) => t,
                            None => Vec::new(),
                        };
                        // the hint anchors at the label symbol's start
                        let off = self.ast.nodes[label_sym].range.start;
                        out.push(InlayHint { offset: off, label, kind: hf.kind });
                        proof {
                            done = done.push(i as int);
                            assert(emits_hint(*schema, self.ast, i as int));
                            assert(label_sym as int == hint_label_sym(
                                *schema,
                                self.ast,
                                i as int,
                            ));
                            assert(out@[out@.len() - 1].label@ == hint_label_spec(
                                *schema,
                                self.ast,
                                text@,
                                i as int,
                            ));
                            assert(hint_matches(
                                *schema,
                                self.ast,
                                text@,
                                out@[out@.len() - 1],
                                i as int,
                            ));
                            assert(hint_syms(*schema, self.ast, i as int) == seq![i as int]
                                + hint_syms(*schema, self.ast, i + 1));
                            assert(pre_done + (seq![i as int] + hint_syms(
                                *schema,
                                self.ast,
                                i + 1,
                            )) =~= done + hint_syms(*schema, self.ast, i + 1));
                            assert forall|k: int| 0 <= k < out@.len() implies
                                #[trigger] hint_matches(
                                *schema,
                                self.ast,
                                text@,
                                out@[k],
                                done[k],
                            ) by {
                                if k < pre_out.len() {
                                    assert(out@[k] == pre_out[k]);
                                    assert(done[k] == pre_done[k]);
                                }
                            }
                        }
                    },
                    None => {
                        proof {
                            assert(!emits_hint(*schema, self.ast, i as int));
                        }
                    },
                }
            } else {
                proof {
                    assert(!emits_hint(*schema, self.ast, i as int));
                }
            }
            i += 1;
        }
        proof {
            assert(hint_syms(*schema, self.ast, n as int) =~= Seq::<int>::empty());
            assert(done + Seq::<int>::empty() =~= done);
            assert forall|k: int| 0 <= k < out@.len() implies done[k] == hint_syms(
                *schema,
                self.ast,
                0,
            )[k] by {}
        }
        out
    }

    /// Completion proposals for one spelling: exactly the live symbols whose
    /// types opt in and whose readable text begins with `word`, each offered
    /// as its own text under its declared kind.
    pub fn completion_items_for_word(&self, schema: &Schema, text: &Vec<u8>, word: &Vec<u8>)
        -> (r: Vec<CompletionItem>)
        requires
            schema.wf(),
            self.ast.wf(*schema),
        ensures
            forall|k: int| 0 <= k < r@.len() ==> #[trigger] completion_ok(
                *schema,
                self.ast,
                text@,
                word@,
                r@[k],
            ),
            forall|i: int|
                0 <= i < self.ast.spec_len() && self.ast.n(i).live
                    && schema.types@[(#[trigger] self.ast.n(i)).type_id as int].completion
                    is Some && self.ast.n(i).range.wf() && self.ast.n(i).range.end <= text@.len()
                    && crate::text::spec_match_at(
                    text@,
                    word@,
                    self.ast.n(i).range.start as int,
                ) && completion_src(*schema, self.ast, i) is Some ==> offered(
                    r@,
                    *schema,
                    self.ast,
                    text@,
                    word@,
                    i,
                ),
    {
        let n = self.ast.len();
        let mut out: Vec<CompletionItem> = Vec::new();
        let mut i: usize = 0;
        while i < n
            invariant
                schema.wf(),
                self.ast.wf(*schema),
                n == self.ast.spec_len(),
                i <= n,
                forall|k: int| 0 <= k < out@.len() ==> #[trigger] completion_ok(
                    *schema,
                    self.ast,
                    text@,
                    word@,
                    out@[k],
                ),
                forall|j: int|
                    0 <= j < i && self.ast.n(j).live && schema.types@[(
                    #[trigger] self.ast.n(j)).type_id as int].completion is Some && self.ast.n(
                        j,
                    ).range.wf() && self.ast.n(j).range.end <= text@.len()
                        && crate::text::spec_match_at(
                        text@,
                        word@,
                        self.ast.n(j).range.start as int,
                    ) && completion_src(*schema, self.ast, j) is Some ==> offered(
                        out@,
                        *schema,
                        self.ast,
                        text@,
                        word@,
                        j,
                    ),
            decreases n - i,
        {
            proof {
                assert(self.ast.node_schema_ok(*schema, i as int));
            }
            let ghost pre_out = out@;
            let mut pushed = false;
            if self.ast.nodes[i].live {
                let tid = self.ast.nodes[i].type_id;
                if matches!(schema.types[tid].completion, Some(_)) {
                    match self.ast.get_text(i, text) {
                        Some(t) => {
                            let rg = self.ast.nodes[i].range;
                            if crate::text::match_at(text, word, rg.start) {
                                // a reference forwards to its resolved target
                                let src: Option<usize> = if schema.types[tid].is_reference {
                                    match self.ast.get_target(i) {
                                        Some(tgt) => {
                                            proof {
                                                assert(self.ast.node_schema_ok(
                                                    *schema,
                                                    tgt as int,
                                                ));
                                            }
                                            let ttid = self.ast.get_type(tgt);
                                            if matches!(
                                                schema.types[ttid].completion,
                                                Some(_)
                                            ) {
                                                Some(tgt)
                                            } else {
                                                None
                                            }
                                        },
                                        None => None,
                                    }
                                } else {
                                    Some(i)
                                };
                                match src {
                                    Some(j) => {
                                        proof {
                                            assert(completion_src(*schema, self.ast, i as int)
                                                == Some(j as int));
                                            assert(self.ast.node_schema_ok(*schema, j as int));
                                            assert(self.ast.node_graph_ok(j as int));
                                        }
                                        let jt = self.ast.get_type(j);
                                        match &schema.types[jt].completion {
                                            Some(cf) => {
                                                let label_sym: usize = match cf.label_field {
                                                    Some(fx) => {
                                                        if fx < self.ast.nodes[j].fields.len()
                                                            && self.ast.nodes[j].fields[
                                                            fx].len() > 0 {
                                                            self.ast.nodes[j].fields[fx][0]
                                                        } else {
                                                            j
                                                        }
                                                    },
                                                    None => j,
                                                };
                                                let label = match self.ast.get_text(
                                                    label_sym,
                                                    text,
                                                ) {
                                                    Some(lt) => lt,
                                                    None => Vec::new(),
                                                };
                                                out.push(
                                                    CompletionItem { label, kind: cf.kind },
                                                );
                                                pushed = true;
                                                proof {
                                                    assert(self.ast.is_live(i as int));
                                                    assert(label_sym as int
                                                        == completion_label_sym(
                                                        *schema,
                                                        self.ast,
                                                        j as int,
                                                    ));
                                                    assert(out@[out@.len() - 1].label@
                                                        == completion_label_spec(
                                                        *schema,
                                                        self.ast,
                                                        text@,
                                                        j as int,
                                                    ));
                                                    assert(item_for(
                                                        *schema,
                                                        self.ast,
                                                        text@,
                                                        word@,
                                                        i as int,
                                                        out@[out@.len() - 1],
                                                    ));
                                                    assert forall|k: int|
                                                        0 <= k < pre_out.len() implies out@[k]
                                                        == pre_out[k] by {}
                                                }
                                            },
                                            None => {
                                                proof {
                                                    assert(false);
                                                }
                                            },
                                        }
                                    },
                                    None => {
                                        proof {
                                            assert(completion_src(*schema, self.ast, i as int)
                                                is None);
                                        }
                                    },
                                }
                            }
                        },
                        None => {},
                    }
                }
            }
            proof {
                assert forall|j: int|
                    0 <= j < i + 1 && self.ast.n(j).live && schema.types@[(
                    #[trigger] self.ast.n(j)).type_id as int].completion is Some && self.ast.n(
                        j,
                    ).range.wf() && self.ast.n(j).range.end <= text@.len()
                        && crate::text::spec_match_at(
                        text@,
                        word@,
                        self.ast.n(j).range.start as int,
                    ) && completion_src(*schema, self.ast, j) is Some implies offered(
                    out@,
                    *schema,
                    self.ast,
                    text@,
                    word@,
                    j,
                ) by {
                    if j < i {
                        assert(offered(pre_out, *schema, self.ast, text@, word@, j));
                        let k = choose|k: int|
                            0 <= k < pre_out.len() && item_for(
                                *schema,
                                self.ast,
                                text@,
                                word@,
                                j,
                                #[trigger] pre_out[k],
                            );
                        assert(out@[k] == pre_out[k]);
                        assert(item_for(*schema, self.ast, text@, word@, j, out@[k]));
                    } else {
                        assert(pushed);
                        assert(item_for(
                            *schema,
                            self.ast,
                            text@,
                            word@,
                            j,
                            out@[out@.len() - 1],
                        ));
                    }
                }
            }
            i += 1;
        }
        out
    }

    /// Completion at an offset: the proposals for the maximal identifier
    /// word around it.
    pub fn get_completion_items(&self, schema: &Schema, text: &Vec<u8>, off: usize) -> (r: Vec<
        CompletionItem,
    >)
        requires
            schema.wf(),
            self.ast.wf(*schema),
        ensures
            forall|ws: int, we: int, k: int|
                off <= text@.len() && is_word_span(text@, off as int, ws, we) && 0 <= k
                    < r@.len() ==> #[trigger] completion_ok(
                    *schema,
                    self.ast,
                    text@,
                    text@.subrange(ws, we),
                    r@[k],
                ),
            forall|ws: int, we: int, i: int|
                off <= text@.len() && is_word_span(text@, off as int, ws, we) && 0 <= i
                    < self.ast.spec_len() && self.ast.n(i).live && schema.types@[self.ast.n(
                    i,
                ).type_id as int].completion is Some && self.ast.n(i).range.wf() && self.ast.n(
                    i,
                ).range.end <= text@.len() && crate::text::spec_match_at(
                    text@,
                    text@.subrange(ws, we),
                    self.ast.n(i).range.start as int,
                ) && completion_src(*schema, self.ast, i) is Some ==> #[trigger] offered(
                    r@,
                    *schema,
                    self.ast,
                    text@,
                    text@.subrange(ws, we),
                    i,
                ),
    {
        let (ws0, we0) = word_at(text, off);
        let word = crate::text::slice_range(text, ws0, we0);
        let r = self.completion_items_for_word(schema, text, &word);
        proof {
            if off <= text@.len() {
                assert forall|ws: int, we: int|
                    is_word_span(text@, off as int, ws, we) implies text@.subrange(ws, we)
                    == word@ by {
                    lemma_word_span_unique(
                        text@,
                        off as int,
                        ws,
                        we,
                        ws0 as int,
                        we0 as int,
                    );
                }
            }
        }
        r
    }

    /// The nested document outline. A symbol whose type opts in becomes an
    /// entry named by its declared name field; the entries of symbols whose
    /// types do not opt in are hoisted to their nearest opted-in ancestor.
    pub fn get_document_symbols(&self, schema: &Schema, text: &Vec<u8>) -> (r: Vec<
        DocumentSymbol,
    >)
        requires
            schema.wf(),
            self.ast.wf(*schema),
        ensures
            forall|k: int| 0 <= k < r@.len() ==> symbol_kind_declared(
                *schema,
                (#[trigger] r@[k]).kind,
            ),
            self.ast.root is None ==> r@.len() == 0,
            forall|k: int| 0 <= k < r@.len() ==> #[trigger] outline_entry_ok(
                *schema,
                self.ast,
                text@,
                r@[k],
            ),
            root_outline_feature(*schema, self.ast) matches Some(d) ==> r@.len() == 1 && r@[
                0].kind == d.kind && r@[0].range == self.ast.n(
                self.ast.root->Some_0 as int,
            ).range && r@[0].name@ == outline_name_spec(
                *schema,
                self.ast,
                text@,
                self.ast.root->Some_0 as int,
            ) && r@[0].selection_range == outline_selection_spec(
                *schema,
                self.ast,
                self.ast.root->Some_0 as int,
            ),
            // one entry somewhere in the forest per opted-in live symbol
            match self.ast.root {
                Some(rt) => total_entries(r@) == outline_count(*schema, self.ast, rt as int),
                None => true,
            },
    {
        match self.ast.root {
            Some(rt) => self.doc_symbols_at(schema, text, rt),
            None => Vec::new(),
        }
    }

    /// The outline entries contributed by the subtree under `ix`.
    fn doc_symbols_at(&self, schema: &Schema, text: &Vec<u8>, ix: usize) -> (r: Vec<
        DocumentSymbol,
    >)
        requires
            schema.wf(),
            self.ast.wf(*schema),
            self.ast.is_live(ix as int),
        ensures
            forall|k: int| 0 <= k < r@.len() ==> symbol_kind_declared(
                *schema,
                (#[trigger] r@[k]).kind,
            ),
            // every entry, nested ones included, carries some live opted-in
            // symbol's kind, ranges and declared name text
            forall|k: int| 0 <= k < r@.len() ==> #[trigger] outline_entry_ok(
                *schema,
                self.ast,
                text@,
                r@[k],
            ),
            schema.types@[self.ast.n(ix as int).type_id as int].document_symbol matches Some(
                d,
            ) ==> r@.len() == 1 && r@[0].kind == d.kind && r@[0].range == self.ast.n(
                ix as int,
            ).range && r@[0].name@ == outline_name_spec(*schema, self.ast, text@, ix as int)
                && r@[0].selection_range == outline_selection_spec(*schema, self.ast, ix as int),
            // completeness: the forest holds one entry for every opted-in
            // symbol of the subtree, nested ones included
            total_entries(r@) == outline_count(*schema, self.ast, ix as int),
        decreases self.ast.spec_len() - ix,
    {
        proof {
            assert(self.ast.node_graph_ok(ix as int));
            assert(self.ast.node_schema_ok(*schema, ix as int));
        }
        let mut children: Vec<DocumentSymbol> = Vec::new();
        let nf = self.ast.nodes[ix].fields.len();
        let mut f: usize = 0;
        while f < nf
            invariant
                schema.wf(),
                self.ast.wf(*schema),
                self.ast.is_live(ix as int),
                ix < self.ast.spec_len(),
                self.ast.node_graph_ok(ix as int),
                nf == self.ast.n(ix as int).fields@.len(),
                f <= nf,
                forall|k: int| 0 <= k < children@.len() ==> symbol_kind_declared(
                    *schema,
                    (#[trigger] children@[k]).kind,
                ),
                forall|k: int| 0 <= k < children@.len() ==> #[trigger] outline_entry_ok(
                    *schema,
                    self.ast,
                    text@,
                    children@[k],
                ),
                total_entries(children@) + outline_fields_count(*schema, self.ast, ix as int, f as int)
                    == outline_fields_count(*schema, self.ast, ix as int, 0),
            decreases nf - f,
        {
            let nk = self.ast.nodes[ix].fields[f].len();
            let mut k: usize = 0;
            proof {
                assert(outline_fields_count(*schema, self.ast, ix as int, f as int)
                    == outline_row_count(*schema, self.ast, ix as int, f as int, 0)
                    + outline_fields_count(*schema, self.ast, ix as int, f as int + 1));
            }
            while k < nk
                invariant
                    schema.wf(),
                    self.ast.wf(*schema),
                    self.ast.is_live(ix as int),
                    ix < self.ast.spec_len(),
                    self.ast.node_graph_ok(ix as int),
                    nf == self.ast.n(ix as int).fields@.len(),
                    f < nf,
                    nk == self.ast.n(ix as int).fields@[f as int]@.len(),
                    k <= nk,
                    forall|kk: int| 0 <= kk < children@.len() ==> symbol_kind_declared(
                        *schema,
                        (#[trigger] children@[kk]).kind,
                    ),
                    forall|kk: int| 0 <= kk < children@.len() ==> #[trigger] outline_entry_ok(
                        *schema,
                        self.ast,
                        text@,
                        children@[kk],
                    ),
                    total_entries(children@) + outline_row_count(
                        *schema,
                        self.ast,
                        ix as int,
                        f as int,
                        k as int,
                    ) + outline_fields_count(*schema, self.ast, ix as int, f as int + 1)
                        == outline_fields_count(*schema, self.ast, ix as int, 0),
                decreases nk - k,
            {
                let c = self.ast.nodes[ix].fields[f][k];
                proof {
                    assert(self.ast.is_live(c as int));
                }
                let mut sub = self.doc_symbols_at(schema, text, c);
                proof {
                    assert(outline_row_count(*schema, self.ast, ix as int, f as int, k as int)
                        == outline_count(*schema, self.ast, c as int) + outline_row_count(
                        *schema,
                        self.ast,
                        ix as int,
                        f as int,
                        k as int + 1,
                    ));
                }
                let ghost tgt = total_entries(children@) + total_entries(sub@);
                let ns = sub.len();
                let mut si: usize = 0;
                while si < ns
                    invariant
                        schema.wf(),
                        ns == sub@.len() + si,
                        total_entries(children@) + total_entries(sub@) == tgt,
                        forall|kk: int| 0 <= kk < sub@.len() ==> symbol_kind_declared(
                            *schema,
                            (#[trigger] sub@[kk]).kind,
                        ),
                        forall|kk: int| 0 <= kk < children@.len() ==> symbol_kind_declared(
                            *schema,
                            (#[trigger] children@[kk]).kind,
                        ),
                        forall|kk: int| 0 <= kk < sub@.len() ==> #[trigger] outline_entry_ok(
                            *schema,
                            self.ast,
                            text@,
                            sub@[kk],
                        ),
                        forall|kk: int| 0 <= kk < children@.len() ==> #[trigger] outline_entry_ok(
                            *schema,
                            self.ast,
                            text@,
                            children@[kk],
                        ),
                    decreases ns - si,
                {
                    let ghost sub0 = sub@;
                    let ghost ch0 = children@;
                    let first = sub.remove(0);
                    children.push(first);
                    proof {
                        assert(sub@ =~= sub0.drop_first());
                        assert(total_entries(sub0) == sym_total(first) + total_entries(sub@));
                        lemma_total_push(ch0, first);
                    }
                    si += 1;
                }
                proof {
                    assert(total_entries(sub@) == 0);
                }
                k += 1;
            }
            proof {
                assert(outline_row_count(*schema, self.ast, ix as int, f as int, nk as int)
                    == 0);
            }
            f += 1;
        }
        let tid = self.ast.nodes[ix].type_id;
        match &schema.types[tid].document_symbol {
            Some(ds) => {
                let name_sym: Option<usize> = if ds.name_field < self.ast.nodes[ix].fields.len()
                    && self.ast.nodes[ix].fields[ds.name_field].len() > 0 {
                    Some(self.ast.nodes[ix].fields[ds.name_field][0])
                } else {
                    None
                };
                proof {
                    assert(match name_sym {
                        Some(nsym) => outline_name_sym(*schema, self.ast, ix as int) == Some(
                            nsym as int,
                        ),
                        None => outline_name_sym(*schema, self.ast, ix as int) is None,
                    });
                }
                let name = match name_sym {
                    Some(nsym) => match self.ast.get_text(nsym, text) {
                        Some(t) => t,
                        None => Vec::new(),
                    },
                    None => Vec::new(),
                };
                let selection = match name_sym {
                    Some(nsym) => self.ast.nodes[nsym].range,
                    None => self.ast.nodes[ix].range,
                };
                let ghost ch_final = children@;
                let entry = DocumentSymbol {
                    name,
                    kind: ds.kind,
                    range: self.ast.nodes[ix].range,
                    selection_range: selection,
                    children,
                };
                let mut one: Vec<DocumentSymbol> = Vec::new();
                proof {
                    assert(symbol_kind_declared(*schema, ds.kind)) by {
                        assert(schema.types@[tid as int].document_symbol == Some(*ds));
                    }
                    assert(outline_fields_count(*schema, self.ast, ix as int, nf as int) == 0);
                    assert(outline_count(*schema, self.ast, ix as int) == 1
                        + outline_fields_count(*schema, self.ast, ix as int, 0));
                }
                one.push(entry);
                proof {
                    assert(one@ =~= Seq::<DocumentSymbol>::empty().push(entry));
                    lemma_total_push(Seq::<DocumentSymbol>::empty(), entry);
                    assert(sym_total(entry) == 1 + total_entries(entry.children@));
                    assert(entry.name@ == outline_name_spec(*schema, self.ast, text@, ix as int));
                    assert(entry.selection_range == outline_selection_spec(
                        *schema,
                        self.ast,
                        ix as int,
                    ));
                    assert(outline_src(*schema, self.ast, text@, entry, ix as int));
                    assert(entry.children@ == ch_final);
                    assert forall|kk: int| 0 <= kk < entry.children@.len() implies
                        outline_entry_ok(*schema, self.ast, text@, #[trigger] entry.children@[
                        kk]) by {
                        assert(entry.children@[kk] == ch_final[kk]);
                        assert(outline_entry_ok(*schema, self.ast, text@, ch_final[kk]));
                    }
                    assert(outline_entry_ok(*schema, self.ast, text@, entry));
                }
                one
            },
            None => {
                proof {
                    assert(outline_fields_count(*schema, self.ast, ix as int, nf as int) == 0);
                    assert(outline_count(*schema, self.ast, ix as int) == outline_fields_count(
                        *schema,
                        self.ast,
                        ix as int,
                        0,
                    ));
                }
                children
            },
        }
    }
}

/// The outline feature of the root symbol's type, if any.
pub open spec fn root_outline_feature(
    schema: Schema,
    ast: Ast,
) -> Option<crate::schema::DocumentSymbolFeature> {
    match ast.root {
        Some(rt) => schema.types@[ast.n(rt as int).type_id as int].document_symbol,
        None => None,
    }
}

/// Some node type of the schema declares an outline entry of kind `kind`.
pub open spec fn symbol_kind_declared(schema: Schema, kind: u32) -> bool {
    exists|t: int|
        0 <= t < schema.spec_len() && ((#[trigger] schema.types@[t].document_symbol) matches Some(
            d,
        ) && d.kind == kind)
}




/// `rg` is a named-node entry (other than the root's) containing `off`.
pub open spec fn chain_link_ok(
    nodes: Seq<(usize, usize, Option<usize>)>,
    off: int,
    rg: ByteRange,
) -> bool {
    exists|j: int|
        0 < j < nodes.len() && rg == (ByteRange {
            start: (#[trigger] nodes[j]).0,
            end: nodes[j].1,
        }) && nodes[j].0 <= off < nodes[j].1
}

/// `cur` is a child entry of `prev` in the dump, containing the offset: the
/// chain nests entry by entry.
pub open spec fn chain_step_ok(
    nodes: Seq<(usize, usize, Option<usize>)>,
    off: int,
    prev: ByteRange,
    cur: ByteRange,
) -> bool {
    exists|j: int|
        0 < j < nodes.len() && ((#[trigger] nodes[j]).2 matches Some(pi) && (pi as int)
            < nodes.len() && prev == (ByteRange {
            start: nodes[pi as int].0,
            end: nodes[pi as int].1,
        })) && cur == (ByteRange { start: nodes[j].0, end: nodes[j].1 }) && nodes[j].0 <= off
            < nodes[j].1
}

/// The first entry after `cur` that names `cur` as its parent and contains
/// the offset.
fn child_entry_at(nodes: &Vec<(usize, usize, Option<usize>)>, cur: usize, off: usize) -> (r:
    Option<usize>)
    requires
        cur < nodes@.len(),
    ensures
        match r {
            Some(c) => cur < c < nodes@.len() && nodes@[c as int].2 == Some(cur)
                && nodes@[c as int].0 <= off < nodes@[c as int].1,
            None => true,
        },
{
    let n = nodes.len();
    let mut j: usize = cur + 1;
    while j < n
        invariant
            cur < j,
            n == nodes@.len(),
        decreases n - j,
    {
        let (s0, e0, p) = nodes[j];
        if p == Some(cur) && s0 <= off && off < e0 {
            return Some(j);
        }
        j += 1;
    }
    None
}

/// The chain of named CST nodes covering byte offset `off`, outermost first:
/// start at the root entry and repeatedly descend to a later entry that
/// names the current one as its parent and contains the offset.
pub fn cst_chain_at_offset(nodes: &Vec<(usize, usize, Option<usize>)>, off: usize) -> (r: Vec<
    ByteRange,
>)
    ensures
        nodes@.len() == 0 ==> r@.len() == 0,
        nodes@.len() > 0 ==> r@.len() >= 1 && r@[0] == (ByteRange {
            start: nodes@[0].0,
            end: nodes@[0].1,
        }),
        // each later link is a child entry of the previous one containing
        // the offset
        forall|k: int| 0 < k < r@.len() ==> #[trigger] chain_link_ok(nodes@, off as int, r@[k]),
        forall|k: int| 0 < k < r@.len() ==> #[trigger] chain_step_ok(
            nodes@,
            off as int,
            r@[k - 1],
            r@[k],
        ),
{
    let mut out: Vec<ByteRange> = Vec::new();
    if nodes.len() == 0 {
        return out;
    }
    let mut cur: usize = 0;
    out.push(ByteRange { start: nodes[0].0, end: nodes[0].1 });
    loop
        invariant
            nodes@.len() > 0,
            cur < nodes@.len(),
            out@.len() >= 1,
            out@[0] == (ByteRange { start: nodes@[0].0, end: nodes@[0].1 }),
            forall|k: int| 0 < k < out@.len() ==> #[trigger] chain_link_ok(
                nodes@,
                off as int,
                out@[k],
            ),
            forall|k: int| 0 < k < out@.len() ==> #[trigger] chain_step_ok(
                nodes@,
                off as int,
                out@[k - 1],
                out@[k],
            ),
            out@[out@.len() - 1] == (ByteRange {
                start: nodes@[cur as int].0,
                end: nodes@[cur as int].1,
            }),
        decreases nodes@.len() - cur,
    {
        let found = child_entry_at(nodes, cur, off);
        match found {
            Some(c) => {
                let ghost pre = out@;
                out.push(ByteRange { start: nodes[c].0, end: nodes[c].1 });
                proof {
                    assert(out@[out@.len() - 1] == (ByteRange {
                        start: nodes@[c as int].0,
                        end: nodes@[c as int].1,
                    }));
                    assert(0 < c < nodes@.len());
                    assert(chain_link_ok(nodes@, off as int, out@[out@.len() - 1]));
                    assert(nodes@[c as int].2 matches Some(pi) && pi == cur);
                    assert(chain_step_ok(
                        nodes@,
                        off as int,
                        out@[out@.len() - 2],
                        out@[out@.len() - 1],
                    ));
                    assert forall|k: int| 0 < k < out@.len() implies #[trigger] chain_link_ok(
                        nodes@,
                        off as int,
                        out@[k],
                    ) by {
                        if k < pre.len() {
                            assert(out@[k] == pre[k]);
                        }
                    }
                    assert forall|k: int| 0 < k < out@.len() implies #[trigger] chain_step_ok(
                        nodes@,
                        off as int,
                        out@[k - 1],
                        out@[k],
                    ) by {
                        if k < pre.len() {
                            assert(out@[k] == pre[k]);
                            assert(out@[k - 1] == pre[k - 1]);
                        }
                    }
                }
                cur = c;
            },
            None => {
                return out;
            },
        }
    }
}

/// Assemble the nested selection ranges for one position from the chain of
/// named-node ranges (outermost first, as the tree hands them out): the
/// result lists them innermost first.
pub fn selection_range_of_chain(chain: &Vec<ByteRange>) -> (r: SelectionRange)
    ensures
        r.ranges@.len() == chain@.len(),
        forall|k: int| 0 <= k < chain@.len() ==> #[trigger] r.ranges@[k] == chain@[chain@.len()
            - 1 - k],
{
    let n = chain.len();
    let mut ranges: Vec<ByteRange> = Vec::new();
    let mut i: usize = n;
    while i > 0
        invariant
            n == chain@.len(),
            i <= n,
            ranges@.len() == n - i,
            forall|k: int| 0 <= k < ranges@.len() ==> #[trigger] ranges@[k] == chain@[n - 1 - k],
        decreases i,
    {
        i -= 1;
        ranges.push(chain[i]);
    }
    SelectionRange { ranges }
}


} // verus!
