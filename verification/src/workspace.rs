//! A parsed document with its schema, CST, typed AST, diagnostics and work
//! queues, kept coherent under incremental edits.

use vstd::prelude::*;
use crate::builder::MainBuilder;
use crate::capabilities::{AbsToken, SelectionRange, SemanticToken};
use crate::position::Position;
use crate::range::ByteRange;
use crate::schema::Schema;
use crate::update::TextEdit;

verus! {

/// One open document: source text, its positional index, the CST machinery,
/// and the AST with its diagnostics and deferred queues.
pub struct Workspace {
    pub schema: Schema,
    pub capture_names: Vec<Vec<u8>>,
    pub text: Vec<u8>,
    pub line_starts: Vec<usize>,
    pub parser: tree_sitter::Parser,
    pub query: tree_sitter::Query,
    pub comment_query: Option<tree_sitter::Query>,
    pub tree: Option<tree_sitter::Tree>,
    pub builder: MainBuilder,
}

impl Workspace {
    /// The whole-workspace invariant: a valid schema, a well-formed symbol
    /// graph with sound queues, and an accurate line index.
    pub open spec fn wf(self) -> bool {
        &&& self.schema.wf()
        &&& self.builder.wf(self.schema)
        &&& crate::position::line_starts_ok(self.line_starts@, self.text@)
    }

    /// Open a document: compile the schema, set up the parser and queries,
    /// parse, build the AST, attach comments, and run a first reference
    /// pass. `None` only when the schema, the language or a query is
    /// rejected.
    pub fn create(
        language: &tree_sitter::Language,
        query_source: &str,
        comment_query_source: Option<&str>,
        types: Vec<crate::schema::NodeSchema>,
        text: Vec<u8>,
    ) -> (r: Option<Workspace>)
        ensures
            match r {
                Some(w) => w.wf() && w.schema.types == types
                    && crate::schema::schema_valid(types@),
                None => true,
            },
            // an invalid schema table is always refused; the outside calls
            // (language, query compilation, parse) decide the rest
            !crate::schema::schema_valid(types@) ==> r is None,
    {
        let schema = match Schema::compile(types) {
            Ok(s) => s,
            Err(_) => {
                return None;
            },
        };
        let mut parser = crate::cst::parser_new();
        if !crate::cst::parser_set_language(&mut parser, language) {
            return None;
        }
        let query = match crate::cst::query_new(language, query_source) {
            Some(q) => q,
            None => {
                return None;
            },
        };
        let comment_query = match comment_query_source {
            Some(src) => match crate::cst::query_new(language, src) {
                Some(q) => Some(q),
                None => {
                    return None;
                },
            },
            None => None,
        };
        let capture_names = crate::cst::query_capture_names(&query);
        let tree = crate::cst::parser_parse(&mut parser, &text, None);
        let line_starts = crate::position::build_line_starts(&text);
        let mut w = Workspace {
            schema,
            capture_names,
            text,
            line_starts,
            parser,
            query,
            comment_query,
            tree,
            builder: MainBuilder {
                ast: crate::symbol::Ast::empty(),
                diagnostics: Vec::new(),
                unsolved_checks: Vec::new(),
                unsolved_references: Vec::new(),
            },
        };
        w.rebuild_ast();
        Some(w)
    }

    /// Build the AST from scratch out of the current CST, re-attach
    /// comments, and run a reference pass.
    pub fn rebuild_ast(&mut self)
        requires
            old(self).schema.wf(),
            crate::position::line_starts_ok(old(self).line_starts@, old(self).text@),
        ensures
            final(self).wf(),
            final(self).schema == old(self).schema,
            final(self).text == old(self).text,
            final(self).line_starts == old(self).line_starts,
            // a fresh build has no dead slots
            forall|e: int| 0 <= e < final(self).builder.ast.spec_len() ==> (#[trigger] final(self).builder.ast.n(e)).live,
    {
        let raw: Vec<crate::builder::RawCapture> = match &self.tree {
            Some(t) => crate::cst::query_captures(&self.query, t, &self.text, None),
            None => Vec::new(),
        };
        self.builder = MainBuilder::build(&self.schema, &self.capture_names, &raw, self.text.len());
        let comments = self.comment_ranges();
        self.builder.add_comments(&self.schema, &comments);
        self.builder.resolve_references(&self.schema, &self.text);
    }

    /// The ranges the comment query captures.
    fn comment_ranges(&self) -> (r: Vec<ByteRange>)
    {
        let mut out: Vec<ByteRange> = Vec::new();
        match (&self.comment_query, &self.tree) {
            (Some(cq), Some(t)) => {
                let raw = crate::cst::query_captures(cq, t, &self.text, None);
                let n = raw.len();
                let mut i: usize = 0;
                while i < n
                    invariant
                        n == raw@.len(),
                        i <= n,
                    decreases n - i,
                {
                    let c = raw[i];
                    if c.start <= c.end {
                        out.push(ByteRange { start: c.start, end: c.end });
                    }
                    i += 1;
                }
            },
            _ => {},
        }
        out
    }

    /// Apply one text edit: splice the replacement into the buffer, refresh
    /// the positional index, keep the CST in sync (edit + incremental
    /// reparse), and re-synchronise the AST. Returns false and changes
    /// nothing when the edit's span is invalid.
    pub fn apply_edit(&mut self, start: usize, old_end: usize, repl: &Vec<u8>) -> (ok: bool)
        requires
            old(self).wf(),
        ensures
            final(self).wf(),
            // accepted exactly when the span is valid and the size fits
            ok <==> (start <= old_end && old_end <= old(self).text@.len() && repl@.len()
                <= usize::MAX - start),
            !ok ==> *final(self) == *old(self),
            // the new text is the old text with the span replaced
            ok ==> final(self).text@ == old(self).text@.subrange(0, start as int) + repl@
                + old(self).text@.subrange(old_end as int, old(self).text@.len() as int),
    {
        if start > old_end || old_end > self.text.len() {
            return false;
        }
        if repl.len() > usize::MAX - start {
            return false;
        }
        let new_end = start + repl.len();
        let ws_only = crate::text::all_ws(&self.text, start, old_end) && {
            let r = crate::text::all_ws(repl, 0, repl.len());
            r
        };
        let start_pos = crate::position::position_at(&self.line_starts, start);
        let old_end_pos = crate::position::position_at(&self.line_starts, old_end);
        if !crate::text::splice_text(&mut self.text, start, old_end, repl) {
            proof {
                assert(*self == *old(self));
            }
            return false;
        }
        self.line_starts = crate::position::build_line_starts(&self.text);
        let new_end_pos = crate::position::position_at(&self.line_starts, new_end);
        match &mut self.tree {
            Some(t) => {
                crate::cst::tree_edit(
                    t,
                    start,
                    old_end,
                    new_end,
                    (start_pos.line, start_pos.character),
                    (old_end_pos.line, old_end_pos.character),
                    (new_end_pos.line, new_end_pos.character),
                );
            },
            None => {},
        }
        let new_tree = crate::cst::parser_parse(&mut self.parser, &self.text, self.tree.as_ref());
        match new_tree {
            Some(t) => {
                self.tree = Some(t);
            },
            None => {},
        }
        let edit = TextEdit { start, old_end, new_end, whitespace_only: ws_only };
        self.swap_ast(&edit);
        true
    }

    /// Re-synchronise the AST after one text edit, as the incremental
    /// updater prescribes: skip a no-op outright; shift every range past the
    /// edit; leave broken or extra or whitespace-only regions at ranges
    /// only; otherwise rebuild the deepest subtree covering the edit in
    /// isolation and splice it in place, falling back to a full reparse of
    /// the root; then drain the references queue.
    pub fn swap_ast(&mut self, edit: &TextEdit)
        requires
            old(self).wf(),
        ensures
            final(self).wf(),
            final(self).schema == old(self).schema,
            final(self).text == old(self).text,
            final(self).line_starts == old(self).line_starts,
            // a no-op edit leaves the tree bit-identical
            edit.is_noop() ==> final(self).builder.ast == old(self).builder.ast
                && final(self).builder.diagnostics == old(self).builder.diagnostics
                && final(self).builder.unsolved_checks == old(self).builder.unsolved_checks
                && final(self).builder.unsolved_references == old(self).builder.unsolved_references,
            // a whitespace-only edit shifts ranges and changes nothing else
            edit.wf() && !edit.is_noop() && edit.whitespace_only ==> ranges_only_update(
                old(self).builder,
                final(self).builder,
                *edit,
            ),
            // any edit leaves one of three states: ranges merely shifted
            // (broken, extra or whitespace loci), one subtree swapped, or the
            // root rebuilt from scratch (an all-live arena)
            edit.wf() && !edit.is_noop() ==> ranges_only_update(
                old(self).builder,
                final(self).builder,
                *edit,
            ) || swap_shape(old(self).builder.ast, final(self).builder.ast, *edit)
                || (forall|e2: int|
                0 <= e2 < final(self).builder.ast.spec_len()
                    ==> (#[trigger] final(self).builder.ast.n(e2)).live),
    {
        if edit.old_end == edit.start && edit.new_end == edit.start {
            return ;
        }
        if edit.start > edit.old_end || edit.start > edit.new_end {
            return ;
        }
        proof {
            assert(edit.wf());
        }
        // range shift pass
        self.builder.ast.edit_range(edit);
        proof {
            lemma_shift_keeps_wf(*old(self), *self, *edit);
        }
        // classification via the new CST
        let class = match &self.tree {
            Some(t) => crate::cst::node_class_at(t, edit.start, edit.new_end),
            None => crate::cst::NodeClass::Missing,
        };
        if matches!(class, crate::cst::NodeClass::ParentError) {
            // broken syntax at the edit: ranges only, wait for a good parse
            return ;
        }
        if matches!(class, crate::cst::NodeClass::Extra) {
            return ;
        }
        if edit.whitespace_only {
            return ;
        }
        // dynamic swap attempt on the deepest covering subtree
        let ghost mid = *self;
        let cover = ByteRange { start: edit.start, end: edit.new_end };
        let target = self.builder.ast.find_covering(cover);
        let mut swapped = false;
        let ghost mut gk: int = 0;
        match target {
            Some(k) => {
                let is_root = match self.builder.ast.root {
                    Some(rt) => rt == k,
                    None => true,
                };
                if !is_root {
                    match self.builder.ast.get_parent(k) {
                        Some(_) => {
                            proof {
                                gk = k as int;
                            }
                            swapped = self.try_swap(k);
                        },
                        None => {},
                    }
                }
            },
            None => {},
        }
        if !swapped {
            // no incremental update available: reparse the root
            self.rebuild_ast();
            return ;
        }
        proof {
            lemma_swap_shape_holds(*old(self), mid, *self, *edit, gk);
        }
        let ghost post_swap = *self;
        self.builder.resolve_references(&self.schema, &self.text);
        proof {
            lemma_swap_shape_preserved(
                old(self).builder.ast,
                post_swap.builder.ast,
                self.builder.ast,
                *edit,
            );
        }
    }

    /// Rebuild the subtree under live symbol `k` from the captures inside
    /// its range and splice the result in place of `k`. False when the
    /// rebuilt tree is unusable (no root, a different type, or out of the
    /// parent's range): the caller then falls back to a full reparse.
    fn try_swap(&mut self, k: usize) -> (r: bool)
        requires
            old(self).wf(),
            old(self).builder.ast.is_live(k as int),
            old(self).builder.ast.n(k as int).parent is Some,
        ensures
            final(self).wf(),
            final(self).schema == old(self).schema,
            final(self).text == old(self).text,
            final(self).line_starts == old(self).line_starts,
            !r ==> *final(self) == *old(self),
            // on success, the swap shape against this call's own pre-state
            r ==> final(self).builder.ast.spec_len() > old(self).builder.ast.spec_len()
                && final(self).builder.ast.root == old(self).builder.ast.root && !final(self).builder.ast.n(k as int).live && (forall|i: int|
                0 <= i < old(self).builder.ast.spec_len() ==> (#[trigger] final(self).builder.ast.n(i)).type_id == old(self).builder.ast.n(i).type_id && final(self).builder.ast.n(i).range == old(self).builder.ast.n(i).range && (final(self).builder.ast.n(i).live ==> old(self).builder.ast.n(i).live)) && (forall|sx: int|
                old(self).builder.ast.spec_len() <= sx < final(self).builder.ast.spec_len()
                    ==> (#[trigger] final(self).builder.ast.n(sx)).live),
    {
        let rg = self.builder.ast.get_range(k);
        let raw: Vec<crate::builder::RawCapture> = match &self.tree {
            Some(t) => crate::cst::query_captures(
                &self.query,
                t,
                &self.text,
                Some((rg.start, rg.end)),
            ),
            None => Vec::new(),
        };
        let sub = MainBuilder::build(&self.schema, &self.capture_names, &raw, self.text.len());
        let sr = match sub.ast.root {
            Some(s) => s,
            None => {
                return false;
            },
        };
        // the rebuilt root must stand for the old symbol
        if sub.ast.get_type(sr) != self.builder.ast.get_type(k) {
            return false;
        }
        let pk = match self.builder.ast.get_parent(k) {
            Some(p) => p,
            None => {
                return false;
            },
        };
        proof {
            assert(self.builder.ast.node_graph_ok(k as int));
        }
        let prange = self.builder.ast.get_range(pk);
        let srange = sub.ast.get_range(sr);
        if !(prange.start <= srange.start && srange.end <= prange.end) {
            return false;
        }
        let base = self.builder.ast.len();
        proof {
            assert(sub.ast.n(sub.ast.root->Some_0 as int).range.spec_inside(
                self.builder.ast.n(
                    self.builder.ast.n(k as int).parent->Some_0 as int,
                ).range,
            ));
        }
        let ghost pre_ast = self.builder.ast;
        let ok = self.builder.ast.splice_subtree(&self.schema, k, &sub.ast);
        if !ok {
            proof {
                assert(*self == *old(self));
            }
            return false;
        }
        let ghost ast_sp = self.builder.ast;
        let total = self.builder.ast.len();
        proof {
            assert(total == base + sub.ast.spec_len());
            // the old queue entries still name slots of the right capability
            assert forall|qq: int| 0 <= qq < self.builder.unsolved_checks@.len() implies
                #[trigger] self.builder.unsolved_checks@[qq] < self.builder.ast.spec_len()
                && self.schema.types@[self.builder.ast.n(
                self.builder.unsolved_checks@[qq] as int,
            ).type_id as int].is_check by {
                let x = self.builder.unsolved_checks@[qq];
                assert(x < pre_ast.spec_len());
                assert(self.builder.ast.n(x as int).type_id == pre_ast.n(x as int).type_id);
            }
            assert forall|qq: int| 0 <= qq < self.builder.unsolved_references@.len() implies
                #[trigger] self.builder.unsolved_references@[qq] < self.builder.ast.spec_len()
                && self.schema.types@[self.builder.ast.n(
                self.builder.unsolved_references@[qq] as int,
            ).type_id as int].is_reference by {
                let x = self.builder.unsolved_references@[qq];
                assert(x < pre_ast.spec_len());
                assert(self.builder.ast.n(x as int).type_id == pre_ast.n(x as int).type_id);
            }
        }
        // re-enqueue the rebuilt subtree's deferred work, shifted into place
        let nq = sub.unsolved_checks.len();
        let mut i: usize = 0;
        while i < nq
            invariant
                self.schema == old(self).schema,
                self.text == old(self).text,
                self.line_starts == old(self).line_starts,
                self.builder.ast == ast_sp,
                crate::position::line_starts_ok(self.line_starts@, self.text@),
                self.schema.wf(),
                self.builder.ast.wf(self.schema),
                self.builder.queues_ok(self.schema),
                nq == sub.unsolved_checks@.len(),
                i <= nq,
                total == self.builder.ast.spec_len(),
                base + sub.ast.spec_len() == self.builder.ast.spec_len(),
                forall|q: int| 0 <= q < sub.unsolved_checks@.len()
                    ==> #[trigger] sub.unsolved_checks@[q] < sub.ast.spec_len()
                    && self.schema.types@[sub.ast.n(
                    sub.unsolved_checks@[q] as int,
                ).type_id as int].is_check,
                forall|q: int| 0 <= q < sub.unsolved_references@.len()
                    ==> #[trigger] sub.unsolved_references@[q] < sub.ast.spec_len()
                    && self.schema.types@[sub.ast.n(
                    sub.unsolved_references@[q] as int,
                ).type_id as int].is_reference,
                forall|s: int| 0 <= s < sub.ast.spec_len() ==> #[trigger] self.builder.ast.n(
                    base + s,
                ).type_id == sub.ast.n(s).type_id,
            decreases nq - i,
        {
            let q = sub.unsolved_checks[i];
            proof {
                assert(sub.unsolved_checks@[i as int] == q);
                assert(q < sub.ast.spec_len());
            }
            let ghost pre_q = self.builder.unsolved_checks@;
            self.builder.unsolved_checks.push(base + q);
            proof {
                assert forall|qq: int| 0 <= qq < self.builder.unsolved_checks@.len() implies
                    #[trigger] self.builder.unsolved_checks@[qq]
                    < self.builder.ast.spec_len() && self.schema.types@[self.builder.ast.n(
                    self.builder.unsolved_checks@[qq] as int,
                ).type_id as int].is_check by {
                    if qq < pre_q.len() {
                        assert(self.builder.unsolved_checks@[qq] == pre_q[qq]);
                    } else {
                        assert(self.builder.unsolved_checks@[qq] == (base + q) as usize);
                        assert(self.builder.ast.n(base + q as int).type_id == sub.ast.n(
                            q as int,
                        ).type_id);
                    }
                }
            }
            i += 1;
        }
        let nr = sub.unsolved_references.len();
        let mut j: usize = 0;
        while j < nr
            invariant
                self.schema == old(self).schema,
                self.text == old(self).text,
                self.line_starts == old(self).line_starts,
                self.builder.ast == ast_sp,
                crate::position::line_starts_ok(self.line_starts@, self.text@),
                self.schema.wf(),
                self.builder.ast.wf(self.schema),
                self.builder.queues_ok(self.schema),
                nr == sub.unsolved_references@.len(),
                j <= nr,
                total == self.builder.ast.spec_len(),
                base + sub.ast.spec_len() == self.builder.ast.spec_len(),
                forall|q: int| 0 <= q < sub.unsolved_references@.len()
                    ==> #[trigger] sub.unsolved_references@[q] < sub.ast.spec_len()
                    && self.schema.types@[sub.ast.n(
                    sub.unsolved_references@[q] as int,
                ).type_id as int].is_reference,
                forall|s: int| 0 <= s < sub.ast.spec_len() ==> #[trigger] self.builder.ast.n(
                    base + s,
                ).type_id == sub.ast.n(s).type_id,
            decreases nr - j,
        {
            let q = sub.unsolved_references[j];
            proof {
                assert(sub.unsolved_references@[j as int] == q);
                assert(q < sub.ast.spec_len());
            }
            let ghost pre_q = self.builder.unsolved_references@;
            self.builder.unsolved_references.push(base + q);
            proof {
                assert forall|qq: int| 0 <= qq < self.builder.unsolved_references@.len() implies
                    #[trigger] self.builder.unsolved_references@[qq]
                    < self.builder.ast.spec_len() && self.schema.types@[self.builder.ast.n(
                    self.builder.unsolved_references@[qq] as int,
                ).type_id as int].is_reference by {
                    if qq < pre_q.len() {
                        assert(self.builder.unsolved_references@[qq] == pre_q[qq]);
                    } else {
                        assert(self.builder.unsolved_references@[qq] == (base + q) as usize);
                        assert(self.builder.ast.n(base + q as int).type_id == sub.ast.n(
                            q as int,
                        ).type_id);
                    }
                }
            }
            j += 1;
        }
        // carry over the rebuild's diagnostics
        let nd = sub.diagnostics.len();
        let mut di: usize = 0;
        while di < nd
            invariant
                self.schema == old(self).schema,
                self.text == old(self).text,
                self.line_starts == old(self).line_starts,
                self.builder.ast == ast_sp,
                crate::position::line_starts_ok(self.line_starts@, self.text@),
                self.schema.wf(),
                self.builder.ast.wf(self.schema),
                self.builder.queues_ok(self.schema),
                nd == sub.diagnostics@.len(),
                di <= nd,
            decreases nd - di,
        {
            let d = sub.diagnostics[di];
            crate::diag::push_diag(&mut self.builder.diagnostics, d);
            di += 1;
        }
        proof {
            let a0 = old(self).builder.ast;
            let fin = self.builder.ast;
            assert(a0 == pre_ast);
            assert(sub.ast.spec_len() > 0) by {
                assert(sub.ast.root is Some);
            }
            assert(!fin.n(k as int).live) by {
                assert(a0.in_subtree(k as int, k as int));
            }
            assert forall|sx: int| a0.spec_len() <= sx < fin.spec_len() implies (#[trigger] fin.n(
                sx,
            )).live by {
                let sofs = sx - (pre_ast.spec_len() as int);
                assert(0 <= sofs < sub.ast.spec_len());
                assert(fin.n((pre_ast.spec_len() as int) + sofs).type_id == sub.ast.n(
                    sofs,
                ).type_id && fin.n((pre_ast.spec_len() as int) + sofs).live);
                assert((pre_ast.spec_len() as int) + sofs == sx);
            }
        }
        true
    }

    /// The document outline.
    pub fn get_document_symbols(&self) -> (r: Vec<crate::capabilities::DocumentSymbol>)
        requires
            self.wf(),
        ensures
            forall|k: int| 0 <= k < r@.len() ==> crate::capabilities::symbol_kind_declared(
                self.schema,
                (#[trigger] r@[k]).kind,
            ),
            forall|k: int| 0 <= k < r@.len() ==> #[trigger] crate::capabilities::outline_entry_ok(
                self.schema,
                self.builder.ast,
                self.text@,
                r@[k],
            ),
            self.builder.ast.root is None ==> r@.len() == 0,
            crate::capabilities::root_outline_feature(self.schema, self.builder.ast) matches Some(
                d,
            ) ==> r@.len() == 1 && r@[0].kind == d.kind && r@[0].range == self.builder.ast.n(
                self.builder.ast.root->Some_0 as int,
            ).range,
            match self.builder.ast.root {
                Some(rt) => crate::capabilities::total_entries(r@)
                    == crate::capabilities::outline_count(
                    self.schema,
                    self.builder.ast,
                    rt as int,
                ),
                None => true,
            },
    {
        self.builder.get_document_symbols(&self.schema, &self.text)
    }

    /// Hover at a position: owed exactly when the position names a byte
    /// offset whose deepest symbol opts in with a readable range.
    pub fn get_hover(&self, pos: Position) -> (r: Option<crate::capabilities::Hover>)
        requires
            self.wf(),
        ensures
            r is Some ==> (match self.builder.ast.find_at_spec(
                self.line_starts@[pos.line as int] + pos.character,
            ) {
                Some(s) => self.schema.types@[self.builder.ast.n(
                    s as int,
                ).type_id as int].hover is Some,
                None => false,
            }),
            pos.line < self.line_starts@.len() && self.line_starts@[pos.line as int]
                + pos.character <= self.text@.len() ==> (r is Some <==> (
            match self.builder.ast.find_at_spec(
                self.line_starts@[pos.line as int] + pos.character,
            ) {
                Some(s) => self.schema.types@[self.builder.ast.n(
                    s as int,
                ).type_id as int].hover is Some && self.builder.ast.n(s as int).range.wf()
                    && self.builder.ast.n(s as int).range.end <= self.text@.len(),
                None => false,
            })),
    {
        match crate::position::offset_at(&self.line_starts, self.text.len(), pos) {
            Some(off) => self.builder.get_hover(&self.schema, &self.text, off),
            None => None,
        }
    }

    /// Go to the definition of the symbol at a position: the range of its
    /// resolved, still-living target.
    pub fn go_to_definition(&self, pos: Position) -> (r: Option<(usize, ByteRange)>)
        requires
            self.wf(),
        ensures
            match r {
                Some(t) => self.builder.ast.is_live(t.0 as int) && t.1 == self.builder.ast.n(
                    t.0 as int,
                ).range,
                None => true,
            },
            pos.line < self.line_starts@.len() && self.line_starts@[pos.line as int]
                + pos.character <= self.text@.len() ==> (r is Some <==> (
            match self.builder.ast.find_at_spec(
                self.line_starts@[pos.line as int] + pos.character,
            ) {
                Some(s) => self.builder.ast.n(s as int).target matches Some(t)
                    && self.builder.ast.is_live(t as int),
                None => false,
            })),
    {
        match crate::position::offset_at(&self.line_starts, self.text.len(), pos) {
            Some(off) => self.builder.go_to_definition(off),
            None => None,
        }
    }

    /// Go to the declaration of the symbol at a position: for opted-in
    /// types, the range of the resolved, still-living target.
    pub fn go_to_declaration(&self, pos: Position) -> (r: Option<(usize, ByteRange)>)
        requires
            self.wf(),
        ensures
            match r {
                Some(t) => self.builder.ast.is_live(t.0 as int) && t.1 == self.builder.ast.n(
                    t.0 as int,
                ).range,
                None => true,
            },
    {
        match crate::position::offset_at(&self.line_starts, self.text.len(), pos) {
            Some(off) => self.builder.go_to_declaration(&self.schema, off),
            None => None,
        }
    }

    /// All semantic tokens of the document, delta-encoded in document order:
    /// one token per live opted-in symbol with a well-formed token range.
    pub fn get_semantic_tokens_full(&self) -> (r: Vec<SemanticToken>)
        requires
            self.wf(),
        ensures
            r@.len() == count_tok(
                crate::capabilities::scan_tokens(self.schema, self.builder.ast, 0),
                0,
            ),
            tokens_encoded_from(
                r@,
                crate::capabilities::scan_tokens(self.schema, self.builder.ast, 0),
                self.line_starts@,
            ),
    {
        let ranges = self.builder.collect_semantic_ranges(&self.schema);
        self.encode_ranges(ranges)
    }

    /// Exactly the semantic tokens whose ranges lie inside `rg`,
    /// delta-encoded in document order.
    pub fn get_semantic_tokens_range(&self, rg: ByteRange) -> (r: Vec<SemanticToken>)
        requires
            self.wf(),
        ensures
            r@.len() == count_tok_in(
                crate::capabilities::scan_tokens(self.schema, self.builder.ast, 0),
                rg,
                0,
            ),
            // exactly the tokens whose ranges lie inside `rg`
            tokens_encoded_from(
                r@,
                toks_in(
                    crate::capabilities::scan_tokens(self.schema, self.builder.ast, 0),
                    rg,
                    0,
                ),
                self.line_starts@,
            ),
    {
        let all = self.builder.collect_semantic_ranges(&self.schema);
        let ghost allv = all@;
        let n = all.len();
        let mut kept: Vec<(ByteRange, u32)> = Vec::new();
        let mut i: usize = 0;
        while i < n
            invariant
                n == allv.len(),
                all@ == allv,
                i <= n,
                // within-range entries collected so far, all well formed later
                count_tok(kept@, 0) + count_tok_in(allv, rg, i as int) == count_tok_in(
                    allv,
                    rg,
                    0,
                ),
                kept@ + toks_in(allv, rg, i as int) == toks_in(allv, rg, 0),
                forall|k: int| 0 <= k < kept@.len() ==> (#[trigger] kept@[k]).0.wf()
                    && kept@[k].0.spec_inside(rg),
            decreases n - i,
        {
            let (r0, ty) = all[i];
            if r0.start <= r0.end && rg.start <= r0.start && r0.end <= rg.end {
                let ghost kept0 = kept@;
                kept.push((r0, ty));
                proof {
                    lemma_count_tok_push(kept0, (r0, ty));
                    assert(toks_in(allv, rg, i as int) == seq![allv[i as int]] + toks_in(
                        allv,
                        rg,
                        i + 1,
                    ));
                    assert(kept0 + (seq![allv[i as int]] + toks_in(allv, rg, i + 1))
                        =~= kept@ + toks_in(allv, rg, i + 1));
                }
            }
            i += 1;
        }
        proof {
            assert(toks_in(allv, rg, n as int) =~= Seq::<(ByteRange, u32)>::empty());
            assert(kept@ + Seq::<(ByteRange, u32)>::empty() =~= kept@);
        }
        self.encode_ranges(kept)
    }

    /// Turn token ranges into sorted, delta-encoded semantic tokens: one
    /// token per well-formed range, the encoding pinned exactly.
    fn encode_ranges(&self, ranges: Vec<(ByteRange, u32)>) -> (r: Vec<SemanticToken>)
        requires
            self.wf(),
        ensures
            r@.len() == count_tok(ranges@, 0),
            tokens_encoded_from(r@, ranges@, self.line_starts@),
    {
        let n = ranges.len();
        let mut abs: Vec<AbsToken> = Vec::new();
        let mut i: usize = 0;
        while i < n
            invariant
                n == ranges@.len(),
                i <= n,
                abs@.len() + count_tok(ranges@, i as int) == count_tok(ranges@, 0),
                abs@ + abs_of(ranges@, self.line_starts@, i as int) == abs_of(
                    ranges@,
                    self.line_starts@,
                    0,
                ),
                crate::position::line_starts_ok(self.line_starts@, self.text@),
            decreases n - i,
        {
            let (rg, ty) = ranges[i];
            let ghost abs0 = abs@;
            if rg.start <= rg.end {
                let pos = crate::position::position_at(&self.line_starts, rg.start);
                abs.push(
                    AbsToken {
                        line: pos.line,
                        character: pos.character,
                        length: rg.end - rg.start,
                        token_type: ty,
                    },
                );
                proof {
                    assert(abs@[abs@.len() - 1] == abs_tok_of(
                        self.line_starts@,
                        ranges@[i as int].0,
                        ranges@[i as int].1,
                    ));
                    assert(abs_of(ranges@, self.line_starts@, i as int) == seq![abs_tok_of(
                        self.line_starts@,
                        ranges@[i as int].0,
                        ranges@[i as int].1,
                    )] + abs_of(ranges@, self.line_starts@, i + 1));
                    assert(abs0 + (seq![abs_tok_of(
                        self.line_starts@,
                        ranges@[i as int].0,
                        ranges@[i as int].1,
                    )] + abs_of(ranges@, self.line_starts@, i + 1)) =~= abs@ + abs_of(
                        ranges@,
                        self.line_starts@,
                        i + 1,
                    ));
                }
            }
            i += 1;
        }
        proof {
            assert(abs_of(ranges@, self.line_starts@, n as int)
                =~= Seq::<AbsToken>::empty());
            assert(abs@ + Seq::<AbsToken>::empty() =~= abs@);
        }
        let sorted = crate::capabilities::sort_tokens(abs);
        let r = crate::capabilities::encode_tokens(&sorted);
        proof {
            assert(crate::capabilities::encode_spec(sorted@) == r@);
            assert(tokens_encoded_from(r@, ranges@, self.line_starts@));
        }
        r
    }

    /// Inlay hints for the whole document: one per live opted-in symbol,
    /// anchored at its start and labelled with its declared label text.
    pub fn build_inlay_hint(&self) -> (r: Vec<crate::capabilities::InlayHint>)
        requires
            self.wf(),
        ensures
            r@.len() == crate::capabilities::hint_syms(self.schema, self.builder.ast, 0).len(),
            forall|k: int| 0 <= k < r@.len() ==> #[trigger] crate::capabilities::hint_matches(
                self.schema,
                self.builder.ast,
                self.text@,
                r@[k],
                crate::capabilities::hint_syms(self.schema, self.builder.ast, 0)[k],
            ),
    {
        self.builder.build_inlay_hint(&self.schema, &self.text)
    }

    /// Code lenses for the whole document: exactly the anchors of the live
    /// opted-in symbols, in arena order.
    pub fn build_code_lens(&self) -> (r: Vec<crate::capabilities::CodeLens>)
        requires
            self.wf(),
        ensures
            r@.len() == crate::capabilities::scan_lenses(self.schema, self.builder.ast, 0).len(),
            forall|k: int| 0 <= k < r@.len() ==> (#[trigger] r@[k]).range
                == crate::capabilities::scan_lenses(self.schema, self.builder.ast, 0)[k],
    {
        self.builder.build_code_lens(&self.schema)
    }

    /// Completion proposals at a position: exactly the live opted-in
    /// symbols whose text begins with the identifier word at the cursor.
    pub fn get_completion_items(&self, pos: Position) -> (r: Vec<
        crate::capabilities::CompletionItem,
    >)
        requires
            self.wf(),
        ensures
            forall|ws: int, we: int, i: int|
                pos.line < self.line_starts@.len() && self.line_starts@[pos.line as int]
                    + pos.character <= self.text@.len()
                    && crate::capabilities::is_word_span(
                    self.text@,
                    self.line_starts@[pos.line as int] + pos.character,
                    ws,
                    we,
                ) && 0 <= i < self.builder.ast.spec_len() && self.builder.ast.n(i).live
                    && self.schema.types@[self.builder.ast.n(i).type_id as int].completion
                    is Some && self.builder.ast.n(i).range.wf() && self.builder.ast.n(
                    i,
                ).range.end <= self.text@.len() && crate::text::spec_match_at(
                    self.text@,
                    self.text@.subrange(ws, we),
                    self.builder.ast.n(i).range.start as int,
                ) && crate::capabilities::completion_src(self.schema, self.builder.ast, i)
                    is Some ==> #[trigger] crate::capabilities::offered(
                    r@,
                    self.schema,
                    self.builder.ast,
                    self.text@,
                    self.text@.subrange(ws, we),
                    i,
                ),
    {
        match crate::position::offset_at(&self.line_starts, self.text.len(), pos) {
            Some(off) => self.builder.get_completion_items(&self.schema, &self.text, off),
            None => Vec::new(),
        }
    }

    /// Nested selection ranges, one per requested position, innermost first,
    /// computed from the CST's named-node chain.
    pub fn get_selection_ranges(&self, positions: &Vec<Position>) -> (r: Vec<SelectionRange>)
        requires
            self.wf(),
        ensures
            r@.len() <= positions@.len(),
            // whatever the CST handed back, every returned entry holds at
            // least one range; positions with an empty descent yield none
            forall|k: int| 0 <= k < r@.len() ==> (#[trigger] r@[k]).ranges@.len() >= 1,
    {
        let n = positions.len();
        let mut out: Vec<SelectionRange> = Vec::new();
        let mut i: usize = 0;
        while i < n
            invariant
                n == positions@.len(),
                i <= n,
                out@.len() <= i,
                forall|k: int| 0 <= k < out@.len() ==> (#[trigger] out@[k]).ranges@.len() >= 1,
                crate::position::line_starts_ok(self.line_starts@, self.text@),
            decreases n - i,
        {
            let pos = positions[i];
            match crate::position::offset_at(&self.line_starts, self.text.len(), pos) {
                Some(off) => {
                    match &self.tree {
                        Some(t) => {
                            let named = crate::cst::tree_named_nodes(t);
                            let chain = crate::capabilities::cst_chain_at_offset(&named, off);
                            if chain.len() > 0 {
                                out.push(
                                    crate::capabilities::selection_range_of_chain(&chain),
                                );
                            }
                        },
                        None => {},
                    }
                },
                None => {},
            }
            i += 1;
        }
        out
    }

    /// Drain the checks queue against host-computed outcomes.
    pub fn resolve_checks(&mut self, outcomes: &Vec<crate::resolve::CheckOutcome>)
        requires
            old(self).wf(),
            outcomes@.len() == old(self).builder.unsolved_checks@.len(),
        ensures
            final(self).wf(),
            final(self).builder.unsolved_checks@ == crate::resolve::kept_checks(
                old(self).builder.ast,
                old(self).builder.unsolved_checks@,
                outcomes@,
                0,
            ),
    {
        let ghost pre = self.builder;
        self.builder.resolve_checks(outcomes);
        proof {
            assert(self.builder.ast == pre.ast);
            assert forall|q: int| 0 <= q < self.builder.unsolved_checks@.len() implies
                #[trigger] self.builder.unsolved_checks@[q] < self.builder.ast.spec_len()
                && self.schema.types@[self.builder.ast.n(
                self.builder.unsolved_checks@[q] as int,
            ).type_id as int].is_check by {
                lemma_kept_entry_sound(
                    pre.ast,
                    pre.unsolved_checks@,
                    outcomes@,
                    0,
                    self.builder.unsolved_checks@,
                    q,
                );
                let w = choose|w: int|
                    0 <= w < pre.unsolved_checks@.len() && pre.unsolved_checks@[w]
                        == self.builder.unsolved_checks@[q];
                assert(pre.unsolved_checks@[w] == self.builder.unsolved_checks@[q]);
            }
        }
    }

    /// Drain the references queue.
    pub fn resolve_references(&mut self)
        requires
            old(self).wf(),
        ensures
            final(self).wf(),
    {
        self.builder.resolve_references(&self.schema, &self.text);
    }
}

/// The arena after a dynamic swap, seen against the pre-edit arena: every
/// old slot keeps its type, its range merely shifted, and no dead symbol
/// revives; one live symbol (the swapped subtree's root) died; the rebuilt
/// subtree arrived live at the end.
pub open spec fn swap_shape(a0: crate::symbol::Ast, fin: crate::symbol::Ast, e: TextEdit) -> bool {
    &&& fin.spec_len() > a0.spec_len()
    &&& fin.root == a0.root
    &&& exists|k: int|
        0 <= k < a0.spec_len() && (#[trigger] a0.n(k)).live && !fin.n(k).live
    &&& forall|i: int| 0 <= i < a0.spec_len() ==> (#[trigger] fin.n(i)).type_id == a0.n(
        i,
    ).type_id && fin.n(i).range == crate::update::shift_range(a0.n(i).range, e) && (fin.n(
        i,
    ).live ==> a0.n(i).live)
    &&& forall|s: int| a0.spec_len() <= s < fin.spec_len() ==> (#[trigger] fin.n(s)).live
}

/// The absolute token for one range.
pub open spec fn abs_tok_of(starts: Seq<usize>, rg: ByteRange, ty: u32) -> crate::capabilities::AbsToken {
    let p = crate::position::position_of(starts, rg.start as int);
    crate::capabilities::AbsToken {
        line: p.line,
        character: p.character,
        length: (rg.end - rg.start) as usize,
        token_type: ty,
    }
}

/// The absolute tokens of the well-formed ranges from position `i` on.
pub open spec fn abs_of(
    ranges: Seq<(ByteRange, u32)>,
    starts: Seq<usize>,
    i: int,
) -> Seq<crate::capabilities::AbsToken>
    decreases ranges.len() - i,
{
    if i < 0 || i >= ranges.len() {
        Seq::empty()
    } else if ranges[i].0.wf() {
        seq![abs_tok_of(starts, ranges[i].0, ranges[i].1)] + abs_of(ranges, starts, i + 1)
    } else {
        abs_of(ranges, starts, i + 1)
    }
}

/// The well-formed token ranges inside `rg`, from position `i` on.
pub open spec fn toks_in(
    ranges: Seq<(ByteRange, u32)>,
    rg: ByteRange,
    i: int,
) -> Seq<(ByteRange, u32)>
    decreases ranges.len() - i,
{
    if i < 0 || i >= ranges.len() {
        Seq::empty()
    } else if ranges[i].0.wf() && ranges[i].0.spec_inside(rg) {
        seq![ranges[i]] + toks_in(ranges, rg, i + 1)
    } else {
        toks_in(ranges, rg, i + 1)
    }
}

/// `r` is the delta encoding of the given token ranges: some ordering of
/// their absolute tokens, sorted by document position, encoded exactly.
pub open spec fn tokens_encoded_from(
    r: Seq<crate::capabilities::SemanticToken>,
    ranges: Seq<(ByteRange, u32)>,
    starts: Seq<usize>,
) -> bool {
    exists|abs: Seq<crate::capabilities::AbsToken>|
        #[trigger] crate::capabilities::encode_spec(abs) == r
            && crate::capabilities::sorted_toks(abs) && abs.to_multiset() == abs_of(
            ranges,
            starts,
            0,
        ).to_multiset()
}

/// How many token ranges are well formed (and so become tokens).
pub open spec fn count_tok(ranges: Seq<(ByteRange, u32)>, i: int) -> nat
    decreases ranges.len() - i,
{
    if i < 0 || i >= ranges.len() {
        0
    } else if ranges[i].0.wf() {
        1 + count_tok(ranges, i + 1)
    } else {
        count_tok(ranges, i + 1)
    }
}

/// How many token ranges are well formed and lie inside `rg`.
pub open spec fn count_tok_in(ranges: Seq<(ByteRange, u32)>, rg: ByteRange, i: int) -> nat
    decreases ranges.len() - i,
{
    if i < 0 || i >= ranges.len() {
        0
    } else if ranges[i].0.wf() && ranges[i].0.spec_inside(rg) {
        1 + count_tok_in(ranges, rg, i + 1)
    } else {
        count_tok_in(ranges, rg, i + 1)
    }
}


/// Appending a well-formed in-range entry adds one to the token count.
proof fn lemma_count_tok_push(s: Seq<(ByteRange, u32)>, e: (ByteRange, u32))
    ensures
        e.0.wf() ==> count_tok(s.push(e), 0) == count_tok(s, 0) + 1,
        !e.0.wf() ==> count_tok(s.push(e), 0) == count_tok(s, 0),
{
    lemma_count_tok_push_from(s, e, 0);
}

proof fn lemma_count_tok_push_from(s: Seq<(ByteRange, u32)>, e: (ByteRange, u32), i: int)
    requires
        0 <= i <= s.len(),
    ensures
        e.0.wf() ==> count_tok(s.push(e), i) == count_tok(s, i) + 1,
        !e.0.wf() ==> count_tok(s.push(e), i) == count_tok(s, i),
    decreases s.len() - i,
{
    if i == s.len() {
        assert(s.push(e)[i] == e);
        assert(count_tok(s.push(e), i + 1) == 0);
    } else {
        assert(s.push(e)[i] == s[i]);
        lemma_count_tok_push_from(s, e, i + 1);
    }
}

/// The edit's effect stayed at ranges: every symbol merely shifted, and the
/// diagnostics and queues are untouched.
pub open spec fn ranges_only_update(
    pre: MainBuilder,
    fin: MainBuilder,
    e: TextEdit,
) -> bool {
    &&& fin.ast.spec_len() == pre.ast.spec_len()
    &&& fin.ast.root == pre.ast.root
    &&& forall|i: int| 0 <= i < pre.ast.spec_len() ==> #[trigger] fin.ast.n(i)
        == (crate::symbol::Symbol {
        range: crate::update::shift_range(pre.ast.n(i).range, e),
        ..pre.ast.n(i)
    })
    &&& fin.diagnostics == pre.diagnostics
    &&& fin.unsolved_checks == pre.unsolved_checks
    &&& fin.unsolved_references == pre.unsolved_references
}


/// After a successful swap, the shape relation holds against the pre-edit
/// arena: the pre-swap state is the shifted pre-edit one, and the swap's own
/// frame facts supply the rest.
proof fn lemma_swap_shape_holds(pre: Workspace, mid: Workspace, fin: Workspace, e: TextEdit, k: int)
    requires
        e.wf(),
        mid.builder.ast.spec_len() == pre.builder.ast.spec_len(),
        mid.builder.ast.root == pre.builder.ast.root,
        forall|i: int| 0 <= i < pre.builder.ast.spec_len() ==> #[trigger] mid.builder.ast.n(i)
            == (crate::symbol::Symbol {
            range: crate::update::shift_range(pre.builder.ast.n(i).range, e),
            ..pre.builder.ast.n(i)
        }),
        0 <= k < mid.builder.ast.spec_len(),
        mid.builder.ast.n(k).live,
        fin.builder.ast.spec_len() > mid.builder.ast.spec_len(),
        fin.builder.ast.root == mid.builder.ast.root,
        !fin.builder.ast.n(k).live,
        forall|i: int| 0 <= i < mid.builder.ast.spec_len() ==> (#[trigger] fin.builder.ast.n(
            i,
        )).type_id == mid.builder.ast.n(i).type_id && fin.builder.ast.n(i).range
            == mid.builder.ast.n(i).range && (fin.builder.ast.n(i).live
            ==> mid.builder.ast.n(i).live),
        forall|sx: int|
            mid.builder.ast.spec_len() <= sx < fin.builder.ast.spec_len()
                ==> (#[trigger] fin.builder.ast.n(sx)).live,
    ensures
        swap_shape(pre.builder.ast, fin.builder.ast, e),
{
    let a0 = pre.builder.ast;
    let fa = fin.builder.ast;
    assert(a0.n(k).live);
    assert(a0.n(k).live && !fa.n(k).live);
    assert forall|i: int| 0 <= i < a0.spec_len() implies (#[trigger] fa.n(i)).type_id == a0.n(
        i,
    ).type_id && fa.n(i).range == crate::update::shift_range(a0.n(i).range, e) && (fa.n(
        i,
    ).live ==> a0.n(i).live) by {
        assert(mid.builder.ast.n(i) == (crate::symbol::Symbol {
            range: crate::update::shift_range(a0.n(i).range, e),
            ..a0.n(i)
        }));
    }
}

/// The reference drain keeps the swap shape: it touches nothing the shape
/// speaks of.
proof fn lemma_swap_shape_preserved(
    a0: crate::symbol::Ast,
    b: crate::symbol::Ast,
    c: crate::symbol::Ast,
    e: TextEdit,
)
    requires
        swap_shape(a0, b, e),
        c.spec_len() == b.spec_len(),
        c.root == b.root,
        forall|j: int| 0 <= j < b.spec_len() ==> {
            let x = #[trigger] c.n(j);
            let y = b.n(j);
            x.type_id == y.type_id && x.range == y.range && x.parent == y.parent && x.fields
                == y.fields && x.comment == y.comment && x.live == y.live
        },
    ensures
        swap_shape(a0, c, e),
{
    let k = choose|k: int| 0 <= k < a0.spec_len() && (#[trigger] a0.n(k)).live && !b.n(k).live;
    assert(c.n(k).live == b.n(k).live);
    assert(0 <= k < a0.spec_len() && a0.n(k).live && !c.n(k).live);
    assert forall|i: int| 0 <= i < a0.spec_len() implies (#[trigger] c.n(i)).type_id == a0.n(
        i,
    ).type_id && c.n(i).range == crate::update::shift_range(a0.n(i).range, e) && (c.n(i).live
        ==> a0.n(i).live) by {
        assert(b.n(i).type_id == a0.n(i).type_id);
    }
    assert forall|sx: int| a0.spec_len() <= sx < c.spec_len() implies (#[trigger] c.n(
        sx,
    )).live by {
        assert(b.n(sx).live);
    }
}

/// Every entry of the kept queue was an entry of the original queue.
proof fn lemma_kept_entry_sound(
    ast: crate::symbol::Ast,
    q: Seq<usize>,
    o: Seq<crate::resolve::CheckOutcome>,
    i: int,
    kept: Seq<usize>,
    w: int,
)
    requires
        kept == crate::resolve::kept_checks(ast, q, o, i),
        0 <= w < kept.len(),
    ensures
        exists|x: int| 0 <= x < q.len() && q[x] == kept[w],
    decreases q.len() - i,
{
    if i < 0 || i >= q.len() {
    } else {
        let rest = crate::resolve::kept_checks(ast, q, o, i + 1);
        if crate::resolve::check_kept(ast, q[i], o[i]) {
            assert(kept == seq![q[i]] + rest);
            if w == 0 {
                assert(kept[0] == (seq![q[i]] + rest)[0]);
                assert(kept[0] == q[i]);
            } else {
                assert(kept[w] == (seq![q[i]] + rest)[w]);
                assert(kept[w] == rest[w - 1]);
                lemma_kept_entry_sound(ast, q, o, i + 1, rest, w - 1);
            }
        } else {
            lemma_kept_entry_sound(ast, q, o, i + 1, rest, w);
        }
    }
}

/// The shift pass touches only ranges, so the workspace invariant survives.
proof fn lemma_shift_keeps_wf(pre: Workspace, fin: Workspace, e: TextEdit)
    requires
        pre.wf(),
        e.wf(),
        fin.schema == pre.schema,
        fin.builder.unsolved_checks == pre.builder.unsolved_checks,
        fin.builder.unsolved_references == pre.builder.unsolved_references,
        fin.builder.ast.wf_graph(),
        fin.builder.ast.spec_len() == pre.builder.ast.spec_len(),
        fin.builder.ast.root == pre.builder.ast.root,
        forall|i: int| 0 <= i < pre.builder.ast.spec_len() ==> #[trigger] fin.builder.ast.n(i)
            == (crate::symbol::Symbol {
            range: crate::update::shift_range(pre.builder.ast.n(i).range, e),
            ..pre.builder.ast.n(i)
        }),
    ensures
        fin.builder.ast.wf(fin.schema),
        fin.builder.queues_ok(fin.schema),
{
    assert forall|j: int| 0 <= j < fin.builder.ast.spec_len() implies
        #[trigger] fin.builder.ast.node_schema_ok(fin.schema, j) by {
        assert(pre.builder.ast.node_schema_ok(pre.schema, j));
        assert(fin.builder.ast.n(j).fields == pre.builder.ast.n(j).fields);
        assert(fin.builder.ast.n(j).type_id == pre.builder.ast.n(j).type_id);
        assert forall|f: int, k: int|
            0 <= f < fin.builder.ast.n(j).fields@.len() && 0 <= k < fin.builder.ast.n(
                j,
            ).fields@[f]@.len() implies fin.schema.types@[fin.builder.ast.n(
            j,
        ).type_id as int].fields@[f].types@.contains(
            fin.builder.ast.n(#[trigger] fin.builder.ast.n(j).fields@[f]@[k] as int).type_id,
        ) by {
            let c = fin.builder.ast.n(j).fields@[f]@[k];
            assert(pre.builder.ast.n(j).fields@[f]@[k] == c);
            assert(pre.builder.ast.node_graph_ok(j));
            assert(fin.builder.ast.n(c as int).type_id == pre.builder.ast.n(c as int).type_id);
        }
    }
    assert forall|q: int| 0 <= q < fin.builder.unsolved_checks@.len() implies
        #[trigger] fin.builder.unsolved_checks@[q] < fin.builder.ast.spec_len()
        && fin.schema.types@[fin.builder.ast.n(
        fin.builder.unsolved_checks@[q] as int,
    ).type_id as int].is_check by {
        assert(pre.builder.unsolved_checks@[q] < pre.builder.ast.spec_len());
        let x = fin.builder.unsolved_checks@[q];
        assert(fin.builder.ast.n(x as int).type_id == pre.builder.ast.n(x as int).type_id);
    }
    assert forall|q: int| 0 <= q < fin.builder.unsolved_references@.len() implies
        #[trigger] fin.builder.unsolved_references@[q] < fin.builder.ast.spec_len()
        && fin.schema.types@[fin.builder.ast.n(
        fin.builder.unsolved_references@[q] as int,
    ).type_id as int].is_reference by {
        assert(pre.builder.unsolved_references@[q] < pre.builder.ast.spec_len());
        let x = fin.builder.unsolved_references@[q];
        assert(fin.builder.ast.n(x as int).type_id == pre.builder.ast.n(x as int).type_id);
    }
}

} // verus!
