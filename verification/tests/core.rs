//! Tests on the verified core alone: captures in, AST out, no parser needed.

use auto_lsp::builder::{MainBuilder, RawCapture};
use auto_lsp::capabilities::{encode_tokens, AbsToken};
use auto_lsp::diag::DiagnosticKind;
use auto_lsp::range::ByteRange;
use auto_lsp::resolve::CheckOutcome;
use auto_lsp::schema::{FieldKind, FieldSchema, NodeSchema, Schema, SchemaError};

fn bare_type(query_name: &str) -> NodeSchema {
    NodeSchema {
        query_name: query_name.as_bytes().to_vec(),
        fields: Vec::new(),
        permits_zero_width: false,
        is_reference: false,
        is_check: false,
        is_scope: false,
        comment: None,
        document_symbol: None,
        semantic_token: None,
        hover: None,
        inlay_hint: None,
        code_lens: None,
        completion: None,
        go_to_declaration: None,
    }
}

/// A root scope type holding references and plain items.
fn ref_schema() -> Schema {
    let mut root = bare_type("root");
    root.is_scope = true;
    root.permits_zero_width = true;
    root.fields = vec![FieldSchema { kind: FieldKind::Many, types: vec![1, 2] }];
    let mut reference = bare_type("ref");
    reference.is_reference = true;
    let item = bare_type("item");
    Schema::compile(vec![root, reference, item]).unwrap()
}

fn names() -> Vec<Vec<u8>> {
    vec![b"root".to_vec(), b"ref".to_vec(), b"item".to_vec()]
}

#[test]
fn schema_rejects_duplicate_query_names() {
    let a = bare_type("same");
    let b = bare_type("same");
    assert_eq!(Schema::compile(vec![a, b]).unwrap_err(), SchemaError::DuplicateQueryName);
}

#[test]
fn schema_rejects_unknown_child_type() {
    let mut a = bare_type("a");
    a.fields = vec![FieldSchema { kind: FieldKind::Many, types: vec![7] }];
    assert_eq!(Schema::compile(vec![a]).unwrap_err(), SchemaError::UnknownChildType);
}

#[test]
fn schema_rejects_overlapping_fields() {
    let mut a = bare_type("a");
    a.fields = vec![
        FieldSchema { kind: FieldKind::Many, types: vec![1] },
        FieldSchema { kind: FieldKind::Optional, types: vec![1] },
    ];
    let b = bare_type("b");
    assert_eq!(Schema::compile(vec![a, b]).unwrap_err(), SchemaError::OverlappingFields);
}

#[test]
fn schema_rejects_unknown_field_path() {
    let mut a = bare_type("a");
    a.document_symbol = Some(auto_lsp::schema::DocumentSymbolFeature { name_field: 3, kind: 1 });
    assert_eq!(Schema::compile(vec![a]).unwrap_err(), SchemaError::UnknownFieldPath);
}

#[test]
fn zero_width_capture_needs_permission() {
    let schema = ref_schema();
    // a zero-width "item" inside the root is refused: items forbid zero width
    let raw = vec![
        RawCapture { capture_ix: 0, start: 0, end: 8 },
        RawCapture { capture_ix: 2, start: 3, end: 3 },
    ];
    let b = MainBuilder::build(&schema, &names(), &raw, 8);
    assert_eq!(b.ast.nodes.len(), 1);
    assert!(b.diagnostics.iter().any(|d| d.kind == DiagnosticKind::ZeroWidthForbidden));
    // the root itself permits zero width
    let raw2 = vec![RawCapture { capture_ix: 0, start: 0, end: 0 }];
    let b2 = MainBuilder::build(&schema, &names(), &raw2, 8);
    assert_eq!(b2.ast.nodes.len(), 1);
    assert!(b2.diagnostics.is_empty());
}

#[test]
fn missing_single_field_reports_and_drops() {
    let mut root = bare_type("root");
    root.fields = vec![FieldSchema { kind: FieldKind::Single, types: vec![1] }];
    let child = bare_type("child");
    let schema = Schema::compile(vec![root, child]).unwrap();
    let nm = vec![b"root".to_vec(), b"child".to_vec()];
    let raw = vec![RawCapture { capture_ix: 0, start: 0, end: 8 }];
    let b = MainBuilder::build(&schema, &nm, &raw, 8);
    assert!(b.ast.root.is_none());
    assert!(b.diagnostics.iter().any(|d| d.kind == DiagnosticKind::MissingField));
}

#[test]
fn unknown_capture_name_reports() {
    let schema = ref_schema();
    let raw = vec![
        RawCapture { capture_ix: 0, start: 0, end: 8 },
        RawCapture { capture_ix: 9, start: 1, end: 2 },
    ];
    let b = MainBuilder::build(&schema, &names(), &raw, 8);
    assert!(b.diagnostics.iter().any(|d| d.kind == DiagnosticKind::UnknownCapture));
}

#[test]
fn capture_outside_root_reports_orphan() {
    let schema = ref_schema();
    let raw = vec![
        RawCapture { capture_ix: 0, start: 0, end: 4 },
        RawCapture { capture_ix: 2, start: 6, end: 8 },
    ];
    let b = MainBuilder::build(&schema, &names(), &raw, 10);
    assert!(b.diagnostics.iter().any(|d| d.kind == DiagnosticKind::OrphanCapture));
}

#[test]
fn invalid_range_reports() {
    let schema = ref_schema();
    let raw = vec![RawCapture { capture_ix: 0, start: 4, end: 2 }];
    let b = MainBuilder::build(&schema, &names(), &raw, 10);
    assert!(b.diagnostics.iter().any(|d| d.kind == DiagnosticKind::InvalidRange));
}

/// A reference whose spelling occurs only at itself stays unresolved.
#[test]
fn self_match_is_not_yet() {
    let schema = ref_schema();
    let text = b"abc".to_vec();
    let raw = vec![
        RawCapture { capture_ix: 0, start: 0, end: 3 },
        RawCapture { capture_ix: 1, start: 0, end: 3 },
    ];
    let mut b = MainBuilder::build(&schema, &names(), &raw, 3);
    assert_eq!(b.unsolved_references.len(), 1);
    b.resolve_references(&schema, &text);
    // never a self-resolution: the entry stays queued, target stays empty
    assert_eq!(b.unsolved_references.len(), 1);
    let r = b.unsolved_references[0];
    assert!(b.ast.nodes[r].target.is_none());
}

/// A reference to a same-spelled item elsewhere in the scope resolves, and
/// the target's referrers list the reference.
#[test]
fn reference_resolves_to_twin() {
    let schema = ref_schema();
    let text = b"abc abc".to_vec();
    let raw = vec![
        RawCapture { capture_ix: 0, start: 0, end: 7 },
        RawCapture { capture_ix: 1, start: 0, end: 3 },
        RawCapture { capture_ix: 2, start: 4, end: 7 },
    ];
    let mut b = MainBuilder::build(&schema, &names(), &raw, 7);
    b.resolve_references(&schema, &text);
    assert_eq!(b.unsolved_references.len(), 0);
    // find the reference node and its target
    let r = (0..b.ast.nodes.len())
        .find(|i| b.ast.nodes[*i].type_id == 1)
        .unwrap();
    let t = b.ast.nodes[r].target.unwrap();
    assert_eq!(b.ast.nodes[t].type_id, 2);
    assert!(b.ast.nodes[t].referrers.contains(&r));
}

/// Draining the references queue twice equals draining it once.
#[test]
fn reference_drain_idempotent() {
    let schema = ref_schema();
    let text = b"abc".to_vec();
    let raw = vec![
        RawCapture { capture_ix: 0, start: 0, end: 3 },
        RawCapture { capture_ix: 1, start: 0, end: 3 },
    ];
    let mut b = MainBuilder::build(&schema, &names(), &raw, 3);
    b.resolve_references(&schema, &text);
    let queue_once = b.unsolved_references.clone();
    let diags_once = b.diagnostics.clone();
    b.resolve_references(&schema, &text);
    assert_eq!(b.unsolved_references, queue_once);
    assert_eq!(b.diagnostics, diags_once);
}

/// Draining the checks queue twice equals draining it once.
#[test]
fn check_drain_idempotent() {
    let mut root = bare_type("root");
    root.fields = vec![FieldSchema { kind: FieldKind::Many, types: vec![1] }];
    let mut checked = bare_type("checked");
    checked.is_check = true;
    let schema = Schema::compile(vec![root, checked]).unwrap();
    let nm = vec![b"root".to_vec(), b"checked".to_vec()];
    let raw = vec![
        RawCapture { capture_ix: 0, start: 0, end: 9 },
        RawCapture { capture_ix: 1, start: 0, end: 3 },
        RawCapture { capture_ix: 1, start: 4, end: 7 },
    ];
    let mut b = MainBuilder::build(&schema, &nm, &raw, 9);
    assert_eq!(b.unsolved_checks.len(), 2);
    let outcomes = vec![CheckOutcome::Passed, CheckOutcome::Failed];
    b.resolve_checks(&outcomes);
    // the passed entry left; the failed one stays with its diagnostic
    assert_eq!(b.unsolved_checks.len(), 1);
    assert_eq!(b.diagnostics.len(), 1);
    assert_eq!(b.diagnostics[0].kind, DiagnosticKind::CheckFailed);
    let queue_once = b.unsolved_checks.clone();
    let diags_once = b.diagnostics.clone();
    b.resolve_checks(&vec![CheckOutcome::Failed]);
    assert_eq!(b.unsolved_checks, queue_once);
    assert_eq!(b.diagnostics, diags_once);
}

/// A resolved reference's definition is its target's range.
#[test]
fn go_to_definition_follows_target() {
    let schema = ref_schema();
    let text = b"abc abc".to_vec();
    let raw = vec![
        RawCapture { capture_ix: 0, start: 0, end: 7 },
        RawCapture { capture_ix: 1, start: 0, end: 3 },
        RawCapture { capture_ix: 2, start: 4, end: 7 },
    ];
    let mut b = MainBuilder::build(&schema, &names(), &raw, 7);
    assert!(b.go_to_definition(1).is_none());
    b.resolve_references(&schema, &text);
    let (t, rg) = b.go_to_definition(1).unwrap();
    assert_eq!(b.ast.nodes[t].type_id, 2);
    assert_eq!(rg, ByteRange { start: 4, end: 7 });
}

#[test]
fn completion_offers_matching_symbols() {
    let mut root = bare_type("root");
    root.permits_zero_width = true;
    root.fields = vec![FieldSchema { kind: FieldKind::Many, types: vec![1] }];
    let mut ident = bare_type("ident");
    ident.completion = Some(auto_lsp::schema::CompletionItemFeature { kind: 6, label_field: None });
    let schema = Schema::compile(vec![root, ident]).unwrap();
    let nm = vec![b"root".to_vec(), b"ident".to_vec()];
    let text = b"abc abd xyz".to_vec();
    let raw = vec![
        RawCapture { capture_ix: 0, start: 0, end: 11 },
        RawCapture { capture_ix: 1, start: 0, end: 3 },
        RawCapture { capture_ix: 1, start: 4, end: 7 },
        RawCapture { capture_ix: 1, start: 8, end: 11 },
    ];
    let b = MainBuilder::build(&schema, &nm, &raw, 11);
    // the word at offset 1 is "abc": only "abc" starts with it
    let items = b.get_completion_items(&schema, &text, 1);
    assert_eq!(items.len(), 1);
    assert_eq!(items[0].label, b"abc".to_vec());
    assert_eq!(items[0].kind, 6);
}

/// A completion-capable reference offers its resolved target's proposal.
#[test]
fn completion_forwards_through_reference() {
    let mut root = bare_type("root");
    root.is_scope = true;
    root.fields = vec![FieldSchema { kind: FieldKind::Many, types: vec![1, 2] }];
    let mut reference = bare_type("ref");
    reference.is_reference = true;
    reference.completion = Some(auto_lsp::schema::CompletionItemFeature {
        kind: 18,
        label_field: None,
    });
    let mut item = bare_type("item");
    item.completion = Some(auto_lsp::schema::CompletionItemFeature {
        kind: 6,
        label_field: None,
    });
    let schema = Schema::compile(vec![root, reference, item]).unwrap();
    let nm = vec![b"root".to_vec(), b"ref".to_vec(), b"item".to_vec()];
    let text = b"abc abc".to_vec();
    let raw = vec![
        RawCapture { capture_ix: 0, start: 0, end: 7 },
        RawCapture { capture_ix: 1, start: 0, end: 3 },
        RawCapture { capture_ix: 2, start: 4, end: 7 },
    ];
    let mut b = MainBuilder::build(&schema, &nm, &raw, 7);
    // unresolved: the reference offers nothing, the item offers itself
    let before = b.get_completion_items(&schema, &text, 5);
    assert_eq!(before.len(), 1);
    assert_eq!(before[0].kind, 6);
    b.resolve_references(&schema, &text);
    // resolved: the reference forwards to the item's proposal
    let after = b.get_completion_items(&schema, &text, 1);
    assert!(after.iter().any(|c| c.kind == 6 && c.label == b"abc".to_vec()));
}

#[test]
fn delta_encoding_is_exact() {
    let abs = vec![
        AbsToken { line: 1, character: 4, length: 3, token_type: 0 },
        AbsToken { line: 1, character: 9, length: 2, token_type: 1 },
        AbsToken { line: 4, character: 4, length: 3, token_type: 0 },
    ];
    let toks = encode_tokens(&abs);
    assert_eq!(toks.len(), 3);
    assert_eq!((toks[0].delta_line, toks[0].delta_start, toks[0].length), (1, 4, 3));
    assert_eq!((toks[1].delta_line, toks[1].delta_start, toks[1].length), (0, 5, 2));
    assert_eq!((toks[2].delta_line, toks[2].delta_start, toks[2].length), (3, 4, 3));
}

#[test]
fn line_index_round_trip() {
    let text = b"ab\ncd\n\nef".to_vec();
    let starts = auto_lsp::position::build_line_starts(&text);
    assert_eq!(starts, vec![0, 3, 6, 7]);
    let p = auto_lsp::position::position_at(&starts, 4);
    assert_eq!((p.line, p.character), (1, 1));
    let off = auto_lsp::position::offset_at(&starts, text.len(), p).unwrap();
    assert_eq!(off, 4);
    assert!(auto_lsp::position::offset_at(
        &starts,
        text.len(),
        auto_lsp::position::Position { line: 9, character: 0 }
    )
    .is_none());
}

#[test]
fn splice_text_replaces_span() {
    let mut text = b"hello world".to_vec();
    let ok = auto_lsp::text::splice_text(&mut text, 6, 11, &b"there".to_vec());
    assert!(ok);
    assert_eq!(text, b"hello there".to_vec());
    let bad = auto_lsp::text::splice_text(&mut text, 9, 4, &b"x".to_vec());
    assert!(!bad);
    assert_eq!(text, b"hello there".to_vec());
}

#[test]
fn diagnostics_do_not_repeat() {
    let mut diags = Vec::new();
    let d = auto_lsp::diag::Diagnostic::error(
        ByteRange { start: 1, end: 2 },
        DiagnosticKind::CheckFailed,
    );
    auto_lsp::diag::push_diag(&mut diags, d);
    auto_lsp::diag::push_diag(&mut diags, d);
    assert_eq!(diags.len(), 1);
}

#[test]
fn find_at_offset_returns_deepest() {
    let schema = ref_schema();
    let raw = vec![
        RawCapture { capture_ix: 0, start: 0, end: 10 },
        RawCapture { capture_ix: 2, start: 2, end: 5 },
        RawCapture { capture_ix: 2, start: 6, end: 9 },
    ];
    let b = MainBuilder::build(&schema, &names(), &raw, 10);
    let s = b.ast.find_at_offset(3).unwrap();
    assert_eq!(b.ast.nodes[s].range, ByteRange { start: 2, end: 5 });
    let s2 = b.ast.find_at_offset(5).unwrap();
    assert_eq!(b.ast.nodes[s2].range, ByteRange { start: 0, end: 10 });
    assert!(b.ast.find_at_offset(10).is_none());
}
