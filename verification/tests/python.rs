//! End-to-end tests on a small Python grammar: a module of functions, each
//! with a name, plus comments.

use auto_lsp::capabilities::DocumentSymbol;
use auto_lsp::position::Position;
use auto_lsp::range::ByteRange;
use auto_lsp::schema::{
    CodeLensFeature, CommentFeature, DocumentSymbolFeature, FieldKind, FieldSchema, HoverFeature,
    InlayHintFeature, NodeSchema, SemanticTokenFeature,
};
use auto_lsp::workspace::Workspace;

static CORE_QUERY: &str = "
(module) @module

(function_definition
  name: (identifier) @function.name) @function
";

static COMMENT_QUERY: &str = "
(comment) @comment
";

static SOURCE: &str = "# This is a comment
def foo():
    pass

def bar():
    pass
";

const SYMBOL_KIND_FUNCTION: u32 = 12;
const TOKEN_TYPE_FUNCTION: u32 = 0;
const HINT_KIND_TYPE: u32 = 1;

fn bare_type(query_name: &str) -> NodeSchema {
    NodeSchema {
        query_name: query_name.as_bytes().to_vec(),
        fields: Vec::new(),
        permits_zero_width: false,
        is_reference: false,
        is_check: false,
        is_scope: false,
        comment: None,
        document_symbol: None,
        semantic_token: None,
        hover: None,
        inlay_hint: None,
        code_lens: None,
        completion: None,
        go_to_declaration: None,
    }
}

/// The schema of the toy Python AST: a module holding functions, each with a
/// mandatory name.
fn python_types() -> Vec<NodeSchema> {
    let mut module = bare_type("module");
    module.permits_zero_width = true;
    module.fields = vec![FieldSchema { kind: FieldKind::Many, types: vec![1] }];

    let mut function = bare_type("function");
    function.fields = vec![FieldSchema { kind: FieldKind::Single, types: vec![2] }];
    function.comment = Some(CommentFeature {});
    function.document_symbol = Some(DocumentSymbolFeature {
        name_field: 0,
        kind: SYMBOL_KIND_FUNCTION,
    });
    function.semantic_token = Some(SemanticTokenFeature {
        range_field: Some(0),
        token_type: TOKEN_TYPE_FUNCTION,
    });
    function.inlay_hint = Some(InlayHintFeature { label_field: Some(0), kind: HINT_KIND_TYPE });
    function.code_lens = Some(CodeLensFeature { range_field: Some(0) });

    let mut name = bare_type("function.name");
    name.hover = Some(HoverFeature { prefix: b"hover ".to_vec() });

    vec![module, function, name]
}

fn create_python_workspace(source_code: &str) -> Workspace {
    let language: tree_sitter::Language = tree_sitter_python::LANGUAGE.into();
    Workspace::create(
        &language,
        CORE_QUERY,
        Some(COMMENT_QUERY),
        python_types(),
        source_code.as_bytes().to_vec(),
    )
    .unwrap()
}

#[test]
fn check_ast() {
    let workspace = create_python_workspace(SOURCE);
    let ast = &workspace.builder.ast;

    // Root node should be module
    let root = ast.root.unwrap();
    assert_eq!(ast.nodes[root].type_id, 0);

    // Both bar and foo should be found
    assert_eq!(ast.field_count(root), 1);
    let functions = ast.children_of(root, 0);
    assert_eq!(functions.len(), 2);

    let foo = functions[0];
    let foo_name = ast.children_of(foo, 0)[0];
    assert_eq!(ast.get_text(foo_name, &workspace.text).unwrap(), b"foo".to_vec());

    let bar = functions[1];
    let bar_name = ast.children_of(bar, 0)[0];
    assert_eq!(ast.get_text(bar_name, &workspace.text).unwrap(), b"bar".to_vec());

    // Checks if bar's parent is module (through the function node)
    let parent = ast.get_parent(bar_name);
    assert!(parent.is_some());
    assert_eq!(ast.get_type(parent.unwrap()), 1);
    assert_eq!(ast.get_parent(bar), Some(root));
}

#[test]
fn check_comment() {
    let workspace = create_python_workspace(SOURCE);
    let ast = &workspace.builder.ast;

    let root = ast.root.unwrap();
    assert_eq!(ast.nodes[root].type_id, 0);

    let functions = ast.children_of(root, 0);
    let foo = functions[0];
    let c = ast.get_comment_range(foo).unwrap();
    assert_eq!(
        workspace.text[c.start..c.end].to_vec(),
        b"# This is a comment".to_vec()
    );
    let bar = functions[1];
    assert!(ast.get_comment_range(bar).is_none());
}

#[test]
fn check_document_symbols() {
    let workspace = create_python_workspace(SOURCE);
    let symbols: Vec<DocumentSymbol> = workspace.get_document_symbols();

    // Symbols should be a list of two entries (foo and bar)
    assert_eq!(symbols.len(), 2);

    assert_eq!(symbols[0].kind, SYMBOL_KIND_FUNCTION);
    assert_eq!(symbols[0].name, b"foo".to_vec());

    assert_eq!(symbols[1].kind, SYMBOL_KIND_FUNCTION);
    assert_eq!(symbols[1].name, b"bar".to_vec());

    // the selected range is the name, the full range the definition
    let s0 = auto_lsp::position::position_at(&workspace.line_starts, symbols[0].selection_range.start);
    assert_eq!((s0.line, s0.character), (1, 4));
    assert!(symbols[0].range.start < symbols[0].selection_range.start);
}

#[test]
fn check_semantic_tokens() {
    let workspace = create_python_workspace(SOURCE);
    let tokens = workspace.get_semantic_tokens_full();

    assert_eq!(tokens.len(), 2);

    assert_eq!(tokens[0].token_type, TOKEN_TYPE_FUNCTION);
    // foo is at line 1
    assert_eq!(tokens[0].delta_line, 1);
    // char 4
    assert_eq!(tokens[0].delta_start, 4);
    assert_eq!(tokens[0].length, 3);

    assert_eq!(tokens[1].token_type, TOKEN_TYPE_FUNCTION);
    // bar is at line 3 (delta from foo's line)
    assert_eq!(tokens[1].delta_line, 3);
    // char 4
    assert_eq!(tokens[1].delta_start, 4);
    assert_eq!(tokens[1].length, 3);
}

#[test]
fn check_hover() {
    let workspace = create_python_workspace(SOURCE);

    let foo_hover = workspace.get_hover(Position { line: 1, character: 4 }).unwrap();
    assert_eq!(foo_hover.value, b"hover foo".to_vec());

    let bar_hover = workspace.get_hover(Position { line: 4, character: 4 }).unwrap();
    assert_eq!(bar_hover.value, b"hover bar".to_vec());
}

#[test]
fn check_inlay_hints() {
    let workspace = create_python_workspace(SOURCE);
    let hints = workspace.build_inlay_hint();

    assert_eq!(hints.len(), 2);

    assert_eq!(hints[0].kind, HINT_KIND_TYPE);
    assert_eq!(hints[1].kind, HINT_KIND_TYPE);
    assert_eq!(hints[0].label, b"foo".to_vec());
    assert_eq!(hints[1].label, b"bar".to_vec());
    // each hint anchors at its function's name
    let p0 = auto_lsp::position::position_at(&workspace.line_starts, hints[0].offset);
    assert_eq!((p0.line, p0.character), (1, 4));
    let p1 = auto_lsp::position::position_at(&workspace.line_starts, hints[1].offset);
    assert_eq!((p1.line, p1.character), (4, 4));
}

#[test]
fn check_code_lens() {
    let workspace = create_python_workspace(SOURCE);
    let code_lens = workspace.build_code_lens();

    assert_eq!(code_lens.len(), 2);

    let p0 = auto_lsp::position::position_at(&workspace.line_starts, code_lens[0].range.start);
    let p0e = auto_lsp::position::position_at(&workspace.line_starts, code_lens[0].range.end);
    assert_eq!(p0.line, 1);
    assert_eq!(p0.character, 4);
    assert_eq!(p0e.line, 1);
    assert_eq!(p0e.character, 7);

    let p1 = auto_lsp::position::position_at(&workspace.line_starts, code_lens[1].range.start);
    let p1e = auto_lsp::position::position_at(&workspace.line_starts, code_lens[1].range.end);
    assert_eq!(p1.line, 4);
    assert_eq!(p1.character, 4);
    assert_eq!(p1e.line, 4);
    assert_eq!(p1e.character, 7);
}

/// The live structure of a workspace's AST: (type, start, end) of every live
/// symbol, in source order.
fn live_shape(w: &Workspace) -> Vec<(usize, usize, usize)> {
    let ast = &w.builder.ast;
    let mut out = Vec::new();
    for i in 0..ast.nodes.len() {
        if ast.nodes[i].live {
            out.push((ast.nodes[i].type_id, ast.nodes[i].range.start, ast.nodes[i].range.end));
        }
    }
    out.sort();
    out
}

#[test]
fn noop_edit_is_identity() {
    let mut workspace = create_python_workspace(SOURCE);
    let before = live_shape(&workspace);
    let n_before = workspace.builder.ast.nodes.len();
    workspace.swap_ast(&auto_lsp::update::TextEdit {
        start: 5,
        old_end: 5,
        new_end: 5,
        whitespace_only: false,
    });
    assert_eq!(workspace.builder.ast.nodes.len(), n_before);
    assert_eq!(live_shape(&workspace), before);
}

#[test]
fn incremental_edit_matches_scratch_build() {
    let mut incremental = create_python_workspace(SOURCE);
    // replace "bar" with "baz"
    let start = SOURCE.find("bar").unwrap();
    let ok = incremental.apply_edit(start, start + 3, &b"baz".to_vec());
    assert!(ok);
    let edited = SOURCE.replace("bar", "baz");
    let scratch = create_python_workspace(&edited);
    assert_eq!(live_shape(&incremental), live_shape(&scratch));
    // and the edited name reads back changed
    let ast = &incremental.builder.ast;
    let root = ast.root.unwrap();
    let functions = &ast.nodes[root].fields[0];
    assert_eq!(functions.len(), 2);
    let f1 = functions[1];
    let name1 = ast.nodes[f1].fields[0][0];
    assert_eq!(ast.get_text(name1, &incremental.text).unwrap(), b"baz".to_vec());
}

#[test]
fn swap_then_reparse_equivalent() {
    let mut swapped = create_python_workspace(SOURCE);
    let start = SOURCE.find("bar").unwrap();
    assert!(swapped.apply_edit(start, start + 3, &b"qux".to_vec()));
    let shape_after_swap = live_shape(&swapped);
    swapped.rebuild_ast();
    assert_eq!(live_shape(&swapped), shape_after_swap);
}

#[test]
fn empty_document_is_root_only_without_diagnostics() {
    let workspace = create_python_workspace("");
    assert!(workspace.builder.diagnostics.is_empty());
    let ast = &workspace.builder.ast;
    match ast.root {
        Some(r) => {
            assert_eq!(ast.nodes[r].type_id, 0);
            assert_eq!(ast.nodes[r].fields[0].len(), 0);
        },
        None => {
            assert_eq!(ast.nodes.len(), 0);
        },
    }
}

/// A whitespace-only edit shifts ranges and rebuilds nothing.
#[test]
fn whitespace_edit_shifts_ranges_only() {
    let mut workspace = create_python_workspace(SOURCE);
    let n_before = workspace.builder.ast.nodes.len();
    let shape_before = live_shape(&workspace);
    // insert a blank line before `def bar`
    let at = SOURCE.find("\ndef bar").unwrap() + 1;
    assert!(workspace.apply_edit(at, at, &b"\n".to_vec()));
    // no node was rebuilt or killed; ranges past the edit moved by one
    assert_eq!(workspace.builder.ast.nodes.len(), n_before);
    let shape_after = live_shape(&workspace);
    assert_eq!(shape_after.len(), shape_before.len());
    for (b, a) in shape_before.iter().zip(shape_after.iter()) {
        assert_eq!(b.0, a.0);
        if b.1 >= at {
            assert_eq!(a.1, b.1 + 1);
        } else {
            assert_eq!(a.1, b.1);
        }
    }
}

#[test]
fn selection_ranges_nest() {
    let workspace = create_python_workspace(SOURCE);
    let positions = vec![Position { line: 1, character: 5 }];
    let rs = workspace.get_selection_ranges(&positions);
    assert_eq!(rs.len(), 1);
    let chain = &rs[0].ranges;
    assert!(chain.len() >= 2);
    // innermost first, each range inside the next
    for i in 0..chain.len() - 1 {
        assert!(chain[i + 1].start <= chain[i].start);
        assert!(chain[i].end <= chain[i + 1].end);
    }
}

#[test]
fn semantic_tokens_range_filters() {
    let workspace = create_python_workspace(SOURCE);
    let start = SOURCE.find("bar").unwrap();
    let toks = workspace.get_semantic_tokens_range(ByteRange { start, end: start + 3 });
    assert_eq!(toks.len(), 1);
    assert_eq!(toks[0].length, 3);
}
