//! The declarative schema: one record per node type, kept as a runtime table.
//!
//! A schema declares, for each node type, the query capture that produces it,
//! the shape of its fields (single / optional / repeated, each with the set of
//! accepted child types), and the capability features the type opts into.
//! The table is validated once by [`Schema::compile`]; every later pass
//! requires a compiled (well-formed) schema.

use vstd::prelude::*;

verus! {

/// How many children a field holds.
#[derive(Clone, Copy, Debug, PartialEq, Eq, Structural)]
pub enum FieldKind {
    /// Exactly one child; lowering fails without it.
    Single,
    /// Zero or one child.
    Optional,
    /// Any number of children, kept in source order.
    Many,
}

/// One declared field: its arity and the node types it accepts.
/// More than one accepted type expresses a tagged-variant choice.
#[derive(Clone, Debug)]
pub struct FieldSchema {
    pub kind: FieldKind,
    pub types: Vec<usize>,
}

/// Opt-in: a preceding comment may attach to this node type.
#[derive(Clone, Copy, Debug)]
pub struct CommentFeature {}

/// Opt-in: go-to-declaration on this node forwards to its resolved target.
#[derive(Clone, Copy, Debug)]
pub struct GoToDeclarationFeature {}

/// Opt-in: the node appears in the document outline. `name_field` is the
/// field whose text names the entry; `kind` is the outline kind code.
#[derive(Clone, Copy, Debug)]
pub struct DocumentSymbolFeature {
    pub name_field: usize,
    pub kind: u32,
}

/// Opt-in: the node emits one semantic token. The token covers the named
/// field when `range_field` is set, the node's own range otherwise.
#[derive(Clone, Copy, Debug)]
pub struct SemanticTokenFeature {
    pub range_field: Option<usize>,
    pub token_type: u32,
}

/// Opt-in: hovering the node yields `prefix` followed by the node's text.
#[derive(Clone, Debug)]
pub struct HoverFeature {
    pub prefix: Vec<u8>,
}

/// Opt-in: the node emits one inlay hint labelled with the text of
/// `label_field` (the node's own text when `None`), tagged with `kind`.
#[derive(Clone, Copy, Debug)]
pub struct InlayHintFeature {
    pub label_field: Option<usize>,
    pub kind: u32,
}

/// Opt-in: the node emits one code lens anchored at the named field's range,
/// or at its own range when `range_field` is `None`.
#[derive(Clone, Copy, Debug)]
pub struct CodeLensFeature {
    pub range_field: Option<usize>,
}

/// Opt-in: the node proposes a completion item of kind `kind`, labelled
/// with the text of `label_field` (the node's own text when `None`).
#[derive(Clone, Copy, Debug)]
pub struct CompletionItemFeature {
    pub kind: u32,
    pub label_field: Option<usize>,
}

/// The full declaration of one node type.
#[derive(Clone, Debug)]
pub struct NodeSchema {
    /// The query capture name that produces this node type.
    pub query_name: Vec<u8>,
    pub fields: Vec<FieldSchema>,
    /// Whether a zero-width capture is acceptable for this type.
    pub permits_zero_width: bool,
    /// Reference types are enqueued for deferred reference resolution.
    pub is_reference: bool,
    /// Check types are enqueued for deferred semantic checks.
    pub is_check: bool,
    /// Scope types expose their own range as an identifier-lookup scope.
    pub is_scope: bool,
    pub comment: Option<CommentFeature>,
    pub document_symbol: Option<DocumentSymbolFeature>,
    pub semantic_token: Option<SemanticTokenFeature>,
    pub hover: Option<HoverFeature>,
    pub inlay_hint: Option<InlayHintFeature>,
    pub code_lens: Option<CodeLensFeature>,
    pub completion: Option<CompletionItemFeature>,
    pub go_to_declaration: Option<GoToDeclarationFeature>,
}

/// Why a schema was rejected at compile time.
#[derive(Clone, Copy, Debug, PartialEq, Eq, Structural)]
pub enum SchemaError {
    /// A field names a child type that is not in the table.
    UnknownChildType,
    /// Two fields of one node accept the same child type, so a capture for
    /// that type would be ambiguous.
    OverlappingFields,
    /// Two node types declare the same query capture name.
    DuplicateQueryName,
    /// A capability opt-in names a field the node does not have.
    UnknownFieldPath,
}

/// A validated schema table. Obtained only through [`Schema::compile`].
#[derive(Clone, Debug)]
pub struct Schema {
    pub types: Vec<NodeSchema>,
}

/// Does `f` hold a valid opt-in field index for a node with `n_fields` fields?
pub open spec fn feature_field_ok(f: Option<usize>, n_fields: nat) -> bool {
    match f {
        Some(i) => i < n_fields,
        None => true,
    }
}

/// Every field path a node's features mention exists on the node.
pub open spec fn node_features_ok(t: NodeSchema) -> bool {
    &&& match t.document_symbol {
        Some(d) => d.name_field < t.fields.len(),
        None => true,
    }
    &&& match t.semantic_token {
        Some(s) => feature_field_ok(s.range_field, t.fields.len() as nat),
        None => true,
    }
    &&& match t.inlay_hint {
        Some(h) => feature_field_ok(h.label_field, t.fields.len() as nat),
        None => true,
    }
    &&& match t.code_lens {
        Some(c) => feature_field_ok(c.range_field, t.fields.len() as nat),
        None => true,
    }
    &&& match t.completion {
        Some(c) => feature_field_ok(c.label_field, t.fields.len() as nat),
        None => true,
    }
}

/// All accepted child types of one node, as (field, position) pairs, are
/// in range and pairwise distinct.
pub open spec fn node_fields_ok(t: NodeSchema, n_types: nat) -> bool {
    &&& forall|f: int, k: int|
        0 <= f < t.fields.len() && 0 <= k < t.fields[f].types.len()
            ==> #[trigger] t.fields[f].types[k] < n_types
    &&& forall|f1: int, k1: int, f2: int, k2: int|
        0 <= f1 < t.fields.len() && 0 <= k1 < t.fields[f1].types.len()
            && 0 <= f2 < t.fields.len() && 0 <= k2 < t.fields[f2].types.len()
            && (f1 != f2 || k1 != k2)
            ==> #[trigger] t.fields[f1].types[k1] != #[trigger] t.fields[f2].types[k2]
}

/// The table is valid: child types exist, no node accepts one type in two
/// places, query names are pairwise distinct, feature paths exist.
pub open spec fn schema_valid(types: Seq<NodeSchema>) -> bool {
    &&& forall|t: int| 0 <= t < types.len() ==> node_fields_ok(#[trigger] types[t], types.len() as nat)
    &&& forall|t: int| 0 <= t < types.len() ==> node_features_ok(#[trigger] types[t])
    &&& forall|t1: int, t2: int|
        0 <= t1 < types.len() && 0 <= t2 < types.len() && t1 != t2
            ==> (#[trigger] types[t1].query_name)@ != (#[trigger] types[t2].query_name)@
}

impl Schema {
    /// A compiled schema is exactly a valid table.
    pub open spec fn wf(self) -> bool {
        schema_valid(self.types@)
    }

    pub open spec fn spec_len(self) -> nat {
        self.types@.len()
    }

    pub fn len(&self) -> (r: usize)
        ensures
            r == self.spec_len(),
    {
        self.types.len()
    }

    /// Validate a declared table. Returns the compiled schema exactly when
    /// the table is valid, and the first violation's error otherwise.
    pub fn compile(types: Vec<NodeSchema>) -> (r: Result<Schema, SchemaError>)
        ensures
            r is Ok <==> schema_valid(types@),
            r matches Ok(s) ==> s.types == types && s.wf(),
    {
        let n = types.len();
        let mut t: usize = 0;
        while t < n
            invariant
                n == types@.len(),
                t <= n,
                forall|i: int| 0 <= i < t ==> node_fields_ok(#[trigger] types@[i], n as nat),
                forall|i: int| 0 <= i < t ==> node_features_ok(#[trigger] types@[i]),
                forall|i: int, j: int| 0 <= i < j < t
                    ==> (#[trigger] types@[i].query_name)@ != (#[trigger] types@[j].query_name)@,
            decreases n - t,
        {
            match check_node(&types, t) {
                Ok(()) => {},
                Err(e) => {
                    return Err(e);
                },
            }
            let mut u: usize = 0;
            while u < t
                invariant
                    n == types@.len(),
                    t < n,
                    u <= t,
                    forall|j: int| 0 <= j < u
                        ==> (#[trigger] types@[j].query_name)@ != types@[t as int].query_name@,
                decreases t - u,
            {
                if crate::text::bytes_eq(&types[u].query_name, &types[t].query_name) {
                    return Err(SchemaError::DuplicateQueryName);
                }
                u += 1;
            }
            t += 1;
        }
        Ok(Schema { types })
    }

    /// The index of the node type whose query capture name is `name`.
    pub fn type_of_query_name(&self, name: &[u8]) -> (r: Option<usize>)
        ensures
            match r {
                Some(t) => t < self.spec_len() && self.types@[t as int].query_name@ == name@,
                None => forall|t: int|
                    0 <= t < self.spec_len() ==> (#[trigger] self.types@[t].query_name)@ != name@,
            },
    {
        let n = self.types.len();
        let mut t: usize = 0;
        while t < n
            invariant
                n == self.types@.len(),
                t <= n,
                forall|i: int| 0 <= i < t ==> (#[trigger] self.types@[i].query_name)@ != name@,
            decreases n - t,
        {
            if crate::text::bytes_eq_slice(self.types[t].query_name.as_slice(), name) {
                return Some(t);
            }
            t += 1;
        }
        None
    }
}

/// Is the type at index `t` a scope type? (`t` out of range counts as no.)
pub fn node_is_scope(schema: &Schema, t: usize) -> (r: bool)
    ensures
        r == (t < schema.spec_len() && schema.types@[t as int].is_scope),
{
    t < schema.types.len() && schema.types[t].is_scope
}

/// Validate one node's field declarations and feature paths against the table.
fn check_node(types: &Vec<NodeSchema>, t: usize) -> (r: Result<(), SchemaError>)
    requires
        t < types@.len(),
    ensures
        r is Ok <==> (node_fields_ok(types@[t as int], types@.len() as nat)
            && node_features_ok(types@[t as int])),
        r matches Err(e) ==> e != SchemaError::DuplicateQueryName,
{
    let node = &types[t];
    let nf = node.fields.len();
    let mut f: usize = 0;
    while f < nf
        invariant
            nf == node.fields@.len(),
            node == types@[t as int],
            f <= nf,
            forall|i: int, k: int| 0 <= i < f && 0 <= k < node.fields@[i].types@.len()
                ==> #[trigger] node.fields@[i].types@[k] < types@.len(),
            forall|f1: int, k1: int, f2: int, k2: int|
                0 <= f1 < f && 0 <= k1 < node.fields@[f1].types@.len()
                    && 0 <= f2 < f && 0 <= k2 < node.fields@[f2].types@.len()
                    && (f1 != f2 || k1 != k2)
                    ==> #[trigger] node.fields@[f1].types@[k1]
                        != #[trigger] node.fields@[f2].types@[k2],
        decreases nf - f,
    {
        let nk = node.fields[f].types.len();
        let mut k: usize = 0;
        while k < nk
            invariant
                nf == node.fields@.len(),
                node == types@[t as int],
                f < nf,
                nk == node.fields@[f as int].types@.len(),
                k <= nk,
                forall|i: int, kk: int| 0 <= i < f && 0 <= kk < node.fields@[i].types@.len()
                    ==> #[trigger] node.fields@[i].types@[kk] < types@.len(),
                forall|f1: int, k1: int, f2: int, k2: int|
                    0 <= f1 < f && 0 <= k1 < node.fields@[f1].types@.len()
                        && 0 <= f2 < f && 0 <= k2 < node.fields@[f2].types@.len()
                        && (f1 != f2 || k1 != k2)
                        ==> #[trigger] node.fields@[f1].types@[k1]
                            != #[trigger] node.fields@[f2].types@[k2],
                forall|kk: int| 0 <= kk < k
                    ==> #[trigger] node.fields@[f as int].types@[kk] < types@.len(),
                forall|i: int, k1: int, k2: int|
                    (0 <= i < f && 0 <= k1 < node.fields@[i].types@.len() && 0 <= k2 < k
                        ==> #[trigger] node.fields@[i].types@[k1]
                            != #[trigger] node.fields@[f as int].types@[k2]),
                forall|k1: int, k2: int| 0 <= k1 < k2 < k
                    ==> #[trigger] node.fields@[f as int].types@[k1]
                        != #[trigger] node.fields@[f as int].types@[k2],
        decreases nk - k,
        {
            let ty = node.fields[f].types[k];
            if ty >= types.len() {
                return Err(SchemaError::UnknownChildType);
            }
            // the same child type must not be accepted anywhere earlier
            let mut f2: usize = 0;
            while f2 <= f
                invariant
                    nf == node.fields@.len(),
                    node == types@[t as int],
                    f < nf,
                    nk == node.fields@[f as int].types@.len(),
                    k < nk,
                    f2 <= f + 1,
                    ty == node.fields@[f as int].types@[k as int],
                    forall|i: int, kk: int|
                        0 <= i < f2 && 0 <= kk < node.fields@[i].types@.len()
                            && (i < f || kk < k)
                            ==> #[trigger] node.fields@[i].types@[kk] != ty,
                decreases f + 1 - f2,
            {
                let lim = if f2 == f { k } else { node.fields[f2].types.len() };
                let mut k2: usize = 0;
                while k2 < lim
                    invariant
                        nf == node.fields@.len(),
                        node == types@[t as int],
                        f < nf,
                        nk == node.fields@[f as int].types@.len(),
                        k < nk,
                        f2 <= f,
                        lim <= node.fields@[f2 as int].types@.len(),
                        (f2 == f ==> lim == k),
                        (f2 < f ==> lim == node.fields@[f2 as int].types@.len()),
                        k2 <= lim,
                        ty == node.fields@[f as int].types@[k as int],
                        forall|kk: int| 0 <= kk < k2
                            ==> #[trigger] node.fields@[f2 as int].types@[kk] != ty,
                    decreases lim - k2,
                {
                    if node.fields[f2].types[k2] == ty {
                        return Err(SchemaError::OverlappingFields);
                    }
                    k2 += 1;
                }
                f2 += 1;
            }
            k += 1;
        }
        f += 1;
    }
    // feature field paths
    match &node.document_symbol {
        Some(d) => {
            if d.name_field >= nf {
                return Err(SchemaError::UnknownFieldPath);
            }
        },
        None => {},
    }
    match &node.semantic_token {
        Some(s) => match s.range_field {
            Some(i) => {
                if i >= nf {
                    return Err(SchemaError::UnknownFieldPath);
                }
            },
            None => {},
        },
        None => {},
    }
    match &node.inlay_hint {
        Some(h) => match h.label_field {
            Some(i) => {
                if i >= nf {
                    return Err(SchemaError::UnknownFieldPath);
                }
            },
            None => {},
        },
        None => {},
    }
    match &node.code_lens {
        Some(c) => match c.range_field {
            Some(i) => {
                if i >= nf {
                    return Err(SchemaError::UnknownFieldPath);
                }
            },
            None => {},
        },
        None => {},
    }
    match &node.completion {
        Some(c) => match c.label_field {
            Some(i) => {
                if i >= nf {
                    return Err(SchemaError::UnknownFieldPath);
                }
            },
            None => {},
        },
        None => {},
    }
    Ok(())
}

} // verus!
