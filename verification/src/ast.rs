//! The library's own model of a parsed syntax tree.
//!
//! A tree is stored as an arena of nodes in pre-order: every child index is
//! strictly greater than the index of its parent. Each node carries its kind,
//! its named/anonymous status, the field it occupies in its parent (if any),
//! and the byte span of its source text. The walker reads nothing else of a
//! parse tree, so a caller converts whatever its parser produced into this
//! shape once, up front.

use vstd::prelude::*;

verus! {

/// The grammar kinds the walker dispatches on, written for a C-family
/// (Java-like) grammar. Every other kind is `Other`: such nodes are traversed
/// generically and never decomposed.
#[derive(Clone, Copy, PartialEq, Eq, Structural, Debug)]
pub enum AstKind {
    Identifier,
    MethodInvocation,
    ObjectCreationExpression,
    BinaryExpression,
    AssignmentExpression,
    LocalVariableDeclaration,
    MethodDeclaration,
    ClassDeclaration,
    ClassBody,
    FormalParameter,
    Other,
}

/// The named fields of a parent node that the walker looks up.
#[derive(Clone, Copy, PartialEq, Eq, Structural, Debug)]
pub enum AstField {
    NameField,
    LeftField,
    RightField,
    ValueField,
    DeclaratorField,
    ObjectField,
    ArgumentsField,
    ParametersField,
    BodyField,
}

/// One node of the parsed tree. `children` holds arena indices, each strictly
/// greater than this node's own index.
pub struct AstNode {
    pub kind: AstKind,
    pub is_named: bool,
    pub field: Option<AstField>,
    pub start_byte: usize,
    pub end_byte: usize,
    pub children: Vec<usize>,
}

/// A parsed tree as a pre-order arena. When non-empty, index 0 is the root.
pub struct Ast {
    pub nodes: Vec<AstNode>,
}

/// Child indices point strictly forward: the arena is acyclic and traversals
/// terminate.
pub open spec fn ast_links_wf(ast: Ast) -> bool {
    forall|i: int| 0 <= i < ast.nodes@.len() ==> {
        let n = #[trigger] ast.nodes@[i];
        forall|k: int|
            0 <= k < n.children@.len() ==> i < #[trigger] n.children@[k] < ast.nodes@.len()
    }
}

/// Every node's byte span is ordered and lies within source text of length
/// `code_len`.
pub open spec fn ast_spans_wf(ast: Ast, code_len: nat) -> bool {
    forall|i: int| 0 <= i < ast.nodes@.len() ==> {
        let n = #[trigger] ast.nodes@[i];
        n.start_byte <= n.end_byte && n.end_byte <= code_len
    }
}

/// Well-formedness of a tree against source text of length `code_len`.
pub open spec fn ast_wf(ast: Ast, code_len: nat) -> bool {
    ast_links_wf(ast) && ast_spans_wf(ast, code_len)
}

/// The exact source-text slice for node `i`.
pub open spec fn node_text(ast: Ast, code: Seq<u8>, i: int) -> Seq<u8> {
    code.subrange(ast.nodes@[i].start_byte as int, ast.nodes@[i].end_byte as int)
}

/// First child of `i` (searching from child position `k` on) occupying field
/// `f`; indices outside the forward range are skipped, so the search is total.
pub open spec fn child_by_field_from(ast: Ast, i: int, f: AstField, k: int) -> Option<usize>
    decreases ast.nodes@[i].children@.len() - k,
{
    if !(0 <= i < ast.nodes@.len()) || !(0 <= k < ast.nodes@[i].children@.len()) {
        None
    } else {
        let c = ast.nodes@[i].children@[k];
        if i < c < ast.nodes@.len() && ast.nodes@[c as int].field == Some(f) {
            Some(c)
        } else {
            child_by_field_from(ast, i, f, k + 1)
        }
    }
}

/// First child of node `i` occupying field `f`, if any.
pub open spec fn child_by_field_spec(ast: Ast, i: int, f: AstField) -> Option<usize> {
    child_by_field_from(ast, i, f, 0)
}

impl Ast {
    /// Looks up the first child of node `i` that occupies field `f`, the way a
    /// grammar's named-field accessor does.
    pub fn child_by_field(&self, i: usize, f: AstField) -> (r: Option<usize>)
        requires
            ast_links_wf(*self),
            i < self.nodes@.len(),
        ensures
            r == child_by_field_spec(*self, i as int, f),
            r is Some ==> i < r.unwrap() < self.nodes@.len(),
    {
        let n_children = self.nodes[i].children.len();
        let mut k: usize = 0;
        while k < n_children
            invariant
                ast_links_wf(*self),
                i < self.nodes@.len(),
                n_children == self.nodes@[i as int].children@.len(),
                k <= n_children,
                child_by_field_from(*self, i as int, f, 0) == child_by_field_from(
                    *self,
                    i as int,
                    f,
                    k as int,
                ),
            decreases n_children - k,
        {
            let c = self.nodes[i].children[k];
            let matches_field = match self.nodes[c].field {
                Some(ff) => ff == f,
                None => false,
            };
            if matches_field {
                return Some(c);
            }
            k = k + 1;
        }
        None
    }
}

} // verus!
