//! Pure helpers over the parsed tree: exact source slices, subtree search for
//! an identifier, and subtree collection of nodes of a given kind.

use vstd::prelude::*;

use crate::ast::Ast;
use crate::ast::AstKind;
use crate::ast::ast_links_wf;
use crate::ast::ast_spans_wf;
use crate::ast::node_text;

verus! {

/// Equality of two byte-strings.
pub fn bytes_eq(a: &Vec<u8>, b: &Vec<u8>) -> (r: bool)
    ensures
        r == (a@ == b@),
{
    if a.len() != b.len() {
        return false;
    }
    let mut j: usize = 0;
    while j < a.len()
        invariant
            a@.len() == b@.len(),
            j <= a@.len(),
            forall|k: int| 0 <= k < j ==> a@[k] == b@[k],
        decreases a@.len() - j,
    {
        if a[j] != b[j] {
            return false;
        }
        j = j + 1;
    }
    proof {
        assert(a@ =~= b@);
    }
    true
}

/// A fresh copy of a byte-string.
pub fn clone_bytes(a: &Vec<u8>) -> (r: Vec<u8>)
    ensures
        r@ == a@,
{
    let mut r: Vec<u8> = Vec::new();
    let mut j: usize = 0;
    while j < a.len()
        invariant
            j <= a@.len(),
            r@ == a@.subrange(0, j as int),
        decreases a@.len() - j,
    {
        r.push(a[j]);
        j = j + 1;
        proof {
            assert(r@ =~= a@.subrange(0, j as int));
        }
    }
    proof {
        assert(a@.subrange(0, a@.len() as int) =~= a@);
    }
    r
}

/// The exact source-text slice for node `i` of the tree.
pub fn get_code_for_node(ast: &Ast, i: usize, code: &Vec<u8>) -> (r: Vec<u8>)
    requires
        ast_spans_wf(*ast, code@.len()),
        i < ast.nodes@.len(),
    ensures
        r@ == node_text(*ast, code@, i as int),
{
    let s = ast.nodes[i].start_byte;
    let e = ast.nodes[i].end_byte;
    let mut r: Vec<u8> = Vec::new();
    let mut j: usize = s;
    while j < e
        invariant
            s <= j <= e,
            e <= code@.len(),
            r@ == code@.subrange(s as int, j as int),
        decreases e - j,
    {
        r.push(code[j]);
        j = j + 1;
        proof {
            assert(r@ =~= code@.subrange(s as int, j as int));
        }
    }
    r
}

/// The subtree rooted at `i` holds an identifier node whose source text is
/// exactly `name`. An identifier node is taken as it stands; any other node
/// is searched through its named children.
pub open spec fn contains_id_spec(ast: Ast, code: Seq<u8>, name: Seq<u8>, i: int) -> bool
    decreases ast.nodes@.len() - i, ast.nodes@[i].children@.len() + 1,
{
    if !(0 <= i < ast.nodes@.len()) {
        false
    } else if ast.nodes@[i].kind == AstKind::Identifier {
        node_text(ast, code, i) == name
    } else {
        contains_id_from(ast, code, name, i, 0)
    }
}

/// Some named child of `i` at position `k` or later contains the identifier.
pub open spec fn contains_id_from(ast: Ast, code: Seq<u8>, name: Seq<u8>, i: int, k: int) -> bool
    decreases ast.nodes@.len() - i, ast.nodes@[i].children@.len() - k,
{
    if !(0 <= i < ast.nodes@.len()) || !(0 <= k < ast.nodes@[i].children@.len()) {
        false
    } else {
        let c = ast.nodes@[i].children@[k];
        (i < c < ast.nodes@.len() && ast.nodes@[c as int].is_named && contains_id_spec(
            ast,
            code,
            name,
            c as int,
        )) || contains_id_from(ast, code, name, i, k + 1)
    }
}

/// Whether the subtree rooted at node `i` (node inclusive) holds an
/// identifier whose source text equals `name`.
pub fn contains_identifier(ast: &Ast, i: usize, name: &Vec<u8>, code: &Vec<u8>) -> (r: bool)
    requires
        ast_links_wf(*ast),
        ast_spans_wf(*ast, code@.len()),
        i < ast.nodes@.len(),
    ensures
        r == contains_id_spec(*ast, code@, name@, i as int),
    decreases ast.nodes@.len() - i,
{
    if ast.nodes[i].kind == AstKind::Identifier {
        let t = get_code_for_node(ast, i, code);
        return bytes_eq(&t, name);
    }
    let n_children = ast.nodes[i].children.len();
    let mut k: usize = 0;
    while k < n_children
        invariant
            ast_links_wf(*ast),
            ast_spans_wf(*ast, code@.len()),
            i < ast.nodes@.len(),
            ast.nodes@[i as int].kind != AstKind::Identifier,
            n_children == ast.nodes@[i as int].children@.len(),
            k <= n_children,
            contains_id_from(*ast, code@, name@, i as int, 0) == contains_id_from(
                *ast,
                code@,
                name@,
                i as int,
                k as int,
            ),
        decreases n_children - k,
    {
        let c = ast.nodes[i].children[k];
        if ast.nodes[c].is_named {
            let r = contains_identifier(ast, c, name, code);
            if r {
                return true;
            }
        }
        k = k + 1;
    }
    false
}

/// The pre-order sequence of nodes of kind `kd` in the subtree rooted at `i`
/// (node inclusive), descending through named children only.
pub open spec fn kind_nodes(ast: Ast, i: int, kd: AstKind) -> Seq<usize>
    decreases ast.nodes@.len() - i, ast.nodes@[i].children@.len() + 1,
{
    if !(0 <= i < ast.nodes@.len()) {
        Seq::empty()
    } else {
        let own = if ast.nodes@[i].kind == kd {
            seq![i as usize]
        } else {
            Seq::<usize>::empty()
        };
        own + kind_nodes_from(ast, i, kd, 0)
    }
}

/// Concatenated kind collections of the named children of `i` from position
/// `k` on.
pub open spec fn kind_nodes_from(ast: Ast, i: int, kd: AstKind, k: int) -> Seq<usize>
    decreases ast.nodes@.len() - i, ast.nodes@[i].children@.len() - k,
{
    if !(0 <= i < ast.nodes@.len()) || !(0 <= k < ast.nodes@[i].children@.len()) {
        Seq::empty()
    } else {
        let c = ast.nodes@[i].children@[k];
        let sub = if i < c < ast.nodes@.len() && ast.nodes@[c as int].is_named {
            kind_nodes(ast, c as int, kd)
        } else {
            Seq::<usize>::empty()
        };
        sub + kind_nodes_from(ast, i, kd, k + 1)
    }
}

fn get_nodes_of_type_rec(ast: &Ast, i: usize, kd: AstKind, acc: &mut Vec<usize>)
    requires
        ast_links_wf(*ast),
        i < ast.nodes@.len(),
    ensures
        final(acc)@ == old(acc)@ + kind_nodes(*ast, i as int, kd),
        forall|j: int|
            old(acc)@.len() <= j < final(acc)@.len() ==> i <= #[trigger] final(acc)@[j]
                < ast.nodes@.len() && ast.nodes@[final(acc)@[j] as int].kind == kd,
    decreases ast.nodes@.len() - i,
{
    if ast.nodes[i].kind == kd {
        acc.push(i);
    }
    let ghost own: Seq<usize> = if ast.nodes@[i as int].kind == kd {
        seq![i as usize]
    } else {
        Seq::<usize>::empty()
    };
    let n_children = ast.nodes[i].children.len();
    let mut k: usize = 0;
    while k < n_children
        invariant
            ast_links_wf(*ast),
            i < ast.nodes@.len(),
            n_children == ast.nodes@[i as int].children@.len(),
            k <= n_children,
            acc@ + kind_nodes_from(*ast, i as int, kd, k as int) == old(acc)@ + kind_nodes(
                *ast,
                i as int,
                kd,
            ),
            old(acc)@.len() <= acc@.len(),
            forall|j: int| 0 <= j < old(acc)@.len() ==> acc@[j] == old(acc)@[j],
            forall|j: int|
                old(acc)@.len() <= j < acc@.len() ==> i <= #[trigger] acc@[j] < ast.nodes@.len()
                    && ast.nodes@[acc@[j] as int].kind == kd,
        decreases n_children - k,
    {
        let c = ast.nodes[i].children[k];
        let ghost acc_before = acc@;
        if ast.nodes[c].is_named {
            get_nodes_of_type_rec(ast, c, kd, acc);
            proof {
                assert(acc@ + kind_nodes_from(*ast, i as int, kd, k as int + 1) =~= (acc_before
                    + kind_nodes(*ast, c as int, kd)) + kind_nodes_from(
                    *ast,
                    i as int,
                    kd,
                    k as int + 1,
                ));
                assert((acc_before + kind_nodes(*ast, c as int, kd)) + kind_nodes_from(
                    *ast,
                    i as int,
                    kd,
                    k as int + 1,
                ) =~= acc_before + (kind_nodes(*ast, c as int, kd) + kind_nodes_from(
                    *ast,
                    i as int,
                    kd,
                    k as int + 1,
                )));
                assert(kind_nodes(*ast, c as int, kd) + kind_nodes_from(*ast, i as int, kd, k as int + 1)
                    =~= kind_nodes_from(*ast, i as int, kd, k as int));
            }
        } else {
            proof {
                assert(kind_nodes_from(*ast, i as int, kd, k as int) =~= kind_nodes_from(
                    *ast,
                    i as int,
                    kd,
                    k as int + 1,
                ));
            }
        }
        k = k + 1;
    }
    proof {
        assert(kind_nodes_from(*ast, i as int, kd, n_children as int) =~= Seq::<usize>::empty());
        assert(acc@ =~= acc@ + Seq::<usize>::empty());
    }
}

/// All nodes of kind `kd` in the subtree rooted at `i` (node inclusive), in
/// pre-order.
pub fn get_nodes_of_type(ast: &Ast, i: usize, kd: AstKind) -> (r: Vec<usize>)
    requires
        ast_links_wf(*ast),
        i < ast.nodes@.len(),
    ensures
        r@ == kind_nodes(*ast, i as int, kd),
        forall|j: int|
            0 <= j < r@.len() ==> i <= #[trigger] r@[j] < ast.nodes@.len() && ast.nodes@[r@[j] as int].kind
                == kd,
{
    let mut r: Vec<usize> = Vec::new();
    get_nodes_of_type_rec(ast, i, kd, &mut r);
    proof {
        assert(Seq::<usize>::empty() + kind_nodes(*ast, i as int, kd) =~= kind_nodes(
            *ast,
            i as int,
            kd,
        ));
    }
    r
}

} // verus!
