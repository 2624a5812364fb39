//! The scope walker for a C-family (Java-like) grammar: recursive descent
//! over the parsed tree, creating containers for file, class and function
//! scopes, registering parameter and variable bindings, and inserting flow
//! edges for assignments, declarations and mutating calls.

use vstd::prelude::*;

use crate::ast::Ast;
use crate::ast::AstField;
use crate::ast::AstKind;
use crate::ast::ast_links_wf;
use crate::ast::ast_wf;
use crate::ast::child_by_field_spec;
use crate::ast::node_text;
use crate::common::get_code_for_node;
use crate::common::get_nodes_of_type;
use crate::common::kind_nodes;
use crate::model::ContainerKind;
use crate::model::DataFlow;
use crate::model::GraphView;
use crate::model::NodeKind;
use crate::model::ResolvePolicy;
use crate::model::graph_extends;
use crate::model::graph_wf;
use crate::model::gv_add_container;
use crate::model::gv_add_flow;
use crate::model::gv_add_node;
use crate::model::gv_add_root;
use crate::model::gv_attach;
use crate::model::gv_empty;
use crate::model::lemma_extends_refl;
use crate::model::lemma_extends_trans;
use crate::model::lookup_in;

verus! {

/// The identifiers an expression at node `i` *reads*, in source order and
/// without deduplication:
/// - an identifier reads itself;
/// - a call reads its receiver when the receiver is itself an identifier,
///   then whatever its arguments read;
/// - an object construction reads whatever its constructor arguments read;
/// - a binary expression reads its left operand's reads, then its right's;
/// - anything else reads nothing.
pub open spec fn read_ids(ast: Ast, i: int) -> Seq<usize>
    decreases ast.nodes@.len() - i, 0int,
{
    if !(0 <= i < ast.nodes@.len()) {
        Seq::empty()
    } else {
        let kind = ast.nodes@[i].kind;
        if kind == AstKind::Identifier {
            seq![i as usize]
        } else if kind == AstKind::MethodInvocation {
            let recv = match child_by_field_spec(ast, i, AstField::ObjectField) {
                Some(o) => if ast.nodes@[o as int].kind == AstKind::Identifier {
                    seq![o]
                } else {
                    Seq::<usize>::empty()
                },
                None => Seq::<usize>::empty(),
            };
            let args = match child_by_field_spec(ast, i, AstField::ArgumentsField) {
                Some(a) => if i < a < ast.nodes@.len() {
                    read_args(ast, a as int, 0)
                } else {
                    Seq::<usize>::empty()
                },
                None => Seq::<usize>::empty(),
            };
            recv + args
        } else if kind == AstKind::ObjectCreationExpression {
            match child_by_field_spec(ast, i, AstField::ArgumentsField) {
                Some(a) => if i < a < ast.nodes@.len() {
                    read_args(ast, a as int, 0)
                } else {
                    Seq::<usize>::empty()
                },
                None => Seq::<usize>::empty(),
            }
        } else if kind == AstKind::BinaryExpression {
            let l = match child_by_field_spec(ast, i, AstField::LeftField) {
                Some(l) => if i < l < ast.nodes@.len() {
                    read_ids(ast, l as int)
                } else {
                    Seq::<usize>::empty()
                },
                None => Seq::<usize>::empty(),
            };
            let r = match child_by_field_spec(ast, i, AstField::RightField) {
                Some(r) => if i < r < ast.nodes@.len() {
                    read_ids(ast, r as int)
                } else {
                    Seq::<usize>::empty()
                },
                None => Seq::<usize>::empty(),
            };
            l + r
        } else {
            Seq::empty()
        }
    }
}

/// Concatenated reads of the children of an argument-list node `a`, from
/// child position `k` on. Every child counts, named or not: a parenthesis or
/// a literal simply reads nothing.
pub open spec fn read_args(ast: Ast, a: int, k: int) -> Seq<usize>
    decreases ast.nodes@.len() - a, ast.nodes@[a].children@.len() - k,
{
    if !(0 <= a < ast.nodes@.len()) || !(0 <= k < ast.nodes@[a].children@.len()) {
        Seq::empty()
    } else {
        let c = ast.nodes@[a].children@[k];
        let sub = if a < c < ast.nodes@.len() {
            read_ids(ast, c as int)
        } else {
            Seq::<usize>::empty()
        };
        sub + read_args(ast, a, k + 1)
    }
}

fn collect_arg_identifiers(ast: &Ast, a: usize, res: &mut Vec<usize>)
    requires
        ast_links_wf(*ast),
        a < ast.nodes@.len(),
    ensures
        final(res)@ == old(res)@ + read_args(*ast, a as int, 0),
        forall|j: int| 0 <= j < old(res)@.len() ==> final(res)@[j] == old(res)@[j],
        forall|j: int|
            old(res)@.len() <= j < final(res)@.len() ==> a < #[trigger] final(res)@[j]
                < ast.nodes@.len() && ast.nodes@[final(res)@[j] as int].kind == AstKind::Identifier,
    decreases ast.nodes@.len() - a, 0int,
{
    let n_children = ast.nodes[a].children.len();
    let mut k: usize = 0;
    while k < n_children
        invariant
            ast_links_wf(*ast),
            a < ast.nodes@.len(),
            n_children == ast.nodes@[a as int].children@.len(),
            k <= n_children,
            res@ + read_args(*ast, a as int, k as int) == old(res)@ + read_args(
                *ast,
                a as int,
                0,
            ),
            old(res)@.len() <= res@.len(),
            forall|j: int| 0 <= j < old(res)@.len() ==> res@[j] == old(res)@[j],
            forall|j: int|
                old(res)@.len() <= j < res@.len() ==> a < #[trigger] res@[j] < ast.nodes@.len()
                    && ast.nodes@[res@[j] as int].kind == AstKind::Identifier,
        decreases n_children - k,
    {
        let c = ast.nodes[a].children[k];
        let ghost res_before = res@;
        let mut sub = get_identifiers_from_assignment(ast, c);
        res.append(&mut sub);
        proof {
            assert(read_ids(*ast, c as int) + read_args(*ast, a as int, k as int + 1) =~= read_args(
                *ast,
                a as int,
                k as int,
            ));
            assert((res_before + read_ids(*ast, c as int)) + read_args(
                *ast,
                a as int,
                k as int + 1,
            ) =~= res_before + (read_ids(*ast, c as int) + read_args(*ast, a as int, k as int + 1)));
        }
        k = k + 1;
    }
    proof {
        assert(read_args(*ast, a as int, n_children as int) =~= Seq::<usize>::empty());
        assert(res@ + Seq::<usize>::empty() =~= res@);
    }
}

/// The identifier nodes read by the expression at node `i`, per the rules of
/// [`read_ids`]: a receiver used twice, or a name read both as receiver and
/// argument, is reported twice; downstream idempotent registration absorbs
/// the repetition.
pub fn get_identifiers_from_assignment(ast: &Ast, i: usize) -> (r: Vec<usize>)
    requires
        ast_links_wf(*ast),
        i < ast.nodes@.len(),
    ensures
        r@ == read_ids(*ast, i as int),
        forall|j: int|
            0 <= j < r@.len() ==> i <= #[trigger] r@[j] < ast.nodes@.len()
                && ast.nodes@[r@[j] as int].kind == AstKind::Identifier,
    decreases ast.nodes@.len() - i, 1int,
{
    let mut res: Vec<usize> = Vec::new();
    let kind = ast.nodes[i].kind;
    if kind == AstKind::Identifier {
        res.push(i);
        proof {
            assert(res@ =~= read_ids(*ast, i as int));
        }
        return res;
    }
    if kind == AstKind::MethodInvocation {
        let object_opt = ast.child_by_field(i, AstField::ObjectField);
        match object_opt {
            Some(o) => {
                if ast.nodes[o].kind == AstKind::Identifier {
                    res.push(o);
                }
            },
            None => {},
        }
        let arguments_opt = ast.child_by_field(i, AstField::ArgumentsField);
        match arguments_opt {
            Some(a) => {
                collect_arg_identifiers(ast, a, &mut res);
            },
            None => {},
        }
        proof {
            assert(res@ =~= read_ids(*ast, i as int));
        }
        return res;
    }
    if kind == AstKind::ObjectCreationExpression {
        let arguments_opt = ast.child_by_field(i, AstField::ArgumentsField);
        match arguments_opt {
            Some(a) => {
                collect_arg_identifiers(ast, a, &mut res);
            },
            None => {},
        }
        proof {
            assert(res@ =~= read_ids(*ast, i as int));
        }
        return res;
    }
    if kind == AstKind::BinaryExpression {
        let left_opt = ast.child_by_field(i, AstField::LeftField);
        match left_opt {
            Some(l) => {
                let mut sub = get_identifiers_from_assignment(ast, l);
                res.append(&mut sub);
            },
            None => {},
        }
        let right_opt = ast.child_by_field(i, AstField::RightField);
        match right_opt {
            Some(r) => {
                let mut sub = get_identifiers_from_assignment(ast, r);
                res.append(&mut sub);
            },
            None => {},
        }
        proof {
            assert(res@ =~= read_ids(*ast, i as int));
        }
        return res;
    }
    proof {
        assert(res@ =~= read_ids(*ast, i as int));
    }
    res
}

/// The source texts of a sequence of tree nodes.
pub open spec fn texts_of(ast: Ast, code: Seq<u8>, ids: Seq<usize>) -> Seq<Seq<u8>> {
    ids.map_values(|x: usize| node_text(ast, code, x as int))
}

/// The graph after attempted flow insertions from every name of
/// `names[k..]`, in order, into `dest`, all resolved at container `c`.
pub open spec fn gv_add_flows_from(
    gv: GraphView,
    c: int,
    names: Seq<Seq<u8>>,
    dest: Seq<u8>,
    k: int,
) -> GraphView
    decreases names.len() - k,
{
    if !(0 <= k < names.len()) {
        gv
    } else {
        gv_add_flows_from(gv_add_flow(gv, c, names[k], dest), c, names, dest, k + 1)
    }
}

/// What a statement-level walk leaves untouched: the set of scopes (no
/// container is created or removed) and every scope's child list.
pub open spec fn stmt_frame(gv0: GraphView, gv1: GraphView) -> bool {
    &&& gv1.containers.len() == gv0.containers.len()
    &&& (forall|i: int|
        0 <= i < gv0.containers.len() ==> #[trigger] gv1.containers[i].containers
            == gv0.containers[i].containers)
}

proof fn lemma_stmt_frame_trans(gv0: GraphView, gv1: GraphView, gv2: GraphView)
    requires
        stmt_frame(gv0, gv1),
        stmt_frame(gv1, gv2),
    ensures
        stmt_frame(gv0, gv2),
{
    assert forall|i: int| 0 <= i < gv0.containers.len() implies #[trigger] gv2.containers[i].containers
        == gv0.containers[i].containers by {
        assert(gv1.containers[i].containers == gv0.containers[i].containers);
    }
}

proof fn lemma_add_node_frame(gv: GraphView, c: int, name: Seq<u8>, kind: NodeKind, ast_node: usize)
    requires
        0 <= c < gv.containers.len(),
    ensures
        stmt_frame(gv, gv_add_node(gv, c, name, kind, ast_node)),
{
    let gv1 = gv_add_node(gv, c, name, kind, ast_node);
    if lookup_in(gv, c, name) is Some {
    } else {
        assert forall|i: int| 0 <= i < gv.containers.len() implies
            #[trigger] gv1.containers[i].containers == gv.containers[i].containers by {
            if i != c {
                assert(gv1.containers[i] == gv.containers[i]);
            }
        }
    }
}

proof fn lemma_add_flow_frame(gv: GraphView, c: int, source: Seq<u8>, dest: Seq<u8>)
    ensures
        stmt_frame(gv, gv_add_flow(gv, c, source, dest)),
{
    let gv1 = gv_add_flow(gv, c, source, dest);
    assert(gv1.containers == gv.containers);
}

/// Inserts one attempted flow per listed tree node, each read as a source
/// name from the source text, all into the binding named `dest`.
fn add_flows_for(ast: &Ast, code: &Vec<u8>, g: &mut DataFlow, c: usize, ids: &Vec<usize>, dest: &Vec<u8>)
    requires
        ast_wf(*ast, code@.len()),
        graph_wf(old(g)@),
        (c as int) < old(g)@.containers.len(),
        forall|j: int| 0 <= j < ids@.len() ==> #[trigger] ids@[j] < ast.nodes@.len(),
    ensures
        graph_wf(final(g)@),
        final(g)@ == gv_add_flows_from(old(g)@, c as int, texts_of(*ast, code@, ids@), dest@, 0),
        graph_extends(old(g)@, final(g)@),
        stmt_frame(old(g)@, final(g)@),
{
    let ghost names = texts_of(*ast, code@, ids@);
    let n_ids = ids.len();
    let mut k: usize = 0;
    proof {
        lemma_extends_refl(g@);
    }
    while k < n_ids
        invariant
            ast_wf(*ast, code@.len()),
            graph_wf(g@),
            n_ids == ids@.len(),
            k <= n_ids,
            forall|j: int| 0 <= j < ids@.len() ==> #[trigger] ids@[j] < ast.nodes@.len(),
            names == texts_of(*ast, code@, ids@),
            (c as int) < g@.containers.len(),
            gv_add_flows_from(g@, c as int, names, dest@, k as int) == gv_add_flows_from(
                old(g)@,
                c as int,
                names,
                dest@,
                0,
            ),
            graph_extends(old(g)@, g@),
            stmt_frame(old(g)@, g@),
        decreases n_ids - k,
    {
        let id = ids[k];
        let source_name = get_code_for_node(ast, id, code);
        proof {
            assert(source_name@ == names[k as int]);
        }
        let ghost g_before = g@;
        g.add_flow(c, &source_name, dest);
        proof {
            lemma_extends_trans(old(g)@, g_before, g@);
            lemma_add_flow_frame(g_before, c as int, source_name@, dest@);
            lemma_stmt_frame_trans(old(g)@, g_before, g@);
        }
        k = k + 1;
    }
}

/// Node `left` of kind identifier, bound by an assignment or declaration to
/// the expression at node `right`: the graph after idempotently registering
/// the variable and inserting one attempted flow per identifier the right
/// side reads.
pub open spec fn walk_assign_parts(
    ast: Ast,
    code: Seq<u8>,
    gv: GraphView,
    c: int,
    left: int,
    right: int,
) -> GraphView {
    if ast.nodes@[left].kind == AstKind::Identifier {
        let name = node_text(ast, code, left);
        let gv1 = gv_add_node(gv, c, name, NodeKind::VARIABLE, left as usize);
        gv_add_flows_from(gv1, c, texts_of(ast, code, read_ids(ast, right)), name, 0)
    } else {
        gv
    }
}

fn walk_binding(ast: &Ast, code: &Vec<u8>, g: &mut DataFlow, c: usize, left: usize, right: usize)
    requires
        ast_wf(*ast, code@.len()),
        graph_wf(old(g)@),
        (c as int) < old(g)@.containers.len(),
        left < ast.nodes@.len(),
        right < ast.nodes@.len(),
    ensures
        graph_wf(final(g)@),
        final(g)@ == walk_assign_parts(*ast, code@, old(g)@, c as int, left as int, right as int),
        graph_extends(old(g)@, final(g)@),
        stmt_frame(old(g)@, final(g)@),
{
    if ast.nodes[left].kind == AstKind::Identifier {
        let left_identifier = get_code_for_node(ast, left, code);
        g.register_node(c, &left_identifier, NodeKind::VARIABLE, left);
        let ghost g_mid = g@;
        proof {
            lemma_add_node_frame(old(g)@, c as int, left_identifier@, NodeKind::VARIABLE, left);
        }
        let right_identifiers = get_identifiers_from_assignment(ast, right);
        add_flows_for(ast, code, g, c, &right_identifiers, &left_identifier);
        proof {
            lemma_extends_trans(old(g)@, g_mid, g@);
            lemma_stmt_frame_trans(old(g)@, g_mid, g@);
        }
    } else {
        proof {
            lemma_extends_refl(g@);
        }
    }
}

/// An assignment statement: when the left side is a plain identifier, the
/// variable is registered and the right side's reads flow into it; any other
/// left side, or a missing side, changes nothing.
pub open spec fn walk_assign_spec(ast: Ast, code: Seq<u8>, gv: GraphView, c: int, i: int) -> GraphView {
    match (
        child_by_field_spec(ast, i, AstField::LeftField),
        child_by_field_spec(ast, i, AstField::RightField),
    ) {
        (Some(l), Some(r)) => walk_assign_parts(ast, code, gv, c, l as int, r as int),
        _ => gv,
    }
}

/// Walks one assignment expression at node `i` inside container `c`.
pub fn walk_assignment_expression(ast: &Ast, code: &Vec<u8>, g: &mut DataFlow, c: usize, i: usize)
    requires
        ast_wf(*ast, code@.len()),
        graph_wf(old(g)@),
        (c as int) < old(g)@.containers.len(),
        i < ast.nodes@.len(),
    ensures
        graph_wf(final(g)@),
        final(g)@ == walk_assign_spec(*ast, code@, old(g)@, c as int, i as int),
        graph_extends(old(g)@, final(g)@),
        stmt_frame(old(g)@, final(g)@),
{
    let left_opt = ast.child_by_field(i, AstField::LeftField);
    let right_opt = ast.child_by_field(i, AstField::RightField);
    match (left_opt, right_opt) {
        (Some(left), Some(right)) => {
            walk_binding(ast, code, g, c, left, right);
        },
        _ => {
            proof {
                lemma_extends_refl(g@);
            }
        },
    }
}

/// A local declaration: the declarator's name/value pair is handled exactly
/// like an assignment's left/right pair.
pub open spec fn walk_decl_spec(ast: Ast, code: Seq<u8>, gv: GraphView, c: int, i: int) -> GraphView {
    match child_by_field_spec(ast, i, AstField::DeclaratorField) {
        Some(dec) => match (
            child_by_field_spec(ast, dec as int, AstField::NameField),
            child_by_field_spec(ast, dec as int, AstField::ValueField),
        ) {
            (Some(l), Some(r)) => walk_assign_parts(ast, code, gv, c, l as int, r as int),
            _ => gv,
        },
        None => gv,
    }
}

/// Walks one local variable declaration at node `i` inside container `c`.
pub fn walk_local_variable_declaration(
    ast: &Ast,
    code: &Vec<u8>,
    g: &mut DataFlow,
    c: usize,
    i: usize,
)
    requires
        ast_wf(*ast, code@.len()),
        graph_wf(old(g)@),
        (c as int) < old(g)@.containers.len(),
        i < ast.nodes@.len(),
    ensures
        graph_wf(final(g)@),
        final(g)@ == walk_decl_spec(*ast, code@, old(g)@, c as int, i as int),
        graph_extends(old(g)@, final(g)@),
        stmt_frame(old(g)@, final(g)@),
{
    let declarator_opt = ast.child_by_field(i, AstField::DeclaratorField);
    match declarator_opt {
        Some(dec) => {
            let left_opt = ast.child_by_field(dec, AstField::NameField);
            let right_opt = ast.child_by_field(dec, AstField::ValueField);
            match (left_opt, right_opt) {
                (Some(left), Some(right)) => {
                    walk_binding(ast, code, g, c, left, right);
                },
                _ => {
                    proof {
                        lemma_extends_refl(g@);
                    }
                },
            }
        },
        None => {
            proof {
                lemma_extends_refl(g@);
            }
        },
    }
}

/// A call statement whose receiver is a plain identifier: every identifier
/// found among the call's arguments may let data flow into the receiver via
/// the (possibly mutating) call. Any other receiver changes nothing.
pub open spec fn walk_call_spec(ast: Ast, code: Seq<u8>, gv: GraphView, c: int, i: int) -> GraphView {
    match child_by_field_spec(ast, i, AstField::ObjectField) {
        Some(o) => if ast.nodes@[o as int].kind == AstKind::Identifier {
            let oname = node_text(ast, code, o as int);
            match child_by_field_spec(ast, i, AstField::ArgumentsField) {
                Some(args) => gv_add_flows_from(
                    gv,
                    c,
                    texts_of(ast, code, kind_nodes(ast, args as int, AstKind::Identifier)),
                    oname,
                    0,
                ),
                None => gv,
            }
        } else {
            gv
        },
        None => gv,
    }
}

fn walk_method_invocation(ast: &Ast, code: &Vec<u8>, g: &mut DataFlow, c: usize, i: usize)
    requires
        ast_wf(*ast, code@.len()),
        graph_wf(old(g)@),
        (c as int) < old(g)@.containers.len(),
        i < ast.nodes@.len(),
    ensures
        graph_wf(final(g)@),
        final(g)@ == walk_call_spec(*ast, code@, old(g)@, c as int, i as int),
        graph_extends(old(g)@, final(g)@),
        stmt_frame(old(g)@, final(g)@),
{
    let object_opt = ast.child_by_field(i, AstField::ObjectField);
    match object_opt {
        Some(o) => {
            if ast.nodes[o].kind == AstKind::Identifier {
                let object_name = get_code_for_node(ast, o, code);
                let arguments_opt = ast.child_by_field(i, AstField::ArgumentsField);
                match arguments_opt {
                    Some(args) => {
                        let identifiers = get_nodes_of_type(ast, args, AstKind::Identifier);
                        add_flows_for(ast, code, g, c, &identifiers, &object_name);
                    },
                    None => {
                        proof {
                            lemma_extends_refl(g@);
                        }
                    },
                }
            } else {
                proof {
                    lemma_extends_refl(g@);
                }
            }
        },
        None => {
            proof {
                lemma_extends_refl(g@);
            }
        },
    }
}

/// Every attachment of a child scope made between the two states happened
/// under container `cc`: any other existing container kept its child list.
pub open spec fn attaches_only_under(gv0: GraphView, gv1: GraphView, cc: int) -> bool {
    forall|i: int|
        0 <= i < gv0.containers.len() && i != cc ==> #[trigger] gv1.containers[i].containers
            == gv0.containers[i].containers
}

proof fn lemma_attaches_trans(gv0: GraphView, gv1: GraphView, gv2: GraphView, cc: int)
    requires
        gv0.containers.len() <= gv1.containers.len(),
        attaches_only_under(gv0, gv1, cc),
        attaches_only_under(gv1, gv2, cc),
    ensures
        attaches_only_under(gv0, gv2, cc),
{
    assert forall|i: int| 0 <= i < gv0.containers.len() && i != cc implies
        #[trigger] gv2.containers[i].containers == gv0.containers[i].containers by {
        assert(gv1.containers[i].containers == gv0.containers[i].containers);
    }
}

/// One statement (or any other construct) of a method body, inside the
/// method's container `c`: an assignment, declaration or receiver call is
/// handled by its own rule; everything else passes the graph through its
/// named children in order.
pub open spec fn walk_content_spec(ast: Ast, code: Seq<u8>, gv: GraphView, c: int, i: int) -> GraphView
    decreases ast.nodes@.len() - i, ast.nodes@[i].children@.len() + 1,
{
    if !(0 <= i < ast.nodes@.len()) {
        gv
    } else {
        let kind = ast.nodes@[i].kind;
        if kind == AstKind::AssignmentExpression {
            walk_assign_spec(ast, code, gv, c, i)
        } else if kind == AstKind::LocalVariableDeclaration {
            walk_decl_spec(ast, code, gv, c, i)
        } else if kind == AstKind::MethodInvocation {
            walk_call_spec(ast, code, gv, c, i)
        } else {
            walk_content_children_spec(ast, code, gv, c, i, 0)
        }
    }
}

/// The graph threaded through the named children of `i`, from position `k`
/// on, each walked as method-body content.
pub open spec fn walk_content_children_spec(
    ast: Ast,
    code: Seq<u8>,
    gv: GraphView,
    c: int,
    i: int,
    k: int,
) -> GraphView
    decreases ast.nodes@.len() - i, ast.nodes@[i].children@.len() - k,
{
    if !(0 <= i < ast.nodes@.len()) || !(0 <= k < ast.nodes@[i].children@.len()) {
        gv
    } else {
        let ch = ast.nodes@[i].children@[k];
        let gv1 = if i < ch < ast.nodes@.len() && ast.nodes@[ch as int].is_named {
            walk_content_spec(ast, code, gv, c, ch as int)
        } else {
            gv
        };
        walk_content_children_spec(ast, code, gv1, c, i, k + 1)
    }
}

/// Walks one statement (or any other construct) of a method body, inside the
/// method's container `c`: assignments, declarations and receiver calls are
/// handled by their own rules; everything else is traversed transparently
/// through its named children, with no control-flow modeling.
pub fn walk_method_declaration_content(
    ast: &Ast,
    code: &Vec<u8>,
    g: &mut DataFlow,
    c: usize,
    i: usize,
)
    requires
        ast_wf(*ast, code@.len()),
        graph_wf(old(g)@),
        (c as int) < old(g)@.containers.len(),
        i < ast.nodes@.len(),
    ensures
        graph_wf(final(g)@),
        final(g)@ == walk_content_spec(*ast, code@, old(g)@, c as int, i as int),
        graph_extends(old(g)@, final(g)@),
        stmt_frame(old(g)@, final(g)@),
    decreases ast.nodes@.len() - i,
{
    let kind = ast.nodes[i].kind;
    if kind == AstKind::AssignmentExpression {
        walk_assignment_expression(ast, code, g, c, i);
        return;
    }
    if kind == AstKind::LocalVariableDeclaration {
        walk_local_variable_declaration(ast, code, g, c, i);
        return;
    }
    if kind == AstKind::MethodInvocation {
        walk_method_invocation(ast, code, g, c, i);
        return;
    }
    let n_children = ast.nodes[i].children.len();
    let mut k: usize = 0;
    proof {
        lemma_extends_refl(g@);
    }
    while k < n_children
        invariant
            ast_wf(*ast, code@.len()),
            graph_wf(g@),
            i < ast.nodes@.len(),
            ast.nodes@[i as int].kind != AstKind::AssignmentExpression,
            ast.nodes@[i as int].kind != AstKind::LocalVariableDeclaration,
            ast.nodes@[i as int].kind != AstKind::MethodInvocation,
            n_children == ast.nodes@[i as int].children@.len(),
            k <= n_children,
            (c as int) < g@.containers.len(),
            walk_content_children_spec(*ast, code@, g@, c as int, i as int, k as int)
                == walk_content_spec(*ast, code@, old(g)@, c as int, i as int),
            graph_extends(old(g)@, g@),
            stmt_frame(old(g)@, g@),
        decreases n_children - k,
    {
        let child = ast.nodes[i].children[k];
        if ast.nodes[child].is_named {
            let ghost g_before = g@;
            walk_method_declaration_content(ast, code, g, c, child);
            proof {
                lemma_extends_trans(old(g)@, g_before, g@);
                lemma_stmt_frame_trans(old(g)@, g_before, g@);
            }
        }
        k = k + 1;
    }
}

/// A formal parameter with a resolvable name: the graph after idempotently
/// registering it in the method's container; a parameter without a name field
/// changes nothing.
pub open spec fn walk_param_spec(ast: Ast, code: Seq<u8>, gv: GraphView, mc: int, i: int) -> GraphView {
    match child_by_field_spec(ast, i, AstField::NameField) {
        Some(nm) => gv_add_node(
            gv,
            mc,
            node_text(ast, code, nm as int),
            NodeKind::PARAMETER,
            i as usize,
        ),
        None => gv,
    }
}

/// Registers one formal parameter at node `i` in the method container `mc`.
pub fn walk_parameter_declaration(ast: &Ast, code: &Vec<u8>, g: &mut DataFlow, mc: usize, i: usize)
    requires
        ast_wf(*ast, code@.len()),
        graph_wf(old(g)@),
        (mc as int) < old(g)@.containers.len(),
        i < ast.nodes@.len(),
    ensures
        graph_wf(final(g)@),
        final(g)@ == walk_param_spec(*ast, code@, old(g)@, mc as int, i as int),
        graph_extends(old(g)@, final(g)@),
        stmt_frame(old(g)@, final(g)@),
{
    let name_opt = ast.child_by_field(i, AstField::NameField);
    match name_opt {
        Some(nm) => {
            let parameter_name = get_code_for_node(ast, nm, code);
            g.register_node(mc, &parameter_name, NodeKind::PARAMETER, i);
            proof {
                lemma_add_node_frame(
                    old(g)@,
                    mc as int,
                    parameter_name@,
                    NodeKind::PARAMETER,
                    i,
                );
            }
        },
        None => {
            proof {
                lemma_extends_refl(g@);
            }
        },
    }
}

/// The formal parameters of a method: the graph threaded through the named
/// formal-parameter children of the parameter list `plist`, from position
/// `k` on, each registered in the method container `mc`.
pub open spec fn walk_params_spec(
    ast: Ast,
    code: Seq<u8>,
    gv: GraphView,
    mc: int,
    plist: int,
    k: int,
) -> GraphView
    decreases ast.nodes@[plist].children@.len() - k,
{
    if !(0 <= plist < ast.nodes@.len()) || !(0 <= k < ast.nodes@[plist].children@.len()) {
        gv
    } else {
        let ch = ast.nodes@[plist].children@[k];
        let gv1 = if plist < ch < ast.nodes@.len() && ast.nodes@[ch as int].is_named
            && ast.nodes@[ch as int].kind == AstKind::FormalParameter {
            walk_param_spec(ast, code, gv, mc, ch as int)
        } else {
            gv
        };
        walk_params_spec(ast, code, gv1, mc, plist, k + 1)
    }
}

/// A method body: the graph threaded through every child of the block
/// `body`, from position `k` on, each walked as method-body content inside
/// the method container `mc`.
pub open spec fn walk_body_spec(
    ast: Ast,
    code: Seq<u8>,
    gv: GraphView,
    mc: int,
    body: int,
    k: int,
) -> GraphView
    decreases ast.nodes@[body].children@.len() - k,
{
    if !(0 <= body < ast.nodes@.len()) || !(0 <= k < ast.nodes@[body].children@.len()) {
        gv
    } else {
        let ch = ast.nodes@[body].children@[k];
        let gv1 = if body < ch < ast.nodes@.len() {
            walk_content_spec(ast, code, gv, mc, ch as int)
        } else {
            gv
        };
        walk_body_spec(ast, code, gv1, mc, body, k + 1)
    }
}

/// One method declaration under the class container `cc`: a method with a
/// resolvable name gets a fresh FUNCTION container, its parameters
/// registered, its body walked, and the container sealed under `cc`; a
/// method without a name changes nothing.
pub open spec fn walk_method_spec(ast: Ast, code: Seq<u8>, gv: GraphView, cc: int, i: int) -> GraphView {
    match child_by_field_spec(ast, i, AstField::NameField) {
        None => gv,
        Some(nm) => {
            let mc = gv.containers.len() as int;
            let gv1 = gv_add_container(
                gv,
                Some(node_text(ast, code, nm as int)),
                ContainerKind::FUNCTION,
                Some(cc as usize),
            );
            let gv2 = match child_by_field_spec(ast, i, AstField::ParametersField) {
                Some(p) => if i < p < ast.nodes@.len() {
                    walk_params_spec(ast, code, gv1, mc, p as int, 0)
                } else {
                    gv1
                },
                None => gv1,
            };
            let gv3 = match child_by_field_spec(ast, i, AstField::BodyField) {
                Some(b) => if i < b < ast.nodes@.len() {
                    walk_body_spec(ast, code, gv2, mc, b as int, 0)
                } else {
                    gv2
                },
                None => gv2,
            };
            gv_attach(gv3, cc, mc as usize)
        },
    }
}

/// Walks one method declaration at node `i` under the class container `cc`.
/// A method with a resolvable name gets a fresh FUNCTION container, its
/// parameters registered in parameter-list order and its body walked inside
/// that container, and the container is then sealed under `cc`. A method
/// without a name is skipped.
pub fn walk_method_declaration(ast: &Ast, code: &Vec<u8>, g: &mut DataFlow, cc: usize, i: usize)
    requires
        ast_wf(*ast, code@.len()),
        graph_wf(old(g)@),
        (cc as int) < old(g)@.containers.len(),
        i < ast.nodes@.len(),
    ensures
        graph_wf(final(g)@),
        final(g)@ == walk_method_spec(*ast, code@, old(g)@, cc as int, i as int),
        graph_extends(old(g)@, final(g)@),
        attaches_only_under(old(g)@, final(g)@, cc as int),
        child_by_field_spec(*ast, i as int, AstField::NameField) is None ==> final(g)@ == old(g)@,
        child_by_field_spec(*ast, i as int, AstField::NameField) matches Some(nm) ==> ({
            let mc = old(g)@.containers.len() as int;
            &&& final(g)@.containers.len() > mc
            &&& final(g)@.containers[mc].kind == ContainerKind::FUNCTION
            &&& final(g)@.containers[mc].name == Some(node_text(*ast, code@, nm as int))
            &&& final(g)@.containers[mc].parent == Some(cc)
            &&& final(g)@.containers[cc as int].containers == old(g)@.containers[cc as int].containers.push(mc as usize)
        }),
{
    let name_opt = ast.child_by_field(i, AstField::NameField);
    if name_opt.is_none() {
        proof {
            lemma_extends_refl(g@);
        }
        return;
    }
    let nm = name_opt.unwrap();
    let method_name = get_code_for_node(ast, nm, code);
    let mc = g.add_container(Some(method_name), ContainerKind::FUNCTION, Some(cc));
    let ghost g_created = g@;
    proof {
        assert(g_created == gv_add_container(
            old(g)@,
            Some(node_text(*ast, code@, nm as int)),
            ContainerKind::FUNCTION,
            Some(cc),
        ));
    }
    let parameters_opt = ast.child_by_field(i, AstField::ParametersField);
    match parameters_opt {
        Some(parameters) => {
            let n_children = ast.nodes[parameters].children.len();
            let mut k: usize = 0;
            proof {
                lemma_extends_refl(g@);
            }
            while k < n_children
                invariant
                    ast_wf(*ast, code@.len()),
                    graph_wf(g@),
                    parameters < ast.nodes@.len(),
                    n_children == ast.nodes@[parameters as int].children@.len(),
                    k <= n_children,
                    (mc as int) < g@.containers.len(),
                    walk_params_spec(*ast, code@, g@, mc as int, parameters as int, k as int)
                        == walk_params_spec(*ast, code@, g_created, mc as int, parameters as int, 0),
                    graph_extends(g_created, g@),
                    stmt_frame(g_created, g@),
                decreases n_children - k,
            {
                let child = ast.nodes[parameters].children[k];
                if ast.nodes[child].is_named {
                    if ast.nodes[child].kind == AstKind::FormalParameter {
                        let ghost g_before = g@;
                        walk_parameter_declaration(ast, code, g, mc, child);
                        proof {
                            lemma_extends_trans(g_created, g_before, g@);
                            lemma_stmt_frame_trans(g_created, g_before, g@);
                        }
                    }
                }
                k = k + 1;
            }
            proof {
                assert(walk_params_spec(
                    *ast,
                    code@,
                    g@,
                    mc as int,
                    parameters as int,
                    n_children as int,
                ) == g@);
                assert(g@ == walk_params_spec(*ast, code@, g_created, mc as int, parameters as int, 0));
            }
        },
        None => {
            proof {
                lemma_extends_refl(g@);
            }
        },
    }
    let ghost g_params = g@;
    proof {
        assert(g_params == (match child_by_field_spec(*ast, i as int, AstField::ParametersField) {
            Some(p) => if (i as int) < p < ast.nodes@.len() {
                walk_params_spec(*ast, code@, g_created, mc as int, p as int, 0)
            } else {
                g_created
            },
            None => g_created,
        }));
    }
    let body_opt = ast.child_by_field(i, AstField::BodyField);
    match body_opt {
        Some(body) => {
            let n_children = ast.nodes[body].children.len();
            let mut k: usize = 0;
            while k < n_children
                invariant
                    ast_wf(*ast, code@.len()),
                    graph_wf(g@),
                    body < ast.nodes@.len(),
                    n_children == ast.nodes@[body as int].children@.len(),
                    k <= n_children,
                    (mc as int) < g@.containers.len(),
                    walk_body_spec(*ast, code@, g@, mc as int, body as int, k as int)
                        == walk_body_spec(*ast, code@, g_params, mc as int, body as int, 0),
                    graph_extends(g_params, g@),
                    stmt_frame(g_params, g@),
                decreases n_children - k,
            {
                let child = ast.nodes[body].children[k];
                let ghost g_before = g@;
                walk_method_declaration_content(ast, code, g, mc, child);
                proof {
                    lemma_extends_trans(g_params, g_before, g@);
                    lemma_stmt_frame_trans(g_params, g_before, g@);
                }
                k = k + 1;
            }
            proof {
                assert(walk_body_spec(*ast, code@, g@, mc as int, body as int, n_children as int)
                    == g@);
                assert(g@ == walk_body_spec(*ast, code@, g_params, mc as int, body as int, 0));
            }
        },
        None => {},
    }
    let ghost g_walked = g@;
    proof {
        assert(g_walked == (match child_by_field_spec(*ast, i as int, AstField::BodyField) {
            Some(b) => if (i as int) < b < ast.nodes@.len() {
                walk_body_spec(*ast, code@, g_params, mc as int, b as int, 0)
            } else {
                g_params
            },
            None => g_params,
        }));
    }
    proof {
        lemma_extends_refl(g@);
        lemma_stmt_frame_trans(g_created, g_params, g_walked);
    }
    g.attach_container(cc, mc);
    proof {
        lemma_extends_trans(old(g)@, g_created, g_walked);
        lemma_extends_trans(old(g)@, g_walked, g@);
        assert(g@ == gv_attach(g_walked, cc as int, mc));
        assert(old(g)@.containers.len() as int == mc as int);
        assert((old(g)@.containers.len() as int) as usize == mc);
        assert(g@ == walk_method_spec(*ast, code@, old(g)@, cc as int, i as int));
        assert(g@.containers[mc as int].kind == ContainerKind::FUNCTION);
        assert(g@.containers[cc as int].containers == old(g)@.containers[cc as int].containers.push(
            mc,
        ));
        assert forall|x: int|
            0 <= x < old(g)@.containers.len() && x != cc as int implies
            #[trigger] g@.containers[x].containers == old(g)@.containers[x].containers by {
            assert(g_created.containers[x].containers == old(g)@.containers[x].containers);
            assert(g_walked.containers[x].containers == g_created.containers[x].containers);
            assert(g@.containers[x].containers == g_walked.containers[x].containers);
        }
    }
}

/// A class body: the graph threaded through the children of `i` from
/// position `k` on, each method declaration among them walked under the
/// class container `cc`.
pub open spec fn walk_class_body_spec(
    ast: Ast,
    code: Seq<u8>,
    gv: GraphView,
    cc: int,
    i: int,
    k: int,
) -> GraphView
    decreases ast.nodes@[i].children@.len() - k,
{
    if !(0 <= i < ast.nodes@.len()) || !(0 <= k < ast.nodes@[i].children@.len()) {
        gv
    } else {
        let ch = ast.nodes@[i].children@[k];
        let gv1 = if i < ch < ast.nodes@.len() && ast.nodes@[ch as int].kind
            == AstKind::MethodDeclaration {
            walk_method_spec(ast, code, gv, cc, ch as int)
        } else {
            gv
        };
        walk_class_body_spec(ast, code, gv1, cc, i, k + 1)
    }
}

/// Walks a class body at node `i`: every method declaration among its
/// children is walked under the class container `cc`.
pub fn walk_node_class_body(ast: &Ast, code: &Vec<u8>, g: &mut DataFlow, cc: usize, i: usize)
    requires
        ast_wf(*ast, code@.len()),
        graph_wf(old(g)@),
        (cc as int) < old(g)@.containers.len(),
        i < ast.nodes@.len(),
    ensures
        graph_wf(final(g)@),
        final(g)@ == walk_class_body_spec(*ast, code@, old(g)@, cc as int, i as int, 0),
        graph_extends(old(g)@, final(g)@),
        attaches_only_under(old(g)@, final(g)@, cc as int),
{
    let n_children = ast.nodes[i].children.len();
    let mut k: usize = 0;
    proof {
        lemma_extends_refl(g@);
    }
    while k < n_children
        invariant
            ast_wf(*ast, code@.len()),
            graph_wf(g@),
            i < ast.nodes@.len(),
            n_children == ast.nodes@[i as int].children@.len(),
            k <= n_children,
            (cc as int) < g@.containers.len(),
            walk_class_body_spec(*ast, code@, g@, cc as int, i as int, k as int)
                == walk_class_body_spec(*ast, code@, old(g)@, cc as int, i as int, 0),
            graph_extends(old(g)@, g@),
            attaches_only_under(old(g)@, g@, cc as int),
        decreases n_children - k,
    {
        let child = ast.nodes[i].children[k];
        if ast.nodes[child].kind == AstKind::MethodDeclaration {
            let ghost g_before = g@;
            walk_method_declaration(ast, code, g, cc, child);
            proof {
                lemma_attaches_trans(old(g)@, g_before, g@, cc as int);
                lemma_extends_trans(old(g)@, g_before, g@);
            }
        }
        k = k + 1;
    }
}

/// The class-body children of a class declaration: the graph threaded
/// through the named children of `i` from position `k` on, each class body
/// among them walked under the class container `cn`.
pub open spec fn walk_class_children_spec(
    ast: Ast,
    code: Seq<u8>,
    gv: GraphView,
    cn: int,
    i: int,
    k: int,
) -> GraphView
    decreases ast.nodes@[i].children@.len() - k,
{
    if !(0 <= i < ast.nodes@.len()) || !(0 <= k < ast.nodes@[i].children@.len()) {
        gv
    } else {
        let ch = ast.nodes@[i].children@[k];
        let gv1 = if i < ch < ast.nodes@.len() && ast.nodes@[ch as int].is_named
            && ast.nodes@[ch as int].kind == AstKind::ClassBody {
            walk_class_body_spec(ast, code, gv, cn, ch as int, 0)
        } else {
            gv
        };
        walk_class_children_spec(ast, code, gv1, cn, i, k + 1)
    }
}

/// One class declaration under the file container `fc`: a class with a
/// resolvable name gets a fresh CLASS container, its class bodies walked
/// under it, and the container sealed under `fc`; a class without a name
/// changes nothing.
pub open spec fn walk_class_spec(ast: Ast, code: Seq<u8>, gv: GraphView, fc: int, i: int) -> GraphView {
    match child_by_field_spec(ast, i, AstField::NameField) {
        None => gv,
        Some(nm) => {
            let cn = gv.containers.len() as int;
            let gv1 = gv_add_container(
                gv,
                Some(node_text(ast, code, nm as int)),
                ContainerKind::CLASS,
                Some(fc as usize),
            );
            let gv2 = walk_class_children_spec(ast, code, gv1, cn, i, 0);
            gv_attach(gv2, fc, cn as usize)
        },
    }
}

/// Walks one class declaration at node `i` under the file container `fc`.
/// A class with a resolvable name gets a fresh CLASS container, its class
/// body walked under it, and the container is then sealed under `fc`. A
/// class without a name is skipped.
pub fn walk_node_class(ast: &Ast, code: &Vec<u8>, g: &mut DataFlow, fc: usize, i: usize)
    requires
        ast_wf(*ast, code@.len()),
        graph_wf(old(g)@),
        (fc as int) < old(g)@.containers.len(),
        i < ast.nodes@.len(),
    ensures
        graph_wf(final(g)@),
        final(g)@ == walk_class_spec(*ast, code@, old(g)@, fc as int, i as int),
        graph_extends(old(g)@, final(g)@),
        attaches_only_under(old(g)@, final(g)@, fc as int),
        child_by_field_spec(*ast, i as int, AstField::NameField) is None ==> final(g)@ == old(g)@,
        child_by_field_spec(*ast, i as int, AstField::NameField) matches Some(nm) ==> ({
            let n = old(g)@.containers.len() as int;
            &&& final(g)@.containers.len() > n
            &&& final(g)@.containers[n].kind == ContainerKind::CLASS
            &&& final(g)@.containers[n].name == Some(node_text(*ast, code@, nm as int))
            &&& final(g)@.containers[n].parent == Some(fc)
            &&& final(g)@.containers[fc as int].containers == old(g)@.containers[fc as int].containers.push(n as usize)
        }),
{
    let name_opt = ast.child_by_field(i, AstField::NameField);
    if name_opt.is_none() {
        proof {
            lemma_extends_refl(g@);
        }
        return;
    }
    let nm = name_opt.unwrap();
    let class_name = get_code_for_node(ast, nm, code);
    let cn = g.add_container(Some(class_name), ContainerKind::CLASS, Some(fc));
    let ghost g_created = g@;
    proof {
        assert(g_created == gv_add_container(
            old(g)@,
            Some(node_text(*ast, code@, nm as int)),
            ContainerKind::CLASS,
            Some(fc),
        ));
    }
    let n_children = ast.nodes[i].children.len();
    let mut k: usize = 0;
    proof {
        lemma_extends_refl(g@);
    }
    while k < n_children
        invariant
            ast_wf(*ast, code@.len()),
            graph_wf(g@),
            i < ast.nodes@.len(),
            n_children == ast.nodes@[i as int].children@.len(),
            k <= n_children,
            (cn as int) < g@.containers.len(),
            walk_class_children_spec(*ast, code@, g@, cn as int, i as int, k as int)
                == walk_class_children_spec(*ast, code@, g_created, cn as int, i as int, 0),
            graph_extends(g_created, g@),
            attaches_only_under(g_created, g@, cn as int),
        decreases n_children - k,
    {
        let child = ast.nodes[i].children[k];
        if ast.nodes[child].is_named {
            if ast.nodes[child].kind == AstKind::ClassBody {
                let ghost g_before = g@;
                walk_node_class_body(ast, code, g, cn, child);
                proof {
                    lemma_attaches_trans(g_created, g_before, g@, cn as int);
                    lemma_extends_trans(g_created, g_before, g@);
                }
            }
        }
        k = k + 1;
    }
    let ghost g_walked = g@;
    proof {
        assert(walk_class_children_spec(*ast, code@, g@, cn as int, i as int, n_children as int)
            == g@);
        assert(g_walked == walk_class_children_spec(*ast, code@, g_created, cn as int, i as int, 0));
    }
    g.attach_container(fc, cn);
    proof {
        assert(g@ == gv_attach(g_walked, fc as int, cn));
        assert(old(g)@.containers.len() as int == cn as int);
        assert((old(g)@.containers.len() as int) as usize == cn);
        assert(g@ == walk_class_spec(*ast, code@, old(g)@, fc as int, i as int));
        lemma_extends_trans(old(g)@, g_created, g_walked);
        lemma_extends_trans(old(g)@, g_walked, g@);
        assert(g_created.containers[fc as int].containers == old(g)@.containers[fc as int].containers);
        assert(g_walked.containers[fc as int].containers == g_created.containers[fc as int].containers);
        assert(g@.containers[fc as int].containers == old(g)@.containers[fc as int].containers.push(
            cn,
        ));
        assert forall|x: int|
            0 <= x < old(g)@.containers.len() && x != fc as int implies
            #[trigger] g@.containers[x].containers == old(g)@.containers[x].containers by {
            assert(g_created.containers[x].containers == old(g)@.containers[x].containers);
            assert(g_walked.containers[x].containers == g_created.containers[x].containers);
            assert(g@.containers[x].containers == g_walked.containers[x].containers);
        }
    }
}

/// Recursive descent from node `i`: a class declaration is walked as a class
/// under the file container `fc`; everything else passes the graph through
/// its named children in order.
pub open spec fn walk_root_spec(ast: Ast, code: Seq<u8>, gv: GraphView, fc: int, i: int) -> GraphView
    decreases ast.nodes@.len() - i, ast.nodes@[i].children@.len() + 1,
{
    if !(0 <= i < ast.nodes@.len()) {
        gv
    } else if ast.nodes@[i].kind == AstKind::ClassDeclaration {
        walk_class_spec(ast, code, gv, fc, i)
    } else {
        walk_root_children_spec(ast, code, gv, fc, i, 0)
    }
}

/// The graph threaded through the named children of `i`, from position `k`
/// on, each walked by the root descent.
pub open spec fn walk_root_children_spec(
    ast: Ast,
    code: Seq<u8>,
    gv: GraphView,
    fc: int,
    i: int,
    k: int,
) -> GraphView
    decreases ast.nodes@.len() - i, ast.nodes@[i].children@.len() - k,
{
    if !(0 <= i < ast.nodes@.len()) || !(0 <= k < ast.nodes@[i].children@.len()) {
        gv
    } else {
        let ch = ast.nodes@[i].children@[k];
        let gv1 = if i < ch < ast.nodes@.len() && ast.nodes@[ch as int].is_named {
            walk_root_spec(ast, code, gv, fc, ch as int)
        } else {
            gv
        };
        walk_root_children_spec(ast, code, gv1, fc, i, k + 1)
    }
}

/// Recursive descent from the root: a class declaration starts a class walk
/// under the file container `fc`; everything else is traversed transparently
/// through its named children.
pub fn walk_root(ast: &Ast, code: &Vec<u8>, g: &mut DataFlow, fc: usize, i: usize)
    requires
        ast_wf(*ast, code@.len()),
        graph_wf(old(g)@),
        (fc as int) < old(g)@.containers.len(),
        i < ast.nodes@.len(),
    ensures
        graph_wf(final(g)@),
        final(g)@ == walk_root_spec(*ast, code@, old(g)@, fc as int, i as int),
        graph_extends(old(g)@, final(g)@),
        attaches_only_under(old(g)@, final(g)@, fc as int),
    decreases ast.nodes@.len() - i,
{
    if ast.nodes[i].kind == AstKind::ClassDeclaration {
        walk_node_class(ast, code, g, fc, i);
        return;
    }
    let n_children = ast.nodes[i].children.len();
    let mut k: usize = 0;
    proof {
        lemma_extends_refl(g@);
    }
    while k < n_children
        invariant
            ast_wf(*ast, code@.len()),
            graph_wf(g@),
            i < ast.nodes@.len(),
            ast.nodes@[i as int].kind != AstKind::ClassDeclaration,
            n_children == ast.nodes@[i as int].children@.len(),
            k <= n_children,
            (fc as int) < g@.containers.len(),
            walk_root_children_spec(*ast, code@, g@, fc as int, i as int, k as int)
                == walk_root_spec(*ast, code@, old(g)@, fc as int, i as int),
            graph_extends(old(g)@, g@),
            attaches_only_under(old(g)@, g@, fc as int),
        decreases n_children - k,
    {
        let child = ast.nodes[i].children[k];
        if ast.nodes[child].is_named {
            let ghost g_before = g@;
            walk_root(ast, code, g, fc, child);
            proof {
                lemma_attaches_trans(old(g)@, g_before, g@, fc as int);
                lemma_extends_trans(old(g)@, g_before, g@);
            }
        }
        k = k + 1;
    }
}

/// The graph of one compilation unit: a FILE container named `file_name`
/// under the given name-resolution policy, filled by a root walk of the tree
/// when the tree is non-empty, and recorded as the single top-level scope.
pub open spec fn build_spec(ast: Ast, code: Seq<u8>, file_name: Seq<u8>, policy: ResolvePolicy) -> GraphView {
    let gv0 = gv_add_container(gv_empty(policy), Some(file_name), ContainerKind::FILE, None);
    let gv1 = if ast.nodes@.len() > 0 {
        walk_root_spec(ast, code, gv0, 0, 0)
    } else {
        gv0
    };
    gv_add_root(gv1, 0)
}

/// Builds the data-flow graph of one compilation unit: a FILE container named
/// `file_name` at the root of the forest, filled by a walk from the tree's
/// root under the given name-resolution policy.
pub fn build_graph(ast: &Ast, code: &Vec<u8>, file_name: Vec<u8>, policy: ResolvePolicy) -> (g:
    DataFlow)
    requires
        ast_wf(*ast, code@.len()),
    ensures
        graph_wf(g@),
        g@ == build_spec(*ast, code@, file_name@, policy),
        g@.policy == policy,
        g@.roots.len() == 1,
        g@.roots[0] == 0usize,
        g@.containers.len() >= 1,
        g@.containers[0].kind == ContainerKind::FILE,
        g@.containers[0].name == Some(file_name@),
        g@.containers[0].parent is None,
{
    let mut g = DataFlow::new(policy);
    let root = g.add_container(Some(file_name), ContainerKind::FILE, None);
    let ghost g_created = g@;
    if ast.nodes.len() > 0 {
        walk_root(ast, code, &mut g, root, 0);
    } else {
        proof {
            lemma_extends_refl(g@);
        }
    }
    proof {
        assert(g_created.containers[0].name == Some(file_name@));
        assert(g_created.containers[0].kind == ContainerKind::FILE);
        assert(g_created.containers[0].parent is None);
        assert(graph_extends(g_created, g@));
        assert(g@.containers[0].name == g_created.containers[0].name);
        assert(g@.containers[0].kind == g_created.containers[0].kind);
        assert(g@.containers[0].parent == g_created.containers[0].parent);
    }
    g.add_root(root);
    g
}

} // verus!
