use dataflow::ast::Ast;
use dataflow::ast::AstField;
use dataflow::ast::AstKind;
use dataflow::ast::AstNode;
use dataflow::common::contains_identifier;
use dataflow::common::get_code_for_node;
use dataflow::common::get_nodes_of_type;
use dataflow::java::build_graph;
use dataflow::java::get_identifiers_from_assignment;
use dataflow::java::walk_method_declaration_content;
use dataflow::model::ContainerKind;
use dataflow::model::DataFlow;
use dataflow::model::NodeKind;
use dataflow::model::ResolvePolicy;

fn n(
    kind: AstKind,
    is_named: bool,
    field: Option<AstField>,
    start_byte: usize,
    end_byte: usize,
    children: Vec<usize>,
) -> AstNode {
    AstNode { kind, is_named, field, start_byte, end_byte, children }
}

fn node_by_name(g: &DataFlow, c: usize, name: &[u8]) -> Option<usize> {
    for k in 0..g.containers[c].nodes.len() {
        let h = g.containers[c].nodes[k];
        if g.nodes[h].name == name {
            return Some(h);
        }
    }
    None
}

/// `x = a` as a tree over the source `x=a`.
fn assign_tree(right_kind: AstKind) -> (Ast, Vec<u8>) {
    let ast = Ast {
        nodes: vec![
            n(AstKind::AssignmentExpression, true, None, 0, 3, vec![1, 2]),
            n(AstKind::Identifier, true, Some(AstField::LeftField), 0, 1, vec![]),
            n(right_kind, true, Some(AstField::RightField), 2, 3, vec![]),
        ],
    };
    (ast, b"x=a".to_vec())
}

#[test]
fn idempotent_registration() {
    // Walking `x = a` twice in one scope yields exactly one VARIABLE node x.
    let (ast, code) = assign_tree(AstKind::Identifier);
    let mut g = DataFlow::new(ResolvePolicy::ScopeLocal);
    let c = g.add_container(None, ContainerKind::FUNCTION, None);
    walk_method_declaration_content(&ast, &code, &mut g, c, 0);
    walk_method_declaration_content(&ast, &code, &mut g, c, 0);
    assert_eq!(g.containers[c].nodes.len(), 1);
    assert_eq!(g.containers[c].nodes_by_name.len(), 1);
    assert_eq!(g.nodes.len(), 1);
    let h = g.containers[c].nodes[0];
    assert_eq!(g.nodes[h].name, b"x".to_vec());
    assert_eq!(g.nodes[h].kind, NodeKind::VARIABLE);
}

#[test]
fn register_node_reuses_existing() {
    let mut g = DataFlow::new(ResolvePolicy::ScopeLocal);
    let c = g.add_container(None, ContainerKind::FUNCTION, None);
    g.register_node(c, &b"x".to_vec(), NodeKind::PARAMETER, 0);
    g.register_node(c, &b"x".to_vec(), NodeKind::VARIABLE, 5);
    assert_eq!(g.nodes.len(), 1);
    assert_eq!(g.containers[c].nodes.len(), 1);
    // The first registration wins: kind and origin are kept.
    assert_eq!(g.nodes[0].kind, NodeKind::PARAMETER);
    assert_eq!(g.nodes[0].ast_node, 0);
}

#[test]
fn no_self_loop() {
    // For `x = x`, node x has empty inbound and outbound.
    let ast = Ast {
        nodes: vec![
            n(AstKind::AssignmentExpression, true, None, 0, 3, vec![1, 2]),
            n(AstKind::Identifier, true, Some(AstField::LeftField), 0, 1, vec![]),
            n(AstKind::Identifier, true, Some(AstField::RightField), 2, 3, vec![]),
        ],
    };
    let code = b"x=x".to_vec();
    let mut g = DataFlow::new(ResolvePolicy::ScopeLocal);
    let c = g.add_container(None, ContainerKind::FUNCTION, None);
    walk_method_declaration_content(&ast, &code, &mut g, c, 0);
    let h = node_by_name(&g, c, b"x").unwrap();
    assert!(g.nodes[h].inbound.is_empty());
    assert!(g.nodes[h].outbound.is_empty());
}

#[test]
fn self_flow_is_noop() {
    let mut g = DataFlow::new(ResolvePolicy::ScopeLocal);
    let c = g.add_container(None, ContainerKind::FUNCTION, None);
    g.register_node(c, &b"x".to_vec(), NodeKind::VARIABLE, 0);
    g.add_flow(c, &b"x".to_vec(), &b"x".to_vec());
    assert!(g.nodes[0].inbound.is_empty());
    assert!(g.nodes[0].outbound.is_empty());
}

#[test]
fn unresolved_name_is_noop() {
    // For `x = y` with y never declared, node x has empty inbound.
    let ast = Ast {
        nodes: vec![
            n(AstKind::AssignmentExpression, true, None, 0, 3, vec![1, 2]),
            n(AstKind::Identifier, true, Some(AstField::LeftField), 0, 1, vec![]),
            n(AstKind::Identifier, true, Some(AstField::RightField), 2, 3, vec![]),
        ],
    };
    let code = b"x=y".to_vec();
    let mut g = DataFlow::new(ResolvePolicy::ScopeLocal);
    let c = g.add_container(None, ContainerKind::FUNCTION, None);
    walk_method_declaration_content(&ast, &code, &mut g, c, 0);
    assert_eq!(g.nodes.len(), 1);
    let h = node_by_name(&g, c, b"x").unwrap();
    assert!(g.nodes[h].inbound.is_empty());
    assert!(node_by_name(&g, c, b"y").is_none());
}

#[test]
fn call_argument_flow() {
    // For `obj.call(y)` with both previously declared: y is in obj's inbound
    // and obj is in y's outbound.
    let ast = Ast {
        nodes: vec![
            n(AstKind::MethodInvocation, true, None, 0, 11, vec![1, 2, 3]),
            n(AstKind::Identifier, true, Some(AstField::ObjectField), 0, 3, vec![]),
            n(AstKind::Identifier, true, Some(AstField::NameField), 4, 8, vec![]),
            n(AstKind::Other, true, Some(AstField::ArgumentsField), 8, 11, vec![4]),
            n(AstKind::Identifier, true, None, 9, 10, vec![]),
        ],
    };
    let code = b"obj.call(y)".to_vec();
    let mut g = DataFlow::new(ResolvePolicy::ScopeLocal);
    let c = g.add_container(None, ContainerKind::FUNCTION, None);
    g.register_node(c, &b"obj".to_vec(), NodeKind::VARIABLE, 0);
    g.register_node(c, &b"y".to_vec(), NodeKind::VARIABLE, 0);
    walk_method_declaration_content(&ast, &code, &mut g, c, 0);
    let obj = node_by_name(&g, c, b"obj").unwrap();
    let y = node_by_name(&g, c, b"y").unwrap();
    assert!(g.nodes[obj].inbound.contains(&y));
    assert!(g.nodes[y].outbound.contains(&obj));
}

/// `a = f(b, g(c))` over the source `a=f(b,g(c))`.
fn chained_tree() -> (Ast, Vec<u8>) {
    let ast = Ast {
        nodes: vec![
            n(AstKind::AssignmentExpression, true, None, 0, 11, vec![1, 2]),
            n(AstKind::Identifier, true, Some(AstField::LeftField), 0, 1, vec![]),
            n(AstKind::MethodInvocation, true, Some(AstField::RightField), 2, 11, vec![3, 4]),
            n(AstKind::Identifier, true, Some(AstField::NameField), 2, 3, vec![]),
            n(AstKind::Other, true, Some(AstField::ArgumentsField), 3, 11, vec![5, 6]),
            n(AstKind::Identifier, true, None, 4, 5, vec![]),
            n(AstKind::MethodInvocation, true, None, 6, 10, vec![7, 8]),
            n(AstKind::Identifier, true, Some(AstField::NameField), 6, 7, vec![]),
            n(AstKind::Other, true, Some(AstField::ArgumentsField), 7, 10, vec![9]),
            n(AstKind::Identifier, true, None, 8, 9, vec![]),
        ],
    };
    (ast, b"a=f(b,g(c))".to_vec())
}

#[test]
fn chained_extraction_read_set() {
    // The right side of `a = f(b, g(c))` reads exactly {b, c}, not {f, g}.
    let (ast, code) = chained_tree();
    let ids = get_identifiers_from_assignment(&ast, 2);
    assert_eq!(ids.len(), 2);
    assert_eq!(get_code_for_node(&ast, ids[0], &code), b"b".to_vec());
    assert_eq!(get_code_for_node(&ast, ids[1], &code), b"c".to_vec());
}

#[test]
fn chained_extraction_edges() {
    // With b and c declared, walking `a = f(b, g(c))` creates exactly the
    // edges b -> a and c -> a.
    let (ast, code) = chained_tree();
    let mut g = DataFlow::new(ResolvePolicy::ScopeLocal);
    let c = g.add_container(None, ContainerKind::FUNCTION, None);
    g.register_node(c, &b"b".to_vec(), NodeKind::VARIABLE, 0);
    g.register_node(c, &b"c".to_vec(), NodeKind::VARIABLE, 0);
    walk_method_declaration_content(&ast, &code, &mut g, c, 0);
    let a = node_by_name(&g, c, b"a").unwrap();
    let b = node_by_name(&g, c, b"b").unwrap();
    let cc = node_by_name(&g, c, b"c").unwrap();
    assert_eq!(g.nodes[a].inbound, vec![b, cc]);
    assert_eq!(g.nodes[b].outbound, vec![a]);
    assert_eq!(g.nodes[cc].outbound, vec![a]);
    assert!(node_by_name(&g, c, b"f").is_none());
    assert!(node_by_name(&g, c, b"g").is_none());
}

#[test]
fn duplicate_reads_yield_duplicate_edges() {
    // `a = b + b` reads b twice and records the edge twice: the read list is
    // deliberately not deduplicated.
    let ast = Ast {
        nodes: vec![
            n(AstKind::AssignmentExpression, true, None, 0, 5, vec![1, 2]),
            n(AstKind::Identifier, true, Some(AstField::LeftField), 0, 1, vec![]),
            n(AstKind::BinaryExpression, true, Some(AstField::RightField), 2, 5, vec![3, 4]),
            n(AstKind::Identifier, true, Some(AstField::LeftField), 2, 3, vec![]),
            n(AstKind::Identifier, true, Some(AstField::RightField), 4, 5, vec![]),
        ],
    };
    let code = b"a=b+b".to_vec();
    let mut g = DataFlow::new(ResolvePolicy::ScopeLocal);
    let c = g.add_container(None, ContainerKind::FUNCTION, None);
    g.register_node(c, &b"b".to_vec(), NodeKind::VARIABLE, 0);
    walk_method_declaration_content(&ast, &code, &mut g, c, 0);
    let a = node_by_name(&g, c, b"a").unwrap();
    let b = node_by_name(&g, c, b"b").unwrap();
    assert_eq!(g.nodes[a].inbound, vec![b, b]);
    assert_eq!(g.nodes[b].outbound, vec![a, a]);
}

/// A class `A` whose method `doPost(request)` runs
/// `name = request.getParameter("n"); out = name;`, over a source that holds
/// the identifier texts.
fn end_to_end_tree() -> (Ast, Vec<u8>) {
    let code = b"A doPost request name out".to_vec();
    let ast = Ast {
        nodes: vec![
            n(AstKind::Other, true, None, 0, 25, vec![1]),
            n(AstKind::ClassDeclaration, true, None, 0, 25, vec![2, 3]),
            n(AstKind::Identifier, true, Some(AstField::NameField), 0, 1, vec![]),
            n(AstKind::ClassBody, true, None, 0, 25, vec![4]),
            n(AstKind::MethodDeclaration, true, None, 0, 25, vec![5, 6, 9]),
            n(AstKind::Identifier, true, Some(AstField::NameField), 2, 8, vec![]),
            n(AstKind::Other, true, Some(AstField::ParametersField), 0, 0, vec![7]),
            n(AstKind::FormalParameter, true, None, 9, 16, vec![8]),
            n(AstKind::Identifier, true, Some(AstField::NameField), 9, 16, vec![]),
            n(AstKind::Other, true, Some(AstField::BodyField), 0, 0, vec![10, 17]),
            n(AstKind::LocalVariableDeclaration, true, None, 0, 0, vec![11]),
            n(AstKind::Other, true, Some(AstField::DeclaratorField), 0, 0, vec![12, 13]),
            n(AstKind::Identifier, true, Some(AstField::NameField), 17, 21, vec![]),
            n(AstKind::MethodInvocation, true, Some(AstField::ValueField), 0, 0, vec![14, 15]),
            n(AstKind::Identifier, true, Some(AstField::ObjectField), 9, 16, vec![]),
            n(AstKind::Other, true, Some(AstField::ArgumentsField), 0, 0, vec![16]),
            n(AstKind::Other, true, None, 0, 0, vec![]),
            n(AstKind::LocalVariableDeclaration, true, None, 0, 0, vec![18]),
            n(AstKind::Other, true, Some(AstField::DeclaratorField), 0, 0, vec![19, 20]),
            n(AstKind::Identifier, true, Some(AstField::NameField), 22, 25, vec![]),
            n(AstKind::Identifier, true, Some(AstField::ValueField), 17, 21, vec![]),
        ],
    };
    (ast, code)
}

#[test]
fn end_to_end_containers_and_nodes() {
    let (ast, code) = end_to_end_tree();
    let g = build_graph(&ast, &code, b"Test.java".to_vec(), ResolvePolicy::ScopeLocal);
    assert_eq!(g.roots, vec![0]);
    assert_eq!(g.containers.len(), 3);
    assert_eq!(g.containers[0].kind, ContainerKind::FILE);
    assert_eq!(g.containers[0].name, Some(b"Test.java".to_vec()));
    assert_eq!(g.containers[0].containers, vec![1]);
    assert_eq!(g.containers[1].kind, ContainerKind::CLASS);
    assert_eq!(g.containers[1].name, Some(b"A".to_vec()));
    assert_eq!(g.containers[1].containers, vec![2]);
    assert_eq!(g.containers[2].kind, ContainerKind::FUNCTION);
    assert_eq!(g.containers[2].name, Some(b"doPost".to_vec()));
    let f = 2;
    assert_eq!(g.containers[f].nodes.len(), 3);
    let request = g.containers[f].nodes[0];
    let name = g.containers[f].nodes[1];
    let out = g.containers[f].nodes[2];
    assert_eq!(g.nodes[request].name, b"request".to_vec());
    assert_eq!(g.nodes[request].kind, NodeKind::PARAMETER);
    assert_eq!(g.nodes[name].name, b"name".to_vec());
    assert_eq!(g.nodes[name].kind, NodeKind::VARIABLE);
    assert_eq!(g.nodes[out].name, b"out".to_vec());
    assert_eq!(g.nodes[out].kind, NodeKind::VARIABLE);
    // The assignment rule records name -> out.
    assert!(g.nodes[out].inbound.contains(&name));
    assert!(g.nodes[name].outbound.contains(&out));
    // The call's receiver is an identifier, so it is read: request -> name.
    // The string literal argument contributes nothing.
    assert!(g.nodes[name].inbound.contains(&request));
}

#[test]
fn edge_symmetry_of_built_graph() {
    // For all nodes P, Q of a built graph: Q in P.outbound iff P in Q.inbound.
    let (ast, code) = end_to_end_tree();
    let g = build_graph(&ast, &code, b"Test.java".to_vec(), ResolvePolicy::ScopeLocal);
    for p in 0..g.nodes.len() {
        for &q in &g.nodes[p].outbound {
            assert!(g.nodes[q].inbound.contains(&p));
        }
        for &q in &g.nodes[p].inbound {
            assert!(g.nodes[q].outbound.contains(&p));
        }
    }
}

#[test]
fn scope_isolation() {
    // Two methods each declaring `x` produce two distinct nodes, neither
    // visible in the other's name table.
    let code = b"A m1 m2 x".to_vec();
    let ast = Ast {
        nodes: vec![
            n(AstKind::Other, true, None, 0, 9, vec![1]),
            n(AstKind::ClassDeclaration, true, None, 0, 9, vec![2, 3]),
            n(AstKind::Identifier, true, Some(AstField::NameField), 0, 1, vec![]),
            n(AstKind::ClassBody, true, None, 0, 9, vec![4, 11]),
            n(AstKind::MethodDeclaration, true, None, 0, 0, vec![5, 6]),
            n(AstKind::Identifier, true, Some(AstField::NameField), 2, 4, vec![]),
            n(AstKind::Other, true, Some(AstField::BodyField), 0, 0, vec![7]),
            n(AstKind::LocalVariableDeclaration, true, None, 0, 0, vec![8]),
            n(AstKind::Other, true, Some(AstField::DeclaratorField), 0, 0, vec![9, 10]),
            n(AstKind::Identifier, true, Some(AstField::NameField), 8, 9, vec![]),
            n(AstKind::Other, true, Some(AstField::ValueField), 0, 0, vec![]),
            n(AstKind::MethodDeclaration, true, None, 0, 0, vec![12, 13]),
            n(AstKind::Identifier, true, Some(AstField::NameField), 5, 7, vec![]),
            n(AstKind::Other, true, Some(AstField::BodyField), 0, 0, vec![14]),
            n(AstKind::LocalVariableDeclaration, true, None, 0, 0, vec![15]),
            n(AstKind::Other, true, Some(AstField::DeclaratorField), 0, 0, vec![16, 17]),
            n(AstKind::Identifier, true, Some(AstField::NameField), 8, 9, vec![]),
            n(AstKind::Other, true, Some(AstField::ValueField), 0, 0, vec![]),
        ],
    };
    let g = build_graph(&ast, &code, b"Test.java".to_vec(), ResolvePolicy::ScopeLocal);
    assert_eq!(g.containers.len(), 4);
    let m1 = 2;
    let m2 = 3;
    assert_eq!(g.containers[m1].name, Some(b"m1".to_vec()));
    assert_eq!(g.containers[m2].name, Some(b"m2".to_vec()));
    assert_eq!(g.containers[m1].nodes.len(), 1);
    assert_eq!(g.containers[m2].nodes.len(), 1);
    let x1 = g.containers[m1].nodes[0];
    let x2 = g.containers[m2].nodes[0];
    assert_ne!(x1, x2);
    assert_eq!(g.nodes[x1].name, b"x".to_vec());
    assert_eq!(g.nodes[x2].name, b"x".to_vec());
    assert!(!g.containers[m2].nodes.contains(&x1));
    assert!(!g.containers[m1].nodes.contains(&x2));
}

#[test]
fn scope_local_policy_ignores_outer_scope() {
    let mut g = DataFlow::new(ResolvePolicy::ScopeLocal);
    let outer = g.add_container(None, ContainerKind::FILE, None);
    let inner = g.add_container(None, ContainerKind::FUNCTION, Some(outer));
    g.attach_container(outer, inner);
    g.register_node(outer, &b"x".to_vec(), NodeKind::VARIABLE, 0);
    g.register_node(inner, &b"y".to_vec(), NodeKind::VARIABLE, 0);
    g.add_flow(inner, &b"x".to_vec(), &b"y".to_vec());
    let x = g.containers[outer].nodes[0];
    let y = g.containers[inner].nodes[0];
    assert!(g.nodes[y].inbound.is_empty());
    assert!(g.nodes[x].outbound.is_empty());
}

#[test]
fn lexical_policy_sees_outer_scope() {
    let mut g = DataFlow::new(ResolvePolicy::Lexical);
    let outer = g.add_container(None, ContainerKind::FILE, None);
    let inner = g.add_container(None, ContainerKind::FUNCTION, Some(outer));
    g.attach_container(outer, inner);
    g.register_node(outer, &b"x".to_vec(), NodeKind::VARIABLE, 0);
    g.register_node(inner, &b"y".to_vec(), NodeKind::VARIABLE, 0);
    g.add_flow(inner, &b"x".to_vec(), &b"y".to_vec());
    let x = g.containers[outer].nodes[0];
    let y = g.containers[inner].nodes[0];
    assert_eq!(g.nodes[y].inbound, vec![x]);
    assert_eq!(g.nodes[x].outbound, vec![y]);
}

#[test]
fn contains_identifier_finds_nested() {
    let ast = Ast {
        nodes: vec![
            n(AstKind::Other, true, None, 0, 2, vec![1, 2]),
            n(AstKind::Identifier, true, None, 0, 1, vec![]),
            n(AstKind::Other, true, None, 1, 2, vec![3]),
            n(AstKind::Identifier, true, None, 1, 2, vec![]),
        ],
    };
    let code = b"xy".to_vec();
    assert!(contains_identifier(&ast, 0, &b"x".to_vec(), &code));
    assert!(contains_identifier(&ast, 0, &b"y".to_vec(), &code));
    assert!(!contains_identifier(&ast, 0, &b"z".to_vec(), &code));
    assert!(contains_identifier(&ast, 1, &b"x".to_vec(), &code));
    assert!(!contains_identifier(&ast, 1, &b"y".to_vec(), &code));
}

#[test]
fn contains_identifier_skips_anonymous_subtrees() {
    let ast = Ast {
        nodes: vec![
            n(AstKind::Other, true, None, 0, 1, vec![1]),
            n(AstKind::Other, false, None, 0, 1, vec![2]),
            n(AstKind::Identifier, true, None, 0, 1, vec![]),
        ],
    };
    let code = b"x".to_vec();
    assert!(!contains_identifier(&ast, 0, &b"x".to_vec(), &code));
}

#[test]
fn get_nodes_of_type_preorder() {
    let ast = Ast {
        nodes: vec![
            n(AstKind::Other, true, None, 0, 2, vec![1, 3]),
            n(AstKind::Other, true, None, 0, 1, vec![2]),
            n(AstKind::Identifier, true, None, 0, 1, vec![]),
            n(AstKind::Identifier, true, None, 1, 2, vec![]),
        ],
    };
    assert_eq!(get_nodes_of_type(&ast, 0, AstKind::Identifier), vec![2, 3]);
    assert_eq!(get_nodes_of_type(&ast, 2, AstKind::Identifier), vec![2]);
    assert_eq!(get_nodes_of_type(&ast, 0, AstKind::BinaryExpression), Vec::<usize>::new());
}

#[test]
fn get_code_for_node_slices_span() {
    let ast = Ast {
        nodes: vec![n(AstKind::Identifier, true, None, 4, 9, vec![])],
    };
    let code = b"let hello = 1".to_vec();
    assert_eq!(get_code_for_node(&ast, 0, &code), b"hello".to_vec());
}

#[test]
fn child_by_field_takes_first_match() {
    let ast = Ast {
        nodes: vec![
            n(AstKind::Other, true, None, 0, 0, vec![1, 2, 3]),
            n(AstKind::Other, true, Some(AstField::BodyField), 0, 0, vec![]),
            n(AstKind::Identifier, true, Some(AstField::NameField), 0, 0, vec![]),
            n(AstKind::Identifier, true, Some(AstField::NameField), 0, 0, vec![]),
        ],
    };
    assert_eq!(ast.child_by_field(0, AstField::NameField), Some(2));
    assert_eq!(ast.child_by_field(0, AstField::BodyField), Some(1));
    assert_eq!(ast.child_by_field(0, AstField::LeftField), None);
}

#[test]
fn build_graph_on_empty_tree() {
    let ast = Ast { nodes: vec![] };
    let code: Vec<u8> = Vec::new();
    let g = build_graph(&ast, &code, b"f.java".to_vec(), ResolvePolicy::ScopeLocal);
    assert_eq!(g.roots, vec![0]);
    assert_eq!(g.containers.len(), 1);
    assert_eq!(g.containers[0].kind, ContainerKind::FILE);
    assert_eq!(g.containers[0].name, Some(b"f.java".to_vec()));
    assert!(g.containers[0].containers.is_empty());
    assert!(g.nodes.is_empty());
}

#[test]
fn class_without_name_is_skipped() {
    let ast = Ast {
        nodes: vec![
            n(AstKind::Other, true, None, 0, 0, vec![1]),
            n(AstKind::ClassDeclaration, true, None, 0, 0, vec![2]),
            n(AstKind::ClassBody, true, None, 0, 0, vec![]),
        ],
    };
    let code: Vec<u8> = Vec::new();
    let g = build_graph(&ast, &code, b"f.java".to_vec(), ResolvePolicy::ScopeLocal);
    assert_eq!(g.containers.len(), 1);
    assert!(g.containers[0].containers.is_empty());
}

#[test]
fn method_without_name_is_skipped() {
    let code = b"A".to_vec();
    let ast = Ast {
        nodes: vec![
            n(AstKind::Other, true, None, 0, 1, vec![1]),
            n(AstKind::ClassDeclaration, true, None, 0, 1, vec![2, 3]),
            n(AstKind::Identifier, true, Some(AstField::NameField), 0, 1, vec![]),
            n(AstKind::ClassBody, true, None, 0, 1, vec![4]),
            n(AstKind::MethodDeclaration, true, None, 0, 0, vec![5]),
            n(AstKind::Other, true, Some(AstField::BodyField), 0, 0, vec![]),
        ],
    };
    let g = build_graph(&ast, &code, b"f.java".to_vec(), ResolvePolicy::ScopeLocal);
    assert_eq!(g.containers.len(), 2);
    assert!(g.containers[1].containers.is_empty());
}

#[test]
fn assignment_to_non_identifier_is_skipped() {
    // `a.b = c`: the left side is not a plain identifier, so nothing is
    // registered and no edge is inserted.
    let ast = Ast {
        nodes: vec![
            n(AstKind::AssignmentExpression, true, None, 0, 7, vec![1, 2]),
            n(AstKind::Other, true, Some(AstField::LeftField), 0, 3, vec![]),
            n(AstKind::Identifier, true, Some(AstField::RightField), 6, 7, vec![]),
        ],
    };
    let code = b"a.b = c".to_vec();
    let mut g = DataFlow::new(ResolvePolicy::ScopeLocal);
    let c = g.add_container(None, ContainerKind::FUNCTION, None);
    walk_method_declaration_content(&ast, &code, &mut g, c, 0);
    assert!(g.nodes.is_empty());
}

#[test]
fn receiver_read_both_as_object_and_argument() {
    // `a = o.f(o)` reads o twice: once as receiver, once as argument.
    let ast = Ast {
        nodes: vec![
            n(AstKind::AssignmentExpression, true, None, 0, 8, vec![1, 2]),
            n(AstKind::Identifier, true, Some(AstField::LeftField), 0, 1, vec![]),
            n(AstKind::MethodInvocation, true, Some(AstField::RightField), 2, 8, vec![3, 4, 5]),
            n(AstKind::Identifier, true, Some(AstField::ObjectField), 2, 3, vec![]),
            n(AstKind::Identifier, true, Some(AstField::NameField), 4, 5, vec![]),
            n(AstKind::Other, true, Some(AstField::ArgumentsField), 5, 8, vec![6]),
            n(AstKind::Identifier, true, None, 6, 7, vec![]),
        ],
    };
    let code = b"a=o.f(o)".to_vec();
    let ids = get_identifiers_from_assignment(&ast, 2);
    assert_eq!(ids.len(), 2);
    assert_eq!(get_code_for_node(&ast, ids[0], &code), b"o".to_vec());
    assert_eq!(get_code_for_node(&ast, ids[1], &code), b"o".to_vec());
}
