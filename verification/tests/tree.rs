use steel::emit::{
    children, contains_iota, def_body, fiber_sym, find_shape_scope, is_gamma_operand, leftmost,
    scan_despawn, shape_dims, stmt_effects, stmt_sel, strip_frame,
};
use steel::lex::NumText;
use steel::{Node, NodeKind, Symbol};

fn nd(kind: NodeKind) -> Node {
    Node::new(kind, 1)
}

fn name(i: u32) -> Node {
    nd(NodeKind::Name(Symbol(i)))
}

fn bx(n: Node) -> Box<Node> {
    Box::new(n)
}

fn shape(dims: Vec<Node>) -> Node {
    nd(NodeKind::Shape(dims))
}

fn num() -> Node {
    nd(NodeKind::Num(NumText::Zero))
}

#[test]
fn kind_codes_follow_declaration_order() {
    assert_eq!(NodeKind::Num(NumText::Zero).c_kind(), 0);
    assert_eq!(NodeKind::Wild.c_kind(), 6);
    assert_eq!(NodeKind::CmpAny { name: Symbol(1) }.c_kind(), 10);
    assert_eq!(NodeKind::SetHop { rel: Symbol(1) }.c_kind(), 14);
    assert_eq!(NodeKind::EDespawn.c_kind(), 34);
    assert_eq!(NodeKind::Query(bx(num())).c_kind(), 40);
    assert_eq!(NodeKind::Program(Vec::new()).c_kind(), 42);
    assert_eq!(NodeKind::UndefStmt { name: Symbol(2) }.c_kind(), 43);
}

#[test]
fn children_come_in_traversal_order() {
    let scope = nd(NodeKind::Scope { l: bx(name(1)), r: bx(name(2)), origin: Some(bx(name(3))) });
    let ks = children(&scope);
    assert_eq!(ks.len(), 3);
    assert_eq!(*ks[0], name(1));
    assert_eq!(*ks[1], name(2));
    assert_eq!(*ks[2], name(3));

    let spawn = nd(NodeKind::ESpawn { what: bx(name(4)), count: None, at: Some(bx(name(5))) });
    let ks = children(&spawn);
    assert_eq!(ks.len(), 2);
    assert_eq!(*ks[0], name(4));
    assert_eq!(*ks[1], name(5));

    let stmt = nd(NodeKind::Stmt {
        sel: None,
        effects: vec![name(6), name(7)],
        rule: false,
        cont: false,
        elided: false,
    });
    let ks = children(&stmt);
    assert_eq!(ks.len(), 2);
    assert_eq!(*ks[0], name(6));

    // a set hop's relation and a presence-any comparison's name are no kids
    assert!(children(&nd(NodeKind::SetHop { rel: Symbol(1) })).is_empty());
    assert!(children(&nd(NodeKind::CmpAny { name: Symbol(1) })).is_empty());
}

#[test]
fn iota_and_despawn_are_found_at_any_depth() {
    let deep = nd(NodeKind::Pipe {
        src: bx(name(1)),
        stages: vec![name(2), nd(NodeKind::Not(bx(nd(NodeKind::IotaX(bx(num()))))))],
    });
    assert!(contains_iota(&deep));
    assert!(!scan_despawn(&deep));
    assert!(!contains_iota(&name(1)));

    let stmt = nd(NodeKind::Stmt {
        sel: Some(bx(name(1))),
        effects: vec![nd(NodeKind::EAdd(Symbol(2))), nd(NodeKind::EDespawn)],
        rule: false,
        cont: false,
        elided: false,
    });
    assert!(scan_despawn(&stmt));
    assert!(!contains_iota(&stmt));
}

#[test]
fn leftmost_walks_conjunctions_disjunctions_and_scopes() {
    let chain = nd(NodeKind::And(
        bx(nd(NodeKind::Scope { l: bx(nd(NodeKind::Or(bx(name(9)), bx(name(2))))), r: bx(name(3)), origin: None })),
        bx(name(4)),
    ));
    assert_eq!(*leftmost(&chain), name(9));
    // a comparison stops the walk
    let cmp = nd(NodeKind::Cmp { op: steel::CmpOp::Eq, l: bx(name(1)), r: bx(name(2)) });
    assert_eq!(leftmost(&cmp).kind.c_kind(), 10);
}

#[test]
fn the_first_shape_scope_is_found_in_pre_order() {
    let s1 = shape(vec![num()]);
    let s2 = shape(vec![num(), num()]);
    let first = nd(NodeKind::Scope { l: bx(name(1)), r: bx(s1), origin: None });
    let second = nd(NodeKind::Scope { l: bx(name(2)), r: bx(s2), origin: None });
    let tree = nd(NodeKind::Or(bx(first), bx(second)));
    let found = find_shape_scope(&tree).expect("a shape scope");
    assert_eq!(shape_dims(found).len(), 1);
    assert!(find_shape_scope(&name(1)).is_none());
    // a shape that is no scope's right side is not what is sought
    assert!(find_shape_scope(&shape(vec![num()])).is_none());
}

#[test]
fn strip_frame_drops_the_frame_source() {
    let sh = shape(vec![num()]);
    assert!(strip_frame(None).is_none());
    assert!(strip_frame(Some(&sh)).is_none());

    let board = nd(NodeKind::To { shape: bx(shape(vec![num()])), poured: Some(bx(nd(NodeKind::Str(Symbol(3))))) });
    assert!(strip_frame(Some(&board)).is_none());
    let poured = nd(NodeKind::To { shape: bx(shape(vec![num()])), poured: Some(bx(name(3))) });
    assert_eq!(*strip_frame(Some(&poured)).unwrap(), poured);

    let framed = nd(NodeKind::And(bx(shape(vec![num()])), bx(name(5))));
    assert_eq!(*strip_frame(Some(&framed)).unwrap(), name(5));

    // a shape buried deeper stays in place
    let buried = nd(NodeKind::And(
        bx(nd(NodeKind::And(bx(shape(vec![num()])), bx(name(6))))),
        bx(name(7)),
    ));
    assert_eq!(*strip_frame(Some(&buried)).unwrap(), buried);
}

#[test]
fn gamma_operands_start_with_a_set_hop() {
    let hop = nd(NodeKind::SetHop { rel: Symbol(1) });
    assert!(is_gamma_operand(&hop));
    assert!(is_gamma_operand(&nd(NodeKind::Hop { l: bx(nd(NodeKind::SetHop { rel: Symbol(1) })), r: bx(name(2)) })));
    assert!(is_gamma_operand(&nd(NodeKind::And(bx(nd(NodeKind::SetHop { rel: Symbol(1) })), bx(name(2))))));
    assert!(!is_gamma_operand(&nd(NodeKind::Or(bx(nd(NodeKind::SetHop { rel: Symbol(1) })), bx(name(2))))));
    assert!(!is_gamma_operand(&name(1)));
}

#[test]
fn statement_and_definition_parts() {
    let stmt = nd(NodeKind::Stmt {
        sel: Some(bx(name(1))),
        effects: vec![nd(NodeKind::EAdd(Symbol(2)))],
        rule: true,
        cont: false,
        elided: false,
    });
    assert_eq!(*stmt_sel(&stmt).unwrap(), name(1));
    assert_eq!(stmt_effects(&stmt).len(), 1);
    assert!(stmt_sel(&name(1)).is_none());
    assert!(stmt_effects(&name(1)).is_empty());
    assert!(shape_dims(&name(1)).is_empty());
    assert_eq!(shape_dims(&shape(vec![num(), num(), num()])).len(), 3);

    let def = nd(NodeKind::DefStmt { name: Symbol(4), body: bx(name(8)) });
    assert_eq!(*def_body(&def), name(8));
    assert_eq!(*def_body(&name(8)), name(8));
}

#[test]
fn fiber_names_by_node_kind() {
    assert_eq!(fiber_sym(&name(5)), Symbol(5));
    assert_eq!(fiber_sym(&nd(NodeKind::Alias { look: Symbol(6), req: Symbol(7) })), Symbol(6));
    assert_eq!(fiber_sym(&nd(NodeKind::SetHop { rel: Symbol(8) })), Symbol(8));
    assert_eq!(fiber_sym(&num()), Symbol(0));
}
