use biome_js_semantic::{JsNode, ReferenceKind, SemanticModel, SemanticModelData};
use biome_js_syntax::{JsSyntaxElement, JsSyntaxKind, JsSyntaxNode, JsSyntaxToken};
use biome_rowan::{TextRange, TextSize};

fn node(kind: JsSyntaxKind) -> JsNode {
    let slots: [Option<JsSyntaxElement>; 0] = [];
    JsNode(JsSyntaxNode::new_detached(kind, slots))
}

fn name(text: &str) -> String {
    let token = JsSyntaxToken::new_detached(JsSyntaxKind::IDENT, text, [], []);
    token.token_text().text().to_string()
}

fn range(start: u32, end: u32) -> TextRange {
    TextRange::new(TextSize::from(start), TextSize::from(end))
}

// `let x;` at top level, never read.
#[test]
fn declared_and_never_read() {
    let mut data = SemanticModelData::new(node(JsSyntaxKind::JS_MODULE));
    let root = data
        .push_scope(None, range(0, 6), node(JsSyntaxKind::JS_MODULE), false)
        .unwrap();
    let x = data.push_binding(root, name("x")).unwrap();
    let model = SemanticModel::new(data);

    let bindings = model.all_bindings();
    assert_eq!(bindings.len(), 1);
    assert_eq!(bindings[0].binding_id(), x);
    assert_eq!(bindings[0].name(), "x");
    assert_eq!(bindings[0].all_references().len(), 0);
    assert_eq!(bindings[0].all_reads().len(), 0);
    assert_eq!(bindings[0].all_writes().len(), 0);

    let global = model.global_scope().unwrap();
    let found = global.get_binding("x").unwrap();
    assert!(found == bindings[0]);
    assert!(global.get_binding("y").is_none());
}

// function outer() { let x; function inner() { x; } }
#[test]
fn inner_function_captures_outer_binding() {
    let mut data = SemanticModelData::new(node(JsSyntaxKind::JS_MODULE));
    let root = data
        .push_scope(None, range(0, 50), node(JsSyntaxKind::JS_MODULE), false)
        .unwrap();
    let outer = data
        .push_scope(
            Some(root),
            range(0, 50),
            node(JsSyntaxKind::JS_FUNCTION_DECLARATION),
            true,
        )
        .unwrap();
    let x = data.push_binding(outer, name("x")).unwrap();
    let inner = data
        .push_scope(
            Some(outer),
            range(27, 48),
            node(JsSyntaxKind::JS_FUNCTION_DECLARATION),
            true,
        )
        .unwrap();
    assert_eq!(
        data.push_reference(x, inner, range(46, 47), ReferenceKind::Read),
        Some(0)
    );
    let model = SemanticModel::new(data);

    let global = model.global_scope().unwrap();
    assert!(global.closure().is_none());
    assert!(global.parent().is_none());

    let mut walk = global.descendents();
    let first = walk.next().unwrap();
    let second = walk.next().unwrap();
    let third = walk.next().unwrap();
    assert!(walk.next().is_none());
    assert!(walk.next().is_none());
    assert_eq!(first.scope_id(), root);
    assert_eq!(second.scope_id(), outer);
    assert_eq!(third.scope_id(), inner);
    assert!(second.parent().unwrap() == first);
    assert!(third.parent().unwrap() == second);

    let outer_closure = second.closure().unwrap();
    let inner_closure = third.closure().unwrap();
    assert!(second.get_binding("x").is_some());
    assert!(third.get_binding("x").is_none());

    let captured = inner_closure.all_captures();
    assert_eq!(captured.len(), 1);
    assert_eq!(captured[0].binding_id(), x);
    assert_eq!(captured[0].name(), "x");
    assert_eq!(outer_closure.all_captures().len(), 0);

    let reads = captured[0].all_reads();
    assert_eq!(reads.len(), 1);
    assert!(reads[0].is_read());
    assert!(reads[0].scope() == third);
    assert!(reads[0].binding() == captured[0]);
    assert_eq!(*reads[0].range(), range(46, 47));
}

// { let a; } { let a; }
#[test]
fn sibling_blocks_keep_their_own_bindings() {
    let mut data = SemanticModelData::new(node(JsSyntaxKind::JS_MODULE));
    let root = data
        .push_scope(None, range(0, 23), node(JsSyntaxKind::JS_MODULE), false)
        .unwrap();
    let left = data
        .push_scope(
            Some(root),
            range(0, 10),
            node(JsSyntaxKind::JS_BLOCK_STATEMENT),
            false,
        )
        .unwrap();
    let a_left = data.push_binding(left, name("a")).unwrap();
    let right = data
        .push_scope(
            Some(root),
            range(11, 21),
            node(JsSyntaxKind::JS_BLOCK_STATEMENT),
            false,
        )
        .unwrap();
    let a_right = data.push_binding(right, name("a")).unwrap();
    let model = SemanticModel::new(data);
    assert_ne!(a_left, a_right);

    let global = model.global_scope().unwrap();
    let mut walk = global.descendents();
    let _ = walk.next().unwrap();
    let left_scope = walk.next().unwrap();
    let right_scope = walk.next().unwrap();
    assert!(walk.next().is_none());
    assert_eq!(left_scope.scope_id(), left);
    assert_eq!(right_scope.scope_id(), right);

    let in_left = left_scope.get_binding("a").unwrap();
    let in_right = right_scope.get_binding("a").unwrap();
    assert_eq!(in_left.binding_id(), a_left);
    assert_eq!(in_right.binding_id(), a_right);
    assert!(in_left != in_right);
    assert!(in_left.scope() == left_scope);
    assert!(in_right.scope() == right_scope);
    assert!(global.get_binding("a").is_none());

    let mut own = left_scope.bindings();
    assert_eq!(own.len(), 1);
    assert_eq!(own.next().unwrap().binding_id(), a_left);
    assert_eq!(own.len(), 0);
    assert!(own.next().is_none());
}

// let v; v = 1; v;
#[test]
fn write_then_read_in_source_order() {
    let mut data = SemanticModelData::new(node(JsSyntaxKind::JS_MODULE));
    let root = data
        .push_scope(None, range(0, 16), node(JsSyntaxKind::JS_MODULE), false)
        .unwrap();
    let v = data.push_binding(root, name("v")).unwrap();
    assert_eq!(
        data.push_reference(v, root, range(7, 8), ReferenceKind::Write),
        Some(0)
    );
    assert_eq!(
        data.push_reference(v, root, range(14, 15), ReferenceKind::Read),
        Some(1)
    );
    let model = SemanticModel::new(data);

    let binding = model.global_scope().unwrap().get_binding("v").unwrap();
    let all = binding.all_references();
    assert_eq!(all.len(), 2);
    assert!(all[0].kind() == ReferenceKind::Write);
    assert!(all[0].is_write() && !all[0].is_read());
    assert_eq!(*all[0].range(), range(7, 8));
    assert!(all[1].kind() == ReferenceKind::Read);
    assert!(all[1].is_read() && !all[1].is_write());
    assert_eq!(*all[1].range(), range(14, 15));
    assert_eq!(binding.all_writes().len(), 1);
    assert_eq!(binding.all_reads().len(), 1);
}
