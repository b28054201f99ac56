use biome_js_semantic::{
    JsNode, ReferenceKind, SemanticModel, SemanticModelData, SemanticScopeExtensions,
};
use biome_js_syntax::{JsSyntaxElement, JsSyntaxKind, JsSyntaxNode, JsSyntaxToken};
use biome_rowan::{TextRange, TextSize};

fn node(kind: JsSyntaxKind) -> JsNode {
    let slots: [Option<JsSyntaxElement>; 0] = [];
    JsNode(JsSyntaxNode::new_detached(kind, slots))
}

fn token(kind: JsSyntaxKind, text: &str) -> Option<JsSyntaxElement> {
    Some(JsSyntaxElement::from(JsSyntaxToken::new_detached(
        kind,
        text,
        [],
        [],
    )))
}

fn name(text: &str) -> String {
    let token = JsSyntaxToken::new_detached(JsSyntaxKind::IDENT, text, [], []);
    token.token_text().text().to_string()
}

fn range(start: u32, end: u32) -> TextRange {
    TextRange::new(TextSize::from(start), TextSize::from(end))
}

// The text `ab{cd{e}}fg` as a tree: a module (0..11) around a block (2..9)
// around a block (5..8).
fn nested_blocks() -> (JsSyntaxNode, JsSyntaxNode, JsSyntaxNode) {
    let innermost = JsSyntaxNode::new_detached(
        JsSyntaxKind::JS_BLOCK_STATEMENT,
        [
            token(JsSyntaxKind::L_CURLY, "{"),
            token(JsSyntaxKind::IDENT, "e"),
            token(JsSyntaxKind::R_CURLY, "}"),
        ],
    );
    let middle = JsSyntaxNode::new_detached(
        JsSyntaxKind::JS_BLOCK_STATEMENT,
        [
            token(JsSyntaxKind::L_CURLY, "{"),
            token(JsSyntaxKind::IDENT, "cd"),
            Some(JsSyntaxElement::from(innermost)),
            token(JsSyntaxKind::R_CURLY, "}"),
        ],
    );
    let module = JsSyntaxNode::new_detached(
        JsSyntaxKind::JS_MODULE,
        [
            token(JsSyntaxKind::IDENT, "ab"),
            Some(JsSyntaxElement::from(middle)),
            token(JsSyntaxKind::IDENT, "fg"),
        ],
    );
    let middle = module.children().next().unwrap();
    let innermost = middle.children().next().unwrap();
    assert_eq!(module.text_range(), range(0, 11));
    assert_eq!(middle.text_range(), range(2, 9));
    assert_eq!(innermost.text_range(), range(5, 8));
    (module, middle, innermost)
}

#[test]
fn a_new_arena_is_empty() {
    let model = SemanticModel::new(SemanticModelData::new(node(JsSyntaxKind::JS_MODULE)));
    assert!(model.global_scope().is_none());
    assert!(model.all_bindings().is_empty());
    assert!(model.scope(&node(JsSyntaxKind::JS_MODULE)).is_none());
    assert!(model
        .scope_hoisted_to(&node(JsSyntaxKind::JS_MODULE))
        .is_none());
}

#[test]
fn the_first_scope_is_the_root_and_has_no_parent() {
    let mut data = SemanticModelData::new(node(JsSyntaxKind::JS_MODULE));
    assert_eq!(
        data.push_scope(Some(0), range(0, 1), node(JsSyntaxKind::JS_MODULE), false),
        None
    );
    assert_eq!(
        data.push_scope(None, range(0, 1), node(JsSyntaxKind::JS_MODULE), false),
        Some(0)
    );
    let model = SemanticModel::new(data);
    let global = model.global_scope().unwrap();
    assert_eq!(global.scope_id(), 0);
    assert!(global.parent().is_none());
}

#[test]
fn later_scopes_need_a_parent_that_exists() {
    let mut data = SemanticModelData::new(node(JsSyntaxKind::JS_MODULE));
    assert_eq!(
        data.push_scope(None, range(0, 9), node(JsSyntaxKind::JS_MODULE), false),
        Some(0)
    );
    assert_eq!(
        data.push_scope(None, range(0, 9), node(JsSyntaxKind::JS_MODULE), false),
        None
    );
    assert_eq!(
        data.push_scope(Some(1), range(0, 9), node(JsSyntaxKind::JS_MODULE), false),
        None
    );
    assert_eq!(
        data.push_scope(
            Some(u32::MAX),
            range(0, 9),
            node(JsSyntaxKind::JS_MODULE),
            false
        ),
        None
    );
    assert_eq!(
        data.push_scope(Some(0), range(1, 2), node(JsSyntaxKind::JS_MODULE), false),
        Some(1)
    );
    assert_eq!(
        data.push_scope(Some(1), range(1, 2), node(JsSyntaxKind::JS_MODULE), true),
        Some(2)
    );
    let model = SemanticModel::new(data);
    let mut walk = model.global_scope().unwrap().descendents();
    let mut count = 0;
    while walk.next().is_some() {
        count += 1;
    }
    assert_eq!(count, 3);
}

#[test]
fn bindings_need_a_scope_that_exists() {
    let mut data = SemanticModelData::new(node(JsSyntaxKind::JS_MODULE));
    assert_eq!(data.push_binding(0, name("early")), None);
    let root = data
        .push_scope(None, range(0, 9), node(JsSyntaxKind::JS_MODULE), false)
        .unwrap();
    assert_eq!(data.push_binding(1, name("nowhere")), None);
    assert_eq!(data.push_binding(root, name("a")), Some(0));
    assert_eq!(data.push_binding(root, name("b")), Some(1));
    let model = SemanticModel::new(data);
    let names: Vec<String> = model
        .all_bindings()
        .iter()
        .map(|binding| binding.name().to_string())
        .collect();
    assert_eq!(names, vec!["a".to_string(), "b".to_string()]);
    let global = model.global_scope().unwrap();
    assert!(global.get_binding("early").is_none());
    assert!(global.get_binding("nowhere").is_none());
}

#[test]
fn references_need_a_binding_and_a_scope_that_exist() {
    let mut data = SemanticModelData::new(node(JsSyntaxKind::JS_MODULE));
    let root = data
        .push_scope(None, range(0, 9), node(JsSyntaxKind::JS_MODULE), false)
        .unwrap();
    assert_eq!(
        data.push_reference(0, root, range(1, 2), ReferenceKind::Read),
        None
    );
    let a = data.push_binding(root, name("a")).unwrap();
    assert_eq!(
        data.push_reference(a, 1, range(1, 2), ReferenceKind::Read),
        None
    );
    assert_eq!(
        data.push_reference(a + 1, root, range(1, 2), ReferenceKind::Write),
        None
    );
    assert_eq!(
        data.push_reference(a, root, range(1, 2), ReferenceKind::Write),
        Some(0)
    );
    let model = SemanticModel::new(data);
    let all = model.all_bindings()[0].all_references();
    assert_eq!(all.len(), 1);
    assert!(all[0].kind() == ReferenceKind::Write);
}

#[test]
fn binding_names_are_the_text_of_the_token() {
    let declaration = JsSyntaxToken::new_detached(
        JsSyntaxKind::IDENT,
        "  spaced ",
        [biome_rowan::TriviaPiece::whitespace(2)],
        [biome_rowan::TriviaPiece::whitespace(1)],
    );
    let mut data = SemanticModelData::new(node(JsSyntaxKind::JS_MODULE));
    let root = data
        .push_scope(None, range(0, 9), node(JsSyntaxKind::JS_MODULE), false)
        .unwrap();
    let trimmed = data
        .push_binding(root, declaration.token_text_trimmed().text().to_string())
        .unwrap();
    let whole = data
        .push_binding(root, declaration.token_text().text().to_string())
        .unwrap();
    let model = SemanticModel::new(data);
    let global = model.global_scope().unwrap();
    assert_eq!(
        global.get_binding("spaced").unwrap().binding_id(),
        trimmed
    );
    assert_eq!(
        global.get_binding("  spaced ").unwrap().binding_id(),
        whole
    );
    assert_eq!(model.all_bindings()[trimmed].name(), "spaced");
    assert_eq!(model.all_bindings()[whole].name(), "  spaced ");
}

#[test]
fn scope_of_a_node_is_the_innermost_scope_around_it() {
    let (module, middle, innermost) = nested_blocks();
    let mut data = SemanticModelData::new(JsNode(module.clone()));
    let root = data
        .push_scope(None, module.text_range(), JsNode(module.clone()), false)
        .unwrap();
    let block = data
        .push_scope(
            Some(root),
            middle.text_range(),
            JsNode(middle.clone()),
            false,
        )
        .unwrap();
    let model = SemanticModel::new(data);

    assert_eq!(model.scope(&JsNode(module.clone())).unwrap().scope_id(), root);
    assert_eq!(model.scope(&JsNode(middle.clone())).unwrap().scope_id(), block);
    assert_eq!(
        model.scope(&JsNode(innermost.clone())).unwrap().scope_id(),
        block
    );
    assert_eq!(JsNode(innermost.clone()).scope(&model).scope_id(), block);
    assert_eq!(JsNode(module.clone()).scope(&model).scope_id(), root);
    assert!(model.scope(&JsNode(middle.clone())).unwrap().syntax().0 == middle);
}

#[test]
fn scope_of_a_node_outside_every_scope_is_none() {
    let (module, middle, innermost) = nested_blocks();
    let mut data = SemanticModelData::new(JsNode(module.clone()));
    data.push_scope(None, innermost.text_range(), JsNode(innermost.clone()), false)
        .unwrap();
    let model = SemanticModel::new(data);
    assert!(model.scope(&JsNode(module)).is_none());
    assert!(model.scope(&JsNode(middle)).is_none());
    assert_eq!(model.scope(&JsNode(innermost)).unwrap().scope_id(), 0);
}

#[test]
fn scope_of_a_node_looks_at_both_ends_of_the_span() {
    let (module, middle, innermost) = nested_blocks();
    let mut data = SemanticModelData::new(JsNode(module.clone()));
    let root = data
        .push_scope(None, range(0, 11), JsNode(module.clone()), false)
        .unwrap();
    // Starts before the middle block (2..9) but ends inside it.
    data.push_scope(Some(root), range(0, 8), JsNode(module.clone()), false)
        .unwrap();
    // Starts inside the middle block but ends after it.
    data.push_scope(Some(root), range(3, 11), JsNode(module.clone()), false)
        .unwrap();
    let exact = data
        .push_scope(Some(root), range(5, 8), JsNode(innermost.clone()), false)
        .unwrap();
    let model = SemanticModel::new(data);
    assert_eq!(model.scope(&JsNode(middle)).unwrap().scope_id(), root);
    assert_eq!(model.scope(&JsNode(innermost)).unwrap().scope_id(), exact);
}

#[test]
fn hoisted_declarations_are_found_by_where_they_start() {
    let (module, middle, innermost) = nested_blocks();
    let mut data = SemanticModelData::new(JsNode(module.clone()));
    let root = data
        .push_scope(None, module.text_range(), JsNode(module.clone()), false)
        .unwrap();
    let block = data
        .push_scope(
            Some(root),
            middle.text_range(),
            JsNode(middle.clone()),
            false,
        )
        .unwrap();
    assert!(!data.push_hoist(&innermost.text_range(), 2));
    assert!(data.push_hoist(&innermost.text_range(), block));
    assert!(data.push_hoist(&innermost.text_range(), root));
    let model = SemanticModel::new(data);

    assert_eq!(
        model
            .scope_hoisted_to(&JsNode(innermost.clone()))
            .unwrap()
            .scope_id(),
        root
    );
    assert!(model.scope_hoisted_to(&JsNode(middle.clone())).is_none());
    assert_eq!(
        JsNode(innermost)
            .scope_hoisted_to(&model)
            .unwrap()
            .scope_id(),
        root
    );
    assert!(JsNode(middle).scope_hoisted_to(&model).is_none());
    // The module starts at 0, where nothing was hoisted.
    assert!(JsNode(module).scope_hoisted_to(&model).is_none());
}

#[test]
fn handles_keep_the_arena_alive() {
    let scope = {
        let mut data = SemanticModelData::new(node(JsSyntaxKind::JS_MODULE));
        let root = data
            .push_scope(None, range(0, 9), node(JsSyntaxKind::JS_MODULE), false)
            .unwrap();
        data.push_binding(root, name("kept")).unwrap();
        let model = SemanticModel::new(data);
        model.global_scope().unwrap()
    };
    assert_eq!(scope.get_binding("kept").unwrap().name(), "kept");
    let copy = scope.clone();
    drop(scope);
    assert_eq!(copy.bindings().len(), 1);
}

#[test]
fn names_are_compared_character_by_character() {
    let mut data = SemanticModelData::new(node(JsSyntaxKind::JS_MODULE));
    let root = data
        .push_scope(None, range(0, 9), node(JsSyntaxKind::JS_MODULE), false)
        .unwrap();
    let accented = data.push_binding(root, "é".to_string()).unwrap();
    let plain = data.push_binding(root, name("e")).unwrap();
    let wide = data.push_binding(root, name("変数")).unwrap();
    let empty = data.push_binding(root, String::new()).unwrap();
    let model = SemanticModel::new(data);
    let global = model.global_scope().unwrap();
    assert_eq!(global.get_binding("é").unwrap().binding_id(), accented);
    assert_eq!(global.get_binding("e").unwrap().binding_id(), plain);
    assert_eq!(global.get_binding("変数").unwrap().binding_id(), wide);
    assert_eq!(global.get_binding("").unwrap().binding_id(), empty);
    assert!(global.get_binding("変").is_none());
    assert!(global.get_binding("e\u{301}").is_none());
    assert_eq!(model.all_bindings()[accented].name(), "é");
    assert_eq!(model.all_bindings()[wide].name(), "変数");
    assert_eq!(model.all_bindings()[empty].name(), "");
}
