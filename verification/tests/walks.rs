use biome_js_semantic::{JsNode, ReferenceKind, Scope, SemanticModel, SemanticModelData};
use biome_js_syntax::{JsSyntaxElement, JsSyntaxKind, JsSyntaxNode, JsSyntaxToken};
use biome_rowan::{TextRange, TextSize};

fn node(kind: JsSyntaxKind) -> JsNode {
    let slots: [Option<JsSyntaxElement>; 0] = [];
    JsNode(JsSyntaxNode::new_detached(kind, slots))
}

fn name(text: &str) -> String {
    let token = JsSyntaxToken::new_detached(JsSyntaxKind::IDENT, text, [], []);
    token.token_text().text().to_string()
}

fn range(start: u32, end: u32) -> TextRange {
    TextRange::new(TextSize::from(start), TextSize::from(end))
}

fn block(data: &mut SemanticModelData, parent: Option<u32>, start: u32, end: u32) -> u32 {
    data.push_scope(
        parent,
        range(start, end),
        node(JsSyntaxKind::JS_BLOCK_STATEMENT),
        false,
    )
    .unwrap()
}

// The tree, with ids in the order of creation:
//
//            0
//          /   \
//         1     4
//        / \     \
//       2   3     5
//                  \
//                   6
fn tree() -> SemanticModel {
    let mut data = SemanticModelData::new(node(JsSyntaxKind::JS_MODULE));
    assert_eq!(block(&mut data, None, 0, 100), 0);
    assert_eq!(block(&mut data, Some(0), 0, 40), 1);
    assert_eq!(block(&mut data, Some(1), 0, 10), 2);
    assert_eq!(block(&mut data, Some(1), 20, 30), 3);
    assert_eq!(block(&mut data, Some(0), 50, 90), 4);
    assert_eq!(block(&mut data, Some(4), 60, 80), 5);
    assert_eq!(block(&mut data, Some(5), 65, 70), 6);
    SemanticModel::new(data)
}

fn ids(scopes: &[Scope]) -> Vec<u32> {
    scopes.iter().map(|scope| scope.scope_id()).collect()
}

fn descendants(scope: &Scope) -> Vec<Scope> {
    let mut walk = scope.descendents();
    let mut all = Vec::new();
    while let Some(next) = walk.next() {
        all.push(next);
    }
    assert!(walk.next().is_none());
    all
}

fn scope_at(model: &SemanticModel, id: u32) -> Scope {
    descendants(&model.global_scope().unwrap())
        .into_iter()
        .find(|scope| scope.scope_id() == id)
        .unwrap()
}

#[test]
fn ancestors_start_with_the_scope_and_end_at_the_root() {
    let model = tree();
    for id in 0..7 {
        let scope = scope_at(&model, id);
        let chain = scope.ancestors();
        assert!(!chain.is_empty());
        assert!(chain[0] == scope);
        assert!(chain[chain.len() - 1].parent().is_none());
        assert_eq!(chain[chain.len() - 1].scope_id(), 0);
        for pair in chain.windows(2) {
            assert!(pair[0].parent().unwrap() == pair[1]);
        }
    }
    assert_eq!(ids(&scope_at(&model, 6).ancestors()), vec![6, 5, 4, 0]);
    assert_eq!(ids(&scope_at(&model, 3).ancestors()), vec![3, 1, 0]);
    assert_eq!(ids(&scope_at(&model, 0).ancestors()), vec![0]);
}

#[test]
fn ancestors_can_be_walked_again() {
    let model = tree();
    let scope = scope_at(&model, 5);
    assert_eq!(ids(&scope.ancestors()), vec![5, 4, 0]);
    assert_eq!(ids(&scope.ancestors()), vec![5, 4, 0]);
}

#[test]
fn every_scope_is_its_own_ancestor() {
    let model = tree();
    for id in 0..7 {
        let scope = scope_at(&model, id);
        assert!(scope.is_ancestor_of(&scope));
        assert!(scope.is_ancestor_of(&scope.clone()));
    }
}

#[test]
fn a_scope_is_ancestor_of_all_its_descendants() {
    let model = tree();
    for id in 0..7 {
        let scope = scope_at(&model, id);
        for below in descendants(&scope) {
            assert!(scope.is_ancestor_of(&below));
        }
    }
}

#[test]
fn is_ancestor_of_follows_the_parent_links_only() {
    let model = tree();
    let expected: [(u32, u32, bool); 10] = [
        (0, 6, true),
        (4, 6, true),
        (5, 6, true),
        (1, 6, false),
        (6, 5, false),
        (6, 0, false),
        (2, 3, false),
        (3, 2, false),
        (1, 3, true),
        (4, 1, false),
    ];
    for (upper, lower, answer) in expected {
        assert_eq!(
            scope_at(&model, upper).is_ancestor_of(&scope_at(&model, lower)),
            answer,
            "{upper} over {lower}"
        );
    }
}

#[test]
fn scopes_of_another_tree_are_no_ancestors() {
    let first = tree();
    let second = tree();
    let here = first.global_scope().unwrap();
    let there = second.global_scope().unwrap();
    assert!(here != there);
    assert!(!here.is_ancestor_of(&there));
    assert!(!there.is_ancestor_of(&scope_at(&first, 3)));
    assert!(here == first.clone().global_scope().unwrap());
}

#[test]
fn descendents_come_breadth_first() {
    let model = tree();
    let global = model.global_scope().unwrap();
    assert_eq!(ids(&descendants(&global)), vec![0, 1, 4, 2, 3, 5, 6]);
    assert_eq!(ids(&descendants(&scope_at(&model, 1))), vec![1, 2, 3]);
    assert_eq!(ids(&descendants(&scope_at(&model, 4))), vec![4, 5, 6]);
    assert_eq!(ids(&descendants(&scope_at(&model, 6))), vec![6]);
}

#[test]
fn descendents_visit_every_scope_below_exactly_once() {
    let model = tree();
    for id in 0..7 {
        let scope = scope_at(&model, id);
        let mut seen = ids(&descendants(&scope));
        let mut expected: Vec<u32> = (0..7)
            .filter(|other| scope.is_ancestor_of(&scope_at(&model, *other)))
            .collect();
        assert_eq!(seen[0], id);
        seen.sort();
        expected.sort();
        assert_eq!(seen, expected);
    }
}

#[test]
fn descendents_can_be_walked_again() {
    let model = tree();
    let global = model.global_scope().unwrap();
    let first = ids(&descendants(&global));
    let second = ids(&descendants(&global));
    assert_eq!(first, second);
}

#[test]
fn descendents_never_go_back_up() {
    let model = tree();
    let depths: Vec<usize> = descendants(&model.global_scope().unwrap())
        .iter()
        .map(|scope| scope.ancestors().len())
        .collect();
    assert_eq!(depths, vec![1, 2, 2, 3, 3, 3, 4]);
}

#[test]
fn bindings_walk_reports_what_is_left() {
    let mut data = SemanticModelData::new(node(JsSyntaxKind::JS_MODULE));
    let root = block(&mut data, None, 0, 30);
    let inner = block(&mut data, Some(root), 10, 20);
    let a = data.push_binding(root, name("a")).unwrap();
    let hidden = data.push_binding(inner, name("hidden")).unwrap();
    let b = data.push_binding(root, name("b")).unwrap();
    let c = data.push_binding(root, name("c")).unwrap();
    assert_eq!((a, hidden, b, c), (0, 1, 2, 3));
    let model = SemanticModel::new(data);
    let global = model.global_scope().unwrap();

    let mut walk = global.bindings();
    let mut handed_out = Vec::new();
    let mut left = walk.len();
    assert_eq!(left, 3);
    while let Some(binding) = walk.next() {
        left -= 1;
        assert_eq!(walk.len(), left);
        handed_out.push(binding.binding_id());
    }
    assert_eq!(walk.len(), 0);
    assert!(walk.next().is_none());
    assert_eq!(walk.len(), 0);
    assert_eq!(handed_out, vec![a, b, c]);

    let mut empty = scope_at(&model, inner).parent().unwrap().bindings();
    assert_eq!(empty.len(), 3);
    assert_eq!(empty.next().unwrap().binding_id(), a);
    let mut own = scope_at(&model, inner).bindings();
    assert_eq!(own.len(), 1);
    assert_eq!(own.next().unwrap().binding_id(), hidden);
    assert!(own.next().is_none());
}

#[test]
fn bindings_walk_of_a_scope_without_bindings() {
    let model = tree();
    let mut walk = model.global_scope().unwrap().bindings();
    assert_eq!(walk.len(), 0);
    assert!(walk.next().is_none());
}

#[test]
fn get_binding_does_not_look_into_enclosing_scopes() {
    let mut data = SemanticModelData::new(node(JsSyntaxKind::JS_MODULE));
    let root = block(&mut data, None, 0, 30);
    let inner = block(&mut data, Some(root), 10, 20);
    let outer_only = data.push_binding(root, name("outer_only")).unwrap();
    let inner_only = data.push_binding(inner, name("inner_only")).unwrap();
    let model = SemanticModel::new(data);
    let global = model.global_scope().unwrap();
    let nested = scope_at(&model, inner);

    assert_eq!(
        global.get_binding("outer_only").unwrap().binding_id(),
        outer_only
    );
    assert!(nested.get_binding("outer_only").is_none());
    assert_eq!(
        nested.get_binding("inner_only").unwrap().binding_id(),
        inner_only
    );
    assert!(global.get_binding("inner_only").is_none());
    assert!(global.get_binding("").is_none());
    assert!(global.get_binding("outer").is_none());
    assert!(global.get_binding("outer_only ").is_none());
    assert!(global.get_binding("Outer_only").is_none());
}

#[test]
fn get_binding_finds_the_last_declaration_of_a_name() {
    let mut data = SemanticModelData::new(node(JsSyntaxKind::JS_MODULE));
    let root = block(&mut data, None, 0, 30);
    let first = data.push_binding(root, name("v")).unwrap();
    let other = data.push_binding(root, name("w")).unwrap();
    let second = data.push_binding(root, name("v")).unwrap();
    let model = SemanticModel::new(data);
    let global = model.global_scope().unwrap();

    assert_ne!(first, second);
    assert_eq!(global.get_binding("v").unwrap().binding_id(), second);
    assert_eq!(global.get_binding("w").unwrap().binding_id(), other);
    let mut walk = global.bindings();
    assert_eq!(walk.len(), 3);
    assert_eq!(walk.next().unwrap().binding_id(), first);
    assert_eq!(walk.next().unwrap().binding_id(), other);
    assert_eq!(walk.next().unwrap().binding_id(), second);
    assert_eq!(global.get_binding("v").unwrap().name(), "v");
}

#[test]
fn closure_is_there_exactly_for_flagged_scopes() {
    let mut data = SemanticModelData::new(node(JsSyntaxKind::JS_MODULE));
    let root = block(&mut data, None, 0, 30);
    let function = data
        .push_scope(
            Some(root),
            range(5, 25),
            node(JsSyntaxKind::JS_FUNCTION_DECLARATION),
            true,
        )
        .unwrap();
    let plain = block(&mut data, Some(function), 10, 20);
    let model = SemanticModel::new(data);

    assert!(scope_at(&model, root).closure().is_none());
    let closure = scope_at(&model, function).closure().unwrap();
    assert!(closure.scope() == scope_at(&model, function));
    assert_eq!(*closure.closure_range(), range(5, 25));
    assert!(closure.clone().scope() == closure.scope());
    assert!(scope_at(&model, plain).closure().is_none());
}

#[test]
fn range_and_syntax_are_those_the_scope_was_made_with() {
    let root_node = JsSyntaxNode::new_detached(
        JsSyntaxKind::JS_MODULE,
        [Some(JsSyntaxElement::from(JsSyntaxToken::new_detached(
            JsSyntaxKind::IDENT,
            "first",
            [],
            [],
        )))],
    );
    let block_node = JsSyntaxNode::new_detached(
        JsSyntaxKind::JS_BLOCK_STATEMENT,
        [Some(JsSyntaxElement::from(JsSyntaxToken::new_detached(
            JsSyntaxKind::IDENT,
            "second",
            [],
            [],
        )))],
    );
    let mut data = SemanticModelData::new(JsNode(root_node.clone()));
    let root = data
        .push_scope(None, range(0, 9), JsNode(root_node.clone()), false)
        .unwrap();
    let inner = data
        .push_scope(Some(root), range(3, 7), JsNode(block_node.clone()), false)
        .unwrap();
    let model = SemanticModel::new(data);

    let global = scope_at(&model, root);
    let nested = scope_at(&model, inner);
    assert_eq!(*global.range(), range(0, 9));
    assert_eq!(*nested.range(), range(3, 7));
    assert!(global.syntax().0 == root_node);
    assert!(nested.syntax().0 == block_node);
    assert!(global.syntax().0 != block_node);
    assert_eq!(nested.syntax().0.kind(), JsSyntaxKind::JS_BLOCK_STATEMENT);
}

#[test]
fn scopes_with_one_span_share_the_node_recorded_last() {
    let first = JsSyntaxNode::new_detached(
        JsSyntaxKind::JS_MODULE,
        [Some(JsSyntaxElement::from(JsSyntaxToken::new_detached(
            JsSyntaxKind::IDENT,
            "a",
            [],
            [],
        )))],
    );
    let second = JsSyntaxNode::new_detached(
        JsSyntaxKind::JS_BLOCK_STATEMENT,
        [Some(JsSyntaxElement::from(JsSyntaxToken::new_detached(
            JsSyntaxKind::IDENT,
            "b",
            [],
            [],
        )))],
    );
    let mut data = SemanticModelData::new(JsNode(first.clone()));
    let root = data
        .push_scope(None, range(0, 5), JsNode(first.clone()), false)
        .unwrap();
    let inner = data
        .push_scope(Some(root), range(0, 5), JsNode(second.clone()), false)
        .unwrap();
    let model = SemanticModel::new(data);
    assert!(scope_at(&model, root).syntax().0 == second);
    assert!(scope_at(&model, inner).syntax().0 == second);
}

#[test]
fn captures_name_each_outer_binding_once() {
    let mut data = SemanticModelData::new(node(JsSyntaxKind::JS_MODULE));
    let root = block(&mut data, None, 0, 100);
    let function = data
        .push_scope(
            Some(root),
            range(10, 90),
            node(JsSyntaxKind::JS_FUNCTION_DECLARATION),
            true,
        )
        .unwrap();
    let nested = block(&mut data, Some(function), 20, 80);
    let outside = data.push_binding(root, name("outside")).unwrap();
    let unused = data.push_binding(root, name("unused")).unwrap();
    let written = data.push_binding(root, name("written")).unwrap();
    let own = data.push_binding(function, name("own")).unwrap();
    let local = data.push_binding(nested, name("local")).unwrap();
    let refs = [
        (written, nested, ReferenceKind::Write),
        (outside, function, ReferenceKind::Read),
        (outside, nested, ReferenceKind::Read),
        (outside, nested, ReferenceKind::Write),
        (own, nested, ReferenceKind::Read),
        (local, nested, ReferenceKind::Write),
        (unused, root, ReferenceKind::Read),
    ];
    for (at, (binding, scope, kind)) in refs.into_iter().enumerate() {
        let start = 30 + at as u32;
        assert!(data
            .push_reference(binding, scope, range(start, start + 1), kind)
            .is_some());
    }
    let model = SemanticModel::new(data);

    let closure = scope_at(&model, function).closure().unwrap();
    let mut captured: Vec<usize> = closure
        .all_captures()
        .iter()
        .map(|binding| binding.binding_id())
        .collect();
    captured.sort();
    assert_eq!(captured, vec![outside, written]);
    let mut names: Vec<String> = closure
        .all_captures()
        .iter()
        .map(|binding| binding.name().to_string())
        .collect();
    names.sort();
    assert_eq!(names, vec!["outside".to_string(), "written".to_string()]);
    assert!(scope_at(&model, nested).closure().is_none());
}

#[test]
fn references_know_their_binding_scope_and_kind() {
    let mut data = SemanticModelData::new(node(JsSyntaxKind::JS_MODULE));
    let root = block(&mut data, None, 0, 100);
    let inner = block(&mut data, Some(root), 10, 90);
    let deep = block(&mut data, Some(inner), 20, 80);
    let x = data.push_binding(root, name("x")).unwrap();
    let y = data.push_binding(inner, name("y")).unwrap();
    assert_eq!(
        data.push_reference(x, deep, range(30, 31), ReferenceKind::Read),
        Some(0)
    );
    assert_eq!(
        data.push_reference(y, deep, range(32, 33), ReferenceKind::Write),
        Some(0)
    );
    assert_eq!(
        data.push_reference(x, root, range(95, 96), ReferenceKind::Write),
        Some(1)
    );
    assert_eq!(
        data.push_reference(x, inner, range(85, 86), ReferenceKind::Read),
        Some(2)
    );
    let model = SemanticModel::new(data);
    let bindings = model.all_bindings();
    assert_eq!(bindings.len(), 2);
    assert!(bindings[0].scope() == scope_at(&model, root));
    assert!(bindings[1].scope() == scope_at(&model, inner));
    assert_eq!(bindings[1].name(), "y");

    let all = bindings[0].all_references();
    assert_eq!(all.len(), 3);
    let scopes: Vec<u32> = all.iter().map(|r| r.scope().scope_id()).collect();
    assert_eq!(scopes, vec![deep, root, inner]);
    let kinds: Vec<bool> = all.iter().map(|r| r.is_read()).collect();
    assert_eq!(kinds, vec![true, false, true]);
    for reference in &all {
        assert!(reference.binding() == bindings[0]);
        assert!(reference.clone().binding() == bindings[0].clone());
    }
    let reads: Vec<TextRange> = bindings[0]
        .all_reads()
        .iter()
        .map(|r| *r.range())
        .collect();
    assert_eq!(reads, vec![range(30, 31), range(85, 86)]);
    let writes: Vec<TextRange> = bindings[0]
        .all_writes()
        .iter()
        .map(|r| *r.range())
        .collect();
    assert_eq!(writes, vec![range(95, 96)]);
    assert_eq!(bindings[1].all_reads().len(), 0);
    assert_eq!(bindings[1].all_writes().len(), 1);
}

#[test]
fn ancestry_is_transitive() {
    let model = tree();
    for upper in 0..7 {
        for middle in 0..7 {
            for lower in 0..7 {
                let (a, b, c) = (
                    scope_at(&model, upper),
                    scope_at(&model, middle),
                    scope_at(&model, lower),
                );
                if a.is_ancestor_of(&b) && b.is_ancestor_of(&c) {
                    assert!(a.is_ancestor_of(&c), "{upper} {middle} {lower}");
                }
            }
        }
    }
    assert!(scope_at(&model, 0).is_ancestor_of(&scope_at(&model, 4)));
    assert!(scope_at(&model, 4).is_ancestor_of(&scope_at(&model, 6)));
    assert!(scope_at(&model, 0).is_ancestor_of(&scope_at(&model, 6)));
}

#[test]
fn ancestry_is_antisymmetric() {
    let model = tree();
    for one in 0..7 {
        for other in 0..7 {
            let (a, b) = (scope_at(&model, one), scope_at(&model, other));
            if a.is_ancestor_of(&b) && b.is_ancestor_of(&a) {
                assert_eq!(one, other);
            }
        }
    }
}

#[test]
fn descendents_are_as_many_as_the_scopes_enclosed() {
    let model = tree();
    let counts: Vec<usize> = (0..7)
        .map(|id| descendants(&scope_at(&model, id)).len())
        .collect();
    assert_eq!(counts, vec![7, 3, 1, 1, 3, 2, 1]);
    for id in 0..7u32 {
        let scope = scope_at(&model, id);
        let enclosed = (0..7)
            .filter(|other| scope.is_ancestor_of(&scope_at(&model, *other)))
            .count();
        assert_eq!(counts[id as usize], enclosed);
        assert!(counts[id as usize] <= 7 - id as usize);
    }
}

#[test]
fn descendents_follow_their_parents() {
    // Children are entered out of the order of the subtrees: 0 gets 1 and
    // 2, then 2 gets 3, then 1 gets 4 and 5, then 0 gets 6.
    let mut data = SemanticModelData::new(node(JsSyntaxKind::JS_MODULE));
    assert_eq!(block(&mut data, None, 0, 100), 0);
    assert_eq!(block(&mut data, Some(0), 0, 40), 1);
    assert_eq!(block(&mut data, Some(0), 50, 90), 2);
    assert_eq!(block(&mut data, Some(2), 60, 80), 3);
    assert_eq!(block(&mut data, Some(1), 0, 10), 4);
    assert_eq!(block(&mut data, Some(1), 20, 30), 5);
    assert_eq!(block(&mut data, Some(0), 92, 98), 6);
    let model = SemanticModel::new(data);
    let all = descendants(&model.global_scope().unwrap());
    assert_eq!(ids(&all), vec![0, 1, 2, 6, 4, 5, 3]);

    for start in 0..7 {
        let order = descendants(&scope_at(&model, start));
        let mut expected = vec![start];
        for parent in &order {
            let mut children: Vec<u32> = all
                .iter()
                .filter(|scope| scope.parent().is_some_and(|above| above == *parent))
                .map(|scope| scope.scope_id())
                .collect();
            children.sort();
            expected.extend(children);
        }
        assert_eq!(ids(&order), expected);
    }
}
