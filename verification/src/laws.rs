//! What holds of every consistent model, whatever file it was built from.

use crate::scope::Scope;
use crate::view::ModelView;
use vstd::prelude::*;

verus! {

/// A walk up from a scope starts at the scope itself, is finite, and ends at
/// a scope without a parent, which is the root scope.
pub proof fn ancestors_start_at_self_and_end_at_root(scope: Scope)
    requires
        scope.wf(),
    ensures
        scope.model().ancestors_of(scope.id()).len() >= 1,
        scope.model().ancestors_of(scope.id()).first() == scope.id(),
        scope.model().scopes[scope.model().ancestors_of(scope.id()).last() as int].parent is None,
        scope.model().ancestors_of(scope.id()).last() == 0,
{
    scope.model().lemma_ancestors(scope.id());
}

/// Every scope is an ancestor of itself.
pub proof fn scope_is_its_own_ancestor(scope: Scope)
    requires
        scope.wf(),
    ensures
        scope.encloses(&scope),
{
    scope.model().lemma_encloses_self(scope.id());
}

/// A scope is an ancestor of every scope that the walk over its descendants
/// hands out.
pub proof fn scope_is_ancestor_of_its_descendants(scope: Scope, other: Scope)
    requires
        scope.wf(),
        other.wf(),
        other.model() == scope.model(),
        scope.model().descendants_of(scope.id()).contains(other.id() as u32),
    ensures
        scope.encloses(&other),
{
    let model = scope.model();
    assert(model.has_scopes(seq![scope.id() as u32]));
    model.lemma_breadth_first_reach(seq![scope.id() as u32]);
    let i = choose|i: int|
        0 <= i < seq![scope.id() as u32].len() && model.encloses(
            #[trigger] seq![scope.id() as u32][i] as int,
            other.id(),
        );
    assert(seq![scope.id() as u32][i] == scope.id());
}

/// What is an ancestor of a scope is an ancestor of every scope that the
/// scope is an ancestor of.
pub proof fn ancestry_is_transitive(upper: Scope, middle: Scope, lower: Scope)
    requires
        upper.wf(),
        middle.wf(),
        lower.wf(),
        middle.model() == lower.model(),
        upper.encloses(&middle),
        middle.encloses(&lower),
    ensures
        upper.encloses(&lower),
{
    lower.model().lemma_encloses_transitive(upper.id(), middle.id(), lower.id());
}

/// Two scopes of one model that are ancestors of each other are one scope.
pub proof fn ancestry_is_antisymmetric(one: Scope, other: Scope)
    requires
        one.wf(),
        other.wf(),
        one.model() == other.model(),
        one.encloses(&other),
        other.encloses(&one),
    ensures
        one.id() == other.id(),
{
    one.model().lemma_encloses_order(one.id(), other.id());
    one.model().lemma_encloses_order(other.id(), one.id());
}

/// The walk over the descendants of a scope starts with the scope itself,
/// visits exactly the scopes that can be reached from it through the child
/// lists, and visits none of them twice.
pub proof fn descendants_are_the_reachable_scopes_once_each(model: ModelView, id: int)
    requires
        model.wf(),
        model.has_scope(id),
    ensures
        model.descendants_of(id).len() >= 1,
        model.descendants_of(id).first() == id,
        model.has_scopes(model.descendants_of(id)),
        model.descendants_of(id).no_duplicates(),
        forall|other: int|
            model.has_scope(other) ==> (model.descendants_of(id).contains(other as u32)
                <==> #[trigger] model.reaches(id, other)),
        forall|other: int|
            model.has_scope(other) ==> (model.descendants_of(id).contains(other as u32)
                <==> #[trigger] model.encloses(id, other)),
{
    let queue = seq![id as u32];
    assert(model.has_scopes(queue));
    assert(model.independent(queue));
    model.lemma_breadth_first_step(queue);
    model.lemma_breadth_first_reach(queue);
    model.lemma_breadth_first_once(queue);
    assert forall|other: int| model.has_scope(other) implies (model.descendants_of(id).contains(
        other as u32,
    ) <==> #[trigger] model.encloses(id, other)) by {
        if model.descendants_of(id).contains(other as u32) {
            let i = choose|i: int|
                0 <= i < queue.len() && model.encloses(#[trigger] queue[i] as int, other);
            assert(queue[i] == id);
        }
        if model.encloses(id, other) {
            assert(model.encloses(queue[0] as int, other));
        }
    }
    assert forall|other: int| model.has_scope(other) implies (model.descendants_of(id).contains(
        other as u32,
    ) <==> #[trigger] model.reaches(id, other)) by {
        model.lemma_reaches_iff_encloses(id, other);
        assert(model.descendants_of(id).contains(other as u32) <==> model.encloses(id, other));
    }
}

/// The walk over the descendants of a scope goes level by level: it never
/// visits a scope after a scope that lies deeper in the tree. The order is a
/// function of the model and the scope alone.
pub proof fn descendants_come_level_by_level(model: ModelView, id: int)
    requires
        model.wf(),
        model.has_scope(id),
    ensures
        forall|i: int, j: int|
            0 <= i <= j < model.descendants_of(id).len() ==> model.depth(
                #[trigger] model.descendants_of(id)[i] as int,
            ) <= model.depth(#[trigger] model.descendants_of(id)[j] as int),
{
    let queue = seq![id as u32];
    assert(model.has_scopes(queue));
    assert(model.level_ordered(queue));
    model.lemma_breadth_first_levels(queue);
}

/// The walk over the descendants of a scope hands out the scope and then,
/// for each scope that it hands out, in the order in which it hands them
/// out, the children of that scope in the order of the child list. So scopes
/// come in the order of their parents, and scopes with one parent in the
/// order of its child list.
pub proof fn descendants_follow_their_parents(model: ModelView, id: int)
    requires
        model.wf(),
        model.has_scope(id),
    ensures
        model.descendants_of(id) == seq![id as u32] + model.offspring(
            model.descendants_of(id),
            model.descendants_of(id).len() as int,
        ),
{
    assert(model.has_scopes(seq![id as u32]));
    model.lemma_breadth_first_by_parents(seq![id as u32]);
}

/// The walk over the descendants of a scope hands out as many scopes as the
/// scope encloses, which are at most those created from the scope on.
pub proof fn descendants_are_as_many_as_enclosed(model: ModelView, id: int)
    requires
        model.wf(),
        model.has_scope(id),
    ensures
        model.descendants_of(id).to_set() == Set::new(
            |other: u32| model.has_scope(other as int) && model.encloses(id, other as int),
        ),
        model.descendants_of(id).len() == model.descendants_of(id).to_set().len(),
        model.descendants_of(id).len() <= model.scopes.len() - id,
{
    let order = model.descendants_of(id);
    descendants_are_the_reachable_scopes_once_each(model, id);
    order.unique_seq_to_set();
    model.lemma_descendants_bound(id);
    assert forall|other: u32|
        order.to_set().contains(other) <==> (model.has_scope(other as int) && model.encloses(
            id,
            other as int,
        )) by {
        if order.contains(other) {
            let at = choose|at: int| 0 <= at < order.len() && order[at] == other;
            assert(model.has_scope(order[at] as int));
        }
        if model.has_scope(other as int) {
            assert(order.contains(other as int as u32) <==> model.encloses(id, other as int));
        }
    }
    assert(order.to_set() =~= Set::new(
        |other: u32| model.has_scope(other as int) && model.encloses(id, other as int),
    ));
}

/// A scope finds no binding under a name that it does not declare itself,
/// whatever the scopes around it declare, and a binding that it finds is one
/// of its own.
pub proof fn lookup_sees_own_declarations_only(model: ModelView, id: int, name: Seq<char>)
    requires
        model.wf(),
        model.has_scope(id),
    ensures
        !model.declares_name(id, name) ==> !model.scopes[id].names.contains_key(name),
        model.scopes[id].names.contains_key(name) ==> {
            &&& model.has_binding(model.scopes[id].names[name] as int)
            &&& model.bindings[model.scopes[id].names[name] as int].scope == id
            &&& model.bindings[model.scopes[id].names[name] as int].name == name
        },
{
    assert(model.scopes[id].names.contains_key(name) <==> model.declares_name(id, name));
    if model.scopes[id].names.contains_key(name) {
        let b = model.scopes[id].names[name] as int;
        assert(model.is_last_declaration(id, name, b));
        let k = choose|k: int|
            {
                &&& 0 <= k < model.scopes[id].bindings.len()
                &&& #[trigger] model.scopes[id].bindings[k] == b
                &&& model.declared_name(id, k) == name
            };
        assert(model.has_binding(model.scopes[id].bindings[k] as int));
    }
}

} // verus!
