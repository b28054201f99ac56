//! The finished model: a frozen arena, and the ways into it that do not
//! start from a handle.

use crate::binding::Binding;
use crate::model::{share, SemanticModelData};
use crate::scope::Scope;
use crate::syntax::{end_of, node_range, node_span, start_of, JsNode, Span};
use crate::view::ModelView;
use std::rc::Rc;
use vstd::prelude::*;

verus! {

/// The semantic model of one file. It owns a share of the arena; every
/// handle made from it owns another.
#[derive(Debug)]
pub struct SemanticModel {
    data: Rc<SemanticModelData>,
}

impl View for SemanticModel {
    type V = ModelView;

    closed spec fn view(&self) -> ModelView {
        self.data@
    }
}

impl Clone for SemanticModel {
    fn clone(&self) -> (copy: Self)
        ensures
            copy == *self,
    {
        SemanticModel { data: share(&self.data) }
    }
}

impl SemanticModel {
    /// The model is consistent.
    pub open spec fn wf(&self) -> bool {
        self@.wf()
    }

    /// Freezes a finished arena.
    pub fn new(data: SemanticModelData) -> (model: SemanticModel)
        requires
            data@.wf(),
        ensures
            model.wf(),
            model@ == data@,
    {
        SemanticModel { data: Rc::new(data) }
    }

    /// The root scope, which every model with a scope in it has.
    pub fn global_scope(&self) -> (scope: Option<Scope>)
        requires
            self.wf(),
        ensures
            scope is Some <==> self@.scopes.len() > 0,
            scope matches Some(s) ==> s.is_scope(self@, 0),
    {
        if self.data.scope_count() > 0 {
            Some(Scope::new(share(&self.data), 0))
        } else {
            None
        }
    }

    /// The innermost scope around `node`: of the scopes whose span contains
    /// the span of the node, the one created last. `None` where no scope
    /// contains the node.
    pub fn scope(&self, node: &JsNode) -> (scope: Option<Scope>)
        requires
            self.wf(),
        ensures
            scope is Some <==> self@.covers_somewhere(node_span(*node)),
            scope matches Some(s) ==> s.wf() && s.model() == self@ && self@.is_tightest(
                s.id(),
                node_span(*node),
            ),
    {
        let range = node_range(node);
        let start = start_of(&range);
        let end = end_of(&range);
        let ghost inner: Span = (start, end);
        let mut id: usize = self.data.scope_count();
        while id > 0
            invariant
                self.wf(),
                id <= self@.scopes.len(),
                inner == node_span(*node),
                inner == (start, end),
                forall|other: int|
                    id <= other < self@.scopes.len() ==> !#[trigger] self@.covers(other, inner),
            decreases id,
        {
            id -= 1;
            if self.data.scope_covers(id as u32, start, end) {
                return Some(Scope::new(share(&self.data), id as u32));
            }
        }
        None
    }

    /// The scope that the declaration `node` was hoisted to, if it was
    /// hoisted: the scope recorded for the offset at which the node starts.
    pub fn scope_hoisted_to(&self, node: &JsNode) -> (scope: Option<Scope>)
        requires
            self.wf(),
        ensures
            scope is Some <==> self@.hoists.contains_key(node_span(*node).0),
            scope matches Some(s) ==> s.is_scope(self@, self@.hoists[node_span(*node).0] as int),
    {
        let range = node_range(node);
        match self.data.hoist_target(start_of(&range)) {
            None => None,
            Some(id) => Some(Scope::new(share(&self.data), id)),
        }
    }

    /// Every binding of the model, in declaration order.
    pub fn all_bindings(&self) -> (all: Vec<Binding>)
        requires
            self.wf(),
        ensures
            all@.len() == self@.bindings.len(),
            forall|i: int| 0 <= i < all@.len() ==> (#[trigger] all@[i]).is_binding(self@, i),
    {
        let count = self.data.binding_count();
        let mut all: Vec<Binding> = Vec::new();
        let mut index: usize = 0;
        while index < count
            invariant
                self.wf(),
                count == self@.bindings.len(),
                index <= count,
                all@.len() == index,
                forall|i: int| 0 <= i < all@.len() ==> (#[trigger] all@[i]).is_binding(self@, i),
            decreases count - index,
        {
            all.push(Binding::new(share(&self.data), index));
            index += 1;
        }
        all
    }
}

/// What a piece of syntax can ask of a model: the scope it stands in and
/// the scope it was hoisted to.
pub trait SemanticScopeExtensions {
    /// The span that this piece of syntax covers.
    spec fn covered(&self) -> Span;

    /// The scope that this piece of syntax is part of. Some scope of the
    /// model has to contain it; the root scope of a model contains the whole
    /// file.
    fn scope(&self, model: &SemanticModel) -> (scope: Scope)
        requires
            model.wf(),
            model@.covers_somewhere(self.covered()),
        ensures
            scope.wf(),
            scope.model() == model@,
            model@.is_tightest(scope.id(), self.covered()),
    ;

    /// The scope that this declaration was hoisted to, if it was hoisted.
    fn scope_hoisted_to(&self, model: &SemanticModel) -> (scope: Option<Scope>)
        requires
            model.wf(),
        ensures
            scope is Some <==> model@.hoists.contains_key(self.covered().0),
            scope matches Some(s) ==> s.is_scope(model@, model@.hoists[self.covered().0] as int),
    ;
}

impl SemanticScopeExtensions for JsNode {
    open spec fn covered(&self) -> Span {
        node_span(*self)
    }

    fn scope(&self, model: &SemanticModel) -> (scope: Scope) {
        match model.scope(self) {
            Some(scope) => scope,
            None => vstd::pervasive::unreached(),
        }
    }

    fn scope_hoisted_to(&self, model: &SemanticModel) -> (scope: Option<Scope>) {
        model.scope_hoisted_to(self)
    }
}

} // verus!
