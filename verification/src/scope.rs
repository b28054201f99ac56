//! Handles on one scope, and the walks that start from it: up through the
//! enclosing scopes, down through the scopes inside, and along the bindings
//! that the scope declares.

use crate::binding::Binding;
use crate::closure::Closure;
use crate::model::{share, SemanticModelData};
use crate::syntax::{same_node, span, JsNode};
use crate::view::ModelView;
use biome_rowan::TextRange;
use std::collections::VecDeque;
use std::rc::Rc;
use vstd::prelude::*;
use vstd::std_specs::cmp::PartialEqSpecImpl;

verus! {

/// One scope: a shared model and the id of a scope in it.
///
/// A handle gives access to the scopes around it and to the bindings that
/// the scope declares.
#[derive(Debug)]
pub struct Scope {
    data: Rc<SemanticModelData>,
    id: u32,
}

/// The scopes under a scope in breadth-first order, one per call of
/// [`ScopeDescendentsIter::next`].
#[derive(Debug)]
pub struct ScopeDescendentsIter {
    data: Rc<SemanticModelData>,
    q: VecDeque<u32>,
}

/// The bindings declared directly in a scope, one per call of
/// [`ScopeBindingsIter::next`]. Bindings of enclosing scopes are not among
/// them.
#[derive(Debug)]
pub struct ScopeBindingsIter {
    data: Rc<SemanticModelData>,
    scope_id: u32,
    binding_index: usize,
}

impl Scope {
    /// The model that the handle looks into.
    pub closed spec fn model(&self) -> ModelView {
        self.data@
    }

    /// The id of the scope in the model.
    pub closed spec fn id(&self) -> int {
        self.id as int
    }

    /// The handle points at a scope of a consistent model.
    pub open spec fn wf(&self) -> bool {
        self.model().wf() && self.model().has_scope(self.id())
    }

    /// The handle is a valid handle on scope `id` of `model`.
    pub open spec fn is_scope(&self, model: ModelView, id: int) -> bool {
        self.wf() && self.model() == model && self.id() == id
    }

    /// `handles` are valid handles on the scopes `ids` of `model`, one for
    /// one.
    pub open spec fn all_are(handles: Seq<Scope>, model: ModelView, ids: Seq<u32>) -> bool {
        &&& handles.len() == ids.len()
        &&& forall|i: int|
            0 <= i < handles.len() ==> (#[trigger] handles[i]).is_scope(model, ids[i] as int)
    }

    /// What [`Scope::is_ancestor_of`] decides: both handles look into the
    /// model of one tree, and this scope is `other` or encloses it.
    pub open spec fn encloses(&self, other: &Scope) -> bool {
        &&& self.model().root == other.model().root
        &&& other.model().encloses(self.id(), other.id())
    }

    pub(crate) fn new(data: Rc<SemanticModelData>, id: u32) -> (scope: Scope)
        requires
            data@.wf(),
            data@.has_scope(id as int),
        ensures
            scope.is_scope(data@, id as int),
    {
        Scope { data, id }
    }

    /// The position of the scope among all scopes of the model, which are
    /// numbered in the order of their creation; the root scope is 0.
    pub fn scope_id(&self) -> (id: u32)
        ensures
            id == self.id(),
    {
        self.id
    }

    /// The scope itself, then its parent, its parent's parent and so on up
    /// to the root scope.
    pub fn ancestors(&self) -> (chain: Vec<Scope>)
        requires
            self.wf(),
        ensures
            Scope::all_are(chain@, self.model(), self.model().ancestors_of(self.id())),
            chain@.len() >= 1,
            chain@[0].id() == self.id(),
            self.model().scopes[chain@.last().id()].parent is None,
    {
        proof {
            self.model().lemma_ancestors(self.id());
        }
        let ghost model = self.model();
        let ghost full = model.ancestors_of(self.id());
        let mut chain: Vec<Scope> = Vec::new();
        let mut current: u32 = self.id;
        loop
            invariant
                self.wf(),
                model == self.model(),
                full == model.ancestors_of(self.id()),
                model.has_scope(current as int),
                chain@.len() + model.ancestors_of(current as int).len() == full.len(),
                forall|j: int|
                    0 <= j < model.ancestors_of(current as int).len() ==> full[chain@.len() + j]
                        == #[trigger] model.ancestors_of(current as int)[j],
                forall|i: int|
                    0 <= i < chain@.len() ==> (#[trigger] chain@[i]).is_scope(model, full[i] as int),
            decreases current,
        {
            let ghost here = model.ancestors_of(current as int);
            proof {
                assert(here[0] == current);
            }
            chain.push(Scope { data: share(&self.data), id: current });
            match self.data.scope_parent(current) {
                None => {
                    proof {
                        assert(here.len() == 1);
                    }
                    return chain;
                },
                Some(parent) => {
                    proof {
                        let above = model.ancestors_of(parent as int);
                        assert(here =~= seq![current] + above);
                        assert forall|j: int| 0 <= j < above.len() implies full[chain@.len() + j]
                            == #[trigger] above[j] by {
                            assert(above[j] == here[j + 1]);
                        }
                    }
                    current = parent;
                },
            }
        }
    }

    /// The scopes under this scope in breadth-first order, starting with the
    /// scope itself.
    pub fn descendents(&self) -> (walk: ScopeDescendentsIter)
        requires
            self.wf(),
        ensures
            walk.wf(),
            walk.model() == self.model(),
            walk.queue() == seq![self.id() as u32],
            walk.remaining() == self.model().descendants_of(self.id()),
    {
        let mut q: VecDeque<u32> = VecDeque::new();
        q.push_back(self.id);
        proof {
            assert(q@ =~= seq![self.id]);
        }
        ScopeDescendentsIter { data: share(&self.data), q }
    }

    /// The enclosing scope; `None` for the root scope.
    pub fn parent(&self) -> (parent: Option<Scope>)
        requires
            self.wf(),
        ensures
            match self.model().scopes[self.id()].parent {
                None => parent is None,
                Some(id) => parent matches Some(p) && p.is_scope(self.model(), id as int),
            },
    {
        match self.data.scope_parent(self.id) {
            None => None,
            Some(parent) => Some(Scope { data: share(&self.data), id: parent }),
        }
    }

    /// The bindings declared directly in this scope, in declaration order.
    /// Bindings of enclosing scopes are not among them.
    pub fn bindings(&self) -> (walk: ScopeBindingsIter)
        requires
            self.wf(),
        ensures
            walk.wf(),
            walk.model() == self.model(),
            walk.scope() == self.id(),
            walk.position() == 0,
            walk.remaining() == self.model().scopes[self.id()].bindings,
    {
        let walk = ScopeBindingsIter { data: share(&self.data), scope_id: self.id, binding_index: 0 };
        proof {
            let all = self.model().scopes[self.id()].bindings;
            assert(all.subrange(0, all.len() as int) =~= all);
        }
        walk
    }

    /// The binding that this scope declares under `name`, written as in the
    /// source; where the scope declares the name more than once, the last
    /// of them. Bindings of enclosing scopes are not looked at.
    pub fn get_binding(&self, name: &str) -> (binding: Option<Binding>)
        requires
            self.wf(),
        ensures
            binding is Some <==> self.model().declares_name(self.id(), name@),
            binding is Some <==> self.model().scopes[self.id()].names.contains_key(name@),
            binding matches Some(b) ==> {
                &&& b.is_binding(self.model(), self.model().scopes[self.id()].names[name@] as int)
                &&& self.model().is_last_declaration(self.id(), name@, b.index())
            },
    {
        proof {
            assert(self.model().scopes[self.id()].names.contains_key(name@)
                <==> self.model().declares_name(self.id(), name@));
        }
        match self.data.scope_binding_named(self.id, name) {
            None => None,
            Some(index) => {
                proof {
                    assert(self.model().is_last_declaration(self.id(), name@, index as int));
                }
                Some(Binding::new(share(&self.data), index))
            },
        }
    }

    /// Whether this scope is `other` or one of the scopes that enclose it.
    /// Every scope is an ancestor of itself.
    pub fn is_ancestor_of(&self, other: &Scope) -> (found: bool)
        requires
            self.wf(),
            other.wf(),
        ensures
            found == self.encloses(other),
    {
        if !same_node(self.data.root(), other.data.root()) {
            return false;
        }
        let ghost model = other.model();
        let mut current: u32 = other.id;
        loop
            invariant
                other.wf(),
                model == other.model(),
                model.has_scope(current as int),
                model.encloses(self.id(), other.id()) == model.encloses(self.id(), current as int),
                self.model().root == other.model().root,
            decreases current,
        {
            if current == self.id {
                proof {
                    model.lemma_encloses_self(current as int);
                }
                return true;
            }
            match other.data.scope_parent(current) {
                None => {
                    proof {
                        if model.encloses(self.id(), current as int) {
                            model.lemma_encloses_step(self.id(), current as int);
                        }
                    }
                    return false;
                },
                Some(parent) => {
                    proof {
                        if model.encloses(self.id(), current as int) {
                            model.lemma_encloses_step(self.id(), current as int);
                        }
                        if model.encloses(self.id(), parent as int) {
                            model.lemma_encloses_parent(self.id(), current as int);
                        }
                    }
                    current = parent;
                },
            }
        }
    }

    /// The span that the scope covers.
    pub fn range(&self) -> (range: &TextRange)
        requires
            self.wf(),
        ensures
            *range == self.model().scopes[self.id()].range,
    {
        self.data.scope_range(self.id)
    }

    /// The node that introduces the scope: the one recorded under the
    /// scope's span.
    pub fn syntax(&self) -> (node: &JsNode)
        requires
            self.wf(),
        ensures
            *node == self.model().nodes[span(self.model().scopes[self.id()].range)],
    {
        self.data.scope_node(self.id)
    }

    /// The closure that this scope belongs to, if it is the scope of one.
    pub fn closure(&self) -> (closure: Option<Closure>)
        requires
            self.wf(),
        ensures
            closure is Some <==> self.model().scopes[self.id()].is_closure,
            closure matches Some(c) ==> c.is_closure_of(self.model(), self.id()),
    {
        Closure::from_scope(share(&self.data), self.id)
    }
}

impl Clone for Scope {
    fn clone(&self) -> (copy: Self)
        ensures
            copy == *self,
    {
        Scope { data: share(&self.data), id: self.id }
    }
}

impl PartialEq for Scope {
    fn eq(&self, other: &Self) -> (equal: bool) {
        self.id == other.id && same_node(self.data.root(), other.data.root())
    }
}

impl Eq for Scope {

}

impl PartialEqSpecImpl for Scope {
    open spec fn obeys_eq_spec() -> bool {
        true
    }

    open spec fn eq_spec(&self, other: &Self) -> bool {
        self.id() == other.id() && self.model().root == other.model().root
    }
}

impl ScopeDescendentsIter {
    /// The model that the walk looks into.
    pub closed spec fn model(&self) -> ModelView {
        self.data@
    }

    /// The scopes that the walk has met and not yet handed out, in the
    /// order in which it will hand them out.
    pub closed spec fn queue(&self) -> Seq<u32> {
        self.q@
    }

    /// The walk looks into a consistent model and its queue holds scopes of
    /// that model.
    pub open spec fn wf(&self) -> bool {
        self.model().wf() && self.model().has_scopes(self.queue())
    }

    /// The ids of the scopes that the walk will still hand out, in order.
    pub open spec fn remaining(&self) -> Seq<u32> {
        self.model().breadth_first(self.queue())
    }

    /// Hands out the scope at the head of the queue and puts its children
    /// at the end of the queue, in the order of the child list; `None` once
    /// the queue is empty, and from then on.
    pub fn next(&mut self) -> (item: Option<Scope>)
        requires
            old(self).wf(),
        ensures
            final(self).wf(),
            final(self).model() == old(self).model(),
            match item {
                None => old(self).queue().len() == 0 && final(self).queue() == old(self).queue(),
                Some(scope) => {
                    &&& old(self).queue().len() > 0
                    &&& scope.is_scope(old(self).model(), old(self).queue()[0] as int)
                    &&& final(self).queue() == old(self).model().after_head(old(self).queue())
                },
            },
            old(self).remaining() == match item {
                None => Seq::<u32>::empty(),
                Some(scope) => seq![scope.id() as u32] + final(self).remaining(),
            },
    {
        proof {
            self.model().lemma_breadth_first_step(self.queue());
        }
        let ghost model = self.model();
        let ghost before = self.queue();
        match self.q.pop_front() {
            None => None,
            Some(id) => {
                let children = self.data.scope_children(id);
                let count = children.len();
                let mut i: usize = 0;
                while i < count
                    invariant
                        i <= count,
                        count == children@.len(),
                        self.data@ == model,
                        self.q@ == before.drop_first() + children@.subrange(0, i as int),
                    decreases count - i,
                {
                    self.q.push_back(children[i]);
                    proof {
                        assert(children@.subrange(0, i + 1) =~= children@.subrange(0, i as int).push(
                            children@[i as int],
                        ));
                    }
                    i += 1;
                }
                proof {
                    assert(children@.subrange(0, count as int) =~= children@);
                }
                Some(Scope { data: share(&self.data), id })
            },
        }
    }
}

impl ScopeBindingsIter {
    /// The model that the walk looks into.
    pub closed spec fn model(&self) -> ModelView {
        self.data@
    }

    /// The id of the scope whose bindings the walk hands out.
    pub closed spec fn scope(&self) -> int {
        self.scope_id as int
    }

    /// The number of bindings that the walk has handed out.
    pub closed spec fn position(&self) -> int {
        self.binding_index as int
    }

    /// The walk looks into a consistent model, at a scope of that model,
    /// and has not gone past the end of the scope's declaration list.
    pub open spec fn wf(&self) -> bool {
        &&& self.model().wf()
        &&& self.model().has_scope(self.scope())
        &&& 0 <= self.position() <= self.model().scopes[self.scope()].bindings.len()
    }

    /// The indices of the bindings that the walk will still hand out, in
    /// order.
    pub open spec fn remaining(&self) -> Seq<usize> {
        self.model().scopes[self.scope()].bindings.subrange(
            self.position(),
            self.model().scopes[self.scope()].bindings.len() as int,
        )
    }

    /// Hands out the next binding of the scope; `None` once all were handed
    /// out, and from then on.
    pub fn next(&mut self) -> (item: Option<Binding>)
        requires
            old(self).wf(),
        ensures
            final(self).wf(),
            final(self).model() == old(self).model(),
            final(self).scope() == old(self).scope(),
            match item {
                None => old(self).remaining().len() == 0 && final(self).position() == old(
                    self,
                ).position(),
                Some(binding) => {
                    &&& old(self).remaining().len() > 0
                    &&& binding.is_binding(old(self).model(), old(self).remaining()[0] as int)
                    &&& final(self).position() == old(self).position() + 1
                },
            },
            old(self).remaining() == match item {
                None => Seq::<usize>::empty(),
                Some(binding) => seq![binding.index() as usize] + final(self).remaining(),
            },
    {
        let bindings = self.data.scope_bindings(self.scope_id);
        if self.binding_index < bindings.len() {
            let index = bindings[self.binding_index];
            proof {
                assert(self.model().has_binding(
                    self.model().scopes[self.scope()].bindings[self.position()] as int,
                ));
                assert(self.remaining() =~= seq![index] + bindings@.subrange(
                    self.position() + 1,
                    bindings@.len() as int,
                ));
            }
            self.binding_index += 1;
            Some(Binding::new(share(&self.data), index))
        } else {
            proof {
                assert(self.remaining() =~= Seq::<usize>::empty());
            }
            None
        }
    }

    /// The number of bindings that the walk will still hand out.
    pub fn len(&self) -> (count: usize)
        requires
            self.wf(),
        ensures
            count == self.remaining().len(),
    {
        self.data.scope_bindings(self.scope_id).len() - self.binding_index
    }
}

} // verus!
