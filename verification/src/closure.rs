//! The view of a scope as a closure: a function body that can use bindings
//! declared outside of it.

use crate::binding::Binding;
use crate::model::{share, SemanticModelData};
use crate::scope::Scope;
use crate::view::{ModelView, ReferenceKind};
use biome_rowan::TextRange;
use std::rc::Rc;
use vstd::prelude::*;

verus! {

/// A scope that belongs to a closure: a shared model and the id of the
/// scope in it.
#[derive(Debug)]
pub struct Closure {
    data: Rc<SemanticModelData>,
    scope_id: u32,
}

impl Clone for Closure {
    fn clone(&self) -> (copy: Self)
        ensures
            copy == *self,
    {
        Closure { data: share(&self.data), scope_id: self.scope_id }
    }
}

impl Closure {
    /// The model that the handle looks into.
    pub closed spec fn model(&self) -> ModelView {
        self.data@
    }

    /// The id of the closure's scope.
    pub closed spec fn id(&self) -> int {
        self.scope_id as int
    }

    /// The handle points at a scope of a consistent model, and that scope
    /// is flagged as a closure.
    pub open spec fn wf(&self) -> bool {
        &&& self.model().wf()
        &&& self.model().has_scope(self.id())
        &&& self.model().scopes[self.id()].is_closure
    }

    /// The handle is a valid handle on the closure of scope `id` of `model`.
    pub open spec fn is_closure_of(&self, model: ModelView, id: int) -> bool {
        self.wf() && self.model() == model && self.id() == id
    }

    /// `found` are valid handles on bindings that the closure captures, no
    /// binding twice.
    pub open spec fn holds_captures(&self, found: Seq<Binding>) -> bool {
        &&& forall|i: int|
            0 <= i < found.len() ==> {
                &&& (#[trigger] found[i]).wf()
                &&& found[i].model() == self.model()
                &&& self.model().captures(self.id(), found[i].index())
            }
        &&& forall|i: int, j: int|
            0 <= i < j < found.len() ==> (#[trigger] found[i]).index() != (#[trigger] found[j]).index()
    }

    /// A handle on `binding` is among `found`.
    pub open spec fn has_capture(found: Seq<Binding>, binding: int) -> bool {
        exists|i: int| 0 <= i < found.len() && (#[trigger] found[i]).index() == binding
    }

    /// The closure of scope `id`, if the scope is flagged as one.
    pub(crate) fn from_scope(data: Rc<SemanticModelData>, id: u32) -> (closure: Option<Closure>)
        requires
            data@.wf(),
            data@.has_scope(id as int),
        ensures
            closure is Some <==> data@.scopes[id as int].is_closure,
            closure matches Some(c) ==> c.is_closure_of(data@, id as int),
    {
        if data.scope_is_closure(id) {
            Some(Closure { data, scope_id: id })
        } else {
            None
        }
    }

    /// The scope of the closure.
    pub fn scope(&self) -> (scope: Scope)
        requires
            self.wf(),
        ensures
            scope.is_scope(self.model(), self.id()),
    {
        Scope::new(share(&self.data), self.scope_id)
    }

    /// Adds to `found` the bindings that the reads or the writes of scope
    /// `scope` refer to and that are declared outside of the closure, unless
    /// they are in `found` already.
    fn collect(&self, scope: u32, kind: ReferenceKind, found: &mut Vec<Binding>)
        requires
            self.wf(),
            self.model().has_scope(scope as int),
            self.model().encloses(self.id(), scope as int),
            self.holds_captures(old(found)@),
        ensures
            self.holds_captures(final(found)@),
            old(found)@.len() <= final(found)@.len(),
            forall|i: int| 0 <= i < old(found)@.len() ==> final(found)@[i] == old(found)@[i],
            forall|k: int|
                0 <= k < self.model().occurrences(scope as int, kind).len()
                    && self.model().declared_outside(
                    self.id(),
                    (#[trigger] self.model().occurrences(scope as int, kind)[k]).binding_id as int,
                ) ==> Self::has_capture(
                    final(found)@,
                    self.model().occurrences(scope as int, kind)[k].binding_id as int,
                ),
    {
        let ghost model = self.model();
        let ghost start = found@;
        let me = Scope::new(share(&self.data), self.scope_id);
        let entries = self.data.scope_occurrences(scope, kind);
        let count = entries.len();
        let mut k: usize = 0;
        while k < count
            invariant
                self.wf(),
                model == self.model(),
                model.has_scope(scope as int),
                model.encloses(self.id(), scope as int),
                me.is_scope(model, self.id()),
                entries@ == model.occurrences(scope as int, kind),
                count == entries@.len(),
                k <= count,
                self.holds_captures(found@),
                start.len() <= found@.len(),
                forall|i: int| 0 <= i < start.len() ==> found@[i] == start[i],
                forall|j: int|
                    0 <= j < k && model.declared_outside(
                        self.id(),
                        (#[trigger] entries@[j]).binding_id as int,
                    ) ==> Self::has_capture(found@, entries@[j].binding_id as int),
            decreases count - k,
        {
            let binding = entries[k].binding_id;
            proof {
                let place = model.scopes[scope as int];
                match kind {
                    ReferenceKind::Read => {
                        assert(model.entry_wf(scope as int, kind, place.reads[k as int]));
                    },
                    ReferenceKind::Write => {
                        assert(model.entry_wf(scope as int, kind, place.writes[k as int]));
                    },
                }
            }
            let declared = self.data.binding_scope(binding);
            let ghost before = found@;
            if declared != self.scope_id {
                let owner = Scope::new(share(&self.data), declared);
                if owner.is_ancestor_of(&me) {
                    let mut known = false;
                    let mut i: usize = 0;
                    while i < found.len()
                        invariant
                            i <= found@.len(),
                            found@ == before,
                            known == exists|j: int|
                                0 <= j < i && (#[trigger] found@[j]).index() == binding,
                        decreases found@.len() - i,
                    {
                        if found[i].binding_id() == binding {
                            known = true;
                        }
                        i += 1;
                    }
                    if !known {
                        found.push(Binding::new(share(&self.data), binding));
                        proof {
                            assert(model.uses(scope as int, binding as int));
                            assert(model.captures(self.id(), binding as int));
                            assert(found@[before.len() as int].index() == binding);
                        }
                    } else {
                        proof {
                            assert(Self::has_capture(found@, binding as int));
                        }
                    }
                    proof {
                        assert(Self::has_capture(found@, binding as int));
                    }
                }
            }
            proof {
                assert forall|j: int|
                    0 <= j < k + 1 && model.declared_outside(
                        self.id(),
                        (#[trigger] entries@[j]).binding_id as int,
                    ) implies Self::has_capture(found@, entries@[j].binding_id as int) by {
                    if j < k {
                        let at = choose|i: int|
                            0 <= i < before.len() && (#[trigger] before[i]).index()
                                == entries@[j].binding_id;
                        assert(found@[at] == before[at]);
                    }
                }
            }
            k += 1;
        }
    }

    /// The bindings that the closure captures: those that are declared in a
    /// scope around the closure and read or written in the closure's scope
    /// or in a scope under it. Each is handed out once; the order among
    /// them is not fixed.
    pub fn all_captures(&self) -> (found: Vec<Binding>)
        requires
            self.wf(),
        ensures
            self.holds_captures(found@),
            forall|binding: int|
                self.model().captures(self.id(), binding) ==> Self::has_capture(found@, binding),
    {
        let ghost model = self.model();
        let ghost order = model.descendants_of(self.id());
        let mut found: Vec<Binding> = Vec::new();
        let me = Scope::new(share(&self.data), self.scope_id);
        let mut walk = me.descendents();
        let ghost mut visited: Seq<u32> = Seq::empty();
        proof {
            model.lemma_breadth_first_reach(seq![self.scope_id]);
            assert(order =~= visited + walk.remaining());
        }
        loop
            invariant
                self.wf(),
                model == self.model(),
                order == model.descendants_of(self.id()),
                model.has_scopes(order),
                forall|id: int|
                    model.has_scope(id) ==> (order.contains(id as u32) <==> model.encloses(
                        self.id(),
                        id,
                    )),
                walk.wf(),
                walk.model() == model,
                order == visited + walk.remaining(),
                self.holds_captures(found@),
                forall|j: int, binding: int|
                    0 <= j < visited.len() && model.declared_outside(self.id(), binding)
                        && #[trigger] model.uses(visited[j] as int, binding) ==> Self::has_capture(
                        found@,
                        binding,
                    ),
            decreases walk.remaining().len(),
        {
            let ghost left = walk.remaining();
            match walk.next() {
                None => {
                    proof {
                        assert(order =~= visited);
                        assert forall|binding: int|
                            model.captures(self.id(), binding) implies Self::has_capture(
                            found@,
                            binding,
                        ) by {
                            let inner = choose|inner: int|
                                model.has_scope(inner) && model.encloses(self.id(), inner)
                                    && #[trigger] model.uses(inner, binding);
                            assert(order.contains(inner as u32));
                            let j = choose|j: int| 0 <= j < order.len() && order[j] == inner as u32;
                            assert(model.uses(visited[j] as int, binding));
                        }
                    }
                    return found;
                },
                Some(scope) => {
                    let ghost id = left[0];
                    let ghost at = visited.len() as int;
                    proof {
                        assert(order[at] == id);
                        assert(order.contains(id));
                        assert(model.has_scope(id as int));
                        assert(model.encloses(self.id(), id as int));
                    }
                    let here = scope.scope_id();
                    let ghost before = found@;
                    self.collect(here, ReferenceKind::Read, &mut found);
                    let ghost between = found@;
                    self.collect(here, ReferenceKind::Write, &mut found);
                    proof {
                        let grown = visited.push(id);
                        assert(order =~= grown + walk.remaining());
                        assert forall|j: int, binding: int|
                            0 <= j < grown.len() && model.declared_outside(self.id(), binding)
                                && #[trigger] model.uses(grown[j] as int, binding)
                                implies Self::has_capture(found@, binding) by {
                            if j < visited.len() {
                                assert(model.uses(visited[j] as int, binding));
                                let i = choose|i: int|
                                    0 <= i < before.len() && (#[trigger] before[i]).index()
                                        == binding;
                                assert(between[i] == before[i]);
                                assert(found@[i] == between[i]);
                            } else {
                                let (kind, k) = choose|kind: ReferenceKind, k: int|
                                    0 <= k < model.occurrences(id as int, kind).len() && (
                                    #[trigger] model.occurrences(id as int, kind)[k]).binding_id
                                        == binding;
                                match kind {
                                    ReferenceKind::Read => {
                                        assert(Self::has_capture(between, binding));
                                        let i = choose|i: int|
                                            0 <= i < between.len() && (
                                            #[trigger] between[i]).index() == binding;
                                        assert(found@[i] == between[i]);
                                    },
                                    ReferenceKind::Write => {},
                                }
                            }
                        }
                        visited = grown;
                    }
                },
            }
        }
    }

    /// The span of the closure.
    pub fn closure_range(&self) -> (range: &TextRange)
        requires
            self.wf(),
        ensures
            *range == self.model().scopes[self.id()].range,
    {
        self.data.scope_range(self.scope_id)
    }
}

} // verus!
