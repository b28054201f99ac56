//! Handles on one declared name and on one occurrence of it.

use crate::model::{share, SemanticModelData};
use crate::scope::Scope;
use crate::syntax::same_node;
use crate::view::{ModelView, ReferenceKind};
use biome_rowan::TextRange;
use std::rc::Rc;
use vstd::prelude::*;
use vstd::std_specs::cmp::PartialEqSpecImpl;

verus! {

/// One declaration: a shared model and the index of a binding in it.
#[derive(Debug)]
pub struct Binding {
    data: Rc<SemanticModelData>,
    index: usize,
}

/// One occurrence of a binding: a shared model, the index of the binding and
/// the position of the occurrence in the binding's list of references.
#[derive(Debug)]
pub struct Reference {
    data: Rc<SemanticModelData>,
    binding: usize,
    position: usize,
}

impl Binding {
    /// The model that the handle looks into.
    pub closed spec fn model(&self) -> ModelView {
        self.data@
    }

    /// The index of the binding in the model.
    pub closed spec fn index(&self) -> int {
        self.index as int
    }

    /// The handle points at a binding of a consistent model.
    pub open spec fn wf(&self) -> bool {
        self.model().wf() && self.model().has_binding(self.index())
    }

    /// The handle is a valid handle on binding `index` of `model`.
    pub open spec fn is_binding(&self, model: ModelView, index: int) -> bool {
        self.wf() && self.model() == model && self.index() == index
    }

    /// `found` are valid handles on exactly the occurrences of this binding
    /// that are of kind `kind`, in the order of the binding's list of
    /// references.
    pub open spec fn selects(&self, found: Seq<Reference>, kind: ReferenceKind) -> bool {
        &&& forall|i: int|
            0 <= i < found.len() ==> {
                &&& (#[trigger] found[i]).wf()
                &&& found[i].model() == self.model()
                &&& found[i].binding_index() == self.index()
                &&& self.model().bindings[self.index()].references[found[i].position()].kind == kind
            }
        &&& forall|i: int, j: int|
            0 <= i < j < found.len() ==> (#[trigger] found[i]).position() < (
            #[trigger] found[j]).position()
        &&& forall|p: int|
            0 <= p < self.model().bindings[self.index()].references.len() && (
            #[trigger] self.model().bindings[self.index()].references[p]).kind == kind
                ==> exists|i: int| 0 <= i < found.len() && (#[trigger] found[i]).position() == p
    }

    pub(crate) fn new(data: Rc<SemanticModelData>, index: usize) -> (binding: Binding)
        requires
            data@.wf(),
            data@.has_binding(index as int),
        ensures
            binding.is_binding(data@, index as int),
    {
        Binding { data, index }
    }

    /// The position of the binding among all bindings of the model, which
    /// are numbered in declaration order.
    pub fn binding_id(&self) -> (index: usize)
        ensures
            index == self.index(),
    {
        self.index
    }

    /// The declared name.
    pub fn name(&self) -> (name: &str)
        requires
            self.wf(),
        ensures
            name@ == self.model().bindings[self.index()].name,
    {
        self.data.binding_name(self.index)
    }

    /// The scope that declares the binding.
    pub fn scope(&self) -> (scope: Scope)
        requires
            self.wf(),
        ensures
            scope.is_scope(self.model(), self.model().bindings[self.index()].scope as int),
    {
        let id = self.data.binding_scope(self.index);
        Scope::new(share(&self.data), id)
    }

    /// Every occurrence of the binding anywhere in the tree, reads and
    /// writes, in the order in which they were met.
    pub fn all_references(&self) -> (all: Vec<Reference>)
        requires
            self.wf(),
        ensures
            all@.len() == self.model().bindings[self.index()].references.len(),
            forall|i: int|
                0 <= i < all@.len() ==> (#[trigger] all@[i]).is_reference(
                    self.model(),
                    self.index(),
                    i,
                ),
    {
        let count = self.data.reference_count(self.index);
        let mut all: Vec<Reference> = Vec::new();
        let mut position: usize = 0;
        while position < count
            invariant
                self.wf(),
                count == self.model().bindings[self.index()].references.len(),
                position <= count,
                all@.len() == position,
                forall|i: int|
                    0 <= i < all@.len() ==> (#[trigger] all@[i]).is_reference(
                        self.model(),
                        self.index(),
                        i,
                    ),
            decreases count - position,
        {
            all.push(Reference { data: share(&self.data), binding: self.index, position });
            position += 1;
        }
        all
    }

    /// The occurrences of one kind, in the order in which they were met.
    pub fn references_of_kind(&self, kind: ReferenceKind) -> (found: Vec<Reference>)
        requires
            self.wf(),
        ensures
            self.selects(found@, kind),
    {
        let count = self.data.reference_count(self.index);
        let mut found: Vec<Reference> = Vec::new();
        let mut position: usize = 0;
        while position < count
            invariant
                self.wf(),
                count == self.model().bindings[self.index()].references.len(),
                position <= count,
                forall|i: int|
                    0 <= i < found@.len() ==> {
                        &&& (#[trigger] found@[i]).wf()
                        &&& found@[i].model() == self.model()
                        &&& found@[i].binding_index() == self.index()
                        &&& found@[i].position() < position
                        &&& self.model().bindings[self.index()].references[found@[i].position()].kind
                            == kind
                    },
                forall|i: int, j: int|
                    0 <= i < j < found@.len() ==> (#[trigger] found@[i]).position() < (
                    #[trigger] found@[j]).position(),
                forall|p: int|
                    0 <= p < position && (
                    #[trigger] self.model().bindings[self.index()].references[p]).kind == kind
                        ==> exists|i: int|
                        0 <= i < found@.len() && (#[trigger] found@[i]).position() == p,
            decreases count - position,
        {
            if self.data.reference_kind(self.index, position) == kind {
                let ghost before = found@;
                found.push(Reference { data: share(&self.data), binding: self.index, position });
                proof {
                    let last = before.len() as int;
                    assert(found@[last].position() == position);
                    assert forall|p: int|
                        0 <= p < position + 1 && (
                        #[trigger] self.model().bindings[self.index()].references[p]).kind
                            == kind implies exists|i: int|
                        0 <= i < found@.len() && (#[trigger] found@[i]).position() == p by {
                        if p < position {
                            let i = choose|i: int|
                                0 <= i < before.len() && (#[trigger] before[i]).position() == p;
                            assert(found@[i].position() == p);
                        }
                    }
                }
            }
            position += 1;
        }
        found
    }

    /// The reads of the binding, in the order in which they were met.
    pub fn all_reads(&self) -> (found: Vec<Reference>)
        requires
            self.wf(),
        ensures
            self.selects(found@, ReferenceKind::Read),
    {
        self.references_of_kind(ReferenceKind::Read)
    }

    /// The writes to the binding, in the order in which they were met.
    pub fn all_writes(&self) -> (found: Vec<Reference>)
        requires
            self.wf(),
        ensures
            self.selects(found@, ReferenceKind::Write),
    {
        self.references_of_kind(ReferenceKind::Write)
    }
}

impl Clone for Binding {
    fn clone(&self) -> (copy: Self)
        ensures
            copy == *self,
    {
        Binding { data: share(&self.data), index: self.index }
    }
}

impl PartialEq for Binding {
    fn eq(&self, other: &Self) -> (equal: bool) {
        self.index == other.index && same_node(self.data.root(), other.data.root())
    }
}

impl Eq for Binding {

}

impl PartialEqSpecImpl for Binding {
    open spec fn obeys_eq_spec() -> bool {
        true
    }

    open spec fn eq_spec(&self, other: &Self) -> bool {
        self.index() == other.index() && self.model().root == other.model().root
    }
}

impl Clone for Reference {
    fn clone(&self) -> (copy: Self)
        ensures
            copy == *self,
    {
        Reference { data: share(&self.data), binding: self.binding, position: self.position }
    }
}

impl Reference {
    /// The model that the handle looks into.
    pub closed spec fn model(&self) -> ModelView {
        self.data@
    }

    /// The index of the binding that the occurrence belongs to.
    pub closed spec fn binding_index(&self) -> int {
        self.binding as int
    }

    /// The position of the occurrence in the binding's list of references.
    pub closed spec fn position(&self) -> int {
        self.position as int
    }

    /// The handle points at an occurrence of a binding of a consistent model.
    pub open spec fn wf(&self) -> bool {
        &&& self.model().wf()
        &&& self.model().has_binding(self.binding_index())
        &&& 0 <= self.position() < self.model().bindings[self.binding_index()].references.len()
    }

    /// The handle is a valid handle on occurrence `position` of binding
    /// `binding` of `model`.
    pub open spec fn is_reference(&self, model: ModelView, binding: int, position: int) -> bool {
        &&& self.wf()
        &&& self.model() == model
        &&& self.binding_index() == binding
        &&& self.position() == position
    }

    /// Read or write.
    pub fn kind(&self) -> (kind: ReferenceKind)
        requires
            self.wf(),
        ensures
            kind == self.model().bindings[self.binding_index()].references[self.position()].kind,
    {
        self.data.reference_kind(self.binding, self.position)
    }

    /// Whether the occurrence reads the binding.
    pub fn is_read(&self) -> (read: bool)
        requires
            self.wf(),
        ensures
            read == (self.model().bindings[self.binding_index()].references[self.position()].kind
                == ReferenceKind::Read),
    {
        self.data.reference_kind(self.binding, self.position) == ReferenceKind::Read
    }

    /// Whether the occurrence writes to the binding.
    pub fn is_write(&self) -> (write: bool)
        requires
            self.wf(),
        ensures
            write == (self.model().bindings[self.binding_index()].references[self.position()].kind
                == ReferenceKind::Write),
    {
        self.data.reference_kind(self.binding, self.position) == ReferenceKind::Write
    }

    /// The span of the identifier.
    pub fn range(&self) -> (range: &TextRange)
        requires
            self.wf(),
        ensures
            *range == self.model().bindings[self.binding_index()].references[self.position()].range,
    {
        self.data.reference_range(self.binding, self.position)
    }

    /// The scope in which the identifier stands.
    pub fn scope(&self) -> (scope: Scope)
        requires
            self.wf(),
        ensures
            scope.is_scope(
                self.model(),
                self.model().bindings[self.binding_index()].references[self.position()].scope as int,
            ),
    {
        let id = self.data.reference_scope(self.binding, self.position);
        Scope::new(share(&self.data), id)
    }

    /// The binding that the identifier refers to.
    pub fn binding(&self) -> (binding: Binding)
        requires
            self.wf(),
        ensures
            binding.is_binding(self.model(), self.binding_index()),
    {
        Binding::new(share(&self.data), self.binding)
    }
}

} // verus!
