//! The mathematical picture of a semantic model: sequences of scope and
//! binding records that point at each other by index, and what it means for
//! such a picture to be consistent.
//!
//! Every contract of the crate is stated over these values.

use crate::syntax::{span, JsNode, Span};
use biome_rowan::TextRange;
use vstd::prelude::*;

verus! {

/// Whether an occurrence of a name reads the binding or writes to it.
#[derive(Clone, Copy, Debug, PartialEq, Eq, Structural)]
pub enum ReferenceKind {
    Read,
    Write,
}

/// One entry of a scope's read or write list: a binding and a position in
/// that binding's own list of references.
#[derive(Clone, Copy, Debug)]
pub struct SemanticModelScopeReference {
    /// Index of the binding in the model.
    pub binding_id: usize,
    /// Index of the occurrence in the binding's list of references.
    pub reference_id: usize,
}

/// One occurrence of a binding.
pub struct ReferenceView {
    /// The span of the identifier.
    pub range: TextRange,
    /// The scope in which the identifier stands.
    pub scope: u32,
    /// Read or write.
    pub kind: ReferenceKind,
}

/// One declaration and every occurrence of it.
pub struct BindingView {
    /// The declared name.
    pub name: Seq<char>,
    /// The scope that declares it.
    pub scope: u32,
    /// Its occurrences anywhere in the tree, in the order they were met.
    pub references: Seq<ReferenceView>,
}

/// One scope.
pub struct ScopeView {
    /// The span that the scope covers.
    pub range: TextRange,
    /// The enclosing scope; none for the root.
    pub parent: Option<u32>,
    /// The scopes directly inside, in the order they were created.
    pub children: Seq<u32>,
    /// The bindings declared directly in this scope, in declaration order.
    pub bindings: Seq<usize>,
    /// For each name declared here, the binding last declared under it.
    pub names: Map<Seq<char>, usize>,
    /// The reads that stand in this scope.
    pub reads: Seq<SemanticModelScopeReference>,
    /// The writes that stand in this scope.
    pub writes: Seq<SemanticModelScopeReference>,
    /// Whether the scope belongs to a construct that can capture bindings.
    pub is_closure: bool,
}

/// A whole model.
pub struct ModelView {
    /// The root of the syntax tree that the model describes.
    pub root: JsNode,
    /// Every scope; the position is the scope's id and 0 is the root scope.
    pub scopes: Seq<ScopeView>,
    /// Every binding, in declaration order.
    pub bindings: Seq<BindingView>,
    /// For the span of each scope, the node that introduces the scope.
    pub nodes: Map<Span, JsNode>,
    /// For the offset at which a hoisted declaration starts, the scope that
    /// it was hoisted to.
    pub hoists: Map<u32, u32>,
}

impl ModelView {
    /// `id` names a scope of the model.
    pub open spec fn has_scope(self, id: int) -> bool {
        0 <= id < self.scopes.len()
    }

    /// `index` names a binding of the model.
    pub open spec fn has_binding(self, index: int) -> bool {
        0 <= index < self.bindings.len()
    }

    /// Every element of `ids` names a scope of the model.
    pub open spec fn has_scopes(self, ids: Seq<u32>) -> bool {
        forall|i: int| 0 <= i < ids.len() ==> self.has_scope(#[trigger] ids[i] as int)
    }

    /// `child` stands in the child list of `id`.
    pub open spec fn has_child(self, id: int, child: int) -> bool {
        exists|k: int|
            0 <= k < self.scopes[id].children.len() && #[trigger] self.scopes[id].children[k]
                == child
    }

    /// `binding` stands in the declaration list of `id`.
    pub open spec fn declares(self, id: int, binding: int) -> bool {
        exists|k: int|
            0 <= k < self.scopes[id].bindings.len() && #[trigger] self.scopes[id].bindings[k]
                == binding
    }

    /// The name of the `k`-th binding declared in scope `id`.
    pub open spec fn declared_name(self, id: int, k: int) -> Seq<char> {
        self.bindings[self.scopes[id].bindings[k] as int].name
    }

    /// Scope `id` declares some binding called `name`.
    pub open spec fn declares_name(self, id: int, name: Seq<char>) -> bool {
        exists|k: int|
            0 <= k < self.scopes[id].bindings.len() && #[trigger] self.declared_name(id, k) == name
    }

    /// `binding` is the last binding that scope `id` declares under `name`.
    pub open spec fn is_last_declaration(self, id: int, name: Seq<char>, binding: int) -> bool {
        exists|k: int|
            {
                &&& 0 <= k < self.scopes[id].bindings.len()
                &&& #[trigger] self.scopes[id].bindings[k] == binding
                &&& self.declared_name(id, k) == name
                &&& forall|j: int|
                    k < j < self.scopes[id].bindings.len() ==> #[trigger] self.declared_name(id, j)
                        != name
            }
    }

    /// The read list or the write list of scope `id`.
    pub open spec fn occurrences(self, id: int, kind: ReferenceKind) -> Seq<
        SemanticModelScopeReference,
    > {
        match kind {
            ReferenceKind::Read => self.scopes[id].reads,
            ReferenceKind::Write => self.scopes[id].writes,
        }
    }

    /// The entry `entry` of a list of scope `id` points at an occurrence that
    /// exists, stands in that scope and is of that kind.
    pub open spec fn entry_wf(
        self,
        id: int,
        kind: ReferenceKind,
        entry: SemanticModelScopeReference,
    ) -> bool {
        &&& self.has_binding(entry.binding_id as int)
        &&& entry.reference_id < self.bindings[entry.binding_id as int].references.len()
        &&& self.bindings[entry.binding_id as int].references[entry.reference_id as int].scope == id
        &&& self.bindings[entry.binding_id as int].references[entry.reference_id as int].kind
            == kind
    }

    /// Occurrence `reference` of binding `binding` is entered in the list of
    /// its kind of scope `id`.
    pub open spec fn lists(self, id: int, kind: ReferenceKind, binding: int, reference: int) -> bool {
        exists|k: int|
            {
                &&& 0 <= k < self.occurrences(id, kind).len()
                &&& (#[trigger] self.occurrences(id, kind)[k]).binding_id == binding
                &&& self.occurrences(id, kind)[k].reference_id == reference
            }
    }

    /// The root scope has no parent, and every other scope has one that was
    /// created before it.
    pub open spec fn parents_wf(self) -> bool {
        forall|id: int|
            #![trigger self.scopes[id]]
            self.has_scope(id) ==> match self.scopes[id].parent {
                None => id == 0,
                Some(p) => p < id,
            }
    }

    /// The child lists agree with the parent links: a list holds exactly the
    /// scopes whose parent is its owner, each once, in the order of creation.
    pub open spec fn children_wf(self) -> bool {
        &&& forall|id: int, k: int|
            #![trigger self.scopes[id].children[k]]
            self.has_scope(id) && 0 <= k < self.scopes[id].children.len() ==> {
                &&& self.has_scope(self.scopes[id].children[k] as int)
                &&& self.scopes[self.scopes[id].children[k] as int].parent == Some(id as u32)
            }
        &&& forall|id: int, j: int, k: int|
            #![trigger self.scopes[id].children[j], self.scopes[id].children[k]]
            self.has_scope(id) && 0 <= j < k < self.scopes[id].children.len()
                ==> self.scopes[id].children[j] < self.scopes[id].children[k]
        &&& forall|child: int|
            #![trigger self.scopes[child]]
            self.has_scope(child) ==> match self.scopes[child].parent {
                None => true,
                Some(p) => self.has_child(p as int, child),
            }
    }

    /// The declaration lists agree with the bindings: a list holds exactly
    /// the bindings that its scope declares, each once, in declaration order.
    pub open spec fn declarations_wf(self) -> bool {
        &&& forall|id: int, k: int|
            #![trigger self.scopes[id].bindings[k]]
            self.has_scope(id) && 0 <= k < self.scopes[id].bindings.len() ==> {
                &&& self.has_binding(self.scopes[id].bindings[k] as int)
                &&& self.bindings[self.scopes[id].bindings[k] as int].scope == id
            }
        &&& forall|id: int, j: int, k: int|
            #![trigger self.scopes[id].bindings[j], self.scopes[id].bindings[k]]
            self.has_scope(id) && 0 <= j < k < self.scopes[id].bindings.len()
                ==> self.scopes[id].bindings[j] < self.scopes[id].bindings[k]
        &&& forall|binding: int|
            #![trigger self.bindings[binding]]
            self.has_binding(binding) ==> {
                &&& self.has_scope(self.bindings[binding].scope as int)
                &&& self.declares(self.bindings[binding].scope as int, binding)
            }
    }

    /// The name map of a scope knows exactly the names that the scope
    /// declares, and gives for each the binding declared last under it.
    pub open spec fn names_wf(self) -> bool {
        forall|id: int, name: Seq<char>|
            #![trigger self.scopes[id].names.contains_key(name)]
            self.has_scope(id) ==> {
                &&& self.scopes[id].names.contains_key(name) <==> self.declares_name(id, name)
                &&& self.scopes[id].names.contains_key(name) ==> self.is_last_declaration(
                    id,
                    name,
                    self.scopes[id].names[name] as int,
                )
            }
    }

    /// The read and write lists agree with the bindings' own lists of
    /// references: every entry points at an occurrence of its scope and kind,
    /// and every occurrence is entered in the list of its scope and kind.
    pub open spec fn references_wf(self) -> bool {
        &&& forall|id: int, k: int|
            #![trigger self.scopes[id].reads[k]]
            self.has_scope(id) && 0 <= k < self.scopes[id].reads.len() ==> self.entry_wf(
                id,
                ReferenceKind::Read,
                self.scopes[id].reads[k],
            )
        &&& forall|id: int, k: int|
            #![trigger self.scopes[id].writes[k]]
            self.has_scope(id) && 0 <= k < self.scopes[id].writes.len() ==> self.entry_wf(
                id,
                ReferenceKind::Write,
                self.scopes[id].writes[k],
            )
        &&& forall|binding: int, k: int|
            #![trigger self.bindings[binding].references[k]]
            self.has_binding(binding) && 0 <= k < self.bindings[binding].references.len() ==> {
                &&& self.has_scope(self.bindings[binding].references[k].scope as int)
                &&& self.lists(
                    self.bindings[binding].references[k].scope as int,
                    self.bindings[binding].references[k].kind,
                    binding,
                    k,
                )
            }
    }

    /// The span of every scope has a node recorded under it.
    pub open spec fn nodes_wf(self) -> bool {
        forall|id: int|
            #![trigger self.scopes[id]]
            self.has_scope(id) ==> self.nodes.contains_key(span(self.scopes[id].range))
    }

    /// Every hoisted declaration was hoisted to a scope that exists.
    pub open spec fn hoists_wf(self) -> bool {
        forall|start: u32|
            self.hoists.contains_key(start) ==> self.has_scope(#[trigger] self.hoists[start] as int)
    }

    /// The span of scope `id` contains the span `inner`.
    pub open spec fn covers(self, id: int, inner: Span) -> bool {
        span(self.scopes[id].range).0 <= inner.0 && inner.1 <= span(self.scopes[id].range).1
    }

    /// Scope `id` is the innermost scope around the span `inner`: its span
    /// contains `inner`, and no scope created after it does.
    pub open spec fn is_tightest(self, id: int, inner: Span) -> bool {
        &&& self.has_scope(id)
        &&& self.covers(id, inner)
        &&& forall|other: int|
            id < other < self.scopes.len() ==> !#[trigger] self.covers(other, inner)
    }

    /// Some scope of the model contains the span `inner`.
    pub open spec fn covers_somewhere(self, inner: Span) -> bool {
        exists|id: int| self.has_scope(id) && #[trigger] self.covers(id, inner)
    }

    /// Some read or write that stands in scope `id` refers to `binding`.
    pub open spec fn uses(self, id: int, binding: int) -> bool {
        exists|kind: ReferenceKind, k: int|
            0 <= k < self.occurrences(id, kind).len() && (#[trigger] self.occurrences(
                id,
                kind,
            )[k]).binding_id == binding
    }

    /// `binding` is declared in a scope that encloses scope `id` and is not
    /// `id` itself.
    pub open spec fn declared_outside(self, id: int, binding: int) -> bool {
        &&& self.has_binding(binding)
        &&& self.bindings[binding].scope != id
        &&& self.encloses(self.bindings[binding].scope as int, id)
    }

    /// The closure of scope `id` captures `binding`: the binding is declared
    /// outside of the closure and used in the closure's scope or in a scope
    /// under it.
    pub open spec fn captures(self, id: int, binding: int) -> bool {
        &&& self.declared_outside(id, binding)
        &&& exists|inner: int|
            self.has_scope(inner) && self.encloses(id, inner) && #[trigger] self.uses(inner, binding)
    }

    /// The model is consistent: every index that a record holds names a
    /// record that exists, and the cross-links agree with each other.
    pub open spec fn wf(self) -> bool {
        &&& self.scopes.len() <= u32::MAX
        &&& self.bindings.len() <= usize::MAX
        &&& forall|binding: int|
            self.has_binding(binding) ==> (#[trigger] self.bindings[binding]).references.len()
                <= usize::MAX
        &&& self.parents_wf()
        &&& self.children_wf()
        &&& self.declarations_wf()
        &&& self.names_wf()
        &&& self.references_wf()
        &&& self.nodes_wf()
        &&& self.hoists_wf()
    }

    /// The scope `id` followed by its parent, its parent's parent and so on,
    /// as far as the parent links lead.
    pub open spec fn ancestors_of(self, id: int) -> Seq<u32>
        decreases id,
    {
        if !self.has_scope(id) {
            Seq::empty()
        } else {
            let rest = match self.scopes[id].parent {
                None => Seq::empty(),
                Some(p) => if p < id {
                    self.ancestors_of(p as int)
                } else {
                    Seq::empty()
                },
            };
            seq![id as u32] + rest
        }
    }

    /// `ancestor` is `id` itself or one of the scopes that enclose it.
    pub open spec fn encloses(self, ancestor: int, id: int) -> bool {
        exists|i: int|
            0 <= i < self.ancestors_of(id).len() && #[trigger] self.ancestors_of(id)[i] == ancestor
    }

    /// What a walk up from `id` looks like: it starts at `id`, every step
    /// goes to the parent, the ids fall, and it ends at a scope without a
    /// parent.
    pub proof fn lemma_ancestors(self, id: int)
        requires
            self.wf(),
            self.has_scope(id),
        ensures
            self.ancestors_of(id).len() >= 1,
            self.ancestors_of(id)[0] == id,
            self.has_scopes(self.ancestors_of(id)),
            forall|i: int|
                0 <= i < self.ancestors_of(id).len() ==> #[trigger] self.ancestors_of(id)[i] <= id,
            forall|i: int|
                0 <= i < self.ancestors_of(id).len() - 1 ==> self.scopes[#[trigger] self.ancestors_of(
                    id,
                )[i] as int].parent == Some(self.ancestors_of(id)[i + 1]),
            self.scopes[self.ancestors_of(id).last() as int].parent is None,
            self.ancestors_of(id).last() == 0,
        decreases id,
    {
        let chain = self.ancestors_of(id);
        match self.scopes[id].parent {
            None => {
                assert(chain =~= seq![id as u32]);
            },
            Some(p) => {
                self.lemma_ancestors(p as int);
                let rest = self.ancestors_of(p as int);
                assert(chain =~= seq![id as u32] + rest);
                assert forall|i: int|
                    0 <= i < chain.len() - 1 implies self.scopes[#[trigger] chain[i] as int].parent
                    == Some(chain[i + 1]) by {
                    if i > 0 {
                        assert(chain[i] == rest[i - 1]);
                        assert(chain[i + 1] == rest[i]);
                    }
                }
                assert(chain.last() == rest.last());
            },
        }
    }

    /// A scope that encloses `id` and is not `id` itself encloses the parent
    /// of `id`.
    pub proof fn lemma_encloses_step(self, ancestor: int, id: int)
        requires
            self.wf(),
            self.has_scope(id),
            self.encloses(ancestor, id),
            ancestor != id,
        ensures
            self.scopes[id].parent is Some,
            self.encloses(ancestor, self.scopes[id].parent->0 as int),
    {
        let chain = self.ancestors_of(id);
        let i = choose|i: int| 0 <= i < chain.len() && #[trigger] chain[i] == ancestor;
        assert(i > 0);
        let p = self.scopes[id].parent->0;
        assert(self.ancestors_of(p as int)[i - 1] == ancestor);
    }

    /// Whatever encloses the parent of `id` encloses `id`.
    pub proof fn lemma_encloses_parent(self, ancestor: int, id: int)
        requires
            self.wf(),
            self.has_scope(id),
            self.scopes[id].parent is Some,
            self.encloses(ancestor, self.scopes[id].parent->0 as int),
        ensures
            self.encloses(ancestor, id),
    {
        let p = self.scopes[id].parent->0;
        let rest = self.ancestors_of(p as int);
        let i = choose|i: int| 0 <= i < rest.len() && #[trigger] rest[i] == ancestor;
        assert(self.ancestors_of(id)[i + 1] == ancestor);
    }

    /// Every scope encloses itself.
    pub proof fn lemma_encloses_self(self, id: int)
        requires
            self.wf(),
            self.has_scope(id),
        ensures
            self.encloses(id, id),
    {
        assert(self.ancestors_of(id)[0] == id);
    }
}

} // verus!
