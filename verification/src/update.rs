//! How a model grows while it is built: one scope, one binding or one
//! reference at a time. Each step is a function from model to model, and
//! each keeps a consistent model consistent.

use crate::syntax::{span, JsNode};
use crate::view::{
    BindingView, ModelView, ReferenceKind, ReferenceView, ScopeView, SemanticModelScopeReference,
};
use biome_rowan::TextRange;
use vstd::prelude::*;

verus! {

impl ModelView {
    /// A model with nothing in it but the root of the tree.
    pub open spec fn empty(root: JsNode) -> ModelView {
        ModelView {
            root,
            scopes: Seq::empty(),
            bindings: Seq::empty(),
            nodes: Map::empty(),
            hoists: Map::empty(),
        }
    }

    /// A scope with this parent can be added: the first scope is the root
    /// and has none, every later scope hangs under a scope that exists, and
    /// the new id fits in 32 bits.
    pub open spec fn accepts_scope(self, parent: Option<u32>) -> bool {
        &&& self.scopes.len() < u32::MAX
        &&& match parent {
            None => self.scopes.len() == 0,
            Some(p) => p < self.scopes.len(),
        }
    }

    /// The model after a scope was added: the new scope gets the next id, is
    /// entered last in its parent's child list, and its node is recorded
    /// under its span.
    pub open spec fn with_scope(
        self,
        parent: Option<u32>,
        range: TextRange,
        node: JsNode,
        is_closure: bool,
    ) -> ModelView {
        let fresh = ScopeView {
            range,
            parent,
            children: Seq::empty(),
            bindings: Seq::empty(),
            names: Map::empty(),
            reads: Seq::empty(),
            writes: Seq::empty(),
            is_closure,
        };
        let linked = match parent {
            None => self.scopes,
            Some(p) => self.scopes.update(
                p as int,
                ScopeView {
                    children: self.scopes[p as int].children.push(self.scopes.len() as u32),
                    ..self.scopes[p as int]
                },
            ),
        };
        ModelView {
            scopes: linked.push(fresh),
            nodes: self.nodes.insert(span(range), node),
            ..self
        }
    }

    /// A binding can be declared in `scope`: the scope exists and the new
    /// index fits in a machine word.
    pub open spec fn accepts_binding(self, scope: u32) -> bool {
        &&& scope < self.scopes.len()
        &&& self.bindings.len() < usize::MAX
    }

    /// The model after `scope` declared a binding called `name`: the binding
    /// gets the next index, is entered last in the scope's declaration list,
    /// and takes over the name in the scope's name map.
    pub open spec fn with_binding(self, scope: u32, name: Seq<char>) -> ModelView {
        let index = self.bindings.len() as usize;
        let owner = self.scopes[scope as int];
        ModelView {
            bindings: self.bindings.push(BindingView { name, scope, references: Seq::empty() }),
            scopes: self.scopes.update(
                scope as int,
                ScopeView {
                    bindings: owner.bindings.push(index),
                    names: owner.names.insert(name, index),
                    ..owner
                },
            ),
            ..self
        }
    }

    /// An occurrence of `binding` that stands in `scope` can be recorded:
    /// both exist and the new position fits in a machine word.
    pub open spec fn accepts_reference(self, binding: usize, scope: u32) -> bool {
        &&& binding < self.bindings.len()
        &&& scope < self.scopes.len()
        &&& self.bindings[binding as int].references.len() < usize::MAX
    }

    /// The model after an occurrence of `binding` was met in `scope`: it is
    /// entered last in the binding's list of references and last in the
    /// scope's list of its kind.
    pub open spec fn with_reference(
        self,
        binding: usize,
        scope: u32,
        range: TextRange,
        kind: ReferenceKind,
    ) -> ModelView {
        let target = self.bindings[binding as int];
        let place = self.scopes[scope as int];
        let entry = SemanticModelScopeReference {
            binding_id: binding,
            reference_id: target.references.len() as usize,
        };
        ModelView {
            bindings: self.bindings.update(
                binding as int,
                BindingView {
                    references: target.references.push(ReferenceView { range, scope, kind }),
                    ..target
                },
            ),
            scopes: self.scopes.update(
                scope as int,
                match kind {
                    ReferenceKind::Read => ScopeView { reads: place.reads.push(entry), ..place },
                    ReferenceKind::Write => ScopeView { writes: place.writes.push(entry), ..place },
                },
            ),
            ..self
        }
    }

    /// A declaration can be marked as hoisted to `scope`: the scope exists.
    pub open spec fn accepts_hoist(self, scope: u32) -> bool {
        scope < self.scopes.len()
    }

    /// The model after the declaration that starts at offset `start` was
    /// marked as hoisted to `scope`.
    pub open spec fn with_hoist(self, start: u32, scope: u32) -> ModelView {
        ModelView { hoists: self.hoists.insert(start, scope), ..self }
    }

    /// `list` starts with `start`.
    pub open spec fn starts_with<T>(list: Seq<T>, start: Seq<T>) -> bool {
        start.len() <= list.len() && list.subrange(0, start.len() as int) == start
    }

    /// This model holds everything that `earlier` held, in the same place:
    /// every scope and binding of `earlier` is here under the same number
    /// with the same parent, span, flag, name and declaring scope, and its
    /// lists have only grown at the end.
    pub open spec fn extends(self, earlier: ModelView) -> bool {
        &&& self.root == earlier.root
        &&& earlier.scopes.len() <= self.scopes.len()
        &&& earlier.bindings.len() <= self.bindings.len()
        &&& forall|id: int|
            #![trigger self.scopes[id]]
            earlier.has_scope(id) ==> {
                &&& self.scopes[id].parent == earlier.scopes[id].parent
                &&& self.scopes[id].range == earlier.scopes[id].range
                &&& self.scopes[id].is_closure == earlier.scopes[id].is_closure
                &&& Self::starts_with(self.scopes[id].children, earlier.scopes[id].children)
                &&& Self::starts_with(self.scopes[id].bindings, earlier.scopes[id].bindings)
                &&& Self::starts_with(self.scopes[id].reads, earlier.scopes[id].reads)
                &&& Self::starts_with(self.scopes[id].writes, earlier.scopes[id].writes)
            }
        &&& forall|binding: int|
            #![trigger self.bindings[binding]]
            earlier.has_binding(binding) ==> {
                &&& self.bindings[binding].name == earlier.bindings[binding].name
                &&& self.bindings[binding].scope == earlier.bindings[binding].scope
                &&& Self::starts_with(
                    self.bindings[binding].references,
                    earlier.bindings[binding].references,
                )
            }
    }

    /// A list starts with itself, and with what it was before something
    /// was added at its end.
    proof fn lemma_starts_with<T>()
        ensures
            forall|list: Seq<T>| #[trigger] Self::starts_with(list, list),
            forall|list: Seq<T>, last: T| #[trigger] Self::starts_with(list.push(last), list),
    {
        assert forall|list: Seq<T>| #[trigger] Self::starts_with(list, list) by {
            assert(list.subrange(0, list.len() as int) =~= list);
        }
        assert forall|list: Seq<T>, last: T| #[trigger]
            Self::starts_with(list.push(last), list) by {
            assert(list.push(last).subrange(0, list.len() as int) =~= list);
        }
    }

    /// A model holds what it holds.
    pub proof fn lemma_extends_self(self)
        ensures
            self.extends(self),
    {
        Self::lemma_starts_with::<u32>();
        Self::lemma_starts_with::<usize>();
        Self::lemma_starts_with::<SemanticModelScopeReference>();
        Self::lemma_starts_with::<ReferenceView>();
    }

    /// Adding a scope keeps what the model held.
    pub proof fn lemma_with_scope_extends(
        self,
        parent: Option<u32>,
        range: TextRange,
        node: JsNode,
        is_closure: bool,
    )
        requires
            self.wf(),
            self.accepts_scope(parent),
        ensures
            self.with_scope(parent, range, node, is_closure).extends(self),
    {
        Self::lemma_starts_with::<u32>();
        Self::lemma_starts_with::<usize>();
        Self::lemma_starts_with::<SemanticModelScopeReference>();
        Self::lemma_starts_with::<ReferenceView>();
        let next = self.with_scope(parent, range, node, is_closure);
        assert forall|id: int| self.has_scope(id) implies {
            &&& (#[trigger] next.scopes[id]).parent == self.scopes[id].parent
            &&& next.scopes[id].range == self.scopes[id].range
            &&& next.scopes[id].is_closure == self.scopes[id].is_closure
            &&& next.scopes[id].bindings == self.scopes[id].bindings
            &&& next.scopes[id].reads == self.scopes[id].reads
            &&& next.scopes[id].writes == self.scopes[id].writes
            &&& next.scopes[id].children == if parent == Some(id as u32) {
                self.scopes[id].children.push(self.scopes.len() as u32)
            } else {
                self.scopes[id].children
            }
        } by {}
    }

    /// Declaring a binding keeps what the model held.
    pub proof fn lemma_with_binding_extends(self, scope: u32, name: Seq<char>)
        requires
            self.wf(),
            self.accepts_binding(scope),
        ensures
            self.with_binding(scope, name).extends(self),
    {
        Self::lemma_starts_with::<u32>();
        Self::lemma_starts_with::<usize>();
        Self::lemma_starts_with::<SemanticModelScopeReference>();
        Self::lemma_starts_with::<ReferenceView>();
    }

    /// Recording a reference keeps what the model held.
    pub proof fn lemma_with_reference_extends(
        self,
        binding: usize,
        scope: u32,
        range: TextRange,
        kind: ReferenceKind,
    )
        requires
            self.wf(),
            self.accepts_reference(binding, scope),
        ensures
            self.with_reference(binding, scope, range, kind).extends(self),
    {
        Self::lemma_starts_with::<u32>();
        Self::lemma_starts_with::<usize>();
        Self::lemma_starts_with::<SemanticModelScopeReference>();
        Self::lemma_starts_with::<ReferenceView>();
    }

    /// Marking a declaration as hoisted keeps what the model held.
    pub proof fn lemma_with_hoist_extends(self, start: u32, scope: u32)
        requires
            self.wf(),
            self.accepts_hoist(scope),
        ensures
            self.with_hoist(start, scope).extends(self),
    {
        Self::lemma_starts_with::<u32>();
        Self::lemma_starts_with::<usize>();
        Self::lemma_starts_with::<SemanticModelScopeReference>();
        Self::lemma_starts_with::<ReferenceView>();
    }

    /// The empty model is consistent.
    pub proof fn lemma_empty_wf(root: JsNode)
        ensures
            Self::empty(root).wf(),
    {
    }

    /// Adding a scope keeps the model consistent.
    pub proof fn lemma_with_scope_wf(
        self,
        parent: Option<u32>,
        range: TextRange,
        node: JsNode,
        is_closure: bool,
    )
        requires
            self.wf(),
            self.accepts_scope(parent),
        ensures
            self.with_scope(parent, range, node, is_closure).wf(),
    {
        let next = self.with_scope(parent, range, node, is_closure);
        let n = self.scopes.len() as int;
        assert(next.scopes.len() == n + 1);
        assert(next.bindings == self.bindings);
        assert forall|id: int| 0 <= id < n implies {
            &&& (#[trigger] next.scopes[id]).parent == self.scopes[id].parent
            &&& next.scopes[id].range == self.scopes[id].range
            &&& next.scopes[id].bindings == self.scopes[id].bindings
            &&& next.scopes[id].names == self.scopes[id].names
            &&& next.scopes[id].reads == self.scopes[id].reads
            &&& next.scopes[id].writes == self.scopes[id].writes
            &&& next.scopes[id].children == if parent == Some(id as u32) {
                self.scopes[id].children.push(n as u32)
            } else {
                self.scopes[id].children
            }
        } by {}
        assert(next.parents_wf());
        assert(next.children_wf()) by {
            assert forall|id: int, k: int|
                #![trigger next.scopes[id].children[k]]
                next.has_scope(id) && 0 <= k < next.scopes[id].children.len() implies {
                &&& next.has_scope(next.scopes[id].children[k] as int)
                &&& next.scopes[next.scopes[id].children[k] as int].parent == Some(id as u32)
            } by {
                if id < n && k < self.scopes[id].children.len() {
                    let c = self.scopes[id].children[k];
                    assert(next.scopes[id].children[k] == c);
                    assert(self.has_scope(c as int));
                    assert(next.scopes[c as int].parent == self.scopes[c as int].parent);
                }
            }
            assert forall|id: int, j: int, k: int|
                #![trigger next.scopes[id].children[j], next.scopes[id].children[k]]
                next.has_scope(id) && 0 <= j < k < next.scopes[id].children.len()
                    implies next.scopes[id].children[j] < next.scopes[id].children[k] by {
                assert(id < n);
                let c = self.scopes[id].children[j];
                assert(next.scopes[id].children[j] == c);
                assert(self.has_scope(c as int));
                if k < self.scopes[id].children.len() {
                    assert(next.scopes[id].children[k] == self.scopes[id].children[k]);
                }
            }
            assert forall|child: int|
                #![trigger next.scopes[child]]
                next.has_scope(child) implies match next.scopes[child].parent {
                None => true,
                Some(p) => next.has_child(p as int, child),
            } by {
                if child < n {
                    if let Some(p) = self.scopes[child].parent {
                        let k = choose|k: int|
                            0 <= k < self.scopes[p as int].children.len()
                                && #[trigger] self.scopes[p as int].children[k] == child;
                        assert(next.scopes[p as int].children[k] == child);
                    }
                } else {
                    if let Some(p) = parent {
                        let k = self.scopes[p as int].children.len() as int;
                        assert(next.scopes[p as int].children[k] == child);
                    }
                }
            }
        }
        assert(next.declarations_wf()) by {
            assert forall|binding: int|
                #![trigger next.bindings[binding]]
                next.has_binding(binding) implies {
                &&& next.has_scope(next.bindings[binding].scope as int)
                &&& next.declares(next.bindings[binding].scope as int, binding)
            } by {
                let s = self.bindings[binding].scope as int;
                let k = choose|k: int|
                    0 <= k < self.scopes[s].bindings.len() && #[trigger] self.scopes[s].bindings[k]
                        == binding;
                assert(next.scopes[s].bindings[k] == binding);
            }
        }
        assert(next.names_wf()) by {
            assert forall|id: int, name: Seq<char>|
                #![trigger next.scopes[id].names.contains_key(name)]
                next.has_scope(id) implies {
                &&& next.scopes[id].names.contains_key(name) <==> next.declares_name(id, name)
                &&& next.scopes[id].names.contains_key(name) ==> next.is_last_declaration(
                    id,
                    name,
                    next.scopes[id].names[name] as int,
                )
            } by {
                if id < n {
                    assert(self.scopes[id].names.contains_key(name) <==> self.declares_name(
                        id,
                        name,
                    ));
                    assert forall|k: int|
                        0 <= k < self.scopes[id].bindings.len() implies #[trigger] next.declared_name(
                        id,
                        k,
                    ) == self.declared_name(id, k) by {}
                    if self.declares_name(id, name) {
                        let k = choose|k: int|
                            0 <= k < self.scopes[id].bindings.len() && #[trigger] self.declared_name(
                                id,
                                k,
                            ) == name;
                        assert(next.declared_name(id, k) == name);
                    }
                    if next.declares_name(id, name) {
                        let k = choose|k: int|
                            0 <= k < next.scopes[id].bindings.len() && #[trigger] next.declared_name(
                                id,
                                k,
                            ) == name;
                        assert(self.declared_name(id, k) == name);
                    }
                    if self.scopes[id].names.contains_key(name) {
                        let b = self.scopes[id].names[name] as int;
                        assert(self.is_last_declaration(id, name, b));
                        let k = choose|k: int|
                            {
                                &&& 0 <= k < self.scopes[id].bindings.len()
                                &&& #[trigger] self.scopes[id].bindings[k] == b
                                &&& self.declared_name(id, k) == name
                                &&& forall|j: int|
                                    k < j < self.scopes[id].bindings.len()
                                        ==> #[trigger] self.declared_name(id, j) != name
                            };
                        assert(next.scopes[id].bindings[k] == b);
                        assert(next.declared_name(id, k) == name);
                        assert forall|j: int|
                            k < j < next.scopes[id].bindings.len() implies #[trigger] next.declared_name(
                            id,
                            j,
                        ) != name by {
                            assert(self.declared_name(id, j) != name);
                        }
                    }
                } else {
                    assert(!next.declares_name(id, name));
                }
            }
        }
        assert(next.references_wf()) by {
            assert forall|binding: int, k: int|
                #![trigger next.bindings[binding].references[k]]
                next.has_binding(binding) && 0 <= k < next.bindings[binding].references.len() implies {
                &&& next.has_scope(next.bindings[binding].references[k].scope as int)
                &&& next.lists(
                    next.bindings[binding].references[k].scope as int,
                    next.bindings[binding].references[k].kind,
                    binding,
                    k,
                )
            } by {
                let r = self.bindings[binding].references[k];
                let s = r.scope as int;
                assert(self.lists(s, r.kind, binding, k));
                let i = choose|i: int|
                    {
                        &&& 0 <= i < self.occurrences(s, r.kind).len()
                        &&& (#[trigger] self.occurrences(s, r.kind)[i]).binding_id == binding
                        &&& self.occurrences(s, r.kind)[i].reference_id == k
                    };
                assert(next.occurrences(s, r.kind) == self.occurrences(s, r.kind));
                assert(next.occurrences(s, r.kind)[i].binding_id == binding);
            }
        }
        assert(next.nodes_wf());
        assert(next.hoists_wf()) by {
            assert forall|start: u32| next.hoists.contains_key(start) implies next.has_scope(
                #[trigger] next.hoists[start] as int,
            ) by {
                assert(self.has_scope(self.hoists[start] as int));
            }
        }
    }

    /// Declaring a binding keeps the model consistent.
    pub proof fn lemma_with_binding_wf(self, scope: u32, name: Seq<char>)
        requires
            self.wf(),
            self.accepts_binding(scope),
        ensures
            self.with_binding(scope, name).wf(),
    {
        let next = self.with_binding(scope, name);
        let index = self.bindings.len() as int;
        let owner = scope as int;
        assert(next.scopes.len() == self.scopes.len());
        assert(next.bindings.len() == index + 1);
        assert(next.bindings[index].name == name);
        assert(next.bindings[index].scope == scope);
        assert forall|b: int| 0 <= b < index implies #[trigger] next.bindings[b]
            == self.bindings[b] by {}
        assert forall|id: int| self.has_scope(id) implies {
            &&& (#[trigger] next.scopes[id]).parent == self.scopes[id].parent
            &&& next.scopes[id].range == self.scopes[id].range
            &&& next.scopes[id].children == self.scopes[id].children
            &&& next.scopes[id].reads == self.scopes[id].reads
            &&& next.scopes[id].writes == self.scopes[id].writes
            &&& id != owner ==> next.scopes[id].bindings == self.scopes[id].bindings
            &&& id != owner ==> next.scopes[id].names == self.scopes[id].names
        } by {}
        assert(next.scopes[owner].bindings == self.scopes[owner].bindings.push(index as usize));
        assert(next.scopes[owner].names == self.scopes[owner].names.insert(name, index as usize));
        assert forall|id: int, k: int|
            self.has_scope(id) && 0 <= k < self.scopes[id].bindings.len() implies {
            &&& #[trigger] next.scopes[id].bindings[k] == self.scopes[id].bindings[k]
            &&& next.declared_name(id, k) == self.declared_name(id, k)
        } by {
            assert(self.has_binding(self.scopes[id].bindings[k] as int));
        }
        let last = self.scopes[owner].bindings.len() as int;
        assert(next.scopes[owner].bindings[last] == index);
        assert(next.declared_name(owner, last) == name);
        assert(next.parents_wf());
        assert(next.children_wf()) by {
            assert forall|child: int|
                #![trigger next.scopes[child]]
                next.has_scope(child) implies match next.scopes[child].parent {
                None => true,
                Some(p) => next.has_child(p as int, child),
            } by {
                if let Some(p) = self.scopes[child].parent {
                    let k = choose|k: int|
                        0 <= k < self.scopes[p as int].children.len()
                            && #[trigger] self.scopes[p as int].children[k] == child;
                    assert(next.scopes[p as int].children[k] == child);
                }
            }
        }
        assert(next.declarations_wf()) by {
            assert forall|id: int, k: int|
                #![trigger next.scopes[id].bindings[k]]
                next.has_scope(id) && 0 <= k < next.scopes[id].bindings.len() implies {
                &&& next.has_binding(next.scopes[id].bindings[k] as int)
                &&& next.bindings[next.scopes[id].bindings[k] as int].scope == id
            } by {
                if k < self.scopes[id].bindings.len() {
                    assert(self.has_binding(self.scopes[id].bindings[k] as int));
                }
            }
            assert forall|id: int, j: int, k: int|
                #![trigger next.scopes[id].bindings[j], next.scopes[id].bindings[k]]
                next.has_scope(id) && 0 <= j < k < next.scopes[id].bindings.len()
                    implies next.scopes[id].bindings[j] < next.scopes[id].bindings[k] by {
                assert(self.has_binding(self.scopes[id].bindings[j] as int));
                if k < self.scopes[id].bindings.len() {
                    assert(self.scopes[id].bindings[j] < self.scopes[id].bindings[k]);
                }
            }
            assert forall|binding: int|
                #![trigger next.bindings[binding]]
                next.has_binding(binding) implies {
                &&& next.has_scope(next.bindings[binding].scope as int)
                &&& next.declares(next.bindings[binding].scope as int, binding)
            } by {
                if binding < index {
                    let s = self.bindings[binding].scope as int;
                    let k = choose|k: int|
                        0 <= k < self.scopes[s].bindings.len()
                            && #[trigger] self.scopes[s].bindings[k] == binding;
                    assert(next.scopes[s].bindings[k] == binding);
                } else {
                    assert(next.scopes[owner].bindings[last] == binding);
                }
            }
        }
        assert(next.names_wf()) by {
            assert forall|id: int, other: Seq<char>|
                #![trigger next.scopes[id].names.contains_key(other)]
                next.has_scope(id) implies {
                &&& next.scopes[id].names.contains_key(other) <==> next.declares_name(id, other)
                &&& next.scopes[id].names.contains_key(other) ==> next.is_last_declaration(
                    id,
                    other,
                    next.scopes[id].names[other] as int,
                )
            } by {
                assert(self.scopes[id].names.contains_key(other) <==> self.declares_name(
                    id,
                    other,
                ));
                if id == owner && other == name {
                    assert(next.declares_name(id, other));
                    assert(next.is_last_declaration(id, other, index));
                } else {
                    if self.declares_name(id, other) {
                        let k = choose|k: int|
                            0 <= k < self.scopes[id].bindings.len() && #[trigger] self.declared_name(
                                id,
                                k,
                            ) == other;
                        assert(next.declared_name(id, k) == other);
                    }
                    if next.declares_name(id, other) {
                        let k = choose|k: int|
                            0 <= k < next.scopes[id].bindings.len() && #[trigger] next.declared_name(
                                id,
                                k,
                            ) == other;
                        assert(k < self.scopes[id].bindings.len());
                        assert(self.declared_name(id, k) == other);
                    }
                    if self.scopes[id].names.contains_key(other) {
                        let b = self.scopes[id].names[other] as int;
                        assert(next.scopes[id].names[other] == b);
                        assert(self.is_last_declaration(id, other, b));
                        let k = choose|k: int|
                            {
                                &&& 0 <= k < self.scopes[id].bindings.len()
                                &&& #[trigger] self.scopes[id].bindings[k] == b
                                &&& self.declared_name(id, k) == other
                                &&& forall|j: int|
                                    k < j < self.scopes[id].bindings.len()
                                        ==> #[trigger] self.declared_name(id, j) != other
                            };
                        assert(next.scopes[id].bindings[k] == b);
                        assert(next.declared_name(id, k) == other);
                        assert forall|j: int|
                            k < j < next.scopes[id].bindings.len() implies #[trigger] next.declared_name(
                            id,
                            j,
                        ) != other by {
                            if j < self.scopes[id].bindings.len() {
                                assert(self.declared_name(id, j) != other);
                            }
                        }
                    }
                }
            }
        }
        assert(next.references_wf()) by {
            assert forall|id: int, k: int|
                #![trigger next.scopes[id].reads[k]]
                next.has_scope(id) && 0 <= k < next.scopes[id].reads.len() implies next.entry_wf(
                id,
                ReferenceKind::Read,
                next.scopes[id].reads[k],
            ) by {
                assert(self.entry_wf(id, ReferenceKind::Read, self.scopes[id].reads[k]));
            }
            assert forall|id: int, k: int|
                #![trigger next.scopes[id].writes[k]]
                next.has_scope(id) && 0 <= k < next.scopes[id].writes.len() implies next.entry_wf(
                id,
                ReferenceKind::Write,
                next.scopes[id].writes[k],
            ) by {
                assert(self.entry_wf(id, ReferenceKind::Write, self.scopes[id].writes[k]));
            }
            assert forall|binding: int, k: int|
                #![trigger next.bindings[binding].references[k]]
                next.has_binding(binding) && 0 <= k < next.bindings[binding].references.len() implies {
                &&& next.has_scope(next.bindings[binding].references[k].scope as int)
                &&& next.lists(
                    next.bindings[binding].references[k].scope as int,
                    next.bindings[binding].references[k].kind,
                    binding,
                    k,
                )
            } by {
                let r = self.bindings[binding].references[k];
                let s = r.scope as int;
                assert(self.lists(s, r.kind, binding, k));
                let i = choose|i: int|
                    {
                        &&& 0 <= i < self.occurrences(s, r.kind).len()
                        &&& (#[trigger] self.occurrences(s, r.kind)[i]).binding_id == binding
                        &&& self.occurrences(s, r.kind)[i].reference_id == k
                    };
                assert(next.occurrences(s, r.kind) == self.occurrences(s, r.kind));
                assert(next.occurrences(s, r.kind)[i].binding_id == binding);
            }
        }
        assert(next.nodes_wf());
        assert(next.hoists_wf()) by {
            assert forall|start: u32| next.hoists.contains_key(start) implies next.has_scope(
                #[trigger] next.hoists[start] as int,
            ) by {
                assert(self.has_scope(self.hoists[start] as int));
            }
        }
    }

    /// Marking a declaration as hoisted keeps the model consistent.
    pub proof fn lemma_with_hoist_wf(self, start: u32, scope: u32)
        requires
            self.wf(),
            self.accepts_hoist(scope),
        ensures
            self.with_hoist(start, scope).wf(),
    {
        let next = self.with_hoist(start, scope);
        assert(next.scopes == self.scopes);
        assert(next.bindings == self.bindings);
        assert forall|id: int, k: int| #[trigger]
            next.declared_name(id, k) == self.declared_name(id, k) by {}
        assert forall|id: int, kind: ReferenceKind| #[trigger]
            next.occurrences(id, kind) == self.occurrences(id, kind) by {}
        assert(next.children_wf()) by {
            assert forall|child: int|
                #![trigger next.scopes[child]]
                next.has_scope(child) implies match next.scopes[child].parent {
                None => true,
                Some(p) => next.has_child(p as int, child),
            } by {
                if let Some(p) = self.scopes[child].parent {
                    assert(self.has_child(p as int, child));
                }
            }
        }
        assert(next.declarations_wf()) by {
            assert forall|b: int|
                #![trigger next.bindings[b]]
                next.has_binding(b) implies {
                &&& next.has_scope(next.bindings[b].scope as int)
                &&& next.declares(next.bindings[b].scope as int, b)
            } by {
                assert(self.declares(self.bindings[b].scope as int, b));
            }
        }
        assert(next.names_wf()) by {
            assert forall|id: int, name: Seq<char>|
                #![trigger next.scopes[id].names.contains_key(name)]
                next.has_scope(id) implies {
                &&& next.scopes[id].names.contains_key(name) <==> next.declares_name(id, name)
                &&& next.scopes[id].names.contains_key(name) ==> next.is_last_declaration(
                    id,
                    name,
                    next.scopes[id].names[name] as int,
                )
            } by {
                assert(self.scopes[id].names.contains_key(name) <==> self.declares_name(
                    id,
                    name,
                ));
                if self.declares_name(id, name) {
                    let k = choose|k: int|
                        0 <= k < self.scopes[id].bindings.len() && #[trigger] self.declared_name(
                            id,
                            k,
                        ) == name;
                    assert(next.declared_name(id, k) == name);
                }
                if next.declares_name(id, name) {
                    let k = choose|k: int|
                        0 <= k < next.scopes[id].bindings.len() && #[trigger] next.declared_name(
                            id,
                            k,
                        ) == name;
                    assert(self.declared_name(id, k) == name);
                }
                if self.scopes[id].names.contains_key(name) {
                    let b = self.scopes[id].names[name] as int;
                    assert(self.is_last_declaration(id, name, b));
                    let k = choose|k: int|
                        {
                            &&& 0 <= k < self.scopes[id].bindings.len()
                            &&& #[trigger] self.scopes[id].bindings[k] == b
                            &&& self.declared_name(id, k) == name
                            &&& forall|j: int|
                                k < j < self.scopes[id].bindings.len()
                                    ==> #[trigger] self.declared_name(id, j) != name
                        };
                    assert(next.scopes[id].bindings[k] == b);
                    assert(next.declared_name(id, k) == name);
                    assert forall|j: int|
                        k < j < next.scopes[id].bindings.len() implies #[trigger] next.declared_name(
                        id,
                        j,
                    ) != name by {
                        assert(self.declared_name(id, j) != name);
                    }
                }
            }
        }
        assert(next.references_wf()) by {
            assert forall|id: int, k: int|
                #![trigger next.scopes[id].reads[k]]
                next.has_scope(id) && 0 <= k < next.scopes[id].reads.len() implies next.entry_wf(
                id,
                ReferenceKind::Read,
                next.scopes[id].reads[k],
            ) by {
                assert(self.entry_wf(id, ReferenceKind::Read, self.scopes[id].reads[k]));
            }
            assert forall|id: int, k: int|
                #![trigger next.scopes[id].writes[k]]
                next.has_scope(id) && 0 <= k < next.scopes[id].writes.len() implies next.entry_wf(
                id,
                ReferenceKind::Write,
                next.scopes[id].writes[k],
            ) by {
                assert(self.entry_wf(id, ReferenceKind::Write, self.scopes[id].writes[k]));
            }
            assert forall|b: int, k: int|
                #![trigger next.bindings[b].references[k]]
                next.has_binding(b) && 0 <= k < next.bindings[b].references.len() implies {
                &&& next.has_scope(next.bindings[b].references[k].scope as int)
                &&& next.lists(
                    next.bindings[b].references[k].scope as int,
                    next.bindings[b].references[k].kind,
                    b,
                    k,
                )
            } by {
                let r = self.bindings[b].references[k];
                let s = r.scope as int;
                assert(self.lists(s, r.kind, b, k));
                let i = choose|i: int|
                    {
                        &&& 0 <= i < self.occurrences(s, r.kind).len()
                        &&& (#[trigger] self.occurrences(s, r.kind)[i]).binding_id == b
                        &&& self.occurrences(s, r.kind)[i].reference_id == k
                    };
                assert(next.occurrences(s, r.kind)[i] == self.occurrences(s, r.kind)[i]);
            }
        }
    }

    /// Recording a reference keeps the model consistent.
    pub proof fn lemma_with_reference_wf(
        self,
        binding: usize,
        scope: u32,
        range: TextRange,
        kind: ReferenceKind,
    )
        requires
            self.wf(),
            self.accepts_reference(binding, scope),
        ensures
            self.with_reference(binding, scope, range, kind).wf(),
    {
        let next = self.with_reference(binding, scope, range, kind);
        let target = binding as int;
        let place = scope as int;
        let position = self.bindings[target].references.len() as int;
        let entry = SemanticModelScopeReference {
            binding_id: binding,
            reference_id: position as usize,
        };
        assert(next.scopes.len() == self.scopes.len());
        assert(next.bindings.len() == self.bindings.len());
        assert forall|b: int| self.has_binding(b) implies {
            &&& (#[trigger] next.bindings[b]).name == self.bindings[b].name
            &&& next.bindings[b].scope == self.bindings[b].scope
            &&& b != target ==> next.bindings[b].references == self.bindings[b].references
        } by {}
        assert(next.bindings[target].references == self.bindings[target].references.push(
            ReferenceView { range, scope, kind },
        ));
        assert forall|id: int| self.has_scope(id) implies {
            &&& (#[trigger] next.scopes[id]).parent == self.scopes[id].parent
            &&& next.scopes[id].range == self.scopes[id].range
            &&& next.scopes[id].children == self.scopes[id].children
            &&& next.scopes[id].bindings == self.scopes[id].bindings
            &&& next.scopes[id].names == self.scopes[id].names
        } by {}
        assert forall|id: int, other: ReferenceKind|
            self.has_scope(id) implies #[trigger] next.occurrences(id, other) == if id == place
            && other == kind {
            self.occurrences(id, other).push(entry)
        } else {
            self.occurrences(id, other)
        } by {}
        assert forall|id: int, k: int|
            self.has_scope(id) && 0 <= k < self.scopes[id].bindings.len()
                implies #[trigger] next.declared_name(id, k) == self.declared_name(id, k) by {
            assert(self.has_binding(self.scopes[id].bindings[k] as int));
        }
        assert(next.parents_wf());
        assert(next.children_wf()) by {
            assert forall|child: int|
                #![trigger next.scopes[child]]
                next.has_scope(child) implies match next.scopes[child].parent {
                None => true,
                Some(p) => next.has_child(p as int, child),
            } by {
                if let Some(p) = self.scopes[child].parent {
                    let k = choose|k: int|
                        0 <= k < self.scopes[p as int].children.len()
                            && #[trigger] self.scopes[p as int].children[k] == child;
                    assert(next.scopes[p as int].children[k] == child);
                }
            }
        }
        assert(next.declarations_wf()) by {
            assert forall|id: int, k: int|
                #![trigger next.scopes[id].bindings[k]]
                next.has_scope(id) && 0 <= k < next.scopes[id].bindings.len() implies {
                &&& next.has_binding(next.scopes[id].bindings[k] as int)
                &&& next.bindings[next.scopes[id].bindings[k] as int].scope == id
            } by {
                assert(self.has_binding(self.scopes[id].bindings[k] as int));
            }
            assert forall|b: int|
                #![trigger next.bindings[b]]
                next.has_binding(b) implies {
                &&& next.has_scope(next.bindings[b].scope as int)
                &&& next.declares(next.bindings[b].scope as int, b)
            } by {
                let s = self.bindings[b].scope as int;
                let k = choose|k: int|
                    0 <= k < self.scopes[s].bindings.len() && #[trigger] self.scopes[s].bindings[k]
                        == b;
                assert(next.scopes[s].bindings[k] == b);
            }
        }
        assert(next.names_wf()) by {
            assert forall|id: int, name: Seq<char>|
                #![trigger next.scopes[id].names.contains_key(name)]
                next.has_scope(id) implies {
                &&& next.scopes[id].names.contains_key(name) <==> next.declares_name(id, name)
                &&& next.scopes[id].names.contains_key(name) ==> next.is_last_declaration(
                    id,
                    name,
                    next.scopes[id].names[name] as int,
                )
            } by {
                assert(self.scopes[id].names.contains_key(name) <==> self.declares_name(
                    id,
                    name,
                ));
                if self.declares_name(id, name) {
                    let k = choose|k: int|
                        0 <= k < self.scopes[id].bindings.len() && #[trigger] self.declared_name(
                            id,
                            k,
                        ) == name;
                    assert(next.declared_name(id, k) == name);
                }
                if next.declares_name(id, name) {
                    let k = choose|k: int|
                        0 <= k < next.scopes[id].bindings.len() && #[trigger] next.declared_name(
                            id,
                            k,
                        ) == name;
                    assert(self.declared_name(id, k) == name);
                }
                if self.scopes[id].names.contains_key(name) {
                    let b = self.scopes[id].names[name] as int;
                    assert(self.is_last_declaration(id, name, b));
                    let k = choose|k: int|
                        {
                            &&& 0 <= k < self.scopes[id].bindings.len()
                            &&& #[trigger] self.scopes[id].bindings[k] == b
                            &&& self.declared_name(id, k) == name
                            &&& forall|j: int|
                                k < j < self.scopes[id].bindings.len()
                                    ==> #[trigger] self.declared_name(id, j) != name
                        };
                    assert(next.scopes[id].bindings[k] == b);
                    assert(next.declared_name(id, k) == name);
                    assert forall|j: int|
                        k < j < next.scopes[id].bindings.len() implies #[trigger] next.declared_name(
                        id,
                        j,
                    ) != name by {
                        assert(self.declared_name(id, j) != name);
                    }
                }
            }
        }
        assert(next.references_wf()) by {
            assert forall|id: int, other: ReferenceKind, k: int|
                next.has_scope(id) && 0 <= k < next.occurrences(id, other).len() implies next.entry_wf(
                id,
                other,
                #[trigger] next.occurrences(id, other)[k],
            ) by {
                if k < self.occurrences(id, other).len() {
                    let e = self.occurrences(id, other)[k];
                    assert(next.occurrences(id, other)[k] == e);
                    match other {
                        ReferenceKind::Read => {
                            assert(self.entry_wf(id, other, self.scopes[id].reads[k]));
                        },
                        ReferenceKind::Write => {
                            assert(self.entry_wf(id, other, self.scopes[id].writes[k]));
                        },
                    }
                    assert(next.bindings[e.binding_id as int].references[e.reference_id as int]
                        == self.bindings[e.binding_id as int].references[e.reference_id as int]);
                } else {
                    assert(next.occurrences(id, other)[k] == entry);
                }
            }
            assert forall|id: int, k: int|
                #![trigger next.scopes[id].reads[k]]
                next.has_scope(id) && 0 <= k < next.scopes[id].reads.len() implies next.entry_wf(
                id,
                ReferenceKind::Read,
                next.scopes[id].reads[k],
            ) by {
                assert(next.occurrences(id, ReferenceKind::Read)[k] == next.scopes[id].reads[k]);
            }
            assert forall|id: int, k: int|
                #![trigger next.scopes[id].writes[k]]
                next.has_scope(id) && 0 <= k < next.scopes[id].writes.len() implies next.entry_wf(
                id,
                ReferenceKind::Write,
                next.scopes[id].writes[k],
            ) by {
                assert(next.occurrences(id, ReferenceKind::Write)[k] == next.scopes[id].writes[k]);
            }
            assert forall|b: int, k: int|
                #![trigger next.bindings[b].references[k]]
                next.has_binding(b) && 0 <= k < next.bindings[b].references.len() implies {
                &&& next.has_scope(next.bindings[b].references[k].scope as int)
                &&& next.lists(
                    next.bindings[b].references[k].scope as int,
                    next.bindings[b].references[k].kind,
                    b,
                    k,
                )
            } by {
                if b == target && k == position {
                    let i = self.occurrences(place, kind).len() as int;
                    assert(next.occurrences(place, kind)[i] == entry);
                } else {
                    let r = self.bindings[b].references[k];
                    assert(next.bindings[b].references[k] == r);
                    let s = r.scope as int;
                    assert(self.lists(s, r.kind, b, k));
                    let i = choose|i: int|
                        {
                            &&& 0 <= i < self.occurrences(s, r.kind).len()
                            &&& (#[trigger] self.occurrences(s, r.kind)[i]).binding_id == b
                            &&& self.occurrences(s, r.kind)[i].reference_id == k
                        };
                    assert(next.occurrences(s, r.kind)[i] == self.occurrences(s, r.kind)[i]);
                }
            }
        }
        assert(next.nodes_wf());
        assert(next.hoists_wf()) by {
            assert forall|start: u32| next.hoists.contains_key(start) implies next.has_scope(
                #[trigger] next.hoists[start] as int,
            ) by {
                assert(self.has_scope(self.hoists[start] as int));
            }
        }
    }
}

} // verus!
