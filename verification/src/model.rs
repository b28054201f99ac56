//! The arena behind every handle: all scope records, all binding records and
//! the index from a scope's span to its node.
//!
//! An arena is filled once, record by record, and then shared unchanged.

use crate::syntax::{
    end_of, insert_name, insert_node, lookup_name, name_index, new_name_index, new_node_index,
    node_at, node_index, span, start_of, JsNode,
};
use crate::view::{
    BindingView, ModelView, ReferenceKind, ReferenceView, ScopeView, SemanticModelScopeReference,
};
use biome_rowan::TextRange;
use rustc_hash::FxHashMap;
use std::rc::Rc;
use vstd::pervasive::unreached;
use vstd::prelude::*;

verus! {

/// The record of one scope.
#[derive(Debug)]
pub struct SemanticModelScopeData {
    range: TextRange,
    parent: Option<u32>,
    children: Vec<u32>,
    bindings: Vec<usize>,
    bindings_by_name: FxHashMap<String, usize>,
    read_references: Vec<SemanticModelScopeReference>,
    write_references: Vec<SemanticModelScopeReference>,
    is_closure: bool,
}

/// The record of one occurrence of a binding.
#[derive(Debug)]
pub struct SemanticModelReference {
    range: TextRange,
    scope: u32,
    kind: ReferenceKind,
}

/// The record of one binding.
#[derive(Debug)]
pub struct SemanticModelBindingData {
    name: String,
    scope: u32,
    references: Vec<SemanticModelReference>,
}

/// The arena: every record of one analysed file.
#[derive(Debug)]
pub struct SemanticModelData {
    root: JsNode,
    scopes: Vec<SemanticModelScopeData>,
    bindings: Vec<SemanticModelBindingData>,
    node_by_range: FxHashMap<TextRange, JsNode>,
    hoisted: Vec<(u32, u32)>,
}

/// The map that a list of hoist marks stands for: each mark enters its
/// scope under its offset, and a later mark replaces an earlier one for the
/// same offset.
pub closed spec fn hoist_map(marks: Seq<(u32, u32)>) -> Map<u32, u32>
    decreases marks.len(),
{
    if marks.len() == 0 {
        Map::empty()
    } else {
        hoist_map(marks.drop_last()).insert(marks.last().0, marks.last().1)
    }
}

/// The last mark for an offset decides what the map holds under it.
proof fn lemma_hoist_map_last(marks: Seq<(u32, u32)>, at: int)
    requires
        0 <= at < marks.len(),
        forall|later: int| at < later < marks.len() ==> (#[trigger] marks[later]).0 != marks[at].0,
    ensures
        hoist_map(marks).contains_key(marks[at].0),
        hoist_map(marks)[marks[at].0] == marks[at].1,
    decreases marks.len(),
{
    if at < marks.len() - 1 {
        assert(marks.last() == marks[marks.len() - 1]);
        let shorter = marks.drop_last();
        assert(shorter[at] == marks[at]);
        assert forall|later: int| at < later < shorter.len() implies (#[trigger] shorter[later]).0
            != shorter[at].0 by {
            assert(shorter[later] == marks[later]);
        }
        lemma_hoist_map_last(shorter, at);
    }
}

/// Without a mark for an offset the map holds nothing under it.
proof fn lemma_hoist_map_none(marks: Seq<(u32, u32)>, start: u32)
    requires
        forall|at: int| 0 <= at < marks.len() ==> (#[trigger] marks[at]).0 != start,
    ensures
        !hoist_map(marks).contains_key(start),
    decreases marks.len(),
{
    if marks.len() > 0 {
        assert(marks.last() == marks[marks.len() - 1]);
        let shorter = marks.drop_last();
        assert forall|at: int| 0 <= at < shorter.len() implies (#[trigger] shorter[at]).0
            != start by {
            assert(shorter[at] == marks[at]);
        }
        lemma_hoist_map_none(shorter, start);
    }
}

impl View for SemanticModelScopeData {
    type V = ScopeView;

    closed spec fn view(&self) -> ScopeView {
        ScopeView {
            range: self.range,
            parent: self.parent,
            children: self.children@,
            bindings: self.bindings@,
            names: name_index(self.bindings_by_name),
            reads: self.read_references@,
            writes: self.write_references@,
            is_closure: self.is_closure,
        }
    }
}

impl View for SemanticModelReference {
    type V = ReferenceView;

    closed spec fn view(&self) -> ReferenceView {
        ReferenceView { range: self.range, scope: self.scope, kind: self.kind }
    }
}

impl View for SemanticModelBindingData {
    type V = BindingView;

    closed spec fn view(&self) -> BindingView {
        BindingView {
            name: self.name@,
            scope: self.scope,
            references: self.references@.map_values(|r: SemanticModelReference| r@),
        }
    }
}

impl View for SemanticModelData {
    type V = ModelView;

    closed spec fn view(&self) -> ModelView {
        ModelView {
            root: self.root,
            scopes: self.scopes@.map_values(|s: SemanticModelScopeData| s@),
            bindings: self.bindings@.map_values(|b: SemanticModelBindingData| b@),
            nodes: node_index(self.node_by_range),
            hoists: hoist_map(self.hoisted@),
        }
    }
}

impl SemanticModelData {
    /// An arena for the tree under `root`, with no record in it yet.
    pub fn new(root: JsNode) -> (data: Self)
        ensures
            data@ == ModelView::empty(root),
            data@.wf(),
    {
        let data = SemanticModelData {
            root,
            scopes: Vec::new(),
            bindings: Vec::new(),
            node_by_range: new_node_index(),
            hoisted: Vec::new(),
        };
        proof {
            assert(data@.scopes =~= Seq::empty());
            assert(data@.bindings =~= Seq::empty());
            assert(data@.nodes =~= Map::empty());
            assert(data@.hoists =~= Map::empty());
            ModelView::lemma_empty_wf(root);
        }
        data
    }

    /// Adds a scope under `parent` and returns its id, or changes nothing and
    /// returns `None` where the model does not accept it: a first scope with
    /// a parent, a later scope without one or under a scope that does not
    /// exist, or more scopes than 32 bits can number.
    pub fn push_scope(
        &mut self,
        parent: Option<u32>,
        range: TextRange,
        node: JsNode,
        is_closure: bool,
    ) -> (id: Option<u32>)
        requires
            old(self)@.wf(),
        ensures
            final(self)@.wf(),
            final(self)@.extends(old(self)@),
            id is Some <==> old(self)@.accepts_scope(parent),
            id matches Some(fresh) ==> fresh == old(self)@.scopes.len() && final(self)@ == old(
                self,
            )@.with_scope(parent, range, node, is_closure),
            id is None ==> final(self)@ == old(self)@,
    {
        proof {
            ModelView::lemma_extends_self(self@);
        }
        let count = self.scopes.len();
        if count >= u32::MAX as usize {
            return None;
        }
        match parent {
            None => {
                if count != 0 {
                    return None;
                }
            },
            Some(p) => {
                if p as usize >= count {
                    return None;
                }
            },
        }
        let id = count as u32;
        let ghost before = self@;
        match parent {
            None => {},
            Some(p) => {
                self.scopes[p as usize].children.push(id);
            },
        }
        let ghost linked = self@.scopes;
        self.scopes.push(
            SemanticModelScopeData {
                range,
                parent,
                children: Vec::new(),
                bindings: Vec::new(),
                bindings_by_name: new_name_index(),
                read_references: Vec::new(),
                write_references: Vec::new(),
                is_closure,
            },
        );
        insert_node(&mut self.node_by_range, range, node);
        proof {
            let next = before.with_scope(parent, range, node, is_closure);
            let fresh = self@.scopes[count as int];
            assert(fresh.names =~= Map::empty());
            assert(fresh == next.scopes[count as int]);
            match parent {
                None => {
                    assert(linked =~= before.scopes);
                },
                Some(p) => {
                    assert(linked =~= before.scopes.update(
                        p as int,
                        ScopeView {
                            children: before.scopes[p as int].children.push(id),
                            ..before.scopes[p as int]
                        },
                    ));
                },
            }
            assert(self@.scopes =~= next.scopes);
            assert(self@.bindings =~= next.bindings);
            assert(self@ == next);
            before.lemma_with_scope_wf(parent, range, node, is_closure);
            before.lemma_with_scope_extends(parent, range, node, is_closure);
        }
        Some(id)
    }

    /// Declares a binding called `name` in `scope` and returns its index, or
    /// changes nothing and returns `None` where the scope does not exist.
    pub fn push_binding(&mut self, scope: u32, name: String) -> (index: Option<usize>)
        requires
            old(self)@.wf(),
        ensures
            final(self)@.wf(),
            final(self)@.extends(old(self)@),
            index is Some <==> old(self)@.accepts_binding(scope),
            index matches Some(fresh) ==> fresh == old(self)@.bindings.len() && final(self)@ == old(
                self,
            )@.with_binding(scope, name@),
            index is None ==> final(self)@ == old(self)@,
    {
        proof {
            ModelView::lemma_extends_self(self@);
        }
        let index = self.bindings.len();
        if scope as usize >= self.scopes.len() || index == usize::MAX {
            return None;
        }
        let ghost before = self@;
        let ghost chars = name@;
        self.scopes[scope as usize].bindings.push(index);
        insert_name(&mut self.scopes[scope as usize].bindings_by_name, name.clone(), index);
        self.bindings.push(SemanticModelBindingData { name, scope, references: Vec::new() });
        proof {
            let next = before.with_binding(scope, chars);
            assert(self@.bindings[index as int].references =~= Seq::empty());
            assert(self@.bindings =~= next.bindings);
            assert(self@.scopes =~= next.scopes);
            assert(self@ == next);
            before.lemma_with_binding_wf(scope, chars);
            before.lemma_with_binding_extends(scope, chars);
        }
        Some(index)
    }

    /// Records an occurrence of `binding` that stands in `scope` and returns
    /// its position among the binding's references, or changes nothing and
    /// returns `None` where the binding or the scope does not exist.
    pub fn push_reference(
        &mut self,
        binding: usize,
        scope: u32,
        range: TextRange,
        kind: ReferenceKind,
    ) -> (position: Option<usize>)
        requires
            old(self)@.wf(),
        ensures
            final(self)@.wf(),
            final(self)@.extends(old(self)@),
            position is Some <==> old(self)@.accepts_reference(binding, scope),
            position matches Some(fresh) ==> fresh == old(
                self,
            )@.bindings[binding as int].references.len() && final(self)@ == old(
                self,
            )@.with_reference(binding, scope, range, kind),
            position is None ==> final(self)@ == old(self)@,
    {
        proof {
            ModelView::lemma_extends_self(self@);
        }
        if binding >= self.bindings.len() || scope as usize >= self.scopes.len() {
            return None;
        }
        let position = self.bindings[binding].references.len();
        if position == usize::MAX {
            return None;
        }
        let ghost before = self@;
        let entry = SemanticModelScopeReference { binding_id: binding, reference_id: position };
        self.bindings[binding].references.push(SemanticModelReference { range, scope, kind });
        match kind {
            ReferenceKind::Read => {
                self.scopes[scope as usize].read_references.push(entry);
            },
            ReferenceKind::Write => {
                self.scopes[scope as usize].write_references.push(entry);
            },
        }
        proof {
            let next = before.with_reference(binding, scope, range, kind);
            assert(self@.bindings[binding as int].references
                =~= next.bindings[binding as int].references);
            assert(self@.bindings =~= next.bindings);
            assert(self@.scopes =~= next.scopes);
            assert(self@ == next);
            before.lemma_with_reference_wf(binding, scope, range, kind);
            before.lemma_with_reference_extends(binding, scope, range, kind);
        }
        Some(position)
    }
    /// Marks the declaration that covers `range` as hoisted to `scope`, or
    /// changes nothing and returns `false` where the scope does not exist.
    /// The mark is kept under the offset at which the declaration starts.
    pub fn push_hoist(&mut self, range: &TextRange, scope: u32) -> (done: bool)
        requires
            old(self)@.wf(),
        ensures
            final(self)@.wf(),
            final(self)@.extends(old(self)@),
            done == old(self)@.accepts_hoist(scope),
            done ==> final(self)@ == old(self)@.with_hoist(span(*range).0, scope),
            !done ==> final(self)@ == old(self)@,
    {
        proof {
            ModelView::lemma_extends_self(self@);
        }
        if scope as usize >= self.scopes.len() {
            return false;
        }
        let ghost before = self@;
        let ghost marks = self.hoisted@;
        let start = start_of(range);
        self.hoisted.push((start, scope));
        proof {
            assert(self.hoisted@.drop_last() =~= marks);
            assert(self@ == before.with_hoist(start, scope));
            before.lemma_with_hoist_wf(start, scope);
            before.lemma_with_hoist_extends(start, scope);
        }
        true
    }

    /// The scope recorded for a declaration that starts at offset `start`.
    pub(crate) fn hoist_target(&self, start: u32) -> (found: Option<u32>)
        ensures
            found == (if self@.hoists.contains_key(start) {
                Some(self@.hoists[start])
            } else {
                None
            }),
    {
        let mut at: usize = self.hoisted.len();
        while at > 0
            invariant
                at <= self.hoisted@.len(),
                forall|later: int|
                    at <= later < self.hoisted@.len() ==> (#[trigger] self.hoisted@[later]).0
                        != start,
            decreases at,
        {
            at -= 1;
            if self.hoisted[at].0 == start {
                proof {
                    lemma_hoist_map_last(self.hoisted@, at as int);
                }
                return Some(self.hoisted[at].1);
            }
        }
        proof {
            lemma_hoist_map_none(self.hoisted@, start);
        }
        None
    }

    /// The number of scopes.
    pub(crate) fn scope_count(&self) -> (count: usize)
        ensures
            count == self@.scopes.len(),
    {
        self.scopes.len()
    }

    /// The number of bindings.
    pub(crate) fn binding_count(&self) -> (count: usize)
        ensures
            count == self@.bindings.len(),
    {
        self.bindings.len()
    }

    /// The root of the tree.
    pub(crate) fn root(&self) -> (root: &JsNode)
        ensures
            *root == self@.root,
    {
        &self.root
    }

    /// The parent of scope `id`.
    pub(crate) fn scope_parent(&self, id: u32) -> (parent: Option<u32>)
        requires
            self@.has_scope(id as int),
        ensures
            parent == self@.scopes[id as int].parent,
    {
        self.scopes[id as usize].parent
    }

    /// The child list of scope `id`.
    pub(crate) fn scope_children(&self, id: u32) -> (children: &Vec<u32>)
        requires
            self@.has_scope(id as int),
        ensures
            children@ == self@.scopes[id as int].children,
    {
        &self.scopes[id as usize].children
    }

    /// The declaration list of scope `id`.
    pub(crate) fn scope_bindings(&self, id: u32) -> (bindings: &Vec<usize>)
        requires
            self@.has_scope(id as int),
        ensures
            bindings@ == self@.scopes[id as int].bindings,
    {
        &self.scopes[id as usize].bindings
    }

    /// The read list or the write list of scope `id`.
    pub(crate) fn scope_occurrences(&self, id: u32, kind: ReferenceKind) -> (entries: &Vec<
        SemanticModelScopeReference,
    >)
        requires
            self@.has_scope(id as int),
        ensures
            entries@ == self@.occurrences(id as int, kind),
    {
        match kind {
            ReferenceKind::Read => &self.scopes[id as usize].read_references,
            ReferenceKind::Write => &self.scopes[id as usize].write_references,
        }
    }

    /// Whether scope `id` belongs to a closure.
    pub(crate) fn scope_is_closure(&self, id: u32) -> (flag: bool)
        requires
            self@.has_scope(id as int),
        ensures
            flag == self@.scopes[id as int].is_closure,
    {
        self.scopes[id as usize].is_closure
    }

    /// The span of scope `id`.
    pub(crate) fn scope_range(&self, id: u32) -> (range: &TextRange)
        requires
            self@.has_scope(id as int),
        ensures
            *range == self@.scopes[id as int].range,
    {
        &self.scopes[id as usize].range
    }

    /// Whether the span of scope `id` contains the span from `start` to
    /// `end`.
    pub(crate) fn scope_covers(&self, id: u32, start: u32, end: u32) -> (covers: bool)
        requires
            self@.has_scope(id as int),
        ensures
            covers == self@.covers(id as int, (start, end)),
    {
        let range = &self.scopes[id as usize].range;
        start_of(range) <= start && end <= end_of(range)
    }

    /// The node recorded under the span of scope `id`.
    pub(crate) fn scope_node(&self, id: u32) -> (node: &JsNode)
        requires
            self@.wf(),
            self@.has_scope(id as int),
        ensures
            *node == self@.nodes[span(self@.scopes[id as int].range)],
    {
        match node_at(&self.node_by_range, &self.scopes[id as usize].range) {
            Some(node) => node,
            None => {
                proof {
                    assert(self@.nodes.contains_key(span(self@.scopes[id as int].range)));
                }
                unreached()
            },
        }
    }

    /// The binding that the name map of scope `id` holds under `name`.
    pub(crate) fn scope_binding_named(&self, id: u32, name: &str) -> (found: Option<usize>)
        requires
            self@.has_scope(id as int),
        ensures
            found == (if self@.scopes[id as int].names.contains_key(name@) {
                Some(self@.scopes[id as int].names[name@])
            } else {
                None
            }),
    {
        lookup_name(&self.scopes[id as usize].bindings_by_name, name)
    }

    /// The scope that declares binding `index`.
    pub(crate) fn binding_scope(&self, index: usize) -> (scope: u32)
        requires
            self@.has_binding(index as int),
        ensures
            scope == self@.bindings[index as int].scope,
    {
        self.bindings[index].scope
    }

    /// The name of binding `index`.
    pub(crate) fn binding_name(&self, index: usize) -> (name: &str)
        requires
            self@.has_binding(index as int),
        ensures
            name@ == self@.bindings[index as int].name,
    {
        self.bindings[index].name.as_str()
    }

    /// The number of occurrences of binding `index`.
    pub(crate) fn reference_count(&self, index: usize) -> (count: usize)
        requires
            self@.has_binding(index as int),
        ensures
            count == self@.bindings[index as int].references.len(),
    {
        self.bindings[index].references.len()
    }

    /// The scope in which occurrence `position` of binding `index` stands.
    pub(crate) fn reference_scope(&self, index: usize, position: usize) -> (scope: u32)
        requires
            self@.has_binding(index as int),
            position < self@.bindings[index as int].references.len(),
        ensures
            scope == self@.bindings[index as int].references[position as int].scope,
    {
        self.bindings[index].references[position].scope
    }

    /// Whether occurrence `position` of binding `index` reads or writes.
    pub(crate) fn reference_kind(&self, index: usize, position: usize) -> (kind: ReferenceKind)
        requires
            self@.has_binding(index as int),
            position < self@.bindings[index as int].references.len(),
        ensures
            kind == self@.bindings[index as int].references[position as int].kind,
    {
        self.bindings[index].references[position].kind
    }

    /// The span of occurrence `position` of binding `index`.
    pub(crate) fn reference_range(&self, index: usize, position: usize) -> (range: &TextRange)
        requires
            self@.has_binding(index as int),
            position < self@.bindings[index as int].references.len(),
        ensures
            *range == self@.bindings[index as int].references[position as int].range,
    {
        &self.bindings[index].references[position].range
    }
}

/// Calls `Rc::clone`: one more handle on the same arena.
#[verifier::external_body]
pub(crate) fn share(data: &Rc<SemanticModelData>) -> (shared: Rc<SemanticModelData>)
    ensures
        shared == *data,
{
    Rc::clone(data)
}

} // verus!
