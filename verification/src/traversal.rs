//! The breadth-first order in which the scopes under a scope are visited, and
//! what holds of it: which scopes it reaches, that it reaches each once, and
//! that it never goes back up.

use crate::view::ModelView;
use vstd::prelude::*;

verus! {

impl ModelView {
    /// The number of scopes in the subtree of `id`, counted along the child
    /// lists.
    pub closed spec fn subtree_size(self, id: int) -> nat
        decreases self.scopes.len() - id, 1int, 0int,
    {
        if self.has_scope(id) {
            1 + self.children_size(id, self.scopes[id].children.len() as int)
        } else {
            0
        }
    }

    /// The number of scopes in the subtrees of the first `upto` children of
    /// `id`.
    pub closed spec fn children_size(self, id: int, upto: int) -> nat
        decreases self.scopes.len() - id, 0int, upto,
    {
        if !self.has_scope(id) || upto <= 0 || upto > self.scopes[id].children.len() {
            0
        } else {
            let child = self.scopes[id].children[upto - 1] as int;
            self.children_size(id, upto - 1) + if id < child < self.scopes.len() {
                self.subtree_size(child)
            } else {
                0
            }
        }
    }

    /// The number of scopes that a traversal with this queue still has to
    /// visit.
    pub closed spec fn queue_weight(self, queue: Seq<u32>) -> nat
        decreases queue.len(),
    {
        if queue.len() == 0 {
            0
        } else {
            self.queue_weight(queue.drop_last()) + self.subtree_size(queue.last() as int)
        }
    }

    /// The order in which a breadth-first traversal visits scopes when
    /// `queue` holds the scopes it has yet to look at: the head of the queue
    /// first, then whatever follows once the head's children have joined the
    /// queue at its end.
    pub open spec fn breadth_first(self, queue: Seq<u32>) -> Seq<u32>
        decreases self.queue_weight(queue),
        when self.wf() && self.has_scopes(queue)
    {
        if queue.len() == 0 {
            Seq::empty()
        } else {
            proof {
                self.lemma_step_lightens(queue);
            }
            seq![queue[0]] + self.breadth_first(self.after_head(queue))
        }
    }

    /// The queue after its head was visited: the rest of the queue, then the
    /// head's children in the order of the child list.
    pub open spec fn after_head(self, queue: Seq<u32>) -> Seq<u32> {
        queue.drop_first() + self.scopes[queue[0] as int].children
    }

    /// The scopes under `id`, `id` included, in breadth-first order.
    pub open spec fn descendants_of(self, id: int) -> Seq<u32> {
        self.breadth_first(seq![id as u32])
    }

    /// The number of scopes on the way from `id` up to the root, both
    /// counted.
    pub open spec fn depth(self, id: int) -> nat {
        self.ancestors_of(id).len()
    }

    /// `path` leads down the tree: it starts at a scope of the model, and
    /// every further scope stands in the child list of the one before it.
    pub open spec fn is_descent(self, path: Seq<u32>) -> bool {
        &&& path.len() > 0
        &&& self.has_scope(path[0] as int)
        &&& forall|i: int|
            0 <= i < path.len() - 1 ==> self.has_child(#[trigger] path[i] as int, path[i + 1] as int)
    }

    /// `to` can be reached from `from` by going from a scope to one of its
    /// children any number of times.
    pub open spec fn reaches(self, from: int, to: int) -> bool {
        exists|path: Seq<u32>| #[trigger] self.is_descent(path) && path[0] == from && path.last() == to
    }

    /// No scope of `queue` encloses another scope of `queue`.
    pub open spec fn independent(self, queue: Seq<u32>) -> bool {
        forall|i: int, j: int|
            0 <= i < queue.len() && 0 <= j < queue.len() && i != j ==> !self.encloses(
                #[trigger] queue[i] as int,
                #[trigger] queue[j] as int,
            )
    }

    /// The scopes of `queue` stand in the order of their depth, and the last
    /// is at most one level below the first.
    pub open spec fn level_ordered(self, queue: Seq<u32>) -> bool {
        &&& forall|i: int, j: int|
            0 <= i <= j < queue.len() ==> self.depth(#[trigger] queue[i] as int) <= self.depth(
                #[trigger] queue[j] as int,
            )
        &&& queue.len() > 0 ==> self.depth(queue.last() as int) <= self.depth(queue[0] as int) + 1
    }

    proof fn lemma_weight_concat(self, a: Seq<u32>, b: Seq<u32>)
        ensures
            self.queue_weight(a + b) == self.queue_weight(a) + self.queue_weight(b),
        decreases b.len(),
    {
        if b.len() == 0 {
            assert(a + b =~= a);
        } else {
            self.lemma_weight_concat(a, b.drop_last());
            assert((a + b).drop_last() =~= a + b.drop_last());
            assert((a + b).last() == b.last());
        }
    }

    proof fn lemma_children_weight(self, id: int, upto: int)
        requires
            self.wf(),
            self.has_scope(id),
            0 <= upto <= self.scopes[id].children.len(),
        ensures
            self.queue_weight(self.scopes[id].children.subrange(0, upto)) == self.children_size(
                id,
                upto,
            ),
        decreases upto,
    {
        let children = self.scopes[id].children;
        if upto > 0 {
            self.lemma_children_weight(id, upto - 1);
            let part = children.subrange(0, upto);
            assert(part.drop_last() =~= children.subrange(0, upto - 1));
            assert(part.last() == children[upto - 1]);
            let child = children[upto - 1] as int;
            assert(self.scopes[child].parent == Some(id as u32));
        }
    }

    /// Visiting the head of a queue leaves less to visit.
    pub proof fn lemma_step_lightens(self, queue: Seq<u32>)
        requires
            self.wf(),
            self.has_scopes(queue),
            queue.len() > 0,
        ensures
            self.queue_weight(self.after_head(queue)) < self.queue_weight(queue),
            self.has_scopes(self.after_head(queue)),
    {
        let head = queue[0] as int;
        let children = self.scopes[head].children;
        assert(self.has_scope(head));
        self.lemma_weight_concat(seq![queue[0]], queue.drop_first());
        assert(seq![queue[0]] + queue.drop_first() =~= queue);
        self.lemma_weight_concat(queue.drop_first(), children);
        self.lemma_children_weight(head, children.len() as int);
        assert(children.subrange(0, children.len() as int) =~= children);
        assert(seq![queue[0]].drop_last() =~= Seq::<u32>::empty());
        assert(self.queue_weight(Seq::<u32>::empty()) == 0);
        assert(self.queue_weight(seq![queue[0]]) == self.subtree_size(head));
        let next = self.after_head(queue);
        assert forall|i: int| 0 <= i < next.len() implies self.has_scope(
            #[trigger] next[i] as int,
        ) by {
            if i < queue.len() - 1 {
                assert(next[i] == queue[i + 1]);
            } else {
                assert(next[i] == children[i - (queue.len() - 1)]);
            }
        }
    }

    /// A traversal visits the head of its queue and then goes on with the
    /// queue that the head leaves behind.
    pub proof fn lemma_breadth_first_step(self, queue: Seq<u32>)
        requires
            self.wf(),
            self.has_scopes(queue),
        ensures
            queue.len() == 0 ==> self.breadth_first(queue) == Seq::<u32>::empty(),
            queue.len() > 0 ==> self.breadth_first(queue) == seq![queue[0]] + self.breadth_first(
                self.after_head(queue),
            ),
            queue.len() > 0 ==> self.has_scopes(self.after_head(queue)),
            queue.len() > 0 ==> self.breadth_first(self.after_head(queue)).len() + 1
                == self.breadth_first(queue).len(),
    {
        if queue.len() > 0 {
            self.lemma_step_lightens(queue);
        }
    }

    /// Whatever a scope encloses, its parent encloses too.
    pub proof fn lemma_encloses_up(self, child: int, id: int)
        requires
            self.wf(),
            self.has_scope(child),
            self.has_scope(id),
            self.scopes[child].parent is Some,
            self.encloses(child, id),
        ensures
            self.encloses(self.scopes[child].parent->0 as int, id),
    {
        let chain = self.ancestors_of(id);
        self.lemma_ancestors(id);
        let i = choose|i: int| 0 <= i < chain.len() && #[trigger] chain[i] == child;
        if i == chain.len() - 1 {
            assert(chain.last() == child);
        } else {
            assert(self.scopes[chain[i] as int].parent == Some(chain[i + 1]));
            assert(chain[i + 1] == self.scopes[child].parent->0);
        }
    }

    /// A scope that encloses another scope has a child that encloses it.
    pub proof fn lemma_encloses_down(self, ancestor: int, id: int) -> (k: int)
        requires
            self.wf(),
            self.has_scope(ancestor),
            self.has_scope(id),
            self.encloses(ancestor, id),
            ancestor != id,
        ensures
            0 <= k < self.scopes[ancestor].children.len(),
            self.encloses(self.scopes[ancestor].children[k] as int, id),
    {
        let chain = self.ancestors_of(id);
        self.lemma_ancestors(id);
        let i = choose|i: int| 0 <= i < chain.len() && #[trigger] chain[i] == ancestor;
        assert(i > 0);
        let below = chain[i - 1] as int;
        assert(self.has_scope(below));
        assert(self.scopes[below].parent == Some(chain[i - 1 + 1]));
        assert(self.has_child(ancestor, below));
        let k = choose|k: int|
            0 <= k < self.scopes[ancestor].children.len()
                && #[trigger] self.scopes[ancestor].children[k] == below;
        k
    }

    /// What encloses a scope encloses everything that the scope encloses.
    pub proof fn lemma_encloses_transitive(self, upper: int, middle: int, lower: int)
        requires
            self.wf(),
            self.has_scope(lower),
            self.encloses(upper, middle),
            self.encloses(middle, lower),
        ensures
            self.encloses(upper, lower),
        decreases lower,
    {
        if middle != lower {
            self.lemma_encloses_step(middle, lower);
            let above = self.scopes[lower].parent->0 as int;
            assert(self.has_scope(lower));
            assert(above < lower);
            self.lemma_encloses_transitive(upper, middle, above);
            self.lemma_encloses_parent(upper, lower);
        }
    }

    /// A scope encloses only itself and scopes created after it.
    pub proof fn lemma_encloses_order(self, ancestor: int, id: int)
        requires
            self.wf(),
            self.has_scope(id),
            self.encloses(ancestor, id),
        ensures
            ancestor <= id,
            self.has_scope(ancestor),
    {
        self.lemma_ancestors(id);
    }

    /// A path down the tree ends at a scope that its start encloses.
    pub proof fn lemma_descent_enclosed(self, path: Seq<u32>)
        requires
            self.wf(),
            self.is_descent(path),
        ensures
            self.has_scope(path.last() as int),
            self.encloses(path[0] as int, path.last() as int),
        decreases path.len(),
    {
        if path.len() == 1 {
            self.lemma_encloses_self(path[0] as int);
        } else {
            let upper = path.drop_last();
            assert forall|i: int| 0 <= i < upper.len() - 1 implies self.has_child(
                #[trigger] upper[i] as int,
                upper[i + 1] as int,
            ) by {
                assert(self.has_child(path[i] as int, path[i + 1] as int));
            }
            self.lemma_descent_enclosed(upper);
            let above = upper.last() as int;
            let end = path.last() as int;
            assert(above == path[path.len() - 2]);
            assert(self.has_child(path[path.len() - 2] as int, path[path.len() - 2 + 1] as int));
            let k = choose|k: int|
                0 <= k < self.scopes[above].children.len() && #[trigger] self.scopes[above].children[k]
                    == end;
            assert(self.has_scope(self.scopes[above].children[k] as int));
            assert(self.scopes[end].parent == Some(above as u32));
            self.lemma_encloses_parent(path[0] as int, end);
        }
    }

    /// A scope is reached from another through the child lists exactly when
    /// the other encloses it: the child lists and the parent links describe
    /// one tree.
    pub proof fn lemma_reaches_iff_encloses(self, from: int, to: int)
        requires
            self.wf(),
            self.has_scope(from),
            self.has_scope(to),
        ensures
            self.reaches(from, to) <==> self.encloses(from, to),
        decreases to,
    {
        if self.reaches(from, to) {
            let path = choose|path: Seq<u32>|
                #[trigger] self.is_descent(path) && path[0] == from && path.last() == to;
            self.lemma_descent_enclosed(path);
        }
        if self.encloses(from, to) {
            if from == to {
                let path = seq![from as u32];
                assert(self.is_descent(path));
                assert(path[0] == from && path.last() == to);
            } else {
                self.lemma_encloses_step(from, to);
                let above = self.scopes[to].parent->0 as int;
                assert(self.has_scope(to));
                assert(above < to);
                self.lemma_reaches_iff_encloses(from, above);
                let upper = choose|path: Seq<u32>|
                    #[trigger] self.is_descent(path) && path[0] == from && path.last() == above;
                let path = upper.push(to as u32);
                assert(self.has_child(above, to));
                assert forall|i: int| 0 <= i < path.len() - 1 implies self.has_child(
                    #[trigger] path[i] as int,
                    path[i + 1] as int,
                ) by {
                    if i < upper.len() - 1 {
                        assert(self.has_child(upper[i] as int, upper[i + 1] as int));
                    }
                }
                assert(self.is_descent(path));
                assert(path[0] == from && path.last() == to);
            }
        }
    }

    /// A traversal visits exactly the scopes that some scope of its queue
    /// encloses.
    pub proof fn lemma_breadth_first_reach(self, queue: Seq<u32>)
        requires
            self.wf(),
            self.has_scopes(queue),
        ensures
            self.has_scopes(self.breadth_first(queue)),
            forall|id: int|
                self.has_scope(id) ==> (self.breadth_first(queue).contains(id as u32) <==> exists|
                    i: int,
                |
                    0 <= i < queue.len() && self.encloses(#[trigger] queue[i] as int, id)),
        decreases self.queue_weight(queue),
    {
        let order = self.breadth_first(queue);
        self.lemma_breadth_first_step(queue);
        if queue.len() > 0 {
            let head = queue[0] as int;
            let rest = queue.drop_first();
            let children = self.scopes[head].children;
            let next = self.after_head(queue);
            let tail = self.breadth_first(next);
            self.lemma_step_lightens(queue);
            self.lemma_breadth_first_reach(next);
            assert(self.has_scope(head));
            assert forall|i: int| 0 <= i < order.len() implies self.has_scope(
                #[trigger] order[i] as int,
            ) by {
                if i > 0 {
                    assert(order[i] == tail[i - 1]);
                }
            }
            assert forall|id: int| self.has_scope(id) implies (order.contains(id as u32)
                <==> exists|i: int|
                0 <= i < queue.len() && self.encloses(#[trigger] queue[i] as int, id)) by {
                if order.contains(id as u32) {
                    let at = choose|at: int| 0 <= at < order.len() && order[at] == id as u32;
                    if at == 0 {
                        self.lemma_encloses_self(id);
                        assert(self.encloses(queue[0] as int, id));
                    } else {
                        assert(tail[at - 1] == id as u32);
                        assert(tail.contains(id as u32));
                        let j = choose|j: int|
                            0 <= j < next.len() && self.encloses(#[trigger] next[j] as int, id);
                        if j < rest.len() {
                            assert(next[j] == queue[j + 1]);
                            assert(self.encloses(queue[j + 1] as int, id));
                        } else {
                            let k = j - rest.len();
                            assert(next[j] == children[k]);
                            assert(self.scopes[children[k] as int].parent == Some(head as u32));
                            self.lemma_encloses_up(children[k] as int, id);
                            assert(self.encloses(queue[0] as int, id));
                        }
                    }
                }
                if exists|i: int|
                    0 <= i < queue.len() && self.encloses(#[trigger] queue[i] as int, id) {
                    let i = choose|i: int|
                        0 <= i < queue.len() && self.encloses(#[trigger] queue[i] as int, id);
                    if i > 0 {
                        assert(next[i - 1] == queue[i]);
                        assert(self.encloses(next[i - 1] as int, id));
                        assert(tail.contains(id as u32));
                        let at = choose|at: int| 0 <= at < tail.len() && tail[at] == id as u32;
                        assert(order[at + 1] == id as u32);
                    } else if id == head {
                        assert(order[0] == id as u32);
                    } else {
                        let k = self.lemma_encloses_down(head, id);
                        assert(next[rest.len() + k] == children[k]);
                        assert(self.encloses(next[rest.len() + k] as int, id));
                        assert(tail.contains(id as u32));
                        let at = choose|at: int| 0 <= at < tail.len() && tail[at] == id as u32;
                        assert(order[at + 1] == id as u32);
                    }
                }
            }
        }
    }

    /// Where no scope of the queue encloses another, the same holds of the
    /// queue that its head leaves behind, and the head is not visited again.
    proof fn lemma_independent_step(self, queue: Seq<u32>)
        requires
            self.wf(),
            self.has_scopes(queue),
            self.independent(queue),
            queue.len() > 0,
        ensures
            self.independent(self.after_head(queue)),
            !self.breadth_first(self.after_head(queue)).contains(queue[0]),
    {
        let head = queue[0] as int;
        let rest = queue.drop_first();
        let children = self.scopes[head].children;
        let next = self.after_head(queue);
        self.lemma_step_lightens(queue);
        assert(self.has_scope(head));
        self.lemma_ancestors(head);
        assert forall|j: int| 0 <= j < next.len() implies !self.encloses(
            #[trigger] next[j] as int,
            head,
        ) by {
            if j < rest.len() {
                assert(next[j] == queue[j + 1]);
            } else {
                let k = j - rest.len();
                assert(next[j] == children[k]);
                assert(self.scopes[children[k] as int].parent == Some(head as u32));
                if self.encloses(children[k] as int, head) {
                    self.lemma_encloses_order(children[k] as int, head);
                }
            }
        }
        self.lemma_breadth_first_reach(next);
        assert forall|i: int, j: int|
            0 <= i < next.len() && 0 <= j < next.len() && i != j implies !self.encloses(
            #[trigger] next[i] as int,
            #[trigger] next[j] as int,
        ) by {
            let a = next[i] as int;
            let b = next[j] as int;
            assert(self.has_scope(a) && self.has_scope(b));
            if self.encloses(a, b) {
                if i < rest.len() && j < rest.len() {
                    assert(next[i] == queue[i + 1] && next[j] == queue[j + 1]);
                } else if i >= rest.len() && j >= rest.len() {
                    let ki = i - rest.len();
                    let kj = j - rest.len();
                    assert(next[i] == children[ki] && next[j] == children[kj]);
                    assert(a != b) by {
                        if ki < kj {
                            assert(children[ki] < children[kj]);
                        } else {
                            assert(children[kj] < children[ki]);
                        }
                    }
                    assert(self.scopes[b].parent == Some(head as u32));
                    self.lemma_encloses_step(a, b);
                    self.lemma_encloses_order(a, head);
                    assert(self.scopes[a].parent == Some(head as u32));
                } else if i < rest.len() {
                    let kj = j - rest.len();
                    assert(next[i] == queue[i + 1] && next[j] == children[kj]);
                    assert(self.scopes[b].parent == Some(head as u32));
                    if a == b {
                        self.lemma_encloses_self(head);
                        self.lemma_encloses_parent(head, a);
                        assert(self.encloses(queue[0] as int, queue[i + 1] as int));
                    } else {
                        self.lemma_encloses_step(a, b);
                        assert(self.encloses(queue[i + 1] as int, queue[0] as int));
                    }
                } else {
                    let ki = i - rest.len();
                    assert(next[i] == children[ki] && next[j] == queue[j + 1]);
                    assert(self.scopes[a].parent == Some(head as u32));
                    self.lemma_encloses_up(a, b);
                    assert(self.encloses(queue[0] as int, queue[j + 1] as int));
                }
            }
        }
    }

    /// Where no scope of the queue encloses another, a traversal visits no
    /// scope twice.
    pub proof fn lemma_breadth_first_once(self, queue: Seq<u32>)
        requires
            self.wf(),
            self.has_scopes(queue),
            self.independent(queue),
        ensures
            self.breadth_first(queue).no_duplicates(),
        decreases self.queue_weight(queue),
    {
        let order = self.breadth_first(queue);
        self.lemma_breadth_first_step(queue);
        if queue.len() > 0 {
            let next = self.after_head(queue);
            let tail = self.breadth_first(next);
            self.lemma_step_lightens(queue);
            self.lemma_independent_step(queue);
            self.lemma_breadth_first_once(next);
            assert forall|i: int, j: int|
                0 <= i < order.len() && 0 <= j < order.len() && i != j implies order[i]
                != order[j] by {
                if i > 0 {
                    assert(order[i] == tail[i - 1]);
                }
                if j > 0 {
                    assert(order[j] == tail[j - 1]);
                }
            }
        }
    }

    /// A list without repeats whose elements all lie in a range is no longer
    /// than the range.
    proof fn lemma_distinct_in_range(list: Seq<u32>, low: int, high: int)
        requires
            list.no_duplicates(),
            forall|i: int| 0 <= i < list.len() ==> low <= #[trigger] list[i] < high,
        ensures
            list.len() <= if low <= high {
                high - low
            } else {
                0
            },
        decreases high - low,
    {
        if list.len() > 0 {
            assert(low <= list[0] < high);
            if exists|at: int| 0 <= at < list.len() && list[at] == high - 1 {
                let at = choose|at: int| 0 <= at < list.len() && list[at] == high - 1;
                let rest = list.remove(at);
                assert forall|i: int| 0 <= i < rest.len() implies low <= #[trigger] rest[i] < high
                    - 1 by {
                    if i < at {
                        assert(rest[i] == list[i]);
                    } else {
                        assert(rest[i] == list[i + 1]);
                    }
                }
                assert forall|i: int, j: int|
                    0 <= i < rest.len() && 0 <= j < rest.len() && i != j implies rest[i]
                    != rest[j] by {
                    let from_i = if i < at {
                        i
                    } else {
                        i + 1
                    };
                    let from_j = if j < at {
                        j
                    } else {
                        j + 1
                    };
                    assert(rest[i] == list[from_i] && rest[j] == list[from_j]);
                }
                Self::lemma_distinct_in_range(rest, low, high - 1);
            } else {
                assert forall|i: int| 0 <= i < list.len() implies low <= #[trigger] list[i] < high
                    - 1 by {}
                Self::lemma_distinct_in_range(list, low, high - 1);
            }
        }
    }

    /// A traversal that starts at one scope visits no more scopes than were
    /// created from that scope on.
    pub proof fn lemma_descendants_bound(self, id: int)
        requires
            self.wf(),
            self.has_scope(id),
        ensures
            self.descendants_of(id).len() <= self.scopes.len() - id,
    {
        let queue = seq![id as u32];
        let order = self.descendants_of(id);
        assert(self.has_scopes(queue));
        assert(self.independent(queue));
        self.lemma_breadth_first_reach(queue);
        self.lemma_breadth_first_once(queue);
        assert forall|i: int| 0 <= i < order.len() implies id <= #[trigger] order[i]
            < self.scopes.len() by {
            let other = order[i] as int;
            assert(self.has_scope(other));
            assert(order.contains(other as u32));
            let at = choose|at: int|
                0 <= at < queue.len() && self.encloses(#[trigger] queue[at] as int, other);
            assert(queue[at] == id);
            self.lemma_encloses_order(id, other);
        }
        Self::lemma_distinct_in_range(order, id, self.scopes.len() as int);
    }

    /// The child lists of the first `upto` scopes of `order`, one after the
    /// other.
    pub open spec fn offspring(self, order: Seq<u32>, upto: int) -> Seq<u32>
        decreases upto,
    {
        if upto <= 0 || upto > order.len() {
            Seq::empty()
        } else {
            self.offspring(order, upto - 1) + self.scopes[order[upto - 1] as int].children
        }
    }

    proof fn lemma_offspring_shift(self, head: u32, rest: Seq<u32>, upto: int)
        requires
            0 <= upto <= rest.len(),
        ensures
            self.offspring(seq![head] + rest, upto + 1) == self.scopes[head as int].children
                + self.offspring(rest, upto),
        decreases upto,
    {
        let whole = seq![head] + rest;
        if upto == 0 {
            assert(self.offspring(whole, 0) =~= Seq::<u32>::empty());
            assert(self.offspring(rest, 0) =~= Seq::<u32>::empty());
            assert(whole[0] == head);
            assert(self.offspring(whole, 1) =~= self.scopes[head as int].children
                + self.offspring(rest, 0));
        } else {
            self.lemma_offspring_shift(head, rest, upto - 1);
            assert(whole[upto] == rest[upto - 1]);
            assert(self.offspring(whole, upto + 1) =~= self.scopes[head as int].children
                + self.offspring(rest, upto));
        }
    }

    /// A traversal hands out its queue and then, for each scope that it
    /// hands out, in the order in which it hands them out, the children of
    /// that scope in the order of the child list.
    pub proof fn lemma_breadth_first_by_parents(self, queue: Seq<u32>)
        requires
            self.wf(),
            self.has_scopes(queue),
        ensures
            self.breadth_first(queue) == queue + self.offspring(
                self.breadth_first(queue),
                self.breadth_first(queue).len() as int,
            ),
        decreases self.queue_weight(queue),
    {
        let order = self.breadth_first(queue);
        self.lemma_breadth_first_step(queue);
        if queue.len() == 0 {
            assert(order =~= queue + self.offspring(order, 0));
        } else {
            let next = self.after_head(queue);
            let tail = self.breadth_first(next);
            self.lemma_step_lightens(queue);
            self.lemma_breadth_first_by_parents(next);
            self.lemma_offspring_shift(queue[0], tail, tail.len() as int);
            assert(order =~= queue + self.offspring(order, order.len() as int));
        }
    }

    /// A child stands one level below its parent.
    pub proof fn lemma_child_depth(self, id: int, k: int)
        requires
            self.wf(),
            self.has_scope(id),
            0 <= k < self.scopes[id].children.len(),
        ensures
            self.depth(self.scopes[id].children[k] as int) == self.depth(id) + 1,
    {
        let child = self.scopes[id].children[k] as int;
        assert(self.has_scope(child));
        assert(self.scopes[child].parent == Some(id as u32));
    }

    /// Where the queue stands in the order of depth, so does the whole
    /// traversal: it never visits a scope after a deeper one.
    pub proof fn lemma_breadth_first_levels(self, queue: Seq<u32>)
        requires
            self.wf(),
            self.has_scopes(queue),
            self.level_ordered(queue),
        ensures
            forall|i: int, j: int|
                0 <= i <= j < self.breadth_first(queue).len() ==> self.depth(
                    #[trigger] self.breadth_first(queue)[i] as int,
                ) <= self.depth(#[trigger] self.breadth_first(queue)[j] as int),
            queue.len() > 0 ==> self.breadth_first(queue).len() > 0 && self.breadth_first(queue)[0]
                == queue[0],
        decreases self.queue_weight(queue),
    {
        let order = self.breadth_first(queue);
        self.lemma_breadth_first_step(queue);
        if queue.len() > 0 {
            let head = queue[0] as int;
            let rest = queue.drop_first();
            let children = self.scopes[head].children;
            let next = self.after_head(queue);
            let tail = self.breadth_first(next);
            self.lemma_step_lightens(queue);
            assert(self.has_scope(head));
            assert forall|i: int| 0 <= i < next.len() implies {
                &&& self.depth(head) <= self.depth(#[trigger] next[i] as int)
                &&& self.depth(next[i] as int) <= self.depth(head) + 1
                &&& i >= rest.len() ==> self.depth(next[i] as int) == self.depth(head) + 1
            } by {
                if i < rest.len() {
                    assert(next[i] == queue[i + 1]);
                    assert(self.depth(queue[0] as int) <= self.depth(queue[i + 1] as int));
                    assert(self.depth(queue[i + 1] as int) <= self.depth(queue.last() as int));
                } else {
                    assert(next[i] == children[i - rest.len()]);
                    self.lemma_child_depth(head, i - rest.len());
                }
            }
            assert(self.level_ordered(next)) by {
                assert forall|i: int, j: int| 0 <= i <= j < next.len() implies self.depth(
                    #[trigger] next[i] as int,
                ) <= self.depth(#[trigger] next[j] as int) by {
                    if j < rest.len() {
                        assert(next[i] == queue[i + 1] && next[j] == queue[j + 1]);
                    }
                }
            }
            self.lemma_breadth_first_levels(next);
            assert forall|i: int, j: int| 0 <= i <= j < order.len() implies self.depth(
                #[trigger] order[i] as int,
            ) <= self.depth(#[trigger] order[j] as int) by {
                if j > 0 {
                    assert(order[j] == tail[j - 1]);
                    if i > 0 {
                        assert(order[i] == tail[i - 1]);
                    } else {
                        assert(tail[0] == next[0]);
                        assert(self.depth(tail[0] as int) <= self.depth(tail[j - 1] as int));
                    }
                }
            }
        }
    }
}

} // verus!
