//! The bottom-up traversal that starts at the leaves.
//!
//! [`LeafIter`] visits a node only after all its children were visited. It
//! keeps a queue of nodes, seeded with leaves. The node at the front is
//! visited if all its children were visited already; if not, it goes to the
//! back of the queue. When a node is visited, its parent joins the queue,
//! unless it has joined it before.

use crate::id::UniqueGenerator;
use crate::noderef::NodeRef;
use crate::tree::model::TreeView;
use crate::tree::Tree;
use crate::NodeId;
use std::collections::VecDeque;
use vstd::prelude::*;

verus! {

/// What a bottom-up traversal holds: the queue of nodes that wait for their
/// visit, the nodes that have joined the queue so far, and the nodes that
/// were visited.
pub struct LeafView {
    pub queue: Seq<NodeRef>,
    pub seen: Set<NodeRef>,
    pub done: Set<NodeRef>,
}

impl LeafView {
    /// The node can be visited: it is a node of the tree, and all its
    /// children were visited.
    pub open spec fn ready(self, tree: TreeView, r: NodeRef) -> bool {
        &&& tree.contains(r)
        &&& forall|k: int|
            0 <= k < tree.children(r).len() ==> self.done.contains(#[trigger] tree.children(r)[k])
    }

    /// The place in the queue, from `k` on, of the first node that can be
    /// visited; the length of the queue where there is none.
    pub open spec fn first_ready(self, tree: TreeView, k: int) -> int
        decreases self.queue.len() - k,
    {
        if k < 0 || k >= self.queue.len() {
            self.queue.len() as int
        } else if self.ready(tree, self.queue[k]) {
            k
        } else {
            self.first_ready(tree, k + 1)
        }
    }

    /// Some node of the queue can be visited.
    pub open spec fn has_ready(self, tree: TreeView) -> bool {
        self.first_ready(tree, 0) < self.queue.len()
    }

    /// The node that is visited next: the first of the queue that can be.
    pub open spec fn next_node(self, tree: TreeView) -> NodeRef {
        self.queue[self.first_ready(tree, 0)]
    }

    /// The traversal after the visit of the next node: the nodes in front of
    /// it have gone to the back of the queue, the node is visited, and its
    /// parent has joined the queue if it had not joined before.
    pub open spec fn stepped(self, tree: TreeView) -> LeafView {
        let k = self.first_ready(tree, 0);
        let node = self.queue[k];
        let rest = self.queue.skip(k + 1) + self.queue.take(k);
        match tree.node(node).parent {
            Some(parent) => if self.seen.contains(parent) {
                LeafView { queue: rest, seen: self.seen, done: self.done.insert(node) }
            } else {
                LeafView {
                    queue: rest.push(parent),
                    seen: self.seen.insert(parent),
                    done: self.done.insert(node),
                }
            },
            None => LeafView { queue: rest, seen: self.seen, done: self.done.insert(node) },
        }
    }

    /// The nodes that the traversal visits in its next `steps` steps, in
    /// order. It ends before that when no node of the queue can be visited.
    pub open spec fn run(self, tree: TreeView, steps: nat) -> Seq<NodeRef>
        decreases steps,
    {
        if steps == 0 || !self.has_ready(tree) {
            Seq::empty()
        } else {
            seq![self.next_node(tree)] + self.stepped(tree).run(tree, (steps - 1) as nat)
        }
    }

    /// The traversal after its next `steps` steps.
    pub open spec fn after(self, tree: TreeView, steps: nat) -> LeafView
        decreases steps,
    {
        if steps == 0 || !self.has_ready(tree) {
            self
        } else {
            self.stepped(tree).after(tree, (steps - 1) as nat)
        }
    }
}

/// Each node of `order` is a node of the tree, and each of its children was
/// visited before the traversal began or stands in front of it in `order`.
pub open spec fn children_first(tree: TreeView, done: Set<NodeRef>, order: Seq<NodeRef>) -> bool {
    forall|i: int, k: int|
        0 <= i < order.len() && 0 <= k < tree.children(order[i]).len() ==> {
            let c = #[trigger] tree.children(#[trigger] order[i])[k];
            done.contains(c) || exists|j: int| 0 <= j < i && order[j] == c
        }
}

/// One more step: the traversal of `steps + 1` steps is the one of `steps`
/// steps followed by the visit of the node that is next then.
pub proof fn lemma_run_extend(view: LeafView, tree: TreeView, steps: nat)
    requires
        view.after(tree, steps).has_ready(tree),
        view.run(tree, steps).len() == steps,
    ensures
        view.run(tree, steps + 1) == view.run(tree, steps).push(
            view.after(tree, steps).next_node(tree),
        ),
        view.after(tree, steps + 1) == view.after(tree, steps).stepped(tree),
    decreases steps,
{
    if steps == 0 {
        assert(view.stepped(tree).run(tree, 0) =~= Seq::<NodeRef>::empty());
        assert(view.run(tree, 1) =~= Seq::<NodeRef>::empty().push(view.next_node(tree)));
        assert(view.stepped(tree).after(tree, 0) == view.stepped(tree));
    } else {
        assert(view.has_ready(tree));
        let tail = view.stepped(tree).run(tree, (steps - 1) as nat);
        assert(view.run(tree, steps) == seq![view.next_node(tree)] + tail);
        assert(view.after(tree, steps) == view.stepped(tree).after(tree, (steps - 1) as nat));
        assert(view.after(tree, steps + 1) == view.stepped(tree).after(tree, steps));
        lemma_run_extend(view.stepped(tree), tree, (steps - 1) as nat);
        assert(view.run(tree, steps + 1) =~= view.run(tree, steps).push(
            view.after(tree, steps).next_node(tree),
        ));
    }
}

/// The number of the first `n` slots whose node has not joined the queue.
pub open spec fn unseen(seen: Set<NodeRef>, n: nat) -> nat
    decreases n,
{
    if n == 0 {
        0
    } else {
        unseen(seen, (n - 1) as nat) + if seen.contains(NodeRef::of(n - 1)) {
            0nat
        } else {
            1nat
        }
    }
}

// One more node that has joined the queue is one less that has not.
proof fn lemma_unseen_insert(seen: Set<NodeRef>, r: NodeRef, n: nat)
    requires
        n <= usize::MAX + 1,
    ensures
        unseen(seen.insert(r), n) + (if r.at() < n && !seen.contains(r) {
            1nat
        } else {
            0nat
        }) == unseen(seen, n),
    decreases n,
{
    if n > 0 {
        lemma_unseen_insert(seen, r, (n - 1) as nat);
        assert(NodeRef::of(n - 1).at() == n - 1);
        if r.at() == n - 1 {
            assert(NodeRef::of(n - 1) == r);
        }
    }
}

// The flag of a slot; unset where the flags do not reach.
spec fn flag_at(flags: Seq<bool>, r: NodeRef) -> bool {
    r.at() < flags.len() && flags[r.at()]
}

// The nodes whose flag is set.
spec fn flagged(flags: Seq<bool>) -> Set<NodeRef> {
    Set::new(|r: NodeRef| flag_at(flags, r))
}

// Reads the flag of a node.
fn get_flag(flags: &Vec<bool>, r: NodeRef) -> (set: bool)
    ensures
        set == flagged(flags@).contains(r),
{
    r.slot < flags.len() && flags[r.slot]
}

// Sets the flag of a node.
fn set_flag(flags: &mut Vec<bool>, r: NodeRef)
    ensures
        flagged(final(flags)@) == flagged(old(flags)@).insert(r),
{
    while flags.len() <= r.slot
        invariant
            flagged(flags@) == flagged(old(flags)@),
        decreases r.slot + 1 - flags.len(),
    {
        let ghost before = flags@;
        flags.push(false);
        proof {
            assert(flagged(flags@) =~= flagged(before)) by {
                assert forall|x: NodeRef| flag_at(flags@, x) == flag_at(before, x) by {
                }
            }
        }
    }
    let ghost before = flags@;
    flags[r.slot] = true;
    proof {
        assert(flagged(flags@) =~= flagged(before).insert(r)) by {
            assert forall|x: NodeRef| flag_at(flags@, x) == (flag_at(before, x) || x == r) by {
            }
        }
    }
}

/// A traversal of a tree from its leaves up.
pub struct LeafIter {
    // Nodes that have joined the queue, by slot.
    seen: Vec<bool>,
    // Nodes that were visited, by slot.
    done: Vec<bool>,
    // Nodes that wait for their visit.
    queue: VecDeque<NodeRef>,
}

impl View for LeafIter {
    type V = LeafView;

    closed spec fn view(&self) -> LeafView {
        LeafView { queue: self.queue@, seen: flagged(self.seen@), done: flagged(self.done@) }
    }
}

impl LeafIter {
    /// A traversal that starts at the given leaves, the last of them first.
    pub fn new(leaves: &Vec<NodeRef>) -> (iter: Self)
        ensures
            iter@ == (LeafView {
                queue: leaves@.reverse(),
                seen: leaves@.to_set(),
                done: Set::empty(),
            }),
    {
        let mut seen: Vec<bool> = Vec::new();
        let mut queue: VecDeque<NodeRef> = VecDeque::new();
        let mut k: usize = leaves.len();
        proof {
            assert(flagged(seen@) =~= leaves@.skip(k as int).to_set());
            assert(queue@ =~= leaves@.reverse().take(0));
        }
        while k > 0
            invariant
                k <= leaves.len(),
                flagged(seen@) == leaves@.skip(k as int).to_set(),
                queue@ == leaves@.reverse().take(leaves.len() - k),
            decreases k,
        {
            k -= 1;
            let ghost before = flagged(seen@);
            set_flag(&mut seen, leaves[k]);
            queue.push_back(leaves[k]);
            proof {
                let here = leaves@.skip(k as int);
                let tail = leaves@.skip(k + 1);
                assert(before.insert(leaves@[k as int]) =~= here.to_set()) by {
                    assert forall|x: NodeRef|
                        here.to_set().contains(x) == (tail.to_set().contains(x) || x == leaves@[k as int]) by {
                        if here.contains(x) {
                            let w = choose|w: int| 0 <= w < here.len() && here[w] == x;
                            if w > 0 {
                                assert(tail[w - 1] == x);
                            }
                        }
                        if tail.contains(x) {
                            let w = choose|w: int| 0 <= w < tail.len() && tail[w] == x;
                            assert(here[w + 1] == x);
                        }
                        if x == leaves@[k as int] {
                            assert(here[0] == x);
                        }
                    }
                }
                assert(queue@ =~= leaves@.reverse().take(leaves.len() - k));
            }
        }
        let done: Vec<bool> = Vec::new();
        proof {
            assert(leaves@.skip(0) == leaves@);
            assert(leaves@.reverse().take(leaves.len() as int) == leaves@.reverse());
            assert(flagged(done@) =~= Set::<NodeRef>::empty());
        }
        LeafIter { seen, done, queue }
    }

    // Whether the node can be visited.
    fn is_ready<G>(&self, tree: &Tree<G>, r: NodeRef) -> (ready: bool) where
        G: UniqueGenerator<Output = NodeId>,

        ensures
            ready == self@.ready(tree@, r),
    {
        if !tree.contains(r) {
            return false;
        }
        let n: usize = tree.node(r).num_children();
        let mut k: usize = 0;
        while k < n
            invariant
                k <= n,
                tree@.contains(r),
                n == tree@.children(r).len(),
                forall|j: int|
                    0 <= j < k ==> self@.done.contains(#[trigger] tree@.children(r)[j]),
            decreases n - k,
        {
            if !get_flag(&self.done, tree.child(r, k)) {
                return false;
            }
            k += 1;
        }
        true
    }

    /// Visits the next node: the first node of the queue all of whose
    /// children were visited. The nodes in front of it go to the back of the
    /// queue, and its parent joins the queue if it has not joined before.
    /// Returns `None`, and changes nothing, where no node of the queue can be
    /// visited.
    pub fn next<G>(&mut self, tree: &Tree<G>) -> (node: Option<NodeRef>) where
        G: UniqueGenerator<Output = NodeId>,

        ensures
            match node {
                Some(r) => {
                    &&& old(self)@.has_ready(tree@)
                    &&& r == old(self)@.next_node(tree@)
                    &&& final(self)@ == old(self)@.stepped(tree@)
                },
                None => !old(self)@.has_ready(tree@) && final(self)@ == old(self)@,
            },
    {
        let ghost before = self@;
        // Find the first node that can be visited.
        let n: usize = self.queue.len();
        let mut k: usize = 0;
        while k < n
            invariant
                k <= n,
                n == self.queue@.len(),
                self@ == before,
                before.first_ready(tree@, 0) == before.first_ready(tree@, k as int),
            ensures
                k <= n,
                self@ == before,
                before.first_ready(tree@, 0) == k,
                k < n ==> before.ready(tree@, before.queue[k as int]),
            decreases n - k,
        {
            if self.is_ready(tree, self.queue[k]) {
                break ;
            }
            k += 1;
        }
        if k == n {
            return None;
        }
        // The nodes in front of it wait at the back.
        let mut j: usize = 0;
        while j < k
            invariant
                j <= k < n,
                n == before.queue.len(),
                self.queue@ == before.queue.skip(j as int) + before.queue.take(j as int),
                before.ready(tree@, before.queue[k as int]),
                flagged(self.seen@) == before.seen,
                flagged(self.done@) == before.done,
            decreases k - j,
        {
            match self.queue.pop_front() {
                Some(waiting) => {
                    self.queue.push_back(waiting);
                },
                None => {},
            }
            proof {
                assert(self.queue@ =~= before.queue.skip(j + 1) + before.queue.take(j + 1));
            }
            j += 1;
        }
        let node = match self.queue.pop_front() {
            Some(node) => node,
            None => NodeRef::new(0),
        };
        proof {
            assert(node == before.queue[k as int]);
            assert(self.queue@ =~= before.queue.skip(k + 1) + before.queue.take(k as int));
        }
        set_flag(&mut self.done, node);
        match tree.node(node).parent() {
            Some(parent) => {
                if !get_flag(&self.seen, parent) {
                    set_flag(&mut self.seen, parent);
                    self.queue.push_back(parent);
                }
            },
            None => {},
        }
        Some(node)
    }

    /// Visits nodes until no node of the queue can be visited any more, and
    /// returns the visited nodes in the order of their visits. Each node is
    /// visited only after all its children.
    pub fn for_each<G>(&mut self, tree: &Tree<G>) -> (order: Vec<NodeRef>) where
        G: UniqueGenerator<Output = NodeId>,

        requires
            tree.wf(),
        ensures
            order@ == old(self)@.run(tree@, order@.len()),
            final(self)@ == old(self)@.after(tree@, order@.len()),
            !final(self)@.has_ready(tree@),
            final(self)@.done == old(self)@.done.union(order@.to_set()),
            children_first(tree@, old(self)@.done, order@),
            forall|i: int| 0 <= i < order@.len() ==> tree@.contains(#[trigger] order@[i]),
    {
        let mut order: Vec<NodeRef> = Vec::new();
        let ghost start = self@;
        let _ = tree.size();
        proof {
            assert(start.done.union(order@.to_set()) =~= start.done);
        }
        loop
            invariant_except_break
                tree.wf(),
                tree@.nodes.len() <= usize::MAX,
                order@ == start.run(tree@, order@.len()),
                self@ == start.after(tree@, order@.len()),
                self@.done == start.done.union(order@.to_set()),
                children_first(tree@, start.done, order@),
                forall|i: int| 0 <= i < order@.len() ==> tree@.contains(#[trigger] order@[i]),
            ensures
                order@ == start.run(tree@, order@.len()),
                self@ == start.after(tree@, order@.len()),
                !self@.has_ready(tree@),
                self@.done == start.done.union(order@.to_set()),
                children_first(tree@, start.done, order@),
                forall|i: int| 0 <= i < order@.len() ==> tree@.contains(#[trigger] order@[i]),
            decreases unseen(self@.seen, tree@.nodes.len()) + self@.queue.len(),
        {
            let ghost before = self@;
            let ghost earlier = order@;
            match self.next(tree) {
                Some(node) => {
                    order.push(node);
                    proof {
                        lemma_run_extend(start, tree@, earlier.len());
                        let k = before.first_ready(tree@, 0);
                        lemma_first_ready(before, tree@, 0);
                        assert(before.ready(tree@, node));
                        assert(tree@.node_wf(node));
                        assert(self@.done == before.done.insert(node));
                        assert(before.done == start.done.union(earlier.to_set()));
                        assert forall|x: NodeRef| order@.to_set().contains(x) == (
                        earlier.to_set().contains(x) || x == node) by {
                            if earlier.contains(x) {
                                let w = choose|w: int| 0 <= w < earlier.len() && earlier[w] == x;
                                assert(order@[w] == x);
                            }
                            if order@.contains(x) {
                                let w = choose|w: int| 0 <= w < order@.len() && order@[w] == x;
                                if w < earlier.len() {
                                    assert(earlier[w] == x);
                                }
                            }
                            if x == node {
                                assert(order@[earlier.len() as int] == x);
                            }
                        }
                        assert forall|x: NodeRef| self@.done.contains(x) == start.done.union(
                            order@.to_set(),
                        ).contains(x) by {
                            assert(order@.to_set().contains(x) == (earlier.to_set().contains(x) || x
                                == node));
                        }
                        assert(self@.done =~= start.done.union(order@.to_set()));
                        assert forall|i: int, k: int|
                            0 <= i < order@.len() && 0 <= k < tree@.children(order@[i]).len() implies {
                            let c = #[trigger] tree@.children(#[trigger] order@[i])[k];
                            start.done.contains(c) || exists|j: int| 0 <= j < i && order@[j] == c
                        } by {
                            let c = tree@.children(order@[i])[k];
                            if i < earlier.len() {
                                assert(order@[i] == earlier[i]);
                                if !start.done.contains(c) {
                                    let j = choose|j: int| 0 <= j < i && earlier[j] == c;
                                    assert(order@[j] == c);
                                }
                            } else {
                                assert(before.done.contains(c));
                                if !start.done.contains(c) {
                                    assert(earlier.contains(c));
                                    let j = choose|j: int| 0 <= j < earlier.len() && earlier[j] == c;
                                    assert(order@[j] == c);
                                }
                            }
                        }
                        match tree@.node(node).parent {
                            Some(parent) => {
                                lemma_unseen_insert(before.seen, parent, tree@.nodes.len());
                            },
                            None => {},
                        }
                    }
                },
                None => {
                    break ;
                },
            }
        }
        order
    }
}

// The first node that can be visited, looked for from `k` on, stands at or
// behind `k`, and can be visited.
proof fn lemma_first_ready(view: LeafView, tree: TreeView, k: int)
    requires
        0 <= k <= view.queue.len(),
    ensures
        k <= view.first_ready(tree, k) <= view.queue.len(),
        view.first_ready(tree, k) < view.queue.len() ==> view.ready(
            tree,
            view.queue[view.first_ready(tree, k)],
        ),
    decreases view.queue.len() - k,
{
    if k < view.queue.len() && !view.ready(tree, view.queue[k]) {
        lemma_first_ready(view, tree, k + 1);
    }
}

/// What holds throughout a traversal that began with seeds that differ from
/// each other: no node waits twice, the nodes that have joined the queue are
/// those that wait and those that were visited, no visited node waits, and
/// the parent of a visited node has joined the queue.
pub open spec fn orderly(view: LeafView, tree: TreeView) -> bool {
    &&& view.queue.no_duplicates()
    &&& forall|x: NodeRef|
        #![trigger view.seen.contains(x)]
        #![trigger view.queue.contains(x)]
        #![trigger view.done.contains(x)]
        view.seen.contains(x) <==> view.queue.contains(x) || view.done.contains(x)
    &&& forall|x: NodeRef|
        #![trigger view.queue.contains(x)]
        #![trigger view.done.contains(x)]
        !(view.queue.contains(x) && view.done.contains(x))
    &&& forall|x: NodeRef, k: int|
        tree.contains(x) && 0 <= k < tree.children(x).len() && view.done.contains(
            #[trigger] tree.children(x)[k],
        ) ==> view.seen.contains(x)
}

// The queue behind and in front of the node at `k`: all nodes that wait but
// that one.
proof fn lemma_rest_of_queue(queue: Seq<NodeRef>, k: int)
    requires
        queue.no_duplicates(),
        0 <= k < queue.len(),
    ensures
        (queue.skip(k + 1) + queue.take(k)).no_duplicates(),
        forall|x: NodeRef|
            (queue.skip(k + 1) + queue.take(k)).contains(x) <==> queue.contains(x) && x != queue[k],
{
    let tail = queue.skip(k + 1);
    let head = queue.take(k);
    let rest = tail + head;
    assert forall|i: int, j: int| 0 <= i < rest.len() && 0 <= j < rest.len() && i != j implies rest[i]
        != rest[j] by {
        let a = if i < tail.len() { i + k + 1 } else { i - tail.len() };
        let b = if j < tail.len() { j + k + 1 } else { j - tail.len() };
        assert(rest[i] == queue[a]);
        assert(rest[j] == queue[b]);
    }
    assert forall|x: NodeRef| rest.contains(x) <==> queue.contains(x) && x != queue[k] by {
        if rest.contains(x) {
            let i = choose|i: int| 0 <= i < rest.len() && rest[i] == x;
            let a = if i < tail.len() { i + k + 1 } else { i - tail.len() };
            assert(rest[i] == queue[a]);
        }
        if queue.contains(x) && x != queue[k] {
            let a = choose|a: int| 0 <= a < queue.len() && queue[a] == x;
            if a > k {
                assert(rest[a - k - 1] == x);
            } else {
                assert(rest[a + tail.len()] == x);
            }
        }
    }
}

/// A visit keeps the traversal orderly, and visits a node that was not
/// visited before.
pub proof fn lemma_step_orderly(view: LeafView, tree: TreeView)
    requires
        tree.wf(),
        orderly(view, tree),
        view.has_ready(tree),
    ensures
        orderly(view.stepped(tree), tree),
        !view.done.contains(view.next_node(tree)),
        view.stepped(tree).done == view.done.insert(view.next_node(tree)),
{
    let k = view.first_ready(tree, 0);
    lemma_first_ready(view, tree, 0);
    let node = view.queue[k];
    let rest = view.queue.skip(k + 1) + view.queue.take(k);
    let after = view.stepped(tree);
    lemma_rest_of_queue(view.queue, k);
    assert(view.queue.contains(node));
    assert(tree.node_wf(node));
    assert forall|x: NodeRef, j: int|
        tree.contains(x) && 0 <= j < tree.children(x).len() && after.done.contains(
            #[trigger] tree.children(x)[j],
        ) implies after.seen.contains(x) by {
        if tree.children(x)[j] == node {
            assert(tree.node_wf(x));
            assert(tree.node(node).parent == Some(x));
        }
    }
    match tree.node(node).parent {
        Some(parent) => {
            if !view.seen.contains(parent) {
                assert(!view.queue.contains(parent));
                assert(!view.done.contains(parent));
                assert(after.queue == rest.push(parent));
                assert forall|i: int, j: int|
                    0 <= i < after.queue.len() && 0 <= j < after.queue.len() && i != j implies after.queue[i]
                    != after.queue[j] by {
                    if i < rest.len() && j < rest.len() {
                        assert(rest[i] != rest[j]);
                    } else if i < rest.len() {
                        assert(rest.contains(rest[i]));
                    } else {
                        assert(rest.contains(rest[j]));
                    }
                }
                assert forall|x: NodeRef| after.queue.contains(x) <==> rest.contains(x) || x
                    == parent by {
                    if after.queue.contains(x) {
                        let i = choose|i: int| 0 <= i < after.queue.len() && after.queue[i] == x;
                        if i < rest.len() {
                            assert(rest[i] == x);
                        }
                    }
                    if rest.contains(x) {
                        let i = choose|i: int| 0 <= i < rest.len() && rest[i] == x;
                        assert(after.queue[i] == x);
                    }
                    if x == parent {
                        assert(after.queue[rest.len() as int] == x);
                    }
                }
            }
        },
        None => {},
    }
}

/// A traversal that is orderly stays so, visits no node twice, and has
/// visited, in the end, what it had visited before and what it visits.
pub proof fn lemma_run_orderly(view: LeafView, tree: TreeView, steps: nat)
    requires
        tree.wf(),
        orderly(view, tree),
    ensures
        orderly(view.after(tree, steps), tree),
        view.run(tree, steps).no_duplicates(),
        forall|i: int|
            0 <= i < view.run(tree, steps).len() ==> !view.done.contains(
                #[trigger] view.run(tree, steps)[i],
            ),
        view.after(tree, steps).done == view.done.union(view.run(tree, steps).to_set()),
    decreases steps,
{
    let order = view.run(tree, steps);
    if steps == 0 || !view.has_ready(tree) {
        assert(view.done.union(order.to_set()) =~= view.done);
    } else {
        let node = view.next_node(tree);
        let next = view.stepped(tree);
        let tail = next.run(tree, (steps - 1) as nat);
        lemma_step_orderly(view, tree);
        lemma_run_orderly(next, tree, (steps - 1) as nat);
        assert(order == seq![node] + tail);
        assert forall|i: int, j: int| 0 <= i < order.len() && 0 <= j < order.len() && i != j implies order[i]
            != order[j] by {
            if i > 0 && j > 0 {
                assert(tail[i - 1] != tail[j - 1]);
            } else if i > 0 {
                assert(!next.done.contains(tail[i - 1]));
            } else {
                assert(!next.done.contains(tail[j - 1]));
            }
        }
        assert forall|i: int| 0 <= i < order.len() implies !view.done.contains(#[trigger] order[i]) by {
            if i > 0 {
                assert(!next.done.contains(tail[i - 1]));
            }
        }
        assert forall|x: NodeRef| order.to_set().contains(x) <==> tail.to_set().contains(x) || x
            == node by {
            if order.contains(x) {
                let i = choose|i: int| 0 <= i < order.len() && order[i] == x;
                if i > 0 {
                    assert(tail[i - 1] == x);
                }
            }
            if tail.contains(x) {
                let i = choose|i: int| 0 <= i < tail.len() && tail[i] == x;
                assert(order[i + 1] == x);
            }
            if x == node {
                assert(order[0] == x);
            }
        }
        assert(view.after(tree, steps).done =~= view.done.union(order.to_set()));
    }
}

// A node of the queue that can be visited is not in front of the first such.
proof fn lemma_first_ready_bound(view: LeafView, tree: TreeView, k: int, j: int)
    requires
        0 <= k <= j < view.queue.len(),
        view.ready(tree, view.queue[j]),
    ensures
        view.first_ready(tree, k) <= j,
    decreases j - k,
{
    if k < j && !view.ready(tree, view.queue[k]) {
        lemma_first_ready_bound(view, tree, k + 1, j);
    }
}

/// The set holds nodes of the tree only, and the children of each node that
/// it holds.
pub open spec fn closed_under_children(tree: TreeView, nodes: Set<NodeRef>) -> bool {
    &&& forall|x: NodeRef| nodes.contains(x) ==> #[trigger] tree.contains(x)
    &&& forall|x: NodeRef, k: int|
        nodes.contains(x) && 0 <= k < tree.children(x).len() ==> nodes.contains(
            #[trigger] tree.children(x)[k],
        )
}

// When an orderly traversal has come to its end, every node of a set that is
// closed under children was visited, if every childless node of the set had
// joined the queue.
proof fn lemma_done_all(view: LeafView, tree: TreeView, nodes: Set<NodeRef>, x: NodeRef)
    requires
        tree.wf(),
        orderly(view, tree),
        !view.has_ready(tree),
        closed_under_children(tree, nodes),
        nodes.contains(x),
        forall|y: NodeRef|
            #[trigger] nodes.contains(y) && tree.children(y).len() == 0 ==> view.seen.contains(y),
    ensures
        view.done.contains(x),
    decreases tree.nodes.len() - x.at(),
{
    assert(tree.contains(x));
    assert(tree.node_wf(x));
    assert forall|k: int| 0 <= k < tree.children(x).len() implies view.done.contains(
        #[trigger] tree.children(x)[k],
    ) by {
        let c = tree.children(x)[k];
        assert(nodes.contains(c));
        lemma_done_all(view, tree, nodes, c);
    }
    assert(view.ready(tree, x));
    if !view.done.contains(x) {
        if tree.children(x).len() > 0 {
            assert(view.done.contains(tree.children(x)[0]));
        }
        assert(view.seen.contains(x));
        assert(view.queue.contains(x));
        let j = choose|j: int| 0 <= j < view.queue.len() && view.queue[j] == x;
        lemma_first_ready_bound(view, tree, 0, j);
    }
}

/// Completeness of the traversal from the leaves up: a traversal that starts
/// with seeds that differ from each other, among them every childless node
/// of a set of nodes that is closed under children, and runs until no node
/// of the queue can be visited, has visited every node of the set, each of
/// them once, and each after its children.
pub proof fn lemma_leaves_up_reaches_all(
    tree: TreeView,
    start: LeafView,
    steps: nat,
    nodes: Set<NodeRef>,
)
    requires
        tree.wf(),
        start.done == Set::<NodeRef>::empty(),
        start.seen == start.queue.to_set(),
        start.queue.no_duplicates(),
        closed_under_children(tree, nodes),
        forall|y: NodeRef|
            #[trigger] nodes.contains(y) && tree.children(y).len() == 0 ==> start.seen.contains(y),
        !start.after(tree, steps).has_ready(tree),
    ensures
        start.run(tree, steps).no_duplicates(),
        forall|x: NodeRef| #[trigger] nodes.contains(x) ==> start.run(tree, steps).contains(x),
        children_first(tree, Set::empty(), start.run(tree, steps)),
{
    let end = start.after(tree, steps);
    let order = start.run(tree, steps);
    lemma_run_orderly(start, tree, steps);
    assert(end.done =~= order.to_set());
    lemma_seen_grows(start, tree, steps);
    assert forall|x: NodeRef| #[trigger] nodes.contains(x) implies order.contains(x) by {
        lemma_done_all(end, tree, nodes, x);
    }
    lemma_run_children_first(start, tree, steps);
}

/// A traversal from the leaves up that starts with seeds that differ from
/// each other, among them every childless node below `root`, and runs until
/// no node of the queue can be visited, has visited `root` and every node
/// below it, each of them once.
pub proof fn lemma_leaves_up_reaches_root(tree: TreeView, start: LeafView, steps: nat, root: NodeRef)
    requires
        tree.wf(),
        tree.contains(root),
        start.done == Set::<NodeRef>::empty(),
        start.seen == start.queue.to_set(),
        start.queue.no_duplicates(),
        forall|y: NodeRef|
            tree.contains(y) && #[trigger] tree.is_above(root, y) && tree.children(y).len() == 0
                ==> start.seen.contains(y),
        !start.after(tree, steps).has_ready(tree),
    ensures
        start.run(tree, steps).no_duplicates(),
        start.run(tree, steps).contains(root),
        forall|x: NodeRef|
            tree.contains(x) && #[trigger] tree.is_above(root, x) ==> start.run(tree, steps).contains(
                x,
            ),
{
    let nodes = Set::new(|x: NodeRef| tree.contains(x) && tree.is_above(root, x));
    assert forall|x: NodeRef, k: int|
        nodes.contains(x) && 0 <= k < tree.children(x).len() implies nodes.contains(
        #[trigger] tree.children(x)[k],
    ) by {
        assert(tree.node_wf(x));
    }
    lemma_leaves_up_reaches_all(tree, start, steps, nodes);
    assert(tree.is_above(root, root));
    assert(nodes.contains(root));
    assert forall|x: NodeRef| tree.contains(x) && #[trigger] tree.is_above(root, x) implies start.run(
        tree,
        steps,
    ).contains(x) by {
        assert(nodes.contains(x));
    }
}

// Nodes that have joined the queue stay in that set.
proof fn lemma_seen_grows(view: LeafView, tree: TreeView, steps: nat)
    ensures
        view.seen.subset_of(view.after(tree, steps).seen),
    decreases steps,
{
    if steps > 0 && view.has_ready(tree) {
        lemma_seen_grows(view.stepped(tree), tree, (steps - 1) as nat);
    }
}

/// Each visited node is visited after all its children, where these were
/// not visited before the traversal began.
pub proof fn lemma_run_children_first(view: LeafView, tree: TreeView, steps: nat)
    ensures
        children_first(tree, view.done, view.run(tree, steps)),
    decreases steps,
{
    let order = view.run(tree, steps);
    if steps == 0 || !view.has_ready(tree) {
    } else {
        let node = view.next_node(tree);
        let next = view.stepped(tree);
        let tail = next.run(tree, (steps - 1) as nat);
        lemma_first_ready(view, tree, 0);
        lemma_run_children_first(next, tree, (steps - 1) as nat);
        assert(order == seq![node] + tail);
        assert(next.done == view.done.insert(node)) by {
            match tree.node(node).parent {
                Some(parent) => {},
                None => {},
            }
        }
        assert forall|i: int, k: int|
            0 <= i < order.len() && 0 <= k < tree.children(order[i]).len() implies {
            let c = #[trigger] tree.children(#[trigger] order[i])[k];
            view.done.contains(c) || exists|j: int| 0 <= j < i && order[j] == c
        } by {
            let c = tree.children(order[i])[k];
            if i > 0 {
                assert(order[i] == tail[i - 1]);
                let t = tree.children(tail[i - 1])[k];
                if !next.done.contains(c) {
                    let j = choose|j: int| 0 <= j < i - 1 && tail[j] == c;
                    assert(order[j + 1] == c);
                } else if c == node {
                    assert(order[0] == c);
                }
            }
        }
    }
}

} // verus!
