use vstd::prelude::*;
use vstd::multiset::Multiset;
use crate::id::UId;
use crate::resource::{ResourceId, ResourcePool};

verus! {

/// A node of the scene tree: its parent and children, as handles into a
/// `ResourcePool<Node<M>>`, and its transform data `M`.
pub struct Node<M> {
    children: Vec<ResourceId<Node<M>>>,
    parent: Option<ResourceId<Node<M>>>,
    transform: M,
}

/// The identifiers of a sequence of handles.
pub open spec fn handle_ids<T>(handles: Seq<ResourceId<T>>) -> Seq<UId> {
    handles.map_values(|h: ResourceId<T>| h.id)
}

impl<M> Node<M> {
    /// The identifiers of the node's children, in order.
    pub closed spec fn child_ids(&self) -> Seq<UId> {
        handle_ids(self.children@)
    }

    /// The identifier of the node's parent, if it has one.
    pub closed spec fn parent_id(&self) -> Option<UId> {
        match self.parent {
            Some(p) => Some(p.id),
            None => None,
        }
    }

    /// The node's transform data.
    pub closed spec fn spec_transform(&self) -> M {
        self.transform
    }

    /// A node without parent or children.
    pub fn new(transform: M) -> (node: Self)
        ensures
            node.child_ids() == Seq::<UId>::empty(),
            node.parent_id() is None,
            node.spec_transform() == transform,
    {
        let node = Node { children: Vec::new(), parent: None, transform };
        assert(node.child_ids() =~= Seq::<UId>::empty());
        node
    }

    /// The handle of the node's parent, if any.
    pub fn borrow_parent(&self) -> (p: Option<&ResourceId<Node<M>>>)
        ensures
            match p {
                Some(h) => self.parent_id() == Some(h.id),
                None => self.parent_id() is None,
            },
    {
        self.parent.as_ref()
    }

    /// The handles of the node's children.
    pub fn borrow_children(&self) -> (c: &Vec<ResourceId<Node<M>>>)
        ensures
            handle_ids(c@) == self.child_ids(),
    {
        &self.children
    }

    /// The node's transform data.
    pub fn borrow_transform(&self) -> (t: &M)
        ensures
            *t == self.spec_transform(),
    {
        &self.transform
    }

    /// Mutable access to the node's transform data; parent and children stay as they are.
    pub fn borrow_transform_mut(&mut self) -> (t: &mut M)
        ensures
            *t == old(self).spec_transform(),
            final(self).spec_transform() == *final(t),
            final(self).child_ids() == old(self).child_ids(),
            final(self).parent_id() == old(self).parent_id(),
    {
        &mut self.transform
    }
}

/// The depth-first walk of the executor over the nodes of `pool`, starting from the stack
/// `stack` (whose last element is taken first) and taking at most `fuel` nodes: each step
/// takes the last identifier off the stack and pushes the node's children in order. The
/// result holds the identifiers in the order they were taken and the identifiers in the
/// order they were pushed. `None` when a taken identifier has no node in `pool` or more than
/// `fuel` steps are needed.
pub open spec fn walk<M>(pool: Map<UId, Node<M>>, stack: Seq<UId>, fuel: nat) -> Option<
    (Seq<UId>, Seq<UId>),
>
    decreases fuel,
{
    if stack.len() == 0 {
        Some((Seq::empty(), Seq::empty()))
    } else if fuel == 0 || !pool.contains_key(stack.last()) {
        None
    } else {
        let top = stack.last();
        let children = pool[top].child_ids();
        match walk(pool, stack.drop_last() + children, (fuel - 1) as nat) {
            Some(rest) => Some((seq![top] + rest.0, children + rest.1)),
            None => None,
        }
    }
}

/// The walk from `stack` ends: every identifier it takes has a node and the node graph
/// reached is acyclic.
pub open spec fn walk_ends<M>(pool: Map<UId, Node<M>>, stack: Seq<UId>) -> bool {
    exists|fuel: nat| #[trigger] walk(pool, stack, fuel) is Some
}

/// The result of the walk from `stack` (meaningful where `walk_ends(pool, stack)`).
pub open spec fn walk_result<M>(pool: Map<UId, Node<M>>, stack: Seq<UId>) -> (Seq<UId>, Seq<UId>) {
    walk(pool, stack, choose|fuel: nat| #[trigger] walk(pool, stack, fuel) is Some).unwrap()
}

/// A walk that ends with some fuel gives the same result with more.
pub proof fn lemma_walk_more_fuel<M>(pool: Map<UId, Node<M>>, stack: Seq<UId>, fuel: nat)
    requires
        walk(pool, stack, fuel) is Some,
    ensures
        walk(pool, stack, fuel + 1) == walk(pool, stack, fuel),
    decreases fuel,
{
    if stack.len() > 0 {
        let top = stack.last();
        lemma_walk_more_fuel(pool, stack.drop_last() + pool[top].child_ids(), (fuel - 1) as nat);
    }
}

proof fn lemma_walk_fuel_range<M>(pool: Map<UId, Node<M>>, stack: Seq<UId>, lo: nat, hi: nat)
    requires
        lo <= hi,
        walk(pool, stack, lo) is Some,
    ensures
        walk(pool, stack, hi) == walk(pool, stack, lo),
    decreases hi - lo,
{
    if lo < hi {
        lemma_walk_more_fuel(pool, stack, lo);
        lemma_walk_fuel_range(pool, stack, (lo + 1) as nat, hi);
    }
}

/// The walk's result does not depend on the fuel it is computed with.
pub proof fn lemma_walk_fuel_independent<M>(pool: Map<UId, Node<M>>, stack: Seq<UId>, fuel: nat)
    requires
        walk(pool, stack, fuel) is Some,
    ensures
        walk_ends(pool, stack),
        walk_result(pool, stack) == walk(pool, stack, fuel).unwrap(),
{
    let f = choose|f: nat| #[trigger] walk(pool, stack, f) is Some;
    assert(walk(pool, stack, fuel) is Some);
    if f <= fuel {
        lemma_walk_fuel_range(pool, stack, f, fuel);
    } else {
        lemma_walk_fuel_range(pool, stack, fuel, f);
    }
}

/// Runs updates over a tree of scene nodes.
pub struct NodeExecutor {}

impl NodeExecutor {
    /// Appends to `nodes` the handle `root` followed by the handles that a depth-first walk
    /// from `root` reaches, in the order the walk pushes them.
    pub fn collect_nodes<M>(
        pool: &ResourcePool<Node<M>>,
        root: &ResourceId<Node<M>>,
        nodes: &mut Vec<ResourceId<Node<M>>>,
    )
        requires
            walk_ends(pool@, seq![root.id]),
        ensures
            handle_ids(final(nodes)@) == handle_ids(old(nodes)@) + seq![root.id] + walk_result(
                pool@,
                seq![root.id],
            ).1,
            handle_ids(final(nodes)@) == handle_ids(old(nodes)@) + seq![root.id] + children_in_order(
                pool@,
                walk_result(pool@, seq![root.id]).0,
            ),
    {
        proof {
            lemma_walk_reaches_all_children(pool@, root.id);
        }
        let ghost target = handle_ids(old(nodes)@) + seq![root.id] + walk_result(
            pool@,
            seq![root.id],
        ).1;
        let ghost mut fuel = choose|f: nat| #[trigger] walk(pool@, seq![root.id], f) is Some;
        let mut stack: Vec<ResourceId<Node<M>>> = Vec::new();
        stack.push(*root);
        nodes.push(*root);
        assert(handle_ids(stack@) =~= seq![root.id]);
        assert(handle_ids(nodes@) =~= handle_ids(old(nodes)@) + seq![root.id]);
        loop
            invariant
                walk(pool@, handle_ids(stack@), fuel) is Some,
                handle_ids(nodes@) + walk(pool@, handle_ids(stack@), fuel).unwrap().1 == target,
            ensures
                handle_ids(nodes@) == target,
            decreases fuel,
        {
            let ghost stack_ids = handle_ids(stack@);
            match stack.pop() {
                None => {
                    assert(handle_ids(nodes@) + Seq::<UId>::empty() =~= handle_ids(nodes@));
                    break ;
                },
                Some(rid) => {
                    assert(stack_ids.last() == rid.id);
                    assert(handle_ids(stack@) =~= stack_ids.drop_last());
                    let node = pool.borrow(&rid).unwrap();
                    let ghost children = node.child_ids();
                    let ghost next = walk(pool@, stack_ids.drop_last() + children, (fuel - 1) as nat).unwrap();
                    let ghost before = handle_ids(nodes@);
                    let mut k: usize = 0;
                    while k < node.children.len()
                        invariant
                            stack_ids.len() > 0,
                            k <= node.children@.len(),
                            children == handle_ids(node.children@),
                            handle_ids(stack@) == stack_ids.drop_last() + children.take(k as int),
                            handle_ids(nodes@) == before + children.take(k as int),
                        decreases node.children.len() - k,
                    {
                        let child = node.children[k];
                        let ghost s0 = stack@;
                        let ghost n0 = nodes@;
                        stack.push(child);
                        nodes.push(child);
                        assert(handle_ids(stack@) =~= handle_ids(s0).push(child.id));
                        assert(handle_ids(nodes@) =~= handle_ids(n0).push(child.id));
                        assert(children[k as int] == child.id);
                        k = k + 1;
                        assert(children.take(k as int) =~= children.take(k - 1) + seq![child.id]);
                        assert(handle_ids(stack@) =~= stack_ids.drop_last() + children.take(k as int));
                        assert(handle_ids(nodes@) =~= before + children.take(k as int));
                    }
                    assert(children.take(k as int) =~= children);
                    assert(before + (children + next.1) =~= (before + children) + next.1);
                    proof {
                        fuel = (fuel - 1) as nat;
                    }
                },
            }
        }
    }

    /// Whether the depth-first walk from `start` ends within `max_steps` steps, every node it
    /// takes being in `pool`. The check takes as long as the walk itself.
    pub fn walk_ends_within<M>(
        pool: &ResourcePool<Node<M>>,
        start: &Vec<ResourceId<Node<M>>>,
        max_steps: usize,
    ) -> (r: bool)
        ensures
            r == walk(pool@, handle_ids(start@), max_steps as nat) is Some,
            r ==> walk_ends(pool@, handle_ids(start@)),
    {
        let ghost start_ids = handle_ids(start@);
        let mut stack: Vec<ResourceId<Node<M>>> = start.clone();
        let mut steps = max_steps;
        assert(handle_ids(stack@) =~= start_ids);
        loop
            invariant
                start_ids == handle_ids(start@),
                (walk(pool@, handle_ids(stack@), steps as nat) is Some) == (walk(
                    pool@,
                    start_ids,
                    max_steps as nat,
                ) is Some),
            decreases steps,
        {
            let ghost stack_ids = handle_ids(stack@);
            if stack.len() == 0 {
                return true;
            }
            if steps == 0 {
                return false;
            }
            let rid = stack.pop().unwrap();
            assert(stack_ids.last() == rid.id);
            assert(handle_ids(stack@) =~= stack_ids.drop_last());
            match pool.borrow(&rid) {
                None => {
                    return false;
                },
                Some(node) => {
                    let ghost children = node.child_ids();
                    let mut k: usize = 0;
                    while k < node.children.len()
                        invariant
                            stack_ids.len() > 0,
                            k <= node.children@.len(),
                            children == handle_ids(node.children@),
                            handle_ids(stack@) == stack_ids.drop_last() + children.take(k as int),
                        decreases node.children.len() - k,
                    {
                        let child = node.children[k];
                        let ghost s0 = stack@;
                        stack.push(child);
                        assert(handle_ids(stack@) =~= handle_ids(s0).push(child.id));
                        assert(children[k as int] == child.id);
                        k = k + 1;
                        assert(children.take(k as int) =~= children.take(k - 1) + seq![child.id]);
                        assert(handle_ids(stack@) =~= stack_ids.drop_last() + children.take(k as int));
                    }
                    assert(children.take(k as int) =~= children);
                    steps = steps - 1;
                },
            }
        }
    }

    /// The order in which the matrix update visits the nodes, starting from the handles
    /// `start` (the last one first): the order in which the depth-first walk takes them.
    pub fn visit_order<M>(pool: &ResourcePool<Node<M>>, start: &Vec<ResourceId<Node<M>>>) -> (order:
        Vec<ResourceId<Node<M>>>)
        requires
            walk_ends(pool@, handle_ids(start@)),
        ensures
            handle_ids(order@) == walk_result(pool@, handle_ids(start@)).0,
    {
        let ghost target = walk_result(pool@, handle_ids(start@)).0;
        let ghost mut fuel = choose|f: nat| #[trigger] walk(pool@, handle_ids(start@), f) is Some;
        let mut stack: Vec<ResourceId<Node<M>>> = start.clone();
        let mut order: Vec<ResourceId<Node<M>>> = Vec::new();
        assert(handle_ids(order@) =~= Seq::<UId>::empty());
        assert(handle_ids(stack@) =~= handle_ids(start@));
        loop
            invariant
                walk(pool@, handle_ids(stack@), fuel) is Some,
                handle_ids(order@) + walk(pool@, handle_ids(stack@), fuel).unwrap().0 == target,
            ensures
                handle_ids(order@) == target,
            decreases fuel,
        {
            let ghost stack_ids = handle_ids(stack@);
            match stack.pop() {
                None => {
                    assert(handle_ids(order@) + Seq::<UId>::empty() =~= handle_ids(order@));
                    break ;
                },
                Some(rid) => {
                    assert(stack_ids.last() == rid.id);
                    assert(handle_ids(stack@) =~= stack_ids.drop_last());
                    let ghost o0 = order@;
                    order.push(rid);
                    assert(handle_ids(order@) =~= handle_ids(o0) + seq![rid.id]);
                    let node = pool.borrow(&rid).unwrap();
                    let ghost children = node.child_ids();
                    let ghost next = walk(pool@, stack_ids.drop_last() + children, (fuel - 1) as nat).unwrap();
                    let mut k: usize = 0;
                    while k < node.children.len()
                        invariant
                            stack_ids.len() > 0,
                            k <= node.children@.len(),
                            children == handle_ids(node.children@),
                            handle_ids(stack@) == stack_ids.drop_last() + children.take(k as int),
                        decreases node.children.len() - k,
                    {
                        let child = node.children[k];
                        let ghost s0 = stack@;
                        stack.push(child);
                        assert(handle_ids(stack@) =~= handle_ids(s0).push(child.id));
                        assert(children[k as int] == child.id);
                        k = k + 1;
                        assert(children.take(k as int) =~= children.take(k - 1) + seq![child.id]);
                        assert(handle_ids(stack@) =~= stack_ids.drop_last() + children.take(k as int));
                    }
                    assert(children.take(k as int) =~= children);
                    assert(handle_ids(o0) + (seq![rid.id] + next.0) =~= (handle_ids(o0) + seq![rid.id]) + next.0);
                    proof {
                        fuel = (fuel - 1) as nat;
                    }
                },
            }
        }
        order
    }
}

/// Counting with multiplicity, the walk takes exactly the identifiers it starts with and
/// those it pushes.
pub proof fn lemma_walk_takes_what_it_holds<M>(pool: Map<UId, Node<M>>, stack: Seq<UId>, fuel: nat)
    requires
        walk(pool, stack, fuel) is Some,
    ensures
        walk(pool, stack, fuel).unwrap().0.to_multiset() =~= stack.to_multiset().add(
            walk(pool, stack, fuel).unwrap().1.to_multiset(),
        ),
    decreases fuel,
{
    broadcast use vstd::seq_lib::group_to_multiset_ensures;

    if stack.len() == 0 {
        assert(stack.to_multiset() =~= Multiset::<UId>::empty());
        assert(Seq::<UId>::empty().to_multiset() =~= Multiset::<UId>::empty());
    } else {
        let top = stack.last();
        let children = pool[top].child_ids();
        let rest = stack.drop_last() + children;
        lemma_walk_takes_what_it_holds(pool, rest, (fuel - 1) as nat);
        let (taken, pushed) = walk(pool, rest, (fuel - 1) as nat).unwrap();
        vstd::seq_lib::lemma_multiset_commutative(seq![top], taken);
        vstd::seq_lib::lemma_multiset_commutative(stack.drop_last(), children);
        vstd::seq_lib::lemma_multiset_commutative(children, pushed);
        assert(stack =~= stack.drop_last().push(top));
        assert(seq![top] =~= Seq::<UId>::empty().push(top));
        assert(Seq::<UId>::empty().to_multiset() =~= Multiset::<UId>::empty());
    }
}

/// The nodes that the matrix update visits from `root` are, counted with multiplicity,
/// exactly the nodes that `collect_nodes` gathers from `root`.
pub proof fn lemma_visit_order_matches_collected<M>(pool: Map<UId, Node<M>>, root: UId)
    requires
        walk_ends(pool, seq![root]),
    ensures
        walk_result(pool, seq![root]).0.to_multiset() =~= (seq![root] + walk_result(
            pool,
            seq![root],
        ).1).to_multiset(),
{
    let fuel = choose|f: nat| #[trigger] walk(pool, seq![root], f) is Some;
    lemma_walk_takes_what_it_holds(pool, seq![root], fuel);
    vstd::seq_lib::lemma_multiset_commutative(seq![root], walk_result(pool, seq![root]).1);
}

/// A node without children is visited and collected alone.
pub proof fn lemma_leaf_walk<M>(pool: Map<UId, Node<M>>, root: UId)
    requires
        pool.contains_key(root),
        pool[root].child_ids().len() == 0,
    ensures
        walk_ends(pool, seq![root]),
        walk_result(pool, seq![root]).0 == seq![root],
        walk_result(pool, seq![root]).1 == Seq::<UId>::empty(),
{
    let s = seq![root];
    assert(s.drop_last() + pool[root].child_ids() =~= Seq::<UId>::empty());
    reveal_with_fuel(walk, 2);
    assert(walk(pool, Seq::<UId>::empty(), 0) == Some((Seq::<UId>::empty(), Seq::<UId>::empty())));
    assert(walk(pool, s, 1) == Some((seq![root] + Seq::<UId>::empty(), Seq::<UId>::empty() + Seq::<UId>::empty())));
    lemma_walk_fuel_independent(pool, s, 1);
    assert(seq![root] + Seq::<UId>::empty() =~= seq![root]);
    assert(Seq::<UId>::empty() + Seq::<UId>::empty() =~= Seq::<UId>::empty());
}

/// The children of the nodes `taken`, one node after the other, each node's children in
/// their order.
pub open spec fn children_in_order<M>(pool: Map<UId, Node<M>>, taken: Seq<UId>) -> Seq<UId>
    decreases taken.len(),
{
    if taken.len() == 0 {
        Seq::empty()
    } else {
        pool[taken[0]].child_ids() + children_in_order(pool, taken.drop_first())
    }
}

/// Each step of the walk pushes all children of the node it takes, in order: what the walk
/// pushes is the children of the taken nodes, node after node.
pub proof fn lemma_walk_pushes_all_children<M>(pool: Map<UId, Node<M>>, stack: Seq<UId>, fuel: nat)
    requires
        walk(pool, stack, fuel) is Some,
    ensures
        walk(pool, stack, fuel).unwrap().1 == children_in_order(pool, walk(pool, stack, fuel).unwrap().0),
    decreases fuel,
{
    if stack.len() > 0 {
        let top = stack.last();
        let children = pool[top].child_ids();
        let rest = stack.drop_last() + children;
        lemma_walk_pushes_all_children(pool, rest, (fuel - 1) as nat);
        let r = walk(pool, rest, (fuel - 1) as nat).unwrap();
        assert((seq![top] + r.0).drop_first() =~= r.0);
        assert((seq![top] + r.0)[0] == top);
    }
}

/// A child of a node among `taken` is among the children of `taken`.
proof fn lemma_child_in_children_in_order<M>(pool: Map<UId, Node<M>>, taken: Seq<UId>, i: int, c: UId)
    requires
        0 <= i < taken.len(),
        pool[taken[i]].child_ids().contains(c),
    ensures
        children_in_order(pool, taken).contains(c),
    decreases taken.len(),
{
    let first = pool[taken[0]].child_ids();
    let rest = children_in_order(pool, taken.drop_first());
    if i == 0 {
        let k = choose|k: int| 0 <= k < first.len() && first[k] == c;
        assert((first + rest)[k] == c);
    } else {
        assert(taken.drop_first()[i - 1] == taken[i]);
        lemma_child_in_children_in_order(pool, taken.drop_first(), i - 1, c);
        let k = choose|k: int| 0 <= k < rest.len() && rest[k] == c;
        assert((first + rest)[first.len() + k] == c);
    }
}

/// The walk from `root` reaches all of a reached node's children: every child of every node
/// that `collect_nodes` gathers and the matrix update visits is itself gathered and visited,
/// and what `collect_nodes` gathers after `root` is the children of the visited nodes, node
/// after node, each node's children in order.
pub proof fn lemma_walk_reaches_all_children<M>(pool: Map<UId, Node<M>>, root: UId)
    requires
        walk_ends(pool, seq![root]),
    ensures
        walk_result(pool, seq![root]).1 == children_in_order(pool, walk_result(pool, seq![root]).0),
        forall|i: int, c: UId|
            0 <= i < walk_result(pool, seq![root]).0.len() && #[trigger] pool[walk_result(
                pool,
                seq![root],
            ).0[i]].child_ids().contains(c) ==> walk_result(pool, seq![root]).0.contains(c)
                && walk_result(pool, seq![root]).1.contains(c),
{
    broadcast use vstd::seq_lib::group_to_multiset_ensures;

    let fuel = choose|f: nat| #[trigger] walk(pool, seq![root], f) is Some;
    let w = walk_result(pool, seq![root]);
    lemma_walk_pushes_all_children(pool, seq![root], fuel);
    lemma_walk_takes_what_it_holds(pool, seq![root], fuel);
    assert forall|i: int, c: UId|
        0 <= i < w.0.len() && #[trigger] pool[w.0[i]].child_ids().contains(c) implies w.0.contains(c)
        && w.1.contains(c) by {
        lemma_child_in_children_in_order(pool, w.0, i, c);
        assert(w.1.to_multiset().count(c) > 0);
        assert(w.0.to_multiset().count(c) > 0);
    }
}

} // verus!
