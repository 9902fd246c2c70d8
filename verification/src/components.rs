//! Connected components: live nodes that edges join, whichever way the edges
//! lead.
use vstd::prelude::*;

use crate::errors::GraphResult;
use crate::neighbors::{Neighbor, NeighborSource};
use crate::node_store::NodeStore;
use crate::resource::{charged, limit_error, ResourceGovernor, ResourceKind, ResourcePhase};

verus! {

/// Components of a graph.
#[derive(Debug)]
pub struct ComponentResult {
    pub num_components: u32,
    pub largest_component_size: u32,
    /// For each node a number that it shares with its component alone.
    pub component_of: Vec<u32>,
}

/// Nodes and the edges between them.
pub struct LinkGraph {
    pub live: Seq<bool>,
    pub adjacency: spec_fn(u32) -> Seq<Neighbor>,
}

/// Whether an edge leads from one live node to another.
pub open spec fn leads(g: LinkGraph, from: u32, to: u32) -> bool {
    &&& from < g.live.len() && g.live[from as int]
    &&& to < g.live.len() && g.live[to as int]
    &&& exists|i: int|
        0 <= i < (g.adjacency)(from).len() && (#[trigger] (g.adjacency)(from)[i]).target == to
}

/// Whether an edge joins two live nodes.
pub open spec fn touches(g: LinkGraph, left: u32, right: u32) -> bool {
    leads(g, left, right) || leads(g, right, left)
}

/// Whether consecutive nodes of a chain are joined by edges.
pub open spec fn is_chain(g: LinkGraph, chain: Seq<u32>) -> bool {
    forall|i: int| 0 <= i < chain.len() - 1 ==> touches(g, #[trigger] chain[i], chain[i + 1])
}

/// Whether edges join two nodes, directly or through others.
pub open spec fn linked(g: LinkGraph, left: u32, right: u32) -> bool {
    exists|chain: Seq<u32>| #[trigger]
        is_chain(g, chain) && chain.len() > 0 && chain[0] == left && chain.last() == right
}

/// Every node is linked to itself.
pub proof fn lemma_linked_self(g: LinkGraph, node: u32)
    ensures
        linked(g, node, node),
{
    assert(is_chain(g, seq![node]));
}

/// Links lead both ways.
pub proof fn lemma_linked_back(g: LinkGraph, left: u32, right: u32)
    requires
        linked(g, left, right),
    ensures
        linked(g, right, left),
{
    let chain = choose|chain: Seq<u32>| #[trigger]
        is_chain(g, chain) && chain.len() > 0 && chain[0] == left && chain.last() == right;
    let back = chain.reverse();
    assert forall|i: int| 0 <= i < back.len() - 1 implies touches(g, #[trigger] back[i], back[i + 1]) by {
        let j = chain.len() - 2 - i;
        assert(touches(g, chain[j], chain[j + 1]));
    }
    assert(is_chain(g, back));
}

/// Links can be continued.
pub proof fn lemma_linked_on(g: LinkGraph, left: u32, middle: u32, right: u32)
    requires
        linked(g, left, middle),
        linked(g, middle, right),
    ensures
        linked(g, left, right),
{
    let first = choose|chain: Seq<u32>| #[trigger]
        is_chain(g, chain) && chain.len() > 0 && chain[0] == left && chain.last() == middle;
    let second = choose|chain: Seq<u32>| #[trigger]
        is_chain(g, chain) && chain.len() > 0 && chain[0] == middle && chain.last() == right;
    let whole = first + second.drop_first();
    assert forall|i: int| 0 <= i < whole.len() - 1 implies touches(
        g,
        #[trigger] whole[i],
        whole[i + 1],
    ) by {
        if i < first.len() - 1 {
            assert(touches(g, first[i], first[i + 1]));
        } else {
            let j = i - (first.len() - 1);
            assert(touches(g, second[j], second[j + 1]));
            assert(whole[i] == second[j]);
            assert(whole[i + 1] == second[j + 1]);
        }
    }
    assert(is_chain(g, whole));
    if second.len() == 1 {
        assert(whole =~= first);
    } else {
        assert(whole.last() == second.last());
    }
}

/// An edge is a link.
pub proof fn lemma_linked_edge(g: LinkGraph, left: u32, right: u32)
    requires
        touches(g, left, right),
    ensures
        linked(g, left, right),
{
    let chain = seq![left, right];
    assert(is_chain(g, chain));
}

/// Whether nodes have the same number exactly where they are linked.
pub open spec fn numbers_components(g: LinkGraph, numbers: Seq<u32>) -> bool {
    &&& numbers.len() == g.live.len()
    &&& forall|i: int| 0 <= i < numbers.len() ==> (#[trigger] numbers[i]) < g.live.len()
    &&& forall|a: u32, b: u32|
        a < g.live.len() && b < g.live.len() && g.live[a as int] && g.live[b as int] ==> (
        #[trigger] numbers[a as int] == #[trigger] numbers[b as int] <==> linked(g, a, b))
}

/// How many of the first nodes are live and have a number.
pub open spec fn class_size(live: Seq<bool>, numbers: Seq<u32>, number: int, count: nat) -> nat
    decreases count,
{
    if count == 0 {
        0
    } else {
        class_size(live, numbers, number, (count - 1) as nat) + if live[count - 1] && numbers[count
            - 1] == number {
            1nat
        } else {
            0nat
        }
    }
}

/// How many of the first numbers some live node has.
pub open spec fn classes(live: Seq<bool>, numbers: Seq<u32>, count: nat) -> nat
    decreases count,
{
    if count == 0 {
        0
    } else {
        classes(live, numbers, (count - 1) as nat) + if class_size(
            live,
            numbers,
            count - 1,
            live.len(),
        ) > 0 {
            1nat
        } else {
            0nat
        }
    }
}

/// How many live nodes share one of the first numbers at most.
pub open spec fn largest_class(live: Seq<bool>, numbers: Seq<u32>, count: nat) -> nat
    decreases count,
{
    if count == 0 {
        0
    } else {
        let rest = largest_class(live, numbers, (count - 1) as nat);
        let own = class_size(live, numbers, count - 1, live.len());
        if own > rest {
            own
        } else {
            rest
        }
    }
}

/// Whether a result is that of a graph.
pub open spec fn components_of(g: LinkGraph, result: ComponentResult) -> bool {
    &&& numbers_components(g, result.component_of@)
    &&& result.num_components == classes(g.live, result.component_of@, g.live.len())
    &&& result.largest_component_size == largest_class(
        g.live,
        result.component_of@,
        g.live.len(),
    )
}

/// The nodes of a store and the edges of a source.
pub open spec fn link_graph<N: NeighborSource>(nodes: &NodeStore, neighbors: &N) -> LinkGraph {
    LinkGraph {
        live: Seq::new(nodes.nodes().len(), |i: int| nodes.nodes()[i].active),
        adjacency: |node: u32| neighbors.adjacency(node),
    }
}

/// How many edges the first live nodes have.
pub open spec fn links_work(g: LinkGraph, count: nat) -> nat
    decreases count,
{
    if count == 0 {
        0
    } else {
        links_work(g, (count - 1) as nat) + if g.live[count - 1] {
            (g.adjacency)((count - 1) as u32).len()
        } else {
            0
        }
    }
}

proof fn lemma_links_work(g: LinkGraph, small: nat, large: nat)
    requires
        small <= large,
    ensures
        links_work(g, small) <= links_work(g, large),
    decreases large,
{
    if small < large {
        lemma_links_work(g, small, (large - 1) as nat);
    }
}

proof fn lemma_class_fits(live: Seq<bool>, numbers: Seq<u32>, number: int, count: nat)
    ensures
        class_size(live, numbers, number, count) <= count,
    decreases count,
{
    if count > 0 {
        lemma_class_fits(live, numbers, number, (count - 1) as nat);
    }
}

proof fn lemma_classes_fit(live: Seq<bool>, numbers: Seq<u32>, count: nat)
    ensures
        classes(live, numbers, count) <= count,
    decreases count,
{
    if count > 0 {
        lemma_classes_fit(live, numbers, (count - 1) as nat);
    }
}

/// Groups of nodes that are joined so far.
struct Groups {
    numbers: Vec<u32>,
    members: Vec<Vec<u32>>,
}

impl Groups {
    /// Whether numbers and members say the same.
    spec fn wf(&self) -> bool {
        &&& self.members@.len() == self.numbers@.len()
        &&& self.numbers@.len() <= u32::MAX
        &&& forall|i: int|
            0 <= i < self.numbers@.len() ==> (#[trigger] self.numbers@[i]) < self.numbers@.len()
        &&& forall|i: int|
            0 <= i < self.numbers@.len() ==> self.members@[(
            #[trigger] self.numbers@[i]) as int]@.contains(i as u32)
        &&& forall|n: int, k: int|
            0 <= n < self.members@.len() && 0 <= k < self.members@[n]@.len() ==> (
            #[trigger] self.members@[n]@[k]) < self.numbers@.len()
                && self.numbers@[self.members@[n]@[k] as int] == n
    }

    /// Every node in a group of its own.
    fn singletons(count: u32) -> (groups: Self)
        ensures
            groups.wf(),
            groups.numbers@.len() == count,
            forall|i: int| 0 <= i < count ==> (#[trigger] groups.numbers@[i]) == i,
    {
        let mut numbers: Vec<u32> = Vec::new();
        let mut members: Vec<Vec<u32>> = Vec::new();
        let mut node: u32 = 0;
        while node < count
            invariant
                node <= count,
                numbers@.len() == node,
                members@.len() == node,
                forall|i: int| 0 <= i < node ==> (#[trigger] numbers@[i]) == i,
                forall|i: int| 0 <= i < node ==> (#[trigger] members@[i])@ == seq![i as u32],
            decreases count - node,
        {
            let mut own: Vec<u32> = Vec::new();
            own.push(node);
            assert(own@ =~= seq![node]);
            numbers.push(node);
            members.push(own);
            node = node + 1;
        }
        let groups = Groups { numbers, members };
        assert forall|i: int| 0 <= i < groups.numbers@.len() implies groups.members@[(
        #[trigger] groups.numbers@[i]) as int]@.contains(i as u32) by {
            assert(groups.members@[i]@[0] == i as u32);
        }
        groups
    }

    /// Joins two groups: the members of one get the number of the other.
    fn join(&mut self, from: u32, into: u32)
        requires
            old(self).wf(),
            from < old(self).numbers@.len(),
            into < old(self).numbers@.len(),
            from != into,
        ensures
            final(self).wf(),
            final(self).numbers@.len() == old(self).numbers@.len(),
            forall|i: int|
                0 <= i < old(self).numbers@.len() ==> (#[trigger] final(self).numbers@[i]) == if old(
                    self,
                ).numbers@[i] == from {
                    into
                } else {
                    old(self).numbers@[i]
                },
    {
        let ghost before = self.numbers@;
        let ghost moved = self.members@[from as int]@;
        let ghost kept = self.members@[into as int]@;
        let mut at: usize = 0;
        let count: usize = self.members[from as usize].len();
        proof {
            assert(moved.take(0) =~= Seq::<u32>::empty());
            assert(kept + moved.take(0) =~= kept);
        }
        while at < count
            invariant
                at <= count,
                count == moved.len(),
                moved == old(self).members@[from as int]@,
                kept == old(self).members@[into as int]@,
                before == old(self).numbers@,
                old(self).wf(),
                from < before.len(),
                into < before.len(),
                from != into,
                self.members@.len() == before.len(),
                self.numbers@.len() == before.len(),
                forall|n: int|
                    0 <= n < before.len() && n != into ==> (#[trigger] self.members@[n])@ == old(
                        self,
                    ).members@[n]@,
                self.members@[into as int]@ == kept + moved.take(at as int),
                forall|i: int|
                    0 <= i < before.len() ==> (#[trigger] self.numbers@[i]) == if moved.take(
                        at as int,
                    ).contains(i as u32) {
                        into
                    } else {
                        before[i]
                    },
            decreases count - at,
        {
            let member: u32 = self.members[from as usize][at];
            assert(member == moved[at as int]);
            assert(old(self).members@[from as int]@[at as int] == member);
            self.numbers.set(member as usize, into);
            self.members[into as usize].push(member);
            proof {
                let next = moved.take(at + 1);
                assert(next =~= moved.take(at as int).push(member));
                assert(kept + next =~= (kept + moved.take(at as int)).push(member));
                assert forall|i: int| 0 <= i < before.len() implies (#[trigger] self.numbers@[i])
                    == if next.contains(i as u32) {
                    into
                } else {
                    before[i]
                } by {
                    if i == member {
                        assert(next[at as int] == i as u32);
                    } else if next.contains(i as u32) {
                        let k = choose|k: int| 0 <= k < next.len() && next[k] == i as u32;
                        assert(moved.take(at as int)[k] == i as u32);
                    } else if moved.take(at as int).contains(i as u32) {
                        let k = choose|k: int|
                            0 <= k < moved.take(at as int).len() && moved.take(at as int)[k]
                                == i as u32;
                        assert(next[k] == i as u32);
                    }
                }
            }
            at = at + 1;
        }
        let ghost full = self.members@;
        self.members.set(from as usize, Vec::new());
        proof {
            assert(moved.take(count as int) =~= moved);
            assert forall|i: int| 0 <= i < before.len() implies (#[trigger] self.numbers@[i])
                == if before[i] == from {
                into
            } else {
                before[i]
            } by {
                if before[i] == from {
                    assert(old(self).members@[before[i] as int]@.contains(i as u32));
                } else if moved.contains(i as u32) {
                    let k = choose|k: int| 0 <= k < moved.len() && moved[k] == i as u32;
                    assert(old(self).members@[from as int]@[k] == i as u32);
                }
            }
            assert forall|i: int| 0 <= i < before.len() implies self.members@[(
            #[trigger] self.numbers@[i]) as int]@.contains(i as u32) by {
                assert(old(self).members@[before[i] as int]@.contains(i as u32));
                let list = old(self).members@[before[i] as int]@;
                let k = choose|k: int| 0 <= k < list.len() && list[k] == i as u32;
                if before[i] == from {
                    assert((kept + moved)[kept.len() + k] == i as u32);
                } else if before[i] == into {
                    assert((kept + moved)[k] == i as u32);
                } else {
                    assert(self.members@[before[i] as int]@ == list);
                }
            }
            assert forall|n: int, k: int|
                0 <= n < self.members@.len() && 0 <= k < self.members@[n]@.len() implies (
            #[trigger] self.members@[n]@[k]) < self.numbers@.len()
                && self.numbers@[self.members@[n]@[k] as int] == n by {
                if n == into {
                    if k < kept.len() {
                        assert(old(self).members@[into as int]@[k] == self.members@[n]@[k]);
                    } else {
                        assert(old(self).members@[from as int]@[k - kept.len()]
                            == self.members@[n]@[k]);
                    }
                } else if n != from {
                    assert(old(self).members@[n]@[k] == self.members@[n]@[k]);
                }
            }
        }
    }

    /// Joins the groups of two nodes: the smaller one moves.
    fn unite(&mut self, left: u32, right: u32)
        requires
            old(self).wf(),
            left < old(self).numbers@.len(),
            right < old(self).numbers@.len(),
        ensures
            final(self).wf(),
            final(self).numbers@.len() == old(self).numbers@.len(),
            final(self).numbers@[left as int] == final(self).numbers@[right as int],
            forall|i: int, j: int|
                0 <= i < old(self).numbers@.len() && 0 <= j < old(self).numbers@.len() && (
                #[trigger] old(self).numbers@[i]) == (#[trigger] old(self).numbers@[j])
                    ==> final(self).numbers@[i] == final(self).numbers@[j],
            forall|i: int, j: int|
                0 <= i < old(self).numbers@.len() && 0 <= j < old(self).numbers@.len() && (
                #[trigger] final(self).numbers@[i]) == (#[trigger] final(self).numbers@[j])
                    ==> joined_before(old(self).numbers@, left as int, right as int, i, j),
    {
        let first: u32 = self.numbers[left as usize];
        let second: u32 = self.numbers[right as usize];
        assert(first == self.numbers@[left as int]);
        assert(second == self.numbers@[right as int]);
        if first == second {
            return;
        }
        if self.members[first as usize].len() < self.members[second as usize].len() {
            self.join(first, second);
        } else {
            self.join(second, first);
        }
    }
}

/// Whether two nodes had the same number, or those of the two ends of an edge.
spec fn joined_before(numbers: Seq<u32>, left: int, right: int, i: int, j: int) -> bool {
    ||| numbers[i] == numbers[j]
    ||| numbers[i] == numbers[left] && numbers[j] == numbers[right]
    ||| numbers[i] == numbers[right] && numbers[j] == numbers[left]
}

/// Whether nodes with the same number are linked, and the ends of edges have
/// the same number.
spec fn sound_numbers(g: LinkGraph, numbers: Seq<u32>) -> bool {
    forall|a: u32, b: u32|
        a < g.live.len() && b < g.live.len() && (#[trigger] numbers[a as int]) == (
        #[trigger] numbers[b as int]) ==> linked(g, a, b)
}

/// Whether the ends of a node's first edges have the same number.
spec fn edges_joined(g: LinkGraph, numbers: Seq<u32>, node: u32, count: int) -> bool {
    forall|i: int|
        0 <= i < count && (#[trigger] (g.adjacency)(node)[i]).target < g.live.len()
            && g.live[(g.adjacency)(node)[i].target as int] && g.live[node as int]
            ==> numbers[(g.adjacency)(node)[i].target as int] == numbers[node as int]
}

/// Joining the ends of an edge keeps numbers sound.
proof fn lemma_unite_sound(
    g: LinkGraph,
    before: Seq<u32>,
    after: Seq<u32>,
    left: u32,
    right: u32,
)
    requires
        sound_numbers(g, before),
        left < g.live.len(),
        right < g.live.len(),
        touches(g, left, right),
        forall|i: int, j: int|
            0 <= i < g.live.len() && 0 <= j < g.live.len() && (#[trigger] after[i]) == (
            #[trigger] after[j]) ==> joined_before(before, left as int, right as int, i, j),
    ensures
        sound_numbers(g, after),
{
    lemma_linked_edge(g, left, right);
    lemma_linked_back(g, left, right);
    assert forall|a: u32, b: u32|
        a < g.live.len() && b < g.live.len() && (#[trigger] after[a as int]) == (
        #[trigger] after[b as int]) implies linked(g, a, b) by {
        assert(joined_before(before, left as int, right as int, a as int, b as int));
        if before[a as int] == before[b as int] {
        } else if before[a as int] == before[left as int] && before[b as int]
            == before[right as int] {
            lemma_linked_on(g, a, left, right);
            lemma_linked_on(g, a, right, b);
        } else {
            lemma_linked_on(g, a, right, left);
            lemma_linked_on(g, a, left, b);
        }
    }
}

/// Linked nodes have the same number once all edges are looked at.
proof fn lemma_chain_numbered(g: LinkGraph, numbers: Seq<u32>, chain: Seq<u32>, at: int)
    requires
        is_chain(g, chain),
        forall|node: u32|
            node < g.live.len() ==> #[trigger] edges_joined(
                g,
                numbers,
                node,
                (g.adjacency)(node).len() as int,
            ),
        0 <= at < chain.len(),
    ensures
        numbers[chain[0] as int] == numbers[chain[at] as int],
    decreases at,
{
    if at > 0 {
        lemma_chain_numbered(g, numbers, chain, at - 1);
        let a = chain[at - 1];
        let b = chain[at];
        assert(touches(g, chain[at - 1], chain[at - 1 + 1]));
        if leads(g, a, b) {
            let i = choose|i: int|
                0 <= i < (g.adjacency)(a).len() && (#[trigger] (g.adjacency)(a)[i]).target == b;
            assert(edges_joined(g, numbers, a, (g.adjacency)(a).len() as int));
        } else {
            let i = choose|i: int|
                0 <= i < (g.adjacency)(b).len() && (#[trigger] (g.adjacency)(b)[i]).target == a;
            assert(edges_joined(g, numbers, b, (g.adjacency)(b).len() as int));
        }
    }
}

/// What is left to do for a node is to look at its edges.
#[verifier::spinoff_prover]
fn join_neighbors<N: NeighborSource>(
    node_store: &NodeStore,
    neighbors: &N,
    node: u32,
    groups: &mut Groups,
    governor: &mut ResourceGovernor,
) -> (result: GraphResult<()>)
    requires
        node_store.addressable(),
        node_store.live(node),
        old(groups).wf(),
        old(groups).numbers@.len() == node_store.nodes().len(),
        sound_numbers(link_graph(node_store, neighbors), old(groups).numbers@),
        forall|other: u32|
            other < node ==> #[trigger] edges_joined(
                link_graph(node_store, neighbors),
                old(groups).numbers@,
                other,
                neighbors.adjacency(other).len() as int,
            ),
    ensures
        final(groups).wf(),
        final(groups).numbers@.len() == node_store.nodes().len(),
        charged(
            old(governor)@,
            final(governor)@,
            neighbors.adjacency(node).len() as int,
        ),
        match result {
            Ok(_) => old(governor)@.affords(neighbors.adjacency(node).len() as int) && final(
                governor)@ == old(governor)@.after_work(neighbors.adjacency(node).len() as int)
                && sound_numbers(link_graph(node_store, neighbors), final(groups).numbers@)
                && forall|other: u32|
                other <= node ==> #[trigger] edges_joined(
                    link_graph(node_store, neighbors),
                    final(groups).numbers@,
                    other,
                    neighbors.adjacency(other).len() as int,
                ),
            Err(error) => error@ == limit_error(
                ResourcePhase::AnalyticsWorkspace,
                ResourceKind::Work,
            ) && !old(governor)@.affords(neighbors.adjacency(node).len() as int),
        },
{
    let ghost g = link_graph(node_store, neighbors);
    let row: Vec<Neighbor> = neighbors.neighbors(node);
    let mut at: usize = 0;
    while at < row.len()
        invariant
            at <= row@.len(),
            node_store.addressable(),
            node_store.live(node),
            g == link_graph(node_store, neighbors),
            row@ == neighbors.adjacency(node),
            row@ == (g.adjacency)(node),
            groups.wf(),
            groups.numbers@.len() == node_store.nodes().len(),
            g.live.len() == node_store.nodes().len(),
            sound_numbers(g, groups.numbers@),
            forall|other: u32|
                other < node ==> #[trigger] edges_joined(
                    g,
                    groups.numbers@,
                    other,
                    neighbors.adjacency(other).len() as int,
                ),
            edges_joined(g, groups.numbers@, node, at as int),
            governor@ == old(governor)@.after_work(at as int),
            old(governor)@.affords(at as int),
        decreases row@.len() - at,
    {
        if let Err(error) = governor.consume_work(ResourcePhase::AnalyticsWorkspace, 1) {
            return Err(error);
        }
        let target: u32 = row[at].target;
        let ghost before = groups.numbers@;
        if node_store.is_active(target) {
            groups.unite(node, target);
            proof {
                assert((g.adjacency)(node)[at as int].target == target);
                assert(leads(g, node, target));
                lemma_unite_sound(g, before, groups.numbers@, node, target);
                assert forall|other: u32| other < node implies #[trigger] edges_joined(
                    g,
                    groups.numbers@,
                    other,
                    neighbors.adjacency(other).len() as int,
                ) by {
                    lemma_joined_stays(
                        g,
                        before,
                        groups.numbers@,
                        other,
                        neighbors.adjacency(other).len() as int,
                    );
                }
                lemma_joined_stays(g, before, groups.numbers@, node, at as int);
            }
        }
        at = at + 1;
    }
    proof {
        assert forall|other: u32| other <= node implies #[trigger] edges_joined(
            g,
            groups.numbers@,
            other,
            neighbors.adjacency(other).len() as int,
        ) by {
            if other == node {
                assert(row@.len() == neighbors.adjacency(other).len());
            }
        }
    }
    Ok(())
}

/// Edges whose ends have the same number keep it so.
proof fn lemma_joined_stays(
    g: LinkGraph,
    before: Seq<u32>,
    after: Seq<u32>,
    node: u32,
    count: int,
)
    requires
        node < g.live.len(),
        edges_joined(g, before, node, count),
        forall|i: int, j: int|
            0 <= i < g.live.len() && 0 <= j < g.live.len() && (#[trigger] before[i]) == (
            #[trigger] before[j]) ==> after[i] == after[j],
    ensures
        edges_joined(g, after, node, count),
{
    assert forall|i: int|
        0 <= i < count && (#[trigger] (g.adjacency)(node)[i]).target < g.live.len()
            && g.live[(g.adjacency)(node)[i].target as int] && g.live[node as int] implies after[(
    g.adjacency)(node)[i].target as int] == after[node as int] by {
        let target = (g.adjacency)(node)[i].target;
        assert(before[target as int] == before[node as int]);
    }
}

/// How many live nodes have each number.
fn class_sizes(node_store: &NodeStore, numbers: &Vec<u32>, Ghost(live): Ghost<Seq<bool>>) -> (sizes:
    Vec<u32>)
    requires
        node_store.addressable(),
        live == Seq::new(node_store.nodes().len(), |i: int| node_store.nodes()[i].active),
        numbers@.len() == live.len(),
        forall|i: int| 0 <= i < numbers@.len() ==> (#[trigger] numbers@[i]) < live.len(),
    ensures
        sizes@.len() == live.len(),
        forall|n: int|
            0 <= n < live.len() ==> (#[trigger] sizes@[n]) == class_size(
                live,
                numbers@,
                n,
                live.len(),
            ),
{
    let count: u32 = node_store.node_count();
    let mut sizes: Vec<u32> = Vec::new();
    let mut number: u32 = 0;
    while number < count
        invariant
            number <= count,
            sizes@.len() == number,
            forall|n: int| 0 <= n < number ==> (#[trigger] sizes@[n]) == 0,
        decreases count - number,
    {
        sizes.push(0);
        number = number + 1;
    }
    let mut node: u32 = 0;
    while node < count
        invariant
            node <= count,
            count == live.len(),
            node_store.addressable(),
            live == Seq::new(node_store.nodes().len(), |i: int| node_store.nodes()[i].active),
            numbers@.len() == live.len(),
            forall|i: int| 0 <= i < numbers@.len() ==> (#[trigger] numbers@[i]) < live.len(),
            sizes@.len() == live.len(),
            forall|n: int|
                0 <= n < live.len() ==> (#[trigger] sizes@[n]) == class_size(
                    live,
                    numbers@,
                    n,
                    node as nat,
                ),
        decreases count - node,
    {
        if node_store.is_active(node) {
            let number: usize = numbers[node as usize] as usize;
            proof {
                lemma_class_fits(live, numbers@, number as int, node as nat);
            }
            let grown: u32 = sizes[number] + 1;
            sizes.set(number, grown);
        }
        node = node + 1;
    }
    sizes
}

/// Finds the components of the live nodes of a store. Every edge that is
/// looked at is a unit of work.
pub fn compute_components_with_neighbors_governed<N: NeighborSource>(
    node_store: &NodeStore,
    neighbors: &N,
    governor: &mut ResourceGovernor,
) -> (result: GraphResult<ComponentResult>)
    requires
        node_store.addressable(),
    ensures
        ({
            let g = link_graph(node_store, neighbors);
            let work = links_work(g, g.live.len()) as int;
            &&& charged(old(governor)@, final(governor)@, work)
            &&& match result {
                Ok(components) => {
                    &&& components_of(g, components)
                    &&& old(governor)@.affords(work)
                    &&& final(governor)@ == old(governor)@.after_work(work)
                },
                Err(error) => {
                    &&& error@ == limit_error(
                        ResourcePhase::AnalyticsWorkspace,
                        ResourceKind::Work,
                    )
                    &&& !old(governor)@.affords(work)
                },
            }
        }),
{
    let ghost g = link_graph(node_store, neighbors);
    let count: u32 = node_store.node_count();
    let mut groups: Groups = Groups::singletons(count);
    proof {
        assert forall|a: u32, b: u32|
            a < g.live.len() && b < g.live.len() && (#[trigger] groups.numbers@[a as int]) == (
            #[trigger] groups.numbers@[b as int]) implies linked(g, a, b) by {
            lemma_linked_self(g, a);
        }
    }
    let mut node: u32 = 0;
    while node < count
        invariant
            node <= count,
            count == node_store.nodes().len(),
            node_store.addressable(),
            g == link_graph(node_store, neighbors),
            groups.wf(),
            groups.numbers@.len() == node_store.nodes().len(),
            sound_numbers(g, groups.numbers@),
            forall|other: u32|
                other < node ==> #[trigger] edges_joined(
                    g,
                    groups.numbers@,
                    other,
                    neighbors.adjacency(other).len() as int,
                ),
            governor@ == old(governor)@.after_work(links_work(g, node as nat) as int),
            old(governor)@.affords(links_work(g, node as nat) as int),
        decreases count - node,
    {
        proof {
            lemma_links_work(g, (node + 1) as nat, count as nat);
            assert(g.live[node as int] == node_store.live(node));
            assert((g.adjacency)(node) == neighbors.adjacency(node));
        }
        if node_store.is_active(node) {
            if let Err(error) = join_neighbors(node_store, neighbors, node, &mut groups, governor) {
                return Err(error);
            }
        }
        node = node + 1;
    }
    proof {
        assert forall|a: u32, b: u32|
            a < g.live.len() && b < g.live.len() && g.live[a as int] && g.live[b as int] implies (
        #[trigger] groups.numbers@[a as int] == #[trigger] groups.numbers@[b as int] <==> linked(
            g,
            a,
            b,
        )) by {
            if linked(g, a, b) {
                let chain = choose|chain: Seq<u32>| #[trigger]
                    is_chain(g, chain) && chain.len() > 0 && chain[0] == a && chain.last() == b;
                assert forall|other: u32| other < g.live.len() implies #[trigger] edges_joined(
                    g,
                    groups.numbers@,
                    other,
                    (g.adjacency)(other).len() as int,
                ) by {
                    assert((g.adjacency)(other) == neighbors.adjacency(other));
                }
                lemma_chain_numbered(g, groups.numbers@, chain, chain.len() - 1);
            }
        }
    }
    let sizes: Vec<u32> = class_sizes(node_store, &groups.numbers, Ghost(g.live));
    let mut found: u32 = 0;
    let mut largest: u32 = 0;
    let mut number: u32 = 0;
    while number < count
        invariant
            number <= count,
            count == g.live.len(),
            sizes@.len() == count,
            forall|n: int|
                0 <= n < g.live.len() ==> (#[trigger] sizes@[n]) == class_size(
                    g.live,
                    groups.numbers@,
                    n,
                    g.live.len(),
                ),
            found == classes(g.live, groups.numbers@, number as nat),
            largest == largest_class(g.live, groups.numbers@, number as nat),
        decreases count - number,
    {
        proof {
            lemma_classes_fit(g.live, groups.numbers@, number as nat);
        }
        let size: u32 = sizes[number as usize];
        if size > 0 {
            found = found + 1;
        }
        if size > largest {
            largest = size;
        }
        number = number + 1;
    }
    Ok(
        ComponentResult {
            num_components: found,
            largest_component_size: largest,
            component_of: groups.numbers,
        },
    )
}

} // verus!
