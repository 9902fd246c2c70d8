//! Which nodes belong to which table and to which tenant.
use roaring::RoaringBitmap;
use std::collections::HashMap;
use vstd::prelude::*;

use crate::bitmap::bitmap_contents;
use crate::limits::{bounded_sum, map_capacity, map_room, sum, vector_room};
use crate::rooms::{adds, lemma_adds, push_list, push_text, text_need, Need, Room};
use crate::text::same_text;

verus! {

broadcast use vstd::std_specs::hash::group_hash_axioms;

/// The nodes of each table.
#[derive(Debug)]
pub struct TableMembership {
    tables: HashMap<u32, RoaringBitmap>,
}

impl View for TableMembership {
    type V = Map<u32, Set<u32>>;

    closed spec fn view(&self) -> Map<u32, Set<u32>> {
        Map::new(
            |table: u32| self.tables@.contains_key(table),
            |table: u32| bitmap_contents(self.tables@[table]),
        )
    }
}

/// The nodes of a key; none if the key is not known.
pub open spec fn members<K>(map: Map<K, Set<u32>>, key: K) -> Set<u32> {
    if map.contains_key(key) {
        map[key]
    } else {
        Set::empty()
    }
}

/// The map with one more node for a key.
pub open spec fn with_member<K>(map: Map<K, Set<u32>>, key: K, node: u32) -> Map<K, Set<u32>> {
    map.insert(key, members(map, key).insert(node))
}

/// The map with one node less for a key.
pub open spec fn without_member<K>(map: Map<K, Set<u32>>, key: K, node: u32) -> Map<K, Set<u32>> {
    if map.contains_key(key) {
        map.insert(key, map[key].remove(node))
    } else {
        map
    }
}

impl TableMembership {
    /// No tables.
    pub fn new() -> (membership: Self)
        ensures
            membership@ == Map::<u32, Set<u32>>::empty(),
    {
        let membership = TableMembership { tables: HashMap::new() };
        assert(membership@ =~= Map::<u32, Set<u32>>::empty());
        membership
    }

    /// Adds a node to a table.
    pub fn insert(&mut self, table: u32, node: u32)
        ensures
            final(self)@ == with_member(old(self)@, table, node),
    {
        let mut nodes: RoaringBitmap = match self.tables.remove(&table) {
            Some(nodes) => nodes,
            None => RoaringBitmap::new(),
        };
        nodes.insert(node);
        self.tables.insert(table, nodes);
        assert(self@ =~= with_member(old(self)@, table, node));
    }

    /// Takes a node out of a table.
    pub fn remove(&mut self, table: u32, node: u32)
        ensures
            final(self)@ == without_member(old(self)@, table, node),
    {
        match self.tables.remove(&table) {
            Some(nodes) => {
                let mut nodes: RoaringBitmap = nodes;
                nodes.remove(node);
                self.tables.insert(table, nodes);
            },
            None => {},
        }
        assert(self@ =~= without_member(old(self)@, table, node));
    }

    /// Whether a node belongs to a table.
    pub fn contains(&self, table: u32, node: u32) -> (found: bool)
        ensures
            found == members(self@, table).contains(node),
    {
        match self.tables.get(&table) {
            Some(nodes) => nodes.contains(node),
            None => false,
        }
    }

    /// Number of tables.
    pub fn len(&self) -> (count: usize)
        ensures
            count == self@.dom().len(),
    {
        assert(self@.dom() =~= self.tables@.dom());
        self.tables.len()
    }
}

/// The nodes of each tenant.
#[derive(Debug)]
pub struct TenantMembership {
    tenants: Vec<(String, RoaringBitmap)>,
}

/// Where a name first stands.
spec fn tenant_at(tenants: Seq<(String, RoaringBitmap)>, name: Seq<char>, at: int) -> bool {
    0 <= at < tenants.len() && tenants[at].0@ == name
}

impl View for TenantMembership {
    type V = Map<Seq<char>, Set<u32>>;

    closed spec fn view(&self) -> Map<Seq<char>, Set<u32>> {
        Map::new(
            |name: Seq<char>| exists|at: int| #[trigger] tenant_at(self.tenants@, name, at),
            |name: Seq<char>|
                bitmap_contents(
                    self.tenants@[choose|at: int| #[trigger] tenant_at(self.tenants@, name, at)].1,
                ),
        )
    }
}

impl TenantMembership {
    /// Whether no tenant occurs twice.
    pub closed spec fn wf(&self) -> bool {
        forall|i: int, j: int|
            0 <= i < j < self.tenants@.len() ==> (#[trigger] self.tenants@[i]).0@ != (
            #[trigger] self.tenants@[j]).0@
    }

    /// No tenants.
    pub fn new() -> (membership: Self)
        ensures
            membership.wf(),
            membership@ == Map::<Seq<char>, Set<u32>>::empty(),
    {
        let membership = TenantMembership { tenants: Vec::new() };
        assert(membership@ =~= Map::<Seq<char>, Set<u32>>::empty());
        membership
    }

    /// The place of a tenant.
    fn find(&self, tenant: &str) -> (found: Option<usize>)
        requires
            self.wf(),
        ensures
            match found {
                Some(at) => tenant_at(self.tenants@, tenant@, at as int) && self@.contains_key(
                    tenant@,
                ) && self@[tenant@] == bitmap_contents(self.tenants@[at as int].1),
                None => !self@.contains_key(tenant@),
            },
    {
        let mut at: usize = 0;
        while at < self.tenants.len()
            invariant
                at <= self.tenants@.len(),
                self.wf(),
                forall|i: int| 0 <= i < at ==> (#[trigger] self.tenants@[i]).0@ != tenant@,
            decreases self.tenants@.len() - at,
        {
            if same_text(self.tenants[at].0.as_str(), tenant) {
                proof {
                    assert(tenant_at(self.tenants@, tenant@, at as int));
                    let other = choose|other: int| #[trigger]
                        tenant_at(self.tenants@, tenant@, other);
                    assert(other == at);
                }
                return Some(at);
            }
            at = at + 1;
        }
        proof {
            if self@.contains_key(tenant@) {
                let other = choose|other: int| #[trigger] tenant_at(self.tenants@, tenant@, other);
                assert(self.tenants@[other].0@ == tenant@);
            }
        }
        None
    }

    /// Adds a node to a tenant.
    pub fn insert(&mut self, tenant: &str, node: u32)
        requires
            old(self).wf(),
        ensures
            final(self).wf(),
            final(self)@ == with_member(old(self)@, tenant@, node),
    {
        let ghost before = self.tenants@;
        match self.find(tenant) {
            Some(at) => {
                self.tenants[at].1.insert(node);
                proof {
                    lemma_updated(before, self.tenants@, at as int);
                    assert(tenant_at(before, tenant@, at as int));
                    assert(self@ =~= with_member(old(self)@, tenant@, node)) by {
                        lemma_view(*old(self));
                        lemma_view(*self);
                        assert(tenant_at(self.tenants@, tenant@, at as int));
                        assert forall|name: Seq<char>| #[trigger]
                            old(self)@.contains_key(name) <==> self@.contains_key(name) by {
                            if old(self)@.contains_key(name) {
                                let i = choose|i: int| #[trigger] tenant_at(before, name, i);
                                assert(tenant_at(self.tenants@, name, i));
                            }
                            if self@.contains_key(name) {
                                let i = choose|i: int| #[trigger] tenant_at(self.tenants@, name, i);
                                assert(tenant_at(before, name, i));
                            }
                        }
                        assert forall|name: Seq<char>|
                            old(self)@.contains_key(name) && name != tenant@ implies
                            #[trigger] self@[name] == old(self)@[name] by {
                            let i = choose|i: int| #[trigger] tenant_at(before, name, i);
                            assert(tenant_at(self.tenants@, name, i));
                        }
                    }
                }
            },
            None => {
                let mut nodes = RoaringBitmap::new();
                nodes.insert(node);
                self.tenants.push((tenant.to_owned(), nodes));
                proof {
                    assert(self.wf()) by {
                        assert forall|i: int, j: int| 0 <= i < j < self.tenants@.len() implies (
                        #[trigger] self.tenants@[i]).0@ != (#[trigger] self.tenants@[j]).0@ by {
                            if j == before.len() && self.tenants@[i].0@ == tenant@ {
                                assert(tenant_at(before, tenant@, i));
                            }
                        }
                    }
                    lemma_view(*old(self));
                    lemma_view(*self);
                    let last = before.len() as int;
                    assert(tenant_at(self.tenants@, tenant@, last));
                    assert forall|name: Seq<char>| #[trigger]
                        self@.contains_key(name) <==> old(self)@.contains_key(name) || name
                            == tenant@ by {
                        if old(self)@.contains_key(name) {
                            let i = choose|i: int| #[trigger] tenant_at(before, name, i);
                            assert(tenant_at(self.tenants@, name, i));
                        }
                        if self@.contains_key(name) && name != tenant@ {
                            let i = choose|i: int| #[trigger] tenant_at(self.tenants@, name, i);
                            assert(tenant_at(before, name, i));
                        }
                    }
                    assert forall|name: Seq<char>| old(self)@.contains_key(name) implies
                        #[trigger] self@[name] == old(self)@[name] by {
                        let i = choose|i: int| #[trigger] tenant_at(before, name, i);
                        assert(tenant_at(self.tenants@, name, i));
                    }
                    assert(self@ =~= with_member(old(self)@, tenant@, node));
                }
            },
        }
    }

    /// Takes a node out of a tenant.
    pub fn remove(&mut self, tenant: &str, node: u32)
        requires
            old(self).wf(),
        ensures
            final(self).wf(),
            final(self)@ == without_member(old(self)@, tenant@, node),
    {
        let ghost before = self.tenants@;
        if let Some(at) = self.find(tenant) {
            self.tenants[at].1.remove(node);
            proof {
                lemma_updated(before, self.tenants@, at as int);
                lemma_view(*old(self));
                lemma_view(*self);
                assert(tenant_at(self.tenants@, tenant@, at as int));
                assert forall|name: Seq<char>| #[trigger]
                    old(self)@.contains_key(name) <==> self@.contains_key(name) by {
                    if old(self)@.contains_key(name) {
                        let i = choose|i: int| #[trigger] tenant_at(before, name, i);
                        assert(tenant_at(self.tenants@, name, i));
                    }
                    if self@.contains_key(name) {
                        let i = choose|i: int| #[trigger] tenant_at(self.tenants@, name, i);
                        assert(tenant_at(before, name, i));
                    }
                }
                assert forall|name: Seq<char>|
                    old(self)@.contains_key(name) && name != tenant@ implies
                    #[trigger] self@[name] == old(self)@[name] by {
                    let i = choose|i: int| #[trigger] tenant_at(before, name, i);
                    assert(tenant_at(self.tenants@, name, i));
                }
                assert(self@ =~= without_member(old(self)@, tenant@, node));
            }
        }
    }

    /// Makes a tenant known, and takes a node out of it.
    pub fn clear(&mut self, tenant: &str, node: u32)
        requires
            old(self).wf(),
        ensures
            final(self).wf(),
            final(self)@ == old(self)@.insert(
                tenant@,
                members(old(self)@, tenant@).remove(node),
            ),
    {
        self.insert(tenant, node);
        let ghost middle = self@;
        self.remove(tenant, node);
        assert(self@ =~= old(self)@.insert(tenant@, members(old(self)@, tenant@).remove(node))) by {
            assert(middle[tenant@].remove(node) =~= members(old(self)@, tenant@).remove(node));
        }
    }

    /// Whether a node belongs to a tenant.
    pub fn contains(&self, tenant: &str, node: u32) -> (found: bool)
        requires
            self.wf(),
        ensures
            found == members(self@, tenant@).contains(node),
    {
        match self.find(tenant) {
            Some(at) => self.tenants[at].1.contains(node),
            None => false,
        }
    }

    /// Number of tenants.
    pub fn len(&self) -> (count: usize)
        requires
            self.wf(),
        ensures
            count == self@.dom().len(),
    {
        proof {
            let names = Seq::new(self.tenants@.len(), |i: int| self.tenants@[i].0@);
            assert(names.no_duplicates()) by {
                assert forall|i: int, j: int|
                    0 <= i < names.len() && 0 <= j < names.len() && i != j implies names[i]
                    != names[j] by {
                    if i < j {
                        assert(self.tenants@[i].0@ != self.tenants@[j].0@);
                    } else {
                        assert(self.tenants@[j].0@ != self.tenants@[i].0@);
                    }
                }
            }
            names.unique_seq_to_set();
            assert forall|name: Seq<char>|
                names.to_set().contains(name) <==> self@.dom().contains(name) by {
                if names.to_set().contains(name) {
                    let i = choose|i: int| 0 <= i < names.len() && names[i] == name;
                    assert(tenant_at(self.tenants@, name, i));
                }
                if self@.dom().contains(name) {
                    let at = choose|at: int| #[trigger] tenant_at(self.tenants@, name, at);
                    assert(names[at] == name);
                }
            }
            assert(names.to_set() =~= self@.dom());
        }
        self.tenants.len()
    }
}

/// Names stay where they are when one tenant's nodes change.
proof fn lemma_updated(
    before: Seq<(String, RoaringBitmap)>,
    after: Seq<(String, RoaringBitmap)>,
    at: int,
)
    requires
        0 <= at < before.len(),
        after == before.update(at, after[at]),
        after[at].0 == before[at].0,
    ensures
        forall|name: Seq<char>, i: int| #[trigger]
            tenant_at(after, name, i) <==> tenant_at(before, name, i),
{
}

/// The nodes of a tenant are those at its place.
proof fn lemma_view(membership: TenantMembership)
    requires
        membership.wf(),
    ensures
        forall|name: Seq<char>, at: int| #[trigger]
            tenant_at(membership.tenants@, name, at) ==> membership@.contains_key(name)
                && membership@[name] == bitmap_contents(membership.tenants@[at].1),
{
    assert forall|name: Seq<char>, at: int| #[trigger]
        tenant_at(membership.tenants@, name, at) implies membership@.contains_key(name)
        && membership@[name] == bitmap_contents(membership.tenants@[at].1) by {
        let other = choose|other: int| #[trigger] tenant_at(membership.tenants@, name, other);
        assert(tenant_at(membership.tenants@, name, other));
        assert(other == at);
    }
}

impl TableMembership {
    /// What the tables take: an entry each.
    pub open spec fn needs(&self) -> Seq<Need> {
        seq![
            Need::Items {
                count: self@.len(),
                unit: bounded_sum(
                    vstd::layout::size_of::<u32>(),
                    vstd::layout::size_of::<RoaringBitmap>(),
                ),
            },
        ]
    }

    /// Adds the room of the table entries.
    pub fn push_rooms(&self, rooms: &mut Vec<Room>)
        ensures
            adds(old(rooms)@, final(rooms)@, self.needs()),
    {
        proof {
            assert(self@.dom() =~= self.tables@.dom());
        }
        rooms.push(
            Room::Items {
                capacity: map_capacity(&self.tables),
                unit: sum(core::mem::size_of::<u32>(), core::mem::size_of::<RoaringBitmap>()),
            },
        );
    }
}

impl TenantMembership {
    /// What the tenants take: a name and a bitmap each.
    pub closed spec fn needs(&self) -> Seq<Need> {
        seq![
            Need::Items {
                count: self.tenants@.len(),
                unit: vstd::layout::size_of::<(String, RoaringBitmap)>(),
            },
        ] + Seq::new(self.tenants@.len(), |i: int| text_need(self.tenants@[i].0@))
    }

    /// Adds the room of the tenant entries.
    pub fn push_rooms(&self, rooms: &mut Vec<Room>)
        ensures
            adds(old(rooms)@, final(rooms)@, self.needs()),
    {
        let ghost start = rooms@;
        let ghost all = self.needs();
        push_list(rooms, &self.tenants);
        let mut at: usize = 0;
        assert(all.take(1) =~= seq![all[0]]);
        while at < self.tenants.len()
            invariant
                at <= self.tenants@.len(),
                all == self.needs(),
                adds(start, rooms@, all.take(at + 1)),
            decreases self.tenants@.len() - at,
        {
            let ghost before = rooms@;
            push_text(rooms, &self.tenants[at].0);
            proof {
                let own = seq![all[at + 1]];
                lemma_adds(start, before, rooms@, all.take(at + 1), own);
                assert(all.take(at + 2) =~= all.take(at + 1) + own);
            }
            at = at + 1;
        }
        assert(all.take(all.len() as int) =~= all);
    }
}

impl TableMembership {
    /// Makes room for one more table, if memory allows.
    pub fn try_reserve_one(&mut self) -> (made: bool)
        ensures
            final(self)@ == old(self)@,
    {
        map_room(&mut self.tables)
    }
}

impl TenantMembership {
    /// Makes room for one more tenant, if memory allows.
    pub fn try_reserve_one(&mut self) -> (made: bool)
        requires
            old(self).wf(),
        ensures
            final(self)@ == old(self)@,
            final(self).wf(),
    {
        vector_room(&mut self.tenants)
    }
}

} // verus!
