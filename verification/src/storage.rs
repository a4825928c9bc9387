//! Entity storage: the in-memory store of encoded entities, the client of a
//! remote store, and which replicas a write goes to for a consistency level.
use vstd::prelude::*;
use vstd::string::*;

use crate::addressing::{find_node, replica_address, replica_placement, Address, AddressAllocator, AddressError, AddressErrorView, AddressView};
use crate::cluster_model::{NodeId, WorkerId};
use crate::topology::TopologyView;
use crate::keyed::{distinct_keys, has_key, keyed_map, lemma_keyed_at, lemma_keyed_push, lemma_keyed_remove, lemma_keyed_update};
use crate::text::{starts_with, str_eq};

verus! {

/// How many replicas a write must reach.
#[derive(Debug, Clone, Copy, PartialEq, Eq, Structural)]
pub enum ConsistencyLevel {
    /// The primary alone.
    Primary,
    /// A majority of the replicas.
    Quorum,
    /// Every replica.
    All,
}

/// An identifier of stored entities.
pub trait EntityId: Sized {
    /// The identifier as text.
    fn as_str(&self) -> &str;

    /// The identifier that a text names.
    fn from_string(s: String) -> Self;
}

impl EntityId for String {
    fn as_str(&self) -> (r: &str)
        ensures
            r@ == self@,
    {
        self.as_str()
    }

    fn from_string(s: String) -> (r: String)
        ensures
            r@ == s@,
    {
        s
    }
}

/// The key an entity is stored under: its type, `::`, and its id.
pub open spec fn entity_key_spec(entity_type: Seq<char>, id: Seq<char>) -> Seq<char> {
    entity_type + "::"@ + id
}

/// The key an entity is stored under.
pub fn entity_key(entity_type: &str, id: &str) -> (r: String)
    ensures
        r@ == entity_key_spec(entity_type@, id@),
{
    let mut k = String::from_str(entity_type);
    k.append("::");
    k.append(id);
    k
}

/// The replicas a write goes to for a consistency level: the primary (the
/// first); the first majority, one more than half; or all of them.
pub open spec fn write_targets(locations: Seq<AddressView>, consistency: ConsistencyLevel) -> Seq<AddressView> {
    match consistency {
        ConsistencyLevel::Primary => seq![locations[0]],
        ConsistencyLevel::Quorum => {
            let q = 1 + locations.len() / 2;
            locations.take(if q < locations.len() { q as int } else { locations.len() as int })
        },
        ConsistencyLevel::All => locations,
    }
}

/// The views of a list of addresses.
pub open spec fn address_views(v: Seq<Address>) -> Seq<AddressView> {
    v.map_values(|a: Address| a@)
}

/// Copies of the replicas a write goes to.
pub fn select_write_locations(locations: &Vec<Address>, consistency: ConsistencyLevel) -> (r: Vec<Address>)
    requires
        consistency == ConsistencyLevel::Primary ==> locations@.len() > 0,
    ensures
        address_views(r@) == write_targets(address_views(locations@), consistency),
{
    let n: usize = match consistency {
        ConsistencyLevel::Primary => 1,
        ConsistencyLevel::Quorum => {
            let q = 1 + locations.len() / 2;
            if q < locations.len() {
                q
            } else {
                locations.len()
            }
        },
        ConsistencyLevel::All => locations.len(),
    };
    let mut r: Vec<Address> = Vec::new();
    let mut i: usize = 0;
    while i < n
        invariant
            n <= locations@.len(),
            i <= n,
            address_views(r@) == address_views(locations@).take(i as int),
        decreases n - i,
    {
        let a = locations[i].duplicate();
        let ghost before = address_views(r@);
        r.push(a);
        assert(address_views(r@) =~= before.push(locations@[i as int]@));
        assert(address_views(r@) =~= address_views(locations@).take(i + 1));
        i = i + 1;
    }
    assert(address_views(r@) =~= write_targets(address_views(locations@), consistency));
    r
}

/// Why an entity could not be saved.
#[derive(Debug, Clone, Copy, PartialEq, Eq, Structural)]
pub enum SaveError {
    /// Addresses were allocated, yet none is to be written.
    NoWriteLocations,
    /// No address was allocated for the entity.
    NoAddresses,
}

/// The replicas that saving an entity writes to, given the addresses
/// allocated for it; an error where there is nothing to write.
pub fn plan_save(locations: &Vec<Address>, consistency: ConsistencyLevel) -> (r: Result<Vec<Address>, SaveError>)
    requires
        consistency == ConsistencyLevel::Primary ==> locations@.len() > 0,
    ensures
        match r {
            Ok(w) => address_views(w@) == write_targets(address_views(locations@), consistency) && w@.len() > 0,
            Err(SaveError::NoAddresses) => locations@.len() == 0,
            Err(SaveError::NoWriteLocations) => false,
        },
{
    let w = select_write_locations(locations, consistency);
    assert(address_views(w@).len() == w@.len());
    assert(address_views(locations@).len() == locations@.len());
    if w.len() == 0 && locations.len() > 0 {
        return Err(SaveError::NoWriteLocations);
    }
    if w.len() == 0 && locations.len() == 0 {
        return Err(SaveError::NoAddresses);
    }
    Ok(w)
}

/// The value of a stored pair.
pub open spec fn pair_view(p: (String, Vec<u8>)) -> (Seq<char>, Seq<u8>) {
    (p.0@, p.1@)
}

/// Encoded entities kept in memory by key.
#[derive(Debug)]
pub struct MemoryStore {
    entities: Vec<(String, Vec<u8>)>,
}

/// The values among `pairs` whose keys begin with `prefix`, in order.
pub open spec fn prefixed_values(pairs: Seq<(Seq<char>, Seq<u8>)>, prefix: Seq<char>) -> Seq<Seq<u8>>
    decreases pairs.len(),
{
    if pairs.len() == 0 {
        Seq::empty()
    } else if prefix.is_prefix_of(pairs.last().0) {
        prefixed_values(pairs.drop_last(), prefix).push(pairs.last().1)
    } else {
        prefixed_values(pairs.drop_last(), prefix)
    }
}

/// The page of `all` that starts at `offset` and holds at most `limit`
/// entries, and whether entries follow it.
pub open spec fn page_of<T>(all: Seq<T>, offset: int, limit: int) -> (Seq<T>, bool) {
    let start = if offset < all.len() { offset } else { all.len() as int };
    let end = if offset + limit < all.len() { offset + limit } else { all.len() as int };
    (all.subrange(start, end), end < all.len())
}

fn copy_bytes_of(v: &[u8]) -> (r: Vec<u8>)
    ensures
        r@ == v@,
{
    let mut r: Vec<u8> = Vec::new();
    let mut i: usize = 0;
    while i < v.len()
        invariant
            i <= v@.len(),
            r@ == v@.take(i as int),
        decreases v.len() - i,
    {
        r.push(v[i]);
        assert(r@ =~= v@.take(i + 1));
        i = i + 1;
    }
    assert(v@.take(v@.len() as int) =~= v@);
    r
}

fn copy_bytes(v: &Vec<u8>) -> (r: Vec<u8>)
    ensures
        r@ == v@,
{
    let mut r: Vec<u8> = Vec::new();
    let mut i: usize = 0;
    while i < v.len()
        invariant
            i <= v@.len(),
            r@ == v@.take(i as int),
        decreases v.len() - i,
    {
        r.push(v[i]);
        assert(r@ =~= v@.take(i + 1));
        i = i + 1;
    }
    assert(v@.take(v@.len() as int) =~= v@);
    r
}

impl MemoryStore {
    /// The pairs kept, in the order their keys were first stored.
    pub closed spec fn records(&self) -> Seq<(Seq<char>, Seq<u8>)> {
        self.entities@.map_values(|p: (String, Vec<u8>)| pair_view(p))
    }

    /// The stored values by key.
    pub open spec fn contents(&self) -> Map<Seq<char>, Seq<u8>> {
        keyed_map(self.records())
    }

    /// No key is stored twice.
    #[verifier::type_invariant]
    closed spec fn wf(self) -> bool {
        distinct_keys(self.entities@.map_values(|p: (String, Vec<u8>)| pair_view(p)))
    }

    /// An empty store.
    pub fn new() -> (r: MemoryStore)
        ensures
            r.records().len() == 0,
            r.contents() == Map::<Seq<char>, Seq<u8>>::empty(),
    {
        let r = MemoryStore { entities: Vec::new() };
        assert(r.records() =~= Seq::<(Seq<char>, Seq<u8>)>::empty());
        assert(r.contents() =~= Map::<Seq<char>, Seq<u8>>::empty());
        r
    }

    fn find(&self, key: &str) -> (r: Option<usize>)
        ensures
            match r {
                Some(i) => i < self.records().len() && self.records()[i as int].0 == key@,
                None => !has_key(self.records(), key@),
            },
    {
        let ghost rs = self.records();
        let mut i: usize = 0;
        while i < self.entities.len()
            invariant
                i <= self.entities@.len(),
                rs == self.records(),
                forall|j: int| 0 <= j < i ==> #[trigger] rs[j].0 != key@,
            decreases self.entities.len() - i,
        {
            assert(rs[i as int].0 == self.entities@[i as int].0@);
            if str_eq(self.entities[i].0.as_str(), key) {
                return Some(i);
            }
            i = i + 1;
        }
        None
    }

    /// Stores `data` under `key`, replacing what was there.
    pub fn raw_entities_save(&mut self, key: String, data: Vec<u8>)
        ensures
            final(self).contents() == old(self).contents().insert(key@, data@),
    {
        proof {
            use_type_invariant(&*self);
        }
        let ghost rs = self.records();
        let ghost kv = (key@, data@);
        let found = self.find(key.as_str());
        let mut v: Vec<(String, Vec<u8>)> = Vec::new();
        std::mem::swap(&mut v, &mut self.entities);
        assert(v@.map_values(|p: (String, Vec<u8>)| pair_view(p)) == rs);
        match found {
            Some(i) => {
                v.set(i, (key, data));
                proof {
                    lemma_keyed_update(rs, i as int, kv.1);
                    assert(v@.map_values(|p: (String, Vec<u8>)| pair_view(p)) =~= rs.update(i as int, (rs[i as int].0, kv.1)));
                }
            },
            None => {
                v.push((key, data));
                proof {
                    lemma_keyed_push(rs, kv.0, kv.1);
                    assert(v@.map_values(|p: (String, Vec<u8>)| pair_view(p)) =~= rs.push(kv));
                }
            },
        }
        self.entities = v;
    }

    /// A copy of what is stored under `key`.
    pub fn raw_entities_get(&self, key: &str) -> (r: Option<Vec<u8>>)
        ensures
            match r {
                Some(d) => self.contents().dom().contains(key@) && self.contents()[key@] == d@,
                None => !self.contents().dom().contains(key@),
            },
    {
        proof {
            use_type_invariant(self);
        }
        match self.find(key) {
            Some(i) => {
                proof {
                    lemma_keyed_at(self.records(), i as int);
                }
                Some(copy_bytes(&self.entities[i].1))
            },
            None => None,
        }
    }

    /// Removes what is stored under `key`.
    pub fn raw_entities_delete(&mut self, key: &str)
        ensures
            final(self).contents() == old(self).contents().remove(key@),
    {
        proof {
            use_type_invariant(&*self);
        }
        let ghost rs = self.records();
        match self.find(key) {
            Some(i) => {
                proof {
                    lemma_keyed_remove(rs, i as int);
                }
                let mut v: Vec<(String, Vec<u8>)> = Vec::new();
                std::mem::swap(&mut v, &mut self.entities);
                assert(v@.map_values(|p: (String, Vec<u8>)| pair_view(p)) == rs);
                v.remove(i);
                assert(v@.map_values(|p: (String, Vec<u8>)| pair_view(p)) =~= rs.remove(i as int));
                self.entities = v;
            },
            None => {
                assert(old(self).contents().remove(key@) =~= old(self).contents());
            },
        }
    }

    /// Whether something is stored under `key`.
    pub fn raw_entities_contains(&self, key: &str) -> (r: bool)
        ensures
            r == self.contents().dom().contains(key@),
    {
        proof {
            use_type_invariant(self);
        }
        self.find(key).is_some()
    }

    /// Stores the encoded entity of type `entity_type` and id `id`.
    pub fn put(&mut self, entity_type: &str, id: &str, data: Vec<u8>)
        ensures
            final(self).contents() == old(self).contents().insert(entity_key_spec(entity_type@, id@), data@),
    {
        let key = entity_key(entity_type, id);
        self.raw_entities_save(key, data);
    }

    /// The encoded entity of type `entity_type` and id `id`.
    pub fn get(&self, entity_type: &str, id: &str) -> (r: Option<Vec<u8>>)
        ensures
            match r {
                Some(d) => self.contents().dom().contains(entity_key_spec(entity_type@, id@)) && self.contents()[entity_key_spec(
                    entity_type@,
                    id@,
                )] == d@,
                None => !self.contents().dom().contains(entity_key_spec(entity_type@, id@)),
            },
    {
        let key = entity_key(entity_type, id);
        self.raw_entities_get(key.as_str())
    }

    /// Removes the entity of type `entity_type` and id `id`.
    pub fn del(&mut self, entity_type: &str, id: &str)
        ensures
            final(self).contents() == old(self).contents().remove(entity_key_spec(entity_type@, id@)),
    {
        let key = entity_key(entity_type, id);
        self.raw_entities_delete(key.as_str());
    }

    /// Copies of the encoded entities of type `entity_type`: those stored
    /// under `entity_type::`, in the store's order.
    pub fn list_all(&self, entity_type: &str) -> (r: Vec<Vec<u8>>)
        ensures
            r@.map_values(|v: Vec<u8>| v@) == prefixed_values(self.records(), entity_type@ + "::"@),
    {
        let mut prefix = String::from_str(entity_type);
        prefix.append("::");
        let ghost rs = self.records();
        let mut r: Vec<Vec<u8>> = Vec::new();
        let mut i: usize = 0;
        while i < self.entities.len()
            invariant
                i <= self.entities@.len(),
                rs == self.records(),
                prefix@ == entity_type@ + "::"@,
                r@.map_values(|v: Vec<u8>| v@) == prefixed_values(rs.take(i as int), prefix@),
            decreases self.entities.len() - i,
        {
            let ghost t = rs.take(i + 1);
            assert(t.drop_last() =~= rs.take(i as int));
            assert(t.last() == pair_view(self.entities@[i as int]));
            if starts_with(self.entities[i].0.as_str(), prefix.as_str()) {
                let ghost before = r@.map_values(|v: Vec<u8>| v@);
                r.push(copy_bytes(&self.entities[i].1));
                assert(r@.map_values(|v: Vec<u8>| v@) =~= before.push(self.entities@[i as int].1@));
            }
            i = i + 1;
        }
        assert(rs.take(rs.len() as int) =~= rs);
        r
    }

    /// A page of the encoded entities of type `entity_type`: at most `limit`
    /// of them from position `offset`, and whether more follow.
    pub fn list_paginated(&self, entity_type: &str, offset: usize, limit: usize) -> (r: (Vec<Vec<u8>>, bool))
        requires
            offset + limit <= usize::MAX,
        ensures
            r.0@.map_values(|v: Vec<u8>| v@) == page_of(
                prefixed_values(self.records(), entity_type@ + "::"@),
                offset as int,
                limit as int,
            ).0,
            r.1 == page_of(prefixed_values(self.records(), entity_type@ + "::"@), offset as int, limit as int).1,
    {
        let all = self.list_all(entity_type);
        let ghost av = all@.map_values(|v: Vec<u8>| v@);
        let total = all.len();
        let start = if offset < total { offset } else { total };
        let end = if offset + limit < total { offset + limit } else { total };
        let has_more = end < total;
        let mut page: Vec<Vec<u8>> = Vec::new();
        let mut i: usize = start;
        while i < end
            invariant
                start <= i <= end <= total,
                total == all@.len(),
                av == all@.map_values(|v: Vec<u8>| v@),
                page@.map_values(|v: Vec<u8>| v@) == av.subrange(start as int, i as int),
            decreases end - i,
        {
            let ghost before = page@.map_values(|v: Vec<u8>| v@);
            assert(av[i as int] == all@[i as int]@);
            page.push(copy_bytes(&all[i]));
            assert(page@.map_values(|v: Vec<u8>| v@) =~= before.push(all@[i as int]@));
            assert(page@.map_values(|v: Vec<u8>| v@) =~= av.subrange(start as int, i + 1));
            i = i + 1;
        }
        (page, has_more)
    }
}

/// A store that entities are replicated to. A reply of `Ok` means the
/// request was carried out; an error may leave the store in any state.
pub trait RemoteStoreClient: Sized {
    /// What the store holds, by key.
    spec fn remote_contents(&self) -> Map<Seq<char>, Seq<u8>>;

    /// Stores `data` under `key`.
    fn put(&mut self, key: &str, data: &[u8]) -> (r: Result<(), String>)
        ensures
            r is Ok ==> final(self).remote_contents() == old(self).remote_contents().insert(key@, data@),
    ;

    /// What is stored under `key`.
    fn get(&self, key: &str) -> (r: Result<Option<Vec<u8>>, String>)
        ensures
            r matches Ok(Some(d)) ==> self.remote_contents().dom().contains(key@) && self.remote_contents()[key@]
                == d@,
            r matches Ok(None) ==> !self.remote_contents().dom().contains(key@),
    ;

    /// Removes what is stored under `key`.
    fn del(&mut self, key: &str) -> (r: Result<(), String>)
        ensures
            r is Ok ==> final(self).remote_contents() == old(self).remote_contents().remove(key@),
    ;

    /// Whether the store answers.
    fn is_healthy(&self) -> bool;
}

/// A remote store kept in memory, for tests and single-process setups.
#[derive(Debug)]
pub struct MemoryRemoteClient {
    pub store: MemoryStore,
}

impl MemoryRemoteClient {
    /// A client of the given store.
    pub fn new(store: MemoryStore) -> (r: MemoryRemoteClient)
        ensures
            r.store == store,
    {
        MemoryRemoteClient { store }
    }
}

impl RemoteStoreClient for MemoryRemoteClient {
    open spec fn remote_contents(&self) -> Map<Seq<char>, Seq<u8>> {
        self.store.contents()
    }

    fn put(&mut self, key: &str, data: &[u8]) -> (r: Result<(), String>)
        ensures
            r is Ok,
            final(self).store.contents() == old(self).store.contents().insert(key@, data@),
    {
        let mut v: Vec<u8> = Vec::new();
        let mut i: usize = 0;
        while i < data.len()
            invariant
                i <= data@.len(),
                v@ == data@.take(i as int),
            decreases data.len() - i,
        {
            v.push(data[i]);
            assert(v@ =~= data@.take(i + 1));
            i = i + 1;
        }
        assert(data@.take(data@.len() as int) =~= data@);
        self.store.raw_entities_save(String::from_str(key), v);
        Ok(())
    }

    fn get(&self, key: &str) -> (r: Result<Option<Vec<u8>>, String>)
        ensures
            r matches Ok(o) && match o {
                Some(d) => self.store.contents().dom().contains(key@) && self.store.contents()[key@] == d@,
                None => !self.store.contents().dom().contains(key@),
            },
    {
        Ok(self.store.raw_entities_get(key))
    }

    fn del(&mut self, key: &str) -> (r: Result<(), String>)
        ensures
            r is Ok,
            final(self).store.contents() == old(self).store.contents().remove(key@),
    {
        self.store.raw_entities_delete(key);
        Ok(())
    }

    fn is_healthy(&self) -> (r: bool)
        ensures
            r,
    {
        true
    }
}

/// Consecutive pages add up: the page of `limit` entries at `offset`
/// followed by the page of `more` entries after it is the page of
/// `limit + more` entries at `offset`; and more entries follow a page exactly
/// when it ends before the last entry.
pub proof fn law_pages_concatenate<T>(all: Seq<T>, offset: nat, limit: nat, more: nat)
    ensures
        page_of(all, offset as int, limit as int).0 + page_of(all, (offset + limit) as int, more as int).0 =~= page_of(
            all,
            offset as int,
            (limit + more) as int,
        ).0,
        page_of(all, offset as int, limit as int).1 <==> offset + limit < all.len(),
{
}

/// The store gives back what was saved: after saving `data` under `key`,
/// reading `key` gives `data`, and reading any other key gives what it gave
/// before; after removing `key`, nothing is stored under it.
pub proof fn law_read_after_write(
    before: MemoryStore,
    after_save: MemoryStore,
    after_delete: MemoryStore,
    key: Seq<char>,
    data: Seq<u8>,
    other: Seq<char>,
)
    requires
        after_save.contents() == before.contents().insert(key, data),
        after_delete.contents() == after_save.contents().remove(key),
        other != key,
    ensures
        after_save.contents().dom().contains(key) && after_save.contents()[key] == data,
        after_save.contents().dom().contains(other) == before.contents().dom().contains(other),
        before.contents().dom().contains(other) ==> after_save.contents()[other] == before.contents()[other],
        !after_delete.contents().dom().contains(key),
        after_delete.contents().dom().contains(other) == before.contents().dom().contains(other),
{
}

/// Where an operation on a replica goes: the local store, the remote store
/// of a worker, or nowhere, for an address that names no worker.
#[derive(Debug, Clone)]
pub enum Route {
    Local,
    Remote(String),
    NoWorker,
}

/// The route to `location` from the worker `worker_id`: local when the
/// address names this worker, else the remote store of the worker it names.
pub fn route_location(location: &Address, worker_id: &str) -> (r: Route)
    ensures
        location@.worker == Some(worker_id@) ==> r is Local,
        location@.worker != Some(worker_id@) ==> match location@.worker {
            Some(w) => r matches Route::Remote(k) && k@ == w,
            None => r is NoWorker,
        },
{
    if location.is_local(worker_id) {
        Route::Local
    } else {
        match location.shard_key() {
            Some(k) => Route::Remote(k),
            None => Route::NoWorker,
        }
    }
}

/// The error text when an address to write to or delete from names no worker.
pub open spec fn invalid_write_address_message() -> Seq<char> {
    "Invalid address for remote write"@
}

/// The error text when an address to read from names no worker.
pub open spec fn invalid_read_address_message() -> Seq<char> {
    "Invalid address for remote read"@
}

/// The error text when no remote store is known for a worker.
pub open spec fn no_client_message(shard: Seq<char>) -> Seq<char> {
    "No remote client for shard: "@ + shard
}

/// Some address in `locs` lives on worker `w`.
pub open spec fn any_local(locs: Seq<AddressView>, w: Seq<char>) -> bool {
    exists|j: int| 0 <= j < locs.len() && #[trigger] locs[j].worker == Some(w)
}

/// Exactly one address in `locs` lives on worker `w`.
pub open spec fn names_once(locs: Seq<AddressView>, w: Seq<char>) -> bool {
    exists|j: int|
        0 <= j < locs.len() && #[trigger] locs[j].worker == Some(w) && forall|k: int|
            0 <= k < locs.len() && k != j ==> (#[trigger] locs[k]).worker != Some(w)
}

/// Adding an address to a list: a worker is named once after it where it is
/// the new address's worker and was not named before, or where it is
/// another worker named once before.
proof fn lemma_names_push(locs: Seq<AddressView>, x: AddressView, w: Seq<char>)
    ensures
        any_local(locs.push(x), w) == (any_local(locs, w) || x.worker == Some(w)),
        names_once(locs.push(x), w) == if x.worker == Some(w) {
            !any_local(locs, w)
        } else {
            names_once(locs, w)
        },
{
    let f = locs.push(x);
    let n = locs.len() as int;
    assert(f[n] == x);
    if any_local(locs, w) {
        let j = choose|j: int| 0 <= j < locs.len() && #[trigger] locs[j].worker == Some(w);
        assert(f[j] == locs[j]);
    }
    if any_local(f, w) && x.worker != Some(w) {
        let j = choose|j: int| 0 <= j < f.len() && #[trigger] f[j].worker == Some(w);
        assert(locs[j] == f[j]);
    }
    if x.worker == Some(w) {
        if !any_local(locs, w) {
            assert forall|k: int| 0 <= k < f.len() && k != n implies (#[trigger] f[k]).worker != Some(w) by {
                assert(f[k] == locs[k]);
            }
        }
        if names_once(f, w) {
            let j = choose|j: int|
                0 <= j < f.len() && #[trigger] f[j].worker == Some(w) && forall|k: int|
                    0 <= k < f.len() && k != j ==> (#[trigger] f[k]).worker != Some(w);
            if any_local(locs, w) {
                let a = choose|a: int| 0 <= a < locs.len() && #[trigger] locs[a].worker == Some(w);
                assert(f[a] == locs[a]);
                assert(f[n].worker == Some(w));
            }
        }
    } else {
        if names_once(locs, w) {
            let j = choose|j: int|
                0 <= j < locs.len() && #[trigger] locs[j].worker == Some(w) && forall|k: int|
                    0 <= k < locs.len() && k != j ==> (#[trigger] locs[k]).worker != Some(w);
            assert(f[j] == locs[j]);
            assert forall|k: int| 0 <= k < f.len() && k != j implies (#[trigger] f[k]).worker != Some(w) by {
                if k < n {
                    assert(f[k] == locs[k]);
                }
            }
        }
        if names_once(f, w) {
            let j = choose|j: int|
                0 <= j < f.len() && #[trigger] f[j].worker == Some(w) && forall|k: int|
                    0 <= k < f.len() && k != j ==> (#[trigger] f[k]).worker != Some(w);
            assert(j < n);
            assert(locs[j] == f[j]);
            assert forall|k: int| 0 <= k < locs.len() && k != j implies (#[trigger] locs[k]).worker != Some(w) by {
                assert(f[k] == locs[k]);
            }
        }
    }
}

/// Some address in `locs` names no worker.
pub open spec fn any_unassigned(locs: Seq<AddressView>) -> bool {
    exists|j: int| 0 <= j < locs.len() && (#[trigger] locs[j]).worker is None
}

/// What reading `key` at `location` may answer: the local store's entry
/// where the address is this worker; an error where it names no worker or no
/// remote store is known for it; else what that store answered, which, when
/// not an error, agrees with what it holds.
pub open spec fn read_answers<C: RemoteStoreClient>(
    c: DistributedStoreCoordinator<C>,
    location: AddressView,
    key: Seq<char>,
    r: Result<Option<Vec<u8>>, String>,
) -> bool {
    match location.worker {
        None => r matches Err(m) && m@ == invalid_read_address_message(),
        Some(w) => if w == c.spec_worker_id() {
            r matches Ok(o) && match o {
                Some(d) => c.local_contents().dom().contains(key) && c.local_contents()[key] == d@,
                None => !c.local_contents().dom().contains(key),
            }
        } else if !c.clients().dom().contains(w) {
            r matches Err(m) && m@ == no_client_message(w)
        } else {
            &&& r matches Ok(Some(d)) ==> c.clients()[w].remote_contents().dom().contains(key)
                && c.clients()[w].remote_contents()[key] == d@
            &&& r matches Ok(None) ==> !c.clients()[w].remote_contents().dom().contains(key)
        },
    }
}

/// The value of a registered remote store: its worker and its client.
pub open spec fn client_pair_view<C>(p: (String, C)) -> (Seq<char>, C) {
    (p.0@, p.1)
}

/// Places entities on the workers of the cluster, keeps the local replicas
/// and reaches the remote stores of the other workers.
pub struct DistributedStoreCoordinator<C> {
    node_id: NodeId,
    worker_id: WorkerId,
    allocator: AddressAllocator,
    local_store: MemoryStore,
    remote_clients: Vec<(String, C)>,
    default_replica_count: usize,
    default_consistency: ConsistencyLevel,
}

impl<C> DistributedStoreCoordinator<C> {
    /// The remote stores, in the order they were first registered.
    pub closed spec fn client_pairs(&self) -> Seq<(Seq<char>, C)> {
        self.remote_clients@.map_values(|p: (String, C)| client_pair_view(p))
    }

    /// The remote stores by worker.
    pub open spec fn clients(&self) -> Map<Seq<char>, C> {
        keyed_map(self.client_pairs())
    }

    /// The node this coordinator runs on.
    pub closed spec fn spec_node_id(&self) -> Seq<char> {
        self.node_id@
    }

    /// The worker this coordinator runs on.
    pub closed spec fn spec_worker_id(&self) -> Seq<char> {
        self.worker_id@
    }

    /// The topology entities are placed on.
    pub closed spec fn spec_topology(&self) -> TopologyView {
        self.allocator.spec_topology()
    }

    /// How many replicas the placement asks for.
    pub closed spec fn spec_replica_count(&self) -> usize {
        self.allocator.spec_replica_count()
    }

    /// The replica count that a new topology is placed with.
    pub closed spec fn spec_default_replica_count(&self) -> usize {
        self.default_replica_count
    }

    /// How many replicas a save writes to.
    pub closed spec fn spec_consistency(&self) -> ConsistencyLevel {
        self.default_consistency
    }

    /// What the local store holds.
    pub open spec fn local_contents(&self) -> Map<Seq<char>, Seq<u8>> {
        self.spec_local_store().contents()
    }

    /// The local store.
    pub closed spec fn spec_local_store(&self) -> MemoryStore {
        self.local_store
    }

    /// Everything but the stores' contents is as in `other`.
    pub open spec fn same_setup(&self, other: &Self) -> bool {
        &&& self.spec_node_id() == other.spec_node_id()
        &&& self.spec_worker_id() == other.spec_worker_id()
        &&& self.spec_topology() == other.spec_topology()
        &&& self.spec_replica_count() == other.spec_replica_count()
        &&& self.spec_default_replica_count() == other.spec_default_replica_count()
        &&& self.spec_consistency() == other.spec_consistency()
        &&& self.clients().dom() == other.clients().dom()
    }

    /// No worker has two remote stores.
    #[verifier::type_invariant]
    closed spec fn wf(self) -> bool {
        distinct_keys(self.remote_clients@.map_values(|p: (String, C)| client_pair_view(p)))
    }

    /// A coordinator for `worker_id` on `node_id` that places entities on
    /// `topology` with `replica_count` replicas and writes to a quorum; no
    /// remote store is known yet.
    pub fn new(
        node_id: NodeId,
        worker_id: WorkerId,
        topology: TopologyView,
        local_store: MemoryStore,
        replica_count: usize,
    ) -> (r: DistributedStoreCoordinator<C>)
        ensures
            r.spec_node_id() == node_id@,
            r.spec_worker_id() == worker_id@,
            r.spec_topology() == topology,
            r.spec_replica_count() == replica_count,
            r.spec_default_replica_count() == replica_count,
            r.spec_consistency() == ConsistencyLevel::Quorum,
            r.local_contents() == local_store.contents(),
            r.clients() == Map::<Seq<char>, C>::empty(),
    {
        let r = DistributedStoreCoordinator {
            node_id,
            worker_id,
            allocator: AddressAllocator::new(topology, replica_count),
            local_store,
            remote_clients: Vec::new(),
            default_replica_count: replica_count,
            default_consistency: ConsistencyLevel::Quorum,
        };
        assert(r.client_pairs() =~= Seq::<(Seq<char>, C)>::empty());
        assert(r.clients() =~= Map::<Seq<char>, C>::empty());
        r
    }

    /// The node this coordinator runs on.
    pub fn node_id(&self) -> (r: &NodeId)
        ensures
            r@ == self.spec_node_id(),
    {
        &self.node_id
    }

    /// The worker this coordinator runs on.
    pub fn worker_id(&self) -> (r: &WorkerId)
        ensures
            r@ == self.spec_worker_id(),
    {
        &self.worker_id
    }

    /// The local store.
    pub fn local_store(&self) -> (r: &MemoryStore)
        ensures
            *r == self.spec_local_store(),
    {
        &self.local_store
    }

    /// Registers `client` as the remote store of the worker `address`,
    /// replacing the one registered before.
    pub fn add_remote_client(&mut self, address: String, client: C)
        ensures
            final(self).clients() == old(self).clients().insert(address@, client),
            final(self).local_contents() == old(self).local_contents(),
            final(self).spec_node_id() == old(self).spec_node_id(),
            final(self).spec_worker_id() == old(self).spec_worker_id(),
            final(self).spec_topology() == old(self).spec_topology(),
            final(self).spec_replica_count() == old(self).spec_replica_count(),
            final(self).spec_default_replica_count() == old(self).spec_default_replica_count(),
            final(self).spec_consistency() == old(self).spec_consistency(),
    {
        proof {
            use_type_invariant(&*self);
        }
        let ghost ps = self.client_pairs();
        let ghost kv = (address@, client);
        let found = self.find_client(address.as_str());
        let mut v: Vec<(String, C)> = Vec::new();
        std::mem::swap(&mut v, &mut self.remote_clients);
        assert(v@.map_values(|p: (String, C)| client_pair_view(p)) == ps);
        match found {
            Some(i) => {
                v.set(i, (address, client));
                proof {
                    lemma_keyed_update(ps, i as int, kv.1);
                    assert(v@.map_values(|p: (String, C)| client_pair_view(p)) =~= ps.update(i as int, (ps[i as int].0, kv.1)));
                }
            },
            None => {
                v.push((address, client));
                proof {
                    lemma_keyed_push(ps, kv.0, kv.1);
                    assert(v@.map_values(|p: (String, C)| client_pair_view(p)) =~= ps.push(kv));
                }
            },
        }
        self.remote_clients = v;
    }

    /// The position of the remote store of worker `shard`.
    fn find_client(&self, shard: &str) -> (r: Option<usize>)
        ensures
            match r {
                Some(i) => i < self.client_pairs().len() && self.client_pairs()[i as int].0 == shard@,
                None => !self.clients().dom().contains(shard@),
            },
    {
        let ghost ps = self.client_pairs();
        let mut i: usize = 0;
        while i < self.remote_clients.len()
            invariant
                i <= self.remote_clients@.len(),
                ps == self.client_pairs(),
                forall|j: int| 0 <= j < i ==> #[trigger] ps[j].0 != shard@,
            decreases self.remote_clients.len() - i,
        {
            assert(ps[i as int].0 == self.remote_clients@[i as int].0@);
            if str_eq(self.remote_clients[i].0.as_str(), shard) {
                return Some(i);
            }
            i = i + 1;
        }
        assert(!has_key(ps, shard@));
        None
    }

    /// Places entities on a new topology, with the default replica count.
    pub fn update_topology(&mut self, topology: TopologyView)
        ensures
            final(self).spec_topology() == topology,
            final(self).spec_replica_count() == old(self).spec_default_replica_count(),
            final(self).spec_default_replica_count() == old(self).spec_default_replica_count(),
            final(self).spec_consistency() == old(self).spec_consistency(),
            final(self).spec_node_id() == old(self).spec_node_id(),
            final(self).spec_worker_id() == old(self).spec_worker_id(),
            final(self).local_contents() == old(self).local_contents(),
            final(self).clients() == old(self).clients(),
    {
        proof {
            use_type_invariant(&*self);
        }
        self.allocator = AddressAllocator::new(topology, self.default_replica_count);
    }

    /// This worker is on a node of the topology.
    pub open spec fn on_a_node(&self) -> bool {
        find_node(self.spec_topology().entries(), self.spec_worker_id()) is Some
    }

    /// The addresses of the entity with id `id`: the primary on this worker,
    /// then its replicas (see `AddressAllocator::allocate_addresses`); where
    /// replicas are asked for, this worker must be on a node.
    pub fn allocate_addresses(&self, id: &str) -> (r: Result<Vec<Address>, AddressError>)
        ensures
            id@.len() == 0 ==> (r matches Err(e) && e@ == AddressErrorView::EmptyObject),
            id@.len() > 0 && self.spec_replica_count() > 0 && !self.on_a_node() ==> (r matches Err(e) && e@ is InternalError),
            id@.len() > 0 && (self.spec_replica_count() == 0 || self.on_a_node()) ==> (r matches Ok(v) && v@.len() == 1 + replica_placement(
                self.spec_topology().entries(),
                AddressView { worker: Some(self.spec_worker_id()), object: id@ },
                self.spec_replica_count() as nat,
            ).len() && v@[0]@ == (AddressView { worker: Some(self.spec_worker_id()), object: id@ })
                && forall|k: int|
                0 <= k < v@.len() - 1 ==> #[trigger] v@[k + 1]@ == replica_address(
                    replica_placement(
                        self.spec_topology().entries(),
                        AddressView { worker: Some(self.spec_worker_id()), object: id@ },
                        self.spec_replica_count() as nat,
                    )[k],
                    id@,
                )),
    {
        // The primary names this worker, so the topology's sufficiency is
        // not consulted.
        let addr = Address::new(self.worker_id.as_str(), String::from_str(id));
        self.allocator.allocate_addresses(addr, true)
    }
}

impl<C: RemoteStoreClient> DistributedStoreCoordinator<C> {
    /// Stores `data` under `key` in the remote store at position `i`.
    fn put_to_client(&mut self, i: usize, key: &str, data: &[u8]) -> (r: Result<(), String>)
        requires
            i < old(self).client_pairs().len(),
        ensures
            final(self).same_setup(&*old(self)),
            final(self).local_contents() == old(self).local_contents(),
            r is Ok ==> final(self).clients()[old(self).client_pairs()[i as int].0].remote_contents()
                == old(self).clients()[old(self).client_pairs()[i as int].0].remote_contents().insert(key@, data@),
            forall|w: Seq<char>|
                w != old(self).client_pairs()[i as int].0 ==> #[trigger] final(self).clients()[w] == old(
                    self,
                ).clients()[w],
            exists|m: &mut C|
                mut_ref_current(m) == old(self).clients()[old(self).client_pairs()[i as int].0] && mut_ref_future(m)
                    == final(self).clients()[old(self).client_pairs()[i as int].0] && #[trigger] call_ensures(
                    C::put,
                    (m, key, data),
                    r,
                ),
    {
        proof {
            use_type_invariant(&*self);
            lemma_keyed_at(self.client_pairs(), i as int);
        }
        let ghost ps = self.client_pairs();
        let mut v: Vec<(String, C)> = Vec::new();
        std::mem::swap(&mut v, &mut self.remote_clients);
        assert(v@.map_values(|p: (String, C)| client_pair_view(p)) == ps);
        let (shard, mut client) = v.remove(i);
        let r = client.put(key, data);
        let ghost c2 = client;
        v.insert(i, (shard, client));
        proof {
            lemma_keyed_update(ps, i as int, c2);
            assert(v@.map_values(|p: (String, C)| client_pair_view(p)) =~= ps.update(i as int, (ps[i as int].0, c2)));
        }
        self.remote_clients = v;
        proof {
            assert(self.clients().dom() =~= old(self).clients().dom());
        }
        r
    }

    /// Removes what is stored under `key` in the remote store at position `i`.
    fn del_at_client(&mut self, i: usize, key: &str) -> (r: Result<(), String>)
        requires
            i < old(self).client_pairs().len(),
        ensures
            final(self).same_setup(&*old(self)),
            final(self).local_contents() == old(self).local_contents(),
            r is Ok ==> final(self).clients()[old(self).client_pairs()[i as int].0].remote_contents()
                == old(self).clients()[old(self).client_pairs()[i as int].0].remote_contents().remove(key@),
            forall|w: Seq<char>|
                w != old(self).client_pairs()[i as int].0 ==> #[trigger] final(self).clients()[w] == old(
                    self,
                ).clients()[w],
            exists|m: &mut C|
                mut_ref_current(m) == old(self).clients()[old(self).client_pairs()[i as int].0] && mut_ref_future(m)
                    == final(self).clients()[old(self).client_pairs()[i as int].0] && #[trigger] call_ensures(
                    C::del,
                    (m, key),
                    r,
                ),
    {
        proof {
            use_type_invariant(&*self);
            lemma_keyed_at(self.client_pairs(), i as int);
        }
        let ghost ps = self.client_pairs();
        let mut v: Vec<(String, C)> = Vec::new();
        std::mem::swap(&mut v, &mut self.remote_clients);
        assert(v@.map_values(|p: (String, C)| client_pair_view(p)) == ps);
        let (shard, mut client) = v.remove(i);
        let r = client.del(key);
        let ghost c2 = client;
        v.insert(i, (shard, client));
        proof {
            lemma_keyed_update(ps, i as int, c2);
            assert(v@.map_values(|p: (String, C)| client_pair_view(p)) =~= ps.update(i as int, (ps[i as int].0, c2)));
        }
        self.remote_clients = v;
        proof {
            assert(self.clients().dom() =~= old(self).clients().dom());
        }
        r
    }

    /// Stores the encoded entity in the local store.
    fn put_local(&mut self, entity_type: &str, id: &str, data: &[u8])
        ensures
            final(self).same_setup(&*old(self)),
            final(self).clients() == old(self).clients(),
            final(self).local_contents() == old(self).local_contents().insert(entity_key_spec(entity_type@, id@), data@),
    {
        proof {
            use_type_invariant(&*self);
        }
        let mut store = MemoryStore::new();
        std::mem::swap(&mut store, &mut self.local_store);
        store.put(entity_type, id, copy_bytes_of(data));
        self.local_store = store;
    }

    /// Removes the encoded entity from the local store.
    fn del_local(&mut self, entity_type: &str, id: &str)
        ensures
            final(self).same_setup(&*old(self)),
            final(self).clients() == old(self).clients(),
            final(self).local_contents() == old(self).local_contents().remove(entity_key_spec(entity_type@, id@)),
    {
        proof {
            use_type_invariant(&*self);
        }
        let mut store = MemoryStore::new();
        std::mem::swap(&mut store, &mut self.local_store);
        store.del(entity_type, id);
        self.local_store = store;
    }

    /// Writes the encoded entity to each of `locations` in turn: to the
    /// local store where the address is this worker, else to the remote
    /// store of the worker it names. The reply of each is given back, a
    /// worker without a known remote store answering with an error; an
    /// address that names no worker stops the writing with an error.
    #[verifier::spinoff_prover]
    #[verifier::rlimit(80)]
    fn write(&mut self, entity_type: &str, id: &str, data: &[u8], locations: &Vec<Address>) -> (r: Result<
        Vec<Result<(), String>>,
        String,
    >)
        ensures
            r is Err <==> any_unassigned(address_views(locations@)),
            r matches Err(e) ==> e@ == invalid_write_address_message(),
            r matches Ok(results) ==> results@.len() == locations@.len() && forall|j: int|
                0 <= j < locations@.len() ==> {
                    let a = #[trigger] locations@[j]@;
                    &&& a.worker == Some(old(self).spec_worker_id()) ==> results@[j] is Ok
                    &&& a.worker matches Some(w) ==> (w != old(self).spec_worker_id() && !old(
                        self,
                    ).clients().dom().contains(w) ==> (results@[j] matches Err(m) && m@ == no_client_message(w)))
                },
            r is Ok ==> final(self).local_contents() == if any_local(
                address_views(locations@),
                old(self).spec_worker_id(),
            ) {
                old(self).local_contents().insert(entity_key_spec(entity_type@, id@), data@)
            } else {
                old(self).local_contents()
            },
            final(self).local_contents() == old(self).local_contents() || final(self).local_contents() == old(
                self,
            ).local_contents().insert(entity_key_spec(entity_type@, id@), data@),
            final(self).same_setup(&*old(self)),
            r is Ok ==> forall|w: Seq<char>|
                w != old(self).spec_worker_id() && old(self).clients().dom().contains(w) && !any_local(
                    address_views(locations@),
                    w,
                ) ==> #[trigger] final(self).clients()[w] == old(self).clients()[w],
            r matches Ok(results) ==> forall|j: int|
                0 <= j < locations@.len() ==> match (#[trigger] address_views(locations@)[j]).worker {
                    Some(w) => w != old(self).spec_worker_id() && old(self).clients().dom().contains(w) ==> exists|
                        m: &mut C,
                        k: &str,
                    |
                        #![trigger call_ensures(C::put, (m, k, data), results@[j])]
                        k@ == entity_key_spec(entity_type@, id@) && call_ensures(C::put, (m, k, data), results@[j])
                            && (names_once(address_views(locations@), w) ==> mut_ref_current(m) == old(
                            self,
                        ).clients()[w] && mut_ref_future(m) == final(self).clients()[w]),
                    None => true,
                },
    {
        let key = entity_key(entity_type, id);
        let ghost before = self.local_contents();
        let ghost wid = self.spec_worker_id();
        let ghost ekey = entity_key_spec(entity_type@, id@);
        let ghost views = address_views(locations@);
        let mut results: Vec<Result<(), String>> = Vec::new();
        let mut i: usize = 0;
        while i < locations.len()
            invariant
                i <= locations@.len(),
                views == address_views(locations@),
                wid == old(self).spec_worker_id(),
                ekey == entity_key_spec(entity_type@, id@),
                key@ == ekey,
                before == old(self).local_contents(),
                results@.len() == i,
                self.same_setup(&*old(self)),
                forall|j: int| 0 <= j < i ==> (#[trigger] locations@[j]@).worker is Some,
                forall|j: int|
                    0 <= j < i ==> {
                        let a = #[trigger] locations@[j]@;
                        &&& a.worker == Some(wid) ==> results@[j] is Ok
                        &&& a.worker matches Some(w) ==> (w != wid && !old(self).clients().dom().contains(w) ==> (
                        results@[j] matches Err(m) && m@ == no_client_message(w)))
                    },
                self.local_contents() == if any_local(views.take(i as int), wid) {
                    before.insert(ekey, data@)
                } else {
                    before
                },
                forall|w: Seq<char>|
                    w != wid && old(self).clients().dom().contains(w) && !any_local(views.take(i as int), w)
                        ==> #[trigger] self.clients()[w] == old(self).clients()[w],
                forall|j: int|
                    0 <= j < i ==> match (#[trigger] views[j]).worker {
                        Some(w) => w != wid && old(self).clients().dom().contains(w) ==> exists|m: &mut C, k: &str|
                            #![trigger call_ensures(C::put, (m, k, data), results@[j])]
                            k@ == ekey && call_ensures(C::put, (m, k, data), results@[j]) && (names_once(
                                views.take(i as int),
                                w,
                            ) ==> mut_ref_current(m) == old(self).clients()[w] && mut_ref_future(m)
                                == self.clients()[w]),
                        None => true,
                    },
            decreases locations.len() - i,
        {
            assert(views.take(i + 1) =~= views.take(i as int).push(locations@[i as int]@));
            assert(views[i as int] == locations@[i as int]@);
            let ghost pre = *self;
            let ghost pre_results = results@;
            proof {
                assert forall|w: Seq<char>| true implies #[trigger] names_once(views.take(i + 1), w) == if views[i as int].worker == Some(w) {
                    !any_local(views.take(i as int), w)
                } else {
                    names_once(views.take(i as int), w)
                } && any_local(views.take(i + 1), w) == (any_local(views.take(i as int), w) || views[i as int].worker
                    == Some(w)) by {
                    lemma_names_push(views.take(i as int), views[i as int], w);
                }
            }
            match route_location(&locations[i], self.worker_id.as_str()) {
                Route::Local => {
                    self.put_local(entity_type, id, data);
                    results.push(Ok(()));
                    proof {
                        assert(views.take(i + 1)[i as int].worker == Some(wid));
                        assert(any_local(views.take(i + 1), wid));
                        assert(self.local_contents() =~= before.insert(ekey, data@));
                    }
                },
                Route::NoWorker => {
                    proof {
                        assert(views[i as int].worker is None);
                        assert(any_unassigned(views));
                        assert(self.local_contents() == before || self.local_contents() == before.insert(ekey, data@));
                    }
                    return Err(String::from_str("Invalid address for remote write"));
                },
                Route::Remote(shard) => {
                    match self.find_client(shard.as_str()) {
                        Some(c) => {
                            proof {
                                use_type_invariant(&*self);
                                lemma_keyed_at(self.client_pairs(), c as int);
                            }
                            let res = self.put_to_client(c, key.as_str(), data);
                            results.push(res);
                            proof {
                                let w = shard@;
                                assert(results@[i as int] == res);
                                assert(views[i as int].worker == Some(w));
                                assert(names_once(views.take(i + 1), w) ==> !any_local(views.take(i as int), w));
                                assert(names_once(views.take(i + 1), w) ==> pre.clients()[w] == old(self).clients()[w]);
                                assert(exists|m: &mut C, k: &str|
                                    #![trigger call_ensures(C::put, (m, k, data), results@[i as int])]
                                    k@ == ekey && call_ensures(C::put, (m, k, data), results@[i as int]) && (names_once(
                                        views.take(i + 1),
                                        w,
                                    ) ==> mut_ref_current(m) == old(self).clients()[w] && mut_ref_future(m)
                                        == self.clients()[w]));
                            }
                        },
                        None => {
                            let mut m = String::from_str("No remote client for shard: ");
                            m.append(shard.as_str());
                            results.push(Err(m));
                        },
                    }
                    proof {
                        if any_local(views.take(i + 1), wid) {
                            let j = choose|j: int| 0 <= j < i + 1 && #[trigger] views.take(i + 1)[j].worker == Some(wid);
                            assert(j < i);
                            assert(views.take(i as int)[j].worker == Some(wid));
                        }
                    }
                },
            }
            proof {
                assert forall|j: int| 0 <= j < i + 1 implies (#[trigger] locations@[j]@).worker is Some by {
                    if j == i {
                    }
                }
                assert forall|w: Seq<char>|
                    w != wid && old(self).clients().dom().contains(w) && !any_local(views.take(i + 1), w)
                        implies #[trigger] self.clients()[w] == old(self).clients()[w] by {
                    assert(self.clients()[w] == pre.clients()[w]);
                }
                assert forall|j: int|
                    0 <= j < i + 1 implies match (#[trigger] views[j]).worker {
                        Some(w) => w != wid && old(self).clients().dom().contains(w) ==> exists|m: &mut C, k: &str|
                            #![trigger call_ensures(C::put, (m, k, data), results@[j])]
                            k@ == ekey && call_ensures(C::put, (m, k, data), results@[j]) && (names_once(
                                views.take(i + 1),
                                w,
                            ) ==> mut_ref_current(m) == old(self).clients()[w] && mut_ref_future(m)
                                == self.clients()[w]),
                        None => true,
                    } by {
                    if j < i {
                        assert(results@[j] == pre_results[j]);
                        if let Some(w) = views[j].worker {
                            if w != wid && old(self).clients().dom().contains(w) {
                                assert(any_local(views.take(i + 1), w)) by {
                                    assert(views.take(i + 1)[j] == views[j]);
                                }
                                if names_once(views.take(i + 1), w) {
                                    assert(views.take(i as int)[j] == views[j]);
                                    assert(any_local(views.take(i as int), w));
                                    assert(views[i as int].worker != Some(w));
                                    assert(self.clients()[w] == pre.clients()[w]);
                                }
                            }
                        }
                    }
                }
            }
            i = i + 1;
        }
        proof {
            assert(views.take(locations@.len() as int) =~= views);
            if any_unassigned(views) {
                let j = choose|j: int| 0 <= j < views.len() && (#[trigger] views[j]).worker is None;
                assert(locations@[j]@.worker is None);
            }
        }
        Ok(results)
    }

    /// Reads the encoded entity at `location`: from the local store where the
    /// address is this worker, else from the remote store of the worker it
    /// names; an error where it names no worker or no remote store is known
    /// for that worker.
    fn read(&self, entity_type: &str, id: &str, location: &Address) -> (r: Result<Option<Vec<u8>>, String>)
        ensures
            read_answers(*self, location@, entity_key_spec(entity_type@, id@), r),
    {
        let key = entity_key(entity_type, id);
        match route_location(location, self.worker_id.as_str()) {
            Route::Local => Ok(self.local_store.get(entity_type, id)),
            Route::NoWorker => Err(String::from_str("Invalid address for remote read")),
            Route::Remote(shard) => {
                match self.find_client(shard.as_str()) {
                    Some(c) => {
                        proof {
                            use_type_invariant(self);
                            lemma_keyed_at(self.client_pairs(), c as int);
                        }
                        self.remote_clients[c].1.get(key.as_str())
                    },
                    None => {
                        let mut m = String::from_str("No remote client for shard: ");
                        m.append(shard.as_str());
                        Err(m)
                    },
                }
            },
        }
    }

    /// Deletes the encoded entity at each of `locations` in turn: from the
    /// local store where the address is this worker, else from the remote
    /// store of the worker it names, where one is known; the replies are not
    /// looked at. An address that names no worker stops the deleting with an
    /// error.
#[verifier::spinoff_prover]
    #[verifier::rlimit(80)]
        fn delete(&mut self, entity_type: &str, id: &str, locations: &Vec<Address>) -> (r: Result<(), String>)
        ensures
            r is Err <==> any_unassigned(address_views(locations@)),
            r matches Err(e) ==> e@ == invalid_write_address_message(),
            r is Ok ==> final(self).local_contents() == if any_local(
                address_views(locations@),
                old(self).spec_worker_id(),
            ) {
                old(self).local_contents().remove(entity_key_spec(entity_type@, id@))
            } else {
                old(self).local_contents()
            },
            final(self).local_contents() == old(self).local_contents() || final(self).local_contents() == old(
                self,
            ).local_contents().remove(entity_key_spec(entity_type@, id@)),
            final(self).same_setup(&*old(self)),
            r is Ok ==> forall|w: Seq<char>|
                w != old(self).spec_worker_id() && old(self).clients().dom().contains(w) && !any_local(
                    address_views(locations@),
                    w,
                ) ==> #[trigger] final(self).clients()[w] == old(self).clients()[w],
            r is Ok ==> forall|j: int|
                0 <= j < locations@.len() ==> match (#[trigger] address_views(locations@)[j]).worker {
                    Some(w) => w != old(self).spec_worker_id() && old(self).clients().dom().contains(w) ==> exists|
                        m: &mut C,
                        k: &str,
                        a: Result<(), String>,
                    |
                        #![trigger call_ensures(C::del, (m, k), a)]
                        k@ == entity_key_spec(entity_type@, id@) && call_ensures(C::del, (m, k), a) && (names_once(
                            address_views(locations@),
                            w,
                        ) ==> mut_ref_current(m) == old(self).clients()[w] && mut_ref_future(m)
                            == final(self).clients()[w]),
                    None => true,
                },
    {
        let key = entity_key(entity_type, id);
        let ghost before = self.local_contents();
        let ghost wid = self.spec_worker_id();
        let ghost ekey = entity_key_spec(entity_type@, id@);
        let ghost views = address_views(locations@);
        let mut i: usize = 0;
        while i < locations.len()
            invariant
                i <= locations@.len(),
                views == address_views(locations@),
                wid == old(self).spec_worker_id(),
                ekey == entity_key_spec(entity_type@, id@),
                key@ == ekey,
                before == old(self).local_contents(),
                self.same_setup(&*old(self)),
                forall|j: int| 0 <= j < i ==> (#[trigger] locations@[j]@).worker is Some,
                self.local_contents() == if any_local(views.take(i as int), wid) {
                    before.remove(ekey)
                } else {
                    before
                },
                forall|w: Seq<char>|
                    w != wid && old(self).clients().dom().contains(w) && !any_local(views.take(i as int), w)
                        ==> #[trigger] self.clients()[w] == old(self).clients()[w],
                forall|j: int|
                    0 <= j < i ==> match (#[trigger] views[j]).worker {
                        Some(w) => w != wid && old(self).clients().dom().contains(w) ==> exists|
                            m: &mut C,
                            k: &str,
                            a: Result<(), String>,
                        |
                            #![trigger call_ensures(C::del, (m, k), a)]
                            k@ == ekey && call_ensures(C::del, (m, k), a) && (names_once(views.take(i as int), w)
                                ==> mut_ref_current(m) == old(self).clients()[w] && mut_ref_future(m)
                                == self.clients()[w]),
                        None => true,
                    },
            decreases locations.len() - i,
        {
            assert(views.take(i + 1) =~= views.take(i as int).push(locations@[i as int]@));
            assert(views[i as int] == locations@[i as int]@);
            let ghost pre = *self;
            proof {
                assert forall|w: Seq<char>| true implies #[trigger] names_once(views.take(i + 1), w) == if views[i as int].worker == Some(w) {
                    !any_local(views.take(i as int), w)
                } else {
                    names_once(views.take(i as int), w)
                } && any_local(views.take(i + 1), w) == (any_local(views.take(i as int), w) || views[i as int].worker
                    == Some(w)) by {
                    lemma_names_push(views.take(i as int), views[i as int], w);
                }
            }
            match route_location(&locations[i], self.worker_id.as_str()) {
                Route::Local => {
                    self.del_local(entity_type, id);
                    proof {
                        assert(views.take(i + 1)[i as int].worker == Some(wid));
                        assert(any_local(views.take(i + 1), wid));
                        assert(self.local_contents() =~= before.remove(ekey));
                    }
                },
                Route::NoWorker => {
                    proof {
                        assert(views[i as int].worker is None);
                        assert(any_unassigned(views));
                    }
                    return Err(String::from_str("Invalid address for remote write"));
                },
                Route::Remote(shard) => {
                    match self.find_client(shard.as_str()) {
                        Some(c) => {
                            proof {
                                use_type_invariant(&*self);
                                lemma_keyed_at(self.client_pairs(), c as int);
                            }
                            let answer = self.del_at_client(c, key.as_str());
                            proof {
                                let w = shard@;
                                assert(views[i as int].worker == Some(w));
                                assert(names_once(views.take(i + 1), w) ==> !any_local(views.take(i as int), w));
                                assert(names_once(views.take(i + 1), w) ==> pre.clients()[w] == old(self).clients()[w]);
                                assert(exists|m: &mut C, k: &str, a: Result<(), String>|
                                    #![trigger call_ensures(C::del, (m, k), a)]
                                    k@ == ekey && call_ensures(C::del, (m, k), a) && (names_once(views.take(i + 1), w)
                                        ==> mut_ref_current(m) == old(self).clients()[w] && mut_ref_future(m)
                                        == self.clients()[w]));
                            }
                        },
                        None => {},
                    }
                    proof {
                        if any_local(views.take(i + 1), wid) {
                            let j = choose|j: int| 0 <= j < i + 1 && #[trigger] views.take(i + 1)[j].worker == Some(wid);
                            assert(j < i);
                            assert(views.take(i as int)[j].worker == Some(wid));
                        }
                    }
                },
            }
            proof {
                assert forall|j: int| 0 <= j < i + 1 implies (#[trigger] locations@[j]@).worker is Some by {
                    if j == i {
                    }
                }
                assert forall|w: Seq<char>|
                    w != wid && old(self).clients().dom().contains(w) && !any_local(views.take(i + 1), w)
                        implies #[trigger] self.clients()[w] == old(self).clients()[w] by {
                    assert(self.clients()[w] == pre.clients()[w]);
                }
                assert forall|j: int|
                    0 <= j < i + 1 implies match (#[trigger] views[j]).worker {
                        Some(w) => w != wid && old(self).clients().dom().contains(w) ==> exists|
                            m: &mut C,
                            k: &str,
                            a: Result<(), String>,
                        |
                            #![trigger call_ensures(C::del, (m, k), a)]
                            k@ == ekey && call_ensures(C::del, (m, k), a) && (names_once(views.take(i + 1), w)
                                ==> mut_ref_current(m) == old(self).clients()[w] && mut_ref_future(m)
                                == self.clients()[w]),
                        None => true,
                    } by {
                    if j < i {
                        if let Some(w) = views[j].worker {
                            if w != wid && old(self).clients().dom().contains(w) {
                                assert(any_local(views.take(i + 1), w)) by {
                                    assert(views.take(i + 1)[j] == views[j]);
                                }
                                if names_once(views.take(i + 1), w) {
                                    assert(views.take(i as int)[j] == views[j]);
                                    assert(any_local(views.take(i as int), w));
                                    assert(views[i as int].worker != Some(w));
                                    assert(self.clients()[w] == pre.clients()[w]);
                                }
                            }
                        }
                    }
                }
            }
            i = i + 1;
        }
        proof {
            assert(views.take(locations@.len() as int) =~= views);
            if any_unassigned(views) {
                let j = choose|j: int| 0 <= j < views.len() && (#[trigger] views[j]).worker is None;
                assert(locations@[j]@.worker is None);
            }
        }
        Ok(())
    }
}

/// Why a distributed store operation failed.
#[derive(Debug, Clone)]
pub enum StoreError {
    /// No address could be allocated for the entity.
    Address(AddressError),
    /// Addresses were allocated, yet none is to be written.
    NoWriteLocations,
    /// No address was allocated for the entity.
    NoAddresses,
    /// A store could not be reached.
    Remote(String),
}

/// The encoded entity of type `entity_type` and id `id` in the local store
/// of `c`, if it holds one.
pub open spec fn local_lookup<C>(c: DistributedStoreCoordinator<C>, entity_type: Seq<char>, id: Seq<char>) -> Option<
    Seq<u8>,
> {
    let key = entity_key_spec(entity_type, id);
    if c.local_contents().dom().contains(key) {
        Some(c.local_contents()[key])
    } else {
        None
    }
}

/// The addresses that `c` allocates for the entity `id`: its primary on this
/// worker, then its replicas.
pub open spec fn allocation_views<C>(c: DistributedStoreCoordinator<C>, id: Seq<char>) -> Seq<AddressView> {
    let primary = AddressView { worker: Some(c.spec_worker_id()), object: id };
    seq![primary] + replica_placement(c.spec_topology().entries(), primary, c.spec_replica_count() as nat).map_values(
        |p: (Seq<char>, Seq<char>)| replica_address(p, id),
    )
}

/// The addresses that a save of the entity `id` through `c` writes to.
pub open spec fn save_targets<C>(c: DistributedStoreCoordinator<C>, id: Seq<char>) -> Seq<AddressView> {
    write_targets(allocation_views(c, id), c.spec_consistency())
}

/// How many replicas of an object a read or a delete that knows only the
/// object looks at.
pub const LOOKUP_REPLICAS: usize = 3;

/// The replica addresses of the object `id` as a reader that knows only the
/// object finds them (see `AddressAllocator::allocate_unassigned_replicas`).
pub open spec fn lookup_replicas<C>(c: DistributedStoreCoordinator<C>, id: Seq<char>) -> Seq<AddressView> {
    replica_placement(c.spec_topology().entries(), AddressView { worker: None, object: id }, LOOKUP_REPLICAS as nat).map_values(
        |p: (Seq<char>, Seq<char>)| replica_address(p, id),
    )
}

/// How reading the entity at its replicas ends, given the answers of the
/// replicas asked, in order: each answer is what reading there may give
/// (see `read_answers`); every answer but the last held no copy; the last
/// one's copy is the result, or, where no replica answered with one, all were
/// asked and there is none.
pub open spec fn replica_reads<C: RemoteStoreClient>(
    c: DistributedStoreCoordinator<C>,
    entity_type: Seq<char>,
    id: Seq<char>,
    answers: Seq<Result<Option<Vec<u8>>, String>>,
    r: Result<Option<Vec<u8>>, StoreError>,
) -> bool {
    let places = lookup_replicas(c, id);
    &&& answers.len() <= places.len()
    &&& forall|j: int|
        0 <= j < answers.len() ==> read_answers(c, places[j], entity_key_spec(entity_type, id), #[trigger] answers[j])
    &&& forall|j: int| 0 <= j < answers.len() - 1 ==> !((#[trigger] answers[j]) matches Ok(Some(_)))
    &&& match if answers.len() > 0 { answers.last() } else { Ok(None) } {
        Ok(Some(d)) => r matches Ok(Some(e)) && e@ == d@,
        _ => answers.len() == places.len() && r matches Ok(None),
    }
}

/// Entities stored on the workers of a cluster: each save goes to a quorum
/// of its replicas, its primary on this worker; reads and deletes act on the
/// local store and on the replicas that a reader knowing only the object
/// finds (see `lookup_replicas`).
pub struct DistributedEntityStore<C> {
    coordinator: DistributedStoreCoordinator<C>,
}

impl<C: RemoteStoreClient> DistributedEntityStore<C> {
    /// The coordinator the store works through.
    pub closed spec fn spec_coordinator(&self) -> DistributedStoreCoordinator<C> {
        self.coordinator
    }

    /// A store that works through `coordinator`.
    pub fn new(coordinator: DistributedStoreCoordinator<C>) -> (r: Self)
        ensures
            r.spec_coordinator() == coordinator,
    {
        DistributedEntityStore { coordinator }
    }

    /// The coordinator the store works through.
    pub fn coordinator(&self) -> (r: &DistributedStoreCoordinator<C>)
        ensures
            *r == self.spec_coordinator(),
    {
        &self.coordinator
    }

    /// Registers `client` as the remote store of the worker `address`.
    pub fn add_remote_client(&mut self, address: String, client: C)
        ensures
            final(self).spec_coordinator().clients() == old(self).spec_coordinator().clients().insert(
                address@,
                client,
            ),
            final(self).spec_coordinator().local_contents() == old(self).spec_coordinator().local_contents(),
            final(self).spec_coordinator().spec_worker_id() == old(self).spec_coordinator().spec_worker_id(),
            final(self).spec_coordinator().spec_topology() == old(self).spec_coordinator().spec_topology(),
            final(self).spec_coordinator().spec_replica_count() == old(self).spec_coordinator().spec_replica_count(),
            final(self).spec_coordinator().spec_consistency() == old(self).spec_coordinator().spec_consistency(),
    {
        self.coordinator.add_remote_client(address, client);
    }

    /// Saves the encoded entity `data` of type `entity_type` and id `id`: to
    /// the write targets among the addresses allocated for it (see
    /// `save_targets`), its primary on this worker first. The local store
    /// keeps it; the remote store of every other target worker is handed
    /// `put(type::id, data)`, and the save succeeds whatever they answer; the
    /// stores of workers that are no target are untouched. An empty id has no
    /// address, and where replicas are asked for, a worker that is on no node
    /// has none either.
    pub fn save(&mut self, entity_type: &str, id: &str, data: &[u8]) -> (r: Result<(), StoreError>)
        ensures
            id@.len() == 0 ==> (r matches Err(StoreError::Address(e)) && e@ == AddressErrorView::EmptyObject),
            id@.len() > 0 && old(self).spec_coordinator().spec_replica_count() > 0 && !old(
                self,
            ).spec_coordinator().on_a_node() ==> (r matches Err(StoreError::Address(e)) && e@ is InternalError),
            id@.len() > 0 && (old(self).spec_coordinator().spec_replica_count() == 0 || old(
                self,
            ).spec_coordinator().on_a_node()) ==> r is Ok,
            r is Ok ==> final(self).spec_coordinator().local_contents() == old(
                self,
            ).spec_coordinator().local_contents().insert(entity_key_spec(entity_type@, id@), data@),
            r is Err ==> final(self).spec_coordinator().local_contents() == old(
                self,
            ).spec_coordinator().local_contents(),
            r is Err ==> final(self).spec_coordinator().clients() == old(self).spec_coordinator().clients(),
            final(self).spec_coordinator().same_setup(&old(self).spec_coordinator()),
            r is Ok ==> forall|w: Seq<char>|
                w != old(self).spec_coordinator().spec_worker_id() && old(self).spec_coordinator().clients().dom().contains(
                    w,
                ) && !any_local(save_targets(old(self).spec_coordinator(), id@), w)
                    ==> #[trigger] final(self).spec_coordinator().clients()[w] == old(
                    self,
                ).spec_coordinator().clients()[w],
            r is Ok ==> forall|j: int|
                0 <= j < save_targets(old(self).spec_coordinator(), id@).len() ==> match (#[trigger] save_targets(
                    old(self).spec_coordinator(),
                    id@,
                )[j]).worker {
                    Some(w) => w != old(self).spec_coordinator().spec_worker_id() && old(
                        self,
                    ).spec_coordinator().clients().dom().contains(w) ==> exists|
                        m: &mut C,
                        k: &str,
                        a: Result<(), String>,
                    |
                        #![trigger call_ensures(C::put, (m, k, data), a)]
                        k@ == entity_key_spec(entity_type@, id@) && call_ensures(C::put, (m, k, data), a) && (
                        names_once(save_targets(old(self).spec_coordinator(), id@), w) ==> mut_ref_current(m) == old(
                            self,
                        ).spec_coordinator().clients()[w] && mut_ref_future(m)
                            == final(self).spec_coordinator().clients()[w]),
                    None => true,
                },
    {
        let ghost wid = self.coordinator.spec_worker_id();
        let locations = match self.coordinator.allocate_addresses(id) {
            Ok(v) => v,
            Err(e) => {
                return Err(StoreError::Address(e));
            },
        };
        let consistency = self.coordinator.default_consistency;
        let targets = match plan_save(&locations, consistency) {
            Ok(w) => w,
            Err(SaveError::NoWriteLocations) => {
                return Err(StoreError::NoWriteLocations);
            },
            Err(SaveError::NoAddresses) => {
                return Err(StoreError::NoAddresses);
            },
        };
        proof {
            let vv = address_views(locations@);
            let tv = address_views(targets@);
            let placement = replica_placement(
                self.coordinator.spec_topology().entries(),
                AddressView { worker: Some(wid), object: id@ },
                self.coordinator.spec_replica_count() as nat,
            );
            assert(vv[0] == locations@[0]@);
            assert forall|j: int| 0 <= j < vv.len() implies (#[trigger] vv[j]).worker is Some by {
                if j > 0 {
                    assert(locations@[(j - 1) + 1]@ == replica_address(placement[j - 1], id@));
                }
            }
            assert forall|j: int| 0 <= j < tv.len() implies (#[trigger] tv[j]).worker is Some by {
                match consistency {
                    ConsistencyLevel::Primary => {
                        assert(tv[j] == vv[0]);
                    },
                    _ => {
                        assert(tv[j] == vv[j]);
                    },
                }
            }
            assert(tv[0] == vv[0]);
            assert(any_local(tv, wid));
            assert(vv =~= allocation_views(self.coordinator, id@)) by {
                assert forall|j: int| 0 <= j < vv.len() implies #[trigger] vv[j] == allocation_views(self.coordinator, id@)[j] by {
                    if j > 0 {
                        assert(locations@[(j - 1) + 1]@ == replica_address(placement[j - 1], id@));
                    }
                }
            }
            assert(tv == save_targets(self.coordinator, id@));
        }
        match self.coordinator.write(entity_type, id, data, &targets) {
            Ok(_) => Ok(()),
            Err(m) => Err(StoreError::Remote(m)),
        }
    }

    /// Reads the encoded entity of type `entity_type` and id `id`: from the
    /// local store where it holds it, else from the first of the object's
    /// replicas (see `lookup_replicas`) that answers with a copy; nothing
    /// where none does.
    pub fn get(&self, entity_type: &str, id: &str) -> (r: Result<Option<Vec<u8>>, StoreError>)
        ensures
            local_lookup(self.spec_coordinator(), entity_type@, id@) matches Some(v) ==> (r matches Ok(Some(d))
                && d@ == v),
            local_lookup(self.spec_coordinator(), entity_type@, id@) is None ==> exists|
                answers: Seq<Result<Option<Vec<u8>>, String>>,
            | #[trigger] replica_reads(self.spec_coordinator(), entity_type@, id@, answers, r),
    {
        if let Some(e) = self.coordinator.local_store.get(entity_type, id) {
            return Ok(Some(e));
        }
        let ghost c = self.coordinator;
        let ghost places = lookup_replicas(c, id@);
        let replicas = self.coordinator.allocator.allocate_unassigned_replicas(id, LOOKUP_REPLICAS);
        proof {
            assert(address_views(replicas@) =~= places);
        }
        let ghost mut answers: Seq<Result<Option<Vec<u8>>, String>> = Seq::empty();
        let mut i: usize = 0;
        while i < replicas.len()
            invariant
                i <= replicas@.len(),
                places == lookup_replicas(c, id@),
                c == self.coordinator,
                local_lookup(c, entity_type@, id@) is None,
                address_views(replicas@) == places,
                answers.len() == i,
                forall|j: int|
                    0 <= j < i ==> read_answers(c, places[j], entity_key_spec(entity_type@, id@), #[trigger] answers[j]),
                forall|j: int| 0 <= j < i ==> !((#[trigger] answers[j]) matches Ok(Some(_))),
            decreases replicas.len() - i,
        {
            let ans = self.coordinator.read(entity_type, id, &replicas[i]);
            proof {
                assert(places[i as int] == replicas@[i as int]@);
                answers = answers.push(ans);
                assert(answers[i as int] == ans);
            }
            if let Ok(Some(e)) = ans {
                proof {
                    assert(replica_reads(c, entity_type@, id@, answers, Ok(Some(e))));
                }
                return Ok(Some(e));
            }
            i = i + 1;
        }
        proof {
            if answers.len() > 0 {
                assert(!(answers[answers.len() - 1] matches Ok(Some(_))));
            }
            assert(replica_reads(c, entity_type@, id@, answers, Ok(None)));
        }
        Ok(None)
    }

    /// Deletes the entity of type `entity_type` and id `id`: from the local
    /// store where it holds it, and at each of the object's replicas (see
    /// `lookup_replicas`): the remote store of every replica worker other than
    /// this one is handed `del(type::id)`, whatever it answers; the stores of
    /// other workers are untouched.
    pub fn delete(&mut self, entity_type: &str, id: &str) -> (r: Result<(), StoreError>)
        ensures
            r is Ok,
            final(self).spec_coordinator().local_contents() == old(self).spec_coordinator().local_contents().remove(
                entity_key_spec(entity_type@, id@),
            ),
            final(self).spec_coordinator().same_setup(&old(self).spec_coordinator()),
            forall|w: Seq<char>|
                w != old(self).spec_coordinator().spec_worker_id() && old(self).spec_coordinator().clients().dom().contains(
                    w,
                ) && !any_local(lookup_replicas(old(self).spec_coordinator(), id@), w)
                    ==> #[trigger] final(self).spec_coordinator().clients()[w] == old(
                    self,
                ).spec_coordinator().clients()[w],
            forall|j: int|
                0 <= j < lookup_replicas(old(self).spec_coordinator(), id@).len() ==> match (#[trigger] lookup_replicas(
                    old(self).spec_coordinator(),
                    id@,
                )[j]).worker {
                    Some(w) => w != old(self).spec_coordinator().spec_worker_id() && old(
                        self,
                    ).spec_coordinator().clients().dom().contains(w) ==> exists|
                        m: &mut C,
                        k: &str,
                        a: Result<(), String>,
                    |
                        #![trigger call_ensures(C::del, (m, k), a)]
                        k@ == entity_key_spec(entity_type@, id@) && call_ensures(C::del, (m, k), a) && (names_once(
                            lookup_replicas(old(self).spec_coordinator(), id@),
                            w,
                        ) ==> mut_ref_current(m) == old(self).spec_coordinator().clients()[w] && mut_ref_future(m)
                            == final(self).spec_coordinator().clients()[w]),
                    None => true,
                },
    {
        let ghost key = entity_key_spec(entity_type@, id@);
        let ghost c0 = self.coordinator;
        if self.coordinator.local_store.get(entity_type, id).is_some() {
            self.coordinator.del_local(entity_type, id);
        } else {
            assert(self.coordinator.local_contents().remove(key) =~= self.coordinator.local_contents());
        }
        let replicas = self.coordinator.allocator.allocate_unassigned_replicas(id, LOOKUP_REPLICAS);
        let ghost places = lookup_replicas(c0, id@);
        proof {
            assert(self.coordinator.spec_topology() == c0.spec_topology());
            assert(address_views(replicas@) =~= places);
            assert(!any_unassigned(places)) by {
                if any_unassigned(places) {
                    let j = choose|j: int| 0 <= j < places.len() && (#[trigger] places[j]).worker is None;
                }
            }
        }
        match self.coordinator.delete(entity_type, id, &replicas) {
            Ok(()) => Ok(()),
            Err(m) => Err(StoreError::Remote(m)),
        }
    }

    /// The encoded entities of type `entity_type` held locally, in the local
    /// store's order.
    pub fn list_all(&self, entity_type: &str) -> (r: Vec<Vec<u8>>)
        ensures
            r@.map_values(|v: Vec<u8>| v@) == prefixed_values(
                self.spec_coordinator().spec_local_store().records(),
                entity_type@ + "::"@,
            ),
    {
        self.coordinator.local_store.list_all(entity_type)
    }

    /// A page of the encoded entities of type `entity_type` held locally, and
    /// whether more follow it.
    pub fn list_paginated(&self, entity_type: &str, offset: usize, limit: usize) -> (r: (Vec<Vec<u8>>, bool))
        requires
            offset + limit <= usize::MAX,
        ensures
            r.0@.map_values(|v: Vec<u8>| v@) == page_of(
                prefixed_values(self.spec_coordinator().spec_local_store().records(), entity_type@ + "::"@),
                offset as int,
                limit as int,
            ).0,
            r.1 == page_of(
                prefixed_values(self.spec_coordinator().spec_local_store().records(), entity_type@ + "::"@),
                offset as int,
                limit as int,
            ).1,
    {
        self.coordinator.local_store.list_paginated(entity_type, offset, limit)
    }
}

/// The distributed store reads back what it saved: after a save of `data`,
/// a read gives `data`; after a delete that followed, a read gives nothing.
/// `saved` and `deleted` are the coordinators after each step, as `save` and
/// `delete` leave them.
pub proof fn law_distributed_read_after_write<C>(
    before: Map<Seq<char>, Seq<u8>>,
    saved: DistributedStoreCoordinator<C>,
    deleted: DistributedStoreCoordinator<C>,
    entity_type: Seq<char>,
    id: Seq<char>,
    data: Seq<u8>,
)
    requires
        saved.local_contents() == before.insert(entity_key_spec(entity_type, id), data),
        deleted.local_contents() == saved.local_contents().remove(entity_key_spec(entity_type, id)),
    ensures
        local_lookup(saved, entity_type, id) == Some(data),
        local_lookup(deleted, entity_type, id) is None,
{
}

} // verus!

