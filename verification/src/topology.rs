//! A node-to-workers view of the cluster, with a version and a freshness stamp.
use vstd::prelude::*;

use crate::clock::unix_now_secs;
use crate::cluster_model::{NodeId, WorkerId};

verus! {

/// The entries of a topology as mathematical values: node id and its workers.
pub type TopologyEntries = Seq<(Seq<char>, Seq<Seq<char>>)>;

/// No node id occurs twice among the entries.
pub open spec fn distinct_nodes(e: TopologyEntries) -> bool {
    forall|i: int, j: int| 0 <= i < e.len() && 0 <= j < e.len() && i != j ==> e[i].0 != e[j].0
}

/// The entries know node `k`.
pub open spec fn has_node(e: TopologyEntries, k: Seq<char>) -> bool {
    exists|i: int| 0 <= i < e.len() && e[i].0 == k
}

/// The node-to-workers map that the entries describe.
pub open spec fn entries_map(e: TopologyEntries) -> Map<Seq<char>, Seq<Seq<char>>> {
    Map::new(
        |k: Seq<char>| has_node(e, k),
        |k: Seq<char>| e[choose|i: int| 0 <= i < e.len() && e[i].0 == k].1,
    )
}

/// With distinct node ids, the map sends each entry's node to that entry's workers.
pub proof fn lemma_entries_map_at(e: TopologyEntries, i: int)
    requires
        distinct_nodes(e),
        0 <= i < e.len(),
    ensures
        entries_map(e).dom().contains(e[i].0),
        entries_map(e)[e[i].0] == e[i].1,
{
    assert(has_node(e, e[i].0));
    let j = choose|j: int| 0 <= j < e.len() && e[j].0 == e[i].0;
    assert(j == i);
}

/// Sum of the lengths of the worker lists.
pub open spec fn workers_total(e: TopologyEntries) -> nat
    decreases e.len(),
{
    if e.len() == 0 {
        0
    } else {
        workers_total(e.drop_last()) + e.last().1.len()
    }
}

/// A view of the cluster: which workers run on which node, how recent it is,
/// and how many nodes the cluster is believed to have.
#[derive(Debug, Clone)]
pub struct TopologyView {
    /// Version of the topology, for consistency checks.
    pub version: u64,
    /// Seconds since the Unix epoch at which the view was last refreshed.
    pub timestamp: u64,
    /// Node id and its workers; each node id occurs once.
    pub workers_per_node: Vec<(NodeId, Vec<WorkerId>)>,
    /// Estimated number of nodes in the whole cluster.
    pub estimated_total_nodes: usize,
}

impl TopologyView {
    /// The entries as mathematical values.
    pub open spec fn entries(&self) -> TopologyEntries {
        self.workers_per_node.deep_view()
    }

    /// The node-to-workers map of this view.
    pub open spec fn nodes(&self) -> Map<Seq<char>, Seq<Seq<char>>> {
        entries_map(self.entries())
    }

    /// Each node id occurs once.
    pub open spec fn wf(&self) -> bool {
        distinct_nodes(self.entries())
    }

    /// Builds a view from node/worker pairs taken at time `now` (seconds since the
    /// epoch); version and timestamp are both `now`. A node listed twice keeps
    /// the workers of its last listing.
    pub fn new_at(
        workers_per_node: Vec<(NodeId, Vec<WorkerId>)>,
        estimated_total: usize,
        now: u64,
    ) -> (r: Self)
        ensures
            r.wf(),
            r.version == now,
            r.timestamp == now,
            r.estimated_total_nodes == estimated_total,
            r.nodes() == pairs_map(workers_per_node.deep_view()),
    {
        let mut r = TopologyView {
            version: now,
            timestamp: now,
            workers_per_node: Vec::new(),
            estimated_total_nodes: estimated_total,
        };
        let ghost input = workers_per_node.deep_view();
        proof {
            assert(r.nodes() =~= pairs_map(input.take(0)));
        }
        let n = workers_per_node.len();
        let mut k: usize = 0;
        while k < n
            invariant
                r.wf(),
                r.version == now,
                r.timestamp == now,
                r.estimated_total_nodes == estimated_total,
                n == workers_per_node.len(),
                input == workers_per_node.deep_view(),
                k <= n,
                r.nodes() == pairs_map(input.take(k as int)),
            decreases n - k,
        {
            let node = workers_per_node[k].0.clone();
            let workers = clone_strings(&workers_per_node[k].1);
            r.insert_node(node, workers);
            proof {
                assert(input.take(k + 1).drop_last() =~= input.take(k as int));
                assert(input.take(k + 1).last() == input[k as int]);
            }
            k = k + 1;
        }
        proof {
            assert(input.take(k as int) =~= input);
        }
        r
    }

    /// Builds a view from node/worker pairs stamped with the current time, which
    /// is also its version. A node listed twice keeps its last listing.
    pub fn new(workers_per_node: Vec<(NodeId, Vec<WorkerId>)>, estimated_total: usize) -> (r:
        Self)
        ensures
            r.wf(),
            r.version == r.timestamp,
            r.estimated_total_nodes == estimated_total,
            r.nodes() == pairs_map(workers_per_node.deep_view()),
    {
        let now = unix_now_secs();
        Self::new_at(workers_per_node, estimated_total, now)
    }

    /// Builds a view with the given version, stamped with the current time.
    pub fn with_version(
        workers_per_node: Vec<(NodeId, Vec<WorkerId>)>,
        estimated_total: usize,
        version: u64,
    ) -> (r: Self)
        ensures
            r.wf(),
            r.version == version,
            r.estimated_total_nodes == estimated_total,
            r.nodes() == pairs_map(workers_per_node.deep_view()),
    {
        let now = unix_now_secs();
        Self::with_version_at(workers_per_node, estimated_total, version, now)
    }

    /// Whether the view is at most `ttl_seconds` old by the system clock.
    pub fn is_fresh(&self, ttl_seconds: u64) -> (r: bool)
        ensures
            exists|now: u64| r == (age_secs(now, self.timestamp) <= ttl_seconds),
    {
        let now = unix_now_secs();
        self.is_fresh_at(now, ttl_seconds)
    }

    /// Stamps the view with the current time.
    pub fn refresh_timestamp(&mut self)
        ensures
            final(self).version == old(self).version,
            final(self).workers_per_node@ == old(self).workers_per_node@,
            final(self).estimated_total_nodes == old(self).estimated_total_nodes,
    {
        let now = unix_now_secs();
        self.refresh_timestamp_at(now);
    }

    /// A view that knows no node, with version, timestamp and estimate 0.
    pub fn empty() -> (r: Self)
        ensures
            r.wf(),
            r.version == 0,
            r.timestamp == 0,
            r.workers_per_node@.len() == 0,
            r.nodes() == Map::<Seq<char>, Seq<Seq<char>>>::empty(),
            r.estimated_total_nodes == 0,
    {
        let r = TopologyView {
            version: 0,
            timestamp: 0,
            workers_per_node: Vec::new(),
            estimated_total_nodes: 0,
        };
        assert(r.nodes() =~= Map::<Seq<char>, Seq<Seq<char>>>::empty());
        r
    }

    /// Builds a view with the given version, stamped at time `now`.
    pub fn with_version_at(
        workers_per_node: Vec<(NodeId, Vec<WorkerId>)>,
        estimated_total: usize,
        version: u64,
        now: u64,
    ) -> (r: Self)
        ensures
            r.wf(),
            r.version == version,
            r.timestamp == now,
            r.estimated_total_nodes == estimated_total,
            r.nodes() == pairs_map(workers_per_node.deep_view()),
    {
        let mut r = Self::new_at(workers_per_node, estimated_total, now);
        r.version = version;
        r
    }

    /// Whether the view, checked at time `now`, is at most `ttl_seconds` old.
    /// The age is `now - timestamp` in wrapping arithmetic, so a stamp that lies
    /// in the future counts as very old.
    pub fn is_fresh_at(&self, now: u64, ttl_seconds: u64) -> (r: bool)
        ensures
            r == (age_secs(now, self.timestamp) <= ttl_seconds),
    {
        now.wrapping_sub(self.timestamp) <= ttl_seconds
    }

    /// The node ids, in the order the view holds them.
    pub fn get_node_ids(&self) -> (r: Vec<NodeId>)
        ensures
            r.deep_view() == self.entries().map_values(|p: (Seq<char>, Seq<Seq<char>>)| p.0),
    {
        let mut r: Vec<NodeId> = Vec::new();
        let n = self.workers_per_node.len();
        let mut i: usize = 0;
        while i < n
            invariant
                n == self.workers_per_node.len(),
                i <= n,
                r@.len() == i,
                forall|j: int| 0 <= j < i ==> #[trigger] r@[j]@ == self.entries()[j].0,
            decreases n - i,
        {
            assert(self.entries()[i as int].0 == self.workers_per_node@[i as int].0@);
            r.push(self.workers_per_node[i].0.clone());
            i = i + 1;
        }
        assert(r.deep_view() =~= self.entries().map_values(|p: (Seq<char>, Seq<Seq<char>>)| p.0));
        r
    }

    /// The workers of `node_id`, if the view knows that node.
    pub fn get_workers(&self, node_id: &NodeId) -> (r: Option<&Vec<WorkerId>>)
        requires
            self.wf(),
        ensures
            match r {
                Some(w) => self.nodes().dom().contains(node_id@) && self.nodes()[node_id@]
                    == w.deep_view(),
                None => !self.nodes().dom().contains(node_id@),
            },
    {
        let n = self.workers_per_node.len();
        let mut i: usize = 0;
        while i < n
            invariant
                n == self.workers_per_node.len(),
                i <= n,
                self.wf(),
                forall|j: int| 0 <= j < i ==> #[trigger] self.entries()[j].0 != node_id@,
            decreases n - i,
        {
            assert(self.entries()[i as int].0 == self.workers_per_node@[i as int].0@);
            if self.workers_per_node[i].0 == *node_id {
                proof {
                    lemma_entries_map_at(self.entries(), i as int);
                }
                return Some(&self.workers_per_node[i].1);
            }
            i = i + 1;
        }
        None
    }

    /// Number of nodes the view knows.
    pub fn known_nodes_count(&self) -> (r: usize)
        requires
            self.wf(),
        ensures
            r == self.nodes().dom().len(),
            self.nodes().dom().finite(),
    {
        proof {
            lemma_entries_map_len(self.entries());
        }
        self.workers_per_node.len()
    }

    /// Number of workers over all nodes.
    pub fn total_workers_count(&self) -> (r: usize)
        requires
            workers_total(self.entries()) <= usize::MAX,
        ensures
            r == workers_total(self.entries()),
    {
        let n = self.workers_per_node.len();
        let mut sum: usize = 0;
        let mut i: usize = 0;
        while i < n
            invariant
                n == self.workers_per_node.len(),
                i <= n,
                workers_total(self.entries()) <= usize::MAX,
                sum == workers_total(self.entries().take(i as int)),
            decreases n - i,
        {
            proof {
                let e = self.entries();
                assert(e.take(i + 1).drop_last() =~= e.take(i as int));
                lemma_workers_total_prefix(e, i + 1);
            }
            sum = sum + self.workers_per_node[i].1.len();
            i = i + 1;
        }
        assert(self.entries().take(n as int) =~= self.entries());
        sum
    }

    /// Whether the view knows `node_id`.
    pub fn contains_node(&self, node_id: &NodeId) -> (r: bool)
        ensures
            r == self.nodes().dom().contains(node_id@),
    {
        let n = self.workers_per_node.len();
        let mut i: usize = 0;
        while i < n
            invariant
                n == self.workers_per_node.len(),
                i <= n,
                forall|j: int| 0 <= j < i ==> #[trigger] self.entries()[j].0 != node_id@,
            decreases n - i,
        {
            assert(self.entries()[i as int].0 == self.workers_per_node@[i as int].0@);
            if self.workers_per_node[i].0 == *node_id {
                assert(has_node(self.entries(), node_id@));
                return true;
            }
            i = i + 1;
        }
        false
    }

    /// Stamps the view with time `now`.
    pub fn refresh_timestamp_at(&mut self, now: u64)
        ensures
            final(self).timestamp == now,
            final(self).version == old(self).version,
            final(self).workers_per_node@ == old(self).workers_per_node@,
            final(self).estimated_total_nodes == old(self).estimated_total_nodes,
    {
        self.timestamp = now;
    }

    /// Merges `other` into this view: the later version and timestamp win, the
    /// workers of every node of `other` replace this view's, and the larger
    /// node estimate is kept.
    pub fn merge(&mut self, other: &TopologyView)
        requires
            old(self).wf(),
            other.wf(),
        ensures
            final(self).wf(),
            final(self).version == max_u64(old(self).version, other.version),
            final(self).timestamp == max_u64(old(self).timestamp, other.timestamp),
            final(self).nodes() == old(self).nodes().union_prefer_right(other.nodes()),
            final(self).estimated_total_nodes == if old(self).estimated_total_nodes
                >= other.estimated_total_nodes {
                old(self).estimated_total_nodes
            } else {
                other.estimated_total_nodes
            },
    {
        if other.version > self.version {
            self.version = other.version;
        }
        if other.timestamp > self.timestamp {
            self.timestamp = other.timestamp;
        }
        let ghost start = self.nodes();
        let ghost oe = other.entries();
        proof {
            assert(start.union_prefer_right(pairs_map(oe.take(0))) =~= start);
        }
        let n = other.workers_per_node.len();
        let mut i: usize = 0;
        while i < n
            invariant
                n == other.workers_per_node.len(),
                oe == other.entries(),
                i <= n,
                self.wf(),
                self.version == max_u64(old(self).version, other.version),
                self.timestamp == max_u64(old(self).timestamp, other.timestamp),
                self.estimated_total_nodes == old(self).estimated_total_nodes,
                self.nodes() == start.union_prefer_right(pairs_map(oe.take(i as int))),
            decreases n - i,
        {
            let node = other.workers_per_node[i].0.clone();
            let workers = clone_strings(&other.workers_per_node[i].1);
            self.insert_node(node, workers);
            proof {
                assert(oe.take(i + 1).drop_last() =~= oe.take(i as int));
                assert(oe.take(i + 1).last() == oe[i as int]);
                assert(self.nodes() =~= start.union_prefer_right(pairs_map(oe.take(i + 1))));
            }
            i = i + 1;
        }
        proof {
            assert(oe.take(n as int) =~= oe);
            lemma_pairs_map_distinct(oe);
        }
        if other.estimated_total_nodes > self.estimated_total_nodes {
            self.estimated_total_nodes = other.estimated_total_nodes;
        }
    }

    /// Sets the workers of `node`, adding the node if it is not known yet.
    pub fn insert_node(&mut self, node: NodeId, workers: Vec<WorkerId>)
        requires
            old(self).wf(),
        ensures
            final(self).wf(),
            final(self).nodes() == old(self).nodes().insert(node@, workers.deep_view()),
            final(self).version == old(self).version,
            final(self).timestamp == old(self).timestamp,
            final(self).estimated_total_nodes == old(self).estimated_total_nodes,
    {
        let ghost old_e = self.entries();
        let ghost v = workers.deep_view();
        let n = self.workers_per_node.len();
        let mut i: usize = 0;
        while i < n
            invariant
                n == self.workers_per_node.len(),
                self.entries() == old_e,
                old_e == old(self).entries(),
                distinct_nodes(old_e),
                v == workers.deep_view(),
                self.version == old(self).version,
                self.timestamp == old(self).timestamp,
                self.estimated_total_nodes == old(self).estimated_total_nodes,
                old_e.len() == n,
                i <= n,
                forall|j: int| 0 <= j < i ==> #[trigger] old_e[j].0 != node@,
            decreases n - i,
        {
            if self.workers_per_node[i].0 == node {
                self.workers_per_node.set(i, (node, workers));
                proof {
                    assert(self.entries() =~= old_e.update(i as int, (node@, v)));
                    lemma_map_update(old_e, i as int, node@, v);
                }
                return;
            }
            i = i + 1;
        }
        self.workers_per_node.push((node, workers));
        proof {
            assert(self.entries() =~= old_e.push((node@, v)));
            lemma_map_push(old_e, node@, v);
        }
    }
}

/// Replacing the workers of an entry updates the map at that entry's node.
pub proof fn lemma_map_update(e: TopologyEntries, i: int, k: Seq<char>, v: Seq<Seq<char>>)
    requires
        distinct_nodes(e),
        0 <= i < e.len(),
        e[i].0 == k,
    ensures
        distinct_nodes(e.update(i, (k, v))),
        entries_map(e.update(i, (k, v))) == entries_map(e).insert(k, v),
{
    let f = e.update(i, (k, v));
    assert(distinct_nodes(f));
    assert forall|x: Seq<char>| #[trigger] has_node(f, x) == (has_node(e, x) || x == k) by {
        if has_node(f, x) {
            let j = choose|j: int| 0 <= j < f.len() && f[j].0 == x;
            assert(e[j].0 == x);
        }
        if has_node(e, x) {
            let j = choose|j: int| 0 <= j < e.len() && e[j].0 == x;
            assert(f[j].0 == x);
        }
        if x == k {
            assert(f[i].0 == x);
        }
    }
    assert forall|x: Seq<char>| #[trigger] has_node(f, x) implies entries_map(f)[x] == entries_map(
        e,
    ).insert(k, v)[x] by {
        let j = choose|j: int| 0 <= j < f.len() && f[j].0 == x;
        lemma_entries_map_at(f, j);
        if x != k {
            lemma_entries_map_at(e, j);
        }
    }
    assert(entries_map(f) =~= entries_map(e).insert(k, v));
}

/// Adding an entry for a new node inserts it into the map.
pub proof fn lemma_map_push(e: TopologyEntries, k: Seq<char>, v: Seq<Seq<char>>)
    requires
        distinct_nodes(e),
        !has_node(e, k),
    ensures
        distinct_nodes(e.push((k, v))),
        entries_map(e.push((k, v))) == entries_map(e).insert(k, v),
{
    let f = e.push((k, v));
    assert forall|a: int, b: int| 0 <= a < f.len() && 0 <= b < f.len() && a != b implies f[a].0
        != f[b].0 by {
        if a == e.len() {
            assert(f[b].0 == e[b].0);
        } else if b == e.len() {
            assert(f[a].0 == e[a].0);
        }
    }
    assert forall|x: Seq<char>| #[trigger] has_node(f, x) == (has_node(e, x) || x == k) by {
        if has_node(f, x) {
            let j = choose|j: int| 0 <= j < f.len() && f[j].0 == x;
            if j < e.len() {
                assert(e[j].0 == x);
            }
        }
        if has_node(e, x) {
            let j = choose|j: int| 0 <= j < e.len() && e[j].0 == x;
            assert(f[j].0 == x);
        }
        if x == k {
            assert(f[e.len() as int].0 == x);
        }
    }
    assert forall|x: Seq<char>| #[trigger] has_node(f, x) implies entries_map(f)[x] == entries_map(
        e,
    ).insert(k, v)[x] by {
        let j = choose|j: int| 0 <= j < f.len() && f[j].0 == x;
        lemma_entries_map_at(f, j);
        if x != k {
            assert(j < e.len());
            lemma_entries_map_at(e, j);
        }
    }
    assert(entries_map(f) =~= entries_map(e).insert(k, v));
}

/// Age in seconds of a stamp `ts` seen at time `now`, in wrapping arithmetic.
pub open spec fn age_secs(now: u64, ts: u64) -> u64 {
    if now >= ts {
        (now - ts) as u64
    } else {
        (now - ts + 0x1_0000_0000_0000_0000) as u64
    }
}

/// The larger of two integers.
pub open spec fn max_u64(a: u64, b: u64) -> u64 {
    if a >= b {
        a
    } else {
        b
    }
}

/// With distinct node ids the map has one key per entry.
pub proof fn lemma_entries_map_len(e: TopologyEntries)
    requires
        distinct_nodes(e),
    ensures
        entries_map(e).dom().finite(),
        entries_map(e).dom().len() == e.len(),
    decreases e.len(),
{
    if e.len() == 0 {
        assert(entries_map(e).dom() =~= Set::<Seq<char>>::empty());
    } else {
        let p = e.drop_last();
        assert(distinct_nodes(p));
        lemma_entries_map_len(p);
        assert(!has_node(p, e.last().0)) by {
            if has_node(p, e.last().0) {
                let j = choose|j: int| 0 <= j < p.len() && p[j].0 == e.last().0;
                assert(e[j].0 == e[e.len() - 1].0);
            }
        }
        lemma_map_push(p, e.last().0, e.last().1);
        assert(p.push(e.last()) =~= e);
        assert(entries_map(e).dom() =~= entries_map(p).dom().insert(e.last().0));
    }
}

/// With distinct node ids, inserting the pairs in order gives the entries' map.
pub proof fn lemma_pairs_map_distinct(e: TopologyEntries)
    requires
        distinct_nodes(e),
    ensures
        pairs_map(e) == entries_map(e),
    decreases e.len(),
{
    if e.len() == 0 {
        assert(entries_map(e) =~= Map::<Seq<char>, Seq<Seq<char>>>::empty());
    } else {
        let p = e.drop_last();
        assert(distinct_nodes(p));
        lemma_pairs_map_distinct(p);
        assert(!has_node(p, e.last().0)) by {
            if has_node(p, e.last().0) {
                let j = choose|j: int| 0 <= j < p.len() && p[j].0 == e.last().0;
                assert(e[j].0 == e[e.len() - 1].0);
            }
        }
        lemma_map_push(p, e.last().0, e.last().1);
        assert(p.push(e.last()) =~= e);
    }
}

/// A prefix holds no more workers than the whole.
pub proof fn lemma_workers_total_prefix(e: TopologyEntries, i: int)
    requires
        0 <= i <= e.len(),
    ensures
        workers_total(e.take(i)) <= workers_total(e),
    decreases e.len() - i,
{
    if i < e.len() {
        lemma_workers_total_prefix(e, i + 1);
        assert(e.take(i + 1).drop_last() =~= e.take(i));
    } else {
        assert(e.take(i) =~= e);
    }
}

/// A copy of a list of strings.
pub fn clone_strings(v: &Vec<String>) -> (r: Vec<String>)
    ensures
        r@ == v@,
        r.deep_view() == v.deep_view(),
{
    let mut r: Vec<String> = Vec::new();
    let mut i: usize = 0;
    while i < v.len()
        invariant
            i <= v.len(),
            r@ == v@.take(i as int),
        decreases v.len() - i,
    {
        r.push(v[i].clone());
        assert(r@ =~= v@.take(i + 1));
        i = i + 1;
    }
    assert(r@ =~= v@);
    assert(r.deep_view() =~= v.deep_view());
    r
}

/// The map that inserting the pairs one after another, in order, produces.
pub open spec fn pairs_map(p: TopologyEntries) -> Map<Seq<char>, Seq<Seq<char>>>
    decreases p.len(),
{
    if p.len() == 0 {
        Map::empty()
    } else {
        pairs_map(p.drop_last()).insert(p.last().0, p.last().1)
    }
}

} // verus!
