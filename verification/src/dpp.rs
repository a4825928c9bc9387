//! The data-plane protocol: queries and their results, and the table of
//! cluster members kept by address.
use vstd::prelude::*;

use crate::keyed::{distinct_keys, has_key, keyed_map, lemma_keyed_at, lemma_keyed_push, lemma_keyed_remove, lemma_keyed_update};
use crate::text::str_eq;

verus! {

/// How the rows of a result are encoded.
#[derive(Debug, Default, Clone, Copy, PartialEq, Eq, Structural)]
pub enum OutputFormat {
    JSON,
    RON,
    BITCODE,
    #[default]
    ARROW,
}

/// How a query asks its result to be shaped.
#[derive(Debug, Default, Clone, Copy, PartialEq, Eq, Structural)]
pub struct QueryFlags {
    pub limit: Option<usize>,
    pub format: OutputFormat,
}

/// A query: its expression and, optionally, how the result is shaped.
#[derive(Debug, Default, Clone, PartialEq, Eq)]
pub struct Query {
    pub expr: String,
    pub flags: Option<QueryFlags>,
}

/// The encoded rows of a result, and their encoding.
#[derive(Debug, Default, Clone, PartialEq, Eq)]
pub struct QueryResult {
    pub result: Vec<u8>,
    pub format: OutputFormat,
}

/// A message of the protocol: a query or a result.
#[derive(Debug, Clone, PartialEq, Eq)]
pub enum QueryMessage {
    Query(Query),
    Result(QueryResult),
}

/// A member of a cluster, as it reports itself.
#[derive(Debug, Default, Clone)]
pub struct Node {
    pub host: String,
    /// The address the member is known by in the cluster table.
    pub addr: String,
    pub local_rank: Option<i32>,
    pub rank: Option<i32>,
    pub world_size: Option<i32>,
    pub group_rank: Option<i32>,
    pub group_world_size: Option<i32>,
    pub role_name: Option<String>,
    pub role_rank: Option<i32>,
    pub role_world_size: Option<i32>,
    pub status: Option<String>,
    pub timestamp: u64,
}

/// What a member's record holds, with texts in place of strings.
pub struct NodeView {
    pub host: Seq<char>,
    pub addr: Seq<char>,
    pub local_rank: Option<i32>,
    pub rank: Option<i32>,
    pub world_size: Option<i32>,
    pub group_rank: Option<i32>,
    pub group_world_size: Option<i32>,
    pub role_name: Option<Seq<char>>,
    pub role_rank: Option<i32>,
    pub role_world_size: Option<i32>,
    pub status: Option<Seq<char>>,
    pub timestamp: u64,
}

/// The value of an optional text.
pub open spec fn opt_view(s: Option<String>) -> Option<Seq<char>> {
    match s {
        Some(x) => Some(x@),
        None => None,
    }
}

impl View for Node {
    type V = NodeView;

    open spec fn view(&self) -> NodeView {
        NodeView {
            host: self.host@,
            addr: self.addr@,
            local_rank: self.local_rank,
            rank: self.rank,
            world_size: self.world_size,
            group_rank: self.group_rank,
            group_world_size: self.group_world_size,
            role_name: opt_view(self.role_name),
            role_rank: self.role_rank,
            role_world_size: self.role_world_size,
            status: opt_view(self.status),
            timestamp: self.timestamp,
        }
    }
}

fn copy_opt(s: &Option<String>) -> (r: Option<String>)
    ensures
        opt_view(r) == opt_view(*s),
{
    match s {
        Some(x) => Some(x.clone()),
        None => None,
    }
}

impl Node {
    /// A copy of the record.
    pub fn duplicate(&self) -> (r: Node)
        ensures
            r@ == self@,
    {
        Node {
            host: self.host.clone(),
            addr: self.addr.clone(),
            local_rank: self.local_rank,
            rank: self.rank,
            world_size: self.world_size,
            group_rank: self.group_rank,
            group_world_size: self.group_world_size,
            role_name: copy_opt(&self.role_name),
            role_rank: self.role_rank,
            role_world_size: self.role_world_size,
            status: copy_opt(&self.status),
            timestamp: self.timestamp,
        }
    }
}

/// The members of a cluster, one per address.
#[derive(Debug, Default)]
pub struct Cluster {
    nodes: Vec<Node>,
}

/// Each record keyed by its address.
pub open spec fn keyed_nodes(s: Seq<Node>) -> Seq<(Seq<char>, NodeView)> {
    s.map_values(|n: Node| (n.addr@, n@))
}

impl Cluster {
    /// The records kept, in the order they were first put.
    pub closed spec fn records(&self) -> Seq<Node> {
        self.nodes@
    }

    /// The members by address.
    pub open spec fn members(&self) -> Map<Seq<char>, NodeView> {
        keyed_map(keyed_nodes(self.records()))
    }

    /// No two records share an address.
    pub open spec fn wf(&self) -> bool {
        distinct_keys(keyed_nodes(self.records()))
    }

    /// A cluster without members.
    pub fn new() -> (r: Cluster)
        ensures
            r.wf(),
            r.members() == Map::<Seq<char>, NodeView>::empty(),
    {
        let r = Cluster { nodes: Vec::new() };
        assert(keyed_nodes(r.records()) =~= Seq::<(Seq<char>, NodeView)>::empty());
        assert(r.members() =~= Map::<Seq<char>, NodeView>::empty());
        r
    }

    fn find(&self, addr: &str) -> (r: Option<usize>)
        ensures
            match r {
                Some(i) => i < self.records().len() && self.records()[i as int].addr@ == addr@,
                None => !has_key(keyed_nodes(self.records()), addr@),
            },
    {
        let ghost ks = keyed_nodes(self.records());
        let mut i: usize = 0;
        while i < self.nodes.len()
            invariant
                i <= self.nodes@.len(),
                ks == keyed_nodes(self.records()),
                forall|j: int| 0 <= j < i ==> #[trigger] ks[j].0 != addr@,
            decreases self.nodes.len() - i,
        {
            if str_eq(self.nodes[i].addr.as_str(), addr) {
                return Some(i);
            }
            assert(ks[i as int].0 == self.nodes@[i as int].addr@);
            i = i + 1;
        }
        None
    }

    /// Records `node` under its address, replacing any record there.
    pub fn put(&mut self, node: Node)
        requires
            old(self).wf(),
        ensures
            final(self).wf(),
            final(self).members() == old(self).members().insert(node.addr@, node@),
    {
        let ghost ks = keyed_nodes(self.records());
        let ghost key = node.addr@;
        let ghost nv = node@;
        match self.find(node.addr.as_str()) {
            Some(i) => {
                self.nodes.set(i, node);
                proof {
                    assert(ks[i as int].0 == key);
                    lemma_keyed_update(ks, i as int, nv);
                    assert(keyed_nodes(self.records()) =~= ks.update(i as int, (ks[i as int].0, nv)));
                }
            },
            None => {
                self.nodes.push(node);
                proof {
                    lemma_keyed_push(ks, key, nv);
                    assert(keyed_nodes(self.records()) =~= ks.push((key, nv)));
                }
            },
        }
    }

    /// The record of the member at `addr`.
    pub fn get(&self, addr: &str) -> (r: Option<&Node>)
        requires
            self.wf(),
        ensures
            match r {
                Some(n) => self.members().dom().contains(addr@) && self.members()[addr@] == n@,
                None => !self.members().dom().contains(addr@),
            },
    {
        match self.find(addr) {
            Some(i) => {
                proof {
                    lemma_keyed_at(keyed_nodes(self.records()), i as int);
                }
                Some(&self.nodes[i])
            },
            None => None,
        }
    }

    /// Takes out the record of the member at `addr`, if there is one.
    pub fn remove(&mut self, addr: &str) -> (r: Option<Node>)
        requires
            old(self).wf(),
        ensures
            final(self).wf(),
            final(self).members() == old(self).members().remove(addr@),
            match r {
                Some(n) => old(self).members().dom().contains(addr@) && old(self).members()[addr@] == n@,
                None => !old(self).members().dom().contains(addr@),
            },
    {
        let ghost ks = keyed_nodes(self.records());
        match self.find(addr) {
            Some(i) => {
                proof {
                    lemma_keyed_at(ks, i as int);
                    lemma_keyed_remove(ks, i as int);
                }
                let n = self.nodes.remove(i);
                proof {
                    assert(keyed_nodes(self.records()) =~= ks.remove(i as int));
                }
                Some(n)
            },
            None => {
                assert(old(self).members().remove(addr@) =~= old(self).members());
                None
            },
        }
    }

    /// Copies of every record.
    pub fn list(&self) -> (r: Vec<Node>)
        requires
            self.wf(),
        ensures
            r@.len() == self.members().dom().len(),
            forall|i: int|
                0 <= i < r@.len() ==> self.members().dom().contains((#[trigger] r@[i])@.addr)
                    && self.members()[r@[i]@.addr] == r@[i]@,
            forall|a: Seq<char>| #[trigger]
                self.members().dom().contains(a) ==> exists|i: int| 0 <= i < r@.len() && r@[i]@.addr == a,
    {
        let ghost ks = keyed_nodes(self.records());
        proof {
            crate::keyed::lemma_keyed_len(ks);
        }
        let mut r: Vec<Node> = Vec::new();
        let mut k: usize = 0;
        while k < self.nodes.len()
            invariant
                self.wf(),
                ks == keyed_nodes(self.records()),
                k <= self.nodes@.len(),
                r@.len() == k,
                forall|i: int| 0 <= i < k ==> (#[trigger] r@[i])@ == ks[i].1 && r@[i]@.addr == ks[i].0,
            decreases self.nodes.len() - k,
        {
            r.push(self.nodes[k].duplicate());
            k = k + 1;
        }
        proof {
            assert forall|i: int| 0 <= i < r@.len() implies self.members().dom().contains(
                (#[trigger] r@[i])@.addr,
            ) && self.members()[r@[i]@.addr] == r@[i]@ by {
                lemma_keyed_at(ks, i);
            }
            assert forall|a: Seq<char>| #[trigger] self.members().dom().contains(a) implies exists|i: int|
                0 <= i < r@.len() && r@[i]@.addr == a by {
                let j = choose|j: int| 0 <= j < ks.len() && ks[j].0 == a;
                assert(r@[j]@.addr == a);
            }
        }
        r
    }
}

/// What is put is what is got: after putting a record, getting its address
/// gives that record, and other addresses give what they gave before.
pub proof fn law_get_after_put(before: Map<Seq<char>, NodeView>, node: NodeView, other: Seq<char>)
    ensures
        before.insert(node.addr, node).dom().contains(node.addr),
        before.insert(node.addr, node)[node.addr] == node,
        other != node.addr ==> (before.insert(node.addr, node).dom().contains(other) == before.dom().contains(other)),
        other != node.addr && before.dom().contains(other) ==> before.insert(node.addr, node)[other] == before[other],
{
}

/// After removing an address, getting it gives nothing, and other addresses
/// give what they gave before.
pub proof fn law_get_after_remove(before: Map<Seq<char>, NodeView>, addr: Seq<char>, other: Seq<char>)
    ensures
        !before.remove(addr).dom().contains(addr),
        other != addr ==> (before.remove(addr).dom().contains(other) == before.dom().contains(other)),
        other != addr && before.dom().contains(other) ==> before.remove(addr)[other] == before[other],
{
}

/// The members after putting `nodes` in order: each record under its address,
/// later records replacing earlier ones.
pub open spec fn put_all_spec(m: Map<Seq<char>, NodeView>, nodes: Seq<NodeView>) -> Map<Seq<char>, NodeView>
    decreases nodes.len(),
{
    if nodes.len() == 0 {
        m
    } else {
        put_all_spec(m, nodes.drop_last()).insert(nodes.last().addr, nodes.last())
    }
}

impl Cluster {
    /// Puts each record in order (see `put`).
    pub fn put_all(&mut self, nodes: Vec<Node>)
        requires
            old(self).wf(),
        ensures
            final(self).wf(),
            final(self).members() == put_all_spec(old(self).members(), nodes@.map_values(|n: Node| n@)),
    {
        let ghost start = self.members();
        let ghost nv = nodes@.map_values(|n: Node| n@);
        assert(nv.take(0) =~= Seq::<NodeView>::empty());
        let mut i: usize = 0;
        while i < nodes.len()
            invariant
                self.wf(),
                i <= nodes@.len(),
                nv == nodes@.map_values(|n: Node| n@),
                self.members() == put_all_spec(start, nv.take(i as int)),
            decreases nodes.len() - i,
        {
            let n = nodes[i].duplicate();
            assert(n@ == nv[i as int]);
            self.put(n);
            assert(nv.take(i + 1).drop_last() =~= nv.take(i as int));
            i = i + 1;
        }
        let ghost total = nv.len();
        assert(nv.take(total as int) =~= nv);
    }
}

} // verus!
