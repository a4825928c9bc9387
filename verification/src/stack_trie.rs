//! Merging the call stacks of many ranks into one trie for a flame graph:
//! each node records which ranks passed through it, and each output line
//! names the ranks that have the stack and those that lack it.
use vstd::prelude::*;
use vstd::string::*;

use crate::keyed::{distinct_keys, has_key, keyed_map, lemma_keyed_at, lemma_keyed_push, lemma_keyed_update};
use crate::text::{decimal, push_decimal, str_eq};

verus! {

/// Inserts `x` into an ascending list, after the entries equal to it.
pub open spec fn insert_asc(x: u32, s: Seq<u32>) -> Seq<u32>
    decreases s.len(),
{
    if s.len() == 0 {
        seq![x]
    } else if x < s[0] {
        seq![x] + s
    } else {
        seq![s[0]] + insert_asc(x, s.drop_first())
    }
}

/// The ranks in ascending order.
pub open spec fn sort_asc(s: Seq<u32>) -> Seq<u32>
    decreases s.len(),
{
    if s.len() == 0 {
        s
    } else {
        insert_asc(s.last(), sort_asc(s.drop_last()))
    }
}

/// `insert_asc` puts `x` before the first element greater than it.
proof fn lemma_insert_asc_at(x: u32, s: Seq<u32>, p: int)
    requires
        0 <= p <= s.len(),
        forall|q: int| 0 <= q < p ==> #[trigger] s[q] <= x,
        p < s.len() ==> x < s[p],
    ensures
        insert_asc(x, s) == s.take(p) + seq![x] + s.skip(p),
    decreases s.len(),
{
    if s.len() == 0 {
        assert(s.take(p) + seq![x] + s.skip(p) =~= seq![x]);
    } else if p == 0 {
        assert(s.take(p) + seq![x] + s.skip(p) =~= seq![x] + s);
    } else {
        let t = s.drop_first();
        assert forall|q: int| 0 <= q < p - 1 implies #[trigger] t[q] <= x by {
            assert(t[q] == s[q + 1]);
        }
        lemma_insert_asc_at(x, t, p - 1);
        assert(seq![s[0]] + (t.take(p - 1) + seq![x] + t.skip(p - 1)) =~= s.take(p) + seq![x]
            + s.skip(p));
    }
}

/// Sorts ranks in ascending order.
pub fn sort_ranks(v: &Vec<u32>) -> (r: Vec<u32>)
    ensures
        r@ == sort_asc(v@),
{
    let mut r: Vec<u32> = Vec::new();
    assert(v@.take(0) =~= Seq::<u32>::empty());
    let mut i: usize = 0;
    while i < v.len()
        invariant
            i <= v.len(),
            r@ == sort_asc(v@.take(i as int)),
        decreases v.len() - i,
    {
        let x = v[i];
        let mut p: usize = 0;
        while p < r.len() && r[p] <= x
            invariant
                p <= r.len(),
                forall|q: int| 0 <= q < p ==> #[trigger] r@[q] <= x,
            decreases r.len() - p,
        {
            p = p + 1;
        }
        proof {
            lemma_insert_asc_at(x, r@, p as int);
            assert(v@.take(i + 1).drop_last() =~= v@.take(i as int));
            assert(v@.take(i + 1).last() == x);
        }
        let ghost before = r@;
        r.insert(p, x);
        assert(r@ =~= before.take(p as int) + seq![x] + before.skip(p as int));
        i = i + 1;
    }
    assert(v@.take(v.len() as int) =~= v@);
    r
}

/// Index of the last element of the run of consecutive values (each one more
/// than the one before) that continues from index `i`.
pub open spec fn run_end(s: Seq<u32>, i: int) -> int
    decreases s.len() - i,
{
    if 0 <= i && i + 1 < s.len() && s[i + 1] == s[i] + 1 {
        run_end(s, i + 1)
    } else {
        i
    }
}

/// A run from `a` to `b`: `a-b`, or `a` alone when it has one element.
pub open spec fn run_text(a: u32, b: u32, single: bool) -> Seq<char> {
    if single {
        decimal(a as nat)
    } else {
        decimal(a as nat) + "-"@ + decimal(b as nat)
    }
}

/// The values split into maximal runs of consecutive values, written
/// `a-b` or `a` and joined by `/`.
pub open spec fn runs_text(s: Seq<u32>) -> Seq<char>
    decreases s.len(),
{
    if s.len() == 0 {
        Seq::empty()
    } else {
        let j = run_end(s, 0);
        proof {
            lemma_run_end_bounds(s, 0);
        }
        if j + 1 < s.len() {
            run_text(s[0], s[j], j == 0) + "/"@ + runs_text(s.skip(j + 1))
        } else {
            run_text(s[0], s[j], j == 0)
        }
    }
}

pub proof fn lemma_run_end_bounds(s: Seq<u32>, i: int)
    requires
        0 <= i < s.len(),
    ensures
        i <= run_end(s, i) < s.len(),
    decreases s.len() - i,
{
    if i + 1 < s.len() && s[i + 1] == s[i] + 1 {
        lemma_run_end_bounds(s, i + 1);
    }
}

proof fn lemma_run_end(s: Seq<u32>, a: int, b: int)
    requires
        0 <= a <= b < s.len(),
        forall|k: int| a <= k < b ==> #[trigger] s[k + 1] == s[k] + 1,
        !(b + 1 < s.len() && s[b + 1] == s[b] + 1),
    ensures
        run_end(s, a) == b,
        a <= run_end(s, a) < s.len(),
    decreases b - a,
{
    if a < b {
        assert(s[a + 1] == s[a] + 1);
        lemma_run_end(s, a + 1, b);
    }
}

proof fn lemma_run_end_skip(s: Seq<u32>, i: int, j: int)
    requires
        0 <= i <= j < s.len(),
        forall|k: int| i <= k < j ==> #[trigger] s[k + 1] == s[k] + 1,
        !(j + 1 < s.len() && s[j + 1] == s[j] + 1),
    ensures
        run_end(s.skip(i), 0) == j - i,
{
    let t = s.skip(i);
    assert forall|k: int| 0 <= k < j - i implies #[trigger] t[k + 1] == t[k] + 1 by {
        assert(t[k + 1] == s[i + k + 1] && t[k] == s[i + k]);
    }
    if j - i + 1 < t.len() {
        assert(t[j - i + 1] == s[j + 1] && t[j - i] == s[j]);
    }
    lemma_run_end(t, 0, j - i);
}

/// Writes ranks as runs of consecutive values, such as `0-3/5/7-8`.
pub fn format_runs(s: &Vec<u32>) -> (r: String)
    ensures
        r@ == runs_text(s@),
{
    let n = s.len();
    let mut out = String::new();
    let mut i: usize = 0;
    proof {
        assert(s@.skip(0) =~= s@);
        assert(out@ + runs_text(s@.skip(0)) =~= runs_text(s@));
    }
    while i < n
        invariant
            n == s@.len(),
            i <= n,
            out@ + runs_text(s@.skip(i as int)) == runs_text(s@),
        decreases n - i,
    {
        let mut j: usize = i;
        while j + 1 < n && s[j] < s[j + 1] && s[j + 1] - s[j] == 1
            invariant
                n == s@.len(),
                i <= j < n,
                forall|k: int| i <= k < j ==> #[trigger] s@[k + 1] == s@[k] + 1,
            decreases n - j,
        {
            j = j + 1;
        }
        let ghost t = s@.skip(i as int);
        proof {
            lemma_run_end_skip(s@, i as int, j as int);
            assert(t[0] == s@[i as int]);
            assert(t[j - i] == s@[j as int]);
        }
        let ghost before = out@;
        push_decimal(&mut out, s[i] as u64);
        if j > i {
            out.append("-");
            push_decimal(&mut out, s[j] as u64);
        }
        proof {
            reveal_strlit("-");
            reveal_strlit("/");
            assert(out@ =~= before + run_text(s@[i as int], s@[j as int], j == i));
            assert(t.skip(j - i + 1) =~= s@.skip(j + 1));
        }
        if j + 1 < n {
            out.append("/");
            assert(out@ + runs_text(s@.skip(j + 1)) =~= runs_text(s@));
        } else {
            assert(s@.skip(j + 1).len() == 0);
            assert(out@ + runs_text(s@.skip(j + 1)) =~= runs_text(s@));
        }
        i = j + 1;
    }
    assert(s@.skip(n as int).len() == 0);
    assert(out@ =~= runs_text(s@));
    out
}

/// The values of `all` that `present` lacks, in order.
pub open spec fn absent_from(all: Seq<u32>, present: Seq<u32>) -> Seq<u32>
    decreases all.len(),
{
    if all.len() == 0 {
        all
    } else if present.contains(all.last()) {
        absent_from(all.drop_last(), present)
    } else {
        absent_from(all.drop_last(), present).push(all.last())
    }
}

/// Whether `v` holds `x`.
fn u32s_contain(v: &Vec<u32>, x: u32) -> (r: bool)
    ensures
        r == v@.contains(x),
{
    let mut i: usize = 0;
    while i < v.len()
        invariant
            i <= v.len(),
            forall|k: int| 0 <= k < i ==> #[trigger] v@[k] != x,
        decreases v.len() - i,
    {
        if v[i] == x {
            return true;
        }
        i = i + 1;
    }
    false
}

/// The rank text of a trie node: `@{ranks with the stack}|{ranks without it}`,
/// both sorted and written as runs.
pub open spec fn rank_text(all_ranks: Seq<u32>, ranks: Seq<u32>) -> Seq<char> {
    "@"@ + runs_text(sort_asc(ranks)) + "|"@ + runs_text(sort_asc(absent_from(all_ranks, ranks)))
}

/// Inserting into a sorted list adds exactly that value.
proof fn lemma_insert_asc_contains(x: u32, t: Seq<u32>)
    ensures
        insert_asc(x, t).len() == t.len() + 1,
        forall|y: u32| #[trigger] insert_asc(x, t).contains(y) == (t.contains(y) || y == x),
    decreases t.len(),
{
    let r = insert_asc(x, t);
    if t.len() > 0 && x >= t[0] {
        let d = t.drop_first();
        lemma_insert_asc_contains(x, d);
        let tail = insert_asc(x, d);
        assert(r == seq![t[0]] + tail);
        assert forall|y: u32| #[trigger] r.contains(y) == (t.contains(y) || y == x) by {
            if r.contains(y) {
                let j = choose|j: int| 0 <= j < r.len() && r[j] == y;
                if j > 0 {
                    assert(tail[j - 1] == y);
                    assert(tail.contains(y));
                    if d.contains(y) {
                        let k = choose|k: int| 0 <= k < d.len() && d[k] == y;
                        assert(t[k + 1] == y);
                    }
                } else {
                    assert(t[0] == y);
                }
            }
            if t.contains(y) {
                let k = choose|k: int| 0 <= k < t.len() && t[k] == y;
                if k == 0 {
                    assert(r[0] == y);
                } else {
                    assert(d[k - 1] == y);
                    assert(tail.contains(y));
                    let j = choose|j: int| 0 <= j < tail.len() && tail[j] == y;
                    assert(r[j + 1] == y);
                }
            }
            if y == x {
                assert(tail.contains(x));
                let j = choose|j: int| 0 <= j < tail.len() && tail[j] == x;
                assert(r[j + 1] == x);
            }
        }
    } else {
        assert(r =~= seq![x] + t);
        assert forall|y: u32| #[trigger] r.contains(y) == (t.contains(y) || y == x) by {
            if r.contains(y) {
                let j = choose|j: int| 0 <= j < r.len() && r[j] == y;
                if j > 0 {
                    assert(t[j - 1] == y);
                }
            }
            if t.contains(y) {
                let k = choose|k: int| 0 <= k < t.len() && t[k] == y;
                assert(r[k + 1] == y);
            }
            if y == x {
                assert(r[0] == x);
            }
        }
    }
}

/// Sorting keeps exactly the same values.
proof fn lemma_sort_asc_contains(s: Seq<u32>)
    ensures
        sort_asc(s).len() == s.len(),
        forall|y: u32| #[trigger] sort_asc(s).contains(y) == s.contains(y),
    decreases s.len(),
{
    if s.len() > 0 {
        let p = s.drop_last();
        lemma_sort_asc_contains(p);
        lemma_insert_asc_contains(s.last(), sort_asc(p));
        assert forall|y: u32| #[trigger] sort_asc(s).contains(y) == s.contains(y) by {
            if p.contains(y) {
                let k = choose|k: int| 0 <= k < p.len() && p[k] == y;
                assert(s[k] == y);
            }
            if s.contains(y) {
                let k = choose|k: int| 0 <= k < s.len() && s[k] == y;
                if k < s.len() - 1 {
                    assert(p[k] == y);
                } else {
                    assert(y == s.last());
                }
            }
            if y == s.last() {
                assert(s[s.len() - 1] == y);
            }
        }
    }
}

/// The ranks of `all` that `present` lacks, in order.
fn absent_ranks(all: &Vec<u32>, present: &Vec<u32>) -> (r: Vec<u32>)
    ensures
        r@ == absent_from(all@, present@),
{
    let mut r: Vec<u32> = Vec::new();
    assert(all@.take(0) =~= Seq::<u32>::empty());
    let mut i: usize = 0;
    while i < all.len()
        invariant
            i <= all.len(),
            r@ == absent_from(all@.take(i as int), present@),
        decreases all.len() - i,
    {
        proof {
            assert(all@.take(i + 1).drop_last() =~= all@.take(i as int));
            assert(all@.take(i + 1).last() == all@[i as int]);
        }
        if !u32s_contain(present, all[i]) {
            r.push(all[i]);
        }
        i = i + 1;
    }
    assert(all@.take(all.len() as int) =~= all@);
    r
}

/// A stack path, as the frames from the outermost call inward.
pub type Path = Seq<Seq<char>>;

/// What the trie keeps for a path: whether some stack ends there, and the
/// ranks whose stacks pass through it.
pub type NodeData = (bool, Seq<u32>);

/// A node of the stack trie, stored under its path.
#[derive(Debug, Clone)]
pub struct TrieNode {
    /// The frames from the root to this node.
    pub path: Vec<String>,
    /// Some stack ends at this node.
    pub is_end_of_stack: bool,
    /// The ranks whose stacks reach this node, once per visit.
    pub ranks: Vec<u32>,
}

impl TrieNode {
    /// A node at `path` that no stack has reached yet.
    pub fn new(path: Vec<String>) -> (r: TrieNode)
        ensures
            r.path.deep_view() == path.deep_view(),
            !r.is_end_of_stack,
            r.ranks@ == Seq::<u32>::empty(),
    {
        TrieNode { path, is_end_of_stack: false, ranks: Vec::new() }
    }

    /// Records that rank `rank` passed through the node.
    pub fn add_rank(&mut self, rank: u32)
        ensures
            final(self).ranks@ == old(self).ranks@.push(rank),
            final(self).path.deep_view() == old(self).path.deep_view(),
            final(self).is_end_of_stack == old(self).is_end_of_stack,
    {
        self.ranks.push(rank);
    }
}

/// `m` with rank `r` recorded at `p`, creating the node if needed.
pub open spec fn with_rank(m: Map<Path, NodeData>, p: Path, r: u32) -> Map<Path, NodeData> {
    m.insert(
        p,
        if m.dom().contains(p) {
            (m[p].0, m[p].1.push(r))
        } else {
            (false, seq![r])
        },
    )
}

/// `m` with rank `r` recorded at the first `k` non-empty prefixes of `frames`.
pub open spec fn with_prefix_ranks(m: Map<Path, NodeData>, frames: Path, k: nat, r: u32) -> Map<
    Path,
    NodeData,
>
    decreases k,
{
    if k == 0 {
        m
    } else {
        with_rank(with_prefix_ranks(m, frames, (k - 1) as nat, r), frames.take(k as int), r)
    }
}

/// The trie after inserting the stack `frames` of rank `r`: every non-empty
/// prefix records `r`, and the node of the whole stack is marked as an end
/// and records `r` once more.
pub open spec fn trie_insert(m: Map<Path, NodeData>, frames: Path, r: u32) -> Map<Path, NodeData> {
    let m1 = with_prefix_ranks(m, frames, frames.len(), r);
    m1.insert(frames, (true, m1[frames].1.push(r)))
}

/// `parts` joined by `sep`.
pub open spec fn join(parts: Seq<Seq<char>>, sep: Seq<char>) -> Seq<char>
    decreases parts.len(),
{
    if parts.len() == 0 {
        Seq::empty()
    } else if parts.len() == 1 {
        parts[0]
    } else {
        join(parts.drop_last(), sep) + sep + parts.last()
    }
}

/// The text of the path above a node: each ancestor frame followed by its
/// rank text, joined by `;`.
pub open spec fn ancestors_text(m: Map<Path, NodeData>, all: Seq<u32>, p: Path) -> Seq<char> {
    join(
        Seq::new((p.len() - 1) as nat, |j: int| p[j] + rank_text(all, m[p.take(j + 1)].1)),
        ";"@,
    )
}

/// The output line of an end node at `p`: the ancestors' text and the last
/// frame, then the node's rank text.
pub open spec fn line_for(m: Map<Path, NodeData>, all: Seq<u32>, p: Path) -> (Seq<Seq<char>>, Seq<char>) {
    (seq![ancestors_text(m, all, p), p.last()], rank_text(all, m[p].1))
}

/// The stacks of many ranks merged into one trie.
pub struct StackTrie {
    nodes: Vec<TrieNode>,
    all_ranks: Vec<u32>,
}

/// Whether two frame lists are equal.
fn paths_equal(a: &Vec<String>, b: &Vec<String>) -> (r: bool)
    ensures
        r == (a.deep_view() == b.deep_view()),
{
    if a.len() != b.len() {
        assert(a.deep_view().len() != b.deep_view().len());
        return false;
    }
    let mut i: usize = 0;
    while i < a.len()
        invariant
            a@.len() == b@.len(),
            i <= a@.len(),
            forall|k: int| 0 <= k < i ==> #[trigger] a.deep_view()[k] == b.deep_view()[k],
        decreases a.len() - i,
    {
        assert(a.deep_view()[i as int] == a@[i as int]@);
        assert(b.deep_view()[i as int] == b@[i as int]@);
        if !str_eq(a[i].as_str(), b[i].as_str()) {
            return false;
        }
        i = i + 1;
    }
    assert(a.deep_view() =~= b.deep_view());
    true
}

/// The first `k` frames of `v`.
fn prefix_of(v: &Vec<String>, k: usize) -> (r: Vec<String>)
    requires
        k <= v.len(),
    ensures
        r.deep_view() == v.deep_view().take(k as int),
{
    let mut r: Vec<String> = Vec::new();
    let mut i: usize = 0;
    while i < k
        invariant
            k <= v.len(),
            i <= k,
            r.deep_view() == v.deep_view().take(i as int),
        decreases k - i,
    {
        let ghost before = r.deep_view();
        r.push(v[i].clone());
        assert(v.deep_view()[i as int] == v@[i as int]@);
        assert(r.deep_view() =~= before.push(v@[i as int]@));
        assert(v.deep_view().take(i + 1) =~= v.deep_view().take(i as int).push(v.deep_view()[i as int]));
        i = i + 1;
    }
    r
}

impl StackTrie {
    /// The nodes as (path, data) pairs, in the order they were created.
    pub closed spec fn node_pairs(&self) -> Seq<(Path, NodeData)> {
        self.nodes@.map_values(|n: TrieNode| (n.path.deep_view(), (n.is_end_of_stack, n.ranks@)))
    }

    /// The trie as a map from paths to what it keeps for them.
    pub open spec fn trie(&self) -> Map<Path, NodeData> {
        keyed_map(self.node_pairs())
    }

    /// Every rank of the merge.
    pub closed spec fn spec_all_ranks(&self) -> Seq<u32> {
        self.all_ranks@
    }

    /// Each path is stored once, the root (the empty path) is stored, every
    /// prefix of a stored path is stored.
    pub open spec fn wf(&self) -> bool {
        &&& distinct_keys(self.node_pairs())
        &&& self.trie().dom().contains(Seq::<Seq<char>>::empty())
        &&& forall|p: Path, j: int|
            #![trigger self.trie().dom().contains(p), p.take(j)]
            self.trie().dom().contains(p) && 0 <= j <= p.len() ==> self.trie().dom().contains(p.take(j))
    }

    /// A trie with only its root, for a merge of the ranks `all_ranks`.
    pub fn new(all_ranks: Vec<u32>) -> (r: StackTrie)
        ensures
            r.wf(),
            r.spec_all_ranks() == all_ranks@,
            r.trie() == Map::<Path, NodeData>::empty().insert(Seq::empty(), (false, Seq::<u32>::empty())),
    {
        let mut nodes: Vec<TrieNode> = Vec::new();
        let root_path: Vec<String> = Vec::new();
        assert(root_path.deep_view() =~= Seq::<Seq<char>>::empty());
        let root = TrieNode::new(root_path);
        assert(root.ranks@ =~= Seq::<u32>::empty());
        nodes.push(root);
        let r = StackTrie { nodes, all_ranks };
        proof {
            let pairs = r.node_pairs();
            assert(pairs =~= seq![(Seq::<Seq<char>>::empty(), (false, Seq::<u32>::empty()))]);
            assert(pairs =~= Seq::<(Path, NodeData)>::empty().push((Seq::<Seq<char>>::empty(), (false, Seq::<u32>::empty()))));
            lemma_keyed_push(Seq::<(Path, NodeData)>::empty(), Seq::<Seq<char>>::empty(), (false, Seq::<u32>::empty()));
            assert(keyed_map(Seq::<(Path, NodeData)>::empty()) =~= Map::<Path, NodeData>::empty());
            assert forall|p: Path, j: int|
                #![trigger r.trie().dom().contains(p), p.take(j)]
                r.trie().dom().contains(p) && 0 <= j <= p.len() implies r.trie().dom().contains(p.take(j)) by {
                assert(p == Seq::<Seq<char>>::empty());
                assert(p.take(j) =~= p);
            }
        }
        r
    }

    /// Where the node at `path` is stored, if it is.
    fn find_node(&self, path: &Vec<String>) -> (r: Option<usize>)
        ensures
            match r {
                Some(i) => i < self.nodes@.len() && self.node_pairs()[i as int].0 == path.deep_view(),
                None => !has_key(self.node_pairs(), path.deep_view()),
            },
    {
        let mut i: usize = 0;
        while i < self.nodes.len()
            invariant
                i <= self.nodes@.len(),
                forall|k: int| 0 <= k < i ==> #[trigger] self.node_pairs()[k].0 != path.deep_view(),
            decreases self.nodes.len() - i,
        {
            if paths_equal(&self.nodes[i].path, path) {
                return Some(i);
            }
            i = i + 1;
        }
        None
    }

    /// Records rank `r` at `path`, creating the node if needed.
    fn record_rank(&mut self, path: Vec<String>, r: u32)
        requires
            distinct_keys(old(self).node_pairs()),
        ensures
            distinct_keys(final(self).node_pairs()),
            final(self).trie() == with_rank(old(self).trie(), path.deep_view(), r),
            final(self).spec_all_ranks() == old(self).spec_all_ranks(),
    {
        let ghost pv = path.deep_view();
        let ghost before = self.node_pairs();
        match self.find_node(&path) {
            Some(i) => {
                proof {
                    lemma_keyed_at(before, i as int);
                }
                let mut node = TrieNode {
                    path: crate::topology::clone_strings(&self.nodes[i].path),
                    is_end_of_stack: self.nodes[i].is_end_of_stack,
                    ranks: self.nodes[i].ranks.clone(),
                };
                assert(node.ranks@ =~= self.nodes@[i as int].ranks@);
                node.add_rank(r);
                let ghost nv = (node.is_end_of_stack, node.ranks@);
                self.nodes.set(i, node);
                proof {
                    assert(self.node_pairs() =~= before.update(i as int, (before[i as int].0, nv)));
                    lemma_keyed_update(before, i as int, nv);
                }
            },
            None => {
                let mut node = TrieNode::new(path);
                node.add_rank(r);
                let ghost nv = (node.is_end_of_stack, node.ranks@);
                self.nodes.push(node);
                proof {
                    assert(nv == (false, seq![r]));
                    assert(self.node_pairs() =~= before.push((pv, nv)));
                    lemma_keyed_push(before, pv, nv);
                }
            },
        }
    }

    /// Marks the node at `path`, which must exist, as an end and records `r` there.
    fn mark_end(&mut self, path: &Vec<String>, r: u32)
        requires
            distinct_keys(old(self).node_pairs()),
            old(self).trie().dom().contains(path.deep_view()),
        ensures
            distinct_keys(final(self).node_pairs()),
            final(self).trie() == old(self).trie().insert(
                path.deep_view(),
                (true, old(self).trie()[path.deep_view()].1.push(r)),
            ),
            final(self).spec_all_ranks() == old(self).spec_all_ranks(),
    {
        let ghost before = self.node_pairs();
        match self.find_node(path) {
            Some(i) => {
                proof {
                    lemma_keyed_at(before, i as int);
                }
                let mut node = TrieNode {
                    path: crate::topology::clone_strings(&self.nodes[i].path),
                    is_end_of_stack: true,
                    ranks: self.nodes[i].ranks.clone(),
                };
                assert(node.ranks@ =~= self.nodes@[i as int].ranks@);
                node.add_rank(r);
                let ghost nv = (node.is_end_of_stack, node.ranks@);
                self.nodes.set(i, node);
                proof {
                    assert(self.node_pairs() =~= before.update(i as int, (before[i as int].0, nv)));
                    lemma_keyed_update(before, i as int, nv);
                }
            },
            None => {
                proof {
                    let j = choose|j: int| 0 <= j < before.len() && before[j].0 == path.deep_view();
                    assert(false);
                }
            },
        }
    }

    /// Inserts the stack `frames` of rank `rank`.
    pub fn insert(&mut self, frames: Vec<String>, rank: u32)
        requires
            old(self).wf(),
        ensures
            final(self).wf(),
            final(self).trie() == trie_insert(old(self).trie(), frames.deep_view(), rank),
            final(self).spec_all_ranks() == old(self).spec_all_ranks(),
    {
        let ghost f = frames.deep_view();
        let ghost m0 = self.trie();
        let n = frames.len();
        let mut k: usize = 0;
        while k < n
            invariant
                n == frames@.len(),
                f == frames.deep_view(),
                k <= n,
                distinct_keys(self.node_pairs()),
                self.trie() == with_prefix_ranks(m0, f, k as nat, rank),
                self.spec_all_ranks() == old(self).spec_all_ranks(),
                old(self).wf(),
                m0 == old(self).trie(),
            decreases n - k,
        {
            let p = prefix_of(&frames, k + 1);
            self.record_rank(p, rank);
            k = k + 1;
        }
        proof {
            lemma_prefix_ranks_keeps(m0, f, n as nat, rank);
            assert(f.take(n as int) =~= f);
        }
        self.mark_end(&frames, rank);
        proof {
            lemma_trie_insert_wf(m0, f, rank);
        }
    }

    /// The rank text of a node with ranks `ranks`: the sorted ranks that have
    /// the stack, then the sorted ranks of the merge that lack it.
    pub fn format_rank_str(&self, ranks: &Vec<u32>) -> (r: String)
        requires
            self.wf(),
        ensures
            r@ == rank_text(self.spec_all_ranks(), ranks@),
    {
        let sorted = sort_ranks(ranks);
        let leak = absent_ranks(&self.all_ranks, ranks);
        let leak_sorted = sort_ranks(&leak);
        let mut out = String::from_str("@");
        out.append(format_runs(&sorted).as_str());
        out.append("|");
        out.append(format_runs(&leak_sorted).as_str());
        out
    }
}

/// Recording ranks keeps every stored path and adds the prefixes.
proof fn lemma_prefix_ranks_keeps(m: Map<Path, NodeData>, f: Path, k: nat, r: u32)
    requires
        k <= f.len(),
    ensures
        forall|p: Path| #[trigger] m.dom().contains(p) ==> with_prefix_ranks(m, f, k, r).dom().contains(p),
        forall|j: int| 1 <= j <= k ==> #[trigger] with_prefix_ranks(m, f, k, r).dom().contains(f.take(j)),
        forall|p: Path| #[trigger] with_prefix_ranks(m, f, k, r).dom().contains(p) ==> m.dom().contains(p) || exists|j: int| 1 <= j <= k && p == f.take(j),
        k == f.len() && m.dom().contains(Seq::<Seq<char>>::empty()) ==> with_prefix_ranks(m, f, k, r).dom().contains(f),
    decreases k,
{
    if k > 0 {
        lemma_prefix_ranks_keeps(m, f, (k - 1) as nat, r);
        let m1 = with_prefix_ranks(m, f, (k - 1) as nat, r);
        let res = with_prefix_ranks(m, f, k, r);
        assert(res.dom() =~= m1.dom().insert(f.take(k as int)));
        assert forall|j: int| 1 <= j <= k implies #[trigger] res.dom().contains(f.take(j)) by {
            if j < k {
                assert(m1.dom().contains(f.take(j)));
            }
        }
        assert forall|p: Path| #[trigger] res.dom().contains(p) implies m.dom().contains(p) || exists|j: int| 1 <= j <= k && p == f.take(j) by {
            if p != f.take(k as int) {
                assert(m1.dom().contains(p));
            }
        }
    }
    if k == f.len() && m.dom().contains(Seq::<Seq<char>>::empty()) {
        if k == 0 {
            assert(f =~= Seq::<Seq<char>>::empty());
        } else {
            assert(f.take(k as int) =~= f);
        }
    }
}

/// Inserting a stack keeps the trie well formed.
proof fn lemma_trie_insert_wf(m: Map<Path, NodeData>, f: Path, r: u32)
    requires
        m.dom().contains(Seq::<Seq<char>>::empty()),
        forall|p: Path, j: int|
            #![trigger m.dom().contains(p), p.take(j)]
            m.dom().contains(p) && 0 <= j <= p.len() ==> m.dom().contains(p.take(j)),
    ensures
        trie_insert(m, f, r).dom().contains(Seq::<Seq<char>>::empty()),
        forall|p: Path, j: int|
            #![trigger trie_insert(m, f, r).dom().contains(p), p.take(j)]
            trie_insert(m, f, r).dom().contains(p) && 0 <= j <= p.len() ==> trie_insert(m, f, r).dom().contains(p.take(j)),
{
    let m1 = with_prefix_ranks(m, f, f.len(), r);
    lemma_prefix_ranks_keeps(m, f, f.len(), r);
    let t = trie_insert(m, f, r);
    assert(t.dom() =~= m1.dom());
    assert forall|p: Path, j: int|
        #![trigger t.dom().contains(p), p.take(j)]
        t.dom().contains(p) && 0 <= j <= p.len() implies t.dom().contains(p.take(j)) by {
        if m.dom().contains(p) {
            assert(m.dom().contains(p.take(j)));
        } else {
            let i = choose|i: int| 1 <= i <= f.len() && p == f.take(i);
            if j == 0 {
                assert(p.take(j) =~= Seq::<Seq<char>>::empty());
            } else {
                assert(p.take(j) =~= f.take(j));
            }
        }
    }
}

/// The pieces of the ancestors of a node at `p`: each ancestor frame followed
/// by its rank text.
pub open spec fn ancestor_pieces(m: Map<Path, NodeData>, all: Seq<u32>, p: Path) -> Seq<Seq<char>> {
    Seq::new((p.len() - 1) as nat, |j: int| p[j] + rank_text(all, m[p.take(j + 1)].1))
}

/// The value of an output line.
pub open spec fn line_view(x: (Vec<String>, String)) -> (Seq<Seq<char>>, Seq<char>) {
    (x.0.deep_view(), x.1@)
}

/// Joins texts with `;`.
pub fn join_semicolon(parts: &Vec<String>) -> (r: String)
    ensures
        r@ == join(parts.deep_view(), ";"@),
{
    let mut out = String::new();
    let ghost ps = parts.deep_view();
    assert(join(ps.take(0), ";"@) =~= Seq::<char>::empty());
    let mut j: usize = 0;
    while j < parts.len()
        invariant
            j <= parts@.len(),
            ps == parts.deep_view(),
            out@ == join(ps.take(j as int), ";"@),
        decreases parts.len() - j,
    {
        assert(ps[j as int] == parts@[j as int]@);
        assert(ps.take(j + 1).drop_last() =~= ps.take(j as int));
        assert(ps.take(j + 1).last() == ps[j as int]);
        if j > 0 {
            proof {
                reveal_strlit(";");
            }
            out.append(";");
        }
        out.append(parts[j].as_str());
        assert(out@ =~= join(ps.take(j + 1), ";"@));
        j = j + 1;
    }
    assert(ps.take(parts.len() as int) =~= ps);
    out
}

impl StackTrie {
    /// Every rank of the merge.
    pub fn all_ranks(&self) -> (r: &Vec<u32>)
        ensures
            r@ == self.spec_all_ranks(),
    {
        &self.all_ranks
    }

    /// The ranks recorded at `path`, if the trie has a node there.
    pub fn ranks_at(&self, path: &Vec<String>) -> (r: Option<Vec<u32>>)
        requires
            self.wf(),
        ensures
            match r {
                Some(v) => self.trie().dom().contains(path.deep_view()) && v@ == self.trie()[path.deep_view()].1,
                None => !self.trie().dom().contains(path.deep_view()),
            },
    {
        match self.find_node(path) {
            Some(i) => {
                proof {
                    lemma_keyed_at(self.node_pairs(), i as int);
                }
                let v = self.nodes[i].ranks.clone();
                assert(v@ =~= self.nodes@[i as int].ranks@);
                Some(v)
            },
            None => None,
        }
    }

    /// One line per node where a stack ends: the text of the path above it,
    /// the node's frame, and its rank text. The root is left out.
    pub fn traverse_with_all_stack(&self) -> (r: Vec<(Vec<String>, String)>)
        requires
            self.wf(),
        ensures
            exists|ps: Seq<Path>|
                {
                    &&& ps.len() == r@.len()
                    &&& ps.no_duplicates()
                    &&& forall|k: int|
                        0 <= k < ps.len() ==> {
                            &&& self.trie().dom().contains(#[trigger] ps[k])
                            &&& ps[k].len() > 0
                            &&& self.trie()[ps[k]].0
                            &&& line_view(r@[k]) == line_for(self.trie(), self.spec_all_ranks(), ps[k])
                        }
                    &&& forall|p: Path|
                        #[trigger] self.trie().dom().contains(p) && p.len() > 0 && self.trie()[p].0 ==> ps.contains(p)
                },
    {
        let ghost m = self.trie();
        let ghost all = self.spec_all_ranks();
        let ghost pairs = self.node_pairs();
        let mut r: Vec<(Vec<String>, String)> = Vec::new();
        let ghost mut ps: Seq<Path> = Seq::empty();
        let ghost mut idx: Seq<int> = Seq::empty();
        let mut i: usize = 0;
        while i < self.nodes.len()
            invariant
                self.wf(),
                m == self.trie(),
                all == self.spec_all_ranks(),
                pairs == self.node_pairs(),
                i <= self.nodes@.len(),
                ps.len() == r@.len(),
                idx.len() == ps.len(),
                forall|k: int| 0 <= k < ps.len() ==> 0 <= #[trigger] idx[k] < i && ps[k] == pairs[idx[k]].0,
                forall|a: int, b: int| 0 <= a < b < ps.len() ==> #[trigger] idx[a] < #[trigger] idx[b],
                forall|k: int|
                    0 <= k < ps.len() ==> {
                        &&& m.dom().contains(#[trigger] ps[k])
                        &&& ps[k].len() > 0
                        &&& m[ps[k]].0
                        &&& line_view(r@[k]) == line_for(m, all, ps[k])
                    },
                forall|t: int| 0 <= t < i && pairs[t].0.len() > 0 && pairs[t].1.0 ==> #[trigger] ps.contains(pairs[t].0),
            decreases self.nodes.len() - i,
        {
            proof {
                lemma_keyed_at(pairs, i as int);
            }
            let node = &self.nodes[i];
            let n = node.path.len();
            assert(pairs[i as int].0 == node.path.deep_view());
            assert(pairs[i as int].1 == (node.is_end_of_stack, node.ranks@));
            if n > 0 && node.is_end_of_stack {
                let ghost p = node.path.deep_view();
                let mut pieces: Vec<String> = Vec::new();
                let mut j: usize = 0;
                while j + 1 < n
                    invariant
                        self.wf(),
                        m == self.trie(),
                        all == self.spec_all_ranks(),
                        n == node.path@.len(),
                        p == node.path.deep_view(),
                        m.dom().contains(p),
                        j + 1 <= n,
                        pieces@.len() == j,
                        forall|q: int| 0 <= q < j ==> #[trigger] pieces@[q]@ == ancestor_pieces(m, all, p)[q],
                    decreases n - j,
                {
                    let prefix = prefix_of(&node.path, j + 1);
                    assert(m.dom().contains(p.take(j + 1)));
                    let ranks = match self.ranks_at(&prefix) {
                        Some(v) => v,
                        None => {
                            assert(false);
                            Vec::new()
                        },
                    };
                    let rank_str = self.format_rank_str(&ranks);
                    let mut piece = node.path[j].clone();
                    piece.append(rank_str.as_str());
                    assert(node.path.deep_view()[j as int] == node.path@[j as int]@);
                    assert(piece@ == ancestor_pieces(m, all, p)[j as int]);
                    pieces.push(piece);
                    j = j + 1;
                }
                assert(pieces.deep_view() =~= ancestor_pieces(m, all, p));
                let head = join_semicolon(&pieces);
                let last = node.path[n - 1].clone();
                assert(node.path.deep_view()[n - 1] == node.path@[n - 1]@);
                let own = self.format_rank_str(&node.ranks);
                let mut parts: Vec<String> = Vec::new();
                parts.push(head);
                parts.push(last);
                assert(parts.deep_view() =~= seq![ancestors_text(m, all, p), p.last()]);
                r.push((parts, own));
                proof {
                    let old_ps = ps;
                    ps = ps.push(p);
                    idx = idx.push(i as int);
                    assert(ps[ps.len() - 1] == pairs[i as int].0);
                    assert forall|k: int| 0 <= k < ps.len() implies 0 <= #[trigger] idx[k] < i + 1 && ps[k] == pairs[idx[k]].0 by {
                        if k < ps.len() - 1 {
                            assert(ps[k] == old_ps[k]);
                        }
                    }
                    assert forall|t: int| 0 <= t < i + 1 && pairs[t].0.len() > 0 && pairs[t].1.0 implies #[trigger] ps.contains(pairs[t].0) by {
                        if t == i {
                            assert(ps[ps.len() - 1] == pairs[t].0);
                        } else {
                            assert(old_ps.contains(pairs[t].0));
                            let k = choose|k: int| 0 <= k < old_ps.len() && old_ps[k] == pairs[t].0;
                            assert(ps[k] == pairs[t].0);
                        }
                    }
                }
            }
            i = i + 1;
        }
        proof {
            assert(ps.no_duplicates()) by {
                assert forall|a: int, b: int| 0 <= a < ps.len() && 0 <= b < ps.len() && a != b implies ps[a] != ps[b] by {
                    if a < b {
                        assert(idx[a] < idx[b]);
                    } else {
                        assert(idx[b] < idx[a]);
                    }
                }
            }
            assert forall|p: Path| #[trigger] m.dom().contains(p) && p.len() > 0 && m[p].0 implies ps.contains(p) by {
                let t = choose|t: int| 0 <= t < pairs.len() && pairs[t].0 == p;
                lemma_keyed_at(pairs, t);
            }
        }
        r
    }
}

/// The pieces of `s` between the occurrences of `c`; an empty text has one
/// empty piece.
pub open spec fn split_on(s: Seq<char>, c: char) -> Seq<Seq<char>>
    decreases s.len(),
{
    if s.len() == 0 {
        seq![Seq::<char>::empty()]
    } else {
        let p = split_on(s.drop_last(), c);
        if s.last() == c {
            p.push(Seq::empty())
        } else {
            p.update(p.len() - 1, p.last().push(s.last()))
        }
    }
}

/// Splitting gives at least one piece.
pub proof fn lemma_split_nonempty(s: Seq<char>, c: char)
    ensures
        split_on(s, c).len() >= 1,
    decreases s.len(),
{
    if s.len() > 0 {
        lemma_split_nonempty(s.drop_last(), c);
    }
}

/// Splits `s` at every `;`.
pub fn split_frames(s: &str) -> (r: Vec<String>)
    ensures
        r.deep_view() == split_on(s@, ';'),
{
    let n = s.unicode_len();
    let mut pieces: Vec<String> = Vec::new();
    let mut cur = String::new();
    assert(s@.take(0) =~= Seq::<char>::empty());
    assert(pieces.deep_view().push(cur@) =~= split_on(s@.take(0), ';'));
    let mut i: usize = 0;
    while i < n
        invariant
            n == s@.len(),
            i <= n,
            pieces.deep_view().push(cur@) == split_on(s@.take(i as int), ';'),
        decreases n - i,
    {
        let ch = s.get_char(i);
        let ghost t = s@.take(i + 1);
        proof {
            assert(t.drop_last() =~= s@.take(i as int));
            assert(t.last() == ch);
            lemma_split_nonempty(s@.take(i as int), ';');
        }
        if ch == ';' {
            let ghost before = pieces.deep_view();
            let ghost c = cur@;
            pieces.push(cur);
            cur = String::new();
            assert(pieces.deep_view() =~= before.push(c));
            assert(pieces.deep_view().push(cur@) =~= before.push(c).push(Seq::<char>::empty()));
        } else {
            let ghost c = cur@;
            cur.append(s.substring_char(i, i + 1));
            assert(cur@ =~= c.push(ch));
            assert(pieces.deep_view().push(cur@) =~= pieces.deep_view().push(c).update(
                pieces.deep_view().len() as int,
                c.push(ch),
            ));
        }
        i = i + 1;
    }
    assert(s@.take(n as int) =~= s@);
    pieces.push(cur);
    pieces
}

/// The trie of stacks `stacks[0..k]`, the stack at position `i` being split at
/// `;` and inserted with rank `i`.
pub open spec fn merged_trie(stacks: Seq<Seq<char>>, k: nat) -> Map<Path, NodeData>
    decreases k,
{
    if k == 0 {
        Map::<Path, NodeData>::empty().insert(Seq::empty(), (false, Seq::<u32>::empty()))
    } else {
        trie_insert(merged_trie(stacks, (k - 1) as nat), split_on(stacks[k - 1], ';'), (k - 1) as u32)
    }
}

/// The ranks `0..n`.
pub open spec fn rank_range(n: nat) -> Seq<u32> {
    Seq::new(n, |i: int| i as u32)
}

/// Merges stacks, each a `;`-separated list of frames, into one trie; the
/// stack at position `i` has rank `i`.
pub fn merge_stacks(stacks: Vec<&str>) -> (r: StackTrie)
    requires
        stacks@.len() <= u32::MAX,
    ensures
        r.wf(),
        r.spec_all_ranks() == rank_range(stacks@.len()),
        r.trie() == merged_trie(stacks@.map_values(|s: &str| s@), stacks@.len()),
{
    let ghost sv = stacks@.map_values(|s: &str| s@);
    let n = stacks.len();
    let mut all_ranks: Vec<u32> = Vec::new();
    let mut k: usize = 0;
    while k < n
        invariant
            n == stacks@.len(),
            n <= u32::MAX,
            k <= n,
            all_ranks@ == rank_range(k as nat),
        decreases n - k,
    {
        all_ranks.push(k as u32);
        assert(all_ranks@ =~= rank_range((k + 1) as nat));
        k = k + 1;
    }
    let mut trie = StackTrie::new(all_ranks);
    assert(trie.trie() =~= merged_trie(sv, 0));
    let mut rank: usize = 0;
    while rank < n
        invariant
            n == stacks@.len(),
            n <= u32::MAX,
            rank <= n,
            sv == stacks@.map_values(|s: &str| s@),
            trie.wf(),
            trie.spec_all_ranks() == rank_range(n as nat),
            trie.trie() == merged_trie(sv, rank as nat),
        decreases n - rank,
    {
        let frames = split_frames(stacks[rank]);
        trie.insert(frames, rank as u32);
        rank = rank + 1;
    }
    trie
}

/// A frame of a call stack, by function, file and line.
#[derive(Debug, Clone)]
pub struct StackFrame {
    pub func: String,
    pub file: String,
    pub lineno: u32,
}

/// The text of a frame: `func (file:line)`.
pub open spec fn frame_text(func: Seq<char>, file: Seq<char>, lineno: u32) -> Seq<char> {
    func + " ("@ + file + ":"@ + decimal(lineno as nat) + ")"@
}

/// The texts of a trace's frames, outermost call first, which is the reverse of
/// the order the trace lists them in.
pub open spec fn trace_texts(frames: Seq<StackFrame>) -> Seq<Seq<char>> {
    Seq::new(frames.len(), |i: int| frame_text(frames[frames.len() - 1 - i].func@, frames[frames.len() - 1 - i].file@, frames[frames.len() - 1 - i].lineno))
}

/// One stack line per trace that has frames: the frames outermost first,
/// joined by `;`.
pub open spec fn callstack_lines_of(traces: Seq<Vec<StackFrame>>) -> Seq<Seq<char>>
    decreases traces.len(),
{
    if traces.len() == 0 {
        Seq::empty()
    } else {
        let rest = callstack_lines_of(traces.drop_last());
        if traces.last()@.len() == 0 {
            rest
        } else {
            rest.push(join(trace_texts(traces.last()@), ";"@))
        }
    }
}

/// The stack line of one trace.
fn callstack_line(frames: &Vec<StackFrame>) -> (r: String)
    ensures
        r@ == join(trace_texts(frames@), ";"@),
{
    let n = frames.len();
    let mut texts: Vec<String> = Vec::new();
    let mut i: usize = 0;
    while i < n
        invariant
            n == frames@.len(),
            i <= n,
            texts@.len() == i,
            forall|q: int| 0 <= q < i ==> #[trigger] texts@[q]@ == trace_texts(frames@)[q],
        decreases n - i,
    {
        let f = &frames[n - 1 - i];
        let mut t = f.func.clone();
        t.append(" (");
        t.append(f.file.as_str());
        t.append(":");
        push_decimal(&mut t, f.lineno as u64);
        t.append(")");
        texts.push(t);
        i = i + 1;
    }
    assert(texts.deep_view() =~= trace_texts(frames@));
    join_semicolon(&texts)
}

/// The stack lines of the traces: each trace with frames gives its frames,
/// outermost call first, as `func (file:line)` joined by `;`.
pub fn callstack_lines(traces: &Vec<Vec<StackFrame>>) -> (r: Vec<String>)
    ensures
        r.deep_view() == callstack_lines_of(traces@),
{
    let mut r: Vec<String> = Vec::new();
    assert(traces@.take(0) =~= Seq::<Vec<StackFrame>>::empty());
    let mut i: usize = 0;
    while i < traces.len()
        invariant
            i <= traces@.len(),
            r.deep_view() == callstack_lines_of(traces@.take(i as int)),
        decreases traces.len() - i,
    {
        proof {
            assert(traces@.take(i + 1).drop_last() =~= traces@.take(i as int));
            assert(traces@.take(i + 1).last() == traces@[i as int]);
        }
        if traces[i].len() > 0 {
            let line = callstack_line(&traces[i]);
            let ghost before = r.deep_view();
            r.push(line);
            assert(r.deep_view() =~= before.push(join(trace_texts(traces@[i as int]@), ";"@)));
        }
        i = i + 1;
    }
    assert(traces@.take(traces.len() as int) =~= traces@);
    r
}

/// A folded line for the flame graph renderer: the path parts joined by `;`,
/// the rank text, and a count of 1.
pub open spec fn folded_text(parts: Seq<Seq<char>>, rank_str: Seq<char>) -> Seq<char> {
    join(parts, ";"@) + " "@ + rank_str + " 1"@
}

/// The folded line of a traversal line.
pub fn folded_line(line: &(Vec<String>, String)) -> (r: String)
    ensures
        r@ == folded_text(line.0.deep_view(), line.1@),
{
    let mut out = join_semicolon(&line.0);
    out.append(" ");
    out.append(line.1.as_str());
    out.append(" 1");
    out
}

/// The folded lines of traversal lines, one for each, in order.
pub fn folded_lines(lines: &Vec<(Vec<String>, String)>) -> (r: Vec<String>)
    ensures
        r@.len() == lines@.len(),
        forall|k: int| 0 <= k < r@.len() ==> (#[trigger] r@[k])@ == folded_text(lines@[k].0.deep_view(), lines@[k].1@),
{
    let mut r: Vec<String> = Vec::new();
    let mut i: usize = 0;
    while i < lines.len()
        invariant
            i <= lines@.len(),
            r@.len() == i,
            forall|k: int| 0 <= k < i ==> (#[trigger] r@[k])@ == folded_text(lines@[k].0.deep_view(), lines@[k].1@),
        decreases lines.len() - i,
    {
        r.push(folded_line(&lines[i]));
        i = i + 1;
    }
    r
}

/// A visible ASCII character: no whitespace.
pub open spec fn visible(c: char) -> bool {
    '!' <= c <= '~'
}

/// A folded line, ending in ` 1`, that inferno counts: it starts with a
/// visible character other than `#` (so it is neither trimmed nor taken for a
/// comment), and the stack before ` 1` ends with a visible character and its
/// last space-separated word holds a character that is no digit and no `.`
/// (so that word is no second count and the stack is not empty).
pub open spec fn counted_line(l: Seq<char>) -> bool {
    let stack = l.take(l.len() - 2);
    &&& l.len() > 2
    &&& visible(l[0])
    &&& l[0] != '#'
    &&& visible(stack.last())
    &&& exists|k: int|
        0 <= k < stack.len() && !('0' <= #[trigger] stack[k] <= '9') && stack[k] != '.' && stack[k] != ' '
            && forall|m: int| k < m < stack.len() ==> stack[m] != ' '
}

/// Draws the flame graph of folded lines as SVG through
/// `inferno::flamegraph::from_lines`, with its Java palette. Each line ends
/// with the count ` 1`, so inferno's total is the number of lines it counts:
/// with none counted (no lines at all, say) it answers an error; with one
/// `counted_line` it draws the picture into memory and succeeds. Inferno picks
/// the colors with a generator that each thread keeps from call to call, so
/// nothing is stated of the picture itself; an error is inferno's, as text.
#[verifier::external_body]
fn render_flame_graph(folded: &Vec<String>) -> (r: Result<Vec<u8>, String>)
    requires
        forall|i: int| 0 <= i < folded@.len() ==> " 1"@.is_suffix_of(#[trigger] folded@[i]@),
    ensures
        folded@.len() == 0 ==> r is Err,
        (exists|i: int| 0 <= i < folded@.len() && counted_line(#[trigger] folded@[i]@)) ==> r is Ok,
{
    let mut options = inferno::flamegraph::Options::default();
    options.colors = inferno::flamegraph::Palette::Multi(inferno::flamegraph::color::MultiPalette::Java);
    let mut svg: Vec<u8> = Vec::new();
    match inferno::flamegraph::from_lines(&mut options, folded.iter().map(|l| l.as_str()), &mut svg) {
        Ok(()) => Ok(svg),
        Err(e) => Err(e.to_string()),
    }
}

/// The flame graph, in SVG, of a merge's traversal lines: each is folded (see
/// `folded_lines`) and the folded lines are drawn. Without lines there is no
/// graph; where some folded line is one that inferno counts, it is drawn.
pub fn draw_frame_graph(lines: &Vec<(Vec<String>, String)>) -> (r: Result<Vec<u8>, String>)
    ensures
        lines@.len() == 0 ==> r is Err,
        (exists|i: int|
            0 <= i < lines@.len() && counted_line(
                folded_text(#[trigger] lines@[i].0.deep_view(), lines@[i].1@),
            )) ==> r is Ok,
{
    let folded = folded_lines(lines);
    proof {
        reveal_strlit(" 1");
        assert forall|i: int| 0 <= i < folded@.len() implies " 1"@.is_suffix_of(#[trigger] folded@[i]@) by {
            let t = folded_text(lines@[i].0.deep_view(), lines@[i].1@);
            assert(folded@[i]@ == t);
            assert(t.subrange(t.len() - 2, t.len() as int) =~= " 1"@);
        }
        if exists|i: int|
            0 <= i < lines@.len() && counted_line(folded_text(#[trigger] lines@[i].0.deep_view(), lines@[i].1@)) {
            let i = choose|i: int|
                0 <= i < lines@.len() && counted_line(folded_text(#[trigger] lines@[i].0.deep_view(), lines@[i].1@));
            assert(counted_line(folded@[i]@));
        }
    }
    render_flame_graph(&folded)
}

/// Recording ranks along a stack only appends to existing nodes, keeps their
/// end marks, and leaves the rank at every prefix recorded so far.
proof fn lemma_prefix_ranks_effect(m: Map<Path, NodeData>, f: Path, k: nat, r: u32)
    requires
        k <= f.len(),
    ensures
        forall|p: Path|
            #[trigger] m.dom().contains(p) ==> with_prefix_ranks(m, f, k, r).dom().contains(p)
                && with_prefix_ranks(m, f, k, r)[p].0 == m[p].0 && m[p].1.is_prefix_of(
                with_prefix_ranks(m, f, k, r)[p].1,
            ),
        forall|j: int|
            1 <= j <= k ==> #[trigger] with_prefix_ranks(m, f, k, r)[f.take(j)].1.contains(r),
        forall|j: int| 1 <= j <= k ==> with_prefix_ranks(m, f, k, r).dom().contains(#[trigger] f.take(j)),
    decreases k,
{
    if k > 0 {
        lemma_prefix_ranks_effect(m, f, (k - 1) as nat, r);
        let m1 = with_prefix_ranks(m, f, (k - 1) as nat, r);
        let q = f.take(k as int);
        let res = with_prefix_ranks(m, f, k, r);
        assert forall|p: Path| #[trigger] m.dom().contains(p) implies res.dom().contains(p) && res[p].0
            == m[p].0 && m[p].1.is_prefix_of(res[p].1) by {
            if p == q {
                let v = m1[p].1;
                assert(v.is_prefix_of(v.push(r)));
                assert(m[p].1.is_prefix_of(v));
                assert forall|i: int| 0 <= i < m[p].1.len() implies m[p].1[i] == v.push(r)[i] by {
                    assert(m[p].1[i] == v[i]);
                }
            }
        }
        assert forall|j: int| 1 <= j <= k implies #[trigger] res[f.take(j)].1.contains(r) by {
            if j == k {
                if m1.dom().contains(q) {
                    let v = m1[q].1;
                    assert(v.push(r)[v.len() as int] == r);
                } else {
                    assert(seq![r][0] == r);
                }
            } else {
                assert(f.take(j).len() != q.len());
                assert(m1[f.take(j)].1.contains(r));
                let i = choose|i: int| 0 <= i < m1[f.take(j)].1.len() && m1[f.take(j)].1[i] == r;
                assert(res[f.take(j)].1 == m1[f.take(j)].1 || res[f.take(j)].1 == m1[f.take(j)].1.push(r));
                assert(res[f.take(j)].1[i] == r);
            }
        }
    }
}

/// Inserting a stack records its rank at every non-empty prefix, marks the
/// whole stack as an end, and only appends to the ranks of existing nodes
/// without unmarking any end.
pub proof fn law_insert_records_stack(m: Map<Path, NodeData>, f: Path, r: u32)
    requires
        m.dom().contains(Seq::<Seq<char>>::empty()),
    ensures
        forall|j: int|
            1 <= j <= f.len() ==> trie_insert(m, f, r).dom().contains(#[trigger] f.take(j)) && trie_insert(
                m,
                f,
                r,
            )[f.take(j)].1.contains(r),
        trie_insert(m, f, r).dom().contains(f),
        trie_insert(m, f, r)[f].0,
        trie_insert(m, f, r)[f].1.contains(r),
        forall|p: Path|
            #[trigger] m.dom().contains(p) ==> trie_insert(m, f, r).dom().contains(p) && (m[p].0
                ==> trie_insert(m, f, r)[p].0) && m[p].1.is_prefix_of(trie_insert(m, f, r)[p].1),
{
    let m1 = with_prefix_ranks(m, f, f.len(), r);
    let t = trie_insert(m, f, r);
    lemma_prefix_ranks_effect(m, f, f.len(), r);
    lemma_prefix_ranks_keeps(m, f, f.len(), r);
    let v = m1[f].1;
    assert(v.push(r)[v.len() as int] == r);
    assert forall|j: int| 1 <= j <= f.len() implies t.dom().contains(#[trigger] f.take(j)) && t[f.take(j)].1.contains(r) by {
        if f.take(j) == f {
        } else {
            assert(m1[f.take(j)].1.contains(r));
        }
    }
    assert forall|p: Path| #[trigger] m.dom().contains(p) implies t.dom().contains(p) && (m[p].0 ==> t[p].0)
        && m[p].1.is_prefix_of(t[p].1) by {
        if p == f {
            assert(m[p].1.is_prefix_of(v));
            assert forall|i: int| 0 <= i < m[p].1.len() implies m[p].1[i] == v.push(r)[i] by {
                assert(m[p].1[i] == v[i]);
            }
        }
    }
}

/// Merging records each stack: its rank at every non-empty prefix of its
/// frames, and an end at its whole frame list.
pub proof fn law_merge_records_every_stack(stacks: Seq<Seq<char>>, n: nat, i: int)
    requires
        0 <= i < n,
        n <= stacks.len(),
    ensures
        merged_trie(stacks, n).dom().contains(split_on(stacks[i], ';')),
        merged_trie(stacks, n)[split_on(stacks[i], ';')].0,
        forall|j: int|
            1 <= j <= split_on(stacks[i], ';').len() ==> merged_trie(stacks, n).dom().contains(
                #[trigger] split_on(stacks[i], ';').take(j),
            ) && merged_trie(stacks, n)[split_on(stacks[i], ';').take(j)].1.contains(i as u32),
    decreases n,
{
    let f = split_on(stacks[i], ';');
    lemma_merged_has_root(stacks, (n - 1) as nat);
    if i == n - 1 {
        law_insert_records_stack(merged_trie(stacks, (n - 1) as nat), f, i as u32);
    } else {
        law_merge_records_every_stack(stacks, (n - 1) as nat, i);
        let prev = merged_trie(stacks, (n - 1) as nat);
        law_insert_records_stack(prev, split_on(stacks[n - 1], ';'), (n - 1) as u32);
        assert forall|j: int| 1 <= j <= f.len() implies merged_trie(stacks, n).dom().contains(
            #[trigger] f.take(j),
        ) && merged_trie(stacks, n)[f.take(j)].1.contains(i as u32) by {
            let q = f.take(j);
            assert(prev.dom().contains(q));
            let a = prev[q].1;
            let b = merged_trie(stacks, n)[q].1;
            assert(a.is_prefix_of(b));
            let k = choose|k: int| 0 <= k < a.len() && a[k] == i as u32;
            assert(b[k] == a[k]);
        }
    }
}

/// Every merged trie has its root.
proof fn lemma_merged_has_root(stacks: Seq<Seq<char>>, n: nat)
    ensures
        merged_trie(stacks, n).dom().contains(Seq::<Seq<char>>::empty()),
    decreases n,
{
    if n > 0 {
        lemma_merged_has_root(stacks, (n - 1) as nat);
        law_insert_records_stack(merged_trie(stacks, (n - 1) as nat), split_on(stacks[n - 1], ';'), (n - 1) as u32);
    }
}

/// The ranks of the merge that a node lacks are the merge's ranks that are
/// not among the node's, in the merge's order.
pub proof fn law_absent_ranks_filter(all: Seq<u32>, present: Seq<u32>)
    ensures
        absent_from(all, present) == all.filter(|r: u32| !present.contains(r)),
    decreases all.len(),
{
    reveal(Seq::filter);
    if all.len() > 0 {
        law_absent_ranks_filter(all.drop_last(), present);
    }
}

proof fn lemma_absent_from_extremes(all: Seq<u32>, ranks: Seq<u32>)
    ensures
        (forall|i: int| 0 <= i < all.len() ==> ranks.contains(#[trigger] all[i])) ==> absent_from(all, ranks)
            =~= Seq::<u32>::empty(),
        ranks.len() == 0 ==> absent_from(all, ranks) =~= all,
    decreases all.len(),
{
    if all.len() > 0 {
        lemma_absent_from_extremes(all.drop_last(), ranks);
        if forall|i: int| 0 <= i < all.len() ==> ranks.contains(#[trigger] all[i]) {
            assert forall|i: int| 0 <= i < all.drop_last().len() implies ranks.contains(#[trigger] all.drop_last()[i]) by {
                assert(all.drop_last()[i] == all[i]);
            }
            assert(ranks.contains(all[all.len() - 1]));
        }
        if ranks.len() == 0 {
            assert(!ranks.contains(all.last()));
            assert(all.drop_last().push(all.last()) =~= all);
        }
    }
}

/// A node that every rank of the merge has is written with nothing after
/// the `|`; a node that no rank has is written `@|` and the merge's ranks.
pub proof fn law_rank_text_extremes(all: Seq<u32>, ranks: Seq<u32>)
    ensures
        (forall|i: int| 0 <= i < all.len() ==> ranks.contains(#[trigger] all[i])) ==> rank_text(all, ranks)
            == "@"@ + runs_text(sort_asc(ranks)) + "|"@,
        ranks.len() == 0 ==> rank_text(all, ranks) == "@"@ + "|"@ + runs_text(sort_asc(all)),
{
    lemma_absent_from_extremes(all, ranks);
    if forall|i: int| 0 <= i < all.len() ==> ranks.contains(#[trigger] all[i]) {
        assert(sort_asc(absent_from(all, ranks)) =~= Seq::<u32>::empty());
        assert(runs_text(Seq::<u32>::empty()) =~= Seq::<char>::empty());
        assert(rank_text(all, ranks) =~= "@"@ + runs_text(sort_asc(ranks)) + "|"@);
    }
    if ranks.len() == 0 {
        assert(sort_asc(ranks) =~= Seq::<u32>::empty());
        assert(runs_text(Seq::<u32>::empty()) =~= Seq::<char>::empty());
        assert(rank_text(all, ranks) =~= "@"@ + "|"@ + runs_text(sort_asc(all)));
    }
}

/// The values go up by one at every step.
pub open spec fn consecutive(s: Seq<u32>) -> bool {
    forall|k: int| 0 <= k < s.len() - 1 ==> #[trigger] s[k + 1] == s[k] + 1
}

/// A run of consecutive values is written by its first and last value: the
/// value alone for a single one, `a-b` from `a` to `b` for more.
pub proof fn law_run_is_written_by_its_ends(s: Seq<u32>)
    requires
        s.len() > 0,
        consecutive(s),
    ensures
        runs_text(s) == if s.len() == 1 {
            decimal(s[0] as nat)
        } else {
            decimal(s[0] as nat) + "-"@ + decimal(s[s.len() - 1] as nat)
        },
{
    lemma_run_end(s, 0, s.len() - 1);
}

/// Values split where a run ends are written as the text of the run, a `/`,
/// and the text of the rest: a maximal run `a` (the next value is not one
/// more than its last) followed by more values `b`.
pub proof fn law_runs_split_at_a_gap(a: Seq<u32>, b: Seq<u32>)
    requires
        a.len() > 0,
        b.len() > 0,
        consecutive(a),
        b[0] != a[a.len() - 1] + 1,
    ensures
        runs_text(a + b) == runs_text(a) + "/"@ + runs_text(b),
{
    let s = a + b;
    assert forall|k: int| 0 <= k < a.len() - 1 implies #[trigger] s[k + 1] == s[k] + 1 by {
        assert(s[k + 1] == a[k + 1] && s[k] == a[k]);
    }
    assert(s[a.len() as int] == b[0]);
    lemma_run_end(s, 0, a.len() - 1);
    lemma_run_end(a, 0, a.len() - 1);
    assert(s.skip(a.len() as int) =~= b);
    assert(s[0] == a[0] && s[a.len() - 1] == a[a.len() - 1]);
}

/// The text of a frame as a trace lists it.
pub open spec fn text_of_frame(f: StackFrame) -> Seq<char> {
    frame_text(f.func@, f.file@, f.lineno)
}

/// The texts of a trace's frames, in the trace's order.
pub open spec fn listed_texts(frames: Seq<StackFrame>) -> Seq<Seq<char>> {
    frames.map_values(|f: StackFrame| text_of_frame(f))
}

/// The stack line of a trace lists its frames in the reverse of the trace's
/// order: read backwards, the pieces are the trace's frames as listed.
pub proof fn law_stack_line_reverses_the_trace(t: Vec<StackFrame>)
    requires
        t@.len() > 0,
    ensures
        trace_texts(t@).reverse() == listed_texts(t@),
        callstack_lines_of(seq![t]) == seq![join(listed_texts(t@).reverse(), ";"@)],
{
    let n = t@.len();
    assert(trace_texts(t@).reverse() =~= listed_texts(t@)) by {
        assert forall|i: int| 0 <= i < n implies #[trigger] trace_texts(t@).reverse()[i] == text_of_frame(t@[i]) by {
            assert(trace_texts(t@).reverse()[i] == trace_texts(t@)[n - 1 - i]);
        }
    }
    assert(listed_texts(t@).reverse() =~= trace_texts(t@));
    assert(seq![t].drop_last() =~= Seq::<Vec<StackFrame>>::empty());
    assert(seq![t].last() == t);
    assert(callstack_lines_of(seq![t]) == callstack_lines_of(Seq::<Vec<StackFrame>>::empty()).push(
        join(trace_texts(t@), ";"@),
    ));
    assert(callstack_lines_of(seq![t]) =~= seq![join(listed_texts(t@).reverse(), ";"@)]);
}

/// Joining the pieces of a split with the separator gives back the text.
pub proof fn law_split_then_join(s: Seq<char>, c: char)
    ensures
        join(split_on(s, c), seq![c]) == s,
        forall|k: int| 0 <= k < split_on(s, c).len() ==> !(#[trigger] split_on(s, c)[k]).contains(c),
    decreases s.len(),
{
    if s.len() == 0 {
        assert(join(split_on(s, c), seq![c]) =~= s);
    } else {
        let t = s.drop_last();
        law_split_then_join(t, c);
        lemma_split_nonempty(t, c);
        let p = split_on(t, c);
        let x = s.last();
        if x == c {
            let q = p.push(Seq::<char>::empty());
            assert(q.drop_last() =~= p);
            assert(join(q, seq![c]) =~= s);
            assert forall|k: int| 0 <= k < q.len() implies !(#[trigger] q[k]).contains(c) by {
                if k < p.len() {
                    assert(q[k] == p[k]);
                }
            }
        } else {
            let q = p.update(p.len() - 1, p.last().push(x));
            if p.len() == 1 {
                assert(join(p, seq![c]) == p[0]);
                assert(join(q, seq![c]) == q[0]);
                assert(p[0] == t);
                assert(q[0] == p[0].push(x));
                assert(t.push(x) =~= s);
            } else {
                assert(q.drop_last() =~= p.drop_last());
                assert(join(p, seq![c]) == join(p.drop_last(), seq![c]) + seq![c] + p.last());
                assert(join(q, seq![c]) == join(q.drop_last(), seq![c]) + seq![c] + q.last());
                assert(q.last() == p.last().push(x));
                assert(join(q, seq![c]) =~= (join(p.drop_last(), seq![c]) + seq![c] + p.last()).push(x));
                assert(t.push(x) =~= s);
            }
            assert forall|k: int| 0 <= k < q.len() implies !(#[trigger] q[k]).contains(c) by {
                if k < p.len() - 1 {
                    assert(q[k] == p[k]);
                } else {
                    let l = p.last();
                    assert(!l.contains(c));
                    if q[k].contains(c) {
                        let i = choose|i: int| 0 <= i < q[k].len() && q[k][i] == c;
                        if i < l.len() {
                            assert(l[i] == c);
                        }
                    }
                }
            }
        }
    }
}

} // verus!
