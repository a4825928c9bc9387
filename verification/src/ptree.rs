//! Processes that carry a probe, arranged as a forest by parent pid, and the
//! lines that draw it.
use vstd::prelude::*;
use vstd::string::*;

use crate::text::{
    i64_to_string, parse_i32, signed_decimal, spelled_i32, split_ws, starts_with, trim, trim_spec, ws_fields,
};

verus! {

/// A process with a probe, and the processes below it in the tree.
#[derive(Debug)]
pub struct ProcessInfo {
    pub pid: i32,
    pub ppid: i32,
    pub cmd: String,
    pub socket_name: Option<String>,
    pub remote_addr: Option<String>,
    pub children: Vec<ProcessInfo>,
}

/// What a process record says about the process itself, without its children.
pub struct ProcView {
    pub pid: i32,
    pub ppid: i32,
    pub cmd: Seq<char>,
    pub socket_name: Option<Seq<char>>,
    pub remote_addr: Option<Seq<char>>,
}

/// The value of an optional text.
pub open spec fn opt_text(s: Option<String>) -> Option<Seq<char>> {
    match s {
        Some(x) => Some(x@),
        None => None,
    }
}

/// The record of a process, without its children.
pub open spec fn info(p: ProcessInfo) -> ProcView {
    ProcView {
        pid: p.pid,
        ppid: p.ppid,
        cmd: p.cmd@,
        socket_name: opt_text(p.socket_name),
        remote_addr: opt_text(p.remote_addr),
    }
}

fn copy_opt(s: &Option<String>) -> (r: Option<String>)
    ensures
        opt_text(r) == opt_text(*s),
{
    match s {
        Some(x) => Some(x.clone()),
        None => None,
    }
}

impl ProcessInfo {
    /// A copy of the record without children.
    pub fn detached(&self) -> (r: ProcessInfo)
        ensures
            info(r) == info(*self),
            r.children@.len() == 0,
    {
        ProcessInfo {
            pid: self.pid,
            ppid: self.ppid,
            cmd: self.cmd.clone(),
            socket_name: copy_opt(&self.socket_name),
            remote_addr: copy_opt(&self.remote_addr),
            children: Vec::new(),
        }
    }
}

/// The record at position `i` is the last one with its pid.
pub open spec fn is_last_of_pid(ps: Seq<ProcessInfo>, i: int) -> bool {
    forall|j: int| i < j < ps.len() ==> #[trigger] ps[j].pid != ps[i].pid
}

/// The records among the first `k` that are the last ones with their pid, in order.
pub open spec fn dedup_upto(ps: Seq<ProcessInfo>, k: nat) -> Seq<ProcView>
    decreases k,
{
    if k == 0 {
        Seq::empty()
    } else if k <= ps.len() && is_last_of_pid(ps, k - 1) {
        dedup_upto(ps, (k - 1) as nat).push(info(ps[k - 1]))
    } else {
        dedup_upto(ps, (k - 1) as nat)
    }
}

/// One record per pid: the last one given for it, in the order of those records.
pub open spec fn dedup(ps: Seq<ProcessInfo>) -> Seq<ProcView> {
    dedup_upto(ps, ps.len())
}

/// Some record has pid `pid`.
pub open spec fn has_pid(d: Seq<ProcView>, pid: i32) -> bool {
    exists|j: int| 0 <= j < d.len() && d[j].pid == pid
}

/// A process is a root when its parent is not among the records, its parent
/// pid is 0, or it is its own parent.
pub open spec fn rootlike(d: Seq<ProcView>, i: int) -> bool {
    !has_pid(d, d[i].ppid) || d[i].ppid == 0 || d[i].ppid == d[i].pid
}

/// The positions below `k` of the children of `pid`: records whose parent is
/// `pid` and that are not roots.
pub open spec fn child_positions(d: Seq<ProcView>, pid: i32, k: nat) -> Seq<int>
    decreases k,
{
    if k == 0 {
        Seq::empty()
    } else if k <= d.len() && d[k - 1].ppid == pid && !rootlike(d, k - 1) {
        child_positions(d, pid, (k - 1) as nat).push(k - 1)
    } else {
        child_positions(d, pid, (k - 1) as nat)
    }
}

/// The positions below `k` of the roots.
pub open spec fn root_positions(d: Seq<ProcView>, k: nat) -> Seq<int>
    decreases k,
{
    if k == 0 {
        Seq::empty()
    } else if k <= d.len() && rootlike(d, k - 1) {
        root_positions(d, (k - 1) as nat).push(k - 1)
    } else {
        root_positions(d, (k - 1) as nat)
    }
}

/// `t` is the tree of the record at position `i`, grown `depth` levels: its
/// children are the trees of the record's children, in record order.
pub open spec fn is_tree(d: Seq<ProcView>, t: ProcessInfo, i: int, depth: nat) -> bool
    decreases depth,
{
    &&& 0 <= i < d.len()
    &&& info(t) == d[i]
    &&& depth == 0 ==> t.children@.len() == 0
    &&& depth > 0 ==> {
        let cs = child_positions(d, d[i].pid, d.len());
        &&& t.children@.len() == cs.len()
        &&& forall|k: int| 0 <= k < cs.len() ==> is_tree(d, #[trigger] t.children@[k], cs[k], (depth - 1) as nat)
    }
}

/// The records that are the last ones with their pid, without children.
fn dedup_processes(processes: &Vec<ProcessInfo>) -> (r: Vec<ProcessInfo>)
    ensures
        r@.len() == dedup(processes@).len(),
        forall|k: int| 0 <= k < r@.len() ==> info(#[trigger] r@[k]) == dedup(processes@)[k],
{
    let n = processes.len();
    let mut r: Vec<ProcessInfo> = Vec::new();
    let mut i: usize = 0;
    while i < n
        invariant
            n == processes@.len(),
            i <= n,
            r@.len() == dedup_upto(processes@, i as nat).len(),
            forall|k: int| 0 <= k < r@.len() ==> info(#[trigger] r@[k]) == dedup_upto(processes@, i as nat)[k],
        decreases n - i,
    {
        let mut later = false;
        let mut j: usize = i + 1;
        while j < n
            invariant
                n == processes@.len(),
                i < n,
                i + 1 <= j <= n,
                !later ==> forall|q: int| i < q < j ==> #[trigger] processes@[q].pid != processes@[i as int].pid,
                later ==> !is_last_of_pid(processes@, i as int),
            decreases n - j,
        {
            if processes[j].pid == processes[i].pid {
                later = true;
            }
            j = j + 1;
        }
        if !later {
            r.push(processes[i].detached());
        }
        i = i + 1;
    }
    r
}

/// Whether some record has pid `pid`.
fn any_has_pid(d: &Vec<ProcessInfo>, pid: i32) -> (r: bool)
    ensures
        r == has_pid(d@.map_values(|p: ProcessInfo| info(p)), pid),
{
    let ghost dv = d@.map_values(|p: ProcessInfo| info(p));
    let mut j: usize = 0;
    while j < d.len()
        invariant
            j <= d@.len(),
            dv == d@.map_values(|p: ProcessInfo| info(p)),
            forall|q: int| 0 <= q < j ==> #[trigger] dv[q].pid != pid,
        decreases d.len() - j,
    {
        if d[j].pid == pid {
            assert(dv[j as int].pid == pid);
            return true;
        }
        j = j + 1;
    }
    false
}

/// Whether the record at position `i` is a root.
fn is_rootlike(d: &Vec<ProcessInfo>, i: usize) -> (r: bool)
    requires
        i < d@.len(),
    ensures
        r == rootlike(d@.map_values(|p: ProcessInfo| info(p)), i as int),
{
    let p = &d[i];
    !any_has_pid(d, p.ppid) || p.ppid == 0 || p.ppid == p.pid
}

/// The tree of the record at position `i`, grown `depth` levels.
fn build_subtree(d: &Vec<ProcessInfo>, i: usize, depth: usize) -> (r: ProcessInfo)
    requires
        i < d@.len(),
    ensures
        is_tree(d@.map_values(|p: ProcessInfo| info(p)), r, i as int, depth as nat),
    decreases depth,
{
    let ghost dv = d@.map_values(|p: ProcessInfo| info(p));
    let mut node = d[i].detached();
    if depth == 0 {
        return node;
    }
    let pid = d[i].pid;
    let n = d.len();
    let mut children: Vec<ProcessInfo> = Vec::new();
    let ghost cs0 = child_positions(dv, pid, n as nat);
    let mut j: usize = 0;
    while j < n
        invariant
            n == d@.len(),
            i < n,
            depth > 0,
            dv == d@.map_values(|p: ProcessInfo| info(p)),
            pid == dv[i as int].pid,
            j <= n,
            children@.len() == child_positions(dv, pid, j as nat).len(),
            forall|k: int|
                0 <= k < children@.len() ==> is_tree(
                    dv,
                    #[trigger] children@[k],
                    child_positions(dv, pid, j as nat)[k],
                    (depth - 1) as nat,
                ),
        decreases n - j,
    {
        if d[j].ppid == pid && !is_rootlike(d, j) {
            let c = build_subtree(d, j, depth - 1);
            children.push(c);
        }
        j = j + 1;
    }
    node.children = children;
    node
}

/// Arranges processes as a forest: one node per pid (the last record given for
/// it), the roots in record order, and under each process the processes whose
/// parent it is, in record order. A process that is its own parent, or whose
/// parent pid is 0 or not among the records, is a root; processes whose
/// parent chain never reaches a root are left out.
pub fn build_process_tree(processes: Vec<ProcessInfo>) -> (r: Vec<ProcessInfo>)
    ensures
        r@.len() == root_positions(dedup(processes@), dedup(processes@).len()).len(),
        forall|k: int|
            0 <= k < r@.len() ==> is_tree(
                dedup(processes@),
                #[trigger] r@[k],
                root_positions(dedup(processes@), dedup(processes@).len())[k],
                dedup(processes@).len(),
            ),
{
    let d = dedup_processes(&processes);
    let ghost dv = d@.map_values(|p: ProcessInfo| info(p));
    assert(dv =~= dedup(processes@));
    let n = d.len();
    let mut roots: Vec<ProcessInfo> = Vec::new();
    let mut j: usize = 0;
    while j < n
        invariant
            n == d@.len(),
            dv == d@.map_values(|p: ProcessInfo| info(p)),
            j <= n,
            roots@.len() == root_positions(dv, j as nat).len(),
            forall|k: int|
                0 <= k < roots@.len() ==> is_tree(dv, #[trigger] roots@[k], root_positions(dv, j as nat)[k], n as nat),
        decreases n - j,
    {
        if is_rootlike(&d, j) {
            let t = build_subtree(&d, j, n);
            roots.push(t);
        }
        j = j + 1;
    }
    roots
}

} // verus!

verus! {

/// `s`, or a dash where there is none.
pub open spec fn or_dash(s: Option<Seq<char>>) -> Seq<char> {
    match s {
        Some(x) => x,
        None => "-"@,
    }
}

/// The line that shows one process. Verbose: `pid (socket: s, remote: r): cmd`,
/// with `-` for what is missing. Otherwise `pid: cmd`, followed by
/// ` (remote: r)` where the process has a remote address.
pub open spec fn process_label(v: ProcView, verbose: bool) -> Seq<char> {
    if verbose {
        signed_decimal(v.pid as int) + " (socket: "@ + or_dash(v.socket_name) + ", remote: "@
            + or_dash(v.remote_addr) + "): "@ + v.cmd
    } else {
        match v.remote_addr {
            Some(a) => signed_decimal(v.pid as int) + ": "@ + v.cmd + " (remote: "@ + a + ")"@,
            None => signed_decimal(v.pid as int) + ": "@ + v.cmd,
        }
    }
}

fn append_or_dash(s: &mut String, o: &Option<String>)
    ensures
        final(s)@ == old(s)@ + or_dash(opt_text(*o)),
{
    match o {
        Some(x) => s.append(x.as_str()),
        None => s.append("-"),
    }
}

/// Renders one process for display.
pub fn format_process(p: &ProcessInfo, verbose: bool) -> (s: String)
    ensures
        s@ == process_label(info(*p), verbose),
{
    let mut s = i64_to_string(p.pid as i64);
    if verbose {
        s.append(" (socket: ");
        append_or_dash(&mut s, &p.socket_name);
        s.append(", remote: ");
        append_or_dash(&mut s, &p.remote_addr);
        s.append("): ");
        s.append(p.cmd.as_str());
    } else {
        s.append(": ");
        s.append(p.cmd.as_str());
        match &p.remote_addr {
            Some(a) => {
                s.append(" (remote: ");
                s.append(a.as_str());
                s.append(")");
            },
            None => {},
        }
    }
    s
}

/// The branch drawn before a process: the last of its siblings closes the branch.
pub open spec fn connector(last: bool) -> Seq<char> {
    if last {
        "└── "@
    } else {
        "├── "@
    }
}

/// What stands before the lines of a process's children: a bar continues
/// below a process that has later siblings.
pub open spec fn child_pad(last: bool) -> Seq<char> {
    if last {
        "    "@
    } else {
        "│   "@
    }
}

/// The lines of a process and of the tree below it.
pub open spec fn node_lines(n: ProcessInfo, verbose: bool, prefix: Seq<char>, last: bool) -> Seq<Seq<char>>
    decreases n, 0int,
{
    seq![prefix + connector(last) + process_label(info(n), verbose)] + list_lines(
        n.children@,
        verbose,
        prefix + child_pad(last),
        n.children@.len() as int,
    )
}

/// The lines of the first `k` of the sibling processes `cs`.
pub open spec fn list_lines(cs: Seq<ProcessInfo>, verbose: bool, prefix: Seq<char>, k: int) -> Seq<Seq<char>>
    decreases cs, k,
{
    if k <= 0 || k > cs.len() {
        Seq::empty()
    } else {
        list_lines(cs, verbose, prefix, k - 1) + node_lines(cs[k - 1], verbose, prefix, k == cs.len())
    }
}

/// The texts of the given lines.
pub open spec fn texts(v: Seq<String>) -> Seq<Seq<char>> {
    v.map_values(|s: String| s@)
}

fn push_line(out: &mut Vec<String>, line: String)
    ensures
        texts(final(out)@) == texts(old(out)@).push(line@),
{
    out.push(line);
    assert(texts(out@) =~= texts(old(out)@).push(line@));
}

fn push_tree_lines(out: &mut Vec<String>, nodes: &Vec<ProcessInfo>, verbose: bool, prefix: &str)
    ensures
        texts(final(out)@) == texts(old(out)@) + list_lines(nodes@, verbose, prefix@, nodes@.len() as int),
    decreases nodes@,
{
    let n = nodes.len();
    let mut i: usize = 0;
    while i < n
        invariant
            n == nodes@.len(),
            i <= n,
            texts(out@) == texts(old(out)@) + list_lines(nodes@, verbose, prefix@, i as int),
        decreases n - i,
    {
        let last = i + 1 == n;
        let node = &nodes[i];
        let mut line = String::from_str(prefix);
        if last {
            line.append("└── ");
        } else {
            line.append("├── ");
        }
        let label = format_process(node, verbose);
        line.append(label.as_str());
        assert(line@ == prefix@ + connector(last) + process_label(info(*node), verbose));
        push_line(out, line);
        let ghost before = texts(out@);
        let mut child_prefix = String::from_str(prefix);
        if last {
            child_prefix.append("    ");
        } else {
            child_prefix.append("│   ");
        }
        proof {
            assert(decreases_to!(nodes@ => nodes@[i as int]));
        }
        let ghost line_text = prefix@ + connector(last) + process_label(info(*node), verbose);
        assert(before == texts(old(out)@) + list_lines(nodes@, verbose, prefix@, i as int) + seq![line_text]);
        assert(child_prefix@ == prefix@ + child_pad(last));
        push_tree_lines(out, &node.children, verbose, child_prefix.as_str());
        assert(node_lines(*node, verbose, prefix@, last) =~= seq![line_text] + list_lines(
            node.children@,
            verbose,
            child_prefix@,
            node.children@.len() as int,
        ));
        assert(list_lines(nodes@, verbose, prefix@, i + 1) == list_lines(nodes@, verbose, prefix@, i as int)
            + node_lines(*node, verbose, prefix@, last));
        assert(texts(out@) =~= texts(old(out)@) + list_lines(nodes@, verbose, prefix@, i + 1));
        i = i + 1;
    }
}

/// The lines that draw the forest `nodes`, each line beginning with `prefix`:
/// every process on a line of its own, its children below it, indented.
pub fn process_tree_lines(nodes: &Vec<ProcessInfo>, verbose: bool, prefix: &str) -> (r: Vec<String>)
    ensures
        texts(r@) == list_lines(nodes@, verbose, prefix@, nodes@.len() as int),
{
    let mut out: Vec<String> = Vec::new();
    push_tree_lines(&mut out, nodes, verbose, prefix);
    assert(texts(out@) =~= list_lines(nodes@, verbose, prefix@, nodes@.len() as int));
    out
}

} // verus!

verus! {

proof fn lemma_dedup_sources(ps: Seq<ProcessInfo>, k: nat)
    ensures
        forall|m: int|
            0 <= m < dedup_upto(ps, k).len() ==> exists|q: int|
                0 <= q < k && q < ps.len() && is_last_of_pid(ps, q) && #[trigger] dedup_upto(ps, k)[m]
                    == info(ps[q]),
    decreases k,
{
    if k > 0 {
        lemma_dedup_sources(ps, (k - 1) as nat);
        let prev = dedup_upto(ps, (k - 1) as nat);
        assert forall|m: int| 0 <= m < dedup_upto(ps, k).len() implies exists|q: int|
            0 <= q < k && q < ps.len() && is_last_of_pid(ps, q) && #[trigger] dedup_upto(ps, k)[m]
                == info(ps[q]) by {
            if m < prev.len() {
                assert(dedup_upto(ps, k)[m] == prev[m]);
                let q = choose|q: int|
                    0 <= q < k - 1 && q < ps.len() && is_last_of_pid(ps, q) && #[trigger] prev[m] == info(ps[q]);
                assert(0 <= q < k && q < ps.len() && is_last_of_pid(ps, q) && dedup_upto(ps, k)[m] == info(ps[q]));
            } else {
                assert(dedup_upto(ps, k)[m] == info(ps[k - 1]));
            }
        }
    }
}

proof fn lemma_dedup_distinct(ps: Seq<ProcessInfo>, k: nat)
    ensures
        forall|a: int, b: int|
            0 <= a < b < dedup_upto(ps, k).len() ==> #[trigger] dedup_upto(ps, k)[a].pid != #[trigger] dedup_upto(ps, k)[b].pid,
    decreases k,
{
    if k > 0 {
        lemma_dedup_distinct(ps, (k - 1) as nat);
        lemma_dedup_sources(ps, (k - 1) as nat);
        let prev = dedup_upto(ps, (k - 1) as nat);
        if k <= ps.len() && is_last_of_pid(ps, k - 1) {
            let cur = dedup_upto(ps, k);
            assert forall|a: int, b: int| 0 <= a < b < cur.len() implies #[trigger] cur[a].pid != #[trigger] cur[b].pid by {
                if b == prev.len() {
                    assert(cur[a] == prev[a]);
                    let q = choose|q: int|
                        0 <= q < k - 1 && q < ps.len() && is_last_of_pid(ps, q) && #[trigger] prev[a] == info(ps[q]);
                    assert(ps[k - 1].pid != ps[q].pid);
                } else {
                    assert(cur[a] == prev[a] && cur[b] == prev[b]);
                }
            }
        }
    }
}

proof fn lemma_child_positions(d: Seq<ProcView>, pid: i32, k: nat)
    ensures
        forall|m: int|
            0 <= m < child_positions(d, pid, k).len() ==> {
                let q = #[trigger] child_positions(d, pid, k)[m];
                &&& 0 <= q < k
                &&& q < d.len()
                &&& d[q].ppid == pid
                &&& !rootlike(d, q)
            },
    decreases k,
{
    if k > 0 {
        lemma_child_positions(d, pid, (k - 1) as nat);
    }
}

proof fn lemma_root_positions(d: Seq<ProcView>, k: nat)
    ensures
        forall|m: int|
            0 <= m < root_positions(d, k).len() ==> {
                let q = #[trigger] root_positions(d, k)[m];
                0 <= q < k && q < d.len() && rootlike(d, q)
            },
    decreases k,
{
    if k > 0 {
        lemma_root_positions(d, (k - 1) as nat);
        let prev = root_positions(d, (k - 1) as nat);
        assert forall|m: int| 0 <= m < root_positions(d, k).len() implies {
            let q = #[trigger] root_positions(d, k)[m];
            0 <= q < k && q < d.len() && rootlike(d, q)
        } by {
            if m < prev.len() {
                assert(root_positions(d, k)[m] == prev[m]);
            }
        }
    }
}

/// Each pid stands once in the tree: the records kept for it have pairwise
/// different pids.
pub proof fn law_one_record_per_pid(processes: Seq<ProcessInfo>)
    ensures
        forall|a: int, b: int|
            0 <= a < b < dedup(processes).len() ==> #[trigger] dedup(processes)[a].pid
                != #[trigger] dedup(processes)[b].pid,
{
    lemma_dedup_distinct(processes, processes.len());
}

/// Every process given has its pid in the tree's records, and the record kept
/// for a pid is the last one given for it.
pub proof fn law_last_record_wins(processes: Seq<ProcessInfo>, i: int)
    requires
        0 <= i < processes.len(),
        is_last_of_pid(processes, i),
    ensures
        exists|m: int| 0 <= m < dedup(processes).len() && #[trigger] dedup(processes)[m] == info(processes[i]),
{
    lemma_dedup_contains(processes, processes.len(), i);
    let m = choose|m: int|
        0 <= m < dedup_upto(processes, processes.len()).len() && #[trigger] dedup_upto(processes, processes.len())[m]
            == info(processes[i]);
    assert(dedup(processes)[m] == info(processes[i]));
}

proof fn lemma_dedup_contains(ps: Seq<ProcessInfo>, k: nat, i: int)
    requires
        0 <= i < k <= ps.len(),
        is_last_of_pid(ps, i),
    ensures
        exists|m: int| 0 <= m < dedup_upto(ps, k).len() && #[trigger] dedup_upto(ps, k)[m] == info(ps[i]),
    decreases k,
{
    if i == k - 1 {
        let m = dedup_upto(ps, k).len() - 1;
        assert(dedup_upto(ps, k)[m] == info(ps[i]));
    } else {
        lemma_dedup_contains(ps, (k - 1) as nat, i);
        let m = choose|m: int|
            0 <= m < dedup_upto(ps, (k - 1) as nat).len() && #[trigger] dedup_upto(ps, (k - 1) as nat)[m] == info(ps[i]);
        assert(dedup_upto(ps, k)[m] == info(ps[i]));
    }
}

/// In a grown tree every child names its parent: its parent pid is the pid of
/// the node above it, and it is not a root itself.
pub proof fn law_children_name_their_parent(d: Seq<ProcView>, t: ProcessInfo, i: int, depth: nat)
    requires
        is_tree(d, t, i, depth),
        depth > 0,
    ensures
        forall|k: int|
            0 <= k < t.children@.len() ==> (#[trigger] t.children@[k]).ppid == t.pid && t.children@[k].pid
                != t.pid,
{
    let cs = child_positions(d, d[i].pid, d.len());
    lemma_child_positions(d, d[i].pid, d.len());
    assert forall|k: int| 0 <= k < t.children@.len() implies (#[trigger] t.children@[k]).ppid == t.pid
        && t.children@[k].pid != t.pid by {
        assert(is_tree(d, t.children@[k], cs[k], (depth - 1) as nat));
        let q = cs[k];
        assert(d[q].ppid == d[i].pid);
        assert(!rootlike(d, q));
    }
}

/// The node reached from `t` by taking, level by level, the child at each
/// index of `path`.
pub open spec fn node_at(t: ProcessInfo, path: Seq<int>) -> ProcessInfo
    decreases path.len(),
{
    if path.len() == 0 {
        t
    } else {
        node_at(t, path.drop_last()).children@[path.last()]
    }
}

/// `path` leads down from `t` through existing children.
pub open spec fn path_in(t: ProcessInfo, path: Seq<int>) -> bool
    decreases path.len(),
{
    path.len() == 0 || (path_in(t, path.drop_last()) && 0 <= path.last() < node_at(
        t,
        path.drop_last(),
    ).children@.len())
}

/// The position of the record that `path` leads to from the record at `i`.
pub open spec fn position_at(d: Seq<ProcView>, i: int, path: Seq<int>) -> int
    decreases path.len(),
{
    if path.len() == 0 {
        i
    } else {
        child_positions(d, d[position_at(d, i, path.drop_last())].pid, d.len())[path.last()]
    }
}

/// The node that a path leads to in a grown tree is the tree of the record
/// at the path's position, grown as deep as is left.
proof fn lemma_tree_at(d: Seq<ProcView>, t: ProcessInfo, i: int, depth: nat, path: Seq<int>)
    requires
        is_tree(d, t, i, depth),
        path_in(t, path),
        path.len() <= depth,
    ensures
        is_tree(d, node_at(t, path), position_at(d, i, path), (depth - path.len()) as nat),
    decreases path.len(),
{
    if path.len() > 0 {
        let p = path.drop_last();
        lemma_tree_at(d, t, i, depth, p);
        let u = node_at(t, p);
        let x = position_at(d, i, p);
        let cs = child_positions(d, d[x].pid, d.len());
        assert(is_tree(d, u.children@[path.last()], cs[path.last()], (depth - p.len() - 1) as nat));
    }
}

/// Every node of a grown tree is one of the records, grown as deep as is left
/// below it: its fields are those of the last record given for its pid.
pub proof fn law_tree_nodes_are_records(processes: Seq<ProcessInfo>, t: ProcessInfo, i: int, depth: nat, path: Seq<int>)
    requires
        is_tree(dedup(processes), t, i, depth),
        path_in(t, path),
        path.len() <= depth,
    ensures
        exists|q: int|
            0 <= q < processes.len() && is_last_of_pid(processes, q) && #[trigger] info(processes[q]) == info(
                node_at(t, path),
            ),
{
    let d = dedup(processes);
    lemma_tree_at(d, t, i, depth, path);
    lemma_dedup_sources(processes, processes.len());
    let m = position_at(d, i, path);
    assert(d[m] == info(node_at(t, path)));
}

proof fn lemma_positions_increase(d: Seq<ProcView>, pid: i32, k: nat)
    ensures
        forall|a: int, b: int|
            0 <= a < b < child_positions(d, pid, k).len() ==> #[trigger] child_positions(d, pid, k)[a]
                < #[trigger] child_positions(d, pid, k)[b],
        forall|a: int, b: int|
            0 <= a < b < root_positions(d, k).len() ==> #[trigger] root_positions(d, k)[a] < #[trigger] root_positions(
                d,
                k,
            )[b],
    decreases k,
{
    if k > 0 {
        lemma_positions_increase(d, pid, (k - 1) as nat);
        lemma_child_positions(d, pid, (k - 1) as nat);
        lemma_root_positions(d, (k - 1) as nat);
        let c0 = child_positions(d, pid, (k - 1) as nat);
        let r0 = root_positions(d, (k - 1) as nat);
        assert forall|a: int, b: int| 0 <= a < b < child_positions(d, pid, k).len() implies #[trigger] child_positions(
            d,
            pid,
            k,
        )[a] < #[trigger] child_positions(d, pid, k)[b] by {
            assert(child_positions(d, pid, k)[a] == c0[a]);
            if b < c0.len() {
                assert(child_positions(d, pid, k)[b] == c0[b]);
            }
        }
        assert forall|a: int, b: int| 0 <= a < b < root_positions(d, k).len() implies #[trigger] root_positions(d, k)[a]
            < #[trigger] root_positions(d, k)[b] by {
            assert(root_positions(d, k)[a] == r0[a]);
            if b < r0.len() {
                assert(root_positions(d, k)[b] == r0[b]);
            }
        }
    }
}

/// Each process stands once in the forest: two nodes with the same pid are
/// the same node, reached from the same root by the same path.
pub proof fn law_each_process_once(
    processes: Seq<ProcessInfo>,
    forest: Seq<ProcessInfo>,
    a: int,
    pa: Seq<int>,
    b: int,
    pb: Seq<int>,
)
    requires
        forest.len() == root_positions(dedup(processes), dedup(processes).len()).len(),
        forall|k: int|
            0 <= k < forest.len() ==> is_tree(
                dedup(processes),
                #[trigger] forest[k],
                root_positions(dedup(processes), dedup(processes).len())[k],
                dedup(processes).len(),
            ),
        0 <= a < forest.len(),
        0 <= b < forest.len(),
        path_in(forest[a], pa),
        path_in(forest[b], pb),
        pa.len() <= dedup(processes).len(),
        pb.len() <= dedup(processes).len(),
        node_at(forest[a], pa).pid == node_at(forest[b], pb).pid,
    ensures
        a == b,
        pa == pb,
    decreases pa.len() + pb.len(),
{
    let d = dedup(processes);
    let n = d.len();
    let roots = root_positions(d, n);
    law_one_record_per_pid(processes);
    lemma_root_positions(d, n);
    lemma_positions_increase(d, 0, n);
    lemma_tree_at(d, forest[a], roots[a], n, pa);
    lemma_tree_at(d, forest[b], roots[b], n, pb);
    let qa = position_at(d, roots[a], pa);
    let qb = position_at(d, roots[b], pb);
    assert(qa == qb) by {
        assert(d[qa].pid == d[qb].pid);
        if qa != qb {
            if qa < qb {
                assert(d[qa].pid != d[qb].pid);
            } else {
                assert(d[qb].pid != d[qa].pid);
            }
        }
    }
    if pa.len() == 0 && pb.len() == 0 {
        assert(roots[a] == roots[b]);
        if a < b {
            assert(roots[a] < roots[b]);
        } else if b < a {
            assert(roots[b] < roots[a]);
        }
    } else if pa.len() == 0 {
        let pb0 = pb.drop_last();
        let y = position_at(d, roots[b], pb0);
        assert(path_in(forest[b], pb0));
        lemma_tree_at(d, forest[b], roots[b], n, pb0);
        lemma_child_positions(d, d[y].pid, n);
        assert(pb.last() < child_positions(d, d[y].pid, n).len());
        assert(!rootlike(d, qb));
        assert(rootlike(d, roots[a]));
    } else if pb.len() == 0 {
        let pa0 = pa.drop_last();
        let x = position_at(d, roots[a], pa0);
        assert(path_in(forest[a], pa0));
        lemma_tree_at(d, forest[a], roots[a], n, pa0);
        lemma_child_positions(d, d[x].pid, n);
        assert(pa.last() < child_positions(d, d[x].pid, n).len());
        assert(!rootlike(d, qa));
        assert(rootlike(d, roots[b]));
    } else {
        let pa0 = pa.drop_last();
        let pb0 = pb.drop_last();
        let x = position_at(d, roots[a], pa0);
        let y = position_at(d, roots[b], pb0);
        lemma_tree_at(d, forest[a], roots[a], n, pa0);
        lemma_tree_at(d, forest[b], roots[b], n, pb0);
        lemma_child_positions(d, d[x].pid, n);
        lemma_child_positions(d, d[y].pid, n);
        assert(d[qa].ppid == d[x].pid);
        assert(d[qb].ppid == d[y].pid);
        assert(x == y) by {
            if x != y {
                if x < y {
                    assert(d[x].pid != d[y].pid);
                } else {
                    assert(d[y].pid != d[x].pid);
                }
            }
        }
        assert(path_in(forest[a], pa0));
        assert(path_in(forest[b], pb0));
        assert(node_at(forest[a], pa0).pid == d[x].pid);
        assert(node_at(forest[b], pb0).pid == d[y].pid);
        law_each_process_once(processes, forest, a, pa0, b, pb0);
        let cs = child_positions(d, d[x].pid, n);
        lemma_positions_increase(d, d[x].pid, n);
        assert(cs[pa.last()] == cs[pb.last()]);
        if pa.last() < pb.last() {
            assert(cs[pa.last()] < cs[pb.last()]);
        } else if pb.last() < pa.last() {
            assert(cs[pb.last()] < cs[pa.last()]);
        }
        assert(pa == pa0.push(pa.last()));
        assert(pb == pb0.push(pb.last()));
    }
}

/// The position of the record of the parent of the record at `c`.
pub open spec fn parent_position(d: Seq<ProcView>, c: int) -> int {
    choose|p: int| 0 <= p < d.len() && d[p].pid == d[c].ppid
}

/// The position `j` steps up the chain of parents from the record at `q`.
pub open spec fn ancestor(d: Seq<ProcView>, q: int, j: nat) -> int
    decreases j,
{
    if j == 0 {
        q
    } else {
        parent_position(d, ancestor(d, q, (j - 1) as nat))
    }
}

proof fn lemma_positions_complete(d: Seq<ProcView>, pid: i32, k: nat, q: int)
    requires
        0 <= q < k <= d.len(),
    ensures
        rootlike(d, q) ==> exists|m: int| 0 <= m < root_positions(d, k).len() && #[trigger] root_positions(d, k)[m] == q,
        !rootlike(d, q) && d[q].ppid == pid ==> exists|m: int|
            0 <= m < child_positions(d, pid, k).len() && #[trigger] child_positions(d, pid, k)[m] == q,
    decreases k,
{
    if q < k - 1 {
        lemma_positions_complete(d, pid, (k - 1) as nat, q);
        if rootlike(d, q) {
            let m = choose|m: int| 0 <= m < root_positions(d, (k - 1) as nat).len() && #[trigger] root_positions(d, (k - 1) as nat)[m] == q;
            assert(root_positions(d, k)[m] == q);
        }
        if !rootlike(d, q) && d[q].ppid == pid {
            let m = choose|m: int|
                0 <= m < child_positions(d, pid, (k - 1) as nat).len() && #[trigger] child_positions(d, pid, (k - 1) as nat)[m] == q;
            assert(child_positions(d, pid, k)[m] == q);
        }
    } else {
        if rootlike(d, q) {
            assert(root_positions(d, k)[root_positions(d, (k - 1) as nat).len() as int] == q);
        }
        if !rootlike(d, q) && d[q].ppid == pid {
            assert(child_positions(d, pid, k)[child_positions(d, pid, (k - 1) as nat).len() as int] == q);
        }
    }
}

/// A chain of parents that reaches a root, with no root before it, passes
/// no record twice, so it is shorter than the list of records.
proof fn lemma_rooted_chain_is_short(d: Seq<ProcView>, q: int, k: nat)
    requires
        0 <= q < d.len(),
        rootlike(d, ancestor(d, q, k)),
        forall|j: nat| j < k ==> !rootlike(d, #[trigger] ancestor(d, q, j)),
    ensures
        k < d.len(),
        forall|j: nat| j <= k ==> 0 <= #[trigger] ancestor(d, q, j) < d.len(),
{
    assert forall|j: nat| j <= k implies 0 <= #[trigger] ancestor(d, q, j) < d.len() by {
        lemma_ancestor_in_range(d, q, j, k);
    }
    let chain = Seq::new((k + 1) as nat, |j: int| ancestor(d, q, j as nat));
    assert(chain.no_duplicates()) by {
        assert forall|i: int, j: int| 0 <= i < chain.len() && 0 <= j < chain.len() && i != j implies chain[i]
            != chain[j] by {
            if chain[i] == chain[j] {
                let (lo, hi) = if i < j { (i as nat, j as nat) } else { (j as nat, i as nat) };
                lemma_ancestor_shift(d, q, lo, hi, (k - hi) as nat);
                assert(ancestor(d, q, lo + (k - hi) as nat) == ancestor(d, q, k));
            }
        }
    }
    chain.unique_seq_to_set();
    vstd::set_lib::lemma_int_range(0, d.len() as int);
    assert(chain.to_set().subset_of(vstd::set_lib::set_int_range(0, d.len() as int))) by {
        assert forall|x: int| chain.to_set().contains(x) implies vstd::set_lib::set_int_range(0, d.len() as int).contains(x) by {
            let i = choose|i: int| 0 <= i < chain.len() && chain[i] == x;
            assert(ancestor(d, q, i as nat) == x);
        }
    }
    vstd::set_lib::lemma_len_subset(chain.to_set(), vstd::set_lib::set_int_range(0, d.len() as int));
}

proof fn lemma_ancestor_in_range(d: Seq<ProcView>, q: int, j: nat, k: nat)
    requires
        0 <= q < d.len(),
        j <= k,
        forall|i: nat| i < k ==> !rootlike(d, #[trigger] ancestor(d, q, i)),
    ensures
        0 <= ancestor(d, q, j) < d.len(),
    decreases j,
{
    if j > 0 {
        lemma_ancestor_in_range(d, q, (j - 1) as nat, k);
        let c = ancestor(d, q, (j - 1) as nat);
        assert(!rootlike(d, c));
        assert(has_pid(d, d[c].ppid));
    }
}

proof fn lemma_ancestor_shift(d: Seq<ProcView>, q: int, lo: nat, hi: nat, t: nat)
    requires
        ancestor(d, q, lo) == ancestor(d, q, hi),
    ensures
        ancestor(d, q, lo + t) == ancestor(d, q, hi + t),
    decreases t,
{
    if t > 0 {
        lemma_ancestor_shift(d, q, lo, hi, (t - 1) as nat);
        assert(ancestor(d, q, lo + t) == parent_position(d, ancestor(d, q, (lo + t - 1) as nat)));
        assert(ancestor(d, q, hi + t) == parent_position(d, ancestor(d, q, (hi + t - 1) as nat)));
    }
}

proof fn lemma_ancestor_of_parent(d: Seq<ProcView>, q: int, j: nat)
    ensures
        ancestor(d, parent_position(d, q), j) == ancestor(d, q, j + 1),
    decreases j,
{
    assert(ancestor(d, q, j + 1) == parent_position(d, ancestor(d, q, j)));
    if j > 0 {
        lemma_ancestor_of_parent(d, q, (j - 1) as nat);
        assert(ancestor(d, q, ((j - 1) as nat) + 1) == ancestor(d, q, j));
    } else {
        assert(ancestor(d, q, 0) == q);
    }
}

/// A process whose chain of parents reaches a root `k` steps up, passing no
/// root before, stands in the forest, `k` levels below that root.
pub proof fn law_rooted_processes_stand(processes: Seq<ProcessInfo>, forest: Seq<ProcessInfo>, q: int, k: nat)
    requires
        forest.len() == root_positions(dedup(processes), dedup(processes).len()).len(),
        forall|i: int|
            0 <= i < forest.len() ==> is_tree(
                dedup(processes),
                #[trigger] forest[i],
                root_positions(dedup(processes), dedup(processes).len())[i],
                dedup(processes).len(),
            ),
        0 <= q < dedup(processes).len(),
        rootlike(dedup(processes), ancestor(dedup(processes), q, k)),
        forall|j: nat| j < k ==> !rootlike(dedup(processes), #[trigger] ancestor(dedup(processes), q, j)),
    ensures
        exists|a: int, pa: Seq<int>|
            0 <= a < forest.len() && pa.len() == k && path_in(forest[a], pa) && #[trigger] info(
                node_at(forest[a], pa),
            ) == dedup(processes)[q],
    decreases k,
{
    let d = dedup(processes);
    let n = d.len();
    let roots = root_positions(d, n);
    lemma_rooted_chain_is_short(d, q, k);
    lemma_root_positions(d, n);
    law_one_record_per_pid(processes);
    if k == 0 {
        lemma_positions_complete(d, 0, n, q);
        let a = choose|m: int| 0 <= m < roots.len() && #[trigger] roots[m] == q;
        let pa = Seq::<int>::empty();
        assert(node_at(forest[a], pa) == forest[a]);
        assert(info(node_at(forest[a], pa)) == d[q]);
    } else {
        assert(!rootlike(d, ancestor(d, q, 0)));
        let p = parent_position(d, q);
        assert(has_pid(d, d[q].ppid));
        assert(0 <= p < n && d[p].pid == d[q].ppid);
        lemma_ancestor_of_parent(d, q, (k - 1) as nat);
        assert forall|j: nat| j < (k - 1) as nat implies !rootlike(d, #[trigger] ancestor(d, p, j)) by {
            lemma_ancestor_of_parent(d, q, j);
            assert(!rootlike(d, ancestor(d, q, j + 1)));
        }
        law_rooted_processes_stand(processes, forest, p, (k - 1) as nat);
        let (a, pa) = choose|a: int, pa: Seq<int>|
            0 <= a < forest.len() && pa.len() == (k - 1) as nat && path_in(forest[a], pa) && #[trigger] info(
                node_at(forest[a], pa),
            ) == d[p];
        lemma_tree_at(d, forest[a], roots[a], n, pa);
        let x = position_at(d, roots[a], pa);
        assert(x == p) by {
            if x != p {
                if x < p {
                    assert(d[x].pid != d[p].pid);
                } else {
                    assert(d[p].pid != d[x].pid);
                }
            }
        }
        let cs = child_positions(d, d[p].pid, n);
        lemma_positions_complete(d, d[p].pid, n, q);
        let m = choose|m: int| 0 <= m < cs.len() && #[trigger] cs[m] == q;
        let u = node_at(forest[a], pa);
        assert(u.children@.len() == cs.len());
        let pb = pa.push(m);
        assert(pb.drop_last() == pa);
        assert(path_in(forest[a], pb));
        assert(node_at(forest[a], pb) == u.children@[m]);
        assert(is_tree(d, u.children@[m], cs[m], (n - pa.len() - 1) as nat));
        assert(info(node_at(forest[a], pb)) == d[q]);
    }
}

/// A node of the forest `k` levels below its root is a record whose chain of
/// parents reaches that root `k` steps up, passing no root before; so a
/// process on a cycle of parents never stands in the forest.
pub proof fn law_forest_nodes_are_rooted(processes: Seq<ProcessInfo>, forest: Seq<ProcessInfo>, a: int, pa: Seq<int>)
    requires
        forest.len() == root_positions(dedup(processes), dedup(processes).len()).len(),
        forall|i: int|
            0 <= i < forest.len() ==> is_tree(
                dedup(processes),
                #[trigger] forest[i],
                root_positions(dedup(processes), dedup(processes).len())[i],
                dedup(processes).len(),
            ),
        0 <= a < forest.len(),
        path_in(forest[a], pa),
        pa.len() <= dedup(processes).len(),
    ensures
        0 <= position_at(dedup(processes), root_positions(dedup(processes), dedup(processes).len())[a], pa)
            < dedup(processes).len(),
        info(node_at(forest[a], pa)) == dedup(processes)[position_at(
            dedup(processes),
            root_positions(dedup(processes), dedup(processes).len())[a],
            pa,
        )],
        ancestor(
            dedup(processes),
            position_at(dedup(processes), root_positions(dedup(processes), dedup(processes).len())[a], pa),
            pa.len(),
        ) == root_positions(dedup(processes), dedup(processes).len())[a],
        forall|j: nat|
            j < pa.len() ==> !rootlike(
                dedup(processes),
                #[trigger] ancestor(
                    dedup(processes),
                    position_at(dedup(processes), root_positions(dedup(processes), dedup(processes).len())[a], pa),
                    j,
                ),
            ),
    decreases pa.len(),
{
    let d = dedup(processes);
    let n = d.len();
    let roots = root_positions(d, n);
    lemma_root_positions(d, n);
    lemma_tree_at(d, forest[a], roots[a], n, pa);
    let q = position_at(d, roots[a], pa);
    if pa.len() == 0 {
        assert(ancestor(d, q, 0) == q);
    } else {
        let pa0 = pa.drop_last();
        assert(path_in(forest[a], pa0));
        law_forest_nodes_are_rooted(processes, forest, a, pa0);
        lemma_tree_at(d, forest[a], roots[a], n, pa0);
        law_one_record_per_pid(processes);
        let x = position_at(d, roots[a], pa0);
        let cs = child_positions(d, d[x].pid, n);
        lemma_child_positions(d, d[x].pid, n);
        assert(pa.last() < cs.len());
        assert(q == cs[pa.last()]);
        assert(d[q].ppid == d[x].pid && !rootlike(d, q));
        let pp = parent_position(d, q);
        assert(has_pid(d, d[q].ppid));
        assert(pp == x) by {
            assert(0 <= pp < n && d[pp].pid == d[q].ppid);
            if pp != x {
                if pp < x {
                    assert(d[pp].pid != d[x].pid);
                } else {
                    assert(d[x].pid != d[pp].pid);
                }
            }
        }
        lemma_ancestor_of_parent(d, q, pa0.len());
        assert forall|j: nat| j < pa.len() implies !rootlike(d, #[trigger] ancestor(d, q, j)) by {
            if j == 0 {
                assert(ancestor(d, q, 0) == q);
            } else {
                lemma_ancestor_of_parent(d, q, (j - 1) as nat);
                assert(ancestor(d, x, (j - 1) as nat) == ancestor(d, q, j));
            }
        }
    }
}

proof fn lemma_list_lines_prefix(cs: Seq<ProcessInfo>, verbose: bool, prefix: Seq<char>, j: int, m: int)
    requires
        0 <= j <= m <= cs.len(),
    ensures
        list_lines(cs, verbose, prefix, j).is_prefix_of(list_lines(cs, verbose, prefix, m)),
    decreases m - j,
{
    if j < m {
        lemma_list_lines_prefix(cs, verbose, prefix, j, m - 1);
        let a = list_lines(cs, verbose, prefix, j);
        let b = list_lines(cs, verbose, prefix, m - 1);
        assert(list_lines(cs, verbose, prefix, m) == b + node_lines(cs[m - 1], verbose, prefix, m == cs.len()));
        assert forall|i: int| 0 <= i < a.len() implies a[i] == list_lines(cs, verbose, prefix, m)[i] by {
            assert(a[i] == b[i]);
        }
    }
}

/// In the drawing of a list of sibling processes, the line of sibling `k`
/// is the prefix, the branch `└── ` where `k` is the last sibling and `├── `
/// otherwise, whether or not it has children, then the process's label; it
/// stands after the lines of the siblings before it.
pub proof fn law_last_sibling_closes_the_branch(cs: Seq<ProcessInfo>, verbose: bool, prefix: Seq<char>, k: int)
    requires
        0 <= k < cs.len(),
    ensures
        list_lines(cs, verbose, prefix, k).len() < list_lines(cs, verbose, prefix, cs.len() as int).len(),
        list_lines(cs, verbose, prefix, cs.len() as int)[list_lines(cs, verbose, prefix, k).len() as int] == prefix
            + (if k == cs.len() - 1 {
            "└── "@
        } else {
            "├── "@
        }) + process_label(info(cs[k]), verbose),
{
    lemma_list_lines_prefix(cs, verbose, prefix, k + 1, cs.len() as int);
    let a = list_lines(cs, verbose, prefix, k);
    let b = list_lines(cs, verbose, prefix, k + 1);
    let nl = node_lines(cs[k], verbose, prefix, k + 1 == cs.len());
    assert(b == a + nl);
    assert(nl[0] == prefix + connector(k + 1 == cs.len()) + process_label(info(cs[k]), verbose));
    assert(b[a.len() as int] == nl[0]);
    assert(b.len() > a.len());
}

proof fn lemma_list_lines_start(cs: Seq<ProcessInfo>, verbose: bool, prefix: Seq<char>, k: int)
    ensures
        forall|i: int|
            0 <= i < list_lines(cs, verbose, prefix, k).len() ==> prefix.is_prefix_of(
                #[trigger] list_lines(cs, verbose, prefix, k)[i],
            ),
    decreases cs, k,
{
    if 0 < k <= cs.len() {
        lemma_list_lines_start(cs, verbose, prefix, k - 1);
        lemma_node_lines_start(cs[k - 1], verbose, prefix, k == cs.len());
        let a = list_lines(cs, verbose, prefix, k - 1);
        let nl = node_lines(cs[k - 1], verbose, prefix, k == cs.len());
        assert(list_lines(cs, verbose, prefix, k) == a + nl);
        assert forall|i: int| 0 <= i < list_lines(cs, verbose, prefix, k).len() implies prefix.is_prefix_of(
            #[trigger] list_lines(cs, verbose, prefix, k)[i],
        ) by {
            if i < a.len() {
                assert(list_lines(cs, verbose, prefix, k)[i] == a[i]);
            } else {
                assert(list_lines(cs, verbose, prefix, k)[i] == nl[i - a.len()]);
            }
        }
    }
}

proof fn lemma_node_lines_start(n: ProcessInfo, verbose: bool, prefix: Seq<char>, last: bool)
    ensures
        forall|i: int|
            0 <= i < node_lines(n, verbose, prefix, last).len() ==> prefix.is_prefix_of(
                #[trigger] node_lines(n, verbose, prefix, last)[i],
            ),
            forall|i: int|
            1 <= i < node_lines(n, verbose, prefix, last).len() ==> (prefix + child_pad(last)).is_prefix_of(
                #[trigger] node_lines(n, verbose, prefix, last)[i],
            ),
    decreases n, 0int,
{
    let pre2 = prefix + child_pad(last);
    let rest = list_lines(n.children@, verbose, pre2, n.children@.len() as int);
    assert(decreases_to!(n => n.children));
    lemma_list_lines_start(n.children@, verbose, pre2, n.children@.len() as int);
    let first = prefix + connector(last) + process_label(info(n), verbose);
    let nl = node_lines(n, verbose, prefix, last);
    assert(nl == seq![first] + rest);
    assert forall|i: int| 0 <= i < nl.len() implies prefix.is_prefix_of(#[trigger] nl[i]) by {
        if i == 0 {
            assert(nl[0] == first);
            assert(first =~= prefix + (connector(last) + process_label(info(n), verbose)));
        } else {
            assert(nl[i] == rest[i - 1]);
            assert(pre2.is_prefix_of(rest[i - 1]));
            assert forall|j: int| 0 <= j < prefix.len() implies prefix[j] == rest[i - 1][j] by {
                assert(pre2[j] == prefix[j]);
            }
        }
    }
    assert forall|i: int| 1 <= i < nl.len() implies pre2.is_prefix_of(#[trigger] nl[i]) by {
        assert(nl[i] == rest[i - 1]);
    }
}

/// Below a sibling, the lines of its children carry on the prefix with a
/// blank where the sibling was the last one, and with a bar `│` that leads
/// on to the next sibling otherwise.
pub proof fn law_children_hang_below_their_branch(cs: Seq<ProcessInfo>, verbose: bool, prefix: Seq<char>, k: int)
    requires
        0 <= k < cs.len(),
    ensures
        forall|i: int|
            list_lines(cs, verbose, prefix, k).len() < i < list_lines(cs, verbose, prefix, k + 1).len() ==> (prefix
                + (if k == cs.len() - 1 {
                "    "@
            } else {
                "│   "@
            })).is_prefix_of(#[trigger] list_lines(cs, verbose, prefix, cs.len() as int)[i]),
{
    lemma_list_lines_prefix(cs, verbose, prefix, k + 1, cs.len() as int);
    let a = list_lines(cs, verbose, prefix, k);
    let b = list_lines(cs, verbose, prefix, k + 1);
    let nl = node_lines(cs[k], verbose, prefix, k + 1 == cs.len());
    assert(b == a + nl);
    lemma_node_lines_start(cs[k], verbose, prefix, k + 1 == cs.len());
    assert forall|i: int| a.len() < i < b.len() implies (prefix + (if k == cs.len() - 1 {
        "    "@
    } else {
        "│   "@
    })).is_prefix_of(#[trigger] list_lines(cs, verbose, prefix, cs.len() as int)[i]) by {
        assert(list_lines(cs, verbose, prefix, cs.len() as int)[i] == b[i]);
        assert(b[i] == nl[i - a.len()]);
    }
}

/// The processes at the top of the forest are exactly those that are roots.
pub proof fn law_tops_are_roots(d: Seq<ProcView>)
    ensures
        forall|m: int|
            0 <= m < root_positions(d, d.len()).len() ==> rootlike(d, #[trigger] root_positions(d, d.len())[m]),
{
    lemma_root_positions(d, d.len());
}

} // verus!

verus! {

/// The probe socket that a line of the kernel's unix socket table names: its
/// eighth field, where that is `@probing-` followed by a process id.
pub open spec fn probe_socket_spec(line: Seq<char>) -> Option<(i32, Seq<char>)> {
    let f = ws_fields(line);
    if f.len() >= 8 && "@probing-"@.is_prefix_of(f[7]) {
        match spelled_i32(f[7].skip(9)) {
            Some(pid) => Some((pid, f[7])),
            None => None,
        }
    } else {
        None
    }
}

/// The process id and socket name that a line of the unix socket table
/// names, where it is the socket of a process with a probe.
pub fn probe_socket(line: &str) -> (r: Option<(i32, String)>)
    ensures
        match r {
            Some(p) => probe_socket_spec(line@) == Some((p.0, p.1@)),
            None => probe_socket_spec(line@) is None,
        },
{
    let fields = split_ws(line);
    if fields.len() < 8 {
        return None;
    }
    let name = fields[7].as_str();
    assert(fields.deep_view()[7] == fields@[7]@);
    proof {
        reveal_strlit("@probing-");
    }
    if !starts_with(name, "@probing-") {
        return None;
    }
    let rest = name.substring_char(9, name.unicode_len());
    assert(rest@ =~= name@.skip(9));
    match parse_i32(rest) {
        Some(pid) => Some((pid, String::from_str(name))),
        None => None,
    }
}

/// The parent process id that a line of a process status file gives: on the
/// `PPid:` line, its second field, 0 where that is no number.
pub open spec fn status_line_ppid(line: Seq<char>) -> Option<i32> {
    if "PPid:"@.is_prefix_of(line) && ws_fields(line).len() >= 2 {
        Some(
            match spelled_i32(ws_fields(line)[1]) {
                Some(p) => p,
                None => 0,
            },
        )
    } else {
        None
    }
}

/// The parent process id that a status file gives: that of its first line
/// that gives one, else 0.
pub open spec fn ppid_from_lines(lines: Seq<Seq<char>>) -> i32
    decreases lines.len(),
{
    if lines.len() == 0 {
        0
    } else {
        match status_line_ppid(lines[0]) {
            Some(p) => p,
            None => ppid_from_lines(lines.skip(1)),
        }
    }
}

fn line_ppid(line: &str) -> (r: Option<i32>)
    ensures
        r == status_line_ppid(line@),
{
    if !starts_with(line, "PPid:") {
        return None;
    }
    let fields = split_ws(line);
    if fields.len() < 2 {
        return None;
    }
    assert(fields.deep_view()[1] == fields@[1]@);
    match parse_i32(fields[1].as_str()) {
        Some(p) => Some(p),
        None => Some(0),
    }
}

/// The parent process id that the lines of a process status file give.
pub fn parent_pid_from_status(lines: &Vec<String>) -> (r: i32)
    ensures
        r == ppid_from_lines(lines.deep_view()),
{
    let ghost all = lines.deep_view();
    assert(all.skip(0) =~= all);
    let mut i: usize = 0;
    while i < lines.len()
        invariant
            i <= lines@.len(),
            all == lines.deep_view(),
            ppid_from_lines(all) == ppid_from_lines(all.skip(i as int)),
        decreases lines.len() - i,
    {
        let ghost rest = all.skip(i as int);
        assert(rest[0] == lines@[i as int]@);
        match line_ppid(lines[i].as_str()) {
            Some(p) => {
                return p;
            },
            None => {},
        }
        assert(rest.skip(1) =~= all.skip(i + 1));
        i = i + 1;
    }
    assert(all.skip(i as int).len() == 0);
    0
}

/// A command line as the process table keeps it, its arguments separated by
/// NUL characters, made readable: NULs become spaces, and white space at
/// either end goes.
pub open spec fn cmdline_spec(raw: Seq<char>) -> Seq<char> {
    trim_spec(raw.map_values(|c: char| if c == '\0' { ' ' } else { c }))
}

/// The readable form of a raw command line.
pub fn cmdline_text(raw: &str) -> (r: String)
    ensures
        r@ == cmdline_spec(raw@),
{
    let n = raw.unicode_len();
    let mut s = String::new();
    let mut i: usize = 0;
    while i < n
        invariant
            n == raw@.len(),
            i <= n,
            s@ == raw@.take(i as int).map_values(|c: char| if c == '\0' { ' ' } else { c }),
        decreases n - i,
    {
        let c = raw.get_char(i);
        if c == '\0' {
            proof {
                reveal_strlit(" ");
            }
            s.append(" ");
        } else {
            s.append(raw.substring_char(i, i + 1));
        }
        assert(s@ =~= raw@.take(i + 1).map_values(|c: char| if c == '\0' { ' ' } else { c }));
        i = i + 1;
    }
    assert(raw@.take(n as int) =~= raw@);
    trim(s.as_str())
}

} // verus!

verus! {

/// `t` occurs in `s`.
pub open spec fn occurs_in(t: Seq<char>, s: Seq<char>) -> bool {
    exists|i: int| 0 <= i && i + t.len() <= s.len() && #[trigger] s.subrange(i, i + t.len()) == t
}

/// The last component of a path: what follows its last `/`.
pub open spec fn last_component(p: Seq<char>) -> Seq<char>
    decreases p.len(),
{
    if p.len() == 0 {
        p
    } else if p.last() == '/' {
        Seq::empty()
    } else {
        last_component(p.drop_last()).push(p.last())
    }
}

/// The file that a line of a process's memory map names: the last component
/// of its sixth field, where that field is a path from the root.
pub open spec fn mapped_file(line: Seq<char>) -> Option<Seq<char>> {
    let f = ws_fields(line);
    if f.len() >= 6 && f[5].len() > 0 && f[5][0] == '/' {
        Some(last_component(f[5]))
    } else {
        None
    }
}

/// A line of a memory map names a file whose name contains `lib`.
pub open spec fn line_maps_library(line: Seq<char>, lib: Seq<char>) -> bool {
    match mapped_file(line) {
        Some(f) => occurs_in(lib, f),
        None => false,
    }
}

fn last_component_of(p: &str) -> (r: String)
    ensures
        r@ == last_component(p@),
{
    let n = p.unicode_len();
    let mut start: usize = 0;
    let mut i: usize = 0;
    while i < n
        invariant
            n == p@.len(),
            start <= i <= n,
            last_component(p@.take(i as int)) == p@.subrange(start as int, i as int),
        decreases n - i,
    {
        assert(p@.take(i + 1).drop_last() =~= p@.take(i as int));
        if p.get_char(i) == '/' {
            start = i + 1;
            assert(p@.subrange(start as int, i + 1) =~= Seq::<char>::empty());
        } else {
            assert(p@.subrange(start as int, i + 1) =~= p@.subrange(start as int, i as int).push(p@[i as int]));
        }
        i = i + 1;
    }
    assert(p@.take(n as int) =~= p@);
    String::from_str(p.substring_char(start, n))
}

fn occurs(t: &str, s: &str) -> (r: bool)
    ensures
        r == occurs_in(t@, s@),
{
    let n = s.unicode_len();
    let m = t.unicode_len();
    if m > n {
        assert(!occurs_in(t@, s@));
        return false;
    }
    if m == 0 {
        assert(s@.subrange(0, 0 + t@.len() as int) =~= t@);
        assert(occurs_in(t@, s@));
        return true;
    }
    let mut i: usize = 0;
    while i <= n - m
        invariant
            n == s@.len(),
            m == t@.len(),
            1 <= m <= n,
            i <= n - m + 1,
            forall|j: int| 0 <= j < i ==> #[trigger] s@.subrange(j, j + m) != t@,
        decreases n - i,
    {
        let piece = s.substring_char(i, i + m);
        if crate::text::str_eq(piece, t) {
            assert(s@.subrange(i as int, i + m) == t@);
            return true;
        }
        i = i + 1;
    }
    assert(!occurs_in(t@, s@)) by {
        if occurs_in(t@, s@) {
            let j = choose|j: int| 0 <= j && j + t@.len() <= s@.len() && #[trigger] s@.subrange(j, j + t@.len()) == t@;
            assert(j < i);
        }
    }
    false
}

/// Whether a process's memory map, given by its lines, maps a file whose
/// name contains `lib_name`.
pub fn maps_library(lines: &Vec<String>, lib_name: &str) -> (r: bool)
    ensures
        r == exists|k: int| 0 <= k < lines@.len() && #[trigger] line_maps_library(lines@[k]@, lib_name@),
{
    let mut k: usize = 0;
    while k < lines.len()
        invariant
            k <= lines@.len(),
            forall|j: int| 0 <= j < k ==> !#[trigger] line_maps_library(lines@[j]@, lib_name@),
        decreases lines.len() - k,
    {
        let fields = split_ws(lines[k].as_str());
        if fields.len() >= 6 {
            assert(fields.deep_view()[5] == fields@[5]@);
            let path = fields[5].as_str();
            if path.unicode_len() > 0 && path.get_char(0) == '/' {
                let name = last_component_of(path);
                if occurs(lib_name, name.as_str()) {
                    assert(mapped_file(lines@[k as int]@) == Some(name@));
                    assert(line_maps_library(lines@[k as int]@, lib_name@));
                    return true;
                }
            }
        }
        assert(!line_maps_library(lines@[k as int]@, lib_name@));
        k = k + 1;
    }
    false
}

} // verus!
