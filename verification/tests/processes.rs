use probing::ptree::{
    build_process_tree, cmdline_text, format_process, parent_pid_from_status, probe_socket, process_tree_lines,
    ProcessInfo,
};

fn proc(pid: i32, ppid: i32, cmd: &str) -> ProcessInfo {
    ProcessInfo {
        pid,
        ppid,
        cmd: cmd.to_string(),
        socket_name: None,
        remote_addr: None,
        children: Vec::new(),
    }
}

#[test]
fn tree_puts_children_under_parents() {
    let procs = vec![proc(1, 0, "init"), proc(2, 1, "a"), proc(3, 2, "b"), proc(4, 1, "c"), proc(9, 77, "orphan")];
    let roots = build_process_tree(procs);
    assert_eq!(roots.len(), 2);
    assert_eq!(roots[0].pid, 1);
    assert_eq!(roots[1].pid, 9);
    let kids: Vec<i32> = roots[0].children.iter().map(|c| c.pid).collect();
    assert_eq!(kids, vec![2, 4]);
    assert_eq!(roots[0].children[0].children[0].pid, 3);
    assert!(roots[1].children.is_empty());
}

#[test]
fn the_last_record_of_a_pid_wins() {
    let procs = vec![proc(5, 0, "old"), proc(5, 0, "new")];
    let roots = build_process_tree(procs);
    assert_eq!(roots.len(), 1);
    assert_eq!(roots[0].cmd, "new");
}

#[test]
fn self_parented_process_is_a_root() {
    let roots = build_process_tree(vec![proc(7, 7, "loop")]);
    assert_eq!(roots.len(), 1);
    assert_eq!(roots[0].pid, 7);
}

#[test]
fn process_lines_short_and_verbose() {
    let mut p = proc(42, 1, "python train.py");
    assert_eq!(format_process(&p, false), "42: python train.py");
    assert_eq!(format_process(&p, true), "42 (socket: -, remote: -): python train.py");
    p.socket_name = Some("@probing-42".to_string());
    p.remote_addr = Some("10.0.0.1:9700".to_string());
    assert_eq!(format_process(&p, false), "42: python train.py (remote: 10.0.0.1:9700)");
    assert_eq!(
        format_process(&p, true),
        "42 (socket: @probing-42, remote: 10.0.0.1:9700): python train.py"
    );
}

#[test]
fn tree_lines_draw_branches() {
    let roots = build_process_tree(vec![proc(1, 0, "init"), proc(2, 1, "a"), proc(3, 1, "b"), proc(4, 2, "c")]);
    let lines = process_tree_lines(&roots, false, "");
    assert_eq!(
        lines,
        vec![
            "└── 1: init".to_string(),
            "    ├── 2: a".to_string(),
            "    │   └── 4: c".to_string(),
            "    └── 3: b".to_string(),
        ]
    );
}

#[test]
fn socket_table_lines_name_probe_sockets() {
    let line = "0000000000000000: 00000002 00000000 00010000 0001 01 12345 @probing-4242";
    assert_eq!(probe_socket(line), Some((4242, "@probing-4242".to_string())));
    assert_eq!(probe_socket("0: 2 0 10000 1 1 12345 @other-1"), None);
    assert_eq!(probe_socket("0: 2 0 10000 1 1 12345 @probing-x"), None);
    assert_eq!(probe_socket("too few fields"), None);
}

#[test]
fn parent_pid_comes_from_the_ppid_line() {
    let lines = vec!["Name:\tpython".to_string(), "PPid:\t321".to_string(), "PPid:\t9".to_string()];
    assert_eq!(parent_pid_from_status(&lines), 321);
    assert_eq!(parent_pid_from_status(&vec!["PPid:\tx".to_string()]), 0);
    assert_eq!(parent_pid_from_status(&vec!["PPid:".to_string(), "PPid: 8".to_string()]), 8);
    assert_eq!(parent_pid_from_status(&vec![]), 0);
}

#[test]
fn command_lines_become_readable() {
    assert_eq!(cmdline_text("python\0train.py\0--lr\0"), "python train.py --lr");
    assert_eq!(cmdline_text("\0\0"), "");
}

fn collect_pids(n: &ProcessInfo, out: &mut Vec<i32>) {
    out.push(n.pid);
    for c in &n.children {
        collect_pids(c, out);
    }
}

#[test]
fn every_process_stands_once_and_cycles_are_left_out() {
    let procs = vec![
        proc(1, 0, "init"),
        proc(2, 1, "old"),
        proc(3, 2, "leaf"),
        proc(5, 6, "cycle-a"),
        proc(6, 5, "cycle-b"),
        proc(2, 1, "new"),
        proc(9, 42, "orphan"),
    ];
    let roots = build_process_tree(procs);
    let mut pids = Vec::new();
    for r in &roots {
        collect_pids(r, &mut pids);
    }
    pids.sort();
    assert_eq!(pids, vec![1, 2, 3, 9]);
    assert_eq!(roots[0].children[0].cmd, "new");
}
