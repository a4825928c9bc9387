use probing::monitor::{child_pids, InjectedSet};
use probing::pprof::{reset_pprof_timer, Itimerval, PProf, Timeval};
use probing::stack_trie::{
    callstack_lines, draw_frame_graph, folded_line, folded_lines, format_runs, merge_stacks, sort_ranks, split_frames, StackFrame, StackTrie,
};

#[test]
fn rank_text_lists_runs_then_missing_ranks() {
    let trie = StackTrie::new(vec![0, 1, 2, 3]);
    assert_eq!(trie.format_rank_str(&vec![3, 0, 1]), "@0-1/3|2");
    assert_eq!(trie.format_rank_str(&vec![0, 1, 2, 3]), "@0-3|");
    assert_eq!(trie.format_rank_str(&vec![]), "@|0-3");
}

#[test]
fn runs_are_joined_by_slashes() {
    assert_eq!(format_runs(&vec![0, 1, 2]), "0-2");
    assert_eq!(format_runs(&vec![1, 3, 4, 6]), "1/3-4/6");
    assert_eq!(format_runs(&vec![]), "");
    assert_eq!(sort_ranks(&vec![5, 1, 3]), vec![1, 3, 5]);
}

#[test]
fn merged_stacks_record_every_rank_on_every_prefix() {
    let trie = merge_stacks(vec!["a;b", "a;c", "a;b"]);
    assert_eq!(trie.all_ranks(), &vec![0, 1, 2]);
    let mut ab = trie.ranks_at(&vec!["a".to_string(), "b".to_string()]).unwrap();
    ab.sort();
    // The node where a stack ends records its rank once more.
    assert_eq!(ab, vec![0, 0, 2, 2]);
    let mut a = trie.ranks_at(&vec!["a".to_string()]).unwrap();
    a.sort();
    assert_eq!(a, vec![0, 1, 2]);
    assert!(trie.ranks_at(&vec!["b".to_string()]).is_none());
}

#[test]
fn traversal_gives_one_line_per_stack_end() {
    let trie = merge_stacks(vec!["a;b", "a;c", "a;b"]);
    let lines: Vec<String> = trie.traverse_with_all_stack().iter().map(folded_line).collect();
    assert_eq!(lines.len(), 2);
    assert!(lines.contains(&"a@0-2|;b @0/0/2/2|1 1".to_string()));
    assert!(lines.contains(&"a@0-2|;c @1/1|0/2 1".to_string()));
}

#[test]
fn frames_split_at_semicolons() {
    assert_eq!(split_frames("x;y;;z"), vec!["x", "y", "", "z"]);
    assert_eq!(split_frames(""), vec![""]);
}

#[test]
fn callstacks_read_outermost_first_and_skip_empty_traces() {
    let frame = |f: &str, l: u32| StackFrame { func: f.to_string(), file: "m.py".to_string(), lineno: l };
    let traces = vec![vec![frame("inner", 3), frame("outer", 10)], vec![]];
    assert_eq!(callstack_lines(&traces), vec!["outer (m.py:10);inner (m.py:3)".to_string()]);
}

#[test]
fn timer_splits_the_period() {
    let t = reset_pprof_timer(3);
    assert_eq!(t.it_interval, Timeval { tv_sec: 0, tv_usec: 333_333 });
    assert_eq!(t.it_value, t.it_interval);
    let slow = reset_pprof_timer(0);
    assert_eq!(slow, Itimerval { it_interval: Timeval { tv_sec: 0, tv_usec: 0 }, it_value: Timeval { tv_sec: 0, tv_usec: 0 } });
    let neg = reset_pprof_timer(-5);
    assert_eq!(neg.it_interval.tv_usec, 0);
    let one = reset_pprof_timer(1);
    assert_eq!(one.it_interval, Timeval { tv_sec: 1, tv_usec: 0 });
}

#[test]
fn restarting_keeps_the_frequency() {
    let mut p = PProf::new();
    assert_eq!(p.freq, 0);
    let t = p.start(Some(100));
    assert_eq!(t.it_interval.tv_usec, 10_000);
    let stopped = p.stop();
    assert_eq!(stopped.it_interval.tv_usec, 0);
    let again = p.start(None);
    assert_eq!(p.freq, 100);
    assert_eq!(again, t);
}

#[test]
fn children_are_found_by_parent_pid() {
    let procs = vec![(10, 1), (11, 10), (12, 10), (13, 11)];
    assert_eq!(child_pids(&procs, 10), vec![11, 12]);
    assert_eq!(child_pids(&procs, 99), Vec::<i32>::new());
}

#[test]
fn each_process_is_injected_once() {
    let mut s = InjectedSet::new();
    assert!(s.needs(5));
    s.mark(5);
    assert!(!s.needs(5));
    assert!(s.needs(6));
}

#[test]
fn rank_runs_reach_the_largest_rank() {
    let top = u32::MAX;
    let trie = StackTrie::new(vec![top - 2, top - 1, top]);
    assert_eq!(trie.format_rank_str(&vec![top, top - 1]), "@4294967294-4294967295|4294967293");
    assert_eq!(trie.format_rank_str(&vec![top]), "@4294967295|4294967293-4294967294");
}

#[test]
fn rank_text_when_every_rank_or_no_rank_has_the_stack() {
    let trie = StackTrie::new(vec![4, 2, 0, 1]);
    assert_eq!(trie.format_rank_str(&vec![1, 0, 2, 4]), "@0-2/4|");
    assert_eq!(trie.format_rank_str(&vec![]), "@|0-2/4");
}

#[test]
fn merged_stacks_draw_as_an_svg_flame_graph() {
    let trie = merge_stacks(vec!["main;work", "main;work", "main;idle"]);
    let lines = trie.traverse_with_all_stack();
    let folded = folded_lines(&lines);
    assert_eq!(folded.len(), lines.len());
    for (f, l) in folded.iter().zip(lines.iter()) {
        assert_eq!(*f, folded_line(l));
        assert!(f.ends_with(" 1"));
    }
    let svg = String::from_utf8(draw_frame_graph(&lines).unwrap()).unwrap();
    assert!(svg.contains("<svg"));
    assert!(svg.contains("work"));
    assert!(draw_frame_graph(&vec![]).is_err());
}
