use proctree::{add_parent, find_by_pid, find_child, list_all, print};
use proctree::{PidNode, PrintConfig, ProcessInfo, ProcessRecord};

fn rec(pid: u32, parent_pid: u32, name: &str) -> ProcessRecord {
    ProcessRecord { pid, parent_pid, executable_name: name.to_string() }
}

fn shape(t: &PidNode) -> String {
    let kids: Vec<String> = t.children.iter().map(shape).collect();
    if kids.is_empty() {
        format!("{}", t.pid)
    } else {
        format!("{}[{}]", t.pid, kids.join(","))
    }
}

fn desktop() -> Vec<ProcessRecord> {
    vec![
        rec(0, 0, "[System Process]"),
        rec(4, 0, "System"),
        rec(400, 4, "smss.exe"),
        rec(7980, 612, "explorer.exe"),
        rec(8100, 7980, "cmd.exe"),
        rec(8200, 8100, "conhost.exe"),
        rec(8300, 7980, "notepad.exe"),
    ]
}

#[test]
fn find_test() {
    let tree = find_by_pid(&desktop(), 7980);
    if let Some(tree) = tree {
        for line in print(&tree, &PrintConfig::new().show_pid(true)) {
            println!("{}", line);
        }
        assert_eq!(shape(&tree), "7980[8100[8200],8300]");
    } else {
        panic!("pid 7980 is in the snapshot");
    }
}

#[test]
fn process_find_test() {
    let tree = find_by_pid(&desktop(), 7980);
    if let Some(tree) = tree {
        println!("{: <6}  Process Name", "PID");
        let cfg = PrintConfig::new().show_pid(true).sort(false).show_arg(true).build();
        let lines = print(&tree, &cfg);
        for line in &lines {
            println!("{}", line);
        }
        assert_eq!(lines[0], "(7980) explorer.exe ");
        assert_eq!(lines.len(), 4);
    } else {
        panic!("pid 7980 is in the snapshot");
    }
}

#[test]
fn list_test() {
    let processes = list_all(&desktop());
    println!("{: <6}  Process Name", "PID");
    let cfg = PrintConfig::new().show_pid(true).sort(true).show_arg(true).build();
    let mut count = 0;
    for process in &processes {
        for line in print(process, &cfg) {
            println!("{}", line);
            count += 1;
        }
    }
    assert_eq!(count, 7);
    assert_eq!(processes.len(), 1);
    assert_eq!(shape(&processes[0]), "0[4[400],7980[8100[8200],8300]]");
}

#[test]
fn missing_pid_is_not_found() {
    assert!(find_by_pid(&desktop(), 9999).is_none());
    assert!(find_by_pid(&Vec::new(), 0).is_none());
}

#[test]
fn subtree_keeps_snapshot_order_and_names() {
    let snapshot = vec![
        rec(1, 0, "init"),
        rec(5, 1, "five"),
        rec(3, 1, "three"),
        rec(9, 3, "nine"),
        rec(2, 5, "two"),
    ];
    let tree = find_by_pid(&snapshot, 1).unwrap();
    assert_eq!(shape(&tree), "1[5[2],3[9]]");
    assert_eq!(tree.process_info.name, "init");
    assert_eq!(tree.process_info.path, "");
    assert_eq!(tree.process_info.arg, "");
    assert_eq!(tree.children[0].process_info.name, "five");
    assert_eq!(tree.children[1].children[0].process_info.name, "nine");
}

#[test]
fn descendants_are_found_whatever_the_order_of_the_records() {
    let snapshot = vec![rec(4, 3, "d"), rec(3, 2, "c"), rec(2, 1, "b"), rec(1, 0, "a")];
    let tree = find_by_pid(&snapshot, 1).unwrap();
    assert_eq!(shape(&tree), "1[2[3[4]]]");
    let tree = find_by_pid(&snapshot, 3).unwrap();
    assert_eq!(shape(&tree), "3[4]");
}

#[test]
fn orphans_are_left_out_of_a_subtree() {
    let snapshot = vec![rec(1, 0, "a"), rec(2, 1, "b"), rec(4, 99, "orphan")];
    let tree = find_by_pid(&snapshot, 1).unwrap();
    assert_eq!(shape(&tree), "1[2]");
}

#[test]
fn no_pid_occurs_twice() {
    let snapshot = vec![rec(0, 0, "idle"), rec(4, 0, "sys"), rec(4, 0, "again"), rec(0, 4, "loop")];
    let tree = find_by_pid(&snapshot, 0).unwrap();
    assert_eq!(shape(&tree), "0[4]");
    assert_eq!(tree.process_info.name, "idle");
    assert_eq!(tree.children[0].process_info.name, "sys");
    let cycle = vec![rec(1, 2, "a"), rec(2, 1, "b")];
    assert_eq!(shape(&find_by_pid(&cycle, 1).unwrap()), "1[2]");
    assert_eq!(shape(&find_by_pid(&cycle, 2).unwrap()), "2[1]");
}

#[test]
fn breadth_first_attachment_takes_the_nearest_parent() {
    let snapshot = vec![rec(1, 0, "r"), rec(2, 1, "a"), rec(3, 2, "deep"), rec(3, 1, "near")];
    let tree = find_by_pid(&snapshot, 1).unwrap();
    assert_eq!(shape(&tree), "1[2,3]");
    assert_eq!(tree.children[1].process_info.name, "near");
}

#[test]
fn forest_groups_orphans_under_pid_zero() {
    let snapshot = vec![rec(1, 0, "init"), rec(2, 1, "svc"), rec(3, 1, "svc"), rec(4, 99, "orphan")];
    let forest = list_all(&snapshot);
    let shapes: Vec<String> = forest.iter().map(shape).collect();
    assert_eq!(shapes, vec!["0[4]".to_string(), "1[2,3]".to_string()]);
    assert_eq!(forest[0].process_info.name, "");
    assert_eq!(forest[1].process_info.name, "init");
    assert_eq!(forest[0].children[0].process_info.name, "orphan");
}

#[test]
fn forest_of_nothing_is_the_synthetic_root() {
    let forest = list_all(&Vec::new());
    assert_eq!(forest.len(), 1);
    assert_eq!(shape(&forest[0]), "0");
}

#[test]
fn forest_roots_come_by_ascending_pid() {
    let snapshot = vec![rec(9, 0, "i"), rec(3, 0, "c"), rec(5, 0, "e"), rec(6, 5, "f"), rec(3, 0, "c2")];
    let forest = list_all(&snapshot);
    let shapes: Vec<String> = forest.iter().map(shape).collect();
    assert_eq!(shapes, vec!["0", "3", "5[6]", "9"]);
}

#[test]
fn forest_holds_every_pid_once() {
    let snapshot = vec![
        rec(10, 0, "a"),
        rec(11, 10, "b"),
        rec(12, 11, "c"),
        rec(20, 0, "d"),
        rec(21, 77, "e"),
        rec(22, 21, "f"),
    ];
    let forest = list_all(&snapshot);
    let mut seen: Vec<u32> = Vec::new();
    fn walk(t: &PidNode, seen: &mut Vec<u32>) {
        seen.push(t.pid);
        for c in &t.children {
            walk(c, seen);
        }
    }
    for t in &forest {
        walk(t, &mut seen);
    }
    seen.sort();
    assert_eq!(seen, vec![0, 10, 11, 12, 20, 21, 22]);
}

#[test]
fn ancestors_are_put_above_and_the_spine_leads_back() {
    let snapshot = desktop();
    let start = find_by_pid(&snapshot, 8200).unwrap();
    let top = add_parent(&snapshot, start);
    assert_eq!(shape(&top), "7980[8100[8200]]");
    assert_eq!(top.process_info.name, "explorer.exe");
    let mut cursor = &top;
    while cursor.pid != 8200 {
        assert_eq!(cursor.children.len(), 1);
        cursor = &cursor.children[0];
    }
    assert_eq!(cursor.process_info.name, "conhost.exe");
}

#[test]
fn ancestor_walk_keeps_the_subtree_and_stops_at_a_cycle() {
    let snapshot = desktop();
    let start = find_by_pid(&snapshot, 8100).unwrap();
    assert_eq!(shape(&add_parent(&snapshot, start)), "7980[8100[8200]]");
    let start = find_by_pid(&snapshot, 400).unwrap();
    assert_eq!(shape(&add_parent(&snapshot, start)), "0[4[400]]");
    let cycle = vec![rec(1, 2, "a"), rec(2, 3, "b"), rec(3, 1, "c")];
    let start = PidNode::new(1, ProcessInfo::default());
    assert_eq!(shape(&add_parent(&cycle, start)), "3[2[1]]");
    let unknown = PidNode::new(555, ProcessInfo::default());
    assert_eq!(shape(&add_parent(&cycle, unknown)), "555");
}

#[test]
fn ancestor_walk_reads_the_last_record_of_a_pid() {
    let snapshot = vec![rec(7, 1, "old"), rec(1, 0, "one"), rec(2, 0, "two"), rec(7, 2, "new")];
    let top = add_parent(&snapshot, PidNode::new(7, ProcessInfo::default()));
    assert_eq!(shape(&top), "2[7]");
    assert_eq!(top.process_info.name, "two");
}

#[test]
fn search_is_breadth_first() {
    let mut deep = PidNode::new(5, ProcessInfo { name: "deep".into(), path: String::new(), arg: String::new() });
    deep.children = Vec::new();
    let mut a = PidNode::new(2, ProcessInfo::default());
    a.children = vec![deep];
    let near = PidNode::new(5, ProcessInfo { name: "near".into(), path: String::new(), arg: String::new() });
    let mut root = PidNode::new(1, ProcessInfo::default());
    root.children = vec![a, near];
    assert_eq!(find_child(&root, 5).unwrap().process_info.name, "near");
    assert_eq!(find_child(&root, 1).unwrap().pid, 1);
    assert_eq!(find_child(&root, 2).unwrap().children.len(), 1);
    assert!(find_child(&root, 6).is_none());
}

fn pids_of(t: &PidNode, out: &mut Vec<u32>) {
    out.push(t.pid);
    for c in &t.children {
        pids_of(c, out);
    }
}

fn closure(snapshot: &[ProcessRecord], root: u32) -> Vec<u32> {
    let mut set = vec![root];
    let mut grew = true;
    while grew {
        grew = false;
        for r in snapshot {
            if set.contains(&r.parent_pid) && !set.contains(&r.pid) {
                set.push(r.pid);
                grew = true;
            }
        }
    }
    set.sort();
    set
}

fn scrambled(n: u32) -> Vec<ProcessRecord> {
    let mut records = Vec::new();
    let mut state: u32 = 12345;
    for i in 0..n {
        state = state.wrapping_mul(1103515245).wrapping_add(12345);
        let pid = (i * 7 + 3) % 50;
        let parent = (state >> 16) % 50;
        records.push(rec(pid, parent, "p"));
    }
    records
}

#[test]
fn node_set_is_the_closure_of_the_parent_relation() {
    for n in [0u32, 1, 5, 20, 50, 80] {
        let snapshot = scrambled(n);
        for root in 0..50u32 {
            match find_by_pid(&snapshot, root) {
                None => assert!(snapshot.iter().all(|r| r.pid != root)),
                Some(tree) => {
                    let mut pids = Vec::new();
                    pids_of(&tree, &mut pids);
                    pids.sort();
                    let mut unique = pids.clone();
                    unique.dedup();
                    assert_eq!(pids, unique);
                    assert_eq!(pids, closure(&snapshot, root));
                }
            }
        }
    }
}

#[test]
fn children_stand_in_snapshot_order_under_their_parent() {
    let snapshot = scrambled(50);
    fn check(t: &PidNode, snapshot: &[ProcessRecord]) {
        let mut last = 0usize;
        for c in &t.children {
            let at = snapshot
                .iter()
                .position(|r| r.pid == c.pid && r.parent_pid == t.pid)
                .expect("a child comes from a record that names its parent");
            assert!(at >= last);
            last = at;
            check(c, snapshot);
        }
    }
    for root in 0..50u32 {
        if let Some(tree) = find_by_pid(&snapshot, root) {
            check(&tree, &snapshot);
        }
    }
}

#[test]
fn forest_of_a_snapshot_with_a_cycle_leaves_the_cycle_out() {
    let snapshot = vec![rec(1, 2, "a"), rec(2, 1, "b"), rec(3, 0, "c")];
    let shapes: Vec<String> = list_all(&snapshot).iter().map(shape).collect();
    assert_eq!(shapes, vec!["0", "3"]);
}

#[test]
fn forest_with_a_live_pid_zero_is_one_tree() {
    let snapshot = vec![rec(4, 0, "sys"), rec(0, 0, "idle"), rec(9, 77, "orphan"), rec(10, 9, "kid")];
    let forest = list_all(&snapshot);
    assert_eq!(forest.len(), 1);
    assert_eq!(shape(&forest[0]), "0[4,9[10]]");
    assert_eq!(forest[0].process_info.name, "idle");
}

#[test]
fn ancestor_walk_ends_at_a_missing_parent() {
    let snapshot = vec![rec(10, 3, "a"), rec(11, 10, "b"), rec(12, 11, "c")];
    let top = add_parent(&snapshot, find_by_pid(&snapshot, 12).unwrap());
    assert_eq!(shape(&top), "10[11[12]]");
    let top = add_parent(&snapshot, find_by_pid(&snapshot, 10).unwrap());
    assert_eq!(shape(&top), "10[11[12]]");
}

#[test]
fn forest_trees_hold_what_descends_from_their_roots_with_adoption() {
    for n in [0u32, 3, 17, 40, 90] {
        let snapshot = scrambled(n);
        let live = |p: u32| snapshot.iter().any(|r| r.pid == p);
        let key = |r: &ProcessRecord| -> Option<u32> {
            if live(r.parent_pid) {
                Some(r.parent_pid)
            } else if r.parent_pid == 0 {
                None
            } else {
                Some(0)
            }
        };
        let mut roots: Vec<u32> = vec![0];
        for r in &snapshot {
            if key(r).is_none() {
                roots.push(r.pid);
            }
        }
        roots.sort();
        roots.dedup();
        let forest = list_all(&snapshot);
        let found: Vec<u32> = forest.iter().map(|t| t.pid).collect();
        assert_eq!(found, roots);
        for tree in &forest {
            let mut expected = vec![tree.pid];
            let mut grew = true;
            while grew {
                grew = false;
                for r in &snapshot {
                    if let Some(k) = key(r) {
                        if expected.contains(&k) && !expected.contains(&r.pid) {
                            expected.push(r.pid);
                            grew = true;
                        }
                    }
                }
            }
            expected.sort();
            let mut pids = Vec::new();
            pids_of(tree, &mut pids);
            pids.sort();
            assert_eq!(pids, expected);
        }
    }
}
