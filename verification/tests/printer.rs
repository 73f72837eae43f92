use proctree::{print, PidNode, PrintConfig, ProcessInfo};

fn info(name: &str, path: &str, arg: &str) -> ProcessInfo {
    ProcessInfo { name: name.to_string(), path: path.to_string(), arg: arg.to_string() }
}

fn leaf(pid: u32, name: &str) -> PidNode {
    PidNode::new(pid, info(name, "", ""))
}

fn node(pid: u32, name: &str, children: Vec<PidNode>) -> PidNode {
    let mut n = leaf(pid, name);
    n.children = children;
    n
}

fn sample() -> PidNode {
    node(1, "root", vec![node(2, "a", vec![leaf(4, "g")]), leaf(3, "b")])
}

#[test]
fn single_node_line_has_both_spaces() {
    let lines = print(&leaf(7, "init"), &PrintConfig::new());
    assert_eq!(lines, vec![" init ".to_string()]);
}

#[test]
fn pid_is_shown_in_parentheses() {
    let cfg = PrintConfig::new().show_pid(true).build();
    let lines = print(&leaf(4294967295, "big"), &cfg);
    assert_eq!(lines, vec!["(4294967295) big ".to_string()]);
    let lines = print(&leaf(0, "idle"), &cfg);
    assert_eq!(lines, vec!["(0) idle ".to_string()]);
    let lines = print(&leaf(1050, "x"), &cfg);
    assert_eq!(lines, vec!["(1050) x ".to_string()]);
}

#[test]
fn path_and_arguments_are_shown_on_demand() {
    let n = PidNode::new(12, info("cmd.exe", "C:\\Windows\\cmd.exe", "cmd /c dir"));
    let cfg = PrintConfig::new().show_path(true).show_arg(true).build();
    assert_eq!(print(&n, &cfg), vec![" C:\\Windows\\cmd.exe cmd /c dir".to_string()]);
    let cfg = PrintConfig::new().show_arg(true).build();
    assert_eq!(print(&n, &cfg), vec![" cmd.exe cmd /c dir".to_string()]);
    let cfg = PrintConfig::new().show_pid(true).show_path(true).build();
    assert_eq!(print(&n, &cfg), vec!["(12) C:\\Windows\\cmd.exe ".to_string()]);
}

#[test]
fn continuation_and_terminal_markers() {
    let lines = print(&sample(), &PrintConfig::new());
    assert_eq!(
        lines,
        vec![
            " root ".to_string(),
            " \u{2560}\u{2550}  a ".to_string(),
            " \u{2551}   \u{255A}\u{2550}  g ".to_string(),
            " \u{255A}\u{2550}  b ".to_string(),
        ]
    );
}

#[test]
fn last_child_with_children_gets_blank_stem() {
    let tree = node(1, "r", vec![leaf(2, "a"), node(3, "b", vec![leaf(5, "c"), leaf(6, "d")])]);
    let lines = print(&tree, &PrintConfig::new().show_pid(true));
    assert_eq!(
        lines,
        vec![
            "(1) r ".to_string(),
            " \u{2560}\u{2550} (2) a ".to_string(),
            " \u{255A}\u{2550} (3) b ".to_string(),
            "     \u{2560}\u{2550} (5) c ".to_string(),
            "     \u{255A}\u{2550} (6) d ".to_string(),
        ]
    );
}

#[test]
fn only_child_gets_the_elbow() {
    let tree = node(1, "r", vec![node(2, "a", vec![leaf(3, "b")])]);
    let lines = print(&tree, &PrintConfig::new());
    assert_eq!(
        lines,
        vec![
            " r ".to_string(),
            " \u{255A}\u{2550}  a ".to_string(),
            "     \u{255A}\u{2550}  b ".to_string(),
        ]
    );
}

#[test]
fn sorting_orders_children_by_pid_and_keeps_ties() {
    let tree = node(
        1,
        "r",
        vec![leaf(30, "c"), leaf(10, "a1"), leaf(20, "b"), leaf(10, "a2"), leaf(5, "z")],
    );
    let sorted = print(&tree, &PrintConfig::new().show_pid(true).sort(true).build());
    assert_eq!(
        sorted,
        vec![
            "(1) r ".to_string(),
            " \u{2560}\u{2550} (5) z ".to_string(),
            " \u{2560}\u{2550} (10) a1 ".to_string(),
            " \u{2560}\u{2550} (10) a2 ".to_string(),
            " \u{2560}\u{2550} (20) b ".to_string(),
            " \u{255A}\u{2550} (30) c ".to_string(),
        ]
    );
    let unsorted = print(&tree, &PrintConfig::new().show_pid(true).sort(false).build());
    assert_eq!(unsorted[1], " \u{2560}\u{2550} (30) c ".to_string());
    assert_eq!(unsorted[5], " \u{255A}\u{2550} (5) z ".to_string());
}

#[test]
fn sorting_reaches_every_level() {
    let tree = node(1, "r", vec![node(9, "x", vec![leaf(8, "p"), leaf(7, "q")]), leaf(2, "y")]);
    let lines = print(&tree, &PrintConfig::new().show_pid(true).sort(true));
    assert_eq!(
        lines,
        vec![
            "(1) r ".to_string(),
            " \u{2560}\u{2550} (2) y ".to_string(),
            " \u{255A}\u{2550} (9) x ".to_string(),
            "     \u{2560}\u{2550} (7) q ".to_string(),
            "     \u{255A}\u{2550} (8) p ".to_string(),
        ]
    );
}

#[test]
fn rendering_twice_gives_the_same_lines_and_keeps_the_tree() {
    let tree = node(1, "r", vec![leaf(3, "b"), leaf(2, "a")]);
    let cfg = PrintConfig::new().show_pid(true).sort(true).build();
    let first = print(&tree, &cfg);
    let second = print(&tree, &cfg);
    assert_eq!(first, second);
    assert_eq!(tree.children[0].pid, 3);
    assert_eq!(tree.children[1].pid, 2);
}

#[test]
fn config_builder_sets_each_field() {
    let cfg = PrintConfig::new();
    assert_eq!(cfg, PrintConfig::default());
    assert!(!cfg.show_pid && !cfg.show_arg && !cfg.show_path && !cfg.sort);
    let cfg = PrintConfig::new().show_pid(true).show_arg(true).show_path(true).sort(true).build();
    assert!(cfg.show_pid && cfg.show_arg && cfg.show_path && cfg.sort);
    let cfg = cfg.show_arg(false);
    assert!(cfg.show_pid && !cfg.show_arg && cfg.show_path && cfg.sort);
}
