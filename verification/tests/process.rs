use vmrss::decimal::format_i32;
use vmrss::process::{
    filter_root_processes, parse_pid, parse_pid_list, parse_ps_output, parse_vmmap_size,
    vmmap_swapped_field, ProcessWalk, SizeUnit,
};

#[test]
fn keeps_only_root_processes() {
    let pids = [10, 11, 12, 20];
    let children = vec![vec![11, 99], vec![12], vec![], vec![10]];
    assert_eq!(filter_root_processes(&pids, &children), vec![20]);
    let children = vec![vec![11, 99], vec![12], vec![], vec![]];
    assert_eq!(filter_root_processes(&pids, &children), vec![10, 20]);
    let children = vec![vec![], vec![], vec![], vec![]];
    assert_eq!(filter_root_processes(&pids, &children), vec![10, 11, 12, 20]);
    assert_eq!(filter_root_processes(&[], &[]), Vec::<i32>::new());
}

#[test]
fn root_filter_keeps_order_and_duplicates() {
    let pids = [5, 3, 5, 7];
    let children = vec![vec![], vec![7], vec![], vec![]];
    assert_eq!(filter_root_processes(&pids, &children), vec![5, 3, 5]);
}

#[test]
fn walks_tree_depth_first() {
    // 1 has children 2 and 3; 2 has child 4.
    let mut walk = ProcessWalk::new(1);
    let mut seen = Vec::new();
    while let Some((pid, space)) = walk.next() {
        seen.push((pid, space));
        let kids = match pid {
            1 => vec![2, 3],
            2 => vec![4],
            _ => vec![],
        };
        walk.descend(&kids, space);
    }
    assert_eq!(seen, vec![(1, 0), (2, 2), (4, 4), (3, 2)]);
    assert!(walk.is_done());
}

#[test]
fn children_come_next_in_order() {
    let mut walk = ProcessWalk::new(1);
    assert_eq!(walk.next(), Some((1, 0)));
    walk.descend(&vec![7, 8, 9], 6);
    assert_eq!(walk.next(), Some((7, 8)));
    assert_eq!(walk.next(), Some((8, 8)));
    assert_eq!(walk.next(), Some((9, 8)));
    assert_eq!(walk.next(), None);
}

#[test]
fn reads_process_ids() {
    assert_eq!(parse_pid("123"), Some(123));
    assert_eq!(parse_pid("+5"), Some(5));
    assert_eq!(parse_pid("-0"), Some(0));
    assert_eq!(parse_pid("007"), Some(7));
    assert_eq!(parse_pid("2147483647"), Some(2147483647));
    assert_eq!(parse_pid("2147483648"), None);
    assert_eq!(parse_pid("-2147483648"), Some(-2147483648));
    assert_eq!(parse_pid("-2147483649"), None);
    assert_eq!(parse_pid("99999999999999999999"), None);
    assert_eq!(parse_pid(""), None);
    assert_eq!(parse_pid("-"), None);
    assert_eq!(parse_pid("+"), None);
    assert_eq!(parse_pid("12a"), None);
    assert_eq!(parse_pid(" 12"), None);
    assert_eq!(parse_pid("Safari"), None);
}

#[test]
fn decimal_text_reads_back() {
    for n in [0, 7, -7, 42, 2147483647, -2147483648, 1000] {
        let text = format_i32(n);
        assert_eq!(text, n.to_string());
        assert_eq!(parse_pid(&text), Some(n));
    }
}

#[test]
fn reads_pgrep_output() {
    assert_eq!(parse_pid_list("123\n456\n"), vec![123, 456]);
    assert_eq!(parse_pid_list("  12 \r\n\nabc\n\t34\n-5"), vec![12, 34, -5]);
    assert_eq!(parse_pid_list(""), Vec::<i32>::new());
    assert_eq!(parse_pid_list("\n\n"), Vec::<i32>::new());
}

#[test]
fn reads_ps_line() {
    let f = parse_ps_output("\n  123  4096   1.5 /usr/bin/my  app\n").unwrap();
    assert_eq!(f.pid, 123);
    assert_eq!(f.rss, "4096");
    assert_eq!(f.cpu, "1.5");
    assert_eq!(f.name, "/usr/bin/my app");
    let f = parse_ps_output("77 10 0.0\n").unwrap();
    assert_eq!(f.name, "77");
    assert!(parse_ps_output("").is_none());
    assert!(parse_ps_output("   \n \n").is_none());
    assert!(parse_ps_output("abc 10 0.0 x").is_none());
    assert!(parse_ps_output("12 10").is_none());
    assert!(parse_ps_output("\n12 10\n13 20 1.0 y").is_none());
}

#[test]
fn finds_vmmap_swapped_column() {
    let output = "
===========                     ======= ========    =====  =======
TOTAL                            837.8M   199.8M    1952K    12.5M
";
    assert_eq!(vmmap_swapped_field(output), Some("12.5M".to_string()));
    assert_eq!(vmmap_swapped_field("TOTALS 1 2 3 4 5\n"), None);
    assert_eq!(vmmap_swapped_field("  TOTAL 1 2 3\n"), None);
    assert_eq!(vmmap_swapped_field("TOTAL\r\nTOTAL a b c d\n"), Some("d".to_string()));
    assert_eq!(vmmap_swapped_field("no summary"), None);
}

#[test]
fn splits_vmmap_sizes() {
    assert_eq!(parse_vmmap_size("0K"), Some(("0".to_string(), SizeUnit::Kilobytes)));
    assert_eq!(parse_vmmap_size("1024K"), Some(("1024".to_string(), SizeUnit::Kilobytes)));
    assert_eq!(parse_vmmap_size("1.5G"), Some(("1.5".to_string(), SizeUnit::Gigabytes)));
    assert_eq!(parse_vmmap_size("12B"), Some(("12".to_string(), SizeUnit::Bytes)));
    assert_eq!(parse_vmmap_size("3M"), Some(("3".to_string(), SizeUnit::Megabytes)));
    assert_eq!(parse_vmmap_size("12"), None);
    assert_eq!(parse_vmmap_size("12KB"), None);
    assert_eq!(parse_vmmap_size(".K"), None);
    assert_eq!(parse_vmmap_size("1.2.3M"), None);
}

#[test]
fn filtering_roots_twice_changes_nothing() {
    let children_of = |p: i32| -> Vec<i32> {
        match p {
            10 => vec![11],
            11 => vec![12],
            20 => vec![21, 10],
            _ => vec![],
        }
    };
    let pids = [12, 10, 20, 11, 30, 30];
    let kids: Vec<Vec<i32>> = pids.iter().map(|p| children_of(*p)).collect();
    let roots = filter_root_processes(&pids, &kids);
    assert_eq!(roots, vec![20, 30, 30]);
    let root_kids: Vec<Vec<i32>> = roots.iter().map(|p| children_of(*p)).collect();
    assert_eq!(filter_root_processes(&roots, &root_kids), roots);
}

#[test]
fn walk_visits_whole_tree_in_depth_first_order() {
    // 1 -> [2, 5], 2 -> [3, 4], 5 -> [6]
    let kids = |p: i32| -> Vec<i32> {
        match p {
            1 => vec![2, 5],
            2 => vec![3, 4],
            5 => vec![6],
            _ => vec![],
        }
    };
    let mut walk = ProcessWalk::new(1);
    let mut seen = Vec::new();
    while let Some((pid, space)) = walk.next() {
        seen.push((pid, space));
        walk.descend(&kids(pid), space);
    }
    assert_eq!(seen, vec![(1, 0), (2, 2), (3, 4), (4, 4), (5, 2), (6, 4)]);
}

#[test]
fn walk_skips_below_processes_that_cannot_be_sampled() {
    // 1 -> [2, 5], 2 -> [3, 4], 5 -> [6]; 2 cannot be sampled.
    let kids = |p: i32| -> Vec<i32> {
        match p {
            1 => vec![2, 5],
            2 => vec![3, 4],
            5 => vec![6],
            _ => vec![],
        }
    };
    let mut walk = ProcessWalk::new(1);
    let mut visited = Vec::new();
    let mut shown = Vec::new();
    while let Some((pid, space)) = walk.next() {
        visited.push((pid, space));
        if pid == 2 {
            continue;
        }
        shown.push(pid);
        walk.descend(&kids(pid), space);
    }
    assert_eq!(visited, vec![(1, 0), (2, 2), (5, 2), (6, 4)]);
    assert_eq!(shown, vec![1, 5, 6]);
    assert!(walk.is_done());
}
