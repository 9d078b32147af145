use pstree::ingest::get_pid_info;
use pstree::ingest::get_string_param;
use pstree::ingest::get_u32_param;
use pstree::ingest::parse_cmdline;
use pstree::ingest::parse_status_line;
use pstree::ingest::parse_u32;
use pstree::ingest::PidReadError;
use pstree::ingest::ProcessParams;
use pstree::render::extra_digits;
use pstree::render::print_trees;
use pstree::render::u32_string;
use pstree::search::Matcher;
use pstree::tree::build_trees;
use pstree::tree::Process;
use pstree::tree::ProcessRecord;
use pstree::tree::RootPolicy;

fn rec(pid: u32, ppid: u32, uid: u32, cmdline: &str) -> ProcessRecord {
    ProcessRecord { pid, ppid, uid, cmdline: String::from(cmdline) }
}

fn sample_records() -> Vec<ProcessRecord> {
    vec![rec(1, 0, 0, "init"), rec(2, 1, 7, "bash"), rec(3, 2, 7, "vim file")]
}

#[test]
fn build_trees_nests_children_under_parents() {
    let forest = build_trees(&sample_records(), RootPolicy::ParentZero);
    assert_eq!(forest.len(), 1);
    assert_eq!(forest[0].pid, 1);
    assert_eq!(forest[0].children.len(), 1);
    assert_eq!(forest[0].children[0].pid, 2);
    assert_eq!(forest[0].children[0].children[0].pid, 3);
    assert_eq!(forest[0].children[0].children[0].cmdline, "vim file");
}

#[test]
fn build_trees_sorts_children_by_pid() {
    let records = vec![
        rec(1, 0, 0, "init"),
        rec(9, 1, 0, "late"),
        rec(4, 1, 0, "mid"),
        rec(2, 1, 0, "early"),
    ];
    let forest = build_trees(&records, RootPolicy::ParentZero);
    let pids: Vec<u32> = forest[0].children.iter().map(|c| c.pid).collect();
    assert_eq!(pids, vec![2, 4, 9]);
}

#[test]
fn build_trees_drops_unreachable_orphans() {
    let records = vec![rec(1, 0, 0, "init"), rec(5, 5, 0, "self-parent")];
    let forest = build_trees(&records, RootPolicy::ParentZero);
    assert_eq!(forest.len(), 1);
    assert_eq!(forest[0].pid, 1);
    assert!(forest[0].children.is_empty());
}

#[test]
fn build_trees_cuts_a_cyclic_record_set_instead_of_recursing() {
    let records = vec![rec(0, 0, 0, "strange")];
    let forest = build_trees(&records, RootPolicy::ParentZero);
    assert_eq!(forest.len(), 1);
    assert_eq!(forest[0].pid, 0);
    assert_eq!(forest[0].children.len(), 1);
    assert!(forest[0].children[0].children.is_empty());
}

#[test]
fn build_trees_parent_absent_policy() {
    let records = vec![rec(2, 7, 0, "top"), rec(3, 2, 0, "kid")];
    let forest = build_trees(&records, RootPolicy::ParentAbsent);
    assert_eq!(forest.len(), 1);
    assert_eq!(forest[0].pid, 2);
    assert_eq!(forest[0].children[0].pid, 3);
}

#[test]
fn build_trees_pid_one_policy() {
    let records = vec![rec(1, 77, 0, "init"), rec(2, 1, 0, "kid")];
    let forest = build_trees(&records, RootPolicy::PidOne);
    assert_eq!(forest.len(), 1);
    assert_eq!(forest[0].pid, 1);
    assert_eq!(forest[0].children[0].pid, 2);
}

fn search_forest<'a>(forest: &'a [Process], matcher: &Matcher) -> Vec<&'a Process> {
    let mut matched: Vec<&Process> = Vec::new();
    for tree in forest {
        tree.search(&mut matched, matcher);
    }
    matched
}

#[test]
fn search_by_owner_absorbs_the_subtree() {
    let forest = build_trees(&sample_records(), RootPolicy::ParentZero);
    let matcher = Matcher { uid_filter: Some(7), filter: None };
    let matched = search_forest(&forest, &matcher);
    assert_eq!(matched.len(), 1);
    assert_eq!(matched[0].pid, 2);
    // Absorption keeps the matching subtree intact: vim stays nested
    // under bash even though bash already matched.
    assert_eq!(matched[0].children.len(), 1);
    assert_eq!(matched[0].children[0].pid, 3);
}

#[test]
fn search_match_all_returns_the_root_list() {
    let forest = build_trees(&sample_records(), RootPolicy::ParentZero);
    let matcher = Matcher { uid_filter: None, filter: None };
    let matched = search_forest(&forest, &matcher);
    assert_eq!(matched.len(), 1);
    assert_eq!(matched[0].pid, 1);
}

#[test]
fn build_trees_keeps_roots_in_record_order() {
    let records = vec![rec(5, 0, 0, "b"), rec(1, 0, 0, "a")];
    let forest = build_trees(&records, RootPolicy::ParentZero);
    let pids: Vec<u32> = forest.iter().map(|t| t.pid).collect();
    assert_eq!(pids, vec![5, 1]);
    // Match-all search hands the same root list back, in order.
    let matched = search_forest(&forest, &Matcher { uid_filter: None, filter: None });
    let mpids: Vec<u32> = matched.iter().map(|t| t.pid).collect();
    assert_eq!(mpids, vec![5, 1]);
}

#[test]
fn search_by_substring_is_case_sensitive() {
    let forest = build_trees(&sample_records(), RootPolicy::ParentZero);
    let hit = search_forest(&forest, &Matcher { uid_filter: None, filter: Some(String::from("vim")) });
    assert_eq!(hit.len(), 1);
    assert_eq!(hit[0].pid, 3);
    let miss = search_forest(&forest, &Matcher { uid_filter: None, filter: Some(String::from("VIM")) });
    assert!(miss.is_empty());
}

#[test]
fn search_no_match_contributes_nothing() {
    let forest = build_trees(&sample_records(), RootPolicy::ParentZero);
    let matched = search_forest(&forest, &Matcher { uid_filter: Some(99), filter: None });
    assert!(matched.is_empty());
}

#[test]
fn render_matched_subtree_at_width_forty() {
    let forest = build_trees(&sample_records(), RootPolicy::ParentZero);
    let matched = search_forest(&forest, &Matcher { uid_filter: Some(7), filter: None });
    let mut out: Vec<String> = Vec::new();
    // The caller reserves three columns of the terminal width for the
    // connector, as the program does at top level.
    print_trees(&matched, 40 - 3, "", &mut out);
    assert_eq!(out.len(), 2);
    assert_eq!(out[0], "\u{2514}\u{2500} 2 bash ");
    assert_eq!(out[1], "   \u{2514}\u{2500} 3 vim file ");
}

#[test]
fn render_wraps_long_command_lines_with_aligned_continuations() {
    let records = vec![rec(10, 0, 0, "cmd --alpha --beta")];
    let forest = build_trees(&records, RootPolicy::ParentZero);
    let matched = search_forest(&forest, &Matcher { uid_filter: None, filter: None });
    let mut out: Vec<String> = Vec::new();
    print_trees(&matched, 12, "", &mut out);
    // digits(10) claims one extra column, so the wrap budget is 12-1-1 = 10,
    // and continuation rows are indented under the command-line text:
    // three blanks, a blank bar column (no children), one digit column,
    // and the two-column separator.
    assert_eq!(out.len(), 3);
    assert_eq!(out[0], "\u{2514}\u{2500} 10 cmd ");
    assert_eq!(out[1], "       --alpha ");
    assert_eq!(out[2], "       --beta ");
}

#[test]
fn u32_string_prints_decimal() {
    assert_eq!(u32_string(0), "0");
    assert_eq!(u32_string(42), "42");
    assert_eq!(u32_string(4294967295), "4294967295");
}

#[test]
fn extra_digits_counts_label_overhang() {
    assert_eq!(extra_digits(0), 0);
    assert_eq!(extra_digits(9), 0);
    assert_eq!(extra_digits(10), 1);
    assert_eq!(extra_digits(99), 1);
    assert_eq!(extra_digits(100), 2);
}

#[test]
fn parse_u32_accepts_plus_and_rejects_junk() {
    assert_eq!(parse_u32("123"), Some(123));
    assert_eq!(parse_u32("+123"), Some(123));
    assert_eq!(parse_u32("4294967295"), Some(4294967295));
    assert_eq!(parse_u32("4294967296"), None);
    assert_eq!(parse_u32(""), None);
    assert_eq!(parse_u32("+"), None);
    assert_eq!(parse_u32("12a"), None);
    assert_eq!(parse_u32("-1"), None);
}

#[test]
fn parse_cmdline_quotes_and_joins_arguments() {
    assert_eq!(parse_cmdline(""), "");
    assert_eq!(parse_cmdline("ls\u{0}-l"), "ls -l");
    assert_eq!(parse_cmdline("ls\u{0}-l\u{0}"), "ls -l ");
    assert_eq!(parse_cmdline("sh\u{0}-c\u{0}echo hi"), "sh -c \"echo hi\"");
}

#[test]
fn parse_status_line_splits_key_and_values() {
    let (key, vals) = parse_status_line("Pid:\t123");
    assert_eq!(key, "Pid:");
    assert_eq!(vals, vec!["123"]);
    let (key2, vals2) = parse_status_line("Name:");
    assert_eq!(key2, "Name:");
    assert!(vals2.is_empty());
    let (key3, vals3) = parse_status_line("Uid:\t1000\t1000\t1000\t1000");
    assert_eq!(key3, "Uid:");
    assert_eq!(vals3, vec!["1000", "1000", "1000", "1000"]);
}

fn sample_params() -> ProcessParams {
    let mut p = ProcessParams::new();
    let lines = ["Name:\tbash", "State:\tS (sleeping)", "Pid:\t2", "PPid:\t1", "Uid:\t7\t7\t7\t7"];
    for line in lines {
        let (key, vals) = parse_status_line(line);
        p.insert(key, vals);
    }
    p
}

#[test]
fn get_params_read_the_status_fields() {
    let p = sample_params();
    assert_eq!(get_u32_param(&p, "Pid:").unwrap(), 2);
    assert_eq!(get_u32_param(&p, "PPid:").unwrap(), 1);
    assert_eq!(get_u32_param(&p, "Uid:").unwrap(), 7);
    assert_eq!(get_string_param(&p, "Name:").unwrap(), "bash");
}

#[test]
fn get_params_report_missing_and_invalid_fields() {
    let p = sample_params();
    match get_u32_param(&p, "Threads:") {
        Err(PidReadError::ParseError(m)) => assert_eq!(m, "missing Threads: parameter"),
        _ => panic!("expected a missing-parameter error"),
    }
    match get_u32_param(&p, "Name:") {
        Err(PidReadError::ParseError(m)) => assert_eq!(m, "invalid Name: parameter"),
        _ => panic!("expected an invalid-parameter error"),
    }
}

#[test]
fn get_pid_info_assembles_a_record() {
    let p = sample_params();
    let rec = get_pid_info(&p, "bash\u{0}").unwrap();
    assert_eq!(rec.pid, 2);
    assert_eq!(rec.ppid, 1);
    assert_eq!(rec.uid, 7);
    assert_eq!(rec.cmdline, "bash ");
}

#[test]
fn get_pid_info_falls_back_to_the_bracketed_name() {
    let p = sample_params();
    let rec = get_pid_info(&p, "").unwrap();
    assert_eq!(rec.cmdline, "[bash]");
}

#[test]
fn get_pid_info_marks_zombies() {
    let mut p = sample_params();
    let (key, vals) = parse_status_line("State:\tZ (zombie)");
    p.insert(key, vals);
    let rec = get_pid_info(&p, "").unwrap();
    assert_eq!(rec.cmdline, "[[bash]] zombie!");
}

#[test]
fn get_pid_info_reports_the_first_unreadable_field() {
    let mut p = ProcessParams::new();
    let (key, vals) = parse_status_line("Name:\tbash");
    p.insert(key, vals);
    match get_pid_info(&p, "bash\u{0}") {
        Err(PidReadError::ParseError(m)) => assert_eq!(m, "missing Pid: parameter"),
        _ => panic!("expected a missing-parameter error"),
    }
}
