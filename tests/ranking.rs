use repo_activity::report::{decimal_string, rank_and_render, rank_order, render_summary, ChangeStats, RepoSummary};

fn summary(name: &str, commits: u64, files: usize, ins: usize, del: usize) -> RepoSummary {
    RepoSummary::new(name.to_string(), commits, ChangeStats::new(files, ins, del))
}

fn parse_block(block: &str) -> (String, u64, usize, usize, usize) {
    let lines: Vec<&str> = block.split('\n').collect();
    assert_eq!(lines.len(), 8);
    assert_eq!(lines[1], "");
    assert_eq!(lines[6], "");
    assert_eq!(lines[7], "");
    let name = lines[0].strip_prefix("### ").unwrap().to_string();
    let commits = lines[2].strip_prefix(" * Commits ").unwrap().parse().unwrap();
    let files = lines[3].strip_prefix(" * Files changed: ").unwrap().parse().unwrap();
    let ins = lines[4].strip_prefix(" * Insertions: ").unwrap().parse().unwrap();
    let del = lines[5].strip_prefix(" * Deletions: ").unwrap().parse().unwrap();
    (name, commits, files, ins, del)
}

#[test]
fn decimal_digits() {
    assert_eq!(decimal_string(0), "0");
    assert_eq!(decimal_string(7), "7");
    assert_eq!(decimal_string(10), "10");
    assert_eq!(decimal_string(1234567890), "1234567890");
    assert_eq!(decimal_string(u64::MAX), "18446744073709551615");
}

#[test]
fn block_format() {
    let s = summary("cortex-m", 42, 3, 150, 20);
    assert_eq!(
        render_summary(&s),
        "### cortex-m\n\n * Commits 42\n * Files changed: 3\n * Insertions: 150\n * Deletions: 20\n\n"
    );
}

#[test]
fn block_round_trip() {
    let cases = vec![
        summary("cortex-m", 42, 3, 150, 20),
        summary("r", 1, 0, 0, 0),
        summary("embedded-hal", u64::MAX, usize::MAX, 10, 100),
    ];
    for s in &cases {
        let parsed = parse_block(&render_summary(s));
        assert_eq!(parsed, (s.name.clone(), s.commits, s.stats.files_changed, s.stats.insertions, s.stats.deletions));
    }
}

#[test]
fn ranking_is_descending() {
    let v = vec![summary("a", 1, 0, 0, 0), summary("b", 9, 0, 0, 0), summary("c", 4, 0, 0, 0)];
    assert_eq!(rank_order(&v), vec![1, 2, 0]);
}

#[test]
fn ranking_keeps_input_order_on_ties() {
    let v = vec![summary("A", 5, 1, 1, 1), summary("B", 5, 2, 2, 2)];
    assert_eq!(rank_order(&v), vec![0, 1]);
    let text = rank_and_render(&v);
    assert!(text.find("### A").unwrap() < text.find("### B").unwrap());
}

#[test]
fn ranking_mixed_ties() {
    let v = vec![
        summary("a", 2, 0, 0, 0),
        summary("b", 7, 0, 0, 0),
        summary("c", 2, 0, 0, 0),
        summary("d", 7, 0, 0, 0),
        summary("e", 3, 0, 0, 0),
    ];
    assert_eq!(rank_order(&v), vec![1, 3, 4, 0, 2]);
}

#[test]
fn ranking_of_nothing_is_empty() {
    let v: Vec<RepoSummary> = Vec::new();
    assert!(rank_order(&v).is_empty());
    assert_eq!(rank_and_render(&v), "");
}

#[test]
fn report_text_in_ranked_order() {
    let v = vec![summary("low", 1, 2, 3, 4), summary("high", 10, 5, 6, 7)];
    assert_eq!(
        rank_and_render(&v),
        "### high\n\n * Commits 10\n * Files changed: 5\n * Insertions: 6\n * Deletions: 7\n\n\
         ### low\n\n * Commits 1\n * Files changed: 2\n * Insertions: 3\n * Deletions: 4\n\n"
    );
}
