use cmdstat::rank::{with_best, CtNode};
use cmdstat::trie::Node;

fn words(line: &str) -> Vec<String> {
    line.split_whitespace().map(|t| t.to_string()).collect()
}

fn sample() -> Node {
    let mut t = Node::new();
    for _ in 0..5 {
        t.chomp(&words("git status"));
    }
    for _ in 0..3 {
        t.chomp(&words("git commit"));
    }
    t.chomp(&words("git"));
    for _ in 0..2 {
        t.chomp(&words("ls"));
    }
    t
}

fn pairs(v: &[CtNode]) -> Vec<(String, usize)> {
    v.iter().map(|e| (e.full_text.clone(), e.count)).collect()
}

fn strs(v: &[(&str, usize)]) -> Vec<(String, usize)> {
    v.iter().map(|(s, c)| (s.to_string(), *c)).collect()
}

#[test]
fn new_node_is_empty() {
    let t = Node::new();
    assert_eq!(t.count_inclusive, 0);
    assert_eq!(t.count_exact, 0);
    assert!(t.children.is_empty());
    assert!(t.top_inclusive(5, "").is_empty());
}

#[test]
fn root_counts_every_line() {
    let t = sample();
    assert_eq!(t.count_inclusive, 11);
    assert_eq!(t.count_exact, 0);
}

#[test]
fn empty_line_counts_at_root() {
    let mut t = Node::new();
    t.chomp(&[]);
    assert_eq!(t.count_inclusive, 1);
    assert_eq!(t.count_exact, 1);
    assert!(t.children.is_empty());
    assert!(t.top_exclusive(3, "").is_empty());
}

#[test]
fn counts_balance_at_every_node() {
    fn check(n: &Node) {
        assert!(n.count_inclusive >= n.count_exact);
        let below: usize = n.children.iter().map(|(_, c)| c.count_inclusive).sum();
        assert_eq!(n.count_inclusive, n.count_exact + below);
        for (_, c) in &n.children {
            check(c);
        }
    }
    check(&sample());
}

#[test]
fn children_are_in_token_order() {
    let mut t = Node::new();
    for line in ["zsh", "ls", "git", "cd", "ls -la"] {
        t.chomp(&words(line));
    }
    let keys: Vec<&str> = t.children.iter().map(|(k, _)| k.as_str()).collect();
    assert_eq!(keys, vec!["cd", "git", "ls", "zsh"]);
    assert_eq!(t.children[2].1.count_inclusive, 2);
    assert_eq!(t.children[2].1.count_exact, 1);
}

#[test]
fn exact_policy_end_to_end() {
    let t = sample();
    assert_eq!(pairs(&t.top_exclusive(2, "")), strs(&[("git status", 5), ("git commit", 3)]));
}

#[test]
fn heat_policy_end_to_end() {
    let t = sample();
    assert_eq!(pairs(&t.top_inclusive(1, "")), strs(&[("git", 9)]));
}

#[test]
fn fuzzy_policy_end_to_end() {
    let t = sample();
    assert_eq!(pairs(&t.top_inclusive_filt(2, "")), strs(&[("git", 9), ("git status", 5)]));
}

#[test]
fn fuzzy_threshold_at_one_tenth() {
    let mut t = Node::new();
    for _ in 0..3 {
        t.chomp(&words("x"));
    }
    for _ in 0..27 {
        t.chomp(&words("x y"));
    }
    assert_eq!(pairs(&t.top_inclusive_filt(5, "")), strs(&[("x", 30), ("x y", 27)]));

    let mut u = Node::new();
    for _ in 0..2 {
        u.chomp(&words("x"));
    }
    for _ in 0..28 {
        u.chomp(&words("x y"));
    }
    assert_eq!(pairs(&u.top_inclusive_filt(5, "")), strs(&[("x y", 28)]));
}

#[test]
fn extraction_is_repeatable() {
    let t = sample();
    assert_eq!(pairs(&t.top_exclusive(3, "")), pairs(&t.top_exclusive(3, "")));
    assert_eq!(pairs(&t.top_inclusive(3, "")), pairs(&t.top_inclusive(3, "")));
    assert_eq!(pairs(&t.top_inclusive_filt(3, "")), pairs(&t.top_inclusive_filt(3, "")));
}

#[test]
fn output_is_bounded() {
    let t = sample();
    assert!(t.top_exclusive(0, "").is_empty());
    assert!(t.top_inclusive(0, "").is_empty());
    assert!(t.top_inclusive_filt(0, "").is_empty());
    // four prefixes: git, git status, git commit, ls
    assert_eq!(t.top_inclusive(100, "").len(), 4);
    assert_eq!(t.top_exclusive(100, "").len(), 4);
    assert_eq!(t.top_inclusive_filt(100, "").len(), 4);
}

#[test]
fn output_is_best_first_with_full_top() {
    let t = sample();
    let all = t.top_inclusive(100, "");
    assert_eq!(
        pairs(&all),
        strs(&[("git", 9), ("git status", 5), ("git commit", 3), ("ls", 2)])
    );
    let ex = t.top_exclusive(100, "");
    assert_eq!(
        pairs(&ex),
        strs(&[("git status", 5), ("git commit", 3), ("ls", 2), ("git", 1)])
    );
    for w in ex.windows(2) {
        assert!(w[0].count >= w[1].count);
    }
}

#[test]
fn equal_scores_keep_traversal_order() {
    let mut t = Node::new();
    for line in ["b", "a", "c"] {
        t.chomp(&words(line));
    }
    assert_eq!(pairs(&t.top_exclusive(2, "")), strs(&[("a", 1), ("b", 1)]));
}

#[test]
fn prefix_is_put_before_texts() {
    let t = sample();
    assert_eq!(pairs(&t.top_inclusive(1, "sudo ")), strs(&[("sudo git", 9)]));
}

#[test]
fn texts_have_no_trailing_space() {
    let t = sample();
    for e in t.top_inclusive(10, "") {
        assert!(!e.full_text.ends_with(' '));
    }
    assert_eq!(t.top_inclusive(1, "")[0].full_text, "git");
}

#[test]
fn from_lines_counts_lines() {
    let lines = vec![words("git status"), words("git status"), words("ls"), vec![]];
    let t = Node::from_lines(&lines);
    assert_eq!(t.count_inclusive, 4);
    assert_eq!(t.count_exact, 1);
    assert_eq!(pairs(&t.top_exclusive(1, "")), strs(&[("git status", 2)]));
}

#[test]
fn share_of_best() {
    let t = sample();
    let lines = with_best(&t.top_inclusive_filt(2, ""));
    assert_eq!(lines.len(), 2);
    let pct: Vec<f64> = lines.iter().map(|l| l.node.count as f64 / l.best as f64).collect();
    assert!((pct[0] - 1.0).abs() < 1e-9);
    assert!((pct[1] - 0.5556).abs() < 1e-4);
}

#[test]
fn share_of_empty_list_is_empty() {
    assert!(with_best(&Vec::new()).is_empty());
}
