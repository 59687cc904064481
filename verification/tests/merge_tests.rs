use git_ignore::merge::merge;
use git_ignore::update::plan_update;

fn pats(xs: &[&str]) -> Vec<String> {
    xs.iter().map(|x| x.to_string()).collect()
}

#[test]
fn adds_pattern_to_existing_text() {
    assert_eq!(merge("foo\n", &pats(&["bar"])), "bar\nfoo\n");
}

#[test]
fn drops_comments_and_blank_lines() {
    assert_eq!(merge("# comment\n\nfoo\n", &pats(&[])), "foo\n");
}

#[test]
fn sorts_negations_after_other_patterns() {
    assert_eq!(merge("", &pats(&["!keep.txt", "*.log"])), "*.log\n!keep.txt\n");
}

#[test]
fn removes_duplicates() {
    assert_eq!(merge("a\na\n", &pats(&["a"])), "a\n");
}

#[test]
fn trims_lines_and_patterns() {
    assert_eq!(merge("  foo  \n#x\n\t\n", &pats(&["  bar "])), "bar\nfoo\n");
}

#[test]
fn orders_both_groups_lexicographically() {
    assert_eq!(merge("", &pats(&["!b", "a", "!a", "b"])), "a\nb\n!a\n!b\n");
}

#[test]
fn empty_input_renders_empty() {
    assert_eq!(merge("", &pats(&[])), "");
    assert_eq!(merge("# only a comment\n", &pats(&["#another", "   "])), "");
}

#[test]
fn merge_is_idempotent_on_examples() {
    let once = merge("b\n# note\n  a\n", &pats(&["c", "!d", "c"]));
    assert_eq!(merge(&once, &pats(&[])), once);
    let empty = merge("", &pats(&[]));
    assert_eq!(merge(&empty, &pats(&[])), empty);
}

#[test]
fn merge_ignores_pattern_order() {
    let ab = merge("base\n", &pats(&["x", "!y"]));
    let ba = merge("base\n", &pats(&["!y", "x"]));
    assert_eq!(ab, ba);
}

#[test]
fn merge_handles_text_without_trailing_newline() {
    assert_eq!(merge("foo", &pats(&["bar"])), "bar\nfoo\n");
}

#[test]
fn merge_keeps_non_ascii_patterns() {
    assert_eq!(merge("", &pats(&["über"])), "über\n");
}

#[test]
fn plan_reports_no_change_for_present_patterns() {
    let plan = plan_update("a\n", &pats(&["a"]));
    assert!(!plan.changed);
    assert_eq!(plan.new_text, "a\n");
}

#[test]
fn plan_reports_change_for_new_pattern() {
    let plan = plan_update("a\n", &pats(&["b"]));
    assert!(plan.changed);
    assert_eq!(plan.new_text, "a\nb\n");
}

#[test]
fn plan_rewrites_non_canonical_text() {
    let plan = plan_update("# comment\nfoo\n", &pats(&["foo"]));
    assert!(plan.changed);
    assert_eq!(plan.new_text, "foo\n");
}
