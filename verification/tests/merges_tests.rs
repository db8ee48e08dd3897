use bpe_trainer::pairs::TokenPair;
use bpe_trainer::merges::apply_merges_to_tokens;

fn strings(v: &[&str]) -> Vec<String> {
    v.iter().map(|s| s.to_string()).collect()
}

fn rules(v: &[(&str, &str)]) -> Vec<TokenPair> {
    v.iter().map(|(a, b)| TokenPair::new(a.to_string(), b.to_string())).collect()
}

#[test]
fn no_rules_leave_tokens_unchanged() {
    let tokens = strings(&["a", "b", "c"]);
    let out = apply_merges_to_tokens(tokens.clone(), &rules(&[]));
    assert_eq!(out, tokens);
}

#[test]
fn merges_leftmost_pair_first() {
    let out = apply_merges_to_tokens(strings(&["a", "a", "a"]), &rules(&[("a", "a")]));
    assert_eq!(out, strings(&["aa", "a"]));
}

#[test]
fn restarts_the_scan_after_each_merge() {
    // after merging (a, b), the restarted scan finds (x, ab) before (ab, y)
    let out = apply_merges_to_tokens(
        strings(&["x", "a", "b", "y"]),
        &rules(&[("a", "b"), ("x", "ab"), ("ab", "y")]),
    );
    assert_eq!(out, strings(&["xab", "y"]));
}

#[test]
fn cascades_merges_to_a_fixpoint() {
    let out = apply_merges_to_tokens(
        strings(&["a", "b", "c"]),
        &rules(&[("b", "c"), ("a", "bc")]),
    );
    assert_eq!(out, strings(&["abc"]));
}

#[test]
fn merged_tokens_spell_the_same_text() {
    let tokens = strings(&["ab", "ab", "ab", "c"]);
    let out = apply_merges_to_tokens(tokens.clone(), &rules(&[("ab", "ab"), ("abab", "ab")]));
    let text: String = tokens.concat();
    let merged_text: String = out.concat();
    assert_eq!(text, merged_text);
}

#[test]
fn short_sequences_are_unchanged() {
    let out = apply_merges_to_tokens(strings(&["a"]), &rules(&[("a", "a")]));
    assert_eq!(out, strings(&["a"]));
}
