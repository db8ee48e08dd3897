use bpe_trainer::pairs::count_token_pairs;

fn strings(v: &[&str]) -> Vec<String> {
    v.iter().map(|s| s.to_string()).collect()
}

#[test]
fn counts_overlapping_occurrences() {
    let tokens = strings(&["a", "a", "a"]);
    let table = count_token_pairs(&tokens);
    assert_eq!(table.entries.len(), 1);
    assert_eq!(table.entries[0].0.left, "a");
    assert_eq!(table.entries[0].0.right, "a");
    assert_eq!(table.entries[0].1, 2);
}

#[test]
fn frequencies_sum_to_window_count() {
    let tokens = strings(&["x", "y", "x", "y"]);
    let table = count_token_pairs(&tokens);
    let total: u64 = table.entries.iter().map(|e| e.1).sum();
    assert_eq!(total, 3);
    for (pair, count) in table.entries.iter().map(|e| (&e.0, e.1)) {
        if pair.left == "x" && pair.right == "y" {
            assert_eq!(count, 2);
        } else {
            assert_eq!(pair.left, "y");
            assert_eq!(pair.right, "x");
            assert_eq!(count, 1);
        }
    }
}

#[test]
fn short_sequences_give_an_empty_table() {
    assert_eq!(count_token_pairs(&strings(&[])).entries.len(), 0);
    assert_eq!(count_token_pairs(&strings(&["a"])).entries.len(), 0);
}

#[test]
fn entries_keep_first_occurrence_order() {
    let tokens = strings(&["b", "a", "b", "a"]);
    let table = count_token_pairs(&tokens);
    assert_eq!(table.entries.len(), 2);
    assert_eq!(table.entries[0].0.left, "b");
    assert_eq!(table.entries[0].0.right, "a");
    assert_eq!(table.entries[1].0.left, "a");
    assert_eq!(table.entries[1].0.right, "b");
}
