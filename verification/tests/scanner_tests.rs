use bpe_trainer::pairs::TokenPair;
use bpe_trainer::scanner::corpus_weight_of;
use bpe_trainer::scanner::map_count_pairs;
use bpe_trainer::scanner::scan_corpus;

fn strings(v: &[&str]) -> Vec<String> {
    v.iter().map(|s| s.to_string()).collect()
}

fn freq(table: &bpe_trainer::pairs::PairTable, left: &str, right: &str) -> u64 {
    for e in table.entries.iter() {
        if e.0.left == left && e.0.right == right {
            return e.1;
        }
    }
    0
}

#[test]
fn one_line_is_pretokenized_and_counted() {
    let table = map_count_pairs("a a", &Vec::<TokenPair>::new());
    // symbols: "a", " ", "a"
    assert_eq!(freq(&table, "a", " "), 1);
    assert_eq!(freq(&table, " ", "a"), 1);
    let total: u64 = table.entries.iter().map(|e| e.1).sum();
    assert_eq!(total, 2);
}

#[test]
fn merges_are_applied_before_counting() {
    let merges = vec![TokenPair::new("a".to_string(), " ".to_string())];
    let table = map_count_pairs("a a", &merges);
    // symbols after the merge: "a ", "a"
    assert_eq!(freq(&table, "a ", "a"), 1);
    let total: u64 = table.entries.iter().map(|e| e.1).sum();
    assert_eq!(total, 1);
}

#[test]
fn a_pass_sums_the_per_line_tables() {
    let lines = strings(&["a b", "a b", "b a"]);
    let table = scan_corpus(&lines, &Vec::<TokenPair>::new());
    assert_eq!(freq(&table, "a", " "), 2);
    assert_eq!(freq(&table, " ", "b"), 2);
    assert_eq!(freq(&table, "b", " "), 1);
    assert_eq!(freq(&table, " ", "a"), 1);
}

#[test]
fn empty_corpus_gives_an_empty_table() {
    let table = scan_corpus(&Vec::<String>::new(), &Vec::<TokenPair>::new());
    assert_eq!(table.entries.len(), 0);
}

#[test]
fn corpus_weight_counts_characters() {
    assert_eq!(corpus_weight_of(&strings(&["ab", "c"])), Some(3));
    assert_eq!(corpus_weight_of(&strings(&[])), Some(0));
    assert_eq!(corpus_weight_of(&strings(&["héllo"])), Some(5));
}
