use bpe_trainer::chunker::pack_lines;

fn strings(v: &[&str]) -> Vec<String> {
    v.iter().map(|s| s.to_string()).collect()
}

fn stripped_concat(chunks: &[String]) -> String {
    let mut out = String::new();
    for c in chunks {
        for ch in c.chars() {
            if ch != '\n' {
                out.push(ch);
            }
        }
    }
    out
}

#[test]
fn never_splits_a_multibyte_character() {
    let lines = strings(&["héllo", "world"]);
    let chunks = pack_lines(&lines, 6);
    for c in &chunks {
        assert!(c.len() <= 6);
        assert!(std::str::from_utf8(c.as_bytes()).is_ok());
    }
    assert_eq!(stripped_concat(&chunks), "hélloworld");
    assert_eq!(chunks, vec!["héllo".to_string(), "world".to_string()]);
}

#[test]
fn splits_long_line_on_character_boundaries() {
    let lines = strings(&["héllo"]);
    let chunks = pack_lines(&lines, 2);
    assert_eq!(
        chunks,
        vec!["h".to_string(), "é".to_string(), "ll".to_string(), "o".to_string()]
    );
    for c in &chunks {
        assert!(c.len() <= 2);
    }
    assert_eq!(stripped_concat(&chunks), "héllo");
}

#[test]
fn joins_lines_with_a_single_newline() {
    let lines = strings(&["ab", "cd"]);
    let chunks = pack_lines(&lines, 10);
    assert_eq!(chunks, vec!["ab\ncd".to_string()]);
}

#[test]
fn reserves_one_byte_for_the_newline() {
    let lines = strings(&["ab", "cd"]);
    // "ab\ncd" is 5 bytes, so it fits a budget of 5 but not of 4
    assert_eq!(pack_lines(&lines, 5), vec!["ab\ncd".to_string()]);
    assert_eq!(pack_lines(&lines, 4), vec!["ab\nc".to_string(), "d".to_string()]);
}

#[test]
fn budget_of_one_packs_single_characters() {
    let lines = strings(&["abc"]);
    let chunks = pack_lines(&lines, 1);
    assert_eq!(chunks, vec!["a".to_string(), "b".to_string(), "c".to_string()]);
}

#[test]
fn empty_lines_cost_only_their_separator() {
    let lines = strings(&["", "a", ""]);
    let chunks = pack_lines(&lines, 10);
    assert_eq!(stripped_concat(&chunks), "a");
    for c in &chunks {
        assert!(c.len() <= 10);
    }
}

#[test]
fn no_lines_give_no_chunks() {
    let lines: Vec<String> = Vec::new();
    assert_eq!(pack_lines(&lines, 7).len(), 0);
}

#[test]
fn rejects_budgets_below_a_character() {
    let lines = strings(&["héllo"]);
    assert!(bpe_trainer::chunker::lines_fit(&lines, 2));
    assert!(!bpe_trainer::chunker::lines_fit(&lines, 1));
    assert!(bpe_trainer::chunker::lines_fit(&strings(&["hello"]), 1));
}

#[test]
fn chunks_feed_the_scanner() {
    let lines = strings(&["a b", "a b"]);
    assert!(bpe_trainer::chunker::lines_fit(&lines, 8));
    let chunks = pack_lines(&lines, 8);
    assert_eq!(chunks, vec!["a b\na b".to_string()]);
    let table = bpe_trainer::scanner::scan_corpus(&chunks, &Vec::new());
    // symbols of the chunk: "a", " ", "b", "\n", "a", " ", "b"
    let freq = |l: &str, r: &str| -> u64 {
        table
            .entries
            .iter()
            .find(|e| e.0.left == l && e.0.right == r)
            .map(|e| e.1)
            .unwrap_or(0)
    };
    assert_eq!(freq("a", " "), 2);
    assert_eq!(freq(" ", "b"), 2);
    assert_eq!(freq("b", "\n"), 1);
    assert_eq!(freq("\n", "a"), 1);
}
