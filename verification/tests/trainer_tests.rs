use bpe_trainer::pairs::count_token_pairs;
use bpe_trainer::trainer::select_best;
use bpe_trainer::trainer::train_tokenizer;

fn strings(v: &[&str]) -> Vec<String> {
    v.iter().map(|s| s.to_string()).collect()
}

#[test]
fn single_symbol_lines_learn_no_merges() {
    // each line is one maximal letter run, so no pass ever finds a pair
    let corpus = strings(&["aaab", "aaab"]);
    let result = train_tokenizer(&corpus, 3);
    assert_eq!(result.merges.len(), 0);
    assert_eq!(result.vocab.len(), 0);
}

#[test]
fn learns_merges_in_frequency_order() {
    let corpus = strings(&["a b", "a b"]);
    let result = train_tokenizer(&corpus, 3);
    // pass 1: ("a", " ") and (" ", "b") both occur twice; the
    // lexicographically least pair wins the tie, and " " < "a".
    // pass 2: ("a", " b") occurs twice.
    assert_eq!(result.merges.len(), 2);
    assert_eq!(result.merges[0].left, " ");
    assert_eq!(result.merges[0].right, "b");
    assert_eq!(result.merges[1].left, "a");
    assert_eq!(result.merges[1].right, " b");
    assert_eq!(result.vocab.len(), 2);
    assert_eq!(result.vocab[0], (" b".to_string(), 2));
    assert_eq!(result.vocab[1], ("a b".to_string(), 2));
}

#[test]
fn line_order_does_not_change_tied_selection() {
    // equal line multisets: ties are broken by the pair itself, so both
    // orders learn the same merge
    let first = train_tokenizer(&strings(&["a1", "b1"]), 1);
    let second = train_tokenizer(&strings(&["b1", "a1"]), 1);
    assert_eq!(first.merges.len(), 1);
    assert_eq!(second.merges.len(), 1);
    assert_eq!(first.merges[0].left, "a");
    assert_eq!(first.merges[0].right, "1");
    assert_eq!(second.merges[0].left, "a");
    assert_eq!(second.merges[0].right, "1");
    assert_eq!(first.vocab, second.vocab);
}

#[test]
fn identical_runs_give_identical_results() {
    let corpus = strings(&["the cat sat", "the cat", "a cat sat"]);
    let first = train_tokenizer(&corpus, 5);
    let second = train_tokenizer(&corpus, 5);
    assert_eq!(first.merges.len(), second.merges.len());
    for (a, b) in first.merges.iter().zip(second.merges.iter()) {
        assert_eq!(a.left, b.left);
        assert_eq!(a.right, b.right);
    }
    assert_eq!(first.vocab, second.vocab);
}

#[test]
fn merge_list_never_exceeds_the_target() {
    let corpus = strings(&["a b c d e f g", "a b c d e f g"]);
    for target in 0..5 {
        let result = train_tokenizer(&corpus, target);
        assert!(result.merges.len() <= target);
        assert!(result.vocab.len() <= result.merges.len());
    }
}

#[test]
fn stops_when_no_pair_remains() {
    let corpus = strings(&["a b", "a b"]);
    // a huge target: training must still terminate once everything merged
    let result = train_tokenizer(&corpus, 100);
    assert_eq!(result.merges.len(), 2);
}

#[test]
fn select_best_prefers_highest_count_then_least_pair() {
    let table = count_token_pairs(&strings(&["a", "b", "a", "b"]));
    // (a, b) counted twice, (b, a) once
    let best = select_best(&table).unwrap();
    assert_eq!(best.0.left, "a");
    assert_eq!(best.0.right, "b");
    assert_eq!(best.1, 2);

    let tied = count_token_pairs(&strings(&["y", "x", "y"]));
    // (y, x) and (x, y) both counted once: the lexicographically least
    // pair wins, although it was counted later
    let best = select_best(&tied).unwrap();
    assert_eq!(best.0.left, "x");
    assert_eq!(best.0.right, "y");
    assert_eq!(best.1, 1);

    assert!(select_best(&count_token_pairs(&strings(&["a"]))).is_none());
}

#[test]
fn degenerate_corpus_is_not_an_error() {
    let empty = train_tokenizer(&Vec::<String>::new(), 10);
    assert_eq!(empty.merges.len(), 0);
    let single = train_tokenizer(&strings(&["x"]), 10);
    assert_eq!(single.merges.len(), 0);
}

#[test]
fn streaming_passes_match_batch_training() {
    let corpus = strings(&["a b", "a b", "c a b"]);
    let mut state = bpe_trainer::trainer::TrainerState::new(4);
    while state.wants_pass() {
        let mut pass = bpe_trainer::scanner::CorpusPass::new();
        for line in corpus.iter() {
            assert!(pass.feed_line(line, &state.merges));
        }
        state.commit_pass(&pass.finish());
    }
    let batch = train_tokenizer(&corpus, 4);
    assert_eq!(state.merges.len(), batch.merges.len());
    for (a, b) in state.merges.iter().zip(batch.merges.iter()) {
        assert_eq!(a.left, b.left);
        assert_eq!(a.right, b.right);
    }
    assert_eq!(state.vocab, batch.vocab);
}

#[test]
fn a_pass_with_no_pairs_ends_training() {
    let mut state = bpe_trainer::trainer::TrainerState::new(5);
    assert!(state.wants_pass());
    let mut pass = bpe_trainer::scanner::CorpusPass::new();
    assert!(pass.feed_line("aaab", &state.merges));
    state.commit_pass(&pass.finish());
    assert!(state.done);
    assert!(!state.wants_pass());
    assert_eq!(state.merges.len(), 0);
}

#[test]
fn line_order_does_not_change_training() {
    let c1 = strings(&["the cat", "a cat sat", "the cat sat", "a cat"]);
    let c2 = strings(&["a cat", "the cat sat", "the cat", "a cat sat"]);
    let first = train_tokenizer(&c1, 6);
    let second = train_tokenizer(&c2, 6);
    assert_eq!(first.merges.len(), second.merges.len());
    for (a, b) in first.merges.iter().zip(second.merges.iter()) {
        assert_eq!(a.left, b.left);
        assert_eq!(a.right, b.right);
    }
    assert_eq!(first.vocab, second.vocab);
}
