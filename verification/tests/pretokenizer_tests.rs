use bpe_trainer::pretokenizer::pretokenize;

fn concat(symbols: &[String]) -> String {
    let mut out = String::new();
    for s in symbols {
        out.push_str(s);
    }
    out
}

#[test]
fn splits_contractions_words_digits_punctuation() {
    let symbols = pretokenize("don't stop2go!");
    let expected = vec!["don", "'t", " ", "stop", "2", "go", "!"];
    assert_eq!(symbols.len(), expected.len());
    for (got, want) in symbols.iter().zip(expected.iter()) {
        assert_eq!(got, want);
    }
}

#[test]
fn covers_input_exactly() {
    let inputs = [
        "",
        "hello world",
        "héllo wörld",
        "a1b2c3",
        "  leading and  double  spaces ",
        "we're you'll I'd they've he's don't I'm",
        "mixed: 42 words, punct!!! and\ttabs",
        "'x alone ' quote",
    ];
    for input in inputs {
        let symbols = pretokenize(input);
        assert_eq!(concat(&symbols), input);
    }
}

#[test]
fn empty_input_gives_no_symbols() {
    assert_eq!(pretokenize("").len(), 0);
}

#[test]
fn apostrophe_without_contraction_is_punctuation() {
    let symbols = pretokenize("'x");
    let expected = vec!["'", "x"];
    assert_eq!(symbols.len(), expected.len());
    for (got, want) in symbols.iter().zip(expected.iter()) {
        assert_eq!(got, want);
    }
}

#[test]
fn whitespace_attaches_as_own_symbol() {
    let symbols = pretokenize(" a");
    let expected = vec![" ", "a"];
    assert_eq!(symbols.len(), expected.len());
    for (got, want) in symbols.iter().zip(expected.iter()) {
        assert_eq!(got, want);
    }
}
