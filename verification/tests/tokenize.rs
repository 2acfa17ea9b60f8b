use cargo_spellcheck::Range;
use cargo_spellcheck::tokenize::tokenize;

fn rng(start: usize, end: usize) -> Range {
    Range { start, end }
}

#[test]
fn words_are_maximal_runs() {
    assert_eq!(
        tokenize("Hello, world!"),
        vec![rng(0, 5), rng(7, 12)]
    );
}

#[test]
fn digits_group_with_letters() {
    assert_eq!(tokenize("x42 9a"), vec![rng(0, 3), rng(4, 6)]);
}

#[test]
fn non_ascii_characters_are_word_characters() {
    // ranges count characters, not bytes
    assert_eq!(tokenize("wörld straße"), vec![rng(0, 5), rng(6, 12)]);
}

#[test]
fn separators_only_yields_nothing() {
    assert_eq!(tokenize(" \t,.;!"), Vec::<Range>::new());
    assert_eq!(tokenize(""), Vec::<Range>::new());
}

#[test]
fn token_at_text_end_is_closed() {
    assert_eq!(tokenize("end"), vec![rng(0, 3)]);
    assert_eq!(tokenize(" end"), vec![rng(1, 4)]);
}
