use cargo_spellcheck::Config;
use cargo_spellcheck::Quirk;
use cargo_spellcheck::Quirks;

fn cfg(names: &[&str]) -> Config {
    Config {
        quirks: Some(names.iter().map(|s| s.to_string()).collect()),
    }
}

#[test]
fn quirk_chain_quoted_then_x_suffix() {
    let quirks = Quirks::from_cfg(&cfg(&["quoted", "multipicity-x-suffix"]));
    // "\"catx\"" reduces via Quoted to "catx", then via the x suffix to "cat"
    assert_eq!(quirks.check_quirk("\"catx\""), Some("cat".to_string()));
}

#[test]
fn quirk_chain_idempotent_on_output() {
    let quirks = Quirks::from_cfg(&cfg(&["quoted", "multipicity-x-suffix", "single-quoted"]));
    let reduced = quirks.check_quirk("'\"catx\"'").expect("chain must fire");
    assert_eq!(reduced, "cat");
    // the output is maximally reduced: running the chain again changes nothing
    assert_eq!(quirks.check_quirk(&reduced), None);
}

#[test]
fn quirk_chain_no_match_returns_none() {
    let quirks = Quirks::from_cfg(&cfg(&["quoted"]));
    assert_eq!(quirks.check_quirk("cat"), None);
}

#[test]
fn quirk_chain_empty_configuration() {
    let quirks = Quirks::from_cfg(&Config { quirks: None });
    assert_eq!(quirks.check_quirk("\"catx\""), None);
}

#[test]
fn quirk_call_quoted() {
    assert_eq!(Quirk::Quoted.call("\"ab\""), Some("ab".to_string()));
    // too short: nothing between the quotes
    assert_eq!(Quirk::Quoted.call("\"\""), None);
    assert_eq!(Quirk::Quoted.call("\"a\""), Some("a".to_string()));
    assert_eq!(Quirk::Quoted.call("ab"), None);
}

#[test]
fn quirk_call_single_quoted() {
    assert_eq!(Quirk::SingleQuoted.call("'ab'"), Some("ab".to_string()));
    assert_eq!(Quirk::SingleQuoted.call("\"ab\""), None);
}

#[test]
fn quirk_call_x_suffix() {
    assert_eq!(Quirk::MultipicityXsuffix.call("catx"), Some("cat".to_string()));
    // a single `x` is left alone: the transform must strictly shrink
    assert_eq!(Quirk::MultipicityXsuffix.call("x"), None);
    assert_eq!(Quirk::MultipicityXsuffix.call("cat"), None);
}

#[test]
fn quirk_from_str_names() {
    assert_eq!(Quirk::from_str("quoted"), Some(Quirk::Quoted));
    assert_eq!(Quirk::from_str("single-quoted"), Some(Quirk::SingleQuoted));
    assert_eq!(
        Quirk::from_str("multipicity-x-suffix"),
        Some(Quirk::MultipicityXsuffix)
    );
    // unknown names are ignored at configuration time
    assert_eq!(Quirk::from_str("dash-free-compound-words"), None);
}

#[test]
fn quirks_parse_dedups_consecutive() {
    let parsed = Quirks::quirks(&vec![
        "quoted".to_string(),
        "quoted".to_string(),
        "bogus".to_string(),
        "single-quoted".to_string(),
    ]);
    assert_eq!(parsed, vec![Quirk::Quoted, Quirk::SingleQuoted]);
}
