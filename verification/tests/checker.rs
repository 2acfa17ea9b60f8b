use cargo_spellcheck::CheckableChunk;
use cargo_spellcheck::Suggestion;
use cargo_spellcheck::SuggestionSet;
use cargo_spellcheck::Config;
use cargo_spellcheck::ContentOrigin;
use cargo_spellcheck::Detector;
use cargo_spellcheck::Dictionary;
use cargo_spellcheck::Documentation;
use cargo_spellcheck::HunspellChecker;
use cargo_spellcheck::LineColumn;
use cargo_spellcheck::Quirks;
use cargo_spellcheck::Range;
use cargo_spellcheck::Span;

fn span(sl: usize, sc: usize, el: usize, ec: usize) -> Span {
    Span {
        start: LineColumn {
            line: sl,
            column: sc,
        },
        end: LineColumn {
            line: el,
            column: ec,
        },
    }
}

fn docs_with(token: &str) -> Documentation {
    let mut docs = Documentation::new();
    let n = token.chars().count();
    docs.add(
        ContentOrigin::RustSourceFile("src/lib.rs".to_string()),
        CheckableChunk::from_str(
            token,
            vec![(Range { start: 0, end: n }, span(1, 4, 1, 4 + n - 1))],
        ),
    );
    docs
}

fn no_quirks() -> Quirks {
    Quirks::from_cfg(&Config { quirks: None })
}

#[test]
fn known_word_yields_no_suggestion() {
    let dict = Dictionary::new(vec!["Test".to_string()], vec![]);
    let docs = docs_with("Test");
    let quirks = no_quirks();
    let set = HunspellChecker::check(&docs, Some(&quirks), &dict).expect("check must succeed");
    assert_eq!(set.entry_count(), 0);
}

#[test]
fn unknown_word_yields_one_filtered_suggestion() {
    let dict = Dictionary::new(
        vec!["Test".to_string()],
        vec![(
            "Tezt".to_string(),
            vec!["T".to_string(), "Test".to_string(), "t".to_string()],
        )],
    );
    let docs = docs_with("Tezt");
    let quirks = no_quirks();
    let set = HunspellChecker::check(&docs, Some(&quirks), &dict).expect("check must succeed");
    assert_eq!(set.entry_count(), 1);
    let entries = set.entries();
    let (origin, suggestions) = &entries[0];
    assert_eq!(
        origin,
        &ContentOrigin::RustSourceFile("src/lib.rs".to_string())
    );
    assert_eq!(suggestions.len(), 1);
    let s = &suggestions[0];
    assert_eq!(s.detector, Detector::Hunspell);
    assert_eq!(s.range, Range { start: 0, end: 4 });
    assert_eq!(s.span, span(1, 4, 1, 7));
    // single-character candidates are filtered out as noise
    assert_eq!(s.replacements, vec!["Test".to_string()]);
    assert_eq!(
        s.description,
        Some("Possible spelling mistake found.".to_string())
    );
}

#[test]
fn quirked_token_is_looked_up_reduced() {
    let dict = Dictionary::new(vec!["cat".to_string()], vec![]);
    let docs = docs_with("catx");
    let quirks = Quirks::from_cfg(&Config {
        quirks: Some(vec!["multipicity-x-suffix".to_string()]),
    });
    let set = HunspellChecker::check(&docs, Some(&quirks), &dict).expect("check must succeed");
    // "catx" reduces to "cat", which the dictionary knows
    assert_eq!(set.entry_count(), 0);
}

#[test]
fn miss_without_recorded_replacements() {
    let dict = Dictionary::new(vec![], vec![]);
    let docs = docs_with("word");
    let quirks = no_quirks();
    let set = HunspellChecker::check(&docs, Some(&quirks), &dict).expect("check must succeed");
    assert_eq!(set.entry_count(), 1);
    let entries = set.entries();
    assert_eq!(entries[0].1.len(), 1);
    assert!(entries[0].1[0].replacements.is_empty());
}

#[test]
fn two_origins_keep_insertion_order() {
    let dict = Dictionary::new(vec![], vec![]);
    let mut docs = Documentation::new();
    docs.add(
        ContentOrigin::CommonMarkFile("README.md".to_string()),
        CheckableChunk::from_str("aa", vec![(Range { start: 0, end: 2 }, span(1, 0, 1, 1))]),
    );
    docs.add(
        ContentOrigin::RustSourceFile("src/lib.rs".to_string()),
        CheckableChunk::from_str("bb", vec![(Range { start: 0, end: 2 }, span(2, 0, 2, 1))]),
    );
    let quirks = no_quirks();
    let set = HunspellChecker::check(&docs, Some(&quirks), &dict).expect("check must succeed");
    assert_eq!(set.entry_count(), 2);
    let entries = set.entries();
    assert_eq!(
        entries[0].0,
        ContentOrigin::CommonMarkFile("README.md".to_string())
    );
    assert_eq!(
        entries[1].0,
        ContentOrigin::RustSourceFile("src/lib.rs".to_string())
    );
}

#[test]
fn dictionary_lookup() {
    let dict = Dictionary::new(
        vec!["one".to_string(), "two".to_string()],
        vec![("tow".to_string(), vec!["two".to_string()])],
    );
    assert!(dict.is_known("one"));
    assert!(dict.is_known("two"));
    assert!(!dict.is_known("tow"));
    assert_eq!(dict.replacements_for("tow"), vec!["two".to_string()]);
    assert!(dict.replacements_for("one").is_empty());
}

#[test]
fn suggestion_set_add_groups_by_origin() {
    let mk = |origin: ContentOrigin| Suggestion {
        detector: Detector::Hunspell,
        origin,
        range: Range { start: 0, end: 1 },
        span: span(1, 0, 1, 0),
        replacements: vec![],
        description: None,
    };
    let a = ContentOrigin::CommonMarkFile("a.md".to_string());
    let b = ContentOrigin::CommonMarkFile("b.md".to_string());
    let mut set = SuggestionSet::new();
    set.add(a.clone(), mk(a.clone()));
    set.add(b.clone(), mk(b.clone()));
    set.add(a.clone(), mk(a.clone()));
    assert_eq!(set.entry_count(), 2);
    let entries = set.entries();
    assert_eq!(entries[0].0, a);
    assert_eq!(entries[0].1.len(), 2);
    assert_eq!(entries[1].0, b);
    assert_eq!(entries[1].1.len(), 1);
}
