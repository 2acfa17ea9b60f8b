use cargo_spellcheck::ExitCode;
use cargo_spellcheck::args::file_name_of;
use cargo_spellcheck::args::normalize_argv;
use cargo_spellcheck::args::parse_u8;
use cargo_spellcheck::parse_args;

fn commandline_to_vec(s: &'static str) -> Vec<String> {
    s.split(' ').map(|s| s.to_owned()).collect()
}

#[test]
fn docopt() {
    let commands = vec![
        "cargo spellcheck",
        "cargo spellcheck -vvvv",
        "cargo spellcheck --fix",
        "cargo spellcheck fix",
        "cargo-spellcheck",
        "cargo-spellcheck -vvvv",
        "cargo-spellcheck --fix",
        "cargo-spellcheck fix",
        "cargo-spellcheck fix -r file.rs",
        "cargo-spellcheck -q fix Cargo.toml",
        "cargo spellcheck -v fix Cargo.toml",
        "cargo spellcheck -m 11 check",
    ];
    for command in commands {
        assert!(parse_args(commandline_to_vec(command)).is_ok());
    }
}

#[test]
fn parsed_flags_and_code() {
    let args = parse_args(commandline_to_vec("cargo-spellcheck -m 11 check -r a.rs b.rs"))
        .expect("must parse");
    assert!(args.cmd_check);
    assert!(!args.cmd_fix);
    assert_eq!(args.flag_code, 11);
    assert!(args.flag_recursive);
    assert_eq!(
        args.arg_paths,
        vec!["a.rs".to_string(), "b.rs".to_string()]
    );
}

#[test]
fn verbosity_is_counted() {
    let args = parse_args(commandline_to_vec("cargo-spellcheck -vvv")).expect("must parse");
    assert_eq!(args.flag_verbose, 3);
    assert!(!args.flag_quiet);
}

#[test]
fn bad_code_value_is_an_error() {
    assert!(parse_args(commandline_to_vec("cargo-spellcheck -m 999 check")).is_err());
    assert!(parse_args(commandline_to_vec("cargo-spellcheck -m abc check")).is_err());
}

#[test]
fn unknown_flag_is_an_error() {
    assert!(parse_args(commandline_to_vec("cargo-spellcheck --frobnicate")).is_err());
}

#[test]
fn normalize_drops_repeated_subcommand() {
    let normalized = normalize_argv(&commandline_to_vec(
        "/usr/bin/cargo-spellcheck spellcheck --fix",
    ));
    assert_eq!(
        normalized,
        vec!["cargo-spellcheck".to_string(), "--fix".to_string()]
    );
    let kept = normalize_argv(&commandline_to_vec("cargo spellcheck --fix"));
    assert_eq!(
        kept,
        vec![
            "cargo-spellcheck".to_string(),
            "spellcheck".to_string(),
            "--fix".to_string()
        ]
    );
}

#[test]
fn file_name_takes_the_last_component() {
    assert_eq!(file_name_of("/usr/bin/cargo-spellcheck"), "cargo-spellcheck");
    assert_eq!(file_name_of("cargo"), "cargo");
    assert_eq!(file_name_of("a/"), "");
}

#[test]
fn parse_u8_exact() {
    assert_eq!(parse_u8("0"), Some(0));
    assert_eq!(parse_u8("11"), Some(11));
    assert_eq!(parse_u8("255"), Some(255));
    assert_eq!(parse_u8("007"), Some(7));
    assert_eq!(parse_u8("256"), None);
    assert_eq!(parse_u8(""), None);
    assert_eq!(parse_u8("1a"), None);
    assert_eq!(parse_u8("99999999999"), None);
}

#[test]
fn exit_code_values() {
    assert_eq!(ExitCode::Success.as_u8(), 0);
    assert_eq!(ExitCode::Signal.as_u8(), 130);
    assert_eq!(ExitCode::Custom(11).as_u8(), 11);
}
