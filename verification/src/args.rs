//! Command-line argument handling: normalize the raw argument vector (the
//! tool can be invoked directly or as a cargo subcommand), hand it to the
//! docopt grammar, and read the matched values into a plain struct.

use vstd::prelude::*;
use vstd::string::*;

use crate::util::str_starts_with;
use crate::util::starts_with_spec;

verus! {

pub const USAGE: &'static str = "
Spellcheck all your doc comments

Usage:
    cargo-spellcheck [(-v...|-q)] check [--cfg=<cfg>] [--code=<code>] [--skip-readme] [--checkers=<checkers>] [[--recursive] <paths>... ]
    cargo-spellcheck [(-v...|-q)] fix [--cfg=<cfg>] [--code=<code>] [--skip-readme] [--checkers=<checkers>] [[--recursive] <paths>... ]
    cargo-spellcheck [(-v...|-q)] config (--user|--stdout|--cfg=<cfg>) [--force]
    cargo-spellcheck [(-v...|-q)] [--cfg=<cfg>] [--fix] [--code=<code>] [--skip-readme] [--checkers=<checkers>] [[--recursive] <paths>... ]
    cargo-spellcheck --help
    cargo-spellcheck --version

Options:
  -h --help                 Show this screen.
  --version                 Print the version and exit.

  --fix                     Interactively apply spelling and grammer fixes, synonym to `fix` sub-command.
  -r --recursive            If a path is provided, if recursion into subdirectories is desired.
  --checkers=<checkers>     Calculate the intersection between
                            configured by config file and the ones provided on commandline.
  -f --force                Overwrite any existing configuration file. [default=false]
  -c --cfg=<cfg>            Use a non default configuration file.
                            Passing a directory will attempt to open `cargo_spellcheck.toml` in that directory.
  --user                    Write the configuration file to the default user configuration directory.
  --stdout                  Print the configuration file to stdout and exit.
  -v --verbose              Verbosity level.
  -q --quiet                Silences all printed messages. Overrules `-v`.
  -m --code=<code>          Overwrite the exit value for a successful run with content mistakes found. [default=0]
  --skip-readme             Do not attempt to process README.md files listed in Cargo.toml manifests.
";

/// Exit status of a whole run.
#[derive(Debug, Clone, Copy, Eq, PartialEq, Structural)]
pub enum ExitCode {
    Success,
    Signal,
    Custom(u8),
}

impl ExitCode {
    pub fn as_u8(&self) -> (r: u8)
        ensures
            r == match *self {
                ExitCode::Success => 0u8,
                ExitCode::Signal => 130u8,
                ExitCode::Custom(code) => code,
            },
    {
        match *self {
            ExitCode::Success => 0u8,
            ExitCode::Signal => 130u8,
            ExitCode::Custom(code) => code,
        }
    }
}

/// The matched command line, one plain field per flag, option and command.
pub struct Args {
    pub arg_paths: Vec<String>,
    pub flag_fix: bool,
    pub flag_recursive: bool,
    pub flag_verbose: u64,
    pub flag_quiet: bool,
    pub flag_version: bool,
    pub flag_help: bool,
    pub flag_checkers: Option<String>,
    pub flag_cfg: Option<String>,
    pub flag_force: bool,
    pub flag_user: bool,
    pub flag_skip_readme: bool,
    pub flag_code: u8,
    pub flag_stdout: bool,
    pub cmd_fix: bool,
    pub cmd_check: bool,
    pub cmd_config: bool,
}

/// Why argument parsing failed: the grammar rejected the argv, or the exit
/// code value was not a decimal byte.
#[derive(Debug)]
pub enum ArgsError {
    Parse(docopt::Error),
    InvalidCode,
}

#[verifier::external_type_specification]
#[verifier::external_body]
pub struct ExDocopt(docopt::Docopt);

#[verifier::external_type_specification]
#[verifier::external_body]
pub struct ExArgvMap(docopt::ArgvMap);

#[verifier::external_type_specification]
#[verifier::external_body]
pub struct ExDocoptError(docopt::Error);

/// Relies on docopt::Docopt::new: compiles the usage grammar, `Err` when
/// the usage text itself cannot be parsed.
#[verifier::external_body]
fn docopt_new(usage: &str) -> (r: Result<docopt::Docopt, docopt::Error>) {
    docopt::Docopt::new(usage)
}

/// Relies on docopt::Docopt::argv: records the argument vector for the
/// parse; docopt skips the vector's first element (the program name).
#[verifier::external_body]
fn docopt_argv(d: docopt::Docopt, argv: &Vec<String>) -> (r: docopt::Docopt) {
    d.argv(argv.iter())
}

/// Relies on docopt::Docopt::parse: matches the recorded argv against the
/// usage patterns; `Err` when they do not match, and for `--help` or
/// `--version`, which docopt itself intercepts.
#[verifier::external_body]
fn docopt_parse(d: &docopt::Docopt) -> (r: Result<docopt::ArgvMap, docopt::Error>) {
    d.parse()
}

/// Relies on docopt::ArgvMap::get_bool: the matched value of a flag.
#[verifier::external_body]
fn map_get_bool(m: &docopt::ArgvMap, key: &str) -> (r: bool) {
    m.get_bool(key)
}

/// Relies on docopt::ArgvMap::get_count: how often a repeatable flag was
/// given.
#[verifier::external_body]
fn map_get_count(m: &docopt::ArgvMap, key: &str) -> (r: u64) {
    m.get_count(key)
}

/// Relies on docopt::ArgvMap::get_str: the matched value of an option,
/// empty when absent.
#[verifier::external_body]
fn map_get_str<'a>(m: &'a docopt::ArgvMap, key: &str) -> (r: &'a str) {
    m.get_str(key)
}

/// Relies on docopt::ArgvMap::get_vec: the matched values of a repeatable
/// positional argument, converted to owned strings.
#[verifier::external_body]
fn map_get_vec(m: &docopt::ArgvMap, key: &str) -> (r: Vec<String>) {
    m.get_vec(key).into_iter().map(|s| s.to_owned()).collect()
}

/// Index one past the last `/` of `s`; 0 when there is none.
pub open spec fn last_slash_end(s: Seq<char>) -> int
    decreases s.len(),
{
    if s.len() == 0 {
        0
    } else if s[s.len() - 1] == '/' {
        s.len() as int
    } else {
        last_slash_end(s.drop_last())
    }
}

/// The characters of `s` after its last `/`.
pub open spec fn file_name_spec(s: Seq<char>) -> Seq<char> {
    s.subrange(last_slash_end(s), s.len() as int)
}

/// The final path component of `s`: everything after the last `/`.
pub fn file_name_of(s: &str) -> (r: String)
    ensures
        r@ == file_name_spec(s@),
{
    let n = s.unicode_len();
    let mut i: usize = n;
    proof {
        assert(s@.take(n as int) =~= s@);
    }
    while i > 0 && s.get_char(i - 1) != '/'
        invariant
            i <= n,
            n == s@.len(),
            last_slash_end(s@) == last_slash_end(s@.take(i as int)),
        decreases i,
    {
        proof {
            assert(s@.take(i as int).drop_last() =~= s@.take(i as int - 1));
            assert(s@.take(i as int).last() == s@[i as int - 1]);
        }
        i -= 1;
    }
    proof {
        if i > 0 {
            assert(s@.take(i as int).last() == s@[i as int - 1]);
            assert(last_slash_end(s@.take(i as int)) == i);
        }
    }
    String::from_str(s.substring_char(i, n))
}

/// The argv the docopt grammar receives: the program name replaced by the
/// canonical one, and — when the tool runs as a cargo subcommand, so that
/// the program's file name starts with the canonical name and the next
/// argument repeats the subcommand word — that repeated word dropped.
pub open spec fn normalize_spec(argv: Seq<Seq<char>>) -> Seq<Seq<char>> {
    let fname = file_name_spec(argv[0]);
    if argv.len() >= 2 && starts_with_spec(fname, "cargo-spellcheck"@) && argv[1] == "spellcheck"@ {
        seq!["cargo-spellcheck"@] + argv.skip(2)
    } else {
        seq!["cargo-spellcheck"@] + argv.skip(1)
    }
}

/// Normalize the raw argument vector, see [`normalize_spec`].
pub fn normalize_argv(argv: &Vec<String>) -> (r: Vec<String>)
    requires
        argv@.len() >= 1,
    ensures
        r.deep_view() == normalize_spec(argv.deep_view()),
{
    let ghost av = argv.deep_view();
    let fname = file_name_of(argv[0].as_str());
    let mut out: Vec<String> = Vec::new();
    out.push(String::from_str("cargo-spellcheck"));
    let keep_from: usize = if argv.len() >= 2 && str_starts_with(
        fname.as_str(),
        "cargo-spellcheck",
    ) && crate::util::str_eq(argv[1].as_str(), "spellcheck") {
        2
    } else {
        1
    };
    let n = argv.len();
    let mut i: usize = keep_from;
    proof {
        assert(av[0] == argv@[0]@);
        assert(av[1 as int] == argv@[1 as int]@ || av.len() < 2);
        assert(out.deep_view() =~= seq!["cargo-spellcheck"@] + av.skip(keep_from as int).take(0));
    }
    while i < n
        invariant
            keep_from <= i <= n,
            n == av.len(),
            av == argv.deep_view(),
            out.deep_view() == seq!["cargo-spellcheck"@] + av.skip(keep_from as int).take(
                i - keep_from,
            ),
        decreases n - i,
    {
        let ghost before = out.deep_view();
        out.push(argv[i].clone());
        proof {
            assert(out.deep_view() =~= before.push(av[i as int]));
            assert(av.skip(keep_from as int).take(i + 1 - keep_from) =~= av.skip(
                keep_from as int,
            ).take(i - keep_from).push(av[i as int]));
            assert(before.push(av[i as int]) =~= (seq!["cargo-spellcheck"@] + av.skip(
                keep_from as int,
            ).take(i - keep_from)).push(av[i as int]));
            assert((seq!["cargo-spellcheck"@] + av.skip(keep_from as int).take(i - keep_from)).push(
                av[i as int],
            ) =~= seq!["cargo-spellcheck"@] + av.skip(keep_from as int).take(i + 1 - keep_from));
        }
        i += 1;
    }
    proof {
        assert(av.skip(keep_from as int).take(n - keep_from) =~= av.skip(keep_from as int));
        assert(out.deep_view() =~= normalize_spec(av));
    }
    out
}

/// Numeric value of a decimal digit sequence, most significant first.
pub open spec fn dec_value(s: Seq<char>) -> int
    decreases s.len(),
{
    if s.len() == 0 {
        0
    } else {
        dec_value(s.drop_last()) * 10 + (s.last() as u32 - 48)
    }
}

/// Whether `s` is a non-empty run of decimal digits.
pub open spec fn is_dec(s: Seq<char>) -> bool {
    s.len() >= 1 && forall|i: int| 0 <= i < s.len() ==> 48 <= #[trigger] s[i] as u32 <= 57
}

/// Parse a decimal byte: `Some` exactly for a non-empty digit run whose
/// value fits in a byte.
pub fn parse_u8(s: &str) -> (r: Option<u8>)
    ensures
        match r {
            Some(v) => is_dec(s@) && dec_value(s@) == v,
            None => !is_dec(s@) || dec_value(s@) > 255,
        },
{
    let n = s.unicode_len();
    if n == 0 {
        return None;
    }
    let mut acc: u32 = 0;
    let mut i: usize = 0;
    proof {
        assert(s@.take(0) =~= Seq::<char>::empty());
    }
    while i < n
        invariant
            i <= n,
            n == s@.len(),
            n >= 1,
            acc <= 1000,
            forall|j: int| 0 <= j < i ==> 48 <= #[trigger] s@[j] as u32 <= 57,
            dec_value(s@.take(i as int)) <= 1000 ==> acc == dec_value(s@.take(i as int)),
            dec_value(s@.take(i as int)) > 1000 ==> acc == 1000 && dec_value(s@.take(i as int))
                > 255,
        decreases n - i,
    {
        let c = s.get_char(i);
        let u = c as u32;
        if u < 48 || u > 57 {
            return None;
        }
        proof {
            assert(s@.take(i as int + 1).drop_last() =~= s@.take(i as int));
            assert(s@.take(i as int + 1).last() == s@[i as int]);
        }
        let d = u - 48;
        acc = if acc * 10 + d > 1000 {
            1000
        } else {
            acc * 10 + d
        };
        i += 1;
    }
    proof {
        assert(s@.take(n as int) =~= s@);
    }
    if acc > 255 {
        None
    } else {
        Some(acc as u8)
    }
}

/// Read the matched values out of the argv map; the exit code option must
/// be empty or a decimal byte.
fn args_from_map(m: &docopt::ArgvMap) -> (r: Result<Args, ArgsError>) {
    let code_str = map_get_str(m, "--code");
    let flag_code: u8 = if code_str.unicode_len() == 0 {
        0
    } else {
        match parse_u8(code_str) {
            Some(v) => v,
            None => {
                return Err(ArgsError::InvalidCode);
            },
        }
    };
    let checkers = map_get_str(m, "--checkers");
    let cfg = map_get_str(m, "--cfg");
    let arg_paths = map_get_vec(m, "<paths>");
    Ok(
        Args {
            arg_paths,
            flag_fix: map_get_bool(m, "--fix"),
            flag_recursive: map_get_bool(m, "--recursive"),
            flag_verbose: map_get_count(m, "--verbose"),
            flag_quiet: map_get_bool(m, "--quiet"),
            flag_version: map_get_bool(m, "--version"),
            flag_help: map_get_bool(m, "--help"),
            flag_checkers: if checkers.unicode_len() == 0 {
                None
            } else {
                Some(checkers.to_owned())
            },
            flag_cfg: if cfg.unicode_len() == 0 {
                None
            } else {
                Some(cfg.to_owned())
            },
            flag_force: map_get_bool(m, "--force"),
            flag_user: map_get_bool(m, "--user"),
            flag_skip_readme: map_get_bool(m, "--skip-readme"),
            flag_code,
            flag_stdout: map_get_bool(m, "--stdout"),
            cmd_fix: map_get_bool(m, "fix"),
            cmd_check: map_get_bool(m, "check"),
            cmd_config: map_get_bool(m, "config"),
        },
    )
}

/// Parse a full argument vector, program name first.  The vector is
/// normalized (see [`normalize_argv`]) and matched against the usage
/// grammar; grammar misses and a malformed exit-code value are errors.
pub fn parse_args(argv: Vec<String>) -> (r: Result<Args, ArgsError>)
    requires
        argv@.len() >= 1,
{
    let normalized = normalize_argv(&argv);
    let d = match docopt_new(USAGE) {
        Ok(d) => d,
        Err(e) => {
            return Err(ArgsError::Parse(e));
        },
    };
    let d = docopt_argv(d, &normalized);
    match docopt_parse(&d) {
        Ok(m) => args_from_map(&m),
        Err(e) => Err(ArgsError::Parse(e)),
    }
}

} // verus!
