//! The command line: `run JOB [-o OUT] [--json] [--eco FILE] [--fail-on-violation]`,
//! `check JOB`, `demo`, and the common flags.

use vstd::prelude::*;
use crate::text::{str_eq, texts};

verus! {

/// What the command line asks for.
pub struct Cli {
    /// The words that are not flags (the command and its job file), in order.
    pub positionals: Vec<String>,
    /// `-o FILE`: where to write the hold-fixed netlist.
    pub out: Option<String>,
    /// `--eco FILE`: where to write the ECO manifest.
    pub eco: Option<String>,
    pub json: bool,
    pub fail_on_violation: bool,
    pub quiet: bool,
    pub verbose: bool,
    pub help: bool,
    pub version: bool,
}

/// The mathematical value of a [`Cli`].
pub struct CliView {
    pub positionals: Seq<Seq<char>>,
    pub out: Option<Seq<char>>,
    pub eco: Option<Seq<char>>,
    pub json: bool,
    pub fail_on_violation: bool,
    pub quiet: bool,
    pub verbose: bool,
    pub help: bool,
    pub version: bool,
}

/// The characters of an optional string.
pub open spec fn opt_text(o: Option<String>) -> Option<Seq<char>> {
    match o {
        Some(s) => Some(s@),
        None => None,
    }
}

impl View for Cli {
    type V = CliView;

    open spec fn view(&self) -> CliView {
        CliView {
            positionals: texts(self.positionals@),
            out: opt_text(self.out),
            eco: opt_text(self.eco),
            json: self.json,
            fail_on_violation: self.fail_on_violation,
            quiet: self.quiet,
            verbose: self.verbose,
            help: self.help,
            version: self.version,
        }
    }
}

/// Nothing asked yet.
pub open spec fn empty_cli() -> CliView {
    CliView {
        positionals: seq![],
        out: None,
        eco: None,
        json: false,
        fail_on_violation: false,
        quiet: false,
        verbose: false,
        help: false,
        version: false,
    }
}

/// `-o` and `--eco` take the next word as their value (none when they come last);
/// `--json`, `--fail-on-violation`, `-q`/`--quiet`, `-v`/`--verbose`, `-h`/`--help` and
/// `-V`/`--version` set their flag; any other word is a positional. Later flags override
/// earlier ones.
pub open spec fn cli_from(args: Seq<Seq<char>>, i: int, c: CliView) -> CliView
    decreases args.len() - i,
{
    if i < 0 || i >= args.len() {
        c
    } else {
        let a = args[i];
        if a == "-o"@ || a == "--eco"@ {
            let v = if i + 1 < args.len() {
                Some(args[i + 1])
            } else {
                None
            };
            let c2 = if a == "-o"@ {
                CliView { out: v, ..c }
            } else {
                CliView { eco: v, ..c }
            };
            if i + 1 < args.len() {
                cli_from(args, i + 2, c2)
            } else {
                c2
            }
        } else if a == "--json"@ {
            cli_from(args, i + 1, CliView { json: true, ..c })
        } else if a == "--fail-on-violation"@ {
            cli_from(args, i + 1, CliView { fail_on_violation: true, ..c })
        } else if a == "-q"@ || a == "--quiet"@ {
            cli_from(args, i + 1, CliView { quiet: true, ..c })
        } else if a == "-v"@ || a == "--verbose"@ {
            cli_from(args, i + 1, CliView { verbose: true, ..c })
        } else if a == "-h"@ || a == "--help"@ {
            cli_from(args, i + 1, CliView { help: true, ..c })
        } else if a == "-V"@ || a == "--version"@ {
            cli_from(args, i + 1, CliView { version: true, ..c })
        } else {
            cli_from(args, i + 1, CliView { positionals: c.positionals.push(a), ..c })
        }
    }
}

/// What the words `args` ask for.
pub open spec fn cli_of(args: Seq<Seq<char>>) -> CliView {
    cli_from(args, 0, empty_cli())
}

/// Read the command line (the words after the program name).
pub fn parse_cli(args: &[String]) -> (c: Cli)
    ensures
        c@ == cli_of(texts(args@)),
{
    let ghost av = texts(args@);
    let mut c = Cli {
        positionals: Vec::new(),
        out: None,
        eco: None,
        json: false,
        fail_on_violation: false,
        quiet: false,
        verbose: false,
        help: false,
        version: false,
    };
    assert(texts(c.positionals@) =~= Seq::<Seq<char>>::empty());
    assert(c@ =~= empty_cli());
    let mut i: usize = 0;
    while i < args.len()
        invariant
            i <= args.len(),
            av == texts(args@),
            cli_of(av) == cli_from(av, i as int, c@),
        decreases args.len() - i,
    {
        let a = args[i].as_str();
        if str_eq(a, "-o") || str_eq(a, "--eco") {
            let v = if i + 1 < args.len() {
                Some(args[i + 1].clone())
            } else {
                None
            };
            if str_eq(a, "-o") {
                c.out = v;
            } else {
                c.eco = v;
            }
            if i + 1 < args.len() {
                i = i + 1;
            }
        } else if str_eq(a, "--json") {
            c.json = true;
        } else if str_eq(a, "--fail-on-violation") {
            c.fail_on_violation = true;
        } else if str_eq(a, "-q") || str_eq(a, "--quiet") {
            c.quiet = true;
        } else if str_eq(a, "-v") || str_eq(a, "--verbose") {
            c.verbose = true;
        } else if str_eq(a, "-h") || str_eq(a, "--help") {
            c.help = true;
        } else if str_eq(a, "-V") || str_eq(a, "--version") {
            c.version = true;
        } else {
            let ghost before = c.positionals@;
            c.positionals.push(args[i].clone());
            assert(texts(c.positionals@) =~= texts(before).push(av[i as int]));
        }
        i = i + 1;
    }
    c
}

} // verus!
