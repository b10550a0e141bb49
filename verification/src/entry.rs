//! What the program decides before and after a subcommand: how much to log, and how to report a
//! failure.
use vstd::prelude::*;

use crate::text::{same, texts};

verus! {

// -------------------------------------------------------------------------------- logging

/// How much is logged.
#[derive(Debug, Clone, Copy, PartialEq, Eq, Structural)]
pub enum LogLevel {
    Error,
    Warn,
    Info,
    Debug,
    Trace,
}

/// How much is logged for a number of `-v` flags; only errors where the run is to be quiet.
pub fn log_level(verbose: u8, quiet: bool) -> (level: LogLevel)
    ensures
        level == (if quiet {
            LogLevel::Error
        } else if verbose == 0 {
            LogLevel::Warn
        } else if verbose == 1 {
            LogLevel::Info
        } else if verbose == 2 {
            LogLevel::Debug
        } else {
            LogLevel::Trace
        }),
{
    if quiet {
        LogLevel::Error
    } else {
        match verbose {
            0 => LogLevel::Warn,
            1 => LogLevel::Info,
            2 => LogLevel::Debug,
            _ => LogLevel::Trace,
        }
    }
}

/// Returned when a logger is already installed in this process.
#[derive(Debug, Clone, Copy, PartialEq, Eq, Structural)]
pub struct LoggingAlreadyInitialized;

impl LoggingAlreadyInitialized {
    /// What it says.
    pub fn message(&self) -> (text: &'static str)
        ensures
            text@ == "a tracing subscriber is already installed in this process"@,
    {
        "a tracing subscriber is already installed in this process"
    }
}

/// What the flags of a raw command line ask for, before it is parsed.
#[derive(Debug, Clone, Copy, PartialEq, Eq, Structural)]
pub struct Sniffed {
    pub verbose: u8,
    pub quiet: bool,
}

/// How much more verbose one argument makes a run.
pub open spec fn verbosity(arg: Seq<char>) -> int {
    if arg == "-v"@ || arg == "--verbose"@ {
        1
    } else if arg == "-vv"@ {
        2
    } else {
        0
    }
}

/// Whether an argument makes a run quiet.
pub open spec fn hushes(arg: Seq<char>) -> bool {
    arg == "-q"@ || arg == "--quiet"@
}

/// What a list of arguments asks for.
pub open spec fn sniffed(args: Seq<Seq<char>>) -> Sniffed
    decreases args.len(),
{
    if args.len() == 0 {
        Sniffed { verbose: 0, quiet: false }
    } else {
        let before = sniffed(args.drop_last());
        let sum = before.verbose + verbosity(args.last());
        Sniffed {
            verbose: if sum <= 255 {
                sum as u8
            } else {
                255
            },
            quiet: before.quiet || hushes(args.last()),
        }
    }
}

/// What the flags of a raw command line ask for: logging has to be up before anything is parsed.
pub fn sniff(args: &Vec<String>) -> (r: Sniffed)
    ensures
        r == sniffed(texts(args@)),
{
    let ghost all = texts(args@);
    let mut verbose: u8 = 0;
    let mut quiet: bool = false;
    let mut i: usize = 0;
    assert(all.take(0) =~= seq![]);
    while i < args.len()
        invariant
            i <= args@.len(),
            all == texts(args@),
            sniffed(all.take(i as int)) == (Sniffed { verbose, quiet }),
        decreases args@.len() - i,
    {
        proof {
            assert(all.take(i + 1).drop_last() =~= all.take(i as int));
            assert(all.take(i + 1).last() == args@[i as int]@);
            reveal_strlit("-v");
            reveal_strlit("-vv");
            reveal_strlit("--verbose");
            reveal_strlit("-q");
            reveal_strlit("--quiet");
        }
        let arg = args[i].as_str();
        if same(arg, "-v") || same(arg, "--verbose") {
            verbose = verbose.saturating_add(1);
        } else if same(arg, "-vv") {
            verbose = verbose.saturating_add(2);
        } else if same(arg, "-q") || same(arg, "--quiet") {
            quiet = true;
        }
        proof {
            let arg = args@[i as int]@;
            if hushes(arg) {
                assert(arg.len() == 2 || arg.len() == 7);
                assert(arg[1] == 'q' || arg[2] == 'q');
                assert(verbosity(arg) == 0);
            }
        }
        i += 1;
    }
    assert(all.take(all.len() as int) =~= all);
    Sniffed { verbose, quiet }
}

// -------------------------------------------------------------------------------- failures

/// The lines for the causes of an error, after what was shown last. A cause that says what its
/// wrapper said is not repeated.
pub open spec fn cause_lines(causes: Seq<Seq<char>>, shown: Seq<char>) -> Seq<Seq<char>>
    decreases causes.len(),
{
    if causes.len() == 0 {
        seq![]
    } else if causes[0] == shown {
        cause_lines(causes.skip(1), shown)
    } else {
        seq!["  caused by: "@ + causes[0]] + cause_lines(causes.skip(1), causes[0])
    }
}

/// An error and everything underneath it, a line each.
pub fn error_lines(message: &str, causes: &Vec<String>) -> (out: Vec<String>)
    ensures
        texts(out@) == seq!["error: "@ + message@] + cause_lines(texts(causes@), message@),
{
    let ghost all = texts(causes@);
    let mut out: Vec<String> = Vec::new();
    let mut first: String = "error: ".to_owned();
    first.append(message);
    out.push(first);
    let ghost meant = seq!["error: "@ + message@] + cause_lines(all, message@);
    let mut shown: String = message.to_owned();
    let mut i: usize = 0;
    proof {
        assert(texts(out@) =~= seq!["error: "@ + message@]);
        assert(all.skip(0) =~= all);
    }
    while i < causes.len()
        invariant
            i <= causes@.len(),
            all == texts(causes@),
            texts(out@) + cause_lines(all.skip(i as int), shown@) == meant,
        decreases causes@.len() - i,
    {
        let ghost rest = all.skip(i as int);
        let ghost before = texts(out@);
        let ghost last = shown@;
        proof {
            assert(rest[0] == causes@[i as int]@);
            assert(rest.skip(1) =~= all.skip(i + 1));
        }
        if !same(causes[i].as_str(), shown.as_str()) {
            let mut line: String = "  caused by: ".to_owned();
            line.append(causes[i].as_str());
            let ghost said = line@;
            out.push(line);
            shown = causes[i].clone();
            proof {
                assert(texts(out@) =~= before.push(said));
                assert(before + cause_lines(rest, last) =~= before.push(said) + cause_lines(
                    rest.skip(1),
                    rest[0],
                ));
            }
        }
        i += 1;
    }
    assert(texts(out@) + cause_lines(all.skip(i as int), shown@) =~= texts(out@));
    out
}

// ------------------------------------------------------------------------------------ laws

/// Each spelling of the two flags counts as what it says: a verbose one once or twice, a quiet one
/// as quiet, and neither as the other.
pub proof fn law_each_flag_counts_as_what_it_says()
    ensures
        verbosity("-v"@) == 1,
        verbosity("--verbose"@) == 1,
        verbosity("-vv"@) == 2,
        verbosity("-q"@) == 0,
        verbosity("--quiet"@) == 0,
        hushes("-q"@),
        hushes("--quiet"@),
        !hushes("-v"@),
        !hushes("--verbose"@),
        !hushes("-vv"@),
{
    reveal_strlit("-v");
    reveal_strlit("-vv");
    reveal_strlit("--verbose");
    reveal_strlit("-q");
    reveal_strlit("--quiet");
    assert("-vv"@.len() == 3);
    assert("-v"@[1] == 'v' && "-q"@[1] == 'q');
    assert("--verbose"@.len() == 9);
    assert("--quiet"@.len() == 7);
}

/// The flags of a command line add up, wherever they stand: the verbose ones to two hundred and
/// fifty-five at most, and one quiet one is enough.
pub proof fn law_flags_add_up(a: Seq<Seq<char>>, b: Seq<Seq<char>>)
    ensures
        sniffed(Seq::empty()) == (Sniffed { verbose: 0, quiet: false }),
        sniffed(a + b).quiet == (sniffed(a).quiet || sniffed(b).quiet),
        sniffed(a + b).verbose == (if sniffed(a).verbose + sniffed(b).verbose <= 255 {
            sniffed(a).verbose + sniffed(b).verbose
        } else {
            255
        }),
    decreases b.len(),
{
    if b.len() == 0 {
        assert(a + b =~= a);
    } else {
        assert((a + b).drop_last() =~= a + b.drop_last());
        assert((a + b).last() == b.last());
        law_flags_add_up(a, b.drop_last());
    }
}

/// What one argument alone asks for is what it counts as.
pub proof fn law_one_flag_asks_for_itself(arg: Seq<char>)
    ensures
        sniffed(seq![arg]).verbose == verbosity(arg),
        sniffed(seq![arg]).quiet == hushes(arg),
{
    reveal_with_fuel(sniffed, 2);
    assert(seq![arg].drop_last() =~= Seq::<Seq<char>>::empty());
}

/// A cause that says something new gets a line of its own, and one that says what was shown last
/// gets none; nothing else is left out.
pub proof fn law_each_cause_is_said_once(cause: Seq<char>, rest: Seq<Seq<char>>, shown: Seq<char>)
    ensures
        cause_lines(Seq::empty(), shown) == Seq::<Seq<char>>::empty(),
        cause_lines(seq![shown] + rest, shown) == cause_lines(rest, shown),
        cause != shown ==> cause_lines(seq![cause] + rest, shown) == seq!["  caused by: "@ + cause]
            + cause_lines(rest, cause),
{
    assert((seq![shown] + rest).skip(1) =~= rest);
    assert((seq![cause] + rest).skip(1) =~= rest);
}

} // verus!
