//! The decisions of the command-line program and of the browser binding:
//! reading the arguments and the chosen vendor, naming output files and
//! summarising a report.
use vstd::prelude::*;

use crate::gpx::same_text;
use crate::poi::{fallback_value, vendor_name, Vendor};
use crate::report::{strings_view, ConversionReport};
use crate::text::{ascii_lowercase, push_char, trim, trimmed_lowercase};

verus! {

/// The vendor that a typed answer names: `1`, `s` or `suunto` for Suunto,
/// `2`, `g` or `garmin` for Garmin, ignoring surrounding white space and
/// ASCII case.
pub open spec fn answer_vendor(answer: Seq<char>) -> Option<Vendor> {
    let key = ascii_lowercase(trim(answer));
    if key == "1"@ || key == "s"@ || key == "suunto"@ {
        Some(Vendor::Suunto)
    } else if key == "2"@ || key == "g"@ || key == "garmin"@ {
        Some(Vendor::Garmin)
    } else {
        None
    }
}

/// The vendor chosen by the answer to the program's question (see
/// [`answer_vendor`]).
pub fn vendor_from_answer(answer: &str) -> (r: Option<Vendor>)
    ensures
        r == answer_vendor(answer@),
{
    let key = trimmed_lowercase(answer);
    let k = key.as_str();
    if same_text(k, "1") || same_text(k, "s") || same_text(k, "suunto") {
        Some(Vendor::Suunto)
    } else if same_text(k, "2") || same_text(k, "g") || same_text(k, "garmin") {
        Some(Vendor::Garmin)
    } else {
        None
    }
}

/// The vendor that a target name of the browser binding names: `garmin` or
/// `suunto`, ignoring surrounding white space and ASCII case.
pub open spec fn target_vendor(target: Seq<char>) -> Option<Vendor> {
    let key = ascii_lowercase(trim(target));
    if key == "garmin"@ {
        Some(Vendor::Garmin)
    } else if key == "suunto"@ {
        Some(Vendor::Suunto)
    } else {
        None
    }
}

/// The vendor named by a target of the browser binding (see [`target_vendor`]).
pub fn vendor_from_target(target: &str) -> (r: Option<Vendor>)
    ensures
        r == target_vendor(target@),
{
    let key = trimmed_lowercase(target);
    if same_text(key.as_str(), "garmin") {
        Some(Vendor::Garmin)
    } else if same_text(key.as_str(), "suunto") {
        Some(Vendor::Suunto)
    } else {
        None
    }
}

/// The decimal digit of `d` (below 10).
pub open spec fn digit(d: nat) -> char {
    (48 + d) as char
}

/// The decimal representation of `n`, without leading zeros.
pub open spec fn decimal(n: nat) -> Seq<char>
    decreases n,
{
    if n < 10 {
        seq![digit(n)]
    } else {
        decimal(n / 10).push(digit(n % 10))
    }
}

/// The decimal representation of `n` (see [`decimal`]).
pub fn decimal_text(n: u128) -> (r: String)
    ensures
        r@ == decimal(n as nat),
    decreases n,
{
    let d = (n % 10) as u8;
    let c = (48u8 + d) as char;
    if n < 10 {
        let mut r = String::new();
        push_char(&mut r, c);
        assert(r@ =~= seq![digit(n as nat)]);
        r
    } else {
        let mut r = decimal_text(n / 10);
        push_char(&mut r, c);
        r
    }
}

/// The name of the output file for the input file whose stem is `stem`:
/// `{stem}-{vendor}.gpx`.
pub open spec fn output_name(stem: Seq<char>, target: Vendor) -> Seq<char> {
    stem + "-"@ + vendor_name(target) + ".gpx"@
}

/// The name of the output file used when [`output_name`] is taken:
/// `{stem}-{vendor}-{timestamp}.gpx`, and `-{attempt}` before `.gpx` from
/// the second attempt on.
pub open spec fn timestamped_output_name(
    stem: Seq<char>,
    target: Vendor,
    timestamp: nat,
    attempt: nat,
) -> Seq<char> {
    let suffix = if attempt == 0 {
        seq![]
    } else {
        "-"@ + decimal(attempt)
    };
    stem + "-"@ + vendor_name(target) + "-"@ + decimal(timestamp) + suffix + ".gpx"@
}

/// The output file name for an input file with stem `stem` (see
/// [`output_name`]).
pub fn output_file_name(stem: &str, target: Vendor) -> (r: String)
    ensures
        r@ == output_name(stem@, target),
{
    let mut r = stem.to_string();
    r.append("-");
    r.append(target.name());
    r.append(".gpx");
    r
}

/// The timestamped output file name (see [`timestamped_output_name`]).
pub fn timestamped_output_file_name(stem: &str, target: Vendor, timestamp: u128, attempt: u32) -> (r:
    String)
    ensures
        r@ == timestamped_output_name(stem@, target, timestamp as nat, attempt as nat),
{
    let mut r = stem.to_string();
    r.append("-");
    r.append(target.name());
    r.append("-");
    r.append(decimal_text(timestamp).as_str());
    if attempt != 0 {
        r.append("-");
        r.append(decimal_text(attempt as u128).as_str());
    }
    r.append(".gpx");
    r
}

/// What the program is asked to do by its arguments.
#[derive(Debug, PartialEq, Eq)]
pub enum Command {
    /// Print the usage.
    Help,
    /// Convert the file at this path.
    Convert(String),
    /// Stop with this message.
    Fail(&'static str),
}

/// Whether an argument asks for the usage.
pub open spec fn is_help(a: Seq<char>) -> bool {
    a == "-h"@ || a == "--help"@
}

/// The message when no input file is given.
pub open spec fn missing_input_message() -> Seq<char> {
    "manca il file GPX di input (usa --help per un esempio)"@
}

/// The message when more than one argument is given.
pub open spec fn extra_arguments_message() -> Seq<char> {
    "sono accettati soltanto il percorso del file GPX e, facoltativamente, --help"@
}

/// What the arguments (without the program name) ask for: the usage when
/// any of them is `-h` or `--help`; else a conversion of the one file
/// given; else an error for a missing or an extra argument.
pub fn parse_arguments(args: &Vec<String>) -> (r: Command)
    ensures
        (exists|i: int| 0 <= i < args@.len() && is_help(#[trigger] args@[i]@)) ==> r == Command::Help,
        !(exists|i: int| 0 <= i < args@.len() && is_help(#[trigger] args@[i]@)) ==> match r {
            Command::Help => false,
            Command::Convert(path) => args@.len() == 1 && path@ == args@[0]@,
            Command::Fail(m) => (args@.len() == 0 && m@ == missing_input_message()) || (
            args@.len() > 1 && m@ == extra_arguments_message()),
        },
{
    let mut i: usize = 0;
    while i < args.len()
        invariant
            0 <= i <= args@.len(),
            forall|k: int| 0 <= k < i ==> !is_help(#[trigger] args@[k]@),
        decreases args.len() - i,
    {
        if same_text(args[i].as_str(), "-h") || same_text(args[i].as_str(), "--help") {
            return Command::Help;
        }
        i += 1;
    }
    if args.len() == 0 {
        Command::Fail("manca il file GPX di input (usa --help per un esempio)")
    } else if args.len() > 1 {
        Command::Fail("sono accettati soltanto il percorso del file GPX e, facoltativamente, --help")
    } else {
        Command::Convert(args[0].clone())
    }
}

/// The waypoints that had neither a symbol nor a type (or whose value was
/// already generic): those neither translated nor fallen back.
pub fn untyped_waypoints(report: &ConversionReport) -> (r: usize)
    requires
        report.translated + report.fallback_waypoints <= report.waypoints,
    ensures
        r == report.waypoints - report.translated - report.fallback_waypoints,
{
    report.waypoints - report.translated - report.fallback_waypoints
}

/// The fallback value of a vendor, as named in the warning about unknown
/// values.
pub fn fallback_name(target: Vendor) -> (r: &'static str)
    ensures
        r@ == fallback_value(target),
{
    match target {
        Vendor::Garmin => "WAYPOINT",
        Vendor::Suunto => "POI",
    }
}

/// The values of `s` joined by `sep`.
pub open spec fn joined(s: Seq<Seq<char>>, sep: Seq<char>) -> Seq<char>
    decreases s.len(),
{
    if s.len() == 0 {
        seq![]
    } else if s.len() == 1 {
        s[0]
    } else {
        joined(s.drop_last(), sep) + sep + s.last()
    }
}

/// The unknown values of a report, in order, joined by `", "`.
pub fn joined_unknown_values(report: &ConversionReport) -> (r: String)
    ensures
        r@ == joined(report@.unknown_values, ", "@),
{
    let ghost s = strings_view(report.unknown_values@);
    let mut r = String::new();
    let mut i: usize = 0;
    while i < report.unknown_values.len()
        invariant
            s == strings_view(report.unknown_values@),
            0 <= i <= s.len(),
            r@ == joined(s.take(i as int), ", "@),
        decreases report.unknown_values.len() - i,
    {
        proof {
            assert(s.take(i + 1).drop_last() =~= s.take(i as int));
        }
        if i > 0 {
            r.append(", ");
        } else {
            assert(r@ =~= seq![]);
        }
        r.append(report.unknown_values[i].as_str());
        i += 1;
    }
    assert(s.take(s.len() as int) =~= s);
    r
}

/// The output file name being tried: the plain one, then timestamped ones
/// counted from 0.
#[derive(Debug, Clone, Copy, PartialEq, Eq, Structural)]
pub enum OutputAttempt {
    Plain,
    Timestamped(u32),
}

/// What creating a new file under a name gave.
#[derive(Debug, Clone, Copy, PartialEq, Eq, Structural)]
pub enum OpenResult {
    /// The file was created.
    Created,
    /// A file of that name exists already.
    AlreadyExists,
    /// Another error.
    Failed,
}

/// What the program does after trying a name.
#[derive(Debug, Clone, Copy, PartialEq, Eq, Structural)]
pub enum OutputStep {
    /// Write to the file just created.
    Write,
    /// Stop with the error.
    Stop,
    /// Try this name next.
    Try(OutputAttempt),
}

/// The name tried after `attempt` when a file of that name exists.
pub open spec fn following(attempt: OutputAttempt) -> OutputAttempt {
    match attempt {
        OutputAttempt::Plain => OutputAttempt::Timestamped(0),
        OutputAttempt::Timestamped(k) => OutputAttempt::Timestamped((k + 1) as u32),
    }
}

/// The step after trying to create the output file under `attempt`: an
/// existing file is never overwritten, the next name is tried instead
/// (the plain name first, then timestamped names numbered from 0); any
/// other error stops.
pub fn next_output_step(attempt: OutputAttempt, result: OpenResult) -> (r: OutputStep)
    requires
        result is AlreadyExists ==> (attempt matches OutputAttempt::Timestamped(k) ==> k < u32::MAX),
    ensures
        r == match result {
            OpenResult::Created => OutputStep::Write,
            OpenResult::Failed => OutputStep::Stop,
            OpenResult::AlreadyExists => OutputStep::Try(following(attempt)),
        },
{
    match result {
        OpenResult::Created => OutputStep::Write,
        OpenResult::Failed => OutputStep::Stop,
        OpenResult::AlreadyExists => match attempt {
            OutputAttempt::Plain => OutputStep::Try(OutputAttempt::Timestamped(0)),
            OutputAttempt::Timestamped(k) => OutputStep::Try(OutputAttempt::Timestamped(k + 1)),
        },
    }
}

/// The file name tried under `attempt` for an input file with stem `stem`
/// (see [`output_name`] and [`timestamped_output_name`]).
pub fn attempt_file_name(stem: &str, target: Vendor, timestamp: u128, attempt: OutputAttempt) -> (r:
    String)
    ensures
        r@ == match attempt {
            OutputAttempt::Plain => output_name(stem@, target),
            OutputAttempt::Timestamped(k) => timestamped_output_name(
                stem@,
                target,
                timestamp as nat,
                k as nat,
            ),
        },
{
    match attempt {
        OutputAttempt::Plain => output_file_name(stem, target),
        OutputAttempt::Timestamped(k) => timestamped_output_file_name(stem, target, timestamp, k),
    }
}

/// Whether an input file's extension (if it has one that is text) is
/// `gpx`, as the program asks of its input.
pub fn is_gpx_extension(extension: Option<&str>) -> (r: bool)
    ensures
        r == (crate::poi::opt_str_view(extension) == Some("gpx"@)),
{
    match extension {
        Some(e) => same_text(e, "gpx"),
        None => false,
    }
}

/// The stem that output file names start with: the input file's stem, or
/// `converted` when it has none (or none that is text).
pub fn stem_or_default<'a>(stem: Option<&'a str>) -> (r: &'a str)
    ensures
        r@ == match stem {
            Some(s) => s@,
            None => "converted"@,
        },
{
    match stem {
        Some(s) => s,
        None => "converted",
    }
}

} // verus!

verus! {

/// Joining puts the separator between every two consecutive values and
/// nowhere else: nothing joins to nothing, one value to itself, and one
/// more value adds the separator and the value at the end.
pub proof fn lemma_joined_separates(s: Seq<Seq<char>>, x: Seq<char>, sep: Seq<char>)
    ensures
        joined(Seq::<Seq<char>>::empty(), sep) == Seq::<char>::empty(),
        joined(seq![x], sep) == x,
        s.len() > 0 ==> joined(s.push(x), sep) == joined(s, sep) + sep + x,
        joined(s, sep).len() == (if s.len() == 0 {
            0
        } else {
            (s.len() - 1) * sep.len()
        }) + total_len(s),
    decreases s.len(),
{
    assert(seq![x].len() == 1);
    assert(s.push(x).drop_last() =~= s);
    if s.len() > 1 {
        lemma_joined_separates(s.drop_last(), s.last(), sep);
        assert(s.drop_last().push(s.last()) =~= s);
        assert((s.len() - 1) * sep.len() == (s.len() - 2) * sep.len() + sep.len()) by (nonlinear_arith)
            requires
                s.len() > 1,
        ;
    } else if s.len() == 1 {
        assert(s.drop_last() =~= Seq::<Seq<char>>::empty());
    }
}

/// The total length of the values.
pub open spec fn total_len(s: Seq<Seq<char>>) -> nat
    decreases s.len(),
{
    if s.len() == 0 {
        0
    } else {
        total_len(s.drop_last()) + s.last().len()
    }
}

} // verus!
