//! Command-line options: what each flag sets, and the parsing of their values.
use vstd::prelude::*;
use crate::duration::{
    duration_text_nanos, duration_text_too_long, scan_duration, Duration, DurationScan,
};
use crate::text::{
    chars_eq_str, chars_of, chars_start_with_str, concat_str, leading_copies_len, starts_with,
    string_from_chars, trim_leading,
};

verus! {

/// How results are written.
#[derive(Clone, Copy, Debug, PartialEq, Eq, Structural)]
pub enum OutputFormat {
    Text,
    Json,
}

/// The settings of one run.
#[derive(Debug)]
pub struct Config {
    /// Keep sampling instead of printing once.
    pub monitor: bool,
    /// Show the child processes of each target.
    pub children: bool,
    /// Time between two samples in monitor mode.
    pub interval: Duration,
    /// Stop monitoring after this long.
    pub timeout: Option<Duration>,
    pub swap: bool,
    pub cpu: bool,
    pub peak: bool,
    pub io: bool,
    pub format: OutputFormat,
    /// Process ids or name patterns, in the order given.
    pub targets: Vec<String>,
}

/// The settings of a run as plain values: spans in nanoseconds, targets as
/// character sequences.
pub struct ConfigModel {
    pub monitor: bool,
    pub children: bool,
    pub interval: nat,
    pub timeout: Option<nat>,
    pub swap: bool,
    pub cpu: bool,
    pub peak: bool,
    pub io: bool,
    pub format: OutputFormat,
    pub targets: Seq<Seq<char>>,
}

impl View for Config {
    type V = ConfigModel;

    open spec fn view(&self) -> ConfigModel {
        ConfigModel {
            monitor: self.monitor,
            children: self.children,
            interval: self.interval@,
            timeout: match self.timeout {
                Some(d) => Some(d@),
                None => None,
            },
            swap: self.swap,
            cpu: self.cpu,
            peak: self.peak,
            io: self.io,
            format: self.format,
            targets: self.targets@.map_values(|t: String| t@),
        }
    }
}

/// The settings before any argument is read: children shown, one second
/// between samples, no timeout, text output, nothing else on.
pub open spec fn initial_config() -> ConfigModel {
    ConfigModel {
        monitor: false,
        children: true,
        interval: 1_000_000_000,
        timeout: None,
        swap: false,
        cpu: false,
        peak: false,
        io: false,
        format: OutputFormat::Text,
        targets: Seq::empty(),
    }
}

/// The output format that a `--format` value names.
pub open spec fn format_named(value: Seq<char>) -> Option<OutputFormat> {
    if value.len() == 0 {
        Some(OutputFormat::Text)
    } else if value == "json"@ {
        Some(OutputFormat::Json)
    } else {
        None
    }
}

/// The boolean that the word after `-c` gives, if it is one.
pub open spec fn optional_bool(word: Seq<char>) -> Option<bool> {
    if word == "true"@ {
        Some(true)
    } else if word == "false"@ {
        Some(false)
    } else {
        None
    }
}

/// Reads a `--format` value.
pub fn parse_format(value: &str) -> (r: Result<OutputFormat, String>)
    ensures
        match format_named(value@) {
            Some(f) => r == Ok::<OutputFormat, String>(f),
            None => r matches Err(msg) && msg@ == "Unsupported format: "@ + value@,
        },
{
    let v = chars_of(value);
    if v.len() == 0 {
        Ok(OutputFormat::Text)
    } else if chars_eq_str(&v, "json") {
        Ok(OutputFormat::Json)
    } else {
        Err(concat_str("Unsupported format: ", value))
    }
}

/// Reads the optional word after `-c`.
pub fn parse_optional_bool(next: Option<&String>) -> (r: Option<bool>)
    ensures
        r == match next {
            Some(word) => optional_bool(word@),
            None => None,
        },
{
    match next {
        None => None,
        Some(word) => {
            let v = chars_of(word.as_str());
            if chars_eq_str(&v, "true") {
                Some(true)
            } else if chars_eq_str(&v, "false") {
                Some(false)
            } else {
                None
            }
        },
    }
}

/// Reads a span written as a decimal number and a unit: `ms`, `s` (also no
/// unit), `m` or `h`, such as `500ms`, `2s`, `1.5m`.
///
/// The span is the exact decimal value rounded to whole nanoseconds, a tie
/// going to the even one. A reading through a binary floating-point number
/// rounds differently where its own error crosses a half nanosecond:
/// `1.0000000005s` gives 1 000 000 000 ns here, where an `f64` reading gives
/// 1 000 000 001 ns. Every span below the `Duration` bound is taken, so
/// `18446744073709551615s` is read exactly, where an `f64` reading rounds it
/// up to 2^64 seconds, which no `Duration` holds.
pub fn parse_duration(value: &str) -> (r: Option<Duration>)
    requires
        !duration_text_too_long(value@),
    ensures
        match duration_text_nanos(value@) {
            None => r is None,
            Some(ns) => r matches Some(d) && d@ == ns,
        },
{
    let v = chars_of(value);
    match scan_duration(&v) {
        DurationScan::Invalid => None,
        DurationScan::TooLong => None,
        DurationScan::Nanos(ns) => Some(Duration::from_nanos(ns)),
    }
}

/// Whether `value` writes a span too long to hold; `parse_duration` is
/// defined on every other text.
pub fn duration_too_long(value: &str) -> (r: bool)
    ensures
        r == duration_text_too_long(value@),
{
    let v = chars_of(value);
    match scan_duration(&v) {
        DurationScan::TooLong => true,
        _ => false,
    }
}

/// What a list of arguments asks for.
pub enum ArgsOutcome {
    /// Run with these settings.
    Run(ConfigModel),
    /// Print the usage and stop.
    Help,
    /// Refuse the arguments with this message.
    Fail(Seq<char>),
    /// A `-i` or `-t` value writes a span too long to hold.
    TooLong,
}

/// The arguments as character sequences.
pub open spec fn args_view(args: Seq<String>) -> Seq<Seq<char>> {
    args.map_values(|a: String| a@)
}

/// What a `-i` or `-t` value does: `None` when it is no span, `TooLong`
/// when it is too long, else the span.
pub open spec fn span_arg(value: Seq<char>) -> Option<Option<nat>> {
    match duration_text_nanos(value) {
        None => None,
        Some(ns) => if ns >= crate::duration::duration_nanos_bound() {
            Some(None)
        } else {
            Some(Some(ns))
        },
    }
}

/// What reading one argument does.
pub enum Step {
    /// Go on with these settings; `took_value` when the next argument was
    /// read as this one's value.
    Next { took_value: bool, config: ConfigModel },
    /// Stop reading with this outcome.
    Stop(ArgsOutcome),
}

/// The options that read the argument after them: `-c` (when that one is
/// `true` or `false`), `-i`, `-t` and `--format`.
pub open spec fn takes_value(a: Seq<char>) -> bool {
    a == "-c"@ || a == "-i"@ || a == "-t"@ || a == "--format"@
}

/// Reads the option at `i`, one of those that read the argument after them.
pub open spec fn value_step(args: Seq<Seq<char>>, i: int, c: ConfigModel) -> Step {
    let a = args[i];
    let has_value = i + 1 < args.len();
    if a == "-c"@ {
        match if has_value { optional_bool(args[i + 1]) } else { None } {
            Some(b) => Step::Next { took_value: true, config: ConfigModel { children: b, ..c } },
            None => Step::Next { took_value: false, config: ConfigModel { children: true, ..c } },
        }
    } else if a == "-i"@ {
        if !has_value {
            Step::Stop(ArgsOutcome::Fail("Missing value for -i"@))
        } else {
            match span_arg(args[i + 1]) {
                None => Step::Stop(ArgsOutcome::Fail("Invalid interval format: "@ + args[i + 1])),
                Some(None) => Step::Stop(ArgsOutcome::TooLong),
                Some(Some(ns)) => Step::Next {
                    took_value: true,
                    config: ConfigModel { interval: ns, ..c },
                },
            }
        }
    } else if a == "-t"@ {
        if !has_value {
            Step::Stop(ArgsOutcome::Fail("Missing value for -t"@))
        } else {
            match span_arg(args[i + 1]) {
                None => Step::Stop(ArgsOutcome::Fail("Invalid timeout format: "@ + args[i + 1])),
                Some(None) => Step::Stop(ArgsOutcome::TooLong),
                Some(Some(ns)) => Step::Next {
                    took_value: true,
                    config: ConfigModel { timeout: Some(ns), ..c },
                },
            }
        }
    } else {
        if !has_value {
            Step::Stop(ArgsOutcome::Fail("Missing value for --format"@))
        } else {
            match format_named(args[i + 1]) {
                None => Step::Stop(ArgsOutcome::Fail("Unsupported format: "@ + args[i + 1])),
                Some(f) => Step::Next { took_value: true, config: ConfigModel { format: f, ..c } },
            }
        }
    }
}

/// Reads the argument `a`, one that reads no argument after it.
///
/// `--format=` is followed by the format after all its leading copies are
/// removed. Anything that does not begin with `-` is a target.
pub open spec fn word_step(a: Seq<char>, c: ConfigModel) -> Step {
    if a == "-m"@ {
        Step::Next { took_value: false, config: ConfigModel { monitor: true, ..c } }
    } else if a == "--swap"@ {
        Step::Next { took_value: false, config: ConfigModel { swap: true, ..c } }
    } else if a == "--cpu"@ {
        Step::Next { took_value: false, config: ConfigModel { cpu: true, ..c } }
    } else if a == "--peak"@ {
        Step::Next { took_value: false, config: ConfigModel { peak: true, ..c } }
    } else if a == "--io"@ {
        Step::Next { took_value: false, config: ConfigModel { io: true, ..c } }
    } else if starts_with(a, "--format="@) {
        let value = trim_leading(a, "--format="@);
        match format_named(value) {
            None => Step::Stop(ArgsOutcome::Fail("Unsupported format: "@ + value)),
            Some(f) => Step::Next { took_value: false, config: ConfigModel { format: f, ..c } },
        }
    } else if a == "-h"@ || a == "--help"@ {
        Step::Stop(ArgsOutcome::Help)
    } else if a.len() > 0 && a[0] == '-' {
        Step::Stop(ArgsOutcome::Fail("Unknown option: "@ + a))
    } else {
        Step::Next { took_value: false, config: ConfigModel { targets: c.targets.push(a), ..c } }
    }
}

/// Reads the argument at `i` (which exists) with the settings `c` made so far.
pub open spec fn step(args: Seq<Seq<char>>, i: int, c: ConfigModel) -> Step {
    if takes_value(args[i]) {
        value_step(args, i, c)
    } else {
        word_step(args[i], c)
    }
}

/// Reads `args` from position `i` on, with the settings `c` made so far:
/// left to right, until the first argument that stops the reading.
pub open spec fn parse_from(args: Seq<Seq<char>>, i: int, c: ConfigModel) -> ArgsOutcome
    decreases args.len() - i,
{
    if i < 0 || i >= args.len() {
        ArgsOutcome::Run(c)
    } else {
        match step(args, i, c) {
            Step::Next { took_value, config } => parse_from(
                args,
                i + if took_value { 2int } else { 1int },
                config,
            ),
            Step::Stop(outcome) => outcome,
        }
    }
}

/// What the arguments `args` ask for.
pub open spec fn args_outcome(args: Seq<String>) -> ArgsOutcome {
    parse_from(args_view(args), 0, initial_config())
}

/// What the command line asks for, once it is accepted.
pub enum CliAction {
    /// Run with these settings.
    Run(Config),
    /// Print the usage and exit with success.
    Help,
}

/// The result of reading the arguments, with the case of a span too long to hold.
enum Parsed {
    Run(Config),
    Help,
    Fail(String),
    TooLong,
}

/// What reading one argument did.
enum ExecStep {
    Next(bool),
    Stop(Parsed),
}

/// How an exec step matches a spec step.
spec fn step_done(r: ExecStep, expected: Step, before: ConfigModel, after: ConfigModel) -> bool {
    match expected {
        Step::Next { took_value, config: c } => r matches ExecStep::Next(t) && t == took_value
            && after == c,
        Step::Stop(ArgsOutcome::Help) => r matches ExecStep::Stop(Parsed::Help),
        Step::Stop(ArgsOutcome::Fail(msg)) => r matches ExecStep::Stop(Parsed::Fail(e)) && e@ == msg,
        Step::Stop(ArgsOutcome::TooLong) => r matches ExecStep::Stop(Parsed::TooLong),
        Step::Stop(ArgsOutcome::Run(_)) => false,
    }
}

/// Reads a `-i` or `-t` value: the span, or how the reading stops.
fn span_value(value: &str, invalid: &str) -> (r: Result<Duration, Parsed>)
    ensures
        match span_arg(value@) {
            None => r matches Err(Parsed::Fail(e)) && e@ == invalid@ + value@,
            Some(None) => r matches Err(Parsed::TooLong),
            Some(Some(ns)) => r matches Ok(d) && d@ == ns,
        },
{
    match scan_duration(&chars_of(value)) {
        DurationScan::Invalid => Err(Parsed::Fail(concat_str(invalid, value))),
        DurationScan::TooLong => Err(Parsed::TooLong),
        DurationScan::Nanos(ns) => Ok(Duration::from_nanos(ns)),
    }
}

/// Reads the option at `i` that reads the argument after it.
fn parse_value_step(args: &Vec<String>, i: usize, a: &Vec<char>, config: &mut Config) -> (r: ExecStep)
    requires
        i < args.len(),
        a@ == args@[i as int]@,
        takes_value(a@),
    ensures
        step_done(r, value_step(args_view(args@), i as int, old(config)@), old(config)@, final(config)@),
{
    let ghost av = args_view(args@);
    let has_value = i + 1 < args.len();
    assert(av[i as int] == a@);
    if has_value {
        assert(av[i + 1] == args@[i + 1]@);
    }
    let ghost c = config@;
    if chars_eq_str(a, "-c") {
        let next = if has_value {
            parse_optional_bool(Some(&args[i + 1]))
        } else {
            None
        };
        match next {
            Some(b) => {
                config.children = b;
                assert(config@ == ConfigModel { children: b, ..c });
                ExecStep::Next(true)
            },
            None => {
                config.children = true;
                assert(config@ == ConfigModel { children: true, ..c });
                ExecStep::Next(false)
            },
        }
    } else if chars_eq_str(a, "-i") {
        if !has_value {
            return ExecStep::Stop(Parsed::Fail(String::from_str("Missing value for -i")));
        }
        match span_value(args[i + 1].as_str(), "Invalid interval format: ") {
            Err(stop) => ExecStep::Stop(stop),
            Ok(d) => {
                config.interval = d;
                assert(config@ == ConfigModel { interval: d@, ..c });
                ExecStep::Next(true)
            },
        }
    } else if chars_eq_str(a, "-t") {
        if !has_value {
            return ExecStep::Stop(Parsed::Fail(String::from_str("Missing value for -t")));
        }
        match span_value(args[i + 1].as_str(), "Invalid timeout format: ") {
            Err(stop) => ExecStep::Stop(stop),
            Ok(d) => {
                config.timeout = Some(d);
                assert(config@ == ConfigModel { timeout: Some(d@), ..c });
                ExecStep::Next(true)
            },
        }
    } else {
        if !has_value {
            return ExecStep::Stop(Parsed::Fail(String::from_str("Missing value for --format")));
        }
        match parse_format(args[i + 1].as_str()) {
            Err(msg) => ExecStep::Stop(Parsed::Fail(msg)),
            Ok(f) => {
                config.format = f;
                assert(config@ == ConfigModel { format: f, ..c });
                ExecStep::Next(true)
            },
        }
    }
}

/// Reads the argument `arg`, one that reads no argument after it.
fn parse_word_step(arg: &String, a: &Vec<char>, config: &mut Config) -> (r: ExecStep)
    requires
        a@ == arg@,
    ensures
        step_done(r, word_step(a@, old(config)@), old(config)@, final(config)@),
{
    let ghost c = config@;
    let ghost targets = c.targets;
    assert(a@.skip(0) =~= a@);
    if chars_eq_str(a, "-m") {
        config.monitor = true;
        assert(config@ == ConfigModel { monitor: true, ..c });
        ExecStep::Next(false)
    } else if chars_eq_str(a, "--swap") {
        config.swap = true;
        assert(config@ == ConfigModel { swap: true, ..c });
        ExecStep::Next(false)
    } else if chars_eq_str(a, "--cpu") {
        config.cpu = true;
        assert(config@ == ConfigModel { cpu: true, ..c });
        ExecStep::Next(false)
    } else if chars_eq_str(a, "--peak") {
        config.peak = true;
        assert(config@ == ConfigModel { peak: true, ..c });
        ExecStep::Next(false)
    } else if chars_eq_str(a, "--io") {
        config.io = true;
        assert(config@ == ConfigModel { io: true, ..c });
        ExecStep::Next(false)
    } else if chars_start_with_str(a, 0, "--format=") {
        let pos = leading_copies_len(a, "--format=");
        let value = string_from_chars(a, pos);
        match parse_format(value.as_str()) {
            Err(msg) => ExecStep::Stop(Parsed::Fail(msg)),
            Ok(f) => {
                config.format = f;
                assert(config@ == ConfigModel { format: f, ..c });
                ExecStep::Next(false)
            },
        }
    } else if chars_eq_str(a, "-h") || chars_eq_str(a, "--help") {
        ExecStep::Stop(Parsed::Help)
    } else if a.len() > 0 && a[0] == '-' {
        ExecStep::Stop(Parsed::Fail(concat_str("Unknown option: ", arg.as_str())))
    } else {
        config.targets.push(arg.clone());
        assert(config@.targets =~= targets.push(a@));
        assert(config@ == ConfigModel { targets: targets.push(a@), ..c });
        ExecStep::Next(false)
    }
}

/// Reads the argument at `i` into `config`.
fn parse_step(args: &Vec<String>, i: usize, config: &mut Config) -> (r: ExecStep)
    requires
        i < args.len(),
    ensures
        step_done(r, step(args_view(args@), i as int, old(config)@), old(config)@, final(config)@),
{
    let a = chars_of(args[i].as_str());
    assert(args_view(args@)[i as int] == a@);
    if chars_eq_str(&a, "-c") || chars_eq_str(&a, "-i") || chars_eq_str(&a, "-t") || chars_eq_str(
        &a,
        "--format",
    ) {
        parse_value_step(args, i, &a, config)
    } else {
        parse_word_step(&args[i], &a, config)
    }
}

/// Reads the arguments one by one.
fn parse_arguments(args: &Vec<String>) -> (r: Parsed)
    ensures
        match args_outcome(args@) {
            ArgsOutcome::Run(c) => r matches Parsed::Run(config) && config@ == c,
            ArgsOutcome::Help => r is Help,
            ArgsOutcome::Fail(msg) => r matches Parsed::Fail(e) && e@ == msg,
            ArgsOutcome::TooLong => r is TooLong,
        },
{
    let ghost av = args_view(args@);
    let mut config = Config {
        monitor: false,
        children: true,
        interval: Duration::from_secs(1),
        timeout: None,
        swap: false,
        cpu: false,
        peak: false,
        io: false,
        format: OutputFormat::Text,
        targets: Vec::new(),
    };
    assert(config@ == initial_config()) by {
        assert(config@.targets =~= Seq::<Seq<char>>::empty());
    }
    let mut i: usize = 0;
    while i < args.len()
        invariant
            i <= args.len(),
            av == args_view(args@),
            av.len() == args.len(),
            parse_from(av, 0, initial_config()) == parse_from(av, i as int, config@),
        decreases args.len() - i,
    {
        match parse_step(args, i, &mut config) {
            ExecStep::Next(took_value) => {
                if took_value {
                    i += 2;
                } else {
                    i += 1;
                }
            },
            ExecStep::Stop(parsed) => {
                return parsed;
            },
        }
    }
    Parsed::Run(config)
}

/// Reads the command-line arguments (those after the program's name).
pub fn parse_args(args: &Vec<String>) -> (r: Result<CliAction, String>)
    requires
        !(args_outcome(args@) is TooLong),
    ensures
        match args_outcome(args@) {
            ArgsOutcome::Run(c) => r matches Ok(CliAction::Run(config)) && config@ == c,
            ArgsOutcome::Help => r matches Ok(CliAction::Help),
            ArgsOutcome::Fail(msg) => r matches Err(e) && e@ == msg,
            ArgsOutcome::TooLong => false,
        },
{
    match parse_arguments(args) {
        Parsed::Run(config) => Ok(CliAction::Run(config)),
        Parsed::Help => Ok(CliAction::Help),
        Parsed::Fail(msg) => Err(msg),
        Parsed::TooLong => vstd::pervasive::unreached(),
    }
}

/// Whether a `-i` or `-t` value among `args` writes a span too long to
/// hold; `parse_args` is defined on every other list.
pub fn args_too_long(args: &Vec<String>) -> (r: bool)
    ensures
        r == (args_outcome(args@) is TooLong),
{
    match parse_arguments(args) {
        Parsed::TooLong => true,
        _ => false,
    }
}

/// Law of the command line: arguments that do not begin with `-` are all
/// targets, kept in their order, and leave every setting at its default.
pub proof fn lemma_plain_arguments_are_targets(args: Seq<Seq<char>>)
    requires
        forall|j: int| 0 <= j < args.len() ==> (#[trigger] args[j]).len() == 0 || args[j][0] != '-',
    ensures
        parse_from(args, 0, initial_config()) == ArgsOutcome::Run(
            ConfigModel { targets: args, ..initial_config() },
        ),
{
    lemma_targets_from(args, 0, initial_config());
    assert(initial_config().targets + args.skip(0) =~= args);
}

/// Reading arguments that do not begin with `-`, from `i` on, adds them to
/// the targets and changes nothing else.
proof fn lemma_targets_from(args: Seq<Seq<char>>, i: int, c: ConfigModel)
    requires
        0 <= i <= args.len(),
        forall|j: int| 0 <= j < args.len() ==> (#[trigger] args[j]).len() == 0 || args[j][0] != '-',
    ensures
        parse_from(args, i, c) == ArgsOutcome::Run(ConfigModel { targets: c.targets + args.skip(i), ..c }),
    decreases args.len() - i,
{
    if i == args.len() {
        assert(c.targets + args.skip(i) =~= c.targets);
    } else {
        let a = args[i];
        reveal_strlit("-c");
        reveal_strlit("-i");
        reveal_strlit("-t");
        reveal_strlit("--format");
        reveal_strlit("-m");
        reveal_strlit("--swap");
        reveal_strlit("--cpu");
        reveal_strlit("--peak");
        reveal_strlit("--io");
        reveal_strlit("--format=");
        reveal_strlit("-h");
        reveal_strlit("--help");
        assert(a != "-c"@ && a != "-i"@ && a != "-t"@ && a != "--format"@ && a != "-m"@ && a != "--swap"@
            && a != "--cpu"@ && a != "--peak"@ && a != "--io"@ && a != "-h"@ && a != "--help"@) by {
            if a.len() > 0 {
                assert(a[0] != '-');
            }
        }
        assert(!starts_with(a, "--format="@)) by {
            if starts_with(a, "--format="@) {
                assert(a.take(9)[0] == a[0]);
            }
        }
        let next = ConfigModel { targets: c.targets.push(a), ..c };
        assert(step(args, i, c) == Step::Next { took_value: false, config: next });
        lemma_targets_from(args, i + 1, next);
        assert(next.targets + args.skip(i + 1) =~= c.targets + args.skip(i));
    }
}

/// Law of `-i`: reading `-i` and a span sets the interval to that span,
/// reads the span as its value, and changes no other setting.
pub proof fn lemma_interval_step(args: Seq<Seq<char>>, i: int, c: ConfigModel, ns: nat)
    requires
        0 <= i,
        i + 1 < args.len(),
        args[i] == "-i"@,
        span_arg(args[i + 1]) == Some(Some(ns)),
    ensures
        step(args, i, c) == (Step::Next { took_value: true, config: ConfigModel { interval: ns, ..c } }),
{
    reveal_strlit("-i");
    reveal_strlit("-c");
    assert(args[i] != "-c"@) by {
        assert(args[i][1] != "-c"@[1]);
    }
}

/// Law of `-t`: reading `-t` and a span sets the timeout to that span,
/// reads the span as its value, and changes no other setting.
pub proof fn lemma_timeout_step(args: Seq<Seq<char>>, i: int, c: ConfigModel, ns: nat)
    requires
        0 <= i,
        i + 1 < args.len(),
        args[i] == "-t"@,
        span_arg(args[i + 1]) == Some(Some(ns)),
    ensures
        step(args, i, c) == (Step::Next { took_value: true, config: ConfigModel { timeout: Some(ns), ..c } }),
{
    reveal_strlit("-t");
    reveal_strlit("-c");
    reveal_strlit("-i");
    assert(args[i] != "-c"@ && args[i] != "-i"@) by {
        assert(args[i][1] != "-c"@[1]);
        assert(args[i][1] != "-i"@[1]);
    }
}

/// Only `-t` sets the timeout and only `-i` the interval: reading any other
/// argument keeps them.
proof fn lemma_step_keeps_spans(args: Seq<Seq<char>>, i: int, c: ConfigModel)
    requires
        0 <= i < args.len(),
    ensures
        step(args, i, c) matches Step::Next { config, .. } ==> (args[i] != "-t"@ ==> config.timeout == c.timeout)
            && (args[i] != "-i"@ ==> config.interval == c.interval),
{
}

/// Reading from `i` on keeps the timeout when no argument is `-t`, and the
/// interval when no argument is `-i`.
proof fn lemma_parse_keeps_spans(args: Seq<Seq<char>>, i: int, c: ConfigModel)
    ensures
        (forall|j: int| 0 <= j < args.len() ==> #[trigger] args[j] != "-t"@) ==> (parse_from(args, i, c) matches ArgsOutcome::Run(
            d,
        ) ==> d.timeout == c.timeout),
        (forall|j: int| 0 <= j < args.len() ==> #[trigger] args[j] != "-i"@) ==> (parse_from(args, i, c) matches ArgsOutcome::Run(
            d,
        ) ==> d.interval == c.interval),
    decreases args.len() - i,
{
    if 0 <= i < args.len() {
        lemma_step_keeps_spans(args, i, c);
        match step(args, i, c) {
            Step::Next { took_value, config } => {
                lemma_parse_keeps_spans(args, i + if took_value { 2int } else { 1int }, config);
            },
            Step::Stop(_) => {},
        }
    }
}

/// Law of the command line: the timeout comes only from `-t` and the
/// interval only from `-i`. When no argument is `-t`, a run has no timeout
/// (it monitors until stopped); when no argument is `-i`, a run samples
/// every second.
pub proof fn lemma_spans_only_from_their_options(args: Seq<Seq<char>>)
    ensures
        (forall|j: int| 0 <= j < args.len() ==> #[trigger] args[j] != "-t"@) ==> (parse_from(args, 0, initial_config()) matches ArgsOutcome::Run(
            d,
        ) ==> d.timeout is None),
        (forall|j: int| 0 <= j < args.len() ==> #[trigger] args[j] != "-i"@) ==> (parse_from(args, 0, initial_config()) matches ArgsOutcome::Run(
            d,
        ) ==> d.interval == 1_000_000_000),
{
    lemma_parse_keeps_spans(args, 0, initial_config());
}

/// Whether a run that started `elapsed` ago has reached its timeout.
pub fn timeout_reached(config: &Config, elapsed: &Duration) -> (r: bool)
    ensures
        r == (config.timeout matches Some(t) && elapsed@ >= t@),
{
    match &config.timeout {
        Some(t) => elapsed.at_least(t),
        None => false,
    }
}

} // verus!
