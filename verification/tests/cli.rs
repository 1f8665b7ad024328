use vmrss::cli::{
    args_too_long, duration_too_long, parse_args, parse_duration, parse_format,
    parse_optional_bool, timeout_reached, CliAction, Config, OutputFormat,
};
use vmrss::duration::Duration;

fn args(words: &[&str]) -> Vec<String> {
    words.iter().map(|w| w.to_string()).collect()
}

fn run(words: &[&str]) -> Config {
    match parse_args(&args(words)) {
        Ok(CliAction::Run(config)) => config,
        Ok(CliAction::Help) => panic!("asked for help"),
        Err(err) => panic!("refused: {err}"),
    }
}

fn refused(words: &[&str]) -> String {
    match parse_args(&args(words)) {
        Err(err) => err,
        Ok(_) => panic!("accepted"),
    }
}

#[test]
fn parses_go_style_durations() {
    assert_eq!(parse_duration("500ms"), Some(Duration::from_millis(500)));
    assert_eq!(parse_duration("2s"), Some(Duration::from_secs(2)));
    assert_eq!(parse_duration("1m"), Some(Duration::from_secs(60)));
    assert_eq!(parse_duration("1h"), Some(Duration::from_secs(3600)));
    assert_eq!(parse_duration("bad"), None);
}

#[test]
fn parses_fractional_durations() {
    assert_eq!(parse_duration("1.5s"), Some(Duration::from_millis(1500)));
    assert_eq!(parse_duration("0.3s"), Some(Duration::from_millis(300)));
    assert_eq!(parse_duration(".5s"), Some(Duration::from_millis(500)));
    assert_eq!(parse_duration("5."), Some(Duration::from_secs(5)));
    assert_eq!(parse_duration("1.5m"), Some(Duration::from_secs(90)));
    assert_eq!(parse_duration("0.25h"), Some(Duration::from_secs(900)));
    assert_eq!(parse_duration("2"), Some(Duration::from_secs(2)));
    assert_eq!(parse_duration("0.0000000019s"), Some(Duration::from_nanos(2)));
    assert_eq!(parse_duration("1.0000001ms"), Some(Duration::from_nanos(1_000_000)));
    assert_eq!(parse_duration("0.01666666666666666667m"), Some(Duration::from_nanos(1_000_000_000)));
}

#[test]
fn rounds_to_the_nearest_nanosecond() {
    assert_eq!(parse_duration("0.0000009ms"), Some(Duration::from_nanos(1)));
    assert_eq!(parse_duration("0.0000000004s"), Some(Duration::from_nanos(0)));
    assert_eq!(parse_duration("0.0000000005s"), Some(Duration::from_nanos(0)));
    assert_eq!(parse_duration("0.0000000015s"), Some(Duration::from_nanos(2)));
    assert_eq!(parse_duration("0.0000000025s"), Some(Duration::from_nanos(2)));
    assert_eq!(parse_duration("0.00000000250001s"), Some(Duration::from_nanos(3)));
    assert_eq!(parse_duration("1.0000005ms"), Some(Duration::from_nanos(1_000_000)));
    assert_eq!(parse_duration("1.0000015ms"), Some(Duration::from_nanos(1_000_002)));
    assert_eq!(parse_duration("0.0000000000083333333m"), Some(Duration::from_nanos(0)));
    assert_eq!(parse_duration("0.0000000000083334m"), Some(Duration::from_nanos(1)));
    assert_eq!(parse_duration("0.00000000000013888h"), Some(Duration::from_nanos(0)));
    assert_eq!(parse_duration("0.00000000000013889h"), Some(Duration::from_nanos(1)));
    assert!(!duration_too_long("18446744073709551615.9999999994s"));
    assert!(duration_too_long("18446744073709551615.9999999995s"));
}

#[test]
fn refuses_malformed_durations() {
    assert_eq!(parse_duration(""), None);
    assert_eq!(parse_duration("."), None);
    assert_eq!(parse_duration("ms"), None);
    assert_eq!(parse_duration("1.2.3s"), None);
    assert_eq!(parse_duration("10x"), None);
    assert_eq!(parse_duration("-1s"), None);
    assert_eq!(parse_duration("1 s"), None);
    assert_eq!(parse_duration("1sec"), None);
}

#[test]
fn measures_spans_too_long_to_hold() {
    assert!(duration_too_long("18446744073709551616s"));
    assert!(!duration_too_long("18446744073709551615s"));
    assert!(duration_too_long("99999999999999999999999999999999999999999999h"));
    assert!(!duration_too_long("99999999999999999999999999999999999999999999x"));
    assert_eq!(
        parse_duration("18446744073709551615.999999999s"),
        Some(Duration::from_nanos(18_446_744_073_709_551_615_999_999_999))
    );
    assert!(args_too_long(&args(&["-i", "18446744073709551616s"])));
    assert!(!args_too_long(&args(&["-x", "-i", "18446744073709551616s"])));
}

#[test]
fn duration_parts() {
    let d = Duration::from_millis(2500);
    assert_eq!(d.as_secs(), 2);
    assert_eq!(d.subsec_nanos(), 500_000_000);
    let n = Duration::from_nanos(3_000_000_007);
    assert_eq!(n.as_secs(), 3);
    assert_eq!(n.subsec_nanos(), 7);
}

#[test]
fn reads_formats_and_booleans() {
    assert_eq!(parse_format(""), Ok(OutputFormat::Text));
    assert_eq!(parse_format("json"), Ok(OutputFormat::Json));
    assert_eq!(parse_format("xml"), Err("Unsupported format: xml".to_string()));
    let yes = "true".to_string();
    let no = "false".to_string();
    let other = "maybe".to_string();
    assert_eq!(parse_optional_bool(Some(&yes)), Some(true));
    assert_eq!(parse_optional_bool(Some(&no)), Some(false));
    assert_eq!(parse_optional_bool(Some(&other)), None);
    assert_eq!(parse_optional_bool(None), None);
}

#[test]
fn defaults_without_options() {
    let config = run(&["1234", "Safari"]);
    assert!(!config.monitor);
    assert!(config.children);
    assert_eq!(config.interval, Duration::from_secs(1));
    assert_eq!(config.timeout, None);
    assert!(!config.swap && !config.cpu && !config.peak && !config.io);
    assert_eq!(config.format, OutputFormat::Text);
    assert_eq!(config.targets, args(&["1234", "Safari"]));
}

#[test]
fn reads_every_option() {
    let config = run(&[
        "-m", "-c", "false", "-i", "500ms", "-t", "10s", "--swap", "--cpu", "--peak", "--io",
        "--format", "json", "Terminal",
    ]);
    assert!(config.monitor);
    assert!(!config.children);
    assert_eq!(config.interval, Duration::from_millis(500));
    assert_eq!(config.timeout, Some(Duration::from_secs(10)));
    assert!(config.swap && config.cpu && config.peak && config.io);
    assert_eq!(config.format, OutputFormat::Json);
    assert_eq!(config.targets, args(&["Terminal"]));
}

#[test]
fn children_flag_takes_only_booleans() {
    let config = run(&["-c", "Safari"]);
    assert!(config.children);
    assert_eq!(config.targets, args(&["Safari"]));
    let config = run(&["-c", "false", "-c", "true", "1"]);
    assert!(config.children);
    assert_eq!(config.targets, args(&["1"]));
    let config = run(&["-c"]);
    assert!(config.children);
}

#[test]
fn format_with_equals_sign() {
    assert_eq!(run(&["--format=json", "1"]).format, OutputFormat::Json);
    assert_eq!(run(&["--format=", "1"]).format, OutputFormat::Text);
    assert_eq!(run(&["--format=--format=json", "1"]).format, OutputFormat::Json);
    assert_eq!(refused(&["--format=yaml"]), "Unsupported format: yaml");
}

#[test]
fn later_options_win() {
    let config = run(&["-i", "2s", "-i", "3s", "--format", "json", "--format", "", "1"]);
    assert_eq!(config.interval, Duration::from_secs(3));
    assert_eq!(config.format, OutputFormat::Text);
}

#[test]
fn refuses_bad_arguments() {
    assert_eq!(refused(&["-i"]), "Missing value for -i");
    assert_eq!(refused(&["-t"]), "Missing value for -t");
    assert_eq!(refused(&["--format"]), "Missing value for --format");
    assert_eq!(refused(&["-i", "soon"]), "Invalid interval format: soon");
    assert_eq!(refused(&["-t", "1y"]), "Invalid timeout format: 1y");
    assert_eq!(refused(&["--format", "xml"]), "Unsupported format: xml");
    assert_eq!(refused(&["1", "-x"]), "Unknown option: -x");
    assert_eq!(refused(&["-"]), "Unknown option: -");
    assert_eq!(refused(&["-x", "-h"]), "Unknown option: -x");
}

#[test]
fn help_stops_reading() {
    assert!(matches!(parse_args(&args(&["-h"])), Ok(CliAction::Help)));
    assert!(matches!(parse_args(&args(&["1", "--help", "-x"])), Ok(CliAction::Help)));
}

#[test]
fn plain_arguments_are_targets_in_order() {
    let config = run(&["b", "", "a", "42"]);
    assert_eq!(config.targets, args(&["b", "", "a", "42"]));
    assert!(config.children && !config.monitor);
    let config = run(&[]);
    assert!(config.targets.is_empty());
}

#[test]
fn timeout_is_reached_at_its_span() {
    let mut config = run(&["-t", "2s", "1"]);
    assert!(!timeout_reached(&config, &Duration::from_millis(1999)));
    assert!(timeout_reached(&config, &Duration::from_secs(2)));
    assert!(timeout_reached(&config, &Duration::from_secs(3)));
    config.timeout = None;
    assert!(!timeout_reached(&config, &Duration::from_secs(1_000_000)));
    assert!(Duration::from_nanos(1_000_000_001).at_least(&Duration::from_secs(1)));
    assert!(!Duration::from_secs(1).at_least(&Duration::from_nanos(1_000_000_001)));
}
