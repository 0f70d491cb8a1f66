use universal_gpx_poi::cli::{
    attempt_file_name, decimal_text, fallback_name, is_gpx_extension, joined_unknown_values,
    next_output_step, stem_or_default,
    output_file_name, parse_arguments, timestamped_output_file_name, untyped_waypoints,
    vendor_from_answer, vendor_from_target, Command, OpenResult, OutputAttempt, OutputStep,
};
use universal_gpx_poi::text::trimmed_lowercase;
use universal_gpx_poi::{ConversionReport, Vendor};

#[test]
fn answers_name_vendors() {
    assert_eq!(vendor_from_answer("1\n"), Some(Vendor::Suunto));
    assert_eq!(vendor_from_answer("  S "), Some(Vendor::Suunto));
    assert_eq!(vendor_from_answer("Suunto\r\n"), Some(Vendor::Suunto));
    assert_eq!(vendor_from_answer("2\n"), Some(Vendor::Garmin));
    assert_eq!(vendor_from_answer("g"), Some(Vendor::Garmin));
    assert_eq!(vendor_from_answer("GARMIN"), Some(Vendor::Garmin));
    assert_eq!(vendor_from_answer("3"), None);
    assert_eq!(vendor_from_answer(""), None);
}

#[test]
fn web_targets_name_vendors() {
    assert_eq!(vendor_from_target(" Garmin "), Some(Vendor::Garmin));
    assert_eq!(vendor_from_target("suunto"), Some(Vendor::Suunto));
    assert_eq!(vendor_from_target("1"), None);
}

#[test]
fn trimmed_lowercase_uses_unicode_space_and_ascii_case() {
    assert_eq!(trimmed_lowercase("\u{2003} AbC É \t"), "abc É");
}

#[test]
fn output_names() {
    assert_eq!(output_file_name("super-baldo", Vendor::Suunto), "super-baldo-suunto.gpx");
    assert_eq!(output_file_name("x", Vendor::Garmin), "x-garmin.gpx");
    assert_eq!(
        timestamped_output_file_name("x", Vendor::Garmin, 1700000000123, 0),
        "x-garmin-1700000000123.gpx"
    );
    assert_eq!(
        timestamped_output_file_name("x", Vendor::Suunto, 0, 12),
        "x-suunto-0-12.gpx"
    );
}

#[test]
fn decimal_numbers() {
    assert_eq!(decimal_text(0), "0");
    assert_eq!(decimal_text(9), "9");
    assert_eq!(decimal_text(10), "10");
    assert_eq!(decimal_text(u128::MAX), u128::MAX.to_string());
}

#[test]
fn arguments() {
    let args = |xs: &[&str]| xs.iter().map(|x| x.to_string()).collect::<Vec<_>>();
    assert_eq!(parse_arguments(&args(&["a.gpx", "--help"])), Command::Help);
    assert_eq!(parse_arguments(&args(&["-h"])), Command::Help);
    assert_eq!(
        parse_arguments(&args(&["a.gpx"])),
        Command::Convert("a.gpx".to_string())
    );
    assert_eq!(
        parse_arguments(&args(&[])),
        Command::Fail("manca il file GPX di input (usa --help per un esempio)")
    );
    assert_eq!(
        parse_arguments(&args(&["a.gpx", "b.gpx"])),
        Command::Fail(
            "sono accettati soltanto il percorso del file GPX e, facoltativamente, --help"
        )
    );
}

#[test]
fn report_summary() {
    let report = ConversionReport {
        waypoints: 5,
        translated: 2,
        fallback_waypoints: 2,
        unknown_values: vec!["Alien".to_string(), "Zoo".to_string()],
    };
    assert_eq!(untyped_waypoints(&report), 1);
    assert_eq!(joined_unknown_values(&report), "Alien, Zoo");
    assert_eq!(fallback_name(Vendor::Garmin), "WAYPOINT");
    assert_eq!(fallback_name(Vendor::Suunto), "POI");
    assert_eq!(joined_unknown_values(&ConversionReport::default()), "");
}

#[test]
fn output_names_are_tried_until_one_is_free() {
    use_step(OutputAttempt::Plain, OpenResult::Created, OutputStep::Write);
    use_step(OutputAttempt::Plain, OpenResult::Failed, OutputStep::Stop);
    use_step(
        OutputAttempt::Plain,
        OpenResult::AlreadyExists,
        OutputStep::Try(OutputAttempt::Timestamped(0)),
    );
    use_step(
        OutputAttempt::Timestamped(4),
        OpenResult::AlreadyExists,
        OutputStep::Try(OutputAttempt::Timestamped(5)),
    );
    assert_eq!(
        attempt_file_name("trip", Vendor::Garmin, 17, OutputAttempt::Plain),
        "trip-garmin.gpx"
    );
    assert_eq!(
        attempt_file_name("trip", Vendor::Suunto, 17, OutputAttempt::Timestamped(0)),
        "trip-suunto-17.gpx"
    );
    assert_eq!(
        attempt_file_name("trip", Vendor::Suunto, 17, OutputAttempt::Timestamped(2)),
        "trip-suunto-17-2.gpx"
    );
}

fn use_step(attempt: OutputAttempt, result: OpenResult, expected: OutputStep) {
    assert_eq!(next_output_step(attempt, result), expected);
}

#[test]
fn input_extension_and_stem() {
    use_extension(Some("gpx"), true);
    use_extension(Some("GPX"), false);
    use_extension(Some("xml"), false);
    use_extension(None, false);
    assert_eq!(stem_or_default(Some("trip")), "trip");
    assert_eq!(stem_or_default(None), "converted");
}

fn use_extension(extension: Option<&str>, expected: bool) {
    assert_eq!(is_gpx_extension(extension), expected);
}

#[test]
fn every_attempt_tries_a_new_name() {
    let mut names = vec![
        output_file_name("trip", Vendor::Garmin),
        output_file_name("trip", Vendor::Suunto),
    ];
    for attempt in 0..12 {
        names.push(timestamped_output_file_name("trip", Vendor::Garmin, 5, attempt));
    }
    for (i, a) in names.iter().enumerate() {
        assert_ne!(a, "trip.gpx");
        for b in &names[i + 1..] {
            assert_ne!(a, b);
        }
    }
}
