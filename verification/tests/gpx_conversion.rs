use universal_gpx_poi::gpx::{convert_events, direct_child_text, replace_or_insert_direct_child};
use universal_gpx_poi::xml::XmlEvent;
use universal_gpx_poi::{convert_gpx, convert_gpx_for_web, ConversionError, Vendor};

const GPX: &str = r#"<?xml version="1.0" encoding="UTF-8"?>
<gpx xmlns="http://www.topografix.com/GPX/1/1" version="1.1" creator="test">
  <wpt lat="1" lon="2">
    <name>Fontana</name>
    <sym>Drinking Water</sym>
  </wpt>
  <wpt lat="3" lon="4">
    <name>Senza tipo</name>
  </wpt>
  <trk><trkseg><trkpt lat="1" lon="2"><type>non modificare</type></trkpt></trkseg></trk>
</gpx>"#;

#[test]
fn ignores_wpt_elements_nested_in_extensions() {
    let source = r#"<gpx><extensions><wpt><sym>Summit</sym></wpt></extensions></gpx>"#;
    let (converted, report) = convert_gpx(source, Vendor::Suunto).unwrap();
    assert_eq!(converted, source);
    assert_eq!(report.waypoints, 0);
}

// Suunto gets its text label in `<type>`; a waypoint with neither `<sym>`
// nor `<type>` gets the generic `POI`.
#[test]
fn adds_suunto_type_without_touching_track_points() {
    let (converted, report) = convert_gpx(GPX, Vendor::Suunto).unwrap();
    assert!(converted.contains("<sym>Drinking Water</sym>"));
    assert!(converted.contains(
        "<sym>Drinking Water</sym>\n    <type>Drinking Water</type>\n  </wpt>"
    ));
    assert!(converted.contains("<name>Senza tipo</name>\n    <type>POI</type>\n  </wpt>"));
    assert!(converted.contains("<trkpt lat=\"1\" lon=\"2\"><type>non modificare</type>"));
    assert_eq!(report.waypoints, 2);
    assert_eq!(report.translated, 1);
    assert_eq!(report.fallback_waypoints, 0);
    assert!(report.unknown_values.is_empty());
}

#[test]
fn garmin_values_are_upper_case() {
    let (converted, report) = convert_gpx(GPX, Vendor::Garmin).unwrap();
    assert!(converted.contains("<sym>Drinking Water</sym>\n    <type>DRINKING WATER</type>"));
    assert!(converted.contains("<type>WAYPOINT</type>"));
    assert_eq!(report.translated, 1);
}

// Neither `Flag, Blue` nor `Peak` is in the dictionary: the first run writes
// the generic `WAYPOINT` and counts a fallback; the second run finds
// `WAYPOINT` known and changes nothing.
#[test]
fn replaces_existing_target_field_and_is_idempotent() {
    let source =
        r#"<gpx><wpt lat="1" lon="2"><type>Peak</type><sym>Flag, Blue</sym></wpt></gpx>"#;
    let (once, report) = convert_gpx(source, Vendor::Garmin).unwrap();
    let (twice, again) = convert_gpx(&once, Vendor::Garmin).unwrap();
    assert!(once.contains("<type>WAYPOINT</type><sym>Flag, Blue</sym>"));
    assert_eq!(once, twice);
    assert_eq!(report.translated, 0);
    assert_eq!(report.fallback_waypoints, 1);
    assert_eq!(again.translated, 1);
    assert_eq!(again.fallback_waypoints, 0);
}

#[test]
fn replaces_existing_target_field_and_second_run_changes_nothing() {
    let source = r#"<gpx><wpt lat="1" lon="2"><type>Peak</type><sym>Summit</sym></wpt></gpx>"#;
    let (once, report) = convert_gpx(source, Vendor::Garmin).unwrap();
    let (twice, _) = convert_gpx(&once, Vendor::Garmin).unwrap();
    assert_eq!(
        once,
        r#"<gpx><wpt lat="1" lon="2"><type>SUMMIT</type><sym>Summit</sym></wpt></gpx>"#
    );
    assert_eq!(once, twice);
    assert_eq!(report.translated, 1);
}

// An unknown value becomes the generic `POI` for Suunto and is reported.
#[test]
fn unknown_values_fall_back_and_are_reported() {
    let source = r#"<gpx><wpt lat="1" lon="2"><sym>Alien base</sym></wpt></gpx>"#;
    let (converted, report) = convert_gpx(source, Vendor::Suunto).unwrap();
    assert!(converted.contains("<type>POI</type>"));
    assert!(report.unknown_values.contains(&"Alien base".to_string()));
}

#[test]
fn unknown_values_are_listed_in_order_once() {
    let source = r#"<gpx><wpt lat="1" lon="2"><sym>Alien base</sym></wpt><wpt><sym>Alien base</sym></wpt><wpt><type>Zoo</type></wpt></gpx>"#;
    let (converted, report) = convert_gpx(source, Vendor::Suunto).unwrap();
    assert!(converted.contains("<sym>Alien base</sym><type>POI</type>"));
    assert!(converted.contains("<type>POI</type></wpt></gpx>"));
    assert_eq!(report.fallback_waypoints, 3);
    assert_eq!(
        report.unknown_values,
        vec!["Alien base".to_string(), "Zoo".to_string()]
    );
}

// `Peak` is not in the dictionary, so the existing `<g:type>` gets the
// generic `WAYPOINT` and keeps its place before `<g:fix>`.
#[test]
fn respects_gpx_child_order_and_namespace_prefix() {
    let source = r#"<g:gpx xmlns:g="http://www.topografix.com/GPX/1/1"><g:wpt lat="1" lon="2"><g:type>Peak</g:type><g:fix>3d</g:fix></g:wpt></g:gpx>"#;
    let (converted, _) = convert_gpx(source, Vendor::Garmin).unwrap();
    assert!(converted.contains("<g:type>WAYPOINT</g:type><g:fix>3d</g:fix>"));
}

#[test]
fn new_child_takes_its_schema_place_and_the_prefix() {
    let source = r#"<g:gpx xmlns:g="http://www.topografix.com/GPX/1/1"><g:wpt lat="1" lon="2"><g:name>x</g:name><g:fix>3d</g:fix></g:wpt></g:gpx>"#;
    let (converted, _) = convert_gpx(source, Vendor::Garmin).unwrap();
    assert!(converted.contains("<g:name>x</g:name><g:type>WAYPOINT</g:type><g:fix>3d</g:fix>"));
}

// A waypoint with neither `<sym>` nor `<type>` gets the generic `POI`,
// which counts neither as translated nor as a fallback.
#[test]
fn expands_and_converts_self_closing_waypoints() {
    let source =
        r#"<gpx><wpt lat="1" lon="2"/><g:wpt xmlns:g="urn:gpx" lat="3" lon="4"/></gpx>"#;
    let (converted, report) = convert_gpx(source, Vendor::Suunto).unwrap();
    assert!(converted.contains(r#"<wpt lat="1" lon="2"><type>POI</type></wpt>"#));
    assert!(converted.contains(
        r#"<g:wpt xmlns:g="urn:gpx" lat="3" lon="4"><g:type>POI</g:type></g:wpt>"#
    ));
    assert_eq!(report.waypoints, 2);
    assert_eq!(report.translated, 0);
    assert_eq!(report.fallback_waypoints, 0);
}

#[test]
fn self_closing_type_child_is_expanded() {
    let source = r#"<gpx><wpt><type/><sym>Summit</sym></wpt></gpx>"#;
    let (converted, _) = convert_gpx(source, Vendor::Suunto).unwrap();
    assert_eq!(converted, r#"<gpx><wpt><type>Summit</type><sym>Summit</sym></wpt></gpx>"#);
}

#[test]
fn type_text_is_escaped_and_references_split() {
    let source = r#"<gpx><wpt><sym>Gas Station</sym><type>a&amp;b</type></wpt></gpx>"#;
    let (converted, report) = convert_gpx(source, Vendor::Garmin).unwrap();
    assert_eq!(converted, r#"<gpx><wpt><sym>Gas Station</sym><type>GAS STATION</type></wpt></gpx>"#);
    assert_eq!(report.translated, 1);
}

#[test]
fn malformed_documents_are_refused() {
    assert!(matches!(
        convert_gpx("<gpx><wpt></gpx>", Vendor::Garmin),
        Err(ConversionError::InvalidXml(_))
    ));
    assert!(matches!(
        convert_gpx("<gpx><wpt><sym>x</sym>", Vendor::Garmin),
        Err(ConversionError::InvalidXml(_))
    ));
    assert!(matches!(
        convert_gpx("<gpx></a>", Vendor::Garmin),
        Err(ConversionError::InvalidXml(_))
    ));
}

#[test]
fn unresolvable_text_reference_is_refused() {
    let events = vec![
        XmlEvent::Start("gpx".to_string()),
        XmlEvent::Start("wpt".to_string()),
        XmlEvent::Start("sym".to_string()),
        XmlEvent::Text("&nope;".to_string()),
        XmlEvent::End("sym".to_string()),
        XmlEvent::End("wpt".to_string()),
        XmlEvent::End("gpx".to_string()),
    ];
    assert!(matches!(
        convert_events(&events, None, Vendor::Suunto),
        Err(ConversionError::InvalidText(_))
    ));
}

#[test]
fn events_are_converted_and_written_back() {
    let events = vec![
        XmlEvent::Decl("xml version=\"1.0\"".to_string()),
        XmlEvent::Start("gpx".to_string()),
        XmlEvent::Comment(" c ".to_string()),
        XmlEvent::Start("wpt lat=\"1\"".to_string()),
        XmlEvent::Start("sym".to_string()),
        XmlEvent::CData("Summit".to_string()),
        XmlEvent::End("sym".to_string()),
        XmlEvent::End("wpt".to_string()),
        XmlEvent::End("gpx".to_string()),
    ];
    let (out, report) = convert_events(&events, None, Vendor::Garmin).unwrap();
    assert_eq!(
        out,
        "<?xml version=\"1.0\"?><gpx><!-- c --><wpt lat=\"1\"><sym><![CDATA[Summit]]></sym><type>SUMMIT</type></wpt></gpx>"
    );
    assert_eq!(report.translated, 1);
}

#[test]
fn unclosed_waypoint_in_events_is_refused() {
    let events = vec![
        XmlEvent::Start("gpx".to_string()),
        XmlEvent::Start("wpt".to_string()),
    ];
    assert!(matches!(
        convert_events(&events, None, Vendor::Garmin),
        Err(ConversionError::InvalidXml(_))
    ));
}

#[test]
fn web_binding_reports_counts_and_unknown_values() {
    let source = r#"<gpx><wpt><sym>Zeta</sym></wpt><wpt><sym>Alpha</sym></wpt><wpt><sym>Summit</sym></wpt></gpx>"#;
    let web = convert_gpx_for_web(source, "  SUUNTO ").unwrap();
    assert_eq!(web.waypoints(), 3);
    assert_eq!(web.translated(), 1);
    assert_eq!(web.fallback_waypoints(), 2);
    assert_eq!(web.unknown_values(), "Alpha, Zeta");
    assert!(web.output().contains("<sym>Summit</sym><type>Summit</type>"));
    assert!(convert_gpx_for_web(source, "polar").is_err());
}

#[test]
fn new_child_follows_the_layout_and_escapes_carriage_returns() {
    let source = "<gpx><wpt><name>a</name>\r\n</wpt></gpx>";
    let (converted, _) = convert_gpx(source, Vendor::Suunto).unwrap();
    assert_eq!(
        converted,
        "<gpx><wpt><name>a</name>&#13;\n  <type>POI</type>\r\n</wpt></gpx>"
    );
}

#[test]
fn new_child_between_siblings_repeats_their_separator() {
    let source = "<gpx>\n  <wpt>\n    <name>a</name>\n    <fix>3d</fix>\n  </wpt>\n</gpx>";
    let (converted, _) = convert_gpx(source, Vendor::Garmin).unwrap();
    assert_eq!(
        converted,
        "<gpx>\n  <wpt>\n    <name>a</name>\n    <type>WAYPOINT</type>\n    <fix>3d</fix>\n  </wpt>\n</gpx>"
    );
}

#[test]
fn symbol_text_is_unescaped_before_lookup() {
    let events = vec![
        XmlEvent::Start("gpx".to_string()),
        XmlEvent::Start("wpt".to_string()),
        XmlEvent::Start("sym".to_string()),
        XmlEvent::Text("&#83;ummit".to_string()),
        XmlEvent::End("sym".to_string()),
        XmlEvent::End("wpt".to_string()),
        XmlEvent::End("gpx".to_string()),
    ];
    let (out, report) = convert_events(&events, None, Vendor::Garmin).unwrap();
    assert_eq!(
        out,
        "<gpx><wpt><sym>&#83;ummit</sym><type>SUMMIT</type></wpt></gpx>"
    );
    assert_eq!(report.translated, 1);
}

#[test]
fn nested_elements_inside_the_type_child_are_replaced() {
    let source = "<gpx><wpt><type>x<b>y</b>z</type></wpt></gpx>";
    let (converted, report) = convert_gpx(source, Vendor::Suunto).unwrap();
    assert_eq!(converted, "<gpx><wpt><type>POI</type></wpt></gpx>");
    assert_eq!(report.fallback_waypoints, 1);
    assert_eq!(report.unknown_values, vec!["xz".to_string()]);
}

#[test]
fn other_markup_is_written_back() {
    let source = "<?xml version=\"1.0\"?>\n<!DOCTYPE gpx>\n<gpx><!-- note --><?pi data?><desc><![CDATA[<x>]]>&amp;</desc></gpx>";
    let (converted, report) = convert_gpx(source, Vendor::Garmin).unwrap();
    assert_eq!(converted, source);
    assert_eq!(report.waypoints, 0);
}

fn markup_of(events: &[XmlEvent]) -> String {
    events.iter().map(universal_gpx_poi::xml::event_markup).collect()
}

fn event_text(kind: &str, text: &str) -> XmlEvent {
    match kind {
        "start" => XmlEvent::Start(text.to_string()),
        "empty" => XmlEvent::Empty(text.to_string()),
        "end" => XmlEvent::End(text.to_string()),
        _ => XmlEvent::Text(text.to_string()),
    }
}

#[test]
fn giving_a_child_the_same_value_twice_changes_nothing_more() {
    let waypoints: Vec<Vec<XmlEvent>> = vec![
        vec![
            event_text("start", "g:wpt lat=\"1\""),
            event_text("text", "\n  "),
            event_text("start", "g:name"),
            event_text("text", "x"),
            event_text("end", "g:name"),
            event_text("text", "\n"),
            event_text("end", "g:wpt"),
        ],
        vec![
            event_text("start", "wpt"),
            event_text("empty", "type kind=\"a\""),
            event_text("end", "wpt"),
        ],
        vec![
            event_text("start", "wpt"),
            event_text("start", "type"),
            event_text("start", "b"),
            event_text("end", "b"),
            event_text("end", "type"),
            event_text("start", "fix"),
            event_text("end", "fix"),
            event_text("end", "wpt"),
        ],
    ];
    let expected = [
        "<g:wpt lat=\"1\">\n  <g:name>x</g:name>\n  <g:type>A &amp; B</g:type>\n</g:wpt>",
        "<wpt><type>A &amp; B</type></wpt>",
        "<wpt><type>A &amp; B</type><fix></fix></wpt>",
    ];
    for (mut events, expected) in waypoints.into_iter().zip(expected) {
        replace_or_insert_direct_child(&mut events, "type", "A & B");
        let once = markup_of(&events);
        assert_eq!(once, expected);
        assert_eq!(
            direct_child_text(&events, "type").ok(),
            Some(Some("A & B".to_string()))
        );
        replace_or_insert_direct_child(&mut events, "type", "A & B");
        assert_eq!(markup_of(&events), once);
    }
}

#[test]
fn error_messages_name_the_kind_of_error() {
    let error = convert_gpx("<gpx><wpt></gpx>", Vendor::Garmin).unwrap_err();
    assert!(error.message().starts_with("GPX/XML non valido: "));
    assert!(error.message().len() > "GPX/XML non valido: ".len());
    let wrapped = vec![
        XmlEvent::Start("gpx".to_string()),
        XmlEvent::Start("wpt".to_string()),
        XmlEvent::Start("sym".to_string()),
        XmlEvent::Text("&nope;".to_string()),
        XmlEvent::End("sym".to_string()),
        XmlEvent::End("wpt".to_string()),
        XmlEvent::End("gpx".to_string()),
    ];
    let error = convert_events(&wrapped, None, Vendor::Garmin).unwrap_err();
    assert!(error.message().starts_with("entita' XML non valida: "));
}
