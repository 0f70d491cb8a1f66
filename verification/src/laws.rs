//! Properties of the conversion as a whole.
use vstd::prelude::*;

use crate::child_laws::{
    child_ends_named, closed_waypoint, in_schema_order, lemma_child_value_idempotent,
    lemma_child_value_keeps_schema_order, lemma_local_name_single_prefix,
};
use crate::gpx::{
    child_text, conversion, convert_from, converted_waypoint, is_top_waypoint, written_value,
    lemma_matching_end_bounds, matching_end, up, with_child_value, Outcome,
};
use crate::poi::{
    dictionary_entry, dictionary_len, fallback_value, translation_of, vendor_value, Vendor,
};
use crate::dictionary_keys::{lemma_known_row_in_range, lemma_translation_idempotent};
use crate::report::{empty_report, lemma_record_wf, report_wf, ReportView};
use crate::cli::{decimal, digit, output_name, timestamped_output_name};
use crate::poi::vendor_name;
use crate::xml::{escaped, local_name, markup, markup_all, tag_name, xml_unescape, EventView};

verus! {

proof fn lemma_convert_from_wf(
    tokens: Seq<EventView>,
    complete: bool,
    target: Vendor,
    i: nat,
    depth: nat,
    out: Seq<char>,
    rep: ReportView,
)
    requires
        report_wf(rep),
    ensures
        convert_from(tokens, complete, target, i, depth, out, rep) matches Outcome::Converted(
            _,
            r,
        ) ==> report_wf(r),
    decreases tokens.len() - i,
{
    if i < tokens.len() {
        let tok = tokens[i as int];
        match tok {
            EventView::Start(n) => {
                if is_top_waypoint(tag_name(n), depth) {
                    match matching_end(tokens, i + 1, 1) {
                        None => {},
                        Some(e) => {
                            lemma_matching_end_bounds(tokens, i + 1, 1);
                            let es = tokens.subrange(i as int, e as int);
                            match converted_waypoint(es, target, rep) {
                                None => {},
                                Some((w, rep2)) => {
                                    lemma_waypoint_wf(es, target, rep);
                                    lemma_convert_from_wf(
                                        tokens,
                                        complete,
                                        target,
                                        e,
                                        depth,
                                        out + markup_all(w),
                                        rep2,
                                    );
                                },
                            }
                        },
                    }
                } else {
                    lemma_convert_from_wf(
                        tokens,
                        complete,
                        target,
                        i + 1,
                        depth + 1,
                        out + markup(tok),
                        rep,
                    );
                }
            },
            EventView::Empty(c) => {
                if is_top_waypoint(tag_name(c), depth) {
                    let es = seq![EventView::Start(c), EventView::End(tag_name(c))];
                    match converted_waypoint(es, target, rep) {
                        None => {},
                        Some((w, rep2)) => {
                            lemma_waypoint_wf(es, target, rep);
                            lemma_convert_from_wf(
                                tokens,
                                complete,
                                target,
                                i + 1,
                                depth,
                                out + markup_all(w),
                                rep2,
                            );
                        },
                    }
                } else {
                    lemma_convert_from_wf(
                        tokens,
                        complete,
                        target,
                        i + 1,
                        depth,
                        out + markup(tok),
                        rep,
                    );
                }
            },
            EventView::End(_) => {
                lemma_convert_from_wf(
                    tokens,
                    complete,
                    target,
                    i + 1,
                    up(depth),
                    out + markup(tok),
                    rep,
                );
            },
            EventView::Eof => {},
            _ => {
                lemma_convert_from_wf(
                    tokens,
                    complete,
                    target,
                    i + 1,
                    depth,
                    out + markup(tok),
                    rep,
                );
            },
        }
    }
}

proof fn lemma_waypoint_wf(es: Seq<EventView>, target: Vendor, rep: ReportView)
    requires
        report_wf(rep),
    ensures
        converted_waypoint(es, target, rep) matches Some((_, r)) ==> report_wf(r) && r.waypoints
            == rep.waypoints + 1,
{
    match (crate::gpx::child_text(es, "sym"@), crate::gpx::child_text(es, "type"@)) {
        (Some(symbol), Some(poi_type)) => {
            let t = translation_of(symbol, poi_type, target);
            lemma_record_wf(rep, t.source, t.used_fallback);
        },
        _ => {},
    }
}

/// Every report of a conversion is well formed: no waypoint is counted both
/// as translated and as fallen back, and the unknown values are listed in
/// increasing order, each once (see [`report_wf`]).
pub proof fn lemma_conversion_report_wf(tokens: Seq<EventView>, complete: bool, target: Vendor)
    ensures
        conversion(tokens, complete, target) matches Outcome::Converted(_, r) ==> report_wf(r),
{
    lemma_convert_from_wf(tokens, complete, target, 0, 0, seq![], empty_report());
}

} // verus!

verus! {

/// The number of elements open before event `i` of a document, as the
/// conversion counts them.
pub open spec fn depth_before(tokens: Seq<EventView>, i: nat) -> nat
    decreases i,
{
    if i == 0 || i > tokens.len() {
        0
    } else {
        let d = depth_before(tokens, (i - 1) as nat);
        match tokens[i - 1] {
            EventView::Start(_) => d + 1,
            EventView::End(_) => up(d),
            _ => d,
        }
    }
}

/// Whether event `k` of a document is a waypoint that is a child of the
/// root element.
pub open spec fn top_waypoint_at(tokens: Seq<EventView>, k: int) -> bool {
    match tokens[k] {
        EventView::Start(c) => is_top_waypoint(tag_name(c), depth_before(tokens, k as nat)),
        EventView::Empty(c) => is_top_waypoint(tag_name(c), depth_before(tokens, k as nat)),
        _ => false,
    }
}

proof fn lemma_unchanged_from(tokens: Seq<EventView>, complete: bool, target: Vendor, i: nat)
    requires
        i <= tokens.len(),
        forall|k: int| 0 <= k < tokens.len() ==> !top_waypoint_at(tokens, k),
        forall|k: int| 0 <= k < tokens.len() ==> tokens[k] != EventView::Eof,
    ensures
        convert_from(
            tokens,
            complete,
            target,
            i,
            depth_before(tokens, i),
            markup_all(tokens.take(i as int)),
            empty_report(),
        ) == if complete {
            Outcome::Converted(markup_all(tokens), empty_report())
        } else {
            Outcome::InvalidXml
        },
    decreases tokens.len() - i,
{
    if i == tokens.len() {
        assert(tokens.take(i as int) =~= tokens);
    } else {
        let tok = tokens[i as int];
        assert(!top_waypoint_at(tokens, i as int));
        assert(tokens.take(i as int + 1).drop_last() =~= tokens.take(i as int));
        assert(tokens.take(i as int + 1).last() == tok);
        lemma_unchanged_from(tokens, complete, target, i + 1);
    }
}

/// A document in which no waypoint is a child of the root element (and
/// which the reader read to its end) is written back as it was read, with
/// an empty report; when the reader failed, the conversion fails.
pub proof fn lemma_without_waypoints_unchanged(
    tokens: Seq<EventView>,
    complete: bool,
    target: Vendor,
)
    requires
        forall|k: int| 0 <= k < tokens.len() ==> !top_waypoint_at(tokens, k),
        forall|k: int| 0 <= k < tokens.len() ==> tokens[k] != EventView::Eof,
    ensures
        conversion(tokens, complete, target) == if complete {
            Outcome::Converted(markup_all(tokens), empty_report())
        } else {
            Outcome::InvalidXml
        },
{
    assert(tokens.take(0) =~= Seq::<EventView>::empty());
    lemma_unchanged_from(tokens, complete, target, 0);
}

/// Every translation writes a value of the dictionary for the target: the
/// target's value of the row that a known source names, else the value of
/// row 0, the general fallback.
pub proof fn lemma_translation_value_in_dictionary(
    symbol: Option<Seq<char>>,
    poi_type: Option<Seq<char>>,
    target: Vendor,
)
    ensures
        exists|k: int|
            0 <= k < dictionary_len() && #[trigger] vendor_value(dictionary_entry(k), target)
                == translation_of(symbol, poi_type, target).value,
        translation_of(symbol, poi_type, target).used_fallback ==> translation_of(
            symbol,
            poi_type,
            target,
        ).value == fallback_value(target),
{
    let t = translation_of(symbol, poi_type, target);
    assert(vendor_value(dictionary_entry(0), target) == fallback_value(target));
    lemma_known_row_in_range(symbol);
    lemma_known_row_in_range(poi_type);
}

} // verus!

verus! {

/// The output file is never the input file: for an input named
/// `{stem}.gpx`, neither the plain output name nor any timestamped one is
/// that name (they are longer).
pub proof fn lemma_output_names_differ_from_input(
    stem: Seq<char>,
    target: Vendor,
    timestamp: nat,
    attempt: nat,
)
    ensures
        output_name(stem, target) != stem + ".gpx"@,
        timestamped_output_name(stem, target, timestamp, attempt) != stem + ".gpx"@,
{
    reveal_strlit(".gpx");
    reveal_strlit("-");
    reveal_strlit("garmin");
    reveal_strlit("suunto");
    assert((stem + ".gpx"@).len() == stem.len() + 4);
    assert(output_name(stem, target).len() == stem.len() + 11);
    assert(timestamped_output_name(stem, target, timestamp, attempt).len() > stem.len() + 11);
}

} // verus!

verus! {

proof fn lemma_matching_end_within(tokens: Seq<EventView>, i: nat, e: nat, j: nat, nested: nat)
    requires
        i < j <= e <= tokens.len(),
        matching_end(tokens, j, nested) == Some(e),
    ensures
        matching_end(tokens.subrange(i as int, e as int), (j - i) as nat, nested) == Some(
            (e - i) as nat,
        ),
    decreases e - j,
{
    let sub = tokens.subrange(i as int, e as int);
    if nested > 0 {
        lemma_matching_end_bounds(tokens, j, nested);
        assert(sub[j - i] == tokens[j as int]);
        let n: nat = match tokens[j as int] {
            EventView::Start(..) => nested + 1,
            EventView::End(_) => (nested - 1) as nat,
            _ => nested,
        };
        lemma_matching_end_within(tokens, i, e, j + 1, n);
    }
}

/// A waypoint that the conversion reads (its start at `i`, up to the end
/// `e` that closes it) is closed: see [`closed_waypoint`].
pub proof fn lemma_read_waypoint_closed(tokens: Seq<EventView>, i: nat, e: nat)
    requires
        i < tokens.len(),
        tokens[i as int] is Start,
        matching_end(tokens, i + 1, 1) == Some(e),
    ensures
        closed_waypoint(tokens.subrange(i as int, e as int)),
{
    lemma_matching_end_bounds(tokens, i + 1, 1);
    lemma_matching_end_within(tokens, i, e, i + 1, 1);
}


/// Converting a waypoint keeps its children in the order of the GPX schema,
/// so that the written file stays valid GPX 1.1: the conversion writes the
/// events that [`converted_waypoint`] gives for each waypoint it reads, and
/// a waypoint read is closed (see [`lemma_read_waypoint_closed`]).
pub proof fn lemma_converted_waypoint_keeps_schema_order(
    es: Seq<EventView>,
    target: Vendor,
    rep: ReportView,
)
    requires
        closed_waypoint(es),
        in_schema_order(es),
    ensures
        converted_waypoint(es, target, rep) matches Some((w, _)) ==> in_schema_order(w),
{
    reveal_strlit("type");
    if converted_waypoint(es, target, rep) is Some {
        lemma_child_value_keeps_schema_order(es, "type"@, written_value(es, target));
    }
}

/// A converted waypoint converts to itself: a waypoint as read (a `wpt`
/// element, see [`closed_waypoint`]) whose `<type>` child, if any, is closed
/// by an end naming it, once converted and converted again with the same
/// `<sym>` text, is written back unchanged and counted as translated. The
/// value written reads back from its escaped text (as
/// [`crate::xml::escape_text`] states of every value it escapes;
/// [`crate::gpx::convert_waypoint`] states it of the
/// value it wrote). That the `<sym>` text is the same stands for what the
/// reader reads back of the written document, which nothing here states.
pub proof fn lemma_converted_waypoint_is_stable(
    es: Seq<EventView>,
    target: Vendor,
    rep: ReportView,
    again: ReportView,
)
    requires
        closed_waypoint(es),
        es[0] matches EventView::Start(c0) && local_name(tag_name(c0)) == "wpt"@,
        child_ends_named(es, "type"@),
        xml_unescape(escaped(written_value(es, target))) == Some(written_value(es, target)),
        converted_waypoint(es, target, rep) matches Some((w, _)) && child_text(w, "sym"@)
            == child_text(es, "sym"@),
    ensures
        converted_waypoint(es, target, rep) matches Some((w, _)) && converted_waypoint(
            w,
            target,
            again,
        ) matches Some((w2, r2)) && w2 == w && r2.waypoints == again.waypoints + 1
            && r2.translated == again.translated + 1 && r2.fallback_waypoints
            == again.fallback_waypoints && r2.unknown_values == again.unknown_values,
{
    reveal_strlit("type");
    reveal_strlit("wpt");
    lemma_local_name_single_prefix(tag_name(es[0]->Start_0), "wpt"@);
    let value = written_value(es, target);
    let symbol = child_text(es, "sym"@)->0;
    let poi_type = child_text(es, "type"@)->0;
    lemma_translation_idempotent(symbol, poi_type, target);
    lemma_child_value_idempotent(es, "type"@, value);
    assert(child_text(with_child_value(es, "type"@, value), "type"@) == Some(Some(value)));
}

} // verus!

verus! {

/// The number of waypoints among the first `j` events of a document that
/// are children of the root element.
pub open spec fn top_waypoint_count(tokens: Seq<EventView>, j: nat) -> nat
    decreases j,
{
    if j == 0 {
        0
    } else {
        top_waypoint_count(tokens, (j - 1) as nat) + if top_waypoint_at(tokens, j - 1) {
            1nat
        } else {
            0nat
        }
    }
}

/// Inside an element that closes at `e`, more elements are open than
/// around it, and after its end as many as before its start.
proof fn lemma_element_depths(tokens: Seq<EventView>, j: nat, nested: nat, base: nat, e: nat)
    requires
        nested >= 1,
        j <= tokens.len(),
        depth_before(tokens, j) == base + nested,
        matching_end(tokens, j, nested) == Some(e),
    ensures
        j < e <= tokens.len(),
        depth_before(tokens, e) == base,
        forall|k: nat| j <= k < e ==> #[trigger] depth_before(tokens, k) >= base + 1,
    decreases tokens.len() - j,
{
    assert(j < tokens.len());
    let n: nat = match tokens[j as int] {
        EventView::Start(..) => nested + 1,
        EventView::End(_) => (nested - 1) as nat,
        _ => nested,
    };
    assert(depth_before(tokens, j + 1) == base + n);
    if n == 0 {
        assert(matching_end(tokens, j + 1, 0) == Some(j + 1));
    } else {
        assert(tokens[j as int] !is Eof);
        lemma_element_depths(tokens, j + 1, n, base, e);
    }
}

proof fn lemma_count_unchanged(tokens: Seq<EventView>, a: nat, b: nat)
    requires
        a <= b,
        forall|k: int| a <= k < b ==> !top_waypoint_at(tokens, k),
    ensures
        top_waypoint_count(tokens, b) == top_waypoint_count(tokens, a),
    decreases b - a,
{
    if a < b {
        lemma_count_unchanged(tokens, a, (b - 1) as nat);
    }
}

proof fn lemma_convert_from_counts(
    tokens: Seq<EventView>,
    complete: bool,
    target: Vendor,
    i: nat,
    out: Seq<char>,
    rep: ReportView,
)
    requires
        i <= tokens.len(),
        forall|k: int| 0 <= k < tokens.len() ==> tokens[k] != EventView::Eof,
        rep.waypoints == top_waypoint_count(tokens, i),
    ensures
        convert_from(tokens, complete, target, i, depth_before(tokens, i), out, rep) matches Outcome::Converted(
            _,
            r,
        ) ==> r.waypoints == top_waypoint_count(tokens, tokens.len()),
    decreases tokens.len() - i,
{
    if i < tokens.len() {
        let depth = depth_before(tokens, i);
        let tok = tokens[i as int];
        assert(depth_before(tokens, i + 1) == match tok {
            EventView::Start(_) => depth + 1,
            EventView::End(_) => up(depth),
            _ => depth,
        });
        match tok {
            EventView::Start(n) => {
                if is_top_waypoint(tag_name(n), depth) {
                    assert(top_waypoint_at(tokens, i as int));
                    match matching_end(tokens, i + 1, 1) {
                        None => {},
                        Some(e) => {
                            lemma_element_depths(tokens, i + 1, 1, depth, e);
                            assert forall|k: int| i + 1 <= k < e implies !top_waypoint_at(
                                tokens,
                                k,
                            ) by {
                                assert(depth_before(tokens, k as nat) >= depth + 1);
                            }
                            lemma_count_unchanged(tokens, i + 1, e);
                            let es = tokens.subrange(i as int, e as int);
                            match converted_waypoint(es, target, rep) {
                                None => {},
                                Some((w, rep2)) => {
                                    lemma_convert_from_counts(
                                        tokens,
                                        complete,
                                        target,
                                        e,
                                        out + markup_all(w),
                                        rep2,
                                    );
                                },
                            }
                        },
                    }
                } else {
                    lemma_convert_from_counts(tokens, complete, target, i + 1, out + markup(tok), rep);
                }
            },
            EventView::Empty(c) => {
                if is_top_waypoint(tag_name(c), depth) {
                    let es = seq![EventView::Start(c), EventView::End(tag_name(c))];
                    match converted_waypoint(es, target, rep) {
                        None => {},
                        Some((w, rep2)) => {
                            lemma_convert_from_counts(
                                tokens,
                                complete,
                                target,
                                i + 1,
                                out + markup_all(w),
                                rep2,
                            );
                        },
                    }
                } else {
                    lemma_convert_from_counts(tokens, complete, target, i + 1, out + markup(tok), rep);
                }
            },
            _ => {
                lemma_convert_from_counts(tokens, complete, target, i + 1, out + markup(tok), rep);
            },
        }
    }
}

/// Every waypoint that is a child of the root element is converted and
/// counted once: the report of a conversion counts exactly the top-level
/// waypoints of the document (whose events hold no end-of-document event,
/// as the reader reports them).
pub proof fn lemma_every_waypoint_counted(tokens: Seq<EventView>, complete: bool, target: Vendor)
    requires
        forall|k: int| 0 <= k < tokens.len() ==> tokens[k] != EventView::Eof,
    ensures
        conversion(tokens, complete, target) matches Outcome::Converted(_, r) ==> r.waypoints
            == top_waypoint_count(tokens, tokens.len()),
{
    lemma_convert_from_counts(tokens, complete, target, 0, seq![], empty_report());
}

} // verus!

verus! {

proof fn lemma_decimal_digits(n: nat)
    ensures
        decimal(n).len() >= 1,
        n >= 10 ==> decimal(n).len() >= 2,
        forall|k: int| 0 <= k < decimal(n).len() ==> '0' <= #[trigger] decimal(n)[k] <= '9',
    decreases n,
{
    if n >= 10 {
        lemma_decimal_digits(n / 10);
    }
}

proof fn lemma_digit_value(d: nat)
    requires
        d < 10,
    ensures
        digit(d) as u32 == 48 + d,
{
    assert(((48 + d) as u32) as char as u32 == 48 + d);
}

/// Different numbers are written differently.
proof fn lemma_decimal_injective(a: nat, b: nat)
    requires
        decimal(a) == decimal(b),
    ensures
        a == b,
    decreases a,
{
    lemma_decimal_digits(a);
    lemma_decimal_digits(b);
    if a < 10 && b < 10 {
        assert(decimal(a)[0] == decimal(b)[0]);
        lemma_digit_value(a);
        lemma_digit_value(b);
    } else if a >= 10 && b >= 10 {
        assert(decimal(a).drop_last() =~= decimal(a / 10));
        assert(decimal(b).drop_last() =~= decimal(b / 10));
        lemma_decimal_injective(a / 10, b / 10);
        assert(decimal(a).last() == digit(a % 10));
        assert(decimal(b).last() == digit(b % 10));
        assert(digit(a % 10) == digit(b % 10));
        lemma_digit_value(a % 10);
        lemma_digit_value(b % 10);
        assert(a % 10 == b % 10);
        assert(a == 10 * (a / 10) + a % 10);
        assert(b == 10 * (b / 10) + b % 10);
    } else {
        assert(decimal(a).len() != decimal(b).len());
    }
}

/// The output names of one input differ between the vendors, between the
/// plain and the timestamped names, and between attempts: each attempt
/// tries a name that no other attempt tries.
pub proof fn lemma_output_names_distinct(
    stem: Seq<char>,
    timestamp: nat,
    a: nat,
    b: nat,
    target: Vendor,
)
    ensures
        output_name(stem, Vendor::Garmin) != output_name(stem, Vendor::Suunto),
        timestamped_output_name(stem, Vendor::Garmin, timestamp, a) != timestamped_output_name(
            stem,
            Vendor::Suunto,
            timestamp,
            b,
        ),
        timestamped_output_name(stem, target, timestamp, a) != output_name(stem, target),
        a != b ==> timestamped_output_name(stem, target, timestamp, a) != timestamped_output_name(
            stem,
            target,
            timestamp,
            b,
        ),
{
    reveal_strlit(".gpx");
    reveal_strlit("-");
    reveal_strlit("garmin");
    reveal_strlit("suunto");
    let n = stem.len() as int;
    assert(output_name(stem, Vendor::Garmin)[n + 1] == 'g');
    assert(output_name(stem, Vendor::Suunto)[n + 1] == 's');
    assert(timestamped_output_name(stem, Vendor::Garmin, timestamp, a)[n + 1] == 'g');
    assert(timestamped_output_name(stem, Vendor::Suunto, timestamp, b)[n + 1] == 's');
    assert(timestamped_output_name(stem, target, timestamp, a)[n + 7] == '-');
    assert(output_name(stem, target)[n + 7] == '.');
    if a != b {
        let p = stem + "-"@ + vendor_name(target) + "-"@ + decimal(timestamp);
        let x = timestamped_output_name(stem, target, timestamp, a);
        let y = timestamped_output_name(stem, target, timestamp, b);
        lemma_decimal_digits(a);
        lemma_decimal_digits(b);
        if x == y {
            if a == 0 {
                assert(x[p.len() as int] == '.');
                assert(y[p.len() as int] == '-');
            } else if b == 0 {
                assert(x[p.len() as int] == '-');
                assert(y[p.len() as int] == '.');
            } else {
                let da = decimal(a);
                let db = decimal(b);
                assert(x == p + ("-"@ + da) + ".gpx"@);
                assert(y == p + ("-"@ + db) + ".gpx"@);
                assert(x.len() == p.len() + 1 + da.len() + 4);
                assert(y.len() == p.len() + 1 + db.len() + 4);
                assert(da.len() == db.len());
                assert forall|k: int| 0 <= k < da.len() implies da[k] == db[k] by {
                    assert(x[p.len() + 1 + k] == da[k]);
                    assert(y[p.len() + 1 + k] == db[k]);
                }
                assert(da =~= db);
                lemma_decimal_injective(a, b);
            }
        }
    }
}

} // verus!

verus! {

/// Only `wpt` elements are converted: a document in which no element's
/// local name is `wpt` (routes, tracks, extensions and all) is written back
/// exactly as it was read, with an empty report (and refused when the
/// reader failed).
pub proof fn lemma_only_wpt_converted(tokens: Seq<EventView>, complete: bool, target: Vendor)
    requires
        forall|k: int|
            0 <= k < tokens.len() ==> match #[trigger] tokens[k] {
                EventView::Start(c) => local_name(tag_name(c)) != "wpt"@,
                EventView::Empty(c) => local_name(tag_name(c)) != "wpt"@,
                EventView::Eof => false,
                _ => true,
            },
    ensures
        conversion(tokens, complete, target) == if complete {
            Outcome::Converted(markup_all(tokens), empty_report())
        } else {
            Outcome::InvalidXml
        },
{
    assert forall|k: int| 0 <= k < tokens.len() implies !top_waypoint_at(tokens, k) by {
        assert(tokens[k] == tokens[k]);
    }
    assert forall|k: int| 0 <= k < tokens.len() implies tokens[k] != EventView::Eof by {
        assert(tokens[k] == tokens[k]);
    }
    lemma_without_waypoints_unchanged(tokens, complete, target);
}

} // verus!

verus! {

/// Whether event `k` starts (or is) an element named `wpt` (by its local
/// name) that is a child of the root element.
pub open spec fn is_root_wpt(tokens: Seq<EventView>, k: int) -> bool {
    depth_before(tokens, k as nat) == 1 && match tokens[k] {
        EventView::Start(c) => local_name(tag_name(c)) == "wpt"@,
        EventView::Empty(c) => local_name(tag_name(c)) == "wpt"@,
        _ => false,
    }
}

/// The number of `wpt` children of the root element among the first `j`
/// events.
pub open spec fn root_wpt_count(tokens: Seq<EventView>, j: nat) -> nat
    decreases j,
{
    if j == 0 {
        0
    } else {
        root_wpt_count(tokens, (j - 1) as nat) + if is_root_wpt(tokens, j - 1) {
            1nat
        } else {
            0nat
        }
    }
}

proof fn lemma_root_wpt_count(tokens: Seq<EventView>, j: nat)
    ensures
        root_wpt_count(tokens, j) == top_waypoint_count(tokens, j),
    decreases j,
{
    if j > 0 {
        lemma_root_wpt_count(tokens, (j - 1) as nat);
        let k = j - 1;
        assert(is_root_wpt(tokens, k) == top_waypoint_at(tokens, k));
    }
}

/// The report of a conversion counts exactly the `wpt` elements that are
/// children of the root element: nested ones (inside extensions, routes or
/// tracks) and elements of any other name are not counted.
pub proof fn lemma_report_counts_root_wpts(tokens: Seq<EventView>, complete: bool, target: Vendor)
    requires
        forall|k: int| 0 <= k < tokens.len() ==> tokens[k] != EventView::Eof,
    ensures
        conversion(tokens, complete, target) matches Outcome::Converted(_, r) ==> r.waypoints
            == root_wpt_count(tokens, tokens.len()),
{
    lemma_every_waypoint_counted(tokens, complete, target);
    lemma_root_wpt_count(tokens, tokens.len());
}

} // verus!
