//! The conversion of a GPX document: every waypoint (`wpt`) that is a
//! child of the root element gets the point-of-interest type of the target
//! vendor; every other event is written back unchanged.
use vstd::prelude::*;

use crate::child_laws::{
    child_at, child_ends_named, child_laws_apply, depth_in, lemma_child_position,
    lemma_child_value_idempotent, lemma_schema_scan_first, ranked_above,
};
use crate::poi::{opt_str_view, translate, translation_of, Vendor};
use crate::report::{
    empty_report, record, record_waypoint, report_wf, ConversionReport, ReportView,
};
use crate::text::{all_space, chars_of, is_space_char};
use crate::xml::{
    copy_event, escape_text, escaped, event_markup, events_view, markup, markup_all, last_index, lemma_first_index,
    lemma_last_index, local_name, next_event, tag_name, tag_name_of, open_document, unescape_text, xml_token,
    xml_unescape, EventView, XmlEvent,
};

verus! {

pub open spec fn opt_string_view(o: Option<String>) -> Option<Seq<char>> {
    match o {
        Some(s) => Some(s@),
        None => None,
    }
}

/// Whether the local part of the name of a tag whose content is `content`
/// is `wanted`.
pub fn has_local_name(content: &String, wanted: &str) -> (r: bool)
    ensures
        r == (local_name(tag_name(content@)) == wanted@),
{
    let qname = tag_name_of(content.as_str());
    let q = chars_of(qname.as_str());
    let w = chars_of(wanted);
    let mut i: usize = 0;
    while i < q.len() && q[i] != ':'
        invariant
            q@ == qname@,
            0 <= i <= q@.len(),
            forall|k: int| 0 <= k < i ==> q@[k] != ':',
        decreases q.len() - i,
    {
        i += 1;
    }
    proof {
        lemma_first_index(q@, ':');
    }
    let start: usize = if i < q.len() {
        i + 1
    } else {
        0
    };
    let ghost local = local_name(qname@);
    assert(local =~= q@.skip(start as int));
    if q.len() - start != w.len() {
        return false;
    }
    let qlen = q.len();
    let mut j: usize = 0;
    while j < w.len()
        invariant
            qlen == q@.len(),
            q@ == qname@,
            w@ == wanted@,
            start <= q@.len(),
            q@.len() - start == w@.len(),
            0 <= j <= w@.len(),
            local == q@.skip(start as int),
            local == local_name(qname@),
            qname@ == tag_name(content@),
            forall|k: int| 0 <= k < j ==> local[k] == w@[k],
        decreases w.len() - j,
    {
        if q[start + j] != w[j] {
            assert(local[j as int] != w@[j as int]);
            return false;
        }
        j += 1;
    }
    assert(local =~= w@);
    true
}

/// One step of reading the text of the first child of a waypoint named
/// `wanted`, from event `i` on. `depth` counts the open elements below the
/// waypoint, `collecting` tells whether that child has been entered and
/// `acc` is its text so far (its direct text and CDATA content, the text
/// unescaped). The result is `None` when a text cannot be unescaped, else
/// the child's text, `Some(None)` when the waypoint has no such child. A
/// self-closing child at the top has the empty text.
pub open spec fn child_text_scan(
    es: Seq<EventView>,
    wanted: Seq<char>,
    i: nat,
    depth: nat,
    collecting: bool,
    acc: Seq<char>,
) -> Option<Option<Seq<char>>>
    decreases es.len() - i,
{
    if i >= es.len() {
        Some(None)
    } else {
        match es[i as int] {
            EventView::Start(n) => child_text_scan(
                es,
                wanted,
                i + 1,
                depth + 1,
                collecting || (depth == 0 && local_name(tag_name(n)) == wanted),
                acc,
            ),
            EventView::Empty(n) => if depth == 0 && local_name(tag_name(n)) == wanted {
                Some(Some(seq![]))
            } else {
                child_text_scan(es, wanted, i + 1, depth, collecting, acc)
            },
            EventView::Text(t) => if collecting && depth == 1 {
                match xml_unescape(t) {
                    Some(u) => child_text_scan(es, wanted, i + 1, depth, collecting, acc + u),
                    None => None,
                }
            } else {
                child_text_scan(es, wanted, i + 1, depth, collecting, acc)
            },
            EventView::CData(t) => if collecting && depth == 1 {
                child_text_scan(es, wanted, i + 1, depth, collecting, acc + t)
            } else {
                child_text_scan(es, wanted, i + 1, depth, collecting, acc)
            },
            EventView::End(n) => {
                let d: nat = if depth > 0 {
                    (depth - 1) as nat
                } else {
                    0
                };
                if collecting && d == 0 && local_name(n) == wanted {
                    Some(Some(acc))
                } else {
                    child_text_scan(es, wanted, i + 1, d, collecting, acc)
                }
            },
            _ => child_text_scan(es, wanted, i + 1, depth, collecting, acc),
        }
    }
}

/// The text of the first child named `wanted` of the waypoint whose events
/// are `es` (the first event being the waypoint's start); see
/// [`child_text_scan`].
pub open spec fn child_text(es: Seq<EventView>, wanted: Seq<char>) -> Option<Option<Seq<char>>> {
    child_text_scan(es, wanted, 1, 0, false, seq![])
}

/// The text of the first child named `wanted` of a waypoint (see
/// [`child_text`]); the error of unescaping where a text cannot be
/// unescaped.
pub fn direct_child_text(events: &Vec<XmlEvent>, wanted: &str) -> (r: Result<
    Option<String>,
    quick_xml::escape::EscapeError,
>)
    ensures
        match r {
            Ok(o) => child_text(events_view(events@), wanted@) == Some(opt_string_view(o)),
            Err(_) => child_text(events_view(events@), wanted@) is None,
        },
{
    let ghost es = events_view(events@);
    let mut depth: usize = 0;
    let mut collecting = false;
    let mut result = String::new();
    let mut i: usize = 1;
    while i < events.len()
        invariant
            es == events_view(events@),
            1 <= i,
            depth <= i,
            child_text(es, wanted@) == child_text_scan(es, wanted@, i as nat, depth as nat, collecting, result@),
        decreases events.len() - i,
    {
        assert(es[i as int] == events@[i as int]@);
        match &events[i] {
            XmlEvent::Start(n) => {
                if depth == 0 && has_local_name(n, wanted) {
                    collecting = true;
                }
                depth += 1;
            },
            XmlEvent::Empty(n) => {
                if depth == 0 && has_local_name(n, wanted) {
                    return Ok(Some(String::new()));
                }
            },
            XmlEvent::Text(t) => {
                if collecting && depth == 1 {
                    let u = unescape_text(t.as_str())?;
                    result.append(u.as_str());
                }
            },
            XmlEvent::CData(t) => {
                if collecting && depth == 1 {
                    result.append(t.as_str());
                }
            },
            XmlEvent::End(n) => {
                depth = if depth > 0 {
                    depth - 1
                } else {
                    0
                };
                if collecting && depth == 0 && same_text(local_part(n.as_str()).as_str(), wanted) {
                    return Ok(Some(result));
                }
            },
            _ => {},
        }
        i += 1;
    }
    Ok(None)
}

/// Whether two texts are equal.
pub fn same_text(a: &str, b: &str) -> (r: bool)
    ensures
        r == (a@ == b@),
{
    let x = chars_of(a);
    let y = chars_of(b);
    if x.len() != y.len() {
        return false;
    }
    let mut i: usize = 0;
    while i < x.len()
        invariant
            x@ == a@,
            y@ == b@,
            x@.len() == y@.len(),
            0 <= i <= x@.len(),
            forall|k: int| 0 <= k < i ==> x@[k] == y@[k],
        decreases x.len() - i,
    {
        if x[i] != y[i] {
            return false;
        }
        i += 1;
    }
    assert(x@ =~= y@);
    true
}

/// The local part of a qualified name (see [`local_name`]).
pub fn local_part(q: &str) -> (r: String)
    ensures
        r@ == local_name(q@),
{
    let c = chars_of(q);
    let mut i: usize = 0;
    while i < c.len() && c[i] != ':'
        invariant
            c@ == q@,
            0 <= i <= c@.len(),
            forall|k: int| 0 <= k < i ==> c@[k] != ':',
        decreases c.len() - i,
    {
        i += 1;
    }
    proof {
        lemma_first_index(q@, ':');
    }
    if i < c.len() {
        q.substring_char(i + 1, c.len()).to_string()
    } else {
        q.to_string()
    }
}

/// Whether every character of `s` is white space.
pub fn is_all_space(s: &str) -> (r: bool)
    ensures
        r == all_space(s@),
{
    let c = chars_of(s);
    let mut i: usize = 0;
    while i < c.len()
        invariant
            c@ == s@,
            0 <= i <= c@.len(),
            forall|k: int| 0 <= k < i ==> crate::text::is_space(#[trigger] c@[k]),
        decreases c.len() - i,
    {
        if !is_space_char(c[i]) {
            return false;
        }
        i += 1;
    }
    true
}

/// The text of an event that is text made only of white space.
pub open spec fn whitespace_text(e: EventView) -> Option<Seq<char>> {
    match e {
        EventView::Text(t) => if all_space(t) {
            Some(t)
        } else {
            None
        },
        _ => None,
    }
}

/// The white-space text of an event, where it is one (see [`whitespace_text`]).
pub fn whitespace_of(e: &XmlEvent) -> (r: Option<String>)
    ensures
        opt_string_view(r) == whitespace_text(e@),
{
    match e {
        XmlEvent::Text(t) => if is_all_space(t.as_str()) {
            Some(t.clone())
        } else {
            None
        },
        _ => None,
    }
}

/// Whether an event is text made only of white space.
pub fn is_whitespace(e: &XmlEvent) -> (r: bool)
    ensures
        r == (whitespace_text(e@) is Some),
{
    whitespace_of(e).is_some()
}

/// The children of a GPX 1.1 waypoint (`wptType`), in the order the schema
/// prescribes.
pub open spec fn waypoint_children() -> Seq<Seq<char>> {
    seq![
        "ele"@,
        "time"@,
        "magvar"@,
        "geoidheight"@,
        "name"@,
        "cmt"@,
        "desc"@,
        "src"@,
        "link"@,
        "sym"@,
        "type"@,
        "fix"@,
        "sat"@,
        "hdop"@,
        "vdop"@,
        "pdop"@,
        "ageofdgpsdata"@,
        "dgpsid"@,
        "extensions"@,
    ]
}

/// The first position at `from` or later of `name` among the waypoint children.
pub open spec fn rank_from(name: Seq<char>, from: nat) -> Option<nat>
    decreases waypoint_children().len() - from,
{
    if from >= waypoint_children().len() {
        None
    } else if waypoint_children()[from as int] == name {
        Some(from)
    } else {
        rank_from(name, from + 1)
    }
}

/// The position of `name` in the schema's order of waypoint children.
pub open spec fn rank(name: Seq<char>) -> Option<nat> {
    rank_from(name, 0)
}

fn schema_child(i: usize) -> (r: &'static str)
    requires
        i < 19,
    ensures
        r@ == waypoint_children()[i as int],
{
    match i {
        0 => "ele",
        1 => "time",
        2 => "magvar",
        3 => "geoidheight",
        4 => "name",
        5 => "cmt",
        6 => "desc",
        7 => "src",
        8 => "link",
        9 => "sym",
        10 => "type",
        11 => "fix",
        12 => "sat",
        13 => "hdop",
        14 => "vdop",
        15 => "pdop",
        16 => "ageofdgpsdata",
        17 => "dgpsid",
        _ => "extensions",
    }
}

/// The position of a waypoint child in the schema's order (see [`rank`]).
pub fn child_rank(name: &str) -> (r: Option<usize>)
    ensures
        opt_nat(r) == rank(name@),
        r matches Some(k) ==> k < 19,
{
    let mut i: usize = 0;
    while i < 19
        invariant
            i <= 19,
            waypoint_children().len() == 19,
            rank(name@) == rank_from(name@, i as nat),
        decreases 19 - i,
    {
        if same_text(name, schema_child(i)) {
            return Some(i);
        }
        i += 1;
    }
    None
}

/// `depth - 1`, or 0 when `depth` is 0.
pub open spec fn up(depth: nat) -> nat {
    if depth > 0 {
        (depth - 1) as nat
    } else {
        0
    }
}

/// The first child of the waypoint, from event `i` on, that the schema puts
/// after the child of rank `target_rank`: the index of its start (or
/// self-closing) event. `depth` counts the open elements below the waypoint.
pub open spec fn schema_scan(es: Seq<EventView>, target_rank: nat, i: nat, depth: nat) -> Option<nat>
    decreases es.len() - i,
{
    if i >= es.len() {
        None
    } else {
        match es[i as int] {
            EventView::Start(n) => if depth == 0 && rank_above(local_name(tag_name(n)), target_rank) {
                Some(i)
            } else {
                schema_scan(es, target_rank, i + 1, depth + 1)
            },
            EventView::Empty(n) => if depth == 0 && rank_above(local_name(tag_name(n)), target_rank) {
                Some(i)
            } else {
                schema_scan(es, target_rank, i + 1, depth)
            },
            EventView::End(_) => schema_scan(es, target_rank, i + 1, up(depth)),
            _ => schema_scan(es, target_rank, i + 1, depth),
        }
    }
}

/// Whether `name` is a waypoint child that the schema puts after the child
/// of rank `target_rank`.
pub open spec fn rank_above(name: Seq<char>, target_rank: nat) -> bool {
    match rank(name) {
        Some(k) => k > target_rank,
        None => false,
    }
}

/// Where the schema wants a new child named `target` inserted: before the
/// first child that it puts after `target`; `None` when there is no such
/// child or `target` is no waypoint child.
pub open spec fn schema_position(es: Seq<EventView>, target: Seq<char>) -> Option<nat> {
    match rank(target) {
        Some(r) => schema_scan(es, r, 1, 0),
        None => None,
    }
}

/// The index before which a new child named `target` is inserted, from
/// event `i` on (see [`schema_position`]).
pub fn schema_insertion_index(events: &Vec<XmlEvent>, target: &str) -> (r: Option<usize>)
    ensures
        opt_nat(r) == schema_position(events_view(events@), target@),
        r matches Some(i) ==> 1 <= i < events@.len(),
        match rank(target@) {
            Some(tr) => match r {
                Some(k) => ranked_above(events_view(events@), tr, k as int) && forall|m: int|
                    1 <= m < k ==> !ranked_above(events_view(events@), tr, m),
                None => forall|m: int|
                    1 <= m < events@.len() ==> !ranked_above(events_view(events@), tr, m),
            },
            None => r is None,
        },
{
    let target_rank = match child_rank(target) {
        Some(k) => k,
        None => return None,
    };
    let ghost es = events_view(events@);

    let mut depth: usize = 0;
    let mut i: usize = 1;
    while i < events.len()
        invariant
            es == events_view(events@),
            1 <= i,
            depth <= i,
            rank(target@) == Some(target_rank as nat),
            schema_position(es, target@) == schema_scan(es, target_rank as nat, i as nat, depth as nat),
        decreases events.len() - i,
    {
        assert(es[i as int] == events@[i as int]@);
        match &events[i] {
            XmlEvent::Start(n) => {
                if depth == 0 && ranks_above(n, target_rank) {
                    proof {
                        lemma_schema_scan_first(es, target_rank as nat, 1);
                        assert(depth_in(es, 1) == 0);
                    }
                    return Some(i);
                }
                depth += 1;
            },
            XmlEvent::Empty(n) => {
                if depth == 0 && ranks_above(n, target_rank) {
                    proof {
                        lemma_schema_scan_first(es, target_rank as nat, 1);
                        assert(depth_in(es, 1) == 0);
                    }
                    return Some(i);
                }
            },
            XmlEvent::End(_) => {
                depth = if depth > 0 {
                    depth - 1
                } else {
                    0
                };
            },
            _ => {},
        }
        i += 1;
    }
    proof {
        lemma_schema_scan_first(es, target_rank as nat, 1);
        assert(depth_in(es, 1) == 0);
    }
    None
}

pub open spec fn opt_nat(o: Option<usize>) -> Option<nat> {
    match o {
        Some(i) => Some(i as nat),
        None => None,
    }
}

fn ranks_above(content: &String, target_rank: usize) -> (r: bool)
    ensures
        r == rank_above(local_name(tag_name(content@)), target_rank as nat),
{
    let name = tag_name_of(content.as_str());
    let local = local_part(name.as_str());
    match child_rank(local.as_str()) {
        Some(k) => k > target_rank,
        None => false,
    }
}

/// The qualified name of a new child named `name` of the waypoint whose
/// first event is `first`: `name` with the prefix of the waypoint's own
/// name (the part before its last `:`), if it has one.
pub open spec fn child_qname(first: EventView, name: Seq<char>) -> Seq<char> {
    match first {
        EventView::Start(c) => {
            let n = tag_name(c);
            match last_index(n, ':') {
                Some(k) => n.take(k) + ":"@ + name,
                None => name,
            }
        },
        _ => name,
    }
}

/// Where a new child named `name` goes among the events `es` of a waypoint:
/// where the schema wants it, else before the white space that precedes
/// the waypoint's end, else just before its end.
pub open spec fn insertion_index(es: Seq<EventView>, name: Seq<char>) -> int {
    let closing = es.len() - 1;
    match schema_position(es, name) {
        Some(i) => i as int,
        None => if closing > 0 && whitespace_text(es[closing - 1]) is Some {
            closing - 1
        } else {
            closing
        },
    }
}

/// The white space before the waypoint's end, when the new child goes just
/// before it: the new child is then indented by it plus two spaces.
pub open spec fn trailing_separator(es: Seq<EventView>, at: int) -> Option<Seq<char>> {
    let closing = es.len() - 1;
    if at == (if closing > 0 {
        closing - 1
    } else {
        0
    }) {
        whitespace_text(es[at])
    } else {
        None
    }
}

/// Otherwise the white space before the insertion point, repeated after the
/// new child so that it keeps its siblings' layout.
pub open spec fn between_separator(es: Seq<EventView>, at: int) -> Option<Seq<char>> {
    if trailing_separator(es, at) is None && at >= 1 {
        whitespace_text(es[at - 1])
    } else {
        None
    }
}

/// The events inserted for a new child named `name` with text `value`.
pub open spec fn inserted_child(es: Seq<EventView>, name: Seq<char>, value: Seq<char>) -> Seq<EventView> {
    let at = insertion_index(es, name);
    let q = child_qname(es[0], name);
    let before = match trailing_separator(es, at) {
        Some(sep) => seq![EventView::Text(escaped(sep + "  "@))],
        None => seq![],
    };
    let after = match between_separator(es, at) {
        Some(sep) => seq![EventView::Text(escaped(sep))],
        None => seq![],
    };
    before + seq![EventView::Start(q), EventView::Text(escaped(value)), EventView::End(q)]
        + after
}

/// The events of a waypoint with a new child named `name` whose text is
/// `value` (escaped) inserted.
pub open spec fn with_inserted_child(es: Seq<EventView>, name: Seq<char>, value: Seq<char>) -> Seq<EventView> {
    let at = insertion_index(es, name);
    es.take(at) + inserted_child(es, name, value) + es.skip(at)
}

/// The events of a sequence with one more event at its end.
pub proof fn lemma_events_view_push(s: Seq<XmlEvent>, x: XmlEvent)
    ensures
        events_view(s.push(x)) == events_view(s).push(x@),
{
    assert(events_view(s.push(x)) =~= events_view(s).push(x@));
}

/// `events` with the events from `from` to `to` replaced by `inserted`.
pub fn splice_events(events: &Vec<XmlEvent>, from: usize, to: usize, inserted: Vec<XmlEvent>) -> (r:
    Vec<XmlEvent>)
    requires
        from <= to <= events@.len(),
    ensures
        events_view(r@) == events_view(events@).take(from as int) + events_view(inserted@)
            + events_view(events@).skip(to as int),
{
    let ghost es = events_view(events@);
    let ghost ins = events_view(inserted@);
    let mut r: Vec<XmlEvent> = Vec::new();
    let mut i: usize = 0;
    while i < from
        invariant
            from <= to <= events@.len(),
            es == events_view(events@),
            0 <= i <= from,
            events_view(r@) == es.take(i as int),
        decreases from - i,
    {
        let e = copy_event(&events[i]);
        proof {
            lemma_events_view_push(r@, e);
            assert(es.take(i + 1) =~= es.take(i as int).push(es[i as int]));
        }
        r.push(e);
        i += 1;
    }
    let mut inserted = inserted;
    let mut k: usize = 0;
    while k < inserted.len()
        invariant
            ins == events_view(inserted@),
            0 <= k <= inserted@.len(),
            events_view(r@) == es.take(from as int) + ins.take(k as int),
        decreases inserted.len() - k,
    {
        let e = copy_event(&inserted[k]);
        proof {
            lemma_events_view_push(r@, e);
            assert(es.take(from as int) + ins.take(k + 1) =~= (es.take(from as int) + ins.take(
                k as int,
            )).push(ins[k as int]));
        }
        r.push(e);
        k += 1;
    }
    assert(ins.take(ins.len() as int) =~= ins);
    let mut j: usize = to;
    while j < events.len()
        invariant
            from <= to <= j <= events@.len(),
            es == events_view(events@),
            events_view(r@) == es.take(from as int) + ins + es.subrange(to as int, j as int),
        decreases events.len() - j,
    {
        let e = copy_event(&events[j]);
        proof {
            lemma_events_view_push(r@, e);
            assert(es.take(from as int) + ins + es.subrange(to as int, j + 1) =~= (es.take(
                from as int,
            ) + ins + es.subrange(to as int, j as int)).push(es[j as int]));
        }
        r.push(e);
        j += 1;
    }
    assert(es.subrange(to as int, es.len() as int) =~= es.skip(to as int));
    r
}

/// The qualified name of a new child (see [`child_qname`]).
pub fn qualified_child_name(first: &XmlEvent, name: &str) -> (r: String)
    ensures
        r@ == child_qname(first@, name@),
{
    match first {
        XmlEvent::Start(content) => {
            let n = tag_name_of(content.as_str());
            let c = chars_of(n.as_str());
            let mut i: usize = c.len();
            while i > 0 && c[i - 1] != ':'
                invariant
                    c@ == n@,
                    0 <= i <= c@.len(),
                    forall|k: int| i <= k < c@.len() ==> c@[k] != ':',
                decreases i,
            {
                i -= 1;
            }
            proof {
                lemma_last_index(n@, ':');
            }
            if i > 0 {
                let mut r = n.as_str().substring_char(0, i - 1).to_string();
                r.append(":");
                r.append(name);
                r
            } else {
                name.to_string()
            }
        },
        _ => name.to_string(),
    }
}

/// Inserts a new child named `name` with text `value` into the waypoint
/// whose events are `events` (see [`with_inserted_child`]).
pub fn insert_direct_child(events: &mut Vec<XmlEvent>, name: &str, value: &str)
    requires
        old(events)@.len() >= 1,
    ensures
        events_view(final(events)@) == with_inserted_child(events_view(old(events)@), name@, value@),
        xml_unescape(escaped(value@)) == Some(value@),
{
    let ghost es = events_view(events@);
    let closing = events.len() - 1;
    let at = match schema_insertion_index(events, name) {
        Some(i) => i,
        None => if closing > 0 && is_whitespace(&events[closing - 1]) {
            closing - 1
        } else {
            closing
        },
    };
    assert(at as int == insertion_index(es, name@));
    let trailing = if at == (if closing > 0 {
        closing - 1
    } else {
        0
    }) {
        whitespace_of(&events[at])
    } else {
        None
    };
    assert(opt_string_view(trailing) == trailing_separator(es, at as int));
    let between = if trailing.is_none() && at >= 1 {
        whitespace_of(&events[at - 1])
    } else {
        None
    };
    assert(opt_string_view(between) == between_separator(es, at as int));
    let qname = qualified_child_name(&events[0], name);
    let mut inserted: Vec<XmlEvent> = Vec::new();
    if let Some(sep) = trailing {
        let mut t = sep;
        t.append("  ");
        inserted.push(XmlEvent::Text(escape_text(t.as_str())));
    }
    inserted.push(XmlEvent::Start(qname.clone()));
    inserted.push(XmlEvent::Text(escape_text(value)));
    inserted.push(XmlEvent::End(qname));
    if let Some(sep) = between {
        inserted.push(XmlEvent::Text(escape_text(sep.as_str())));
    }
    assert(events_view(inserted@) =~= inserted_child(es, name@, value@));
    let r = splice_events(events, at, at, inserted);
    *events = r;
}

/// The first child named `wanted` at the top of the waypoint, from event
/// `i` on: the index of its start or self-closing event. The last event
/// (the waypoint's end) is not looked at.
pub open spec fn child_position(es: Seq<EventView>, wanted: Seq<char>, i: nat, depth: nat) -> Option<nat>
    decreases es.len() - i,
{
    if i + 1 >= es.len() {
        None
    } else {
        match es[i as int] {
            EventView::Start(n) => if depth == 0 && local_name(tag_name(n)) == wanted {
                Some(i)
            } else {
                child_position(es, wanted, i + 1, depth + 1)
            },
            EventView::Empty(n) => if depth == 0 && local_name(tag_name(n)) == wanted {
                Some(i)
            } else {
                child_position(es, wanted, i + 1, depth)
            },
            EventView::End(_) => child_position(es, wanted, i + 1, up(depth)),
            _ => child_position(es, wanted, i + 1, depth),
        }
    }
}

/// The index just past the end event that closes an element, scanning from
/// `j` with `nested` elements open; the length of `es` when they are not
/// all closed.
pub open spec fn element_end(es: Seq<EventView>, j: nat, nested: nat) -> nat
    decreases es.len() - j,
{
    if j >= es.len() || nested == 0 {
        j
    } else {
        match es[j as int] {
            EventView::Start(..) => element_end(es, j + 1, nested + 1),
            EventView::End(_) => element_end(es, j + 1, (nested - 1) as nat),
            _ => element_end(es, j + 1, nested),
        }
    }
}

proof fn lemma_element_end_bounds(es: Seq<EventView>, j: nat, nested: nat)
    ensures
        j <= es.len() ==> j <= element_end(es, j, nested) <= es.len(),
        nested > 0 && j < es.len() ==> j < element_end(es, j, nested),
    decreases es.len() - j,
{
    if j < es.len() && nested > 0 {
        match es[j as int] {
            EventView::Start(..) => lemma_element_end_bounds(es, j + 1, nested + 1),
            EventView::End(_) => lemma_element_end_bounds(es, j + 1, (nested - 1) as nat),
            _ => lemma_element_end_bounds(es, j + 1, nested),
        }
    }
}

/// The events of a waypoint whose child `wanted` has the text `value`
/// (escaped): the content of the first such child at the top is replaced
/// (the element keeps its end event); a self-closing one becomes a start,
/// the text and an end (it loses its attributes); when there is none, a new
/// child is inserted (see [`with_inserted_child`]).
pub open spec fn with_child_value(es: Seq<EventView>, wanted: Seq<char>, value: Seq<char>) -> Seq<EventView> {
    match child_position(es, wanted, 1, 0) {
        Some(i) => match es[i as int] {
            EventView::Empty(c) => es.take(i as int) + seq![
                EventView::Start(tag_name(c)),
                EventView::Text(escaped(value)),
                EventView::End(tag_name(c)),
            ] + es.skip(i as int + 1),
            _ => {
                let e = element_end(es, i + 1, 1);
                es.take(i as int + 1) + seq![EventView::Text(escaped(value)), es[e - 1]] + es.skip(e as int)
            },
        },
        None => with_inserted_child(es, wanted, value),
    }
}

/// Gives the child `wanted` of a waypoint the text `value` (see
/// [`with_child_value`]).
pub fn replace_or_insert_direct_child(events: &mut Vec<XmlEvent>, wanted: &str, value: &str)
    requires
        old(events)@.len() >= 1,
    ensures
        events_view(final(events)@) == with_child_value(events_view(old(events)@), wanted@, value@),
        match child_position(events_view(old(events)@), wanted@, 1, 0) {
            Some(i) => child_at(events_view(old(events)@), wanted@, i as int) && forall|m: int|
                1 <= m < i ==> !child_at(events_view(old(events)@), wanted@, m),
            None => forall|m: int|
                1 <= m && m + 1 < old(events)@.len() ==> !child_at(
                    events_view(old(events)@),
                    wanted@,
                    m,
                ),
        },
        xml_unescape(escaped(value@)) == Some(value@),
        child_laws_apply(events_view(old(events)@), wanted@) ==> with_child_value(
            events_view(final(events)@),
            wanted@,
            value@,
        ) == events_view(final(events)@),
        child_laws_apply(events_view(old(events)@), wanted@) && child_ends_named(
            events_view(old(events)@),
            wanted@,
        ) ==> child_text(events_view(final(events)@), wanted@) == Some(Some(value@)),
{
    let ghost es = events_view(events@);
    let mut depth: usize = 0;
    let mut index: usize = 1;
    while index < events.len() - 1
        invariant
            es == events_view(events@),
            es == events_view(old(events)@),
            events@.len() >= 1,
            1 <= index,
            index <= events@.len(),
            depth <= index,
            child_position(es, wanted@, 1, 0) == child_position(es, wanted@, index as nat, depth as nat),
        decreases events.len() - index,
    {
        assert(es[index as int] == events@[index as int]@);
        match &events[index] {
            XmlEvent::Start(n) => {
                if depth == 0 && has_local_name(n, wanted) {
                    let mut nested: usize = 1;
                    let mut end_index: usize = index + 1;
                    while end_index < events.len() && nested > 0
                        invariant
                            es == events_view(events@),
                            index < end_index <= events@.len(),
                            nested <= end_index,
                            element_end(es, (index + 1) as nat, 1) == element_end(
                                es,
                                end_index as nat,
                                nested as nat,
                            ),
                        decreases events.len() - end_index,
                    {
                        assert(es[end_index as int] == events@[end_index as int]@);
                        match &events[end_index] {
                            XmlEvent::Start(..) => nested += 1,
                            XmlEvent::End(_) => nested -= 1,
                            _ => {},
                        }
                        end_index += 1;
                    }
                    let end = copy_event(&events[end_index - 1]);
                    let mut inserted: Vec<XmlEvent> = Vec::new();
                    inserted.push(XmlEvent::Text(escape_text(value)));
                    inserted.push(end);
                    assert(events_view(inserted@) =~= seq![
                        EventView::Text(escaped(value@)),
                        es[end_index - 1],
                    ]);
                    let r = splice_events(events, index + 1, end_index, inserted);
                    *events = r;
                    proof {
                        lemma_child_position(es, wanted@, 1);
                        assert(depth_in(es, 1) == 0);
                        if child_laws_apply(es, wanted@) {
                            lemma_child_value_idempotent(es, wanted@, value@);
                        }
                    }
                    return;
                }
                depth += 1;
            },
            XmlEvent::Empty(c) => {
                if depth == 0 && has_local_name(c, wanted) {
                    let n = tag_name_of(c.as_str());
                    let mut inserted: Vec<XmlEvent> = Vec::new();
                    inserted.push(XmlEvent::Start(n.clone()));
                    inserted.push(XmlEvent::Text(escape_text(value)));
                    inserted.push(XmlEvent::End(n));
                    assert(events_view(inserted@) =~= seq![
                        EventView::Start(tag_name(c@)),
                        EventView::Text(escaped(value@)),
                        EventView::End(tag_name(c@)),
                    ]);
                    let r = splice_events(events, index, index + 1, inserted);
                    *events = r;
                    proof {
                        lemma_child_position(es, wanted@, 1);
                        assert(depth_in(es, 1) == 0);
                        if child_laws_apply(es, wanted@) {
                            lemma_child_value_idempotent(es, wanted@, value@);
                        }
                    }
                    return;
                }
            },
            XmlEvent::End(_) => {
                depth = if depth > 0 {
                    depth - 1
                } else {
                    0
                };
            },
            _ => {},
        }
        index += 1;
    }
    insert_direct_child(events, wanted, value);
    proof {
        lemma_child_position(es, wanted@, 1);
        assert(depth_in(es, 1) == 0);
        if child_laws_apply(es, wanted@) {
            lemma_child_value_idempotent(es, wanted@, value@);
        }
    }
}

/// Why a document could not be converted.
#[derive(Debug)]
pub enum ConversionError {
    /// The document is not well-formed XML (as the reader reports it), or a
    /// waypoint is not closed.
    InvalidXml(quick_xml::Error),
    /// A text of a waypoint's `<sym>` or `<type>` holds a reference that
    /// cannot be resolved.
    InvalidText(quick_xml::escape::EscapeError),
}

/// Calls the `Display` of `quick_xml::Error`: the reader's own words for
/// what is wrong. Nothing is promised of the text.
#[verifier::external_body]
fn xml_error_text(e: &quick_xml::Error) -> (r: String) {
    e.to_string()
}

/// Calls the `Display` of `quick_xml::escape::EscapeError`. Nothing is
/// promised of the text.
#[verifier::external_body]
fn escape_error_text(e: &quick_xml::escape::EscapeError) -> (r: String) {
    e.to_string()
}

/// The message that introduces each kind of error.
pub open spec fn message_head(e: &ConversionError) -> Seq<char> {
    match e {
        ConversionError::InvalidXml(_) => "GPX/XML non valido: "@,
        ConversionError::InvalidText(_) => "entita' XML non valida: "@,
    }
}

impl ConversionError {
    /// The message shown for the error: what kind of error it is, followed
    /// by the outside crate's description of it.
    pub fn message(&self) -> (r: String)
        ensures
            message_head(self).is_prefix_of(r@),
    {
        let (head, detail) = match self {
            ConversionError::InvalidXml(e) => ("GPX/XML non valido: ", xml_error_text(e)),
            ConversionError::InvalidText(e) => ("entita' XML non valida: ", escape_error_text(e)),
        };
        let mut r = head.to_string();
        r.append(detail.as_str());
        assert(r@.take(head@.len() as int) =~= head@);
        r
    }
}

/// The value that the conversion writes into a waypoint's `<type>`: the
/// translation of its `<sym>` and `<type>` texts.
pub open spec fn written_value(es: Seq<EventView>, target: Vendor) -> Seq<char> {
    translation_of(child_text(es, "sym"@)->0, child_text(es, "type"@)->0, target).value
}

/// A waypoint after conversion, with the report that counts it: `<type>`
/// holds the translation of its `<sym>` and `<type>` texts. `None` when one
/// of those texts cannot be unescaped.
pub open spec fn converted_waypoint(es: Seq<EventView>, target: Vendor, rep: ReportView) -> Option<
    (Seq<EventView>, ReportView),
> {
    match (child_text(es, "sym"@), child_text(es, "type"@)) {
        (Some(symbol), Some(poi_type)) => {
            let t = translation_of(symbol, poi_type, target);
            Some((with_child_value(es, "type"@, t.value), record(rep, t.source, t.used_fallback)))
        },
        _ => None,
    }
}

fn as_opt_str(o: &Option<String>) -> (r: Option<&str>)
    ensures
        opt_str_view(r) == opt_string_view(*o),
{
    match o {
        Some(s) => Some(s.as_str()),
        None => None,
    }
}

/// Converts one waypoint and counts it in `report` (see
/// [`converted_waypoint`]).
pub fn convert_waypoint(events: Vec<XmlEvent>, target: Vendor, report: &mut ConversionReport) -> (r:
    Result<Vec<XmlEvent>, ConversionError>)
    requires
        events@.len() >= 1,
        report_wf(old(report)@),
        old(report).waypoints < usize::MAX,
    ensures
        report_wf(final(report)@),
        match r {
            Ok(v) => converted_waypoint(events_view(events@), target, old(report)@) == Some(
                (events_view(v@), final(report)@),
            ),
            Err(e) => {
                &&& converted_waypoint(events_view(events@), target, old(report)@) is None
                &&& e is InvalidText
                &&& final(report)@ == old(report)@
            },
        },
        r is Ok ==> xml_unescape(escaped(written_value(events_view(events@), target))) == Some(
            written_value(events_view(events@), target),
        ),
{
    let symbol = match direct_child_text(&events, "sym") {
        Ok(s) => s,
        Err(e) => return Err(ConversionError::InvalidText(e)),
    };
    let poi_type = match direct_child_text(&events, target.element()) {
        Ok(s) => s,
        Err(e) => return Err(ConversionError::InvalidText(e)),
    };
    let translation = translate(as_opt_str(&symbol), as_opt_str(&poi_type), target);
    record_waypoint(report, translation.source, translation.used_fallback);
    let mut events = events;
    replace_or_insert_direct_child(&mut events, target.element(), translation.value);
    Ok(events)
}

/// The outcome of converting a document.
pub enum Outcome {
    /// The converted document and the report.
    Converted(Seq<char>, ReportView),
    /// The document is not well-formed, or a waypoint is not closed.
    InvalidXml,
    /// A `<sym>` or `<type>` text cannot be unescaped.
    InvalidText,
}

/// The index just past the end event that closes the element open at
/// `j` with `nested` elements open; `None` when the events (or an `Eof`
/// event) end first.
pub open spec fn matching_end(es: Seq<EventView>, j: nat, nested: nat) -> Option<nat>
    decreases es.len() - j,
{
    if nested == 0 {
        Some(j)
    } else if j >= es.len() {
        None
    } else {
        match es[j as int] {
            EventView::Start(..) => matching_end(es, j + 1, nested + 1),
            EventView::End(_) => matching_end(es, j + 1, (nested - 1) as nat),
            EventView::Eof => None,
            _ => matching_end(es, j + 1, nested),
        }
    }
}

/// The end that closes an element lies after where the scan started and
/// within the events.
pub proof fn lemma_matching_end_bounds(es: Seq<EventView>, j: nat, nested: nat)
    requires
        j <= es.len(),
    ensures
        matching_end(es, j, nested) matches Some(e) ==> j <= e <= es.len() && (nested > 0 ==> j
            < e),
    decreases es.len() - j,
{
    if nested > 0 && j < es.len() {
        match es[j as int] {
            EventView::Start(..) => lemma_matching_end_bounds(es, j + 1, nested + 1),
            EventView::End(_) => lemma_matching_end_bounds(es, j + 1, (nested - 1) as nat),
            EventView::Eof => {},
            _ => lemma_matching_end_bounds(es, j + 1, nested),
        }
    }
}

/// Whether an event starts (or is) a waypoint at the top of the document
/// (`depth` 1: a child of the root element).
pub open spec fn is_top_waypoint(n: Seq<char>, depth: nat) -> bool {
    depth == 1 && local_name(n) == "wpt"@
}

/// The conversion of the document whose events are `tokens`, from event
/// `i` on, with `depth` elements open, `out` written so far and report
/// `rep`. `complete` tells whether the events reached the end of the
/// document (else the reader failed after them). A top-level waypoint is
/// read up to its end and converted (see [`converted_waypoint`]); a
/// self-closing one is converted as a start and an end; every other event
/// is written as it came. An `Eof` event ends the document.
pub open spec fn convert_from(
    tokens: Seq<EventView>,
    complete: bool,
    target: Vendor,
    i: nat,
    depth: nat,
    out: Seq<char>,
    rep: ReportView,
) -> Outcome
    decreases tokens.len() - i,
{
    if i >= tokens.len() {
        if complete {
            Outcome::Converted(out, rep)
        } else {
            Outcome::InvalidXml
        }
    } else {
        let tok = tokens[i as int];
        match tok {
            EventView::Start(n) => if is_top_waypoint(tag_name(n), depth) {
                match matching_end(tokens, i + 1, 1) {
                    None => Outcome::InvalidXml,
                    Some(e) => {
                        proof {
                            lemma_matching_end_bounds(tokens, i + 1, 1);
                        }
                        match converted_waypoint(tokens.subrange(i as int, e as int), target, rep) {
                            None => Outcome::InvalidText,
                            Some((w, rep2)) => convert_from(
                                tokens,
                                complete,
                                target,
                                e,
                                depth,
                                out + markup_all(w),
                                rep2,
                            ),
                        }
                    },
                }
            } else {
                convert_from(tokens, complete, target, i + 1, depth + 1, out + markup(tok), rep)
            },
            EventView::Empty(c) => if is_top_waypoint(tag_name(c), depth) {
                match converted_waypoint(
                    seq![EventView::Start(c), EventView::End(tag_name(c))],
                    target,
                    rep,
                ) {
                    None => Outcome::InvalidText,
                    Some((w, rep2)) => convert_from(
                        tokens,
                        complete,
                        target,
                        i + 1,
                        depth,
                        out + markup_all(w),
                        rep2,
                    ),
                }
            } else {
                convert_from(tokens, complete, target, i + 1, depth, out + markup(tok), rep)
            },
            EventView::End(_) => convert_from(
                tokens,
                complete,
                target,
                i + 1,
                up(depth),
                out + markup(tok),
                rep,
            ),
            EventView::Eof => Outcome::Converted(out, rep),
            _ => convert_from(tokens, complete, target, i + 1, depth, out + markup(tok), rep),
        }
    }
}

/// The conversion of a whole document (see [`convert_from`]).
pub open spec fn conversion(tokens: Seq<EventView>, complete: bool, target: Vendor) -> Outcome {
    convert_from(tokens, complete, target, 0, 0, seq![], empty_report())
}

/// Where an element closes: just past an end event, with no end of the
/// document before it.
pub proof fn lemma_matching_end_last(es: Seq<EventView>, j: nat, nested: nat)
    requires
        nested > 0,
    ensures
        matching_end(es, j, nested) matches Some(e) ==> j < e <= es.len() && es[e - 1] is End
            && forall|k: int| j <= k < e ==> es[k] !is Eof,
    decreases es.len() - j,
{
    if j < es.len() {
        match es[j as int] {
            EventView::Start(..) => lemma_matching_end_last(es, j + 1, nested + 1),
            EventView::End(_) => {
                if nested > 1 {
                    lemma_matching_end_last(es, j + 1, (nested - 1) as nat);
                } else {
                    assert(matching_end(es, j + 1, 0) == Some(j + 1));
                }
            },
            EventView::Eof => {},
            _ => lemma_matching_end_last(es, j + 1, nested),
        }
    }
}

/// The index just past the end of the element whose start is at `from - 1`
/// (see [`matching_end`]).
pub fn element_close(tokens: &Vec<XmlEvent>, from: usize) -> (r: Option<usize>)
    requires
        1 <= from <= tokens@.len(),
    ensures
        opt_nat(r) == matching_end(events_view(tokens@), from as nat, 1),
        r matches Some(e) ==> from < e <= tokens@.len() && events_view(tokens@)[e - 1] is End
            && forall|k: int| from <= k < e ==> events_view(tokens@)[k] !is Eof,
{
    let ghost es = events_view(tokens@);
    proof {
        lemma_matching_end_bounds(es, from as nat, 1);
        lemma_matching_end_last(es, from as nat, 1);
    }
    let mut nested: usize = 1;
    let mut j: usize = from;
    while nested > 0
        invariant
            es == events_view(tokens@),
            1 <= from <= j,
            nested <= j - from + 1,
            nested == 0 ==> from < j <= tokens@.len(),
            matching_end(es, from as nat, 1) == matching_end(es, j as nat, nested as nat),
        decreases tokens@.len() - j + 1, nested,
    {
        if j >= tokens.len() {
            return None;
        }
        assert(es[j as int] == tokens@[j as int]@);
        match &tokens[j] {
            XmlEvent::Start(..) => nested += 1,
            XmlEvent::End(_) => nested -= 1,
            XmlEvent::Eof => return None,
            _ => {},
        }
        j += 1;
    }
    Some(j)
}

/// Appends to `out` the markup of `events`, one after the other.
pub fn append_markup(out: &mut String, events: &Vec<XmlEvent>)
    ensures
        final(out)@ == old(out)@ + markup_all(events_view(events@)),
{
    let ghost es = events_view(events@);
    let mut i: usize = 0;
    while i < events.len()
        invariant
            es == events_view(events@),
            0 <= i <= events@.len(),
            out@ == old(out)@ + markup_all(es.take(i as int)),
        decreases events.len() - i,
    {
        let m = event_markup(&events[i]);
        proof {
            assert(es.take(i + 1).drop_last() =~= es.take(i as int));
        }
        out.append(m.as_str());
        i += 1;
    }
    assert(es.take(events@.len() as int) =~= es);
}

/// `tokens[from..to]`, copied.
fn copy_range(tokens: &Vec<XmlEvent>, from: usize, to: usize) -> (r: Vec<XmlEvent>)
    requires
        from <= to <= tokens@.len(),
    ensures
        events_view(r@) == events_view(tokens@).subrange(from as int, to as int),
{
    let ghost es = events_view(tokens@);
    let mut r: Vec<XmlEvent> = Vec::new();
    let mut j: usize = from;
    while j < to
        invariant
            from <= j <= to <= tokens@.len(),
            es == events_view(tokens@),
            events_view(r@) == es.subrange(from as int, j as int),
        decreases to - j,
    {
        let e = copy_event(&tokens[j]);
        proof {
            lemma_events_view_push(r@, e);
            assert(es.subrange(from as int, j + 1) =~= es.subrange(from as int, j as int).push(
                es[j as int],
            ));
        }
        r.push(e);
        j += 1;
    }
    r
}

/// Calls the constructor of `quick_xml`'s ill-formedness error for an
/// element that is not closed. Nothing is promised of the value.
#[verifier::external_body]
fn missing_end_tag(name: &str) -> (r: quick_xml::Error) {
    quick_xml::Error::IllFormed(quick_xml::errors::IllFormedError::MissingEndTag(name.to_string()))
}

/// Converts the document whose events are `tokens`; `failure` is the
/// reader's error when reading stopped before the end of the document (see
/// [`conversion`]). A document that is not well-formed is refused with
/// that error when there is one.
pub fn convert_events(tokens: &Vec<XmlEvent>, failure: Option<quick_xml::Error>, target: Vendor) -> (r:
    Result<(String, ConversionReport), ConversionError>)
    ensures
        match r {
            Ok((out, report)) => conversion(events_view(tokens@), failure is None, target)
                == Outcome::Converted(out@, report@),
            Err(ConversionError::InvalidXml(_)) => conversion(
                events_view(tokens@),
                failure is None,
                target,
            ) == Outcome::InvalidXml,
            Err(ConversionError::InvalidText(_)) => conversion(
                events_view(tokens@),
                failure is None,
                target,
            ) == Outcome::InvalidText,
        },
        failure is Some ==> (r matches Err(ConversionError::InvalidXml(e)) ==> e == failure->0),
{
    let ghost es = events_view(tokens@);
    let ghost complete = failure is None;
    let mut out = String::new();
    let mut report = ConversionReport::default();
    let mut depth: usize = 0;
    let mut i: usize = 0;
    assert(out@ =~= seq![]);
    while i < tokens.len()
        invariant
            es == events_view(tokens@),
            complete == (failure is None),
            i <= tokens@.len(),
            depth <= i,
            report.waypoints <= i,
            report_wf(report@),
            conversion(es, complete, target) == convert_from(
                es,
                complete,
                target,
                i as nat,
                depth as nat,
                out@,
                report@,
            ),
        decreases tokens.len() - i,
    {
        assert(es[i as int] == tokens@[i as int]@);
        match &tokens[i] {
            XmlEvent::Start(n) => {
                if depth == 1 && has_local_name(n, "wpt") {
                    let e = match element_close(tokens, i + 1) {
                        Some(e) => e,
                        None => {
                            let err = match failure {
                                Some(f) => f,
                                None => missing_end_tag("wpt"),
                            };
                            return Err(ConversionError::InvalidXml(err));
                        },
                    };
                    let waypoint = copy_range(tokens, i, e);
                    match convert_waypoint(waypoint, target, &mut report) {
                        Ok(converted) => append_markup(&mut out, &converted),
                        Err(err) => return Err(err),
                    }
                    i = e;
                    continue ;
                }
                depth += 1;
                out.append(event_markup(&tokens[i]).as_str());
            },
            XmlEvent::Empty(c) => {
                if depth == 1 && has_local_name(c, "wpt") {
                    let mut waypoint: Vec<XmlEvent> = Vec::new();
                    waypoint.push(XmlEvent::Start(c.clone()));
                    waypoint.push(XmlEvent::End(tag_name_of(c.as_str())));
                    assert(events_view(waypoint@) =~= seq![
                        EventView::Start(c@),
                        EventView::End(tag_name(c@)),
                    ]);
                    match convert_waypoint(waypoint, target, &mut report) {
                        Ok(converted) => append_markup(&mut out, &converted),
                        Err(err) => return Err(err),
                    }
                } else {
                    out.append(event_markup(&tokens[i]).as_str());
                }
            },
            XmlEvent::End(_) => {
                depth = if depth > 0 {
                    depth - 1
                } else {
                    0
                };
                out.append(event_markup(&tokens[i]).as_str());
            },
            XmlEvent::Eof => {
                return Ok((out, report));
            },
            _ => {
                out.append(event_markup(&tokens[i]).as_str());
            },
        }
        i += 1;
    }
    match failure {
        Some(f) => Err(ConversionError::InvalidXml(f)),
        None => Ok((out, report)),
    }
}

/// The events of the document `input` from the reader's call number `k`
/// on, up to (not including) the end of the document, and whether the end
/// was reached (`false` when the reader failed first). Every event but the
/// end consumes a character of the document, so no more events than
/// characters come before the end; the last branch is never taken.
pub open spec fn document_tokens(input: Seq<char>, k: nat) -> (Seq<EventView>, bool)
    decreases input.len() - k,
{
    match xml_token(input, k) {
        None => (seq![], false),
        Some(EventView::Eof) => (seq![], true),
        Some(e) => if k < input.len() {
            let rest = document_tokens(input, k + 1);
            (seq![e] + rest.0, rest.1)
        } else {
            (seq![], true)
        },
    }
}

/// Reads every event of `input` up to the end of the document (see
/// [`document_tokens`]); the reader's error when it fails first.
pub fn read_document(input: &str) -> (r: (Vec<XmlEvent>, Option<quick_xml::Error>))
    ensures
        (events_view(r.0@), r.1 is None) == document_tokens(input@, 0),
{
    let mut cursor = open_document(input);
    let mut tokens: Vec<XmlEvent> = Vec::new();
    assert(events_view(tokens@) + document_tokens(input@, 0).0 =~= document_tokens(input@, 0).0);
    loop
        invariant
            cursor@.0 == input@,
            cursor@.1 <= input@.len(),
            events_view(tokens@) + document_tokens(input@, cursor@.1).0 == document_tokens(input@, 0).0,
            document_tokens(input@, cursor@.1).1 == document_tokens(input@, 0).1,
        decreases input@.len() - cursor@.1,
    {
        match next_event(cursor) {
            Err(e) => {
                assert(events_view(tokens@) =~= document_tokens(input@, 0).0);
                return (tokens, Some(e));
            },
            Ok((XmlEvent::Eof, _)) => {
                assert(events_view(tokens@) =~= document_tokens(input@, 0).0);
                return (tokens, None);
            },
            Ok((event, next)) => {
                let ghost k = cursor@.1;
                proof {
                    lemma_events_view_push(tokens@, event);
                    assert(events_view(tokens@.push(event)) + document_tokens(input@, k + 1).0
                        =~= events_view(tokens@) + document_tokens(input@, k).0);
                }
                tokens.push(event);
                cursor = next;
            },
        }
    }
}

/// Converts the waypoints of the GPX document `input` for `target`: every
/// waypoint (`wpt`) that is a child of the root element gets in `<type>`
/// the value of the target vendor for its `<sym>` or `<type>` (see
/// [`converted_waypoint`]); everything else is written back as it was read.
/// Returns the converted document and the report (see [`conversion`] over
/// the document's events, [`document_tokens`]).
pub fn convert_gpx(input: &str, target: Vendor) -> (r: Result<
    (String, ConversionReport),
    ConversionError,
>)
    ensures
        ({
            let (tokens, complete) = document_tokens(input@, 0);
            match r {
                Ok((out, report)) => conversion(tokens, complete, target) == Outcome::Converted(
                    out@,
                    report@,
                ),
                Err(ConversionError::InvalidXml(_)) => conversion(tokens, complete, target)
                    == Outcome::InvalidXml,
                Err(ConversionError::InvalidText(_)) => conversion(tokens, complete, target)
                    == Outcome::InvalidText,
            }
        }),
{
    let (tokens, failure) = read_document(input);
    convert_events(&tokens, failure, target)
}

} // verus!
