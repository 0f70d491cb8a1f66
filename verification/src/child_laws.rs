//! Laws of giving a waypoint's child a value: doing it twice changes
//! nothing after the first time, and the waypoint's children stay in the
//! order that the GPX schema prescribes.
use vstd::prelude::*;

use crate::gpx::{
    between_separator, child_position, child_text, child_text_scan, child_qname, element_end, insertion_index, inserted_child,
    matching_end, rank, rank_from, schema_position, schema_scan, trailing_separator, up,
    waypoint_children, whitespace_text, with_child_value,
};
use crate::xml::{
    escaped, xml_unescape, first_index, is_xml_space, last_index, lemma_first_index, lemma_last_index, lemma_name_len,
    local_name, name_len, tag_name, EventView,
};

verus! {

/// The number of elements open below a waypoint before its event `i`, as
/// the scans of its children count them (from event 1 on).
pub open spec fn depth_in(es: Seq<EventView>, i: nat) -> nat
    decreases i,
{
    if i <= 1 {
        0
    } else {
        let d = depth_in(es, (i - 1) as nat);
        match es[i - 1] {
            EventView::Start(_) => d + 1,
            EventView::End(_) => up(d),
            _ => d,
        }
    }
}

/// Whether event `k` of a waypoint is a child named `wanted` at its top.
pub open spec fn child_at(es: Seq<EventView>, wanted: Seq<char>, k: int) -> bool {
    &&& depth_in(es, k as nat) == 0
    &&& match es[k] {
        EventView::Start(n) => local_name(tag_name(n)) == wanted,
        EventView::Empty(n) => local_name(tag_name(n)) == wanted,
        _ => false,
    }
}

/// [`child_position`] finds the first child named `wanted` at the top
/// from event `j` on, not looking at the last event.
pub proof fn lemma_child_position(es: Seq<EventView>, wanted: Seq<char>, j: nat)
    requires
        1 <= j,
    ensures
        match child_position(es, wanted, j, depth_in(es, j)) {
            Some(k) => {
                &&& j <= k
                &&& k + 1 < es.len()
                &&& child_at(es, wanted, k as int)
                &&& forall|m: int| j <= m < k ==> !child_at(es, wanted, m)
            },
            None => forall|m: int| j <= m && m + 1 < es.len() ==> !child_at(es, wanted, m),
        },
    decreases es.len() - j,
{
    if j + 1 < es.len() {
        assert(depth_in(es, j + 1) == match es[j as int] {
            EventView::Start(_) => depth_in(es, j) + 1,
            EventView::End(_) => up(depth_in(es, j)),
            _ => depth_in(es, j),
        });
        lemma_child_position(es, wanted, j + 1);
    }
}

/// Two waypoints that agree before event `i` have the same depth there.
proof fn lemma_depth_prefix(es: Seq<EventView>, r: Seq<EventView>, i: nat)
    requires
        i <= es.len(),
        i <= r.len(),
        forall|k: int| 0 <= k < i ==> r[k] == es[k],
    ensures
        depth_in(r, i) == depth_in(es, i),
    decreases i,
{
    if i > 1 {
        lemma_depth_prefix(es, r, (i - 1) as nat);
    }
}

/// The first child named `wanted` at the top, before the last event, is
/// what [`child_position`] finds.
proof fn lemma_position_is(r: Seq<EventView>, wanted: Seq<char>, k: int)
    requires
        1 <= k,
        k + 1 < r.len(),
        child_at(r, wanted, k),
        forall|m: int| 1 <= m < k ==> !child_at(r, wanted, m),
    ensures
        child_position(r, wanted, 1, 0) == Some(k as nat),
{
    lemma_child_position(r, wanted, 1);
    assert(depth_in(r, 1) == 0);
}

/// In a waypoint whose start is closed by its last event, every event but
/// the last has elements still open: the count that [`matching_end`] keeps
/// is one more than the depth.
proof fn lemma_balanced_from(es: Seq<EventView>, j: nat)
    requires
        matching_end(es, 1, 1) == Some(es.len()),
        1 <= j < es.len(),
    ensures
        matching_end(es, j, depth_in(es, j) + 1) == Some(es.len()),
    decreases j,
{
    if j > 1 {
        let p = (j - 1) as nat;
        lemma_balanced_from(es, p);
        let d = depth_in(es, p);
        match es[p as int] {
            EventView::End(_) => {
                if d == 0 {
                    assert(matching_end(es, j, 0) == Some(j));
                }
            },
            _ => {},
        }
    }
}

/// In a waypoint whose start is closed by its last event, no element is
/// open below the waypoint just before that event.
proof fn lemma_balanced_end(es: Seq<EventView>)
    requires
        es.len() >= 2,
        matching_end(es, 1, 1) == Some(es.len()),
    ensures
        depth_in(es, (es.len() - 1) as nat) == 0,
        es[es.len() - 1] is End,
{
    let last = (es.len() - 1) as nat;
    lemma_balanced_from(es, last);
    let d = depth_in(es, last);
    match es[last as int] {
        EventView::Start(..) => {
            assert(matching_end(es, es.len(), d + 2) is None);
        },
        EventView::End(_) => {
            if d > 0 {
                assert(matching_end(es, es.len(), d) is None);
            }
        },
        EventView::Eof => {},
        _ => {
            assert(matching_end(es, es.len(), d + 1) is None);
        },
    }
}

/// The events scanned after `j` until an element opened before `j` with
/// `nested` levels closes: the scan ends just past an end event, or at the
/// end of the events.
pub proof fn lemma_element_end_last(es: Seq<EventView>, j: nat, nested: nat)
    requires
        nested > 0,
        j < es.len(),
    ensures
        j < element_end(es, j, nested) <= es.len(),
        element_end(es, j, nested) < es.len() ==> es[element_end(es, j, nested) - 1] is End,
    decreases es.len() - j,
{
    let n: nat = match es[j as int] {
        EventView::Start(..) => nested + 1,
        EventView::End(_) => (nested - 1) as nat,
        _ => nested,
    };
    assert(element_end(es, j, nested) == element_end(es, j + 1, n));
    if n == 0 || j + 1 >= es.len() {
        assert(element_end(es, j + 1, n) == j + 1);
    } else {
        lemma_element_end_last(es, j + 1, n);
    }
}

/// A text without XML white space is its own first word.
proof fn lemma_name_whole(s: Seq<char>)
    requires
        forall|j: int| 0 <= j < s.len() ==> !is_xml_space(#[trigger] s[j]),
    ensures
        name_len(s) == s.len(),
        tag_name(s) == s,
    decreases s.len(),
{
    if s.len() > 0 {
        assert forall|j: int| 0 <= j < s.drop_first().len() implies !is_xml_space(
            #[trigger] s.drop_first()[j],
        ) by {
            assert(s.drop_first()[j] == s[j + 1]);
        }
        lemma_name_whole(s.drop_first());
    }
    assert(s.take(s.len() as int) =~= s);
}

/// The name of a tag has no XML white space.
proof fn lemma_tag_name_plain(c: Seq<char>)
    ensures
        forall|j: int| 0 <= j < tag_name(c).len() ==> !is_xml_space(#[trigger] tag_name(c)[j]),
        tag_name(tag_name(c)) == tag_name(c),
{
    lemma_name_len(c);
    assert forall|j: int| 0 <= j < tag_name(c).len() implies !is_xml_space(
        #[trigger] tag_name(c)[j],
    ) by {
        assert(tag_name(c)[j] == c[j]);
    }
    lemma_name_whole(tag_name(c));
}

/// The name given to a new child named `wanted` (without `:` or white
/// space) is a plain name whose local part is `wanted`, or else holds a `:`
/// (when the waypoint's own name has more than one); the first when the
/// waypoint's name has at most one `:`.
proof fn lemma_child_qname(c0: Seq<char>, wanted: Seq<char>)
    requires
        !wanted.contains(':'),
        forall|j: int| 0 <= j < wanted.len() ==> !is_xml_space(#[trigger] wanted[j]),
    ensures
        tag_name(child_qname(EventView::Start(c0), wanted)) == child_qname(
            EventView::Start(c0),
            wanted,
        ),
        local_name(child_qname(EventView::Start(c0), wanted)) == wanted || local_name(
            child_qname(EventView::Start(c0), wanted),
        ).contains(':'),
        first_index(tag_name(c0), ':') == last_index(tag_name(c0), ':') ==> local_name(
            child_qname(EventView::Start(c0), wanted),
        ) == wanted,
{
    let n = tag_name(c0);
    let q = child_qname(EventView::Start(c0), wanted);
    lemma_tag_name_plain(c0);
    lemma_first_index(n, ':');
    lemma_last_index(n, ':');
    lemma_first_index(q, ':');
    reveal_strlit(":");
    match last_index(n, ':') {
        Some(k) => {
            assert(q == n.take(k) + ":"@ + wanted);
            assert forall|j: int| 0 <= j < q.len() implies !is_xml_space(#[trigger] q[j]) by {
                if j < k {
                    assert(q[j] == n[j]);
                } else if j > k {
                    assert(q[j] == wanted[j - k - 1]);
                }
            }
            lemma_name_whole(q);
            assert(q[k] == ':');
            let f = first_index(q, ':')->0;
            assert(f <= k);
            if f == k {
                assert(q.skip(k + 1) =~= wanted);
            } else {
                assert(q.skip(f + 1)[k - f - 1] == ':');
            }
            if first_index(n, ':') == last_index(n, ':') {
                assert forall|j: int| 0 <= j < k implies q[j] != ':' by {
                    assert(q[j] == n[j]);
                }
                assert(f == k);
            }
        },
        None => {
            lemma_name_whole(wanted);
            assert(first_index(wanted, ':') is None);
        },
    }
}

/// A name whose local part has no `:` has at most one `:`.
pub proof fn lemma_local_name_single_prefix(n: Seq<char>, local: Seq<char>)
    requires
        local_name(n) == local,
        !local.contains(':'),
    ensures
        first_index(n, ':') == last_index(n, ':'),
{
    lemma_first_index(n, ':');
    lemma_last_index(n, ':');
    if let Some(f) = first_index(n, ':') {
        assert forall|j: int| f < j < n.len() implies n[j] != ':' by {
            assert(n.skip(f + 1)[j - f - 1] == n[j]);
        }
    }
}

proof fn lemma_rank_from_found(name: Seq<char>, from: nat)
    ensures
        rank_from(name, from) matches Some(k) ==> from <= k < waypoint_children().len() && name
            == waypoint_children()[k as int],
    decreases waypoint_children().len() - from,
{
    if from < waypoint_children().len() {
        lemma_rank_from_found(name, from + 1);
    }
}

/// A name with a `:` is no child of a GPX waypoint.
proof fn lemma_colon_name_unranked(name: Seq<char>)
    requires
        name.contains(':'),
    ensures
        rank(name) is None,
{
    lemma_rank_from_found(name, 0);
    reveal_strlit("ele");
    reveal_strlit("time");
    reveal_strlit("magvar");
    reveal_strlit("geoidheight");
    reveal_strlit("name");
    reveal_strlit("cmt");
    reveal_strlit("desc");
    reveal_strlit("src");
    reveal_strlit("link");
    reveal_strlit("sym");
    reveal_strlit("type");
    reveal_strlit("fix");
    reveal_strlit("sat");
    reveal_strlit("hdop");
    reveal_strlit("vdop");
    reveal_strlit("pdop");
    reveal_strlit("ageofdgpsdata");
    reveal_strlit("dgpsid");
    reveal_strlit("extensions");
}

/// A waypoint as the conversion reads it: its start, then the events up to
/// the end event that closes it, which is the last.
pub open spec fn closed_waypoint(es: Seq<EventView>) -> bool {
    &&& es.len() >= 2
    &&& es[0] is Start
    &&& matching_end(es, 1, 1) == Some(es.len())
}

/// Where a new child is inserted, no element is open below the waypoint,
/// and the waypoint's start and end stay around it.
proof fn lemma_insertion_at_top(es: Seq<EventView>, wanted: Seq<char>)
    requires
        closed_waypoint(es),
    ensures
        1 <= insertion_index(es, wanted) <= es.len() - 1,
        depth_in(es, insertion_index(es, wanted) as nat) == 0,
{
    let closing = es.len() - 1;
    lemma_balanced_end(es);
    match rank(wanted) {
        Some(rk) => {
            lemma_schema_scan_first(es, rk, 1);
            assert(depth_in(es, 1) == 0);
        },
        None => {},
    }
    if schema_position(es, wanted) is None {
        if whitespace_text(es[closing - 1]) is Some {
            assert(closing - 1 != 0);
            assert(depth_in(es, closing as nat) == depth_in(es, (closing - 1) as nat));
        }
    }
}

/// Whether the end of every child named `wanted` at the top of a waypoint
/// names that child, as the reader checks of every end tag.
pub open spec fn child_ends_named(es: Seq<EventView>, wanted: Seq<char>) -> bool {
    forall|i: int|
        1 <= i && i + 1 < es.len() && #[trigger] child_at(es, wanted, i) && es[i] is Start
            ==> (es[element_end(es, (i + 1) as nat, 1) - 1] matches EventView::End(m)
            && local_name(m) == wanted)
}

/// Before the first child named `wanted`, reading that child's text only
/// counts the depth.
proof fn lemma_scan_skip(r: Seq<EventView>, wanted: Seq<char>, j: nat, p: nat)
    requires
        1 <= j <= p < r.len(),
        forall|m: int| j <= m < p ==> !child_at(r, wanted, m),
    ensures
        child_text_scan(r, wanted, j, depth_in(r, j), false, seq![]) == child_text_scan(
            r,
            wanted,
            p,
            depth_in(r, p),
            false,
            seq![],
        ),
    decreases p - j,
{
    if j < p {
        assert(!child_at(r, wanted, j as int));
        assert(depth_in(r, j + 1) == match r[j as int] {
            EventView::Start(_) => depth_in(r, j) + 1,
            EventView::End(_) => up(depth_in(r, j)),
            _ => depth_in(r, j),
        });
        lemma_scan_skip(r, wanted, j + 1, p);
    }
}

/// The text of a child found at `p` whose content is one text, followed by
/// an end naming it, is that text unescaped.
proof fn lemma_reads_at(r: Seq<EventView>, wanted: Seq<char>, p: int, value: Seq<char>)
    requires
        1 <= p,
        p + 2 < r.len(),
        child_position(r, wanted, 1, 0) == Some(p as nat),
        r[p] is Start,
        r[p + 1] matches EventView::Text(t) && xml_unescape(t) == Some(value),
        r[p + 2] matches EventView::End(m) && local_name(m) == wanted,
    ensures
        child_text(r, wanted) == Some(Some(value)),
{
    lemma_child_position(r, wanted, 1);
    assert(depth_in(r, 1) == 0);
    lemma_scan_skip(r, wanted, 1, p as nat);
    assert(child_at(r, wanted, p));
    assert(seq![] + value =~= value);
    assert(child_text_scan(r, wanted, p as nat, 0, false, seq![]) == child_text_scan(
        r,
        wanted,
        (p + 1) as nat,
        1,
        true,
        seq![],
    ));
    assert(child_text_scan(r, wanted, (p + 1) as nat, 1, true, seq![]) == child_text_scan(
        r,
        wanted,
        (p + 2) as nat,
        1,
        true,
        value,
    ));
}

/// The second time, a child that was replaced is found again and keeps
/// its value.
proof fn lemma_replaced_child_stays(es: Seq<EventView>, wanted: Seq<char>, value: Seq<char>, i: int)
    requires
        1 <= i,
        i + 1 < es.len(),
        child_position(es, wanted, 1, 0) == Some(i as nat),
        es[i] is Start,
    ensures
        with_child_value(with_child_value(es, wanted, value), wanted, value) == with_child_value(
            es,
            wanted,
            value,
        ),
        child_ends_named(es, wanted) && xml_unescape(escaped(value)) == Some(value) ==> child_text(
            with_child_value(es, wanted, value),
            wanted,
        ) == Some(Some(value)),
{
    let r = with_child_value(es, wanted, value);
    let text = EventView::Text(escaped(value));
    lemma_child_position(es, wanted, 1);
    assert(depth_in(es, 1) == 0);
    let e = element_end(es, (i + 1) as nat, 1);
    lemma_element_end_last(es, (i + 1) as nat, 1);
    let x = es[e - 1];
    assert(r == es.take(i + 1) + seq![text, x] + es.skip(e as int));
    assert forall|k: int| 0 <= k <= i implies r[k] == es[k] by {}
    assert forall|m: int| 1 <= m < i implies !child_at(r, wanted, m) by {
        assert(!child_at(es, wanted, m));
        lemma_depth_prefix(es, r, m as nat);
    }
    lemma_depth_prefix(es, r, i as nat);
    lemma_position_is(r, wanted, i);
    assert(element_end(r, (i + 1) as nat, 1) == i + 3) by {
        assert(element_end(r, (i + 1) as nat, 1) == element_end(r, (i + 2) as nat, 1));
        if x is End {
            assert(element_end(r, (i + 2) as nat, 1) == element_end(r, (i + 3) as nat, 0));
        } else {
            assert(e == es.len());
            assert(r.len() == i + 3);
            let n: nat = if x is Start {
                2
            } else {
                1
            };
            assert(element_end(r, (i + 2) as nat, 1) == element_end(r, (i + 3) as nat, n));
        }
    }
    if child_ends_named(es, wanted) && xml_unescape(escaped(value)) == Some(value) {
        assert(child_at(es, wanted, i));
        lemma_reads_at(r, wanted, i, value);
    }
    assert(with_child_value(r, wanted, value) =~= r);
}

/// The second time, a self-closing child that was expanded is found again
/// and keeps its value.
proof fn lemma_expanded_child_stays(es: Seq<EventView>, wanted: Seq<char>, value: Seq<char>, i: int)
    requires
        1 <= i,
        i + 1 < es.len(),
        child_position(es, wanted, 1, 0) == Some(i as nat),
        es[i] is Empty,
    ensures
        with_child_value(with_child_value(es, wanted, value), wanted, value) == with_child_value(
            es,
            wanted,
            value,
        ),
        xml_unescape(escaped(value)) == Some(value) ==> child_text(
            with_child_value(es, wanted, value),
            wanted,
        ) == Some(Some(value)),
{
    let r = with_child_value(es, wanted, value);
    let text = EventView::Text(escaped(value));
    lemma_child_position(es, wanted, 1);
    assert(depth_in(es, 1) == 0);
    let c = es[i]->Empty_0;
    let tn = tag_name(c);
    assert(r == es.take(i) + seq![EventView::Start(tn), text, EventView::End(tn)] + es.skip(i + 1));
    assert forall|k: int| 0 <= k < i implies r[k] == es[k] by {}
    assert forall|m: int| 1 <= m < i implies !child_at(r, wanted, m) by {
        assert(!child_at(es, wanted, m));
        lemma_depth_prefix(es, r, m as nat);
    }
    lemma_depth_prefix(es, r, i as nat);
    lemma_tag_name_plain(c);
    lemma_position_is(r, wanted, i);
    assert(element_end(r, (i + 1) as nat, 1) == i + 3) by {
        assert(element_end(r, (i + 1) as nat, 1) == element_end(r, (i + 2) as nat, 1));
        assert(element_end(r, (i + 2) as nat, 1) == element_end(r, (i + 3) as nat, 0));
    }
    if xml_unescape(escaped(value)) == Some(value) {
        assert(child_at(es, wanted, i));
        lemma_reads_at(r, wanted, i, value);
    }
    assert(with_child_value(r, wanted, value) =~= r);
}

/// The second time, a child that was inserted is found and keeps its value.
proof fn lemma_inserted_child_stays(es: Seq<EventView>, wanted: Seq<char>, value: Seq<char>)
    requires
        closed_waypoint(es),
        !wanted.contains(':'),
        forall|j: int| 0 <= j < wanted.len() ==> !is_xml_space(#[trigger] wanted[j]),
        es[0] matches EventView::Start(c0) && first_index(tag_name(c0), ':') == last_index(
            tag_name(c0),
            ':',
        ),
        child_position(es, wanted, 1, 0) is None,
    ensures
        with_child_value(with_child_value(es, wanted, value), wanted, value) == with_child_value(
            es,
            wanted,
            value,
        ),
        xml_unescape(escaped(value)) == Some(value) ==> child_text(
            with_child_value(es, wanted, value),
            wanted,
        ) == Some(Some(value)),
{
    let r = with_child_value(es, wanted, value);
    let text = EventView::Text(escaped(value));
    lemma_child_position(es, wanted, 1);
    assert(depth_in(es, 1) == 0);
    let at = insertion_index(es, wanted);
    lemma_insertion_at_top(es, wanted);
    let c0 = es[0]->Start_0;
    let q = child_qname(es[0], wanted);
    lemma_child_qname(c0, wanted);
    let before = match trailing_separator(es, at) {
        Some(sep) => seq![EventView::Text(escaped(sep + "  "@))],
        None => seq![],
    };
    let after = match between_separator(es, at) {
        Some(sep) => seq![EventView::Text(escaped(sep))],
        None => seq![],
    };
    let p = at + before.len();
    assert(inserted_child(es, wanted, value) == before + seq![
        EventView::Start(q),
        text,
        EventView::End(q),
    ] + after);
    assert(r == es.take(at) + (before + seq![EventView::Start(q), text, EventView::End(q)] + after)
        + es.skip(at));
    assert(r[p] == EventView::Start(q));
    assert(r[p + 1] == text);
    assert(r[p + 2] == EventView::End(q));
    assert forall|k: int| 0 <= k < at implies r[k] == es[k] by {}
    lemma_depth_prefix(es, r, at as nat);
    assert forall|m: int| 1 <= m < at implies !child_at(r, wanted, m) by {
        assert(!child_at(es, wanted, m));
        lemma_depth_prefix(es, r, m as nat);
    }
    if before.len() == 1 {
        assert(r[at] is Text);
        assert(depth_in(r, p as nat) == depth_in(r, at as nat));
    }
    lemma_position_is(r, wanted, p);
    assert(element_end(r, (p + 1) as nat, 1) == p + 3) by {
        assert(element_end(r, (p + 1) as nat, 1) == element_end(r, (p + 2) as nat, 1));
        assert(element_end(r, (p + 2) as nat, 1) == element_end(r, (p + 3) as nat, 0));
    }
    if xml_unescape(escaped(value)) == Some(value) {
        lemma_reads_at(r, wanted, p, value);
    }
    assert(with_child_value(r, wanted, value) =~= r);
}

/// Giving a child of a waypoint the same value twice is giving it once,
/// and reading the child afterwards gives the value back: the second time
/// finds the child that the first time replaced, expanded or inserted, and
/// leaves it as it is; its text is the value escaped, which unescapes to the
/// value. This holds of a waypoint as read (see [`closed_waypoint`]) for a
/// child name without `:` or white space, when the waypoint's own name has
/// at most one `:` (a new child takes the waypoint's prefix); the read-back
/// also needs the end of a replaced child to name it (see
/// [`child_ends_named`]).
pub proof fn lemma_child_value_idempotent(es: Seq<EventView>, wanted: Seq<char>, value: Seq<char>)
    requires
        closed_waypoint(es),
        !wanted.contains(':'),
        forall|j: int| 0 <= j < wanted.len() ==> !is_xml_space(#[trigger] wanted[j]),
        es[0] matches EventView::Start(c0) && first_index(tag_name(c0), ':') == last_index(
            tag_name(c0),
            ':',
        ),
    ensures
        with_child_value(with_child_value(es, wanted, value), wanted, value) == with_child_value(
            es,
            wanted,
            value,
        ),
        child_ends_named(es, wanted) && xml_unescape(escaped(value)) == Some(value) ==> child_text(
            with_child_value(es, wanted, value),
            wanted,
        ) == Some(Some(value)),
{
    lemma_child_position(es, wanted, 1);
    assert(depth_in(es, 1) == 0);
    match child_position(es, wanted, 1, 0) {
        Some(i) => {
            if es[i as int] is Empty {
                lemma_expanded_child_stays(es, wanted, value, i as int);
            } else {
                assert(es[i as int] is Start);
                lemma_replaced_child_stays(es, wanted, value, i as int);
            }
        },
        None => lemma_inserted_child_stays(es, wanted, value),
    }
}

/// The schema position of the child of a waypoint at event `k`: `Some`
/// when the event starts (or is) a child at the top whose local name is a
/// GPX waypoint child.
pub open spec fn top_rank(es: Seq<EventView>, k: int) -> Option<nat> {
    if depth_in(es, k as nat) == 0 {
        match es[k] {
            EventView::Start(n) => rank(local_name(tag_name(n))),
            EventView::Empty(n) => rank(local_name(tag_name(n))),
            _ => None,
        }
    } else {
        None
    }
}

/// The children of a waypoint that GPX knows come in the order that the
/// schema prescribes (one kind may repeat).
pub open spec fn in_schema_order(es: Seq<EventView>) -> bool {
    forall|a: int, b: int|
        1 <= a < b < es.len() && #[trigger] top_rank(es, a) is Some && #[trigger] top_rank(es, b)
            is Some ==> top_rank(es, a)->0 <= top_rank(es, b)->0
}

/// Whether event `k` starts a child at the top that the schema puts after
/// the child of rank `target_rank`.
pub open spec fn ranked_above(es: Seq<EventView>, target_rank: nat, k: int) -> bool {
    top_rank(es, k) matches Some(x) && x > target_rank
}

/// [`schema_scan`] finds the first child at the top, from event `j` on,
/// that the schema puts after the child of rank `target_rank`.
pub proof fn lemma_schema_scan_first(es: Seq<EventView>, target_rank: nat, j: nat)
    requires
        1 <= j,
    ensures
        match schema_scan(es, target_rank, j, depth_in(es, j)) {
            Some(k) => {
                &&& j <= k < es.len()
                &&& ranked_above(es, target_rank, k as int)
                &&& forall|m: int| j <= m < k ==> !ranked_above(es, target_rank, m)
            },
            None => forall|m: int| j <= m < es.len() ==> !ranked_above(es, target_rank, m),
        },
    decreases es.len() - j,
{
    if j < es.len() {
        assert(depth_in(es, j + 1) == match es[j as int] {
            EventView::Start(_) => depth_in(es, j) + 1,
            EventView::End(_) => up(depth_in(es, j)),
            _ => depth_in(es, j),
        });
        lemma_schema_scan_first(es, target_rank, j + 1);
    }
}

/// Events that agree after positions `a` (of `r`) and `b` (of `es`), where
/// the depths agree, keep agreeing in depth.
proof fn lemma_depth_shift(es: Seq<EventView>, r: Seq<EventView>, a: nat, b: nat, m: nat)
    requires
        1 <= a,
        1 <= b,
        a + m <= r.len(),
        b + m <= es.len(),
        depth_in(r, a) == depth_in(es, b),
        forall|k: int| a <= k < a + m ==> #[trigger] r[k] == es[k - a + b],
    ensures
        depth_in(r, a + m) == depth_in(es, b + m),
    decreases m,
{
    if m > 0 {
        lemma_depth_shift(es, r, a, b, (m - 1) as nat);
        assert(r[a + m - 1] == es[(a + m - 1) - a + b]);
    }
}

/// Scanning an element opened at depth `nested` (counted from the
/// waypoint's top) to its end: the scan stops just past an end event that
/// brings the depth back to the top, or runs to the end of the events with
/// the element still open before the last event.
pub proof fn lemma_element_end_depth(es: Seq<EventView>, j: nat, nested: nat)
    requires
        1 <= j <= es.len(),
        nested >= 1,
        depth_in(es, j) == nested,
    ensures
        ({
            let e = element_end(es, j, nested);
            ||| (j < e <= es.len() && es[e - 1] is End && depth_in(es, e) == 0)
            ||| (e == es.len() && (j < es.len() ==> depth_in(es, (es.len() - 1) as nat) >= 1))
        }),
    decreases es.len() - j,
{
    if j < es.len() {
        let n: nat = match es[j as int] {
            EventView::Start(..) => nested + 1,
            EventView::End(_) => (nested - 1) as nat,
            _ => nested,
        };
        assert(depth_in(es, j + 1) == n);
        assert(element_end(es, j, nested) == element_end(es, j + 1, n));
        if n == 0 {
            assert(element_end(es, j + 1, n) == j + 1);
        } else {
            lemma_element_end_depth(es, j + 1, n);
        }
    }
}

/// A waypoint whose ranked children are, in order and with the same
/// ranks, ranked children of a waypoint in schema order is in schema order.
proof fn lemma_order_by_map(es: Seq<EventView>, r: Seq<EventView>, g: spec_fn(int) -> int)
    requires
        in_schema_order(es),
        forall|k: int|
            1 <= k < r.len() && #[trigger] top_rank(r, k) is Some ==> 1 <= g(k) < es.len()
                && top_rank(es, g(k)) == top_rank(r, k),
        forall|a: int, b: int|
            1 <= a < b < r.len() && #[trigger] top_rank(r, a) is Some && #[trigger] top_rank(r, b)
                is Some ==> g(a) < g(b),
    ensures
        in_schema_order(r),
{
    assert forall|a: int, b: int|
        1 <= a < b < r.len() && #[trigger] top_rank(r, a) is Some && #[trigger] top_rank(r, b)
            is Some implies top_rank(r, a)->0 <= top_rank(r, b)->0 by {
        assert(top_rank(es, g(a)) is Some);
        assert(top_rank(es, g(b)) is Some);
    }
}

/// Replacing the content of a child keeps the children in schema order.
proof fn lemma_replaced_keeps_order(es: Seq<EventView>, wanted: Seq<char>, value: Seq<char>, i: int)
    requires
        closed_waypoint(es),
        in_schema_order(es),
        1 <= i,
        i + 1 < es.len(),
        child_position(es, wanted, 1, 0) == Some(i as nat),
        es[i] is Start,
    ensures
        in_schema_order(with_child_value(es, wanted, value)),
{
    let r = with_child_value(es, wanted, value);
    let text = EventView::Text(escaped(value));
    lemma_child_position(es, wanted, 1);
    assert(depth_in(es, 1) == 0);
    assert(depth_in(es, i as nat) == 0);
    let e = element_end(es, (i + 1) as nat, 1);
    lemma_balanced_end(es);
    assert(depth_in(es, (i + 1) as nat) == 1);
    lemma_element_end_depth(es, (i + 1) as nat, 1);
    let x = es[e - 1];
    assert(r == es.take(i + 1) + seq![text, x] + es.skip(e as int));
    assert(r.len() == i + 3 + es.len() - e);
    assert forall|k: int| 0 <= k <= i implies r[k] == es[k] by {}
    lemma_depth_prefix(es, r, (i + 1) as nat);
    assert(depth_in(r, (i + 3) as nat) == 0) by {
        assert(depth_in(r, (i + 2) as nat) == depth_in(r, (i + 1) as nat));
    }
    assert forall|k: int| i + 3 <= k < r.len() implies #[trigger] r[k] == es[k - (i + 3) + e] by {}
    let g = |k: int| if k <= i {
        k
    } else {
        k - (i + 3) + e
    };
    assert forall|k: int| 1 <= k < r.len() && #[trigger] top_rank(r, k) is Some implies 1 <= g(k)
        < es.len() && top_rank(es, g(k)) == top_rank(r, k) by {
        if k <= i {
            lemma_depth_prefix(es, r, k as nat);
        } else if k >= i + 3 {
            lemma_depth_shift(es, r, (i + 3) as nat, e, (k - (i + 3)) as nat);
        } else if k == i + 1 {
            assert(r[k] == text);
        } else {
            assert(r[k] == x);
        }
    }
    lemma_order_by_map(es, r, g);
}

/// Expanding a self-closing child keeps the children in schema order.
proof fn lemma_expanded_keeps_order(es: Seq<EventView>, wanted: Seq<char>, value: Seq<char>, i: int)
    requires
        in_schema_order(es),
        1 <= i,
        i + 1 < es.len(),
        child_position(es, wanted, 1, 0) == Some(i as nat),
        es[i] is Empty,
    ensures
        in_schema_order(with_child_value(es, wanted, value)),
{
    let r = with_child_value(es, wanted, value);
    let text = EventView::Text(escaped(value));
    lemma_child_position(es, wanted, 1);
    assert(depth_in(es, 1) == 0);
    assert(depth_in(es, i as nat) == 0);
    let c = es[i]->Empty_0;
    let tn = tag_name(c);
    lemma_tag_name_plain(c);
    assert(r == es.take(i) + seq![EventView::Start(tn), text, EventView::End(tn)] + es.skip(i + 1));
    assert forall|k: int| 0 <= k < i implies r[k] == es[k] by {}
    lemma_depth_prefix(es, r, i as nat);
    assert(depth_in(r, (i + 3) as nat) == 0) by {
        assert(depth_in(r, (i + 1) as nat) == 1);
        assert(depth_in(r, (i + 2) as nat) == 1);
    }
    assert(depth_in(es, (i + 1) as nat) == 0);
    assert forall|k: int| i + 3 <= k < r.len() implies #[trigger] r[k] == es[k - (i + 3) + (i + 1)]
        by {}
    let g = |k: int| if k <= i {
        k
    } else {
        k - 2
    };
    assert forall|k: int| 1 <= k < r.len() && #[trigger] top_rank(r, k) is Some implies 1 <= g(k)
        < es.len() && top_rank(es, g(k)) == top_rank(r, k) by {
        if k < i {
            lemma_depth_prefix(es, r, k as nat);
        } else if k >= i + 3 {
            lemma_depth_shift(es, r, (i + 3) as nat, (i + 1) as nat, (k - (i + 3)) as nat);
        }
    }
    lemma_order_by_map(es, r, g);
}

/// The number of separator events inserted before a new child.
pub open spec fn separator_before(es: Seq<EventView>, at: int) -> int {
    if trailing_separator(es, at) is Some {
        1
    } else {
        0
    }
}

/// The events of a waypoint with a new child inserted: the waypoint's
/// events before the insertion point, the inserted events (where only the
/// new child's start is a child at the top, ranked as `wanted`), then the
/// rest of the waypoint's events at the same depths as before.
proof fn lemma_inserted_layout(es: Seq<EventView>, wanted: Seq<char>, value: Seq<char>)
    requires
        closed_waypoint(es),
        !wanted.contains(':'),
        forall|j: int| 0 <= j < wanted.len() ==> !is_xml_space(#[trigger] wanted[j]),
        child_position(es, wanted, 1, 0) is None,
    ensures
        ({
            let r = with_child_value(es, wanted, value);
            let at = insertion_index(es, wanted);
            let len_ins = inserted_child(es, wanted, value).len() as int;
            let p = at + separator_before(es, at);
            &&& 1 <= at <= es.len() - 1
            &&& r.len() == es.len() + len_ins
            &&& at <= p < at + len_ins
            &&& forall|k: int| 1 <= k < at ==> #[trigger] top_rank(r, k) == top_rank(es, k)
            &&& forall|k: int|
                at + len_ins <= k < r.len() ==> #[trigger] top_rank(r, k) == top_rank(
                    es,
                    k - len_ins,
                )
            &&& (top_rank(r, p) == rank(wanted) || top_rank(r, p) is None)
            &&& forall|k: int| at <= k < at + len_ins && k != p ==> #[trigger] top_rank(r, k) is None
        }),
{
    let r = with_child_value(es, wanted, value);
    let text = EventView::Text(escaped(value));
    let at = insertion_index(es, wanted);
    lemma_insertion_at_top(es, wanted);
    let c0 = es[0]->Start_0;
    let q = child_qname(es[0], wanted);
    lemma_child_qname(c0, wanted);
    if local_name(q) != wanted {
        lemma_colon_name_unranked(local_name(q));
    }
    let before = match trailing_separator(es, at) {
        Some(sep) => seq![EventView::Text(escaped(sep + "  "@))],
        None => seq![],
    };
    let after = match between_separator(es, at) {
        Some(sep) => seq![EventView::Text(escaped(sep))],
        None => seq![],
    };
    let ins = before + seq![EventView::Start(q), text, EventView::End(q)] + after;
    let len_ins = ins.len() as int;
    let p = at + before.len();
    assert(inserted_child(es, wanted, value) == ins);
    assert(r == es.take(at) + ins + es.skip(at));
    assert forall|k: int| 0 <= k < at implies r[k] == es[k] by {}
    assert forall|k: int| at + len_ins <= k < r.len() implies #[trigger] r[k] == es[k - (at
        + len_ins) + at] by {}
    lemma_depth_prefix(es, r, at as nat);
    assert(depth_in(r, (at + len_ins) as nat) == 0) by {
        if before.len() == 1 {
            assert(depth_in(r, p as nat) == depth_in(r, at as nat));
        }
        assert(depth_in(r, (p + 1) as nat) == 1);
        assert(depth_in(r, (p + 2) as nat) == 1);
        assert(depth_in(r, (p + 3) as nat) == 0);
        if after.len() == 1 {
            assert(depth_in(r, (p + 4) as nat) == 0);
        }
    }
    assert forall|k: int| 1 <= k < at implies #[trigger] top_rank(r, k) == top_rank(es, k) by {
        lemma_depth_prefix(es, r, k as nat);
    }
    assert forall|k: int| at + len_ins <= k < r.len() implies #[trigger] top_rank(r, k)
        == top_rank(es, k - len_ins) by {
        lemma_depth_shift(es, r, (at + len_ins) as nat, at as nat, (k - (at + len_ins)) as nat);
    }
    assert forall|k: int| at <= k < at + len_ins && k != p implies #[trigger] top_rank(r, k)
        is None by {
        if before.len() == 1 && k == at {
            assert(r[k] == before[0]);
        } else if k == p + 1 {
            assert(r[k] == text);
        } else if k == p + 2 {
            assert(r[k] == EventView::End(q));
        } else {
            assert(k == p + 3);
            assert(r[k] == after[0]);
        }
    }
}

/// When the schema names no child to insert before, the new child goes at
/// the end, after which no child of the waypoint is ranked.
proof fn lemma_end_unranked(es: Seq<EventView>, wanted: Seq<char>)
    requires
        closed_waypoint(es),
        schema_position(es, wanted) is None,
    ensures
        forall|k: int| insertion_index(es, wanted) <= k < es.len() ==> #[trigger] top_rank(es, k) is None,
{
    let closing = es.len() - 1;
    lemma_balanced_end(es);
    assert forall|k: int| insertion_index(es, wanted) <= k < es.len() implies #[trigger] top_rank(
        es,
        k,
    ) is None by {
        if k == closing - 1 {
            assert(whitespace_text(es[closing - 1]) is Some);
        }
    }
}

/// Inserting a new child where the schema wants it keeps the children in
/// schema order.
proof fn lemma_inserted_keeps_order(es: Seq<EventView>, wanted: Seq<char>, value: Seq<char>)
    requires
        closed_waypoint(es),
        in_schema_order(es),
        !wanted.contains(':'),
        forall|j: int| 0 <= j < wanted.len() ==> !is_xml_space(#[trigger] wanted[j]),
        child_position(es, wanted, 1, 0) is None,
    ensures
        in_schema_order(with_child_value(es, wanted, value)),
{
    let r = with_child_value(es, wanted, value);
    let at = insertion_index(es, wanted);
    let len_ins = inserted_child(es, wanted, value).len() as int;
    let p = at + separator_before(es, at);
    lemma_inserted_layout(es, wanted, value);
    let rw = rank(wanted);
    match rw {
        Some(target_rank) => {
            lemma_schema_scan_first(es, target_rank, 1);
        },
        None => {},
    }
    if schema_position(es, wanted) is None {
        lemma_end_unranked(es, wanted);
    }
    assert(depth_in(es, 1) == 0);
    assert forall|a: int, b: int|
        1 <= a < b < r.len() && #[trigger] top_rank(r, a) is Some && #[trigger] top_rank(r, b)
            is Some implies top_rank(r, a)->0 <= top_rank(r, b)->0 by {
        if a < at && b < at {
            assert(top_rank(es, a) is Some && top_rank(es, b) is Some);
        } else if a < at && b == p {
            assert(!ranked_above(es, rw->0, a));
        } else if a < at {
            assert(top_rank(es, b - len_ins) is Some);
            assert(top_rank(es, a) is Some);
        } else if a == p {
            assert(top_rank(es, b - len_ins) is Some);
            assert(schema_position(es, wanted) is Some);
            assert(ranked_above(es, rw->0, at));
            assert(top_rank(es, at) is Some);
        } else {
            assert(top_rank(es, a - len_ins) is Some);
            assert(top_rank(es, b - len_ins) is Some);
        }
    }
}

/// Giving a child of a waypoint a value keeps the waypoint's children in
/// the order that the GPX schema prescribes: a replaced or expanded child
/// stays where it was, and a new child goes before the first child that
/// the schema puts after it. This holds of a waypoint as read (see
/// [`closed_waypoint`]) for a child name without `:` or white space.
pub proof fn lemma_child_value_keeps_schema_order(
    es: Seq<EventView>,
    wanted: Seq<char>,
    value: Seq<char>,
)
    requires
        closed_waypoint(es),
        in_schema_order(es),
        !wanted.contains(':'),
        forall|j: int| 0 <= j < wanted.len() ==> !is_xml_space(#[trigger] wanted[j]),
    ensures
        in_schema_order(with_child_value(es, wanted, value)),
{
    lemma_child_position(es, wanted, 1);
    assert(depth_in(es, 1) == 0);
    match child_position(es, wanted, 1, 0) {
        Some(i) => {
            if es[i as int] is Empty {
                lemma_expanded_keeps_order(es, wanted, value, i as int);
            } else {
                assert(es[i as int] is Start);
                lemma_replaced_keeps_order(es, wanted, value, i as int);
            }
        },
        None => lemma_inserted_keeps_order(es, wanted, value),
    }
}

/// Where the laws of giving a child a value hold: a waypoint as read (see
/// [`closed_waypoint`]) whose name has at most one `:`, and a child name
/// without `:` or white space.
pub open spec fn child_laws_apply(es: Seq<EventView>, wanted: Seq<char>) -> bool {
    &&& closed_waypoint(es)
    &&& !wanted.contains(':')
    &&& forall|j: int| 0 <= j < wanted.len() ==> !is_xml_space(#[trigger] wanted[j])
    &&& es[0] matches EventView::Start(c0) && first_index(tag_name(c0), ':') == last_index(
        tag_name(c0),
        ':',
    )
}

} // verus!

verus! {

/// The names of the children that GPX 1.1 puts before `type` in a waypoint
/// (`wptType`): ele, time, magvar, geoidheight, name, cmt, desc, src, link,
/// sym.
pub open spec fn before_type(n: Seq<char>) -> bool {
    n == "ele"@ || n == "time"@ || n == "magvar"@ || n == "geoidheight"@ || n == "name"@ || n == "cmt"@ || n == "desc"@ || n == "src"@ || n == "link"@ || n == "sym"@
}

/// The names of the children that GPX 1.1 puts after `type` in a waypoint:
/// fix, sat, hdop, vdop, pdop, ageofdgpsdata, dgpsid, extensions.
pub open spec fn after_type(n: Seq<char>) -> bool {
    n == "fix"@ || n == "sat"@ || n == "hdop"@ || n == "vdop"@ || n == "pdop"@ || n == "ageofdgpsdata"@ || n == "dgpsid"@ || n == "extensions"@
}

proof fn lemma_rank_from_skip(name: Seq<char>, from: nat, to: nat)
    requires
        from <= to <= waypoint_children().len(),
        forall|k: int| from <= k < to ==> waypoint_children()[k] != name,
    ensures
        rank_from(name, from) == rank_from(name, to),
    decreases to - from,
{
    if from < to {
        lemma_rank_from_skip(name, from + 1, to);
    }
}

/// The positions of the children of a GPX 1.1 waypoint, in the order of
/// the `wptType` sequence.
pub proof fn lemma_schema_ranks()
    ensures
        rank("ele"@) == Some(0nat),
        rank("time"@) == Some(1nat),
        rank("magvar"@) == Some(2nat),
        rank("geoidheight"@) == Some(3nat),
        rank("name"@) == Some(4nat),
        rank("cmt"@) == Some(5nat),
        rank("desc"@) == Some(6nat),
        rank("src"@) == Some(7nat),
        rank("link"@) == Some(8nat),
        rank("sym"@) == Some(9nat),
        rank("type"@) == Some(10nat),
        rank("fix"@) == Some(11nat),
        rank("sat"@) == Some(12nat),
        rank("hdop"@) == Some(13nat),
        rank("vdop"@) == Some(14nat),
        rank("pdop"@) == Some(15nat),
        rank("ageofdgpsdata"@) == Some(16nat),
        rank("dgpsid"@) == Some(17nat),
        rank("extensions"@) == Some(18nat),
{
    reveal_strlit("ele");
    reveal_strlit("time");
    reveal_strlit("magvar");
    reveal_strlit("geoidheight");
    reveal_strlit("name");
    reveal_strlit("cmt");
    reveal_strlit("desc");
    reveal_strlit("src");
    reveal_strlit("link");
    reveal_strlit("sym");
    reveal_strlit("type");
    reveal_strlit("fix");
    reveal_strlit("sat");
    reveal_strlit("hdop");
    reveal_strlit("vdop");
    reveal_strlit("pdop");
    reveal_strlit("ageofdgpsdata");
    reveal_strlit("dgpsid");
    reveal_strlit("extensions");
    assert("ele"@.len() == 3 && "ele"@[0] == 'e' && "ele"@[1] == 'l');
    assert("time"@.len() == 4 && "time"@[0] == 't' && "time"@[1] == 'i');
    assert("magvar"@.len() == 6 && "magvar"@[0] == 'm' && "magvar"@[1] == 'a');
    assert("geoidheight"@.len() == 11 && "geoidheight"@[0] == 'g' && "geoidheight"@[1] == 'e');
    assert("name"@.len() == 4 && "name"@[0] == 'n' && "name"@[1] == 'a');
    assert("cmt"@.len() == 3 && "cmt"@[0] == 'c' && "cmt"@[1] == 'm');
    assert("desc"@.len() == 4 && "desc"@[0] == 'd' && "desc"@[1] == 'e');
    assert("src"@.len() == 3 && "src"@[0] == 's' && "src"@[1] == 'r');
    assert("link"@.len() == 4 && "link"@[0] == 'l' && "link"@[1] == 'i');
    assert("sym"@.len() == 3 && "sym"@[0] == 's' && "sym"@[1] == 'y');
    assert("type"@.len() == 4 && "type"@[0] == 't' && "type"@[1] == 'y');
    assert("fix"@.len() == 3 && "fix"@[0] == 'f' && "fix"@[1] == 'i');
    assert("sat"@.len() == 3 && "sat"@[0] == 's' && "sat"@[1] == 'a');
    assert("hdop"@.len() == 4 && "hdop"@[0] == 'h' && "hdop"@[1] == 'd');
    assert("vdop"@.len() == 4 && "vdop"@[0] == 'v' && "vdop"@[1] == 'd');
    assert("pdop"@.len() == 4 && "pdop"@[0] == 'p' && "pdop"@[1] == 'd');
    assert("ageofdgpsdata"@.len() == 13 && "ageofdgpsdata"@[0] == 'a' && "ageofdgpsdata"@[1] == 'g');
    assert("dgpsid"@.len() == 6 && "dgpsid"@[0] == 'd' && "dgpsid"@[1] == 'g');
    assert("extensions"@.len() == 10 && "extensions"@[0] == 'e' && "extensions"@[1] == 'x');
    assert(rank("ele"@) == Some(0nat)) by {
        reveal_with_fuel(rank_from, 2);
    }
    assert(rank("time"@) == Some(1nat)) by {
        reveal_with_fuel(rank_from, 3);
    }
    assert(rank("magvar"@) == Some(2nat)) by {
        reveal_with_fuel(rank_from, 4);
    }
    assert(rank("geoidheight"@) == Some(3nat)) by {
        reveal_with_fuel(rank_from, 5);
    }
    assert(rank("name"@) == Some(4nat)) by {
        reveal_with_fuel(rank_from, 6);
    }
    assert(rank("cmt"@) == Some(5nat)) by {
        reveal_with_fuel(rank_from, 7);
    }
    assert(rank("desc"@) == Some(6nat)) by {
        reveal_with_fuel(rank_from, 8);
    }
    assert(rank("src"@) == Some(7nat)) by {
        reveal_with_fuel(rank_from, 9);
    }
    assert(rank("link"@) == Some(8nat)) by {
        reveal_with_fuel(rank_from, 10);
    }
    assert(rank("sym"@) == Some(9nat)) by {
        reveal_with_fuel(rank_from, 11);
    }
    assert(rank("type"@) == Some(10nat)) by {
        reveal_with_fuel(rank_from, 12);
    }
    assert(rank("fix"@) == Some(11nat)) by {
        reveal_with_fuel(rank_from, 13);
    }
    assert(rank("sat"@) == Some(12nat)) by {
        reveal_with_fuel(rank_from, 14);
    }
    assert(rank("hdop"@) == Some(13nat)) by {
        reveal_with_fuel(rank_from, 15);
    }
    assert(rank("vdop"@) == Some(14nat)) by {
        reveal_with_fuel(rank_from, 16);
    }
    assert(rank("pdop"@) == Some(15nat)) by {
        reveal_with_fuel(rank_from, 17);
    }
    assert(rank("ageofdgpsdata"@) == Some(16nat)) by {
        reveal_with_fuel(rank_from, 18);
    }
    assert(rank("dgpsid"@) == Some(17nat)) by {
        reveal_with_fuel(rank_from, 19);
    }
    assert(rank("extensions"@) == Some(18nat)) by {
        reveal_with_fuel(rank_from, 20);
    }
}

} // verus!

verus! {

/// The local name of the child of a waypoint that starts (or is) event
/// `k`, when that event is at the top of the waypoint.
pub open spec fn top_child_name(es: Seq<EventView>, k: int) -> Option<Seq<char>> {
    if depth_in(es, k as nat) == 0 {
        match es[k] {
            EventView::Start(c) => Some(local_name(tag_name(c))),
            EventView::Empty(c) => Some(local_name(tag_name(c))),
            _ => None,
        }
    } else {
        None
    }
}

/// A new `<type>` goes where GPX 1.1 wants it: before every child that the
/// `wptType` sequence puts after `type` (fix, sat, hdop, vdop, pdop,
/// ageofdgpsdata, dgpsid, extensions), and, in a waypoint whose children are
/// in that order, after every child that it puts before (ele ... sym).
pub proof fn lemma_new_type_in_schema_place(es: Seq<EventView>, k: int)
    requires
        closed_waypoint(es),
        1 <= k < es.len(),
    ensures
        top_child_name(es, k) matches Some(n) && after_type(n) ==> insertion_index(es, "type"@)
            <= k,
        top_child_name(es, k) matches Some(n) && before_type(n) && in_schema_order(es)
            ==> k < insertion_index(es, "type"@),
{
    lemma_schema_ranks();
    lemma_schema_scan_first(es, 10, 1);
    assert(depth_in(es, 1) == 0);
    lemma_balanced_end(es);
    let closing = es.len() - 1;
    if let Some(n) = top_child_name(es, k) {
        assert(top_rank(es, k) == rank(n));
        if after_type(n) {
            assert(ranked_above(es, 10, k));
        }
        if before_type(n) && in_schema_order(es) {
            assert(!ranked_above(es, 10, k));
            if let Some(at) = schema_position(es, "type"@) {
                assert(ranked_above(es, 10, at as int));
                if (at as int) < k {
                    assert(top_rank(es, at as int) is Some);
                }
            } else {
                assert(k != closing);
                if whitespace_text(es[closing - 1]) is Some {
                    assert(k != closing - 1);
                }
            }
        }
    }
}

} // verus!
