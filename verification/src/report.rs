//! The conversion report and the ordered set of unknown values it keeps.
use vstd::prelude::*;

use crate::text::chars_of;

verus! {

/// The order of `String`: lexicographic by character (for UTF-8 text this is
/// the byte order), a proper prefix coming first.
pub open spec fn text_less(a: Seq<char>, b: Seq<char>) -> bool
    decreases a.len(),
{
    if a.len() == 0 {
        b.len() > 0
    } else if b.len() == 0 {
        false
    } else if a[0] != b[0] {
        a[0] < b[0]
    } else {
        text_less(a.drop_first(), b.drop_first())
    }
}

/// `s` is in strictly increasing order, so it holds no value twice.
pub open spec fn strictly_sorted(s: Seq<Seq<char>>) -> bool {
    forall|i: int, j: int| 0 <= i < j < s.len() ==> text_less(#[trigger] s[i], #[trigger] s[j])
}

/// `x` added to the ordered sequence `s`, in its place; `s` itself when it
/// already holds `x`.
pub open spec fn insert_sorted(s: Seq<Seq<char>>, x: Seq<char>) -> Seq<Seq<char>>
    decreases s.len(),
{
    if s.len() == 0 {
        seq![x]
    } else if s[0] == x {
        s
    } else if text_less(x, s[0]) {
        seq![x] + s
    } else {
        seq![s[0]] + insert_sorted(s.drop_first(), x)
    }
}

/// No text comes before itself.
pub proof fn lemma_text_less_irreflexive(a: Seq<char>)
    ensures
        !text_less(a, a),
    decreases a.len(),
{
    if a.len() > 0 {
        lemma_text_less_irreflexive(a.drop_first());
    }
}

/// Of two different texts, one comes before the other.
pub proof fn lemma_text_less_total(a: Seq<char>, b: Seq<char>)
    ensures
        a == b || text_less(a, b) || text_less(b, a),
    decreases a.len(),
{
    if a.len() > 0 && b.len() > 0 && a[0] == b[0] {
        lemma_text_less_total(a.drop_first(), b.drop_first());
        if a.drop_first() == b.drop_first() {
            assert(a =~= seq![a[0]] + a.drop_first());
            assert(b =~= seq![b[0]] + b.drop_first());
        }
    } else if a.len() == 0 && b.len() == 0 {
        assert(a =~= b);
    }
}

/// Two texts do not each come before the other.
pub proof fn lemma_text_less_asymmetric(a: Seq<char>, b: Seq<char>)
    requires
        text_less(a, b),
    ensures
        !text_less(b, a),
    decreases a.len(),
{
    if a.len() > 0 && b.len() > 0 && a[0] == b[0] {
        lemma_text_less_asymmetric(a.drop_first(), b.drop_first());
    }
}

/// The order of texts is transitive.
pub proof fn lemma_text_less_transitive(a: Seq<char>, b: Seq<char>, c: Seq<char>)
    requires
        text_less(a, b),
        text_less(b, c),
    ensures
        text_less(a, c),
    decreases a.len(),
{
    if a.len() > 0 && b.len() > 0 && c.len() > 0 && a[0] == b[0] && b[0] == c[0] {
        lemma_text_less_transitive(a.drop_first(), b.drop_first(), c.drop_first());
    }
}

/// Whether `a` comes before `b` in the order of `String`.
pub fn less_text(a: &String, b: &String) -> (r: bool)
    ensures
        r == text_less(a@, b@),
{
    let x = chars_of(a.as_str());
    let y = chars_of(b.as_str());
    let mut i: usize = 0;
    assert(a@.skip(0) =~= a@);
    assert(b@.skip(0) =~= b@);
    while i < x.len() && i < y.len() && x[i] == y[i]
        invariant
            x@ == a@,
            y@ == b@,
            0 <= i <= x@.len(),
            i <= y@.len(),
            text_less(a@, b@) == text_less(a@.skip(i as int), b@.skip(i as int)),
        decreases x.len() - i,
    {
        proof {
            let sa = a@.skip(i as int);
            let sb = b@.skip(i as int);
            assert(sa.drop_first() =~= a@.skip(i + 1));
            assert(sb.drop_first() =~= b@.skip(i + 1));
        }
        i += 1;
    }
    if i == x.len() {
        i < y.len()
    } else if i == y.len() {
        false
    } else {
        x[i] < y[i]
    }
}

} // verus!

verus! {

pub open spec fn strings_view(v: Seq<String>) -> Seq<Seq<char>> {
    v.map_values(|s: String| s@)
}

proof fn lemma_sorted_drop_first(s: Seq<Seq<char>>)
    requires
        strictly_sorted(s),
        s.len() > 0,
    ensures
        strictly_sorted(s.drop_first()),
{
    assert forall|i: int, j: int| 0 <= i < j < s.drop_first().len() implies text_less(
        #[trigger] s.drop_first()[i],
        #[trigger] s.drop_first()[j],
    ) by {
        assert(s.drop_first()[i] == s[i + 1]);
        assert(s.drop_first()[j] == s[j + 1]);
    }
}

/// Where [`insert_sorted`] puts `x`: after the values that come before it.
proof fn lemma_insert_sorted_at(s: Seq<Seq<char>>, x: Seq<char>, i: int)
    requires
        strictly_sorted(s),
        0 <= i <= s.len(),
        forall|k: int| 0 <= k < i ==> text_less(#[trigger] s[k], x),
        i == s.len() || !text_less(s[i], x),
    ensures
        insert_sorted(s, x) == (if i < s.len() && s[i] == x {
            s
        } else {
            s.take(i) + seq![x] + s.skip(i)
        }),
    decreases i,
{
    if i == 0 {
        if s.len() == 0 {
            assert(s.take(0) + seq![x] + s.skip(0) =~= seq![x]);
        } else if s[0] != x {
            lemma_text_less_total(x, s[0]);
            assert(s.take(0) + seq![x] + s.skip(0) =~= seq![x] + s);
        }
    } else {
        lemma_text_less_irreflexive(x);
        lemma_text_less_asymmetric(s[0], x);
        assert(s[0] != x);
        assert(!text_less(x, s[0]));
        let t = s.drop_first();
        lemma_sorted_drop_first(s);
        assert forall|k: int| 0 <= k < i - 1 implies text_less(#[trigger] t[k], x) by {
            assert(t[k] == s[k + 1]);
        }
        lemma_insert_sorted_at(t, x, i - 1);
        if i < s.len() && s[i] == x {
            assert(seq![s[0]] + t =~= s);
        } else {
            assert(seq![s[0]] + (t.take(i - 1) + seq![x] + t.skip(i - 1)) =~= s.take(i) + seq![x]
                + s.skip(i));
        }
    }
}

/// Inserting keeps the order strict and adds exactly `x` to the values held.
pub proof fn lemma_insert_sorted(s: Seq<Seq<char>>, x: Seq<char>)
    requires
        strictly_sorted(s),
    ensures
        strictly_sorted(insert_sorted(s, x)),
        insert_sorted(s, x).to_set() == s.to_set().insert(x),
    decreases s.len(),
{
    if s.len() == 0 {
        assert(seq![x].to_set() =~= Set::<Seq<char>>::empty().insert(x)) by {
            assert(seq![x][0] == x);
        }
        assert(s.to_set() =~= Set::<Seq<char>>::empty());
    } else if s[0] == x {
        assert(s.to_set().insert(x) =~= s.to_set()) by {
            assert(s.contains(x));
        }
    } else if text_less(x, s[0]) {
        let r = seq![x] + s;
        assert forall|i: int, j: int| 0 <= i < j < r.len() implies text_less(
            #[trigger] r[i],
            #[trigger] r[j],
        ) by {
            if i == 0 {
                if j > 1 {
                    lemma_text_less_transitive(x, s[0], s[j - 1]);
                }
            } else {
                assert(r[i] == s[i - 1] && r[j] == s[j - 1]);
            }
        }
        assert(r.to_set() =~= s.to_set().insert(x)) by {
            assert forall|y: Seq<char>| r.contains(y) <==> s.contains(y) || y == x by {
                if r.contains(y) {
                    let k = choose|k: int| 0 <= k < r.len() && r[k] == y;
                    if k > 0 {
                        assert(s[k - 1] == y);
                    }
                }
                if s.contains(y) {
                    let k = choose|k: int| 0 <= k < s.len() && s[k] == y;
                    assert(r[k + 1] == y);
                }
                if y == x {
                    assert(r[0] == y);
                }
            }
        }
    } else {
        let t = s.drop_first();
        lemma_sorted_drop_first(s);
        lemma_insert_sorted(t, x);
        let it = insert_sorted(t, x);
        let r = seq![s[0]] + it;
        lemma_text_less_total(x, s[0]);
        assert forall|i: int, j: int| 0 <= i < j < r.len() implies text_less(
            #[trigger] r[i],
            #[trigger] r[j],
        ) by {
            if i == 0 {
                assert(it.contains(r[j])) by {
                    assert(it[j - 1] == r[j]);
                }
                assert(it.to_set().contains(r[j]));
                assert(t.to_set().insert(x).contains(r[j]));
                if r[j] != x {
                    assert(t.contains(r[j]));
                    let k = choose|k: int| 0 <= k < t.len() && t[k] == r[j];
                    assert(s[k + 1] == r[j]);
                }
            } else {
                assert(r[i] == it[i - 1] && r[j] == it[j - 1]);
            }
        }
        assert(r.to_set() =~= s.to_set().insert(x)) by {
            assert forall|y: Seq<char>| r.contains(y) <==> s.contains(y) || y == x by {
                if r.contains(y) {
                    let k = choose|k: int| 0 <= k < r.len() && r[k] == y;
                    if k > 0 {
                        assert(it[k - 1] == y);
                        assert(it.to_set().contains(y));
                        if y != x {
                            assert(t.contains(y));
                            let m = choose|m: int| 0 <= m < t.len() && t[m] == y;
                            assert(s[m + 1] == y);
                        }
                    } else {
                        assert(s[0] == y);
                    }
                }
                if s.contains(y) {
                    let k = choose|k: int| 0 <= k < s.len() && s[k] == y;
                    if k == 0 {
                        assert(r[0] == y);
                    } else {
                        assert(t[k - 1] == y);
                        assert(t.to_set().insert(x).contains(y));
                        assert(it.contains(y));
                        let m = choose|m: int| 0 <= m < it.len() && it[m] == y;
                        assert(r[m + 1] == y);
                    }
                }
                if y == x {
                    assert(t.to_set().insert(x).contains(y));
                    assert(it.contains(y));
                    let m = choose|m: int| 0 <= m < it.len() && it[m] == y;
                    assert(r[m + 1] == y);
                }
            }
        }
    }
}

/// Adds `x` to the ordered, duplicate-free list `v` (see [`insert_sorted`]).
pub fn insert_unknown(v: &mut Vec<String>, x: String)
    requires
        strictly_sorted(strings_view(old(v)@)),
    ensures
        strings_view(final(v)@) == insert_sorted(strings_view(old(v)@), x@),
{
    let ghost s = strings_view(v@);
    let mut i: usize = 0;
    while i < v.len() && less_text(&v[i], &x)
        invariant
            s == strings_view(v@),
            strictly_sorted(s),
            0 <= i <= v@.len(),
            forall|k: int| 0 <= k < i ==> text_less(#[trigger] s[k], x@),
        decreases v.len() - i,
    {
        i += 1;
    }
    proof {
        lemma_insert_sorted_at(s, x@, i as int);
    }
    if i < v.len() && v[i] == x {
        return;
    }
    v.insert(i, x);
    assert(strings_view(v@) =~= s.take(i as int) + seq![x@] + s.skip(i as int));
}

} // verus!

verus! {

/// Counts of one conversion and the source values that the dictionary did
/// not know.
#[derive(Debug, PartialEq, Eq)]
pub struct ConversionReport {
    /// Waypoints converted.
    pub waypoints: usize,
    /// Waypoints whose `<sym>` or `<type>` the dictionary knew.
    pub translated: usize,
    /// Waypoints with a `<sym>` or `<type>` that the dictionary did not know.
    pub fallback_waypoints: usize,
    /// The unknown values, in increasing order, each once.
    pub unknown_values: Vec<String>,
}

/// The mathematical content of a [`ConversionReport`].
pub struct ReportView {
    pub waypoints: nat,
    pub translated: nat,
    pub fallback_waypoints: nat,
    pub unknown_values: Seq<Seq<char>>,
}

impl View for ConversionReport {
    type V = ReportView;

    open spec fn view(&self) -> ReportView {
        ReportView {
            waypoints: self.waypoints as nat,
            translated: self.translated as nat,
            fallback_waypoints: self.fallback_waypoints as nat,
            unknown_values: strings_view(self.unknown_values@),
        }
    }
}

/// The report before any waypoint.
pub open spec fn empty_report() -> ReportView {
    ReportView { waypoints: 0, translated: 0, fallback_waypoints: 0, unknown_values: seq![] }
}

/// What every report of a conversion satisfies: the unknown values are in
/// strictly increasing order, no waypoint is counted both as translated and
/// as fallen back, and each unknown value stands for at least one waypoint
/// that fell back.
pub open spec fn report_wf(r: ReportView) -> bool {
    &&& strictly_sorted(r.unknown_values)
    &&& r.translated + r.fallback_waypoints <= r.waypoints
    &&& r.unknown_values.len() <= r.fallback_waypoints
}

/// The report after one more waypoint whose translation came from
/// `source` (if the waypoint had a symbol or type) with or without the
/// fallback value.
pub open spec fn record(r: ReportView, source: Option<Seq<char>>, used_fallback: bool) -> ReportView {
    if used_fallback {
        ReportView {
            waypoints: r.waypoints + 1,
            fallback_waypoints: r.fallback_waypoints + 1,
            unknown_values: match source {
                Some(s) => insert_sorted(r.unknown_values, s),
                None => r.unknown_values,
            },
            ..r
        }
    } else if source is Some {
        ReportView { waypoints: r.waypoints + 1, translated: r.translated + 1, ..r }
    } else {
        ReportView { waypoints: r.waypoints + 1, ..r }
    }
}

/// Recording a waypoint keeps a report well formed.
pub proof fn lemma_record_wf(r: ReportView, source: Option<Seq<char>>, used_fallback: bool)
    requires
        report_wf(r),
    ensures
        report_wf(record(r, source, used_fallback)),
        record(r, source, used_fallback).waypoints == r.waypoints + 1,
{
    if used_fallback {
        if let Some(s) = source {
            lemma_insert_sorted(r.unknown_values, s);
            lemma_insert_sorted_len(r.unknown_values, s);
        }
    }
}

proof fn lemma_insert_sorted_len(s: Seq<Seq<char>>, x: Seq<char>)
    ensures
        insert_sorted(s, x).len() <= s.len() + 1,
    decreases s.len(),
{
    if s.len() > 0 && s[0] != x && !text_less(x, s[0]) {
        lemma_insert_sorted_len(s.drop_first(), x);
    }
}

impl Default for ConversionReport {
    fn default() -> (r: Self)
        ensures
            r@ == empty_report(),
    {
        let r = ConversionReport {
            waypoints: 0,
            translated: 0,
            fallback_waypoints: 0,
            unknown_values: Vec::new(),
        };
        assert(r@.unknown_values =~= seq![]);
        r
    }
}

/// Records one converted waypoint in the report (see [`record`]).
pub fn record_waypoint(report: &mut ConversionReport, source: Option<&str>, used_fallback: bool)
    requires
        report_wf(old(report)@),
        old(report).waypoints < usize::MAX,
    ensures
        final(report)@ == record(old(report)@, crate::poi::opt_str_view(source), used_fallback),
        report_wf(final(report)@),
{
    proof {
        lemma_record_wf(report@, crate::poi::opt_str_view(source), used_fallback);
    }
    report.waypoints = report.waypoints + 1;
    if used_fallback {
        report.fallback_waypoints = report.fallback_waypoints + 1;
        if let Some(s) = source {
            insert_unknown(&mut report.unknown_values, s.to_string());
        }
    } else if source.is_some() {
        report.translated = report.translated + 1;
    }
}

} // verus!

verus! {

/// Recording a waypoint counts it once; a translated one (known source,
/// no fallback) adds one to the translated count, a fallen-back one to the
/// fallback count and puts its source, if any, among the unknown values;
/// nothing else changes.
pub proof fn lemma_record_counts(r: ReportView, source: Option<Seq<char>>, used_fallback: bool)
    requires
        strictly_sorted(r.unknown_values),
    ensures
        ({
            let n = record(r, source, used_fallback);
            &&& n.waypoints == r.waypoints + 1
            &&& n.translated == r.translated + if !used_fallback && source is Some {
                1nat
            } else {
                0nat
            }
            &&& n.fallback_waypoints == r.fallback_waypoints + if used_fallback {
                1nat
            } else {
                0nat
            }
            &&& n.unknown_values.to_set() == if used_fallback && source is Some {
                r.unknown_values.to_set().insert(source->0)
            } else {
                r.unknown_values.to_set()
            }
            &&& strictly_sorted(n.unknown_values)
        }),
{
    if used_fallback {
        if let Some(s) = source {
            lemma_insert_sorted(r.unknown_values, s);
        }
    }
}

} // verus!
