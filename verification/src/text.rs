//! Character classification and the normalised comparison key used to look
//! up point-of-interest names.
use vstd::prelude::*;

verus! {

/// The Unicode `White_Space` property, the classification that
/// `char::is_whitespace`, `str::trim` and `str::split_whitespace` use.
pub open spec fn is_space(c: char) -> bool {
    let n = c as u32;
    ||| 0x9 <= n <= 0xD
    ||| n == 0x20
    ||| n == 0x85
    ||| n == 0xA0
    ||| n == 0x1680
    ||| 0x2000 <= n <= 0x200A
    ||| n == 0x2028
    ||| n == 0x2029
    ||| n == 0x202F
    ||| n == 0x205F
    ||| n == 0x3000
}

/// Whether `c` is white space in the Unicode sense.
pub fn is_space_char(c: char) -> (r: bool)
    ensures
        r == is_space(c),
{
    let n = c as u32;
    (0x9 <= n && n <= 0xD) || n == 0x20 || n == 0x85 || n == 0xA0 || n == 0x1680 || (0x2000
        <= n && n <= 0x200A) || n == 0x2028 || n == 0x2029 || n == 0x202F || n == 0x205F || n
        == 0x3000
}

/// Whether every character of `s` is white space (true for the empty text).
pub open spec fn all_space(s: Seq<char>) -> bool {
    forall|i: int| 0 <= i < s.len() ==> is_space(#[trigger] s[i])
}

/// ASCII lower-casing of one character; every other character is kept.
pub open spec fn ascii_lower(c: char) -> char {
    if 'A' <= c <= 'Z' {
        ((c as u32) + 32) as char
    } else {
        c
    }
}

/// The per-character step of the comparison key: `_`, `-` and `/` read as a
/// space, ASCII letters are lower-cased.
pub open spec fn key_char(c: char) -> char {
    if c == '_' || c == '-' || c == '/' {
        ' '
    } else {
        ascii_lower(c)
    }
}

pub open spec fn key_chars(s: Seq<char>) -> Seq<char> {
    s.map_values(|c: char| key_char(c))
}

/// The words of `t` (maximal runs of non-space characters) joined by single
/// spaces: leading and trailing space is dropped and every inner run of space
/// becomes one ' '.
pub open spec fn squeeze(t: Seq<char>) -> Seq<char>
    decreases t.len(),
{
    if t.len() == 0 {
        seq![]
    } else {
        let prev = squeeze(t.drop_last());
        let c = t.last();
        if is_space(c) {
            prev
        } else if prev.len() > 0 && is_space(t[t.len() - 2]) {
            prev.push(' ').push(c)
        } else {
            prev.push(c)
        }
    }
}

/// The comparison key of a name: trimmed, `_ - /` read as spaces, ASCII
/// letters lower-cased, runs of white space collapsed to one space.
pub open spec fn normalize_key(s: Seq<char>) -> Seq<char> {
    squeeze(key_chars(s))
}

/// Appends one character to a string.
#[verifier::external_body]
pub(crate) fn push_char(s: &mut String, c: char)
    ensures
        final(s)@ == old(s)@.push(c),
{
    s.push(c);
}

/// The characters of `s`, in order.
pub fn chars_of(s: &str) -> (r: Vec<char>)
    ensures
        r@ == s@,
{
    let mut r: Vec<char> = Vec::new();
    for c in it: s.chars()
        invariant
            it.seq() == s@,
            r@ == it.seq().take(it.index() as int),
    {
        r.push(c);
    }
    assert(r@ =~= s@);
    r
}

fn key_char_exec(c: char) -> (r: char)
    ensures
        r == key_char(c),
{
    if c == '_' || c == '-' || c == '/' {
        ' '
    } else if 'A' <= c && c <= 'Z' {
        let b = (c as u32 + 32) as u8;
        b as char
    } else {
        c
    }
}

/// The comparison key of `value` (see [`normalize_key`]).
pub fn normalize(value: &str) -> (r: String)
    ensures
        r@ == normalize_key(value@),
{
    let chars = chars_of(value);
    let ghost t = key_chars(value@);
    let mut out = String::new();
    let mut prev_space = false;
    let mut started = false;
    let mut i: usize = 0;
    while i < chars.len()
        invariant
            chars@ == value@,
            t == key_chars(value@),
            0 <= i <= chars@.len(),
            out@ == squeeze(t.take(i as int)),
            prev_space == (i > 0 && is_space(t[i - 1])),
            started == (out@.len() > 0),
        decreases chars.len() - i,
    {
        let c = key_char_exec(chars[i]);
        let space = is_space_char(c);
        proof {
            assert(t.take(i + 1).drop_last() =~= t.take(i as int));
            assert(t.take(i + 1).last() == c);
        }
        if !space {
            if prev_space && started {
                push_char(&mut out, ' ');
            }
            push_char(&mut out, c);
            started = true;
        }
        prev_space = space;
        i += 1;
    }
    assert(t.take(chars@.len() as int) =~= t);
    out
}

} // verus!

verus! {

/// `s` without its leading white space.
pub open spec fn trim_start(s: Seq<char>) -> Seq<char>
    decreases s.len(),
{
    if s.len() > 0 && is_space(s[0]) {
        trim_start(s.drop_first())
    } else {
        s
    }
}

/// `s` without its trailing white space.
pub open spec fn trim_end(s: Seq<char>) -> Seq<char>
    decreases s.len(),
{
    if s.len() > 0 && is_space(s.last()) {
        trim_end(s.drop_last())
    } else {
        s
    }
}

/// `s` without leading and trailing white space (as `str::trim`).
pub open spec fn trim(s: Seq<char>) -> Seq<char> {
    trim_end(trim_start(s))
}

/// ASCII upper-casing of one character; every other character is kept.
pub open spec fn ascii_upper(c: char) -> char {
    if 'a' <= c <= 'z' {
        ((c as u32) - 32) as char
    } else {
        c
    }
}

/// `s` with its ASCII letters upper-cased (as `str::to_ascii_uppercase`).
pub open spec fn ascii_uppercase(s: Seq<char>) -> Seq<char> {
    s.map_values(|c: char| ascii_upper(c))
}

/// `s` with its ASCII letters lower-cased (as `str::to_ascii_lowercase`).
pub open spec fn ascii_lowercase(s: Seq<char>) -> Seq<char> {
    s.map_values(|c: char| ascii_lower(c))
}

fn ascii_lower_exec(c: char) -> (r: char)
    ensures
        r == ascii_lower(c),
{
    if 'A' <= c && c <= 'Z' {
        let b = (c as u32 + 32) as u8;
        b as char
    } else {
        c
    }
}

/// `value` trimmed and with its ASCII letters lower-cased: how a typed
/// answer or option is compared.
pub fn trimmed_lowercase(value: &str) -> (r: String)
    ensures
        r@ == ascii_lowercase(trim(value@)),
{
    let c = chars_of(value);
    let mut start: usize = 0;
    assert(c@.skip(0) =~= c@);
    while start < c.len() && is_space_char(c[start])
        invariant
            c@ == value@,
            0 <= start <= c@.len(),
            trim_start(value@) == trim_start(c@.skip(start as int)),
        decreases c.len() - start,
    {
        proof {
            assert(c@.skip(start as int).drop_first() =~= c@.skip(start + 1));
        }
        start += 1;
    }
    let ghost ts = trim_start(value@);
    assert(ts == c@.skip(start as int));
    let mut end: usize = c.len();
    while end > start && is_space_char(c[end - 1])
        invariant
            c@ == value@,
            start <= end <= c@.len(),
            ts == c@.skip(start as int),
            trim_end(ts) == trim_end(c@.subrange(start as int, end as int)),
        decreases end,
    {
        proof {
            assert(c@.subrange(start as int, end as int).drop_last() =~= c@.subrange(
                start as int,
                end - 1,
            ));
        }
        end -= 1;
    }
    let ghost t = c@.subrange(start as int, end as int);
    assert(trim(value@) == t);
    let mut r = String::new();
    let mut i: usize = start;
    while i < end
        invariant
            c@ == value@,
            start <= i <= end <= c@.len(),
            t == c@.subrange(start as int, end as int),
            r@ == ascii_lowercase(t).take(i - start),
        decreases end - i,
    {
        push_char(&mut r, ascii_lower_exec(c[i]));
        proof {
            assert(ascii_lowercase(t).take(i + 1 - start) =~= ascii_lowercase(t).take(i - start).push(
                ascii_lower(c@[i as int]),
            ));
        }
        i += 1;
    }
    assert(ascii_lowercase(t).take(end - start) =~= ascii_lowercase(t));
    r
}

} // verus!

verus! {

/// A text in the shape that [`squeeze`] produces, except that it may end
/// with one space: its only white space is ' ', it does not start with
/// white space and no two white-space characters are adjacent.
pub open spec fn loosely_squeezed(u: Seq<char>) -> bool {
    &&& forall|k: int| 0 <= k < u.len() && is_space(#[trigger] u[k]) ==> u[k] == ' '
    &&& (u.len() > 0 ==> !is_space(u[0]))
    &&& forall|k: int| 0 <= k < u.len() - 1 ==> !(is_space(#[trigger] u[k]) && is_space(u[k + 1]))
}

/// The shape that [`squeeze`] produces: loosely squeezed and not ending with
/// white space.
pub open spec fn squeezed(u: Seq<char>) -> bool {
    &&& loosely_squeezed(u)
    &&& (u.len() > 0 ==> !is_space(u.last()))
}

proof fn lemma_squeeze_shape(t: Seq<char>)
    ensures
        squeezed(squeeze(t)),
        forall|k: int|
            0 <= k < squeeze(t).len() ==> #[trigger] squeeze(t)[k] == ' ' || t.contains(
                squeeze(t)[k],
            ),
    decreases t.len(),
{
    if t.len() > 0 {
        let prev = squeeze(t.drop_last());
        lemma_squeeze_shape(t.drop_last());
        let u = squeeze(t);
        assert forall|k: int| 0 <= k < u.len() implies #[trigger] u[k] == ' ' || t.contains(
            u[k],
        ) by {
            if k < prev.len() {
                assert(u[k] == prev[k]);
                if prev[k] != ' ' {
                    let j = choose|j: int| 0 <= j < t.drop_last().len() && t.drop_last()[j] == prev[k];
                    assert(t[j] == prev[k]);
                }
            } else if u[k] != ' ' {
                assert(u[k] == t.last());
                assert(t[t.len() - 1] == u[k]);
            }
        }
    }
}

proof fn lemma_squeeze_fixed(u: Seq<char>)
    requires
        loosely_squeezed(u),
    ensures
        squeeze(u) == if u.len() > 0 && u.last() == ' ' {
            u.drop_last()
        } else {
            u
        },
    decreases u.len(),
{
    if u.len() > 0 {
        let v = u.drop_last();
        assert(loosely_squeezed(v)) by {
            assert forall|k: int| 0 <= k < v.len() - 1 implies !(is_space(#[trigger] v[k]) && is_space(
                v[k + 1],
            )) by {
                assert(v[k] == u[k] && v[k + 1] == u[k + 1]);
            }
        }
        lemma_squeeze_fixed(v);
        let c = u.last();
        if is_space(c) {
            if v.len() > 0 {
                assert(!is_space(v.last())) by {
                    assert(v.last() == u[u.len() - 2]);
                }
            }
        } else if v.len() > 0 && is_space(v.last()) {
            assert(v.len() >= 2);
            assert(v.drop_last().push(' ').push(c) =~= u);
        } else {
            assert(v.push(c) =~= u);
        }
    }
}

proof fn lemma_key_char_idempotent(c: char)
    ensures
        key_char(key_char(c)) == key_char(c),
{
    if 'A' <= c <= 'Z' {
        assert(((c as u32) + 32) as char as u32 == (c as u32) + 32);
    }
}

/// Comparison keys are their own keys: normalising a normalised name
/// changes nothing.
pub proof fn lemma_normalize_key_idempotent(s: Seq<char>)
    ensures
        normalize_key(normalize_key(s)) == normalize_key(s),
{
    let t = key_chars(s);
    let u = squeeze(t);
    lemma_squeeze_shape(t);
    assert(key_chars(u) =~= u) by {
        assert forall|k: int| 0 <= k < u.len() implies key_char(#[trigger] u[k]) == u[k] by {
            if u[k] != ' ' {
                let j = choose|j: int| 0 <= j < t.len() && t[j] == u[k];
                lemma_key_char_idempotent(s[j]);
            }
        }
    }
    lemma_squeeze_fixed(u);
}

/// Comparison keys ignore ASCII case.
pub proof fn lemma_normalize_key_ignores_case(s: Seq<char>)
    ensures
        normalize_key(ascii_lowercase(s)) == normalize_key(s),
{
    assert(key_chars(ascii_lowercase(s)) =~= key_chars(s)) by {
        assert forall|k: int| 0 <= k < s.len() implies key_char(ascii_lower(s[k])) == key_char(
            #[trigger] s[k],
        ) by {
            lemma_key_char_idempotent(s[k]);
        }
    }
}

/// Comparison keys read `_`, `-` and `/` as spaces.
pub proof fn lemma_normalize_key_separators(s: Seq<char>, k: int)
    requires
        0 <= k < s.len(),
        s[k] == '_' || s[k] == '-' || s[k] == '/',
    ensures
        normalize_key(s.update(k, ' ')) == normalize_key(s),
{
    assert(key_chars(s.update(k, ' ')) =~= key_chars(s));
}

proof fn lemma_squeeze_drop_space(t: Seq<char>, k: int)
    requires
        0 <= k,
        k + 1 < t.len(),
        is_space(t[k]),
        is_space(t[k + 1]),
    ensures
        squeeze(t.remove(k)) == squeeze(t),
    decreases t.len(),
{
    let u = t.remove(k);
    assert(u.len() == t.len() - 1);
    if k + 2 == t.len() {
        let w = t.drop_last().drop_last();
        assert(u.drop_last() =~= w);
        assert(u.last() == t[k + 1]);
        assert(squeeze(u) == squeeze(w));
        assert(t.drop_last().last() == t[k]);
        assert(squeeze(t.drop_last()) == squeeze(w));
        assert(squeeze(t) == squeeze(t.drop_last()));
    } else {
        assert(u.drop_last() =~= t.drop_last().remove(k));
        assert(t.drop_last()[k] == t[k] && t.drop_last()[k + 1] == t[k + 1]);
        lemma_squeeze_drop_space(t.drop_last(), k);
        assert(squeeze(u.drop_last()) == squeeze(t.drop_last()));
        assert(u.last() == t.last());
        assert(u[u.len() - 2] == t[t.len() - 2]);
    }
}

proof fn lemma_squeeze_drop_leading_space(c: char, t: Seq<char>)
    requires
        is_space(c),
    ensures
        squeeze(seq![c] + t) == squeeze(t),
    decreases t.len(),
{
    let u = seq![c] + t;
    if t.len() == 0 {
        assert(u.drop_last() =~= Seq::<char>::empty());
        assert(u.last() == c);
        assert(squeeze(u) == squeeze(Seq::<char>::empty()));
    } else {
        assert(u.drop_last() =~= seq![c] + t.drop_last());
        lemma_squeeze_drop_leading_space(c, t.drop_last());
        assert(squeeze(u.drop_last()) == squeeze(t.drop_last()));
        assert(u.last() == t.last());
        if t.len() >= 2 {
            assert(u[u.len() - 2] == t[t.len() - 2]);
        } else {
            assert(t.drop_last() =~= Seq::<char>::empty());
            assert(squeeze(t.drop_last()).len() == 0);
        }
    }
}

/// Comparison keys read a run of white space as one: of two adjacent
/// white-space characters, one can go.
pub proof fn lemma_normalize_key_space_runs(s: Seq<char>, k: int)
    requires
        0 <= k,
        k + 1 < s.len(),
        is_space(s[k]),
        is_space(s[k + 1]),
    ensures
        normalize_key(s.remove(k)) == normalize_key(s),
{
    assert(key_chars(s.remove(k)) =~= key_chars(s).remove(k));
    lemma_squeeze_drop_space(key_chars(s), k);
}

/// Comparison keys ignore white space at either end of a name.
pub proof fn lemma_normalize_key_trims(c: char, s: Seq<char>)
    requires
        is_space(c),
    ensures
        normalize_key(seq![c] + s) == normalize_key(s),
        normalize_key(s.push(c)) == normalize_key(s),
{
    assert(key_chars(seq![c] + s) =~= seq![c] + key_chars(s));
    lemma_squeeze_drop_leading_space(c, key_chars(s));
    assert(key_chars(s.push(c)) =~= key_chars(s).push(c));
    assert(key_chars(s.push(c)).drop_last() =~= key_chars(s));
}

} // verus!

verus! {

/// The shape of a comparison key: no white space at either end, no white
/// space but single ' ' between words, no ASCII upper-case letter and none
/// of `_`, `-`, `/`; and it is its own key.
pub proof fn lemma_normalize_key_shape(s: Seq<char>)
    ensures
        squeezed(normalize_key(s)),
        forall|k: int|
            0 <= k < normalize_key(s).len() ==> {
                let c = #[trigger] normalize_key(s)[k];
                &&& !('A' <= c <= 'Z')
                &&& c != '_' && c != '-' && c != '/'
            },
        normalize_key(normalize_key(s)) == normalize_key(s),
{
    let t = key_chars(s);
    lemma_squeeze_shape(t);
    assert forall|k: int| 0 <= k < normalize_key(s).len() implies ({
        let c = #[trigger] normalize_key(s)[k];
        &&& !('A' <= c <= 'Z')
        &&& c != '_' && c != '-' && c != '/'
    }) by {
        let c = normalize_key(s)[k];
        if c != ' ' {
            let j = choose|j: int| 0 <= j < t.len() && t[j] == c;
            assert(t[j] == key_char(s[j]));
            if 'A' <= s[j] <= 'Z' {
                assert(((s[j] as u32) + 32) as char as u32 == (s[j] as u32) + 32);
            }
        }
    }
    lemma_normalize_key_idempotent(s);
}

} // verus!
