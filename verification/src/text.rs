//! Character-level text model shared by the other modules: Unicode
//! white space, trimming, searching, and the conversions between a
//! `&str` and the characters it holds.

use vstd::prelude::*;
use vstd::utf8::{decode_utf8, valid_utf8};

verus! {

broadcast use vstd::string::axiom_spec_iter;

/// Unicode `White_Space`: the characters `char::is_whitespace` accepts.
pub open spec fn is_ws(c: char) -> bool {
    ||| ('\u{9}' <= c && c <= '\u{d}')
    ||| c == ' '
    ||| c == '\u{85}'
    ||| c == '\u{a0}'
    ||| c == '\u{1680}'
    ||| ('\u{2000}' <= c && c <= '\u{200a}')
    ||| c == '\u{2028}'
    ||| c == '\u{2029}'
    ||| c == '\u{202f}'
    ||| c == '\u{205f}'
    ||| c == '\u{3000}'
}

/// `c.is_whitespace()`.
pub fn is_whitespace(c: char) -> (r: bool)
    ensures
        r == is_ws(c),
{
    ('\u{9}' <= c && c <= '\u{d}') || c == ' ' || c == '\u{85}' || c == '\u{a0}' || c
        == '\u{1680}' || ('\u{2000}' <= c && c <= '\u{200a}') || c == '\u{2028}' || c
        == '\u{2029}' || c == '\u{202f}' || c == '\u{205f}' || c == '\u{3000}'
}

/// `i` is where the leading white space of `s` ends.
pub open spec fn is_lead_end(s: Seq<char>, i: int) -> bool {
    &&& 0 <= i <= s.len()
    &&& forall|j: int| 0 <= j < i ==> is_ws(#[trigger] s[j])
    &&& (i == s.len() || !is_ws(s[i]))
}

/// `i` is where the trailing white space of `s` begins.
pub open spec fn is_trail_start(s: Seq<char>, i: int) -> bool {
    &&& 0 <= i <= s.len()
    &&& forall|j: int| i <= j < s.len() ==> is_ws(#[trigger] s[j])
    &&& (i == 0 || !is_ws(s[i - 1]))
}

/// Number of leading white-space characters.
pub open spec fn lead_len(s: Seq<char>) -> int {
    choose|i: int| is_lead_end(s, i)
}

/// Length of `s` without its trailing white space.
pub open spec fn trail_start(s: Seq<char>) -> int {
    choose|i: int| is_trail_start(s, i)
}

/// `str::trim_start`.
pub open spec fn trim_start(s: Seq<char>) -> Seq<char> {
    s.skip(lead_len(s))
}

/// `str::trim_end`.
pub open spec fn trim_end(s: Seq<char>) -> Seq<char> {
    s.take(trail_start(s))
}

/// `str::trim`.
pub open spec fn trim(s: Seq<char>) -> Seq<char> {
    trim_end(trim_start(s))
}

pub proof fn lemma_lead_end_unique(s: Seq<char>, i: int)
    requires
        is_lead_end(s, i),
    ensures
        lead_len(s) == i,
{
    assert(exists|k: int| is_lead_end(s, k));
    let k = lead_len(s);
    if k < i {
        assert(is_ws(s[k]));
    } else if i < k {
        assert(is_ws(s[i]));
    }
}

proof fn lead_witness(s: Seq<char>) -> (i: int)
    ensures
        is_lead_end(s, i),
    decreases s.len(),
{
    if s.len() == 0 || !is_ws(s[0]) {
        0
    } else {
        let j = lead_witness(s.drop_first());
        assert forall|k: int| 0 <= k < j + 1 implies is_ws(#[trigger] s[k]) by {
            if k > 0 {
                assert(s[k] == s.drop_first()[k - 1]);
            }
        }
        if j + 1 < s.len() {
            assert(s[j + 1] == s.drop_first()[j]);
        }
        j + 1
    }
}

/// Every text has a place where its leading white space ends.
pub proof fn lemma_lead_exists(s: Seq<char>)
    ensures
        is_lead_end(s, lead_len(s)),
{
    let w = lead_witness(s);
    lemma_lead_end_unique(s, w);
}

pub proof fn lemma_trail_start_unique(s: Seq<char>, i: int)
    requires
        is_trail_start(s, i),
    ensures
        trail_start(s) == i,
{
    assert(exists|k: int| is_trail_start(s, k));
    let k = trail_start(s);
    if k < i {
        assert(is_ws(s[i - 1]));
    } else if i < k {
        assert(is_ws(s[k - 1]));
    }
}

proof fn trail_witness(s: Seq<char>) -> (i: int)
    ensures
        is_trail_start(s, i),
    decreases s.len(),
{
    if s.len() == 0 || !is_ws(s.last()) {
        s.len() as int
    } else {
        let j = trail_witness(s.drop_last());
        assert forall|k: int| j <= k < s.len() implies is_ws(#[trigger] s[k]) by {
            if k < s.len() - 1 {
                assert(s[k] == s.drop_last()[k]);
            }
        }
        if j > 0 {
            assert(s[j - 1] == s.drop_last()[j - 1]);
        }
        j
    }
}

/// Every text has a place where its trailing white space begins.
pub proof fn lemma_trail_exists(s: Seq<char>)
    ensures
        is_trail_start(s, trail_start(s)),
{
    let w = trail_witness(s);
    lemma_trail_start_unique(s, w);
}

/// A text that opens with a non-blank character keeps it in front
/// when trimmed.
pub proof fn lemma_trim_keeps_first(s: Seq<char>)
    requires
        s.len() > 0,
        !is_ws(s[0]),
    ensures
        trim(s).len() > 0,
        trim(s)[0] == s[0],
{
    lemma_lead_end_unique(s, 0);
    assert(s.skip(0) =~= s);
    lemma_trail_exists(s);
    assert(trail_start(s) > 0);
}

/// `i` is the first position of `c` in `s`.
pub open spec fn is_first(s: Seq<char>, c: char, i: int) -> bool {
    &&& 0 <= i < s.len()
    &&& s[i] == c
    &&& forall|j: int| 0 <= j < i ==> #[trigger] s[j] != c
}

/// The first position of `c` in `s`, if any.
pub open spec fn find_char(s: Seq<char>, c: char) -> Option<int> {
    if s.contains(c) {
        Some(choose|i: int| is_first(s, c, i))
    } else {
        None
    }
}

pub proof fn lemma_first_unique(s: Seq<char>, c: char, i: int)
    requires
        is_first(s, c, i),
    ensures
        find_char(s, c) == Some(i),
{
    assert(s.contains(c));
    assert(exists|k: int| is_first(s, c, k));
    let k = choose|k: int| is_first(s, c, k);
    if k < i {
        assert(s[k] == c);
    } else if i < k {
        assert(s[i] == c);
    }
}

pub proof fn lemma_find_char(s: Seq<char>, c: char)
    ensures
        match find_char(s, c) {
            Some(i) => is_first(s, c, i),
            None => !s.contains(c),
        },
    decreases s.len(),
{
    if s.contains(c) {
        if s[0] == c {
            assert(is_first(s, c, 0));
        } else {
            let j = choose|j: int| 0 <= j < s.len() && s[j] == c;
            assert(s.drop_first()[j - 1] == c);
            lemma_find_char(s.drop_first(), c);
            let i = find_char(s.drop_first(), c)->0;
            assert forall|k: int| 0 <= k < i + 1 implies #[trigger] s[k] != c by {
                if k > 0 {
                    assert(s[k] == s.drop_first()[k - 1]);
                }
            }
            assert(is_first(s, c, i + 1));
        }
    }
}

/// `str::split_once` on a character.
pub open spec fn split_once(s: Seq<char>, c: char) -> Option<(Seq<char>, Seq<char>)> {
    match find_char(s, c) {
        Some(i) => Some((s.take(i), s.skip(i + 1))),
        None => None,
    }
}

/// `s` begins with `p`.
pub open spec fn starts_with(s: Seq<char>, p: Seq<char>) -> bool {
    p.len() <= s.len() && s.take(p.len() as int) == p
}

/// `i` is the first white-space position of `s`.
pub open spec fn is_first_ws(s: Seq<char>, i: int) -> bool {
    &&& 0 <= i < s.len()
    &&& is_ws(s[i])
    &&& forall|j: int| 0 <= j < i ==> !is_ws(#[trigger] s[j])
}

/// `i` is the last white-space position of `s`.
pub open spec fn is_last_ws(s: Seq<char>, i: int) -> bool {
    &&& 0 <= i < s.len()
    &&& is_ws(s[i])
    &&& forall|j: int| i < j < s.len() ==> !is_ws(#[trigger] s[j])
}

pub open spec fn has_ws(s: Seq<char>) -> bool {
    exists|i: int| 0 <= i < s.len() && is_ws(#[trigger] s[i])
}

pub open spec fn first_ws(s: Seq<char>) -> int {
    choose|i: int| is_first_ws(s, i)
}

pub open spec fn last_ws(s: Seq<char>) -> int {
    choose|i: int| is_last_ws(s, i)
}

pub proof fn lemma_first_ws_unique(s: Seq<char>, i: int)
    requires
        is_first_ws(s, i),
    ensures
        first_ws(s) == i,
{
    assert(exists|k: int| is_first_ws(s, k));
    let k = first_ws(s);
    if k < i {
        assert(!is_ws(s[k]));
    } else if i < k {
        assert(!is_ws(s[i]));
    }
}

pub proof fn lemma_last_ws_unique(s: Seq<char>, i: int)
    requires
        is_last_ws(s, i),
    ensures
        last_ws(s) == i,
{
    assert(exists|k: int| is_last_ws(s, k));
    let k = last_ws(s);
    if k < i {
        assert(!is_ws(s[i]));
    } else if i < k {
        assert(!is_ws(s[k]));
    }
}

/// The characters of `s`.
pub fn chars_of(s: &str) -> (v: Vec<char>)
    ensures
        v@ == s@,
{
    let mut v: Vec<char> = Vec::new();
    for c in it: s.chars()
        invariant
            v@ == it.seq().take(it.index() as int),
            it.seq() == s@,
    {
        v.push(c);
    }
    assert(v@ =~= s@);
    v
}

/// `String::push`.
#[verifier::external_body]
pub(crate) fn push_char(s: &mut String, c: char)
    ensures
        final(s)@ == old(s)@.push(c),
{
    s.push(c);
}

/// What `String::from_utf8_lossy` makes of a byte string.
pub uninterp spec fn lossy_utf8(b: Seq<u8>) -> Seq<char>;

/// `String::from_utf8_lossy`, owned: its result is [`lossy_utf8`] of the
/// bytes. As its documentation says, bytes that are valid UTF-8 read back
/// as the characters they encode, and otherwise each invalid sequence
/// becomes U+FFFD, so the result then holds at least one U+FFFD. Which
/// bytes make up one invalid sequence is left unsaid.
#[verifier::external_body]
pub(crate) fn utf8_lossy(bytes: &[u8]) -> (s: String)
    ensures
        s@ == lossy_utf8(bytes@),
        valid_utf8(bytes@) ==> s@ == decode_utf8(bytes@),
        !valid_utf8(bytes@) ==> s@.contains('\u{FFFD}'),
{
    String::from_utf8_lossy(bytes).into_owned()
}

/// Append the characters of `t` to `s`.
pub fn push_chars(s: &mut String, t: &Vec<char>)
    ensures
        final(s)@ == old(s)@ + t@,
{
    let mut i: usize = 0;
    while i < t.len()
        invariant
            i <= t.len(),
            s@ == old(s)@ + t@.take(i as int),
        decreases t.len() - i,
    {
        push_char(s, t[i]);
        i = i + 1;
        assert(t@.take(i as int) =~= t@.take((i - 1) as int).push(t@[i - 1]));
    }
    assert(t@.take(i as int) =~= t@);
}

/// Append the characters of `t` to `s`.
pub fn push_str_chars(s: &mut String, t: &str)
    ensures
        final(s)@ == old(s)@ + t@,
{
    let v = chars_of(t);
    push_chars(s, &v);
}

/// A string holding exactly the characters of `v`.
pub fn string_of(v: &Vec<char>) -> (r: String)
    ensures
        r@ == v@,
{
    let mut r = String::new();
    push_chars(&mut r, v);
    r
}

/// Number of leading white-space characters in `v`.
pub fn lead_ws(v: &Vec<char>) -> (i: usize)
    ensures
        i == lead_len(v@),
        is_lead_end(v@, i as int),
{
    let mut i: usize = 0;
    while i < v.len() && is_whitespace(v[i])
        invariant
            i <= v.len(),
            forall|j: int| 0 <= j < i ==> is_ws(#[trigger] v@[j]),
        decreases v.len() - i,
    {
        i = i + 1;
    }
    proof {
        lemma_lead_end_unique(v@, i as int);
    }
    i
}

/// Length of `v` without its trailing white space.
pub fn trail_ws(v: &Vec<char>) -> (i: usize)
    ensures
        i == trail_start(v@),
        is_trail_start(v@, i as int),
{
    let mut i: usize = v.len();
    while i > 0 && is_whitespace(v[i - 1])
        invariant
            i <= v.len(),
            forall|j: int| i <= j < v.len() ==> is_ws(#[trigger] v@[j]),
        decreases i,
    {
        i = i - 1;
    }
    proof {
        lemma_trail_start_unique(v@, i as int);
    }
    i
}

/// The characters `v[lo..hi]`.
pub fn slice_chars(v: &Vec<char>, lo: usize, hi: usize) -> (r: Vec<char>)
    requires
        lo <= hi <= v.len(),
    ensures
        r@ == v@.subrange(lo as int, hi as int),
{
    let mut r: Vec<char> = Vec::new();
    let mut i = lo;
    while i < hi
        invariant
            lo <= i <= hi <= v.len(),
            r@ == v@.subrange(lo as int, i as int),
        decreases hi - i,
    {
        r.push(v[i]);
        i = i + 1;
        assert(r@ =~= v@.subrange(lo as int, i as int));
    }
    r
}

/// `v` with its leading and trailing white space removed.
pub fn trim_chars(v: &Vec<char>) -> (r: Vec<char>)
    ensures
        r@ == trim(v@),
{
    let lo = lead_ws(v);
    let t = slice_chars(v, lo, v.len());
    assert(t@ == trim_start(v@));
    let hi = trail_ws(&t);
    slice_chars(&t, 0, hi)
}

/// The first position at or after `from` where `c` occurs in `v`.
pub fn find_char_from(v: &Vec<char>, c: char, from: usize) -> (r: Option<usize>)
    requires
        from <= v.len(),
    ensures
        match r {
            Some(i) => from <= i < v.len() && v@[i as int] == c && forall|j: int|
                from <= j < i ==> #[trigger] v@[j] != c,
            None => forall|j: int| from <= j < v.len() ==> #[trigger] v@[j] != c,
        },
{
    let mut i = from;
    while i < v.len()
        invariant
            from <= i <= v.len(),
            forall|j: int| from <= j < i ==> #[trigger] v@[j] != c,
        decreases v.len() - i,
    {
        if v[i] == c {
            return Some(i);
        }
        i = i + 1;
    }
    None
}

/// The first position of `c` in `v`, as [`find_char`] states it.
pub fn find_first(v: &Vec<char>, c: char) -> (r: Option<usize>)
    ensures
        match r {
            Some(i) => find_char(v@, c) == Some(i as int) && is_first(v@, c, i as int),
            None => find_char(v@, c) is None && !v@.contains(c),
        },
{
    let r = find_char_from(v, c, 0);
    match r {
        Some(i) => {
            proof {
                lemma_first_unique(v@, c, i as int);
            }
        },
        None => {
            assert(!v@.contains(c));
        },
    }
    r
}

/// `str::split_once` on a character.
pub fn split_once_chars(v: &Vec<char>, c: char) -> (r: Option<(Vec<char>, Vec<char>)>)
    ensures
        match split_once(v@, c) {
            Some((a, b)) => r matches Some((x, y)) && x@ == a && y@ == b,
            None => r is None,
        },
{
    let n = v.len();
    match find_first(v, c) {
        Some(i) => {
            assert(is_first(v@, c, i as int));
            let a = slice_chars(v, 0, i);
            let b = slice_chars(v, i + 1, n);
            assert(a@ =~= v@.take(i as int));
            assert(b@ =~= v@.skip(i + 1));
            Some((a, b))
        },
        None => None,
    }
}

/// The first white-space position of `v`, if any.
pub fn find_first_ws(v: &Vec<char>) -> (r: Option<usize>)
    ensures
        match r {
            Some(i) => is_first_ws(v@, i as int) && first_ws(v@) == i,
            None => !has_ws(v@),
        },
{
    let mut i: usize = 0;
    while i < v.len()
        invariant
            i <= v.len(),
            forall|j: int| 0 <= j < i ==> !is_ws(#[trigger] v@[j]),
        decreases v.len() - i,
    {
        if is_whitespace(v[i]) {
            proof {
                lemma_first_ws_unique(v@, i as int);
            }
            return Some(i);
        }
        i = i + 1;
    }
    None
}

/// The last white-space position of `v`, if any.
pub fn find_last_ws(v: &Vec<char>) -> (r: Option<usize>)
    ensures
        match r {
            Some(i) => is_last_ws(v@, i as int) && last_ws(v@) == i,
            None => !has_ws(v@),
        },
{
    let mut i: usize = v.len();
    while i > 0
        invariant
            i <= v.len(),
            forall|j: int| i <= j < v.len() ==> !is_ws(#[trigger] v@[j]),
        decreases i,
    {
        if is_whitespace(v[i - 1]) {
            proof {
                lemma_last_ws_unique(v@, i - 1);
            }
            return Some(i - 1);
        }
        i = i - 1;
    }
    None
}

/// Whether `v` begins with the characters of `p`.
pub fn chars_start_with(v: &Vec<char>, p: &Vec<char>) -> (r: bool)
    ensures
        r == starts_with(v@, p@),
{
    if p.len() > v.len() {
        return false;
    }
    let mut i: usize = 0;
    while i < p.len()
        invariant
            p.len() <= v.len(),
            i <= p.len(),
            forall|j: int| 0 <= j < i ==> v@[j] == p@[j],
        decreases p.len() - i,
    {
        if v[i] != p[i] {
            assert(v@.take(p.len() as int)[i as int] != p@[i as int]);
            return false;
        }
        i = i + 1;
    }
    assert(v@.take(p.len() as int) =~= p@);
    true
}

/// Whether the two character sequences are equal.
pub fn chars_eq(a: &Vec<char>, b: &Vec<char>) -> (r: bool)
    ensures
        r == (a@ == b@),
{
    if a.len() != b.len() {
        return false;
    }
    let mut i: usize = 0;
    while i < a.len()
        invariant
            a.len() == b.len(),
            i <= a.len(),
            forall|j: int| 0 <= j < i ==> a@[j] == b@[j],
        decreases a.len() - i,
    {
        if a[i] != b[i] {
            return false;
        }
        i = i + 1;
    }
    assert(a@ =~= b@);
    true
}

/// Whether `v` spells the literal `lit`.
pub fn spells(v: &Vec<char>, lit: &str) -> (r: bool)
    ensures
        r == (v@ == lit@),
{
    let w = chars_of(lit);
    chars_eq(v, &w)
}

// ---------------------------------------------------------------
// Substrings
// ---------------------------------------------------------------

/// `p` occurs in `s` at position `i`.
pub open spec fn occurs_at(s: Seq<char>, p: Seq<char>, i: int) -> bool {
    0 <= i && i + p.len() <= s.len() && s.subrange(i, i + p.len()) == p
}

/// `i` is the first position where `p` occurs in `s`.
pub open spec fn is_first_occurrence(s: Seq<char>, p: Seq<char>, i: int) -> bool {
    occurs_at(s, p, i) && forall|j: int| 0 <= j < i ==> !#[trigger] occurs_at(s, p, j)
}

/// `str::contains` for a string pattern.
pub open spec fn contains_sub(s: Seq<char>, p: Seq<char>) -> bool {
    exists|i: int| #[trigger] occurs_at(s, p, i)
}

/// `str::find` for a string pattern.
pub open spec fn find_sub(s: Seq<char>, p: Seq<char>) -> Option<int> {
    if contains_sub(s, p) {
        Some(choose|i: int| is_first_occurrence(s, p, i))
    } else {
        None
    }
}

/// `str::replacen(p, r, 1)`: the first occurrence of `p` replaced by
/// `r`, or `s` unchanged when `p` does not occur.
pub open spec fn replace_first(s: Seq<char>, p: Seq<char>, r: Seq<char>) -> Seq<char> {
    match find_sub(s, p) {
        Some(i) => s.take(i) + r + s.skip(i + p.len()),
        None => s,
    }
}

pub proof fn lemma_first_occurrence_unique(s: Seq<char>, p: Seq<char>, i: int)
    requires
        is_first_occurrence(s, p, i),
    ensures
        find_sub(s, p) == Some(i),
{
    assert(contains_sub(s, p));
    assert(exists|k: int| is_first_occurrence(s, p, k));
    let k = choose|k: int| is_first_occurrence(s, p, k);
    if k < i {
        assert(!occurs_at(s, p, k));
    } else if i < k {
        assert(!occurs_at(s, p, i));
    }
}

/// Whether `p` occurs in `v` at `i`.
pub fn occurs_at_exec(v: &Vec<char>, p: &Vec<char>, i: usize) -> (r: bool)
    ensures
        r == occurs_at(v@, p@, i as int),
{
    if i > v.len() || p.len() > v.len() - i {
        return false;
    }
    let mut j: usize = 0;
    while j < p.len()
        invariant
            i + p.len() <= v.len(),
            j <= p.len(),
            forall|k: int| 0 <= k < j ==> v@[i + k] == p@[k],
        decreases p.len() - j,
    {
        if v[i + j] != p[j] {
            assert(v@.subrange(i as int, i + p.len())[j as int] != p@[j as int]);
            return false;
        }
        j = j + 1;
    }
    assert(v@.subrange(i as int, i + p.len()) =~= p@);
    true
}

/// The first position of `p` in `v`, as [`find_sub`] states it.
pub fn find_sub_exec(v: &Vec<char>, p: &Vec<char>) -> (r: Option<usize>)
    ensures
        match r {
            Some(i) => find_sub(v@, p@) == Some(i as int) && occurs_at(v@, p@, i as int),
            None => find_sub(v@, p@) is None && !contains_sub(v@, p@),
        },
{
    if p.len() > v.len() {
        assert forall|i: int| !#[trigger] occurs_at(v@, p@, i) by {}
        return None;
    }
    let last = v.len() - p.len();
    let mut i: usize = 0;
    loop
        invariant
            last == v.len() - p.len(),
            i <= last,
            forall|j: int| 0 <= j < i ==> !#[trigger] occurs_at(v@, p@, j),
        ensures
            forall|j: int| 0 <= j <= last ==> !#[trigger] occurs_at(v@, p@, j),
        decreases last - i,
    {
        if occurs_at_exec(v, p, i) {
            proof {
                lemma_first_occurrence_unique(v@, p@, i as int);
            }
            return Some(i);
        }
        if i == last {
            break;
        }
        i = i + 1;
    }
    assert forall|j: int| !#[trigger] occurs_at(v@, p@, j) by {
        if 0 <= j <= last {
        }
    }
    None
}

/// `s.replacen(p, r, 1)` on characters.
pub fn replace_first_exec(v: &Vec<char>, p: &Vec<char>, r: &Vec<char>) -> (out: Vec<char>)
    ensures
        out@ == replace_first(v@, p@, r@),
{
    match find_sub_exec(v, p) {
        Some(i) => {
            assert(occurs_at(v@, p@, i as int));
            let n = v.len();
            let pl = p.len();
            assert(i + pl <= n);
            let tail = slice_chars(v, i + pl, n);
            let mut out = slice_chars(v, 0, i);
            let mut k: usize = 0;
            let ghost head = out@;
            while k < r.len()
                invariant
                    k <= r.len(),
                    out@ == head + r@.take(k as int),
                decreases r.len() - k,
            {
                out.push(r[k]);
                k = k + 1;
                assert(out@ =~= head + r@.take(k as int));
            }
            assert(r@.take(k as int) =~= r@);
            let ghost mid = out@;
            let mut m: usize = 0;
            while m < tail.len()
                invariant
                    m <= tail.len(),
                    out@ == mid + tail@.take(m as int),
                decreases tail.len() - m,
            {
                out.push(tail[m]);
                m = m + 1;
                assert(out@ =~= mid + tail@.take(m as int));
            }
            assert(tail@.take(m as int) =~= tail@);
            assert(out@ =~= v@.take(i as int) + r@ + v@.skip(i + p@.len()));
            out
        },
        None => slice_chars(v, 0, v.len()),
    }
}

} // verus!
