//! Outline text: re-levelling the headings of a subtree's source, and
//! finding an `:ID:` inside one.

use crate::text::{
    chars_eq, chars_of, chars_start_with, find_char_from, push_char, push_chars, slice_chars,
    lemma_trim_keeps_first, starts_with, string_of, trim, trim_chars,
};
use vstd::prelude::*;

verus! {

/// Length of the first line of `s`, its `\n` included.
pub open spec fn line_len(s: Seq<char>) -> int
    decreases s.len(),
{
    if s.len() == 0 {
        0
    } else if s[0] == '\n' {
        1
    } else {
        1 + line_len(s.drop_first())
    }
}

pub proof fn lemma_line_len(s: Seq<char>)
    ensures
        s.len() > 0 ==> 1 <= line_len(s) <= s.len(),
        s.len() == 0 ==> line_len(s) == 0,
        forall|j: int| 0 <= j < line_len(s) - 1 ==> #[trigger] s[j] != '\n',
        line_len(s) < s.len() ==> s[line_len(s) - 1] == '\n',
        line_len(s) == s.len() && s.len() > 0 ==> (s[s.len() - 1] == '\n' || forall|j: int|
            0 <= j < s.len() ==> #[trigger] s[j] != '\n'),
    decreases s.len(),
{
    if s.len() > 0 && s[0] != '\n' {
        lemma_line_len(s.drop_first());
        assert forall|j: int| 0 <= j < line_len(s) - 1 implies #[trigger] s[j] != '\n' by {
            if j > 0 {
                assert(s[j] == s.drop_first()[j - 1]);
            }
        }
        if line_len(s) == s.len() && s[s.len() - 1] != '\n' {
            assert forall|j: int| 0 <= j < s.len() implies #[trigger] s[j] != '\n' by {
                if j > 0 {
                    assert(s[j] == s.drop_first()[j - 1]);
                }
            }
        }
    }
}

/// `line_len` is where the first `\n` at or after the start sits, plus one.
pub proof fn lemma_line_len_at(s: Seq<char>, e: int)
    requires
        0 < e <= s.len(),
        forall|j: int| 0 <= j < e - 1 ==> #[trigger] s[j] != '\n',
        s[e - 1] == '\n' || e == s.len(),
    ensures
        line_len(s) == e,
    decreases s.len(),
{
    if s[0] != '\n' {
        if e > 1 {
            assert forall|j: int| 0 <= j < e - 2 implies #[trigger] s.drop_first()[j] != '\n' by {
                assert(s.drop_first()[j] == s[j + 1]);
            }
            lemma_line_len_at(s.drop_first(), e - 1);
        } else {
            assert(e == s.len());
            assert(s.drop_first().len() == 0);
        }
    }
}

/// Number of leading `*` of `s`.
pub open spec fn star_run(s: Seq<char>) -> int
    decreases s.len(),
{
    if s.len() > 0 && s[0] == '*' {
        1 + star_run(s.drop_first())
    } else {
        0
    }
}

pub proof fn lemma_star_run(s: Seq<char>, k: int)
    requires
        0 <= k <= s.len(),
        forall|j: int| 0 <= j < k ==> #[trigger] s[j] == '*',
        k == s.len() || s[k] != '*',
    ensures
        star_run(s) == k,
    decreases s.len(),
{
    if k > 0 {
        assert forall|j: int| 0 <= j < k - 1 implies #[trigger] s.drop_first()[j] == '*' by {
            assert(s.drop_first()[j] == s[j + 1]);
        }
        lemma_star_run(s.drop_first(), k - 1);
    }
}

/// A line is a heading when one or more stars are followed by a space
/// or a tab; a body line opening with a star is escaped on disk, so it
/// is not one.
pub open spec fn is_heading(line: Seq<char>) -> bool {
    let k = star_run(line);
    k > 0 && k < line.len() && (line[k] == ' ' || line[k] == '\t')
}

/// The star count as a level, the way the store reads it into an
/// `i16` (a count too large for one reads as level 1).
pub open spec fn level_of_stars(k: int) -> int {
    if k <= i16::MAX {
        k
    } else {
        1
    }
}

/// The new level of a heading with `k` stars moved by `delta`: never
/// less than one.
pub open spec fn shifted_level(k: int, delta: int) -> int {
    let l = level_of_stars(k) + delta;
    if l < 1 {
        1
    } else {
        l
    }
}

pub open spec fn stars(n: int) -> Seq<char> {
    Seq::new(n as nat, |i: int| '*')
}

/// One line with its heading, if it is one, moved by `delta` levels.
pub open spec fn shift_line(line: Seq<char>, delta: int) -> Seq<char> {
    if is_heading(line) {
        stars(shifted_level(star_run(line), delta)) + line.skip(star_run(line))
    } else {
        line
    }
}

#[via_fn]
proof fn shift_text_decreases(s: Seq<char>, delta: int) {
    lemma_line_len(s);
}

/// Every line of `s` with its heading moved by `delta` levels.
pub open spec fn shift_text(s: Seq<char>, delta: int) -> Seq<char>
    decreases s.len(),
    via shift_text_decreases
{
    if s.len() == 0 {
        s
    } else {
        shift_line(s.take(line_len(s)), delta) + shift_text(s.skip(line_len(s)), delta)
    }
}

#[via_fn]
proof fn shift_fits_decreases(s: Seq<char>, delta: int) {
    lemma_line_len(s);
}

/// Moving every heading of `s` by `delta` stays inside an `i16`.
pub open spec fn shift_fits(s: Seq<char>, delta: int) -> bool
    decreases s.len(),
    via shift_fits_decreases
{
    if s.len() == 0 {
        true
    } else {
        let line = s.take(line_len(s));
        (is_heading(line) ==> i16::MIN <= level_of_stars(star_run(line)) + delta <= i16::MAX)
            && shift_fits(s.skip(line_len(s)), delta)
    }
}

/// What [`shift_subtree_levels`] returns.
pub open spec fn shifted_subtree(s: Seq<char>, delta: int) -> Seq<char> {
    if delta == 0 {
        s
    } else {
        shift_text(s, delta)
    }
}

/// Number of leading stars of `v`.
fn count_stars(v: &Vec<char>) -> (k: usize)
    ensures
        k == star_run(v@),
        k <= v.len(),
{
    let mut k: usize = 0;
    while k < v.len() && v[k] == '*'
        invariant
            k <= v.len(),
            forall|j: int| 0 <= j < k ==> #[trigger] v@[j] == '*',
        decreases v.len() - k,
    {
        k = k + 1;
    }
    proof {
        lemma_star_run(v@, k as int);
    }
    k
}

/// One line, its heading (if any) moved by `delta` levels.
fn shift_one_line(line: &Vec<char>, delta: i16, out: &mut String)
    requires
        is_heading(line@) ==> i16::MIN <= level_of_stars(star_run(line@)) + delta <= i16::MAX,
    ensures
        final(out)@ == old(out)@ + shift_line(line@, delta as int),
{
    let k = count_stars(line);
    let heading = k > 0 && k < line.len() && (line[k] == ' ' || line[k] == '\t');
    if heading {
        let base: i16 = if k <= 32767 {
            k as i16
        } else {
            1
        };
        let level = base + delta;
        let level: i16 = if level < 1 {
            1
        } else {
            level
        };
        let n = level as usize;
        let mut j: usize = 0;
        let ghost start = out@;
        while j < n
            invariant
                j <= n,
                out@ == start + stars(j as int),
            decreases n - j,
        {
            push_char(out, '*');
            j = j + 1;
            assert(out@ =~= start + stars(j as int));
        }
        let rest = slice_chars(line, k, line.len());
        assert(rest@ =~= line@.skip(k as int));
        push_chars(out, &rest);
        assert(out@ =~= start + shift_line(line@, delta as int));
    } else {
        push_chars(out, line);
    }
}

/// Shift every heading in a subtree's source by `delta` stars, so a
/// tree filed under a deeper parent nests the way it read before.
///
/// Only lines that are headings move: a body line that begins with a
/// star is escaped on disk (`,*`), so it is not one and must not grow a
/// star.
pub fn shift_subtree_levels(subtree: &str, delta: i16) -> (r: String)
    requires
        delta != 0 ==> shift_fits(subtree@, delta as int),
    ensures
        r@ == shifted_subtree(subtree@, delta as int),
{
    if delta == 0 {
        return subtree.to_owned();
    }
    let v = chars_of(subtree);
    let mut out = String::new();
    let mut i: usize = 0;
    assert(v@.skip(0) =~= v@);
    while i < v.len()
        invariant
            i <= v.len(),
            out@ + shift_text(v@.skip(i as int), delta as int) == shift_text(v@, delta as int),
            shift_fits(v@.skip(i as int), delta as int),
        decreases v.len() - i,
    {
        let ghost rest = v@.skip(i as int);
        let end = match find_char_from(&v, '\n', i) {
            Some(e) => e + 1,
            None => v.len(),
        };
        proof {
            assert forall|j: int| 0 <= j < end - i - 1 implies #[trigger] rest[j] != '\n' by {
                assert(rest[j] == v@[i + j]);
            }
            lemma_line_len_at(rest, end - i);
            assert(rest.skip(end - i) =~= v@.skip(end as int));
        }
        let line = slice_chars(&v, i, end);
        assert(line@ =~= rest.take(end - i));
        let ghost before = out@;
        shift_one_line(&line, delta, &mut out);
        assert(out@ == before + shift_line(rest.take(line_len(rest)), delta as int));
        assert(shift_text(rest, delta as int) == shift_line(rest.take(line_len(rest)), delta as int)
            + shift_text(v@.skip(end as int), delta as int));
        i = end;
    }
    assert(v@.skip(i as int) =~= Seq::<char>::empty());
    out
}

#[via_fn]
proof fn headings_fit_twice_decreases(s: Seq<char>, a: int, b: int) {
    lemma_line_len(s);
}

/// Every heading of `s` keeps a readable level (at least one star, at
/// most `i16::MAX`) when moved by `a`, and at least one star when then
/// moved by `b`.
pub open spec fn headings_fit_twice(s: Seq<char>, a: int, b: int) -> bool
    decreases s.len(),
    via headings_fit_twice_decreases
{
    if s.len() == 0 {
        true
    } else {
        let line = s.take(line_len(s));
        let k = star_run(line);
        (is_heading(line) ==> k <= i16::MAX && 1 <= k + a <= i16::MAX && 1 <= k + a + b)
            && headings_fit_twice(s.skip(line_len(s)), a, b)
    }
}

/// A line: no `\n` but possibly its last character.
pub open spec fn is_line(x: Seq<char>) -> bool {
    forall|j: int| 0 <= j < x.len() - 1 ==> #[trigger] x[j] != '\n'
}

pub proof fn lemma_line_len_concat(x: Seq<char>, y: Seq<char>)
    requires
        x.len() > 0,
        is_line(x),
        x[x.len() - 1] == '\n' || y.len() == 0,
    ensures
        line_len(x + y) == x.len(),
        (x + y).take(x.len() as int) == x,
        (x + y).skip(x.len() as int) == y,
{
    let z = x + y;
    assert forall|j: int| 0 <= j < x.len() - 1 implies #[trigger] z[j] != '\n' by {
        assert(z[j] == x[j]);
    }
    lemma_line_len_at(z, x.len() as int);
    assert(z.take(x.len() as int) =~= x);
    assert(z.skip(x.len() as int) =~= y);
}

/// Moving one line's heading by `a`, then by `b`, is moving it by
/// `a + b`, and the moved line is still a line ending as it did.
proof fn lemma_shift_line_composes(line: Seq<char>, a: int, b: int)
    requires
        line.len() > 0,
        is_line(line),
        is_heading(line) ==> star_run(line) <= i16::MAX && 1 <= star_run(line) + a <= i16::MAX
            && 1 <= star_run(line) + a + b,
    ensures
        shift_line(shift_line(line, a), b) == shift_line(line, a + b),
        shift_line(line, a).len() > 0,
        is_line(shift_line(line, a)),
        shift_line(line, a)[shift_line(line, a).len() - 1] == line[line.len() - 1],
{
    if is_heading(line) {
        let k = star_run(line);
        let x = shift_line(line, a);
        let t = line.skip(k);
        assert(x == stars(k + a) + t);
        assert forall|j: int| 0 <= j < k + a implies #[trigger] x[j] == '*' by {}
        assert(x[k + a] == line[k]);
        lemma_star_run(x, k + a);
        assert(is_heading(x));
        assert(x.skip(k + a) =~= t);
        assert forall|j: int| 0 <= j < x.len() - 1 implies #[trigger] x[j] != '\n' by {
            if j >= k + a {
                assert(x[j] == line[j - a]);
            }
        }
        assert(x[x.len() - 1] == line[line.len() - 1]);
    }
}

/// Re-levelling composes: moving a subtree's headings by `a` and then
/// by `b` is moving them by `a + b`, as long as no heading is clamped
/// at level one or read back at a level other than its star count on
/// the way. This is what lets a refiled tree keep the shape it had.
pub proof fn law_shift_composes(s: Seq<char>, a: int, b: int)
    requires
        headings_fit_twice(s, a, b),
    ensures
        shift_text(shift_text(s, a), b) == shift_text(s, a + b),
    decreases s.len(),
{
    if s.len() > 0 {
        lemma_line_len(s);
        let n = line_len(s);
        let line = s.take(n);
        let rest = s.skip(n);
        assert(is_line(line));
        if n < s.len() {
            assert(line[n - 1] == '\n');
        }
        lemma_shift_line_composes(line, a, b);
        let x = shift_line(line, a);
        let t = shift_text(rest, a);
        if n == s.len() {
            assert(rest.len() == 0);
        }
        lemma_line_len_concat(x, t);
        law_shift_composes(rest, a, b);
        assert(shift_text(s, a) == x + t);
    }
}

proof fn lemma_star_prefix(s: Seq<char>)
    ensures
        0 <= star_run(s) <= s.len(),
        forall|j: int| 0 <= j < star_run(s) ==> #[trigger] s[j] == '*',
    decreases s.len(),
{
    if s.len() > 0 && s[0] == '*' {
        lemma_star_prefix(s.drop_first());
        assert forall|j: int| 0 <= j < star_run(s) implies #[trigger] s[j] == '*' by {
            if j > 0 {
                assert(s[j] == s.drop_first()[j - 1]);
            }
        }
    }
}

/// Moving headings by nothing leaves the text as it is, when every
/// heading's star count reads as its level.
proof fn lemma_shift_by_zero(s: Seq<char>, a: int, b: int)
    requires
        headings_fit_twice(s, a, b),
    ensures
        shift_text(s, 0) == s,
    decreases s.len(),
{
    if s.len() > 0 {
        lemma_line_len(s);
        let n = line_len(s);
        let line = s.take(n);
        lemma_shift_by_zero(s.skip(n), a, b);
        if is_heading(line) {
            let k = star_run(line);
            lemma_star_prefix(line);
            assert(stars(k) + line.skip(k) =~= line);
        }
        assert(line + s.skip(n) =~= s);
    }
}

/// Re-levelling undoes itself: moving a subtree's headings by `d` and
/// then by `-d` gives back the very text, as long as no heading is
/// clamped at level one or read back at a level other than its star
/// count on the way.
pub proof fn law_shift_round_trip(s: Seq<char>, d: int)
    requires
        headings_fit_twice(s, d, -d),
    ensures
        shifted_subtree(shifted_subtree(s, d), -d) == s,
{
    if d != 0 {
        law_shift_composes(s, d, -d);
        lemma_shift_by_zero(s, d, -d);
    }
}

/// A line carries the `:ID:` `id`: trimmed, it opens with `:ID:` and the
/// rest, trimmed, is `id`.
pub open spec fn is_id_line(line: Seq<char>, id: Seq<char>) -> bool {
    starts_with(trim(line), ":ID:"@) && trim(trim(line).skip(4)) == id
}

#[via_fn]
proof fn has_id_line_decreases(s: Seq<char>, id: Seq<char>) {
    lemma_line_len(s);
}

/// Some line of `s` carries the `:ID:` `id`.
pub open spec fn has_id_line(s: Seq<char>, id: Seq<char>) -> bool
    decreases s.len(),
    via has_id_line_decreases
{
    if s.len() == 0 {
        false
    } else {
        is_id_line(s.take(line_len(s)), id) || has_id_line(s.skip(line_len(s)), id)
    }
}

/// Moving a line's heading keeps it a line, ending as it did, and
/// carrying the `:ID:` it carried: a heading is never an id line.
proof fn lemma_shift_line_keeps_id(line: Seq<char>, a: int, id: Seq<char>)
    requires
        line.len() > 0,
        is_line(line),
    ensures
        shift_line(line, a).len() > 0,
        is_line(shift_line(line, a)),
        shift_line(line, a)[shift_line(line, a).len() - 1] == line[line.len() - 1],
        is_id_line(shift_line(line, a), id) == is_id_line(line, id),
{
    reveal_strlit(":ID:");
    if is_heading(line) {
        let k = star_run(line);
        let kk = shifted_level(k, a);
        let x = shift_line(line, a);
        let t = line.skip(k);
        assert(x == stars(kk) + t);
        assert(x[0] == '*');
        assert(line[0] == '*');
        assert forall|j: int| 0 <= j < x.len() - 1 implies #[trigger] x[j] != '\n' by {
            if j >= kk {
                assert(x[j] == t[j - kk]);
                assert(t[j - kk] == line[j - kk + k]);
            }
        }
        assert(x[x.len() - 1] == line[line.len() - 1]);
        lemma_trim_keeps_first(x);
        lemma_trim_keeps_first(line);
        if starts_with(trim(x), ":ID:"@) {
            assert(trim(x).take(4)[0] == trim(x)[0]);
        }
        if starts_with(trim(line), ":ID:"@) {
            assert(trim(line).take(4)[0] == trim(line)[0]);
        }
    }
}

/// Re-levelling keeps every id: a subtree carries an `:ID:` after its
/// headings move exactly when it did before, so a refiled note is the
/// same note and every `id:` link into it still resolves.
pub proof fn law_shift_keeps_ids(s: Seq<char>, delta: int, id: Seq<char>)
    ensures
        has_id_line(shifted_subtree(s, delta), id) == has_id_line(s, id),
    decreases s.len(),
{
    if delta != 0 && s.len() > 0 {
        lemma_line_len(s);
        let n = line_len(s);
        let line = s.take(n);
        let rest = s.skip(n);
        assert(is_line(line));
        if n < s.len() {
            assert(line[n - 1] == '\n');
        }
        lemma_shift_line_keeps_id(line, delta, id);
        let x = shift_line(line, delta);
        let t = shift_text(rest, delta);
        if n == s.len() {
            assert(rest.len() == 0);
        }
        lemma_line_len_concat(x, t);
        law_shift_keeps_ids(rest, delta, id);
        assert(shift_text(s, delta) == x + t);
    }
}

/// Whether a subtree's source carries the `:ID:` `id` — the guard
/// against filing a tree into one of its own branches.
pub fn subtree_contains(subtree: &str, id: &str) -> (r: bool)
    ensures
        r == has_id_line(subtree@, id@),
{
    let v = chars_of(subtree);
    let want = chars_of(id);
    let tag = chars_of(":ID:");
    proof {
        reveal_strlit(":ID:");
    }
    let mut i: usize = 0;
    assert(v@.skip(0) =~= v@);
    while i < v.len()
        invariant
            i <= v.len(),
            want@ == id@,
            v@ == subtree@,
            tag@ == ":ID:"@,
            tag@.len() == 4,
            has_id_line(v@, id@) == has_id_line(v@.skip(i as int), id@),
        decreases v.len() - i,
    {
        let ghost rest = v@.skip(i as int);
        let end = match find_char_from(&v, '\n', i) {
            Some(e) => e + 1,
            None => v.len(),
        };
        proof {
            assert forall|j: int| 0 <= j < end - i - 1 implies #[trigger] rest[j] != '\n' by {
                assert(rest[j] == v@[i + j]);
            }
            lemma_line_len_at(rest, end - i);
            assert(rest.skip(end - i) =~= v@.skip(end as int));
        }
        let line = slice_chars(&v, i, end);
        assert(line@ =~= rest.take(end - i));
        let t = trim_chars(&line);
        if chars_start_with(&t, &tag) {
            let after = slice_chars(&t, 4, t.len());
            assert(after@ =~= t@.skip(4));
            let value = trim_chars(&after);
            if chars_eq(&value, &want) {
                assert(is_id_line(rest.take(line_len(rest)), id@));
                assert(has_id_line(rest, id@));
                return true;
            }
        }
        i = end;
    }
    assert(v@.skip(i as int) =~= Seq::<char>::empty());
    false
}

} // verus!
