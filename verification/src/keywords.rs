//! The `#+TODO:` declaration at the top of a file: written once, only
//! when the file does not already declare every configured keyword,
//! and replacing any declaration the file had.

use crate::clock::{line_text, line_text_exec};
use crate::outline::{is_line, lemma_line_len, lemma_line_len_at, lemma_line_len_concat, line_len};
use crate::text::{chars_eq, chars_of, find_char_from, is_lead_end, is_ws, lead_len, lead_ws, lemma_lead_end_unique, push_char, push_chars, push_str_chars, slice_chars, trim_start};
use vstd::prelude::*;

verus! {

/// The number of bytes `c` takes in UTF-8.
pub open spec fn char_utf8_len(c: char) -> int {
    if (c as u32) < 0x80 {
        1
    } else if (c as u32) < 0x800 {
        2
    } else if (c as u32) < 0x10000 {
        3
    } else {
        4
    }
}

/// The number of bytes `s` takes in UTF-8.
pub open spec fn utf8_len(s: Seq<char>) -> int
    decreases s.len(),
{
    if s.len() == 0 {
        0
    } else {
        utf8_len(s.drop_last()) + char_utf8_len(s.last())
    }
}

/// Byte 7 of `t` is a character boundary, or `t` is shorter than 7
/// bytes: a seven-byte prefix of `t` can be sliced.
pub open spec fn seven_bytes_sliceable(t: Seq<char>) -> bool {
    utf8_len(t) < 7 || exists|k: int| 0 <= k <= t.len() && #[trigger] utf8_len(t.take(k)) == 7
}

/// `c` equals the lower-case ASCII pattern character `p`, ignoring
/// ASCII case.
pub open spec fn ascii_ci_eq(c: char, p: char) -> bool {
    c == p || ('a' <= p <= 'z' && (c as u32) + 32 == (p as u32))
}

/// A `#+TODO:` declaration line, compared as `eq_ignore_ascii_case` on
/// its first seven characters (after leading white space is trimmed).
pub open spec fn is_todo_decl(t: Seq<char>) -> bool {
    let pat = "#+todo:"@;
    t.len() >= 7 && forall|i: int| 0 <= i < 7 ==> #[trigger] ascii_ci_eq(t[i], pat[i])
}

#[via_fn]
proof fn kept_text_decreases(s: Seq<char>) {
    lemma_line_len(s);
}

/// The lines of `s` (as `str::lines` yields them) other than `#+TODO:`
/// declarations, each closed with a newline.
pub open spec fn kept_text(s: Seq<char>) -> Seq<char>
    decreases s.len(),
    via kept_text_decreases
{
    if s.len() == 0 {
        Seq::empty()
    } else {
        let l = line_text(s.take(line_len(s)));
        let head = if is_todo_decl(trim_start(l)) { Seq::empty() } else { l.push('\n') };
        head + kept_text(s.skip(line_len(s)))
    }
}

#[via_fn]
proof fn lines_sliceable_decreases(s: Seq<char>) {
    lemma_line_len(s);
}

/// Every line of `s`, trimmed at its start, can have its first seven
/// bytes sliced off.
pub open spec fn lines_sliceable(s: Seq<char>) -> bool
    decreases s.len(),
    via lines_sliceable_decreases
{
    if s.len() == 0 {
        true
    } else {
        seven_bytes_sliceable(trim_start(line_text(s.take(line_len(s)))))
            && lines_sliceable(s.skip(line_len(s)))
    }
}

/// The items of `xs` separated by `sep`.
pub open spec fn join(xs: Seq<Seq<char>>, sep: Seq<char>) -> Seq<char>
    decreases xs.len(),
{
    if xs.len() == 0 {
        Seq::empty()
    } else if xs.len() == 1 {
        xs[0]
    } else {
        join(xs.drop_last(), sep) + sep + xs.last()
    }
}

/// The declaration line: every keyword but the last before the `|`,
/// the last (the one that means finished) after it.
pub open spec fn todo_line(keywords: Seq<Seq<char>>) -> Seq<char> {
    "#+TODO: "@ + join(keywords.drop_last(), " "@) + " | "@ + keywords.last() + "\n"@
}

/// The views of a vector of strings.
pub open spec fn views(v: Seq<String>) -> Seq<Seq<char>> {
    v.map_values(|s: String| s@)
}

/// What making `source` declare `keywords` gives: `None` when there is
/// nothing to do (no keywords, or every one already declared), else the
/// declaration line on top of the source with its old declarations
/// dropped.
pub open spec fn todo_rewrite(source: Seq<char>, keywords: Seq<Seq<char>>, declared: Seq<Seq<char>>) -> Option<Seq<char>> {
    if keywords.len() == 0 {
        None
    } else if forall|i: int| 0 <= i < keywords.len() ==> declared.contains(#[trigger] keywords[i]) {
        None
    } else {
        Some(todo_line(keywords) + kept_text(source))
    }
}

/// The declaration is left alone exactly when there is nothing to
/// declare: no keywords, or every keyword already among the declared
/// ones. As soon as one keyword is not declared, the file gets the
/// declaration line for all the keywords on top of its other lines.
pub proof fn law_rewrite_only_when_a_keyword_is_missing(
    source: Seq<char>,
    keywords: Seq<Seq<char>>,
    declared: Seq<Seq<char>>,
)
    ensures
        (todo_rewrite(source, keywords, declared) is None) == (keywords.len() == 0 || forall|k: Seq<char>|
            #[trigger] keywords.contains(k) ==> declared.contains(k)),
        (exists|k: Seq<char>| #[trigger] keywords.contains(k) && !declared.contains(k)) ==> todo_rewrite(
            source,
            keywords,
            declared,
        ) == Some(todo_line(keywords) + kept_text(source)),
{
    if forall|k: Seq<char>| #[trigger] keywords.contains(k) ==> declared.contains(k) {
        assert forall|i: int| 0 <= i < keywords.len() implies declared.contains(#[trigger] keywords[i]) by {
            assert(keywords.contains(keywords[i]));
        }
    }
    if forall|i: int| 0 <= i < keywords.len() ==> declared.contains(#[trigger] keywords[i]) {
        assert forall|k: Seq<char>| #[trigger] keywords.contains(k) implies declared.contains(k) by {
            let i = choose|i: int| 0 <= i < keywords.len() && keywords[i] == k;
        }
    }
}

/// Whether `t` is a declaration line.
fn is_todo_decl_exec(t: &Vec<char>) -> (r: bool)
    ensures
        r == is_todo_decl(t@),
{
    let pat = chars_of("#+todo:");
    proof {
        reveal_strlit("#+todo:");
    }
    if t.len() < 7 {
        return false;
    }
    let mut i: usize = 0;
    while i < 7
        invariant
            i <= 7,
            t@.len() >= 7,
            pat@ == "#+todo:"@,
            pat@.len() == 7,
            forall|j: int| 0 <= j < i ==> #[trigger] ascii_ci_eq(t@[j], pat@[j]),
        decreases 7 - i,
    {
        let c = t[i];
        let p = pat[i];
        let ok = c == p || ('a' <= p && p <= 'z' && (c as u32) == (p as u32) - 32);
        if !ok {
            assert(!ascii_ci_eq(t@[i as int], pat@[i as int]));
            return false;
        }
        i = i + 1;
    }
    true
}

/// Whether `x` is one of `xs`.
fn contains_string(xs: &Vec<String>, x: &Vec<char>) -> (r: bool)
    ensures
        r == views(xs@).contains(x@),
{
    let mut i: usize = 0;
    while i < xs.len()
        invariant
            i <= xs.len(),
            forall|j: int| 0 <= j < i ==> xs@[j]@ != x@,
        decreases xs.len() - i,
    {
        let c = chars_of(xs[i].as_str());
        if chars_eq(&c, x) {
            assert(views(xs@)[i as int] == x@);
            return true;
        }
        i = i + 1;
    }
    assert forall|j: int| 0 <= j < views(xs@).len() implies views(xs@)[j] != x@ by {
        assert(views(xs@)[j] == xs@[j]@);
    }
    false
}

/// `s` with the items of `xs` appended, separated by `sep`.
fn push_joined(out: &mut String, xs: &Vec<String>, n: usize, sep: &str)
    requires
        n <= xs.len(),
    ensures
        final(out)@ == old(out)@ + join(views(xs@).take(n as int), sep@),
{
    let mut i: usize = 0;
    assert(views(xs@).take(0) =~= Seq::<Seq<char>>::empty());
    while i < n
        invariant
            i <= n <= xs.len(),
            out@ == old(out)@ + join(views(xs@).take(i as int), sep@),
        decreases n - i,
    {
        let ghost before = out@;
        if i > 0 {
            push_str_chars(out, sep);
        }
        push_str_chars(out, xs[i].as_str());
        proof {
            let t = views(xs@).take(i + 1);
            assert(t.drop_last() =~= views(xs@).take(i as int));
            assert(t.last() == xs@[i as int]@);
            if i == 0 {
                assert(t.len() == 1);
                assert(join(t, sep@) == t[0]);
                assert(before == old(out)@);
            }
        }
        i = i + 1;
    }
}

/// The lines of `source` other than `#+TODO:` declarations.
fn kept_lines(v: &Vec<char>) -> (r: String)
    requires
        lines_sliceable(v@),
    ensures
        r@ == kept_text(v@),
{
    let mut out = String::new();
    let mut i: usize = 0;
    assert(v@.skip(0) =~= v@);
    while i < v.len()
        invariant
            i <= v.len(),
            kept_text(v@) == out@ + kept_text(v@.skip(i as int)),
        decreases v.len() - i,
    {
        let ghost rest = v@.skip(i as int);
        let end = match find_char_from(v, '\n', i) {
            Some(e) => e + 1,
            None => v.len(),
        };
        proof {
            assert forall|j: int| 0 <= j < end - i - 1 implies #[trigger] rest[j] != '\n' by {
                assert(rest[j] == v@[i + j]);
            }
            lemma_line_len_at(rest, end - i);
            assert(rest.skip(end - i) =~= v@.skip(end as int));
            assert(rest.take(end - i) =~= v@.subrange(i as int, end as int));
        }
        let l = line_text_exec(v, i, end);
        let lo = lead_ws(&l);
        let n = l.len();
        let t = slice_chars(&l, lo, n);
        assert(t@ =~= trim_start(l@));
        let ghost before = out@;
        if !is_todo_decl_exec(&t) {
            push_chars(&mut out, &l);
            push_char(&mut out, '\n');
            assert(out@ =~= before + l@.push('\n'));
        } else {
            assert(before + Seq::<char>::empty() =~= before);
        }
        proof {
            assert(out@ + kept_text(v@.skip(end as int)) =~= before + kept_text(rest));
        }
        i = end;
    }
    assert(v@.skip(i as int) =~= Seq::<char>::empty());
    assert(out@ + Seq::<char>::empty() =~= out@);
    out
}

/// Make `source` declare `keywords` with a `#+TODO:` line, given the
/// keywords it declares now. `None` when nothing needs to change: no
/// keywords are configured, or every one is declared already.
/// Otherwise the declaration goes at the top, the last keyword after
/// the `|` (org's mark of "finished"), and the declarations the file
/// had are dropped rather than stacked. Lines come back the way
/// `str::lines` reads them, each closed with `\n`.
pub fn todo_declaration_rewrite(source: &str, keywords: &Vec<String>, declared: &Vec<String>) -> (r: Option<String>)
    requires
        lines_sliceable(source@),
    ensures
        match todo_rewrite(source@, views(keywords@), views(declared@)) {
            Some(s) => r matches Some(x) && x@ == s,
            None => r is None,
        },
{
    let n = keywords.len();
    if n == 0 {
        return None;
    }
    let mut all = true;
    let mut i: usize = 0;
    while i < n
        invariant
            i <= n == keywords.len(),
            all == forall|j: int| 0 <= j < i ==> views(declared@).contains(#[trigger] views(keywords@)[j]),
        decreases n - i,
    {
        let k = chars_of(keywords[i].as_str());
        let found = contains_string(declared, &k);
        proof {
            assert(views(keywords@)[i as int] == keywords@[i as int]@);
        }
        all = all && found;
        i = i + 1;
    }
    if all {
        return None;
    }
    let mut out = String::new();
    push_str_chars(&mut out, "#+TODO: ");
    push_joined(&mut out, keywords, n - 1, " ");
    push_str_chars(&mut out, " | ");
    push_str_chars(&mut out, keywords[n - 1].as_str());
    push_str_chars(&mut out, "\n");
    proof {
        assert(views(keywords@).take(n - 1) =~= views(keywords@).drop_last());
        assert(views(keywords@).last() == keywords@[n - 1]@);
    }
    let v = chars_of(source);
    let rest = kept_lines(&v);
    push_chars(&mut out, &chars_of(rest.as_str()));
    Some(out)
}

#[via_fn]
proof fn decl_count_decreases(t: Seq<char>) {
    lemma_line_len(t);
}

/// How many lines of `t` (as `str::lines` reads them) are `#+TODO:`
/// declarations.
pub open spec fn decl_count(t: Seq<char>) -> nat
    decreases t.len(),
    via decl_count_decreases
{
    if t.len() == 0 {
        0
    } else {
        (if is_todo_decl(trim_start(line_text(t.take(line_len(t))))) { 1nat } else { 0nat })
            + decl_count(t.skip(line_len(t)))
    }
}

/// A closed line `l` + `\n` in front of `y` is read as one line.
proof fn lemma_decl_count_cons(l: Seq<char>, y: Seq<char>)
    requires
        !l.contains('\n'),
    ensures
        decl_count(l.push('\n') + y) == (if is_todo_decl(trim_start(line_text(l.push('\n')))) { 1nat } else { 0nat })
            + decl_count(y),
{
    let x = l.push('\n');
    assert(is_line(x)) by {
        assert forall|j: int| 0 <= j < x.len() - 1 implies #[trigger] x[j] != '\n' by {
            assert(x[j] == l[j]);
            if x[j] == '\n' {
                assert(l.contains('\n'));
            }
        }
    }
    lemma_line_len_concat(x, y);
}

/// A line that is no declaration is none when read back after its
/// newline is added: reading drops at most a trailing `\r`, which only
/// shortens the line.
proof fn lemma_reread_not_decl(l: Seq<char>)
    requires
        !is_todo_decl(trim_start(l)),
    ensures
        !is_todo_decl(trim_start(line_text(l.push('\n')))),
{
    let x = l.push('\n');
    assert(x.drop_last() =~= l);
    if l.len() > 0 && l.last() == '\r' {
        let lp = l.drop_last();
        assert(line_text(x) == lp);
        if is_todo_decl(trim_start(lp)) {
            let k = lead_len(lp);
            crate::text::lemma_lead_exists(lp);
            assert(is_lead_end(lp, k));
            let t = lp.skip(k);
            assert(t.len() >= 7);
            assert(k < lp.len());
            assert(is_lead_end(l, k)) by {
                assert forall|j: int| 0 <= j < k implies is_ws(#[trigger] l[j]) by {
                    assert(l[j] == lp[j]);
                }
                assert(l[k] == lp[k]);
            }
            lemma_lead_end_unique(l, k);
            assert forall|i: int| 0 <= i < 7 implies #[trigger] ascii_ci_eq(l.skip(k)[i], "#+todo:"@[i]) by {
                assert(l.skip(k)[i] == t[i]);
                assert(ascii_ci_eq(t[i], "#+todo:"@[i]));
            }
            assert(is_todo_decl(trim_start(l)));
        }
    }
}

proof fn lemma_kept_text_no_decl(s: Seq<char>)
    ensures
        decl_count(kept_text(s)) == 0,
    decreases s.len(),
{
    if s.len() > 0 {
        lemma_line_len(s);
        let raw = s.take(line_len(s));
        let l = line_text(raw);
        assert(!l.contains('\n')) by {
            if l.contains('\n') {
                let j = choose|j: int| 0 <= j < l.len() && l[j] == '\n';
                assert(raw[j] == l[j]);
                assert(raw[j] == s[j]);
            }
        }
        lemma_kept_text_no_decl(s.skip(line_len(s)));
        if !is_todo_decl(trim_start(l)) {
            lemma_decl_count_cons(l, kept_text(s.skip(line_len(s))));
            lemma_reread_not_decl(l);
        } else {
            assert(Seq::<char>::empty() + kept_text(s.skip(line_len(s))) =~= kept_text(s.skip(line_len(s))));
        }
    } else {
        assert(kept_text(s) =~= Seq::<char>::empty());
    }
}

proof fn lemma_join_no_newline(xs: Seq<Seq<char>>, sep: Seq<char>)
    requires
        forall|i: int| 0 <= i < xs.len() ==> !(#[trigger] xs[i]).contains('\n'),
        !sep.contains('\n'),
    ensures
        !join(xs, sep).contains('\n'),
    decreases xs.len(),
{
    if xs.len() > 1 {
        lemma_join_no_newline(xs.drop_last(), sep);
        let a = join(xs.drop_last(), sep);
        let b = xs.last();
        assert(!b.contains('\n'));
        if (a + sep + b).contains('\n') {
            let j = choose|j: int| 0 <= j < (a + sep + b).len() && (a + sep + b)[j] == '\n';
            if j < a.len() {
                assert(a[j] == '\n');
            } else if j < a.len() + sep.len() {
                assert(sep[j - a.len()] == '\n');
            } else {
                assert(b[j - a.len() - sep.len()] == '\n');
            }
        }
    } else if xs.len() == 1 {
        assert(!xs[0].contains('\n'));
    }
}

/// The rewrite leaves exactly one `#+TODO:` declaration in the file:
/// its own, on top. A file is never left with two declarations, which
/// org would read as two keyword sequences.
pub proof fn law_rewrite_declares_once(source: Seq<char>, keywords: Seq<Seq<char>>, declared: Seq<Seq<char>>)
    requires
        forall|i: int| 0 <= i < keywords.len() ==> !(#[trigger] keywords[i]).contains('\n'),
        todo_rewrite(source, keywords, declared) is Some,
    ensures
        decl_count(todo_rewrite(source, keywords, declared).unwrap()) == 1,
{
    reveal_strlit("#+TODO: ");
    reveal_strlit(" | ");
    reveal_strlit("\n");
    reveal_strlit(" ");
    reveal_strlit("#+todo:");
    let body = join(keywords.drop_last(), " "@);
    assert forall|i: int| 0 <= i < keywords.drop_last().len() implies !(#[trigger] keywords.drop_last()[i]).contains('\n') by {
        assert(keywords.drop_last()[i] == keywords[i]);
    }
    assert(!" "@.contains('\n')) by {
        if " "@.contains('\n') {
            let j = choose|j: int| 0 <= j < " "@.len() && " "@[j] == '\n';
        }
    }
    lemma_join_no_newline(keywords.drop_last(), " "@);
    let last = keywords.last();
    assert(!last.contains('\n'));
    let l = "#+TODO: "@ + body + " | "@ + last;
    assert(todo_line(keywords) =~= l.push('\n'));
    assert(!l.contains('\n')) by {
        if l.contains('\n') {
            let j = choose|j: int| 0 <= j < l.len() && l[j] == '\n';
            if j < 8 {
            } else if j < 8 + body.len() {
                assert(body[j - 8] == '\n');
            } else if j < 8 + body.len() + 3 {
            } else {
                assert(last[j - 8 - body.len() - 3] == '\n');
            }
        }
    }
    lemma_decl_count_cons(l, kept_text(source));
    lemma_kept_text_no_decl(source);
    let lt = line_text(l.push('\n'));
    assert(l.push('\n').drop_last() =~= l);
    reveal_strlit("#+TODO:");
    assert(l.len() >= 11);
    assert forall|i: int| 0 <= i < 8 implies #[trigger] l[i] == "#+TODO: "@[i] by {}
    assert(lt.len() >= 8 && lt.take(7) =~= "#+TODO:"@) by {
        if l.len() > 0 && l.last() == '\r' {
            assert(lt =~= l.drop_last());
            assert forall|i: int| 0 <= i < 7 implies #[trigger] lt[i] == l[i] by {}
        } else {
            assert(lt =~= l);
        }
    }
    assert(lt[0] == '#');
    assert(trim_start(lt) == lt) by {
        lemma_lead_end_unique(lt, 0);
        assert(lt.skip(0) =~= lt);
    }
    assert forall|i: int| 0 <= i < 7 implies #[trigger] ascii_ci_eq(lt[i], "#+todo:"@[i]) by {
        assert(lt[i] == lt.take(7)[i]);
    }
}

} // verus!
