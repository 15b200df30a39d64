//! The order of text: `str`'s `Ord`, which compares UTF-8 bytes and so
//! orders by code point, character by character; and the sorted,
//! de-duplicated string lists a vault hands out (tags, keywords).

use crate::keywords::views;
use crate::text::chars_of;
use vstd::prelude::*;
use vstd::relations::{sorted_by, total_ordering};

verus! {

/// `a <= b` in `str`'s order.
pub open spec fn lex_le(a: Seq<char>, b: Seq<char>) -> bool
    decreases a.len(),
{
    if a.len() == 0 {
        true
    } else if b.len() == 0 {
        false
    } else if a[0] != b[0] {
        a[0] < b[0]
    } else {
        lex_le(a.drop_first(), b.drop_first())
    }
}

/// `str`'s order as a relation.
pub open spec fn text_le() -> spec_fn(Seq<char>, Seq<char>) -> bool {
    |a: Seq<char>, b: Seq<char>| lex_le(a, b)
}

pub proof fn lemma_lex_reflexive(a: Seq<char>)
    ensures
        lex_le(a, a),
    decreases a.len(),
{
    if a.len() > 0 {
        lemma_lex_reflexive(a.drop_first());
    }
}

pub proof fn lemma_lex_antisymmetric(a: Seq<char>, b: Seq<char>)
    requires
        lex_le(a, b),
        lex_le(b, a),
    ensures
        a == b,
    decreases a.len(),
{
    if a.len() > 0 && b.len() > 0 {
        if a[0] == b[0] {
            lemma_lex_antisymmetric(a.drop_first(), b.drop_first());
            assert(a =~= seq![a[0]] + a.drop_first());
            assert(b =~= seq![b[0]] + b.drop_first());
        } else {
        }
    } else {
        assert(a =~= b);
    }
}

pub proof fn lemma_lex_transitive(a: Seq<char>, b: Seq<char>, c: Seq<char>)
    requires
        lex_le(a, b),
        lex_le(b, c),
    ensures
        lex_le(a, c),
    decreases a.len(),
{
    if a.len() > 0 && b.len() > 0 && c.len() > 0 && a[0] == b[0] && b[0] == c[0] {
        lemma_lex_transitive(a.drop_first(), b.drop_first(), c.drop_first());
    }
}

pub proof fn lemma_lex_total(a: Seq<char>, b: Seq<char>)
    ensures
        lex_le(a, b) || lex_le(b, a),
    decreases a.len(),
{
    if a.len() > 0 && b.len() > 0 {
        if a[0] == b[0] {
            lemma_lex_total(a.drop_first(), b.drop_first());
        } else {
        }
    }
}

/// `str`'s order is a total order.
pub proof fn lemma_text_le_total()
    ensures
        total_ordering(text_le()),
{
    assert forall|a: Seq<char>| #[trigger] (text_le())(a, a) by {
        lemma_lex_reflexive(a);
    }
    assert forall|a: Seq<char>, b: Seq<char>| #[trigger] (text_le())(a, b) && #[trigger] (text_le())(b, a)
        implies a == b by {
        lemma_lex_antisymmetric(a, b);
    }
    assert forall|a: Seq<char>, b: Seq<char>, c: Seq<char>| #[trigger] (text_le())(a, b) && #[trigger] (
    text_le())(b, c) implies (text_le())(a, c) by {
        lemma_lex_transitive(a, b, c);
    }
    assert forall|a: Seq<char>, b: Seq<char>| #[trigger] (text_le())(a, b) || #[trigger] (text_le())(b, a) by {
        lemma_lex_total(a, b);
    }
}

/// `a <= b` for two character sequences.
pub fn chars_le(a: &Vec<char>, b: &Vec<char>) -> (r: bool)
    ensures
        r == lex_le(a@, b@),
{
    let mut i: usize = 0;
    assert(a@.skip(0) =~= a@);
    assert(b@.skip(0) =~= b@);
    while i < a.len() && i < b.len() && a[i] == b[i]
        invariant
            i <= a.len(),
            i <= b.len(),
            lex_le(a@, b@) == lex_le(a@.skip(i as int), b@.skip(i as int)),
        decreases a.len() - i,
    {
        assert(a@.skip(i as int).drop_first() =~= a@.skip(i + 1));
        assert(b@.skip(i as int).drop_first() =~= b@.skip(i + 1));
        i = i + 1;
    }
    if i == a.len() {
        true
    } else if i == b.len() {
        false
    } else {
        assert(a@.skip(i as int)[0] == a@[i as int]);
        assert(b@.skip(i as int)[0] == b@[i as int]);
        a[i] < b[i]
    }
}

/// `a <= b` for two strings.
pub fn str_le(a: &str, b: &str) -> (r: bool)
    ensures
        r == lex_le(a@, b@),
{
    chars_le(&chars_of(a), &chars_of(b))
}

/// Strictly increasing in `str`'s order: sorted, nothing twice.
pub open spec fn strictly_sorted(s: Seq<Seq<char>>) -> bool {
    forall|i: int, j: int| 0 <= i < j < s.len() ==> lex_le(#[trigger] s[i], #[trigger] s[j]) && s[i] != s[j]
}

/// The distinct strings of `v`, sorted — what collecting into a
/// `BTreeSet` and back gives.
pub fn sorted_distinct(v: &Vec<String>) -> (r: Vec<String>)
    ensures
        strictly_sorted(views(r@)),
        forall|s: Seq<char>| #[trigger] views(r@).contains(s) <==> views(v@).contains(s),
{
    let mut out: Vec<String> = Vec::new();
    let mut i: usize = 0;
    proof {
        lemma_text_le_total();
    }
    while i < v.len()
        invariant
            i <= v.len(),
            total_ordering(text_le()),
            strictly_sorted(views(out@)),
            forall|s: Seq<char>| #[trigger] views(out@).contains(s) <==> views(v@).take(i as int).contains(s),
        decreases v.len() - i,
    {
        let x = chars_of(v[i].as_str());
        let mut pos: usize = 0;
        while pos < out.len() && !chars_le(&x, &chars_of(out[pos].as_str()))
            invariant
                pos <= out.len(),
                forall|j: int| 0 <= j < pos ==> !lex_le(x@, #[trigger] views(out@)[j]),
            decreases out.len() - pos,
        {
            assert(views(out@)[pos as int] == out@[pos as int]@);
            pos = pos + 1;
        }
        let ghost old_out = views(out@);
        proof {
            assert(views(v@).take(i + 1) =~= views(v@).take(i as int).push(x@));
            assert forall|j: int| 0 <= j < pos implies lex_le(#[trigger] old_out[j], x@) && old_out[j] != x@ by {
                lemma_lex_total(x@, old_out[j]);
                if old_out[j] == x@ {
                    lemma_lex_reflexive(x@);
                }
            }
        }
        let dup = pos < out.len() && chars_eq_str(&x, &out[pos]);
        if dup {
            proof {
                assert(old_out[pos as int] == x@);
                assert forall|s: Seq<char>| #[trigger] views(out@).contains(s) <==> views(v@).take(i + 1).contains(s) by {
                    if s == x@ {
                        assert(views(v@).take(i + 1)[i as int] == x@);
                    }
                    if views(v@).take(i + 1).contains(s) && s != x@ {
                        let w = choose|w: int| 0 <= w < views(v@).take(i + 1).len() && #[trigger] views(v@).take(i + 1)[w] == s;
                        assert(views(v@).take(i as int)[w] == s);
                    }
                    if views(v@).take(i as int).contains(s) {
                        let w = choose|w: int| 0 <= w < views(v@).take(i as int).len() && #[trigger] views(v@).take(i as int)[w] == s;
                        assert(views(v@).take(i + 1)[w] == s);
                    }
                }
            }
        } else {
            let s = v[i].clone();
            out.insert(pos, s);
            proof {
                let nv = views(out@);
                assert(nv =~= old_out.insert(pos as int, x@));
                if pos < old_out.len() {
                    assert(lex_le(x@, old_out[pos as int]));
                    assert(old_out[pos as int] != x@);
                }
                assert forall|a: int, b: int| 0 <= a < b < nv.len() implies lex_le(#[trigger] nv[a], #[trigger] nv[b])
                    && nv[a] != nv[b] by {
                    if a < pos && b == pos {
                    } else if a == pos && b > pos {
                        assert(nv[b] == old_out[b - 1]);
                        if b - 1 > pos {
                            assert(lex_le(old_out[pos as int], old_out[b - 1]) && old_out[pos as int] != old_out[b - 1]);
                            lemma_lex_transitive(x@, old_out[pos as int], old_out[b - 1]);
                            if x@ == old_out[b - 1] {
                                lemma_lex_antisymmetric(x@, old_out[pos as int]);
                            }
                        }
                    } else if a < pos && b > pos {
                        assert(nv[a] == old_out[a] && nv[b] == old_out[b - 1]);
                    } else if b < pos {
                        assert(nv[a] == old_out[a] && nv[b] == old_out[b]);
                    } else {
                        assert(nv[a] == old_out[a - 1] && nv[b] == old_out[b - 1]);
                    }
                }
                assert forall|t: Seq<char>| #[trigger] nv.contains(t) <==> views(v@).take(i + 1).contains(t) by {
                    if nv.contains(t) {
                        let w = choose|w: int| 0 <= w < nv.len() && #[trigger] nv[w] == t;
                        if w < pos {
                            assert(old_out[w] == t);
                        } else if w > pos {
                            assert(old_out[w - 1] == t);
                        }
                    }
                    if old_out.contains(t) {
                        let w = choose|w: int| 0 <= w < old_out.len() && #[trigger] old_out[w] == t;
                        if w < pos {
                            assert(nv[w] == t);
                        } else {
                            assert(nv[w + 1] == t);
                        }
                    }
                    if t == x@ {
                        assert(nv[pos as int] == t);
                        assert(views(v@).take(i + 1)[i as int] == x@);
                    }
                    if views(v@).take(i + 1).contains(t) && t != x@ {
                        let w = choose|w: int| 0 <= w < views(v@).take(i + 1).len() && #[trigger] views(v@).take(i + 1)[w] == t;
                        assert(views(v@).take(i as int)[w] == t);
                    }
                    if views(v@).take(i as int).contains(t) {
                        let w = choose|w: int| 0 <= w < views(v@).take(i as int).len() && #[trigger] views(v@).take(i as int)[w] == t;
                        assert(views(v@).take(i + 1)[w] == t);
                    }
                }
            }
        }
        i = i + 1;
    }
    assert(views(v@).take(i as int) =~= views(v@));
    out
}

/// Whether the characters `x` spell the string `s`.
fn chars_eq_str(x: &Vec<char>, s: &String) -> (r: bool)
    ensures
        r == (x@ == s@),
{
    crate::text::chars_eq(x, &chars_of(s.as_str()))
}

} // verus!
