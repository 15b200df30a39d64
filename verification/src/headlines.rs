//! Questions a vault answers about its headlines — how many carry a
//! tag, a keyword, a priority or a level; which keywords and tags are in
//! use; how titles repeat; what levels occur — over each headline's
//! fields, in vault order.

use crate::keywords::views;
use crate::order::{lemma_lex_antisymmetric, lemma_lex_reflexive, lemma_lex_total, lemma_lex_transitive, lemma_text_le_total, lex_le, sorted_distinct, strictly_sorted};
use crate::stats::{pct, sum_of};
use crate::text::{chars_eq, chars_of, contains_sub, find_sub_exec};
use vstd::prelude::*;

verus! {

/// What the vault reads of one headline.
#[derive(Debug, Clone)]
pub struct Headline {
    /// Stable block id.
    pub id: String,
    /// Title, without stars, keyword, priority or tags.
    pub title: String,
    /// Number of stars.
    pub level: u8,
    /// The TODO keyword, if any.
    pub todo: Option<String>,
    /// The priority letter, if any.
    pub priority: Option<char>,
    /// The tags, in order.
    pub tags: Vec<String>,
    /// The property drawer's `(key, value)` pairs.
    pub properties: Vec<(String, String)>,
    /// The link targets in the headline, as written.
    pub links: Vec<String>,
}

/// A question asked of one headline.
#[derive(Debug)]
pub enum HeadlineQuery {
    /// It has at least one tag.
    Tagged,
    /// It carries this tag.
    Tag(String),
    /// It has some TODO keyword.
    AnyTodo,
    /// Its TODO keyword is this one.
    Todo(String),
    /// It has some priority.
    AnyPriority,
    /// Its priority is this letter.
    Priority(char),
    /// It sits at this level.
    Level(u8),
    /// Its title contains this text.
    TitleContains(String),
    /// Its title is exactly this text.
    TitleExact(String),
    /// It has a property with this key.
    PropertyKey(String),
    /// It links to exactly this target.
    LinkTarget(String),
}

/// The answer of `h` to `q`.
pub open spec fn answers(q: HeadlineQuery, h: Headline) -> bool {
    match q {
        HeadlineQuery::Tagged => h.tags@.len() > 0,
        HeadlineQuery::Tag(t) => views(h.tags@).contains(t@),
        HeadlineQuery::AnyTodo => h.todo is Some,
        HeadlineQuery::Todo(k) => match h.todo {
            Some(x) => x@ == k@,
            None => false,
        },
        HeadlineQuery::AnyPriority => h.priority is Some,
        HeadlineQuery::Priority(c) => h.priority == Some(c),
        HeadlineQuery::Level(n) => h.level == n,
        HeadlineQuery::TitleContains(s) => contains_sub(h.title@, s@),
        HeadlineQuery::TitleExact(s) => h.title@ == s@,
        HeadlineQuery::PropertyKey(k) => exists|i: int| 0 <= i < h.properties@.len() && #[trigger] h.properties@[i].0@ == k@,
        HeadlineQuery::LinkTarget(t) => views(h.links@).contains(t@),
    }
}

/// `q` as a predicate on headlines.
pub open spec fn matching(q: HeadlineQuery) -> spec_fn(Headline) -> bool {
    |h: Headline| answers(q, h)
}

/// Whether one of `v` spells `k`.
fn any_is(v: &Vec<String>, k: &String) -> (r: bool)
    ensures
        r == views(v@).contains(k@),
{
    let mut i: usize = 0;
    while i < v.len()
        invariant
            i <= v.len(),
            forall|j: int| 0 <= j < i ==> v@[j]@ != k@,
        decreases v.len() - i,
    {
        if v[i] == *k {
            assert(views(v@)[i as int] == k@);
            return true;
        }
        i = i + 1;
    }
    assert forall|j: int| 0 <= j < views(v@).len() implies views(v@)[j] != k@ by {
        assert(views(v@)[j] == v@[j]@);
    }
    false
}

/// Whether one of the pairs has the key `k`.
fn has_key(props: &Vec<(String, String)>, k: &String) -> (r: bool)
    ensures
        r == exists|i: int| 0 <= i < props@.len() && #[trigger] props@[i].0@ == k@,
{
    let mut i: usize = 0;
    while i < props.len()
        invariant
            i <= props.len(),
            forall|j: int| 0 <= j < i ==> #[trigger] props@[j].0@ != k@,
        decreases props.len() - i,
    {
        if props[i].0 == *k {
            assert(props@[i as int].0@ == k@);
            return true;
        }
        i = i + 1;
    }
    false
}

/// Whether headline `h` answers `q`.
pub fn answers_query(q: &HeadlineQuery, h: &Headline) -> (r: bool)
    ensures
        r == answers(*q, *h),
{
    match q {
        HeadlineQuery::Tagged => h.tags.len() > 0,
        HeadlineQuery::Tag(t) => any_is(&h.tags, t),
        HeadlineQuery::AnyTodo => h.todo.is_some(),
        HeadlineQuery::Todo(k) => match &h.todo {
            Some(x) => *x == *k,
            None => false,
        },
        HeadlineQuery::AnyPriority => h.priority.is_some(),
        HeadlineQuery::Priority(c) => match h.priority {
            Some(p) => p == *c,
            None => false,
        },
        HeadlineQuery::Level(n) => h.level == *n,
        HeadlineQuery::TitleContains(s) => {
            match find_sub_exec(&chars_of(h.title.as_str()), &chars_of(s.as_str())) {
                Some(_) => true,
                None => false,
            }
        },
        HeadlineQuery::TitleExact(s) => h.title == *s,
        HeadlineQuery::PropertyKey(k) => has_key(&h.properties, k),
        HeadlineQuery::LinkTarget(t) => any_is(&h.links, t),
    }
}

/// How many of the headlines answer `q`.
pub fn count_matching(hs: &Vec<Headline>, q: &HeadlineQuery) -> (r: usize)
    ensures
        r == hs@.filter(matching(*q)).len(),
{
    let mut n: usize = 0;
    let mut i: usize = 0;
    assert(hs@.take(0) =~= Seq::<Headline>::empty());
    proof {
        Seq::<Headline>::empty().lemma_filter_len(matching(*q));
    }
    while i < hs.len()
        invariant
            i <= hs.len(),
            n == hs@.take(i as int).filter(matching(*q)).len(),
            n <= i,
        decreases hs.len() - i,
    {
        proof {
            assert(hs@.take(i + 1) =~= hs@.take(i as int).push(hs@[i as int]));
            hs@.take(i as int).lemma_filter_push(hs@[i as int], matching(*q));
        }
        if answers_query(q, &hs[i]) {
            n = n + 1;
        }
        i = i + 1;
    }
    assert(hs@.take(i as int) =~= hs@);
    n
}

/// Whether any of the headlines answers `q`.
pub fn any_matching(hs: &Vec<Headline>, q: &HeadlineQuery) -> (r: bool)
    ensures
        r == (hs@.filter(matching(*q)).len() > 0),
{
    count_matching(hs, q) > 0
}

/// The headlines that carry at least one tag.
pub fn tagged_count(hs: &Vec<Headline>) -> (r: usize)
    ensures
        r == hs@.filter(matching(HeadlineQuery::Tagged)).len(),
{
    count_matching(hs, &HeadlineQuery::Tagged)
}

/// The headlines that carry `tag`.
pub fn headline_count_with_tag(hs: &Vec<Headline>, tag: String) -> (r: usize)
    ensures
        r == hs@.filter(matching(HeadlineQuery::Tag(tag))).len(),
{
    count_matching(hs, &HeadlineQuery::Tag(tag))
}

/// The headlines whose TODO keyword is `kw`.
pub fn headline_count_with_todo(hs: &Vec<Headline>, kw: String) -> (r: usize)
    ensures
        r == hs@.filter(matching(HeadlineQuery::Todo(kw))).len(),
{
    count_matching(hs, &HeadlineQuery::Todo(kw))
}

/// The headlines with priority `letter`.
pub fn headline_count_with_priority(hs: &Vec<Headline>, letter: char) -> (r: usize)
    ensures
        r == hs@.filter(matching(HeadlineQuery::Priority(letter))).len(),
{
    count_matching(hs, &HeadlineQuery::Priority(letter))
}

/// The headlines at `level`.
pub fn headline_count_at_level(hs: &Vec<Headline>, level: u8) -> (r: usize)
    ensures
        r == hs@.filter(matching(HeadlineQuery::Level(level))).len(),
{
    count_matching(hs, &HeadlineQuery::Level(level))
}

/// The headlines with some TODO keyword.
pub fn todo_count(hs: &Vec<Headline>) -> (r: usize)
    ensures
        r == hs@.filter(matching(HeadlineQuery::AnyTodo)).len(),
{
    count_matching(hs, &HeadlineQuery::AnyTodo)
}

/// The headlines with some priority.
pub fn with_priority_count(hs: &Vec<Headline>) -> (r: usize)
    ensures
        r == hs@.filter(matching(HeadlineQuery::AnyPriority)).len(),
{
    count_matching(hs, &HeadlineQuery::AnyPriority)
}

/// The share of headlines with priority `letter`, in whole percent;
/// `0` when there are no headlines.
pub fn priority_letter_pct(hs: &Vec<Headline>, letter: char) -> (r: usize)
    requires
        hs@.len() * 100 <= usize::MAX,
    ensures
        hs@.len() == 0 ==> r == 0,
        hs@.len() > 0 ==> r == (hs@.filter(matching(HeadlineQuery::Priority(letter))).len() * 100) / hs@.len(),
{
    let c = headline_count_with_priority(hs, letter);
    proof {
        hs@.lemma_filter_len(matching(HeadlineQuery::Priority(letter)));
    }
    pct(c, hs.len())
}

/// Some headline carries tag `t`.
pub open spec fn some_tag(hs: Seq<Headline>, t: Seq<char>) -> bool {
    exists|i: int| 0 <= i < hs.len() && views(#[trigger] hs[i].tags@).contains(t)
}

/// Some headline has TODO keyword `k`.
pub open spec fn some_todo(hs: Seq<Headline>, k: Seq<char>) -> bool {
    exists|i: int| 0 <= i < hs.len() && (#[trigger] hs[i].todo matches Some(x) && x@ == k)
}

/// Some headline has title `t`.
pub open spec fn some_title(hs: Seq<Headline>, t: Seq<char>) -> bool {
    exists|i: int| 0 <= i < hs.len() && (#[trigger] hs[i]).title@ == t
}

/// Every distinct tag used on the headlines, sorted.
pub fn all_tags(hs: &Vec<Headline>) -> (r: Vec<String>)
    ensures
        strictly_sorted(views(r@)),
        forall|t: Seq<char>| #[trigger] views(r@).contains(t) <==> some_tag(hs@, t),
{
    let mut flat: Vec<String> = Vec::new();
    let mut i: usize = 0;
    while i < hs.len()
        invariant
            i <= hs.len(),
            forall|t: Seq<char>| #[trigger] views(flat@).contains(t) <==> some_tag(hs@.take(i as int), t),
        decreases hs.len() - i,
    {
        let tags = &hs[i].tags;
        let ghost before = views(flat@);
        let mut j: usize = 0;
        while j < tags.len()
            invariant
                j <= tags.len(),
                forall|t: Seq<char>| #[trigger] views(flat@).contains(t) <==> (before.contains(t) || views(tags@).take(j as int).contains(t)),
            decreases tags.len() - j,
        {
            let ghost mid = views(flat@);
            flat.push(tags[j].clone());
            proof {
                assert(views(flat@) =~= mid.push(tags@[j as int]@));
                assert(views(tags@).take(j + 1) =~= views(tags@).take(j as int).push(tags@[j as int]@));
                assert forall|t: Seq<char>| #[trigger] views(flat@).contains(t) <==> (before.contains(t) || views(tags@).take(j + 1).contains(t)) by {
                    if views(flat@).contains(t) && t != tags@[j as int]@ {
                        let w = choose|w: int| 0 <= w < views(flat@).len() && #[trigger] views(flat@)[w] == t;
                        assert(mid[w] == t);
                    }
                    if views(tags@).take(j + 1).contains(t) && t != tags@[j as int]@ {
                        let w = choose|w: int| 0 <= w < views(tags@).take(j + 1).len() && #[trigger] views(tags@).take(j + 1)[w] == t;
                        assert(views(tags@).take(j as int)[w] == t);
                    }
                    if views(tags@).take(j as int).contains(t) {
                        let w = choose|w: int| 0 <= w < views(tags@).take(j as int).len() && #[trigger] views(tags@).take(j as int)[w] == t;
                        assert(views(tags@).take(j + 1)[w] == t);
                    }
                    if mid.contains(t) {
                        let w = choose|w: int| 0 <= w < mid.len() && #[trigger] mid[w] == t;
                        assert(views(flat@)[w] == t);
                    }
                    if t == tags@[j as int]@ {
                        assert(views(flat@)[mid.len() as int] == t);
                        assert(views(tags@).take(j + 1)[j as int] == t);
                    }
                }
            }
            j = j + 1;
        }
        proof {
            assert(views(tags@).take(j as int) =~= views(tags@));
            assert forall|t: Seq<char>| #[trigger] views(flat@).contains(t) <==> some_tag(hs@.take(i + 1), t) by {
                if some_tag(hs@.take(i + 1), t) {
                    let w = choose|w: int| 0 <= w < hs@.take(i + 1).len() && views(#[trigger] hs@.take(i + 1)[w].tags@).contains(t);
                    if w < i {
                        assert(hs@.take(i as int)[w] == hs@.take(i + 1)[w]);
                        assert(some_tag(hs@.take(i as int), t));
                    } else {
                        assert(hs@.take(i + 1)[w] == hs@[i as int]);
                    }
                }
                if some_tag(hs@.take(i as int), t) {
                    let w = choose|w: int| 0 <= w < hs@.take(i as int).len() && views(#[trigger] hs@.take(i as int)[w].tags@).contains(t);
                    assert(hs@.take(i + 1)[w] == hs@.take(i as int)[w]);
                }
                if views(tags@).contains(t) {
                    assert(hs@.take(i + 1)[i as int] == hs@[i as int]);
                }
            }
        }
        i = i + 1;
    }
    assert(hs@.take(i as int) =~= hs@);
    sorted_distinct(&flat)
}

/// Every distinct TODO keyword used on the headlines, sorted.
pub fn all_todos(hs: &Vec<Headline>) -> (r: Vec<String>)
    ensures
        strictly_sorted(views(r@)),
        forall|k: Seq<char>| #[trigger] views(r@).contains(k) <==> some_todo(hs@, k),
{
    let mut flat: Vec<String> = Vec::new();
    let mut i: usize = 0;
    while i < hs.len()
        invariant
            i <= hs.len(),
            forall|k: Seq<char>| #[trigger] views(flat@).contains(k) <==> some_todo(hs@.take(i as int), k),
        decreases hs.len() - i,
    {
        let ghost before = views(flat@);
        assert(forall|k: Seq<char>| #[trigger] before.contains(k) <==> some_todo(hs@.take(i as int), k));
        match &hs[i].todo {
            Some(x) => {
                flat.push(x.clone());
                assert(views(flat@) =~= before.push(x@));
            },
            None => {},
        }
        proof {
            assert forall|k: Seq<char>| #[trigger] views(flat@).contains(k) <==> some_todo(hs@.take(i + 1), k) by {
                if some_todo(hs@.take(i + 1), k) {
                    let w = choose|w: int| 0 <= w < hs@.take(i + 1).len() && (#[trigger] hs@.take(i + 1)[w].todo matches Some(x) && x@ == k);
                    if w < i {
                        assert(hs@.take(i as int)[w] == hs@.take(i + 1)[w]);
                        assert(some_todo(hs@.take(i as int), k));
                        assert(before.contains(k));
                        let v = choose|v: int| 0 <= v < before.len() && #[trigger] before[v] == k;
                        assert(views(flat@)[v] == k);
                    } else {
                        assert(hs@.take(i + 1)[w] == hs@[i as int]);
                        assert(views(flat@)[before.len() as int] == k);
                    }
                }
                if views(flat@).contains(k) {
                    let v = choose|v: int| 0 <= v < views(flat@).len() && #[trigger] views(flat@)[v] == k;
                    if v < before.len() {
                        assert(before[v] == k);
                        assert(before.contains(k));
                        assert(some_todo(hs@.take(i as int), k));
                        let w = choose|w: int| 0 <= w < hs@.take(i as int).len() && (#[trigger] hs@.take(i as int)[w].todo matches Some(x) && x@ == k);
                        assert(hs@.take(i + 1)[w] == hs@.take(i as int)[w]);
                    } else {
                        assert(hs@.take(i + 1)[i as int] == hs@[i as int]);
                    }
                }
            }
        }
        i = i + 1;
    }
    assert(hs@.take(i as int) =~= hs@);
    sorted_distinct(&flat)
}

/// Every distinct title of the headlines, sorted.
pub fn distinct_titles(hs: &Vec<Headline>) -> (r: Vec<String>)
    ensures
        strictly_sorted(views(r@)),
        forall|t: Seq<char>| #[trigger] views(r@).contains(t) <==> some_title(hs@, t),
{
    let mut flat: Vec<String> = Vec::new();
    let mut i: usize = 0;
    while i < hs.len()
        invariant
            i <= hs.len(),
            forall|t: Seq<char>| #[trigger] views(flat@).contains(t) <==> some_title(hs@.take(i as int), t),
        decreases hs.len() - i,
    {
        let ghost before = views(flat@);
        assert(forall|t: Seq<char>| #[trigger] before.contains(t) <==> some_title(hs@.take(i as int), t));
        flat.push(hs[i].title.clone());
        proof {
            assert(views(flat@) =~= before.push(hs@[i as int].title@));
            assert forall|t: Seq<char>| #[trigger] views(flat@).contains(t) <==> some_title(hs@.take(i + 1), t) by {
                if some_title(hs@.take(i + 1), t) {
                    let w = choose|w: int| 0 <= w < hs@.take(i + 1).len() && (#[trigger] hs@.take(i + 1)[w]).title@ == t;
                    if w < i {
                        assert(hs@.take(i as int)[w] == hs@.take(i + 1)[w]);
                        assert(some_title(hs@.take(i as int), t));
                        assert(before.contains(t));
                        let v = choose|v: int| 0 <= v < before.len() && #[trigger] before[v] == t;
                        assert(views(flat@)[v] == t);
                    } else {
                        assert(views(flat@)[before.len() as int] == t);
                    }
                }
                if views(flat@).contains(t) {
                    let v = choose|v: int| 0 <= v < views(flat@).len() && #[trigger] views(flat@)[v] == t;
                    if v < before.len() {
                        assert(before[v] == t);
                        assert(before.contains(t));
                        assert(some_title(hs@.take(i as int), t));
                        let w = choose|w: int| 0 <= w < hs@.take(i as int).len() && (#[trigger] hs@.take(i as int)[w]).title@ == t;
                        assert(hs@.take(i + 1)[w] == hs@.take(i as int)[w]);
                    } else {
                        assert(hs@.take(i + 1)[i as int] == hs@[i as int]);
                    }
                }
            }
        }
        i = i + 1;
    }
    assert(hs@.take(i as int) =~= hs@);
    sorted_distinct(&flat)
}

/// The headlines titled `t`.
pub open spec fn titled(t: Seq<char>) -> spec_fn(Headline) -> bool {
    |h: Headline| h.title@ == t
}

/// How many headlines are titled `t`.
pub open spec fn title_count(hs: Seq<Headline>, t: Seq<char>) -> nat {
    hs.filter(titled(t)).len()
}

/// The titles of a title histogram.
pub open spec fn count_keys(v: Seq<(String, usize)>) -> Seq<Seq<char>> {
    v.map_values(|e: (String, usize)| e.0@)
}

/// How many headlines are titled `t`.
fn count_titled(hs: &Vec<Headline>, t: &String) -> (r: usize)
    ensures
        r == title_count(hs@, t@),
{
    let q = HeadlineQuery::TitleExact(t.clone());
    let r = count_matching(hs, &q);
    assert(matching(q) =~= titled(t@));
    r
}

/// Each distinct title, in order, with how many headlines carry it.
pub fn title_counts(hs: &Vec<Headline>) -> (r: Vec<(String, usize)>)
    ensures
        strictly_sorted(count_keys(r@)),
        forall|t: Seq<char>| #[trigger] count_keys(r@).contains(t) <==> some_title(hs@, t),
        forall|i: int| 0 <= i < r@.len() ==> #[trigger] r@[i].1 == title_count(hs@, r@[i].0@),
{
    let keys = distinct_titles(hs);
    let mut out: Vec<(String, usize)> = Vec::new();
    let mut i: usize = 0;
    while i < keys.len()
        invariant
            i <= keys.len(),
            count_keys(out@) == views(keys@).take(i as int),
            forall|j: int| 0 <= j < out@.len() ==> #[trigger] out@[j].1 == title_count(hs@, out@[j].0@),
        decreases keys.len() - i,
    {
        let c = count_titled(hs, &keys[i]);
        let ghost before = out@;
        let e = (keys[i].clone(), c);
        out.push(e);
        proof {
            assert(out@ == before.push(e));
            assert(count_keys(out@) =~= count_keys(before).push(e.0@));
            assert(views(keys@).take(i + 1) =~= views(keys@).take(i as int).push(keys@[i as int]@));
            assert(count_keys(out@) =~= views(keys@).take(i + 1));
            assert forall|j: int| 0 <= j < out@.len() implies #[trigger] out@[j].1 == title_count(hs@, out@[j].0@) by {
                if j < before.len() {
                    assert(out@[j] == before[j]);
                }
            }
        }
        i = i + 1;
    }
    assert(views(keys@).take(i as int) =~= views(keys@));
    out
}

/// `t` is the most common title of `hs`: as common as any, and the first
/// in `str`'s order among those as common.
pub open spec fn is_most_common_title(hs: Seq<Headline>, t: Seq<char>) -> bool {
    &&& some_title(hs, t)
    &&& forall|u: Seq<char>| #[trigger] some_title(hs, u) ==> title_count(hs, u) <= title_count(hs, t)
    &&& forall|u: Seq<char>| #[trigger] some_title(hs, u) && title_count(hs, u) == title_count(hs, t) ==> lex_le(t, u)
}

/// `t` is the least common title of `hs`: as rare as any, and the first
/// in `str`'s order among those as rare.
pub open spec fn is_least_common_title(hs: Seq<Headline>, t: Seq<char>) -> bool {
    &&& some_title(hs, t)
    &&& forall|u: Seq<char>| #[trigger] some_title(hs, u) ==> title_count(hs, u) >= title_count(hs, t)
    &&& forall|u: Seq<char>| #[trigger] some_title(hs, u) && title_count(hs, u) == title_count(hs, t) ==> lex_le(t, u)
}

/// The most common title, the first in order among equally common ones;
/// `None` when there are no headlines.
pub fn most_common_title(hs: &Vec<Headline>) -> (r: Option<String>)
    ensures
        match r {
            Some(t) => is_most_common_title(hs@, t@),
            None => hs@.len() == 0,
        },
{
    let counts = title_counts(hs);
    if counts.len() == 0 {
        proof {
            if hs@.len() > 0 {
                assert(some_title(hs@, hs@[0].title@));
                assert(count_keys(counts@).contains(hs@[0].title@));
            }
        }
        return None;
    }
    let mut best: usize = 0;
    let mut j: usize = 1;
    while j < counts.len()
        invariant
            1 <= j <= counts.len(),
            best < j,
            forall|k: int| 0 <= k < j ==> #[trigger] counts@[k].1 <= counts@[best as int].1,
            forall|k: int| 0 <= k < best ==> #[trigger] counts@[k].1 < counts@[best as int].1,
        decreases counts.len() - j,
    {
        if counts[j].1 > counts[best].1 {
            best = j;
        }
        j = j + 1;
    }
    let t = counts[best].0.clone();
    proof {
        let ks = count_keys(counts@);
        assert(ks[best as int] == t@);
        assert(ks.contains(t@));
        assert forall|u: Seq<char>| #[trigger] some_title(hs@, u) implies title_count(hs@, u) <= title_count(hs@, t@)
            && (title_count(hs@, u) == title_count(hs@, t@) ==> lex_le(t@, u)) by {
            assert(ks.contains(u));
            let k = choose|k: int| 0 <= k < ks.len() && ks[k] == u;
            assert(counts@[k].0@ == u);
            assert(counts@[k].1 == title_count(hs@, u));
            assert(counts@[best as int].1 == title_count(hs@, t@));
            if title_count(hs@, u) == title_count(hs@, t@) {
                if k < best {
                } else if k == best {
                    lemma_lex_reflexive(t@);
                } else {
                    assert(lex_le(ks[best as int], ks[k]));
                }
            }
        }
    }
    Some(t)
}

/// The least common title, the first in order among equally rare ones;
/// `None` when there are no headlines.
pub fn least_common_title(hs: &Vec<Headline>) -> (r: Option<String>)
    ensures
        match r {
            Some(t) => is_least_common_title(hs@, t@),
            None => hs@.len() == 0,
        },
{
    let counts = title_counts(hs);
    if counts.len() == 0 {
        proof {
            if hs@.len() > 0 {
                assert(some_title(hs@, hs@[0].title@));
                assert(count_keys(counts@).contains(hs@[0].title@));
            }
        }
        return None;
    }
    let mut best: usize = 0;
    let mut j: usize = 1;
    while j < counts.len()
        invariant
            1 <= j <= counts.len(),
            best < j,
            forall|k: int| 0 <= k < j ==> #[trigger] counts@[k].1 >= counts@[best as int].1,
            forall|k: int| 0 <= k < best ==> #[trigger] counts@[k].1 > counts@[best as int].1,
        decreases counts.len() - j,
    {
        if counts[j].1 < counts[best].1 {
            best = j;
        }
        j = j + 1;
    }
    let t = counts[best].0.clone();
    proof {
        let ks = count_keys(counts@);
        assert(ks[best as int] == t@);
        assert(ks.contains(t@));
        assert forall|u: Seq<char>| #[trigger] some_title(hs@, u) implies title_count(hs@, u) >= title_count(hs@, t@)
            && (title_count(hs@, u) == title_count(hs@, t@) ==> lex_le(t@, u)) by {
            assert(ks.contains(u));
            let k = choose|k: int| 0 <= k < ks.len() && ks[k] == u;
            assert(counts@[k].0@ == u);
            assert(counts@[k].1 == title_count(hs@, u));
            assert(counts@[best as int].1 == title_count(hs@, t@));
            if title_count(hs@, u) == title_count(hs@, t@) {
                if k < best {
                } else if k == best {
                    lemma_lex_reflexive(t@);
                } else {
                    assert(lex_le(ks[best as int], ks[k]));
                }
            }
        }
    }
    Some(t)
}

/// The shallowest level of the headlines, `None` when there are none.
pub fn min_level(hs: &Vec<Headline>) -> (r: Option<u8>)
    ensures
        match r {
            Some(m) => (exists|i: int| 0 <= i < hs@.len() && #[trigger] hs@[i].level == m)
                && forall|i: int| 0 <= i < hs@.len() ==> m <= #[trigger] hs@[i].level,
            None => hs@.len() == 0,
        },
{
    if hs.len() == 0 {
        return None;
    }
    let mut m = hs[0].level;
    let mut w: usize = 0;
    let mut i: usize = 1;
    while i < hs.len()
        invariant
            1 <= i <= hs.len(),
            w < i,
            hs@[w as int].level == m,
            forall|k: int| 0 <= k < i ==> m <= #[trigger] hs@[k].level,
        decreases hs.len() - i,
    {
        if hs[i].level < m {
            m = hs[i].level;
            w = i;
        }
        i = i + 1;
    }
    Some(m)
}

/// The deepest level of the headlines, `None` when there are none.
pub fn max_level(hs: &Vec<Headline>) -> (r: Option<u8>)
    ensures
        match r {
            Some(m) => (exists|i: int| 0 <= i < hs@.len() && #[trigger] hs@[i].level == m)
                && forall|i: int| 0 <= i < hs@.len() ==> #[trigger] hs@[i].level <= m,
            None => hs@.len() == 0,
        },
{
    if hs.len() == 0 {
        return None;
    }
    let mut m = hs[0].level;
    let mut w: usize = 0;
    let mut i: usize = 1;
    while i < hs.len()
        invariant
            1 <= i <= hs.len(),
            w < i,
            hs@[w as int].level == m,
            forall|k: int| 0 <= k < i ==> #[trigger] hs@[k].level <= m,
        decreases hs.len() - i,
    {
        if hs[i].level > m {
            m = hs[i].level;
            w = i;
        }
        i = i + 1;
    }
    Some(m)
}

/// The shallowest and deepest levels, `None` when there are no
/// headlines.
pub fn level_range(hs: &Vec<Headline>) -> (r: Option<(u8, u8)>)
    ensures
        match r {
            Some((lo, hi)) => hs@.len() > 0 && (forall|i: int| 0 <= i < hs@.len() ==> lo <= #[trigger] hs@[i].level <= hi)
                && (exists|i: int| 0 <= i < hs@.len() && #[trigger] hs@[i].level == lo)
                && (exists|i: int| 0 <= i < hs@.len() && #[trigger] hs@[i].level == hi),
            None => hs@.len() == 0,
        },
{
    match (min_level(hs), max_level(hs)) {
        (Some(lo), Some(hi)) => Some((lo, hi)),
        _ => None,
    }
}

/// `a` and `b` are the same letter, ignoring ASCII case.
pub open spec fn same_ignoring_case(a: char, b: char) -> bool {
    a == b || ('A' <= a <= 'Z' && (a as u32) + 32 == (b as u32)) || ('A' <= b <= 'Z' && (b as u32) + 32 == (a as u32))
}

/// `str::eq_ignore_ascii_case`.
pub open spec fn eq_ignore_ascii_case(a: Seq<char>, b: Seq<char>) -> bool {
    a.len() == b.len() && forall|i: int| 0 <= i < a.len() ==> #[trigger] same_ignoring_case(a[i], b[i])
}

/// Whether two strings are equal ignoring ASCII case.
fn eq_ignoring_case(a: &Vec<char>, b: &Vec<char>) -> (r: bool)
    ensures
        r == eq_ignore_ascii_case(a@, b@),
{
    if a.len() != b.len() {
        return false;
    }
    let mut i: usize = 0;
    while i < a.len()
        invariant
            i <= a.len() == b.len(),
            forall|k: int| 0 <= k < i ==> #[trigger] same_ignoring_case(a@[k], b@[k]),
        decreases a.len() - i,
    {
        let x = a[i];
        let y = b[i];
        let same = x == y || ('A' <= x && x <= 'Z' && (y as u32) >= 32 && (x as u32) == (y as u32) - 32)
            || ('A' <= y && y <= 'Z' && (x as u32) >= 32 && (y as u32) == (x as u32) - 32);
        if !same {
            assert(!same_ignoring_case(a@[i as int], b@[i as int]));
            return false;
        }
        i = i + 1;
    }
    true
}

/// The position of the first headline whose title equals `needle`,
/// ignoring ASCII case.
pub fn find_by_title(hs: &Vec<Headline>, needle: &str) -> (r: Option<usize>)
    ensures
        match r {
            Some(i) => i < hs@.len() && eq_ignore_ascii_case(hs@[i as int].title@, needle@)
                && forall|k: int| 0 <= k < i ==> !eq_ignore_ascii_case(#[trigger] hs@[k].title@, needle@),
            None => forall|k: int| 0 <= k < hs@.len() ==> !eq_ignore_ascii_case(#[trigger] hs@[k].title@, needle@),
        },
{
    let n = chars_of(needle);
    let mut i: usize = 0;
    while i < hs.len()
        invariant
            i <= hs.len(),
            n@ == needle@,
            forall|k: int| 0 <= k < i ==> !eq_ignore_ascii_case(#[trigger] hs@[k].title@, needle@),
        decreases hs.len() - i,
    {
        if eq_ignoring_case(&chars_of(hs[i].title.as_str()), &n) {
            return Some(i);
        }
        i = i + 1;
    }
    None
}

/// A file, as `(path, headlines)`, with a headline that answers `q`.
pub open spec fn file_matches(q: HeadlineQuery) -> spec_fn((String, Vec<Headline>)) -> bool {
    |f: (String, Vec<Headline>)| f.1@.filter(matching(q)).len() > 0
}

/// The paths of the files with a headline that answers `q`, in order.
pub fn paths_matching(files: &Vec<(String, Vec<Headline>)>, q: &HeadlineQuery) -> (r: Vec<String>)
    ensures
        views(r@) == files@.filter(file_matches(*q)).map_values(|f: (String, Vec<Headline>)| f.0@),
{
    let mut out: Vec<String> = Vec::new();
    let mut i: usize = 0;
    let ghost fm = file_matches(*q);
    proof {
        Seq::<(String, Vec<Headline>)>::empty().lemma_filter_len(fm);
    }
    assert(files@.take(0) =~= Seq::<(String, Vec<Headline>)>::empty());
    assert(views(out@) =~= files@.take(0).filter(fm).map_values(|f: (String, Vec<Headline>)| f.0@));
    while i < files.len()
        invariant
            i <= files.len(),
            fm == file_matches(*q),
            views(out@) == files@.take(i as int).filter(fm).map_values(|f: (String, Vec<Headline>)| f.0@),
        decreases files.len() - i,
    {
        proof {
            assert(files@.take(i + 1) =~= files@.take(i as int).push(files@[i as int]));
            files@.take(i as int).lemma_filter_push(files@[i as int], fm);
        }
        let ghost before = out@;
        if any_matching(&files[i].1, q) {
            out.push(files[i].0.clone());
            assert(views(out@) =~= views(before).push(files@[i as int].0@));
            assert(files@.take(i + 1).filter(fm).map_values(|f: (String, Vec<Headline>)| f.0@)
                =~= files@.take(i as int).filter(fm).map_values(|f: (String, Vec<Headline>)| f.0@).push(files@[i as int].0@));
        }
        i = i + 1;
    }
    assert(files@.take(i as int) =~= files@);
    out
}

/// How many files have a headline that answers `q`.
pub fn files_matching(files: &Vec<(String, Vec<Headline>)>, q: &HeadlineQuery) -> (r: usize)
    ensures
        r == files@.filter(file_matches(*q)).len(),
{
    let p = paths_matching(files, q);
    assert(views(p@).len() == p@.len());
    p.len()
}

/// For each file, in order, how many of its headlines answer `q` — the
/// per-file counts the vault's distribution statistics run over.
pub fn counts_per_file(files: &Vec<(String, Vec<Headline>)>, q: &HeadlineQuery) -> (r: Vec<usize>)
    ensures
        r@.len() == files@.len(),
        forall|i: int| 0 <= i < r@.len() ==> #[trigger] r@[i] == files@[i].1@.filter(matching(*q)).len(),
{
    let mut out: Vec<usize> = Vec::new();
    let mut i: usize = 0;
    while i < files.len()
        invariant
            i <= files.len(),
            out@.len() == i,
            forall|k: int| 0 <= k < i ==> #[trigger] out@[k] == files@[k].1@.filter(matching(*q)).len(),
        decreases files.len() - i,
    {
        let c = count_matching(&files[i].1, q);
        out.push(c);
        i = i + 1;
    }
    out
}

/// Every headline of the files, file after file.
pub open spec fn all_headlines(files: Seq<(String, Vec<Headline>)>) -> Seq<Headline>
    decreases files.len(),
{
    if files.len() == 0 {
        Seq::empty()
    } else {
        all_headlines(files.drop_last()) + files.last().1@
    }
}

/// A vault's count is the sum of its files' counts: the per-file
/// counts that the distribution statistics run over add up to the
/// count over every headline of the vault.
pub proof fn law_file_counts_add_up(files: Seq<(String, Vec<Headline>)>, per: Seq<usize>, q: HeadlineQuery)
    requires
        per.len() == files.len(),
        forall|i: int| 0 <= i < per.len() ==> #[trigger] per[i] == files[i].1@.filter(matching(q)).len(),
    ensures
        sum_of(per) == all_headlines(files).filter(matching(q)).len(),
    decreases files.len(),
{
    if files.len() == 0 {
        Seq::<Headline>::empty().lemma_filter_len(matching(q));
    } else {
        let fd = files.drop_last();
        let pd = per.drop_last();
        assert forall|i: int| 0 <= i < pd.len() implies #[trigger] pd[i] == fd[i].1@.filter(matching(q)).len() by {
            assert(pd[i] == per[i]);
            assert(fd[i] == files[i]);
        }
        law_file_counts_add_up(fd, pd, q);
        Seq::filter_distributes_over_add(all_headlines(fd), files.last().1@, matching(q));
        assert(per.last() == per[per.len() - 1]);
    }
}

/// A text equal to `k`.
pub open spec fn text_is(k: Seq<char>) -> spec_fn(Seq<char>) -> bool {
    |x: Seq<char>| x == k
}

/// How often `k` occurs among `items`.
pub open spec fn occurrences(items: Seq<Seq<char>>, k: Seq<char>) -> nat {
    items.filter(text_is(k)).len()
}

/// How often `k` occurs among the strings `items`.
fn count_occurrences(items: &Vec<String>, k: &String) -> (r: usize)
    ensures
        r == occurrences(views(items@), k@),
{
    let mut n: usize = 0;
    let mut i: usize = 0;
    let ghost iv = views(items@);
    assert(iv.take(0) =~= Seq::<Seq<char>>::empty());
    proof {
        Seq::<Seq<char>>::empty().lemma_filter_len(text_is(k@));
    }
    while i < items.len()
        invariant
            i <= items.len(),
            iv == views(items@),
            n == iv.take(i as int).filter(text_is(k@)).len(),
            n <= i,
        decreases items.len() - i,
    {
        proof {
            assert(iv.take(i + 1) =~= iv.take(i as int).push(iv[i as int]));
            assert(iv[i as int] == items@[i as int]@);
            iv.take(i as int).lemma_filter_push(iv[i as int], text_is(k@));
        }
        if items[i] == *k {
            n = n + 1;
        }
        i = i + 1;
    }
    assert(iv.take(i as int) =~= iv);
    n
}

/// Each distinct string of `items`, in order, with how often it occurs
/// — what counting into a `BTreeMap` gives.
pub fn key_counts(items: &Vec<String>) -> (r: Vec<(String, usize)>)
    ensures
        strictly_sorted(count_keys(r@)),
        forall|k: Seq<char>| #[trigger] count_keys(r@).contains(k) <==> views(items@).contains(k),
        forall|i: int| 0 <= i < r@.len() ==> #[trigger] r@[i].1 == occurrences(views(items@), r@[i].0@),
{
    let keys = sorted_distinct(items);
    let mut out: Vec<(String, usize)> = Vec::new();
    let mut i: usize = 0;
    while i < keys.len()
        invariant
            i <= keys.len(),
            count_keys(out@) == views(keys@).take(i as int),
            forall|j: int| 0 <= j < out@.len() ==> #[trigger] out@[j].1 == occurrences(views(items@), out@[j].0@),
        decreases keys.len() - i,
    {
        let c = count_occurrences(items, &keys[i]);
        let ghost before = out@;
        let e = (keys[i].clone(), c);
        out.push(e);
        proof {
            assert(out@ == before.push(e));
            assert(count_keys(out@) =~= count_keys(before).push(e.0@));
            assert(views(keys@).take(i + 1) =~= views(keys@).take(i as int).push(keys@[i as int]@));
            assert forall|j: int| 0 <= j < out@.len() implies #[trigger] out@[j].1 == occurrences(views(items@), out@[j].0@) by {
                if j < before.len() {
                    assert(out@[j] == before[j]);
                }
            }
        }
        i = i + 1;
    }
    assert(views(keys@).take(i as int) =~= views(keys@));
    out
}

/// Every tag of every headline, in order, repeats included.
pub open spec fn tag_items(hs: Seq<Headline>) -> Seq<Seq<char>>
    decreases hs.len(),
{
    if hs.len() == 0 {
        Seq::empty()
    } else {
        tag_items(hs.drop_last()) + views(hs.last().tags@)
    }
}

/// Every TODO keyword of the headlines, in order, repeats included.
pub open spec fn todo_items(hs: Seq<Headline>) -> Seq<Seq<char>>
    decreases hs.len(),
{
    if hs.len() == 0 {
        Seq::empty()
    } else {
        todo_items(hs.drop_last()) + match hs.last().todo {
            Some(t) => seq![t@],
            None => Seq::empty(),
        }
    }
}

/// Every tag of every headline, repeats included.
fn collect_tags(hs: &Vec<Headline>) -> (r: Vec<String>)
    ensures
        views(r@) == tag_items(hs@),
{
    let mut out: Vec<String> = Vec::new();
    let mut i: usize = 0;
    assert(hs@.take(0) =~= Seq::<Headline>::empty());
    assert(views(out@) =~= tag_items(hs@.take(0)));
    while i < hs.len()
        invariant
            i <= hs.len(),
            views(out@) == tag_items(hs@.take(i as int)),
        decreases hs.len() - i,
    {
        let tags = &hs[i].tags;
        let ghost base = views(out@);
        let mut j: usize = 0;
        assert(views(tags@).take(0) =~= Seq::<Seq<char>>::empty());
        assert(views(out@) =~= base + views(tags@).take(0));
        while j < tags.len()
            invariant
                j <= tags.len(),
                views(out@) == base + views(tags@).take(j as int),
            decreases tags.len() - j,
        {
            let ghost mid = views(out@);
            out.push(tags[j].clone());
            assert(views(out@) =~= mid.push(tags@[j as int]@));
            assert(views(tags@).take(j + 1) =~= views(tags@).take(j as int).push(tags@[j as int]@));
            assert(views(out@) =~= base + views(tags@).take(j + 1));
            j = j + 1;
        }
        proof {
            assert(views(tags@).take(j as int) =~= views(tags@));
            assert(hs@.take(i + 1).drop_last() =~= hs@.take(i as int));
            assert(hs@.take(i + 1).last() == hs@[i as int]);
        }
        i = i + 1;
    }
    assert(hs@.take(i as int) =~= hs@);
    out
}

/// Every TODO keyword of the headlines, repeats included.
fn collect_todos(hs: &Vec<Headline>) -> (r: Vec<String>)
    ensures
        views(r@) == todo_items(hs@),
{
    let mut out: Vec<String> = Vec::new();
    let mut i: usize = 0;
    assert(hs@.take(0) =~= Seq::<Headline>::empty());
    assert(views(out@) =~= todo_items(hs@.take(0)));
    while i < hs.len()
        invariant
            i <= hs.len(),
            views(out@) == todo_items(hs@.take(i as int)),
        decreases hs.len() - i,
    {
        let ghost base = views(out@);
        match &hs[i].todo {
            Some(t) => {
                out.push(t.clone());
            },
            None => {},
        }
        proof {
            assert(hs@.take(i + 1).drop_last() =~= hs@.take(i as int));
            assert(hs@.take(i + 1).last() == hs@[i as int]);
            assert(views(out@) =~= todo_items(hs@.take(i + 1)));
        }
        i = i + 1;
    }
    assert(hs@.take(i as int) =~= hs@);
    out
}

/// Each tag in use, in order, with how many times headlines carry it.
pub fn tag_count_map(hs: &Vec<Headline>) -> (r: Vec<(String, usize)>)
    ensures
        strictly_sorted(count_keys(r@)),
        forall|k: Seq<char>| #[trigger] count_keys(r@).contains(k) <==> tag_items(hs@).contains(k),
        forall|i: int| 0 <= i < r@.len() ==> #[trigger] r@[i].1 == occurrences(tag_items(hs@), r@[i].0@),
{
    key_counts(&collect_tags(hs))
}

/// Each TODO keyword in use, in order, with how many headlines carry
/// it.
pub fn todo_count_map(hs: &Vec<Headline>) -> (r: Vec<(String, usize)>)
    ensures
        strictly_sorted(count_keys(r@)),
        forall|k: Seq<char>| #[trigger] count_keys(r@).contains(k) <==> todo_items(hs@).contains(k),
        forall|i: int| 0 <= i < r@.len() ==> #[trigger] r@[i].1 == occurrences(todo_items(hs@), r@[i].0@),
{
    key_counts(&collect_todos(hs))
}

/// `k` is the most frequent of `items`: as frequent as any, and the
/// first in `str`'s order among those as frequent.
pub open spec fn is_most_frequent(items: Seq<Seq<char>>, k: Seq<char>) -> bool {
    &&& items.contains(k)
    &&& forall|u: Seq<char>| #[trigger] items.contains(u) ==> occurrences(items, u) <= occurrences(items, k)
    &&& forall|u: Seq<char>| #[trigger] items.contains(u) && occurrences(items, u) == occurrences(items, k) ==> lex_le(k, u)
}

/// The most frequent of a key histogram's keys, first in order among
/// equals.
fn most_frequent_key(counts: &Vec<(String, usize)>, Ghost(items): Ghost<Seq<Seq<char>>>) -> (r: Option<String>)
    requires
        strictly_sorted(count_keys(counts@)),
        forall|k: Seq<char>| #[trigger] count_keys(counts@).contains(k) <==> items.contains(k),
        forall|i: int| 0 <= i < counts@.len() ==> #[trigger] counts@[i].1 == occurrences(items, counts@[i].0@),
    ensures
        match r {
            Some(k) => is_most_frequent(items, k@),
            None => items.len() == 0,
        },
{
    if counts.len() == 0 {
        proof {
            if items.len() > 0 {
                assert(items.contains(items[0]));
                assert(count_keys(counts@).contains(items[0]));
            }
        }
        return None;
    }
    let mut best: usize = 0;
    let mut j: usize = 1;
    while j < counts.len()
        invariant
            1 <= j <= counts.len(),
            best < j,
            forall|k: int| 0 <= k < j ==> #[trigger] counts@[k].1 <= counts@[best as int].1,
            forall|k: int| 0 <= k < best ==> #[trigger] counts@[k].1 < counts@[best as int].1,
        decreases counts.len() - j,
    {
        if counts[j].1 > counts[best].1 {
            best = j;
        }
        j = j + 1;
    }
    let t = counts[best].0.clone();
    proof {
        let ks = count_keys(counts@);
        assert(ks[best as int] == t@);
        assert(ks.contains(t@));
        assert forall|u: Seq<char>| #[trigger] items.contains(u) implies occurrences(items, u) <= occurrences(items, t@)
            && (occurrences(items, u) == occurrences(items, t@) ==> lex_le(t@, u)) by {
            assert(ks.contains(u));
            let k = choose|k: int| 0 <= k < ks.len() && ks[k] == u;
            assert(counts@[k].0@ == u);
            assert(counts@[k].1 == occurrences(items, u));
            assert(counts@[best as int].1 == occurrences(items, t@));
            if occurrences(items, u) == occurrences(items, t@) {
                if k < best {
                } else if k == best {
                    lemma_lex_reflexive(t@);
                } else {
                    assert(lex_le(ks[best as int], ks[k]));
                }
            }
        }
    }
    Some(t)
}

/// The most used TODO keyword, first in order among equally used ones;
/// `None` when no headline has one.
pub fn most_common_todo(hs: &Vec<Headline>) -> (r: Option<String>)
    ensures
        match r {
            Some(k) => is_most_frequent(todo_items(hs@), k@),
            None => todo_items(hs@).len() == 0,
        },
{
    let counts = todo_count_map(hs);
    most_frequent_key(&counts, Ghost(todo_items(hs@)))
}

/// The most used tag, first in order among equally used ones; `None`
/// when no headline is tagged.
pub fn most_common_tag(hs: &Vec<Headline>) -> (r: Option<String>)
    ensures
        match r {
            Some(k) => is_most_frequent(tag_items(hs@), k@),
            None => tag_items(hs@).len() == 0,
        },
{
    let counts = tag_count_map(hs);
    most_frequent_key(&counts, Ghost(tag_items(hs@)))
}

} // verus!
