//! The agenda's order and window — rows sorted by date, then title;
//! the rows due by a day, deadlines from their warning period on — and the clock report's order:
//! most minutes first, then by title.

use crate::civil::{agenda_date, agenda_date_of, date_days, date_days_exec, date_shape, digits_value, is_date_shape, is_digit};
use crate::error::{AgendaEntry, AgendaKind};
use crate::order::{chars_le, lemma_lex_antisymmetric, lemma_lex_reflexive, lemma_lex_total, lemma_lex_transitive, lex_le};
use crate::text::{chars_eq, chars_of};
use vstd::prelude::*;
use vstd::relations::sorted_by;

verus! {

broadcast use vstd::seq_lib::group_to_multiset_ensures;

/// `a` comes no later than `b` in the agenda: an earlier date, or the
/// same date and a title no later in `str`'s order.
pub open spec fn agenda_le(a: AgendaEntry, b: AgendaEntry) -> bool {
    (lex_le(a.date@, b.date@) && a.date@ != b.date@) || (a.date@ == b.date@ && lex_le(a.title@, b.title@))
}

/// The agenda order as a relation.
pub open spec fn agenda_order() -> spec_fn(AgendaEntry, AgendaEntry) -> bool {
    |a: AgendaEntry, b: AgendaEntry| agenda_le(a, b)
}

proof fn lemma_agenda_total(a: AgendaEntry, b: AgendaEntry)
    ensures
        agenda_le(a, b) || agenda_le(b, a),
{
    lemma_lex_total(a.date@, b.date@);
    lemma_lex_total(a.title@, b.title@);
}

proof fn lemma_agenda_transitive(a: AgendaEntry, b: AgendaEntry, c: AgendaEntry)
    requires
        agenda_le(a, b),
        agenda_le(b, c),
    ensures
        agenda_le(a, c),
{
    if a.date@ != b.date@ && b.date@ != c.date@ {
        lemma_lex_transitive(a.date@, b.date@, c.date@);
        if a.date@ == c.date@ {
            lemma_lex_antisymmetric(a.date@, b.date@);
        }
    } else if a.date@ == b.date@ && b.date@ == c.date@ {
        lemma_lex_transitive(a.title@, b.title@, c.title@);
    }
}

/// Whether `a` comes no later than `b` in the agenda.
fn agenda_le_exec(a: &AgendaEntry, b: &AgendaEntry) -> (r: bool)
    ensures
        r == agenda_le(*a, *b),
{
    let ad = chars_of(a.date.as_str());
    let bd = chars_of(b.date.as_str());
    if chars_eq(&ad, &bd) {
        chars_le(&chars_of(a.title.as_str()), &chars_of(b.title.as_str()))
    } else {
        chars_le(&ad, &bd)
    }
}

/// The rows with the same date and title as `x`.
pub open spec fn same_key(x: AgendaEntry) -> spec_fn(AgendaEntry) -> bool {
    |e: AgendaEntry| e.date@ == x.date@ && e.title@ == x.title@
}

proof fn lemma_filter_none(s: Seq<AgendaEntry>, p: spec_fn(AgendaEntry) -> bool)
    requires
        forall|k: int| 0 <= k < s.len() ==> !p(#[trigger] s[k]),
    ensures
        s.filter(p) == Seq::<AgendaEntry>::empty(),
    decreases s.len(),
{
    if s.len() == 0 {
        s.lemma_filter_len(p);
        assert(s.filter(p) =~= Seq::<AgendaEntry>::empty());
    } else {
        let f = s.drop_last();
        assert forall|k: int| 0 <= k < f.len() implies !p(#[trigger] f[k]) by {
            assert(f[k] == s[k]);
        }
        lemma_filter_none(f, p);
        assert(s =~= f.push(s.last()));
        f.lemma_filter_push(s.last(), p);
    }
}

/// Inserting `x` after every row with its date and title adds it at the
/// end of its own rows and leaves the other rows alone.
proof fn lemma_insert_after_equals(s: Seq<AgendaEntry>, pos: int, x: AgendaEntry, y: AgendaEntry)
    requires
        0 <= pos <= s.len(),
        forall|b: int| pos <= b < s.len() ==> !(same_key(x))(#[trigger] s[b]),
    ensures
        s.insert(pos, x).filter(same_key(y)) == (if (same_key(y))(x) {
            s.filter(same_key(y)).push(x)
        } else {
            s.filter(same_key(y))
        }),
{
    let p = same_key(y);
    let a = s.take(pos);
    let b = s.skip(pos);
    assert(s.insert(pos, x) =~= a + seq![x] + b);
    assert(s =~= a + b);
    assert(seq![x] =~= Seq::<AgendaEntry>::empty().push(x));
    Seq::<AgendaEntry>::empty().lemma_filter_push(x, p);
    Seq::<AgendaEntry>::empty().lemma_filter_len(p);
    assert(Seq::<AgendaEntry>::empty().filter(p) =~= Seq::<AgendaEntry>::empty());
    Seq::filter_distributes_over_add(a + seq![x], b, p);
    Seq::filter_distributes_over_add(a, seq![x], p);
    Seq::filter_distributes_over_add(a, b, p);
    if p(x) {
        assert forall|k: int| 0 <= k < b.len() implies !p(#[trigger] b[k]) by {
            assert(b[k] == s[pos + k]);
        }
        lemma_filter_none(b, p);
        assert(a.filter(p) + seq![x] + Seq::<AgendaEntry>::empty() =~= (a.filter(p) + Seq::<AgendaEntry>::empty()).push(x));
        assert(a.filter(p) + Seq::<AgendaEntry>::empty() =~= a.filter(p));
    } else {
        assert(a.filter(p) + Seq::<AgendaEntry>::empty() =~= a.filter(p));
    }
}

/// Sort agenda rows by date, then title. The result holds exactly the
/// rows given, each as often as given, and the sort is stable: rows
/// with the same date and title keep the order they were given in.
pub fn sort_agenda(entries: Vec<AgendaEntry>) -> (r: Vec<AgendaEntry>)
    ensures
        sorted_by(r@, agenda_order()),
        r@.to_multiset() == entries@.to_multiset(),
        forall|x: AgendaEntry| #[trigger] r@.filter(same_key(x)) == entries@.filter(same_key(x)),
{
    let ghost orig = entries@;
    let mut rest = entries;
    let n0 = rest.len();
    let mut out: Vec<AgendaEntry> = Vec::new();
    let mut i: usize = 0;
    assert(orig.skip(0) =~= orig);
    while rest.len() > 0
        invariant
            i <= orig.len(),
            orig.len() == n0,
            rest@ == orig.skip(i as int),
            sorted_by(out@, agenda_order()),
            out@.to_multiset() == orig.take(i as int).to_multiset(),
            forall|y: AgendaEntry| #[trigger] out@.filter(same_key(y)) == orig.take(i as int).filter(same_key(y)),
        decreases rest.len(),
    {
        let x = rest.remove(0);
        proof {
            assert(orig.skip(i + 1) =~= orig.skip(i as int).remove(0));
            assert(orig.take(i + 1) =~= orig.take(i as int).push(x));
        }
        let mut pos: usize = 0;
        while pos < out.len() && agenda_le_exec(&out[pos], &x)
            invariant
                pos <= out.len(),
                forall|j: int| 0 <= j < pos ==> agenda_le(#[trigger] out@[j], x),
            decreases out.len() - pos,
        {
            pos = pos + 1;
        }
        let ghost old_out = out@;
        proof {
            if pos < old_out.len() {
                lemma_agenda_total(old_out[pos as int], x);
            }
        }
        out.insert(pos, x);
        proof {
            assert(out@ =~= old_out.insert(pos as int, x));
            assert forall|b: int| pos <= b < old_out.len() implies !(same_key(x))(#[trigger] old_out[b]) by {
                assert(!agenda_le(old_out[pos as int], x));
                if b > pos {
                    assert((agenda_order())(old_out[pos as int], old_out[b]));
                }
            }
            assert forall|y: AgendaEntry| #[trigger] out@.filter(same_key(y)) == orig.take(i + 1).filter(same_key(y)) by {
                lemma_insert_after_equals(old_out, pos as int, x, y);
                orig.take(i as int).lemma_filter_push(x, same_key(y));
            }
            assert forall|a: int, b: int| 0 <= a < b < out@.len() implies #[trigger] (agenda_order())(out@[a], out@[b]) by {
                if a < pos && b == pos {
                } else if a == pos && b > pos {
                    assert(out@[b] == old_out[b - 1]);
                    if b - 1 > pos {
                        assert((agenda_order())(old_out[pos as int], old_out[b - 1]));
                        lemma_agenda_transitive(x, old_out[pos as int], old_out[b - 1]);
                    }
                } else if a < pos && b > pos {
                    assert(out@[a] == old_out[a] && out@[b] == old_out[b - 1]);
                    assert((agenda_order())(old_out[a], old_out[b - 1]));
                } else if b < pos {
                    assert(out@[a] == old_out[a] && out@[b] == old_out[b]);
                    assert((agenda_order())(old_out[a], old_out[b]));
                } else {
                    assert(out@[a] == old_out[a - 1] && out@[b] == old_out[b - 1]);
                    assert((agenda_order())(old_out[a - 1], old_out[b - 1]));
                }
            }
        }
        i = i + 1;
    }
    assert(orig.take(i as int) =~= orig);
    out
}

/// How many characters at the front of `s` are decimal digits.
pub open spec fn digit_run(s: Seq<char>) -> nat
    decreases s.len(),
{
    if s.len() > 0 && is_digit(s[0]) {
        1 + digit_run(s.drop_first())
    } else {
        0
    }
}

/// A character that may follow a timestamp's `-Nd` warning period.
pub open spec fn ends_stamp_token(c: char) -> bool {
    c == ' ' || c == '>' || c == ']'
}

/// The days of the warning period ` -Nd` that `s` starts with, if it
/// starts with one: a space, `-`, one to four digits, `d`, then the end
/// of the stamp or of the token.
pub open spec fn cooldown_at(s: Seq<char>) -> Option<int> {
    if s.len() >= 2 && s[0] == ' ' && s[1] == '-' {
        let k = digit_run(s.skip(2)) as int;
        if 0 < k <= 4 && k + 3 <= s.len() && s[k + 2] == 'd' && (k + 3 == s.len() || ends_stamp_token(s[k + 3])) {
            Some(digits_value(s.subrange(2, k + 2)))
        } else {
            None
        }
    } else {
        None
    }
}

/// The first warning period written in a timestamp.
pub open spec fn cooldown_of(s: Seq<char>) -> Option<int>
    decreases s.len(),
{
    if s.len() == 0 {
        None
    } else {
        match cooldown_at(s) {
            Some(n) => Some(n),
            None => cooldown_of(s.drop_first()),
        }
    }
}

/// How many days before its date a deadline with this stamp is shown:
/// its own `-Nd`, else org's default of fourteen.
pub open spec fn warning_of(ts: Seq<char>) -> int {
    match cooldown_of(ts) {
        Some(n) => n,
        None => 14,
    }
}

proof fn lemma_digit_run_step(s: Seq<char>, j: int)
    requires
        0 <= j < s.len(),
        is_digit(s[j]),
    ensures
        digit_run(s.skip(j)) == 1 + digit_run(s.skip(j + 1)),
{
    assert(s.skip(j).drop_first() =~= s.skip(j + 1));
}

/// The warning period ` -Nd` at `v[i..]`, if one starts there.
fn cooldown_at_exec(v: &Vec<char>, i: usize) -> (r: Option<u32>)
    requires
        i < v.len(),
    ensures
        match r {
            Some(n) => cooldown_at(v@.skip(i as int)) == Some(n as int),
            None => cooldown_at(v@.skip(i as int)) is None,
        },
{
    let ghost s = v@.skip(i as int);
    let len = v.len();
    if len - i < 2 || v[i] != ' ' || v[i + 1] != '-' {
        return None;
    }
    let mut j: usize = i + 2;
    let mut acc: u32 = 0;
    assert(s.skip(2) =~= v@.skip(i + 2));
    assert(v@.subrange(i + 2, i + 2) =~= Seq::<char>::empty());
    while j < len && j - (i + 2) < 5 && '0' <= v[j] && v[j] <= '9'
        invariant
            i + 2 <= j <= len,
            j - (i + 2) <= 5,
            len == v.len(),
            s == v@.skip(i as int),
            digit_run(s.skip(2)) == (j - (i + 2)) + digit_run(v@.skip(j as int)),
            j - (i + 2) <= 4 ==> acc == digits_value(v@.subrange(i + 2, j as int)),
            acc < 10000,
            j - (i + 2) <= 3 ==> acc < 1000,
            j - (i + 2) <= 2 ==> acc < 100,
            j - (i + 2) <= 1 ==> acc < 10,
            j - (i + 2) == 0 ==> acc == 0,
        decreases len - j,
    {
        proof {
            lemma_digit_run_step(v@, j as int);
        }
        let dgt = v[j] as u32 - '0' as u32;
        if j - (i + 2) < 4 {
            assert(v@.subrange(i + 2, j + 1).drop_last() =~= v@.subrange(i + 2, j as int));
            acc = acc * 10 + dgt;
        }
        j = j + 1;
    }
    let k = j - (i + 2);
    proof {
        if k < 5 {
            if j < len {
                assert(v@.skip(j as int)[0] == v@[j as int]);
            } else {
                assert(v@.skip(j as int).len() == 0);
            }
            assert(digit_run(v@.skip(j as int)) == 0);
        }
    }
    if k == 0 || k > 4 || len - j < 1 || v[j] != 'd' {
        return None;
    }
    if len - j >= 2 && !(v[j + 1] == ' ' || v[j + 1] == '>' || v[j + 1] == ']') {
        return None;
    }
    assert(s.subrange(2, k as int + 2) =~= v@.subrange(i + 2, j as int));
    Some(acc)
}

/// How many days before its date a deadline with this stamp is shown.
pub fn warning_days_of(ts: &str) -> (r: u32)
    ensures
        r == warning_of(ts@),
{
    let v = chars_of(ts);
    let mut i: usize = 0;
    assert(v@.skip(0) =~= v@);
    while i < v.len()
        invariant
            i <= v.len(),
            v@ == ts@,
            cooldown_of(ts@) == cooldown_of(v@.skip(i as int)),
        decreases v.len() - i,
    {
        assert(v@.skip(i as int).drop_first() =~= v@.skip(i + 1));
        match cooldown_at_exec(&v, i) {
            Some(n) => {
                return n;
            },
            None => {},
        }
        i = i + 1;
    }
    assert(v@.skip(i as int).len() == 0);
    14
}

/// Whether a row is on the agenda by `today`: a scheduled row from its
/// own date on; a deadline from `warning_days` days before its date, and
/// every day after. When either date does not read as `dddd-dd-dd`, the
/// dates compare as text and there is no warning period.
pub open spec fn shows_by(e: AgendaEntry, today: Seq<char>) -> bool {
    match e.kind {
        AgendaKind::Scheduled => lex_le(e.date@, today),
        AgendaKind::Deadline => if date_shape(e.date@) && date_shape(today) {
            date_days(e.date@) <= date_days(today) + e.warning_days
        } else {
            lex_le(e.date@, today)
        },
    }
}

/// Whether a row is on the agenda by `today`.
fn shows_by_exec(e: &AgendaEntry, today: &Vec<char>) -> (r: bool)
    ensures
        r == shows_by(*e, today@),
{
    let d = chars_of(e.date.as_str());
    match e.kind {
        AgendaKind::Scheduled => chars_le(&d, today),
        AgendaKind::Deadline => {
            if is_date_shape(&d) && is_date_shape(today) {
                let dd = date_days_exec(&d);
                let td = date_days_exec(today);
                dd <= td + e.warning_days as i64
            } else {
                chars_le(&d, today)
            }
        },
    }
}

/// The rows on the agenda by `date`.
pub open spec fn due_by(date: Seq<char>) -> spec_fn(AgendaEntry) -> bool {
    |e: AgendaEntry| shows_by(e, date)
}

/// The rows on the agenda by `date`, in the order given: scheduled rows
/// dated on or before it, deadlines from their warning period on.
pub fn agenda_until(entries: Vec<AgendaEntry>, date: &str) -> (r: Vec<AgendaEntry>)
    ensures
        r@ == entries@.filter(due_by(date@)),
{
    let ghost orig = entries@;
    let d = chars_of(date);
    let mut rest = entries;
    let n0 = rest.len();
    let mut out: Vec<AgendaEntry> = Vec::new();
    let mut i: usize = 0;
    assert(orig.skip(0) =~= orig);
    assert(orig.take(0) =~= Seq::<AgendaEntry>::empty());
    proof {
        Seq::<AgendaEntry>::empty().lemma_filter_len(due_by(date@));
    }
    assert(out@ =~= orig.take(0).filter(due_by(date@)));
    while rest.len() > 0
        invariant
            i <= orig.len(),
            orig.len() == n0,
            d@ == date@,
            rest@ == orig.skip(i as int),
            out@ == orig.take(i as int).filter(due_by(date@)),
        decreases rest.len(),
    {
        let x = rest.remove(0);
        proof {
            assert(orig.skip(i + 1) =~= orig.skip(i as int).remove(0));
            assert(orig.take(i + 1) =~= orig.take(i as int).push(x));
            orig.take(i as int).lemma_filter_push(x, due_by(date@));
        }
        if shows_by_exec(&x, &d) {
            out.push(x);
        }
        i = i + 1;
    }
    assert(orig.take(i as int) =~= orig);
    out
}

/// `a` comes no later than `b` in the clock report: more minutes, or
/// as many and a title no later in `str`'s order.
pub open spec fn clock_le(a: (String, u64), b: (String, u64)) -> bool {
    a.1 > b.1 || (a.1 == b.1 && lex_le(a.0@, b.0@))
}

/// The clock report order as a relation.
pub open spec fn clock_order() -> spec_fn((String, u64), (String, u64)) -> bool {
    |a: (String, u64), b: (String, u64)| clock_le(a, b)
}

/// A headline with clocked time.
pub open spec fn clocked() -> spec_fn((String, u64)) -> bool {
    |e: (String, u64)| e.1 > 0
}

/// The clock report: the `(title, minutes)` totals with time on them,
/// most minutes first, then by title. The result holds exactly those
/// totals, each as often as given.
pub fn clock_report(totals: Vec<(String, u64)>) -> (r: Vec<(String, u64)>)
    ensures
        sorted_by(r@, clock_order()),
        r@.to_multiset() == totals@.filter(clocked()).to_multiset(),
{
    let ghost orig = totals@;
    let mut rest = totals;
    let n0 = rest.len();
    let mut out: Vec<(String, u64)> = Vec::new();
    let mut i: usize = 0;
    assert(orig.skip(0) =~= orig);
    assert(orig.take(0) =~= Seq::<(String, u64)>::empty());
    proof {
        Seq::<(String, u64)>::empty().lemma_filter_len(clocked());
        assert(orig.take(0).filter(clocked()) =~= Seq::<(String, u64)>::empty());
    }
    while rest.len() > 0
        invariant
            i <= orig.len(),
            orig.len() == n0,
            rest@ == orig.skip(i as int),
            sorted_by(out@, clock_order()),
            out@.to_multiset() == orig.take(i as int).filter(clocked()).to_multiset(),
        decreases rest.len(),
    {
        let x = rest.remove(0);
        proof {
            assert(orig.skip(i + 1) =~= orig.skip(i as int).remove(0));
            assert(orig.take(i + 1) =~= orig.take(i as int).push(x));
            orig.take(i as int).lemma_filter_push(x, clocked());
        }
        if x.1 > 0 {
            let xt = chars_of(x.0.as_str());
            let mut pos: usize = 0;
            while pos < out.len() && (out[pos].1 > x.1 || (out[pos].1 == x.1 && chars_le(&chars_of(out[pos].0.as_str()), &xt)))
                invariant
                    pos <= out.len(),
                    xt@ == x.0@,
                    forall|j: int| 0 <= j < pos ==> clock_le(#[trigger] out@[j], x),
                decreases out.len() - pos,
            {
                pos = pos + 1;
            }
            let ghost old_out = out@;
            proof {
                if pos < old_out.len() {
                    lemma_lex_total(old_out[pos as int].0@, x.0@);
                }
            }
            out.insert(pos, x);
            proof {
                assert(out@ =~= old_out.insert(pos as int, x));
                assert forall|a: int, b: int| 0 <= a < b < out@.len() implies #[trigger] (clock_order())(out@[a], out@[b]) by {
                    if a < pos && b == pos {
                    } else if a == pos && b > pos {
                        assert(out@[b] == old_out[b - 1]);
                        if b - 1 > pos {
                            assert((clock_order())(old_out[pos as int], old_out[b - 1]));
                            if x.1 == old_out[pos as int].1 && old_out[pos as int].1 == old_out[b - 1].1 {
                                lemma_lex_transitive(x.0@, old_out[pos as int].0@, old_out[b - 1].0@);
                            }
                        }
                    } else if a < pos && b > pos {
                        assert(out@[a] == old_out[a] && out@[b] == old_out[b - 1]);
                        assert((clock_order())(old_out[a], old_out[b - 1]));
                    } else if b < pos {
                        assert(out@[a] == old_out[a] && out@[b] == old_out[b]);
                        assert((clock_order())(old_out[a], old_out[b]));
                    } else {
                        assert(out@[a] == old_out[a - 1] && out@[b] == old_out[b - 1]);
                        assert((clock_order())(old_out[a - 1], old_out[b - 1]));
                    }
                }
            }
        }
        i = i + 1;
    }
    assert(orig.take(i as int) =~= orig);
    out
}

/// The agenda rows one headline contributes: its `SCHEDULED:` stamp,
/// then its `DEADLINE:` stamp, each only when a date can be read from it,
/// with the days of warning the row gets (none for a scheduled row).
pub open spec fn planned(scheduled: Option<Seq<char>>, deadline: Option<Seq<char>>) -> Seq<(AgendaKind, Seq<char>, int)> {
    let s = match scheduled {
        Some(ts) => match agenda_date_of(ts) {
            Some(d) => seq![(AgendaKind::Scheduled, d, 0int)],
            None => Seq::empty(),
        },
        None => Seq::empty(),
    };
    let d = match deadline {
        Some(ts) => match agenda_date_of(ts) {
            Some(d) => seq![(AgendaKind::Deadline, d, warning_of(ts))],
            None => Seq::empty(),
        },
        None => Seq::empty(),
    };
    s + d
}

/// The kinds, dates and warning days of the agenda rows of a headline
/// with these planning stamps.
pub fn planned_dates(scheduled: Option<&str>, deadline: Option<&str>) -> (r: Vec<(AgendaKind, String, u32)>)
    ensures
        r@.map_values(|e: (AgendaKind, String, u32)| (e.0, e.1@, e.2 as int)) == planned(
            match scheduled {
                Some(s) => Some(s@),
                None => None,
            },
            match deadline {
                Some(s) => Some(s@),
                None => None,
            },
        ),
{
    let mut r: Vec<(AgendaKind, String, u32)> = Vec::new();
    match scheduled {
        Some(ts) => match agenda_date(ts) {
            Some(d) => r.push((AgendaKind::Scheduled, d, 0)),
            None => {},
        },
        None => {},
    }
    let ghost first = r@;
    match deadline {
        Some(ts) => match agenda_date(ts) {
            Some(d) => r.push((AgendaKind::Deadline, d, warning_days_of(ts))),
            None => {},
        },
        None => {},
    }
    assert(r@.map_values(|e: (AgendaKind, String, u32)| (e.0, e.1@, e.2 as int)) =~= planned(
        match scheduled {
            Some(s) => Some(s@),
            None => None,
        },
        match deadline {
            Some(s) => Some(s@),
            None => None,
        },
    ));
    r
}

/// The agenda's window keeps its order: the rows due by a day, taken
/// from a sorted agenda, are still sorted.
pub proof fn law_window_keeps_order(rows: Seq<AgendaEntry>, date: Seq<char>)
    requires
        sorted_by(rows, agenda_order()),
    ensures
        sorted_by(rows.filter(due_by(date)), agenda_order()),
    decreases rows.len(),
{
    let f = rows.filter(due_by(date));
    if rows.len() == 0 {
        rows.lemma_filter_len(due_by(date));
    } else {
        let front = rows.drop_last();
        let x = rows.last();
        assert(rows =~= front.push(x));
        assert(sorted_by(front, agenda_order())) by {
            assert forall|i: int, j: int| 0 <= i < j < front.len() implies #[trigger] (agenda_order())(front[i], front[j]) by {
                assert(front[i] == rows[i] && front[j] == rows[j]);
            }
        }
        law_window_keeps_order(front, date);
        front.lemma_filter_push(x, due_by(date));
        let g = front.filter(due_by(date));
        if (due_by(date))(x) {
            assert forall|i: int| 0 <= i < g.len() implies #[trigger] (agenda_order())(g[i], x) by {
                assert(g.contains(g[i]));
                front.lemma_filter_contains_rev(due_by(date), g[i]);
                let k = choose|k: int| 0 <= k < front.len() && front[k] == g[i];
                assert(rows[k] == front[k]);
                assert((agenda_order())(rows[k], rows[rows.len() - 1]));
            }
            assert forall|i: int, j: int| 0 <= i < j < f.len() implies #[trigger] (agenda_order())(f[i], f[j]) by {
                assert(f == g.push(x));
                if j == f.len() - 1 {
                    assert(f[i] == g[i]);
                } else {
                    assert(f[i] == g[i] && f[j] == g[j]);
                }
            }
        }
    }
}

} // verus!
