//! Org's clock in a headline body: opening a `CLOCK:` entry in the
//! `:LOGBOOK:` drawer, closing it with its duration, cancelling it, and
//! finding the one that is running.

use crate::civil::{
    bad_stamp_message, clock_span_minutes, decimal, decimal_chars, fmt_padded, fmt_padded_i64, org_clock_stamp, span_between,
    span_fits, stamp_fields, stamp_fits, stamp_text,
};
use crate::error::VaultError;
use crate::outline::{is_line, lemma_line_len, lemma_line_len_at, lemma_line_len_concat, line_len};
use crate::text::{
    chars_of, chars_start_with, contains_sub, is_first_occurrence, is_trail_start, is_ws, lemma_trail_start_unique, lemma_first_occurrence_unique, lemma_lead_end_unique, occurs_at, find_char_from, find_first, find_sub_exec, is_first,
    lead_ws, push_chars, replace_first, replace_first_exec, slice_chars, split_once, starts_with,
    string_of, trail_ws, trim_end, trim_start,
};
use vstd::prelude::*;

verus! {

/// A line as `str::lines` yields it: without its `\n`, and without a
/// `\r` right before that `\n`.
pub open spec fn line_text(raw: Seq<char>) -> Seq<char> {
    if raw.len() > 0 && raw.last() == '\n' {
        let x = raw.drop_last();
        if x.len() > 0 && x.last() == '\r' {
            x.drop_last()
        } else {
            x
        }
    } else {
        raw
    }
}

/// A `CLOCK:` line that has not been closed (a closed one carries `--`).
pub open spec fn is_open_clock(l: Seq<char>) -> bool {
    starts_with(trim_start(l), "CLOCK:"@) && !contains_sub(l, "--"@)
}

#[via_fn]
proof fn first_open_clock_decreases(s: Seq<char>) {
    lemma_line_len(s);
}

/// The first open `CLOCK:` line of a body.
pub open spec fn first_open_clock(s: Seq<char>) -> Option<Seq<char>>
    decreases s.len(),
    via first_open_clock_decreases
{
    if s.len() == 0 {
        None
    } else {
        let l = line_text(s.take(line_len(s)));
        if is_open_clock(l) {
            Some(l)
        } else {
            first_open_clock(s.skip(line_len(s)))
        }
    }
}

/// The stamp between the first `[` of a clock line and the `]` after it.
pub open spec fn clock_start(l: Seq<char>) -> Option<Seq<char>> {
    match split_once(l, '[') {
        Some((_, rest)) => match split_once(rest, ']') {
            Some((inside, _)) => Some(inside),
            None => None,
        },
        None => None,
    }
}

/// `CLOCK: [<stamp>]`.
pub open spec fn clock_line(stamp: Seq<char>) -> Seq<char> {
    "CLOCK: ["@ + stamp + "]"@
}

/// The body with a clock opened at `stamp`: at the top of its
/// `:LOGBOOK:` drawer, or in a new drawer above the body.
pub open spec fn clock_in_text(body: Seq<char>, stamp: Seq<char>) -> Seq<char> {
    if contains_sub(body, ":LOGBOOK:"@) {
        replace_first(body, ":LOGBOOK:\n"@, ":LOGBOOK:\n"@ + clock_line(stamp) + "\n"@)
    } else {
        ":LOGBOOK:\n"@ + clock_line(stamp) + "\n:END:\n"@ + body
    }
}

/// An open clock line closed at `stamp` after `minutes`:
/// `CLOCK: [a]--[b] =>  H:MM`.
pub open spec fn closed_clock_line(open: Seq<char>, stamp: Seq<char>, minutes: int) -> Seq<char> {
    trim_end(open) + "--["@ + stamp + "] =>  "@ + decimal((minutes / 60) as nat) + ":"@
        + fmt_padded(minutes % 60, 2)
}

/// What closing the running clock of `body` at `stamp` gives.
pub open spec fn clock_out_result(body: Seq<char>, stamp: Seq<char>) -> Result<Seq<char>, Seq<char>> {
    match first_open_clock(body) {
        None => Err("no clock is running here"@),
        Some(open) => match clock_start(open) {
            None => Err("that clock entry has no start"@),
            Some(started) => match span_between(started, stamp) {
                None => Err("that clock entry has no readable start"@),
                Some(m) => Ok(replace_first(body, open, closed_clock_line(open, stamp, m))),
            },
        },
    }
}

/// The minutes of the running clock of `body`, up to `stamp`, can be
/// computed in an `i64`.
pub open spec fn clock_out_fits(body: Seq<char>, stamp: Seq<char>) -> bool {
    match first_open_clock(body) {
        Some(open) => match clock_start(open) {
            Some(started) => span_fits(started, stamp),
            None => true,
        },
        None => true,
    }
}

/// What cancelling the running clock of `body` gives: the open line
/// and its newline removed, and a drawer left empty removed too.
pub open spec fn clock_cancel_result(body: Seq<char>) -> Option<Seq<char>> {
    match first_open_clock(body) {
        None => None,
        Some(open) => {
            let u = replace_first(body, open.push('\n'), Seq::empty());
            Some(
                if contains_sub(u, ":LOGBOOK:\n:END:\n"@) {
                    replace_first(u, ":LOGBOOK:\n:END:\n"@, Seq::empty())
                } else {
                    u
                },
            )
        },
    }
}

/// The text of the line `v[i..end]` as `str::lines` yields it.
pub(crate) fn line_text_exec(v: &Vec<char>, i: usize, end: usize) -> (r: Vec<char>)
    requires
        i <= end <= v.len(),
    ensures
        r@ == line_text(v@.subrange(i as int, end as int)),
{
    let ghost raw = v@.subrange(i as int, end as int);
    let mut e = end;
    if e > i && v[e - 1] == '\n' {
        e = e - 1;
        if e > i && v[e - 1] == '\r' {
            e = e - 1;
        }
    }
    let r = slice_chars(v, i, e);
    assert(r@ =~= line_text(raw));
    r
}

/// Whether a line is an open clock.
fn is_open_clock_exec(l: &Vec<char>, tag: &Vec<char>, dashes: &Vec<char>) -> (r: bool)
    requires
        tag@ == "CLOCK:"@,
        dashes@ == "--"@,
    ensures
        r == is_open_clock(l@),
{
    let lo = lead_ws(l);
    let t = slice_chars(l, lo, l.len());
    assert(t@ =~= trim_start(l@));
    if !chars_start_with(&t, tag) {
        return false;
    }
    match find_sub_exec(l, dashes) {
        Some(_) => false,
        None => true,
    }
}

/// The first open `CLOCK:` line of `body`.
fn first_open_clock_exec(body: &Vec<char>) -> (r: Option<Vec<char>>)
    ensures
        match first_open_clock(body@) {
            Some(l) => r matches Some(x) && x@ == l,
            None => r is None,
        },
{
    let tag = chars_of("CLOCK:");
    let dashes = chars_of("--");
    let mut i: usize = 0;
    assert(body@.skip(0) =~= body@);
    while i < body.len()
        invariant
            i <= body.len(),
            tag@ == "CLOCK:"@,
            dashes@ == "--"@,
            first_open_clock(body@) == first_open_clock(body@.skip(i as int)),
        decreases body.len() - i,
    {
        let ghost rest = body@.skip(i as int);
        let end = match find_char_from(body, '\n', i) {
            Some(e) => e + 1,
            None => body.len(),
        };
        proof {
            assert forall|j: int| 0 <= j < end - i - 1 implies #[trigger] rest[j] != '\n' by {
                assert(rest[j] == body@[i + j]);
            }
            lemma_line_len_at(rest, end - i);
            assert(rest.skip(end - i) =~= body@.skip(end as int));
            assert(rest.take(end - i) =~= body@.subrange(i as int, end as int));
        }
        let l = line_text_exec(body, i, end);
        if is_open_clock_exec(&l, &tag, &dashes) {
            return Some(l);
        }
        i = end;
    }
    assert(body@.skip(i as int).len() == 0);
    None
}

/// The stamp inside the `[...]` of a clock line.
fn clock_start_exec(l: &Vec<char>) -> (r: Option<Vec<char>>)
    ensures
        match clock_start(l@) {
            Some(s) => r matches Some(x) && x@ == s,
            None => r is None,
        },
{
    let a = match find_first(l, '[') {
        Some(a) => a,
        None => return None,
    };
    let n = l.len();
    assert(is_first(l@, '[', a as int));
    let rest = slice_chars(l, a + 1, n);
    assert(rest@ =~= l@.skip(a + 1));
    match find_first(&rest, ']') {
        Some(b) => {
            let inside = slice_chars(&rest, 0, b);
            assert(inside@ =~= rest@.take(b as int));
            Some(inside)
        },
        None => None,
    }
}

/// Open a clock at `stamp` in a headline body — org's `org-clock-in`:
/// the entry goes at the top of the `:LOGBOOK:` drawer, which is
/// created when the body has none.
pub fn clock_in_body(body: &str, stamp: &str) -> (r: String)
    ensures
        r@ == clock_in_text(body@, stamp@),
{
    let b = chars_of(body);
    let mut line = chars_of("CLOCK: [");
    let st = chars_of(stamp);
    let mut k: usize = 0;
    let ghost head = line@;
    while k < st.len()
        invariant
            k <= st.len(),
            line@ == head + st@.take(k as int),
        decreases st.len() - k,
    {
        line.push(st[k]);
        k = k + 1;
        assert(line@ =~= head + st@.take(k as int));
    }
    line.push(']');
    assert(line@ =~= clock_line(stamp@)) by {
        assert(st@.take(k as int) =~= st@);
        reveal_strlit("]");
        assert("]"@ =~= seq![']']);
    }
    let drawer = chars_of(":LOGBOOK:");
    match find_sub_exec(&b, &drawer) {
        Some(_) => {
            let pat = chars_of(":LOGBOOK:\n");
            let mut rep = chars_of(":LOGBOOK:\n");
            let ghost rep0 = rep@;
            let mut j: usize = 0;
            while j < line.len()
                invariant
                    j <= line.len(),
                    rep@ == rep0 + line@.take(j as int),
                decreases line.len() - j,
            {
                rep.push(line[j]);
                j = j + 1;
                assert(rep@ =~= rep0 + line@.take(j as int));
            }
            rep.push('\n');
            assert(rep@ =~= ":LOGBOOK:\n"@ + clock_line(stamp@) + "\n"@) by {
                assert(line@.take(j as int) =~= line@);
                reveal_strlit("\n");
            }
            let out = replace_first_exec(&b, &pat, &rep);
            string_of(&out)
        },
        None => {
            let mut r = String::new();
            push_chars(&mut r, &chars_of(":LOGBOOK:\n"));
            push_chars(&mut r, &line);
            push_chars(&mut r, &chars_of("\n:END:\n"));
            push_chars(&mut r, &b);
            r
        },
    }
}

/// Close the clock running in a headline body at `stamp` — org's
/// `org-clock-out` — appending `--[stamp] =>  H:MM` to the open entry.
pub fn clock_out_body(body: &str, stamp: &str) -> (r: Result<String, VaultError>)
    requires
        clock_out_fits(body@, stamp@),
    ensures
        match clock_out_result(body@, stamp@) {
            Ok(s) => r matches Ok(x) && x@ == s,
            Err(m) => r matches Err(VaultError::Command(msg)) && msg@ == m,
        },
{
    let b = chars_of(body);
    let open = match first_open_clock_exec(&b) {
        Some(l) => l,
        None => return Err(VaultError::Command("no clock is running here".to_owned())),
    };
    let started = match clock_start_exec(&open) {
        Some(s) => s,
        None => return Err(VaultError::Command("that clock entry has no start".to_owned())),
    };
    let started_s = string_of(&started);
    let minutes = match clock_span_minutes(started_s.as_str(), stamp) {
        Some(m) => m,
        None => return Err(VaultError::Command("that clock entry has no readable start".to_owned())),
    };
    assert(minutes <= i64::MAX);
    let hi = trail_ws(&open);
    let mut closed = slice_chars(&open, 0, hi);
    assert(closed@ =~= trim_end(open@));
    let mut s = string_of(&closed);
    push_chars(&mut s, &chars_of("--["));
    push_chars(&mut s, &chars_of(stamp));
    push_chars(&mut s, &chars_of("] =>  "));
    push_chars(&mut s, &decimal_chars(minutes / 60));
    push_chars(&mut s, &chars_of(":"));
    push_chars(&mut s, &fmt_padded_i64((minutes % 60) as i64, 2));
    let closed_v = chars_of(s.as_str());
    let out = replace_first_exec(&b, &open, &closed_v);
    Ok(string_of(&out))
}

/// Drop the open clock entry of a headline body without recording any
/// time — org's `org-clock-cancel`. A logbook left empty goes too.
pub fn clock_cancel_body(body: &str) -> (r: Result<String, VaultError>)
    ensures
        match clock_cancel_result(body@) {
            Some(s) => r matches Ok(x) && x@ == s,
            None => r matches Err(VaultError::Command(msg)) && msg@ == "no clock is running here"@,
        },
{
    let b = chars_of(body);
    let mut open = match first_open_clock_exec(&b) {
        Some(l) => l,
        None => return Err(VaultError::Command("no clock is running here".to_owned())),
    };
    open.push('\n');
    let empty: Vec<char> = Vec::new();
    let u = replace_first_exec(&b, &open, &empty);
    let drawer = chars_of(":LOGBOOK:\n:END:\n");
    match find_sub_exec(&u, &drawer) {
        Some(_) => {
            let out = replace_first_exec(&u, &drawer, &empty);
            Ok(string_of(&out))
        },
        None => Ok(string_of(&u)),
    }
}

/// The start stamp of the clock running in a body: `None` when no clock
/// is open there, `Some(None)` when the open entry has no readable
/// `[...]` (a vault-wide lookup then reports no running clock at all).
pub fn body_running_clock(body: &str) -> (r: Option<Option<String>>)
    ensures
        match first_open_clock(body@) {
            None => r is None,
            Some(l) => match clock_start(l) {
                Some(s) => r matches Some(Some(x)) && x@ == s,
                None => r matches Some(None),
            },
        },
{
    let b = chars_of(body);
    match first_open_clock_exec(&b) {
        None => None,
        Some(l) => match clock_start_exec(&l) {
            Some(s) => Some(Some(string_of(&s))),
            None => Some(None),
        },
    }
}

/// The stamp `now` (`YYYY-MM-DD HH:MM`) is written as, if it reads as
/// one.
pub open spec fn stamp_of(now: Seq<char>) -> Option<Seq<char>> {
    match stamp_fields(now) {
        Some((y, m, d, t)) => Some(stamp_text(y, m, d, t)),
        None => None,
    }
}

/// Open a clock at `now` — org's `org-clock-in` on one headline's body.
/// A `now` that is not `YYYY-MM-DD HH:MM` is refused.
pub fn clock_in_at(body: &str, now: &str) -> (r: Result<String, VaultError>)
    requires
        stamp_fits(now@),
    ensures
        match stamp_of(now@) {
            Some(st) => r matches Ok(x) && x@ == clock_in_text(body@, st),
            None => r matches Err(VaultError::Command(m)) && m@ == bad_stamp_message(now@),
        },
{
    let stamp = org_clock_stamp(now)?;
    Ok(clock_in_body(body, stamp.as_str()))
}

/// Close the clock running in a body at `now` — org's `org-clock-out`.
/// The stamp is checked first, then that a clock is running.
pub fn clock_out_at(body: &str, now: &str) -> (r: Result<String, VaultError>)
    requires
        stamp_fits(now@),
        match stamp_of(now@) {
            Some(st) => clock_out_fits(body@, st),
            None => true,
        },
    ensures
        match stamp_of(now@) {
            Some(st) => match clock_out_result(body@, st) {
                Ok(s) => r matches Ok(x) && x@ == s,
                Err(m) => r matches Err(VaultError::Command(msg)) && msg@ == m,
            },
            None => r matches Err(VaultError::Command(m)) && m@ == bad_stamp_message(now@),
        },
{
    let stamp = org_clock_stamp(now)?;
    clock_out_body(body, stamp.as_str())
}

/// The running clock of a vault whose headlines, in order, are
/// `(id, body)`: the first headline with an open clock, with that
/// clock's start. An open clock whose start cannot be read ends the
/// search with nothing.
pub open spec fn running_clock_in(h: Seq<(Seq<char>, Seq<char>)>) -> Option<(Seq<char>, Seq<char>)>
    decreases h.len(),
{
    if h.len() == 0 {
        None
    } else {
        match first_open_clock(h[0].1) {
            None => running_clock_in(h.drop_first()),
            Some(l) => match clock_start(l) {
                Some(s) => Some((h[0].0, s)),
                None => None,
            },
        }
    }
}

/// The `(block id, start stamp)` of the clock running among the
/// headlines `(id, body)`, in order — what a status bar shows.
pub fn running_clock(headlines: &Vec<(String, String)>) -> (r: Option<(String, String)>)
    ensures
        match running_clock_in(headlines@.map_values(|e: (String, String)| (e.0@, e.1@))) {
            Some((id, s)) => r matches Some((a, b)) && a@ == id && b@ == s,
            None => r is None,
        },
{
    let ghost hv = headlines@.map_values(|e: (String, String)| (e.0@, e.1@));
    let mut i: usize = 0;
    assert(hv.skip(0) =~= hv);
    while i < headlines.len()
        invariant
            i <= headlines.len(),
            hv == headlines@.map_values(|e: (String, String)| (e.0@, e.1@)),
            running_clock_in(hv) == running_clock_in(hv.skip(i as int)),
        decreases headlines.len() - i,
    {
        assert(hv.skip(i as int).drop_first() =~= hv.skip(i + 1));
        assert(hv.skip(i as int)[0] == hv[i as int]);
        match body_running_clock(headlines[i].1.as_str()) {
            None => {},
            Some(Some(s)) => return Some((headlines[i].0.clone(), s)),
            Some(None) => return None,
        }
        i = i + 1;
    }
    None
}

/// The `(id, body)` headlines as values.
pub open spec fn bodies_view(v: Seq<(String, String)>) -> Seq<(Seq<char>, Seq<char>)> {
    v.map_values(|e: (String, String)| (e.0@, e.1@))
}

/// Where the first headline called `id` is, from position `i` on.
pub open spec fn id_index_from(h: Seq<(Seq<char>, Seq<char>)>, id: Seq<char>, i: int) -> Option<int>
    decreases h.len() - i,
{
    if i < 0 || i >= h.len() {
        None
    } else if h[i].0 == id {
        Some(i)
    } else {
        id_index_from(h, id, i + 1)
    }
}

/// Where the first headline called `id` is.
pub open spec fn id_index(h: Seq<(Seq<char>, Seq<char>)>, id: Seq<char>) -> Option<int> {
    id_index_from(h, id, 0)
}

proof fn lemma_id_index_from(h: Seq<(Seq<char>, Seq<char>)>, id: Seq<char>, i: int, k: int)
    requires
        0 <= i <= k < h.len(),
        h[k].0 == id,
    ensures
        id_index_from(h, id, i) matches Some(j) && i <= j <= k && h[j].0 == id,
    decreases k - i,
{
    if h[i].0 != id {
        lemma_id_index_from(h, id, i + 1, k);
    }
}

proof fn lemma_id_index_range(h: Seq<(Seq<char>, Seq<char>)>, id: Seq<char>, i: int)
    ensures
        id_index_from(h, id, i) matches Some(j) ==> 0 <= i <= j < h.len() && h[j].0 == id,
    decreases h.len() - i,
{
    if 0 <= i < h.len() && h[i].0 != id {
        lemma_id_index_range(h, id, i + 1);
    }
}

/// The headline a running clock was found on is there to be looked up.
proof fn lemma_running_clock_is_found(h: Seq<(Seq<char>, Seq<char>)>)
    ensures
        running_clock_in(h) matches Some((rid, _)) ==> (id_index(h, rid) matches Some(k) && 0 <= k < h.len()
            && h[k].0 == rid),
    decreases h.len(),
{
    if h.len() > 0 {
        match first_open_clock(h[0].1) {
            None => {
                lemma_running_clock_is_found(h.drop_first());
                if let Some((rid, _)) = running_clock_in(h) {
                    let k = id_index(h.drop_first(), rid)->0;
                    assert(h[k + 1] == h.drop_first()[k]);
                    lemma_id_index_from(h, rid, 0, k + 1);
                }
            },
            Some(_) => {
                if let Some((rid, _)) = running_clock_in(h) {
                    lemma_id_index_from(h, rid, 0, 0);
                }
            },
        }
    }
}

/// The headlines with a clock opened at `st` on the first one called
/// `id`, or `None` when there is none.
pub open spec fn clocked_in(h: Seq<(Seq<char>, Seq<char>)>, id: Seq<char>, st: Seq<char>) -> Option<
    Seq<(Seq<char>, Seq<char>)>,
> {
    match id_index(h, id) {
        Some(j) => Some(h.update(j, (h[j].0, clock_in_text(h[j].1, st)))),
        None => None,
    }
}

/// The running clock's minutes up to `now` can be computed.
pub open spec fn running_close_fits(h: Seq<(Seq<char>, Seq<char>)>, now: Seq<char>) -> bool {
    match (running_clock_in(h), stamp_of(now)) {
        (Some((rid, _)), Some(st)) => match id_index(h, rid) {
            Some(k) => clock_out_fits(h[k].1, st),
            None => true,
        },
        _ => true,
    }
}

/// The index of the first headline called `id`.
fn find_id(headlines: &Vec<(String, String)>, id: &str) -> (r: Option<usize>)
    ensures
        r matches Some(k) ==> k < headlines.len() && id_index(bodies_view(headlines@), id@) == Some(k as int),
        r is None ==> id_index(bodies_view(headlines@), id@) is None,
{
    proof {
        lemma_id_index_range(bodies_view(headlines@), id@, 0);
    }
    let ghost hv = bodies_view(headlines@);
    let want = chars_of(id);
    let mut i: usize = 0;
    while i < headlines.len()
        invariant
            i <= headlines.len(),
            hv == bodies_view(headlines@),
            want@ == id@,
            id_index(hv, id@) == id_index_from(hv, id@, i as int),
        decreases headlines.len() - i,
    {
        if crate::text::chars_eq(&chars_of(headlines[i].0.as_str()), &want) {
            return Some(i);
        }
        i = i + 1;
    }
    None
}

/// What closing the running clock at `now` makes of the headlines: the
/// headlines unchanged when no clock runs, else the first headline
/// carrying the running clock's id with that clock closed; or the
/// message it is refused with.
pub open spec fn after_close(h: Seq<(Seq<char>, Seq<char>)>, now: Seq<char>) -> Result<Seq<(Seq<char>, Seq<char>)>, Seq<char>> {
    match running_clock_in(h) {
        None => Ok(h),
        Some((rid, _)) => {
            let k = id_index(h, rid)->0;
            match stamp_of(now) {
                None => Err(bad_stamp_message(now)),
                Some(st) => match clock_out_result(h[k].1, st) {
                    Err(m) => Err(m),
                    Ok(b) => Ok(h.update(k, (h[k].0, b))),
                },
            }
        },
    }
}

/// Close the clock running among the headlines at `now`, if one runs.
fn close_running(headlines: &mut Vec<(String, String)>, now: &str) -> (r: Result<(), VaultError>)
    requires
        stamp_fits(now@),
        running_close_fits(bodies_view(old(headlines)@), now@),
    ensures
        match after_close(bodies_view(old(headlines)@), now@) {
            Ok(h1) => r is Ok && bodies_view(final(headlines)@) == h1,
            Err(m) => bodies_view(final(headlines)@) == bodies_view(old(headlines)@) && (r matches Err(
                VaultError::Command(x),
            ) && x@ == m),
        },
{
    let ghost h = bodies_view(headlines@);
    proof {
        lemma_running_clock_is_found(h);
    }
    match running_clock(headlines) {
        Some((rid, _)) => {
            let k = match find_id(headlines, rid.as_str()) {
                Some(k) => k,
                None => return Ok(()),
            };
            let closed = clock_out_at(headlines[k].1.as_str(), now)?;
            let key = headlines[k].0.clone();
            headlines.set(k, (key, closed));
            assert(bodies_view(headlines@) =~= h.update(k as int, (h[k as int].0, bodies_view(headlines@)[k as int].1)));
            Ok(())
        },
        None => Ok(()),
    }
}

/// Start a clock on the headline `id` at `now` (`YYYY-MM-DD HH:MM`) among
/// the vault's `(id, body)` headlines, in order — org's `org-clock-in`.
/// Any clock running elsewhere is closed at `now` first: org keeps one
/// clock running. A clock that cannot be closed, a `now` that is not a
/// stamp, or an `id` that is not there is refused; a clock closed before
/// the refusal stays closed.
pub fn clock_in_among(headlines: &mut Vec<(String, String)>, id: &str, now: &str) -> (r: Result<(), VaultError>)
    requires
        stamp_fits(now@),
        running_close_fits(bodies_view(old(headlines)@), now@),
    ensures
        match after_close(bodies_view(old(headlines)@), now@) {
            Err(m) => bodies_view(final(headlines)@) == bodies_view(old(headlines)@) && (r matches Err(
                VaultError::Command(x),
            ) && x@ == m),
            Ok(h1) => match id_index(h1, id@) {
                None => bodies_view(final(headlines)@) == h1 && (r matches Err(VaultError::UnknownId(x)) && x@ == id@),
                Some(_) => match stamp_of(now@) {
                    None => bodies_view(final(headlines)@) == h1 && (r matches Err(VaultError::Command(m))
                        && m@ == bad_stamp_message(now@)),
                    Some(st) => bodies_view(final(headlines)@) == clocked_in(h1, id@, st)->0 && r is Ok,
                },
            },
        },
{
    close_running(headlines, now)?;
    let ghost h1 = bodies_view(headlines@);
    let j = match find_id(headlines, id) {
        Some(j) => j,
        None => return Err(VaultError::UnknownId(id.to_owned())),
    };
    let opened = clock_in_at(headlines[j].1.as_str(), now)?;
    let key = headlines[j].0.clone();
    headlines.set(j, (key, opened));
    assert(bodies_view(headlines@) =~= h1.update(j as int, (h1[j as int].0, bodies_view(headlines@)[j as int].1)));
    Ok(())
}

/// A space or a tab: what org indents a logbook with.
pub open spec fn is_indent(c: char) -> bool {
    c == ' ' || c == '\t'
}

/// An open clock is seen whatever its indentation: in a body that opens
/// with `ws` + `CLOCK: [stamp]` on a line (`ws` spaces and tabs, as org
/// writes an indented logbook), that line is the first open clock, and
/// its start is `stamp`, whatever follows.
pub proof fn law_indented_clock_is_open(ws: Seq<char>, stamp: Seq<char>, rest: Seq<char>)
    requires
        forall|i: int| 0 <= i < ws.len() ==> is_indent(#[trigger] ws[i]),
        !stamp.contains('\n'),
        !stamp.contains(']'),
        !contains_sub(stamp, "--"@),
    ensures
        first_open_clock(ws + "CLOCK: ["@ + stamp + "]\n"@ + rest) == Some(ws + "CLOCK: ["@ + stamp + "]"@),
        clock_start(ws + "CLOCK: ["@ + stamp + "]"@) == Some(stamp),
{
    reveal_strlit("CLOCK: [");
    reveal_strlit("]\n");
    reveal_strlit("]");
    reveal_strlit("CLOCK:");
    reveal_strlit("--");
    let w = ws.len() as int;
    let n = stamp.len() as int;
    let line = ws + "CLOCK: ["@ + stamp + "]"@;
    let body = ws + "CLOCK: ["@ + stamp + "]\n"@ + rest;
    assert(line.len() == w + n + 9);
    assert forall|j: int| 0 <= j < line.len() implies #[trigger] line[j] == (if j < w {
        ws[j]
    } else if j < w + 8 {
        "CLOCK: ["@[j - w]
    } else if j < w + 8 + n {
        stamp[j - w - 8]
    } else {
        ']'
    }) by {}
    assert(body =~= line + seq!['\n'] + rest);
    // The first line is the clock line.
    assert forall|j: int| 0 <= j < line.len() implies #[trigger] body[j] != '\n' by {
        assert(body[j] == line[j]);
        if w + 8 <= j < w + 8 + n {
            assert(stamp[j - w - 8] != '\n') by {
                if stamp[j - w - 8] == '\n' {
                    assert(stamp.contains('\n'));
                }
            }
        }
    }
    crate::outline::lemma_line_len_at(body, w + n + 10);
    assert(body.take(w + n + 10) =~= line.push('\n'));
    assert(line.push('\n').drop_last() =~= line);
    assert(line_text(body.take(w + n + 10)) == line);
    // It opens with `CLOCK:` after its indentation.
    assert(crate::text::is_lead_end(line, w));
    lemma_lead_end_unique(line, w);
    assert(trim_start(line).take(6) =~= "CLOCK:"@);
    // It holds no `--`.
    assert(!contains_sub(line, "--"@)) by {
        if contains_sub(line, "--"@) {
            let i = choose|i: int| occurs_at(line, "--"@, i);
            assert(line.subrange(i, i + 2) == "--"@);
            assert("--"@ =~= seq!['-', '-']);
            assert(line.subrange(i, i + 2)[0] == line[i] && line.subrange(i, i + 2)[1] == line[i + 1]);
            assert(line[i] == '-' && line[i + 1] == '-');
            assert(w + 8 <= i && i + 1 < w + 8 + n);
            assert(stamp.subrange(i - w - 8, i - w - 6) =~= "--"@);
            assert(occurs_at(stamp, "--"@, i - w - 8));
        }
    }
    assert(is_open_clock(line));
    // Its start is the stamp.
    assert(is_first(line, '[', w + 7));
    crate::text::lemma_first_unique(line, '[', w + 7);
    let after = line.skip(w + 8);
    assert(after =~= stamp + "]"@);
    assert forall|j: int| 0 <= j < n implies #[trigger] after[j] != ']' by {
        if after[j] == ']' {
            assert(stamp[j] == ']');
            assert(stamp.contains(']'));
        }
    }
    assert(is_first(after, ']', n));
    crate::text::lemma_first_unique(after, ']', n);
    assert(after.take(n) =~= stamp);
}

/// A line that opens with a non-blank character is its own
/// `trim_start`.
proof fn lemma_trim_start_unchanged(x: Seq<char>)
    requires
        x.len() > 0,
        !is_ws(x[0]),
    ensures
        trim_start(x) == x,
{
    lemma_lead_end_unique(x, 0);
    assert(x.skip(0) =~= x);
}

/// A clock opened in a body without a logbook is the body's running
/// clock, and cancelling it gives the body back unchanged: the drawer
/// made for it goes too.
pub proof fn law_clock_in_then_cancel_restores(body: Seq<char>, stamp: Seq<char>)
    requires
        !contains_sub(body, ":LOGBOOK:"@),
        !stamp.contains('\n'),
        !contains_sub(stamp, "--"@),
    ensures
        first_open_clock(clock_in_text(body, stamp)) == Some(clock_line(stamp)),
        clock_cancel_result(clock_in_text(body, stamp)) == Some(body),
{
    reveal_strlit(":LOGBOOK:\n");
    reveal_strlit("CLOCK: [");
    reveal_strlit("]");
    reveal_strlit("\n:END:\n");
    reveal_strlit("CLOCK:");
    reveal_strlit("--");
    reveal_strlit(":LOGBOOK:\n:END:\n");
    let a = ":LOGBOOK:\n"@;
    let l = clock_line(stamp);
    let c = "\n:END:\n"@;
    let t = clock_in_text(body, stamp);
    assert(t == a + l + c + body);
    let n: int = l.len() as int;
    assert(n == stamp.len() + 9);
    // The first line is the drawer's opening, which is no clock.
    assert forall|j: int| 0 <= j < 9 implies #[trigger] t[j] != '\n' by {
        assert(t[j] == a[j]);
    }
    assert(t[9] == '\n');
    lemma_line_len_at(t, 10);
    let first = line_text(t.take(10));
    assert(first =~= a.drop_last());
    lemma_trim_start_unchanged(first);
    assert(first[0] == ':');
    assert(!starts_with(first, "CLOCK:"@)) by {
        assert(first.take(6)[0] != "CLOCK:"@[0]);
    }
    // The second line is the clock.
    let r = t.skip(10);
    assert(r =~= l + c + body);
    assert forall|j: int| 0 <= j < n implies #[trigger] r[j] != '\n' by {
        assert(r[j] == l[j]);
        if 8 <= j < n - 1 {
            assert(l[j] == stamp[j - 8]);
        }
    }
    assert(r[n] == '\n');
    lemma_line_len_at(r, n + 1);
    assert(r.take(n + 1) =~= l.push('\n'));
    assert(line_text(r.take(n + 1)) =~= l);
    lemma_trim_start_unchanged(l);
    assert(l.take(6) =~= "CLOCK:"@);
    assert(!contains_sub(l, "--"@)) by {
        if contains_sub(l, "--"@) {
            let i = choose|i: int| #[trigger] occurs_at(l, "--"@, i);
            assert(l[i] == '-' && l[i + 1] == '-') by {
                assert(l.subrange(i, i + 2)[0] == l[i]);
                assert(l.subrange(i, i + 2)[1] == l[i + 1]);
            }
            assert(i >= 8);
            assert(i + 1 < n - 1);
            assert(stamp.subrange(i - 8, i - 6) =~= "--"@) by {
                assert(stamp[i - 8] == l[i]);
                assert(stamp[i - 7] == l[i + 1]);
            }
            assert(occurs_at(stamp, "--"@, i - 8));
        }
    }
    assert(is_open_clock(l));
    assert(r.skip(n + 1).len() < r.len());
    assert(first_open_clock(r) == Some(l));
    assert(first_open_clock(t) == first_open_clock(r));
    // Cancelling removes that line first: nothing earlier spells it.
    let lp = l.push('\n');
    assert(t.subrange(10, 10 + n + 1) =~= lp);
    assert forall|j: int| 0 <= j < 10 implies !#[trigger] occurs_at(t, lp, j) by {
        if occurs_at(t, lp, j) {
            assert(t.subrange(j, j + n + 1)[0] == t[j]);
            assert(t[j] == a[j]);
        }
    }
    assert(is_first_occurrence(t, lp, 10));
    lemma_first_occurrence_unique(t, lp, 10);
    let u = replace_first(t, lp, Seq::empty());
    let d = ":LOGBOOK:\n:END:\n"@;
    assert(u =~= d + body);
    assert(occurs_at(u, d, 0)) by {
        assert(u.subrange(0, 16) =~= d);
    }
    assert(is_first_occurrence(u, d, 0));
    lemma_first_occurrence_unique(u, d, 0);
    assert(replace_first(u, d, Seq::empty()) =~= body);
}

/// Reading a closed line `l` + `\n` in front of `y`: the first open
/// clock is that line, if it is one, else the first open clock of `y`.
proof fn lemma_first_open_clock_cons(l: Seq<char>, y: Seq<char>)
    requires
        !l.contains('\n'),
    ensures
        first_open_clock(l.push('\n') + y) == if is_open_clock(line_text(l.push('\n'))) {
            Some(line_text(l.push('\n')))
        } else {
            first_open_clock(y)
        },
{
    let x = l.push('\n');
    assert(is_line(x)) by {
        assert forall|j: int| 0 <= j < x.len() - 1 implies #[trigger] x[j] != '\n' by {
            assert(x[j] == l[j]);
            if x[j] == '\n' {
                assert(l.contains('\n'));
            }
        }
    }
    lemma_line_len_concat(x, y);
}

/// A line whose first character is neither blank nor `C` is no clock.
proof fn lemma_not_a_clock(l: Seq<char>)
    requires
        l.len() > 0,
        !is_ws(l[0]),
        l[0] != 'C',
    ensures
        !is_open_clock(l),
{
    lemma_trim_start_unchanged(l);
    reveal_strlit("CLOCK:");
    if l.len() >= 6 {
        assert(l.take(6)[0] != "CLOCK:"@[0]);
    }
}

/// The digits of a number are digits.
proof fn lemma_decimal_digits(n: nat)
    ensures
        forall|i: int| 0 <= i < decimal(n).len() ==> '0' <= #[trigger] decimal(n)[i] <= '9',
        decimal(n).len() > 0,
    decreases n,
{
    if n >= 10 {
        lemma_decimal_digits(n / 10);
        assert forall|i: int| 0 <= i < decimal(n).len() implies '0' <= #[trigger] decimal(n)[i] <= '9' by {
            if i < decimal(n / 10).len() {
                assert(decimal(n)[i] == decimal(n / 10)[i]);
            }
        }
    }
}

/// A closed clock line is one line, and no open clock.
proof fn lemma_closed_line(stamp: Seq<char>, end: Seq<char>, m: int)
    requires
        !stamp.contains('\n'),
        !end.contains('\n'),
        m >= 0,
    ensures
        !closed_clock_line(clock_line(stamp), end, m).contains('\n'),
        !is_open_clock(line_text(closed_clock_line(clock_line(stamp), end, m).push('\n'))),
{
    reveal_strlit("CLOCK: [");
    reveal_strlit("]");
    reveal_strlit("--[");
    reveal_strlit("] =>  ");
    reveal_strlit(":");
    reveal_strlit("--");
    let l = clock_line(stamp);
    let n: int = l.len() as int;
    assert(n == stamp.len() + 9);
    assert(trim_end(l) == l) by {
        assert(is_trail_start(l, n));
        lemma_trail_start_unique(l, n);
        assert(l.take(n) =~= l);
    }
    let h = decimal((m / 60) as nat);
    let mm = fmt_padded(m % 60, 2);
    lemma_decimal_digits((m / 60) as nat);
    lemma_decimal_digits((m % 60) as nat);
    let closed = closed_clock_line(l, end, m);
    assert(closed == l + "--["@ + end + "] =>  "@ + h + ":"@ + mm);
    assert(mm.len() > 0 && forall|i: int| 0 <= i < mm.len() ==> '0' <= #[trigger] mm[i] <= '9') by {
        let d = decimal((m % 60) as nat);
        if d.len() < 2 {
            assert forall|i: int| 0 <= i < mm.len() implies '0' <= #[trigger] mm[i] <= '9' by {
                if i >= 2 - d.len() {
                    assert(mm[i] == d[i - (2 - d.len())]);
                }
            }
        }
    }
    assert(!closed.contains('\n')) by {
        if closed.contains('\n') {
            let j = choose|j: int| 0 <= j < closed.len() && closed[j] == '\n';
            let p1 = n;
            let p2 = p1 + 3;
            let p3 = p2 + end.len();
            let p4 = p3 + 6;
            let p5 = p4 + h.len();
            let p6 = p5 + 1;
            if j < p1 {
                assert(closed[j] == l[j]);
                if 8 <= j < n - 1 {
                    assert(l[j] == stamp[j - 8]);
                }
            } else if j < p2 {
            } else if j < p3 {
                assert(closed[j] == end[j - p2]);
            } else if j < p4 {
            } else if j < p5 {
                assert(closed[j] == h[j - p4]);
            } else if j < p6 {
            } else {
                assert(closed[j] == mm[j - p6]);
            }
        }
    }
    assert(closed.last() == mm.last());
    assert(occurs_at(closed, "--"@, n)) by {
        assert(closed.subrange(n, n + 2) =~= "--"@);
    }
    assert(closed.push('\n').drop_last() =~= closed);
    assert(line_text(closed.push('\n')) == closed);
}

/// In a body clocked into afresh, the clock line is the first place its
/// text occurs: replacing it rewrites that line and nothing else.
proof fn lemma_fresh_clock_replaced(body: Seq<char>, stamp: Seq<char>, x: Seq<char>)
    requires
        !contains_sub(body, ":LOGBOOK:"@),
    ensures
        replace_first(clock_in_text(body, stamp), clock_line(stamp), x) == ":LOGBOOK:\n"@ + x + "\n:END:\n"@ + body,
{
    reveal_strlit(":LOGBOOK:\n");
    reveal_strlit("CLOCK: [");
    let a = ":LOGBOOK:\n"@;
    let l = clock_line(stamp);
    let c = "\n:END:\n"@;
    let t = clock_in_text(body, stamp);
    assert(t == a + l + c + body);
    let n: int = l.len() as int;
    assert(t.subrange(10, 10 + n) =~= l);
    assert forall|j: int| 0 <= j < 10 implies !#[trigger] occurs_at(t, l, j) by {
        if occurs_at(t, l, j) {
            assert(t.subrange(j, j + n)[0] == t[j]);
            assert(t[j] == a[j]);
        }
    }
    assert(is_first_occurrence(t, l, 10));
    lemma_first_occurrence_unique(t, l, 10);
    assert(replace_first(t, l, x) =~= a + x + c + body);
}

/// Clocking out closes the clock that clocking in opened: what runs
/// afterwards is what ran in the body before either.
pub proof fn law_clock_out_closes_it(body: Seq<char>, stamp: Seq<char>, end: Seq<char>)
    requires
        !contains_sub(body, ":LOGBOOK:"@),
        !stamp.contains('\n'),
        !contains_sub(stamp, "--"@),
        !end.contains('\n'),
        clock_out_result(clock_in_text(body, stamp), end) is Ok,
    ensures
        first_open_clock(clock_out_result(clock_in_text(body, stamp), end)->Ok_0) == first_open_clock(body),
{
    law_clock_in_then_cancel_restores(body, stamp);
    let l = clock_line(stamp);
    let started = clock_start(l)->Some_0;
    let m = span_between(started, end)->Some_0;
    let closed = closed_clock_line(l, end, m);
    lemma_closed_line(stamp, end, m);
    lemma_fresh_clock_replaced(body, stamp, closed);
    let out = clock_out_result(clock_in_text(body, stamp), end)->Ok_0;
    assert(out == ":LOGBOOK:\n"@ + closed + "\n:END:\n"@ + body);
    reveal_strlit(":LOGBOOK:\n");
    reveal_strlit("\n:END:\n");
    reveal_strlit(":LOGBOOK:");
    reveal_strlit(":END:");
    let first = ":LOGBOOK:"@;
    let end_line = ":END:"@;
    assert(!first.contains('\n')) by {
        if first.contains('\n') {
            let j = choose|j: int| 0 <= j < first.len() && first[j] == '\n';
        }
    }
    assert(!end_line.contains('\n')) by {
        if end_line.contains('\n') {
            let j = choose|j: int| 0 <= j < end_line.len() && end_line[j] == '\n';
        }
    }
    assert(line_text(first.push('\n')) == first) by {
        assert(first.push('\n').drop_last() =~= first);
    }
    assert(line_text(end_line.push('\n')) == end_line) by {
        assert(end_line.push('\n').drop_last() =~= end_line);
    }
    lemma_not_a_clock(first);
    lemma_not_a_clock(end_line);
    let rest3 = end_line.push('\n') + body;
    let rest2 = closed.push('\n') + rest3;
    assert(out =~= first.push('\n') + rest2);
    lemma_first_open_clock_cons(first, rest2);
    lemma_first_open_clock_cons(closed, rest3);
    lemma_first_open_clock_cons(end_line, body);
}

} // verus!
