//! The vault's cross-file indices: which file holds each block id, and
//! the inverted backlink index (link target → the `(file, source id)`
//! pairs whose headlines link to it), both rebuilt per file whenever a
//! file's document changes, and the change token that moves with every
//! such rebuild.

use crate::entry::strip_id_scheme;
use crate::keywords::views;
use crate::ring::next_revision;
use crate::text::{chars_eq, chars_of, chars_start_with, slice_chars, string_of};
use vstd::prelude::*;

verus! {

// ---------------------------------------------------------------
// Association lists keyed by strings
// ---------------------------------------------------------------

/// The value stored under `k`: the last entry with that key.
pub open spec fn lookup<V>(v: Seq<(String, V)>, k: Seq<char>) -> Option<V>
    decreases v.len(),
{
    if v.len() == 0 {
        None
    } else if v.last().0@ == k {
        Some(v.last().1)
    } else {
        lookup(v.drop_last(), k)
    }
}

/// No key occurs twice.
pub open spec fn keys_distinct<V>(v: Seq<(String, V)>) -> bool {
    forall|i: int, j: int| 0 <= i < j < v.len() ==> #[trigger] v[i].0@ != #[trigger] v[j].0@
}

pub proof fn lemma_lookup_none<V>(v: Seq<(String, V)>, k: Seq<char>)
    ensures
        lookup(v, k) is None <==> forall|j: int| 0 <= j < v.len() ==> #[trigger] v[j].0@ != k,
    decreases v.len(),
{
    if v.len() > 0 {
        lemma_lookup_none(v.drop_last(), k);
        assert forall|j: int| 0 <= j < v.len() - 1 implies v.drop_last()[j] == #[trigger] v[j] by {}
        if lookup(v, k) is None {
            assert forall|j: int| 0 <= j < v.len() implies #[trigger] v[j].0@ != k by {
                if j < v.len() - 1 {
                    assert(v.drop_last()[j] == v[j]);
                }
            }
        }
    }
}

pub proof fn lemma_lookup_push<V>(v: Seq<(String, V)>, e: (String, V), k: Seq<char>)
    ensures
        lookup(v.push(e), k) == (if e.0@ == k { Some(e.1) } else { lookup(v, k) }),
{
    assert(v.push(e).drop_last() =~= v);
}

pub proof fn lemma_lookup_take<V>(v: Seq<(String, V)>, i: int, k: Seq<char>)
    requires
        0 <= i < v.len(),
    ensures
        lookup(v.take(i + 1), k) == (if v[i].0@ == k { Some(v[i].1) } else { lookup(v.take(i), k) }),
{
    assert(v.take(i + 1) =~= v.take(i).push(v[i]));
    lemma_lookup_push(v.take(i), v[i], k);
}

/// In a list without repeated keys, the entry at `i` is the one found
/// for its key.
pub proof fn lemma_lookup_at<V>(v: Seq<(String, V)>, i: int)
    requires
        keys_distinct(v),
        0 <= i < v.len(),
    ensures
        lookup(v, v[i].0@) == Some(v[i].1),
    decreases v.len(),
{
    if i < v.len() - 1 {
        assert(v.last() == v[v.len() - 1]);
        assert(v[i].0@ != v[v.len() - 1].0@);
        assert(keys_distinct(v.drop_last()));
        assert(v.drop_last()[i] == v[i]);
        lemma_lookup_at(v.drop_last(), i);
    }
}

/// Whether `s` spells the characters `k`.
fn str_is(s: &String, k: &Vec<char>) -> (r: bool)
    ensures
        r == (s@ == k@),
{
    chars_eq(&chars_of(s.as_str()), k)
}

// ---------------------------------------------------------------
// The index
// ---------------------------------------------------------------

/// A backlink as values.
pub open spec fn linker_view(e: (String, String)) -> (Seq<char>, Seq<char>) {
    (e.0@, e.1@)
}

/// A list of backlinks as values.
pub open spec fn linkers_view(v: Seq<(String, String)>) -> Seq<(Seq<char>, Seq<char>)> {
    v.map_values(|e: (String, String)| linker_view(e))
}

/// The block-id and backlink indices of a vault, with its change token.
pub struct VaultIndex {
    by_id: Vec<(String, String)>,
    backlinks: Vec<(String, Vec<(String, String)>)>,
    revision: u64,
}

/// Whether `link` is indexed under `k`: as written, or, for an `id:`
/// link, as the bare id.
pub open spec fn link_keyed(link: Seq<char>, k: Seq<char>) -> bool {
    link == k || strip_id_scheme(link) == Some(k)
}

/// The backlinks one headline `id` of file `p` contributes under `k`,
/// one per link of it that is keyed there.
pub open spec fn link_hits(p: Seq<char>, id: Seq<char>, links: Seq<Seq<char>>, k: Seq<char>) -> Seq<(Seq<char>, Seq<char>)>
    decreases links.len(),
{
    if links.len() == 0 {
        Seq::empty()
    } else {
        link_hits(p, id, links.drop_last(), k) + if link_keyed(links.last(), k) {
            seq![(p, id)]
        } else {
            Seq::empty()
        }
    }
}

/// What one file's headlines contribute under `k`, in document order.
pub open spec fn harvest_hits(p: Seq<char>, h: Seq<(Seq<char>, Seq<Seq<char>>)>, k: Seq<char>) -> Seq<(Seq<char>, Seq<char>)>
    decreases h.len(),
{
    if h.len() == 0 {
        Seq::empty()
    } else {
        harvest_hits(p, h.drop_last(), k) + link_hits(p, h.last().0, h.last().1, k)
    }
}

/// The ids of a file's headlines.
pub open spec fn harvest_has_id(h: Seq<(Seq<char>, Seq<Seq<char>>)>, id: Seq<char>) -> bool {
    exists|i: int| 0 <= i < h.len() && #[trigger] h[i].0 == id
}

/// A harvested headline as values: its id and its link targets.
pub open spec fn headline_view(e: (String, Vec<String>)) -> (Seq<char>, Seq<Seq<char>>) {
    (e.0@, e.1@.map_values(|s: String| s@))
}

/// A file's harvest as values.
pub open spec fn harvest_view(h: Seq<(String, Vec<String>)>) -> Seq<(Seq<char>, Seq<Seq<char>>)> {
    h.map_values(|e: (String, Vec<String>)| headline_view(e))
}

/// A backlink from a file other than `p`.
pub open spec fn from_other_file(p: Seq<char>) -> spec_fn((Seq<char>, Seq<char>)) -> bool {
    |e: (Seq<char>, Seq<char>)| e.0 != p
}

/// The backlinks of a key with those from file `p` dropped.
pub open spec fn without_file(v: Seq<(Seq<char>, Seq<char>)>, p: Seq<char>) -> Seq<(Seq<char>, Seq<char>)> {
    v.filter(from_other_file(p))
}

impl VaultIndex {
    /// The file that holds block `id`, if it is indexed.
    pub closed spec fn path_of_id(&self, id: Seq<char>) -> Option<Seq<char>> {
        match lookup(self.by_id@, id) {
            Some(p) => Some(p@),
            None => None,
        }
    }

    /// The `(file, source id)` pairs linking to `key`, in the order they
    /// were indexed; empty when none do.
    pub closed spec fn linkers(&self, key: Seq<char>) -> Seq<(Seq<char>, Seq<char>)> {
        match lookup(self.backlinks@, key) {
            Some(v) => linkers_view(v@),
            None => Seq::empty(),
        }
    }

    /// The change token.
    pub closed spec fn rev(&self) -> u64 {
        self.revision
    }

    /// No id or backlink key is listed twice, and no key is listed with
    /// an empty backlink list.
    pub closed spec fn wf(&self) -> bool {
        &&& keys_distinct(self.by_id@)
        &&& keys_distinct(self.backlinks@)
        &&& forall|i: int| 0 <= i < self.backlinks@.len() ==> #[trigger] self.backlinks@[i].1@.len() > 0
    }

    /// An empty index at change token 0.
    pub fn new() -> (r: Self)
        ensures
            r.wf(),
            r.rev() == 0,
            forall|k: Seq<char>| #[trigger] r.path_of_id(k) is None,
            forall|k: Seq<char>| #[trigger] r.linkers(k) == Seq::<(Seq<char>, Seq<char>)>::empty(),
    {
        VaultIndex { by_id: Vec::new(), backlinks: Vec::new(), revision: 0 }
    }

    /// The change token: stable across reads, moved by every mutation.
    pub fn revision(&self) -> (r: u64)
        ensures
            r == self.rev(),
    {
        self.revision
    }
}

/// The file a by-id list names for `k`.
pub open spec fn id_at(v: Seq<(String, String)>, k: Seq<char>) -> Option<Seq<char>> {
    match lookup(v, k) {
        Some(p) => Some(p@),
        None => None,
    }
}

/// The backlinks a backlink list holds for `k`; empty when none.
pub open spec fn links_at(v: Seq<(String, Vec<(String, String)>)>, k: Seq<char>) -> Seq<(Seq<char>, Seq<char>)> {
    match lookup(v, k) {
        Some(l) => linkers_view(l@),
        None => Seq::empty(),
    }
}

/// No key twice, and no key with an empty list.
pub open spec fn links_wf(v: Seq<(String, Vec<(String, String)>)>) -> bool {
    &&& keys_distinct(v)
    &&& forall|i: int| 0 <= i < v.len() ==> #[trigger] v[i].1@.len() > 0
}

/// `Some(x)` unless `x` is `p`.
pub open spec fn unless_is(o: Option<Seq<char>>, p: Seq<char>) -> Option<Seq<char>> {
    match o {
        Some(x) => if x == p { None } else { Some(x) },
        None => None,
    }
}

/// A copy of a list of string pairs.
fn copy_linkers(v: &Vec<(String, String)>) -> (r: Vec<(String, String)>)
    ensures
        r@ == v@,
{
    let mut r: Vec<(String, String)> = Vec::new();
    let mut i: usize = 0;
    while i < v.len()
        invariant
            i <= v.len(),
            r@ == v@.take(i as int),
        decreases v.len() - i,
    {
        let e = (v[i].0.clone(), v[i].1.clone());
        r.push(e);
        i = i + 1;
        assert(r@ =~= v@.take(i as int));
    }
    assert(v@.take(i as int) =~= v@);
    r
}

/// The by-id list with every id that `p` holds dropped.
fn ids_without_path(v: &Vec<(String, String)>, p: &String) -> (r: Vec<(String, String)>)
    requires
        keys_distinct(v@),
    ensures
        keys_distinct(r@),
        forall|k: Seq<char>| #[trigger] id_at(r@, k) == unless_is(id_at(v@, k), p@),
{
    let mut out: Vec<(String, String)> = Vec::new();
    let mut i: usize = 0;
    while i < v.len()
        invariant
            i <= v.len(),
            keys_distinct(v@),
            keys_distinct(out@),
            forall|k: Seq<char>| #[trigger] id_at(out@, k) == unless_is(id_at(v@.take(i as int), k), p@),
            forall|j: int| 0 <= j < out@.len() ==> lookup(v@.take(i as int), #[trigger] out@[j].0@) is Some,
        decreases v.len() - i,
    {
        let ghost key = v@[i as int].0@;
        proof {
            assert forall|j: int| 0 <= j < i implies #[trigger] v@.take(i as int)[j].0@ != key by {
                assert(v@.take(i as int)[j] == v@[j]);
            }
            lemma_lookup_none(v@.take(i as int), key);
            assert forall|k: Seq<char>| #[trigger] lookup(v@.take(i + 1), k) == (if v@[i as int].0@ == k {
                Some(v@[i as int].1)
            } else {
                lookup(v@.take(i as int), k)
            }) by {
                lemma_lookup_take(v@, i as int, k);
            }
        }
        if v[i].1 != *p {
            let ghost before = out@;
            let e = (v[i].0.clone(), v[i].1.clone());
            out.push(e);
            proof {
                assert forall|k: Seq<char>| #[trigger] id_at(out@, k) == unless_is(id_at(v@.take(i + 1), k), p@) by {
                    lemma_lookup_push(before, e, k);
                    lemma_lookup_take(v@, i as int, k);
                    assert(id_at(before, k) == unless_is(id_at(v@.take(i as int), k), p@));
                }
                assert forall|a: int, b: int| 0 <= a < b < out@.len() implies #[trigger] out@[a].0@ != #[trigger] out@[b].0@ by {
                    if b == out@.len() - 1 {
                        assert(lookup(v@.take(i as int), before[a].0@) is Some);
                    } else {
                        assert(out@[a] == before[a] && out@[b] == before[b]);
                    }
                }
                assert forall|j: int| 0 <= j < out@.len() implies lookup(v@.take(i + 1), #[trigger] out@[j].0@) is Some by {
                    if j < before.len() {
                        assert(out@[j] == before[j]);
                    }
                }
            }
        }
        i = i + 1;
    }
    assert(v@.take(i as int) =~= v@);
    out
}

/// The by-id list with `id` filed under `p`.
fn ids_set(v: &Vec<(String, String)>, id: &String, p: &String) -> (r: Vec<(String, String)>)
    requires
        keys_distinct(v@),
    ensures
        keys_distinct(r@),
        forall|k: Seq<char>| #[trigger] id_at(r@, k) == if k == id@ { Some(p@) } else { id_at(v@, k) },
{
    let mut out: Vec<(String, String)> = Vec::new();
    let mut i: usize = 0;
    while i < v.len()
        invariant
            i <= v.len(),
            keys_distinct(v@),
            keys_distinct(out@),
            forall|k: Seq<char>| #[trigger] id_at(out@, k) == if k == id@ { None } else { id_at(v@.take(i as int), k) },
            forall|j: int| 0 <= j < out@.len() ==> lookup(v@.take(i as int), #[trigger] out@[j].0@) is Some
                && out@[j].0@ != id@,
        decreases v.len() - i,
    {
        let ghost key = v@[i as int].0@;
        proof {
            assert forall|j: int| 0 <= j < i implies #[trigger] v@.take(i as int)[j].0@ != key by {
                assert(v@.take(i as int)[j] == v@[j]);
            }
            lemma_lookup_none(v@.take(i as int), key);
            assert forall|k: Seq<char>| #[trigger] lookup(v@.take(i + 1), k) == (if v@[i as int].0@ == k {
                Some(v@[i as int].1)
            } else {
                lookup(v@.take(i as int), k)
            }) by {
                lemma_lookup_take(v@, i as int, k);
            }
        }
        if v[i].0 != *id {
            let ghost before = out@;
            let e = (v[i].0.clone(), v[i].1.clone());
            out.push(e);
            proof {
                assert forall|k: Seq<char>| #[trigger] id_at(out@, k) == (if k == id@ { None } else { id_at(v@.take(i + 1), k) }) by {
                    lemma_lookup_push(before, e, k);
                    lemma_lookup_take(v@, i as int, k);
                    assert(id_at(before, k) == (if k == id@ { None } else { id_at(v@.take(i as int), k) }));
                }
                assert forall|a: int, b: int| 0 <= a < b < out@.len() implies #[trigger] out@[a].0@ != #[trigger] out@[b].0@ by {
                    if b == out@.len() - 1 {
                        assert(lookup(v@.take(i as int), before[a].0@) is Some);
                    } else {
                        assert(out@[a] == before[a] && out@[b] == before[b]);
                    }
                }
                assert forall|j: int| 0 <= j < out@.len() implies lookup(v@.take(i + 1), #[trigger] out@[j].0@) is Some
                    && out@[j].0@ != id@ by {
                    if j < before.len() {
                        assert(out@[j] == before[j]);
                    }
                }
            }
        }
        i = i + 1;
    }
    assert(v@.take(i as int) =~= v@);
    let ghost before = out@;
    let e = (id.clone(), p.clone());
    out.push(e);
    proof {
        assert forall|k: Seq<char>| #[trigger] id_at(out@, k) == (if k == id@ { Some(p@) } else { id_at(v@, k) }) by {
            lemma_lookup_push(before, e, k);
            assert(id_at(before, k) == (if k == id@ { None } else { id_at(v@, k) }));
        }
        assert forall|a: int, b: int| 0 <= a < b < out@.len() implies #[trigger] out@[a].0@ != #[trigger] out@[b].0@ by {
            if b == out@.len() - 1 {
                assert(before[a].0@ != id@);
            } else {
                assert(out@[a] == before[a] && out@[b] == before[b]);
            }
        }
    }
    out
}

/// A backlink list without the entries of file `p`.
fn linkers_without_path(v: &Vec<(String, String)>, p: &String) -> (r: Vec<(String, String)>)
    ensures
        linkers_view(r@) == without_file(linkers_view(v@), p@),
{
    let mut out: Vec<(String, String)> = Vec::new();
    let mut i: usize = 0;
    assert(linkers_view(v@).take(0) =~= Seq::<(Seq<char>, Seq<char>)>::empty());
    assert(without_file(Seq::<(Seq<char>, Seq<char>)>::empty(), p@) =~= Seq::<(Seq<char>, Seq<char>)>::empty());
    while i < v.len()
        invariant
            i <= v.len(),
            linkers_view(out@) == without_file(linkers_view(v@).take(i as int), p@),
        decreases v.len() - i,
    {
        let ghost x = linker_view(v@[i as int]);
        proof {
            assert(linkers_view(v@).take(i + 1) =~= linkers_view(v@).take(i as int).push(x));
            linkers_view(v@).take(i as int).lemma_filter_push(x, from_other_file(p@));
        }
        if v[i].0 != *p {
            let ghost before = out@;
            let e = (v[i].0.clone(), v[i].1.clone());
            out.push(e);
            assert(linkers_view(out@) =~= linkers_view(before).push(x));
        }
        i = i + 1;
    }
    assert(linkers_view(v@).take(i as int) =~= linkers_view(v@));
    out
}

/// The backlink list with every entry from file `p` dropped, and keys
/// left with no entries dropped too.
fn links_without_path(v: &Vec<(String, Vec<(String, String)>)>, p: &String) -> (r: Vec<(String, Vec<(String, String)>)>)
    requires
        links_wf(v@),
    ensures
        links_wf(r@),
        forall|k: Seq<char>| #[trigger] links_at(r@, k) == without_file(links_at(v@, k), p@),
{
    let mut out: Vec<(String, Vec<(String, String)>)> = Vec::new();
    let mut i: usize = 0;
    while i < v.len()
        invariant
            i <= v.len(),
            links_wf(v@),
            links_wf(out@),
            forall|k: Seq<char>| #[trigger] links_at(out@, k) == without_file(links_at(v@.take(i as int), k), p@),
            forall|j: int| 0 <= j < out@.len() ==> lookup(v@.take(i as int), #[trigger] out@[j].0@) is Some,
        decreases v.len() - i,
    {
        let ghost key = v@[i as int].0@;
        proof {
            assert forall|j: int| 0 <= j < i implies #[trigger] v@.take(i as int)[j].0@ != key by {
                assert(v@.take(i as int)[j] == v@[j]);
            }
            lemma_lookup_none(v@.take(i as int), key);
        }
        let kept = linkers_without_path(&v[i].1, p);
        let ghost before = out@;
        if kept.len() > 0 {
            let e = (v[i].0.clone(), kept);
            out.push(e);
            proof {
                assert forall|k: Seq<char>| #[trigger] links_at(out@, k) == without_file(links_at(v@.take(i + 1), k), p@) by {
                    lemma_lookup_push(before, e, k);
                    lemma_lookup_take(v@, i as int, k);
                    assert(links_at(before, k) == without_file(links_at(v@.take(i as int), k), p@));
                }
                assert forall|a: int, b: int| 0 <= a < b < out@.len() implies #[trigger] out@[a].0@ != #[trigger] out@[b].0@ by {
                    if b == out@.len() - 1 {
                        assert(lookup(v@.take(i as int), before[a].0@) is Some);
                    } else {
                        assert(out@[a] == before[a] && out@[b] == before[b]);
                    }
                }
                assert forall|j: int| 0 <= j < out@.len() implies #[trigger] out@[j].1@.len() > 0 by {
                    if j < before.len() {
                        assert(out@[j] == before[j]);
                    }
                }
                assert forall|j: int| 0 <= j < out@.len() implies lookup(v@.take(i + 1), #[trigger] out@[j].0@) is Some by {
                    lemma_lookup_take(v@, i as int, out@[j].0@);
                    if j < before.len() {
                        assert(out@[j] == before[j]);
                    }
                }
            }
        } else {
            proof {
                assert forall|k: Seq<char>| #[trigger] links_at(out@, k) == without_file(links_at(v@.take(i + 1), k), p@) by {
                    lemma_lookup_take(v@, i as int, k);
                    if k == key {
                        assert(linkers_view(kept@).len() == 0);
                        assert(links_at(out@, k) =~= Seq::<(Seq<char>, Seq<char>)>::empty());
                    }
                }
                assert forall|j: int| 0 <= j < out@.len() implies lookup(v@.take(i + 1), #[trigger] out@[j].0@) is Some by {
                    lemma_lookup_take(v@, i as int, out@[j].0@);
                }
            }
        }
        i = i + 1;
    }
    assert(v@.take(i as int) =~= v@);
    out
}

/// The backlink list with `e` added under `key`, after what is there.
fn links_add(v: &Vec<(String, Vec<(String, String)>)>, key: &String, e: (String, String)) -> (r: Vec<(String, Vec<(String, String)>)>)
    requires
        links_wf(v@),
    ensures
        links_wf(r@),
        forall|k: Seq<char>| #[trigger] links_at(r@, k) == if k == key@ {
            links_at(v@, k).push(linker_view(e))
        } else {
            links_at(v@, k)
        },
{
    let mut out: Vec<(String, Vec<(String, String)>)> = Vec::new();
    let mut found = false;
    let mut i: usize = 0;
    while i < v.len()
        invariant
            i <= v.len(),
            links_wf(v@),
            links_wf(out@),
            found == (lookup(v@.take(i as int), key@) is Some),
            forall|k: Seq<char>| #[trigger] links_at(out@, k) == if k == key@ && found {
                links_at(v@.take(i as int), k).push(linker_view(e))
            } else {
                links_at(v@.take(i as int), k)
            },
            forall|j: int| 0 <= j < out@.len() ==> lookup(v@.take(i as int), #[trigger] out@[j].0@) is Some,
        decreases v.len() - i,
    {
        let ghost k0 = v@[i as int].0@;
        proof {
            assert forall|j: int| 0 <= j < i implies #[trigger] v@.take(i as int)[j].0@ != k0 by {
                assert(v@.take(i as int)[j] == v@[j]);
            }
            lemma_lookup_none(v@.take(i as int), k0);
            lemma_lookup_take(v@, i as int, key@);
        }
        let mut list = copy_linkers(&v[i].1);
        let hit = v[i].0 == *key;
        if hit {
            let ghost l0 = list@;
            list.push((e.0.clone(), e.1.clone()));
            assert(linkers_view(list@) =~= linkers_view(l0).push(linker_view(e)));
        }
        let ghost before = out@;
        let x = (v[i].0.clone(), list);
        out.push(x);
        proof {
            assert forall|k: Seq<char>| #[trigger] links_at(out@, k) == (if k == key@ && (found || hit) {
                links_at(v@.take(i + 1), k).push(linker_view(e))
            } else {
                links_at(v@.take(i + 1), k)
            }) by {
                lemma_lookup_push(before, x, k);
                lemma_lookup_take(v@, i as int, k);
                assert(links_at(before, k) == (if k == key@ && found {
                    links_at(v@.take(i as int), k).push(linker_view(e))
                } else {
                    links_at(v@.take(i as int), k)
                }));
            }
            assert forall|a: int, b: int| 0 <= a < b < out@.len() implies #[trigger] out@[a].0@ != #[trigger] out@[b].0@ by {
                if b == out@.len() - 1 {
                    assert(lookup(v@.take(i as int), before[a].0@) is Some);
                } else {
                    assert(out@[a] == before[a] && out@[b] == before[b]);
                }
            }
            assert forall|j: int| 0 <= j < out@.len() implies #[trigger] out@[j].1@.len() > 0 by {
                if j < before.len() {
                    assert(out@[j] == before[j]);
                }
            }
            assert forall|j: int| 0 <= j < out@.len() implies lookup(v@.take(i + 1), #[trigger] out@[j].0@) is Some by {
                lemma_lookup_take(v@, i as int, out@[j].0@);
                if j < before.len() {
                    assert(out@[j] == before[j]);
                }
            }
        }
        found = found || hit;
        i = i + 1;
    }
    assert(v@.take(i as int) =~= v@);
    if !found {
        let ghost before = out@;
        let mut list: Vec<(String, String)> = Vec::new();
        list.push(e);
        let x = (key.clone(), list);
        out.push(x);
        proof {
            assert forall|k: Seq<char>| #[trigger] links_at(out@, k) == (if k == key@ {
                links_at(v@, k).push(linker_view(e))
            } else {
                links_at(v@, k)
            }) by {
                lemma_lookup_push(before, x, k);
                assert(links_at(before, k) == links_at(v@, k));
                if k == key@ {
                    assert(lookup(v@, k) is None);
                    assert(linkers_view(x.1@) =~= Seq::<(Seq<char>, Seq<char>)>::empty().push(linker_view(e)));
                }
            }
            lemma_lookup_none(v@, key@);
            assert forall|a: int, b: int| 0 <= a < b < out@.len() implies #[trigger] out@[a].0@ != #[trigger] out@[b].0@ by {
                if b == out@.len() - 1 {
                    assert(lookup(v@, before[a].0@) is Some);
                } else {
                    assert(out@[a] == before[a] && out@[b] == before[b]);
                }
            }
            assert forall|j: int| 0 <= j < out@.len() implies #[trigger] out@[j].1@.len() > 0 by {
                if j < before.len() {
                    assert(out@[j] == before[j]);
                }
            }
        }
    }
    out
}

impl VaultIndex {
    /// The file that holds block `id`.
    pub fn path_of(&self, id: &str) -> (r: Option<String>)
        ensures
            match self.path_of_id(id@) {
                Some(p) => r matches Some(x) && x@ == p,
                None => r is None,
            },
    {
        let want = chars_of(id);
        let mut i = self.by_id.len();
        assert(self.by_id@.take(i as int) =~= self.by_id@);
        while i > 0
            invariant
                i <= self.by_id@.len(),
                want@ == id@,
                lookup(self.by_id@, id@) == lookup(self.by_id@.take(i as int), id@),
            decreases i,
        {
            proof {
                lemma_lookup_take(self.by_id@, i - 1, id@);
            }
            if str_is(&self.by_id[i - 1].0, &want) {
                return Some(self.by_id[i - 1].1.clone());
            }
            i = i - 1;
        }
        None
    }

    /// Whether block `id` is indexed.
    pub fn contains_id(&self, id: &str) -> (r: bool)
        ensures
            r == self.path_of_id(id@) is Some,
    {
        match self.path_of(id) {
            Some(_) => true,
            None => false,
        }
    }

    /// Every `(file, source id)` whose headline links to `target`; both
    /// `id:<id>` and the bare id are accepted.
    pub fn backlinks_of(&self, target: &str) -> (r: Vec<(String, String)>)
        ensures
            linkers_view(r@) == self.linkers(target@),
    {
        let want = chars_of(target);
        let mut i = self.backlinks.len();
        assert(self.backlinks@.take(i as int) =~= self.backlinks@);
        while i > 0
            invariant
                i <= self.backlinks@.len(),
                want@ == target@,
                lookup(self.backlinks@, target@) == lookup(self.backlinks@.take(i as int), target@),
            decreases i,
        {
            proof {
                lemma_lookup_take(self.backlinks@, i - 1, target@);
            }
            if str_is(&self.backlinks[i - 1].0, &want) {
                return copy_linkers(&self.backlinks[i - 1].1);
            }
            i = i - 1;
        }
        let r: Vec<(String, String)> = Vec::new();
        assert(linkers_view(r@) =~= Seq::<(Seq<char>, Seq<char>)>::empty());
        r
    }
}

/// The next change token: one more, wrapping.
pub open spec fn next_rev(r: u64) -> u64 {
    if r == u64::MAX { 0 } else { (r + 1) as u64 }
}

/// The file an index names for `k` after file `p` is re-indexed with
/// the headlines `h`: `p` for an id among them; otherwise what it named
/// before, unless that was `p`.
pub open spec fn reindexed_path(before: Option<Seq<char>>, p: Seq<char>, h: Seq<(Seq<char>, Seq<Seq<char>>)>, k: Seq<char>) -> Option<Seq<char>> {
    if harvest_has_id(h, k) {
        Some(p)
    } else {
        unless_is(before, p)
    }
}

/// The backlinks under `k` after file `p` is re-indexed with the
/// headlines `h`: those of other files, then those `h` contributes.
pub open spec fn reindexed_links(before: Seq<(Seq<char>, Seq<char>)>, p: Seq<char>, h: Seq<(Seq<char>, Seq<Seq<char>>)>, k: Seq<char>) -> Seq<(Seq<char>, Seq<char>)> {
    without_file(before, p) + harvest_hits(p, h, k)
}

/// The bare id of an `id:` link.
fn strip_id(l: &Vec<char>) -> (r: Option<String>)
    ensures
        match strip_id_scheme(l@) {
            Some(b) => r matches Some(x) && x@ == b,
            None => r is None,
        },
{
    let scheme = chars_of("id:");
    proof {
        reveal_strlit("id:");
    }
    if chars_start_with(l, &scheme) {
        let n = l.len();
        let bare = slice_chars(l, 3, n);
        assert(bare@ =~= l@.skip(3));
        Some(string_of(&bare))
    } else {
        None
    }
}

impl VaultIndex {
    /// Drop and rebuild every index entry derived from file `path`,
    /// from its headlines `harvested` — each a block id with the link
    /// targets of that headline, in document order — and move the
    /// change token. Every mutation of a document funnels through here.
    pub fn reindex_file(&mut self, path: &str, harvested: &Vec<(String, Vec<String>)>)
        requires
            old(self).wf(),
        ensures
            final(self).wf(),
            final(self).rev() == next_rev(old(self).rev()),
            forall|k: Seq<char>| #[trigger] final(self).path_of_id(k)
                == reindexed_path(old(self).path_of_id(k), path@, harvest_view(harvested@), k),
            forall|k: Seq<char>| #[trigger] final(self).linkers(k)
                == reindexed_links(old(self).linkers(k), path@, harvest_view(harvested@), k),
    {
        self.revision = next_revision(self.revision);
        let p = string_of(&chars_of(path));
        let ghost hv = harvest_view(harvested@);
        let ghost old_ids = self.by_id@;
        let ghost old_links = self.backlinks@;
        let mut ids = ids_without_path(&self.by_id, &p);
        let mut links = links_without_path(&self.backlinks, &p);
        let mut i: usize = 0;
        proof {
            assert forall|k: Seq<char>| #[trigger] id_at(ids@, k)
                == (if harvest_has_id(hv.take(0), k) { Some(p@) } else { unless_is(id_at(old_ids, k), p@) }) by {
                assert(!harvest_has_id(hv.take(0), k));
            }
            assert forall|k: Seq<char>| #[trigger] links_at(links@, k)
                == without_file(links_at(old_links, k), p@) + harvest_hits(p@, hv.take(0), k) by {
                assert(hv.take(0).len() == 0);
                assert(harvest_hits(p@, hv.take(0), k) =~= Seq::<(Seq<char>, Seq<char>)>::empty());
                assert(links_at(links@, k) + Seq::<(Seq<char>, Seq<char>)>::empty() =~= links_at(links@, k));
            }
        }
        while i < harvested.len()
            invariant
                i <= harvested.len(),
                hv == harvest_view(harvested@),
                keys_distinct(ids@),
                links_wf(links@),
                forall|k: Seq<char>| #[trigger] id_at(ids@, k)
                    == (if harvest_has_id(hv.take(i as int), k) { Some(p@) } else { unless_is(id_at(old_ids, k), p@) }),
                forall|k: Seq<char>| #[trigger] links_at(links@, k)
                    == without_file(links_at(old_links, k), p@) + harvest_hits(p@, hv.take(i as int), k),
            decreases harvested.len() - i,
        {
            let id = &harvested[i].0;
            let hl = &harvested[i].1;
            let ghost hlv = hl@.map_values(|s: String| s@);
            let ghost base = links@;
            proof {
                assert(hv[i as int] == (id@, hlv));
                assert(hv.take(i + 1).drop_last() =~= hv.take(i as int));
                assert(hv.take(i + 1).last() == hv[i as int]);
            }
            let ids2 = ids_set(&ids, id, &p);
            proof {
                assert forall|k: Seq<char>| #[trigger] id_at(ids2@, k)
                    == (if harvest_has_id(hv.take(i + 1), k) { Some(p@) } else { unless_is(id_at(old_ids, k), p@) }) by {
                    if harvest_has_id(hv.take(i + 1), k) && k != id@ {
                        let w = choose|w: int| 0 <= w < hv.take(i + 1).len() && #[trigger] hv.take(i + 1)[w].0 == k;
                        assert(w < i);
                        assert(hv.take(i as int)[w] == hv.take(i + 1)[w]);
                        assert(harvest_has_id(hv.take(i as int), k));
                    }
                    if harvest_has_id(hv.take(i as int), k) {
                        let w = choose|w: int| 0 <= w < hv.take(i as int).len() && #[trigger] hv.take(i as int)[w].0 == k;
                        assert(hv.take(i + 1)[w] == hv.take(i as int)[w]);
                        assert(harvest_has_id(hv.take(i + 1), k));
                    }
                    if k == id@ {
                        assert(hv.take(i + 1)[i as int].0 == k);
                        assert(harvest_has_id(hv.take(i + 1), k));
                    }
                }
            }
            ids = ids2;
            let mut j: usize = 0;
            proof {
                assert forall|k: Seq<char>| #[trigger] links_at(links@, k)
                    == without_file(links_at(old_links, k), p@) + harvest_hits(p@, hv.take(i as int), k)
                        + link_hits(p@, id@, hlv.take(0), k) by {
                    assert(hlv.take(0).len() == 0);
                    let x = without_file(links_at(old_links, k), p@) + harvest_hits(p@, hv.take(i as int), k);
                    assert(x + link_hits(p@, id@, hlv.take(0), k) =~= x);
                }
            }
            while j < hl.len()
                invariant
                    j <= hl.len(),
                    hlv == hl@.map_values(|s: String| s@),
                    links_wf(links@),
                    forall|k: Seq<char>| #[trigger] links_at(links@, k)
                        == without_file(links_at(old_links, k), p@) + harvest_hits(p@, hv.take(i as int), k)
                            + link_hits(p@, id@, hlv.take(j as int), k),
                decreases hl.len() - j,
            {
                let l = &hl[j];
                let lv = chars_of(l.as_str());
                let ghost lj = links@;
                let bare = strip_id(&lv);
                let links1 = match &bare {
                    Some(b) => links_add(&links, b, (p.clone(), id.clone())),
                    None => links,
                };
                let links2 = links_add(&links1, l, (p.clone(), id.clone()));
                proof {
                    assert(hlv.take(j + 1).drop_last() =~= hlv.take(j as int));
                    assert(hlv.take(j + 1).last() == l@);
                    assert forall|k: Seq<char>| #[trigger] links_at(links2@, k)
                        == without_file(links_at(old_links, k), p@) + harvest_hits(p@, hv.take(i as int), k)
                            + link_hits(p@, id@, hlv.take(j + 1), k) by {
                        let x = without_file(links_at(old_links, k), p@) + harvest_hits(p@, hv.take(i as int), k)
                            + link_hits(p@, id@, hlv.take(j as int), k);
                        assert(links_at(lj, k) == x);
                        if link_keyed(l@, k) {
                            if l@ == k {
                                match strip_id_scheme(l@) {
                                    Some(b) => {
                                        reveal_strlit("id:");
                                        assert(b.len() == l@.len() - 3);
                                        assert(b != k);
                                    },
                                    None => {},
                                }
                            }
                            assert(links_at(links2@, k) == x.push((p@, id@)));
                            assert(x.push((p@, id@)) =~= without_file(links_at(old_links, k), p@) + harvest_hits(p@, hv.take(i as int), k)
                                + (link_hits(p@, id@, hlv.take(j as int), k) + seq![(p@, id@)]));
                        } else {
                            assert(links_at(links2@, k) == x);
                            assert(x =~= without_file(links_at(old_links, k), p@) + harvest_hits(p@, hv.take(i as int), k)
                                + (link_hits(p@, id@, hlv.take(j as int), k) + Seq::<(Seq<char>, Seq<char>)>::empty()));
                        }
                    }
                }
                links = links2;
                j = j + 1;
            }
            proof {
                assert(hlv.take(j as int) =~= hlv);
                assert forall|k: Seq<char>| #[trigger] links_at(links@, k)
                    == without_file(links_at(old_links, k), p@) + harvest_hits(p@, hv.take(i + 1), k) by {
                    assert(harvest_hits(p@, hv.take(i + 1), k) == harvest_hits(p@, hv.take(i as int), k)
                        + link_hits(p@, id@, hlv, k));
                    assert(without_file(links_at(old_links, k), p@) + harvest_hits(p@, hv.take(i as int), k)
                        + link_hits(p@, id@, hlv, k) =~= without_file(links_at(old_links, k), p@)
                        + (harvest_hits(p@, hv.take(i as int), k) + link_hits(p@, id@, hlv, k)));
                }
            }
            i = i + 1;
        }
        proof {
            assert(hv.take(i as int) =~= hv);
        }
        self.by_id = ids;
        self.backlinks = links;
        proof {
            assert forall|k: Seq<char>| #[trigger] self.path_of_id(k)
                == reindexed_path(old(self).path_of_id(k), path@, harvest_view(harvested@), k) by {
                assert(self.path_of_id(k) == id_at(self.by_id@, k));
                assert(old(self).path_of_id(k) == id_at(old_ids, k));
            }
            assert forall|k: Seq<char>| #[trigger] self.linkers(k)
                == reindexed_links(old(self).linkers(k), path@, harvest_view(harvested@), k) by {
                assert(self.linkers(k) == links_at(self.backlinks@, k));
                assert(old(self).linkers(k) == links_at(old_links, k));
            }
        }
    }
}

/// The by-id list with every entry naming `from` moved to `to`.
fn ids_moved(v: &Vec<(String, String)>, from: &String, to: &String) -> (r: Vec<(String, String)>)
    requires
        keys_distinct(v@),
    ensures
        keys_distinct(r@),
        forall|k: Seq<char>| #[trigger] id_at(r@, k) == match id_at(v@, k) {
            Some(x) => Some(if x == from@ { to@ } else { x }),
            None => None,
        },
{
    let mut out: Vec<(String, String)> = Vec::new();
    let mut i: usize = 0;
    while i < v.len()
        invariant
            i <= v.len(),
            keys_distinct(v@),
            out@.len() == i,
            forall|j: int| 0 <= j < i ==> #[trigger] out@[j].0@ == v@[j].0@,
            forall|k: Seq<char>| #[trigger] id_at(out@, k) == match id_at(v@.take(i as int), k) {
                Some(x) => Some(if x == from@ { to@ } else { x }),
                None => None,
            },
        decreases v.len() - i,
    {
        let ghost before = out@;
        let value = if v[i].1 == *from { to.clone() } else { v[i].1.clone() };
        let e = (v[i].0.clone(), value);
        out.push(e);
        proof {
            assert forall|k: Seq<char>| #[trigger] id_at(out@, k) == match id_at(v@.take(i + 1), k) {
                Some(x) => Some(if x == from@ { to@ } else { x }),
                None => None,
            } by {
                lemma_lookup_push(before, e, k);
                lemma_lookup_take(v@, i as int, k);
                assert(id_at(before, k) == match id_at(v@.take(i as int), k) {
                    Some(x) => Some(if x == from@ { to@ } else { x }),
                    None => None,
                });
            }
            assert forall|j: int| 0 <= j < i + 1 implies #[trigger] out@[j].0@ == v@[j].0@ by {
                if j < i {
                    assert(out@[j] == before[j]);
                }
            }
        }
        i = i + 1;
    }
    assert(v@.take(i as int) =~= v@);
    assert forall|a: int, b: int| 0 <= a < b < out@.len() implies #[trigger] out@[a].0@ != #[trigger] out@[b].0@ by {
        assert(out@[a].0@ == v@[a].0@);
        assert(out@[b].0@ == v@[b].0@);
    }
    out
}

/// A link target's block, for the link graph: the bare id of an `id:`
/// link, any other target as written.
pub open spec fn link_target_id(link: Seq<char>) -> Seq<char> {
    match strip_id_scheme(link) {
        Some(b) => b,
        None => link,
    }
}

impl VaultIndex {
    /// File the blocks `ids` of a newly created file under `path`, and
    /// move the change token.
    pub fn register_file(&mut self, path: &str, ids: &Vec<String>)
        requires
            old(self).wf(),
        ensures
            final(self).wf(),
            final(self).rev() == next_rev(old(self).rev()),
            forall|k: Seq<char>| #[trigger] final(self).path_of_id(k)
                == if views_contain(ids@, k) { Some(path@) } else { old(self).path_of_id(k) },
            forall|k: Seq<char>| #[trigger] final(self).linkers(k) == old(self).linkers(k),
    {
        let p = string_of(&chars_of(path));
        let ghost old_ids = self.by_id@;
        let mut cur = copy_linkers(&self.by_id);
        let mut i: usize = 0;
        while i < ids.len()
            invariant
                i <= ids.len(),
                keys_distinct(cur@),
                forall|k: Seq<char>| #[trigger] id_at(cur@, k)
                    == if views_contain(ids@.take(i as int), k) { Some(p@) } else { id_at(old_ids, k) },
            decreases ids.len() - i,
        {
            let next = ids_set(&cur, &ids[i], &p);
            proof {
                assert forall|k: Seq<char>| #[trigger] id_at(next@, k)
                    == if views_contain(ids@.take(i + 1), k) { Some(p@) } else { id_at(old_ids, k) } by {
                    assert(ids@.take(i + 1) =~= ids@.take(i as int).push(ids@[i as int]));
                    if views_contain(ids@.take(i as int), k) {
                        let w = choose|w: int| 0 <= w < ids@.take(i as int).len() && #[trigger] ids@.take(i as int)[w]@ == k;
                        assert(ids@.take(i + 1)[w] == ids@.take(i as int)[w]);
                    }
                    if views_contain(ids@.take(i + 1), k) && k != ids@[i as int]@ {
                        let w = choose|w: int| 0 <= w < ids@.take(i + 1).len() && #[trigger] ids@.take(i + 1)[w]@ == k;
                        assert(ids@.take(i as int)[w] == ids@.take(i + 1)[w]);
                    }
                    if k == ids@[i as int]@ {
                        assert(ids@.take(i + 1)[i as int]@ == k);
                    }
                }
            }
            cur = next;
            i = i + 1;
        }
        assert(ids@.take(i as int) =~= ids@);
        self.by_id = cur;
        self.revision = next_revision(self.revision);
        proof {
            assert forall|k: Seq<char>| #[trigger] self.path_of_id(k)
                == if views_contain(ids@, k) { Some(path@) } else { old(self).path_of_id(k) } by {
                assert(self.path_of_id(k) == id_at(self.by_id@, k));
                assert(old(self).path_of_id(k) == id_at(old_ids, k));
            }
        }
    }

    /// A file moved from `from` to `to`: every block it held is filed
    /// under the new path, and the change token moves. Backlinks keep
    /// naming the file they were harvested from.
    pub fn rename_path(&mut self, from: &str, to: &str)
        requires
            old(self).wf(),
        ensures
            final(self).wf(),
            final(self).rev() == next_rev(old(self).rev()),
            forall|k: Seq<char>| #[trigger] final(self).path_of_id(k) == match old(self).path_of_id(k) {
                Some(x) => Some(if x == from@ { to@ } else { x }),
                None => None,
            },
            forall|k: Seq<char>| #[trigger] final(self).linkers(k) == old(self).linkers(k),
    {
        let f = string_of(&chars_of(from));
        let t = string_of(&chars_of(to));
        let ghost old_ids = self.by_id@;
        self.by_id = ids_moved(&self.by_id, &f, &t);
        self.revision = next_revision(self.revision);
        proof {
            assert forall|k: Seq<char>| #[trigger] self.path_of_id(k) == match old(self).path_of_id(k) {
                Some(x) => Some(if x == from@ { to@ } else { x }),
                None => None,
            } by {
                assert(self.path_of_id(k) == id_at(self.by_id@, k));
                assert(old(self).path_of_id(k) == id_at(old_ids, k));
            }
        }
    }

    /// Move the change token without touching the indices: a reload
    /// replaced every document.
    pub fn bump(&mut self)
        requires
            old(self).wf(),
        ensures
            final(self).wf(),
            final(self).rev() == next_rev(old(self).rev()),
            forall|k: Seq<char>| #[trigger] final(self).path_of_id(k) == old(self).path_of_id(k),
            forall|k: Seq<char>| #[trigger] final(self).linkers(k) == old(self).linkers(k),
    {
        self.revision = next_revision(self.revision);
    }

    /// Empty both indices, keeping the change token; a rebuild then
    /// re-indexes every file.
    pub fn clear(&mut self)
        ensures
            final(self).wf(),
            final(self).rev() == old(self).rev(),
            forall|k: Seq<char>| #[trigger] final(self).path_of_id(k) is None,
            forall|k: Seq<char>| #[trigger] final(self).linkers(k) == Seq::<(Seq<char>, Seq<char>)>::empty(),
    {
        self.by_id = Vec::new();
        self.backlinks = Vec::new();
    }

    /// The targets of a headline's links that name a loaded block, in
    /// order: an `id:` link by its bare id, any other as written.
    pub fn resolved_targets(&self, links: &Vec<String>) -> (r: Vec<String>)
        ensures
            views(r@) == views(links@).map_values(|l: Seq<char>| link_target_id(l)).filter(
                |t: Seq<char>| self.path_of_id(t) is Some),
    {
        let mut out: Vec<String> = Vec::new();
        let mut i: usize = 0;
        let ghost cands = views(links@).map_values(|l: Seq<char>| link_target_id(l));
        let ghost keep = |t: Seq<char>| self.path_of_id(t) is Some;
        assert(cands.take(0) =~= Seq::<Seq<char>>::empty());
        assert(views(out@) =~= Seq::<Seq<char>>::empty());
        while i < links.len()
            invariant
                i <= links.len(),
                cands == views(links@).map_values(|l: Seq<char>| link_target_id(l)),
                keep == (|t: Seq<char>| self.path_of_id(t) is Some),
                views(out@) == cands.take(i as int).filter(keep),
            decreases links.len() - i,
        {
            let lv = chars_of(links[i].as_str());
            let cand = match strip_id(&lv) {
                Some(b) => b,
                None => string_of(&lv),
            };
            proof {
                assert(cands[i as int] == link_target_id(links@[i as int]@));
                assert(cand@ == cands[i as int]);
                assert(cands.take(i + 1) =~= cands.take(i as int).push(cand@));
                cands.take(i as int).lemma_filter_push(cand@, keep);
            }
            let ghost before = views(out@);
            if self.contains_id(cand.as_str()) {
                out.push(cand);
                assert(views(out@) =~= before.push(cands[i as int]));
            }
            i = i + 1;
        }
        assert(cands.take(i as int) =~= cands);
        out
    }
}

/// Whether one of `v` spells `k`.
pub open spec fn views_contain(v: Seq<String>, k: Seq<char>) -> bool {
    exists|w: int| 0 <= w < v.len() && #[trigger] v[w]@ == k
}


/// How many of `links` are `id:` links whose bare id names no indexed
/// block.
pub open spec fn dead_links(links: Seq<Seq<char>>, resolves: spec_fn(Seq<char>) -> bool) -> nat
    decreases links.len(),
{
    if links.len() == 0 {
        0
    } else {
        dead_links(links.drop_last(), resolves) + match strip_id_scheme(links.last()) {
            Some(b) => if resolves(b) { 0nat } else { 1nat },
            None => 0nat,
        }
    }
}

impl VaultIndex {
    /// A file deleted from the vault: every block it held is forgotten,
    /// and the change token moves. Backlinks harvested from it stay
    /// until the file is re-indexed.
    pub fn forget_file(&mut self, path: &str)
        requires
            old(self).wf(),
        ensures
            final(self).wf(),
            final(self).rev() == next_rev(old(self).rev()),
            forall|k: Seq<char>| #[trigger] final(self).path_of_id(k) == unless_is(old(self).path_of_id(k), path@),
            forall|k: Seq<char>| #[trigger] final(self).linkers(k) == old(self).linkers(k),
    {
        let p = string_of(&chars_of(path));
        let ghost old_ids = self.by_id@;
        self.by_id = ids_without_path(&self.by_id, &p);
        self.revision = next_revision(self.revision);
        proof {
            assert forall|k: Seq<char>| #[trigger] self.path_of_id(k) == unless_is(old(self).path_of_id(k), path@) by {
                assert(self.path_of_id(k) == id_at(self.by_id@, k));
                assert(old(self).path_of_id(k) == id_at(old_ids, k));
            }
        }
    }

    /// How many of a headline's link targets are `id:` links to blocks
    /// the vault does not have.
    pub fn dead_link_count(&self, links: &Vec<String>) -> (r: usize)
        ensures
            r == dead_links(views(links@), |b: Seq<char>| self.path_of_id(b) is Some),
    {
        let ghost lv = views(links@);
        let ghost res = |b: Seq<char>| self.path_of_id(b) is Some;
        let mut count: usize = 0;
        let mut i: usize = 0;
        assert(lv.take(0) =~= Seq::<Seq<char>>::empty());
        while i < links.len()
            invariant
                i <= links.len(),
                lv == views(links@),
                res == (|b: Seq<char>| self.path_of_id(b) is Some),
                count == dead_links(lv.take(i as int), res),
                count <= i,
            decreases links.len() - i,
        {
            proof {
                assert(lv.take(i + 1).drop_last() =~= lv.take(i as int));
                assert(lv.take(i + 1).last() == links@[i as int]@);
            }
            let lv_i = chars_of(links[i].as_str());
            match strip_id(&lv_i) {
                Some(b) => {
                    if !self.contains_id(b.as_str()) {
                        count = count + 1;
                    }
                },
                None => {},
            }
            i = i + 1;
        }
        assert(lv.take(i as int) =~= lv);
        count
    }
}

// ---------------------------------------------------------------
// Laws
// ---------------------------------------------------------------

proof fn lemma_without_file_twice(x: Seq<(Seq<char>, Seq<char>)>, p: Seq<char>)
    ensures
        without_file(without_file(x, p), p) == without_file(x, p),
    decreases x.len(),
{
    let pred = from_other_file(p);
    if x.len() > 0 {
        lemma_without_file_twice(x.drop_last(), p);
        assert(x =~= x.drop_last().push(x.last()));
        x.drop_last().lemma_filter_push(x.last(), pred);
        if x.last().0 != p {
            without_file(x.drop_last(), p).lemma_filter_push(x.last(), pred);
        }
    } else {
        x.lemma_filter_len(pred);
        assert(without_file(x, p) =~= x);
    }
}

proof fn lemma_link_hits_from(p: Seq<char>, id: Seq<char>, links: Seq<Seq<char>>, k: Seq<char>)
    ensures
        without_file(link_hits(p, id, links, k), p) == Seq::<(Seq<char>, Seq<char>)>::empty(),
    decreases links.len(),
{
    let pred = from_other_file(p);
    if links.len() > 0 {
        lemma_link_hits_from(p, id, links.drop_last(), k);
        let rest = link_hits(p, id, links.drop_last(), k);
        if link_keyed(links.last(), k) {
            assert(link_hits(p, id, links, k) =~= rest.push((p, id)));
            rest.lemma_filter_push((p, id), pred);
        } else {
            assert(link_hits(p, id, links, k) =~= rest);
        }
    } else {
        assert(link_hits(p, id, links, k) =~= Seq::<(Seq<char>, Seq<char>)>::empty());
        Seq::<(Seq<char>, Seq<char>)>::empty().lemma_filter_len(pred);
        assert(without_file(Seq::<(Seq<char>, Seq<char>)>::empty(), p) =~= Seq::<(Seq<char>, Seq<char>)>::empty());
    }
}

proof fn lemma_harvest_hits_from(p: Seq<char>, h: Seq<(Seq<char>, Seq<Seq<char>>)>, k: Seq<char>)
    ensures
        without_file(harvest_hits(p, h, k), p) == Seq::<(Seq<char>, Seq<char>)>::empty(),
    decreases h.len(),
{
    let pred = from_other_file(p);
    if h.len() > 0 {
        lemma_harvest_hits_from(p, h.drop_last(), k);
        lemma_link_hits_from(p, h.last().0, h.last().1, k);
        Seq::filter_distributes_over_add(harvest_hits(p, h.drop_last(), k), link_hits(p, h.last().0, h.last().1, k), pred);
        assert(Seq::<(Seq<char>, Seq<char>)>::empty() + Seq::<(Seq<char>, Seq<char>)>::empty()
            =~= Seq::<(Seq<char>, Seq<char>)>::empty());
    } else {
        assert(harvest_hits(p, h, k) =~= Seq::<(Seq<char>, Seq<char>)>::empty());
        Seq::<(Seq<char>, Seq<char>)>::empty().lemma_filter_len(pred);
        assert(without_file(Seq::<(Seq<char>, Seq<char>)>::empty(), p) =~= Seq::<(Seq<char>, Seq<char>)>::empty());
    }
}

/// Re-indexing a file a second time from the same headlines changes
/// nothing: every entry the first pass made is dropped and made again,
/// and entries of other files are left as they were.
pub proof fn law_reindex_idempotent(
    before_path: Option<Seq<char>>,
    before_links: Seq<(Seq<char>, Seq<char>)>,
    p: Seq<char>,
    h: Seq<(Seq<char>, Seq<Seq<char>>)>,
    k: Seq<char>,
)
    ensures
        reindexed_path(reindexed_path(before_path, p, h, k), p, h, k) == reindexed_path(before_path, p, h, k),
        reindexed_links(reindexed_links(before_links, p, h, k), p, h, k) == reindexed_links(before_links, p, h, k),
{
    let pred = from_other_file(p);
    let once = reindexed_links(before_links, p, h, k);
    Seq::filter_distributes_over_add(without_file(before_links, p), harvest_hits(p, h, k), pred);
    lemma_without_file_twice(before_links, p);
    lemma_harvest_hits_from(p, h, k);
    assert(without_file(once, p) =~= without_file(before_links, p));
}

/// Re-indexing file `p` leaves every block of another file where it
/// was, unless the file now claims it.
pub proof fn law_reindex_keeps_other_files(
    before_path: Option<Seq<char>>,
    p: Seq<char>,
    h: Seq<(Seq<char>, Seq<Seq<char>>)>,
    k: Seq<char>,
    q: Seq<char>,
)
    requires
        before_path == Some(q),
        q != p,
        !harvest_has_id(h, k),
    ensures
        reindexed_path(before_path, p, h, k) == Some(q),
{
}

proof fn lemma_link_hits_contains(p: Seq<char>, id: Seq<char>, links: Seq<Seq<char>>, k: Seq<char>, j: int)
    requires
        0 <= j < links.len(),
        link_keyed(links[j], k),
    ensures
        link_hits(p, id, links, k).contains((p, id)),
    decreases links.len(),
{
    let rest = link_hits(p, id, links.drop_last(), k);
    if j == links.len() - 1 {
        assert(link_hits(p, id, links, k) =~= rest.push((p, id)));
        assert(link_hits(p, id, links, k)[rest.len() as int] == (p, id));
    } else {
        assert(links.drop_last()[j] == links[j]);
        lemma_link_hits_contains(p, id, links.drop_last(), k, j);
        let w = choose|w: int| 0 <= w < rest.len() && rest[w] == (p, id);
        assert(link_hits(p, id, links, k)[w] == rest[w]);
    }
}

proof fn lemma_harvest_hits_contains(p: Seq<char>, h: Seq<(Seq<char>, Seq<Seq<char>>)>, k: Seq<char>, i: int, j: int)
    requires
        0 <= i < h.len(),
        0 <= j < h[i].1.len(),
        link_keyed(h[i].1[j], k),
    ensures
        harvest_hits(p, h, k).contains((p, h[i].0)),
    decreases h.len(),
{
    let rest = harvest_hits(p, h.drop_last(), k);
    let last = link_hits(p, h.last().0, h.last().1, k);
    if i == h.len() - 1 {
        lemma_link_hits_contains(p, h[i].0, h[i].1, k, j);
        let w = choose|w: int| 0 <= w < last.len() && last[w] == (p, h[i].0);
        assert((rest + last)[rest.len() + w] == (p, h[i].0));
    } else {
        assert(h.drop_last()[i] == h[i]);
        lemma_harvest_hits_contains(p, h.drop_last(), k, i, j);
        let w = choose|w: int| 0 <= w < rest.len() && rest[w] == (p, h[i].0);
        assert((rest + last)[w] == (p, h[i].0));
    }
}

/// An `id:` link is found from both ends: after re-indexing, the
/// headline that carries it is among the backlinks of the link as
/// written and of the bare id.
pub proof fn law_backlinks_accept_both_forms(
    before_full: Seq<(Seq<char>, Seq<char>)>,
    before_bare: Seq<(Seq<char>, Seq<char>)>,
    p: Seq<char>,
    h: Seq<(Seq<char>, Seq<Seq<char>>)>,
    i: int,
    j: int,
)
    requires
        0 <= i < h.len(),
        0 <= j < h[i].1.len(),
        strip_id_scheme(h[i].1[j]) is Some,
    ensures
        reindexed_links(before_full, p, h, h[i].1[j]).contains((p, h[i].0)),
        reindexed_links(before_bare, p, h, strip_id_scheme(h[i].1[j]).unwrap()).contains((p, h[i].0)),
{
    let full = h[i].1[j];
    let bare = strip_id_scheme(full).unwrap();
    lemma_harvest_hits_contains(p, h, full, i, j);
    lemma_harvest_hits_contains(p, h, bare, i, j);
    let a = harvest_hits(p, h, full);
    let b = harvest_hits(p, h, bare);
    let wa = choose|w: int| 0 <= w < a.len() && a[w] == (p, h[i].0);
    let wb = choose|w: int| 0 <= w < b.len() && b[w] == (p, h[i].0);
    let fa = without_file(before_full, p);
    let fb = without_file(before_bare, p);
    assert((fa + a)[fa.len() + wa] == (p, h[i].0));
    assert((fb + b)[fb.len() + wb] == (p, h[i].0));
}

/// Every mutation moves the change token; short of wrapping around, it
/// only grows.
pub proof fn law_revision_moves(r: u64)
    ensures
        next_rev(r) != r,
        r < u64::MAX ==> next_rev(r) > r,
{
}

} // verus!
