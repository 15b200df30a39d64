//! A document's outline as a tree of headlines, and the outline paths
//! under one of them: structural indices, not byte offsets, so they
//! survive the rewrites applied to the headlines they name.

use vstd::prelude::*;

verus! {

/// An outline: its top-level headlines, and each headline's children,
/// in document order. Headlines are numbered so that every child comes
/// after its parent.
#[derive(Debug)]
pub struct Outline {
    /// The top-level headlines.
    pub roots: Vec<usize>,
    /// The children of each headline.
    pub children: Vec<Vec<usize>>,
}

/// The children lists as values.
pub open spec fn child_lists(o: &Outline) -> Seq<Seq<usize>> {
    o.children@.map_values(|v: Vec<usize>| v@)
}

/// Every root and child names a headline, and every child comes after
/// its parent.
pub open spec fn outline_wf(o: &Outline) -> bool {
    let ch = child_lists(o);
    &&& forall|i: int| 0 <= i < o.roots@.len() ==> #[trigger] o.roots@[i] < ch.len()
    &&& forall|n: int, j: int| 0 <= n < ch.len() && 0 <= j < ch[n].len() ==> n < #[trigger] ch[n][j] < ch.len()
}

/// The headline reached from `node` by the child indices `rest`.
pub open spec fn follow(ch: Seq<Seq<usize>>, node: int, rest: Seq<usize>) -> Option<int>
    decreases rest.len(),
{
    if rest.len() == 0 {
        Some(node)
    } else if node < 0 || node >= ch.len() || rest[0] >= ch[node].len() {
        None
    } else {
        follow(ch, ch[node][rest[0] as int] as int, rest.drop_first())
    }
}

/// The headline an outline path names: a root index, then child
/// indices.
pub open spec fn resolve(roots: Seq<usize>, ch: Seq<Seq<usize>>, path: Seq<usize>) -> Option<int> {
    if path.len() == 0 || path[0] >= roots.len() {
        None
    } else {
        follow(ch, roots[path[0] as int] as int, path.drop_first())
    }
}

/// The outline paths of the descendants of `node`, whose own path is
/// `base`, reached through its children from the `k`th on: each child's
/// path, then its descendants', depth first.
pub open spec fn walk(ch: Seq<Seq<usize>>, node: int, base: Seq<usize>, k: int) -> Seq<Seq<usize>>
    decreases ch.len() - node, ch[node].len() - k,
{
    if node < 0 || node >= ch.len() || k < 0 || k >= ch[node].len() {
        Seq::empty()
    } else {
        let c = ch[node][k] as int;
        let p = base.push(k as usize);
        if node < c < ch.len() {
            seq![p] + walk(ch, c, p, 0) + walk(ch, node, base, k + 1)
        } else {
            seq![p] + walk(ch, node, base, k + 1)
        }
    }
}

/// The paths as values.
pub open spec fn paths_view(v: Seq<Vec<usize>>) -> Seq<Seq<usize>> {
    v.map_values(|p: Vec<usize>| p@)
}

/// A copy of a path with one more index.
fn extended(base: &Vec<usize>, k: usize) -> (r: Vec<usize>)
    ensures
        r@ == base@.push(k),
{
    let mut r: Vec<usize> = Vec::new();
    let mut i: usize = 0;
    while i < base.len()
        invariant
            i <= base.len(),
            r@ == base@.take(i as int),
        decreases base.len() - i,
    {
        r.push(base[i]);
        i = i + 1;
        assert(r@ =~= base@.take(i as int));
    }
    assert(base@.take(i as int) =~= base@);
    r.push(k);
    r
}

/// Append to `out` the paths under `node` reached through its children
/// from the `k`th on.
fn walk_into(o: &Outline, node: usize, base: &Vec<usize>, k: usize, out: &mut Vec<Vec<usize>>)
    requires
        outline_wf(o),
        node < o.children@.len(),
    ensures
        paths_view(final(out)@) == paths_view(old(out)@) + walk(child_lists(o), node as int, base@, k as int),
    decreases o.children@.len() - node, o.children@[node as int]@.len() - k,
{
    let ghost ch = child_lists(o);
    assert(ch[node as int] == o.children@[node as int]@);
    if k >= o.children[node].len() {
        assert(paths_view(out@) + Seq::<Seq<usize>>::empty() =~= paths_view(out@));
        return;
    }
    let c = o.children[node][k];
    assert(ch[node as int][k as int] == c);
    let ghost before = paths_view(out@);
    let q = extended(base, k);
    out.push(extended(base, k));
    assert(paths_view(out@) =~= before.push(q@));
    walk_into(o, c, &q, 0, out);
    walk_into(o, node, base, k + 1, out);
    assert(paths_view(out@) =~= before + (seq![q@] + walk(ch, c as int, q@, 0) + walk(ch, node as int, base@, k + 1)));
}

/// The outline paths of every headline under the one `path` names,
/// depth first; none when the path names no headline.
pub fn descendant_paths(o: &Outline, path: &Vec<usize>) -> (r: Vec<Vec<usize>>)
    requires
        outline_wf(o),
    ensures
        paths_view(r@) == match resolve(o.roots@, child_lists(o), path@) {
            Some(n) => walk(child_lists(o), n, path@, 0),
            None => Seq::empty(),
        },
{
    let ghost ch = child_lists(o);
    let mut out: Vec<Vec<usize>> = Vec::new();
    assert(paths_view(out@) =~= Seq::<Seq<usize>>::empty());
    if path.len() == 0 || path[0] >= o.roots.len() {
        return out;
    }
    let mut node = o.roots[path[0]];
    let mut i: usize = 1;
    assert(path@.skip(1) =~= path@.drop_first());
    while i < path.len()
        invariant
            outline_wf(o),
            ch == child_lists(o),
            1 <= i <= path.len(),
            node < ch.len(),
            paths_view(out@) == Seq::<Seq<usize>>::empty(),
            resolve(o.roots@, ch, path@) == follow(ch, node as int, path@.skip(i as int)),
        decreases path.len() - i,
    {
        assert(ch[node as int] == o.children@[node as int]@);
        assert(path@.skip(i as int)[0] == path@[i as int]);
        assert(path@.skip(i as int).drop_first() =~= path@.skip(i + 1));
        if path[i] >= o.children[node].len() {
            return out;
        }
        node = o.children[node][path[i]];
        i = i + 1;
    }
    assert(path@.skip(i as int).len() == 0);
    walk_into(o, node, path, 0, &mut out);
    out
}

} // verus!
