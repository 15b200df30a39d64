//! Which files a vault holds and when they need reading again: the
//! `*.org` / `*.org_archive` filter of the directory walk, the
//! classification of watcher events, the incremental reload's plan,
//! and the evaluation backend a code block's language selects.

use crate::error::{VaultError, VaultEventKind};
use crate::form::{fnv1a, fnv1a_bytes};
use crate::keywords::views;
use crate::text::{chars_eq, chars_of, push_str_chars};
use vstd::prelude::*;
use vstd::utf8::encode_utf8;

verus! {

/// A file the vault loads: `*.org`, and `*.org_archive`, org's own
/// archive spelling — leaving those out would make every `id:` link
/// into an archived note dead.
pub open spec fn is_vault_ext(ext: Option<Seq<char>>) -> bool {
    match ext {
        Some(e) => e == "org"@ || e == "org_archive"@,
        None => false,
    }
}

/// Whether a file with this extension is loaded by the vault.
pub fn is_vault_file(ext: Option<&str>) -> (r: bool)
    ensures
        r == is_vault_ext(match ext {
            Some(e) => Some(e@),
            None => None,
        }),
{
    match ext {
        Some(e) => {
            let v = chars_of(e);
            chars_eq(&v, &chars_of("org")) || chars_eq(&v, &chars_of("org_archive"))
        },
        None => false,
    }
}

/// What a file watcher reported, coarsely.
#[derive(Debug, Clone, Copy, PartialEq, Eq)]
pub enum WatchKind {
    /// A file appeared.
    Create,
    /// A file's content or metadata changed.
    Modify,
    /// A file went away.
    Remove,
    /// Anything else (access, other).
    Other,
}

/// The vault event for a watcher report on a file with extension
/// `ext`: only `*.org` files are reported, and only creations,
/// modifications and removals.
pub fn classify_event(ext: Option<&str>, kind: WatchKind) -> (r: Option<VaultEventKind>)
    ensures
        (match ext {
            Some(e) => e@ == "org"@,
            None => false,
        }) ==> match kind {
            WatchKind::Create => r == Some(VaultEventKind::Created),
            WatchKind::Modify => r == Some(VaultEventKind::Modified),
            WatchKind::Remove => r == Some(VaultEventKind::Removed),
            WatchKind::Other => r is None,
        },
        !(match ext {
            Some(e) => e@ == "org"@,
            None => false,
        }) ==> r is None,
{
    let is_org = match ext {
        Some(e) => chars_eq(&chars_of(e), &chars_of("org")),
        None => false,
    };
    if !is_org {
        return None;
    }
    match kind {
        WatchKind::Create => Some(VaultEventKind::Created),
        WatchKind::Modify => Some(VaultEventKind::Modified),
        WatchKind::Remove => Some(VaultEventKind::Removed),
        WatchKind::Other => None,
    }
}

/// What [`needs_reparse`] decides, as a function of its inputs.
pub open spec fn reparse_needed(cached_hash: Option<u64>, src: Seq<char>) -> bool {
    match cached_hash {
        Some(h) => h != fnv1a_bytes(encode_utf8(src)),
        None => true,
    }
}

/// A reload with no changes parses nothing: a file whose text is what
/// the loaded document was hashed from is never parsed again, and a
/// file the vault has not loaded always is.
pub proof fn law_unchanged_files_are_not_reparsed(src: Seq<char>)
    ensures
        !reparse_needed(Some(fnv1a_bytes(encode_utf8(src))), src),
        reparse_needed(None, src),
{
}

/// Whether a file read from disk must be parsed again: it was not
/// loaded, or its text no longer hashes to the loaded document's
/// source hash.
pub fn needs_reparse(cached_hash: Option<u64>, src: &str) -> (r: bool)
    ensures
        r == reparse_needed(cached_hash, src@),
{
    match cached_hash {
        Some(h) => h != fnv1a(src),
        None => true,
    }
}

/// The loaded paths whose files are no longer on disk, in the order
/// they were loaded.
pub open spec fn vanished(loaded: Seq<Seq<char>>, on_disk: Seq<Seq<char>>) -> Seq<Seq<char>> {
    loaded.filter(|p: Seq<char>| !on_disk.contains(p))
}

/// The loaded paths whose files vanished from disk.
pub fn vanished_paths(loaded: &Vec<String>, on_disk: &Vec<String>) -> (r: Vec<String>)
    ensures
        views(r@) == vanished(views(loaded@), views(on_disk@)),
{
    let mut out: Vec<String> = Vec::new();
    let mut i: usize = 0;
    assert(views(loaded@).take(0) =~= Seq::<Seq<char>>::empty());
    assert(views(out@) =~= Seq::<Seq<char>>::empty());
    while i < loaded.len()
        invariant
            i <= loaded.len(),
            views(out@) == vanished(views(loaded@).take(i as int), views(on_disk@)),
        decreases loaded.len() - i,
    {
        let p = chars_of(loaded[i].as_str());
        let mut found = false;
        let mut j: usize = 0;
        while j < on_disk.len()
            invariant
                j <= on_disk.len(),
                p@ == loaded@[i as int]@,
                found == exists|k: int| 0 <= k < j && on_disk@[k]@ == p@,
            decreases on_disk.len() - j,
        {
            let q = chars_of(on_disk[j].as_str());
            if chars_eq(&p, &q) {
                found = true;
            }
            j = j + 1;
        }
        proof {
            let d = views(on_disk@);
            if found {
                let k = choose|k: int| 0 <= k < on_disk@.len() && on_disk@[k]@ == p@;
                assert(d[k] == p@);
                assert(d.contains(p@));
            } else {
                assert forall|k: int| 0 <= k < d.len() implies d[k] != p@ by {
                    assert(d[k] == on_disk@[k]@);
                }
                assert(!d.contains(p@));
            }
            let t = views(loaded@).take(i + 1);
            assert(t.drop_last() =~= views(loaded@).take(i as int));
            assert(t.last() == p@);
            views(loaded@).take(i as int).lemma_filter_push(p@, |x: Seq<char>| !d.contains(x));
            assert(views(loaded@).take(i as int).push(p@) =~= t);
        }
        let ghost before = views(out@);
        if !found {
            out.push(loaded[i].clone());
            assert(views(out@) =~= before.push(p@));
        }
        i = i + 1;
    }
    assert(views(loaded@).take(i as int) =~= views(loaded@));
    out
}

/// The language a code block runs as: the one it names, else `shell`.
pub fn block_language(lang: Option<&str>) -> (r: &str)
    ensures
        r@ == match lang {
            Some(l) => l@,
            None => "shell"@,
        },
{
    match lang {
        Some(l) => l,
        None => "shell",
    }
}

/// An evaluation backend.
#[derive(Debug, Clone, Copy, PartialEq, Eq)]
pub enum Backend {
    /// `sh -c`.
    Shell,
    /// `python3`.
    Python,
}

/// The backend for a block's language: `shell`, `sh` and `bash` run in
/// the shell, `python` in Python; any other language has no backend.
pub fn backend_for(lang: &str) -> (r: Result<Backend, VaultError>)
    ensures
        (lang@ == "shell"@ || lang@ == "sh"@ || lang@ == "bash"@) ==> r == Ok::<Backend, VaultError>(Backend::Shell),
        lang@ == "python"@ ==> r == Ok::<Backend, VaultError>(Backend::Python),
        !(lang@ == "shell"@ || lang@ == "sh"@ || lang@ == "bash"@ || lang@ == "python"@) ==> (r matches Err(
            VaultError::Command(m)) && m@ == "no backend for `"@ + lang@ + "`"@),
{
    let l = chars_of(lang);
    proof {
        reveal_strlit("python");
        reveal_strlit("shell");
        reveal_strlit("sh");
        reveal_strlit("bash");
        assert("python"@.len() == 6);
        assert("shell"@.len() == 5);
        assert("sh"@.len() == 2);
        assert("bash"@.len() == 4);
    }
    if chars_eq(&l, &chars_of("shell")) || chars_eq(&l, &chars_of("sh")) || chars_eq(&l, &chars_of("bash")) {
        Ok(Backend::Shell)
    } else if chars_eq(&l, &chars_of("python")) {
        Ok(Backend::Python)
    } else {
        let mut m = String::new();
        push_str_chars(&mut m, "no backend for `");
        push_str_chars(&mut m, lang);
        push_str_chars(&mut m, "`");
        Err(VaultError::Command(m))
    }
}

/// A file on disk as an incremental reload sees it: its path, the hash
/// of the document the vault holds for it (if any), and its text now.
pub open spec fn disk_view(v: Seq<(String, Option<u64>, String)>) -> Seq<(Seq<char>, Option<u64>, Seq<char>)> {
    v.map_values(|e: (String, Option<u64>, String)| (e.0@, e.1, e.2@))
}

/// The paths, in walk order, of the files an incremental reload parses
/// again: those whose text no longer hashes to what the vault holds,
/// and those it has not loaded.
pub open spec fn to_reparse(files: Seq<(Seq<char>, Option<u64>, Seq<char>)>) -> Seq<Seq<char>>
    decreases files.len(),
{
    if files.len() == 0 {
        Seq::empty()
    } else {
        let (p, h, src) = files.last();
        let rest = to_reparse(files.drop_last());
        if reparse_needed(h, src) {
            rest.push(p)
        } else {
            rest
        }
    }
}

/// What an incremental reload does: parse these files again, drop
/// those, and rebuild the indices when it did either.
#[derive(Debug)]
pub struct ReloadPlan {
    /// Files to parse again, in walk order; their number is what the
    /// reload reports as changed.
    pub reparse: Vec<String>,
    /// Loaded files no longer on disk, in load order.
    pub vanished: Vec<String>,
    /// Whether the indices are rebuilt: something changed or vanished.
    pub rebuild: bool,
}

/// Plan an incremental reload from the files the walk found, in order,
/// and the paths the vault has loaded.
pub fn reload_plan(files: &Vec<(String, Option<u64>, String)>, loaded: &Vec<String>) -> (r: ReloadPlan)
    ensures
        views(r.reparse@) == to_reparse(disk_view(files@)),
        views(r.vanished@) == vanished(views(loaded@), disk_view(files@).map_values(
            |e: (Seq<char>, Option<u64>, Seq<char>)| e.0,
        )),
        r.rebuild == (r.reparse@.len() > 0 || r.vanished@.len() > 0),
{
    let ghost fv = disk_view(files@);
    let mut reparse: Vec<String> = Vec::new();
    let mut on_disk: Vec<String> = Vec::new();
    let mut i: usize = 0;
    assert(fv.take(0) =~= Seq::<(Seq<char>, Option<u64>, Seq<char>)>::empty());
    assert(views(reparse@) =~= Seq::<Seq<char>>::empty());
    assert(views(on_disk@) =~= fv.take(0).map_values(|e: (Seq<char>, Option<u64>, Seq<char>)| e.0));
    while i < files.len()
        invariant
            i <= files.len(),
            fv == disk_view(files@),
            views(reparse@) == to_reparse(fv.take(i as int)),
            views(on_disk@) == fv.take(i as int).map_values(|e: (Seq<char>, Option<u64>, Seq<char>)| e.0),
        decreases files.len() - i,
    {
        assert(fv.take(i + 1).drop_last() =~= fv.take(i as int));
        assert(fv.take(i + 1).last() == fv[i as int]);
        let ghost before = views(reparse@);
        if needs_reparse(files[i].1, files[i].2.as_str()) {
            reparse.push(files[i].0.clone());
            assert(views(reparse@) =~= before.push(fv[i as int].0));
        }
        let ghost od = views(on_disk@);
        on_disk.push(files[i].0.clone());
        assert(views(on_disk@) =~= od.push(fv[i as int].0));
        assert(fv.take(i + 1).map_values(|e: (Seq<char>, Option<u64>, Seq<char>)| e.0) =~= fv.take(i as int).map_values(
            |e: (Seq<char>, Option<u64>, Seq<char>)| e.0,
        ).push(fv[i as int].0));
        i = i + 1;
    }
    assert(fv.take(i as int) =~= fv);
    let gone = vanished_paths(loaded, &on_disk);
    let rebuild = reparse.len() > 0 || gone.len() > 0;
    ReloadPlan { reparse, vanished: gone, rebuild }
}

/// Refuse a vault root that is not there, or that is a file: the walk's
/// own I/O error would name neither the path nor a way out.
pub fn check_root(exists: bool, is_dir: bool, root: std::path::PathBuf) -> (r: Result<std::path::PathBuf, VaultError>)
    ensures
        !exists ==> r == Err::<std::path::PathBuf, VaultError>(VaultError::NoVault { path: root }),
        exists && !is_dir ==> r == Err::<std::path::PathBuf, VaultError>(VaultError::NotADirectory { path: root }),
        exists && is_dir ==> r == Ok::<std::path::PathBuf, VaultError>(root),
{
    if !exists {
        Err(VaultError::NoVault { path: root })
    } else if !is_dir {
        Err(VaultError::NotADirectory { path: root })
    } else {
        Ok(root)
    }
}

/// Whether two paths are equal as `std::path::Path` compares them.
pub uninterp spec fn paths_equal(a: Seq<char>, b: Seq<char>) -> bool;

/// `Path::new(a) == Path::new(b)`: std compares paths by their
/// components, so `d/a.sh`, `d/./a.sh` and `d//a.sh` are one path. The
/// result is [`paths_equal`] of the two texts; the same text is the same
/// path. How components are read is left to the name.
#[verifier::external_body]
fn same_path(a: &str, b: &str) -> (r: bool)
    ensures
        r == paths_equal(a@, b@),
        a@ == b@ ==> r,
{
    std::path::Path::new(a) == std::path::Path::new(b)
}

/// `base.join(target)` on Unix: an absolute target replaces the base;
/// otherwise the target is appended, after a `/` when the base is not
/// empty and does not already end in one.
pub open spec fn joined(base: Seq<char>, target: Seq<char>) -> Seq<char> {
    if target.len() > 0 && target[0] == '/' {
        target
    } else if base.len() > 0 && base.last() != '/' {
        base + "/"@ + target
    } else {
        base + target
    }
}

/// `base.join(target)` on Unix, as text.
pub fn join_path(base: &str, target: &str) -> (r: String)
    ensures
        r@ == joined(base@, target@),
{
    let t = chars_of(target);
    let b = chars_of(base);
    if t.len() > 0 && t[0] == '/' {
        return crate::text::string_of(&t);
    }
    let mut out = crate::text::string_of(&b);
    let n = b.len();
    if n > 0 && b[n - 1] != '/' {
        push_str_chars(&mut out, "/");
    }
    push_str_chars(&mut out, target);
    out
}

/// The first group, from the front, whose path is equal to `t` from
/// position `i` on.
pub open spec fn target_index_from(g: Seq<(Seq<char>, Seq<char>)>, t: Seq<char>, i: int) -> Option<int>
    decreases g.len() - i,
{
    if i < 0 || i >= g.len() {
        None
    } else if paths_equal(g[i].0, t) {
        Some(i)
    } else {
        target_index_from(g, t, i + 1)
    }
}

/// The first group whose path is equal to `t`.
pub open spec fn target_index(g: Seq<(Seq<char>, Seq<char>)>, t: Seq<char>) -> Option<int> {
    target_index_from(g, t, 0)
}

/// Blocks grouped by tangle target: a block joins the first group whose
/// path is equal to its own, else opens a new group; groups keep the path
/// of their first block and the contents of their blocks in source order.
pub open spec fn tangled(blocks: Seq<(Seq<char>, Seq<char>)>) -> Seq<(Seq<char>, Seq<char>)>
    decreases blocks.len(),
{
    if blocks.len() == 0 {
        Seq::empty()
    } else {
        let g = tangled(blocks.drop_last());
        let (t, c) = blocks.last();
        match target_index(g, t) {
            Some(i) => g.update(i, (g[i].0, g[i].1 + c)),
            None => g.push((t, c)),
        }
    }
}

/// A list of string pairs as values.
pub open spec fn pairs_view(v: Seq<(String, String)>) -> Seq<(Seq<char>, Seq<char>)> {
    v.map_values(|e: (String, String)| (e.0@, e.1@))
}

/// Group `(path, content)` code blocks, in source order, into what
/// tangling writes: one file per path, in order of first use, holding
/// the contents of its blocks one after another.
fn group_by_target(blocks: &Vec<(String, String)>) -> (r: Vec<(String, String)>)
    ensures
        pairs_view(r@) == tangled(pairs_view(blocks@)),
{
    let mut out: Vec<(String, String)> = Vec::new();
    let mut i: usize = 0;
    let ghost bv = pairs_view(blocks@);
    assert(bv.take(0) =~= Seq::<(Seq<char>, Seq<char>)>::empty());
    assert(pairs_view(out@) =~= Seq::<(Seq<char>, Seq<char>)>::empty());
    while i < blocks.len()
        invariant
            i <= blocks.len(),
            bv == pairs_view(blocks@),
            pairs_view(out@) == tangled(bv.take(i as int)),
        decreases blocks.len() - i,
    {
        let ghost g = pairs_view(out@);
        let ghost t = bv[i as int].0;
        proof {
            assert(bv.take(i + 1).drop_last() =~= bv.take(i as int));
            assert(bv.take(i + 1).last() == bv[i as int]);
        }
        let mut j: usize = 0;
        while j < out.len() && !same_path(out[j].0.as_str(), blocks[i].0.as_str())
            invariant
                j <= out.len(),
                i < blocks.len(),
                g == pairs_view(out@),
                t == blocks@[i as int].0@,
                target_index(g, t) == target_index_from(g, t, j as int),
            decreases out.len() - j,
        {
            j = j + 1;
        }
        if j < out.len() {
            assert(target_index(g, t) == Some(j as int));
            let mut content = out[j].1.clone();
            push_str_chars(&mut content, blocks[i].1.as_str());
            let key = out[j].0.clone();
            out.set(j, (key, content));
            assert(pairs_view(out@) =~= g.update(j as int, (g[j as int].0, g[j as int].1 + blocks@[i as int].1@)));
        } else {
            assert(target_index(g, t) is None);
            out.push((blocks[i].0.clone(), blocks[i].1.clone()));
            assert(pairs_view(out@) =~= g.push((t, blocks@[i as int].1@)));
        }
        i = i + 1;
    }
    assert(bv.take(i as int) =~= bv);
    out
}

/// A character that can stand in the name of a noweb reference: anything
/// but an angle bracket or a line break.
pub open spec fn is_name_char(c: char) -> bool {
    c != '<' && c != '>' && c != '\n'
}

/// How many characters at the front of `s` can stand in a name.
pub open spec fn name_run(s: Seq<char>) -> nat
    decreases s.len(),
{
    if s.len() > 0 && is_name_char(s[0]) {
        1 + name_run(s.drop_first())
    } else {
        0
    }
}

/// The name of the noweb reference `<<name>>` that `s` starts with, if it
/// starts with one: a non-empty name closed by `>>` on the same line.
pub open spec fn reference_at(s: Seq<char>) -> Option<Seq<char>> {
    if s.len() >= 2 && s[0] == '<' && s[1] == '<' {
        let n = name_run(s.skip(2)) as int;
        if n > 0 && n + 4 <= s.len() && s[n + 2] == '>' && s[n + 3] == '>' {
            Some(s.subrange(2, n + 2))
        } else {
            None
        }
    } else {
        None
    }
}

/// A block body as a reference takes it in: without its final line break.
pub open spec fn without_final_newline(b: Seq<char>) -> Seq<char> {
    if b.len() > 0 && b.last() == '\n' {
        b.drop_last()
    } else {
        b
    }
}

/// The body of the first block called `name`, as a reference takes it in.
pub open spec fn named_body(named: Seq<(Seq<char>, Seq<char>)>, name: Seq<char>) -> Option<Seq<char>>
    decreases named.len(),
{
    if named.len() == 0 {
        None
    } else if named[0].0 == name {
        Some(without_final_newline(named[0].1))
    } else {
        named_body(named.drop_first(), name)
    }
}

/// `Ok(p + x)` for `Ok(x)`; an error stays as it is.
pub open spec fn prepend(p: Seq<char>, r: Result<Seq<char>, Seq<char>>) -> Result<Seq<char>, Seq<char>> {
    match r {
        Ok(x) => Ok(p + x),
        Err(e) => Err(e),
    }
}

/// `s` with each noweb reference `<<name>>` replaced by the body of the
/// block called `name`; or the name of the first reference that names no
/// block. What a reference brings in is not expanded again.
pub open spec fn noweb_expand(s: Seq<char>, named: Seq<(Seq<char>, Seq<char>)>) -> Result<Seq<char>, Seq<char>>
    decreases s.len(),
{
    if s.len() == 0 {
        Ok(Seq::empty())
    } else {
        match reference_at(s) {
            Some(name) => match named_body(named, name) {
                Some(b) => prepend(b, noweb_expand(s.skip(name.len() as int + 4), named)),
                None => Err(name),
            },
            None => prepend(seq![s[0]], noweb_expand(s.drop_first(), named)),
        }
    }
}

/// Every block's target joined to `base` and its content expanded, in
/// order; or the name of the first reference, in source order, that
/// names no block.
pub open spec fn expand_blocks(
    base: Seq<char>,
    blocks: Seq<(Seq<char>, Seq<char>)>,
    named: Seq<(Seq<char>, Seq<char>)>,
) -> Result<Seq<(Seq<char>, Seq<char>)>, Seq<char>>
    decreases blocks.len(),
{
    if blocks.len() == 0 {
        Ok(Seq::empty())
    } else {
        match expand_blocks(base, blocks.drop_last(), named) {
            Err(e) => Err(e),
            Ok(prev) => match noweb_expand(blocks.last().1, named) {
                Ok(x) => Ok(prev.push((joined(base, blocks.last().0), x))),
                Err(e) => Err(e),
            },
        }
    }
}

/// What a tangle that meets a reference to no block says.
pub open spec fn unresolved_message(name: Seq<char>) -> Seq<char> {
    "unresolved noweb reference <<"@ + name + ">>"@
}

proof fn lemma_name_run_step(s: Seq<char>, j: int)
    requires
        0 <= j < s.len(),
        is_name_char(s[j]),
    ensures
        name_run(s.skip(j)) == 1 + name_run(s.skip(j + 1)),
{
    assert(s.skip(j).drop_first() =~= s.skip(j + 1));
}

/// The length of the name of the reference at `v[i..]`, if one starts there.
fn reference_len(v: &Vec<char>, i: usize) -> (r: Option<usize>)
    requires
        i < v.len(),
    ensures
        match r {
            Some(n) => reference_at(v@.skip(i as int)) == Some(v@.subrange(i + 2, i + 2 + n)) && n > 0
                && i + n + 4 <= v.len(),
            None => reference_at(v@.skip(i as int)) is None,
        },
{
    let ghost s = v@.skip(i as int);
    let len = v.len();
    if len - i < 2 || v[i] != '<' || v[i + 1] != '<' {
        return None;
    }
    let mut j: usize = i + 2;
    assert(s.skip(2) =~= v@.skip(i + 2));
    while j < len && v[j] != '<' && v[j] != '>' && v[j] != '\n'
        invariant
            i + 2 <= j <= len,
            len == v.len(),
            s == v@.skip(i as int),
            name_run(s.skip(2)) == (j - (i + 2)) + name_run(v@.skip(j as int)),
            forall|k: int| i + 2 <= k < j ==> is_name_char(#[trigger] v@[k]),
        decreases len - j,
    {
        proof {
            lemma_name_run_step(v@, j as int);
        }
        j = j + 1;
    }
    proof {
        if j < len {
            assert(v@.skip(j as int)[0] == v@[j as int]);
        } else {
            assert(v@.skip(j as int).len() == 0);
        }
        assert(name_run(v@.skip(j as int)) == 0);
    }
    let n = j - (i + 2);
    if n > 0 && len - j >= 2 && v[j] == '>' && v[j + 1] == '>' {
        assert(s.subrange(2, n + 2) =~= v@.subrange(i + 2, i + 2 + n));
        Some(n)
    } else {
        None
    }
}

/// The body of the first block called `name`, as a reference takes it in.
fn lookup_named(named: &Vec<(String, String)>, name: &Vec<char>) -> (r: Option<Vec<char>>)
    ensures
        match r {
            Some(b) => named_body(pairs_view(named@), name@) == Some(b@),
            None => named_body(pairs_view(named@), name@) is None,
        },
{
    let ghost nv = pairs_view(named@);
    let mut k: usize = 0;
    assert(nv.skip(0) =~= nv);
    while k < named.len()
        invariant
            k <= named.len(),
            nv == pairs_view(named@),
            named_body(nv, name@) == named_body(nv.skip(k as int), name@),
        decreases named.len() - k,
    {
        assert(nv.skip(k as int)[0] == nv[k as int]);
        assert(nv.skip(k as int).drop_first() =~= nv.skip(k + 1));
        let key = chars_of(named[k].0.as_str());
        if chars_eq(&key, name) {
            let b = chars_of(named[k].1.as_str());
            let bl = b.len();
            if bl > 0 && b[bl - 1] == '\n' {
                let mut t = b;
                t.pop();
                assert(t@ =~= without_final_newline(nv[k as int].1));
                return Some(t);
            }
            return Some(b);
        }
        k = k + 1;
    }
    assert(nv.skip(k as int).len() == 0);
    None
}

/// Expand the noweb references of one block's content against the named
/// blocks; the error is the name of the first reference to no block.
pub fn expand_noweb(content: &str, named: &Vec<(String, String)>) -> (r: Result<String, Vec<char>>)
    ensures
        match r {
            Ok(x) => noweb_expand(content@, pairs_view(named@)) == Ok::<Seq<char>, Seq<char>>(x@),
            Err(name) => noweb_expand(content@, pairs_view(named@)) == Err::<Seq<char>, Seq<char>>(name@),
        },
{
    let v = chars_of(content);
    let ghost s = v@;
    let ghost nv = pairs_view(named@);
    let mut out = String::new();
    let mut i: usize = 0;
    assert(s.skip(0) =~= s);
    assert(out@ + Seq::<char>::empty() =~= Seq::<char>::empty());
    while i < v.len()
        invariant
            i <= v.len(),
            s == v@,
            s == content@,
            nv == pairs_view(named@),
            noweb_expand(s, nv) == prepend(out@, noweb_expand(s.skip(i as int), nv)),
        decreases v.len() - i,
    {
        let ghost rest = s.skip(i as int);
        assert(rest[0] == v@[i as int]);
        match reference_len(&v, i) {
            Some(n) => {
                let name = crate::text::slice_chars(&v, i + 2, i + 2 + n);
                match lookup_named(named, &name) {
                    Some(b) => {
                        let ghost before = out@;
                        crate::text::push_chars(&mut out, &b);
                        assert(rest.skip(n as int + 4) =~= s.skip(i + n + 4));
                        assert(prepend(before, prepend(b@, noweb_expand(s.skip(i + n + 4), nv)))
                            == prepend(out@, noweb_expand(s.skip(i + n + 4), nv))) by {
                            match noweb_expand(s.skip(i + n + 4), nv) {
                                Ok(x) => assert(before + (b@ + x) =~= out@ + x),
                                Err(e) => {},
                            }
                        }
                        i = i + n + 4;
                    },
                    None => {
                        return Err(name);
                    },
                }
            },
            None => {
                let ghost before = out@;
                crate::text::push_char(&mut out, v[i]);
                assert(rest.drop_first() =~= s.skip(i + 1));
                assert(prepend(before, prepend(seq![v@[i as int]], noweb_expand(s.skip(i + 1), nv)))
                    == prepend(out@, noweb_expand(s.skip(i + 1), nv))) by {
                    match noweb_expand(s.skip(i + 1), nv) {
                        Ok(x) => assert(before + (seq![v@[i as int]] + x) =~= out@ + x),
                        Err(e) => {},
                    }
                }
                i = i + 1;
            },
        }
    }
    assert(s.skip(i as int).len() == 0);
    assert(out@ + Seq::<char>::empty() =~= out@);
    Ok(out)
}

/// Tangle: join each `(target, content)` block's target to `base` (the
/// directory of the file tangled), expand its noweb references against
/// the `(name, content)` named blocks, then group the results by path as
/// [`group_by_target`] does. A reference to no block fails the whole
/// tangle, so that no file is written with it.
pub fn tangle_targets(base: &str, blocks: &Vec<(String, String)>, named: &Vec<(String, String)>) -> (r: Result<
    Vec<(String, String)>,
    VaultError,
>)
    ensures
        match r {
            Ok(v) => (expand_blocks(base@, pairs_view(blocks@), pairs_view(named@)) matches Ok(eb)
                && pairs_view(v@) == tangled(eb)),
            Err(e) => (expand_blocks(base@, pairs_view(blocks@), pairs_view(named@)) matches Err(name)
                && e matches VaultError::Command(m) && m@ == unresolved_message(name)),
        },
{
    let ghost bv = pairs_view(blocks@);
    let ghost nv = pairs_view(named@);
    let mut expanded: Vec<(String, String)> = Vec::new();
    let mut i: usize = 0;
    assert(bv.take(0) =~= Seq::<(Seq<char>, Seq<char>)>::empty());
    assert(pairs_view(expanded@) =~= Seq::<(Seq<char>, Seq<char>)>::empty());
    while i < blocks.len()
        invariant
            i <= blocks.len(),
            bv == pairs_view(blocks@),
            nv == pairs_view(named@),
            expand_blocks(base@, bv.take(i as int), nv) == Ok::<Seq<(Seq<char>, Seq<char>)>, Seq<char>>(
                pairs_view(expanded@),
            ),
        decreases blocks.len() - i,
    {
        proof {
            assert(bv.take(i + 1).drop_last() =~= bv.take(i as int));
            assert(bv.take(i + 1).last() == bv[i as int]);
        }
        match expand_noweb(blocks[i].1.as_str(), named) {
            Ok(x) => {
                let ghost before = pairs_view(expanded@);
                expanded.push((join_path(base, blocks[i].0.as_str()), x));
                assert(pairs_view(expanded@) =~= before.push((joined(base@, bv[i as int].0), x@)));
            },
            Err(name) => {
                proof {
                    lemma_expand_blocks_err(base@, bv, nv, i as int + 1, name@);
                }
                let mut m = String::new();
                push_str_chars(&mut m, "unresolved noweb reference <<");
                crate::text::push_chars(&mut m, &name);
                push_str_chars(&mut m, ">>");
                return Err(VaultError::Command(m));
            },
        }
        i = i + 1;
    }
    assert(bv.take(i as int) =~= bv);
    Ok(group_by_target(&expanded))
}

/// Once a prefix of the blocks fails to expand, so do all the blocks.
proof fn lemma_expand_blocks_err(
    base: Seq<char>,
    bv: Seq<(Seq<char>, Seq<char>)>,
    nv: Seq<(Seq<char>, Seq<char>)>,
    k: int,
    name: Seq<char>,
)
    requires
        0 <= k <= bv.len(),
        expand_blocks(base, bv.take(k), nv) == Err::<Seq<(Seq<char>, Seq<char>)>, Seq<char>>(name),
    ensures
        expand_blocks(base, bv, nv) == Err::<Seq<(Seq<char>, Seq<char>)>, Seq<char>>(name),
    decreases bv.len() - k,
{
    if k < bv.len() {
        assert(bv.take(k + 1).drop_last() =~= bv.take(k));
        lemma_expand_blocks_err(base, bv, nv, k + 1, name);
    } else {
        assert(bv.take(k) =~= bv);
    }
}

} // verus!
