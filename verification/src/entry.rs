//! Filing text into files: a captured entry appended to its target, a
//! subtree appended to its archive sibling, the guard and re-levelling
//! of a refile, and the keys a link is indexed under.

use crate::error::{CaptureTemplate, VaultError};
use crate::outline::{has_id_line, shift_fits, shift_subtree_levels, shifted_subtree, subtree_contains};
use crate::text::{chars_eq, chars_of, chars_start_with, push_char, push_chars, push_str_chars, slice_chars, starts_with, string_of, trim, trim_chars};
use vstd::prelude::*;

verus! {

/// `s`, ending in a newline unless it is empty.
pub open spec fn line_closed(s: Seq<char>) -> Seq<char> {
    if s.len() > 0 && s.last() != '\n' {
        s.push('\n')
    } else {
        s
    }
}

/// The headline a capture writes: stars, prefix and title, then a
/// property drawer holding the fresh id.
pub open spec fn capture_headline(prefix: Seq<char>, title: Seq<char>, id: Seq<char>) -> Seq<char> {
    "* "@ + prefix + title + "\n:PROPERTIES:\n:ID: "@ + id + "\n:END:\n"@
}

/// The file text after capturing an entry: the old text, closed with a
/// newline, then the headline, then the template body (closed too).
pub open spec fn capture_text(
    existing: Seq<char>,
    prefix: Seq<char>,
    title: Seq<char>,
    id: Seq<char>,
    body: Seq<char>,
) -> Seq<char> {
    line_closed(existing) + capture_headline(prefix, title, id) + line_closed(body)
}

/// Append `v` to `out`, closed with a newline.
fn push_closed(out: &mut String, v: &Vec<char>)
    ensures
        final(out)@ == old(out)@ + line_closed(v@),
{
    push_chars(out, v);
    let n = v.len();
    if n > 0 && v[n - 1] != '\n' {
        push_char(out, '\n');
        assert(old(out)@ + v@ + seq!['\n'] =~= old(out)@ + v@.push('\n'));
    }
}

/// The text of the capture target after a new entry is appended —
/// org-capture. The existing bytes stay an exact prefix of the result.
pub fn capture_entry_text(existing: &str, prefix: &str, title: &str, id: &str, body: &str) -> (r: String)
    ensures
        r@ == capture_text(existing@, prefix@, title@, id@, body@),
        existing@.is_prefix_of(r@),
{
    let mut out = String::new();
    let e = chars_of(existing);
    push_closed(&mut out, &e);
    push_str_chars(&mut out, "* ");
    push_str_chars(&mut out, prefix);
    push_str_chars(&mut out, title);
    push_str_chars(&mut out, "\n:PROPERTIES:\n:ID: ");
    push_str_chars(&mut out, id);
    push_str_chars(&mut out, "\n:END:\n");
    let b = chars_of(body);
    push_closed(&mut out, &b);
    assert(out@ =~= capture_text(existing@, prefix@, title@, id@, body@));
    assert(existing@.is_prefix_of(out@)) by {
        assert(out@.subrange(0, existing@.len() as int) =~= existing@);
    }
    out
}

/// The target's text after capturing `title` with a template: its
/// headline prefix before the title, its body below the drawer.
pub fn template_entry_text(template: &CaptureTemplate, existing: &str, title: &str, id: &str) -> (r: String)
    ensures
        r@ == capture_text(existing@, template.headline_prefix@, title@, id@, template.body@),
        existing@.is_prefix_of(r@),
{
    capture_entry_text(existing, template.headline_prefix.as_str(), title, id, template.body.as_str())
}

/// What a capture with a blank title is refused with.
pub open spec fn blank_title_message() -> Seq<char> {
    "capture title is empty"@
}

/// Capture `title` with a template, refusing a title that is empty or
/// only white space: an entry with no title cannot be seen in the
/// outline. Otherwise the target's text as [`template_entry_text`]
/// gives it.
pub fn capture_text_checked(template: &CaptureTemplate, existing: &str, title: &str, id: &str) -> (r: Result<
    String,
    VaultError,
>)
    ensures
        trim(title@).len() == 0 <==> r is Err,
        match r {
            Ok(s) => s@ == capture_text(existing@, template.headline_prefix@, title@, id@, template.body@)
                && existing@.is_prefix_of(s@),
            Err(e) => e matches VaultError::Command(m) && m@ == blank_title_message(),
        },
{
    let t = trim_chars(&chars_of(title));
    if t.len() == 0 {
        return Err(VaultError::Command("capture title is empty".to_owned()));
    }
    Ok(template_entry_text(template, existing, title, id))
}

/// The name of a file's archive sibling: `notes.org` files into
/// `notes.org_archive`.
pub fn archive_file_name(file_name: &str) -> (r: String)
    ensures
        r@ == file_name@ + "_archive"@,
{
    let mut r = String::new();
    push_str_chars(&mut r, file_name);
    push_str_chars(&mut r, "_archive");
    r
}

/// The archive file's text after a subtree is appended to it; the
/// archive's old text stays an exact prefix.
pub fn archive_text(existing: &str, subtree: &str) -> (r: String)
    ensures
        r@ == line_closed(existing@) + subtree@,
        existing@.is_prefix_of(r@),
{
    let mut out = String::new();
    let e = chars_of(existing);
    push_closed(&mut out, &e);
    push_str_chars(&mut out, subtree);
    assert(existing@.is_prefix_of(out@)) by {
        assert(out@.subrange(0, existing@.len() as int) =~= existing@);
    }
    out
}

/// Refuse a refile of a headline under itself; the lookups of both
/// ends come after this check.
pub fn refile_guard(id: &str, target: &str) -> (r: Result<(), VaultError>)
    ensures
        id@ == target@ ==> (r matches Err(VaultError::Command(m))
            && m@ == "a headline cannot be filed under itself"@),
        id@ != target@ ==> r is Ok,
{
    let a = chars_of(id);
    let b = chars_of(target);
    if chars_eq(&a, &b) {
        Err(VaultError::Command("a headline cannot be filed under itself".to_owned()))
    } else {
        Ok(())
    }
}

/// What a refiled subtree becomes: refused when, in the same file, the
/// target lies inside it — by its place in the outline (the subtree's
/// outline path is a prefix of the target's), or by an `:ID:` line of
/// the target inside the subtree's text — else re-levelled so its root
/// sits one under the target.
pub open spec fn refiled(
    target: Seq<char>,
    same_file: bool,
    subtree: Seq<char>,
    level: int,
    target_level: int,
    source_path: Seq<usize>,
    target_path: Seq<usize>,
) -> Option<Seq<char>> {
    if same_file && (source_path.is_prefix_of(target_path) || has_id_line(subtree, target)) {
        None
    } else {
        Some(shifted_subtree(subtree, target_level + 1 - level))
    }
}

/// A refile within one file is refused exactly when the target lies in
/// the subtree: the subtree's outline path is a prefix of the target's,
/// or the subtree carries the target's `:ID:` line. Any other refile —
/// across files, or to a headline outside the subtree — goes through,
/// with the subtree re-levelled to sit one under its target.
pub proof fn law_refile_refused_only_into_itself(
    target: Seq<char>,
    same_file: bool,
    subtree: Seq<char>,
    level: int,
    target_level: int,
    source_path: Seq<usize>,
    target_path: Seq<usize>,
)
    ensures
        (refiled(target, same_file, subtree, level, target_level, source_path, target_path) is None) == (same_file
            && (source_path.is_prefix_of(target_path) || has_id_line(subtree, target))),
        !(same_file && (source_path.is_prefix_of(target_path) || has_id_line(subtree, target))) ==> refiled(
            target,
            same_file,
            subtree,
            level,
            target_level,
            source_path,
            target_path,
        ) == Some(shifted_subtree(subtree, target_level + 1 - level)),
{
}

/// Whether `a` is a prefix of `b`.
fn is_prefix_exec(a: &Vec<usize>, b: &Vec<usize>) -> (r: bool)
    ensures
        r == a@.is_prefix_of(b@),
{
    if a.len() > b.len() {
        return false;
    }
    let mut i: usize = 0;
    while i < a.len()
        invariant
            a.len() <= b.len(),
            i <= a.len(),
            forall|k: int| 0 <= k < i ==> a@[k] == b@[k],
        decreases a.len() - i,
    {
        if a[i] != b[i] {
            assert(b@.subrange(0, a@.len() as int)[i as int] != a@[i as int]);
            return false;
        }
        i = i + 1;
    }
    assert(b@.subrange(0, a@.len() as int) =~= a@);
    true
}

/// The subtree text a refile splices under `target`: re-levelled by
/// `target_level + 1 - level` stars, and refused when the target lies
/// inside it in the same file — that would file a tree under one of its
/// own branches. Where a headline sits is given by its outline path: its
/// position among its siblings at each level, from the top of the file.
pub fn refiled_subtree(
    target: &str,
    same_file: bool,
    subtree: &str,
    level: u8,
    target_level: u8,
    source_path: &Vec<usize>,
    target_path: &Vec<usize>,
) -> (r: Result<String, VaultError>)
    requires
        target_level < 255,
        target_level + 1 - level != 0 ==> shift_fits(subtree@, target_level + 1 - level),
    ensures
        match refiled(target@, same_file, subtree@, level as int, target_level as int, source_path@, target_path@) {
            Some(s) => r matches Ok(x) && x@ == s,
            None => r matches Err(VaultError::Command(m))
                && m@ == "that target is inside the subtree being filed"@,
        },
{
    if same_file && (is_prefix_exec(source_path, target_path) || subtree_contains(subtree, target)) {
        return Err(VaultError::Command("that target is inside the subtree being filed".to_owned()));
    }
    let delta: i16 = (target_level as i16) + 1 - (level as i16);
    Ok(shift_subtree_levels(subtree, delta))
}

/// `strip_prefix("id:")`.
pub open spec fn strip_id_scheme(link: Seq<char>) -> Option<Seq<char>> {
    if starts_with(link, "id:"@) {
        Some(link.skip(3))
    } else {
        None
    }
}

/// The keys a link target is indexed under for backlinks: the target
/// as written, and for an `id:` link the bare id too, so callers can
/// pass either form.
pub open spec fn link_keys(link: Seq<char>) -> Seq<Seq<char>> {
    match strip_id_scheme(link) {
        Some(bare) => seq![link, bare],
        None => seq![link],
    }
}

/// The keys a link target is indexed under.
pub fn backlink_keys(link: &str) -> (r: Vec<String>)
    ensures
        r@.map_values(|s: String| s@) == link_keys(link@),
{
    let v = chars_of(link);
    let scheme = chars_of("id:");
    proof {
        reveal_strlit("id:");
    }
    let mut r: Vec<String> = Vec::new();
    r.push(string_of(&v));
    if chars_start_with(&v, &scheme) {
        let n = v.len();
        let bare = slice_chars(&v, 3, n);
        assert(bare@ =~= link@.skip(3));
        r.push(string_of(&bare));
    }
    assert(r@.map_values(|s: String| s@) =~= link_keys(link@));
    r
}

/// The block a link points at, for the link graph: an `id:` link names
/// its bare id, any other target is taken as written.
pub fn link_candidate(link: &str) -> (r: String)
    ensures
        r@ == (match strip_id_scheme(link@) {
            Some(bare) => bare,
            None => link@,
        }),
{
    let v = chars_of(link);
    let scheme = chars_of("id:");
    proof {
        reveal_strlit("id:");
    }
    if chars_start_with(&v, &scheme) {
        let n = v.len();
        let bare = slice_chars(&v, 3, n);
        assert(bare@ =~= link@.skip(3));
        string_of(&bare)
    } else {
        string_of(&v)
    }
}

} // verus!
