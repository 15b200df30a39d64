//! One form-encoded command — `cmd=<name>&id=<block>&arg=<value>` —
//! the shared dispatch behind the web `/command` endpoint and journal
//! replay, decided into the vault operation it names.

use crate::error::VaultError;
use crate::form::{form_param, param_value};
use crate::keywords::views;
use crate::text::{spells, chars_eq, chars_of, is_whitespace, is_ws, push_str_chars, slice_chars, string_of};
use vstd::prelude::*;

verus! {

/// Number of leading non-white-space characters of `s`.
pub open spec fn word_len(s: Seq<char>) -> int
    decreases s.len(),
{
    if s.len() == 0 || is_ws(s[0]) {
        0
    } else {
        1 + word_len(s.drop_first())
    }
}

pub proof fn lemma_word_len(s: Seq<char>)
    ensures
        0 <= word_len(s) <= s.len(),
        s.len() > 0 && !is_ws(s[0]) ==> word_len(s) >= 1,
    decreases s.len(),
{
    if s.len() > 0 && !is_ws(s[0]) {
        lemma_word_len(s.drop_first());
    }
}

/// `word_len` is where the first white space sits.
pub proof fn lemma_word_len_at(s: Seq<char>, e: int)
    requires
        0 <= e <= s.len(),
        forall|j: int| 0 <= j < e ==> !is_ws(#[trigger] s[j]),
        e == s.len() || is_ws(s[e]),
    ensures
        word_len(s) == e,
    decreases s.len(),
{
    if e > 0 {
        assert forall|j: int| 0 <= j < e - 1 implies !is_ws(#[trigger] s.drop_first()[j]) by {
            assert(s.drop_first()[j] == s[j + 1]);
        }
        if e < s.len() {
            assert(s.drop_first()[e - 1] == s[e]);
        }
        lemma_word_len_at(s.drop_first(), e - 1);
    }
}

#[via_fn]
proof fn words_decreases(s: Seq<char>) {
    lemma_word_len(s);
}

/// `str::split_whitespace`: the maximal runs of non-white-space
/// characters, in order.
pub open spec fn words(s: Seq<char>) -> Seq<Seq<char>>
    decreases s.len(),
    via words_decreases
{
    if s.len() == 0 {
        Seq::empty()
    } else if is_ws(s[0]) {
        words(s.drop_first())
    } else {
        seq![s.take(word_len(s))] + words(s.skip(word_len(s)))
    }
}

/// `str::split_whitespace`, each word owned.
pub fn split_words(s: &str) -> (r: Vec<String>)
    ensures
        views(r@) == words(s@),
{
    let v = chars_of(s);
    let n = v.len();
    let mut out: Vec<String> = Vec::new();
    let mut i: usize = 0;
    assert(v@.skip(0) =~= v@);
    assert(views(out@) =~= Seq::<Seq<char>>::empty());
    while i < n
        invariant
            i <= n == v.len(),
            v@ == s@,
            words(s@) == views(out@) + words(v@.skip(i as int)),
        decreases n - i,
    {
        let ghost rest = v@.skip(i as int);
        if is_whitespace(v[i]) {
            assert(rest.drop_first() =~= v@.skip(i + 1));
            i = i + 1;
        } else {
            let mut j = i;
            while j < n && !is_whitespace(v[j])
                invariant
                    i <= j <= n == v.len(),
                    forall|k: int| i <= k < j ==> !is_ws(#[trigger] v@[k]),
                decreases n - j,
            {
                j = j + 1;
            }
            proof {
                assert forall|k: int| 0 <= k < j - i implies !is_ws(#[trigger] rest[k]) by {
                    assert(rest[k] == v@[i + k]);
                }
                if j < n {
                    assert(rest[j - i] == v@[j as int]);
                }
                lemma_word_len_at(rest, j - i);
                assert(rest.take(j - i) =~= v@.subrange(i as int, j as int));
                assert(rest.skip(j - i) =~= v@.skip(j as int));
            }
            let w = slice_chars(&v, i, j);
            let ghost before = views(out@);
            out.push(string_of(&w));
            assert(views(out@) =~= before + seq![w@]);
            i = j;
        }
    }
    assert(v@.skip(i as int) =~= Seq::<char>::empty());
    assert(views(out@) + Seq::<Seq<char>>::empty() =~= views(out@));
    out
}

/// The number of white-space separated words in `s` —
/// `split_whitespace().count()`, what the vault's word statistics count.
pub fn word_count(s: &str) -> (r: usize)
    ensures
        r == words(s@).len(),
{
    let w = split_words(s);
    assert(views(w@).len() == w@.len());
    w.len()
}

/// A decided form command: the vault operation it names, on the block
/// `id`.
#[derive(Debug)]
pub enum FormCommand {
    /// `rename`: the new title.
    Rename { id: String, title: String },
    /// `set-todo`: the keyword, `None` to clear it.
    SetTodo { id: String, keyword: Option<String> },
    /// `set-tags`: the white-space separated tags.
    SetTags { id: String, tags: Vec<String> },
    /// `set-body`: the new body.
    SetBody { id: String, body: String },
    /// `add-sibling`: the new sibling's title.
    AddSibling { id: String, title: String },
    /// `remove-subtree` or `delete`.
    RemoveSubtree { id: String },
    /// `toggle-todo`.
    ToggleTodo { id: String },
    /// `promote`.
    Promote { id: String },
    /// `demote`.
    Demote { id: String },
    /// `undo`, in the file that holds `id`.
    Undo { id: String },
    /// `redo`, in the file that holds `id`.
    Redo { id: String },
}

/// A decided form command, as values.
pub enum CommandRequest {
    Rename(Seq<char>, Seq<char>),
    SetTodo(Seq<char>, Option<Seq<char>>),
    SetTags(Seq<char>, Seq<Seq<char>>),
    SetBody(Seq<char>, Seq<char>),
    AddSibling(Seq<char>, Seq<char>),
    RemoveSubtree(Seq<char>),
    ToggleTodo(Seq<char>),
    Promote(Seq<char>),
    Demote(Seq<char>),
    Undo(Seq<char>),
    Redo(Seq<char>),
}

impl View for FormCommand {
    type V = CommandRequest;

    open spec fn view(&self) -> CommandRequest {
        match self {
            FormCommand::Rename { id, title } => CommandRequest::Rename(id@, title@),
            FormCommand::SetTodo { id, keyword } => CommandRequest::SetTodo(
                id@,
                match keyword {
                    Some(k) => Some(k@),
                    None => None,
                },
            ),
            FormCommand::SetTags { id, tags } => CommandRequest::SetTags(id@, views(tags@)),
            FormCommand::SetBody { id, body } => CommandRequest::SetBody(id@, body@),
            FormCommand::AddSibling { id, title } => CommandRequest::AddSibling(id@, title@),
            FormCommand::RemoveSubtree { id } => CommandRequest::RemoveSubtree(id@),
            FormCommand::ToggleTodo { id } => CommandRequest::ToggleTodo(id@),
            FormCommand::Promote { id } => CommandRequest::Promote(id@),
            FormCommand::Demote { id } => CommandRequest::Demote(id@),
            FormCommand::Undo { id } => CommandRequest::Undo(id@),
            FormCommand::Redo { id } => CommandRequest::Redo(id@),
        }
    }
}

/// The operation a `cmd`, `id` and `arg` name; `None` for a command
/// that is not known.
pub open spec fn command_of(cmd: Seq<char>, id: Seq<char>, arg: Seq<char>) -> Option<CommandRequest> {
    if cmd == "rename"@ {
        Some(CommandRequest::Rename(id, arg))
    } else if cmd == "set-todo"@ {
        Some(CommandRequest::SetTodo(id, if arg.len() == 0 { None } else { Some(arg) }))
    } else if cmd == "set-tags"@ {
        Some(CommandRequest::SetTags(id, words(arg)))
    } else if cmd == "set-body"@ {
        Some(CommandRequest::SetBody(id, arg))
    } else if cmd == "add-sibling"@ {
        Some(CommandRequest::AddSibling(id, if arg.len() == 0 { "untitled"@ } else { arg }))
    } else if cmd == "remove-subtree"@ || cmd == "delete"@ {
        Some(CommandRequest::RemoveSubtree(id))
    } else if cmd == "toggle-todo"@ {
        Some(CommandRequest::ToggleTodo(id))
    } else if cmd == "promote"@ {
        Some(CommandRequest::Promote(id))
    } else if cmd == "demote"@ {
        Some(CommandRequest::Demote(id))
    } else if cmd == "undo"@ {
        Some(CommandRequest::Undo(id))
    } else if cmd == "redo"@ {
        Some(CommandRequest::Redo(id))
    } else {
        None
    }
}

/// Each command name of the form wire asks for its own operation on the
/// headline `id`: `rename` renames it to `arg`, `set-body` sets its body,
/// `remove-subtree` and `delete` remove it, `toggle-todo` toggles its
/// keyword, `promote` promotes it (fewer stars), `demote` demotes it,
/// `undo` and `redo` walk its file's history.
pub proof fn law_command_names_their_operations(id: Seq<char>, arg: Seq<char>)
    ensures
        command_of("rename"@, id, arg) == Some(CommandRequest::Rename(id, arg)),
        command_of("set-body"@, id, arg) == Some(CommandRequest::SetBody(id, arg)),
        command_of("remove-subtree"@, id, arg) == Some(CommandRequest::RemoveSubtree(id)),
        command_of("delete"@, id, arg) == Some(CommandRequest::RemoveSubtree(id)),
        command_of("toggle-todo"@, id, arg) == Some(CommandRequest::ToggleTodo(id)),
        command_of("promote"@, id, arg) == Some(CommandRequest::Promote(id)),
        command_of("demote"@, id, arg) == Some(CommandRequest::Demote(id)),
        command_of("undo"@, id, arg) == Some(CommandRequest::Undo(id)),
        command_of("redo"@, id, arg) == Some(CommandRequest::Redo(id)),
        command_of("set-todo"@, id, Seq::empty()) == Some(CommandRequest::SetTodo(id, None)),
        arg.len() > 0 ==> command_of("set-todo"@, id, arg) == Some(CommandRequest::SetTodo(id, Some(arg))),
        command_of("add-sibling"@, id, Seq::empty()) == Some(CommandRequest::AddSibling(id, "untitled"@)),
        arg.len() > 0 ==> command_of("add-sibling"@, id, arg) == Some(CommandRequest::AddSibling(id, arg)),
        command_of("set-tags"@, id, arg) == Some(CommandRequest::SetTags(id, words(arg))),
        command_of("frobnicate"@, id, arg) is None,
{
    reveal_strlit("rename");
    reveal_strlit("set-todo");
    reveal_strlit("set-tags");
    reveal_strlit("set-body");
    reveal_strlit("add-sibling");
    reveal_strlit("remove-subtree");
    reveal_strlit("delete");
    reveal_strlit("toggle-todo");
    reveal_strlit("promote");
    reveal_strlit("demote");
    reveal_strlit("undo");
    reveal_strlit("redo");
    reveal_strlit("frobnicate");
    assert("rename"@ =~= seq!['r', 'e', 'n', 'a', 'm', 'e']);
    assert("set-todo"@ =~= seq!['s', 'e', 't', '-', 't', 'o', 'd', 'o']);
    assert("set-tags"@ =~= seq!['s', 'e', 't', '-', 't', 'a', 'g', 's']);
    assert("set-body"@ =~= seq!['s', 'e', 't', '-', 'b', 'o', 'd', 'y']);
    assert("add-sibling"@ =~= seq!['a', 'd', 'd', '-', 's', 'i', 'b', 'l', 'i', 'n', 'g']);
    assert("remove-subtree"@ =~= seq!['r', 'e', 'm', 'o', 'v', 'e', '-', 's', 'u', 'b', 't', 'r', 'e', 'e']);
    assert("delete"@ =~= seq!['d', 'e', 'l', 'e', 't', 'e']);
    assert("toggle-todo"@ =~= seq!['t', 'o', 'g', 'g', 'l', 'e', '-', 't', 'o', 'd', 'o']);
    assert("promote"@ =~= seq!['p', 'r', 'o', 'm', 'o', 't', 'e']);
    assert("demote"@ =~= seq!['d', 'e', 'm', 'o', 't', 'e']);
    assert("undo"@ =~= seq!['u', 'n', 'd', 'o']);
    assert("redo"@ =~= seq!['r', 'e', 'd', 'o']);
    assert("frobnicate"@ =~= seq!['f', 'r', 'o', 'b', 'n', 'i', 'c', 'a', 't', 'e']);
    assert("set-todo"@[4] != "set-tags"@[4] || "set-todo"@[5] != "set-tags"@[5]);
    assert("set-todo"@[5] != "set-tags"@[5]);
    assert("set-body"@[4] != "set-todo"@[4]);
    assert("set-body"@[4] != "set-tags"@[4]);
    assert("rename"@[2] != "redo"@[2]);
    assert("delete"@[2] != "demote"@[2]);
}

/// A decided command reads as the operation of the same name, on the
/// same headline: a `Promote` is a promotion, a `Demote` a demotion, and
/// so on for every variant.
pub proof fn law_commands_read_as_themselves(c: FormCommand)
    ensures
        (c is Rename) == (c@ is Rename),
        (c is SetTodo) == (c@ is SetTodo),
        (c is SetTags) == (c@ is SetTags),
        (c is SetBody) == (c@ is SetBody),
        (c is AddSibling) == (c@ is AddSibling),
        (c is RemoveSubtree) == (c@ is RemoveSubtree),
        (c is ToggleTodo) == (c@ is ToggleTodo),
        (c is Promote) == (c@ is Promote),
        (c is Demote) == (c@ is Demote),
        (c is Undo) == (c@ is Undo),
        (c is Redo) == (c@ is Redo),
        c matches FormCommand::Promote { id } ==> c@ == CommandRequest::Promote(id@),
        c matches FormCommand::Demote { id } ==> c@ == CommandRequest::Demote(id@),
{
}

/// Decide the operation a decoded `cmd`, `id` and `arg` name. An
/// unknown command is refused with an `unknown command: <cmd>` error.
pub fn form_command(cmd: &str, id: &str, arg: &str) -> (r: Result<FormCommand, VaultError>)
    ensures
        match command_of(cmd@, id@, arg@) {
            Some(c) => r matches Ok(x) && x@ == c,
            None => r matches Err(VaultError::Undo(m)) && m@ == "unknown command: "@ + cmd@,
        },
{
    let c = chars_of(cmd);
    let id_s = string_of(&chars_of(id));
    let arg_v = chars_of(arg);
    let arg_empty = arg_v.len() == 0;
    let arg_s = string_of(&arg_v);
    if spells(&c, "rename") {
        Ok(FormCommand::Rename { id: id_s, title: arg_s })
    } else if spells(&c, "set-todo") {
        let keyword = if arg_empty { None } else { Some(arg_s) };
        Ok(FormCommand::SetTodo { id: id_s, keyword })
    } else if spells(&c, "set-tags") {
        Ok(FormCommand::SetTags { id: id_s, tags: split_words(arg) })
    } else if spells(&c, "set-body") {
        Ok(FormCommand::SetBody { id: id_s, body: arg_s })
    } else if spells(&c, "add-sibling") {
        let title = if arg_empty { string_of(&chars_of("untitled")) } else { arg_s };
        Ok(FormCommand::AddSibling { id: id_s, title })
    } else if spells(&c, "remove-subtree") || spells(&c, "delete") {
        Ok(FormCommand::RemoveSubtree { id: id_s })
    } else if spells(&c, "toggle-todo") {
        Ok(FormCommand::ToggleTodo { id: id_s })
    } else if spells(&c, "promote") {
        Ok(FormCommand::Promote { id: id_s })
    } else if spells(&c, "demote") {
        Ok(FormCommand::Demote { id: id_s })
    } else if spells(&c, "undo") {
        Ok(FormCommand::Undo { id: id_s })
    } else if spells(&c, "redo") {
        Ok(FormCommand::Redo { id: id_s })
    } else {
        let mut m = String::new();
        push_str_chars(&mut m, "unknown command: ");
        push_str_chars(&mut m, cmd);
        Err(VaultError::Undo(m))
    }
}

/// Decode a `cmd=<name>&id=<block>&arg=<value>` form into the
/// operation it names; a missing field reads as empty.
pub fn parse_form_command(form: &str) -> (r: Result<FormCommand, VaultError>)
    ensures
        ({
            let cmd = param_value(form@, "cmd"@);
            match command_of(cmd, param_value(form@, "id"@), param_value(form@, "arg"@)) {
                Some(c) => r matches Ok(x) && x@ == c,
                None => r matches Err(VaultError::Undo(m)) && m@ == "unknown command: "@ + cmd,
            }
        }),
{
    let cmd = form_param(form, "cmd");
    let id = form_param(form, "id");
    let arg = form_param(form, "arg");
    form_command(cmd.as_str(), id.as_str(), arg.as_str())
}

/// The keyword `toggle-todo` sets: none when the headline has one, else
/// `TODO`.
pub fn toggled_todo(current: Option<&str>) -> (r: Option<&'static str>)
    ensures
        current is Some ==> r is None,
        current is None ==> (r matches Some(k) && k@ == "TODO"@),
{
    match current {
        Some(_) => None,
        None => Some("TODO"),
    }
}

} // verus!
