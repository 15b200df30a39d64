//! The LLM-facing tool line: `list-files`, `read <file>`,
//! `search <text>`, `capture <title>`, `rename <id> <title>`,
//! `set-property <id> <key> <value>` and `view-state`. A line is parsed
//! into a request; a vault answers it; the answer is text, and a
//! failure comes back as `ERROR …` text, never a panic.

use crate::error::{message_is, VaultError};
use crate::civil::{decimal, decimal_chars};
use crate::keywords::{join, views};
use crate::text::{spells, 
    chars_eq, chars_of, contains_sub, find_sub_exec, push_str_chars, split_once, split_once_chars, string_of,
    trim, trim_chars,
};
use vstd::prelude::*;

verus! {

/// The tool list every refusal repeats.
pub open spec fn help_text() -> Seq<char> {
    "available tools: list-files | read <file> | search <text> | capture <title> | rename <id> <title> | set-property <id> <key> <value>"@
}

/// The tool list every refusal repeats.
pub fn tool_help() -> (r: &'static str)
    ensures
        r@ == help_text(),
{
    "available tools: list-files | read <file> | search <text> | capture <title> | rename <id> <title> | set-property <id> <key> <value>"
}

/// A parsed tool line.
#[derive(Debug)]
pub enum ToolCall {
    /// `view-state`: a snapshot of the vault.
    ViewState,
    /// `list-files`.
    ListFiles,
    /// `read <file>`.
    Read(String),
    /// `search <text>`.
    Search(String),
    /// `capture <title>` (a non-empty title).
    Capture(String),
    /// `rename <id> <title>`.
    Rename(String, String),
    /// `set-property <id> <key> <value>`.
    SetProperty(String, String, String),
    /// A line that is answered without the vault: the reply text.
    Refused(String),
}

/// A parsed tool line, as values.
pub enum ToolRequest {
    ViewState,
    ListFiles,
    Read(Seq<char>),
    Search(Seq<char>),
    Capture(Seq<char>),
    Rename(Seq<char>, Seq<char>),
    SetProperty(Seq<char>, Seq<char>, Seq<char>),
    Refused(Seq<char>),
}

impl View for ToolCall {
    type V = ToolRequest;

    open spec fn view(&self) -> ToolRequest {
        match self {
            ToolCall::ViewState => ToolRequest::ViewState,
            ToolCall::ListFiles => ToolRequest::ListFiles,
            ToolCall::Read(s) => ToolRequest::Read(s@),
            ToolCall::Search(s) => ToolRequest::Search(s@),
            ToolCall::Capture(s) => ToolRequest::Capture(s@),
            ToolCall::Rename(a, b) => ToolRequest::Rename(a@, b@),
            ToolCall::SetProperty(a, b, c) => ToolRequest::SetProperty(a@, b@, c@),
            ToolCall::Refused(s) => ToolRequest::Refused(s@),
        }
    }
}

/// The tool name and its trimmed argument text.
pub open spec fn tool_parts(line: Seq<char>) -> (Seq<char>, Seq<char>) {
    let l = trim(line);
    match split_once(l, ' ') {
        Some((t, r)) => (t, trim(r)),
        None => (l, Seq::empty()),
    }
}

/// What a tool line asks for.
pub open spec fn parse_tool(line: Seq<char>) -> ToolRequest {
    let (tool, rest) = tool_parts(line);
    if tool == "view-state"@ {
        ToolRequest::ViewState
    } else if tool == "list-files"@ {
        ToolRequest::ListFiles
    } else if tool == "read"@ {
        ToolRequest::Read(rest)
    } else if tool == "search"@ {
        ToolRequest::Search(rest)
    } else if tool == "capture"@ && rest.len() > 0 {
        ToolRequest::Capture(rest)
    } else if tool == "rename"@ {
        match split_once(rest, ' ') {
            Some((id, title)) => ToolRequest::Rename(id, trim(title)),
            None => ToolRequest::Refused("ERROR rename needs <id> <title>; "@ + help_text()),
        }
    } else if tool == "set-property"@ {
        match split_once(rest, ' ') {
            Some((id, r1)) => match split_once(r1, ' ') {
                Some((key, value)) => ToolRequest::SetProperty(id, key, value),
                None => ToolRequest::Refused("ERROR set-property needs <id> <key> <value>; "@ + help_text()),
            },
            None => ToolRequest::Refused("ERROR set-property needs <id> <key> <value>; "@ + help_text()),
        }
    } else {
        ToolRequest::Refused("ERROR unknown tool `"@ + tool + "`; "@ + help_text())
    }
}

/// Parse one tool line. An unknown tool, `capture` without a title and
/// a `rename` or `set-property` short of arguments come back as
/// [`ToolCall::Refused`] carrying the reply.
pub fn parse_tool_line(line: &str) -> (r: ToolCall)
    ensures
        r@ == parse_tool(line@),
{
    let v = chars_of(line);
    let l = trim_chars(&v);
    let (tool, rest) = match split_once_chars(&l, ' ') {
        Some((t, r)) => (t, trim_chars(&r)),
        None => (l, Vec::new()),
    };
    assert((tool@, rest@) == tool_parts(line@));
    let mut refusal = String::new();
    if spells(&tool, "view-state") {
        ToolCall::ViewState
    } else if spells(&tool, "list-files") {
        ToolCall::ListFiles
    } else if spells(&tool, "read") {
        ToolCall::Read(string_of(&rest))
    } else if spells(&tool, "search") {
        ToolCall::Search(string_of(&rest))
    } else if spells(&tool, "capture") && rest.len() > 0 {
        ToolCall::Capture(string_of(&rest))
    } else if spells(&tool, "rename") {
        match split_once_chars(&rest, ' ') {
            Some((id, title)) => ToolCall::Rename(string_of(&id), string_of(&trim_chars(&title))),
            None => {
                push_str_chars(&mut refusal, "ERROR rename needs <id> <title>; ");
                push_str_chars(&mut refusal, tool_help());
                ToolCall::Refused(refusal)
            },
        }
    } else if spells(&tool, "set-property") {
        let parts = match split_once_chars(&rest, ' ') {
            Some((id, r1)) => match split_once_chars(&r1, ' ') {
                Some((key, value)) => Some((id, key, value)),
                None => None,
            },
            None => None,
        };
        match parts {
            Some((id, key, value)) => ToolCall::SetProperty(string_of(&id), string_of(&key), string_of(&value)),
            None => {
                push_str_chars(&mut refusal, "ERROR set-property needs <id> <key> <value>; ");
                push_str_chars(&mut refusal, tool_help());
                ToolCall::Refused(refusal)
            },
        }
    } else {
        push_str_chars(&mut refusal, "ERROR unknown tool `");
        push_str_chars(&mut refusal, string_of(&tool).as_str());
        push_str_chars(&mut refusal, "`; ");
        push_str_chars(&mut refusal, tool_help());
        ToolCall::Refused(refusal)
    }
}

/// The items of `xs` joined by `sep`, or `(none)` when there are none.
pub open spec fn listed(xs: Seq<Seq<char>>, sep: Seq<char>) -> Seq<char> {
    if xs.len() == 0 {
        "(none)"@
    } else {
        join(xs, sep)
    }
}

/// `xs` joined by `sep`.
pub fn join_strings(xs: &Vec<String>, sep: &str) -> (r: String)
    ensures
        r@ == join(views(xs@), sep@),
{
    let mut out = String::new();
    let mut i: usize = 0;
    assert(views(xs@).take(0) =~= Seq::<Seq<char>>::empty());
    while i < xs.len()
        invariant
            i <= xs.len(),
            out@ == join(views(xs@).take(i as int), sep@),
        decreases xs.len() - i,
    {
        let ghost before = out@;
        if i > 0 {
            push_str_chars(&mut out, sep);
        }
        push_str_chars(&mut out, xs[i].as_str());
        proof {
            let t = views(xs@).take(i + 1);
            assert(t.drop_last() =~= views(xs@).take(i as int));
            assert(t.last() == xs@[i as int]@);
            if i == 0 {
                assert(t.len() == 1);
                assert(join(t, sep@) == t[0]);
                assert(before =~= Seq::<char>::empty());
            }
        }
        i = i + 1;
    }
    assert(views(xs@).take(i as int) =~= views(xs@));
    out
}

/// The `view-state` reply: file and headline counts, the TODO
/// keywords and the tags in use, `(none)` for an empty list.
pub open spec fn view_state(files: nat, headlines: nat, todos: Seq<Seq<char>>, tags: Seq<Seq<char>>) -> Seq<char> {
    "vault snapshot:\nfiles: "@ + decimal(files) + "\nheadlines: "@ + decimal(headlines)
        + "\nTODO keywords: "@ + listed(todos, ", "@) + "\ntags: "@ + listed(tags, ", "@)
}

/// The `view-state` reply.
pub fn view_state_text(files: u64, headlines: u64, todos: &Vec<String>, tags: &Vec<String>) -> (r: String)
    ensures
        r@ == view_state(files as nat, headlines as nat, views(todos@), views(tags@)),
{
    let mut out = String::new();
    push_str_chars(&mut out, "vault snapshot:\nfiles: ");
    push_str_chars(&mut out, string_of(&decimal_chars(files)).as_str());
    push_str_chars(&mut out, "\nheadlines: ");
    push_str_chars(&mut out, string_of(&decimal_chars(headlines)).as_str());
    push_str_chars(&mut out, "\nTODO keywords: ");
    if todos.len() == 0 {
        push_str_chars(&mut out, "(none)");
    } else {
        push_str_chars(&mut out, join_strings(todos, ", ").as_str());
    }
    push_str_chars(&mut out, "\ntags: ");
    if tags.len() == 0 {
        push_str_chars(&mut out, "(none)");
    } else {
        push_str_chars(&mut out, join_strings(tags, ", ").as_str());
    }
    out
}

/// The `read` reply when no such file is loaded.
pub fn no_such_file_reply(rest: &str) -> (r: String)
    ensures
        r@ == "ERROR no such file: "@ + rest@,
{
    let mut out = String::new();
    push_str_chars(&mut out, "ERROR no such file: ");
    push_str_chars(&mut out, rest);
    out
}

/// One `search` hit: id, title and file, tab-separated, one per line.
pub fn search_hit_line(id: &str, title: &str, path: &str) -> (r: String)
    ensures
        r@ == id@ + "\t"@ + title@ + "\t"@ + path@ + "\n"@,
{
    let mut out = String::new();
    push_str_chars(&mut out, id);
    push_str_chars(&mut out, "\t");
    push_str_chars(&mut out, title);
    push_str_chars(&mut out, "\t");
    push_str_chars(&mut out, path);
    push_str_chars(&mut out, "\n");
    out
}

/// The reply to a vault operation: `OK <what>` when it went through,
/// `ERROR <message>` when it failed.
pub fn outcome_reply(ok: &str, outcome: &Result<(), VaultError>) -> (r: String)
    ensures
        match outcome {
            Ok(_) => r@ == "OK "@ + ok@,
            Err(e) => exists|m: Seq<char>| r@ == "ERROR "@ + m && message_is(*e, m),
        },
{
    let mut out = String::new();
    match outcome {
        Ok(_) => {
            push_str_chars(&mut out, "OK ");
            push_str_chars(&mut out, ok);
        },
        Err(e) => {
            push_str_chars(&mut out, "ERROR ");
            push_str_chars(&mut out, e.message().as_str());
        },
    }
    out
}

/// `str::to_lowercase`: the full Unicode lower-case mapping, a function
/// of the text alone.
pub uninterp spec fn lowercase(s: Seq<char>) -> Seq<char>;

/// `str::to_lowercase`, whose result is named by [`lowercase`].
#[verifier::external_body]
fn to_lowercase_text(s: &str) -> (r: String)
    ensures
        r@ == lowercase(s@),
{
    s.to_lowercase()
}

/// Whether a headline title matches a `search` needle: the needle,
/// lower-cased, occurs in the lower-cased title.
pub fn title_matches(title: &str, needle: &str) -> (r: bool)
    ensures
        r == contains_sub(lowercase(title@), lowercase(needle@)),
{
    let t = to_lowercase_text(title);
    let n = to_lowercase_text(needle);
    let tv = chars_of(t.as_str());
    let nv = chars_of(n.as_str());
    match find_sub_exec(&tv, &nv) {
        Some(_) => true,
        None => false,
    }
}


/// One `search` hit: id, title and path, tab-separated, on a line.
pub open spec fn hit_line(id: Seq<char>, title: Seq<char>, path: Seq<char>) -> Seq<char> {
    id + "\t"@ + title + "\t"@ + path + "\n"@
}

/// The `search` reply over `(id, title, path)` rows in vault order: a hit
/// line for each row whose lower-cased title holds the lower-cased needle.
pub open spec fn search_text(rows: Seq<(Seq<char>, Seq<char>, Seq<char>)>, needle: Seq<char>) -> Seq<char>
    decreases rows.len(),
{
    if rows.len() == 0 {
        Seq::empty()
    } else {
        let (id, title, path) = rows.last();
        search_text(rows.drop_last(), needle) + if contains_sub(lowercase(title), lowercase(needle)) {
            hit_line(id, title, path)
        } else {
            Seq::empty()
        }
    }
}

/// The rows as values.
pub open spec fn rows_view(v: Seq<(String, String, String)>) -> Seq<(Seq<char>, Seq<char>, Seq<char>)> {
    v.map_values(|e: (String, String, String)| (e.0@, e.1@, e.2@))
}

/// The `search` tool's reply: every headline, given as `(id, title,
/// path)` rows in vault order, whose title matches the needle, one hit
/// line each; empty when nothing matches.
pub fn search_reply(rows: &Vec<(String, String, String)>, needle: &str) -> (r: String)
    ensures
        r@ == search_text(rows_view(rows@), needle@),
{
    let ghost rv = rows_view(rows@);
    let mut out = String::new();
    let mut i: usize = 0;
    assert(rv.take(0) =~= Seq::<(Seq<char>, Seq<char>, Seq<char>)>::empty());
    while i < rows.len()
        invariant
            i <= rows.len(),
            rv == rows_view(rows@),
            out@ == search_text(rv.take(i as int), needle@),
        decreases rows.len() - i,
    {
        assert(rv.take(i + 1).drop_last() =~= rv.take(i as int));
        assert(rv.take(i + 1).last() == rv[i as int]);
        let ghost before = out@;
        if title_matches(rows[i].1.as_str(), needle) {
            let line = search_hit_line(rows[i].0.as_str(), rows[i].1.as_str(), rows[i].2.as_str());
            push_str_chars(&mut out, line.as_str());
        } else {
            assert(before + Seq::<char>::empty() =~= before);
        }
        i = i + 1;
    }
    assert(rv.take(i as int) =~= rv);
    out
}

} // verus!
