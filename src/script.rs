//! Reading the arguments of script commands such as `kill(1234)` or
//! `guardPort(3000, "node")`.

use vstd::prelude::*;
use crate::lexer::views;
use crate::text::{owned, split, split_on, trim, trimmed};

verus! {

/// Index of the first `c` in `s` (meaningful when `s` holds one).
pub open spec fn first_index(s: Seq<char>, c: char) -> int
    decreases s.len(),
{
    if s.len() == 0 || s[0] == c {
        0
    } else {
        1 + first_index(s.drop_first(), c)
    }
}

/// What stands between the first `(` and the first `)` after it.
pub open spec fn paren_content(s: Seq<char>) -> Option<Seq<char>> {
    if s.contains('(') {
        let rest = s.subrange(first_index(s, '(') + 1, s.len() as int);
        if rest.contains(')') {
            Some(rest.subrange(0, first_index(rest, ')')))
        } else {
            None
        }
    } else {
        None
    }
}

/// What stands between the first `(` and the first `,` after it.
pub open spec fn first_argument(s: Seq<char>) -> Option<Seq<char>> {
    if s.contains('(') {
        let rest = s.subrange(first_index(s, '(') + 1, s.len() as int);
        if rest.contains(',') {
            Some(rest.subrange(0, first_index(rest, ',')))
        } else {
            None
        }
    } else {
        None
    }
}

/// `s` without the double quotes around it, if it has them.
pub open spec fn unquoted(s: Seq<char>) -> Seq<char> {
    if s.len() >= 2 && s[0] == '"' && s.last() == '"' {
        s.subrange(1, s.len() - 1)
    } else {
        s
    }
}

proof fn lemma_first_index(s: Seq<char>, c: char, i: int)
    requires
        0 <= i < s.len(),
        s[i] == c,
        forall|k: int| 0 <= k < i ==> s[k] != c,
    ensures
        first_index(s, c) == i,
    decreases i,
{
    if i > 0 {
        lemma_first_index(s.drop_first(), c, i - 1);
    }
}

fn find_char(s: &str, c: char) -> (r: Option<usize>)
    ensures
        match r {
            Some(i) => s@.contains(c) && i == first_index(s@, c) && i < s@.len(),
            None => !s@.contains(c),
        },
{
    let n = s.unicode_len();
    let mut i: usize = 0;
    while i < n
        invariant
            n == s@.len(),
            i <= n,
            forall|k: int| 0 <= k < i ==> s@[k] != c,
        decreases n - i,
    {
        if s.get_char(i) == c {
            proof {
                lemma_first_index(s@, c, i as int);
            }
            return Some(i);
        }
        i = i + 1;
    }
    None
}

fn between(line: &str, open: char, close: char) -> (r: Option<&str>)
    ensures
        ({
            let s = line@;
            let expect = if s.contains(open) {
                let rest = s.subrange(first_index(s, open) + 1, s.len() as int);
                if rest.contains(close) {
                    Some(rest.subrange(0, first_index(rest, close)))
                } else {
                    None::<Seq<char>>
                }
            } else {
                None::<Seq<char>>
            };
            match r {
                Some(x) => expect == Some(x@),
                None => expect is None,
            }
        }),
{
    let n = line.unicode_len();
    match find_char(line, open) {
        None => None,
        Some(start) => {
            let rest = line.substring_char(start + 1, n);
            match find_char(rest, close) {
                None => None,
                Some(end) => Some(rest.substring_char(0, end)),
            }
        },
    }
}

fn strip_quotes(s: &str) -> (r: &str)
    ensures
        r@ == unquoted(s@),
{
    let n = s.unicode_len();
    if n >= 2 && s.get_char(0) == '"' && s.get_char(n - 1) == '"' {
        s.substring_char(1, n - 1)
    } else {
        s
    }
}

/// The port of `onPort(port, handler)`.
pub fn extract_port_from_onport(line: &str) -> (r: Option<&str>)
    ensures
        match r {
            Some(x) => first_argument(line@) == Some(x@),
            None => first_argument(line@) is None,
        },
{
    between(line, '(', ',')
}

/// The pid of `kill(pid)`.
pub fn extract_pid_from_kill(line: &str) -> (r: Option<&str>)
    ensures
        match r {
            Some(x) => paren_content(line@) == Some(x@),
            None => paren_content(line@) is None,
        },
{
    between(line, '(', ')')
}

/// The port of `clearPort(port)`.
pub fn extract_port_from_clearport(line: &str) -> (r: Option<&str>)
    ensures
        match r {
            Some(x) => paren_content(line@) == Some(x@),
            None => paren_content(line@) is None,
        },
{
    between(line, '(', ')')
}

/// The port of `getProcess(port)`.
pub fn extract_port_from_getprocess(line: &str) -> (r: Option<&str>)
    ensures
        match r {
            Some(x) => paren_content(line@) == Some(x@),
            None => paren_content(line@) is None,
        },
{
    between(line, '(', ')')
}

/// The seconds of `wait(seconds)`.
pub fn extract_seconds_from_wait(line: &str) -> (r: Option<&str>)
    ensures
        match r {
            Some(x) => paren_content(line@) == Some(x@),
            None => paren_content(line@) is None,
        },
{
    between(line, '(', ')')
}

/// The text of `log("message")`, without its quotes.
pub fn extract_message_from_log(line: &str) -> (r: Option<&str>)
    ensures
        match r {
            Some(x) => paren_content(line@) is Some && x@ == unquoted(paren_content(line@)->Some_0),
            None => paren_content(line@) is None,
        },
{
    match between(line, '(', ')') {
        Some(content) => Some(strip_quotes(content)),
        None => None,
    }
}

/// The path of `killFile("path")` or `listFileProcesses("path")`, or the
/// extension of `killFileExt(".ext")`, without quotes.
pub fn extract_quoted_argument(line: &str) -> (r: Option<&str>)
    ensures
        match r {
            Some(x) => paren_content(line@) is Some && x@ == unquoted(paren_content(line@)->Some_0),
            None => paren_content(line@) is None,
        },
{
    extract_message_from_log(line)
}

/// The port and allowed process name of `guardPort(port)` or
/// `guardPort(port, "name")`; with a name, both are trimmed and the name
/// loses its quotes.
pub fn extract_guard_port_params(line: &str) -> (r: Option<(&str, Option<&str>)>)
    ensures
        match r {
            None => paren_content(line@) is None,
            Some((port, name)) => paren_content(line@) is Some && ({
                let c = paren_content(line@)->Some_0;
                if c.contains(',') {
                    &&& port@ == trimmed(c.subrange(0, first_index(c, ',')))
                    &&& name is Some
                    &&& name->Some_0@ == unquoted(trimmed(c.subrange(first_index(c, ',') + 1, c.len() as int)))
                } else {
                    port@ == c && name is None
                }
            }),
        },
{
    match between(line, '(', ')') {
        None => None,
        Some(content) => {
            let n = content.unicode_len();
            match find_char(content, ',') {
                Some(comma) => {
                    let port = trim(content.substring_char(0, comma));
                    let name = strip_quotes(trim(content.substring_char(comma + 1, n)));
                    Some((port, Some(name)))
                },
                None => Some((content, None)),
            }
        },
    }
}

/// The file and allowed process name of `guardFile("path")` or
/// `guardFile("path", "name")`; both lose their quotes, and with a name both
/// are trimmed.
pub fn extract_guard_file_params(line: &str) -> (r: Option<(&str, Option<&str>)>)
    ensures
        match r {
            None => paren_content(line@) is None,
            Some((file, name)) => paren_content(line@) is Some && ({
                let c = paren_content(line@)->Some_0;
                if c.contains(',') {
                    &&& file@ == unquoted(trimmed(c.subrange(0, first_index(c, ','))))
                    &&& name is Some
                    &&& name->Some_0@ == unquoted(trimmed(c.subrange(first_index(c, ',') + 1, c.len() as int)))
                } else {
                    file@ == unquoted(c) && name is None
                }
            }),
        },
{
    match extract_guard_port_params(line) {
        None => None,
        Some((first, None)) => Some((strip_quotes(first), None)),
        Some((first, Some(name))) => Some((strip_quotes(first), Some(name))),
    }
}

/// Whether `s` starts with `p`.
pub open spec fn starts_with(s: Seq<char>, p: Seq<char>) -> bool {
    p.len() <= s.len() && s.subrange(0, p.len() as int) == p
}

/// Whether a trimmed line is skipped: empty, or a `//` or `#` comment.
pub open spec fn skipped_line(t: Seq<char>) -> bool {
    t.len() == 0 || starts_with(t, "//"@) || starts_with(t, "#"@)
}

/// The nonempty trimmed pieces of `parts`, in order.
pub open spec fn kept_pieces(parts: Seq<Seq<char>>) -> Seq<Seq<char>>
    decreases parts.len(),
{
    if parts.len() == 0 {
        Seq::empty()
    } else {
        let prev = kept_pieces(parts.drop_last());
        if trimmed(parts.last()).len() > 0 {
            prev.push(trimmed(parts.last()))
        } else {
            prev
        }
    }
}

/// The statements of the lines `lines`: of each line that is not skipped,
/// its `;`-separated pieces, trimmed, empty ones left out.
pub open spec fn statements_of(lines: Seq<Seq<char>>) -> Seq<Seq<char>>
    decreases lines.len(),
{
    if lines.len() == 0 {
        Seq::empty()
    } else {
        let t = trimmed(lines.last());
        statements_of(lines.drop_last()) + if skipped_line(t) {
            Seq::empty()
        } else {
            kept_pieces(split_on(t, ';'))
        }
    }
}

fn starts_with_exec(s: &str, p: &str) -> (r: bool)
    ensures
        r == starts_with(s@, p@),
{
    let n = s.unicode_len();
    let m = p.unicode_len();
    if m > n {
        return false;
    }
    let mut i: usize = 0;
    while i < m
        invariant
            n == s@.len(),
            m == p@.len(),
            m <= n,
            i <= m,
            forall|k: int| 0 <= k < i ==> s@[k] == p@[k],
        decreases m - i,
    {
        if s.get_char(i) != p.get_char(i) {
            proof {
                assert(s@.subrange(0, m as int)[i as int] != p@[i as int]);
            }
            return false;
        }
        i = i + 1;
    }
    assert(s@.subrange(0, m as int) =~= p@);
    true
}

/// The statements of a script, in order: lines split at line breaks and
/// trimmed, empty and comment lines (`//`, `#`) skipped, the others split
/// at `;`, each piece trimmed and kept when not empty.
pub fn script_statements(script: &str) -> (r: Vec<String>)
    ensures
        views(r@) == statements_of(split_on(script@, '\n')),
{
    let lines = split(script, '\n');
    let mut out: Vec<String> = Vec::new();
    let mut i: usize = 0;
    while i < lines.len()
        invariant
            i <= lines@.len(),
            views(lines@) == split_on(script@, '\n'),
            views(out@) == statements_of(views(lines@).subrange(0, i as int)),
        decreases lines@.len() - i,
    {
        assert(views(lines@).subrange(0, i + 1).drop_last() =~= views(lines@).subrange(0, i as int));
        assert(views(lines@).subrange(0, i + 1).last() == lines@[i as int]@);
        let t = trim(lines[i].as_str());
        let ghost before = views(out@);
        if t.unicode_len() == 0 || starts_with_exec(t, "//") || starts_with_exec(t, "#") {
            assert(views(out@) =~= before + Seq::<Seq<char>>::empty());
        } else {
            let parts = split(t, ';');
            let mut k: usize = 0;
            while k < parts.len()
                invariant
                    k <= parts@.len(),
                    views(parts@) == split_on(t@, ';'),
                    views(out@) == before + kept_pieces(views(parts@).subrange(0, k as int)),
                decreases parts@.len() - k,
            {
                assert(views(parts@).subrange(0, k + 1).drop_last() =~= views(parts@).subrange(0, k as int));
                assert(views(parts@).subrange(0, k + 1).last() == parts@[k as int]@);
                let u = trim(parts[k].as_str());
                if u.unicode_len() > 0 {
                    let ghost mid = views(out@);
                    out.push(owned(u));
                    assert(views(out@) =~= mid.push(u@));
                }
                k = k + 1;
            }
            assert(views(parts@).subrange(0, parts@.len() as int) =~= views(parts@));
        }
        i = i + 1;
    }
    assert(views(lines@).subrange(0, lines@.len() as int) =~= views(lines@));
    out
}

/// The script commands, told apart by how a statement starts.
#[derive(Clone, Copy, PartialEq, Eq, Structural, Debug)]
pub enum CommandKind {
    OnPort,
    Kill,
    ListPorts,
    ClearPort,
    GetProcess,
    Log,
    Wait,
    GuardPort,
    KillFile,
    GuardFile,
    KillFileExt,
    ListFileProcesses,
    Unknown,
}

/// The kind of a statement, by the first matching prefix in this order:
/// `onPort(`, `kill(`, `listPorts(`, `clearPort(`, `getProcess(`, `log(`,
/// `wait(`, `guardPort(`, `killFile(`, `guardFile(`, `killFileExt(`,
/// `listFileProcesses(`.
pub open spec fn kind_of(s: Seq<char>) -> CommandKind {
    if starts_with(s, "onPort("@) { CommandKind::OnPort }
    else if starts_with(s, "kill("@) { CommandKind::Kill }
    else if starts_with(s, "listPorts("@) { CommandKind::ListPorts }
    else if starts_with(s, "clearPort("@) { CommandKind::ClearPort }
    else if starts_with(s, "getProcess("@) { CommandKind::GetProcess }
    else if starts_with(s, "log("@) { CommandKind::Log }
    else if starts_with(s, "wait("@) { CommandKind::Wait }
    else if starts_with(s, "guardPort("@) { CommandKind::GuardPort }
    else if starts_with(s, "killFile("@) { CommandKind::KillFile }
    else if starts_with(s, "guardFile("@) { CommandKind::GuardFile }
    else if starts_with(s, "killFileExt("@) { CommandKind::KillFileExt }
    else if starts_with(s, "listFileProcesses("@) { CommandKind::ListFileProcesses }
    else { CommandKind::Unknown }
}

/// The kind of the statement `s`.
pub fn command_kind(s: &str) -> (r: CommandKind)
    ensures
        r == kind_of(s@),
{
    if starts_with_exec(s, "onPort(") { CommandKind::OnPort }
    else if starts_with_exec(s, "kill(") { CommandKind::Kill }
    else if starts_with_exec(s, "listPorts(") { CommandKind::ListPorts }
    else if starts_with_exec(s, "clearPort(") { CommandKind::ClearPort }
    else if starts_with_exec(s, "getProcess(") { CommandKind::GetProcess }
    else if starts_with_exec(s, "log(") { CommandKind::Log }
    else if starts_with_exec(s, "wait(") { CommandKind::Wait }
    else if starts_with_exec(s, "guardPort(") { CommandKind::GuardPort }
    else if starts_with_exec(s, "killFile(") { CommandKind::KillFile }
    else if starts_with_exec(s, "guardFile(") { CommandKind::GuardFile }
    else if starts_with_exec(s, "killFileExt(") { CommandKind::KillFileExt }
    else if starts_with_exec(s, "listFileProcesses(") { CommandKind::ListFileProcesses }
    else { CommandKind::Unknown }
}

} // verus!
