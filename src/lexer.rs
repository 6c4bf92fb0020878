//! Shell-like splitting of command lines into words.
//!
//! Two dialects exist. `parse_command_line` pairs quotes by kind: a `'`
//! inside a `"..."` region is an ordinary character. `split_command` treats
//! every `"` or `'` as a toggle of one quoted region. In both, spaces and
//! tabs outside quotes separate words, quote characters that open or close
//! a region are dropped, and empty words are discarded.

use vstd::prelude::*;
use crate::text::owned;

verus! {

pub open spec fn is_quote(c: char) -> bool {
    c == '"' || c == '\''
}

pub open spec fn is_blank(c: char) -> bool {
    c == ' ' || c == '\t'
}

/// Lexer state after a prefix: finished words, the word being built, and the
/// open quote character, if any.
pub type QuotedLex = (Seq<Seq<char>>, Seq<char>, Option<char>);

pub open spec fn close_word(parts: Seq<Seq<char>>, cur: Seq<char>) -> Seq<Seq<char>> {
    if cur.len() > 0 { parts.push(cur) } else { parts }
}

pub open spec fn quoted_step(st: QuotedLex, c: char) -> QuotedLex {
    if is_quote(c) {
        match st.2 {
            None => (st.0, st.1, Some(c)),
            Some(q) => if q == c { (st.0, st.1, None) } else { (st.0, st.1.push(c), st.2) },
        }
    } else if is_blank(c) && st.2 is None {
        (close_word(st.0, st.1), Seq::empty(), None)
    } else {
        (st.0, st.1.push(c), st.2)
    }
}

pub open spec fn quoted_lex(s: Seq<char>) -> QuotedLex
    decreases s.len(),
{
    if s.len() == 0 {
        (Seq::empty(), Seq::empty(), None)
    } else {
        quoted_step(quoted_lex(s.drop_last()), s.last())
    }
}

/// The words of `s` when quotes pair by kind.
pub open spec fn quoted_words(s: Seq<char>) -> Seq<Seq<char>> {
    close_word(quoted_lex(s).0, quoted_lex(s).1)
}

/// Lexer state of the toggling dialect: finished words, current word, and
/// whether a quoted region is open.
pub type ToggleLex = (Seq<Seq<char>>, Seq<char>, bool);

pub open spec fn toggle_step(st: ToggleLex, c: char) -> ToggleLex {
    if is_quote(c) {
        (st.0, st.1, !st.2)
    } else if is_blank(c) && !st.2 {
        (close_word(st.0, st.1), Seq::empty(), false)
    } else {
        (st.0, st.1.push(c), st.2)
    }
}

pub open spec fn toggle_lex(s: Seq<char>) -> ToggleLex
    decreases s.len(),
{
    if s.len() == 0 {
        (Seq::empty(), Seq::empty(), false)
    } else {
        toggle_step(toggle_lex(s.drop_last()), s.last())
    }
}

/// The words of `s` when every quote character toggles a quoted region.
pub open spec fn toggle_words(s: Seq<char>) -> Seq<Seq<char>> {
    close_word(toggle_lex(s).0, toggle_lex(s).1)
}

pub open spec fn views(v: Seq<String>) -> Seq<Seq<char>> {
    v.map_values(|w: String| w@)
}

proof fn lemma_prefix_step(s: Seq<char>, i: int)
    requires
        0 <= i < s.len(),
    ensures
        s.subrange(0, i + 1).drop_last() == s.subrange(0, i),
        s.subrange(0, i + 1).last() == s[i],
{
    assert(s.subrange(0, i + 1).drop_last() =~= s.subrange(0, i));
}

proof fn lemma_views_push(v: Seq<String>, w: String)
    ensures
        views(v.push(w)) == views(v).push(w@),
{
    assert(views(v.push(w)) =~= views(v).push(w@));
}

/// Splits a command line into words; quotes pair by kind, so
/// `"it's"` yields the word `it's`.
pub fn parse_command_line(command_line: &str) -> (r: Vec<String>)
    ensures
        views(r@) == quoted_words(command_line@),
{
    let n = command_line.unicode_len();
    let mut parts: Vec<String> = Vec::new();
    let mut current = String::new();
    let mut quote: Option<char> = None;
    let mut i: usize = 0;
    while i < n
        invariant
            n == command_line@.len(),
            i <= n,
            (views(parts@), current@, quote) == quoted_lex(command_line@.subrange(0, i as int)),
        decreases n - i,
    {
        let c = command_line.get_char(i);
        proof {
            lemma_prefix_step(command_line@, i as int);
        }
        if c == '"' || c == '\'' {
            match quote {
                None => {
                    quote = Some(c);
                },
                Some(q) => {
                    if q == c {
                        quote = None;
                    } else {
                        current.push(c);
                    }
                },
            }
        } else if (c == ' ' || c == '\t') && quote.is_none() {
            if current.as_str().unicode_len() > 0 {
                proof {
                    lemma_views_push(parts@, current);
                }
                parts.push(current);
                current = String::new();
            }
        } else {
            current.push(c);
        }
        i = i + 1;
    }
    proof {
        assert(command_line@.subrange(0, n as int) == command_line@);
    }
    if current.as_str().unicode_len() > 0 {
        proof {
            lemma_views_push(parts@, current);
        }
        parts.push(current);
    }
    parts
}

/// Splits a command line into words; every `"` or `'` opens or closes a
/// quoted region, whatever the kind of the quote that opened it.
pub fn split_command(command: &str) -> (r: Vec<String>)
    ensures
        views(r@) == toggle_words(command@),
{
    let n = command.unicode_len();
    let mut parts: Vec<String> = Vec::new();
    let mut current = String::new();
    let mut in_quotes = false;
    let mut i: usize = 0;
    while i < n
        invariant
            n == command@.len(),
            i <= n,
            (views(parts@), current@, in_quotes) == toggle_lex(command@.subrange(0, i as int)),
        decreases n - i,
    {
        let c = command.get_char(i);
        proof {
            lemma_prefix_step(command@, i as int);
        }
        if c == '"' || c == '\'' {
            in_quotes = !in_quotes;
        } else if (c == ' ' || c == '\t') && !in_quotes {
            if current.as_str().unicode_len() > 0 {
                proof {
                    lemma_views_push(parts@, current);
                }
                parts.push(current);
                current = String::new();
            }
        } else {
            current.push(c);
        }
        i = i + 1;
    }
    proof {
        assert(command@.subrange(0, n as int) == command@);
    }
    if current.as_str().unicode_len() > 0 {
        proof {
            lemma_views_push(parts@, current);
        }
        parts.push(current);
    }
    parts
}

} // verus!
