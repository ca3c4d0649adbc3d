//! The mathematical model of the splitter: recursive spec functions over a
//! sequence of characters, each returning the emitted characters together
//! with the position just past what was consumed.

use vstd::prelude::*;

verus! {

/// An error that can occur when splitting a string.
///
/// An input string is erroneous if it ends while inside a quotation or right
/// after an unescaped backslash.
#[derive(Debug, PartialEq, Eq, Structural, Clone, Copy)]
pub enum Error {
    /// The input string ends with an unescaped backslash.
    EndOfStringBackslash,
    /// The input string has an unmatched `"`.
    UnclosedDoubleQuote,
    /// The input string has an unmatched `'`.
    UnclosedSingleQuote,
}

/// Whitespace that separates words: space, tab, newline.
pub open spec fn is_space(c: char) -> bool {
    c == ' ' || c == '\t' || c == '\n'
}

/// Characters that force a word to be quoted.
pub open spec fn is_metachar(c: char) -> bool {
    ||| c == '|' ||| c == '&' ||| c == ';' ||| c == '<' ||| c == '>'
    ||| c == '(' ||| c == ')' ||| c == '$' ||| c == '`' ||| c == '\\'
    ||| c == '"' ||| c == '\'' ||| c == ' ' ||| c == '\t' ||| c == '\r'
    ||| c == '\n' ||| c == '*' ||| c == '?' ||| c == '[' ||| c == '#'
    ||| c == '~' ||| c == '=' ||| c == '%'
}

/// Characters that receive an individual backslash inside a double-quoted
/// rendering, and whose backslash escape is recognized inside double quotes.
pub open spec fn needs_backslash(c: char) -> bool {
    c == '$' || c == '`' || c == '"' || c == '\\'
}

/// Number of newline characters among the first `n` characters of `s`.
pub open spec fn newlines_up_to(s: Seq<char>, n: int) -> int
    decreases n,
{
    if n <= 0 {
        0
    } else {
        newlines_up_to(s, n - 1) + if s[n - 1] == '\n' { 1int } else { 0int }
    }
}

pub proof fn lemma_newlines_bound(s: Seq<char>, n: int)
    requires
        0 <= n,
    ensures
        0 <= newlines_up_to(s, n) <= n,
    decreases n,
{
    if n > 0 {
        lemma_newlines_bound(s, n - 1);
    }
}

/// Position reached after skipping inter-word whitespace and comments,
/// starting at `i`. A comment runs from `#` to (and including) the next
/// newline. `in_comment` says whether position `i` lies inside a comment.
pub open spec fn spec_skip(s: Seq<char>, i: int, in_comment: bool) -> int
    decreases s.len() - i,
{
    if i >= s.len() {
        i
    } else if in_comment {
        spec_skip(s, i + 1, s[i] != '\n')
    } else if is_space(s[i]) {
        spec_skip(s, i + 1, false)
    } else if s[i] == '#' {
        spec_skip(s, i + 1, true)
    } else {
        i
    }
}

pub proof fn lemma_skip_bounds(s: Seq<char>, i: int, in_comment: bool)
    ensures
        i <= spec_skip(s, i, in_comment),
        i <= s.len() ==> spec_skip(s, i, in_comment) <= s.len(),
    decreases s.len() - i,
{
    if i < s.len() {
        if in_comment {
            lemma_skip_bounds(s, i + 1, s[i] != '\n');
        } else if is_space(s[i]) {
            lemma_skip_bounds(s, i + 1, false);
        } else if s[i] == '#' {
            lemma_skip_bounds(s, i + 1, true);
        }
    }
}

/// What a double-quoted span starting at `i` (just past the opening `"`)
/// emits, and the position just past the closing `"`.
pub open spec fn spec_parse_double(s: Seq<char>, i: int) -> Result<(Seq<char>, int), Error>
    decreases s.len() - i,
{
    if i >= s.len() {
        Err(Error::UnclosedDoubleQuote)
    } else if s[i] == '"' {
        Ok((Seq::empty(), i + 1))
    } else if s[i] == '\\' {
        if i + 1 >= s.len() {
            Err(Error::EndOfStringBackslash)
        } else {
            let c = s[i + 1];
            let piece = if needs_backslash(c) {
                seq![c]
            } else if c == '\n' {
                Seq::<char>::empty()
            } else {
                seq!['\\', c]
            };
            match spec_parse_double(s, i + 2) {
                Ok(p) => Ok((piece + p.0, p.1)),
                Err(e) => Err(e),
            }
        }
    } else {
        match spec_parse_double(s, i + 1) {
            Ok(p) => Ok((seq![s[i]] + p.0, p.1)),
            Err(e) => Err(e),
        }
    }
}

pub proof fn lemma_parse_double_bounds(s: Seq<char>, i: int)
    ensures
        spec_parse_double(s, i) matches Ok(p) ==> i < p.1 <= s.len(),
    decreases s.len() - i,
{
    if i < s.len() {
        if s[i] == '\\' {
            if i + 1 < s.len() {
                lemma_parse_double_bounds(s, i + 2);
            }
        } else if s[i] != '"' {
            lemma_parse_double_bounds(s, i + 1);
        }
    }
}

/// What a single-quoted span starting at `i` (just past the opening `'`)
/// emits, and the position just past the closing `'`. Only `\'` and `\\`
/// are recognized escapes; any other `\x` keeps the backslash.
pub open spec fn spec_parse_single(s: Seq<char>, i: int) -> Result<(Seq<char>, int), Error>
    decreases s.len() - i,
{
    if i >= s.len() {
        Err(Error::UnclosedSingleQuote)
    } else if s[i] == '\'' {
        Ok((Seq::empty(), i + 1))
    } else if s[i] == '\\' {
        if i + 1 >= s.len() {
            Err(Error::EndOfStringBackslash)
        } else {
            let c = s[i + 1];
            let piece = if c == '\'' || c == '\\' {
                seq![c]
            } else {
                seq!['\\', c]
            };
            match spec_parse_single(s, i + 2) {
                Ok(p) => Ok((piece + p.0, p.1)),
                Err(e) => Err(e),
            }
        }
    } else {
        match spec_parse_single(s, i + 1) {
            Ok(p) => Ok((seq![s[i]] + p.0, p.1)),
            Err(e) => Err(e),
        }
    }
}

pub proof fn lemma_parse_single_bounds(s: Seq<char>, i: int)
    ensures
        spec_parse_single(s, i) matches Ok(p) ==> i < p.1 <= s.len(),
    decreases s.len() - i,
{
    if i < s.len() {
        if s[i] == '\\' {
            if i + 1 < s.len() {
                lemma_parse_single_bounds(s, i + 2);
            }
        } else if s[i] != '\'' {
            lemma_parse_single_bounds(s, i + 1);
        }
    }
}

/// What the word whose first character stands at `i` consists of, and the
/// position just past the word, its terminating delimiter included. At end
/// of input the word simply ends; a delimiter is consumed but not emitted.
pub open spec fn spec_parse_word(s: Seq<char>, i: int) -> Result<(Seq<char>, int), Error>
    decreases s.len() - i,
{
    if i >= s.len() {
        Ok((Seq::empty(), i))
    } else if s[i] == '"' {
        match spec_parse_double(s, i + 1) {
            Ok(p) => {
                proof {
                    lemma_parse_double_bounds(s, i + 1);
                }
                match spec_parse_word(s, p.1) {
                    Ok(q) => Ok((p.0 + q.0, q.1)),
                    Err(e) => Err(e),
                }
            },
            Err(e) => Err(e),
        }
    } else if s[i] == '\'' {
        match spec_parse_single(s, i + 1) {
            Ok(p) => {
                proof {
                    lemma_parse_single_bounds(s, i + 1);
                }
                match spec_parse_word(s, p.1) {
                    Ok(q) => Ok((p.0 + q.0, q.1)),
                    Err(e) => Err(e),
                }
            },
            Err(e) => Err(e),
        }
    } else if s[i] == '\\' {
        if i + 1 >= s.len() {
            Err(Error::EndOfStringBackslash)
        } else {
            let piece = if s[i + 1] == '\n' {
                Seq::<char>::empty()
            } else {
                seq![s[i + 1]]
            };
            match spec_parse_word(s, i + 2) {
                Ok(q) => Ok((piece + q.0, q.1)),
                Err(e) => Err(e),
            }
        }
    } else if is_space(s[i]) {
        Ok((Seq::empty(), i + 1))
    } else {
        match spec_parse_word(s, i + 1) {
            Ok(q) => Ok((seq![s[i]] + q.0, q.1)),
            Err(e) => Err(e),
        }
    }
}

pub proof fn lemma_parse_word_bounds(s: Seq<char>, i: int)
    ensures
        spec_parse_word(s, i) matches Ok(q) ==> i <= q.1,
        i <= s.len() ==> (spec_parse_word(s, i) matches Ok(q) ==> q.1 <= s.len()),
        i < s.len() ==> (spec_parse_word(s, i) matches Ok(q) ==> i < q.1),
    decreases s.len() - i,
{
    if i < s.len() {
        if s[i] == '"' {
            lemma_parse_double_bounds(s, i + 1);
            if let Ok(p) = spec_parse_double(s, i + 1) {
                lemma_parse_word_bounds(s, p.1);
            }
        } else if s[i] == '\'' {
            lemma_parse_single_bounds(s, i + 1);
            if let Ok(p) = spec_parse_single(s, i + 1) {
                lemma_parse_word_bounds(s, p.1);
            }
        } else if s[i] == '\\' {
            if i + 1 < s.len() {
                lemma_parse_word_bounds(s, i + 2);
            }
        } else if !is_space(s[i]) {
            lemma_parse_word_bounds(s, i + 1);
        }
    }
}

/// A parse outcome with `pre` prepended to its emitted characters.
pub open spec fn rcomp(pre: Seq<char>, r: Result<(Seq<char>, int), Error>) -> Result<
    (Seq<char>, int),
    Error,
> {
    match r {
        Ok(p) => Ok((pre + p.0, p.1)),
        Err(e) => Err(e),
    }
}

/// The words of `s` from position `i` on, in order, or the first error.
pub open spec fn spec_split_from(s: Seq<char>, i: int) -> Result<Seq<Seq<char>>, Error>
    decreases s.len() - i,
{
    let j = spec_skip(s, i, false);
    if j >= s.len() {
        Ok(Seq::empty())
    } else {
        match spec_parse_word(s, j) {
            Ok(q) => {
                proof {
                    lemma_skip_bounds(s, i, false);
                    lemma_parse_word_bounds(s, j);
                }
                match spec_split_from(s, q.1) {
                    Ok(ws) => Ok(seq![q.0] + ws),
                    Err(e) => Err(e),
                }
            },
            Err(e) => Err(e),
        }
    }
}

/// The words of the whole input, in order, or the first error.
pub open spec fn spec_split(s: Seq<char>) -> Result<Seq<Seq<char>>, Error> {
    spec_split_from(s, 0)
}

/// The body of the double-quoted rendering of `s` from position `i` on:
/// each character, preceded by a backslash where one is called for.
pub open spec fn quoted_from(s: Seq<char>, i: int) -> Seq<char>
    decreases s.len() - i,
{
    if i >= s.len() {
        Seq::empty()
    } else if needs_backslash(s[i]) {
        seq!['\\', s[i]] + quoted_from(s, i + 1)
    } else {
        seq![s[i]] + quoted_from(s, i + 1)
    }
}

/// The shell-safe rendering of one word: unchanged when it holds no
/// metacharacter, `""` when empty, and otherwise wrapped in double quotes
/// with `$`, backtick, `"` and backslash individually escaped.
pub open spec fn spec_quote(s: Seq<char>) -> Seq<char> {
    if s.len() == 0 {
        seq!['"', '"']
    } else if exists|k: int| 0 <= k < s.len() && is_metachar(s[k]) {
        seq!['"'] + quoted_from(s, 0) + seq!['"']
    } else {
        s
    }
}

/// The quoted words from index `i` on, separated by single spaces.
pub open spec fn spec_join_from(ws: Seq<Seq<char>>, i: int) -> Seq<char>
    decreases ws.len() - i,
{
    if i >= ws.len() {
        Seq::empty()
    } else if i + 1 == ws.len() {
        spec_quote(ws[i])
    } else {
        spec_quote(ws[i]) + seq![' '] + spec_join_from(ws, i + 1)
    }
}

/// All the words quoted and space-joined into one command line.
pub open spec fn spec_join(ws: Seq<Seq<char>>) -> Seq<char> {
    spec_join_from(ws, 0)
}

} // verus!
