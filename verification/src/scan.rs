//! The scanner: a cursor over the input characters that yields one word per
//! pull, with a line counter for diagnostics.

use vstd::prelude::*;

use crate::model::Error;
use crate::model::lemma_newlines_bound;
use crate::model::lemma_parse_double_bounds;
use crate::model::lemma_parse_single_bounds;
use crate::model::lemma_parse_word_bounds;
use crate::model::lemma_skip_bounds;
use crate::model::needs_backslash;
use crate::model::newlines_up_to;
use crate::model::rcomp;
use crate::model::spec_parse_double;
use crate::model::spec_parse_single;
use crate::model::spec_parse_word;
use crate::model::spec_skip;
use crate::model::spec_split;
use crate::model::spec_split_from;
use crate::strbuf::chars_of;
use crate::strbuf::push_char;

verus! {

/// A scanner that takes an input string and splits it into words using the
/// same syntax as the POSIX shell. Pull words one at a time with [`Shlex::next`].
pub struct Shlex {
    /// The characters of the input, in order.
    pub chars: Vec<char>,
    /// Index of the next character to read.
    pub pos: usize,
    /// The number of newlines read so far, plus one.
    pub line_no: usize,
}

impl Shlex {
    /// The scanner is well formed: the cursor lies inside the input and the
    /// line counter reads one more than the number of newlines consumed.
    pub open spec fn wf(&self) -> bool {
        &&& self.pos <= self.chars@.len()
        &&& self.chars@.len() < usize::MAX
        &&& self.line_no == 1 + newlines_up_to(self.chars@, self.pos as int)
    }

    /// Build a scanner over the characters of `in_str`, with the cursor at
    /// the start and the line counter at 1. The input must leave room for
    /// the line counter, which every string a machine can hold does.
    pub fn new(in_str: &str) -> (r: Shlex)
        requires
            in_str@.len() < usize::MAX,
        ensures
            r.wf(),
            r.chars@ == in_str@,
            r.pos == 0,
            r.line_no == 1,
    {
        Shlex { chars: chars_of(in_str), pos: 0, line_no: 1 }
    }

    /// Pull the next raw character, advancing the line counter on a newline.
    fn next_char(&mut self) -> (r: Option<char>)
        requires
            old(self).wf(),
        ensures
            final(self).wf(),
            final(self).chars == old(self).chars,
            old(self).pos < old(self).chars@.len() ==> r == Some(
                old(self).chars@[old(self).pos as int],
            ) && final(self).pos == old(self).pos + 1,
            old(self).pos >= old(self).chars@.len() ==> r == None::<char> && final(self).pos
                == old(self).pos,
    {
        if self.pos < self.chars.len() {
            proof {
                lemma_newlines_bound(self.chars@, self.pos as int);
            }
            let c = self.chars[self.pos];
            self.pos = self.pos + 1;
            if c == '\n' {
                self.line_no = self.line_no + 1;
            }
            Some(c)
        } else {
            None
        }
    }

    /// Consume a double-quoted span, the opening `"` already consumed,
    /// appending what it emits to `result`.
    fn parse_double(&mut self, result: &mut String) -> (r: Result<(), Error>)
        requires
            old(self).wf(),
        ensures
            final(self).wf(),
            final(self).chars == old(self).chars,
            match spec_parse_double(old(self).chars@, old(self).pos as int) {
                Ok(p) => r == Ok::<(), Error>(()) && final(result)@ == old(result)@ + p.0
                    && final(self).pos as int == p.1,
                Err(e) => r == Err::<(), Error>(e) && final(self).pos == old(self).chars@.len(),
            },
    {
        let ghost mut emitted: Seq<char> = Seq::empty();
        loop
            invariant
                self.wf(),
                self.chars == old(self).chars,
                result@ == old(result)@ + emitted,
                spec_parse_double(old(self).chars@, old(self).pos as int) == rcomp(
                    emitted,
                    spec_parse_double(self.chars@, self.pos as int),
                ),
            decreases self.chars@.len() - self.pos,
        {
            let ghost s = self.chars@;
            let ghost cur = self.pos as int;
            match self.next_char() {
                None => {
                    return Err(Error::UnclosedDoubleQuote);
                },
                Some(c) => {
                    if c == '"' {
                        proof {
                            assert(emitted + Seq::<char>::empty() =~= emitted);
                        }
                        return Ok(());
                    } else if c == '\\' {
                        match self.next_char() {
                            None => {
                                return Err(Error::EndOfStringBackslash);
                            },
                            Some(c2) => {
                                if c2 == '$' || c2 == '`' || c2 == '"' || c2 == '\\' {
                                    push_char(result, c2);
                                } else if c2 == '\n' {
                                } else {
                                    push_char(result, '\\');
                                    push_char(result, c2);
                                }
                                proof {
                                    let piece = if needs_backslash(c2) {
                                        seq![c2]
                                    } else if c2 == '\n' {
                                        Seq::<char>::empty()
                                    } else {
                                        seq!['\\', c2]
                                    };
                                    match spec_parse_double(s, cur + 2) {
                                        Ok(p) => {
                                            assert(emitted + (piece + p.0) =~= (emitted + piece)
                                                + p.0);
                                        },
                                        Err(_) => {},
                                    }
                                    emitted = emitted + piece;
                                    assert(result@ =~= old(result)@ + emitted);
                                }
                            },
                        }
                    } else {
                        push_char(result, c);
                        proof {
                            match spec_parse_double(s, cur + 1) {
                                Ok(p) => {
                                    assert(emitted + (seq![c] + p.0) =~= (emitted + seq![c])
                                        + p.0);
                                },
                                Err(_) => {},
                            }
                            emitted = emitted + seq![c];
                            assert(result@ =~= old(result)@ + emitted);
                        }
                    }
                },
            }
        }
    }

    /// Consume a single-quoted span, the opening `'` already consumed,
    /// appending what it emits to `result`.
    fn parse_single(&mut self, result: &mut String) -> (r: Result<(), Error>)
        requires
            old(self).wf(),
        ensures
            final(self).wf(),
            final(self).chars == old(self).chars,
            match spec_parse_single(old(self).chars@, old(self).pos as int) {
                Ok(p) => r == Ok::<(), Error>(()) && final(result)@ == old(result)@ + p.0
                    && final(self).pos as int == p.1,
                Err(e) => r == Err::<(), Error>(e) && final(self).pos == old(self).chars@.len(),
            },
    {
        let ghost mut emitted: Seq<char> = Seq::empty();
        loop
            invariant
                self.wf(),
                self.chars == old(self).chars,
                result@ == old(result)@ + emitted,
                spec_parse_single(old(self).chars@, old(self).pos as int) == rcomp(
                    emitted,
                    spec_parse_single(self.chars@, self.pos as int),
                ),
            decreases self.chars@.len() - self.pos,
        {
            let ghost s = self.chars@;
            let ghost cur = self.pos as int;
            match self.next_char() {
                None => {
                    return Err(Error::UnclosedSingleQuote);
                },
                Some(c) => {
                    if c == '\'' {
                        proof {
                            assert(emitted + Seq::<char>::empty() =~= emitted);
                        }
                        return Ok(());
                    } else if c == '\\' {
                        match self.next_char() {
                            None => {
                                return Err(Error::EndOfStringBackslash);
                            },
                            Some(c2) => {
                                if c2 == '\'' || c2 == '\\' {
                                    push_char(result, c2);
                                } else {
                                    push_char(result, '\\');
                                    push_char(result, c2);
                                }
                                proof {
                                    let piece = if c2 == '\'' || c2 == '\\' {
                                        seq![c2]
                                    } else {
                                        seq!['\\', c2]
                                    };
                                    match spec_parse_single(s, cur + 2) {
                                        Ok(p) => {
                                            assert(emitted + (piece + p.0) =~= (emitted + piece)
                                                + p.0);
                                        },
                                        Err(_) => {},
                                    }
                                    emitted = emitted + piece;
                                    assert(result@ =~= old(result)@ + emitted);
                                }
                            },
                        }
                    } else {
                        push_char(result, c);
                        proof {
                            match spec_parse_single(s, cur + 1) {
                                Ok(p) => {
                                    assert(emitted + (seq![c] + p.0) =~= (emitted + seq![c])
                                        + p.0);
                                },
                                Err(_) => {},
                            }
                            emitted = emitted + seq![c];
                            assert(result@ =~= old(result)@ + emitted);
                        }
                    }
                },
            }
        }
    }

    /// Assemble one word whose first character `ch` was already consumed.
    fn parse_word(&mut self, ch: char) -> (r: Result<String, Error>)
        requires
            old(self).wf(),
            1 <= old(self).pos <= old(self).chars@.len(),
            ch == old(self).chars@[old(self).pos - 1],
        ensures
            final(self).wf(),
            final(self).chars == old(self).chars,
            match spec_parse_word(old(self).chars@, old(self).pos - 1) {
                Ok(p) => ({
                    &&& r matches Ok(w)
                    &&& w@ == p.0
                    &&& final(self).pos as int == p.1
                }),
                Err(e) => r == Err::<String, Error>(e) && final(self).pos
                    == old(self).chars@.len(),
            },
    {
        let mut result = String::new();
        let mut c = ch;
        let ghost mut emitted: Seq<char> = Seq::empty();
        loop
            invariant_except_break
                c == self.chars@[self.pos - 1],
                spec_parse_word(old(self).chars@, old(self).pos - 1) == rcomp(
                    emitted,
                    spec_parse_word(self.chars@, self.pos - 1),
                ),
            invariant
                self.wf(),
                self.chars == old(self).chars,
                1 <= self.pos <= self.chars@.len(),
                result@ == emitted,
            ensures
                self.wf(),
                self.chars == old(self).chars,
                spec_parse_word(old(self).chars@, old(self).pos - 1) == Ok::<
                    (Seq<char>, int),
                    Error,
                >((result@, self.pos as int)),
            decreases self.chars@.len() - self.pos,
        {
            let ghost s = self.chars@;
            let ghost cur = self.pos as int - 1;
            if c == '"' {
                match self.parse_double(&mut result) {
                    Ok(()) => {
                        proof {
                            lemma_parse_double_bounds(s, cur + 1);
                            match spec_parse_double(s, cur + 1) {
                                Ok(p) => {
                                    match spec_parse_word(s, p.1) {
                                        Ok(q) => {
                                            assert(emitted + (p.0 + q.0) =~= (emitted + p.0)
                                                + q.0);
                                        },
                                        Err(_) => {},
                                    }
                                    emitted = emitted + p.0;
                                },
                                Err(_) => {
                                    assert(false);
                                },
                            }
                        }
                    },
                    Err(e) => {
                        return Err(e);
                    },
                }
            } else if c == '\'' {
                match self.parse_single(&mut result) {
                    Ok(()) => {
                        proof {
                            lemma_parse_single_bounds(s, cur + 1);
                            match spec_parse_single(s, cur + 1) {
                                Ok(p) => {
                                    match spec_parse_word(s, p.1) {
                                        Ok(q) => {
                                            assert(emitted + (p.0 + q.0) =~= (emitted + p.0)
                                                + q.0);
                                        },
                                        Err(_) => {},
                                    }
                                    emitted = emitted + p.0;
                                },
                                Err(_) => {
                                    assert(false);
                                },
                            }
                        }
                    },
                    Err(e) => {
                        return Err(e);
                    },
                }
            } else if c == '\\' {
                match self.next_char() {
                    None => {
                        return Err(Error::EndOfStringBackslash);
                    },
                    Some(c2) => {
                        if c2 != '\n' {
                            push_char(&mut result, c2);
                        }
                        proof {
                            let piece = if c2 == '\n' {
                                Seq::<char>::empty()
                            } else {
                                seq![c2]
                            };
                            match spec_parse_word(s, cur + 2) {
                                Ok(q) => {
                                    assert(emitted + (piece + q.0) =~= (emitted + piece) + q.0);
                                },
                                Err(_) => {},
                            }
                            emitted = emitted + piece;
                            assert(result@ =~= emitted);
                        }
                    },
                }
            } else if c == ' ' || c == '\t' || c == '\n' {
                proof {
                    assert(emitted + Seq::<char>::empty() =~= emitted);
                }
                break;
            } else {
                push_char(&mut result, c);
                proof {
                    match spec_parse_word(s, cur + 1) {
                        Ok(q) => {
                            assert(emitted + (seq![c] + q.0) =~= (emitted + seq![c]) + q.0);
                        },
                        Err(_) => {},
                    }
                    emitted = emitted + seq![c];
                    assert(result@ =~= emitted);
                }
            }
            match self.next_char() {
                Some(c2) => {
                    c = c2;
                },
                None => {
                    proof {
                        assert(emitted + Seq::<char>::empty() =~= emitted);
                    }
                    break;
                },
            }
        }
        Ok(result)
    }

    /// Skip inter-word whitespace and comments, then yield the next word or
    /// the error it runs into; `None` once the input is exhausted.
    pub fn next(&mut self) -> (r: Option<Result<String, Error>>)
        requires
            old(self).wf(),
        ensures
            final(self).wf(),
            final(self).chars == old(self).chars,
            ({
                let s = old(self).chars@;
                let j = spec_skip(s, old(self).pos as int, false);
                if j >= s.len() {
                    r is None && final(self).pos == s.len()
                } else {
                    match spec_parse_word(s, j) {
                        Ok(p) => ({
                            &&& r matches Some(res)
                            &&& res matches Ok(w)
                            &&& w@ == p.0
                            &&& final(self).pos as int == p.1
                        }),
                        Err(e) => r == Some(Err::<String, Error>(e)) && final(self).pos
                            == s.len(),
                    }
                }
            }),
    {
        let mut in_comment = false;
        loop
            invariant
                self.wf(),
                self.chars == old(self).chars,
                spec_skip(old(self).chars@, old(self).pos as int, false) == spec_skip(
                    self.chars@,
                    self.pos as int,
                    in_comment,
                ),
            decreases self.chars@.len() - self.pos,
        {
            let ghost s = self.chars@;
            let ghost cur = self.pos as int;
            match self.next_char() {
                None => {
                    return None;
                },
                Some(c) => {
                    if in_comment {
                        if c == '\n' {
                            in_comment = false;
                        }
                    } else if c == ' ' || c == '\t' || c == '\n' {
                    } else if c == '#' {
                        in_comment = true;
                    } else {
                        match self.parse_word(c) {
                            Ok(w) => {
                                return Some(Ok(w));
                            },
                            Err(e) => {
                                return Some(Err(e));
                            },
                        }
                    }
                },
            }
        }
    }
}

/// Convenience function that consumes the whole string at once, yielding its
/// words in order or the first error. The input must leave room for the line
/// counter, which every string a machine can hold does.
pub fn split(in_str: &str) -> (r: Result<Vec<String>, Error>)
    requires
        in_str@.len() < usize::MAX,
    ensures
        match r {
            Ok(words) => spec_split(in_str@) == Ok::<Seq<Seq<char>>, Error>(words.deep_view()),
            Err(e) => spec_split(in_str@) == Err::<Seq<Seq<char>>, Error>(e),
        },
{
    let mut shl = Shlex::new(in_str);
    let mut words: Vec<String> = Vec::new();
    loop
        invariant
            shl.wf(),
            shl.chars@ == in_str@,
            spec_split(in_str@) == (match spec_split_from(in_str@, shl.pos as int) {
                Ok(ws) => Ok::<Seq<Seq<char>>, Error>(words.deep_view() + ws),
                Err(e) => Err::<Seq<Seq<char>>, Error>(e),
            }),
        decreases shl.chars@.len() - shl.pos,
    {
        let ghost s = in_str@;
        let ghost p0 = shl.pos as int;
        let ghost dv0 = words.deep_view();
        match shl.next() {
            None => {
                proof {
                    assert(dv0 + Seq::<Seq<char>>::empty() =~= dv0);
                }
                return Ok(words);
            },
            Some(Ok(w)) => {
                proof {
                    lemma_skip_bounds(s, p0, false);
                    lemma_parse_word_bounds(s, spec_skip(s, p0, false));
                }
                words.push(w);
                proof {
                    assert(words.deep_view() =~= dv0 + seq![w@]);
                    match spec_split_from(s, shl.pos as int) {
                        Ok(ws) => {
                            assert(dv0 + (seq![w@] + ws) =~= (dv0 + seq![w@]) + ws);
                        },
                        Err(_) => {},
                    }
                }
            },
            Some(Err(e)) => {
                return Err(e);
            },
        }
    }
}

} // verus!
