//! Quoting a word so that it survives word splitting, and joining words
//! into one command line.

use vstd::prelude::*;

use crate::model::is_metachar;
use crate::model::quoted_from;
use crate::model::spec_join;
use crate::model::spec_join_from;
use crate::model::spec_quote;
use crate::strbuf::chars_of;
use crate::strbuf::push_char;

verus! {

/// Whether `c` forces a word to be quoted.
fn is_meta(c: char) -> (r: bool)
    ensures
        r == is_metachar(c),
{
    c == '|' || c == '&' || c == ';' || c == '<' || c == '>' || c == '(' || c == ')' || c == '$'
        || c == '`' || c == '\\' || c == '"' || c == '\'' || c == ' ' || c == '\t' || c == '\r'
        || c == '\n' || c == '*' || c == '?' || c == '[' || c == '#' || c == '~' || c == '='
        || c == '%'
}

/// Given a single word, return a string suitable to encode it as a shell
/// argument: the word itself when it holds no metacharacter, and otherwise
/// the word wrapped in double quotes, with `$`, backtick, `"` and backslash
/// each preceded by a backslash.
pub fn quote(in_str: &str) -> (r: String)
    ensures
        r@ == spec_quote(in_str@),
{
    let chars = chars_of(in_str);
    if chars.len() == 0 {
        let mut out = String::new();
        push_char(&mut out, '"');
        push_char(&mut out, '"');
        proof {
            assert(out@ =~= seq!['"', '"']);
        }
        return out;
    }
    let mut found = false;
    let mut i: usize = 0;
    while i < chars.len()
        invariant
            chars@ == in_str@,
            i <= chars@.len(),
            found <==> exists|k: int| 0 <= k < i && is_metachar(chars@[k]),
        decreases chars@.len() - i,
    {
        if is_meta(chars[i]) {
            found = true;
            proof {
                assert(is_metachar(chars@[i as int]));
            }
        }
        i = i + 1;
    }
    if !found {
        return in_str.to_owned();
    }
    let mut out = String::new();
    push_char(&mut out, '"');
    let ghost s = in_str@;
    let mut j: usize = 0;
    while j < chars.len()
        invariant
            chars@ == s,
            j <= s.len(),
            out@.len() >= 1,
            out@[0] == '"',
            quoted_from(s, 0) == out@.subrange(1, out@.len() as int) + quoted_from(s, j as int),
        decreases chars@.len() - j,
    {
        let c = chars[j];
        let ghost mid = out@;
        if c == '$' || c == '`' || c == '"' || c == '\\' {
            push_char(&mut out, '\\');
            push_char(&mut out, c);
            proof {
                assert(out@.subrange(1, out@.len() as int) =~= mid.subrange(
                    1,
                    mid.len() as int,
                ) + seq!['\\', c]);
                assert(mid.subrange(1, mid.len() as int) + (seq!['\\', c] + quoted_from(
                    s,
                    j + 1,
                )) =~= (mid.subrange(1, mid.len() as int) + seq!['\\', c]) + quoted_from(
                    s,
                    j + 1,
                ));
            }
        } else {
            push_char(&mut out, c);
            proof {
                assert(out@.subrange(1, out@.len() as int) =~= mid.subrange(1, mid.len() as int)
                    + seq![c]);
                assert(mid.subrange(1, mid.len() as int) + (seq![c] + quoted_from(s, j + 1)) =~= (
                mid.subrange(1, mid.len() as int) + seq![c]) + quoted_from(s, j + 1));
            }
        }
        j = j + 1;
    }
    push_char(&mut out, '"');
    proof {
        assert(quoted_from(s, s.len() as int) =~= Seq::<char>::empty());
        let body = out@.subrange(1, out@.len() - 1);
        assert(body =~= quoted_from(s, 0));
        assert(out@ =~= seq!['"'] + body + seq!['"']);
    }
    out
}

/// Consume a sequence of words and turn it into a single command line,
/// quoting each word and separating consecutive words by a single space.
pub fn join(words: Vec<&str>) -> (r: String)
    ensures
        r@ == spec_join(words@.map_values(|w: &str| w@)),
{
    let ghost ws = words@.map_values(|w: &str| w@);
    let mut out = String::new();
    let mut i: usize = 0;
    while i < words.len()
        invariant
            ws == words@.map_values(|w: &str| w@),
            i <= words@.len(),
            spec_join_from(ws, 0) == out@ + spec_join_from(ws, i as int),
        decreases words@.len() - i,
    {
        let ghost mid = out@;
        let q = quote(words[i]);
        out.append(q.as_str());
        proof {
            assert(ws[i as int] == words@[i as int]@);
        }
        if i + 1 < words.len() {
            push_char(&mut out, ' ');
            proof {
                assert(mid + (spec_quote(ws[i as int]) + seq![' '] + spec_join_from(ws, i + 1))
                    =~= (mid + spec_quote(ws[i as int]) + seq![' ']) + spec_join_from(ws, i + 1));
            }
        } else {
            proof {
                assert(spec_join_from(ws, i + 1) =~= Seq::<char>::empty());
                assert(mid + spec_quote(ws[i as int]) + Seq::<char>::empty() =~= mid + spec_quote(
                    ws[i as int],
                ));
            }
        }
        i = i + 1;
    }
    proof {
        if ws.len() == 0 {
            assert(spec_join_from(ws, 0) =~= Seq::<char>::empty());
        }
        assert(out@ + Seq::<char>::empty() =~= out@);
    }
    out
}

} // verus!
