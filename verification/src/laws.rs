//! The laws that tie quoting and splitting together.

use vstd::prelude::*;

use crate::model::Error;
use crate::model::is_metachar;
use crate::model::is_space;
use crate::model::needs_backslash;
use crate::model::quoted_from;
use crate::model::spec_parse_double;
use crate::model::spec_parse_word;
use crate::model::spec_quote;
use crate::model::spec_skip;
use crate::model::spec_split;
use crate::model::spec_split_from;

verus! {

/// A word none of whose characters is a quote, a backslash or whitespace
/// parses as itself, running to the end of the input.
proof fn lemma_word_plain(s: Seq<char>, i: int)
    requires
        0 <= i <= s.len(),
        forall|k: int|
            i <= k < s.len() ==> !is_space(#[trigger] s[k]) && s[k] != '"' && s[k] != '\''
                && s[k] != '\\',
    ensures
        spec_parse_word(s, i) == Ok::<(Seq<char>, int), Error>(
            (s.subrange(i, s.len() as int), s.len() as int),
        ),
    decreases s.len() - i,
{
    if i == s.len() {
        assert(s.subrange(i, s.len() as int) =~= Seq::<char>::empty());
    } else {
        lemma_word_plain(s, i + 1);
        assert(seq![s[i]] + s.subrange(i + 1, s.len() as int) =~= s.subrange(
            i,
            s.len() as int,
        ));
    }
}

/// A double-quoted span whose body is the escaped rendering of `w` from
/// index `i` on, followed by the closing quote at the very end of the
/// input, parses back to exactly that part of `w` and consumes the rest
/// of the input.
proof fn lemma_double_renders(q: Seq<char>, p: int, w: Seq<char>, i: int)
    requires
        0 <= p <= q.len(),
        0 <= i <= w.len(),
        q.subrange(p, q.len() as int) == quoted_from(w, i) + seq!['"'],
    ensures
        spec_parse_double(q, p) == Ok::<(Seq<char>, int), Error>(
            (w.subrange(i, w.len() as int), q.len() as int),
        ),
    decreases w.len() - i,
{
    let ln = q.len() as int;
    let t = q.subrange(p, ln);
    if i == w.len() {
        assert(quoted_from(w, i) =~= Seq::<char>::empty());
        assert(t.len() == 1);
        assert(q[p] == t[0]);
        assert(t[0] == '"');
        assert(w.subrange(i, w.len() as int) =~= Seq::<char>::empty());
    } else {
        let qf1 = quoted_from(w, i + 1);
        if needs_backslash(w[i]) {
            assert(quoted_from(w, i) == seq!['\\', w[i]] + qf1);
            assert(t.len() == qf1.len() + 3);
            assert(q[p] == t[0]);
            assert(t[0] == (seq!['\\', w[i]] + qf1)[0]);
            assert(q[p] == '\\');
            assert(q[p + 1] == t[1]);
            assert(t[1] == (seq!['\\', w[i]] + qf1)[1]);
            assert(q[p + 1] == w[i]);
            assert(t =~= seq!['\\', w[i]] + (qf1 + seq!['"']));
            assert forall|m: int| 0 <= m < ln - p - 2 implies q.subrange(p + 2, ln)[m] == (qf1
                + seq!['"'])[m] by {
                assert(t[2 + m] == q[p + 2 + m]);
            }
            assert(q.subrange(p + 2, ln) =~= qf1 + seq!['"']);
            lemma_double_renders(q, p + 2, w, i + 1);
            assert(seq![w[i]] + w.subrange(i + 1, w.len() as int) =~= w.subrange(
                i,
                w.len() as int,
            ));
        } else {
            assert(quoted_from(w, i) == seq![w[i]] + qf1);
            assert(t.len() == qf1.len() + 2);
            assert(q[p] == t[0]);
            assert(t[0] == (seq![w[i]] + qf1)[0]);
            assert(q[p] == w[i]);
            assert(t =~= seq![w[i]] + (qf1 + seq!['"']));
            assert forall|m: int| 0 <= m < ln - p - 1 implies q.subrange(p + 1, ln)[m] == (qf1
                + seq!['"'])[m] by {
                assert(t[1 + m] == q[p + 1 + m]);
            }
            assert(q.subrange(p + 1, ln) =~= qf1 + seq!['"']);
            lemma_double_renders(q, p + 1, w, i + 1);
            assert(seq![w[i]] + w.subrange(i + 1, w.len() as int) =~= w.subrange(
                i,
                w.len() as int,
            ));
        }
    }
}

/// Round-trip law: splitting the quoted rendering of a word yields exactly
/// that word, the empty word included.
pub proof fn lemma_quote_round_trip(w: Seq<char>)
    ensures
        spec_split(spec_quote(w)) == Ok::<Seq<Seq<char>>, Error>(seq![w]),
{
    let q = spec_quote(w);
    let ln = q.len() as int;
    if w.len() == 0 {
        assert(q == seq!['"', '"']);
        assert(spec_skip(q, 0, false) == 0);
        assert(spec_parse_double(q, 1) == Ok::<(Seq<char>, int), Error>((Seq::empty(), 2)));
        assert(spec_parse_word(q, 2) == Ok::<(Seq<char>, int), Error>((Seq::empty(), 2)));
        assert(Seq::<char>::empty() + Seq::<char>::empty() =~= w);
        assert(spec_parse_word(q, 0) == Ok::<(Seq<char>, int), Error>((w, 2)));
        assert(spec_skip(q, 2, false) == 2);
        assert(spec_split_from(q, 2) == Ok::<Seq<Seq<char>>, Error>(Seq::empty()));
        assert(seq![w] + Seq::<Seq<char>>::empty() =~= seq![w]);
    } else if exists|k: int| 0 <= k < w.len() && is_metachar(w[k]) {
        assert(q == seq!['"'] + quoted_from(w, 0) + seq!['"']);
        assert(q[0] == '"');
        assert(ln >= 2);
        assert(q.subrange(1, ln) =~= quoted_from(w, 0) + seq!['"']);
        lemma_double_renders(q, 1, w, 0);
        assert(w.subrange(0, w.len() as int) =~= w);
        assert(spec_parse_word(q, ln) == Ok::<(Seq<char>, int), Error>((Seq::empty(), ln)));
        assert(w + Seq::<char>::empty() =~= w);
        assert(spec_skip(q, 0, false) == 0);
        assert(spec_parse_word(q, 0) == Ok::<(Seq<char>, int), Error>((w, ln)));
        assert(spec_skip(q, ln, false) == ln);
        assert(spec_split_from(q, ln) == Ok::<Seq<Seq<char>>, Error>(Seq::empty()));
        assert(seq![w] + Seq::<Seq<char>>::empty() =~= seq![w]);
    } else {
        assert(q == w);
        assert(forall|k: int|
            0 <= k < w.len() ==> !is_space(#[trigger] w[k]) && w[k] != '"' && w[k] != '\''
                && w[k] != '\\') by {
            assert forall|k: int| 0 <= k < w.len() implies !is_space(#[trigger] w[k]) && w[k]
                != '"' && w[k] != '\'' && w[k] != '\\' by {
                assert(!is_metachar(w[k]));
            }
        }
        lemma_word_plain(w, 0);
        assert(w.subrange(0, w.len() as int) =~= w);
        assert(!is_space(q[0]) && q[0] != '#');
        assert(spec_skip(q, 0, false) == 0);
        assert(spec_skip(q, ln, false) == ln);
        assert(spec_split_from(q, ln) == Ok::<Seq<Seq<char>>, Error>(Seq::empty()));
        assert(seq![w] + Seq::<Seq<char>>::empty() =~= seq![w]);
    }
}

/// Idempotence of quoting: on a nonempty word free of metacharacters,
/// `quote` returns the word unchanged.
pub proof fn lemma_quote_identity(w: Seq<char>)
    requires
        w.len() > 0,
        forall|k: int| 0 <= k < w.len() ==> !is_metachar(#[trigger] w[k]),
    ensures
        spec_quote(w) == w,
{
}

} // verus!
