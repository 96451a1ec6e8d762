//! Whitespace-delimited tokenization of task lines, and the word
//! joins the serializer uses, with the lemmas that connect the two.

use vstd::prelude::*;

verus! {

/// The whitespace characters that delimit tokens in a task line:
/// the Unicode White_Space set.
pub open spec fn is_space(c: char) -> bool {
    ||| '\u{09}' <= c <= '\u{0d}'
    ||| c == ' '
    ||| c == '\u{85}'
    ||| c == '\u{a0}'
    ||| c == '\u{1680}'
    ||| '\u{2000}' <= c <= '\u{200a}'
    ||| c == '\u{2028}'
    ||| c == '\u{2029}'
    ||| c == '\u{202f}'
    ||| c == '\u{205f}'
    ||| c == '\u{3000}'
}

/// Holds when no character of the sequence is whitespace.
pub open spec fn no_space(t: Seq<char>) -> bool {
    forall|i: int| 0 <= i < t.len() ==> !is_space(#[trigger] t[i])
}

/// A well-formed token: non-empty and free of whitespace. Every token
/// `tokenize` yields is one.
pub open spec fn word_ok(t: Seq<char>) -> bool {
    t.len() > 0 && no_space(t)
}

/// The length of the maximal whitespace-free prefix.
pub open spec fn token_len(s: Seq<char>) -> nat
    decreases s.len(),
{
    if s.len() == 0 || is_space(s[0]) {
        0
    } else {
        1 + token_len(s.drop_first())
    }
}

/// The whitespace-delimited tokens of a line, in order.
pub open spec fn tokenize(s: Seq<char>) -> Seq<Seq<char>>
    decreases s.len(),
    via tokenize_dec
{
    if s.len() == 0 {
        Seq::empty()
    } else if is_space(s[0]) {
        tokenize(s.drop_first())
    } else {
        seq![s.take(token_len(s) as int)] + tokenize(s.skip(token_len(s) as int))
    }
}

#[via_fn]
proof fn tokenize_dec(s: Seq<char>) {
    lemma_token_len_le(s);
}

/// The maximal whitespace-free prefix never runs past the end.
pub proof fn lemma_token_len_le(s: Seq<char>)
    ensures
        token_len(s) <= s.len(),
    decreases s.len(),
{
    if s.len() != 0 && !is_space(s[0]) {
        lemma_token_len_le(s.drop_first());
    }
}

/// Pins the token length down: it is the unique boundary before which
/// no character is whitespace and at which the line ends or whitespace
/// stands.
pub proof fn lemma_token_len_is(s: Seq<char>, k: int)
    requires
        0 <= k <= s.len(),
        forall|i: int| 0 <= i < k ==> !is_space(#[trigger] s[i]),
        k == s.len() || is_space(s[k]),
    ensures
        token_len(s) == k,
    decreases s.len(),
{
    if k == 0 {
    } else {
        assert(!is_space(s[0]));
        lemma_token_len_is(s.drop_first(), k - 1);
    }
}

/// Every token of a line is non-empty and whitespace-free.
pub proof fn lemma_tokenize_wf(s: Seq<char>)
    ensures
        forall|i: int|
            0 <= i < tokenize(s).len() ==> word_ok(#[trigger] tokenize(s)[i]),
    decreases s.len(),
{
    if s.len() == 0 {
    } else if is_space(s[0]) {
        lemma_tokenize_wf(s.drop_first());
        assert forall|i: int|
            0 <= i < tokenize(s).len() implies word_ok(#[trigger] tokenize(s)[i]) by {
            assert(word_ok(tokenize(s.drop_first())[i]));
        }
    } else {
        lemma_token_len_le(s);
        let k = token_len(s) as int;
        let head = s.take(k);
        assert(forall|i: int| 0 <= i < k ==> !is_space(#[trigger] s[i])) by {
            lemma_token_prefix_no_space(s, k);
        }
        assert(word_ok(head));
        lemma_tokenize_wf(s.skip(k));
        let ts = tokenize(s);
        assert(ts == seq![head] + tokenize(s.skip(k)));
        assert forall|i: int| 0 <= i < ts.len() implies word_ok(#[trigger] ts[i]) by {
            if i == 0 {
                assert(ts[0] == head);
            } else {
                assert(ts[i] == tokenize(s.skip(k))[i - 1]);
            }
        }
    }
}

/// Characters before the token boundary are not whitespace.
proof fn lemma_token_prefix_no_space(s: Seq<char>, k: int)
    requires
        k == token_len(s),
    ensures
        forall|i: int| 0 <= i < k ==> !is_space(#[trigger] s[i]),
    decreases s.len(),
{
    if s.len() == 0 || is_space(s[0]) {
    } else {
        lemma_token_len_le(s);
        lemma_token_prefix_no_space(s.drop_first(), k - 1);
        assert forall|i: int| 0 <= i < k implies !is_space(#[trigger] s[i]) by {
            if i > 0 {
                assert(!is_space(s.drop_first()[i - 1]));
                assert(s.drop_first()[i - 1] == s[i]);
            }
        }
    }
}

/// A leading whitespace character does not change the tokens.
pub proof fn lemma_tokenize_space(c: char, rest: Seq<char>)
    requires
        is_space(c),
    ensures
        tokenize(seq![c] + rest) == tokenize(rest),
{
    let s = seq![c] + rest;
    assert(s.drop_first() =~= rest);
}

/// A leading token followed by nothing or by whitespace stands first
/// in the token list, with the rest tokenized behind it.
pub proof fn lemma_tokenize_word(w: Seq<char>, rest: Seq<char>)
    requires
        word_ok(w),
        rest.len() == 0 || is_space(rest[0]),
    ensures
        tokenize(w + rest) == seq![w] + tokenize(rest),
{
    let s = w + rest;
    assert(!is_space(s[0]));
    assert(forall|i: int| 0 <= i < w.len() ==> s[i] == w[i]);
    lemma_token_len_is(s, w.len() as int);
    assert(s.take(w.len() as int) =~= w);
    assert(s.skip(w.len() as int) =~= rest);
}

/// A line has no token exactly when every character is whitespace.
pub proof fn lemma_tokenize_blank(s: Seq<char>)
    ensures
        (tokenize(s).len() == 0) <==> (forall|i: int| 0 <= i < s.len() ==> is_space(#[trigger] s[i])),
    decreases s.len(),
{
    if s.len() == 0 {
    } else if is_space(s[0]) {
        lemma_tokenize_blank(s.drop_first());
        assert forall|i: int|
            0 <= i < s.len() && (tokenize(s).len() == 0) implies is_space(#[trigger] s[i]) by {
            if i > 0 {
                assert(is_space(s.drop_first()[i - 1]));
            }
        }
        if forall|i: int| 0 <= i < s.len() ==> is_space(#[trigger] s[i]) {
            assert forall|i: int|
                0 <= i < s.drop_first().len() implies is_space(#[trigger] s.drop_first()[i]) by {
                assert(s.drop_first()[i] == s[i + 1]);
            }
        }
    } else {
        lemma_token_len_le(s);
    }
}

/// The serializer's trailing pieces: each token preceded by a single
/// space, concatenated.
pub open spec fn spaced_tokens(ts: Seq<Seq<char>>) -> Seq<char>
    decreases ts.len(),
{
    if ts.len() == 0 {
        Seq::empty()
    } else {
        seq![' '] + ts[0] + spaced_tokens(ts.drop_first())
    }
}

/// The words of a description joined by single spaces.
pub open spec fn join_words(ws: Seq<Seq<char>>) -> Seq<char>
    decreases ws.len(),
{
    if ws.len() == 0 {
        Seq::empty()
    } else if ws.len() == 1 {
        ws[0]
    } else {
        ws[0] + seq![' '] + join_words(ws.drop_first())
    }
}

/// Appending one word to a join appends a space and the word, except
/// to an empty join.
pub proof fn lemma_join_push(ws: Seq<Seq<char>>, w: Seq<char>)
    ensures
        join_words(ws.push(w)) == if ws.len() == 0 {
            w
        } else {
            join_words(ws) + seq![' '] + w
        },
    decreases ws.len(),
{
    if ws.len() == 0 {
        assert(ws.push(w)[0] =~= w);
        assert(join_words(ws.push(w)) == w);
    } else {
        lemma_join_push(ws.drop_first(), w);
        assert(ws.push(w).drop_first() =~= ws.drop_first().push(w));
        if ws.len() == 1 {
            assert(join_words(ws.push(w)) == ws[0] + seq![' '] + w);
            assert(join_words(ws) == ws[0]);
        } else {
            assert(join_words(ws.push(w)) == ws[0] + seq![' '] + join_words(
                ws.drop_first().push(w),
            ));
            assert(join_words(ws.drop_first().push(w)) == join_words(ws.drop_first())
                + seq![' '] + w);
            assert(ws[0] + seq![' '] + (join_words(ws.drop_first()) + seq![' '] + w) =~= (ws[0]
                + seq![' '] + join_words(ws.drop_first())) + seq![' '] + w);
        }
    }
}

/// A space-led token list tokenizes to exactly those tokens.
pub proof fn lemma_tokenize_spaced(ts: Seq<Seq<char>>)
    requires
        forall|i: int| 0 <= i < ts.len() ==> word_ok(#[trigger] ts[i]),
    ensures
        tokenize(spaced_tokens(ts)) == ts,
    decreases ts.len(),
{
    if ts.len() == 0 {
    } else {
        let tail = spaced_tokens(ts.drop_first());
        assert(seq![' '] + ts[0] + tail =~= seq![' '] + (ts[0] + tail));
        lemma_tokenize_space(' ', ts[0] + tail);
        assert(tail.len() == 0 || is_space(tail[0]));
        lemma_tokenize_word(ts[0], tail);
        lemma_tokenize_spaced(ts.drop_first());
        assert(seq![ts[0]] + ts.drop_first() =~= ts);
    }
}

/// A join of words followed by space-led tokens tokenizes to the words
/// and then the tokens.
pub proof fn lemma_tokenize_join_spaced(ws: Seq<Seq<char>>, ts: Seq<Seq<char>>)
    requires
        forall|i: int| 0 <= i < ws.len() ==> word_ok(#[trigger] ws[i]),
        forall|i: int| 0 <= i < ts.len() ==> word_ok(#[trigger] ts[i]),
    ensures
        tokenize(join_words(ws) + spaced_tokens(ts)) == ws + ts,
    decreases ws.len(),
{
    if ws.len() == 0 {
        assert(join_words(ws) + spaced_tokens(ts) =~= spaced_tokens(ts));
        lemma_tokenize_spaced(ts);
        assert(ws + ts =~= ts);
    } else if ws.len() == 1 {
        let tail = spaced_tokens(ts);
        assert(tail.len() == 0 || is_space(tail[0]));
        lemma_tokenize_word(ws[0], tail);
        lemma_tokenize_spaced(ts);
        assert(seq![ws[0]] + ts =~= ws + ts);
    } else {
        let rest = join_words(ws.drop_first()) + spaced_tokens(ts);
        assert((ws[0] + seq![' '] + join_words(ws.drop_first())) + spaced_tokens(ts) =~= ws[0]
            + (seq![' '] + rest));
        let after = seq![' '] + rest;
        assert(is_space(after[0]));
        lemma_tokenize_word(ws[0], after);
        lemma_tokenize_space(' ', rest);
        lemma_tokenize_join_spaced(ws.drop_first(), ts);
        assert(seq![ws[0]] + (ws.drop_first() + ts) =~= ws + ts);
    }
}

/// A token, a single space, and a remainder tokenize to that token in
/// front of the remainder's tokens.
pub proof fn lemma_tokenize_head(w: Seq<char>, s: Seq<char>)
    requires
        word_ok(w),
    ensures
        tokenize(w + seq![' '] + s) == seq![w] + tokenize(s),
{
    assert(w + seq![' '] + s =~= w + (seq![' '] + s));
    lemma_tokenize_word(w, seq![' '] + s);
    lemma_tokenize_space(' ', s);
}

/// Lexicographic order on character sequences by code point, the
/// order in which tags are serialized and descriptions sorted.
pub open spec fn lex_le(a: Seq<char>, b: Seq<char>) -> bool
    decreases a.len(),
{
    if a.len() == 0 {
        true
    } else if b.len() == 0 {
        false
    } else if a[0] == b[0] {
        lex_le(a.drop_first(), b.drop_first())
    } else {
        a[0] < b[0]
    }
}

/// The lexicographic order is total.
pub proof fn lemma_lex_le_total(a: Seq<char>, b: Seq<char>)
    ensures
        lex_le(a, b) || lex_le(b, a),
    decreases a.len(),
{
    if a.len() != 0 && b.len() != 0 && a[0] == b[0] {
        lemma_lex_le_total(a.drop_first(), b.drop_first());
    }
}

/// The lexicographic order is transitive.
pub proof fn lemma_lex_le_trans(a: Seq<char>, b: Seq<char>, c: Seq<char>)
    requires
        lex_le(a, b),
        lex_le(b, c),
    ensures
        lex_le(a, c),
    decreases a.len(),
{
    if a.len() != 0 && b.len() != 0 && c.len() != 0 && a[0] == b[0] && b[0] == c[0] {
        lemma_lex_le_trans(a.drop_first(), b.drop_first(), c.drop_first());
    }
}

/// Dropping an equal prefix does not change the lexicographic order.
proof fn lemma_lex_le_skip(a: Seq<char>, b: Seq<char>, i: int)
    requires
        0 <= i <= a.len(),
        i <= b.len(),
        forall|k: int| 0 <= k < i ==> a[k] == b[k],
    ensures
        lex_le(a, b) == lex_le(a.skip(i), b.skip(i)),
    decreases i,
{
    if i > 0 {
        assert(a.len() > 0 && b.len() > 0 && a[0] == b[0]);
        lemma_lex_le_skip(a.drop_first(), b.drop_first(), i - 1);
        assert(a.drop_first().skip(i - 1) =~= a.skip(i));
        assert(b.drop_first().skip(i - 1) =~= b.skip(i));
    } else {
        assert(a.skip(0) =~= a);
        assert(b.skip(0) =~= b);
    }
}

/// Whether two strings hold the same characters.
pub fn str_eq(a: &str, b: &str) -> (r: bool)
    ensures
        r == (a@ == b@),
{
    let na = a.unicode_len();
    let nb = b.unicode_len();
    if na != nb {
        return false;
    }
    let mut i: usize = 0;
    while i < na
        invariant
            i <= na,
            na == a@.len(),
            na == b@.len(),
            forall|k: int| 0 <= k < i ==> a@[k] == b@[k],
        decreases na - i,
    {
        if a.get_char(i) != b.get_char(i) {
            return false;
        }
        i = i + 1;
    }
    proof {
        assert(a@ =~= b@);
    }
    true
}

/// Whether the first string sorts at or before the second in the
/// lexicographic order.
pub fn str_le(a: &str, b: &str) -> (r: bool)
    ensures
        r == lex_le(a@, b@),
{
    let na = a.unicode_len();
    let nb = b.unicode_len();
    let mut i: usize = 0;
    while i < na && i < nb
        invariant
            i <= na,
            i <= nb,
            na == a@.len(),
            nb == b@.len(),
            forall|k: int| 0 <= k < i ==> a@[k] == b@[k],
        decreases na - i,
    {
        let ca = a.get_char(i);
        let cb = b.get_char(i);
        if ca != cb {
            proof {
                lemma_lex_le_skip(a@, b@, i as int);
            }
            return (ca as u32) < (cb as u32);
        }
        i = i + 1;
    }
    proof {
        lemma_lex_le_skip(a@, b@, if i < na { i as int } else { na as int });
    }
    na <= nb
}

/// Whether the given character delimits tokens: whether it is in the
/// Unicode White_Space set.
pub fn is_space_char(c: char) -> (b: bool)
    ensures
        b == is_space(c),
{
    ('\u{09}' <= c && c <= '\u{0d}') || c == ' ' || c == '\u{85}' || c == '\u{a0}'
        || c == '\u{1680}' || ('\u{2000}' <= c && c <= '\u{200a}') || c == '\u{2028}'
        || c == '\u{2029}' || c == '\u{202f}' || c == '\u{205f}' || c == '\u{3000}'
}

/// Whether the character at the given position delimits tokens.
fn space_at(line: &str, j: usize) -> (b: bool)
    requires
        j < line@.len(),
    ensures
        b == is_space(line@[j as int]),
{
    is_space_char(line.get_char(j))
}

/// Splits a line into its whitespace-delimited tokens, in order.
pub fn tokenize_str(line: &str) -> (toks: Vec<String>)
    ensures
        toks@.map_values(|t: String| t@) == tokenize(line@),
{
    let n = line.unicode_len();
    let mut toks: Vec<String> = Vec::new();
    let mut i: usize = 0;
    proof {
        assert(line@.skip(0) =~= line@);
        assert(toks@.map_values(|t: String| t@) + tokenize(line@) =~= tokenize(line@));
    }
    while i < n
        invariant
            i <= n,
            n == line@.len(),
            tokenize(line@) == toks@.map_values(|t: String| t@) + tokenize(line@.skip(i as int)),
        decreases n - i,
    {
        if space_at(line, i) {
            proof {
                let rest = line@.skip(i as int);
                assert(rest =~= seq![line@[i as int]] + line@.skip(i as int + 1));
                lemma_tokenize_space(line@[i as int], line@.skip(i as int + 1));
            }
            i = i + 1;
        } else {
            let mut j: usize = i + 1;
            while j < n && !space_at(line, j)
                invariant
                    i < j <= n,
                    n == line@.len(),
                    forall|k: int| i <= k < j ==> !is_space(#[trigger] line@[k]),
                decreases n - j,
            {
                j = j + 1;
            }
            let tok = line.substring_char(i, j);
            proof {
                let rest = line@.skip(i as int);
                let w = line@.subrange(i as int, j as int);
                assert(rest =~= w + line@.skip(j as int));
                assert(word_ok(w));
                lemma_tokenize_word(w, line@.skip(j as int));
            }
            let owned: String = tok.to_owned();
            proof {
                assert(owned@ == line@.subrange(i as int, j as int));
            }
            let ghost old_toks = toks@;
            toks.push(owned);
            proof {
                let w = line@.subrange(i as int, j as int);
                let f = |t: String| t@;
                assert(toks@.map_values(f) =~= old_toks.map_values(f).push(w));
                assert(old_toks.map_values(f).push(w) + tokenize(line@.skip(j as int))
                    =~= old_toks.map_values(f) + (seq![w] + tokenize(line@.skip(j as int))));
            }
            i = j;
        }
    }
    proof {
        assert(line@.skip(n as int) =~= Seq::<char>::empty());
        assert(tokenize(line@) =~= toks@.map_values(|t: String| t@));
    }
    toks
}

} // verus!
