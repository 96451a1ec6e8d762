//! The line parser: one raw text line to one task record, under a
//! fixed left-to-right token precedence, or a `ParseError`.

use vstd::prelude::*;

use crate::date::{date_token, Date};
use crate::error::TodoError;
use crate::priority::{pri_token, Priority};
use crate::text::{
    is_space, join_words, lemma_join_push, lemma_tokenize_wf, no_space, str_eq, tokenize,
    tokenize_str, word_ok,
};
use crate::todo::{tags_insert, Todo, TodoView};

verus! {

/// How one body token is read, by its own shape: a context, a
/// project, a tag, or a plain description word.
pub ghost enum TokenClass {
    Context(Seq<char>),
    Project(Seq<char>),
    Tag(Seq<char>, Seq<char>),
    Word(Seq<char>),
}

/// The position of the first colon, or the length when there is
/// none.
pub open spec fn first_colon(t: Seq<char>) -> int
    decreases t.len(),
{
    if t.len() == 0 {
        0
    } else if t[0] == ':' {
        0
    } else {
        1 + first_colon(t.drop_first())
    }
}

/// Splits a token at its first colon into a tag pair, exactly when
/// both sides are non-empty and whitespace-free.
pub open spec fn tag_split(t: Seq<char>) -> Option<(Seq<char>, Seq<char>)> {
    let i = first_colon(t);
    if 0 < i && i + 1 < t.len() && no_space(t.take(i)) && no_space(t.skip(i + 1)) {
        Some((t.take(i), t.skip(i + 1)))
    } else {
        None
    }
}

/// Reads one body token by its shape: `@`-led tokens are contexts,
/// `+`-led tokens are projects, colon-split tokens with non-empty
/// whitespace-free halves are tags, and everything else is a
/// description word.
pub open spec fn classify(t: Seq<char>) -> TokenClass {
    if t.len() > 1 && t[0] == '@' {
        TokenClass::Context(t.skip(1))
    } else if t.len() > 1 && t[0] == '+' {
        TokenClass::Project(t.skip(1))
    } else {
        match tag_split(t) {
            Some(kv) => TokenClass::Tag(kv.0, kv.1),
            None => TokenClass::Word(t),
        }
    }
}

/// What the body tokens accumulate to: description words, contexts
/// and projects in encountered order, and tags with last write
/// winning.
#[verifier::ext_equal]
pub ghost struct BodyAcc {
    pub words: Seq<Seq<char>>,
    pub contexts: Seq<Seq<char>>,
    pub projects: Seq<Seq<char>>,
    pub tags: Seq<(Seq<char>, Seq<char>)>,
}

/// The empty accumulation.
pub open spec fn empty_body() -> BodyAcc {
    BodyAcc {
        words: Seq::empty(),
        contexts: Seq::empty(),
        projects: Seq::empty(),
        tags: Seq::empty(),
    }
}

/// Accumulates one classified token.
pub open spec fn body_step(acc: BodyAcc, t: Seq<char>) -> BodyAcc {
    match classify(t) {
        TokenClass::Context(c) => BodyAcc { contexts: acc.contexts.push(c), ..acc },
        TokenClass::Project(p) => BodyAcc { projects: acc.projects.push(p), ..acc },
        TokenClass::Tag(k, v) => BodyAcc { tags: tags_insert(acc.tags, k, v), ..acc },
        TokenClass::Word(w) => BodyAcc { words: acc.words.push(w), ..acc },
    }
}

/// Accumulates a token list, left to right, onto an accumulation
/// already made.
pub open spec fn body_fold(acc: BodyAcc, toks: Seq<Seq<char>>) -> BodyAcc
    decreases toks.len(),
{
    if toks.len() == 0 {
        acc
    } else {
        body_step(body_fold(acc, toks.drop_last()), toks.last())
    }
}

/// Accumulates a whole body token list, left to right.
pub open spec fn parse_body(toks: Seq<Seq<char>>) -> BodyAcc {
    body_fold(empty_body(), toks)
}

/// Folding a concatenation folds the first part and then the second.
pub proof fn lemma_body_fold_concat(acc: BodyAcc, a: Seq<Seq<char>>, b: Seq<Seq<char>>)
    ensures
        body_fold(acc, a + b) == body_fold(body_fold(acc, a), b),
    decreases b.len(),
{
    if b.len() == 0 {
        assert(a + b =~= a);
    } else {
        assert((a + b).drop_last() =~= a + b.drop_last());
        assert((a + b).last() == b.last());
        lemma_body_fold_concat(acc, a, b.drop_last());
    }
}

/// What parsing a line yields: `None` for a line with no tokens or
/// with no description, context or project; otherwise the task the
/// grammar assigns. The first token `x` marks completion; a completed
/// task may then carry a completion date; an incomplete task may
/// carry a priority token; either may then carry a creation date; the
/// remaining tokens are classified each by its own shape.
pub open spec fn parse_spec(line: Seq<char>) -> Option<TodoView> {
    let toks = tokenize(line);
    if toks.len() == 0 {
        None
    } else {
        let completed = toks[0] == seq!['x'];
        let rest1 = if completed {
            toks.drop_first()
        } else {
            toks
        };
        let has_cd = completed && rest1.len() > 0 && date_token(rest1[0]) is Some;
        let cdate = if has_cd {
            date_token(rest1[0])
        } else {
            None
        };
        let rest2 = if has_cd {
            rest1.drop_first()
        } else {
            rest1
        };
        let has_pri = !completed && rest2.len() > 0 && pri_token(rest2[0]) is Some;
        let pri = if has_pri {
            pri_token(rest2[0])
        } else {
            None
        };
        let rest3 = if has_pri {
            rest2.drop_first()
        } else {
            rest2
        };
        let has_cr = rest3.len() > 0 && date_token(rest3[0]) is Some;
        let crdate = if has_cr {
            date_token(rest3[0])
        } else {
            None
        };
        let rest4 = if has_cr {
            rest3.drop_first()
        } else {
            rest3
        };
        let body = parse_body(rest4);
        if body.words.len() == 0 && body.contexts.len() == 0 && body.projects.len() == 0 {
            None
        } else {
            Some(
                TodoView {
                    completed,
                    priority: pri,
                    completion_date: cdate,
                    creation_date: crdate,
                    description: join_words(body.words),
                    contexts: body.contexts,
                    projects: body.projects,
                    tags: body.tags,
                },
            )
        }
    }
}


/// Empty or whitespace-only input always fails: a line of whitespace
/// alone yields no token, and a line with no token parses to nothing.
pub proof fn lemma_blank_line_rejected(line: Seq<char>)
    requires
        forall|i: int| 0 <= i < line.len() ==> is_space(#[trigger] line[i]),
    ensures
        parse_spec(line) is None,
{
    crate::text::lemma_tokenize_blank(line);
}

/// Pins the first colon down: it is the unique position before which
/// no colon stands and at which the token ends or a colon stands.
pub proof fn lemma_first_colon_is(t: Seq<char>, k: int)
    requires
        0 <= k <= t.len(),
        forall|i: int| 0 <= i < k ==> #[trigger] t[i] != ':',
        k == t.len() || t[k] == ':',
    ensures
        first_colon(t) == k,
    decreases t.len(),
{
    if k == 0 {
    } else {
        assert(t[0] != ':');
        lemma_first_colon_is(t.drop_first(), k - 1);
    }
}

/// Splits a token at its first colon into a tag pair, exactly when
/// the token's shape allows one.
fn split_tag(tok: &str) -> (r: Option<(String, String)>)
    requires
        no_space(tok@),
    ensures
        r is Some <==> tag_split(tok@) is Some,
        r matches Some(kv) ==> tag_split(tok@) == Some((kv.0@, kv.1@)),
{
    let n = tok.unicode_len();
    let mut i: usize = 0;
    while i < n && tok.get_char(i) != ':'
        invariant
            i <= n,
            n == tok@.len(),
            forall|k: int| 0 <= k < i ==> #[trigger] tok@[k] != ':',
        decreases n - i,
    {
        i = i + 1;
    }
    proof {
        lemma_first_colon_is(tok@, i as int);
    }
    if 0 < i && i < n && i + 1 < n {
        let key = tok.substring_char(0, i).to_owned();
        let value = tok.substring_char(i + 1, n).to_owned();
        proof {
            assert(tok@.take(i as int) =~= tok@.subrange(0, i as int));
            assert(tok@.skip(i as int + 1) =~= tok@.subrange(i as int + 1, n as int));
            assert(no_space(tok@.take(i as int)));
            assert(no_space(tok@.skip(i as int + 1)));
        }
        Some((key, value))
    } else {
        None
    }
}

/// Parses one Todo.txt line into a task. Fails with `ParseError`,
/// carrying the line, exactly when the line has no tokens at all or
/// when, after the structural tokens are taken, no description word,
/// context or project remains; every other line yields the task
/// `parse_spec` assigns to it.
pub fn parse_todo(line: &str) -> (r: Result<Todo, TodoError>)
    ensures
        r is Ok <==> parse_spec(line@) is Some,
        r matches Ok(t) ==> parse_spec(line@) == Some(t@),
        r matches Err(e) ==> e matches TodoError::ParseError(l) && l@ == line@,
{
    let toks = tokenize_str(line);
    let ghost gt = toks@.map_values(|t: String| t@);
    proof {
        lemma_tokenize_wf(line@);
    }
    let n = toks.len();
    if n == 0 {
        return Err(TodoError::ParseError(line.to_owned()));
    }
    let ghost completed_g = gt[0] == seq!['x'];
    let ghost rest1 = if completed_g {
        gt.drop_first()
    } else {
        gt
    };
    let mut completed = false;
    let mut completion_date: Option<Date> = None;
    let mut priority: Option<Priority> = None;
    let mut creation_date: Option<Date> = None;
    let mut idx: usize = 0;
    if str_eq(toks[0].as_str(), "x") {
        completed = true;
        idx = 1;
    }
    proof {
        reveal_strlit("x");
        assert("x"@ =~= seq!['x']);
        assert(completed == completed_g);
        assert(gt.skip(idx as int) =~= rest1);
    }
    let ghost has_cd = completed_g && rest1.len() > 0 && date_token(rest1[0]) is Some;
    let ghost rest2 = if has_cd {
        rest1.drop_first()
    } else {
        rest1
    };
    if completed && idx < n {
        match crate::date::parse_date_str(toks[idx].as_str()) {
            Some(d) => {
                completion_date = Some(d);
                idx = idx + 1;
            },
            None => {},
        }
    }
    proof {
        assert(gt.skip(idx as int) =~= rest2);
    }
    let ghost has_pri = !completed_g && rest2.len() > 0 && pri_token(rest2[0]) is Some;
    let ghost rest3 = if has_pri {
        rest2.drop_first()
    } else {
        rest2
    };
    if !completed && idx < n {
        match Priority::parse_token(toks[idx].as_str()) {
            Ok(p) => {
                priority = Some(p);
                idx = idx + 1;
            },
            Err(_) => {},
        }
    }
    proof {
        assert(gt.skip(idx as int) =~= rest3);
    }
    let ghost has_cr = rest3.len() > 0 && date_token(rest3[0]) is Some;
    let ghost rest4 = if has_cr {
        rest3.drop_first()
    } else {
        rest3
    };
    if idx < n {
        match crate::date::parse_date_str(toks[idx].as_str()) {
            Some(d) => {
                creation_date = Some(d);
                idx = idx + 1;
            },
            None => {},
        }
    }
    proof {
        assert(gt.skip(idx as int) =~= rest4);
    }
    let ghost hdr = idx as int;
    let mut words: Vec<String> = Vec::new();
    let mut contexts: Vec<String> = Vec::new();
    let mut projects: Vec<String> = Vec::new();
    let mut tags: Vec<(String, String)> = Vec::new();
    let mut k: usize = idx;
    proof {
        assert(gt.subrange(hdr, k as int) =~= Seq::<Seq<char>>::empty());
        assert(words@.map_values(|s: String| s@) =~= Seq::<Seq<char>>::empty());
        assert(contexts@.map_values(|s: String| s@) =~= Seq::<Seq<char>>::empty());
        assert(projects@.map_values(|s: String| s@) =~= Seq::<Seq<char>>::empty());
        assert(tags@.map_values(|kv: (String, String)| (kv.0@, kv.1@)) =~= Seq::<
            (Seq<char>, Seq<char>),
        >::empty());
    }
    while k < n
        invariant
            0 <= hdr <= k as int <= n as int,
            n == toks.len(),
            gt.len() == n as int,
            gt == toks@.map_values(|t: String| t@),
            gt == tokenize(line@),
            forall|j: int| 0 <= j < gt.len() ==> word_ok(#[trigger] gt[j]),
            words@.map_values(|s: String| s@) == parse_body(gt.subrange(hdr, k as int)).words,
            contexts@.map_values(|s: String| s@) == parse_body(gt.subrange(hdr, k as int)).contexts,
            projects@.map_values(|s: String| s@) == parse_body(gt.subrange(hdr, k as int)).projects,
            tags@.map_values(|kv: (String, String)| (kv.0@, kv.1@)) == parse_body(
                gt.subrange(hdr, k as int),
            ).tags,
        decreases n - k,
    {
        let ghost pref = gt.subrange(hdr, k as int);
        let ghost prev = parse_body(pref);
        let tok = toks[k].as_str();
        proof {
            assert(gt[k as int] == tok@);
            assert(word_ok(tok@));
            assert(gt.subrange(hdr, k as int + 1).drop_last() =~~= pref);
            assert(gt.subrange(hdr, k as int + 1).last() == gt[k as int]);
        }
        let tlen = tok.unicode_len();
        if tlen > 1 && tok.get_char(0) == '@' {
            contexts.push(tok.substring_char(1, tlen).to_owned());
            proof {
                assert(tok@.subrange(1, tlen as int) =~= tok@.skip(1));
                assert(classify(tok@) == TokenClass::Context(tok@.skip(1)));
                assert(contexts@.map_values(|s: String| s@) =~= prev.contexts.push(tok@.skip(1)));
            }
        } else if tlen > 1 && tok.get_char(0) == '+' {
            projects.push(tok.substring_char(1, tlen).to_owned());
            proof {
                assert(tok@.subrange(1, tlen as int) =~= tok@.skip(1));
                assert(classify(tok@) == TokenClass::Project(tok@.skip(1)));
                assert(projects@.map_values(|s: String| s@) =~= prev.projects.push(tok@.skip(1)));
            }
        } else {
            match split_tag(tok) {
                Some(kv) => {
                    proof {
                        assert(classify(tok@) == TokenClass::Tag(kv.0@, kv.1@));
                    }
                    crate::todo::tags_vec_insert(&mut tags, kv.0, kv.1);
                },
                None => {
                    words.push(tok.to_owned());
                    proof {
                        assert(classify(tok@) == TokenClass::Word(tok@));
                        assert(words@.map_values(|s: String| s@) =~= prev.words.push(tok@));
                    }
                },
            }
        }
        k = k + 1;
    }
    proof {
        assert(gt.subrange(hdr, n as int) =~= gt.skip(hdr));
    }
    if words.is_empty() && contexts.is_empty() && projects.is_empty() {
        proof {
            assert(parse_body(rest4).words.len() == 0);
            assert(parse_body(rest4).contexts.len() == 0);
            assert(parse_body(rest4).projects.len() == 0);
        }
        return Err(TodoError::ParseError(line.to_owned()));
    }
    let description = join_with_spaces(&words);
    let t = Todo {
        completed,
        priority,
        completion_date,
        creation_date,
        description,
        contexts,
        projects,
        tags,
    };
    proof {
        assert(parse_spec(line@) matches Some(tv) && tv =~= t@);
    }
    Ok(t)
}

/// Joins description words with single spaces, in order.
fn join_with_spaces(words: &Vec<String>) -> (r: String)
    ensures
        r@ == join_words(words@.map_values(|s: String| s@)),
{
    let ghost ws = words@.map_values(|s: String| s@);
    let n = words.len();
    let mut out = String::new();
    let mut i: usize = 0;
    proof {
        assert(ws.take(0) =~= Seq::<Seq<char>>::empty());
        assert(out@ =~= join_words(ws.take(0)));
    }
    while i < n
        invariant
            i <= n,
            n == words.len(),
            ws == words@.map_values(|s: String| s@),
            out@ == join_words(ws.take(i as int)),
        decreases n - i,
    {
        if i > 0 {
            out.push(' ');
        }
        out.append(words[i].as_str());
        i = i + 1;
        proof {
            assert(ws.take(i as int).drop_last() =~= ws.take(i as int - 1));
            assert(ws.take(i as int) =~= ws.take(i as int - 1).push(ws[i as int - 1]));
            lemma_join_push(ws.take(i as int - 1), ws[i as int - 1]);
            assert(out@ =~= join_words(ws.take(i as int)));
        }
    }
    proof {
        assert(ws.take(n as int) =~= ws);
    }
    out
}

} // verus!
