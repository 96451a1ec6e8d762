//! The round-trip laws: parsing the serialized form of a task
//! reproduces its semantic content, and a completed task's rendering
//! never depends on its stored priority.

use vstd::prelude::*;

use crate::date::{date_token, valid_ymd, lemma_date_round_trip};
use crate::parser::{
    body_fold, body_step, classify, empty_body, lemma_body_fold_concat, lemma_first_colon_is, parse_body,
    parse_spec, BodyAcc, TokenClass,
};
use crate::priority::{is_priority_letter, lemma_priority_round_trip, pri_text, pri_token};
use crate::text::{
    is_space, join_words, lemma_tokenize_head, lemma_tokenize_join_spaced, lemma_tokenize_wf,
    spaced_tokens, tokenize, word_ok,
};
use crate::list::{lemma_split_lines_cons, lemma_split_lines_single, load_views, no_newline, render_all, split_lines};
use crate::todo::{
    head_text, index_of_key, insert_tag_sorted, lemma_index_of_key, render_spec, sort_tags,
    tags_has_key, tags_map, tag_value, tail_tokens, TodoView,
};

verus! {

/// A tag key that survives a round trip: non-empty, whitespace-free,
/// colon-free, and not led by a context or project sigil.
pub open spec fn tag_key_ok(k: Seq<char>) -> bool {
    &&& word_ok(k)
    &&& (forall|i: int| 0 <= i < k.len() ==> #[trigger] k[i] != ':')
    &&& k[0] != '@'
    &&& k[0] != '+'
}

/// No two tags carry the same key.
pub open spec fn keys_unique(tags: Seq<(Seq<char>, Seq<char>)>) -> bool {
    forall|i: int, j: int|
        0 <= i < j < tags.len() ==> (#[trigger] tags[i]).0 != (#[trigger] tags[j]).0
}

/// The task records whose rendering parses back to the same semantic
/// content: incomplete, with a valid priority letter and creation
/// date where present; a description that is exactly its words joined
/// by single spaces, each word a plain word to the parser, the first
/// not mistakable for a header token the parser would consume;
/// non-empty whitespace-free labels; tag keys and values that read
/// back as the same tag; unique keys; and at least one word, context
/// or project.
pub open spec fn renderable(t: TodoView) -> bool {
    let ws = tokenize(t.description);
    &&& !t.completed
    &&& (t.priority matches Some(c) ==> is_priority_letter(c))
    &&& (t.creation_date matches Some(d) ==> valid_ymd(d.0, d.1, d.2))
    &&& t.description == join_words(ws)
    &&& (forall|i: int| 0 <= i < ws.len() ==> classify(#[trigger] ws[i]) == TokenClass::Word(ws[i]))
    &&& ((ws.len() > 0 && t.priority is None && t.creation_date is None) ==> (ws[0] != seq!['x']
        && pri_token(ws[0]) is None && date_token(ws[0]) is None))
    &&& ((ws.len() > 0 && t.priority is Some && t.creation_date is None) ==> date_token(ws[0]) is None)
    &&& (forall|i: int| 0 <= i < t.contexts.len() ==> word_ok(#[trigger] t.contexts[i]))
    &&& (forall|i: int| 0 <= i < t.projects.len() ==> word_ok(#[trigger] t.projects[i]))
    &&& (forall|i: int|
        0 <= i < t.tags.len() ==> tag_key_ok((#[trigger] t.tags[i]).0) && word_ok(t.tags[i].1))
    &&& keys_unique(t.tags)
    &&& (ws.len() > 0 || t.contexts.len() > 0 || t.projects.len() > 0)
}

/// A project token: whitespace-free, read back as the same project,
/// and not mistakable for a completion marker, priority or date.
proof fn lemma_project_token(p: Seq<char>)
    requires
        word_ok(p),
    ensures
        word_ok(seq!['+'] + p),
        classify(seq!['+'] + p) == TokenClass::Project(p),
        seq!['+'] + p != seq!['x'],
        pri_token(seq!['+'] + p) is None,
        date_token(seq!['+'] + p) is None,
{
    let t = seq!['+'] + p;
    assert(t[0] == '+');
    assert(t.len() > 1);
    assert forall|i: int| 0 <= i < t.len() implies !is_space(#[trigger] t[i]) by {
        if i > 0 {
            assert(t[i] == p[i - 1]);
            assert(!is_space(p[i - 1]));
        }
    }
    assert(t.skip(1) =~= p);
    assert(t.len() != 1);
}

/// A context token: whitespace-free, read back as the same context,
/// and not mistakable for a completion marker, priority or date.
proof fn lemma_context_token(c: Seq<char>)
    requires
        word_ok(c),
    ensures
        word_ok(seq!['@'] + c),
        classify(seq!['@'] + c) == TokenClass::Context(c),
        seq!['@'] + c != seq!['x'],
        pri_token(seq!['@'] + c) is None,
        date_token(seq!['@'] + c) is None,
{
    let t = seq!['@'] + c;
    assert(t[0] == '@');
    assert(t.len() > 1);
    assert forall|i: int| 0 <= i < t.len() implies !is_space(#[trigger] t[i]) by {
        if i > 0 {
            assert(t[i] == c[i - 1]);
            assert(!is_space(c[i - 1]));
        }
    }
    assert(t.skip(1) =~= c);
    assert(t.len() != 1);
}

/// A tag token: whitespace-free, read back as the same pair, and not
/// mistakable for a completion marker, priority or date.
proof fn lemma_tag_token(k: Seq<char>, v: Seq<char>)
    requires
        tag_key_ok(k),
        word_ok(v),
    ensures
        word_ok(k + seq![':'] + v),
        classify(k + seq![':'] + v) == TokenClass::Tag(k, v),
        k + seq![':'] + v != seq!['x'],
        pri_token(k + seq![':'] + v) is None,
        date_token(k + seq![':'] + v) is None,
{
    let t = k + seq![':'] + v;
    let kl = k.len() as int;
    assert(t.len() == kl + 1 + v.len());
    assert forall|i: int| 0 <= i < t.len() implies !is_space(#[trigger] t[i]) by {
        if i < kl {
            assert(t[i] == k[i]);
            assert(!is_space(k[i]));
        } else if i == kl {
            assert(t[i] == ':');
        } else {
            assert(t[i] == v[i - kl - 1]);
            assert(!is_space(v[i - kl - 1]));
        }
    }
    assert forall|i: int| 0 <= i < kl implies #[trigger] t[i] != ':' by {
        assert(t[i] == k[i]);
        assert(k[i] != ':');
    }
    assert(t[kl] == ':');
    lemma_first_colon_is(t, kl);
    assert(t.take(kl) =~= k);
    assert(t.skip(kl + 1) =~= v);
    assert(t[0] == k[0]);
    assert(t.len() != 1);
    if t.len() == 3 {
        assert(kl == 1);
        assert(t[1] == ':');
        assert(!is_priority_letter(':'));
    }
    if t.len() == 10 {
        assert(1 <= kl <= 8);
        assert(t[kl] == ':');
        assert(!crate::date::date_shaped(t)) by {
            if crate::date::date_shaped(t) {
                assert(crate::date::is_digit(t[kl]) || t[kl] == '-');
            }
        }
    }
}

/// Folding plain words appends them to the accumulated words and
/// touches nothing else.
proof fn lemma_fold_words(acc: BodyAcc, ws: Seq<Seq<char>>)
    requires
        forall|i: int| 0 <= i < ws.len() ==> classify(#[trigger] ws[i]) == TokenClass::Word(ws[i]),
    ensures
        body_fold(acc, ws) == (BodyAcc { words: acc.words + ws, ..acc }),
    decreases ws.len(),
{
    if ws.len() == 0 {
        assert(acc.words + ws =~= acc.words);
        assert(body_fold(acc, ws) =~= (BodyAcc { words: acc.words + ws, ..acc }));
    } else {
        lemma_fold_words(acc, ws.drop_last());
        assert(classify(ws[ws.len() - 1]) == TokenClass::Word(ws[ws.len() - 1]));
        let prev = body_fold(acc, ws.drop_last());
        assert(body_fold(acc, ws) == body_step(prev, ws.last()));
        assert(prev.words.push(ws.last()) =~= acc.words + ws);
        assert(body_fold(acc, ws) =~= (BodyAcc { words: acc.words + ws, ..acc }));
    }
}

/// Folding project tokens appends the projects and touches nothing
/// else.
proof fn lemma_fold_projects(acc: BodyAcc, ps: Seq<Seq<char>>)
    requires
        forall|i: int| 0 <= i < ps.len() ==> word_ok(#[trigger] ps[i]),
    ensures
        body_fold(acc, ps.map_values(|p: Seq<char>| seq!['+'] + p)) == (BodyAcc {
            projects: acc.projects + ps,
            ..acc
        }),
    decreases ps.len(),
{
    let toks = ps.map_values(|p: Seq<char>| seq!['+'] + p);
    if ps.len() == 0 {
        assert(acc.projects + ps =~= acc.projects);
        assert(body_fold(acc, toks) =~= (BodyAcc { projects: acc.projects + ps, ..acc }));
    } else {
        assert(toks.drop_last() =~= ps.drop_last().map_values(|p: Seq<char>| seq!['+'] + p));
        lemma_fold_projects(acc, ps.drop_last());
        lemma_project_token(ps.last());
        assert(toks.last() == seq!['+'] + ps.last());
        let prev = body_fold(acc, toks.drop_last());
        assert(body_fold(acc, toks) == body_step(prev, toks.last()));
        assert(prev.projects.push(ps.last()) =~= acc.projects + ps);
        assert(body_fold(acc, toks) =~= (BodyAcc { projects: acc.projects + ps, ..acc }));
    }
}

/// Folding context tokens appends the contexts and touches nothing
/// else.
proof fn lemma_fold_contexts(acc: BodyAcc, cs: Seq<Seq<char>>)
    requires
        forall|i: int| 0 <= i < cs.len() ==> word_ok(#[trigger] cs[i]),
    ensures
        body_fold(acc, cs.map_values(|c: Seq<char>| seq!['@'] + c)) == (BodyAcc {
            contexts: acc.contexts + cs,
            ..acc
        }),
    decreases cs.len(),
{
    let toks = cs.map_values(|c: Seq<char>| seq!['@'] + c);
    if cs.len() == 0 {
        assert(acc.contexts + cs =~= acc.contexts);
        assert(body_fold(acc, toks) =~= (BodyAcc { contexts: acc.contexts + cs, ..acc }));
    } else {
        assert(toks.drop_last() =~= cs.drop_last().map_values(|c: Seq<char>| seq!['@'] + c));
        lemma_fold_contexts(acc, cs.drop_last());
        lemma_context_token(cs.last());
        assert(toks.last() == seq!['@'] + cs.last());
        let prev = body_fold(acc, toks.drop_last());
        assert(body_fold(acc, toks) == body_step(prev, toks.last()));
        assert(prev.contexts.push(cs.last()) =~= acc.contexts + cs);
        assert(body_fold(acc, toks) =~= (BodyAcc { contexts: acc.contexts + cs, ..acc }));
    }
}

/// Folding tag tokens with fresh, pairwise distinct keys appends the
/// pairs and touches nothing else.
proof fn lemma_fold_tags(acc: BodyAcc, pairs: Seq<(Seq<char>, Seq<char>)>)
    requires
        forall|i: int|
            0 <= i < pairs.len() ==> tag_key_ok((#[trigger] pairs[i]).0) && word_ok(pairs[i].1),
        keys_unique(pairs),
        forall|i: int| 0 <= i < pairs.len() ==> !tags_has_key(acc.tags, (#[trigger] pairs[i]).0),
    ensures
        body_fold(acc, pairs.map_values(|kv: (Seq<char>, Seq<char>)| kv.0 + seq![':'] + kv.1))
            == (BodyAcc { tags: acc.tags + pairs, ..acc }),
    decreases pairs.len(),
{
    let toks = pairs.map_values(|kv: (Seq<char>, Seq<char>)| kv.0 + seq![':'] + kv.1);
    if pairs.len() == 0 {
        assert(acc.tags + pairs =~= acc.tags);
        assert(body_fold(acc, toks) =~= (BodyAcc { tags: acc.tags + pairs, ..acc }));
    } else {
        let dl = pairs.drop_last();
        let last = pairs.last();
        assert(toks.drop_last() =~= dl.map_values(
            |kv: (Seq<char>, Seq<char>)| kv.0 + seq![':'] + kv.1,
        ));
        lemma_fold_tags(acc, dl);
        lemma_tag_token(last.0, last.1);
        assert(toks.last() == last.0 + seq![':'] + last.1);
        let prev = body_fold(acc, toks.drop_last());
        assert(body_fold(acc, toks) == body_step(prev, toks.last()));
        let mid = acc.tags + dl;
        assert(!tags_has_key(mid, last.0)) by {
            if tags_has_key(mid, last.0) {
                let i = choose|i: int| 0 <= i < mid.len() && (#[trigger] mid[i]).0 == last.0;
                if i < acc.tags.len() {
                    assert(acc.tags[i].0 == last.0);
                    assert(pairs[pairs.len() - 1].0 == last.0);
                } else {
                    assert(pairs[i - acc.tags.len()].0 == last.0);
                    assert(pairs[pairs.len() - 1].0 == last.0);
                }
            }
        }
        assert(mid.push(last) =~= acc.tags + pairs);
        assert(body_fold(acc, toks) =~= (BodyAcc { tags: acc.tags + pairs, ..acc }));
    }
}

/// Sorted insertion keeps exactly the pairs: one more of the inserted
/// pair, the rest unchanged.
proof fn lemma_insert_tag_contains(s: Seq<(Seq<char>, Seq<char>)>, kv: (Seq<char>, Seq<char>))
    ensures
        insert_tag_sorted(s, kv).len() == s.len() + 1,
        forall|x: (Seq<char>, Seq<char>)|
            #[trigger] insert_tag_sorted(s, kv).contains(x) <==> (s.contains(x) || x == kv),
    decreases s.len(),
{
    if s.len() == 0 {
        assert forall|x: (Seq<char>, Seq<char>)|
            #[trigger] insert_tag_sorted(s, kv).contains(x) <==> (s.contains(x) || x == kv) by {
            assert(insert_tag_sorted(s, kv) == seq![kv]);
            if insert_tag_sorted(s, kv).contains(x) {
                let i = choose|i: int|
                    0 <= i < insert_tag_sorted(s, kv).len() && insert_tag_sorted(s, kv)[i] == x;
                assert(x == kv);
            }
            if x == kv {
                assert(insert_tag_sorted(s, kv)[0] == x);
            }
        }
    } else if crate::text::lex_le(s.last().0, kv.0) {
        assert forall|x: (Seq<char>, Seq<char>)|
            #[trigger] insert_tag_sorted(s, kv).contains(x) <==> (s.contains(x) || x == kv) by {
            let r = s.push(kv);
            if r.contains(x) {
                let i = choose|i: int| 0 <= i < r.len() && r[i] == x;
                if i < s.len() {
                    assert(s[i] == x);
                } else {
                    assert(x == kv);
                }
            }
            if s.contains(x) {
                let i = choose|i: int| 0 <= i < s.len() && s[i] == x;
                assert(r[i] == x);
            }
            if x == kv {
                assert(r[s.len() as int] == x);
            }
        }
    } else {
        let dl = s.drop_last();
        lemma_insert_tag_contains(dl, kv);
        let inner = insert_tag_sorted(dl, kv);
        let r = inner.push(s.last());
        assert forall|x: (Seq<char>, Seq<char>)|
            #[trigger] r.contains(x) <==> (s.contains(x) || x == kv) by {
            if r.contains(x) {
                let i = choose|i: int| 0 <= i < r.len() && r[i] == x;
                if i < inner.len() {
                    assert(inner[i] == x);
                    assert(inner.contains(x));
                    if dl.contains(x) {
                        let j = choose|j: int| 0 <= j < dl.len() && dl[j] == x;
                        assert(s[j] == x);
                    }
                } else {
                    assert(x == s.last());
                    assert(s[s.len() - 1] == x);
                }
            }
            if s.contains(x) {
                let i = choose|i: int| 0 <= i < s.len() && s[i] == x;
                if i < s.len() - 1 {
                    assert(dl[i] == x);
                    assert(inner.contains(x));
                    let j = choose|j: int| 0 <= j < inner.len() && inner[j] == x;
                    assert(r[j] == x);
                } else {
                    assert(r[r.len() - 1] == x);
                }
            }
            if x == kv {
                assert(inner.contains(x));
                let j = choose|j: int| 0 <= j < inner.len() && inner[j] == x;
                assert(r[j] == x);
            }
        }
    }
}

/// Sorting keeps exactly the pairs.
pub proof fn lemma_sort_tags_contains(tags: Seq<(Seq<char>, Seq<char>)>)
    ensures
        sort_tags(tags).len() == tags.len(),
        forall|x: (Seq<char>, Seq<char>)|
            #[trigger] sort_tags(tags).contains(x) <==> tags.contains(x),
    decreases tags.len(),
{
    if tags.len() == 0 {
        assert forall|x: (Seq<char>, Seq<char>)|
            #[trigger] sort_tags(tags).contains(x) <==> tags.contains(x) by {
            if sort_tags(tags).contains(x) {
                let i = choose|i: int| 0 <= i < sort_tags(tags).len() && sort_tags(tags)[i] == x;
            }
            if tags.contains(x) {
                let i = choose|i: int| 0 <= i < tags.len() && tags[i] == x;
            }
        }
    } else {
        let dl = tags.drop_last();
        lemma_sort_tags_contains(dl);
        lemma_insert_tag_contains(sort_tags(dl), tags.last());
        assert forall|x: (Seq<char>, Seq<char>)|
            #[trigger] sort_tags(tags).contains(x) <==> tags.contains(x) by {
            if sort_tags(tags).contains(x) {
                if sort_tags(dl).contains(x) {
                    assert(dl.contains(x));
                    let i = choose|i: int| 0 <= i < dl.len() && dl[i] == x;
                    assert(tags[i] == x);
                } else {
                    assert(x == tags.last());
                    assert(tags[tags.len() - 1] == x);
                }
            }
            if tags.contains(x) {
                let i = choose|i: int| 0 <= i < tags.len() && tags[i] == x;
                if i < tags.len() - 1 {
                    assert(dl[i] == x);
                    assert(sort_tags(dl).contains(x));
                } else {
                    assert(x == tags.last());
                }
            }
        }
    }
}

/// Inserting a pair with a fresh key into a list with pairwise
/// distinct keys keeps the keys pairwise distinct, and carries
/// exactly the old keys and the new one.
proof fn lemma_insert_tag_unique(s: Seq<(Seq<char>, Seq<char>)>, kv: (Seq<char>, Seq<char>))
    requires
        keys_unique(s),
        !tags_has_key(s, kv.0),
    ensures
        keys_unique(insert_tag_sorted(s, kv)),
        forall|k: Seq<char>|
            #[trigger] tags_has_key(insert_tag_sorted(s, kv), k) <==> (tags_has_key(s, k) || k
                == kv.0),
    decreases s.len(),
{
    let r = insert_tag_sorted(s, kv);
    if s.len() == 0 {
        assert forall|k: Seq<char>|
            #[trigger] tags_has_key(r, k) <==> (tags_has_key(s, k) || k == kv.0) by {
            if tags_has_key(r, k) {
                let i = choose|i: int| 0 <= i < r.len() && (#[trigger] r[i]).0 == k;
                assert(r[i] == kv);
            }
            if k == kv.0 {
                assert(r[0].0 == k);
            }
        }
    } else if crate::text::lex_le(s.last().0, kv.0) {
        assert(r == s.push(kv));
        assert forall|i: int, j: int|
            0 <= i < j < r.len() implies (#[trigger] r[i]).0 != (#[trigger] r[j]).0 by {
            if j == s.len() as int {
                assert(r[i] == s[i]);
                if s[i].0 == kv.0 {
                    assert(tags_has_key(s, kv.0));
                }
            } else {
                assert(r[i] == s[i] && r[j] == s[j]);
            }
        }
        assert forall|k: Seq<char>|
            #[trigger] tags_has_key(r, k) <==> (tags_has_key(s, k) || k == kv.0) by {
            if tags_has_key(r, k) {
                let i = choose|i: int| 0 <= i < r.len() && (#[trigger] r[i]).0 == k;
                if i < s.len() {
                    assert(s[i].0 == k);
                } else {
                    assert(k == kv.0);
                }
            }
            if tags_has_key(s, k) {
                let i = choose|i: int| 0 <= i < s.len() && (#[trigger] s[i]).0 == k;
                assert(r[i].0 == k);
            }
            if k == kv.0 {
                assert(r[s.len() as int].0 == k);
            }
        }
    } else {
        let dl = s.drop_last();
        assert(keys_unique(dl)) by {
            assert forall|i: int, j: int|
                0 <= i < j < dl.len() implies (#[trigger] dl[i]).0 != (#[trigger] dl[j]).0 by {
                assert(dl[i] == s[i] && dl[j] == s[j]);
            }
        }
        assert(!tags_has_key(dl, kv.0)) by {
            if tags_has_key(dl, kv.0) {
                let i = choose|i: int| 0 <= i < dl.len() && (#[trigger] dl[i]).0 == kv.0;
                assert(s[i].0 == kv.0);
            }
        }
        lemma_insert_tag_unique(dl, kv);
        let inner = insert_tag_sorted(dl, kv);
        assert(r == inner.push(s.last()));
        assert(!tags_has_key(inner, s.last().0)) by {
            if tags_has_key(dl, s.last().0) {
                let i = choose|i: int| 0 <= i < dl.len() && (#[trigger] dl[i]).0 == s.last().0;
                assert(s[i].0 == s[s.len() - 1].0);
            }
            if s.last().0 == kv.0 {
                assert(s[s.len() - 1].0 == kv.0);
                assert(tags_has_key(s, kv.0));
            }
        }
        assert forall|i: int, j: int|
            0 <= i < j < r.len() implies (#[trigger] r[i]).0 != (#[trigger] r[j]).0 by {
            if j == r.len() - 1 {
                assert(r[i] == inner[i]);
                if inner[i].0 == s.last().0 {
                    assert(tags_has_key(inner, s.last().0));
                }
            } else {
                assert(r[i] == inner[i] && r[j] == inner[j]);
            }
        }
        assert forall|k: Seq<char>|
            #[trigger] tags_has_key(r, k) <==> (tags_has_key(s, k) || k == kv.0) by {
            if tags_has_key(r, k) {
                let i = choose|i: int| 0 <= i < r.len() && (#[trigger] r[i]).0 == k;
                if i < inner.len() {
                    assert(tags_has_key(inner, k));
                    if tags_has_key(dl, k) {
                        let x = choose|x: int| 0 <= x < dl.len() && (#[trigger] dl[x]).0 == k;
                        assert(s[x].0 == k);
                    }
                } else {
                    assert(k == s.last().0);
                    assert(s[s.len() - 1].0 == k);
                }
            }
            if tags_has_key(s, k) {
                let i = choose|i: int| 0 <= i < s.len() && (#[trigger] s[i]).0 == k;
                if i < s.len() - 1 {
                    assert(dl[i].0 == k);
                    assert(tags_has_key(dl, k));
                    assert(tags_has_key(inner, k));
                    let x = choose|x: int| 0 <= x < inner.len() && (#[trigger] inner[x]).0 == k;
                    assert(r[x].0 == k);
                } else {
                    assert(r[r.len() - 1].0 == k);
                }
            }
            if k == kv.0 {
                assert(tags_has_key(inner, k));
                let x = choose|x: int| 0 <= x < inner.len() && (#[trigger] inner[x]).0 == k;
                assert(r[x].0 == k);
            }
        }
    }
}

/// Sorting a tag list with pairwise distinct keys keeps the keys
/// pairwise distinct and carries exactly the same keys.
pub proof fn lemma_sort_tags_unique(tags: Seq<(Seq<char>, Seq<char>)>)
    requires
        keys_unique(tags),
    ensures
        keys_unique(sort_tags(tags)),
        forall|k: Seq<char>|
            #[trigger] tags_has_key(sort_tags(tags), k) <==> tags_has_key(tags, k),
    decreases tags.len(),
{
    if tags.len() == 0 {
        assert forall|k: Seq<char>|
            #[trigger] tags_has_key(sort_tags(tags), k) <==> tags_has_key(tags, k) by {
            if tags_has_key(sort_tags(tags), k) {
                let i = choose|i: int|
                    0 <= i < sort_tags(tags).len() && (#[trigger] sort_tags(tags)[i]).0 == k;
            }
        }
    } else {
        let dl = tags.drop_last();
        let last = tags.last();
        assert(keys_unique(dl)) by {
            assert forall|i: int, j: int|
                0 <= i < j < dl.len() implies (#[trigger] dl[i]).0 != (#[trigger] dl[j]).0 by {
                assert(dl[i] == tags[i] && dl[j] == tags[j]);
            }
        }
        lemma_sort_tags_unique(dl);
        assert(!tags_has_key(sort_tags(dl), last.0)) by {
            if tags_has_key(dl, last.0) {
                let i = choose|i: int| 0 <= i < dl.len() && (#[trigger] dl[i]).0 == last.0;
                assert(tags[i].0 == tags[tags.len() - 1].0);
            }
        }
        lemma_insert_tag_unique(sort_tags(dl), last);
        assert forall|k: Seq<char>|
            #[trigger] tags_has_key(sort_tags(tags), k) <==> tags_has_key(tags, k) by {
            assert(tags_has_key(sort_tags(tags), k) <==> (tags_has_key(sort_tags(dl), k) || k
                == last.0));
            if tags_has_key(dl, k) {
                let i = choose|i: int| 0 <= i < dl.len() && (#[trigger] dl[i]).0 == k;
                assert(tags[i].0 == k);
            }
            if k == last.0 {
                assert(tags[tags.len() - 1].0 == k);
            }
            if tags_has_key(tags, k) {
                let i = choose|i: int| 0 <= i < tags.len() && (#[trigger] tags[i]).0 == k;
                if i < tags.len() - 1 {
                    assert(dl[i].0 == k);
                }
            }
        }
    }
}

/// With pairwise distinct keys, any pair's position determines the
/// key's value.
proof fn lemma_value_at(tags: Seq<(Seq<char>, Seq<char>)>, i: int)
    requires
        keys_unique(tags),
        0 <= i < tags.len(),
    ensures
        tag_value(tags, tags[i].0) == tags[i].1,
{
    assert(tags_has_key(tags, tags[i].0));
    lemma_index_of_key(tags, tags[i].0);
    let idx = index_of_key(tags, tags[i].0);
    if idx < i {
        assert(tags[idx].0 == tags[i].0);
    }
    if idx > i {
        assert(tags[i].0 != tags[idx].0);
    }
}

/// Every token after the description of a renderable task is
/// whitespace-free and cannot be mistaken for a completion marker,
/// priority token or date token.
proof fn lemma_tail_token_facts(t: TodoView)
    requires
        renderable(t),
    ensures
        forall|i: int|
            0 <= i < tail_tokens(t).len() ==> word_ok(#[trigger] tail_tokens(t)[i])
                && tail_tokens(t)[i] != seq!['x'] && pri_token(tail_tokens(t)[i]) is None
                && date_token(tail_tokens(t)[i]) is None,
{
    let pt = t.projects.map_values(|p: Seq<char>| seq!['+'] + p);
    let ct = t.contexts.map_values(|c: Seq<char>| seq!['@'] + c);
    let st = sort_tags(t.tags);
    let tt = st.map_values(|kv: (Seq<char>, Seq<char>)| kv.0 + seq![':'] + kv.1);
    let tail = tail_tokens(t);
    lemma_sort_tags_contains(t.tags);
    assert forall|i: int|
        0 <= i < tail.len() implies word_ok(#[trigger] tail[i]) && tail[i] != seq!['x']
            && pri_token(tail[i]) is None && date_token(tail[i]) is None by {
        if i < pt.len() {
            assert(tail[i] == pt[i]);
            assert(pt[i] == seq!['+'] + t.projects[i]);
            lemma_project_token(t.projects[i]);
        } else if i < pt.len() + ct.len() {
            assert(tail[i] == ct[i - pt.len()]);
            assert(ct[i - pt.len()] == seq!['@'] + t.contexts[i - pt.len()]);
            lemma_context_token(t.contexts[i - pt.len()]);
        } else {
            let j = i - pt.len() - ct.len();
            assert(tail[i] == tt[j]);
            assert(tt[j] == st[j].0 + seq![':'] + st[j].1);
            assert(st.contains(st[j]));
            assert(t.tags.contains(st[j]));
            let x = choose|x: int| 0 <= x < t.tags.len() && t.tags[x] == st[j];
            assert(tag_key_ok(t.tags[x].0) && word_ok(t.tags[x].1));
            lemma_tag_token(st[j].0, st[j].1);
        }
    }
}

/// Folding the body tokens of a renderable task's rendering yields
/// its words, contexts and projects in order and its tags sorted by
/// key.
proof fn lemma_body_of_render(t: TodoView)
    requires
        renderable(t),
    ensures
        parse_body(tokenize(t.description) + tail_tokens(t)) == (BodyAcc {
            words: tokenize(t.description),
            contexts: t.contexts,
            projects: t.projects,
            tags: sort_tags(t.tags),
        }),
{
    let ws = tokenize(t.description);
    let pt = t.projects.map_values(|p: Seq<char>| seq!['+'] + p);
    let ct = t.contexts.map_values(|c: Seq<char>| seq!['@'] + c);
    let st = sort_tags(t.tags);
    let tt = st.map_values(|kv: (Seq<char>, Seq<char>)| kv.0 + seq![':'] + kv.1);
    let tail = tail_tokens(t);
    lemma_sort_tags_contains(t.tags);
    lemma_sort_tags_unique(t.tags);
    assert forall|i: int|
        0 <= i < st.len() implies tag_key_ok((#[trigger] st[i]).0) && word_ok(st[i].1) by {
        assert(st.contains(st[i]));
        assert(t.tags.contains(st[i]));
        let x = choose|x: int| 0 <= x < t.tags.len() && t.tags[x] == st[i];
        assert(tag_key_ok(t.tags[x].0) && word_ok(t.tags[x].1));
    }
    let acc0 = empty_body();
    lemma_fold_words(acc0, ws);
    let acc1 = body_fold(acc0, ws);
    lemma_fold_projects(acc1, t.projects);
    let acc2 = body_fold(acc1, pt);
    lemma_fold_contexts(acc2, t.contexts);
    let acc3 = body_fold(acc2, ct);
    assert forall|i: int| 0 <= i < st.len() implies !tags_has_key(
        acc3.tags,
        (#[trigger] st[i]).0,
    ) by {
        if tags_has_key(acc3.tags, st[i].0) {
            let x = choose|x: int|
                0 <= x < acc3.tags.len() && (#[trigger] acc3.tags[x]).0 == st[i].0;
        }
    }
    lemma_fold_tags(acc3, st);
    let acc4 = body_fold(acc3, tt);
    lemma_body_fold_concat(acc0, ws, tail);
    lemma_body_fold_concat(acc1, pt + ct, tt);
    lemma_body_fold_concat(acc1, pt, ct);
    assert(tail == pt + ct + tt);
    assert(body_fold(acc1, tail) == acc4) by {
        assert(pt + ct + tt == (pt + ct) + tt);
        assert(body_fold(acc1, (pt + ct) + tt) == body_fold(body_fold(acc1, pt + ct), tt));
        assert(body_fold(acc1, pt + ct) == body_fold(body_fold(acc1, pt), ct));
    }
    assert(acc1.words =~= ws);
    assert(acc1 =~= (BodyAcc { words: ws, ..acc0 }));
    assert(acc2.projects =~= t.projects);
    assert(acc3.contexts =~= t.contexts);
    assert(acc4.tags =~= st);
    assert(parse_body(ws + tail) == acc4);
    assert(acc4 =~= (BodyAcc {
        words: ws,
        contexts: t.contexts,
        projects: t.projects,
        tags: st,
    }));
}

/// The round-trip law: parsing the rendering of a renderable task
/// succeeds and reproduces its completion state, priority, creation
/// date, description, contexts and projects exactly, and its tags up
/// to the serializer's key order: the parsed tag list is the sorted
/// one and denotes the same mapping. The stored completion date of an
/// incomplete task is not rendered, so the parsed record carries
/// none.
pub proof fn lemma_render_parse_round_trip(t: TodoView)
    requires
        renderable(t),
    ensures
        parse_spec(render_spec(t)) matches Some(u) && {
            &&& u.completed == false
            &&& u.priority == t.priority
            &&& u.completion_date is None
            &&& u.creation_date == t.creation_date
            &&& u.description == t.description
            &&& u.contexts == t.contexts
            &&& u.projects == t.projects
            &&& u.tags == sort_tags(t.tags)
            &&& tags_map(u.tags) == tags_map(t.tags)
        },
{
    let ws = tokenize(t.description);
    let tail = tail_tokens(t);
    let body_toks = ws + tail;
    let desc_tail = t.description + spaced_tokens(tail);
    lemma_tokenize_wf(t.description);
    lemma_tail_token_facts(t);
    lemma_tokenize_join_spaced(ws, tail);
    assert(tokenize(desc_tail) == body_toks);
    lemma_body_of_render(t);
    lemma_sort_tags_map(t.tags);
    assert(body_toks.len() > 0);
    match (t.priority, t.creation_date) {
        (Option::None, Option::None) => {
            assert(render_spec(t) =~= desc_tail);
            let toks = tokenize(render_spec(t));
            assert(toks == body_toks);
            assert(toks[0] != seq!['x'] && pri_token(toks[0]) is None && date_token(
                toks[0],
            ) is None) by {
                if ws.len() > 0 {
                    assert(toks[0] == ws[0]);
                } else {
                    assert(toks[0] == tail[0]);
                }
            }
            assert(parse_spec(render_spec(t)) matches Some(u) && u =~= expected_view(t));
        },
        (Option::Some(c), Option::None) => {
            assert(head_text(t) =~= pri_text(c) + seq![' ']);
            assert(render_spec(t) =~= pri_text(c) + seq![' '] + desc_tail);
            lemma_pri_text_word(c);
            lemma_tokenize_head(pri_text(c), desc_tail);
            let toks = tokenize(render_spec(t));
            assert(toks == seq![pri_text(c)] + body_toks);
            assert(toks[0] == pri_text(c));
            assert(toks[0].len() == 3);
            assert(toks[0] != seq!['x']);
            lemma_priority_round_trip(c);
            assert(pri_token(toks[0]) == Some(c));
            assert(toks.drop_first() =~= body_toks);
            assert(date_token(body_toks[0]) is None) by {
                if ws.len() > 0 {
                    assert(body_toks[0] == ws[0]);
                } else {
                    assert(body_toks[0] == tail[0]);
                }
            }
            assert(parse_spec(render_spec(t)) matches Some(u) && u =~= expected_view(t));
        },
        (Option::None, Option::Some(d)) => {
            let dt = crate::date::date_text(d.0, d.1, d.2);
            assert(head_text(t) =~= dt + seq![' ']);
            assert(render_spec(t) =~= dt + seq![' '] + desc_tail);
            lemma_date_text_word(d.0, d.1, d.2);
            lemma_tokenize_head(dt, desc_tail);
            let toks = tokenize(render_spec(t));
            assert(toks == seq![dt] + body_toks);
            assert(toks[0] == dt);
            assert(toks[0].len() == 10);
            assert(toks[0] != seq!['x']);
            assert(pri_token(toks[0]) is None);
            lemma_date_round_trip(d.0, d.1, d.2);
            assert(date_token(dt) == Some(d));
            assert(toks.drop_first() =~= body_toks);
            assert(parse_spec(render_spec(t)) matches Some(u) && u =~= expected_view(t));
        },
        (Option::Some(c), Option::Some(d)) => {
            let dt = crate::date::date_text(d.0, d.1, d.2);
            assert(head_text(t) =~= pri_text(c) + seq![' '] + (dt + seq![' ']));
            assert(render_spec(t) =~= pri_text(c) + seq![' '] + (dt + seq![' '] + desc_tail));
            lemma_pri_text_word(c);
            lemma_date_text_word(d.0, d.1, d.2);
            lemma_tokenize_head(dt, desc_tail);
            lemma_tokenize_head(pri_text(c), dt + seq![' '] + desc_tail);
            let toks = tokenize(render_spec(t));
            assert(tokenize(dt + seq![' '] + desc_tail) == seq![dt] + body_toks);
            assert(toks == seq![pri_text(c)] + (seq![dt] + body_toks));
            assert(toks[0] == pri_text(c));
            assert(toks[0] != seq!['x']);
            lemma_priority_round_trip(c);
            assert(pri_token(toks[0]) == Some(c));
            assert(toks.drop_first() =~= seq![dt] + body_toks);
            lemma_date_round_trip(d.0, d.1, d.2);
            assert(date_token(dt) == Some(d));
            assert((seq![dt] + body_toks).drop_first() =~= body_toks);
            assert(parse_spec(render_spec(t)) matches Some(u) && u =~= expected_view(t));
        },
    }
}

/// The record a round trip is expected to reproduce: the task itself
/// with no completion date and with its tags sorted by key.
pub open spec fn expected_view(t: TodoView) -> TodoView {
    TodoView { completion_date: None, tags: sort_tags(t.tags), ..t }
}

/// The priority token of a valid letter is a single whitespace-free
/// word.
proof fn lemma_pri_text_word(c: char)
    requires
        is_priority_letter(c),
    ensures
        word_ok(pri_text(c)),
{
    let p = pri_text(c);
    assert(p[0] == '(' && p[1] == c && p[2] == ')');
    assert forall|i: int| 0 <= i < p.len() implies !is_space(#[trigger] p[i]) by {
        assert(!is_space('(') && !is_space(')'));
        assert(!is_space(c));
    }
}

/// The text of a date is a single whitespace-free word.
proof fn lemma_date_text_word(y: int, m: int, d: int)
    ensures
        word_ok(crate::date::date_text(y, m, d)),
{
    let s = crate::date::date_text(y, m, d);
    assert forall|i: int| 0 <= i < s.len() implies !is_space(#[trigger] s[i]) by {
        lemma_digit_not_space(y / 1000);
        lemma_digit_not_space((y / 100) % 10);
        lemma_digit_not_space((y / 10) % 10);
        lemma_digit_not_space(y % 10);
        lemma_digit_not_space(m / 10);
        lemma_digit_not_space(m % 10);
        lemma_digit_not_space(d / 10);
        lemma_digit_not_space(d % 10);
        assert(!is_space('-'));
    }
}

/// Digit characters are not whitespace.
proof fn lemma_digit_not_space(n: int)
    ensures
        !is_space(crate::date::digit_char(n)),
{
}

/// A completed task's rendering never carries its priority: the
/// rendered line is the same with the priority removed.
pub proof fn lemma_completed_render_ignores_priority(t: TodoView)
    requires
        t.completed,
    ensures
        render_spec(t) == render_spec(TodoView { priority: None, ..t }),
{
    let u = TodoView { priority: None, ..t };
    assert(head_text(t) == head_text(u));
    assert(tail_tokens(t) == tail_tokens(u));
}

/// Break-free texts concatenate to a break-free text.
proof fn lemma_no_newline_concat(a: Seq<char>, b: Seq<char>)
    requires
        no_newline(a),
        no_newline(b),
    ensures
        no_newline(a + b),
{
    assert forall|i: int| 0 <= i < (a + b).len() implies #[trigger] (a + b)[i] != '\n' by {
        if i < a.len() {
            assert((a + b)[i] == a[i]);
        } else {
            assert((a + b)[i] == b[i - a.len()]);
        }
    }
}

/// A join of whitespace-free words holds no line break.
proof fn lemma_join_words_no_newline(ws: Seq<Seq<char>>)
    requires
        forall|i: int| 0 <= i < ws.len() ==> word_ok(#[trigger] ws[i]),
    ensures
        no_newline(join_words(ws)),
    decreases ws.len(),
{
    if ws.len() == 0 {
    } else if ws.len() == 1 {
        assert forall|i: int|
            0 <= i < join_words(ws).len() implies #[trigger] join_words(ws)[i] != '\n' by {
            assert(join_words(ws)[i] == ws[0][i]);
            assert(!is_space(ws[0][i]));
            assert(is_space('\n'));
        }
    } else {
        lemma_join_words_no_newline(ws.drop_first());
        let s = ws[0] + seq![' '] + join_words(ws.drop_first());
        assert forall|i: int| 0 <= i < s.len() implies #[trigger] s[i] != '\n' by {
            if i < ws[0].len() {
                assert(s[i] == ws[0][i]);
                assert(!is_space(ws[0][i]));
                assert(is_space('\n'));
            } else if i == ws[0].len() {
                assert(s[i] == ' ');
            } else {
                assert(s[i] == join_words(ws.drop_first())[i - ws[0].len() - 1]);
            }
        }
    }
}

/// Space-led whitespace-free tokens hold no line break.
proof fn lemma_spaced_no_newline(ts: Seq<Seq<char>>)
    requires
        forall|i: int| 0 <= i < ts.len() ==> word_ok(#[trigger] ts[i]),
    ensures
        no_newline(spaced_tokens(ts)),
    decreases ts.len(),
{
    if ts.len() > 0 {
        lemma_spaced_no_newline(ts.drop_first());
        let s = seq![' '] + ts[0] + spaced_tokens(ts.drop_first());
        assert forall|i: int| 0 <= i < s.len() implies #[trigger] s[i] != '\n' by {
            if i == 0 {
                assert(s[i] == ' ');
            } else if i < 1 + ts[0].len() {
                assert(s[i] == ts[0][i - 1]);
                assert(!is_space(ts[0][i - 1]));
                assert(is_space('\n'));
            } else {
                assert(s[i] == spaced_tokens(ts.drop_first())[i - 1 - ts[0].len()]);
            }
        }
    }
}

/// The text of a date holds no line break.
proof fn lemma_date_text_no_newline(y: int, m: int, d: int)
    ensures
        no_newline(crate::date::date_text(y, m, d)),
{
    let s = crate::date::date_text(y, m, d);
    assert forall|i: int| 0 <= i < s.len() implies #[trigger] s[i] != '\n' by {
        lemma_digit_not_space(y / 1000);
        lemma_digit_not_space((y / 100) % 10);
        lemma_digit_not_space((y / 10) % 10);
        lemma_digit_not_space(y % 10);
        lemma_digit_not_space(m / 10);
        lemma_digit_not_space(m % 10);
        lemma_digit_not_space(d / 10);
        lemma_digit_not_space(d % 10);
        assert(is_space('\n'));
    }
}

/// A renderable task renders to one non-empty line free of line
/// breaks, so the collection's newline join keeps each line whole.
pub proof fn lemma_render_line_shape(t: TodoView)
    requires
        renderable(t),
    ensures
        render_spec(t).len() > 0,
        no_newline(render_spec(t)),
{
    let ws = tokenize(t.description);
    let tail = tail_tokens(t);
    let desc = t.description;
    lemma_tokenize_wf(desc);
    lemma_tail_token_facts(t);
    lemma_join_words_no_newline(ws);
    lemma_spaced_no_newline(tail);
    assert(no_newline(head_text(t))) by {
        match (t.priority, t.creation_date) {
            (Option::None, Option::None) => {
                assert(head_text(t) =~= Seq::<char>::empty());
            },
            (Option::Some(c), Option::None) => {
                lemma_pri_text_no_newline(c);
                lemma_no_newline_concat(pri_text(c), seq![' ']);
                assert(head_text(t) =~= pri_text(c) + seq![' ']);
            },
            (Option::None, Option::Some(dt)) => {
                lemma_date_text_no_newline(dt.0, dt.1, dt.2);
                lemma_no_newline_concat(crate::date::date_text(dt.0, dt.1, dt.2), seq![' ']);
                assert(head_text(t) =~= crate::date::date_text(dt.0, dt.1, dt.2) + seq![' ']);
            },
            (Option::Some(c), Option::Some(dt)) => {
                lemma_pri_text_no_newline(c);
                lemma_no_newline_concat(pri_text(c), seq![' ']);
                lemma_date_text_no_newline(dt.0, dt.1, dt.2);
                lemma_no_newline_concat(crate::date::date_text(dt.0, dt.1, dt.2), seq![' ']);
                lemma_no_newline_concat(
                    pri_text(c) + seq![' '],
                    crate::date::date_text(dt.0, dt.1, dt.2) + seq![' '],
                );
                assert(head_text(t) =~= (pri_text(c) + seq![' ']) + (crate::date::date_text(
                    dt.0,
                    dt.1,
                    dt.2,
                ) + seq![' ']));
            },
        }
    }
    lemma_no_newline_concat(head_text(t), desc);
    lemma_no_newline_concat(head_text(t) + desc, spaced_tokens(tail));
    assert(render_spec(t).len() > 0) by {
        if ws.len() > 0 {
            assert(desc == join_words(ws));
            if ws.len() == 1 {
                assert(join_words(ws) == ws[0]);
                assert(word_ok(ws[0]));
            } else {
                assert(join_words(ws) == ws[0] + seq![' '] + join_words(ws.drop_first()));
            }
            assert(desc.len() > 0);
        } else {
            assert(tail.len() > 0);
            assert(spaced_tokens(tail).len() > 0);
        }
    }
}

/// The priority token holds no line break.
proof fn lemma_pri_text_no_newline(c: char)
    requires
        is_priority_letter(c),
    ensures
        no_newline(pri_text(c)),
{
    assert forall|i: int| 0 <= i < pri_text(c).len() implies #[trigger] pri_text(c)[i] != '\n' by {
        assert(pri_text(c)[0] == '(' && pri_text(c)[1] == c && pri_text(c)[2] == ')');
    }
}

/// Rendering a collection of renderable tasks and splitting the text
/// back recovers each rendered line, in order.
proof fn lemma_split_render_all(views: Seq<TodoView>)
    requires
        forall|i: int| 0 <= i < views.len() ==> renderable(#[trigger] views[i]),
    ensures
        split_lines(render_all(views)) == views.map_values(|v: TodoView| render_spec(v)),
    decreases views.len(),
{
    if views.len() == 0 {
        assert(split_lines(render_all(views)) =~= views.map_values(|v: TodoView| render_spec(v)));
    } else if views.len() == 1 {
        lemma_render_line_shape(views[0]);
        lemma_split_lines_single(render_spec(views[0]));
        assert(seq![render_spec(views[0])] =~= views.map_values(|v: TodoView| render_spec(v)));
    } else {
        assert forall|i: int|
            0 <= i < views.drop_first().len() implies renderable(
            #[trigger] views.drop_first()[i]) by {
            assert(views.drop_first()[i] == views[i + 1]);
        }
        lemma_split_render_all(views.drop_first());
        lemma_render_line_shape(views[0]);
        lemma_split_lines_cons(render_spec(views[0]), render_all(views.drop_first()));
        assert(render_all(views) == render_spec(views[0]) + seq!['\n'] + render_all(
            views.drop_first(),
        ));
        assert(seq![render_spec(views[0])] + views.drop_first().map_values(
            |v: TodoView| render_spec(v),
        ) =~= views.map_values(|v: TodoView| render_spec(v)));
    }
}

/// Loading the rendered lines of renderable tasks parses every line
/// and yields each task's round-trip image, in order.
proof fn lemma_load_rendered(views: Seq<TodoView>)
    requires
        forall|i: int| 0 <= i < views.len() ==> renderable(#[trigger] views[i]),
    ensures
        load_views(views.map_values(|v: TodoView| render_spec(v))) == views.map_values(
            |v: TodoView| expected_view(v),
        ),
    decreases views.len(),
{
    let lines = views.map_values(|v: TodoView| render_spec(v));
    if views.len() == 0 {
        assert(load_views(lines) =~= views.map_values(|v: TodoView| expected_view(v)));
    } else {
        let dl = views.drop_last();
        assert forall|i: int| 0 <= i < dl.len() implies renderable(#[trigger] dl[i]) by {
            assert(dl[i] == views[i]);
        }
        lemma_load_rendered(dl);
        assert(lines.drop_last() =~= dl.map_values(|v: TodoView| render_spec(v)));
        let last = views.last();
        lemma_render_parse_round_trip(last);
        let u = parse_spec(render_spec(last)).unwrap();
        assert(u =~= expected_view(last));
        assert(lines.last() == render_spec(last));
        assert(load_views(lines) == load_views(lines.drop_last()).push(u));
        assert(dl.map_values(|v: TodoView| expected_view(v)).push(expected_view(last))
            =~= views.map_values(|v: TodoView| expected_view(v)));
    }
}

/// The collection-level round trip: rendering a collection of
/// renderable tasks as a text and loading that text back yields
/// exactly each task's round-trip image, in order.
pub proof fn lemma_save_load_round_trip(views: Seq<TodoView>)
    requires
        forall|i: int| 0 <= i < views.len() ==> renderable(#[trigger] views[i]),
    ensures
        load_views(split_lines(render_all(views))) == views.map_values(
            |v: TodoView| expected_view(v),
        ),
{
    lemma_split_render_all(views);
    lemma_load_rendered(views);
}

/// Sorting a tag list with pairwise distinct keys does not change the
/// mapping it denotes.
pub proof fn lemma_sort_tags_map(tags: Seq<(Seq<char>, Seq<char>)>)
    requires
        keys_unique(tags),
    ensures
        tags_map(sort_tags(tags)) == tags_map(tags),
{
    let st = sort_tags(tags);
    lemma_sort_tags_unique(tags);
    lemma_sort_tags_contains(tags);
    assert forall|k: Seq<char>| #[trigger]
        tags_has_key(st, k) implies tag_value(st, k) == tag_value(tags, k) by {
        lemma_index_of_key(st, k);
        let i = index_of_key(st, k);
        assert(st.contains(st[i]));
        assert(tags.contains(st[i]));
        let j = choose|j: int| 0 <= j < tags.len() && tags[j] == st[i];
        lemma_value_at(tags, j);
        lemma_value_at(st, i);
    }
    assert(tags_map(st) =~= tags_map(tags));
}

} // verus!

