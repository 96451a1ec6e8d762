//! The task record: completion state, priority, dates, description,
//! contexts, projects and tags, with the serializer that writes it
//! back as a Todo.txt line.

use vstd::prelude::*;

use crate::date::{valid_ymd, date_text, Date};
use crate::priority::{pri_text, Priority};
use crate::text::{lex_le, spaced_tokens, str_eq, str_le};

verus! {

/// The mathematical content of a task record: every text field as a
/// character sequence.
#[verifier::ext_equal]
pub ghost struct TodoView {
    pub completed: bool,
    pub priority: Option<char>,
    pub completion_date: Option<(int, int, int)>,
    pub creation_date: Option<(int, int, int)>,
    pub description: Seq<char>,
    pub contexts: Seq<Seq<char>>,
    pub projects: Seq<Seq<char>>,
    pub tags: Seq<(Seq<char>, Seq<char>)>,
}

/// Whether some tag in the list carries the given key.
pub open spec fn tags_has_key(tags: Seq<(Seq<char>, Seq<char>)>, k: Seq<char>) -> bool {
    exists|i: int| 0 <= i < tags.len() && (#[trigger] tags[i]).0 == k
}

/// The position of the first tag carrying the given key.
pub open spec fn index_of_key(tags: Seq<(Seq<char>, Seq<char>)>, k: Seq<char>) -> int
    decreases tags.len(),
{
    if tags.len() == 0 {
        0
    } else if tags[0].0 == k {
        0
    } else {
        1 + index_of_key(tags.drop_first(), k)
    }
}

/// The value of the first tag carrying the given key.
pub open spec fn tag_value(tags: Seq<(Seq<char>, Seq<char>)>, k: Seq<char>) -> Seq<char> {
    tags[index_of_key(tags, k)].1
}

/// Inserting a tag overwrites the value of an existing key in place
/// and otherwise appends the pair: last write wins.
pub open spec fn tags_insert(
    tags: Seq<(Seq<char>, Seq<char>)>,
    k: Seq<char>,
    v: Seq<char>,
) -> Seq<(Seq<char>, Seq<char>)> {
    if tags_has_key(tags, k) {
        tags.update(index_of_key(tags, k), (k, v))
    } else {
        tags.push((k, v))
    }
}

/// The tag list read as a key-value mapping (first occurrence of a
/// key decides, though the mutators keep keys unique).
pub open spec fn tags_map(tags: Seq<(Seq<char>, Seq<char>)>) -> Map<Seq<char>, Seq<char>> {
    Map::new(|k: Seq<char>| tags_has_key(tags, k), |k: Seq<char>| tag_value(tags, k))
}

/// Where the first tag with the given key stands: within bounds, with
/// that key, and with no earlier tag carrying it.
pub proof fn lemma_index_of_key(tags: Seq<(Seq<char>, Seq<char>)>, k: Seq<char>)
    requires
        tags_has_key(tags, k),
    ensures
        0 <= index_of_key(tags, k) < tags.len(),
        tags[index_of_key(tags, k)].0 == k,
        forall|j: int| 0 <= j < index_of_key(tags, k) ==> (#[trigger] tags[j]).0 != k,
    decreases tags.len(),
{
    if tags[0].0 == k {
    } else {
        let rest = tags.drop_first();
        assert(tags_has_key(rest, k)) by {
            let i = choose|i: int| 0 <= i < tags.len() && (#[trigger] tags[i]).0 == k;
            assert(rest[i - 1].0 == k);
        }
        lemma_index_of_key(rest, k);
        assert forall|j: int| 0 <= j < index_of_key(tags, k) implies (#[trigger] tags[j]).0 != k by {
            if j > 0 {
                assert(rest[j - 1].0 != k);
            }
        }
    }
}

/// Inserting one tag into a list sorted by key, keeping it sorted:
/// the pair moves left past every strictly greater key.
pub open spec fn insert_tag_sorted(
    sorted: Seq<(Seq<char>, Seq<char>)>,
    kv: (Seq<char>, Seq<char>),
) -> Seq<(Seq<char>, Seq<char>)>
    decreases sorted.len(),
{
    if sorted.len() == 0 {
        seq![kv]
    } else if lex_le(sorted.last().0, kv.0) {
        sorted.push(kv)
    } else {
        insert_tag_sorted(sorted.drop_last(), kv).push(sorted.last())
    }
}

/// The tag list stably sorted by key, ascending: the order in which
/// tags are serialized.
pub open spec fn sort_tags(tags: Seq<(Seq<char>, Seq<char>)>) -> Seq<(Seq<char>, Seq<char>)>
    decreases tags.len(),
{
    if tags.len() == 0 {
        Seq::empty()
    } else {
        insert_tag_sorted(sort_tags(tags.drop_last()), tags.last())
    }
}

/// A task in the Todo.txt format. The fields are open, as plain data:
/// the parser and the mutators keep tag keys unique, but nothing
/// beyond each field's own type is imposed here.
#[derive(Debug, PartialEq, Eq)]
pub struct Todo {
    /// Whether the task is completed.
    pub completed: bool,
    /// The priority; serialized only while the task is incomplete.
    pub priority: Option<Priority>,
    /// The completion date, if recorded.
    pub completion_date: Option<Date>,
    /// The creation date, if recorded.
    pub creation_date: Option<Date>,
    /// Free text: the words left after structural tokens are removed.
    pub description: String,
    /// `@`-labels, in insertion order.
    pub contexts: Vec<String>,
    /// `+`-labels, in insertion order.
    pub projects: Vec<String>,
    /// `key:value` metadata, keys unique, last write wins.
    pub tags: Vec<(String, String)>,
}

impl View for Todo {
    type V = TodoView;

    open spec fn view(&self) -> TodoView {
        TodoView {
            completed: self.completed,
            priority: match self.priority {
                Some(p) => Some(p.spec_char()),
                None => None,
            },
            completion_date: match self.completion_date {
                Some(d) => Some(d.spec_ymd()),
                None => None,
            },
            creation_date: match self.creation_date {
                Some(d) => Some(d.spec_ymd()),
                None => None,
            },
            description: self.description@,
            contexts: self.contexts@.map_values(|s: String| s@),
            projects: self.projects@.map_values(|s: String| s@),
            tags: self.tags@.map_values(|kv: (String, String)| (kv.0@, kv.1@)),
        }
    }
}

impl Todo {
    /// Creates a new incomplete task with the given description and
    /// nothing else set.
    pub fn new(description: &str) -> (t: Todo)
        ensures
            t@.completed == false,
            t@.priority is None,
            t@.completion_date is None,
            t@.creation_date is None,
            t@.description == description@,
            t@.contexts == Seq::<Seq<char>>::empty(),
            t@.projects == Seq::<Seq<char>>::empty(),
            t@.tags == Seq::<(Seq<char>, Seq<char>)>::empty(),
    {
        let t = Todo {
            completed: false,
            priority: None,
            completion_date: None,
            creation_date: None,
            description: description.to_owned(),
            contexts: Vec::new(),
            projects: Vec::new(),
            tags: Vec::new(),
        };
        proof {
            assert(t@.contexts =~= Seq::<Seq<char>>::empty());
            assert(t@.projects =~= Seq::<Seq<char>>::empty());
            assert(t@.tags =~= Seq::<(Seq<char>, Seq<char>)>::empty());
        }
        t
    }

    /// Marks the task completed. A task completed with no completion
    /// date on record is stamped with the current date, which is
    /// always calendar-valid; an existing completion date is kept.
    pub fn complete(&mut self)
        ensures
            final(self)@.completed == true,
            final(self)@.priority == old(self)@.priority,
            final(self)@.creation_date == old(self)@.creation_date,
            final(self)@.description == old(self)@.description,
            final(self)@.contexts == old(self)@.contexts,
            final(self)@.projects == old(self)@.projects,
            final(self)@.tags == old(self)@.tags,
            old(self)@.completion_date matches Some(d) ==> final(self)@.completion_date == Some(d),
            old(self)@.completion_date is None ==> (final(self)@.completion_date matches Some(d)
                && valid_ymd(d.0, d.1, d.2)),
    {
        self.completed = true;
        if self.completion_date.is_none() {
            self.completion_date = Some(Date::today());
        }
    }

    /// Marks the task incomplete again and clears the completion
    /// date.
    pub fn uncomplete(&mut self)
        ensures
            final(self)@.completed == false,
            final(self)@.completion_date is None,
            final(self)@.priority == old(self)@.priority,
            final(self)@.creation_date == old(self)@.creation_date,
            final(self)@.description == old(self)@.description,
            final(self)@.contexts == old(self)@.contexts,
            final(self)@.projects == old(self)@.projects,
            final(self)@.tags == old(self)@.tags,
    {
        self.completed = false;
        self.completion_date = None;
    }

    /// Sets the priority, builder-style.
    pub fn with_priority(self, priority: Priority) -> (t: Todo)
        ensures
            t@ == (TodoView { priority: Some(priority.spec_char()), ..self@ }),
    {
        Todo { priority: Some(priority), ..self }
    }

    /// Sets the creation date, builder-style.
    pub fn with_creation_date(self, date: Date) -> (t: Todo)
        ensures
            t@ == (TodoView { creation_date: Some(date.spec_ymd()), ..self@ }),
    {
        Todo { creation_date: Some(date), ..self }
    }

    /// Appends a context unless an equal one is already present.
    pub fn add_context(&mut self, context: &str)
        ensures
            final(self)@ == (TodoView {
                contexts: if old(self)@.contexts.contains(context@) {
                    old(self)@.contexts
                } else {
                    old(self)@.contexts.push(context@)
                },
                ..old(self)@
            }),
    {
        if !self.has_context(context) {
            self.contexts.push(context.to_owned());
            proof {
                assert(self@.contexts =~= old(self)@.contexts.push(context@));
                assert(final(self)@ =~= TodoView {
                    contexts: old(self)@.contexts.push(context@),
                    ..old(self)@
                });
            }
        }
    }

    /// Appends a project unless an equal one is already present.
    pub fn add_project(&mut self, project: &str)
        ensures
            final(self)@ == (TodoView {
                projects: if old(self)@.projects.contains(project@) {
                    old(self)@.projects
                } else {
                    old(self)@.projects.push(project@)
                },
                ..old(self)@
            }),
    {
        if !self.has_project(project) {
            self.projects.push(project.to_owned());
            proof {
                assert(self@.projects =~= old(self)@.projects.push(project@));
                assert(final(self)@ =~= TodoView {
                    projects: old(self)@.projects.push(project@),
                    ..old(self)@
                });
            }
        }
    }

    /// Inserts a tag: an existing key keeps its place and takes the
    /// new value, a new key is appended.
    pub fn add_tag(&mut self, key: &str, value: &str)
        ensures
            final(self)@ == (TodoView {
                tags: tags_insert(old(self)@.tags, key@, value@),
                ..old(self)@
            }),
    {
        tags_vec_insert(&mut self.tags, key.to_owned(), value.to_owned());
        proof {
            assert(final(self)@ =~= TodoView {
                tags: tags_insert(old(self)@.tags, key@, value@),
                ..old(self)@
            });
        }
    }

    /// Whether the task carries the given context.
    pub fn has_context(&self, context: &str) -> (b: bool)
        ensures
            b == self@.contexts.contains(context@),
    {
        let n = self.contexts.len();
        let mut i: usize = 0;
        while i < n
            invariant
                i <= n,
                n == self.contexts.len(),
                forall|j: int| 0 <= j < i ==> #[trigger] self@.contexts[j] != context@,
            decreases n - i,
        {
            if str_eq(self.contexts[i].as_str(), context) {
                proof {
                    assert(self@.contexts[i as int] == context@);
                }
                return true;
            }
            i = i + 1;
        }
        false
    }

    /// Whether the task carries the given project.
    pub fn has_project(&self, project: &str) -> (b: bool)
        ensures
            b == self@.projects.contains(project@),
    {
        let n = self.projects.len();
        let mut i: usize = 0;
        while i < n
            invariant
                i <= n,
                n == self.projects.len(),
                forall|j: int| 0 <= j < i ==> #[trigger] self@.projects[j] != project@,
            decreases n - i,
        {
            if str_eq(self.projects[i].as_str(), project) {
                proof {
                    assert(self@.projects[i as int] == project@);
                }
                return true;
            }
            i = i + 1;
        }
        false
    }

    /// Whether the task carries a tag with the given key.
    pub fn has_tag(&self, key: &str) -> (b: bool)
        ensures
            b == tags_has_key(self@.tags, key@),
    {
        let n = self.tags.len();
        let mut i: usize = 0;
        while i < n
            invariant
                i <= n,
                n == self.tags.len(),
                forall|j: int| 0 <= j < i ==> (#[trigger] self@.tags[j]).0 != key@,
            decreases n - i,
        {
            if str_eq(self.tags[i].0.as_str(), key) {
                proof {
                    assert((self@.tags[i as int]).0 == key@);
                }
                return true;
            }
            i = i + 1;
        }
        false
    }

    /// The value of the tag with the given key, if the task carries
    /// one.
    pub fn get_tag(&self, key: &str) -> (r: Option<&String>)
        ensures
            r is Some <==> tags_has_key(self@.tags, key@),
            r matches Some(v) ==> tags_has_key(self@.tags, key@) && v@ == tag_value(
                self@.tags,
                key@,
            ),
    {
        let n = self.tags.len();
        let mut i: usize = 0;
        while i < n
            invariant
                i <= n,
                n == self.tags.len(),
                forall|j: int| 0 <= j < i ==> (#[trigger] self@.tags[j]).0 != key@,
            decreases n - i,
        {
            if str_eq(self.tags[i].0.as_str(), key) {
                proof {
                    assert((self@.tags[i as int]).0 == key@);
                    lemma_index_of_key(self@.tags, key@);
                    let idx = index_of_key(self@.tags, key@);
                    if idx < i as int {
                        assert((self@.tags[idx]).0 == key@);
                    }
                    if idx > i as int {
                        assert((self@.tags[i as int]).0 != key@);
                    }
                    assert(index_of_key(self@.tags, key@) == i as int);
                }
                return Some(&self.tags[i].1);
            }
            i = i + 1;
        }
        None
    }
}

impl core::str::FromStr for Todo {
    type Err = crate::error::TodoError;

    /// Parses a Todo.txt line, as the line parser does.
    fn from_str(s: &str) -> Result<Todo, crate::error::TodoError> {
        crate::parser::parse_todo(s)
    }
}

impl Clone for Todo {
    /// Clones the task; the copy has the same mathematical content.
    fn clone(&self) -> (r: Todo)
        ensures
            r@ == self@,
    {
        let r = Todo {
            completed: self.completed,
            priority: self.priority,
            completion_date: self.completion_date,
            creation_date: self.creation_date,
            description: self.description.clone(),
            contexts: clone_string_vec(&self.contexts),
            projects: clone_string_vec(&self.projects),
            tags: clone_tag_vec(&self.tags),
        };
        proof {
            assert(r@ =~= self@);
        }
        r
    }
}

/// Inserts a tag pair into a tag vector, last write wins: an existing
/// key keeps its place and takes the new value, a new key is
/// appended.
pub fn tags_vec_insert(tags: &mut Vec<(String, String)>, key: String, value: String)
    ensures
        final(tags)@.map_values(|kv: (String, String)| (kv.0@, kv.1@)) == tags_insert(
            old(tags)@.map_values(|kv: (String, String)| (kv.0@, kv.1@)),
            key@,
            value@,
        ),
{
    let ghost tm = tags@.map_values(|kv: (String, String)| (kv.0@, kv.1@));
    let n = tags.len();
    let mut i: usize = 0;
    while i < n
        invariant
            i <= n,
            n == tags.len(),
            *tags == *old(tags),
            tm == tags@.map_values(|kv: (String, String)| (kv.0@, kv.1@)),
            forall|j: int| 0 <= j < i ==> (#[trigger] tm[j]).0 != key@,
        decreases n - i,
    {
        proof {
            assert(tm[i as int] == (tags@[i as int].0@, tags@[i as int].1@));
        }
        if str_eq(tags[i].0.as_str(), key.as_str()) {
            let kv = tags.remove(i);
            tags.insert(i, (kv.0, value));
            proof {
                assert(tm[i as int].0 == key@);
                lemma_index_of_key(tm, key@);
                let idx = index_of_key(tm, key@);
                if idx < i as int {
                    assert((tm[idx]).0 == key@);
                }
                if idx > i as int {
                    assert((tm[i as int]).0 != key@);
                }
                assert(index_of_key(tm, key@) == i as int);
                assert(final(tags)@.map_values(|kv: (String, String)| (kv.0@, kv.1@)) =~= tm.update(
                    i as int,
                    (key@, value@),
                ));
            }
            return ;
        }
        i = i + 1;
    }
    tags.push((key, value));
    proof {
        assert(!tags_has_key(tm, key@));
        assert(final(tags)@.map_values(|kv: (String, String)| (kv.0@, kv.1@)) =~= tm.push(
            (key@, value@),
        ));
    }
}

/// The leading pieces of a rendered line: for a completed task `x`,
/// the completion and creation dates if present, and a space; for an
/// incomplete task the priority and creation date if present, each
/// followed by a space. A completed task's priority is never written.
pub open spec fn head_text(t: TodoView) -> Seq<char> {
    if t.completed {
        seq!['x'] + (match t.completion_date {
            Some(d) => seq![' '] + date_text(d.0, d.1, d.2),
            None => Seq::empty(),
        }) + (match t.creation_date {
            Some(d) => seq![' '] + date_text(d.0, d.1, d.2),
            None => Seq::empty(),
        }) + seq![' ']
    } else {
        (match t.priority {
            Some(c) => pri_text(c) + seq![' '],
            None => Seq::empty(),
        }) + (match t.creation_date {
            Some(d) => date_text(d.0, d.1, d.2) + seq![' '],
            None => Seq::empty(),
        })
    }
}

/// The tokens written after the description: each project with `+`,
/// then each context with `@`, then the tags sorted by key as
/// `key:value`.
pub open spec fn tail_tokens(t: TodoView) -> Seq<Seq<char>> {
    t.projects.map_values(|p: Seq<char>| seq!['+'] + p) + t.contexts.map_values(
        |c: Seq<char>| seq!['@'] + c,
    ) + sort_tags(t.tags).map_values(|kv: (Seq<char>, Seq<char>)| kv.0 + seq![':'] + kv.1)
}

/// The full rendered line of a task: head, description verbatim, and
/// the trailing tokens each preceded by one space.
pub open spec fn render_spec(t: TodoView) -> Seq<char> {
    head_text(t) + t.description + spaced_tokens(tail_tokens(t))
}

/// Appending a token to a space-led token list appends a space and
/// the token to its text.
pub proof fn lemma_spaced_push(ts: Seq<Seq<char>>, x: Seq<char>)
    ensures
        spaced_tokens(ts.push(x)) == spaced_tokens(ts) + seq![' '] + x,
    decreases ts.len(),
{
    if ts.len() == 0 {
        assert(ts.push(x)[0] == x);
        assert(ts.push(x).drop_first() =~= Seq::<Seq<char>>::empty());
        assert(seq![' '] + x + spaced_tokens(Seq::<Seq<char>>::empty()) =~= seq![' '] + x);
        assert(spaced_tokens(ts) + seq![' '] + x =~= seq![' '] + x);
    } else {
        assert(ts.push(x).drop_first() =~= ts.drop_first().push(x));
        lemma_spaced_push(ts.drop_first(), x);
        assert(seq![' '] + ts[0] + (spaced_tokens(ts.drop_first()) + seq![' '] + x) =~= (seq![' ']
            + ts[0] + spaced_tokens(ts.drop_first())) + seq![' '] + x);
    }
}

/// The text of concatenated token lists is the concatenation of their
/// texts.
pub proof fn lemma_spaced_concat(a: Seq<Seq<char>>, b: Seq<Seq<char>>)
    ensures
        spaced_tokens(a + b) == spaced_tokens(a) + spaced_tokens(b),
    decreases a.len(),
{
    if a.len() == 0 {
        assert(a + b =~= b);
        assert(spaced_tokens(a) + spaced_tokens(b) =~= spaced_tokens(b));
    } else {
        assert((a + b).drop_first() =~= a.drop_first() + b);
        lemma_spaced_concat(a.drop_first(), b);
        assert((a + b)[0] == a[0]);
        assert(seq![' '] + a[0] + (spaced_tokens(a.drop_first()) + spaced_tokens(b)) =~= (seq![' ']
            + a[0] + spaced_tokens(a.drop_first())) + spaced_tokens(b));
    }
}

/// Pins the sorted insertion point down: inserting into a sorted list
/// places the pair exactly where every earlier key is at most the new
/// one and every later key is strictly greater.
proof fn lemma_insert_tag_at(s: Seq<(Seq<char>, Seq<char>)>, kv: (Seq<char>, Seq<char>), j: int)
    requires
        0 <= j <= s.len(),
        forall|i: int| j <= i < s.len() ==> !lex_le((#[trigger] s[i]).0, kv.0),
        j == 0 || lex_le(s[j - 1].0, kv.0),
    ensures
        insert_tag_sorted(s, kv) == s.take(j) + seq![kv] + s.skip(j),
    decreases s.len(),
{
    if s.len() == 0 {
        assert(s.take(j) + seq![kv] + s.skip(j) =~= seq![kv]);
    } else if lex_le(s.last().0, kv.0) {
        assert(j == s.len());
        assert(s.take(j) + seq![kv] + s.skip(j) =~= s.push(kv));
    } else {
        assert(j < s.len());
        let dl = s.drop_last();
        lemma_insert_tag_at(dl, kv, j);
        assert(dl.take(j) =~= s.take(j));
        assert((dl.take(j) + seq![kv] + dl.skip(j)).push(s.last()) =~= s.take(j) + seq![kv]
            + s.skip(j));
    }
}

/// Copies the tag list sorted stably by key, ascending.
fn sorted_tag_pairs(tags: &Vec<(String, String)>) -> (r: Vec<(String, String)>)
    ensures
        r@.map_values(|kv: (String, String)| (kv.0@, kv.1@)) == sort_tags(
            tags@.map_values(|kv: (String, String)| (kv.0@, kv.1@)),
        ),
{
    let ghost f = |kv: (String, String)| (kv.0@, kv.1@);
    let n = tags.len();
    let mut r: Vec<(String, String)> = Vec::new();
    let mut i: usize = 0;
    proof {
        assert(tags@.map_values(f).take(0) =~= Seq::<(Seq<char>, Seq<char>)>::empty());
        assert(r@.map_values(f) =~= Seq::<(Seq<char>, Seq<char>)>::empty());
    }
    while i < n
        invariant
            i <= n,
            n == tags.len(),
            r@.map_values(|kv: (String, String)| (kv.0@, kv.1@)) == sort_tags(
                tags@.map_values(|kv: (String, String)| (kv.0@, kv.1@)).take(i as int),
            ),
        decreases n - i,
    {
        let kv = (tags[i].0.clone(), tags[i].1.clone());
        let ghost rm = r@.map_values(|kv: (String, String)| (kv.0@, kv.1@));
        let ghost kvv = (kv.0@, kv.1@);
        let mut j: usize = r.len();
        while j > 0 && !str_le(r[j - 1].0.as_str(), kv.0.as_str())
            invariant
                j <= r.len(),
                rm == r@.map_values(|kv: (String, String)| (kv.0@, kv.1@)),
                kvv == (kv.0@, kv.1@),
                forall|idx: int| j <= idx < rm.len() ==> !lex_le((#[trigger] rm[idx]).0, kvv.0),
            decreases j,
        {
            proof {
                assert(rm[j - 1] == (r@[j - 1].0@, r@[j - 1].1@));
            }
            j = j - 1;
        }
        proof {
            if j > 0 {
                assert(rm[j - 1] == (r@[j - 1].0@, r@[j - 1].1@));
            }
            lemma_insert_tag_at(rm, kvv, j as int);
        }
        r.insert(j, kv);
        i = i + 1;
        proof {
            let f2 = |kv: (String, String)| (kv.0@, kv.1@);
            let tm = tags@.map_values(f2);
            assert(r@.map_values(f2) =~= rm.take(j as int) + seq![kvv] + rm.skip(j as int));
            assert(tm.take(i as int).drop_last() =~= tm.take(i as int - 1));
            assert(tm.take(i as int).last() == kvv);
            assert(r@.map_values(f2) == sort_tags(tm.take(i as int)));
        }
    }
    proof {
        let f2 = |kv: (String, String)| (kv.0@, kv.1@);
        assert(tags@.map_values(f2).take(n as int) =~= tags@.map_values(f2));
    }
    r
}

impl Todo {
    /// Renders the task as its canonical Todo.txt line: the
    /// completion marker or priority and the dates first, then the
    /// description verbatim, then each project, each context, and the
    /// tags sorted by key, each preceded by one space. A completed
    /// task's priority is never written.
    pub fn render(&self) -> (r: String)
        ensures
            r@ == render_spec(self@),
    {
        let mut out = String::new();
        if self.completed {
            out.push('x');
            if let Some(d) = self.completion_date {
                out.push(' ');
                let t = d.to_text();
                out.append(t.as_str());
            }
            if let Some(d) = self.creation_date {
                out.push(' ');
                let t = d.to_text();
                out.append(t.as_str());
            }
            out.push(' ');
        } else {
            if let Some(p) = self.priority {
                let t = p.to_text();
                out.append(t.as_str());
                out.push(' ');
            }
            if let Some(d) = self.creation_date {
                let t = d.to_text();
                out.append(t.as_str());
                out.push(' ');
            }
        }
        proof {
            assert(out@ =~= head_text(self@));
        }
        out.append(self.description.as_str());
        let ghost base = head_text(self@) + self@.description;
        let ghost projs_m = self@.projects.map_values(|p: Seq<char>| seq!['+'] + p);
        let ghost ctxs_m = self@.contexts.map_values(|c: Seq<char>| seq!['@'] + c);
        let ghost tags_m = sort_tags(self@.tags).map_values(
            |kv: (Seq<char>, Seq<char>)| kv.0 + seq![':'] + kv.1,
        );
        proof {
            assert(spaced_tokens(projs_m.take(0)) =~= Seq::<char>::empty());
            assert(out@ =~= base + spaced_tokens(projs_m.take(0)));
        }
        let np = self.projects.len();
        let mut i: usize = 0;
        while i < np
            invariant
                i <= np,
                np == self.projects.len(),
                projs_m == self@.projects.map_values(|p: Seq<char>| seq!['+'] + p),
                base == head_text(self@) + self@.description,
                out@ == base + spaced_tokens(projs_m.take(i as int)),
            decreases np - i,
        {
            out.push(' ');
            out.push('+');
            out.append(self.projects[i].as_str());
            i = i + 1;
            proof {
                assert(projs_m.take(i as int).drop_last() =~= projs_m.take(i as int - 1));
                assert(projs_m.take(i as int) =~= projs_m.take(i as int - 1).push(
                    projs_m[i as int - 1],
                ));
                lemma_spaced_push(projs_m.take(i as int - 1), projs_m[i as int - 1]);
                assert(projs_m[i as int - 1] == seq!['+'] + self@.projects[i as int - 1]);
                assert(out@ =~= base + spaced_tokens(projs_m.take(i as int)));
            }
        }
        proof {
            assert(projs_m.take(np as int) =~= projs_m);
            assert(spaced_tokens(ctxs_m.take(0)) =~= Seq::<char>::empty());
            assert(out@ =~= base + spaced_tokens(projs_m) + spaced_tokens(ctxs_m.take(0)));
        }
        let nc = self.contexts.len();
        let mut i: usize = 0;
        while i < nc
            invariant
                i <= nc,
                nc == self.contexts.len(),
                projs_m == self@.projects.map_values(|p: Seq<char>| seq!['+'] + p),
                ctxs_m == self@.contexts.map_values(|c: Seq<char>| seq!['@'] + c),
                base == head_text(self@) + self@.description,
                out@ == base + spaced_tokens(projs_m) + spaced_tokens(ctxs_m.take(i as int)),
            decreases nc - i,
        {
            out.push(' ');
            out.push('@');
            out.append(self.contexts[i].as_str());
            i = i + 1;
            proof {
                assert(ctxs_m.take(i as int).drop_last() =~= ctxs_m.take(i as int - 1));
                assert(ctxs_m.take(i as int) =~= ctxs_m.take(i as int - 1).push(
                    ctxs_m[i as int - 1],
                ));
                lemma_spaced_push(ctxs_m.take(i as int - 1), ctxs_m[i as int - 1]);
                assert(ctxs_m[i as int - 1] == seq!['@'] + self@.contexts[i as int - 1]);
                assert(out@ =~= base + spaced_tokens(projs_m) + spaced_tokens(
                    ctxs_m.take(i as int),
                ));
            }
        }
        let sorted = sorted_tag_pairs(&self.tags);
        proof {
            assert(ctxs_m.take(nc as int) =~= ctxs_m);
            assert(spaced_tokens(tags_m.take(0)) =~= Seq::<char>::empty());
            assert(out@ =~= base + spaced_tokens(projs_m) + spaced_tokens(ctxs_m) + spaced_tokens(
                tags_m.take(0),
            ));
            assert(sorted@.map_values(|kv: (String, String)| (kv.0@, kv.1@)) == sort_tags(
                self@.tags,
            ));
        }
        let nt = sorted.len();
        let mut i: usize = 0;
        while i < nt
            invariant
                i <= nt,
                nt == sorted.len(),
                projs_m == self@.projects.map_values(|p: Seq<char>| seq!['+'] + p),
                ctxs_m == self@.contexts.map_values(|c: Seq<char>| seq!['@'] + c),
                tags_m == sort_tags(self@.tags).map_values(
                    |kv: (Seq<char>, Seq<char>)| kv.0 + seq![':'] + kv.1,
                ),
                sorted@.map_values(|kv: (String, String)| (kv.0@, kv.1@)) == sort_tags(self@.tags),
                base == head_text(self@) + self@.description,
                out@ == base + spaced_tokens(projs_m) + spaced_tokens(ctxs_m) + spaced_tokens(
                    tags_m.take(i as int),
                ),
            decreases nt - i,
        {
            out.push(' ');
            out.append(sorted[i].0.as_str());
            out.push(':');
            out.append(sorted[i].1.as_str());
            i = i + 1;
            proof {
                let srt = sort_tags(self@.tags);
                assert(srt[i as int - 1] == (sorted@[i as int - 1].0@, sorted@[i as int - 1].1@));
                assert(tags_m.take(i as int).drop_last() =~= tags_m.take(i as int - 1));
                assert(tags_m.take(i as int) =~= tags_m.take(i as int - 1).push(
                    tags_m[i as int - 1],
                ));
                lemma_spaced_push(tags_m.take(i as int - 1), tags_m[i as int - 1]);
                assert(tags_m[i as int - 1] == srt[i as int - 1].0 + seq![':'] + srt[i as int
                    - 1].1);
                assert(out@ =~= base + spaced_tokens(projs_m) + spaced_tokens(ctxs_m)
                    + spaced_tokens(tags_m.take(i as int)));
            }
        }
        proof {
            assert(tags_m.take(nt as int) =~= tags_m);
            lemma_spaced_concat(projs_m + ctxs_m, tags_m);
            lemma_spaced_concat(projs_m, ctxs_m);
            assert(tail_tokens(self@) == projs_m + ctxs_m + tags_m);
            assert(out@ =~= render_spec(self@));
        }
        out
    }
}

/// Copies a vector of strings, preserving its content.
fn clone_string_vec(v: &Vec<String>) -> (r: Vec<String>)
    ensures
        r@.map_values(|s: String| s@) == v@.map_values(|s: String| s@),
{
    let n = v.len();
    let mut r: Vec<String> = Vec::new();
    let mut i: usize = 0;
    while i < n
        invariant
            i <= n,
            n == v.len(),
            r@.len() == i,
            forall|j: int| 0 <= j < i ==> #[trigger] r@[j]@ == v@[j]@,
        decreases n - i,
    {
        r.push(v[i].clone());
        i = i + 1;
    }
    proof {
        assert(r@.map_values(|s: String| s@) =~= v@.map_values(|s: String| s@));
    }
    r
}

/// Copies a vector of tag pairs, preserving its content.
fn clone_tag_vec(v: &Vec<(String, String)>) -> (r: Vec<(String, String)>)
    ensures
        r@.map_values(|kv: (String, String)| (kv.0@, kv.1@)) == v@.map_values(
            |kv: (String, String)| (kv.0@, kv.1@),
        ),
{
    let n = v.len();
    let mut r: Vec<(String, String)> = Vec::new();
    let mut i: usize = 0;
    while i < n
        invariant
            i <= n,
            n == v.len(),
            r@.len() == i,
            forall|j: int|
                0 <= j < i ==> (#[trigger] r@[j]).0@ == v@[j].0@ && r@[j].1@ == v@[j].1@,
        decreases n - i,
    {
        let kv = (v[i].0.clone(), v[i].1.clone());
        r.push(kv);
        i = i + 1;
    }
    proof {
        assert(r@.map_values(|kv: (String, String)| (kv.0@, kv.1@)) =~= v@.map_values(
            |kv: (String, String)| (kv.0@, kv.1@),
        ));
    }
    r
}

} // verus!
