//! The task collection: an owned, order-preserving sequence of task
//! records with bulk load and save, filters, and built-in sorts.

use vstd::prelude::*;

use crate::error::TodoError;
use crate::parser::{parse_spec, parse_todo};
use crate::priority::Priority;
use crate::text::{is_space, lemma_tokenize_blank, lex_le, str_le, tokenize};
use crate::todo::{render_spec, Todo, TodoView};

verus! {

/// An ordered sequence of tasks, indexed from zero.
#[derive(Debug)]
pub struct TodoList {
    todos: Vec<Todo>,
}

impl View for TodoList {
    type V = Seq<TodoView>;

    closed spec fn view(&self) -> Seq<TodoView> {
        self.todos@.map_values(|t: Todo| t@)
    }
}

/// The subsequence of views satisfying a predicate, in order.
pub open spec fn filter_views(s: Seq<TodoView>, pred: spec_fn(TodoView) -> bool) -> Seq<TodoView>
    decreases s.len(),
{
    if s.len() == 0 {
        Seq::empty()
    } else {
        let rest = filter_views(s.drop_last(), pred);
        if pred(s.last()) {
            rest.push(s.last())
        } else {
            rest
        }
    }
}

/// Holds when `ks` names, in increasing order, exactly the positions
/// of `views` whose task the predicate answered true on, and `r`
/// holds references to the tasks at those positions, in order; every
/// other position got a false answer.
pub open spec fn filter_selects<F: Fn(&Todo) -> bool>(
    views: Seq<TodoView>,
    predicate: F,
    r: Seq<&Todo>,
    ks: Seq<int>,
) -> bool {
    &&& ks.len() == r.len()
    &&& (forall|j: int| 0 <= j < ks.len() ==> 0 <= #[trigger] ks[j] < views.len())
    &&& (forall|j1: int, j2: int| 0 <= j1 < j2 < ks.len() ==> ks[j1] < ks[j2])
    &&& (forall|j: int| 0 <= j < ks.len() ==> (#[trigger] r[j])@ == views[ks[j]])
    &&& (forall|j: int| 0 <= j < ks.len() ==> predicate.ensures((#[trigger] r[j],), true))
    &&& (forall|i: int|
        0 <= i < views.len() && !ks.contains(i) ==> (exists|t: &Todo|
            t@ == views[i] && predicate.ensures((t,), false)))
}

impl TodoList {
    /// Creates an empty collection.
    pub fn new() -> (r: TodoList)
        ensures
            r@ == Seq::<TodoView>::empty(),
    {
        let r = TodoList { todos: Vec::new() };
        proof {
            assert(r@ =~= Seq::<TodoView>::empty());
        }
        r
    }

    /// Appends a task at the end.
    pub fn add(&mut self, todo: Todo)
        ensures
            final(self)@ == old(self)@.push(todo@),
    {
        let ghost v = todo@;
        self.todos.push(todo);
        proof {
            assert(self@ =~= old(self)@.push(v));
        }
    }

    /// The task at the given index, or nothing past the end.
    pub fn get(&self, index: usize) -> (r: Option<&Todo>)
        ensures
            index < self@.len() ==> (r matches Some(t) && t@ == self@[index as int]),
            index >= self@.len() ==> r is None,
    {
        if index < self.todos.len() {
            Some(&self.todos[index])
        } else {
            None
        }
    }

    /// Removes and returns the task at the given index, shifting the
    /// later ones down; fails with `IndexOutOfBounds` carrying the
    /// index when it is at or past the end, leaving the collection
    /// unchanged.
    pub fn remove(&mut self, index: usize) -> (r: Result<Todo, TodoError>)
        ensures
            (r is Ok) <==> (index as int) < old(self)@.len(),
            r matches Ok(t) ==> t@ == old(self)@[index as int] && final(self)@ == old(
                self,
            )@.remove(index as int),
            r matches Err(e) ==> e == TodoError::IndexOutOfBounds(index) && final(self)@ == old(
                self,
            )@,
    {
        if index < self.todos.len() {
            let t = self.todos.remove(index);
            proof {
                assert(self@ =~= old(self)@.remove(index as int));
            }
            Ok(t)
        } else {
            Err(TodoError::IndexOutOfBounds(index))
        }
    }

    /// The task at the given index for in-place update, or nothing
    /// past the end. What the caller writes through the reference
    /// becomes the task at that index; the others stay as they were.
    pub fn get_mut(&mut self, index: usize) -> (r: Option<&mut Todo>)
        ensures
            (r is Some) <==> (index as int) < old(self)@.len(),
            r matches Some(t) ==> (*t)@ == old(self)@[index as int] && final(self)@ == old(
                self,
            )@.update(index as int, (*final(t))@),
            r is None ==> final(self)@ == old(self)@,
    {
        if index < self.todos.len() {
            proof {
                lemma_map_values_update(self.todos@, index as int);
            }
            Some(&mut self.todos[index])
        } else {
            None
        }
    }

    /// All tasks, as a slice in collection order.
    pub fn all(&self) -> (r: &[Todo])
        ensures
            r@.map_values(|t: Todo| t@) == self@,
    {
        self.todos.as_slice()
    }

    /// All tasks, as a mutable slice in collection order. What the
    /// caller leaves in the slice becomes the collection's content.
    pub fn all_mut(&mut self) -> (r: &mut [Todo])
        ensures
            r@.map_values(|t: Todo| t@) == old(self)@,
            final(self)@ == final(r)@.map_values(|t: Todo| t@),
    {
        self.todos.as_mut_slice()
    }

    /// How many tasks the collection holds.
    pub fn len(&self) -> (n: usize)
        ensures
            n == self@.len(),
    {
        self.todos.len()
    }

    /// Whether the collection holds no task.
    pub fn is_empty(&self) -> (b: bool)
        ensures
            b == (self@.len() == 0),
    {
        self.todos.is_empty()
    }

    /// The tasks satisfying the given predicate: references to
    /// exactly the tasks at the positions where the predicate
    /// answered true, in collection order.
    pub fn filter<F: Fn(&Todo) -> bool>(&self, predicate: F) -> (r: Vec<&Todo>)
        requires
            forall|t: &Todo| #[trigger] predicate.requires((t,)),
        ensures
            r@.len() <= self@.len(),
            exists|ks: Seq<int>| filter_selects(self@, predicate, r@, ks),
    {
        let n = self.todos.len();
        let mut r: Vec<&Todo> = Vec::new();
        let ghost mut ks: Seq<int> = Seq::empty();
        let mut i: usize = 0;
        while i < n
            invariant
                i <= n,
                n == self.todos.len(),
                n == self@.len(),
                r@.len() <= i,
                ks.len() == r@.len(),
                forall|j: int| 0 <= j < ks.len() ==> 0 <= #[trigger] ks[j] < i,
                forall|j1: int, j2: int| 0 <= j1 < j2 < ks.len() ==> ks[j1] < ks[j2],
                forall|j: int| 0 <= j < ks.len() ==> (#[trigger] r@[j])@ == self@[ks[j]],
                forall|j: int| 0 <= j < ks.len() ==> predicate.ensures((#[trigger] r@[j],), true),
                forall|m: int|
                    0 <= m < i && !ks.contains(m) ==> (exists|t: &Todo|
                        t@ == self@[m] && predicate.ensures((t,), false)),
                forall|t: &Todo| #[trigger] predicate.requires((t,)),
            decreases n - i,
        {
            let cur = &self.todos[i];
            proof {
                assert(cur@ == self@[i as int]);
            }
            if predicate(cur) {
                r.push(cur);
                proof {
                    let oks = ks;
                    ks = ks.push(i as int);
                    assert(ks[ks.len() - 1] == i as int);
                    assert forall|m: int|
                        0 <= m < i + 1 && !ks.contains(m) implies (exists|t: &Todo|
                        t@ == self@[m] && predicate.ensures((t,), false)) by {
                        assert(m != i as int);
                        if oks.contains(m) {
                            let idx = choose|idx: int| 0 <= idx < oks.len() && oks[idx] == m;
                            assert(ks[idx] == m);
                        }
                    }
                }
            } else {
                proof {
                    assert(exists|t: &Todo|
                        t@ == self@[i as int] && predicate.ensures((t,), false));
                }
            }
            i = i + 1;
        }
        proof {
            assert(filter_selects(self@, predicate, r@, ks));
        }
        r
    }

    /// The incomplete tasks, in collection order.
    pub fn incomplete(&self) -> (r: Vec<&Todo>)
        ensures
            r@.map_values(|t: &Todo| t@) == filter_views(self@, |tv: TodoView| !tv.completed),
    {
        let ghost pred = |tv: TodoView| !tv.completed;
        let n = self.todos.len();
        let mut r: Vec<&Todo> = Vec::new();
        let mut i: usize = 0;
        proof {
            lemma_filter_take_zero(self@, pred);
            assert(r@.map_values(|t: &Todo| t@) =~= filter_views(self@.take(0), pred));
        }
        while i < n
            invariant
                i <= n,
                n == self.todos.len(),
                pred == (|tv: TodoView| !tv.completed),
                r@.map_values(|t: &Todo| t@) == filter_views(self@.take(i as int), pred),
            decreases n - i,
        {
            let keep = !self.todos[i].completed;
            proof {
                lemma_filter_take_step(self@, pred, i as int);
                assert(self@[i as int] == self.todos@[i as int]@);
            }
            if keep {
                let ghost prev = r@.map_values(|t: &Todo| t@);
                r.push(&self.todos[i]);
                proof {
                    assert(r@.map_values(|t: &Todo| t@) =~= prev.push(self@[i as int]));
                }
            }
            i = i + 1;
        }
        proof {
            assert(self@.take(n as int) =~= self@);
        }
        r
    }

    /// The completed tasks, in collection order.
    pub fn completed(&self) -> (r: Vec<&Todo>)
        ensures
            r@.map_values(|t: &Todo| t@) == filter_views(self@, |tv: TodoView| tv.completed),
    {
        let ghost pred = |tv: TodoView| tv.completed;
        let n = self.todos.len();
        let mut r: Vec<&Todo> = Vec::new();
        let mut i: usize = 0;
        proof {
            lemma_filter_take_zero(self@, pred);
            assert(r@.map_values(|t: &Todo| t@) =~= filter_views(self@.take(0), pred));
        }
        while i < n
            invariant
                i <= n,
                n == self.todos.len(),
                pred == (|tv: TodoView| tv.completed),
                r@.map_values(|t: &Todo| t@) == filter_views(self@.take(i as int), pred),
            decreases n - i,
        {
            let keep = self.todos[i].completed;
            proof {
                lemma_filter_take_step(self@, pred, i as int);
                assert(self@[i as int] == self.todos@[i as int]@);
            }
            if keep {
                let ghost prev = r@.map_values(|t: &Todo| t@);
                r.push(&self.todos[i]);
                proof {
                    assert(r@.map_values(|t: &Todo| t@) =~= prev.push(self@[i as int]));
                }
            }
            i = i + 1;
        }
        proof {
            assert(self@.take(n as int) =~= self@);
        }
        r
    }

    /// The tasks carrying exactly the given priority, in collection
    /// order.
    pub fn with_priority(&self, priority: Priority) -> (r: Vec<&Todo>)
        ensures
            r@.map_values(|t: &Todo| t@) == filter_views(
                self@,
                |tv: TodoView| tv.priority == Some(priority.spec_char()),
            ),
    {
        let ghost pred = |tv: TodoView| tv.priority == Some(priority.spec_char());
        let n = self.todos.len();
        let mut r: Vec<&Todo> = Vec::new();
        let mut i: usize = 0;
        proof {
            lemma_filter_take_zero(self@, pred);
            assert(r@.map_values(|t: &Todo| t@) =~= filter_views(self@.take(0), pred));
        }
        while i < n
            invariant
                i <= n,
                n == self.todos.len(),
                pred == (|tv: TodoView| tv.priority == Some(priority.spec_char())),
                r@.map_values(|t: &Todo| t@) == filter_views(self@.take(i as int), pred),
            decreases n - i,
        {
            let keep = match self.todos[i].priority {
                Some(p) => p.as_char() == priority.as_char(),
                None => false,
            };
            proof {
                lemma_filter_take_step(self@, pred, i as int);
                assert(self@[i as int] == self.todos@[i as int]@);
                match self.todos@[i as int].priority {
                    Some(p) => crate::priority::lemma_priority_eq(p, priority),
                    None => (),
                }
            }
            if keep {
                let ghost prev = r@.map_values(|t: &Todo| t@);
                r.push(&self.todos[i]);
                proof {
                    assert(r@.map_values(|t: &Todo| t@) =~= prev.push(self@[i as int]));
                }
            }
            i = i + 1;
        }
        proof {
            assert(self@.take(n as int) =~= self@);
        }
        r
    }

    /// The tasks carrying the given project, in collection order.
    pub fn with_project(&self, project: &str) -> (r: Vec<&Todo>)
        ensures
            r@.map_values(|t: &Todo| t@) == filter_views(
                self@,
                |tv: TodoView| tv.projects.contains(project@),
            ),
    {
        let ghost pred = |tv: TodoView| tv.projects.contains(project@);
        let n = self.todos.len();
        let mut r: Vec<&Todo> = Vec::new();
        let mut i: usize = 0;
        proof {
            lemma_filter_take_zero(self@, pred);
            assert(r@.map_values(|t: &Todo| t@) =~= filter_views(self@.take(0), pred));
        }
        while i < n
            invariant
                i <= n,
                n == self.todos.len(),
                pred == (|tv: TodoView| tv.projects.contains(project@)),
                r@.map_values(|t: &Todo| t@) == filter_views(self@.take(i as int), pred),
            decreases n - i,
        {
            let keep = self.todos[i].has_project(project);
            proof {
                lemma_filter_take_step(self@, pred, i as int);
                assert(self@[i as int] == self.todos@[i as int]@);
            }
            if keep {
                let ghost prev = r@.map_values(|t: &Todo| t@);
                r.push(&self.todos[i]);
                proof {
                    assert(r@.map_values(|t: &Todo| t@) =~= prev.push(self@[i as int]));
                }
            }
            i = i + 1;
        }
        proof {
            assert(self@.take(n as int) =~= self@);
        }
        r
    }

    /// The tasks carrying the given context, in collection order.
    pub fn with_context(&self, context: &str) -> (r: Vec<&Todo>)
        ensures
            r@.map_values(|t: &Todo| t@) == filter_views(
                self@,
                |tv: TodoView| tv.contexts.contains(context@),
            ),
    {
        let ghost pred = |tv: TodoView| tv.contexts.contains(context@);
        let n = self.todos.len();
        let mut r: Vec<&Todo> = Vec::new();
        let mut i: usize = 0;
        proof {
            lemma_filter_take_zero(self@, pred);
            assert(r@.map_values(|t: &Todo| t@) =~= filter_views(self@.take(0), pred));
        }
        while i < n
            invariant
                i <= n,
                n == self.todos.len(),
                pred == (|tv: TodoView| tv.contexts.contains(context@)),
                r@.map_values(|t: &Todo| t@) == filter_views(self@.take(i as int), pred),
            decreases n - i,
        {
            let keep = self.todos[i].has_context(context);
            proof {
                lemma_filter_take_step(self@, pred, i as int);
                assert(self@[i as int] == self.todos@[i as int]@);
            }
            if keep {
                let ghost prev = r@.map_values(|t: &Todo| t@);
                r.push(&self.todos[i]);
                proof {
                    assert(r@.map_values(|t: &Todo| t@) =~= prev.push(self@[i as int]));
                }
            }
            i = i + 1;
        }
        proof {
            assert(self@.take(n as int) =~= self@);
        }
        r
    }
}

/// The position of the first line break, or the length when there is
/// none.
pub open spec fn first_nl(s: Seq<char>) -> int
    decreases s.len(),
{
    if s.len() == 0 {
        0
    } else if s[0] == '\n' {
        0
    } else {
        1 + first_nl(s.drop_first())
    }
}

/// The first line break never lies past the end.
pub proof fn lemma_first_nl_le(s: Seq<char>)
    ensures
        0 <= first_nl(s) <= s.len(),
    decreases s.len(),
{
    if s.len() != 0 && s[0] != '\n' {
        lemma_first_nl_le(s.drop_first());
    }
}

/// Pins the first line break down: it is the unique position before
/// which no break stands and at which the text ends or a break
/// stands.
proof fn lemma_first_nl_is(s: Seq<char>, k: int)
    requires
        0 <= k <= s.len(),
        forall|i: int| 0 <= i < k ==> #[trigger] s[i] != '\n',
        k == s.len() || s[k] == '\n',
    ensures
        first_nl(s) == k,
    decreases s.len(),
{
    if k > 0 {
        assert(s[0] != '\n');
        lemma_first_nl_is(s.drop_first(), k - 1);
    }
}

/// The lines of a text, split at line breaks; a trailing break ends
/// the last line rather than opening an empty one.
pub open spec fn split_lines(s: Seq<char>) -> Seq<Seq<char>>
    decreases s.len(),
    via split_lines_dec
{
    if s.len() == 0 {
        Seq::empty()
    } else {
        let i = first_nl(s);
        if i >= s.len() {
            seq![s]
        } else {
            seq![s.take(i)] + split_lines(s.skip(i + 1))
        }
    }
}

#[via_fn]
proof fn split_lines_dec(s: Seq<char>) {
    lemma_first_nl_le(s);
}

/// Holds when no character of the text is a line break.
pub open spec fn no_newline(s: Seq<char>) -> bool {
    forall|i: int| 0 <= i < s.len() ==> #[trigger] s[i] != '\n'
}

/// A non-empty break-free text is one whole line.
pub proof fn lemma_split_lines_single(s: Seq<char>)
    requires
        s.len() > 0,
        no_newline(s),
    ensures
        split_lines(s) == seq![s],
{
    lemma_first_nl_is(s, s.len() as int);
}

/// A break-free text, one line break, and a remainder split into that
/// text as the first line and the remainder's lines behind it.
pub proof fn lemma_split_lines_cons(a: Seq<char>, rest: Seq<char>)
    requires
        no_newline(a),
    ensures
        split_lines(a + seq!['\n'] + rest) == seq![a] + split_lines(rest),
{
    let s = a + seq!['\n'] + rest;
    assert forall|i: int| 0 <= i < a.len() implies #[trigger] s[i] != '\n' by {
        assert(s[i] == a[i]);
    }
    assert(s[a.len() as int] == '\n');
    lemma_first_nl_is(s, a.len() as int);
    assert(s.len() > 0);
    assert(s.take(a.len() as int) =~= a);
    assert(s.skip(a.len() as int + 1) =~= rest);
}

/// The tasks of the lines that parse, in line order.
pub open spec fn load_views(ls: Seq<Seq<char>>) -> Seq<TodoView>
    decreases ls.len(),
{
    if ls.len() == 0 {
        Seq::empty()
    } else {
        let rest = load_views(ls.drop_last());
        match parse_spec(ls.last()) {
            Some(tv) => rest.push(tv),
            None => rest,
        }
    }
}

/// The non-blank lines that fail to parse, as (one-based line
/// number, line) pairs, in line order.
pub open spec fn load_failures(ls: Seq<Seq<char>>) -> Seq<(int, Seq<char>)>
    decreases ls.len(),
{
    if ls.len() == 0 {
        Seq::empty()
    } else {
        let rest = load_failures(ls.drop_last());
        if tokenize(ls.last()).len() > 0 && parse_spec(ls.last()) is None {
            rest.push((ls.len() as int, ls.last()))
        } else {
            rest
        }
    }
}

/// Splits a text into its lines.
fn split_lines_str(content: &str) -> (lines: Vec<String>)
    ensures
        lines@.map_values(|l: String| l@) == split_lines(content@),
{
    let n = content.unicode_len();
    let mut lines: Vec<String> = Vec::new();
    let mut i: usize = 0;
    proof {
        assert(content@.skip(0) =~= content@);
        assert(lines@.map_values(|l: String| l@) + split_lines(content@) =~= split_lines(
            content@,
        ));
    }
    while i < n
        invariant
            i <= n,
            n == content@.len(),
            split_lines(content@) == lines@.map_values(|l: String| l@) + split_lines(
                content@.skip(i as int),
            ),
        decreases n - i,
    {
        let mut j: usize = i;
        while j < n && content.get_char(j) != '\n'
            invariant
                i <= j <= n,
                n == content@.len(),
                forall|k: int| i <= k < j ==> #[trigger] content@[k] != '\n',
            decreases n - j,
        {
            j = j + 1;
        }
        let line = content.substring_char(i, j).to_owned();
        let ghost old_lines = lines@;
        lines.push(line);
        proof {
            let rest = content@.skip(i as int);
            let w = content@.subrange(i as int, j as int);
            assert forall|k: int| 0 <= k < j - i implies #[trigger] rest[k] != '\n' by {
                assert(rest[k] == content@[i + k]);
            }
            if j < n {
                assert(rest[j - i] == content@[j as int]);
                lemma_first_nl_is(rest, j - i);
                assert(rest.take(j - i) =~= w);
                assert(rest.skip(j - i + 1) =~= content@.skip(j as int + 1));
                assert(split_lines(rest) == seq![w] + split_lines(content@.skip(j as int + 1)));
            } else {
                lemma_first_nl_is(rest, j - i);
                assert(rest =~= w);
                assert(split_lines(rest) == seq![w]);
                assert(content@.skip(n as int) =~= Seq::<char>::empty());
            }
            let f = |l: String| l@;
            assert(lines@.map_values(f) =~= old_lines.map_values(f).push(w));
            assert(old_lines.map_values(f).push(w) + split_lines(
                content@.skip(if j < n { j as int + 1 } else { n as int }),
            ) =~= old_lines.map_values(f) + split_lines(content@.skip(i as int)));
        }
        if j < n {
            i = j + 1;
        } else {
            i = n;
        }
    }
    proof {
        assert(content@.skip(n as int) =~= Seq::<char>::empty());
        assert(split_lines(content@) =~= lines@.map_values(|l: String| l@));
    }
    lines
}

/// Whether a line holds no token at all.
fn is_blank(line: &str) -> (b: bool)
    ensures
        b == (tokenize(line@).len() == 0),
{
    let n = line.unicode_len();
    let mut i: usize = 0;
    while i < n
        invariant
            i <= n,
            n == line@.len(),
            forall|k: int| 0 <= k < i ==> is_space(#[trigger] line@[k]),
        decreases n - i,
    {
        if !crate::text::is_space_char(line.get_char(i)) {
            proof {
                lemma_tokenize_blank(line@);
            }
            return false;
        }
        i = i + 1;
    }
    proof {
        lemma_tokenize_blank(line@);
    }
    true
}

/// The built-in sort orders.
#[derive(Debug, Clone, Copy)]
pub enum SortKey {
    /// Prioritized tasks first, `A` before `B`; unprioritized last.
    ByPriority,
    /// Dated tasks first, most recent first; undated last.
    ByCreationDate,
    /// Ascending lexicographic order on the description.
    ByDescription,
}

/// A date triple as one number, for comparison.
pub open spec fn date_num(d: (int, int, int)) -> int {
    d.0 * 10000 + d.1 * 100 + d.2
}

/// The order a sort key denotes: a total preorder on task views.
pub open spec fn key_le(key: SortKey, a: TodoView, b: TodoView) -> bool {
    match key {
        SortKey::ByPriority => match (a.priority, b.priority) {
            (Some(p), Some(q)) => p <= q,
            (Some(_), None) => true,
            (None, Some(_)) => false,
            (None, None) => true,
        },
        SortKey::ByCreationDate => match (a.creation_date, b.creation_date) {
            (Some(x), Some(y)) => date_num(y) <= date_num(x),
            (Some(_), None) => true,
            (None, Some(_)) => false,
            (None, None) => true,
        },
        SortKey::ByDescription => lex_le(a.description, b.description),
    }
}

/// Whether a sequence is ordered by the key.
pub open spec fn sorted_by(key: SortKey, s: Seq<TodoView>) -> bool {
    forall|i: int, j: int| 0 <= i < j < s.len() ==> key_le(key, #[trigger] s[i], #[trigger] s[j])
}

/// Stable sorted insertion: the new element moves left past every
/// strictly greater element and stands after every element at most
/// it.
pub open spec fn insert_le(key: SortKey, s: Seq<TodoView>, x: TodoView) -> Seq<TodoView>
    decreases s.len(),
{
    if s.len() == 0 {
        seq![x]
    } else if key_le(key, s.last(), x) {
        s.push(x)
    } else {
        insert_le(key, s.drop_last(), x).push(s.last())
    }
}

/// Stable insertion sort by the key: the exact result the built-in
/// sorts produce. Elements the key cannot tell apart keep their
/// relative order.
pub open spec fn sort_views(key: SortKey, s: Seq<TodoView>) -> Seq<TodoView>
    decreases s.len(),
{
    if s.len() == 0 {
        Seq::empty()
    } else {
        insert_le(key, sort_views(key, s.drop_last()), s.last())
    }
}

/// Every sort key orders totally.
pub proof fn lemma_key_le_total(key: SortKey, a: TodoView, b: TodoView)
    ensures
        key_le(key, a, b) || key_le(key, b, a),
{
    if key is ByDescription {
        crate::text::lemma_lex_le_total(a.description, b.description);
    }
}

/// Every sort key orders transitively.
pub proof fn lemma_key_le_trans(key: SortKey, a: TodoView, b: TodoView, c: TodoView)
    requires
        key_le(key, a, b),
        key_le(key, b, c),
    ensures
        key_le(key, a, c),
{
    if key is ByDescription {
        crate::text::lemma_lex_le_trans(a.description, b.description, c.description);
    }
}

/// Sorted insertion keeps exactly the elements: one more of the
/// inserted one, the rest unchanged.
proof fn lemma_insert_le_contains(key: SortKey, s: Seq<TodoView>, x: TodoView)
    ensures
        insert_le(key, s, x).len() == s.len() + 1,
        forall|e: TodoView|
            #[trigger] insert_le(key, s, x).contains(e) <==> (s.contains(e) || e == x),
        insert_le(key, s, x).to_multiset() == s.to_multiset().insert(x),
    decreases s.len(),
{
    broadcast use vstd::seq_lib::group_to_multiset_ensures;

    let r = insert_le(key, s, x);
    if s.len() == 0 {
        assert(r == seq![x]);
        assert(Seq::<TodoView>::empty().push(x) =~= seq![x]);
        assert(r.to_multiset() =~= s.to_multiset().insert(x));
        assert forall|e: TodoView| #[trigger] r.contains(e) <==> (s.contains(e) || e == x) by {
            if r.contains(e) {
                let i = choose|i: int| 0 <= i < r.len() && r[i] == e;
                assert(e == x);
            }
            if e == x {
                assert(r[0] == e);
            }
        }
    } else if key_le(key, s.last(), x) {
        assert(r == s.push(x));
        assert forall|e: TodoView| #[trigger] r.contains(e) <==> (s.contains(e) || e == x) by {
            if r.contains(e) {
                let i = choose|i: int| 0 <= i < r.len() && r[i] == e;
                if i < s.len() {
                    assert(s[i] == e);
                }
            }
            if s.contains(e) {
                let i = choose|i: int| 0 <= i < s.len() && s[i] == e;
                assert(r[i] == e);
            }
            if e == x {
                assert(r[s.len() as int] == e);
            }
        }
    } else {
        let dl = s.drop_last();
        lemma_insert_le_contains(key, dl, x);
        let inner = insert_le(key, dl, x);
        assert(r == inner.push(s.last()));
        assert(dl.push(s.last()) =~= s);
        assert(r.to_multiset() =~= s.to_multiset().insert(x)) by {
            assert(inner.to_multiset() == dl.to_multiset().insert(x));
            assert(r.to_multiset() == inner.to_multiset().insert(s.last()));
            assert(s.to_multiset() == dl.to_multiset().insert(s.last()));
            assert(dl.to_multiset().insert(x).insert(s.last()) =~= dl.to_multiset().insert(
                s.last(),
            ).insert(x));
        }
        assert forall|e: TodoView| #[trigger] r.contains(e) <==> (s.contains(e) || e == x) by {
            if r.contains(e) {
                let i = choose|i: int| 0 <= i < r.len() && r[i] == e;
                if i < inner.len() {
                    assert(inner.contains(e));
                    if dl.contains(e) {
                        let j = choose|j: int| 0 <= j < dl.len() && dl[j] == e;
                        assert(s[j] == e);
                    }
                } else {
                    assert(e == s.last());
                    assert(s[s.len() - 1] == e);
                }
            }
            if s.contains(e) {
                let i = choose|i: int| 0 <= i < s.len() && s[i] == e;
                if i < s.len() - 1 {
                    assert(dl[i] == e);
                    assert(inner.contains(e));
                    let j = choose|j: int| 0 <= j < inner.len() && inner[j] == e;
                    assert(r[j] == e);
                } else {
                    assert(r[r.len() - 1] == e);
                }
            }
            if e == x {
                assert(inner.contains(e));
                let j = choose|j: int| 0 <= j < inner.len() && inner[j] == e;
                assert(r[j] == e);
            }
        }
    }
}

/// Sorted insertion into an ordered sequence keeps it ordered.
proof fn lemma_insert_le_sorted(key: SortKey, s: Seq<TodoView>, x: TodoView)
    requires
        sorted_by(key, s),
    ensures
        sorted_by(key, insert_le(key, s, x)),
    decreases s.len(),
{
    let r = insert_le(key, s, x);
    if s.len() == 0 {
    } else if key_le(key, s.last(), x) {
        assert(r == s.push(x));
        assert forall|i: int, j: int|
            0 <= i < j < r.len() implies key_le(key, #[trigger] r[i], #[trigger] r[j]) by {
            if j == r.len() - 1 {
                assert(r[i] == s[i]);
                if i < s.len() - 1 {
                    assert(key_le(key, s[i], s[s.len() - 1]));
                    lemma_key_le_trans(key, s[i], s[s.len() - 1], x);
                }
            } else {
                assert(r[i] == s[i] && r[j] == s[j]);
            }
        }
    } else {
        let dl = s.drop_last();
        assert(sorted_by(key, dl)) by {
            assert forall|i: int, j: int|
                0 <= i < j < dl.len() implies key_le(key, #[trigger] dl[i], #[trigger] dl[j]) by {
                assert(dl[i] == s[i] && dl[j] == s[j]);
            }
        }
        lemma_insert_le_sorted(key, dl, x);
        lemma_insert_le_contains(key, dl, x);
        let inner = insert_le(key, dl, x);
        assert(r == inner.push(s.last()));
        lemma_key_le_total(key, s.last(), x);
        assert(key_le(key, x, s.last()));
        assert forall|i: int, j: int|
            0 <= i < j < r.len() implies key_le(key, #[trigger] r[i], #[trigger] r[j]) by {
            if j == r.len() - 1 {
                assert(r[i] == inner[i]);
                assert(inner.contains(inner[i]));
                if dl.contains(inner[i]) {
                    let m = choose|m: int| 0 <= m < dl.len() && dl[m] == inner[i];
                    assert(key_le(key, s[m], s[s.len() - 1]));
                } else {
                    assert(inner[i] == x);
                }
            } else {
                assert(r[i] == inner[i] && r[j] == inner[j]);
            }
        }
    }
}

/// The built-in sorts leave an already ordered collection exactly as
/// it stands, as a stable sort must.
pub proof fn lemma_sort_views_of_sorted(key: SortKey, s: Seq<TodoView>)
    requires
        sorted_by(key, s),
    ensures
        sort_views(key, s) == s,
    decreases s.len(),
{
    if s.len() > 0 {
        let dl = s.drop_last();
        assert(sorted_by(key, dl)) by {
            assert forall|i: int, j: int|
                0 <= i < j < dl.len() implies key_le(key, #[trigger] dl[i], #[trigger] dl[j]) by {
                assert(dl[i] == s[i] && dl[j] == s[j]);
            }
        }
        lemma_sort_views_of_sorted(key, dl);
        if dl.len() > 0 {
            assert(key_le(key, dl.last(), s.last()));
        }
        assert(dl.push(s.last()) =~= s);
    }
}

/// The built-in sorts order their result by the key.
pub proof fn lemma_sort_views_sorted(key: SortKey, s: Seq<TodoView>)
    ensures
        sorted_by(key, sort_views(key, s)),
    decreases s.len(),
{
    if s.len() > 0 {
        lemma_sort_views_sorted(key, s.drop_last());
        lemma_insert_le_sorted(key, sort_views(key, s.drop_last()), s.last());
    }
}

/// The built-in sorts permute the collection: same tasks, same
/// number of each.
pub proof fn lemma_sort_views_permutes(key: SortKey, s: Seq<TodoView>)
    ensures
        sort_views(key, s).to_multiset() == s.to_multiset(),
    decreases s.len(),
{
    broadcast use vstd::seq_lib::group_to_multiset_ensures;

    if s.len() > 0 {
        let dl = s.drop_last();
        lemma_sort_views_permutes(key, dl);
        lemma_insert_le_contains(key, sort_views(key, dl), s.last());
        assert(dl.push(s.last()) =~= s);
        assert(sort_views(key, s).to_multiset() =~= s.to_multiset());
    }
}

/// Pins the insertion point down, as the sorting loop finds it.
proof fn lemma_insert_le_at(key: SortKey, s: Seq<TodoView>, x: TodoView, j: int)
    requires
        0 <= j <= s.len(),
        forall|i: int| j <= i < s.len() ==> !key_le(key, #[trigger] s[i], x),
        j == 0 || key_le(key, s[j - 1], x),
    ensures
        insert_le(key, s, x) == s.take(j) + seq![x] + s.skip(j),
    decreases s.len(),
{
    if s.len() == 0 {
        assert(s.take(j) + seq![x] + s.skip(j) =~= seq![x]);
    } else if key_le(key, s.last(), x) {
        assert(j == s.len());
        assert(s.take(j) + seq![x] + s.skip(j) =~= s.push(x));
    } else {
        assert(j < s.len());
        let dl = s.drop_last();
        lemma_insert_le_at(key, dl, x, j);
        assert(dl.take(j) =~= s.take(j));
        assert((dl.take(j) + seq![x] + dl.skip(j)).push(s.last()) =~= s.take(j) + seq![x] + s.skip(
            j,
        ));
    }
}

/// Whether the first task sorts at or before the second under the
/// key.
fn todo_le(key: SortKey, a: &Todo, b: &Todo) -> (r: bool)
    ensures
        r == key_le(key, a@, b@),
{
    match key {
        SortKey::ByPriority => match (&a.priority, &b.priority) {
            (Some(p), Some(q)) => p.as_char() <= q.as_char(),
            (Some(_), None) => true,
            (None, Some(_)) => false,
            (None, None) => true,
        },
        SortKey::ByCreationDate => match (&a.creation_date, &b.creation_date) {
            (Some(x), Some(y)) => {
                let xn: u32 = (x.year() as u32) * 10000 + (x.month() as u32) * 100 + (x.day()
                    as u32);
                let yn: u32 = (y.year() as u32) * 10000 + (y.month() as u32) * 100 + (y.day()
                    as u32);
                yn <= xn
            },
            (Some(_), None) => true,
            (None, Some(_)) => false,
            (None, None) => true,
        },
        SortKey::ByDescription => str_le(a.description.as_str(), b.description.as_str()),
    }
}

/// Sorts a task vector stably by the key, producing exactly the
/// stable insertion sort of its views.
fn sort_todos(todos: &mut Vec<Todo>, key: SortKey)
    ensures
        final(todos)@.map_values(|t: Todo| t@) == sort_views(
            key,
            old(todos)@.map_values(|t: Todo| t@),
        ),
{
    let ghost orig = todos@.map_values(|t: Todo| t@);
    let n = todos.len();
    let mut sorted: Vec<Todo> = Vec::new();
    let mut i: usize = 0;
    proof {
        assert(orig.take(0) =~= Seq::<TodoView>::empty());
        assert(sorted@.map_values(|t: Todo| t@) =~= sort_views(key, orig.take(0)));
    }
    while i < n
        invariant
            i <= n,
            n == todos.len(),
            orig == todos@.map_values(|t: Todo| t@),
            sorted@.map_values(|t: Todo| t@) == sort_views(key, orig.take(i as int)),
        decreases n - i,
    {
        let t = todos[i].clone();
        let ghost sm = sorted@.map_values(|t: Todo| t@);
        let mut j: usize = sorted.len();
        while j > 0 && !todo_le(key, &sorted[j - 1], &t)
            invariant
                j <= sorted.len(),
                sm == sorted@.map_values(|t: Todo| t@),
                t@ == orig[i as int],
                forall|idx: int| j <= idx < sm.len() ==> !key_le(key, #[trigger] sm[idx], t@),
            decreases j,
        {
            proof {
                assert(sm[j - 1] == sorted@[j - 1]@);
            }
            j = j - 1;
        }
        proof {
            if j > 0 {
                assert(sm[j - 1] == sorted@[j - 1]@);
            }
            lemma_insert_le_at(key, sm, t@, j as int);
        }
        sorted.insert(j, t);
        i = i + 1;
        proof {
            assert(sorted@.map_values(|t: Todo| t@) =~= sm.take(j as int) + seq![orig[i as int - 1]]
                + sm.skip(j as int));
            assert(orig.take(i as int).drop_last() =~= orig.take(i as int - 1));
            assert(orig.take(i as int).last() == orig[i as int - 1]);
        }
    }
    proof {
        assert(orig.take(n as int) =~= orig);
    }
    *todos = sorted;
}

/// Holds when some actual call of the comparison answered `Greater`
/// on (the task at `earlier`, the task at `later`).
pub open spec fn inversion_justified<F: Fn(&Todo, &Todo) -> core::cmp::Ordering>(
    before: Seq<TodoView>,
    compare: F,
    earlier: int,
    later: int,
) -> bool {
    exists|a: &Todo, b: &Todo|
        a@ == before[earlier] && b@ == before[later] && compare.ensures(
            (a, b),
            core::cmp::Ordering::Greater,
        )
}

/// Holds when some actual call of the comparison answered other than
/// `Greater` on (the task at `earlier`, the task at `later`).
pub open spec fn order_confirmed<F: Fn(&Todo, &Todo) -> core::cmp::Ordering>(
    before: Seq<TodoView>,
    compare: F,
    earlier: int,
    later: int,
) -> bool {
    exists|a: &Todo, b: &Todo, r: core::cmp::Ordering|
        a@ == before[earlier] && b@ == before[later] && r != core::cmp::Ordering::Greater
            && compare.ensures((a, b), r)
}

/// Holds when `perm` maps output positions to pairwise distinct input
/// positions, the output at each position is the input at its mapped
/// position, every pair standing opposite to its input order is
/// justified by a `Greater` answer the comparison actually gave on
/// those two tasks (earlier one first), and every adjacent pair kept
/// in input order is confirmed by an actual answer other than
/// `Greater`. A pair the comparison never calls `Greater` on thus
/// keeps its input order — the sort is stable — and for a comparison
/// that behaves as a consistent total preorder, every adjacent output
/// pair is in order, so the result is sorted by it.
pub open spec fn sort_permutes<F: Fn(&Todo, &Todo) -> core::cmp::Ordering>(
    before: Seq<TodoView>,
    after: Seq<TodoView>,
    compare: F,
    perm: Seq<int>,
) -> bool {
    &&& perm.len() == before.len()
    &&& after.len() == before.len()
    &&& (forall|k: int| 0 <= k < perm.len() ==> 0 <= #[trigger] perm[k] < perm.len())
    &&& (forall|k1: int, k2: int| 0 <= k1 < k2 < perm.len() ==> perm[k1] != perm[k2])
    &&& (forall|k: int| 0 <= k < perm.len() ==> #[trigger] after[k] == before[perm[k]])
    &&& (forall|k: int, l: int|
        0 <= k < l < perm.len() && (#[trigger] perm[k]) > (#[trigger] perm[l])
            ==> inversion_justified(before, compare, perm[l], perm[k]))
    &&& (forall|k: int, l: int|
        l == k + 1 && 0 <= k < l < perm.len() && (#[trigger] perm[k]) < (#[trigger] perm[l])
            ==> order_confirmed(before, compare, perm[k], perm[l]))
}

impl TodoList {
    /// Sorts in place by a caller-supplied comparison, stably: the
    /// result is a permutation of the collection in which a task
    /// stands before an originally earlier one only where the
    /// comparison actually answered `Greater` on the two. Tasks the
    /// comparison never calls `Greater` on keep their relative order,
    /// and a consistent comparison leaves the result sorted by it.
    pub fn sort_by<F: Fn(&Todo, &Todo) -> core::cmp::Ordering>(&mut self, compare: F)
        requires
            forall|a: &Todo, b: &Todo| #[trigger] compare.requires((a, b)),
        ensures
            final(self)@.to_multiset() == old(self)@.to_multiset(),
            exists|perm: Seq<int>| sort_permutes(old(self)@, final(self)@, compare, perm),
    {
        broadcast use vstd::seq_lib::group_to_multiset_ensures;

        let ghost orig = self@;
        let n = self.todos.len();
        let mut sorted: Vec<Todo> = Vec::new();
        let ghost mut perm: Seq<int> = Seq::empty();
        let mut i: usize = 0;
        proof {
            assert(orig.take(0) =~= Seq::<TodoView>::empty());
            assert(sorted@.map_values(|t: Todo| t@) =~= orig.take(0));
        }
        while i < n
            invariant
                i <= n,
                n == self.todos.len(),
                n == orig.len(),
                orig == self@,
                forall|a: &Todo, b: &Todo| #[trigger] compare.requires((a, b)),
                sorted@.map_values(|t: Todo| t@).to_multiset() == orig.take(
                    i as int,
                ).to_multiset(),
                perm.len() == sorted@.len(),
                forall|k: int| 0 <= k < perm.len() ==> 0 <= #[trigger] perm[k] < i,
                forall|k1: int, k2: int| 0 <= k1 < k2 < perm.len() ==> perm[k1] != perm[k2],
                forall|k: int|
                    0 <= k < perm.len() ==> sorted@.map_values(|t: Todo| t@)[k] == orig[(
                    #[trigger] perm[k])],
                forall|k: int, l: int|
                    0 <= k < l < perm.len() && (#[trigger] perm[k]) > (#[trigger] perm[l])
                        ==> inversion_justified(orig, compare, perm[l], perm[k]),
                forall|k: int, l: int|
                    l == k + 1 && 0 <= k < l < perm.len() && (#[trigger] perm[k]) < (
                    #[trigger] perm[l]) ==> order_confirmed(orig, compare, perm[k], perm[l]),
            decreases n - i,
        {
            broadcast use vstd::seq_lib::group_to_multiset_ensures;

            let t = self.todos[i].clone();
            let ghost sm = sorted@.map_values(|t: Todo| t@);
            let mut j: usize = sorted.len();
            while j > 0 && matches!(compare(&sorted[j - 1], &t), core::cmp::Ordering::Greater)
                invariant
                    j <= sorted.len(),
                    i < n,
                    n == orig.len(),
                    sm == sorted@.map_values(|t: Todo| t@),
                    t@ == orig[i as int],
                    perm.len() == sorted@.len(),
                    forall|k: int| 0 <= k < perm.len() ==> #[trigger] sm[k] == orig[perm[k]],
                    forall|a: &Todo, b: &Todo| #[trigger] compare.requires((a, b)),
                    forall|m: int|
                        j <= m < perm.len() ==> inversion_justified(
                            orig,
                            compare,
                            #[trigger] perm[m],
                            i as int,
                        ),
                decreases j,
            {
                proof {
                    assert(sm[j - 1] == sorted@[j - 1]@);
                    assert(inversion_justified(orig, compare, perm[j - 1], i as int));
                }
                j = j - 1;
            }
            let ghost operm = perm;
            let ghost ii = i as int;
            proof {
                if j > 0 {
                    assert(sm[j - 1] == sorted@[j - 1]@);
                    assert(order_confirmed(orig, compare, operm[j - 1], ii));
                }
                perm = operm.take(j as int) + seq![ii] + operm.skip(j as int);
            }
            sorted.insert(j, t);
            i = i + 1;
            proof {
                vstd::seq_lib::lemma_multiset_commutative(sm.take(j as int), sm.skip(j as int));
                vstd::seq_lib::lemma_multiset_commutative(
                    sm.take(j as int),
                    seq![orig[ii]] + sm.skip(j as int),
                );
                vstd::seq_lib::lemma_multiset_commutative(seq![orig[ii]], sm.skip(j as int));
                assert(sm =~= sm.take(j as int) + sm.skip(j as int));
                let smv = sorted@.map_values(|t: Todo| t@);
                assert(smv =~= sm.take(j as int) + (seq![orig[ii]] + sm.skip(j as int)));
                assert(seq![orig[ii]] =~= Seq::<TodoView>::empty().push(orig[ii]));
                assert(smv.to_multiset() =~= sm.to_multiset().insert(orig[ii]));
                assert(orig.take(ii + 1) =~= orig.take(ii).push(orig[ii]));
                assert(smv.to_multiset() =~= orig.take(ii + 1).to_multiset());
                assert(smv =~= sm.take(j as int) + seq![orig[ii]] + sm.skip(j as int));
                assert(perm.len() == smv.len());
                assert forall|k: int| 0 <= k < perm.len() implies 0 <= #[trigger] perm[k] < i by {
                    if k < j {
                        assert(perm[k] == operm[k]);
                    } else if k > j {
                        assert(perm[k] == operm[k - 1]);
                    }
                }
                assert forall|k: int|
                    0 <= k < perm.len() implies #[trigger] smv[k] == orig[perm[k]] by {
                    if k < j {
                        assert(perm[k] == operm[k] && smv[k] == sm[k]);
                    } else if k == j {
                        assert(perm[k] == ii && smv[k] == orig[ii]);
                    } else {
                        assert(perm[k] == operm[k - 1] && smv[k] == sm[k - 1]);
                    }
                }
                assert forall|k1: int, k2: int|
                    0 <= k1 < k2 < perm.len() implies perm[k1] != perm[k2] by {
                    if k1 < j && k2 < j {
                        assert(perm[k1] == operm[k1] && perm[k2] == operm[k2]);
                    } else if k1 < j && k2 == j {
                        assert(perm[k1] == operm[k1] && perm[k2] == ii);
                    } else if k1 < j && k2 > j {
                        assert(perm[k1] == operm[k1] && perm[k2] == operm[k2 - 1]);
                    } else if k1 == j {
                        assert(perm[k1] == ii && perm[k2] == operm[k2 - 1]);
                    } else {
                        assert(perm[k1] == operm[k1 - 1] && perm[k2] == operm[k2 - 1]);
                    }
                }
                assert forall|k: int, l: int|
                    0 <= k < l < perm.len() && (#[trigger] perm[k]) > (#[trigger] perm[l])
                        implies inversion_justified(orig, compare, perm[l], perm[k]) by {
                    if l < j {
                        assert(perm[k] == operm[k] && perm[l] == operm[l]);
                    } else if k < j && l == j {
                        assert(perm[k] == operm[k] && perm[l] == ii);
                        assert(perm[k] < ii);
                    } else if k < j && l > j {
                        assert(perm[k] == operm[k] && perm[l] == operm[l - 1]);
                    } else if k == j {
                        assert(perm[k] == ii && perm[l] == operm[l - 1]);
                        assert(j <= l - 1 < operm.len());
                        assert(inversion_justified(orig, compare, operm[l - 1], ii));
                    } else {
                        assert(perm[k] == operm[k - 1] && perm[l] == operm[l - 1]);
                    }
                }
                assert forall|k: int, l: int|
                    l == k + 1 && 0 <= k < l < perm.len() && (#[trigger] perm[k]) < (
                #[trigger] perm[l]) implies order_confirmed(orig, compare, perm[k], perm[l]) by {
                    if l < j {
                        assert(perm[k] == operm[k] && perm[l] == operm[l]);
                    } else if k < j && l == j {
                        assert(k == j - 1);
                        assert(perm[k] == operm[j - 1] && perm[l] == ii);
                    } else if k == j {
                        assert(perm[k] == ii && perm[l] == operm[l - 1]);
                        assert(perm[k] > perm[l]);
                    } else {
                        assert(perm[k] == operm[k - 1] && perm[l] == operm[l - 1]);
                    }
                }
            }
        }
        proof {
            assert(orig.take(n as int) =~= orig);
            broadcast use vstd::seq_lib::group_to_multiset_ensures;

            assert(sorted@.map_values(|t: Todo| t@).len() == perm.len());
            assert(sorted@.map_values(|t: Todo| t@).to_multiset().len() == orig.to_multiset().len());
            assert(perm.len() == orig.len());
        }
        self.todos = sorted;
        proof {
            assert(sort_permutes(orig, self@, compare, perm));
        }
    }

    /// Sorts by priority: prioritized tasks first, `A` before `B`,
    /// unprioritized last; a stable sort, so tasks comparing equal
    /// keep their relative order.
    pub fn sort_by_priority(&mut self)
        ensures
            final(self)@ == sort_views(SortKey::ByPriority, old(self)@),
    {
        sort_todos(&mut self.todos, SortKey::ByPriority);
    }

    /// Sorts by creation date, most recent first, undated tasks
    /// last; a stable sort, so tasks comparing equal keep their
    /// relative order.
    pub fn sort_by_creation_date(&mut self)
        ensures
            final(self)@ == sort_views(SortKey::ByCreationDate, old(self)@),
    {
        sort_todos(&mut self.todos, SortKey::ByCreationDate);
    }

    /// Sorts by description, ascending lexicographically; a stable
    /// sort, so tasks comparing equal keep their relative order.
    pub fn sort_by_description(&mut self)
        ensures
            final(self)@ == sort_views(SortKey::ByDescription, old(self)@),
    {
        sort_todos(&mut self.todos, SortKey::ByDescription);
    }
}

/// The text of a whole collection: each task's rendered line, joined
/// with single line breaks.
pub open spec fn render_all(views: Seq<TodoView>) -> Seq<char>
    decreases views.len(),
{
    if views.len() == 0 {
        Seq::empty()
    } else if views.len() == 1 {
        render_spec(views[0])
    } else {
        render_spec(views[0]) + seq!['\n'] + render_all(views.drop_first())
    }
}

/// Appending one task to a rendering appends a line break and its
/// line, except to an empty rendering.
proof fn lemma_render_all_push(views: Seq<TodoView>, v: TodoView)
    ensures
        render_all(views.push(v)) == if views.len() == 0 {
            render_spec(v)
        } else {
            render_all(views) + seq!['\n'] + render_spec(v)
        },
    decreases views.len(),
{
    if views.len() == 0 {
        assert(views.push(v)[0] == v);
        assert(render_all(views.push(v)) == render_spec(v));
    } else {
        lemma_render_all_push(views.drop_first(), v);
        assert(views.push(v).drop_first() =~= views.drop_first().push(v));
        if views.len() == 1 {
            assert(render_all(views.push(v)) == render_spec(views[0]) + seq!['\n'] + render_spec(
                v,
            ));
            assert(render_all(views) == render_spec(views[0]));
        } else {
            assert(render_all(views.push(v)) == render_spec(views[0]) + seq!['\n'] + (render_all(
                views.drop_first(),
            ) + seq!['\n'] + render_spec(v)));
            assert(render_spec(views[0]) + seq!['\n'] + (render_all(views.drop_first())
                + seq!['\n'] + render_spec(v)) =~= (render_spec(views[0]) + seq!['\n']
                + render_all(views.drop_first())) + seq!['\n'] + render_spec(v));
        }
    }
}

impl TodoList {
    /// Builds a collection from a text, one task per non-blank line,
    /// in order. A line that fails to parse is skipped; loading never
    /// fails wholesale on account of one bad line.
    pub fn from_string(content: &str) -> (r: Result<TodoList, TodoError>)
        ensures
            r matches Ok(list) && list@ == load_views(split_lines(content@)),
    {
        let (list, _) = TodoList::from_string_with_warnings(content);
        Ok(list)
    }

    /// Builds a collection from a text, one task per non-blank line,
    /// in order, and reports each non-blank line that failed to
    /// parse as a (one-based line number, error) pair, the error
    /// carrying the offending line.
    pub fn from_string_with_warnings(content: &str) -> (r: (TodoList, Vec<(usize, TodoError)>))
        ensures
            r.0@ == load_views(split_lines(content@)),
            r.1@.len() == load_failures(split_lines(content@)).len(),
            forall|i: int|
                0 <= i < r.1@.len() ==> (#[trigger] r.1@[i]).0 as int == load_failures(
                    split_lines(content@),
                )[i].0 && (r.1@[i].1 matches TodoError::ParseError(l) && l@ == load_failures(
                    split_lines(content@),
                )[i].1),
    {
        let lines = split_lines_str(content);
        let ghost ls = lines@.map_values(|l: String| l@);
        let n = lines.len();
        let mut todos: Vec<Todo> = Vec::new();
        let mut warnings: Vec<(usize, TodoError)> = Vec::new();
        let mut k: usize = 0;
        proof {
            assert(ls.take(0) =~= Seq::<Seq<char>>::empty());
            assert(todos@.map_values(|t: Todo| t@) =~= load_views(ls.take(0)));
            assert(warnings@.len() == load_failures(ls.take(0)).len());
        }
        while k < n
            invariant
                k <= n,
                n == lines.len(),
                ls == lines@.map_values(|l: String| l@),
                ls.len() == n as int,
                todos@.map_values(|t: Todo| t@) == load_views(ls.take(k as int)),
                warnings@.len() == load_failures(ls.take(k as int)).len(),
                forall|i: int|
                    0 <= i < warnings@.len() ==> (#[trigger] warnings@[i]).0 as int
                        == load_failures(ls.take(k as int))[i].0 && (warnings@[i].1 matches
                    TodoError::ParseError(l) && l@ == load_failures(ls.take(k as int))[i].1),
            decreases n - k,
        {
            let line = lines[k].as_str();
            proof {
                assert(ls[k as int] == line@);
                assert(ls.take(k as int + 1).drop_last() =~= ls.take(k as int));
                assert(ls.take(k as int + 1).last() == ls[k as int]);
            }
            if is_blank(line) {
                proof {
                    assert(parse_spec(line@) is None);
                }
            } else {
                match parse_todo(line) {
                    Ok(t) => {
                        let ghost prev = todos@.map_values(|t: Todo| t@);
                        todos.push(t);
                        proof {
                            assert(todos@.map_values(|t: Todo| t@) =~= prev.push(
                                parse_spec(line@).unwrap(),
                            ));
                        }
                    },
                    Err(e) => {
                        warnings.push((k + 1, e));
                    },
                }
            }
            k = k + 1;
        }
        proof {
            assert(ls.take(n as int) =~= ls);
        }
        let list = TodoList { todos };
        (list, warnings)
    }

    /// Renders the whole collection: each task's line, in collection
    /// order, joined with single line breaks.
    pub fn to_text(&self) -> (r: String)
        ensures
            r@ == render_all(self@),
    {
        let n = self.todos.len();
        let mut out = String::new();
        let mut k: usize = 0;
        proof {
            assert(self@.take(0) =~= Seq::<TodoView>::empty());
            assert(out@ =~= render_all(self@.take(0)));
        }
        while k < n
            invariant
                k <= n,
                n == self.todos.len(),
                out@ == render_all(self@.take(k as int)),
            decreases n - k,
        {
            if k > 0 {
                out.push('\n');
            }
            let line = self.todos[k].render();
            out.append(line.as_str());
            k = k + 1;
            proof {
                assert(self@.take(k as int).drop_last() =~= self@.take(k as int - 1));
                assert(self@.take(k as int) =~= self@.take(k as int - 1).push(
                    self@[k as int - 1],
                ));
                lemma_render_all_push(self@.take(k as int - 1), self@[k as int - 1]);
                assert(self@[k as int - 1] == self.todos@[k as int - 1]@);
                assert(out@ =~= render_all(self@.take(k as int)));
            }
        }
        proof {
            assert(self@.take(n as int) =~= self@);
        }
        out
    }
}

impl Clone for TodoList {
    /// Clones the collection; the copy has the same mathematical
    /// content.
    fn clone(&self) -> (r: TodoList)
        ensures
            r@ == self@,
    {
        let n = self.todos.len();
        let mut todos: Vec<Todo> = Vec::new();
        let mut i: usize = 0;
        while i < n
            invariant
                i <= n,
                n == self.todos.len(),
                todos@.len() == i,
                forall|j: int| 0 <= j < i ==> #[trigger] todos@[j]@ == self.todos@[j]@,
            decreases n - i,
        {
            todos.push(self.todos[i].clone());
            i = i + 1;
        }
        let r = TodoList { todos };
        proof {
            assert(r@ =~= self@);
        }
        r
    }
}

impl Default for TodoList {
    /// The empty collection.
    fn default() -> (r: TodoList)
        ensures
            r@ == Seq::<TodoView>::empty(),
    {
        TodoList::new()
    }
}

/// Updating one task and taking views is taking views and updating
/// one view.
proof fn lemma_map_values_update(s: Seq<Todo>, i: int)
    requires
        0 <= i < s.len(),
    ensures
        forall|x: Todo| #![trigger s.update(i, x)]
            s.update(i, x).map_values(|t: Todo| t@) == s.map_values(|t: Todo| t@).update(i, x@),
{
    assert forall|x: Todo| #![trigger s.update(i, x)]
        s.update(i, x).map_values(|t: Todo| t@) == s.map_values(|t: Todo| t@).update(
        i,
        x@,
    ) by {
        assert(s.update(i, x).map_values(|t: Todo| t@) =~= s.map_values(|t: Todo| t@).update(
            i,
            x@,
        ));
    }
}

/// Filtering nothing yields nothing.
proof fn lemma_filter_take_zero(s: Seq<TodoView>, pred: spec_fn(TodoView) -> bool)
    ensures
        filter_views(s.take(0), pred) == Seq::<TodoView>::empty(),
{
    assert(s.take(0) =~= Seq::<TodoView>::empty());
}

/// Filtering one element more keeps the filtered prefix and appends
/// the element exactly when it satisfies the predicate.
proof fn lemma_filter_take_step(s: Seq<TodoView>, pred: spec_fn(TodoView) -> bool, i: int)
    requires
        0 <= i < s.len(),
    ensures
        filter_views(s.take(i + 1), pred) == if pred(s[i]) {
            filter_views(s.take(i), pred).push(s[i])
        } else {
            filter_views(s.take(i), pred)
        },
{
    assert(s.take(i + 1).len() == i + 1);
    assert(s.take(i + 1).drop_last() =~= s.take(i));
    assert(s.take(i + 1).last() == s[i]);
}

} // verus!
