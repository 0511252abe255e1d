//! The in-memory todo store: items, the id counter, and the mutating
//! operations add, remove, toggle and clear.

use vstd::prelude::*;

use crate::digits::dec_of;
use crate::digits::u8_to_dec;
use crate::strutil::append_chars;
use crate::strutil::chars_to_string;

verus! {

/// The completion status a filter can select.
#[derive(Clone, Copy, PartialEq, Eq, Structural, Debug)]
pub enum TodoStatus {
    Completed,
    Pending,
}

/// The one store-level error: an operation targeted an id that no item has.
#[derive(Clone, Copy, PartialEq, Eq, Structural, Debug)]
pub enum TodoError {
    NotFound,
}

/// One task record: an id, its text, and whether it has been completed.
pub struct Todo {
    pub id: u8,
    pub text: String,
    pub is_complete: bool,
}

/// The mathematical value of a [`Todo`]: the id as an integer and the text as
/// a sequence of characters.
pub ghost struct TodoView {
    pub id: int,
    pub text: Seq<char>,
    pub is_complete: bool,
}

impl View for Todo {
    type V = TodoView;

    open spec fn view(&self) -> TodoView {
        TodoView { id: self.id as int, text: self.text@, is_complete: self.is_complete }
    }
}

impl Clone for Todo {
    fn clone(&self) -> (r: Self)
        ensures
            r@ == self@,
    {
        Todo { id: self.id, text: self.text.clone(), is_complete: self.is_complete }
    }
}

/// The mathematical values of a sequence of items.
pub open spec fn views_of(s: Seq<Todo>) -> Seq<TodoView> {
    s.map_values(|t: Todo| t@)
}

/// Does `t` pass the filter `only`? `None` admits every item; `Some(status)`
/// admits exactly the items with that status.
pub open spec fn passes(t: TodoView, only: Option<TodoStatus>) -> bool {
    match only {
        Option::None => true,
        Option::Some(TodoStatus::Completed) => t.is_complete,
        Option::Some(TodoStatus::Pending) => !t.is_complete,
    }
}

/// Is the id `id` bound to some item of `s`?
pub open spec fn contains_id(s: Seq<TodoView>, id: int) -> bool {
    exists|i: int| 0 <= i < s.len() && (#[trigger] s[i]).id == id
}

/// The index of the item of `s` whose id is `id` (meaningful only when
/// `contains_id(s, id)` holds; in a well-formed store ids are unique).
pub open spec fn index_of_id(s: Seq<TodoView>, id: int) -> int {
    choose|i: int| 0 <= i < s.len() && (#[trigger] s[i]).id == id
}

/// `s` with the completion flag of the item with id `id` flipped.
pub open spec fn toggled(s: Seq<TodoView>, id: int) -> Seq<TodoView> {
    let i = index_of_id(s, id);
    s.update(i, TodoView { is_complete: !s[i].is_complete, ..s[i] })
}

/// `s` without the item with id `id`: what `remove` leaves behind.
pub open spec fn without_id(s: Seq<TodoView>, id: int) -> Seq<TodoView>
    decreases s.len(),
{
    if s.len() == 0 {
        Seq::empty()
    } else if s.first().id == id {
        without_id(s.drop_first(), id)
    } else {
        seq![s.first()] + without_id(s.drop_first(), id)
    }
}

/// `s` without the items that pass the filter `only`: what `clear` leaves
/// behind.
pub open spec fn cleared(s: Seq<TodoView>, only: Option<TodoStatus>) -> Seq<TodoView>
    decreases s.len(),
{
    if s.len() == 0 {
        Seq::empty()
    } else if passes(s.first(), only) {
        cleared(s.drop_first(), only)
    } else {
        seq![s.first()] + cleared(s.drop_first(), only)
    }
}

/// The items of `s` that pass the filter `only`, in order: what `show`
/// selects.
pub open spec fn selected(s: Seq<TodoView>, only: Option<TodoStatus>) -> Seq<TodoView>
    decreases s.len(),
{
    if s.len() == 0 {
        Seq::empty()
    } else if passes(s.first(), only) {
        seq![s.first()] + selected(s.drop_first(), only)
    } else {
        selected(s.drop_first(), only)
    }
}

/// The display line of one item: `"<id>. <text> [<status-word>]"`, with
/// `completed` or `pending` as the status word.
pub open spec fn line_of(t: TodoView) -> Seq<char> {
    dec_of(t.id) + ". "@ + t.text + " ["@ + (if t.is_complete {
        "completed"@
    } else {
        "pending"@
    }) + "]"@
}

impl Todo {
    /// The one-line display form of this item.
    pub fn display_line(&self) -> (r: String)
        ensures
            r@ == line_of(self@),
    {
        let mut v = u8_to_dec(self.id);
        append_chars(&mut v, ". ");
        append_chars(&mut v, self.text.as_str());
        append_chars(&mut v, " [");
        if self.is_complete {
            append_chars(&mut v, "completed");
        } else {
            append_chars(&mut v, "pending");
        }
        append_chars(&mut v, "]");
        let r = chars_to_string(&v);
        r
    }
}

/// How `selected` grows when one item is appended: the item shows up exactly
/// when it passes the filter.
proof fn lemma_selected_push(s: Seq<TodoView>, t: TodoView, only: Option<TodoStatus>)
    ensures
        selected(s.push(t), only) == if passes(t, only) {
            selected(s, only).push(t)
        } else {
            selected(s, only)
        },
    decreases s.len(),
{
    if s.len() == 0 {
        assert(s.push(t).drop_first() =~= Seq::<TodoView>::empty());
        assert(s.push(t).first() == t);
        if passes(t, only) {
            assert(seq![t] + selected(Seq::<TodoView>::empty(), only) =~= selected(
                s,
                only,
            ).push(t));
        }
    } else {
        assert(s.push(t).drop_first() =~= s.drop_first().push(t));
        assert(s.push(t).first() == s.first());
        lemma_selected_push(s.drop_first(), t, only);
        if passes(s.first(), only) && passes(t, only) {
            assert(seq![s.first()] + selected(s.drop_first(), only).push(t) =~= (seq![s.first()]
                + selected(s.drop_first(), only)).push(t));
        }
    }
}

/// The todo store: the last id that was assigned, and the items, kept sorted
/// by strictly increasing id.
pub struct TodoApp {
    pub last_id: u8,
    pub todos: Vec<Todo>,
}

impl TodoApp {
    /// The items as a sequence of mathematical values, in store order
    /// (strictly increasing ids when the store is well formed).
    pub open spec fn seq(&self) -> Seq<TodoView> {
        views_of(self.todos@)
    }

    /// Well-formedness: ids strictly increase along the item sequence, and
    /// every id lies between 1 and `last_id`. Hence ids are unique, and
    /// `last_id` bounds every id ever assigned.
    pub open spec fn wf(&self) -> bool {
        &&& forall|i: int, j: int|
            0 <= i < j < self.seq().len() ==> (#[trigger] self.seq()[i]).id < (
            #[trigger] self.seq()[j]).id
        &&& forall|i: int|
            0 <= i < self.seq().len() ==> 1 <= (#[trigger] self.seq()[i]).id <= self.last_id
    }

    /// A fresh, empty store: no items, no id assigned yet.
    pub fn new() -> (r: TodoApp)
        ensures
            r.wf(),
            r.last_id == 0,
            r.seq() == Seq::<TodoView>::empty(),
    {
        let r = TodoApp { last_id: 0, todos: Vec::new() };
        proof {
            assert(r.seq() =~= Seq::<TodoView>::empty());
        }
        r
    }

    /// Add a new item with the next id, the given text, and the completion
    /// flag cleared; returns the new id. The id counter is a `u8`, so a store
    /// that has already assigned `u8::MAX` ids cannot take another item: that
    /// hard limit is the one precondition.
    pub fn add(&mut self, todo: String) -> (id: u8)
        requires
            old(self).wf(),
            old(self).last_id < u8::MAX,
        ensures
            final(self).wf(),
            final(self).last_id == old(self).last_id + 1,
            id == final(self).last_id,
            final(self).seq() == old(self).seq().push(
                TodoView { id: old(self).last_id + 1, text: todo@, is_complete: false },
            ),
    {
        self.last_id = self.last_id + 1;
        let t = Todo { id: self.last_id, text: todo, is_complete: false };
        let ghost tv = t@;
        self.todos.push(t);
        proof {
            assert(self.seq() =~= old(self).seq().push(tv));
        }
        self.last_id
    }

    /// The index of the item with id `id`, or `None` when no item has it.
    fn find(&self, id: u8) -> (r: Option<usize>)
        ensures
            match r {
                Option::Some(i) => i < self.seq().len() && self.seq()[i as int].id == id,
                Option::None => !contains_id(self.seq(), id as int),
            },
    {
        let n = self.todos.len();
        for i in 0..n
            invariant
                n == self.todos.len(),
                forall|j: int| 0 <= j < i ==> (#[trigger] self.seq()[j]).id != id,
        {
            if self.todos[i].id == id {
                return Option::Some(i);
            }
        }
        Option::None
    }

    /// Remove the item with id `id` if it is present; a no-op when no item
    /// has that id. `last_id` is untouched, so the id is never reused.
    pub fn remove(&mut self, id: u8)
        requires
            old(self).wf(),
        ensures
            final(self).wf(),
            final(self).last_id == old(self).last_id,
            final(self).seq() == without_id(old(self).seq(), id as int),
    {
        match self.find(id) {
            Option::Some(i) => {
                self.todos.remove(i);
                proof {
                    let s = old(self).seq();
                    assert forall|j: int| 0 <= j < s.len() && j != i as int implies (
                    #[trigger] s[j]).id != s[i as int].id by {
                        if j < i as int {
                            assert(s[j].id < s[i as int].id);
                        } else {
                            assert(s[i as int].id < s[j].id);
                        }
                    }
                    lemma_remove_at_is_without_id(s, i as int);
                    assert(self.seq() =~= s.remove(i as int));
                }
            },
            Option::None => {
                proof {
                    lemma_without_absent_id(self.seq(), id as int);
                }
            },
        }
    }

    /// Flip the completion flag of the item with id `id`. Fails with
    /// `NotFound`, and leaves the store untouched, when no item has that id.
    pub fn toggle(&mut self, id: u8) -> (r: Result<(), TodoError>)
        requires
            old(self).wf(),
        ensures
            final(self).wf(),
            final(self).last_id == old(self).last_id,
            r is Ok <==> contains_id(old(self).seq(), id as int),
            r is Ok ==> final(self).seq() == toggled(old(self).seq(), id as int),
            r is Err ==> *final(self) == *old(self) && r == Result::<(), TodoError>::Err(
                TodoError::NotFound,
            ),
    {
        match self.find(id) {
            Option::Some(i) => {
                let flipped = !self.todos[i].is_complete;
                self.todos[i].is_complete = flipped;
                proof {
                    let s = old(self).seq();
                    assert(contains_id(s, id as int));
                    let k = index_of_id(s, id as int);
                    assert(0 <= k < s.len() && s[k].id == id);
                    if k < i as int {
                        assert(s[k].id < s[i as int].id);
                    } else if k > i as int {
                        assert(s[i as int].id < s[k].id);
                    }
                    assert(k == i as int);
                    assert(self.seq() =~= toggled(s, id as int));
                }
                Result::Ok(())
            },
            Option::None => Result::Err(TodoError::NotFound),
        }
    }

    /// Remove every item that passes the filter: all of them for `None`, and
    /// exactly the items with the given status otherwise. `last_id` is kept,
    /// so clearing never causes an id to be reused.
    pub fn clear(&mut self, only: Option<TodoStatus>)
        requires
            old(self).wf(),
        ensures
            final(self).wf(),
            final(self).last_id == old(self).last_id,
            final(self).seq() == cleared(old(self).seq(), only),
            only is None ==> final(self).seq() == Seq::<TodoView>::empty(),
    {
        match only {
            Option::None => {
                self.todos = Vec::new();
                proof {
                    lemma_cleared_all(old(self).seq());
                    assert(self.seq() =~= Seq::<TodoView>::empty());
                }
            },
            Option::Some(status) => {
                let mut kept: Vec<Todo> = Vec::new();
                let n = self.todos.len();
                for i in 0..n
                    invariant
                        n == self.todos.len(),
                        *self == *old(self),
                        old(self).wf(),
                        views_of(kept@) == cleared(
                            self.seq().take(i as int),
                            Option::Some(status),
                        ),
                        forall|a: int, b: int|
                            0 <= a < b < kept@.len() ==> (#[trigger] views_of(kept@)[a]).id < (
                            #[trigger] views_of(kept@)[b]).id,
                        forall|a: int|
                            0 <= a < kept@.len() ==> 1 <= (#[trigger] views_of(kept@)[a]).id
                                <= self.last_id,
                        forall|a: int, j: int|
                            0 <= a < kept@.len() && i <= j < n ==> (
                            #[trigger] views_of(kept@)[a]).id < (#[trigger] self.seq()[j]).id,
                {
                    proof {
                        assert(self.seq().take(i + 1) =~= self.seq().take(i as int).push(
                            self.seq()[i as int],
                        ));
                        lemma_cleared_push(
                            self.seq().take(i as int),
                            self.seq()[i as int],
                            Option::Some(status),
                        );
                    }
                    let keep = match status {
                        TodoStatus::Completed => !self.todos[i].is_complete,
                        TodoStatus::Pending => self.todos[i].is_complete,
                    };
                    let ghost kept0 = kept@;
                    if keep {
                        let copy = self.todos[i].clone();
                        kept.push(copy);
                        proof {
                            assert(views_of(kept@) =~= views_of(kept0).push(self.seq()[i as int]));
                        }
                    }
                }
                proof {
                    assert(self.seq().take(n as int) =~= self.seq());
                }
                self.todos = kept;
            },
        }
    }

    /// The display lines of the items that pass the filter, in store order
    /// (increasing id on a well-formed store). Does not change the store.
    pub fn show(&self, only: Option<TodoStatus>) -> (r: Vec<String>)
        ensures
            r@.len() == selected(self.seq(), only).len(),
            forall|k: int|
                0 <= k < r@.len() ==> (#[trigger] r@[k])@ == line_of(
                    selected(self.seq(), only)[k],
                ),
    {
        let mut r: Vec<String> = Vec::new();
        let n = self.todos.len();
        for i in 0..n
            invariant
                n == self.todos.len(),
                r@.len() == selected(self.seq().take(i as int), only).len(),
                forall|k: int|
                    0 <= k < r@.len() ==> (#[trigger] r@[k])@ == line_of(
                        selected(self.seq().take(i as int), only)[k],
                    ),
        {
            proof {
                assert(self.seq().take(i + 1) =~= self.seq().take(i as int).push(
                    self.seq()[i as int],
                ));
                lemma_selected_push(self.seq().take(i as int), self.seq()[i as int], only);
            }
            let t = &self.todos[i];
            let matches_filter = match only {
                Option::None => true,
                Option::Some(TodoStatus::Completed) => t.is_complete,
                Option::Some(TodoStatus::Pending) => !t.is_complete,
            };
            if matches_filter {
                let line = t.display_line();
                r.push(line);
            }
        }
        proof {
            assert(self.seq().take(n as int) =~= self.seq());
        }
        r
    }
}

/// A parsed command: what one invocation asks the store to do.
pub enum Command {
    Show(Option<TodoStatus>),
    Add(String),
    Remove(u8),
    Toggle(u8),
    Clear(Option<TodoStatus>),
}

/// What a dispatched command produced.
pub enum Outcome {
    /// The display lines `Show` selected.
    Listed(Vec<String>),
    /// The id `Add` assigned.
    Added(u8),
    /// A mutation that succeeded with nothing to report.
    Changed,
    /// A mutation that failed; the store is untouched.
    Failed(TodoError),
}

impl TodoApp {
    /// Map one command to its store operation. The flag of the result says
    /// whether the store changed and so must be saved: it is set after a
    /// mutating command that succeeded, and clear after `Show` and after a
    /// failed `Toggle`, whose store is left exactly as it was.
    pub fn dispatch(&mut self, cmd: Command) -> (r: (Outcome, bool))
        requires
            old(self).wf(),
            cmd is Add ==> old(self).last_id < u8::MAX,
        ensures
            final(self).wf(),
            final(self).last_id >= old(self).last_id,
            match cmd {
                Command::Show(only) => {
                    &&& *final(self) == *old(self)
                    &&& !r.1
                    &&& r.0 matches Outcome::Listed(lines) && lines@.len() == selected(
                        old(self).seq(),
                        only,
                    ).len() && (forall|k: int|
                        0 <= k < lines@.len() ==> (#[trigger] lines@[k])@ == line_of(
                            selected(old(self).seq(), only)[k],
                        ))
                },
                Command::Add(text) => {
                    &&& final(self).last_id == old(self).last_id + 1
                    &&& final(self).seq() == old(self).seq().push(
                        TodoView {
                            id: old(self).last_id + 1,
                            text: text@,
                            is_complete: false,
                        },
                    )
                    &&& r.1
                    &&& r.0 == Outcome::Added((old(self).last_id + 1) as u8)
                },
                Command::Remove(id) => {
                    &&& final(self).last_id == old(self).last_id
                    &&& final(self).seq() == without_id(old(self).seq(), id as int)
                    &&& r.1
                    &&& r.0 == Outcome::Changed
                },
                Command::Toggle(id) => {
                    &&& final(self).last_id == old(self).last_id
                    &&& if contains_id(old(self).seq(), id as int) {
                        &&& final(self).seq() == toggled(old(self).seq(), id as int)
                        &&& r.1
                        &&& r.0 == Outcome::Changed
                    } else {
                        &&& *final(self) == *old(self)
                        &&& !r.1
                        &&& r.0 == Outcome::Failed(TodoError::NotFound)
                    }
                },
                Command::Clear(only) => {
                    &&& final(self).last_id == old(self).last_id
                    &&& final(self).seq() == cleared(old(self).seq(), only)
                    &&& r.1
                    &&& r.0 == Outcome::Changed
                },
            },
    {
        match cmd {
            Command::Show(only) => {
                let lines = self.show(only);
                (Outcome::Listed(lines), false)
            },
            Command::Add(text) => {
                let id = self.add(text);
                (Outcome::Added(id), true)
            },
            Command::Remove(id) => {
                self.remove(id);
                (Outcome::Changed, true)
            },
            Command::Toggle(id) => {
                match self.toggle(id) {
                    Result::Ok(()) => (Outcome::Changed, true),
                    Result::Err(e) => (Outcome::Failed(e), false),
                }
            },
            Command::Clear(only) => {
                self.clear(only);
                (Outcome::Changed, true)
            },
        }
    }
}

impl TodoError {
    /// The user-facing description of this error.
    pub fn message(&self) -> (r: &'static str)
        ensures
            r@ == "no todo has the requested id"@,
    {
        "no todo has the requested id"
    }
}

/// Removing at the index that holds `s[i].id` is the same as removing that id,
/// provided ids are unique up to `i` (no earlier item has the same id).
proof fn lemma_remove_at_is_without_id(s: Seq<TodoView>, i: int)
    requires
        0 <= i < s.len(),
        forall|j: int| 0 <= j < s.len() && j != i ==> (#[trigger] s[j]).id != s[i].id,
    ensures
        without_id(s, s[i].id) == s.remove(i),
    decreases s.len(),
{
    if i == 0 {
        assert(s.first().id == s[0].id);
        assert(!contains_id(s.drop_first(), s[0].id)) by {
            assert(forall|j: int|
                0 <= j < s.drop_first().len() ==> #[trigger] s.drop_first()[j] == s[j + 1]);
        }
        lemma_without_absent_id_helper(s.drop_first(), s[0].id);
        assert(s.drop_first() =~= s.remove(0));
    } else {
        assert(s.first().id != s[i].id);
        assert forall|j: int| 0 <= j < s.drop_first().len() && j != i - 1 implies (
        #[trigger] s.drop_first()[j]).id != s.drop_first()[i - 1].id by {
            assert(s.drop_first()[j] == s[j + 1]);
            assert(s.drop_first()[i - 1] == s[i]);
        }
        lemma_remove_at_is_without_id(s.drop_first(), i - 1);
        assert(s.drop_first()[i - 1] == s[i]);
        assert(seq![s.first()] + s.drop_first().remove(i - 1) =~= s.remove(i));
    }
}

/// A helper with no premise on the tail; holds only when the id truly is
/// absent, which `lemma_remove_at_is_without_id` cannot know of the tail.
proof fn lemma_without_absent_id_helper(s: Seq<TodoView>, id: int)
    ensures
        !contains_id(s, id) ==> without_id(s, id) == s,
    decreases s.len(),
{
    if s.len() > 0 {
        lemma_without_absent_id_helper(s.drop_first(), id);
        if !contains_id(s, id) {
            assert(forall|j: int|
                0 <= j < s.drop_first().len() ==> #[trigger] s.drop_first()[j] == s[j + 1]);
            assert(!contains_id(s.drop_first(), id));
            assert(s.first().id != id) by {
                assert(s[0].id == s.first().id);
            }
            assert(seq![s.first()] + s.drop_first() =~= s);
        }
    }
}

/// Removing an id that no item has leaves the sequence unchanged.
pub proof fn lemma_without_absent_id(s: Seq<TodoView>, id: int)
    requires
        !contains_id(s, id),
    ensures
        without_id(s, id) == s,
{
    lemma_without_absent_id_helper(s, id);
}

/// How `without_id` grows when one item is appended: the item stays exactly
/// when its id is another one.
proof fn lemma_without_id_push(s: Seq<TodoView>, t: TodoView, id: int)
    ensures
        without_id(s.push(t), id) == if t.id == id {
            without_id(s, id)
        } else {
            without_id(s, id).push(t)
        },
    decreases s.len(),
{
    if s.len() == 0 {
        assert(s.push(t).drop_first() =~= Seq::<TodoView>::empty());
        assert(s.push(t).first() == t);
        if t.id != id {
            assert(seq![t] + without_id(Seq::<TodoView>::empty(), id) =~= without_id(
                s,
                id,
            ).push(t));
        }
    } else {
        assert(s.push(t).drop_first() =~= s.drop_first().push(t));
        assert(s.push(t).first() == s.first());
        lemma_without_id_push(s.drop_first(), t, id);
        if s.first().id != id && t.id != id {
            assert(seq![s.first()] + without_id(s.drop_first(), id).push(t) =~= (seq![s.first()]
                + without_id(s.drop_first(), id)).push(t));
        }
    }
}

/// In a well-formed store no two items share an id.
pub proof fn lemma_wf_ids_unique(app: &TodoApp)
    requires
        app.wf(),
    ensures
        forall|i: int, j: int|
            0 <= i < app.seq().len() && 0 <= j < app.seq().len() && i != j ==> (
            #[trigger] app.seq()[i]).id != (#[trigger] app.seq()[j]).id,
{
    assert forall|i: int, j: int|
        0 <= i < app.seq().len() && 0 <= j < app.seq().len() && i != j implies (
    #[trigger] app.seq()[i]).id != (#[trigger] app.seq()[j]).id by {
        if i < j {
            assert(app.seq()[i].id < app.seq()[j].id);
        } else {
            assert(app.seq()[j].id < app.seq()[i].id);
        }
    }
}

/// Adding an item and then removing its id restores the item sequence: on a
/// store whose ids are all different from `t.id` (as they are when `t` is the
/// item `add` just created, whose id is fresh), `remove` undoes `add`.
/// `last_id` is unaffected by `remove`, so it keeps the value `add` gave it.
pub proof fn lemma_add_then_remove(s: Seq<TodoView>, t: TodoView)
    requires
        !contains_id(s, t.id),
    ensures
        without_id(s.push(t), t.id) == s,
{
    lemma_without_id_push(s, t, t.id);
    lemma_without_absent_id(s, t.id);
}

/// Toggling the same id twice restores the item sequence, for any id that is
/// present in a store with unique ids.
pub proof fn lemma_toggle_twice(s: Seq<TodoView>, id: int)
    requires
        contains_id(s, id),
        forall|i: int, j: int|
            0 <= i < s.len() && 0 <= j < s.len() && i != j ==> (#[trigger] s[i]).id != (
            #[trigger] s[j]).id,
    ensures
        toggled(toggled(s, id), id) == s,
{
    let k = index_of_id(s, id);
    assert(0 <= k < s.len() && s[k].id == id);
    let s1 = toggled(s, id);
    assert(s1 == s.update(k, TodoView { is_complete: !s[k].is_complete, ..s[k] }));
    assert(contains_id(s1, id)) by {
        assert(s1[k].id == id);
    }
    let k1 = index_of_id(s1, id);
    assert(0 <= k1 < s1.len() && s1[k1].id == id);
    assert(k1 == k) by {
        if k1 != k {
            assert(s1[k1] == s[k1]);
            assert(s[k1].id != s[k].id);
        }
    }
    assert(toggled(s1, id) =~= s);
}

/// The items of `s` as a mapping from id to item, the data model of the
/// backing document: each present id is bound to its item.
pub open spec fn items_map(s: Seq<TodoView>) -> Map<int, TodoView> {
    Map::new(|id: int| contains_id(s, id), |id: int| s[index_of_id(s, id)])
}

/// With unique ids, `index_of_id` finds exactly the index that holds the id.
proof fn lemma_index_of_unique(s: Seq<TodoView>, id: int, i: int)
    requires
        forall|a: int, b: int|
            0 <= a < s.len() && 0 <= b < s.len() && a != b ==> (#[trigger] s[a]).id != (
            #[trigger] s[b]).id,
        0 <= i < s.len(),
        s[i].id == id,
    ensures
        index_of_id(s, id) == i,
{
    assert(contains_id(s, id));
    let k = index_of_id(s, id);
    assert(0 <= k < s.len() && s[k].id == id);
}

/// `add` on the map view: the new item is bound to its fresh id, and every
/// other binding is kept.
pub proof fn lemma_add_updates_map(s: Seq<TodoView>, t: TodoView)
    requires
        forall|a: int, b: int|
            0 <= a < s.len() && 0 <= b < s.len() && a != b ==> (#[trigger] s[a]).id != (
            #[trigger] s[b]).id,
        !contains_id(s, t.id),
    ensures
        items_map(s.push(t)) == items_map(s).insert(t.id, t),
{
    let s2 = s.push(t);
    assert forall|a: int, b: int|
        0 <= a < s2.len() && 0 <= b < s2.len() && a != b implies (#[trigger] s2[a]).id != (
    #[trigger] s2[b]).id by {
        if a < s.len() && b < s.len() {
        } else if a < s.len() {
            assert(s2[b] == t);
            assert(s[a].id != t.id) by {
                if s[a].id == t.id {
                    assert(contains_id(s, t.id));
                }
            }
        } else {
            assert(s2[a] == t);
            assert(s[b].id != t.id) by {
                if s[b].id == t.id {
                    assert(contains_id(s, t.id));
                }
            }
        }
    }
    assert forall|x: int| #[trigger]
        contains_id(s2, x) implies contains_id(s, x) || x == t.id by {
        let i = choose|i: int| 0 <= i < s2.len() && (#[trigger] s2[i]).id == x;
        if i < s.len() {
            assert(s[i].id == x);
        } else {
            assert(s2[i] == t);
        }
    }
    assert forall|x: int| contains_id(s, x) implies #[trigger] contains_id(s2, x) by {
        let i = choose|i: int| 0 <= i < s.len() && (#[trigger] s[i]).id == x;
        assert(s2[i].id == x);
    }
    assert(contains_id(s2, t.id)) by {
        assert(s2[s.len() as int].id == t.id);
    }
    assert forall|x: int| contains_id(s2, x) implies items_map(s2)[x] == items_map(s).insert(
        t.id,
        t,
    )[x] by {
        if x == t.id {
            lemma_index_of_unique(s2, x, s.len() as int);
        } else {
            let i = choose|i: int| 0 <= i < s.len() && (#[trigger] s[i]).id == x;
            assert(s2[i].id == x);
            lemma_index_of_unique(s2, x, i);
            lemma_index_of_unique(s, x, i);
        }
    }
    assert(items_map(s2) =~= items_map(s).insert(t.id, t));
}

/// `remove` on the map view: the binding of the removed id goes, and every
/// other binding is kept.
pub proof fn lemma_remove_updates_map(s: Seq<TodoView>, id: int)
    requires
        forall|a: int, b: int|
            0 <= a < s.len() && 0 <= b < s.len() && a != b ==> (#[trigger] s[a]).id != (
            #[trigger] s[b]).id,
    ensures
        items_map(without_id(s, id)) == items_map(s).remove(id),
{
    if !contains_id(s, id) {
        lemma_without_absent_id(s, id);
        assert forall|x: int| #[trigger]
            items_map(s).remove(id).contains_key(x) implies items_map(s).contains_key(x) by {}
        assert(items_map(without_id(s, id)) =~= items_map(s).remove(id));
    } else {
        let k = choose|i: int| 0 <= i < s.len() && (#[trigger] s[i]).id == id;
        lemma_remove_at_is_without_id(s, k);
        let s2 = s.remove(k);
        assert forall|a: int, b: int|
            0 <= a < s2.len() && 0 <= b < s2.len() && a != b implies (#[trigger] s2[a]).id != (
        #[trigger] s2[b]).id by {
            let a0 = if a < k { a } else { a + 1 };
            let b0 = if b < k { b } else { b + 1 };
            assert(s2[a] == s[a0]);
            assert(s2[b] == s[b0]);
        }
        assert forall|x: int| #[trigger]
            contains_id(s2, x) implies contains_id(s, x) && x != id by {
            let i = choose|i: int| 0 <= i < s2.len() && (#[trigger] s2[i]).id == x;
            let i0 = if i < k { i } else { i + 1 };
            assert(s2[i] == s[i0]);
            assert(s[i0].id == x);
            assert(i0 != k);
        }
        assert forall|x: int| contains_id(s, x) && x != id implies #[trigger] contains_id(
            s2,
            x,
        ) by {
            let i = choose|i: int| 0 <= i < s.len() && (#[trigger] s[i]).id == x;
            assert(i != k);
            let i2 = if i < k { i } else { i - 1 };
            assert(s2[i2] == s[i]);
        }
        assert forall|x: int| contains_id(s2, x) implies items_map(s2)[x] == items_map(s)[x] by {
            let i = choose|i: int| 0 <= i < s2.len() && (#[trigger] s2[i]).id == x;
            let i0 = if i < k { i } else { i + 1 };
            assert(s2[i] == s[i0]);
            lemma_index_of_unique(s2, x, i);
            lemma_index_of_unique(s, x, i0);
        }
        assert(items_map(without_id(s, id)) =~= items_map(s).remove(id));
    }
}

/// `toggle` on the map view: the toggled id is rebound to the same item with
/// the flag flipped, and every other binding is kept.
pub proof fn lemma_toggle_updates_map(s: Seq<TodoView>, id: int)
    requires
        forall|a: int, b: int|
            0 <= a < s.len() && 0 <= b < s.len() && a != b ==> (#[trigger] s[a]).id != (
            #[trigger] s[b]).id,
        contains_id(s, id),
    ensures
        items_map(toggled(s, id)) == items_map(s).insert(
            id,
            TodoView { is_complete: !items_map(s)[id].is_complete, ..items_map(s)[id] },
        ),
{
    let k = index_of_id(s, id);
    assert(0 <= k < s.len() && s[k].id == id);
    let s2 = toggled(s, id);
    assert(s2 == s.update(k, TodoView { is_complete: !s[k].is_complete, ..s[k] }));
    assert forall|a: int, b: int|
        0 <= a < s2.len() && 0 <= b < s2.len() && a != b implies (#[trigger] s2[a]).id != (
    #[trigger] s2[b]).id by {
        assert(s2[a].id == s[a].id);
        assert(s2[b].id == s[b].id);
    }
    assert forall|x: int| #[trigger] contains_id(s2, x) == contains_id(s, x) by {
        if contains_id(s2, x) {
            let i = choose|i: int| 0 <= i < s2.len() && (#[trigger] s2[i]).id == x;
            assert(s[i].id == x);
        }
        if contains_id(s, x) {
            let i = choose|i: int| 0 <= i < s.len() && (#[trigger] s[i]).id == x;
            assert(s2[i].id == x);
        }
    }
    lemma_index_of_unique(s, id, k);
    assert forall|x: int| contains_id(s2, x) implies items_map(s2)[x] == items_map(s).insert(
        id,
        TodoView { is_complete: !items_map(s)[id].is_complete, ..items_map(s)[id] },
    )[x] by {
        if x == id {
            lemma_index_of_unique(s2, x, k);
        } else {
            let i = choose|i: int| 0 <= i < s.len() && (#[trigger] s[i]).id == x;
            assert(s2[i].id == x);
            lemma_index_of_unique(s2, x, i);
            lemma_index_of_unique(s, x, i);
            assert(i != k);
            assert(s2[i] == s[i]);
        }
    }
    assert(items_map(s2) =~= items_map(s).insert(
        id,
        TodoView { is_complete: !items_map(s)[id].is_complete, ..items_map(s)[id] },
    ));
}

/// Clearing the items of one status leaves all and only the items of the
/// other status, each with its fields unchanged and in their original order.
pub proof fn lemma_clear_leaves_complement(s: Seq<TodoView>, status: TodoStatus)
    ensures
        cleared(s, Option::Some(status)) == selected(
            s,
            Option::Some(
                match status {
                    TodoStatus::Completed => TodoStatus::Pending,
                    TodoStatus::Pending => TodoStatus::Completed,
                },
            ),
        ),
    decreases s.len(),
{
    if s.len() > 0 {
        lemma_clear_leaves_complement(s.drop_first(), status);
    }
}

/// Clearing with no filter removes every item.
proof fn lemma_cleared_all(s: Seq<TodoView>)
    ensures
        cleared(s, Option::None) == Seq::<TodoView>::empty(),
    decreases s.len(),
{
    if s.len() > 0 {
        lemma_cleared_all(s.drop_first());
    }
}

/// How `cleared` grows when one item is appended: the item stays exactly when
/// it does not pass the filter.
proof fn lemma_cleared_push(s: Seq<TodoView>, t: TodoView, only: Option<TodoStatus>)
    ensures
        cleared(s.push(t), only) == if passes(t, only) {
            cleared(s, only)
        } else {
            cleared(s, only).push(t)
        },
    decreases s.len(),
{
    if s.len() == 0 {
        assert(s.push(t).drop_first() =~= Seq::<TodoView>::empty());
        assert(s.push(t).first() == t);
        if !passes(t, only) {
            assert(seq![t] + cleared(Seq::<TodoView>::empty(), only) =~= cleared(
                s,
                only,
            ).push(t));
        }
    } else {
        assert(s.push(t).drop_first() =~= s.drop_first().push(t));
        assert(s.push(t).first() == s.first());
        lemma_cleared_push(s.drop_first(), t, only);
        if passes(s.first(), only) {
        } else {
            if passes(t, only) {
            } else {
                assert(seq![s.first()] + cleared(s.drop_first(), only).push(t) =~= (seq![
                    s.first(),
                ] + cleared(s.drop_first(), only)).push(t));
            }
        }
    }
}

} // verus!
