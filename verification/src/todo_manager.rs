//! The manager: an ordered collection of todo records addressed by position.
//!
//! The caller-visible identifier of a record is its current zero-based
//! position, not a stable identity: deleting position `k` shifts every later
//! record down by one, so positions held from an earlier listing go stale.

use vstd::prelude::*;

use crate::todo::{valid_priority, views_of, Todo, TodoError, TodoStore, TodoView};

verus! {

/// Every record of the sequence carries a priority in `[1, 4]`.
pub open spec fn all_priorities_valid(s: Seq<TodoView>) -> bool {
    forall|i: int| 0 <= i < s.len() ==> valid_priority(#[trigger] s[i].priority)
}

/// The sequence with the completion flag at `i` set to `value`; every other
/// field and every other record stays.
pub open spec fn with_completed(s: Seq<TodoView>, i: int, value: bool) -> Seq<TodoView> {
    s.update(i, TodoView { completed: value, ..s[i] })
}

/// The sequence with the completion flag at `i` flipped; every other field
/// and every other record stays.
pub open spec fn toggled(s: Seq<TodoView>, i: int) -> Seq<TodoView> {
    s.update(i, TodoView { completed: !s[i].completed, ..s[i] })
}

/// Flipping the completion flag at the same position twice restores the
/// collection exactly: toggling is an involution.
pub proof fn lemma_toggle_involution(s: Seq<TodoView>, i: int)
    requires
        0 <= i < s.len(),
    ensures
        toggled(toggled(s, i), i) == s,
{
    assert(toggled(toggled(s, i), i) =~= s);
}

/// On an empty collection every position is out of range, so each
/// index-taking operation answers `NotFound` there, whatever the index: see
/// the error clauses of the operations below.
pub proof fn lemma_empty_index_out_of_range(s: Seq<TodoView>, index: usize)
    requires
        s.len() == 0,
    ensures
        index >= s.len(),
{
}

/// The ordered collection of records. Its mathematical value is the sequence
/// of record values, in listing order.
#[derive(Debug)]
pub struct TodoManager {
    todos: Vec<Todo>,
}

impl View for TodoManager {
    type V = Seq<TodoView>;

    closed spec fn view(&self) -> Seq<TodoView> {
        views_of(self.todos@)
    }
}

impl TodoManager {
    /// Every record the manager holds has a priority in `[1, 4]`.
    pub open spec fn wf(&self) -> bool {
        all_priorities_valid(self@)
    }

    /// A manager with no records.
    pub fn new() -> (m: Self)
        ensures
            m@ == Seq::<TodoView>::empty(),
            m.wf(),
    {
        Self { todos: Vec::new() }
    }

    /// Takes over the records of a store, provided every priority is in
    /// range; on the first out-of-range priority, rejects the whole store.
    pub fn from_store(store: TodoStore) -> (r: Result<Self, TodoError>)
        ensures
            match r {
                Ok(m) => all_priorities_valid(views_of(store.todos@)) && m@ == views_of(
                    store.todos@,
                ) && m.wf(),
                Err(e) => exists|i: int|
                    0 <= i < store.todos@.len() && !valid_priority(
                        #[trigger] store.todos@[i]@.priority,
                    ) && (forall|j: int|
                        0 <= j < i ==> valid_priority(#[trigger] store.todos@[j]@.priority)) && e
                        == (TodoError::Validation { priority: store.todos@[i]@.priority }),
            },
    {
        let mut k: usize = 0;
        while k < store.todos.len()
            invariant
                k <= store.todos@.len(),
                forall|j: int| 0 <= j < k ==> valid_priority(#[trigger] store.todos@[j]@.priority),
            decreases store.todos@.len() - k,
        {
            let p = store.todos[k].priority;
            if !(1 <= p && p <= 4) {
                proof {
                    assert(!valid_priority(store.todos@[k as int]@.priority));
                }
                return Err(TodoError::Validation { priority: p });
            }
            k += 1;
        }
        Ok(Self { todos: store.todos })
    }

    /// The records the manager holds, as a store ready for encoding.
    pub fn to_store(&self) -> (s: TodoStore)
        ensures
            views_of(s.todos@) == self@,
    {
        TodoStore { todos: self.list_todos() }
    }

    /// Accepts exactly the priorities in `[1, 4]`; an invalid one comes back
    /// inside the error.
    pub fn validate_priority(priority: u8) -> (r: Result<(), TodoError>)
        ensures
            r == if valid_priority(priority) {
                Ok::<(), TodoError>(())
            } else {
                Err::<(), TodoError>(TodoError::Validation { priority })
            },
    {
        Todo::validate_priority(priority)
    }

    /// Validates the priority, makes the record (not completed, stamped now),
    /// and appends it; the new record comes back. On an invalid priority
    /// nothing changes. The collection grows by exactly one record.
    pub fn add_todo(&mut self, title: String, priority: u8) -> (r: Result<Todo, TodoError>)
        ensures
            match r {
                Ok(t) => valid_priority(priority) && t@.title == title@ && !t@.completed
                    && t@.created_at.len() > 0 && t@.priority == priority && final(self)@ == old(
                    self,
                )@.push(t@) && final(self)@.len() == old(self)@.len() + 1,
                Err(e) => !valid_priority(priority) && e == (TodoError::Validation { priority })
                    && final(self)@ == old(self)@,
            },
            old(self).wf() ==> final(self).wf(),
    {
        let todo = Todo::new(title, priority)?;
        let returned = todo.clone();
        self.todos.push(todo);
        proof {
            assert(self@ =~= old(self)@.push(returned@));
        }
        Ok(returned)
    }

    /// Replaces whichever of title and priority are given, both or neither,
    /// on the record at `index`. The whole edit is applied or none of it: an
    /// out-of-range index or an out-of-range priority fails the operation
    /// with the record untouched, the title included.
    pub fn edit_todo(&mut self, index: usize, title: Option<String>, priority: Option<u8>) -> (r:
        Result<(), TodoError>)
        ensures
            match r {
                Ok(()) => index < old(self)@.len() && (match priority {
                    Some(p) => valid_priority(p),
                    None => true,
                }) && final(self)@ == old(self)@.update(
                    index as int,
                    TodoView {
                        title: match title {
                            Some(t) => t@,
                            None => old(self)@[index as int].title,
                        },
                        priority: match priority {
                            Some(p) => p,
                            None => old(self)@[index as int].priority,
                        },
                        ..old(self)@[index as int]
                    },
                ),
                Err(e) => final(self)@ == old(self)@ && (if index >= old(self)@.len() {
                    e == (TodoError::NotFound { index })
                } else {
                    match priority {
                        Some(p) => !valid_priority(p) && e == (TodoError::Validation {
                            priority: p,
                        }),
                        None => false,
                    }
                }),
            },
            old(self).wf() ==> final(self).wf(),
    {
        if index >= self.todos.len() {
            return Err(TodoError::NotFound { index });
        }
        if let Some(p) = &priority {
            Todo::validate_priority(*p)?;
        }
        let record = &mut self.todos[index];
        match title {
            Some(t) => record.title = t,
            None => (),
        }
        match priority {
            Some(p) => record.priority = p,
            None => (),
        }
        proof {
            assert(self@ =~= old(self)@.update(
                index as int,
                TodoView {
                    title: match title {
                        Some(t) => t@,
                        None => old(self)@[index as int].title,
                    },
                    priority: match priority {
                        Some(p) => p,
                        None => old(self)@[index as int].priority,
                    },
                    ..old(self)@[index as int]
                },
            ));
        }
        Ok(())
    }

    /// A snapshot of the full ordered collection, equal record for record.
    pub fn list_todos(&self) -> (r: Vec<Todo>)
        ensures
            views_of(r@) == self@,
            r@.len() == self@.len(),
    {
        let mut out: Vec<Todo> = Vec::new();
        let mut k: usize = 0;
        while k < self.todos.len()
            invariant
                k <= self.todos@.len(),
                out@.len() == k,
                forall|j: int| 0 <= j < k ==> #[trigger] out@[j]@ == self@[j],
            decreases self.todos@.len() - k,
        {
            out.push(self.todos[k].clone());
            k += 1;
        }
        proof {
            assert(views_of(out@) =~= self@);
        }
        out
    }

    /// Sets the record at `index` completed; idempotent.
    pub fn mark_completed(&mut self, index: usize) -> (r: Result<(), TodoError>)
        ensures
            match r {
                Ok(()) => index < old(self)@.len() && final(self)@ == with_completed(
                    old(self)@,
                    index as int,
                    true,
                ),
                Err(e) => index >= old(self)@.len() && e == (TodoError::NotFound { index })
                    && final(self)@ == old(self)@,
            },
            old(self).wf() ==> final(self).wf(),
    {
        if index >= self.todos.len() {
            return Err(TodoError::NotFound { index });
        }
        let record = &mut self.todos[index];
        record.set_completed(true);
        proof {
            assert(self@ =~= with_completed(old(self)@, index as int, true));
        }
        Ok(())
    }

    /// Sets the record at `index` not completed; idempotent.
    pub fn mark_incomplete(&mut self, index: usize) -> (r: Result<(), TodoError>)
        ensures
            match r {
                Ok(()) => index < old(self)@.len() && final(self)@ == with_completed(
                    old(self)@,
                    index as int,
                    false,
                ),
                Err(e) => index >= old(self)@.len() && e == (TodoError::NotFound { index })
                    && final(self)@ == old(self)@,
            },
            old(self).wf() ==> final(self).wf(),
    {
        if index >= self.todos.len() {
            return Err(TodoError::NotFound { index });
        }
        let record = &mut self.todos[index];
        record.set_completed(false);
        proof {
            assert(self@ =~= with_completed(old(self)@, index as int, false));
        }
        Ok(())
    }

    /// Flips the completion flag of the record at `index`.
    pub fn toggle_completed(&mut self, index: usize) -> (r: Result<(), TodoError>)
        ensures
            match r {
                Ok(()) => index < old(self)@.len() && final(self)@ == toggled(
                    old(self)@,
                    index as int,
                ),
                Err(e) => index >= old(self)@.len() && e == (TodoError::NotFound { index })
                    && final(self)@ == old(self)@,
            },
            old(self).wf() ==> final(self).wf(),
    {
        if index >= self.todos.len() {
            return Err(TodoError::NotFound { index });
        }
        let record = &mut self.todos[index];
        record.toggle_completed();
        proof {
            assert(self@ =~= toggled(old(self)@, index as int));
        }
        Ok(())
    }

    /// Removes exactly the record at `index`: every record before it stays
    /// where it was, and every record after it moves down by one position.
    pub fn delete_todo(&mut self, index: usize) -> (r: Result<(), TodoError>)
        ensures
            match r {
                Ok(()) => index < old(self)@.len() && final(self)@ == old(self)@.remove(
                    index as int,
                ) && final(self)@.len() == old(self)@.len() - 1 && (forall|j: int|
                    0 <= j < index ==> final(self)@[j] == old(self)@[j]) && (forall|j: int|
                    index <= j < final(self)@.len() ==> final(self)@[j] == old(self)@[j + 1]),
                Err(e) => index >= old(self)@.len() && e == (TodoError::NotFound { index })
                    && final(self)@ == old(self)@,
            },
            old(self).wf() ==> final(self).wf(),
    {
        if index >= self.todos.len() {
            return Err(TodoError::NotFound { index });
        }
        self.todos.remove(index);
        proof {
            assert(self@ =~= old(self)@.remove(index as int));
        }
        Ok(())
    }

    /// The record at `index`, or nothing when the index is out of range.
    /// Read-only.
    pub fn get_todo(&self, index: usize) -> (r: Option<&Todo>)
        ensures
            match r {
                Some(t) => index < self@.len() && t@ == self@[index as int],
                None => index >= self@.len(),
            },
    {
        if index < self.todos.len() {
            Some(&self.todos[index])
        } else {
            None
        }
    }
}

} // verus!
