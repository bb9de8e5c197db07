//! The todo record: one task entry and its validation rules.

use vstd::prelude::*;

verus! {

/// The errors the library's operations can return.
///
/// - `Validation`: a priority outside `[1, 4]` was rejected; carries the value.
/// - `NotFound`: an index at or past the end of the collection; carries the index.
/// - `Format`: store text that does not parse as a todo store.
#[derive(Clone, Copy, Debug, PartialEq, Eq, Structural)]
pub enum TodoError {
    Validation { priority: u8 },
    NotFound { index: usize },
    Format,
}

/// The mathematical value of a record: its text fields as character
/// sequences, beside the completion flag and the priority tier.
#[verifier::ext_equal]
pub ghost struct TodoView {
    pub title: Seq<char>,
    pub completed: bool,
    pub created_at: Seq<char>,
    pub priority: u8,
}

/// One task entry. `priority` runs from 1 (highest urgency) to 4 (lowest);
/// `created_at` is an ISO 8601 timestamp fixed at creation.
#[derive(Debug)]
pub struct Todo {
    pub title: String,
    pub completed: bool,
    pub created_at: String,
    pub priority: u8,
}

impl View for Todo {
    type V = TodoView;

    open spec fn view(&self) -> TodoView {
        TodoView {
            title: self.title@,
            completed: self.completed,
            created_at: self.created_at@,
            priority: self.priority,
        }
    }
}

/// The full record collection as it stands in the store file.
#[derive(Debug)]
pub struct TodoStore {
    pub todos: Vec<Todo>,
}

/// The records of a sequence, as mathematical values.
pub open spec fn views_of(s: Seq<Todo>) -> Seq<TodoView> {
    s.map_values(|t: Todo| t@)
}

/// A priority is valid when it lies in the closed range `[1, 4]`.
pub open spec fn valid_priority(p: u8) -> bool {
    1 <= p <= 4
}

/// The lowest urgency tier, used when a stored record does not carry a
/// priority field.
pub fn default_priority() -> (p: u8)
    ensures
        p == 4,
{
    4
}

/// Relies on `chrono::Utc::now` and `DateTime::to_rfc3339` for the current
/// time as an ISO 8601 / RFC 3339 string. The result depends on the clock, so
/// nothing is said of its characters beyond its being non-empty.
#[verifier::external_body]
fn now_rfc3339() -> (r: String)
    ensures
        r@.len() > 0,
{
    let now: chrono::DateTime<chrono::Utc> = chrono::Utc::now();
    now.to_rfc3339()
}

impl Todo {
    /// Makes a record with the given title and priority, not yet completed,
    /// stamped with the current time. Rejects a priority outside `[1, 4]`.
    pub fn new(title: String, priority: u8) -> (r: Result<Self, TodoError>)
        ensures
            match r {
                Ok(t) => valid_priority(priority) && t@.title == title@ && !t@.completed
                    && t@.created_at.len() > 0 && t@.priority == priority,
                Err(e) => !valid_priority(priority) && e == (TodoError::Validation { priority }),
            },
    {
        Self::validate_priority(priority)?;
        Ok(Self { title, completed: false, created_at: now_rfc3339(), priority })
    }

    /// Flips the completion flag; every other field stays.
    pub fn toggle_completed(&mut self)
        ensures
            final(self)@ == (TodoView { completed: !old(self)@.completed, ..old(self)@ }),
    {
        self.completed = !self.completed;
    }

    /// Sets the completion flag; every other field stays.
    pub fn set_completed(&mut self, value: bool)
        ensures
            final(self)@ == (TodoView { completed: value, ..old(self)@ }),
    {
        self.completed = value;
    }

    /// Sets the priority if it is valid; on an invalid one, fails and leaves
    /// the record unchanged.
    pub fn set_priority(&mut self, priority: u8) -> (r: Result<(), TodoError>)
        ensures
            match r {
                Ok(()) => valid_priority(priority) && final(self)@ == (TodoView {
                    priority,
                    ..old(self)@
                }),
                Err(e) => !valid_priority(priority) && e == (TodoError::Validation { priority })
                    && final(self)@ == old(self)@,
            },
    {
        Self::validate_priority(priority)?;
        self.priority = priority;
        Ok(())
    }

    /// Accepts exactly the priorities in `[1, 4]`; an invalid one comes back
    /// inside the error.
    pub fn validate_priority(priority: u8) -> (r: Result<(), TodoError>)
        ensures
            r == if valid_priority(priority) {
                Ok::<(), TodoError>(())
            } else {
                Err::<(), TodoError>(TodoError::Validation { priority })
            },
    {
        if 1 <= priority && priority <= 4 {
            Ok(())
        } else {
            Err(TodoError::Validation { priority })
        }
    }
}

impl Clone for Todo {
    /// A copy equal to the record, field for field.
    fn clone(&self) -> (r: Self)
        ensures
            r == *self,
    {
        Self {
            title: self.title.clone(),
            completed: self.completed,
            created_at: self.created_at.clone(),
            priority: self.priority,
        }
    }
}

impl Default for Todo {
    /// An empty-titled, not-completed record of the lowest urgency, stamped
    /// with the current time.
    fn default() -> (t: Self)
        ensures
            t@.title.len() == 0 && !t@.completed && t@.created_at.len() > 0 && t@.priority == 4,
    {
        Self {
            title: String::new(),
            completed: false,
            created_at: now_rfc3339(),
            priority: default_priority(),
        }
    }
}

impl Default for TodoStore {
    /// A store with no records.
    fn default() -> (s: Self)
        ensures
            s.todos@.len() == 0,
    {
        Self { todos: Vec::new() }
    }
}

} // verus!
