//! A single to-do item: identity, description, completion flag, optional due
//! date, and its one-line display form.

use vstd::prelude::*;

use crate::text::push_char;

verus! {

/// One task of the list.
#[derive(Debug)]
pub struct Task {
    pub id: u32,
    pub description: String,
    pub completed: bool,
    pub due_date: Option<String>,
}

/// The mathematical value of a [`Task`]: the same fields over sequences of
/// characters.
pub struct TaskView {
    pub id: u32,
    pub description: Seq<char>,
    pub completed: bool,
    pub due_date: Option<Seq<char>>,
}

impl View for Task {
    type V = TaskView;

    open spec fn view(&self) -> TaskView {
        TaskView {
            id: self.id,
            description: self.description@,
            completed: self.completed,
            due_date: self.due_date.deep_view(),
        }
    }
}

impl DeepView for Task {
    type V = TaskView;

    open spec fn deep_view(&self) -> TaskView {
        self@
    }
}

/// The one-line display form of a task: a completion marker, the description,
/// and the due date when there is one.
pub open spec fn render(t: TaskView) -> Seq<char> {
    seq!['['] + (if t.completed {
        seq!['✓']
    } else {
        seq!['✗']
    }) + seq![']', ' '] + t.description + (match t.due_date {
        Some(d) => seq![' ', '(', 'D', 'u', 'e', ':', ' '] + d + seq![')'],
        None => Seq::<char>::empty(),
    })
}

impl Task {
    /// A structurally equal copy of the task.
    pub fn duplicate(&self) -> (r: Task)
        ensures
            r == *self,
    {
        Task {
            id: self.id,
            description: self.description.clone(),
            completed: self.completed,
            due_date: match &self.due_date {
                Some(d) => Some(d.clone()),
                None => None,
            },
        }
    }

    /// Formats the task for display, e.g. `[✗] Buy milk (Due: 2023-12-01)`.
    pub fn to_string(&self) -> (r: String)
        ensures
            r@ == render(self@),
    {
        let mut r = String::new();
        push_char(&mut r, '[');
        if self.completed {
            push_char(&mut r, '✓');
        } else {
            push_char(&mut r, '✗');
        }
        push_char(&mut r, ']');
        push_char(&mut r, ' ');
        r.append(self.description.as_str());
        match &self.due_date {
            Some(d) => {
                push_char(&mut r, ' ');
                push_char(&mut r, '(');
                push_char(&mut r, 'D');
                push_char(&mut r, 'u');
                push_char(&mut r, 'e');
                push_char(&mut r, ':');
                push_char(&mut r, ' ');
                r.append(d.as_str());
                push_char(&mut r, ')');
            },
            None => {},
        }
        proof {
            assert(r@ =~= render(self@));
        }
        r
    }
}

} // verus!
