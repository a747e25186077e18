use vstd::prelude::*;

use vstd::string::StringExecFns;

verus! {

/// Mathematical model of one task: its text and the timestamp string that
/// was captured when it was created, both as sequences of characters.
pub struct Task {
    pub content: Seq<char>,
    pub created_at: Seq<char>,
}

/// One to-do entry. `content` is free-form text, possibly empty and possibly
/// a duplicate of another entry; `created_at` is the timestamp string
/// captured at creation time and never changed afterwards.
#[derive(Debug)]
pub struct TodoItem {
    pub content: String,
    pub created_at: String,
}

impl View for TodoItem {
    type V = Task;

    open spec fn view(&self) -> Task {
        Task { content: self.content@, created_at: self.created_at@ }
    }
}

impl TodoItem {
    /// The item rendered on one line, its timestamp in parentheses behind
    /// its content.
    pub fn display_string(&self) -> (r: String)
        ensures
            r@ == self.content@ + " ("@ + self.created_at@ + ")"@,
    {
        let mut r = self.content.clone();
        r.append(" (");
        r.append(self.created_at.as_str());
        r.append(")");
        proof {
            assert(r@ =~= self.content@ + " ("@ + self.created_at@ + ")"@);
        }
        r
    }
}

/// The models of a sequence of items, in the same order.
pub open spec fn tasks_of(items: Seq<TodoItem>) -> Seq<Task> {
    items.map_values(|it: TodoItem| it@)
}

} // verus!
