//! The task store: an ordered sequence of items and the path of the file
//! they are persisted in. Mutations are rejected without touching the store
//! when the given index is out of range; serialization to and from the
//! persisted text goes through the verified codec, so that a saved list
//! loads back unchanged. Reading and writing the file itself is the
//! caller's business: `load` takes the file's contents, `save` returns the
//! text to write.

use vstd::prelude::*;

use crate::json;
use crate::json::LoadError;
use crate::task::{Task, TodoItem, tasks_of};
use vstd::string::StringExecFns;

verus! {

/// The in-memory task store. Its view is the sequence of task models, in
/// insertion order.
#[derive(Debug)]
pub struct Todo {
    pub items: Vec<TodoItem>,
    file_path: String,
}

impl View for Todo {
    type V = Seq<Task>;

    closed spec fn view(&self) -> Seq<Task> {
        tasks_of(self.items@)
    }
}

/// Relies on chrono's `Local::now` and `DateTime::format`: the current
/// local time rendered as `YYYY-MM-DD HH:MM:SS`. The result depends on the
/// clock, so nothing is promised of it.
#[verifier::external_body]
fn now_timestamp() -> String {
    chrono::Local::now().format("%Y-%m-%d %H:%M:%S").to_string()
}

/// Relies on `dirs::home_dir`: the user's home directory, if the platform
/// reports one. The result depends on the environment, so nothing is
/// promised of it.
#[verifier::external_body]
fn home_dir_string() -> Option<String> {
    dirs::home_dir().map(|p| p.to_string_lossy().into_owned())
}

/// The location of the persisted file under the given directory:
/// `todo.json` right below it.
pub fn store_path_in(home: String) -> (r: String)
    ensures
        r@ == home@ + "/todo.json"@,
{
    let mut r = home;
    r.append("/todo.json");
    r
}

/// The default location of the persisted file: `todo.json` in the user's
/// home directory, or `None` when the platform reports no home directory.
/// Whatever directory the platform gave, the file name is appended to it.
pub fn default_store_path() -> (r: Option<String>)
    ensures
        r matches Some(p) ==> p@.len() >= "/todo.json"@.len() && p@.skip(
            p@.len() - "/todo.json"@.len(),
        ) == "/todo.json"@,
{
    match home_dir_string() {
        None => None,
        Some(home) => {
            let p = store_path_in(home);
            proof {
                assert(p@.skip(p@.len() - "/todo.json"@.len()) =~= "/todo.json"@);
            }
            Some(p)
        },
    }
}

impl Todo {
    /// The path of the persisted file, fixed at construction and never
    /// changed afterwards.
    pub closed spec fn location(&self) -> Seq<char> {
        self.file_path@
    }

    /// An empty store persisted at the given path.
    pub fn new(file_path: String) -> (t: Todo)
        ensures
            t@ == Seq::<Task>::empty(),
            t.location() == file_path@,
    {
        let t = Todo { items: Vec::new(), file_path };
        proof {
            assert(tasks_of(t.items@) =~= Seq::<Task>::empty());
        }
        t
    }

    /// The path of the persisted file.
    pub fn file_path(&self) -> (r: &str)
        ensures
            r@ == self.location(),
    {
        self.file_path.as_str()
    }

    /// Appends a new item with the given content and timestamp to the end
    /// of the list. The items already present are untouched.
    pub fn add_with_timestamp(&mut self, item_content: String, created_at: String)
        ensures
            final(self)@ == old(self)@.push(
                Task { content: item_content@, created_at: created_at@ },
            ),
            final(self).location() == old(self).location(),
    {
        let ghost t = Task { content: item_content@, created_at: created_at@ };
        self.items.push(TodoItem { content: item_content, created_at });
        proof {
            assert(tasks_of(self.items@) =~= tasks_of(old(self).items@).push(t));
        }
    }

    /// Appends a new item with the given content and a freshly captured
    /// current-timestamp string to the end of the list. Always succeeds:
    /// the content is not validated, and the items already present are
    /// untouched. What timestamp the clock gave can be read off the new
    /// last item.
    pub fn add(&mut self, item_content: String)
        ensures
            final(self)@.len() == old(self)@.len() + 1,
            forall|j: int|
                0 <= j < old(self)@.len() ==> final(self)@[j] == old(self)@[j],
            final(self)@.last().content == item_content@,
            final(self).location() == old(self).location(),
    {
        let created_at = now_timestamp();
        self.add_with_timestamp(item_content, created_at);
    }

    /// Replaces the content of the item at `idx`, leaving its timestamp and
    /// every other item unchanged. When `idx` is out of range the store is
    /// untouched and the index error is returned.
    pub fn edit(&mut self, idx: usize, new_content: String) -> (r: Result<(), String>)
        ensures
            idx < old(self)@.len() ==> {
                &&& r is Ok
                &&& final(self)@ == old(self)@.update(
                    idx as int,
                    Task {
                        content: new_content@,
                        created_at: old(self)@[idx as int].created_at,
                    },
                )
                &&& final(self)@.len() == old(self)@.len()
                &&& final(self)@[idx as int].content == new_content@
                &&& final(self)@[idx as int].created_at == old(self)@[idx as int].created_at
                &&& forall|j: int|
                    0 <= j < old(self)@.len() && j != idx ==> final(self)@[j] == old(self)@[j]
                &&& final(self).location() == old(self).location()
            },
            idx >= old(self)@.len() ==> {
                &&& r matches Err(m) && m@ == "Can Not edit Content for given index"@
                &&& *final(self) == *old(self)
            },
    {
        if idx < self.items.len() {
            let old_item = self.items.remove(idx);
            self.items.insert(
                idx,
                TodoItem { content: new_content, created_at: old_item.created_at },
            );
            proof {
                assert(self.items@ =~= old(self).items@.update(
                    idx as int,
                    self.items@[idx as int],
                ));
                assert(tasks_of(self.items@) =~= old(self)@.update(
                    idx as int,
                    self.items@[idx as int]@,
                ));
            }
            Ok(())
        } else {
            Err("Can Not edit Content for given index".to_owned())
        }
    }

    /// Deletes the item at `index`, shifting every later item down by one
    /// position. When `index` is out of range the store is untouched and
    /// the index error is returned.
    pub fn remove(&mut self, index: usize) -> (r: Result<(), String>)
        ensures
            index < old(self)@.len() ==> {
                &&& r is Ok
                &&& final(self)@ == old(self)@.remove(index as int)
                &&& final(self)@.len() == old(self)@.len() - 1
                &&& forall|j: int| 0 <= j < index ==> final(self)@[j] == old(self)@[j]
                &&& forall|j: int|
                    index <= j < final(self)@.len() ==> final(self)@[j] == old(self)@[j + 1]
                &&& final(self).location() == old(self).location()
            },
            index >= old(self)@.len() ==> {
                &&& r matches Err(m) && m@ == "Invalid index"@
                &&& *final(self) == *old(self)
            },
    {
        if index < self.items.len() {
            self.items.remove(index);
            proof {
                assert(tasks_of(self.items@) =~= tasks_of(old(self).items@).remove(
                    index as int,
                ));
            }
            Ok(())
        } else {
            Err("Invalid index".to_owned())
        }
    }

    /// The rows of the rendered table, one per item in current order: the
    /// item's position, recomputed here and matching the index that `edit`
    /// and `remove` take, its content, and its timestamp.
    pub fn list(&self) -> (rows: Vec<(usize, String, String)>)
        ensures
            rows@.len() == self@.len(),
            forall|j: int|
                0 <= j < rows@.len() ==> (#[trigger] rows@[j]).0 == j && rows@[j].1@
                    == self@[j].content && rows@[j].2@ == self@[j].created_at,
    {
        let mut rows: Vec<(usize, String, String)> = Vec::new();
        let mut k: usize = 0;
        while k < self.items.len()
            invariant
                k <= self.items@.len(),
                rows@.len() == k,
                forall|j: int|
                    0 <= j < k ==> (#[trigger] rows@[j]).0 == j && rows@[j].1@
                        == self@[j].content && rows@[j].2@ == self@[j].created_at,
            decreases self.items@.len() - k,
        {
            let item = &self.items[k];
            rows.push((k, item.content.clone(), item.created_at.clone()));
            k += 1;
        }
        rows
    }

    /// Serializes the items, in order, to the exact text that the persisted
    /// file holds after a successful save. Writing it out is the caller's
    /// business.
    pub fn save(&self) -> (r: String)
        ensures
            r@ == json::spec_encode_items(self@),
    {
        json::encode_items(&self.items)
    }

    /// Builds the store from the contents of the persisted file at
    /// `file_path`. `None` stands for a file that does not exist and yields
    /// an empty store, not an error; well-formed text yields exactly the
    /// items it serializes; malformed text is rejected.
    pub fn load(file_path: String, contents: Option<&str>) -> (r: Result<Todo, LoadError>)
        ensures
            match contents {
                None => r matches Ok(t) && t@ == Seq::<Task>::empty() && t.location()
                    == file_path@,
                Some(s) => match json::spec_decode_items(s@) {
                    None => r == Result::<Todo, LoadError>::Err(LoadError::Malformed),
                    Some(ts) => r matches Ok(t) && t@ == ts && t.location() == file_path@,
                },
            },
    {
        match contents {
            None => Ok(Todo::new(file_path)),
            Some(s) => match json::parse_items(s) {
                Ok(items) => Ok(Todo { items, file_path }),
                Err(e) => Err(e),
            },
        }
    }
}

} // verus!
