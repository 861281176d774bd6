//! The task catalog: an in-memory mapping from task name to task value, as
//! it came out of the configuration document.
//!
//! A task value mirrors exactly what the configuration may hold: a bare
//! command string, a structured entry (whose `command` field may be missing
//! or of the wrong type, and whose dependency list may contain malformed
//! entries, which resolution skips), or a value of an unsupported shape.

use vstd::prelude::*;
use crate::text::str_eq;

verus! {

/// The `command` field of a structured task entry.
pub enum CommandField {
    /// The field is absent: a hard error at resolution time.
    Missing,
    /// The field holds a command string.
    Text(String),
    /// The field holds a value that is not a string: a hard error.
    Malformed,
}

/// One element of a structured entry's dependency list.
pub enum DepEntry {
    /// A task name.
    Name(String),
    /// A non-string element; resolution silently skips it.
    Malformed,
}

/// A task as declared in the catalog.
pub enum TaskValue {
    /// A bare command string: no dependencies.
    Command(String),
    /// A structured entry with a `command` field and an optional dependency
    /// list, in declaration order.
    Entry { command: CommandField, depends_on: Vec<DepEntry> },
    /// A value that is neither a string nor a structured entry.
    Malformed,
}

/// The names among a dependency list, in order, with malformed elements
/// dropped.
pub open spec fn dep_names(ds: Seq<DepEntry>) -> Seq<Seq<char>>
    decreases ds.len(),
{
    if ds.len() == 0 {
        Seq::empty()
    } else {
        dep_names(ds.drop_last()) + (match ds.last() {
            DepEntry::Name(s) => seq![s@],
            DepEntry::Malformed => Seq::empty(),
        })
    }
}

/// What a task value means to the resolver: either a runnable command with
/// its usable dependency names, or one of the two hard errors.
pub enum TaskView {
    Runnable { command: Seq<char>, deps: Seq<Seq<char>> },
    /// A structured entry without a `command` field.
    MissingCommand,
    /// A command value that is not a string.
    Unsupported,
}

impl View for TaskValue {
    type V = TaskView;

    open spec fn view(&self) -> TaskView {
        match self {
            TaskValue::Command(s) => TaskView::Runnable { command: s@, deps: Seq::empty() },
            TaskValue::Entry { command, depends_on } => match command {
                CommandField::Missing => TaskView::MissingCommand,
                CommandField::Text(c) => TaskView::Runnable {
                    command: c@,
                    deps: dep_names(depends_on@),
                },
                CommandField::Malformed => TaskView::Unsupported,
            },
            TaskValue::Malformed => TaskView::Unsupported,
        }
    }
}

/// Whether some entry of the catalog view carries the name `n`.
pub open spec fn has_name(cv: Seq<(Seq<char>, TaskView)>, n: Seq<char>) -> bool {
    exists|i: int| 0 <= i < cv.len() && cv[i].0 == n
}

/// The index of the entry named `n` (unique under `catalog_wf`).
pub open spec fn name_index(cv: Seq<(Seq<char>, TaskView)>, n: Seq<char>) -> int {
    choose|i: int| 0 <= i < cv.len() && cv[i].0 == n
}

/// The task view registered under the name `n`.
pub open spec fn entry_of(cv: Seq<(Seq<char>, TaskView)>, n: Seq<char>) -> TaskView {
    cv[name_index(cv, n)].1
}

/// Names are unique keys.
pub open spec fn catalog_wf(cv: Seq<(Seq<char>, TaskView)>) -> bool {
    forall|i: int, j: int| 0 <= i < j < cv.len() ==> cv[i].0 != cv[j].0
}

/// The mapping from task name to task value, immutable during resolution.
/// Entries keep the order in which they were inserted; the first one is the
/// fallback when no task name is requested.
pub struct TaskCatalog {
    entries: Vec<(String, TaskValue)>,
}

impl View for TaskCatalog {
    type V = Seq<(Seq<char>, TaskView)>;

    closed spec fn view(&self) -> Seq<(Seq<char>, TaskView)> {
        Seq::new(self.entries@.len(), |i: int| (self.entries@[i].0@, self.entries@[i].1@))
    }
}

impl TaskCatalog {
    /// Names are unique keys.
    pub open spec fn wf(&self) -> bool {
        catalog_wf(self@)
    }

    /// An empty catalog.
    pub fn new() -> (r: TaskCatalog)
        ensures
            r@ == Seq::<(Seq<char>, TaskView)>::empty(),
            r.wf(),
    {
        let r = TaskCatalog { entries: Vec::new() };
        proof {
            assert(r@ =~= Seq::<(Seq<char>, TaskView)>::empty());
        }
        r
    }

    /// Number of declared tasks.
    pub fn len(&self) -> (r: usize)
        ensures
            r == self@.len(),
    {
        self.entries.len()
    }

    /// Index of the entry named `name`, if any.
    fn find(&self, name: &str) -> (r: Option<usize>)
        ensures
            match r {
                Some(i) => 0 <= i < self@.len() && self@[i as int].0 == name@,
                None => !has_name(self@, name@),
            },
    {
        let n = self.entries.len();
        let mut i: usize = 0;
        while i < n
            invariant
                i <= n,
                n == self@.len(),
                forall|k: int| 0 <= k < i ==> self@[k].0 != name@,
            decreases n - i,
        {
            if str_eq(self.entries[i].0.as_str(), name) {
                return Some(i);
            }
            i = i + 1;
        }
        None
    }

    /// Whether a task of this name is declared.
    pub fn contains(&self, name: &str) -> (r: bool)
        ensures
            r == has_name(self@, name@),
    {
        self.find(name).is_some()
    }

    /// The value declared under `name`.
    pub fn get(&self, name: &str) -> (r: Option<&TaskValue>)
        requires
            self.wf(),
        ensures
            match r {
                Some(v) => has_name(self@, name@) && v@ == entry_of(self@, name@),
                None => !has_name(self@, name@),
            },
    {
        match self.find(name) {
            Some(i) => {
                proof {
                    assert(name_index(self@, name@) == i) by {
                        let j = name_index(self@, name@);
                        assert(0 <= j < self@.len() && self@[j].0 == name@);
                    }
                }
                Some(&self.entries[i].1)
            },
            None => None,
        }
    }

    /// The first declared task name, the fallback for a default run.
    pub fn first_task(&self) -> (r: Option<&String>)
        ensures
            match r {
                Some(name) => self@.len() > 0 && name@ == self@[0].0,
                None => self@.len() == 0,
            },
    {
        if self.entries.len() > 0 {
            Some(&self.entries[0].0)
        } else {
            None
        }
    }

    /// Declares a task: replaces the value of an already-declared name in
    /// place, appends a new name at the end.
    pub fn insert(&mut self, name: String, value: TaskValue)
        requires
            old(self).wf(),
        ensures
            final(self).wf(),
            has_name(old(self)@, name@) ==> final(self)@ == old(self)@.update(
                name_index(old(self)@, name@),
                (name@, value@),
            ),
            !has_name(old(self)@, name@) ==> final(self)@ == old(self)@.push((name@, value@)),
    {
        let ghost pre = self@;
        match self.find(name.as_str()) {
            Some(i) => {
                proof {
                    assert(name_index(pre, name@) == i) by {
                        let j = name_index(pre, name@);
                        assert(0 <= j < pre.len() && pre[j].0 == name@);
                    }
                }
                self.entries.remove(i);
                self.entries.insert(i, (name, value));
                proof {
                    assert(self@ =~= pre.update(i as int, (self.entries@[i as int].0@,
                        self.entries@[i as int].1@)));
                }
            },
            None => {
                self.entries.push((name, value));
                proof {
                    assert(self@ =~= pre.push((self.entries@[pre.len() as int].0@,
                        self.entries@[pre.len() as int].1@)));
                }
            },
        }
    }
}

} // verus!
