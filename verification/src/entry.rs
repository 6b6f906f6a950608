use vstd::prelude::*;

verus! {

/// One task item: the text the user typed, whether it is done, and whether
/// its description is currently being edited in place.
pub struct Entry {
    pub description: String,
    pub completed: bool,
    pub editing: bool,
}

/// Mathematical image of an [`Entry`]: the description as a sequence of
/// characters beside the two flags.
pub ghost struct EntryModel {
    pub description: Seq<char>,
    pub completed: bool,
    pub editing: bool,
}

impl View for Entry {
    type V = EntryModel;

    open spec fn view(&self) -> EntryModel {
        EntryModel {
            description: self.description@,
            completed: self.completed,
            editing: self.editing,
        }
    }
}

/// Mathematical image of a whole entry sequence.
pub open spec fn models(entries: Seq<Entry>) -> Seq<EntryModel> {
    entries.map_values(|e: Entry| e@)
}

impl Entry {
    /// A fresh entry holding `description`, neither completed nor being edited.
    pub fn new(description: String) -> (e: Entry)
        ensures
            e@ == (EntryModel { description: description@, completed: false, editing: false }),
    {
        Entry { description, completed: false, editing: false }
    }

    /// An independent copy of this entry.
    pub fn duplicate(&self) -> (e: Entry)
        ensures
            e@ == self@,
    {
        Entry {
            description: self.description.clone(),
            completed: self.completed,
            editing: self.editing,
        }
    }
}

} // verus!
