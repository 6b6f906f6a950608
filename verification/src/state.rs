use vstd::prelude::*;

use crate::entry::{models, Entry, EntryModel};
use crate::filter::Filter;
use crate::indexing::{
    accepts_fn, backing_index, lemma_backing_index, lemma_backing_index_all,
    lemma_visible_all, lemma_visible_of_accepted, lemma_visible_take_step, resolve,
    visible_entries,
};

verus! {

/// One user gesture, routed by the view layer to [`State::update`].  Every
/// index is a position among the rows visible under the current filter.
pub enum Msg {
    Add,
    Edit(usize),
    Update(String),
    UpdateEdit(String),
    Remove(usize),
    SetFilter(Filter),
    ToggleAll,
    ToggleEdit(usize),
    Toggle(usize),
    ClearCompleted,
    Nope,
}

/// The whole model: the backing entry sequence, the active filter and the
/// two text buffers.
pub struct State {
    pub entries: Vec<Entry>,
    pub filter: Filter,
    pub value: String,
    pub edit_value: String,
}

/// Mathematical image of a [`State`].
pub ghost struct StateModel {
    pub entries: Seq<EntryModel>,
    pub filter: Filter,
    pub value: Seq<char>,
    pub edit_value: Seq<char>,
}

impl View for State {
    type V = StateModel;

    open spec fn view(&self) -> StateModel {
        StateModel {
            entries: models(self.entries@),
            filter: self.filter,
            value: self.value@,
            edit_value: self.edit_value@,
        }
    }
}

impl StateModel {
    /// The rows on screen: the entries that pass the active filter, in
    /// backing order.
    pub open spec fn visible(self) -> Seq<EntryModel> {
        visible_entries(self.entries, self.filter)
    }
}

/// `e` with its completed flag flipped.
pub open spec fn toggled(e: EntryModel) -> EntryModel {
    EntryModel { completed: !e.completed, ..e }
}

/// `e` with its editing flag flipped.
pub open spec fn edit_flipped(e: EntryModel) -> EntryModel {
    EntryModel { editing: !e.editing, ..e }
}

/// `e` after an edit commits `text`: the new description is `text` and the
/// editing flag is flipped.
pub open spec fn committed(e: EntryModel, text: Seq<char>) -> EntryModel {
    EntryModel { description: text, editing: !e.editing, ..e }
}

impl State {
    /// A fresh model over `entries`, showing everything, with empty buffers.
    pub fn new(entries: Vec<Entry>) -> (s: State)
        ensures
            s@.entries == models(entries@),
            s@.filter == Filter::All,
            s@.value == Seq::<char>::empty(),
            s@.edit_value == Seq::<char>::empty(),
    {
        State { entries, filter: Filter::All, value: String::new(), edit_value: String::new() }
    }

    /// Number of entries, whatever the filter shows.
    pub fn total(&self) -> (r: usize)
        ensures
            r == self@.entries.len(),
    {
        self.entries.len()
    }

    /// Number of completed entries, whatever the filter shows.
    pub fn total_completed(&self) -> (r: usize)
        ensures
            r == visible_entries(self@.entries, Filter::Completed).len(),
    {
        let ghost s = self@.entries;
        let mut j: usize = 0;
        let mut count: usize = 0;
        while j < self.entries.len()
            invariant
                j <= self.entries.len(),
                count <= j,
                s == self@.entries,
                count == visible_entries(s.take(j as int), Filter::Completed).len(),
            decreases self.entries.len() - j,
        {
            proof {
                lemma_visible_take_step(s, Filter::Completed, j as int);
            }
            if Filter::Completed.fit(&self.entries[j]) {
                count = count + 1;
            }
            j = j + 1;
        }
        proof {
            assert(s.take(self.entries@.len() as int) =~= s);
        }
        count
    }

    /// False on an empty visible set; otherwise whether every visible entry
    /// is completed.
    pub fn is_all_completed(&self) -> (r: bool)
        ensures
            r == (self@.visible().len() != 0 && (forall|k: int|
                0 <= k < self@.visible().len() ==> self@.visible()[k].completed)),
    {
        let ghost s = self@.entries;
        let mut j: usize = 0;
        let mut any_visible = false;
        let mut all_completed = true;
        while j < self.entries.len()
            invariant
                j <= self.entries.len(),
                s == self@.entries,
                any_visible == (visible_entries(s.take(j as int), self.filter).len() != 0),
                all_completed == (forall|k: int|
                    0 <= k < visible_entries(s.take(j as int), self.filter).len()
                        ==> visible_entries(s.take(j as int), self.filter)[k].completed),
            decreases self.entries.len() - j,
        {
            proof {
                lemma_visible_take_step(s, self@.filter, j as int);
            }
            if self.filter.fit(&self.entries[j]) {
                any_visible = true;
                all_completed = all_completed && self.entries[j].completed;
                proof {
                    let before = visible_entries(s.take(j as int), self@.filter);
                    let after = visible_entries(s.take(j as int + 1), self@.filter);
                    assert(after == before + seq![s[j as int]]);
                    assert(after.len() == before.len() + 1);
                    assert(forall|k: int| 0 <= k < before.len() ==> after[k] == before[k]);
                    assert(after[before.len() as int] == s[j as int]);
                }
            }
            j = j + 1;
        }
        proof {
            assert(s.take(self.entries@.len() as int) =~= s);
        }
        any_visible && all_completed
    }

    /// Set the completed flag of every visible entry to `value`; entries the
    /// filter hides stay untouched.
    pub fn toggle_all(&mut self, value: bool)
        ensures
            final(self)@.entries.len() == old(self)@.entries.len(),
            forall|k: int|
                0 <= k < old(self)@.entries.len() ==> final(self)@.entries[k] == (
                if old(self)@.filter.accepts(old(self)@.entries[k]) {
                    EntryModel { completed: value, ..old(self)@.entries[k] }
                } else {
                    old(self)@.entries[k]
                }),
            final(self)@.filter == old(self)@.filter,
            final(self)@.value == old(self)@.value,
            final(self)@.edit_value == old(self)@.edit_value,
    {
        let ghost s = old(self)@.entries;
        let mut j: usize = 0;
        while j < self.entries.len()
            invariant
                j <= self.entries.len(),
                self.entries@.len() == s.len(),
                self.filter == old(self).filter,
                self.value == old(self).value,
                self.edit_value == old(self).edit_value,
                forall|k: int|
                    j <= k < s.len() ==> models(self.entries@)[k] == s[k],
                forall|k: int|
                    0 <= k < j ==> models(self.entries@)[k] == (
                    if old(self)@.filter.accepts(s[k]) {
                        EntryModel { completed: value, ..s[k] }
                    } else {
                        s[k]
                    }),
            decreases self.entries.len() - j,
        {
            let ghost pre = self.entries@;
            if self.filter.fit(&self.entries[j]) {
                let description = self.entries[j].description.clone();
                let editing = self.entries[j].editing;
                self.entries[j] = Entry { description, completed: value, editing };
            }
            proof {
                assert forall|k: int| 0 <= k < j + 1 implies models(self.entries@)[k] == (
                if old(self)@.filter.accepts(s[k]) {
                    EntryModel { completed: value, ..s[k] }
                } else {
                    s[k]
                }) by {
                    assert(models(pre)[j as int] == s[j as int]);
                    if k < j {
                        assert(models(pre)[k] == (if old(self)@.filter.accepts(s[k]) {
                            EntryModel { completed: value, ..s[k] }
                        } else {
                            s[k]
                        }));
                        assert(self.entries@[k] == pre[k]);
                        assert(models(self.entries@)[k] == models(pre)[k]);
                    } else {
                        assert(models(self.entries@)[j as int] == (
                        if old(self)@.filter.accepts(s[j as int]) {
                            EntryModel { completed: value, ..s[j as int] }
                        } else {
                            s[j as int]
                        }));
                    }
                }
            }
            j = j + 1;
        }
    }

    /// Drop every completed entry from the backing sequence, keeping the
    /// survivors in order, whatever the display filter is.
    pub fn clear_completed(&mut self)
        ensures
            final(self)@.entries == visible_entries(old(self)@.entries, Filter::Active),
            final(self)@.filter == old(self)@.filter,
            final(self)@.value == old(self)@.value,
            final(self)@.edit_value == old(self)@.edit_value,
    {
        let ghost s = old(self)@.entries;
        let mut survivors: Vec<Entry> = Vec::new();
        let mut j: usize = 0;
        while j < self.entries.len()
            invariant
                j <= self.entries.len(),
                self.entries@ == old(self).entries@,
                models(survivors@) == visible_entries(s.take(j as int), Filter::Active),
                s == old(self)@.entries,
            decreases self.entries.len() - j,
        {
            proof {
                lemma_visible_take_step(s, Filter::Active, j as int);
            }
            if Filter::Active.fit(&self.entries[j]) {
                survivors.push(self.entries[j].duplicate());
                proof {
                    assert(models(survivors@) =~= visible_entries(
                        s.take(j as int + 1),
                        Filter::Active,
                    ));
                }
            }
            j = j + 1;
        }
        proof {
            assert(s.take(self.entries@.len() as int) =~= s);
        }
        self.entries = survivors;
    }

    /// Flip the completed flag of the entry at visible row `idx`.
    pub fn toggle(&mut self, idx: usize)
        requires
            idx < old(self)@.visible().len(),
        ensures
            ({
                let b = backing_index(old(self)@.entries, old(self)@.filter, idx as int);
                final(self)@.entries == old(self)@.entries.update(
                    b,
                    toggled(old(self)@.entries[b]),
                )
            }),
            final(self)@.filter == old(self)@.filter,
            final(self)@.value == old(self)@.value,
            final(self)@.edit_value == old(self)@.edit_value,
    {
        let b = resolve(&self.entries, self.filter, idx);
        let description = self.entries[b].description.clone();
        let completed = self.entries[b].completed;
        let editing = self.entries[b].editing;
        self.entries[b] = Entry { description, completed: !completed, editing };
        proof {
            assert(final(self)@.entries =~= old(self)@.entries.update(
                b as int,
                toggled(old(self)@.entries[b as int]),
            ));
        }
    }

    /// Flip the editing flag of the entry at visible row `idx`.
    pub fn toggle_edit(&mut self, idx: usize)
        requires
            idx < old(self)@.visible().len(),
        ensures
            ({
                let b = backing_index(old(self)@.entries, old(self)@.filter, idx as int);
                final(self)@.entries == old(self)@.entries.update(
                    b,
                    edit_flipped(old(self)@.entries[b]),
                )
            }),
            final(self)@.filter == old(self)@.filter,
            final(self)@.value == old(self)@.value,
            final(self)@.edit_value == old(self)@.edit_value,
    {
        let b = resolve(&self.entries, self.filter, idx);
        let description = self.entries[b].description.clone();
        let completed = self.entries[b].completed;
        let editing = self.entries[b].editing;
        self.entries[b] = Entry { description, completed, editing: !editing };
        proof {
            assert(final(self)@.entries =~= old(self)@.entries.update(
                b as int,
                edit_flipped(old(self)@.entries[b as int]),
            ));
        }
    }

    /// Commit `val` as the new description of the entry at visible row `idx`
    /// and flip its editing flag.
    pub fn complete_edit(&mut self, idx: usize, val: String)
        requires
            idx < old(self)@.visible().len(),
        ensures
            ({
                let b = backing_index(old(self)@.entries, old(self)@.filter, idx as int);
                final(self)@.entries == old(self)@.entries.update(
                    b,
                    committed(old(self)@.entries[b], val@),
                )
            }),
            final(self)@.filter == old(self)@.filter,
            final(self)@.value == old(self)@.value,
            final(self)@.edit_value == old(self)@.edit_value,
    {
        let b = resolve(&self.entries, self.filter, idx);
        let completed = self.entries[b].completed;
        let editing = self.entries[b].editing;
        self.entries[b] = Entry { description: val, completed, editing: !editing };
        proof {
            assert(final(self)@.entries =~= old(self)@.entries.update(
                b as int,
                committed(old(self)@.entries[b as int], val@),
            ));
        }
    }

    /// Remove the entry at visible row `idx` from the backing sequence.
    pub fn remove(&mut self, idx: usize)
        requires
            idx < old(self)@.visible().len(),
        ensures
            ({
                let b = backing_index(old(self)@.entries, old(self)@.filter, idx as int);
                final(self)@.entries == old(self)@.entries.remove(b)
            }),
            final(self)@.filter == old(self)@.filter,
            final(self)@.value == old(self)@.value,
            final(self)@.edit_value == old(self)@.edit_value,
    {
        let b = resolve(&self.entries, self.filter, idx);
        self.entries.remove(b);
        proof {
            assert(final(self)@.entries =~= old(self)@.entries.remove(b as int));
        }
    }

    /// Apply one gesture to the model and report whether a re-render is due;
    /// it always is.  The caller persists the entry list afterwards, whatever
    /// the gesture was.
    pub fn update(&mut self, msg: Msg) -> (render: bool)
        requires
            match msg {
                Msg::Edit(idx) => idx < old(self)@.visible().len(),
                Msg::Remove(idx) => idx < old(self)@.visible().len(),
                Msg::ToggleEdit(idx) => idx < old(self)@.visible().len(),
                Msg::Toggle(idx) => idx < old(self)@.visible().len(),
                _ => true,
            },
        ensures
            render,
            match msg {
                Msg::Add => final(self)@ == (StateModel {
                    entries: old(self)@.entries.push(
                        EntryModel {
                            description: old(self)@.value,
                            completed: false,
                            editing: false,
                        },
                    ),
                    value: Seq::<char>::empty(),
                    ..old(self)@
                }),
                Msg::Edit(idx) => ({
                    let b = backing_index(old(self)@.entries, old(self)@.filter, idx as int);
                    final(self)@ == (StateModel {
                        entries: old(self)@.entries.update(
                            b,
                            committed(old(self)@.entries[b], old(self)@.edit_value),
                        ),
                        edit_value: Seq::<char>::empty(),
                        ..old(self)@
                    })
                }),
                Msg::Update(val) => final(self)@ == (StateModel { value: val@, ..old(self)@ }),
                Msg::UpdateEdit(val) => final(self)@ == (StateModel {
                    edit_value: val@,
                    ..old(self)@
                }),
                Msg::Remove(idx) => ({
                    let b = backing_index(old(self)@.entries, old(self)@.filter, idx as int);
                    final(self)@ == (StateModel {
                        entries: old(self)@.entries.remove(b),
                        ..old(self)@
                    })
                }),
                Msg::SetFilter(f) => final(self)@ == (StateModel { filter: f, ..old(self)@ }),
                Msg::ToggleEdit(idx) => ({
                    let b = backing_index(old(self)@.entries, old(self)@.filter, idx as int);
                    final(self)@ == (StateModel {
                        entries: old(self)@.entries.update(
                            b,
                            edit_flipped(old(self)@.entries[b]),
                        ),
                        edit_value: old(self)@.entries[b].description,
                        ..old(self)@
                    })
                }),
                Msg::ToggleAll => ({
                    let target = !(old(self)@.visible().len() != 0 && (forall|k: int|
                        0 <= k < old(self)@.visible().len()
                            ==> old(self)@.visible()[k].completed));
                    &&& final(self)@.entries.len() == old(self)@.entries.len()
                    &&& forall|k: int|
                        0 <= k < old(self)@.entries.len() ==> final(self)@.entries[k] == (
                        if old(self)@.filter.accepts(old(self)@.entries[k]) {
                            EntryModel { completed: target, ..old(self)@.entries[k] }
                        } else {
                            old(self)@.entries[k]
                        })
                    &&& final(self)@.filter == old(self)@.filter
                    &&& final(self)@.value == old(self)@.value
                    &&& final(self)@.edit_value == old(self)@.edit_value
                }),
                Msg::Toggle(idx) => ({
                    let b = backing_index(old(self)@.entries, old(self)@.filter, idx as int);
                    final(self)@ == (StateModel {
                        entries: old(self)@.entries.update(b, toggled(old(self)@.entries[b])),
                        ..old(self)@
                    })
                }),
                Msg::ClearCompleted => final(self)@ == (StateModel {
                    entries: visible_entries(old(self)@.entries, Filter::Active),
                    ..old(self)@
                }),
                Msg::Nope => final(self)@ == old(self)@,
            },
    {
        match msg {
            Msg::Add => {
                let description = self.value.clone();
                self.entries.push(Entry::new(description));
                self.value = String::new();
                proof {
                    assert(final(self)@.entries =~= old(self)@.entries.push(
                        EntryModel {
                            description: old(self)@.value,
                            completed: false,
                            editing: false,
                        },
                    ));
                }
            },
            Msg::Edit(idx) => {
                let val = self.edit_value.clone();
                self.complete_edit(idx, val);
                self.edit_value = String::new();
            },
            Msg::Update(val) => {
                self.value = val;
            },
            Msg::UpdateEdit(val) => {
                self.edit_value = val;
            },
            Msg::Remove(idx) => {
                self.remove(idx);
            },
            Msg::SetFilter(f) => {
                self.filter = f;
            },
            Msg::ToggleEdit(idx) => {
                let b = resolve(&self.entries, self.filter, idx);
                proof {
                    lemma_backing_index(old(self)@.entries, old(self)@.filter, idx as int);
                }
                self.edit_value = self.entries[b].description.clone();
                self.toggle_edit(idx);
            },
            Msg::ToggleAll => {
                let status = !self.is_all_completed();
                self.toggle_all(status);
            },
            Msg::Toggle(idx) => {
                self.toggle(idx);
            },
            Msg::ClearCompleted => {
                self.clear_completed();
            },
            Msg::Nope => {},
        }
        true
    }
}

/// Toggling the same visible row twice under the `All` filter restores the
/// backing sequence exactly.  Under `Active` or `Completed` this fails: the
/// first toggle moves the entry out of the visible set, so the second toggle
/// addresses a different entry.
pub proof fn lemma_toggle_twice_restores(entries: Seq<EntryModel>, i: int)
    requires
        0 <= i < visible_entries(entries, Filter::All).len(),
    ensures
        ({
            let b1 = backing_index(entries, Filter::All, i);
            let once = entries.update(b1, toggled(entries[b1]));
            let b2 = backing_index(once, Filter::All, i);
            once.update(b2, toggled(once[b2])) == entries
        }),
{
    lemma_visible_all(entries);
    lemma_backing_index_all(entries, i);
    let once = entries.update(i, toggled(entries[i]));
    lemma_backing_index_all(once, i);
    assert(once.update(i, toggled(once[i])) =~= entries);
}

/// Clearing completed entries is idempotent: a second clearing changes
/// nothing, because every survivor of the first already passes `Active`.
pub proof fn lemma_clear_completed_idempotent(entries: Seq<EntryModel>)
    ensures
        visible_entries(visible_entries(entries, Filter::Active), Filter::Active)
            == visible_entries(entries, Filter::Active),
{
    let once = visible_entries(entries, Filter::Active);
    assert forall|k: int| 0 <= k < once.len() implies Filter::Active.accepts(once[k]) by {
        entries.lemma_filter_pred(accepts_fn(Filter::Active), k);
    }
    lemma_visible_of_accepted(once, Filter::Active);
}

} // verus!
