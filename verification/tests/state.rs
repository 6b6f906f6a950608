use todomvc::entry::Entry;
use todomvc::filter::Filter;
use todomvc::indexing::resolve;
use todomvc::state::{Msg, State};

fn entry(description: &str, completed: bool) -> Entry {
    Entry { description: description.to_string(), completed, editing: false }
}

fn descriptions(state: &State) -> Vec<String> {
    state.entries.iter().map(|e| e.description.clone()).collect()
}

fn completed_flags(state: &State) -> Vec<bool> {
    state.entries.iter().map(|e| e.completed).collect()
}

#[test]
fn new_state_is_empty_and_shows_all() {
    let state = State::new(Vec::new());
    assert_eq!(state.total(), 0);
    assert_eq!(state.total_completed(), 0);
    assert!(state.filter == Filter::All);
    assert_eq!(state.value, "");
    assert_eq!(state.edit_value, "");
}

#[test]
fn add_entry_appends_and_clears_value() {
    let mut state = State::new(Vec::new());
    assert!(state.update(Msg::Update("X".to_string())));
    assert!(state.update(Msg::Add));
    assert_eq!(state.total(), 1);
    assert_eq!(state.entries[0].description, "X");
    assert!(!state.entries[0].completed);
    assert!(!state.entries[0].editing);
    assert_eq!(state.value, "");
}

#[test]
fn add_entry_keeps_empty_description() {
    let mut state = State::new(Vec::new());
    state.update(Msg::Add);
    assert_eq!(state.total(), 1);
    assert_eq!(state.entries[0].description, "");
}

#[test]
fn total_counts_backing_sequence_whatever_the_filter() {
    let mut state = State::new(vec![entry("a", false), entry("b", true), entry("c", true)]);
    state.update(Msg::SetFilter(Filter::Active));
    assert_eq!(state.total(), 3);
    assert_eq!(state.total_completed(), 2);
    state.update(Msg::ClearCompleted);
    assert_eq!(state.total(), 1);
    assert_eq!(state.total_completed(), 0);
}

#[test]
fn toggle_twice_restores_completed_flag() {
    let mut state = State::new(vec![entry("a", false), entry("b", true)]);
    state.update(Msg::Toggle(0));
    assert!(state.entries[0].completed);
    state.update(Msg::Toggle(0));
    assert!(!state.entries[0].completed);
    assert!(state.entries[1].completed);
}

#[test]
fn clear_completed_is_idempotent() {
    let mut state = State::new(vec![entry("a", false), entry("b", true), entry("c", true)]);
    state.update(Msg::ClearCompleted);
    let after_once = descriptions(&state);
    assert_eq!(after_once, vec!["a".to_string()]);
    state.update(Msg::ClearCompleted);
    assert_eq!(descriptions(&state), after_once);
}

#[test]
fn clear_completed_ignores_display_filter() {
    let mut state = State::new(vec![entry("a", false), entry("b", true)]);
    state.update(Msg::SetFilter(Filter::Completed));
    state.update(Msg::ClearCompleted);
    assert_eq!(descriptions(&state), vec!["a".to_string()]);
    assert!(state.filter == Filter::Completed);
}

#[test]
fn toggle_all_turns_everything_on_then_off() {
    let mut state = State::new(vec![entry("a", false), entry("b", true), entry("c", false)]);
    state.update(Msg::ToggleAll);
    assert_eq!(completed_flags(&state), vec![true, true, true]);
    state.update(Msg::ToggleAll);
    assert_eq!(completed_flags(&state), vec![false, false, false]);
}

#[test]
fn toggle_all_touches_only_visible_entries() {
    let mut state = State::new(vec![entry("a", false), entry("b", true), entry("c", false)]);
    state.update(Msg::SetFilter(Filter::Active));
    // the visible entries a and c are not all completed, so they turn on
    state.update(Msg::ToggleAll);
    assert_eq!(completed_flags(&state), vec![true, true, true]);
}

#[test]
fn remove_translates_the_visible_index() {
    let mut state = State::new(vec![entry("A", false), entry("B", true), entry("C", false)]);
    state.update(Msg::SetFilter(Filter::Active));
    // visible rows are [A, C]; row 1 is C, not B
    state.update(Msg::Remove(1));
    assert_eq!(descriptions(&state), vec!["A".to_string(), "B".to_string()]);
    assert_eq!(completed_flags(&state), vec![false, true]);
}

#[test]
fn resolve_maps_visible_rows_to_backing_positions() {
    let entries = vec![entry("A", false), entry("B", true), entry("C", false)];
    assert_eq!(resolve(&entries, Filter::Active, 0), 0);
    assert_eq!(resolve(&entries, Filter::Active, 1), 2);
    assert_eq!(resolve(&entries, Filter::Completed, 0), 1);
    assert_eq!(resolve(&entries, Filter::All, 2), 2);
}

#[test]
fn is_all_completed_is_false_on_an_empty_view() {
    let mut state = State::new(vec![entry("a", false)]);
    state.update(Msg::SetFilter(Filter::Completed));
    assert!(!state.is_all_completed());
    let empty = State::new(Vec::new());
    assert!(!empty.is_all_completed());
}

#[test]
fn is_all_completed_follows_the_visible_rows() {
    let mut state = State::new(vec![entry("a", false), entry("b", true)]);
    assert!(!state.is_all_completed());
    state.update(Msg::SetFilter(Filter::Completed));
    assert!(state.is_all_completed());
    state.update(Msg::SetFilter(Filter::Active));
    assert!(!state.is_all_completed());
}

#[test]
fn toggle_edit_copies_description_and_flips_editing() {
    let mut state = State::new(vec![entry("a", true), entry("b", false)]);
    state.update(Msg::SetFilter(Filter::Active));
    // visible row 0 is b
    state.update(Msg::ToggleEdit(0));
    assert_eq!(state.edit_value, "b");
    assert!(state.entries[1].editing);
    assert!(!state.entries[0].editing);
}

#[test]
fn toggle_edit_twice_cancels_edit_mode() {
    let mut state = State::new(vec![entry("a", false)]);
    state.update(Msg::ToggleEdit(0));
    state.update(Msg::ToggleEdit(0));
    assert!(!state.entries[0].editing);
    assert_eq!(state.entries[0].description, "a");
}

#[test]
fn commit_edit_stores_the_edit_buffer() {
    let mut state = State::new(vec![entry("a", false)]);
    state.update(Msg::ToggleEdit(0));
    state.update(Msg::UpdateEdit("a2".to_string()));
    state.update(Msg::Edit(0));
    assert_eq!(state.entries[0].description, "a2");
    assert!(!state.entries[0].editing);
    assert_eq!(state.edit_value, "");
}

#[test]
fn update_buffers_hold_the_typed_text() {
    let mut state = State::new(Vec::new());
    state.update(Msg::Update("typing".to_string()));
    assert_eq!(state.value, "typing");
    state.update(Msg::UpdateEdit("editing".to_string()));
    assert_eq!(state.edit_value, "editing");
}

#[test]
fn nope_changes_nothing_but_still_renders() {
    let mut state = State::new(vec![entry("a", true)]);
    state.update(Msg::Update("buf".to_string()));
    let render = state.update(Msg::Nope);
    assert!(render);
    assert_eq!(descriptions(&state), vec!["a".to_string()]);
    assert_eq!(state.value, "buf");
    assert!(state.filter == Filter::All);
}

#[test]
fn filter_fit_matches_the_three_predicates() {
    let active = entry("a", false);
    let done = entry("d", true);
    assert!(Filter::All.fit(&active) && Filter::All.fit(&done));
    assert!(Filter::Active.fit(&active) && !Filter::Active.fit(&done));
    assert!(!Filter::Completed.fit(&active) && Filter::Completed.fit(&done));
}

#[test]
fn filter_variants_hrefs_and_labels() {
    let variants = Filter::variants();
    assert!(variants == vec![Filter::All, Filter::Active, Filter::Completed]);
    assert_eq!(Filter::All.href(), "#/");
    assert_eq!(Filter::Active.href(), "#/active");
    assert_eq!(Filter::Completed.href(), "#/completed");
    assert_eq!(Filter::All.label(), "All");
    assert_eq!(Filter::Active.label(), "Active");
    assert_eq!(Filter::Completed.label(), "Completed");
}
