use todomvc::codec::{decode, encode};
use todomvc::entry::Entry;

fn entry(description: &str, completed: bool, editing: bool) -> Entry {
    Entry { description: description.to_string(), completed, editing }
}

fn same_entries(a: &[Entry], b: &[Entry]) -> bool {
    a.len() == b.len()
        && a.iter().zip(b.iter()).all(|(x, y)| {
            x.description == y.description && x.completed == y.completed && x.editing == y.editing
        })
}

#[test]
fn encode_writes_one_record_per_entry() {
    let entries = vec![entry("hi", true, false), entry("lo", false, true)];
    assert_eq!(encode(&entries), "10hi\n01lo\n");
}

#[test]
fn encode_escapes_backslashes_and_newlines() {
    let entries = vec![entry("a\\b\nc", false, false)];
    assert_eq!(encode(&entries), "00a\\\\b\\nc\n");
}

#[test]
fn encode_of_nothing_is_empty_text() {
    assert_eq!(encode(&Vec::new()), "");
}

#[test]
fn decode_of_empty_text_is_the_empty_list() {
    assert!(decode("").is_empty());
}

#[test]
fn round_trip_preserves_order_and_fields() {
    let entries = vec![
        entry("plain", false, false),
        entry("", true, false),
        entry("with\nnewline", false, true),
        entry("with\\backslash", true, true),
        entry("\\n literal", false, false),
        entry("unicode \u{1F600} text", true, false),
    ];
    let decoded = decode(&encode(&entries));
    assert!(same_entries(&decoded, &entries));
}

#[test]
fn decode_rejects_a_truncated_record() {
    // flags without a terminated description
    assert!(decode("10abc").is_empty());
    // a lone flag character
    assert!(decode("1").is_empty());
    // a record ending in a dangling escape
    assert!(decode("00abc\\").is_empty());
}

#[test]
fn decode_rejects_bad_flags() {
    assert!(decode("2xhello\n").is_empty());
    assert!(decode("1xhello\n").is_empty());
}

#[test]
fn decode_keeps_well_formed_prefix_only_when_whole_text_parses() {
    // the second record is malformed, so everything is dropped
    assert!(decode("10ok\n9bad\n").is_empty());
}

#[test]
fn decode_reads_flags_exactly() {
    let decoded = decode("01task\n");
    assert_eq!(decoded.len(), 1);
    assert_eq!(decoded[0].description, "task");
    assert!(!decoded[0].completed);
    assert!(decoded[0].editing);
}
