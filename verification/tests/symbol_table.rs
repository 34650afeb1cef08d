use linkpatch::load::LoadError;
use linkpatch::symbol_table::SymbolTable;
use linkpatch::text::lines;

#[test]
fn names_keep_the_order_of_the_file() {
    let table = SymbolTable::parse("Event_Init\nEvent_Update\r\nEvent_Think\n").unwrap();
    assert_eq!(
        table.names(),
        &vec!["Event_Init".to_string(), "Event_Update".to_string(), "Event_Think".to_string()]
    );
    assert_eq!(table.len(), 3);
    assert_eq!(table.slot_of("Event_Init"), Some(0));
    assert_eq!(table.slot_of("Event_Think"), Some(2));
    assert_eq!(table.slot_of("Event_None"), None);
    assert!(table.contains("Event_Update"));
    assert!(!table.contains("event_update"));
}

#[test]
fn repeated_name_is_a_duplicate_symbol() {
    let error = SymbolTable::parse("a\nb\na\nb\n").err().unwrap();
    assert_eq!(error, LoadError::DuplicateSymbol { name: "a".to_string() });
}

#[test]
fn first_repeat_is_the_one_reported() {
    let error = SymbolTable::parse("a\nb\nc\nc\na\n").err().unwrap();
    assert_eq!(error, LoadError::DuplicateSymbol { name: "c".to_string() });
}

#[test]
fn empty_text_has_no_names() {
    let table = SymbolTable::parse("").unwrap();
    assert_eq!(table.len(), 0);
    assert!(!table.contains(""));
}

#[test]
fn every_line_is_a_name() {
    let table = SymbolTable::parse("a\n\nb").unwrap();
    assert_eq!(table.names(), &vec!["a".to_string(), String::new(), "b".to_string()]);
    let error = SymbolTable::parse("a\n\n\n").err().unwrap();
    assert_eq!(error, LoadError::DuplicateSymbol { name: String::new() });
}

#[test]
fn lines_are_split_as_the_standard_library_splits_them() {
    for text in ["", "\n", "a", "a\n", "a\r\n", "a\r", "a\n\nb\r\n\r\n", "\r\n\r", "x\r\r\ny", "é\nü"] {
        let expected: Vec<String> = text.lines().map(str::to_string).collect();
        assert_eq!(lines(text), expected, "for {:?}", text);
    }
}
