use linkpatch::bytes::copy_of;
use linkpatch::hex::{digit_of, parse_hex_u32, push_hex_digits};
use linkpatch::link_table::{parse_line, LinkLine};
use linkpatch::load::{LoadError, LoadWarning};
use linkpatch::paths::{find_last, push_chars};
use linkpatch::pipeline::{load_tables, BuildError};
use linkpatch::text::{
    chars_of, contains_string, copy_strings, find_first, line_spans, string_of, Span,
};

fn chars(text: &str) -> Vec<char> {
    text.chars().collect()
}

#[test]
fn strings_and_characters_convert_both_ways() {
    assert_eq!(chars_of("aé\n"), vec!['a', 'é', '\n']);
    assert_eq!(chars_of(""), Vec::<char>::new());
    assert_eq!(string_of(&['a', 'é', '\n']), "aé\n");
    assert_eq!(string_of(&[]), "");
    let mut out = "x".to_string();
    push_chars(&mut out, &['y', 'z']);
    assert_eq!(out, "xyz");
}

#[test]
fn first_and_last_position_of_a_character() {
    let text = chars("a:b:c");
    assert_eq!(find_first(&text, ':'), Some(1));
    assert_eq!(find_last(&text, ':'), Some(3));
    assert_eq!(find_first(&text, 'c'), Some(4));
    assert_eq!(find_last(&text, 'a'), Some(0));
    assert_eq!(find_first(&text, 'x'), None);
    assert_eq!(find_last(&text, 'x'), None);
    assert_eq!(find_first(&[], ':'), None);
    assert_eq!(find_last(&[], ':'), None);
}

#[test]
fn line_positions_leave_out_the_line_endings() {
    let text = chars("ab\r\n\ncd\r");
    assert_eq!(
        line_spans(&text),
        vec![Span { start: 0, end: 2 }, Span { start: 4, end: 4 }, Span { start: 5, end: 8 }]
    );
    assert_eq!(line_spans(&chars("x\n")), vec![Span { start: 0, end: 1 }]);
    assert_eq!(line_spans(&[]), Vec::<Span>::new());
}

#[test]
fn lists_of_strings_are_searched_and_copied() {
    let list = vec!["a".to_string(), "bc".to_string()];
    assert!(contains_string(&list, &"bc".to_string()));
    assert!(!contains_string(&list, &"b".to_string()));
    assert!(!contains_string(&Vec::new(), &String::new()));
    assert_eq!(copy_strings(&list), list);
    assert_eq!(copy_of(&[1, 2, 3]), vec![1, 2, 3]);
}

#[test]
fn digits_have_their_values_in_either_case() {
    assert_eq!(digit_of('0'), Some(0));
    assert_eq!(digit_of('9'), Some(9));
    assert_eq!(digit_of('a'), Some(10));
    assert_eq!(digit_of('F'), Some(15));
    assert_eq!(digit_of('g'), None);
    assert_eq!(digit_of('G'), None);
    assert_eq!(digit_of('/'), None);
    assert_eq!(digit_of(':'), None);
    assert_eq!(digit_of('@'), None);
    assert_eq!(digit_of('`'), None);
    assert_eq!(digit_of('٣'), None);
}

#[test]
fn numbers_are_read_as_the_standard_library_reads_them() {
    for text in [
        "0", "A", "a", "0000000A", "FFFFFFFF", "ffffffff", "100000000", "+1F", "+", "", "-1",
        "++1", "1+", " 1", "1 ", "0x10", "00000000000000000000012", "FFFFFFFFF", "12G4", "٣",
        "80003100",
    ] {
        assert_eq!(
            parse_hex_u32(&chars(text)),
            u32::from_str_radix(text, 16).ok(),
            "for {:?}",
            text
        );
    }
    assert_eq!(parse_hex_u32(&chars("80003100")), Some(0x8000_3100));
}

#[test]
fn digits_are_written_with_the_width_asked_for() {
    let mut out = String::new();
    push_hex_digits(&mut out, 0xABC, 2);
    assert_eq!(out, "BC");
    push_hex_digits(&mut out, 0x1F, 4);
    assert_eq!(out, "BC001F");
    push_hex_digits(&mut out, 7, 0);
    assert_eq!(out, "BC001F");
}

#[test]
fn one_line_of_a_link_table_is_read() {
    assert_eq!(
        parse_line(&chars("0000000A:evFunction")),
        LinkLine::Entry {
            address: 0xA,
            name: "evFunction".to_string(),
            raw_address: "0000000A".to_string()
        }
    );
    assert_eq!(
        parse_line(&chars("A:foo")),
        LinkLine::Entry { address: 0xA, name: "foo".to_string(), raw_address: "A".to_string() }
    );
    assert_eq!(parse_line(&chars("garbage")), LinkLine::Malformed);
    assert_eq!(parse_line(&chars("")), LinkLine::Malformed);
    assert_eq!(parse_line(&chars("xyz:")), LinkLine::Malformed);
    assert_eq!(
        parse_line(&chars("xyz:name")),
        LinkLine::BadAddress { raw_value: "xyz".to_string() }
    );
}

#[test]
fn both_tables_are_loaded_with_the_warnings_of_the_link_table() {
    let tables = match load_tables("game.lnk", "A:foo\n80003100:bar\n", "foo\nbar\n") {
        Ok(tables) => tables,
        Err(error) => panic!("unexpected failure: {:?}", error),
    };
    assert_eq!(tables.link.address_of("bar"), Some(0x8000_3100));
    assert_eq!(tables.symbols.names(), &vec!["foo".to_string(), "bar".to_string()]);
    assert_eq!(
        tables.warnings,
        vec![
            LoadWarning::UnexpectedExtension { found: "lnk".to_string() },
            LoadWarning::AddressWidth { line_number: 1, raw_value: "A".to_string() },
        ]
    );
}

#[test]
fn fault_of_the_link_table_is_reported_before_one_of_the_symbol_table() {
    match load_tables("game.link", "garbage", "twice\ntwice\n") {
        Err(BuildError::Load(error)) => assert_eq!(
            error,
            LoadError::MalformedLine { line_number: 1, raw_line: "garbage".to_string() }
        ),
        _ => panic!("the link table has a fault"),
    }
    match load_tables("game.link", "80003100:bar\n", "twice\ntwice\n") {
        Err(BuildError::Load(error)) => {
            assert_eq!(error, LoadError::DuplicateSymbol { name: "twice".to_string() })
        }
        _ => panic!("the symbol table has a fault"),
    }
}
