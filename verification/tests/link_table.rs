use linkpatch::hex::format_address;
use linkpatch::link_table::{LinkEntry, LinkTable};
use linkpatch::load::{link_path_warning, LoadError, LoadWarning};

fn entry(address: u32, name: &str) -> LinkEntry {
    LinkEntry { address, name: name.to_string() }
}

#[test]
fn line_with_eight_digits_is_parsed() {
    let load = LinkTable::parse("0000000A:evFunction").unwrap();
    assert_eq!(load.table.entries(), &vec![entry(0x0000_000A, "evFunction")]);
    assert!(load.warnings.is_empty());
    assert_eq!(load.table.len(), 1);
}

#[test]
fn short_address_succeeds_with_width_warning() {
    let load = LinkTable::parse("A:foo").unwrap();
    assert_eq!(load.table.entries(), &vec![entry(10, "foo")]);
    assert_eq!(
        load.warnings,
        vec![LoadWarning::AddressWidth { line_number: 1, raw_value: "A".to_string() }]
    );
}

#[test]
fn line_without_colon_is_malformed() {
    let error = LinkTable::parse("80003100:first\ngarbage\n80003200:third").err().unwrap();
    assert_eq!(
        error,
        LoadError::MalformedLine { line_number: 2, raw_line: "garbage".to_string() }
    );
}

#[test]
fn same_address_twice_loads() {
    let load = LinkTable::parse("80003100:first\n80003100:second\n").unwrap();
    assert_eq!(
        load.table.entries(),
        &vec![entry(0x8000_3100, "first"), entry(0x8000_3100, "second")]
    );
    assert_eq!(load.table.address_of("second"), Some(0x8000_3100));
}

#[test]
fn same_name_twice_is_rejected() {
    let error = LinkTable::parse("80003100:twice\n80003200:other\n80003300:twice\n").err().unwrap();
    assert_eq!(error, LoadError::DuplicateSymbol { name: "twice".to_string() });
}

#[test]
fn address_that_is_no_number_is_invalid() {
    let error = LinkTable::parse("80003100:ok\n8000G100:bad\n").err().unwrap();
    assert_eq!(
        error,
        LoadError::InvalidAddress { line_number: 2, raw_value: "8000G100".to_string() }
    );
}

#[test]
fn address_of_more_than_32_bits_is_invalid() {
    let error = LinkTable::parse("100000000:big").err().unwrap();
    assert_eq!(
        error,
        LoadError::InvalidAddress { line_number: 1, raw_value: "100000000".to_string() }
    );
    let load = LinkTable::parse("FFFFFFFF:top").unwrap();
    assert_eq!(load.table.address_of("top"), Some(u32::MAX));
}

#[test]
fn empty_address_is_invalid() {
    let error = LinkTable::parse(":name").err().unwrap();
    assert_eq!(error, LoadError::InvalidAddress { line_number: 1, raw_value: String::new() });
    let error = LinkTable::parse("+:name").err().unwrap();
    assert_eq!(error, LoadError::InvalidAddress { line_number: 1, raw_value: "+".to_string() });
    let error = LinkTable::parse("-1:name").err().unwrap();
    assert_eq!(error, LoadError::InvalidAddress { line_number: 1, raw_value: "-1".to_string() });
}

#[test]
fn plus_sign_lower_case_and_leading_zeros_are_read() {
    let load = LinkTable::parse("+00ff:a\n00000000000000ab:b\n").unwrap();
    assert_eq!(load.table.entries(), &vec![entry(0xFF, "a"), entry(0xAB, "b")]);
    assert_eq!(
        load.warnings,
        vec![
            LoadWarning::AddressWidth { line_number: 1, raw_value: "+00ff".to_string() },
            LoadWarning::AddressWidth {
                line_number: 2,
                raw_value: "00000000000000ab".to_string()
            },
        ]
    );
}

#[test]
fn name_is_everything_behind_the_first_colon() {
    let load = LinkTable::parse("80003100:ns::item").unwrap();
    assert_eq!(load.table.entries(), &vec![entry(0x8000_3100, "ns::item")]);
}

#[test]
fn empty_name_is_malformed() {
    let error = LinkTable::parse("80003100:").err().unwrap();
    assert_eq!(
        error,
        LoadError::MalformedLine { line_number: 1, raw_line: "80003100:".to_string() }
    );
}

#[test]
fn empty_lines_at_the_end_are_passed_over() {
    let load = LinkTable::parse("80003100:a\r\n80003200:b\n\n\r\n\n").unwrap();
    assert_eq!(load.table.entries(), &vec![entry(0x8000_3100, "a"), entry(0x8000_3200, "b")]);
    assert!(load.warnings.is_empty());
}

#[test]
fn empty_line_before_an_entry_is_malformed() {
    let error = LinkTable::parse("80003100:a\n\n80003200:b\n").err().unwrap();
    assert_eq!(error, LoadError::MalformedLine { line_number: 2, raw_line: String::new() });
}

#[test]
fn empty_text_is_an_empty_table() {
    let load = LinkTable::parse("").unwrap();
    assert_eq!(load.table.len(), 0);
    assert_eq!(load.table.to_text(), "");
    assert_eq!(load.table.address_of("anything"), None);
}

#[test]
fn lookup_finds_each_name() {
    let load = LinkTable::parse("80003100:a\n80003200:b\n80003300:c\n").unwrap();
    assert_eq!(load.table.address_of("a"), Some(0x8000_3100));
    assert_eq!(load.table.address_of("b"), Some(0x8000_3200));
    assert_eq!(load.table.address_of("c"), Some(0x8000_3300));
    assert_eq!(load.table.address_of("d"), None);
    assert_eq!(load.table.address_of(""), None);
}

#[test]
fn canonical_text_round_trips() {
    let text = "0000000A:evFunction\n80003100:HSD_MemAlloc\nFFFFFFFF:last:one\n";
    let load = LinkTable::parse(text).unwrap();
    assert!(load.warnings.is_empty());
    assert_eq!(load.table.to_text(), text);
    let again = LinkTable::parse(&load.table.to_text()).unwrap();
    assert_eq!(again.table.entries(), load.table.entries());
}

#[test]
fn round_trip_reproduces_the_lines_without_a_final_line_feed() {
    let text = "0000000A:evFunction\r\n80003100:HSD_MemAlloc";
    let load = LinkTable::parse(text).unwrap();
    let written = load.table.to_text();
    assert_eq!(
        written.lines().collect::<Vec<_>>(),
        text.lines().collect::<Vec<_>>()
    );
}

#[test]
fn writing_uses_eight_upper_case_digits() {
    let load = LinkTable::parse("ab:x\n").unwrap();
    assert_eq!(load.table.to_text(), "000000AB:x\n");
    assert_eq!(format_address(0), "00000000");
    assert_eq!(format_address(0x1234_ABCD), "1234ABCD");
    assert_eq!(format_address(u32::MAX), "FFFFFFFF");
}

#[test]
fn path_with_link_extension_gives_no_warning() {
    assert_eq!(link_path_warning("tables/game.link"), None);
    let load = LinkTable::load("game.link", "A:foo").unwrap();
    assert_eq!(
        load.warnings,
        vec![LoadWarning::AddressWidth { line_number: 1, raw_value: "A".to_string() }]
    );
}

#[test]
fn path_without_extension_gives_a_warning() {
    assert_eq!(link_path_warning("tables/game"), Some(LoadWarning::MissingExtension));
    assert_eq!(link_path_warning("tables.d/game"), Some(LoadWarning::MissingExtension));
    assert_eq!(link_path_warning(".link"), Some(LoadWarning::MissingExtension));
}

#[test]
fn path_with_other_extension_gives_a_warning_and_loads() {
    assert_eq!(
        link_path_warning("game.txt"),
        Some(LoadWarning::UnexpectedExtension { found: "txt".to_string() })
    );
    let load = LinkTable::load("game.txt", "A:foo\n80003100:bar\n").unwrap();
    assert_eq!(
        load.warnings,
        vec![
            LoadWarning::UnexpectedExtension { found: "txt".to_string() },
            LoadWarning::AddressWidth { line_number: 1, raw_value: "A".to_string() },
        ]
    );
    assert_eq!(load.table.len(), 2);
}

#[test]
fn load_reports_the_fault_of_the_text() {
    let error = LinkTable::load("game.link", "garbage").err().unwrap();
    assert_eq!(
        error,
        LoadError::MalformedLine { line_number: 1, raw_line: "garbage".to_string() }
    );
}
