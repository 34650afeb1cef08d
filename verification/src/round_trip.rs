//! Reading a link table and writing it back gives the same lines.

use vstd::prelude::*;
use crate::hex::{
    hex_u32, hex_value, is_upper_digit, lemma_eight_digits_fit, lemma_hex_value_bounds,
    lemma_read_write, lemma_u32_fits, lemma_write_read, upper_hex,
};
use crate::link_table::{
    LineReading, LinkEntryView, content_len, content_lines, entries_of, entry_name, entry_of,
    format_entries, format_entry, line_fault, loads_as, name_taken, read_line, well_formed,
    width_warning, width_warnings,
};
use crate::load::LoadWarningView;
use crate::text::{lemma_segments_nonempty, lines_of, segments, without_carriage_return};

verus! {

/// A line in the form in which a link table is written: eight upper-case
/// digits, a `:`, and a name that a carriage return does not end.
pub open spec fn canonical_line(line: Seq<char>) -> bool {
    &&& line.len() > 9
    &&& forall|i: int| 0 <= i < 8 ==> is_upper_digit(#[trigger] line[i])
    &&& line[8] == ':'
    &&& line.last() != '\r'
}

/// A text in the form in which a link table is written: every line is
/// canonical, and no two lines hold the same name.
pub open spec fn canonical_text(text: Seq<char>) -> bool {
    let lines = lines_of(text);
    &&& forall|i: int| 0 <= i < lines.len() ==> canonical_line(#[trigger] lines[i])
    &&& forall|i: int, j: int|
        0 <= i < j < lines.len() ==> (#[trigger] lines[i]).skip(9) != (#[trigger] lines[j]).skip(9)
}

/// No piece of a text holds a line feed.
pub proof fn lemma_segments_hold_no_line_feed(text: Seq<char>)
    ensures
        forall|i: int, k: int|
            0 <= i < segments(text).len() && 0 <= k < segments(text)[i].len() ==> segments(
                text,
            )[i][k] != '\n',
    decreases text.len(),
{
    if text.len() > 0 {
        lemma_segments_hold_no_line_feed(text.drop_last());
        lemma_segments_nonempty(text.drop_last());
    }
}

/// No line of a text holds a line feed.
pub proof fn lemma_lines_hold_no_line_feed(text: Seq<char>)
    ensures
        forall|i: int, k: int|
            0 <= i < lines_of(text).len() && 0 <= k < lines_of(text)[i].len() ==> lines_of(
                text,
            )[i][k] != '\n',
{
    lemma_segments_hold_no_line_feed(text);
    lemma_segments_nonempty(text);
    let pieces = segments(text);
    assert forall|i: int, k: int|
        0 <= i < lines_of(text).len() && 0 <= k < lines_of(text)[i].len() implies lines_of(
        text,
    )[i][k] != '\n' by {
        if i < pieces.len() - 1 {
            let piece = pieces[i];
            assert(lines_of(text)[i] == without_carriage_return(piece));
            assert(lines_of(text)[i][k] == piece[k]);
        } else {
            assert(lines_of(text)[i] == pieces[i]);
        }
    }
}

/// Text without a line feed, put behind another text, lengthens its last
/// piece.
pub proof fn lemma_segments_of_appended(text: Seq<char>, more: Seq<char>)
    requires
        forall|k: int| 0 <= k < more.len() ==> more[k] != '\n',
    ensures
        segments(text).len() >= 1,
        segments(text + more) == segments(text).update(
            segments(text).len() - 1,
            segments(text).last() + more,
        ),
    decreases more.len(),
{
    lemma_segments_nonempty(text);
    let pieces = segments(text);
    if more.len() == 0 {
        assert(text + more == text);
        assert(pieces.last() + more == pieces.last());
        assert(pieces.update(pieces.len() - 1, pieces.last()) == pieces);
    } else {
        let front = more.drop_last();
        lemma_segments_of_appended(text, front);
        assert((text + more).drop_last() == text + front);
        assert((text + more).last() == more.last());
        let before = segments(text + front);
        assert(before.last().push(more.last()) == pieces.last() + more);
        assert(before.update(before.len() - 1, before.last().push(more.last())) == pieces.update(
            pieces.len() - 1,
            pieces.last() + more,
        ));
    }
}

/// The lines that `format_entries` writes, in order.
pub open spec fn formatted_lines(entries: Seq<LinkEntryView>) -> Seq<Seq<char>> {
    entries.map_values(|e: LinkEntryView| format_entry(e))
}

/// The pieces of a written table are its lines and an empty piece behind
/// the last line feed.
pub proof fn lemma_segments_of_formatted(entries: Seq<LinkEntryView>)
    requires
        forall|i: int, k: int|
            0 <= i < entries.len() && 0 <= k < format_entry(entries[i]).len() ==> format_entry(
                entries[i],
            )[k] != '\n',
    ensures
        segments(format_entries(entries)) == formatted_lines(entries).push(Seq::<char>::empty()),
    decreases entries.len(),
{
    if entries.len() == 0 {
        assert(formatted_lines(entries).push(Seq::<char>::empty()) == seq![Seq::<char>::empty()]);
    } else {
        let front = entries.drop_last();
        let line = format_entry(entries.last());
        assert forall|i: int, k: int|
            0 <= i < front.len() && 0 <= k < format_entry(front[i]).len() implies format_entry(
            front[i],
        )[k] != '\n' by {
            assert(front[i] == entries[i]);
        }
        lemma_segments_of_formatted(front);
        let head = format_entries(front);
        assert forall|k: int| 0 <= k < line.len() implies line[k] != '\n' by {
            assert(format_entry(entries[entries.len() - 1])[k] != '\n');
        }
        lemma_segments_of_appended(head, line);
        let whole = head + line.push('\n');
        assert(whole == format_entries(entries));
        assert(whole.drop_last() == head + line);
        assert(whole.last() == '\n');
        assert(segments(whole) == segments(head + line).push(Seq::<char>::empty()));
        assert(Seq::<char>::empty() + line == line);
        assert(segments(head + line) == formatted_lines(front).push(line));
        assert(formatted_lines(front).push(line) == formatted_lines(entries));
    }
}

/// A canonical line holds an entry, and the entry is written as that line.
pub proof fn lemma_canonical_line(line: Seq<char>)
    requires
        canonical_line(line),
    ensures
        read_line(line) == (LineReading::Entry {
            address: hex_value(line.take(8)) as u32,
            name: line.skip(9),
            raw_address: line.take(8),
        }),
        format_entry(entry_of(line)) == line,
        entry_name(line) == Some(line.skip(9)),
{
    let raw = line.take(8);
    line.index_of_first_ensures(':');
    assert(line.contains(':'));
    let first = line.index_of_first(':').unwrap();
    if first < 8 {
        assert(is_upper_digit(line[first]));
    }
    assert(first == 8);
    assert forall|i: int| 0 <= i < raw.len() implies is_upper_digit(#[trigger] raw[i]) by {
        assert(raw[i] == line[i]);
    }
    lemma_read_write(raw);
    lemma_hex_value_bounds(raw);
    lemma_eight_digits_fit(hex_value(raw) as nat);
    assert(is_upper_digit(raw[0]));
    assert(hex_u32(raw) == Some(hex_value(raw) as u32));
    assert(upper_hex(hex_value(raw) as u32) == raw);
    assert(raw.push(':') + line.skip(9) == line);
}

/// Canonical lines give no warning.
pub proof fn lemma_canonical_lines_give_no_warning(lines: Seq<Seq<char>>, k: int)
    requires
        0 <= k <= lines.len(),
        forall|i: int| 0 <= i < lines.len() ==> canonical_line(#[trigger] lines[i]),
    ensures
        width_warnings(lines, k) == Seq::<LoadWarningView>::empty(),
    decreases k,
{
    if k > 0 {
        lemma_canonical_lines_give_no_warning(lines, k - 1);
        lemma_canonical_line(lines[k - 1]);
        assert(width_warning(lines, k - 1) is None);
    }
}

/// Where the last line is not empty, every line is read.
pub proof fn lemma_content_len_is_all(lines: Seq<Seq<char>>)
    requires
        lines.len() > 0 ==> lines.last().len() > 0,
    ensures
        content_len(lines) == lines.len(),
{
}

/// Reading a canonical text succeeds without a warning, and the table
/// that was read is written back as the very lines of the text.
pub proof fn lemma_round_trip(text: Seq<char>)
    requires
        canonical_text(text),
    ensures
        loads_as(text, entries_of(lines_of(text)), Seq::<LoadWarningView>::empty()),
        lines_of(format_entries(entries_of(lines_of(text)))) == lines_of(text),
{
    let lines = lines_of(text);
    let entries = entries_of(lines);
    if lines.len() > 0 {
        assert(canonical_line(lines[lines.len() - 1]));
    }
    lemma_content_len_is_all(lines);
    assert(lines.take(lines.len() as int) == lines);
    assert(content_lines(text) == lines);
    assert forall|i: int| 0 <= i < lines.len() implies #[trigger] line_fault(lines, i) is None by {
        lemma_canonical_line(lines[i]);
        if name_taken(lines, i, lines[i].skip(9)) {
            let j = choose|j: int|
                0 <= j < i && entry_name(#[trigger] lines[j]) == Some(lines[i].skip(9));
            lemma_canonical_line(lines[j]);
            assert(lines[j].skip(9) != lines[i].skip(9));
        }
    }
    lemma_canonical_lines_give_no_warning(lines, lines.len() as int);

    lemma_lines_hold_no_line_feed(text);
    assert forall|i: int| 0 <= i < entries.len() implies format_entry(#[trigger] entries[i])
        == lines[i] by {
        lemma_canonical_line(lines[i]);
    }
    assert forall|i: int, k: int|
        0 <= i < entries.len() && 0 <= k < format_entry(entries[i]).len() implies format_entry(
        entries[i],
    )[k] != '\n' by {
        assert(format_entry(entries[i]) == lines[i]);
        assert(lines_of(text)[i][k] != '\n');
    }
    lemma_segments_of_formatted(entries);
    assert(formatted_lines(entries) == lines);
    let written = format_entries(entries);
    let pieces = segments(written);
    assert(pieces == lines.push(Seq::<char>::empty()));
    assert(pieces.last().len() == 0);
    assert forall|i: int| 0 <= i < lines.len() implies without_carriage_return(pieces[i])
        == lines[i] by {
        assert(pieces[i] == lines[i]);
        assert(canonical_line(lines[i]));
    }
    assert(lines_of(written) == lines);
}

/// A name that can stand on a line of its own: it is not empty, holds no
/// line feed, and no carriage return ends it.
pub open spec fn writable_name(name: Seq<char>) -> bool {
    &&& name.len() > 0
    &&& name.last() != '\r'
    &&& forall|k: int| 0 <= k < name.len() ==> name[k] != '\n'
}

/// An entry with a writable name is written as a canonical line, on which
/// the entry is read.
pub proof fn lemma_written_line(entry: LinkEntryView)
    requires
        writable_name(entry.name),
    ensures
        canonical_line(format_entry(entry)),
        entry_of(format_entry(entry)) == entry,
        entry_name(format_entry(entry)) == Some(entry.name),
        width_warning(seq![format_entry(entry)], 0) is None,
        forall|k: int| 0 <= k < format_entry(entry).len() ==> format_entry(entry)[k] != '\n',
{
    let digits = upper_hex(entry.address);
    let line = format_entry(entry);
    lemma_u32_fits(entry.address);
    lemma_write_read(entry.address as nat, 8);
    assert(line.len() == 9 + entry.name.len());
    assert forall|i: int| 0 <= i < 8 implies is_upper_digit(#[trigger] line[i]) by {
        assert(line[i] == digits[i]);
    }
    assert(line[8] == ':');
    assert(line.last() == entry.name.last());
    assert(line.take(8) == digits);
    assert(line.skip(9) == entry.name);
    lemma_canonical_line(line);
    assert forall|k: int| 0 <= k < line.len() implies line[k] != '\n' by {
        if k < 8 {
            assert(is_upper_digit(line[k]));
        } else if k > 8 {
            assert(line[k] == entry.name[k - 9]);
        }
    }
}

/// Writing a table and reading the text gives the table back, without a
/// warning, where every name is writable.
pub proof fn lemma_write_then_read(entries: Seq<LinkEntryView>)
    requires
        well_formed(entries),
        forall|i: int| 0 <= i < entries.len() ==> writable_name(#[trigger] entries[i].name),
    ensures
        loads_as(format_entries(entries), entries, Seq::<LoadWarningView>::empty()),
{
    let text = format_entries(entries);
    let lines = formatted_lines(entries);
    assert forall|i: int, k: int|
        0 <= i < entries.len() && 0 <= k < format_entry(entries[i]).len() implies format_entry(
        entries[i],
    )[k] != '\n' by {
        assert(writable_name(entries[i].name));
        lemma_written_line(entries[i]);
    }
    lemma_segments_of_formatted(entries);
    let pieces = segments(text);
    assert(pieces == lines.push(Seq::<char>::empty()));
    assert forall|i: int| 0 <= i < lines.len() implies canonical_line(#[trigger] lines[i]) by {
        assert(writable_name(entries[i].name));
        lemma_written_line(entries[i]);
    }
    assert forall|i: int| 0 <= i < lines.len() implies without_carriage_return(pieces[i])
        == lines[i] by {
        assert(pieces[i] == lines[i]);
        assert(canonical_line(lines[i]));
    }
    assert(lines_of(text) == lines);
    if lines.len() > 0 {
        assert(canonical_line(lines[lines.len() - 1]));
    }
    lemma_content_len_is_all(lines);
    assert(lines.take(lines.len() as int) == lines);
    assert(content_lines(text) == lines);
    assert forall|i: int| 0 <= i < lines.len() implies entry_of(#[trigger] lines[i])
        == entries[i] && entry_name(lines[i]) == Some(entries[i].name) by {
        assert(writable_name(entries[i].name));
        lemma_written_line(entries[i]);
    }
    assert forall|i: int| 0 <= i < lines.len() implies #[trigger] line_fault(lines, i) is None by {
        assert(entry_name(lines[i]) == Some(entries[i].name));
        lemma_canonical_line(lines[i]);
        if name_taken(lines, i, entries[i].name) {
            let j = choose|j: int|
                0 <= j < i && entry_name(#[trigger] lines[j]) == Some(entries[i].name);
            assert(entry_name(lines[j]) == Some(entries[j].name));
            assert(entries[j].name != entries[i].name);
        }
    }
    lemma_canonical_lines_give_no_warning(lines, lines.len() as int);
    assert(entries_of(lines) == entries);
}

} // verus!
