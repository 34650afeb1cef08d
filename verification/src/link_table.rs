//! The link table: the names of a target image and the addresses at which
//! they are fixed.

use vstd::prelude::*;
use vstd::hash_map::StringHashMap;
use vstd::slice::slice_subrange;
use vstd::string::StrSliceExecFns;
use crate::hex::{hex_u32, parse_hex_u32, push_hex_digits, upper_hex};
use crate::load::{
    LoadError, LoadErrorView, LoadWarning, LoadWarningView, link_path_warning, path_warning,
    warning_views,
};
use crate::paths::push_chars;
use crate::text::{Span, chars_of, find_first, line_spans, lines_of, string_of};

verus! {

/// One name of the target image and the address at which it is fixed.
#[derive(Clone, Debug, PartialEq, Eq)]
pub struct LinkEntry {
    pub address: u32,
    pub name: String,
}

/// The mathematical value of a `LinkEntry`.
pub struct LinkEntryView {
    pub address: u32,
    pub name: Seq<char>,
}

impl View for LinkEntry {
    type V = LinkEntryView;

    open spec fn view(&self) -> LinkEntryView {
        LinkEntryView { address: self.address, name: self.name@ }
    }
}

/// The values of a list of entries, in order.
pub open spec fn entry_views(entries: Seq<LinkEntry>) -> Seq<LinkEntryView> {
    entries.map_values(|e: LinkEntry| e@)
}

/// What one line of a link table holds.
pub enum LineReading {
    /// An address, as a number and as written, and a name.
    Entry { address: u32, name: Seq<char>, raw_address: Seq<char> },
    /// No `:`, or nothing behind it.
    Malformed,
    /// A `:` and a name, but no address before them.
    BadAddress { raw_value: Seq<char> },
}

/// Reads one line: the address stands before the first `:`, the name is
/// everything behind it and is not empty.
pub open spec fn read_line(line: Seq<char>) -> LineReading {
    match line.index_of_first(':') {
        None => LineReading::Malformed,
        Some(k) => {
            let raw = line.take(k);
            let name = line.skip(k + 1);
            if name.len() == 0 {
                LineReading::Malformed
            } else {
                match hex_u32(raw) {
                    None => LineReading::BadAddress { raw_value: raw },
                    Some(address) => LineReading::Entry { address, name, raw_address: raw },
                }
            }
        },
    }
}

/// One line of a link table, read.
#[derive(Clone, Debug, PartialEq, Eq)]
pub enum LinkLine {
    Entry { address: u32, name: String, raw_address: String },
    Malformed,
    BadAddress { raw_value: String },
}

impl View for LinkLine {
    type V = LineReading;

    open spec fn view(&self) -> LineReading {
        match self {
            LinkLine::Entry { address, name, raw_address } => LineReading::Entry {
                address: *address,
                name: name@,
                raw_address: raw_address@,
            },
            LinkLine::Malformed => LineReading::Malformed,
            LinkLine::BadAddress { raw_value } => LineReading::BadAddress { raw_value: raw_value@ },
        }
    }
}

/// Reads one line of a link table.
pub fn parse_line(line: &[char]) -> (r: LinkLine)
    ensures
        r@ == read_line(line@),
{
    match find_first(line, ':') {
        None => LinkLine::Malformed,
        Some(k) => {
            let len: usize = line.len();
            let raw = slice_subrange(line, 0, k);
            let name = slice_subrange(line, k + 1, len);
            assert(raw@ == line@.take(k as int));
            assert(name@ == line@.skip(k + 1));
            if name.len() == 0 {
                LinkLine::Malformed
            } else {
                match parse_hex_u32(raw) {
                    None => LinkLine::BadAddress { raw_value: string_of(raw) },
                    Some(address) => LinkLine::Entry {
                        address,
                        name: string_of(name),
                        raw_address: string_of(raw),
                    },
                }
            }
        },
    }
}

/// The number of lines up to the last line that is not empty.
pub open spec fn content_len(lines: Seq<Seq<char>>) -> nat
    decreases lines.len(),
{
    if lines.len() == 0 {
        0
    } else if lines.last().len() == 0 {
        content_len(lines.drop_last())
    } else {
        lines.len()
    }
}

/// The lines of a link table that are read: all but the empty lines at its
/// end.
pub open spec fn content_lines(text: Seq<char>) -> Seq<Seq<char>> {
    let lines = lines_of(text);
    lines.take(content_len(lines) as int)
}

/// The name on `line`, where the line holds an entry.
pub open spec fn entry_name(line: Seq<char>) -> Option<Seq<char>> {
    match read_line(line) {
        LineReading::Entry { name, .. } => Some(name),
        _ => None,
    }
}

/// The entry on `line`, where the line holds one.
pub open spec fn entry_of(line: Seq<char>) -> LinkEntryView {
    match read_line(line) {
        LineReading::Entry { address, name, .. } => LinkEntryView { address, name },
        _ => LinkEntryView { address: 0, name: Seq::<char>::empty() },
    }
}

/// Whether a line before line `i` gives `name` an address.
pub open spec fn name_taken(lines: Seq<Seq<char>>, i: int, name: Seq<char>) -> bool {
    exists|j: int| 0 <= j < i && entry_name(#[trigger] lines[j]) == Some(name)
}

/// What is wrong with line `i`, if anything. Lines are numbered from 1.
pub open spec fn line_fault(lines: Seq<Seq<char>>, i: int) -> Option<LoadErrorView> {
    match read_line(lines[i]) {
        LineReading::Malformed => Some(
            LoadErrorView::MalformedLine { line_number: i + 1, raw_line: lines[i] },
        ),
        LineReading::BadAddress { raw_value } => Some(
            LoadErrorView::InvalidAddress { line_number: i + 1, raw_value },
        ),
        LineReading::Entry { name, .. } => if name_taken(lines, i, name) {
            Some(LoadErrorView::DuplicateSymbol { name })
        } else {
            None
        },
    }
}

/// The warning that line `i` gives rise to: its address is valid, but not
/// written with eight characters.
pub open spec fn width_warning(lines: Seq<Seq<char>>, i: int) -> Option<LoadWarningView> {
    match read_line(lines[i]) {
        LineReading::Entry { raw_address, .. } => if raw_address.len() != 8 {
            Some(LoadWarningView::AddressWidth { line_number: i + 1, raw_value: raw_address })
        } else {
            None
        },
        _ => None,
    }
}

/// The warnings of the first `k` lines, in order.
pub open spec fn width_warnings(lines: Seq<Seq<char>>, k: int) -> Seq<LoadWarningView>
    decreases k,
{
    if k <= 0 {
        Seq::<LoadWarningView>::empty()
    } else {
        match width_warning(lines, k - 1) {
            Some(w) => width_warnings(lines, k - 1).push(w),
            None => width_warnings(lines, k - 1),
        }
    }
}

/// The warnings that the lines of `text` give, in order.
pub open spec fn line_warnings(text: Seq<char>) -> Seq<LoadWarningView> {
    width_warnings(content_lines(text), content_lines(text).len() as int)
}

/// The entries on `lines`, in order.
pub open spec fn entries_of(lines: Seq<Seq<char>>) -> Seq<LinkEntryView> {
    Seq::new(lines.len(), |i: int| entry_of(lines[i]))
}

/// Whether `text` is a link table: no line of it has a fault.
pub open spec fn faultless(text: Seq<char>) -> bool {
    forall|i: int|
        0 <= i < content_lines(text).len() ==> #[trigger] line_fault(content_lines(text), i) is None
}

/// `text` is a link table with these entries and these warnings.
pub open spec fn loads_as(
    text: Seq<char>,
    entries: Seq<LinkEntryView>,
    warnings: Seq<LoadWarningView>,
) -> bool {
    &&& faultless(text)
    &&& entries == entries_of(content_lines(text))
    &&& warnings == line_warnings(text)
}

/// `text` is no link table, and `error` says what is wrong with the first
/// line that has a fault.
pub open spec fn fails_with(text: Seq<char>, error: LoadErrorView) -> bool {
    let lines = content_lines(text);
    exists|i: int|
        {
            &&& 0 <= i < lines.len()
            &&& #[trigger] line_fault(lines, i) == Some(error)
            &&& forall|j: int| 0 <= j < i ==> #[trigger] line_fault(lines, j) is None
        }
}

/// What holds of the entries of every link table: each has a name, and no
/// two have the same.
pub open spec fn well_formed(entries: Seq<LinkEntryView>) -> bool {
    &&& forall|i: int| 0 <= i < entries.len() ==> (#[trigger] entries[i]).name.len() > 0
    &&& forall|i: int, j: int|
        0 <= i < entries.len() && 0 <= j < entries.len() && i != j ==> (#[trigger] entries[i]).name
            != (#[trigger] entries[j]).name
}

/// The names of `entries`, in order.
pub open spec fn entry_names(entries: Seq<LinkEntryView>) -> Seq<Seq<char>> {
    entries.map_values(|e: LinkEntryView| e.name)
}

/// The address that `entries` gives to `name`.
pub open spec fn lookup(entries: Seq<LinkEntryView>, name: Seq<char>) -> Option<u32> {
    match entry_names(entries).index_of_first(name) {
        Some(i) => Some(entries[i].address),
        None => None,
    }
}

/// An entry as a line of a link table: the address with eight upper-case
/// digits, a `:`, the name.
pub open spec fn format_entry(entry: LinkEntryView) -> Seq<char> {
    upper_hex(entry.address).push(':') + entry.name
}

/// `entries` as the text of a link table: one line for each, every line
/// closed by a line feed.
pub open spec fn format_entries(entries: Seq<LinkEntryView>) -> Seq<char>
    decreases entries.len(),
{
    if entries.len() == 0 {
        Seq::<char>::empty()
    } else {
        format_entries(entries.drop_last()) + format_entry(entries.last()).push('\n')
    }
}

/// The names of a target image with their addresses, in the order of the
/// file that they were read from.
pub struct LinkTable {
    entries: Vec<LinkEntry>,
    index: StringHashMap<u32>,
}

/// A link table together with the warnings that reading it gave.
pub struct LinkLoad {
    pub table: LinkTable,
    pub warnings: Vec<LoadWarning>,
}

impl View for LinkTable {
    type V = Seq<LinkEntryView>;

    closed spec fn view(&self) -> Seq<LinkEntryView> {
        entry_views(self.entries@)
    }
}

/// Whether `index` maps the name of each of `entries` to its address, and
/// no other name to anything.
spec fn indexed(entries: Seq<LinkEntry>, index: Map<Seq<char>, u32>) -> bool {
    &&& forall|i: int|
        0 <= i < entries.len() ==> index.contains_key((#[trigger] entries[i]).name@)
            && index[entries[i].name@] == entries[i].address
    &&& forall|name: Seq<char>| #[trigger]
        index.contains_key(name) ==> exists|i: int|
            0 <= i < entries.len() && (#[trigger] entries[i]).name@ == name
}

/// The number of spans up to the last one that is not empty.
fn content_count(spans: &Vec<Span>, Ghost(lines): Ghost<Seq<Seq<char>>>) -> (n: usize)
    requires
        spans@.len() == lines.len(),
        forall|i: int|
            0 <= i < spans@.len() ==> (#[trigger] spans@[i]).start <= spans@[i].end
                && spans@[i].end - spans@[i].start == lines[i].len(),
    ensures
        n == content_len(lines),
        n <= spans@.len(),
{
    let mut n: usize = spans.len();
    proof {
        assert(lines.take(n as int) == lines);
    }
    while n > 0 && spans[n - 1].start == spans[n - 1].end
        invariant
            n <= spans@.len(),
            spans@.len() == lines.len(),
            forall|i: int|
                0 <= i < spans@.len() ==> (#[trigger] spans@[i]).start <= spans@[i].end
                    && spans@[i].end - spans@[i].start == lines[i].len(),
            content_len(lines) == content_len(lines.take(n as int)),
        decreases n,
    {
        proof {
            assert(lines.take(n as int).last() == lines[n - 1]);
            assert(lines.take(n as int).drop_last() == lines.take(n - 1));
        }
        n -= 1;
    }
    proof {
        if n > 0 {
            assert(lines.take(n as int).last() == lines[n - 1]);
        }
    }
    n
}

/// A copy of `warning`.
fn copy_warning(warning: &LoadWarning) -> (r: LoadWarning)
    ensures
        r@ == warning@,
{
    match warning {
        LoadWarning::AddressWidth { line_number, raw_value } => LoadWarning::AddressWidth {
            line_number: *line_number,
            raw_value: raw_value.clone(),
        },
        LoadWarning::MissingExtension => LoadWarning::MissingExtension,
        LoadWarning::UnexpectedExtension { found } => LoadWarning::UnexpectedExtension {
            found: found.clone(),
        },
    }
}

impl LinkTable {
    #[verifier::type_invariant]
    spec fn inv(&self) -> bool {
        &&& well_formed(entry_views(self.entries@))
        &&& indexed(self.entries@, self.index@)
    }

    /// Reads the text of a link table: one entry on each line, written as
    /// an address in base 16, a `:` and a name. Empty lines at the end are
    /// passed over. The first line with a fault ends the reading.
    pub fn parse(text: &str) -> (r: Result<LinkLoad, LoadError>)
        ensures
            match r {
                Ok(load) => loads_as(text@, load.table@, warning_views(load.warnings@))
                    && well_formed(load.table@),
                Err(e) => fails_with(text@, e@),
            },
    {
        let chars = chars_of(text);
        let spans = line_spans(chars.as_slice());
        let ghost all = lines_of(text@);
        proof {
            assert forall|i: int| 0 <= i < spans@.len() implies (#[trigger] spans@[i]).start
                <= spans@[i].end && spans@[i].end - spans@[i].start == all[i].len() by {
                assert(chars@.subrange(spans@[i].start as int, spans@[i].end as int) == all[i]);
            }
        }
        let count = content_count(&spans, Ghost(all));
        let ghost lines = content_lines(text@);
        let mut entries: Vec<LinkEntry> = Vec::new();
        let mut index: StringHashMap<u32> = StringHashMap::new();
        let mut warnings: Vec<LoadWarning> = Vec::new();
        let mut i: usize = 0;
        while i < count
            invariant
                i <= count <= spans@.len(),
                chars@ == text@,
                lines == content_lines(text@),
                lines.len() == count,
                forall|k: int|
                    0 <= k < count ==> {
                        &&& (#[trigger] spans@[k]).start <= spans@[k].end <= chars@.len()
                        &&& chars@.subrange(spans@[k].start as int, spans@[k].end as int)
                            == lines[k]
                    },
                entries@.len() == i,
                forall|k: int| 0 <= k < i ==> (#[trigger] entries@[k])@ == entry_of(lines[k]),
                forall|k: int| 0 <= k < i ==> #[trigger] line_fault(lines, k) is None,
                indexed(entries@, index@),
                warning_views(warnings@) == width_warnings(lines, i as int),
            decreases count - i,
        {
            let span = spans[i];
            let line = slice_subrange(chars.as_slice(), span.start, span.end);
            assert(line@ == lines[i as int]);
            match parse_line(line) {
                LinkLine::Malformed => {
                    let raw_line = string_of(line);
                    return Err(LoadError::MalformedLine { line_number: i + 1, raw_line });
                },
                LinkLine::BadAddress { raw_value } => {
                    return Err(LoadError::InvalidAddress { line_number: i + 1, raw_value });
                },
                LinkLine::Entry { address, name, raw_address } => {
                    if index.contains_key(name.as_str()) {
                        proof {
                            let k = choose|k: int|
                                0 <= k < entries@.len() && (#[trigger] entries@[k]).name@ == name@;
                            assert(entries@[k]@ == entry_of(lines[k]));
                            assert(line_fault(lines, k) is None);
                            assert(entry_name(lines[k]) == Some(name@));
                            assert(name_taken(lines, i as int, name@));
                        }
                        return Err(LoadError::DuplicateSymbol { name });
                    }
                    proof {
                        if name_taken(lines, i as int, name@) {
                            let j = choose|j: int|
                                0 <= j < i && entry_name(#[trigger] lines[j]) == Some(name@);
                            assert(entries@[j]@ == entry_of(lines[j]));
                            assert(index@.contains_key(entries@[j].name@));
                        }
                        assert(line_fault(lines, i as int) is None);
                    }
                    let ghost old_warnings = warnings@;
                    if raw_address.as_str().unicode_len() != 8 {
                        warnings.push(
                            LoadWarning::AddressWidth { line_number: i + 1, raw_value: raw_address },
                        );
                        proof {
                            assert(warning_views(warnings@) == warning_views(old_warnings).push(
                                warnings@.last()@,
                            ));
                        }
                    }
                    let ghost old_entries = entries@;
                    let ghost old_index = index@;
                    index.insert(name.clone(), address);
                    entries.push(LinkEntry { address, name });
                    proof {
                        let added = entries@.last();
                        assert(added@ == entry_of(lines[i as int]));
                        assert forall|k: int| 0 <= k < entries@.len() implies index@.contains_key(
                            (#[trigger] entries@[k]).name@,
                        ) && index@[entries@[k].name@] == entries@[k].address by {
                            if k < i {
                                assert(entries@[k] == old_entries[k]);
                                assert(old_index.contains_key(old_entries[k].name@));
                            }
                        }
                        assert forall|n: Seq<char>| #[trigger]
                            index@.contains_key(n) implies exists|k: int|
                            0 <= k < entries@.len() && (#[trigger] entries@[k]).name@ == n by {
                            if n == added.name@ {
                                assert(entries@[i as int].name@ == n);
                            } else {
                                assert(old_index.contains_key(n));
                                let k = choose|k: int|
                                    0 <= k < old_entries.len() && (#[trigger] old_entries[k]).name@
                                        == n;
                                assert(entries@[k].name@ == n);
                            }
                        }
                    }
                },
            }
            i += 1;
        }
        proof {
            let views = entry_views(entries@);
            assert(views == entries_of(lines));
            assert forall|a: int, b: int|
                0 <= a < views.len() && 0 <= b < views.len() && a != b implies (#[trigger] views[a]).name
                != (#[trigger] views[b]).name by {
                let (lo, hi) = if a < b {
                    (a, b)
                } else {
                    (b, a)
                };
                assert(line_fault(lines, lo) is None);
                assert(line_fault(lines, hi) is None);
                if views[a].name == views[b].name {
                    assert(entry_name(lines[lo]) == Some(views[hi].name));
                    assert(name_taken(lines, hi, views[hi].name));
                }
            }
            assert forall|a: int| 0 <= a < views.len() implies (#[trigger] views[a]).name.len()
                > 0 by {
                assert(line_fault(lines, a) is None);
            }
        }
        Ok(LinkLoad { table: LinkTable { entries, index }, warnings })
    }

    /// Loads the link table that was read from the file at `path` as
    /// `text`. A path whose extension is not `link` gives a warning, which
    /// comes before those of the lines.
    pub fn load(path: &str, text: &str) -> (r: Result<LinkLoad, LoadError>)
        ensures
            match r {
                Ok(load) => {
                    &&& loads_as(text@, load.table@, line_warnings(text@))
                    &&& warning_views(load.warnings@) == match path_warning(path@) {
                        Some(w) => seq![w] + line_warnings(text@),
                        None => line_warnings(text@),
                    }
                    &&& well_formed(load.table@)
                },
                Err(e) => fails_with(text@, e@),
            },
    {
        match LinkTable::parse(text) {
            Err(e) => Err(e),
            Ok(parsed) => {
                let ghost read = warning_views(parsed.warnings@);
                match link_path_warning(path) {
                    None => Ok(parsed),
                    Some(first) => {
                        let mut warnings: Vec<LoadWarning> = Vec::new();
                        warnings.push(first);
                        let mut i: usize = 0;
                        while i < parsed.warnings.len()
                            invariant
                                i <= parsed.warnings@.len(),
                                read == warning_views(parsed.warnings@),
                                warnings@.len() == i + 1,
                                warnings@[0] == first,
                                forall|k: int|
                                    1 <= k < i + 1 ==> (#[trigger] warnings@[k])@ == read[k - 1],
                            decreases parsed.warnings@.len() - i,
                        {
                            warnings.push(copy_warning(&parsed.warnings[i]));
                            i += 1;
                        }
                        proof {
                            let all = warning_views(warnings@);
                            let wanted = seq![first@] + read;
                            assert(all.len() == wanted.len());
                            assert forall|k: int| 0 <= k < all.len() implies all[k]
                                == wanted[k] by {
                                if k >= 1 {
                                    assert(warnings@[k]@ == read[k - 1]);
                                }
                            }
                            assert(all == wanted);
                        }
                        Ok(LinkLoad { table: parsed.table, warnings })
                    },
                }
            },
        }
    }

    /// The entries, in the order of the file.
    pub fn entries(&self) -> (r: &Vec<LinkEntry>)
        ensures
            entry_views(r@) == self@,
            well_formed(self@),
    {
        proof {
            use_type_invariant(self);
        }
        &self.entries
    }

    /// The number of entries.
    pub fn len(&self) -> (n: usize)
        ensures
            n == self@.len(),
    {
        self.entries.len()
    }

    /// The address at which `name` is fixed.
    pub fn address_of(&self, name: &str) -> (r: Option<u32>)
        ensures
            r == lookup(self@, name@),
            well_formed(self@),
    {
        proof {
            use_type_invariant(self);
            entry_names(self@).index_of_first_ensures(name@);
        }
        match self.index.get(name) {
            Some(address) => {
                proof {
                    let k = choose|k: int|
                        0 <= k < self.entries@.len() && (#[trigger] self.entries@[k]).name@
                            == name@;
                    assert(entry_names(self@)[k] == name@);
                    let first = entry_names(self@).index_of_first(name@).unwrap();
                    assert(self@[first].name == self@[k].name);
                    assert(first == k);
                }
                Some(*address)
            },
            None => {
                proof {
                    if entry_names(self@).contains(name@) {
                        let k = choose|k: int|
                            0 <= k < entry_names(self@).len() && entry_names(self@)[k] == name@;
                        assert(self.index@.contains_key(self.entries@[k].name@));
                    }
                }
                None
            },
        }
    }

    /// The table as text, one line for each entry.
    pub fn to_text(&self) -> (r: String)
        ensures
            r@ == format_entries(self@),
    {
        let mut out = String::new();
        let mut i: usize = 0;
        while i < self.entries.len()
            invariant
                i <= self.entries@.len(),
                out@ == format_entries(self@.take(i as int)),
            decreases self.entries@.len() - i,
        {
            let entry = &self.entries[i];
            let ghost before = out@;
            push_hex_digits(&mut out, entry.address, 8);
            out.push(':');
            let name = chars_of(entry.name.as_str());
            push_chars(&mut out, name.as_slice());
            out.push('\n');
            proof {
                let now = self@.take(i + 1);
                assert(now.drop_last() == self@.take(i as int));
                assert(now.last() == entry@);
                assert(out@ == before + format_entry(entry@).push('\n'));
            }
            i += 1;
        }
        proof {
            assert(self@.take(self@.len() as int) == self@);
        }
        out
    }
}

/// What reading a text reports is determined by the text: a text with a
/// fault is no link table, and the error is that of its first faulty line.
pub proof fn lemma_fault_is_determined(text: Seq<char>, first: LoadErrorView, second: LoadErrorView)
    requires
        fails_with(text, first),
    ensures
        !faultless(text),
        fails_with(text, second) ==> first == second,
{
    let lines = content_lines(text);
    let i = choose|i: int|
        {
            &&& 0 <= i < lines.len()
            &&& #[trigger] line_fault(lines, i) == Some(first)
            &&& forall|j: int| 0 <= j < i ==> #[trigger] line_fault(lines, j) is None
        };
    assert(line_fault(lines, i) is Some);
    if fails_with(text, second) {
        let k = choose|k: int|
            {
                &&& 0 <= k < lines.len()
                &&& #[trigger] line_fault(lines, k) == Some(second)
                &&& forall|j: int| 0 <= j < k ==> #[trigger] line_fault(lines, j) is None
            };
        if i < k {
            assert(line_fault(lines, i) is None);
        }
        if k < i {
            assert(line_fault(lines, k) is None);
        }
    }
}

} // verus!
