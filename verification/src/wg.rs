//! The `wg` tool seen from outside: the command line of each operation, and
//! what its output means.

use crate::decimal::{decimal_text, parse_bounded, parsed_number, to_decimal};
use crate::net::{parsed_range, range_text, ranges_wf, IpRange};
use crate::peers::{with_peer, Peer, PeerTable, PeerView};
use crate::sequences::{lemma_filter_empty, lemma_filter_push};
use vstd::prelude::*;
use vstd::slice::slice_subrange;
use vstd::string::{StrSliceExecFns, StringExecFns};
use vstd::utf8::{decode_utf8, encode_utf8, encode_utf8_decode_utf8, valid_utf8};

verus! {

/// What separates the fields of a text.
#[derive(Clone, Copy, Debug, PartialEq, Eq, Structural)]
pub enum Separator {
    /// The line feed alone.
    Newline,
    /// Any ASCII whitespace: tab, line feed, form feed, carriage return,
    /// space.
    Whitespace,
}

impl Separator {
    /// True when byte `b` separates fields.
    pub open spec fn splits(self, b: u8) -> bool {
        match self {
            Separator::Newline => b == 10,
            Separator::Whitespace => b == 9 || b == 10 || b == 12 || b == 13 || b == 32,
        }
    }

    /// Tells whether byte `b` separates fields.
    pub fn separates(self, b: u8) -> (result: bool)
        ensures
            result == self.splits(b),
    {
        match self {
            Separator::Newline => b == 10,
            Separator::Whitespace => b == 9 || b == 10 || b == 12 || b == 13 || b == 32,
        }
    }
}

/// The number of bytes at the start of `s` before the first separator.
pub open spec fn run_len(s: Seq<u8>, sep: Separator) -> nat
    decreases s.len(),
{
    if s.len() == 0 || sep.splits(s[0]) {
        0
    } else {
        1 + run_len(s.skip(1), sep)
    }
}

/// The fields of `s`: its maximal runs of bytes that are no separators, in
/// order. No field is empty.
pub open spec fn fields(s: Seq<u8>, sep: Separator) -> Seq<Seq<u8>>
    decreases s.len(),
    via fields_decreases
{
    if s.len() == 0 {
        Seq::<Seq<u8>>::empty()
    } else if sep.splits(s[0]) {
        fields(s.skip(1), sep)
    } else {
        seq![s.take(run_len(s, sep) as int)] + fields(s.skip(run_len(s, sep) as int), sep)
    }
}

#[via_fn]
proof fn fields_decreases(s: Seq<u8>, sep: Separator) {
    lemma_run_len_bounds(s, sep);
}

/// A run is no longer than the text and ends at a separator or at the end;
/// it is not empty when the text starts with a byte that is no separator.
pub proof fn lemma_run_len_bounds(s: Seq<u8>, sep: Separator)
    ensures
        run_len(s, sep) <= s.len(),
        s.len() > 0 && !sep.splits(s[0]) ==> run_len(s, sep) >= 1,
        forall|i: int| 0 <= i < run_len(s, sep) ==> !sep.splits(#[trigger] s[i]),
        run_len(s, sep) < s.len() ==> sep.splits(s[run_len(s, sep) as int]),
    decreases s.len(),
{
    if s.len() > 0 && !sep.splits(s[0]) {
        let rest = s.skip(1);
        lemma_run_len_bounds(rest, sep);
        assert forall|i: int| 0 <= i < run_len(s, sep) implies !sep.splits(#[trigger] s[i]) by {
            if i > 0 {
                assert(s[i] == rest[i - 1]);
            }
        }
        if run_len(s, sep) < s.len() {
            assert(s[run_len(s, sep) as int] == rest[run_len(rest, sep) as int]);
        }
    }
}

/// The run at the start of `s` has length `n` when the first `n` bytes are
/// no separators and the text ends there or goes on with a separator.
pub proof fn lemma_run_len_is(s: Seq<u8>, sep: Separator, n: int)
    requires
        0 <= n <= s.len(),
        forall|i: int| 0 <= i < n ==> !sep.splits(#[trigger] s[i]),
        n < s.len() ==> sep.splits(s[n]),
    ensures
        run_len(s, sep) == n,
    decreases n,
{
    if n > 0 {
        let rest = s.skip(1);
        assert forall|i: int| 0 <= i < n - 1 implies !sep.splits(#[trigger] rest[i]) by {
            assert(rest[i] == s[i + 1]);
        }
        lemma_run_len_is(rest, sep, n - 1);
        assert(!sep.splits(s[0]));
    }
}

/// The byte strings behind a sequence of slices.
pub open spec fn slice_views(slices: Seq<&[u8]>) -> Seq<Seq<u8>> {
    slices.map_values(|slice: &[u8]| slice@)
}

/// Splits `bytes` into its fields.
pub fn split_fields<'a>(bytes: &'a [u8], sep: Separator) -> (result: Vec<&'a [u8]>)
    ensures
        slice_views(result@) == fields(bytes@, sep),
{
    let mut out: Vec<&'a [u8]> = Vec::new();
    let len: usize = bytes.len();
    let mut i: usize = 0;
    assert(bytes@.skip(0) =~= bytes@);
    assert(slice_views(out@) + fields(bytes@, sep) =~= fields(bytes@, sep));
    while i < len
        invariant
            i <= len,
            len == bytes@.len(),
            fields(bytes@, sep) == slice_views(out@) + fields(bytes@.skip(i as int), sep),
        decreases len - i,
    {
        let ghost rest = bytes@.skip(i as int);
        if sep.separates(bytes[i]) {
            assert(rest.skip(1) =~= bytes@.skip(i + 1));
            i = i + 1;
        } else {
            let mut j: usize = i + 1;
            while j < len && !sep.separates(bytes[j])
                invariant
                    i < j <= len,
                    len == bytes@.len(),
                    forall|t: int| i <= t < j ==> !sep.splits(#[trigger] bytes@[t]),
                decreases len - j,
            {
                j = j + 1;
            }
            proof {
                assert forall|t: int| 0 <= t < j - i implies !sep.splits(#[trigger] rest[t]) by {
                    assert(rest[t] == bytes@[i + t]);
                }
                lemma_run_len_is(rest, sep, j - i);
                assert(rest.skip(j - i) =~= bytes@.skip(j as int));
                assert(rest.take(j - i) =~= bytes@.subrange(i as int, j as int));
            }
            let ghost before = out@;
            out.push(slice_subrange(bytes, i, j));
            assert(slice_views(out@) =~= slice_views(before).push(
                bytes@.subrange(i as int, j as int),
            ));
            assert(slice_views(before) + (seq![rest.take(j - i)] + fields(
                bytes@.skip(j as int),
                sep,
            )) =~= slice_views(out@) + fields(bytes@.skip(j as int), sep));
            i = j;
        }
    }
    assert(slice_views(out@) + Seq::<Seq<u8>>::empty() =~= slice_views(out@));
    out
}

/// The byte strings behind the rows of a table.
pub open spec fn row_views(rows: Seq<Vec<&[u8]>>) -> Seq<Seq<Seq<u8>>> {
    rows.map_values(|row: Vec<&[u8]>| slice_views(row@))
}

/// The test "this row has a cell".
pub open spec fn has_cells() -> spec_fn(Seq<Seq<u8>>) -> bool {
    |row: Seq<Seq<u8>>| row.len() > 0
}

/// The cells of a line: its fields between whitespace.
pub open spec fn cells_in() -> spec_fn(Seq<u8>) -> Seq<Seq<u8>> {
    |line: Seq<u8>| fields(line, Separator::Whitespace)
}

/// The table that a text holds: one row for each line that has a cell, and
/// in each row the cells of the line.
pub open spec fn table_of(bytes: Seq<u8>) -> Seq<Seq<Seq<u8>>> {
    fields(bytes, Separator::Newline).map_values(cells_in()).filter(has_cells())
}

/// Reads a text table: the rows are the lines, the cells of a row are
/// separated by whitespace, and lines without a cell are left out.
pub fn parse_table(bytes: &[u8]) -> (result: Vec<Vec<&[u8]>>)
    ensures
        row_views(result@) == table_of(bytes@),
{
    let lines = split_fields(bytes, Separator::Newline);
    let ghost texts = fields(bytes@, Separator::Newline);
    let mut rows: Vec<Vec<&[u8]>> = Vec::new();
    let mut k: usize = 0;
    proof {
        lemma_filter_empty(has_cells());
        assert(texts.take(0).map_values(cells_in()) =~= Seq::<Seq<Seq<u8>>>::empty());
        assert(row_views(rows@) =~= Seq::<Seq<Seq<u8>>>::empty());
    }
    while k < lines.len()
        invariant
            k <= lines.len(),
            slice_views(lines@) == texts,
            row_views(rows@) == texts.take(k as int).map_values(cells_in()).filter(has_cells()),
        decreases lines.len() - k,
    {
        let cells = split_fields(lines[k], Separator::Whitespace);
        proof {
            let done = texts.take(k as int).map_values(cells_in());
            assert(texts[k as int] == lines@[k as int]@);
            assert(texts.take(k + 1).map_values(cells_in()) =~= done.push(slice_views(cells@)));
            lemma_filter_push(done, slice_views(cells@), has_cells());
        }
        if cells.len() > 0 {
            let ghost before = rows@;
            let ghost row = slice_views(cells@);
            rows.push(cells);
            assert(row_views(rows@) =~= row_views(before).push(row));
        }
        k = k + 1;
    }
    assert(texts.take(lines.len() as int) =~= texts);
    rows
}

/// Calls `std::str::from_utf8` and copies the text. Trusted: the call
/// succeeds exactly on well-formed UTF-8, and the text it gives is the one
/// that these bytes encode.
#[verifier::external_body]
fn utf8_text(bytes: &[u8]) -> (result: Option<String>)
    ensures
        result is Some <==> valid_utf8(bytes@),
        result matches Some(text) ==> encode_utf8(text@) == bytes@,
{
    match std::str::from_utf8(bytes) {
        Ok(text) => Some(text.to_owned()),
        Err(_) => None,
    }
}

/// Reads bytes as UTF-8 text; `None` when they are not well formed.
pub fn decode(bytes: &[u8]) -> (result: Option<String>)
    ensures
        result is Some <==> valid_utf8(bytes@),
        result matches Some(text) ==> text@ == decode_utf8(bytes@),
{
    let result = utf8_text(bytes);
    proof {
        if result is Some {
            encode_utf8_decode_utf8(result->Some_0@);
        }
    }
    result
}

/// A text without the line feed at its end, if it ends in one.
pub open spec fn without_final_newline(text: Seq<char>) -> Seq<char> {
    if text.len() > 0 && text.last() == '\n' {
        text.drop_last()
    } else {
        text
    }
}

/// Reads the one-line output of a command: the bytes as text, without the
/// line feed that ends it.
pub fn strip_and_convert(bytes: &[u8]) -> (result: String)
    requires
        valid_utf8(bytes@),
    ensures
        result@ == without_final_newline(decode_utf8(bytes@)),
{
    let text = decode(bytes).unwrap();
    let len: usize = text.as_str().unicode_len();
    if len > 0 && text.as_str().get_char(len - 1) == '\n' {
        let kept = String::from_str(text.as_str().substring_char(0, len - 1));
        assert(kept@ =~= text@.drop_last());
        kept
    } else {
        text
    }
}

/// The texts of a sequence of strings, in order.
pub open spec fn string_views(strings: Seq<String>) -> Seq<Seq<char>> {
    strings.map_values(|s: String| s@)
}

/// The texts of the rows of a table of strings.
pub open spec fn string_rows(rows: Seq<Vec<String>>) -> Seq<Seq<Seq<char>>> {
    rows.map_values(|row: Vec<String>| string_views(row@))
}

/// True when every one of the byte strings is well-formed UTF-8.
pub open spec fn all_utf8(cells: Seq<Seq<u8>>) -> bool {
    forall|i: int| 0 <= i < cells.len() ==> valid_utf8(#[trigger] cells[i])
}

/// The texts that a sequence of byte strings encodes.
pub open spec fn decoded(cells: Seq<Seq<u8>>) -> Seq<Seq<char>> {
    cells.map_values(|cell: Seq<u8>| decode_utf8(cell))
}

/// Reads each of the byte strings as text.
fn decode_all(cells: &Vec<&[u8]>) -> (result: Vec<String>)
    requires
        all_utf8(slice_views(cells@)),
    ensures
        string_views(result@) == decoded(slice_views(cells@)),
{
    let mut out: Vec<String> = Vec::new();
    let mut i: usize = 0;
    while i < cells.len()
        invariant
            i <= cells.len(),
            all_utf8(slice_views(cells@)),
            string_views(out@) == decoded(slice_views(cells@).take(i as int)),
        decreases cells.len() - i,
    {
        assert(slice_views(cells@)[i as int] == cells@[i as int]@);
        let text = decode(cells[i]).unwrap();
        let ghost before = out@;
        let ghost done = slice_views(cells@).take(i as int);
        out.push(text);
        assert(string_views(out@) =~= string_views(before).push(decode_utf8(cells@[i as int]@)));
        assert(slice_views(cells@).take(i + 1) =~= done.push(cells@[i as int]@));
        assert(decoded(done.push(cells@[i as int]@)) =~= decoded(done).push(
            decode_utf8(cells@[i as int]@),
        ));
        i = i + 1;
    }
    assert(slice_views(cells@).take(cells.len() as int) =~= slice_views(cells@));
    out
}

/// Tells whether every one of the byte strings is well-formed UTF-8.
fn all_text(cells: &Vec<&[u8]>) -> (result: bool)
    ensures
        result == all_utf8(slice_views(cells@)),
{
    let mut i: usize = 0;
    while i < cells.len()
        invariant
            i <= cells.len(),
            forall|j: int| 0 <= j < i ==> valid_utf8(#[trigger] slice_views(cells@)[j]),
        decreases cells.len() - i,
    {
        assert(slice_views(cells@)[i as int] == cells@[i as int]@);
        if decode(cells[i]).is_none() {
            return false;
        }
        i = i + 1;
    }
    true
}

/// True when every cell of the table that a text holds is well-formed
/// UTF-8.
pub open spec fn table_is_utf8(bytes: Seq<u8>) -> bool {
    forall|row: int|
        0 <= row < table_of(bytes).len() ==> all_utf8(#[trigger] table_of(bytes)[row])
}

/// Tells whether every cell of the table that `bytes` holds can be read as
/// text.
pub fn table_is_text(bytes: &[u8]) -> (result: bool)
    ensures
        result == table_is_utf8(bytes@),
{
    let table = parse_table(bytes);
    let mut k: usize = 0;
    while k < table.len()
        invariant
            k <= table.len(),
            row_views(table@) == table_of(bytes@),
            forall|row: int| 0 <= row < k ==> all_utf8(#[trigger] table_of(bytes@)[row]),
        decreases table.len() - k,
    {
        assert(table_of(bytes@)[k as int] == slice_views(table@[k as int]@));
        if !all_text(&table[k]) {
            return false;
        }
        k = k + 1;
    }
    true
}

/// Tells whether every line of `bytes` that holds something can be read as
/// text.
pub fn lines_are_text(bytes: &[u8]) -> (result: bool)
    ensures
        result == all_utf8(fields(bytes@, Separator::Newline)),
{
    let lines = split_fields(bytes, Separator::Newline);
    all_text(&lines)
}

/// Reads a text table as `parse_table` does and gives each cell as text.
pub fn parse_table_strings(bytes: &[u8]) -> (result: Vec<Vec<String>>)
    requires
        table_is_utf8(bytes@),
    ensures
        string_rows(result@) == table_of(bytes@).map_values(
            |row: Seq<Seq<u8>>| decoded(row),
        ),
{
    let table = parse_table(bytes);
    let ghost cells = table_of(bytes@);
    let ghost texts = |row: Seq<Seq<u8>>| decoded(row);
    let mut out: Vec<Vec<String>> = Vec::new();
    let mut k: usize = 0;
    while k < table.len()
        invariant
            k <= table.len(),
            row_views(table@) == cells,
            texts == |row: Seq<Seq<u8>>| decoded(row),
            forall|row: int| 0 <= row < cells.len() ==> all_utf8(#[trigger] cells[row]),
            string_rows(out@) == cells.take(k as int).map_values(texts),
        decreases table.len() - k,
    {
        assert(cells[k as int] == slice_views(table@[k as int]@));
        let row = decode_all(&table[k]);
        let ghost before = out@;
        let ghost done = cells.take(k as int);
        out.push(row);
        assert(string_rows(out@) =~= string_rows(before).push(decoded(cells[k as int])));
        assert(cells.take(k + 1) =~= done.push(cells[k as int]));
        assert(done.push(cells[k as int]).map_values(texts) =~= done.map_values(texts).push(
            decoded(cells[k as int]),
        ));
        k = k + 1;
    }
    assert(cells.take(table.len() as int) =~= cells);
    out
}

/// Reads a list of keys, one to a line; empty lines are left out.
pub fn parse_peers(bytes: &[u8]) -> (result: Vec<String>)
    requires
        all_utf8(fields(bytes@, Separator::Newline)),
    ensures
        string_views(result@) == decoded(fields(bytes@, Separator::Newline)),
{
    let lines = split_fields(bytes, Separator::Newline);
    decode_all(&lines)
}

/// Reads a port number from the one-line output of a command; `None` when
/// the line is no number of 16 bits.
pub fn parse_listen_port(bytes: &[u8]) -> (result: Option<u16>)
    requires
        valid_utf8(bytes@),
    ensures
        result == match parsed_number(without_final_newline(decode_utf8(bytes@)), 0xffff) {
            Some(port) => Some(port as u16),
            None => None,
        },
{
    let text = strip_and_convert(bytes);
    match parse_bounded(text.as_str(), 0xffff) {
        Some(port) => Some(port as u16),
        None => None,
    }
}

/// One run of the `wg` tool: the program, its arguments, and the text to
/// write to its standard input, if any.
#[derive(Clone, Debug, PartialEq, Eq)]
pub struct Invocation {
    pub program: String,
    pub arguments: Vec<String>,
    pub input: Option<String>,
}

/// The mathematical value of an invocation.
pub struct InvocationView {
    pub program: Seq<char>,
    pub arguments: Seq<Seq<char>>,
    pub input: Option<Seq<char>>,
}

impl View for Invocation {
    type V = InvocationView;

    open spec fn view(&self) -> InvocationView {
        InvocationView {
            program: self.program@,
            arguments: string_views(self.arguments@),
            input: match self.input {
                Some(text) => Some(text@),
                None => None,
            },
        }
    }
}

/// The ranges of a peer as `wg` takes them: CIDR texts with commas between.
pub open spec fn ranges_text(ranges: Seq<IpRange>) -> Seq<char>
    decreases ranges.len(),
{
    if ranges.len() == 0 {
        Seq::<char>::empty()
    } else if ranges.len() == 1 {
        range_text(ranges[0])
    } else {
        ranges_text(ranges.drop_last()) + seq![','] + range_text(ranges.last())
    }
}

/// Writes a list of ranges as `wg` takes it.
pub fn join_ranges(ranges: &Vec<IpRange>) -> (result: String)
    requires
        ranges_wf(ranges@),
    ensures
        result@ == ranges_text(ranges@),
{
    let mut out = String::new();
    let mut i: usize = 0;
    assert(ranges@.take(0) =~= Seq::<IpRange>::empty());
    while i < ranges.len()
        invariant
            i <= ranges.len(),
            ranges_wf(ranges@),
            out@ == ranges_text(ranges@.take(i as int)),
        decreases ranges.len() - i,
    {
        let ghost before = out@;
        proof {
            reveal_strlit(",");
            assert(ranges@.take(i + 1).drop_last() =~= ranges@.take(i as int));
        }
        if i > 0 {
            out.append(",");
        }
        let text = ranges[i].to_text();
        out.append(text.as_str());
        proof {
            if i > 0 {
                assert(out@ =~= before + seq![','] + range_text(ranges@[i as int]));
            } else {
                assert(out@ =~= range_text(ranges@[0]));
            }
        }
        i = i + 1;
    }
    assert(ranges@.take(ranges.len() as int) =~= ranges@);
    out
}

/// A handle to the `wg` program: the path it is run by.
#[derive(Clone, Debug, PartialEq, Eq)]
pub struct Wg {
    binary_path: String,
}

impl View for Wg {
    type V = Seq<char>;

    closed spec fn view(&self) -> Seq<char> {
        self.binary_path@
    }
}

/// The run of `program` with the given arguments and nothing on its input.
pub open spec fn run_of(program: Seq<char>, arguments: Seq<Seq<char>>) -> InvocationView {
    InvocationView { program, arguments, input: None }
}

impl Wg {
    /// A handle to the program at `binary_path`.
    pub fn new(binary_path: String) -> (wg: Wg)
        ensures
            wg@ == binary_path@,
    {
        Wg { binary_path }
    }

    /// The path that the program is run by.
    pub fn binary_path(&self) -> (path: &String)
        ensures
            path@ == self@,
    {
        &self.binary_path
    }

    /// The run of the program with `arguments`.
    fn run(&self, arguments: Vec<String>) -> (call: Invocation)
        ensures
            call@ == run_of(self@, string_views(arguments@)),
    {
        Invocation { program: self.binary_path.clone(), arguments, input: None }
    }

    /// The run `show <interface> <field>`.
    fn show(&self, interface: &str, field: &str) -> (call: Invocation)
        ensures
            call@ == run_of(self@, seq!["show"@, interface@, field@]),
    {
        let mut arguments: Vec<String> = Vec::new();
        arguments.push(String::from_str("show"));
        arguments.push(String::from_str(interface));
        arguments.push(String::from_str(field));
        assert(string_views(arguments@) =~= seq!["show"@, interface@, field@]);
        self.run(arguments)
    }

    /// The run `set <interface> <field> <value>`.
    fn set(&self, interface: &str, field: &str, value: &str) -> (call: Invocation)
        ensures
            call@ == run_of(self@, seq!["set"@, interface@, field@, value@]),
    {
        let mut arguments: Vec<String> = Vec::new();
        arguments.push(String::from_str("set"));
        arguments.push(String::from_str(interface));
        arguments.push(String::from_str(field));
        arguments.push(String::from_str(value));
        assert(string_views(arguments@) =~= seq!["set"@, interface@, field@, value@]);
        self.run(arguments)
    }

    /// The run that makes a new private key. Its output is the key and a line
    /// feed.
    pub fn genkey(&self) -> (call: Invocation)
        ensures
            call@ == run_of(self@, seq!["genkey"@]),
    {
        let mut arguments: Vec<String> = Vec::new();
        arguments.push(String::from_str("genkey"));
        assert(string_views(arguments@) =~= seq!["genkey"@]);
        self.run(arguments)
    }

    /// The run that derives the public key of `privkey`, which it reads as a
    /// line on its input. Its output is the key and a line feed.
    pub fn pubkey(&self, privkey: &String) -> (call: Invocation)
        ensures
            call@ == (InvocationView {
                program: self@,
                arguments: seq!["pubkey"@],
                input: Some(privkey@ + seq!['\n']),
            }),
    {
        let mut arguments: Vec<String> = Vec::new();
        arguments.push(String::from_str("pubkey"));
        assert(string_views(arguments@) =~= seq!["pubkey"@]);
        proof {
            reveal_strlit("\n");
        }
        let line = privkey.clone().concat("\n");
        assert(line@ =~= privkey@ + seq!['\n']);
        Invocation { program: self.binary_path.clone(), arguments, input: Some(line) }
    }

    /// The run that prints the private key of `interface`.
    pub fn show_private_key(&self, interface: &str) -> (call: Invocation)
        ensures
            call@ == run_of(self@, seq!["show"@, interface@, "private-key"@]),
    {
        self.show(interface, "private-key")
    }

    /// The run that gives `interface` the private key held in the file at
    /// `path`.
    pub fn set_private_key(&self, interface: &str, path: &str) -> (call: Invocation)
        ensures
            call@ == run_of(self@, seq!["set"@, interface@, "private-key"@, path@]),
    {
        self.set(interface, "private-key", path)
    }

    /// The run that prints the port that `interface` listens on.
    pub fn show_listen_port(&self, interface: &str) -> (call: Invocation)
        ensures
            call@ == run_of(self@, seq!["show"@, interface@, "listen-port"@]),
    {
        self.show(interface, "listen-port")
    }

    /// The run that makes `interface` listen on `port`.
    pub fn set_listen_port(&self, interface: &str, port: u16) -> (call: Invocation)
        ensures
            call@ == run_of(
                self@,
                seq!["set"@, interface@, "listen-port"@, decimal_text(port as nat)],
            ),
    {
        let number = to_decimal(port as u32);
        self.set(interface, "listen-port", number.as_str())
    }

    /// The run that prints the public keys of the peers of `interface`, one
    /// to a line.
    pub fn show_peers(&self, interface: &str) -> (call: Invocation)
        ensures
            call@ == run_of(self@, seq!["show"@, interface@, "peers"@]),
    {
        self.show(interface, "peers")
    }

    /// The run that prints the peers of `interface` with their allowed
    /// ranges, one peer to a line.
    pub fn show_allowed_ips(&self, interface: &str) -> (call: Invocation)
        ensures
            call@ == run_of(self@, seq!["show"@, interface@, "allowed-ips"@]),
    {
        self.show(interface, "allowed-ips")
    }

    /// The run that gives the peer with the key of `peer` exactly the ranges
    /// of `peer` on `interface`; a peer that is not there yet is added.
    pub fn set_peer(&self, interface: &str, peer: &Peer) -> (call: Invocation)
        requires
            ranges_wf(peer@.allowed_ips),
        ensures
            call@ == run_of(
                self@,
                seq![
                    "set"@,
                    interface@,
                    "peer"@,
                    peer@.public_key,
                    "allowed-ips"@,
                    ranges_text(peer@.allowed_ips),
                ],
            ),
    {
        let mut arguments: Vec<String> = Vec::new();
        arguments.push(String::from_str("set"));
        arguments.push(String::from_str(interface));
        arguments.push(String::from_str("peer"));
        arguments.push(peer.public_key.clone());
        arguments.push(String::from_str("allowed-ips"));
        arguments.push(join_ranges(&peer.allowed_ips));
        assert(string_views(arguments@) =~= seq![
            "set"@,
            interface@,
            "peer"@,
            peer@.public_key,
            "allowed-ips"@,
            ranges_text(peer@.allowed_ips),
        ]);
        self.run(arguments)
    }

    /// The run that takes the peer with the key `public_key` off `interface`.
    pub fn remove_peer(&self, interface: &str, public_key: &str) -> (call: Invocation)
        ensures
            call@ == run_of(self@, seq!["set"@, interface@, "peer"@, public_key@, "remove"@]),
    {
        let mut arguments: Vec<String> = Vec::new();
        arguments.push(String::from_str("set"));
        arguments.push(String::from_str(interface));
        arguments.push(String::from_str("peer"));
        arguments.push(String::from_str(public_key));
        arguments.push(String::from_str("remove"));
        assert(string_views(arguments@) =~= seq![
            "set"@,
            interface@,
            "peer"@,
            public_key@,
            "remove"@,
        ]);
        self.run(arguments)
    }
}

/// The ranges that a sequence of CIDR texts denotes, if every one of them
/// denotes a range.
pub open spec fn parsed_ranges(texts: Seq<Seq<char>>) -> Option<Seq<IpRange>>
    decreases texts.len(),
{
    if texts.len() == 0 {
        Some(Seq::<IpRange>::empty())
    } else {
        match (parsed_ranges(texts.drop_last()), parsed_range(texts.last())) {
            (Some(ranges), Some(range)) => Some(ranges.push(range)),
            _ => None,
        }
    }
}

/// The peer that one row of the list of allowed ranges describes: the key,
/// then either the word `(none)` or the ranges. A row without a key, or with
/// a cell that is no range, describes no peer.
pub open spec fn row_peer(row: Seq<Seq<char>>) -> Option<PeerView> {
    if row.len() == 0 {
        None
    } else if row.len() == 2 && row[1] == "(none)"@ {
        Some(PeerView { public_key: row[0], allowed_ips: Seq::<IpRange>::empty() })
    } else {
        match parsed_ranges(row.skip(1)) {
            Some(ranges) => Some(PeerView { public_key: row[0], allowed_ips: ranges }),
            None => None,
        }
    }
}

/// The table that the rows describe, if every row describes a peer. Where a
/// key comes twice, the later row takes the place of the earlier.
pub open spec fn observed_table(rows: Seq<Seq<Seq<char>>>) -> Option<Seq<PeerView>>
    decreases rows.len(),
{
    if rows.len() == 0 {
        Some(Seq::<PeerView>::empty())
    } else {
        match (observed_table(rows.drop_last()), row_peer(rows.last())) {
            (Some(table), Some(peer)) => Some(with_peer(table, peer)),
            _ => None,
        }
    }
}

/// Reads the cells of `cells` from position 1 on as ranges.
fn read_ranges(cells: &Vec<String>) -> (result: Option<Vec<IpRange>>)
    requires
        cells.len() >= 1,
    ensures
        match parsed_ranges(string_views(cells@).skip(1)) {
            Some(ranges) => result is Some && result->Some_0@ == ranges && ranges_wf(ranges),
            None => result is None,
        },
{
    let ghost texts = string_views(cells@).skip(1);
    let mut out: Vec<IpRange> = Vec::new();
    let mut i: usize = 1;
    assert(texts.take(0) =~= Seq::<Seq<char>>::empty());
    while i < cells.len()
        invariant
            1 <= i <= cells.len(),
            texts == string_views(cells@).skip(1),
            parsed_ranges(texts.take(i - 1)) == Some(out@),
            ranges_wf(out@),
        decreases cells.len() - i,
    {
        proof {
            assert(texts.take(i as int).drop_last() =~= texts.take(i - 1));
            assert(texts.take(i as int).last() == cells@[i as int]@);
        }
        match IpRange::parse(cells[i].as_str()) {
            Ok(range) => {
                out.push(range);
            },
            Err(_) => {
                proof {
                    lemma_parsed_ranges_prefix(texts, i as int);
                }
                return None;
            },
        }
        i = i + 1;
    }
    assert(texts.take(cells.len() - 1) =~= texts);
    Some(out)
}

/// Where a prefix of the texts holds one that is no range, the whole does.
proof fn lemma_parsed_ranges_prefix(texts: Seq<Seq<char>>, upto: int)
    requires
        0 <= upto <= texts.len(),
        parsed_ranges(texts.take(upto)) is None,
    ensures
        parsed_ranges(texts) is None,
    decreases texts.len() - upto,
{
    if upto < texts.len() {
        assert(texts.take(upto + 1).drop_last() =~= texts.take(upto));
        lemma_parsed_ranges_prefix(texts, upto + 1);
    } else {
        assert(texts.take(upto) =~= texts);
    }
}

/// Reads one row of the list of allowed ranges.
fn read_peer(row: &Vec<String>) -> (result: Option<Peer>)
    ensures
        match row_peer(string_views(row@)) {
            Some(peer) => result is Some && result->Some_0@ == peer,
            None => result is None,
        },
{
    if row.len() == 0 {
        return None;
    }
    assert(string_views(row@)[0] == row@[0]@);
    if row.len() == 2 {
        assert(string_views(row@)[1] == row@[1]@);
        if row[1] == String::from_str("(none)") {
            return Some(Peer { public_key: row[0].clone(), allowed_ips: Vec::new() });
        }
    }
    match read_ranges(row) {
        Some(ranges) => Some(Peer { public_key: row[0].clone(), allowed_ips: ranges }),
        None => None,
    }
}

/// Builds the table of the peers seen on an interface from the rows that
/// `show allowed-ips` printed; `None` when a row describes no peer.
pub fn observed_peers(rows: &Vec<Vec<String>>) -> (result: Option<PeerTable>)
    ensures
        match observed_table(string_rows(rows@)) {
            Some(table) => result is Some && result->Some_0@ == table && result->Some_0.wf(),
            None => result is None,
        },
{
    let ghost texts = string_rows(rows@);
    let mut table = PeerTable::new();
    let mut k: usize = 0;
    assert(texts.take(0) =~= Seq::<Seq<Seq<char>>>::empty());
    while k < rows.len()
        invariant
            k <= rows.len(),
            texts == string_rows(rows@),
            table.wf(),
            observed_table(texts.take(k as int)) == Some(table@),
        decreases rows.len() - k,
    {
        proof {
            assert(texts.take(k + 1).drop_last() =~= texts.take(k as int));
            assert(texts.take(k + 1).last() == string_views(rows@[k as int]@));
        }
        match read_peer(&rows[k]) {
            Some(peer) => {
                table.insert(peer);
            },
            None => {
                proof {
                    lemma_observed_table_prefix(texts, k + 1);
                }
                return None;
            },
        }
        k = k + 1;
    }
    assert(texts.take(rows.len() as int) =~= texts);
    Some(table)
}

/// Where a prefix of the rows holds one that describes no peer, the whole
/// does.
proof fn lemma_observed_table_prefix(rows: Seq<Seq<Seq<char>>>, upto: int)
    requires
        0 <= upto <= rows.len(),
        observed_table(rows.take(upto)) is None,
    ensures
        observed_table(rows) is None,
    decreases rows.len() - upto,
{
    if upto < rows.len() {
        assert(rows.take(upto + 1).drop_last() =~= rows.take(upto));
        lemma_observed_table_prefix(rows, upto + 1);
    } else {
        assert(rows.take(upto) =~= rows);
    }
}

/// Why a run of the `wg` tool failed.
#[derive(Clone, Copy, Debug, PartialEq, Eq, Structural)]
pub enum WgError {
    /// The tool could not be run, or it could not reach the interface.
    InterfaceUnavailable,
    /// The tool was refused for want of privilege.
    PermissionDenied,
}

/// The message of a failed run.
pub open spec fn wg_error_text(error: WgError) -> Seq<char> {
    match error {
        WgError::InterfaceUnavailable => "interface unavailable"@,
        WgError::PermissionDenied => "permission denied"@,
    }
}

impl WgError {
    /// The message of the error.
    pub fn to_string(&self) -> (result: String)
        ensures
            result@ == wg_error_text(*self),
    {
        match self {
            WgError::InterfaceUnavailable => String::from_str("interface unavailable"),
            WgError::PermissionDenied => String::from_str("permission denied"),
        }
    }
}

} // verus!
