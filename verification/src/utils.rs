//! Helpers around the configuration file: the table printed for the
//! operator, the CIDR text of the address pool, and the lock that keeps two
//! writers apart.

use crate::decimal::{
    decimal_text, lemma_parse_decimal_text, parse_bounded, parsed_number, to_decimal,
};
use crate::net::{parsed_range, range_text, IpRange, RangeSyntaxError};
use vstd::prelude::*;
use vstd::string::StringExecFns;
use vstd::utf8::encode_utf8;

verus! {

/// The number of bytes that a text takes in UTF-8, which is what a column
/// is measured in.
pub open spec fn byte_len(text: Seq<char>) -> nat {
    encode_utf8(text).len()
}

/// The texts of a table's cells, row by row.
pub open spec fn cells_of(table: Seq<Vec<&str>>) -> Seq<Seq<Seq<char>>> {
    table.map_values(|row: Vec<&str>| row@.map_values(|cell: &str| cell@))
}

/// The width of column `col`: the greatest byte length of a cell in that
/// column, or 0 when no row reaches it.
pub open spec fn column_width(table: Seq<Seq<Seq<char>>>, col: int) -> nat
    decreases table.len(),
{
    if table.len() == 0 {
        0
    } else {
        let above = column_width(table.drop_last(), col);
        let row = table.last();
        if 0 <= col < row.len() && byte_len(row[col]) > above {
            byte_len(row[col])
        } else {
            above
        }
    }
}

/// `count` spaces.
pub open spec fn spaces(count: nat) -> Seq<char> {
    Seq::new(count, |i: int| ' ')
}

/// A cell set flush right in a column of the given width.
pub open spec fn aligned(cell: Seq<char>, width: nat) -> Seq<char> {
    spaces((width - byte_len(cell)) as nat) + cell
}

/// The printed line of a row: its cells, each flush right in its column,
/// with one space between neighbours.
pub open spec fn table_line(table: Seq<Seq<Seq<char>>>, row: Seq<Seq<char>>) -> Seq<char>
    decreases row.len(),
{
    if row.len() == 0 {
        Seq::<char>::empty()
    } else if row.len() == 1 {
        aligned(row[0], column_width(table, 0))
    } else {
        table_line(table, row.drop_last()) + seq![' '] + aligned(
            row.last(),
            column_width(table, row.len() - 1),
        )
    }
}

/// A column is at least as wide as each of its cells.
pub proof fn lemma_column_width_bounds(table: Seq<Seq<Seq<char>>>, row: int, col: int)
    requires
        0 <= row < table.len(),
        0 <= col < table[row].len(),
    ensures
        byte_len(table[row][col]) <= column_width(table, col),
    decreases table.len(),
{
    if row < table.len() - 1 {
        assert(table.drop_last()[row] == table[row]);
        lemma_column_width_bounds(table.drop_last(), row, col);
    }
}

/// A column that no row reaches has width 0.
pub proof fn lemma_column_width_beyond(table: Seq<Seq<Seq<char>>>, col: int)
    requires
        forall|row: int| 0 <= row < table.len() ==> (#[trigger] table[row]).len() <= col,
    ensures
        column_width(table, col) == 0,
    decreases table.len(),
{
    if table.len() > 0 {
        assert forall|row: int| 0 <= row < table.drop_last().len() implies (
        #[trigger] table.drop_last()[row]).len() <= col by {
            assert(table.drop_last()[row] == table[row]);
        }
        lemma_column_width_beyond(table.drop_last(), col);
        assert(table[table.len() - 1].len() <= col);
    }
}

/// Measures the columns of a table: one width for every column that some
/// row reaches.
fn column_widths(table: &Vec<Vec<&str>>) -> (widths: Vec<usize>)
    ensures
        forall|row: int| 0 <= row < table.len() ==> (#[trigger] table@[row]).len() <= widths.len(),
        forall|col: int|
            0 <= col < widths.len() ==> (#[trigger] widths[col]) == column_width(
                cells_of(table@),
                col,
            ),
{
    let ghost cells = cells_of(table@);
    let mut widths: Vec<usize> = Vec::new();
    let mut k: usize = 0;
    while k < table.len()
        invariant
            k <= table.len(),
            cells == cells_of(table@),
            forall|row: int| 0 <= row < k ==> (#[trigger] table@[row]).len() <= widths.len(),
            forall|col: int|
                0 <= col < widths.len() ==> (#[trigger] widths[col]) == column_width(
                    cells.take(k as int),
                    col,
                ),
        decreases table.len() - k,
    {
        let row = &table[k];
        let ghost above = cells.take(k as int);
        let ghost upto = cells.take(k + 1);
        let ghost reached = widths.len();
        proof {
            assert(upto.drop_last() =~= above);
            assert(upto.last() == cells[k as int]);
            assert(cells[k as int].len() == row@.len());
        }
        let mut i: usize = 0;
        while i < row.len()
            invariant
                i <= row.len(),
                k < table.len(),
                row == &table[k as int],
                cells == cells_of(table@),
                above == cells.take(k as int),
                upto == cells.take(k + 1),
                upto.drop_last() == above,
                upto.last() == cells[k as int],
                i <= widths.len(),
                reached <= widths.len(),
                widths.len() == if i > reached {
                    i as int
                } else {
                    reached as int
                },
                forall|past: int| 0 <= past < k ==> (#[trigger] table@[past]).len() <= reached,
                forall|col: int|
                    0 <= col < i ==> (#[trigger] widths[col]) == column_width(upto, col),
                forall|col: int|
                    i <= col < widths.len() ==> (#[trigger] widths[col]) == column_width(
                        above,
                        col,
                    ),
            decreases row.len() - i,
        {
            let width: usize = row[i].as_bytes().len();
            proof {
                assert(cells[k as int][i as int] == row@[i as int]@);
                assert(byte_len(row@[i as int]@) == width);
                if i >= reached {
                    assert forall|past: int| 0 <= past < above.len() implies (
                    #[trigger] above[past]).len() <= i by {
                        assert(above[past].len() == table@[past].len());
                    }
                    lemma_column_width_beyond(above, i as int);
                }
            }
            if i >= widths.len() {
                widths.push(width);
            } else if widths[i] < width {
                widths.set(i, width);
            }
            i = i + 1;
        }
        k = k + 1;
    }
    assert(cells.take(table.len() as int) =~= cells);
    widths
}

/// Appends `count` spaces to `line`.
fn push_spaces(line: &mut String, count: usize)
    ensures
        final(line)@ == old(line)@ + spaces(count as nat),
{
    let mut done: usize = 0;
    assert(line@ =~= old(line)@ + spaces(0));
    while done < count
        invariant
            done <= count,
            line@ == old(line)@ + spaces(done as nat),
        decreases count - done,
    {
        proof {
            reveal_strlit(" ");
        }
        line.append(" ");
        done = done + 1;
        assert(line@ =~= old(line)@ + spaces(done as nat));
    }
}

/// Lays a table out for printing: one line per row, every cell flush right
/// in a column as wide as the longest cell of that column, in bytes, and
/// one space between columns.
pub fn cli_table(table: Vec<Vec<&str>>) -> (lines: Vec<String>)
    ensures
        lines.len() == table.len(),
        forall|row: int|
            0 <= row < table.len() ==> (#[trigger] lines[row])@ == table_line(
                cells_of(table@),
                cells_of(table@)[row],
            ),
{
    let widths = column_widths(&table);
    let ghost cells = cells_of(table@);
    let mut lines: Vec<String> = Vec::new();
    let mut k: usize = 0;
    while k < table.len()
        invariant
            k <= table.len(),
            cells == cells_of(table@),
            lines.len() == k,
            forall|row: int|
                0 <= row < table.len() ==> (#[trigger] table@[row]).len() <= widths.len(),
            forall|col: int|
                0 <= col < widths.len() ==> (#[trigger] widths[col]) == column_width(cells, col),
            forall|row: int|
                0 <= row < k ==> (#[trigger] lines[row])@ == table_line(cells, cells[row]),
        decreases table.len() - k,
    {
        let row = &table[k];
        let ghost texts = cells[k as int];
        let mut line = String::new();
        let mut i: usize = 0;
        proof {
            assert(texts.len() == row@.len());
            assert(texts.take(0) =~= Seq::<Seq<char>>::empty());
        }
        while i < row.len()
            invariant
                i <= row.len(),
                k < table.len(),
                row == &table[k as int],
                cells == cells_of(table@),
                texts == cells[k as int],
                texts.len() == row@.len(),
                row@.len() <= widths.len(),
                forall|col: int|
                    0 <= col < widths.len() ==> (#[trigger] widths[col]) == column_width(
                        cells,
                        col,
                    ),
                line@ == table_line(cells, texts.take(i as int)),
            decreases row.len() - i,
        {
            let cell: &str = row[i];
            let ghost before = line@;
            proof {
                assert(texts[i as int] == cell@);
                lemma_column_width_bounds(cells, k as int, i as int);
                assert(texts.take(i + 1).drop_last() =~= texts.take(i as int));
                assert(texts.take(i + 1).last() == cell@);
                reveal_strlit(" ");
            }
            if i > 0 {
                line.append(" ");
            }
            let padding: usize = widths[i] - cell.as_bytes().len();
            push_spaces(&mut line, padding);
            line.append(cell);
            proof {
                if i > 0 {
                    assert(line@ =~= before + seq![' '] + aligned(
                        cell@,
                        column_width(cells, i as int),
                    ));
                } else {
                    assert(line@ =~= aligned(cell@, column_width(cells, 0)));
                }
            }
            i = i + 1;
        }
        assert(texts.take(row@.len() as int) =~= texts);
        lines.push(line);
        k = k + 1;
    }
    lines
}

/// Writes the address pool as the configuration file holds it: in CIDR
/// notation. The text reads back as the same range.
pub fn serialize_ipv4net(ipv4net: &IpRange) -> (result: String)
    requires
        ipv4net.wf(),
    ensures
        result@ == range_text(*ipv4net),
        parsed_range(result@) == Some(*ipv4net),
{
    ipv4net.to_text()
}

/// Reads the address pool from the text that the configuration file holds.
pub fn deserialize_ipv4net(text: &str) -> (result: Result<IpRange, RangeSyntaxError>)
    ensures
        result == match parsed_range(text@) {
            Some(range) => Ok::<IpRange, RangeSyntaxError>(range),
            None => Err(RangeSyntaxError),
        },
        result matches Ok(range) ==> range.wf(),
{
    IpRange::parse(text)
}

/// The last component of a path as `std::path::Path::file_name` finds it on
/// the platform that the library is built for, if the path has one.
pub uninterp spec fn path_file_name(path: Seq<char>) -> Option<Seq<char>>;

/// The path that `std::path::Path::with_file_name` makes of a path and a
/// file name on the platform that the library is built for.
pub uninterp spec fn path_with_file_name(path: Seq<char>, name: Seq<char>) -> Seq<char>;

/// Calls `std::path::Path::file_name`. Trusted: the outcome depends on the
/// text of the path alone.
#[verifier::external_body]
fn file_name_of(path: &str) -> (result: Option<String>)
    ensures
        match path_file_name(path@) {
            Some(name) => result is Some && result->Some_0@ == name,
            None => result is None,
        },
{
    match std::path::Path::new(path).file_name() {
        Some(name) => Some(name.to_string_lossy().into_owned()),
        None => None,
    }
}

/// Calls `std::path::Path::with_file_name`. Trusted: the outcome depends on
/// the texts of the path and of the name alone.
#[verifier::external_body]
fn with_file_name(path: &str, name: &str) -> (result: String)
    ensures
        result@ == path_with_file_name(path@, name@),
{
    std::path::Path::new(path).with_file_name(name).to_string_lossy().into_owned()
}

/// The name of the lock file that belongs to a file called `file_name`.
pub open spec fn lock_name(file_name: Seq<char>) -> Seq<char> {
    "."@ + file_name + ".lck"@
}

/// The name of the lock file that belongs to a file called `file_name`: a
/// dot, the name, and the ending `.lck`.
pub fn lock_file_name(file_name: &str) -> (result: String)
    ensures
        result@ == lock_name(file_name@),
{
    let mut name = String::from_str(".");
    name.append(file_name);
    name.append(".lck");
    name
}

/// The path of the lock file that guards the file at `file_path`: beside the
/// file, under the lock name of the file. The same path always gives the
/// same lock path. The path must have a file name.
pub fn lock_path(file_path: &str) -> (result: String)
    requires
        path_file_name(file_path@) is Some,
    ensures
        result@ == path_with_file_name(
            file_path@,
            lock_name(path_file_name(file_path@)->Some_0),
        ),
{
    let file_name = file_name_of(file_path).unwrap();
    let name = lock_file_name(file_name.as_str());
    with_file_name(file_path, name.as_str())
}

/// The path of the lock file that guards the file at `file_path`, or `None`
/// when the path has no file name.
pub fn try_lock_path(file_path: &str) -> (result: Option<String>)
    ensures
        match path_file_name(file_path@) {
            Some(name) => result is Some && result->Some_0@ == path_with_file_name(
                file_path@,
                lock_name(name),
            ),
            None => result is None,
        },
{
    match file_name_of(file_path) {
        Some(_) => Some(lock_path(file_path)),
        None => None,
    }
}

/// Why a lock was not acquired.
#[derive(Clone, Debug, PartialEq, Eq)]
pub enum LockError {
    /// The lock file is there and does not hold a process identifier.
    MalformedLockExists,
    /// The lock file is there and names the process that holds the lock.
    LockExists(u32),
    /// The lock file could not be read or written; the text says why.
    IOError(String),
}

/// The mathematical value of a lock error.
pub enum LockErrorView {
    MalformedLockExists,
    LockExists(u32),
    IOError(Seq<char>),
}

impl View for LockError {
    type V = LockErrorView;

    open spec fn view(&self) -> LockErrorView {
        match self {
            LockError::MalformedLockExists => LockErrorView::MalformedLockExists,
            LockError::LockExists(owner) => LockErrorView::LockExists(*owner),
            LockError::IOError(text) => LockErrorView::IOError(text@),
        }
    }
}

/// The message of a lock error, as shown to the operator.
pub open spec fn lock_error_text(error: LockErrorView) -> Seq<char> {
    match error {
        LockErrorView::MalformedLockExists => "lock exists, but it is malformed"@,
        LockErrorView::LockExists(owner) => "lock exists with process id: "@ + decimal_text(
            owner as nat,
        ),
        LockErrorView::IOError(text) => text,
    }
}

impl LockError {
    /// The message of the error.
    pub fn to_string(&self) -> (result: String)
        ensures
            result@ == lock_error_text(self@),
    {
        match self {
            LockError::MalformedLockExists => String::from_str("lock exists, but it is malformed"),
            LockError::LockExists(owner) => {
                let mut out = String::from_str("lock exists with process id: ");
                out.append(to_decimal(*owner).as_str());
                out
            },
            LockError::IOError(text) => text.clone(),
        }
    }
}

/// What stands at a lock path: nothing, or a file with some text.
pub type LockFile = Option<Seq<char>>;

/// The outcome of an attempt to acquire a lock, given what stands at the
/// lock path: the lock, for the process that asks, when nothing stands there;
/// else the reason why not.
pub open spec fn acquisition(found: LockFile, process_id: u32) -> Result<u32, LockErrorView> {
    match found {
        None => Ok(process_id),
        Some(text) => match parsed_number(text, u32::MAX as nat) {
            Some(owner) => Err(LockErrorView::LockExists(owner as u32)),
            None => Err(LockErrorView::MalformedLockExists),
        },
    }
}

/// What stands at the lock path after an attempt to acquire the lock: the
/// identifier of the process that got it, or what stood there before.
pub open spec fn after_acquire(found: LockFile, process_id: u32) -> LockFile {
    match found {
        None => Some(decimal_text(process_id as nat)),
        Some(text) => Some(text),
    }
}

/// What stands at the lock path after the holder has released the lock:
/// nothing.
pub open spec fn after_release(found: LockFile) -> LockFile {
    None
}

/// A lock on a configuration file, held for a process. Whoever holds the
/// value holds the lock; the lock file is to be deleted when the value goes.
#[derive(Debug, PartialEq, Eq)]
pub struct Lock {
    path: String,
    owner: u32,
}

/// The mathematical value of a lock.
pub struct LockView {
    pub path: Seq<char>,
    pub owner: u32,
}

impl View for Lock {
    type V = LockView;

    closed spec fn view(&self) -> LockView {
        LockView { path: self.path@, owner: self.owner }
    }
}

impl Lock {
    /// Decides an attempt of process `process_id` to acquire the lock at
    /// `lock_path`, where `found` is the text of the lock file, or `None`
    /// when there is no such file. A lock file that is there always refuses
    /// the lock: with the identifier it holds, or as malformed.
    pub fn acquire(lock_path: String, found: Option<String>, process_id: u32) -> (result: Result<
        Lock,
        LockError,
    >)
        ensures
            match acquisition(
                match found {
                    Some(text) => Some(text@),
                    None => None,
                },
                process_id,
            ) {
                Ok(owner) => result is Ok && result->Ok_0@ == (LockView {
                    path: lock_path@,
                    owner,
                }),
                Err(error) => result is Err && result->Err_0@ == error,
            },
    {
        match found {
            Some(text) => match parse_bounded(text.as_str(), u32::MAX) {
                Some(owner) => Err(LockError::LockExists(owner)),
                None => Err(LockError::MalformedLockExists),
            },
            None => Ok(Lock { path: lock_path, owner: process_id }),
        }
    }

    /// The path of the lock file.
    pub fn path(&self) -> (path: &String)
        ensures
            path@ == self@.path,
    {
        &self.path
    }

    /// The process that holds the lock.
    pub fn owner(&self) -> (owner: u32)
        ensures
            owner == self@.owner,
    {
        self.owner
    }

    /// The text that the lock file holds while the lock is held: the
    /// identifier of the holder.
    pub fn contents(&self) -> (text: String)
        ensures
            text@ == decimal_text(self@.owner as nat),
            after_acquire(None, self@.owner) == Some(text@),
    {
        to_decimal(self.owner)
    }

    /// Gives the lock up and names the file to delete.
    pub fn release(self) -> (path: String)
        ensures
            path@ == self@.path,
    {
        self.path
    }
}

/// Mutual exclusion. While a process holds the lock, every attempt to
/// acquire it fails and names the holder; once the holder has released it,
/// the next attempt succeeds.
pub proof fn lemma_lock_excludes(holder: u32, other: u32)
    ensures
        acquisition(None, holder) == Ok::<u32, LockErrorView>(holder),
        acquisition(after_acquire(None, holder), other) == Err::<u32, LockErrorView>(
            LockErrorView::LockExists(holder),
        ),
        after_acquire(after_acquire(None, holder), other) == after_acquire(None, holder),
        acquisition(after_release(after_acquire(None, holder)), other) == Ok::<
            u32,
            LockErrorView,
        >(other),
{
    lemma_parse_decimal_text(holder as nat, u32::MAX as nat);
}

} // verus!
