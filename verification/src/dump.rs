//! What the emulator hands out about its screen, decoded from bytes.
//!
//! Each function takes the bytes as they came from the emulator, `None` where it
//! had none to give.
use vstd::prelude::*;
use vstd::utf8::*;
use crate::error::Error;
use crate::text;
use crate::text::lossy_string;
use crate::types::{CellStyle, Rgb, StyleRun};

verus! {

/// The bytes of one cell's style.
pub const CELL_STYLE_SIZE: usize = 8;

/// The bytes of one style run.
pub const STYLE_RUN_SIZE: usize = 12;

/// Two bytes as a number: the first is the lower one, unless `big` says
/// otherwise.
pub open spec fn two_bytes(a: u8, b: u8, big: bool) -> u16 {
    if big {
        (a * 0x100 + b) as u16
    } else {
        (b * 0x100 + a) as u16
    }
}

/// `u16::from_ne_bytes`: the number that two bytes make in the machine's own
/// order. Which order that is, is not stated.
#[verifier::external_body]
fn native_u16(bytes: [u8; 2]) -> (r: u16)
    ensures
        r == two_bytes(bytes@[0], bytes@[1], false) || r == two_bytes(bytes@[0], bytes@[1], true),
{
    u16::from_ne_bytes(bytes)
}

/// Whether the machine puts the higher byte of a number first.
fn machine_is_big_endian() -> (big: bool) {
    native_u16([1, 0]) != 1
}

fn number(a: u8, b: u8, big: bool) -> (r: u16)
    ensures
        r == two_bytes(a, b, big),
{
    if big {
        a as u16 * 0x100 + b as u16
    } else {
        b as u16 * 0x100 + a as u16
    }
}

/// The style that the bytes of a cell from `at` on say.
pub open spec fn cell_style_at(bytes: Seq<u8>, at: int) -> CellStyle {
    CellStyle {
        fg: Rgb { r: bytes[at], g: bytes[at + 1], b: bytes[at + 2] },
        bg: Rgb { r: bytes[at + 3], g: bytes[at + 4], b: bytes[at + 5] },
        flags: bytes[at + 6],
    }
}

/// The styles of a row, cell by cell.
pub open spec fn cell_styles(bytes: Seq<u8>) -> Seq<CellStyle> {
    Seq::new(
        (bytes.len() / CELL_STYLE_SIZE as nat),
        |i: int| cell_style_at(bytes, i * CELL_STYLE_SIZE),
    )
}

/// The run that the bytes from `at` on say.
pub open spec fn style_run_at(bytes: Seq<u8>, at: int, big: bool) -> StyleRun {
    StyleRun {
        start_col: two_bytes(bytes[at], bytes[at + 1], big),
        end_col: two_bytes(bytes[at + 2], bytes[at + 3], big),
        fg: Rgb { r: bytes[at + 4], g: bytes[at + 5], b: bytes[at + 6] },
        bg: Rgb { r: bytes[at + 7], g: bytes[at + 8], b: bytes[at + 9] },
        flags: bytes[at + 10],
    }
}

/// The runs of a row.
pub open spec fn style_runs(bytes: Seq<u8>, big: bool) -> Seq<StyleRun> {
    Seq::new(
        (bytes.len() / STYLE_RUN_SIZE as nat),
        |i: int| style_run_at(bytes, i * STYLE_RUN_SIZE, big),
    )
}

/// The styles of the cells of a row.
pub fn decode_cell_styles(bytes: Option<&[u8]>) -> (r: Result<Vec<CellStyle>, Error>)
    ensures
        match bytes {
            Some(b) => if b@.len() % CELL_STYLE_SIZE as nat == 0 {
                r matches Ok(v) && v@ == cell_styles(b@)
            } else {
                r == Err::<Vec<CellStyle>, Error>(Error::DumpFailed)
            },
            None => r == Err::<Vec<CellStyle>, Error>(Error::DumpFailed),
        },
{
    let b = match bytes {
        Some(b) => b,
        None => {
            return Err(Error::DumpFailed);
        },
    };
    if b.len() % CELL_STYLE_SIZE != 0 {
        return Err(Error::DumpFailed);
    }
    let n: usize = b.len() / CELL_STYLE_SIZE;
    let mut out: Vec<CellStyle> = Vec::new();
    let mut i: usize = 0;
    while i < n
        invariant
            n * 8 == b@.len(),
            b@.len() <= usize::MAX,
            i <= n,
            out@.len() == i,
            forall|j: int| 0 <= j < i ==> #[trigger] out@[j] == cell_style_at(b@, j * 8),
        decreases n - i,
    {
        let at: usize = i * 8;
        out.push(
            CellStyle {
                fg: Rgb { r: b[at], g: b[at + 1], b: b[at + 2] },
                bg: Rgb { r: b[at + 3], g: b[at + 4], b: b[at + 5] },
                flags: b[at + 6],
            },
        );
        i = i + 1;
    }
    assert(out@ =~= cell_styles(b@));
    Ok(out)
}

/// The runs of a row, by the order of the bytes in a number.
pub fn decode_style_runs_by_order(bytes: &[u8], big: bool) -> (r: Result<Vec<StyleRun>, Error>)
    ensures
        if bytes@.len() % STYLE_RUN_SIZE as nat == 0 {
            r matches Ok(v) && v@ == style_runs(bytes@, big)
        } else {
            r == Err::<Vec<StyleRun>, Error>(Error::DumpFailed)
        },
{
    if bytes.len() % STYLE_RUN_SIZE != 0 {
        return Err(Error::DumpFailed);
    }
    let n: usize = bytes.len() / STYLE_RUN_SIZE;
    let mut out: Vec<StyleRun> = Vec::new();
    let mut i: usize = 0;
    while i < n
        invariant
            n * 12 == bytes@.len(),
            bytes@.len() <= usize::MAX,
            i <= n,
            out@.len() == i,
            forall|j: int| 0 <= j < i ==> #[trigger] out@[j] == style_run_at(bytes@, j * 12, big),
        decreases n - i,
    {
        let at: usize = i * 12;
        out.push(
            StyleRun {
                start_col: number(bytes[at], bytes[at + 1], big),
                end_col: number(bytes[at + 2], bytes[at + 3], big),
                fg: Rgb { r: bytes[at + 4], g: bytes[at + 5], b: bytes[at + 6] },
                bg: Rgb { r: bytes[at + 7], g: bytes[at + 8], b: bytes[at + 9] },
                flags: bytes[at + 10],
            },
        );
        i = i + 1;
    }
    assert(out@ =~= style_runs(bytes@, big));
    Ok(out)
}

/// The runs are those that the bytes say, in one order of bytes for all of them.
pub open spec fn decoded_runs(r: Seq<StyleRun>, bytes: Seq<u8>) -> bool {
    exists|big: bool| r == #[trigger] style_runs(bytes, big)
}

/// The runs of a row of the visible screen, in the machine's own order of bytes.
pub fn decode_style_runs(bytes: Option<&[u8]>) -> (r: Result<Vec<StyleRun>, Error>)
    ensures
        match bytes {
            Some(b) => if b@.len() % STYLE_RUN_SIZE as nat == 0 {
                r matches Ok(v) && decoded_runs(v@, b@)
            } else {
                r == Err::<Vec<StyleRun>, Error>(Error::DumpFailed)
            },
            None => r == Err::<Vec<StyleRun>, Error>(Error::DumpFailed),
        },
{
    match bytes {
        Some(b) => decode_style_runs_by_order(b, machine_is_big_endian()),
        None => Err(Error::DumpFailed),
    }
}

/// The runs of a row of the scrollback; `Ok(None)` where there is no such row.
pub fn decode_screen_row_style_runs(bytes: Option<&[u8]>) -> (r: Result<
    Option<Vec<StyleRun>>,
    Error,
>)
    ensures
        match bytes {
            Some(b) => if b@.len() % STYLE_RUN_SIZE as nat == 0 {
                r matches Ok(Some(v)) && decoded_runs(v@, b@)
            } else {
                r == Err::<Option<Vec<StyleRun>>, Error>(Error::DumpFailed)
            },
            None => r == Ok::<Option<Vec<StyleRun>>, Error>(None),
        },
{
    match bytes {
        Some(b) => match decode_style_runs_by_order(b, machine_is_big_endian()) {
            Ok(v) => Ok(Some(v)),
            Err(e) => Err(e),
        },
        None => Ok(None),
    }
}

/// The rows that changed: two bytes each, the lower one first.
pub open spec fn dirty_rows(bytes: Seq<u8>) -> Seq<u16> {
    Seq::new((bytes.len() / 2), |i: int| two_bytes(bytes[2 * i], bytes[2 * i + 1], false))
}

/// The rows that the emulator reports as changed; none where it has none to
/// report.
pub fn decode_dirty_rows(bytes: Option<&[u8]>) -> (r: Result<Vec<u16>, Error>)
    ensures
        match bytes {
            Some(b) => if b@.len() % 2 == 0 {
                r matches Ok(v) && v@ == dirty_rows(b@)
            } else {
                r == Err::<Vec<u16>, Error>(Error::DumpFailed)
            },
            None => r matches Ok(v) && v@.len() == 0,
        },
{
    let b = match bytes {
        Some(b) => b,
        None => {
            return Ok(Vec::new());
        },
    };
    if b.len() % 2 != 0 {
        return Err(Error::DumpFailed);
    }
    let n: usize = b.len() / 2;
    let mut out: Vec<u16> = Vec::new();
    let mut i: usize = 0;
    while i < n
        invariant
            2 * n == b@.len(),
            b@.len() <= usize::MAX,
            i <= n,
            out@.len() == i,
            forall|j: int|
                0 <= j < i ==> #[trigger] out@[j] == two_bytes(b@[2 * j], b@[2 * j + 1], false),
        decreases n - i,
    {
        out.push(number(b[2 * i], b[2 * i + 1], false));
        i = i + 1;
    }
    assert(out@ =~= dirty_rows(b@));
    Ok(out)
}

/// `s` is the text that `bytes` stand for: the one they encode where they are
/// valid UTF-8.
pub open spec fn reads(s: String, bytes: Seq<u8>) -> bool {
    &&& s@ == text::lossy_text(bytes)
    &&& valid_utf8(bytes) ==> s@ == decode_utf8(bytes)
}

/// The text of a row or of the whole visible screen.
pub fn decode_text(bytes: Option<&[u8]>) -> (r: Result<String, Error>)
    ensures
        match bytes {
            Some(b) => r matches Ok(s) && reads(s, b@),
            None => r == Err::<String, Error>(Error::DumpFailed),
        },
{
    match bytes {
        Some(b) => Ok(lossy_string(b)),
        None => Err(Error::DumpFailed),
    }
}

/// The text of a row of the scrollback; nothing where there is no such row.
pub fn decode_screen_row(bytes: Option<&[u8]>) -> (r: Option<String>)
    ensures
        match bytes {
            Some(b) => r matches Some(s) && reads(s, b@),
            None => r is None,
        },
{
    match bytes {
        Some(b) => Some(lossy_string(b)),
        None => None,
    }
}

/// The hyperlink of a cell; an empty one is none.
pub fn decode_hyperlink(bytes: Option<&[u8]>) -> (r: Option<String>)
    ensures
        match bytes {
            Some(b) => if b@.len() > 0 {
                r matches Some(s) && reads(s, b@)
            } else {
                r is None
            },
            None => r is None,
        },
{
    match bytes {
        Some(b) => if b.len() > 0 {
            Some(lossy_string(b))
        } else {
            None
        },
        None => None,
    }
}

/// The encoding of a named key; an empty one is none.
pub fn decode_key(bytes: Option<&[u8]>) -> (r: Option<Vec<u8>>)
    ensures
        text::bytes_of(r) == match bytes {
            Some(b) => if b@.len() > 0 {
                Some(b@)
            } else {
                None
            },
            None => None,
        },
{
    match bytes {
        Some(b) => if b.len() > 0 {
            Some(vstd::slice::slice_to_vec(b))
        } else {
            None
        },
        None => None,
    }
}

/// Decoding undoes the emulator's layout of a row's runs: twelve bytes each, with
/// the first and the last column, then red, green and blue of the foreground, red,
/// green and blue of the background, the flags and a spare byte. Where the bytes of
/// a list of runs are laid out so, the same list comes out.
pub proof fn law_style_runs_read_back(runs: Seq<StyleRun>, bytes: Seq<u8>, big: bool)
    requires
        bytes.len() == 12 * runs.len(),
        forall|i: int|
            0 <= i < runs.len() ==> {
                let run = #[trigger] runs[i];
                &&& bytes[12 * i] == if big {
                    run.start_col as int / 256
                } else {
                    run.start_col as int % 256
                }
                &&& bytes[12 * i + 1] == if big {
                    run.start_col as int % 256
                } else {
                    run.start_col as int / 256
                }
                &&& bytes[12 * i + 2] == if big {
                    run.end_col as int / 256
                } else {
                    run.end_col as int % 256
                }
                &&& bytes[12 * i + 3] == if big {
                    run.end_col as int % 256
                } else {
                    run.end_col as int / 256
                }
                &&& bytes[12 * i + 4] == run.fg.r
                &&& bytes[12 * i + 5] == run.fg.g
                &&& bytes[12 * i + 6] == run.fg.b
                &&& bytes[12 * i + 7] == run.bg.r
                &&& bytes[12 * i + 8] == run.bg.g
                &&& bytes[12 * i + 9] == run.bg.b
                &&& bytes[12 * i + 10] == run.flags
            },
    ensures
        style_runs(bytes, big) == runs,
{
    assert forall|i: int| 0 <= i < runs.len() implies #[trigger] style_runs(bytes, big)[i]
        == runs[i] by {
        let run = runs[i];
        let read = style_run_at(bytes, 12 * i, big);
        assert(read.start_col == run.start_col);
        assert(read.end_col == run.end_col);
        assert(read == run);
    }
    assert(style_runs(bytes, big) =~= runs);
}

/// Foreground and background are read alike: where the three bytes of the one are
/// those of the other, the two colours are the same.
pub proof fn law_colors_are_read_alike(bytes: Seq<u8>, big: bool, i: int)
    requires
        0 <= i,
        12 * i + 12 <= bytes.len(),
        bytes.subrange(12 * i + 4, 12 * i + 7) == bytes.subrange(12 * i + 7, 12 * i + 10),
    ensures
        style_runs(bytes, big)[i].fg == style_runs(bytes, big)[i].bg,
{
    let a = bytes.subrange(12 * i + 4, 12 * i + 7);
    let b = bytes.subrange(12 * i + 7, 12 * i + 10);
    assert(a[0] == b[0] && a[1] == b[1] && a[2] == b[2]);
}

/// Decoding undoes the emulator's layout of a row's cells: eight bytes each, with
/// red, green and blue of the foreground, red, green and blue of the background, the
/// flags and a spare byte.
pub proof fn law_cell_styles_read_back(cells: Seq<CellStyle>, bytes: Seq<u8>)
    requires
        bytes.len() == 8 * cells.len(),
        forall|i: int|
            0 <= i < cells.len() ==> {
                let cell = #[trigger] cells[i];
                &&& bytes[8 * i] == cell.fg.r
                &&& bytes[8 * i + 1] == cell.fg.g
                &&& bytes[8 * i + 2] == cell.fg.b
                &&& bytes[8 * i + 3] == cell.bg.r
                &&& bytes[8 * i + 4] == cell.bg.g
                &&& bytes[8 * i + 5] == cell.bg.b
                &&& bytes[8 * i + 6] == cell.flags
            },
    ensures
        cell_styles(bytes) == cells,
{
    assert forall|i: int| 0 <= i < cells.len() implies #[trigger] cell_styles(bytes)[i]
        == cells[i] by {
        assert(cell_style_at(bytes, 8 * i) == cells[i]);
    }
    assert(cell_styles(bytes) =~= cells);
}

/// Decoding undoes the emulator's layout of the changed rows: two bytes each, the
/// lower one first on every machine.
pub proof fn law_dirty_rows_read_back(rows: Seq<u16>, bytes: Seq<u8>)
    requires
        bytes.len() == 2 * rows.len(),
        forall|i: int|
            0 <= i < rows.len() ==> bytes[2 * i] == (#[trigger] rows[i]) as int % 256 && bytes[2 * i
                + 1] == rows[i] as int / 256,
    ensures
        dirty_rows(bytes) == rows,
{
    assert forall|i: int| 0 <= i < rows.len() implies #[trigger] dirty_rows(bytes)[i]
        == rows[i] by {
        let n = rows[i] as int;
        assert(n == n % 256 + 256 * (n / 256));
    }
    assert(dirty_rows(bytes) =~= rows);
}

/// Runs that were decoded in the machine's own order are those of one of the two
/// orders, all of them of the same.
pub proof fn law_one_order_for_all_runs(runs: Seq<StyleRun>, bytes: Seq<u8>)
    requires
        decoded_runs(runs, bytes),
    ensures
        runs == style_runs(bytes, false) || runs == style_runs(bytes, true),
        runs.len() == bytes.len() / 12,
{
}

} // verus!
