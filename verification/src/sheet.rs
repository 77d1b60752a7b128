//! One worksheet of the legacy workbook, and how a lineup is read from it.
use vstd::prelude::*;

use crate::import_text::{lemma_month_day_from_bounds, month_day_of, parse_month_day, parse_time, time_of_text};
use crate::seqs::{first_where, lemma_first_where_at, lemma_first_where_none};
use crate::text::{ascii_lower_chars, ascii_lower_seq, chars_of, is_blank, is_blank_str, owned, same_chars, trim, trim_bounds};

verus! {

/// A worksheet cell, with what the importer reads of it. Excel date-times
/// and numbers carry the time of day of their fractional part (rounded to
/// the minute), and a date-time also its calendar month and day.
#[derive(Debug)]
pub enum Cell {
    Text(String),
    DateTime { time: (u8, u8), month_day: Option<(u32, u32)> },
    Number { time: (u8, u8) },
    Other,
}

/// A worksheet's used range: `rows` of `width` cells each, addressed
/// relative to the range's first cell.
#[derive(Debug)]
pub struct Sheet {
    pub rows: Vec<Vec<Cell>>,
    pub width: usize,
}

/// A lineup row before times are normalized.
#[derive(Debug)]
pub struct RawRow {
    pub parsed_time: Option<(u8, u8)>,
    pub dj: Option<String>,
    pub vj: Option<String>,
    pub notes: String,
}

/// A sheet's lineup before its year is known.
#[derive(Debug)]
pub struct RawSheet {
    pub sheet_name: String,
    pub month: u32,
    pub day: u32,
    pub rows: Vec<RawRow>,
}

pub struct RawRowView {
    pub parsed_time: Option<(u8, u8)>,
    pub dj: Option<Seq<char>>,
    pub vj: Option<Seq<char>>,
    pub notes: Seq<char>,
}

pub struct RawSheetView {
    pub sheet_name: Seq<char>,
    pub month: nat,
    pub day: nat,
    pub rows: Seq<RawRowView>,
}

pub open spec fn opt_text(o: Option<String>) -> Option<Seq<char>> {
    match o {
        Some(s) => Some(s@),
        None => None,
    }
}

impl View for RawRow {
    type V = RawRowView;

    open spec fn view(&self) -> RawRowView {
        RawRowView {
            parsed_time: self.parsed_time,
            dj: opt_text(self.dj),
            vj: opt_text(self.vj),
            notes: self.notes@,
        }
    }
}

pub open spec fn raw_rows_view(rows: Seq<RawRow>) -> Seq<RawRowView> {
    rows.map_values(|r: RawRow| r@)
}

impl View for RawSheet {
    type V = RawSheetView;

    open spec fn view(&self) -> RawSheetView {
        RawSheetView {
            sheet_name: self.sheet_name@,
            month: self.month as nat,
            day: self.day as nat,
            rows: raw_rows_view(self.rows@),
        }
    }
}

impl Sheet {
    /// Every row has `width` cells, and every time a cell gives has an
    /// hour of at most 24 and a minute of at most 59 (the fraction of a day
    /// of a date-time or number cell is below one).
    pub open spec fn wf(&self) -> bool {
        &&& self.width < usize::MAX
        &&& forall|r: int| 0 <= r < self.rows@.len() ==> (#[trigger] self.rows@[r])@.len() == self.width
        &&& forall|r: int, c: int|
            0 <= r < self.rows@.len() && 0 <= c < self.width ==> time_in_range(
                cell_time(#[trigger] self.rows@[r]@[c]),
            )
    }

    /// The cell at `(r, c)`, `None` outside the range.
    pub open spec fn cell(&self, r: int, c: int) -> Option<Cell> {
        if 0 <= r < self.rows@.len() && 0 <= c < self.width {
            Some(self.rows@[r]@[c])
        } else {
            None
        }
    }

    /// `Range::get`.
    pub fn get(&self, r: usize, c: usize) -> (res: Option<&Cell>)
        requires
            self.wf(),
        ensures
            match self.cell(r as int, c as int) {
                Some(x) => res == Some(&x),
                None => res is None,
            },
    {
        if r < self.rows.len() && c < self.width {
            Some(&self.rows[r][c])
        } else {
            None
        }
    }
}

/// A text cell whose trimmed text equals `label` ignoring ASCII case
/// (`label` is lowercase).
pub open spec fn is_label(c: Cell, label: Seq<char>) -> bool {
    match c {
        Cell::Text(s) => ascii_lower_seq(trim(s@)) == label,
        _ => false,
    }
}

pub open spec fn label_pred(label: Seq<char>) -> spec_fn(Cell) -> bool {
    |c: Cell| is_label(c, label)
}

/// Column of the first cell of a row that is `label`.
pub open spec fn label_col(row: Seq<Cell>, label: Seq<char>) -> Option<int> {
    first_where(row, label_pred(label))
}

pub open spec fn dj_label() -> Seq<char> {
    seq!['d', 'j']
}

pub open spec fn day_label() -> Seq<char> {
    seq!['d', 'a', 'y', ':']
}

pub open spec fn row_has_label(label: Seq<char>) -> spec_fn(Vec<Cell>) -> bool {
    |row: Vec<Cell>| label_col(row@, label) is Some
}

/// The first row (top to bottom) holding a `DJ` header cell.
pub open spec fn header_row(sheet: Sheet) -> Option<int> {
    first_where(sheet.rows@, row_has_label(dj_label()))
}

/// A row whose first `Day:` cell has a cell to its right.
pub open spec fn day_row_pred(width: int) -> spec_fn(Vec<Cell>) -> bool {
    |row: Vec<Cell>| label_col(row@, day_label()) matches Some(c) && c + 1 < width
}

/// The cell to the right of the `Day:` label: in the first row where the
/// row's first `Day:` cell has one.
pub open spec fn day_value(sheet: Sheet) -> Option<Cell> {
    match first_where(sheet.rows@, day_row_pred(sheet.width as int)) {
        Some(r) => sheet.cell(r, label_col(sheet.rows@[r]@, day_label()).unwrap() + 1),
        None => None,
    }
}

/// The month and day a cell states.
pub open spec fn cell_month_day(c: Cell) -> Option<(nat, nat)> {
    match c {
        Cell::Text(s) => month_day_of(s@),
        Cell::DateTime { time, month_day } => match month_day {
            Some((m, d)) => Some((m as nat, d as nat)),
            None => None,
        },
        _ => None,
    }
}

/// A text cell that holds a month-day.
pub open spec fn dated_text(c: Cell) -> bool {
    match c {
        Cell::Text(s) => month_day_of(s@) is Some,
        _ => false,
    }
}

pub open spec fn dated_text_pred() -> spec_fn(Cell) -> bool {
    |c: Cell| dated_text(c)
}

pub open spec fn row_has_dated_text() -> spec_fn(Vec<Cell>) -> bool {
    |row: Vec<Cell>| first_where(row@, dated_text_pred()) is Some
}

/// The first month-day among the text cells of the first four rows.
pub open spec fn title_month_day(sheet: Sheet) -> Option<(nat, nat)> {
    let top = sheet.rows@.take(if sheet.rows@.len() < 4 { sheet.rows@.len() as int } else { 4 });
    match first_where(top, row_has_dated_text()) {
        Some(r) => cell_month_day(top[r]@[first_where(top[r]@, dated_text_pred()).unwrap()]),
        None => None,
    }
}

/// The sheet's month and day: from the `Day:` cell, else the sheet's name,
/// else the first rows.
pub open spec fn sheet_month_day(name: Seq<char>, sheet: Sheet) -> Option<(nat, nat)> {
    let from_day = match day_value(sheet) {
        Some(c) => cell_month_day(c),
        None => None,
    };
    match from_day {
        Some(md) => Some(md),
        None => match month_day_of(name) {
            Some(md) => Some(md),
            None => title_month_day(sheet),
        },
    }
}

/// An hour of at most 24 and a minute of at most 59.
pub open spec fn time_in_range(t: Option<(u8, u8)>) -> bool {
    t matches Some((h, m)) ==> h <= 24 && m <= 59
}

/// The start time a cell gives.
pub open spec fn cell_time(c: Cell) -> Option<(u8, u8)> {
    match c {
        Cell::Text(s) => time_of_text(s@),
        Cell::DateTime { time, month_day } => Some(time),
        Cell::Number { time } => Some(time),
        Cell::Other => None,
    }
}

/// The text of a text cell that is not all whitespace.
pub open spec fn filled_text(c: Option<Cell>) -> Option<Seq<char>> {
    match c {
        Some(Cell::Text(s)) => if is_blank(s@) {
            None
        } else {
            Some(s@)
        },
        _ => None,
    }
}

/// Lineup row `r` of a sheet whose DJ column is `dj_col`: the time to the
/// left, then DJ, VJ and notes; a row with nothing in them is skipped.
pub open spec fn raw_row_at(sheet: Sheet, r: int, dj_col: int) -> Option<RawRowView> {
    let t = match sheet.cell(r, dj_col - 1) {
        Some(c) => cell_time(c),
        None => None,
    };
    let dj = filled_text(sheet.cell(r, dj_col));
    let vj = filled_text(sheet.cell(r, dj_col + 1));
    let notes = match sheet.cell(r, dj_col + 2) {
        Some(Cell::Text(s)) => s@,
        _ => Seq::empty(),
    };
    if t is None && dj is None && vj is None && is_blank(notes) {
        None
    } else {
        Some(RawRowView { parsed_time: t, dj, vj, notes })
    }
}

/// The lineup rows among rows `lo..hi`.
pub open spec fn raw_rows_between(sheet: Sheet, lo: int, hi: int, dj_col: int) -> Seq<RawRowView>
    decreases hi - lo,
{
    if hi <= lo {
        Seq::empty()
    } else {
        let rest = raw_rows_between(sheet, lo, hi - 1, dj_col);
        match raw_row_at(sheet, hi - 1, dj_col) {
            Some(x) => rest.push(x),
            None => rest,
        }
    }
}

/// What `parse_sheet` makes of a sheet: its lineup, or why it is skipped.
pub open spec fn parsed_sheet(name: Seq<char>, sheet: Sheet) -> Result<RawSheetView, Seq<char>> {
    match header_row(sheet) {
        None => Err("no DJ header row"@),
        Some(hr) => {
            let dc = label_col(sheet.rows@[hr]@, dj_label()).unwrap();
            if dc < 1 {
                Err("DJ header has no time column to its left"@)
            } else {
                match sheet_month_day(name, sheet) {
                    None => Err("no month-day in Day cell, sheet name, or title"@),
                    Some((m, d)) => {
                        let rows = raw_rows_between(sheet, hr + 1, sheet.rows@.len() as int, dc);
                        if rows.len() == 0 {
                            Err("no lineup rows"@)
                        } else {
                            Ok(RawSheetView { sheet_name: name, month: m, day: d, rows })
                        }
                    },
                }
            }
        },
    }
}

fn cell_is_label(c: &Cell, label: &Vec<char>) -> (r: bool)
    ensures
        r == is_label(*c, label@),
{
    match c {
        Cell::Text(s) => {
            let v = chars_of(s.as_str());
            let (lo, hi) = trim_bounds(&v);
            let t = slice_chars(&v, lo, hi);
            let l = ascii_lower_chars(&t);
            same_chars(&l, label)
        },
        _ => false,
    }
}

fn slice_chars(v: &Vec<char>, lo: usize, hi: usize) -> (r: Vec<char>)
    requires
        lo <= hi <= v@.len(),
    ensures
        r@ == v@.subrange(lo as int, hi as int),
{
    let mut r: Vec<char> = Vec::new();
    let mut i = lo;
    while i < hi
        invariant
            lo <= i <= hi,
            hi <= v@.len(),
            r@ == v@.subrange(lo as int, i as int),
        decreases hi - i,
    {
        r.push(v[i]);
        i = i + 1;
        assert(r@ =~= v@.subrange(lo as int, i as int));
    }
    r
}

fn find_label(row: &Vec<Cell>, label: &Vec<char>) -> (r: Option<usize>)
    ensures
        match r {
            Some(c) => label_col(row@, label@) == Some(c as int) && c < row@.len(),
            None => label_col(row@, label@) is None,
        },
{
    let ghost p = label_pred(label@);
    let mut c: usize = 0;
    while c < row.len()
        invariant
            c <= row@.len(),
            p == label_pred(label@),
            forall|j: int| 0 <= j < c ==> !p(#[trigger] row@[j]),
        decreases row@.len() - c,
    {
        if cell_is_label(&row[c], label) {
            proof {
                lemma_first_where_at(row@, p, c as int);
            }
            return Some(c);
        }
        c = c + 1;
    }
    proof {
        lemma_first_where_none(row@, p);
    }
    None
}

fn label_chars_dj() -> (r: Vec<char>)
    ensures
        r@ == dj_label(),
{
    let mut v = Vec::new();
    v.push('d');
    v.push('j');
    assert(v@ =~= dj_label());
    v
}

fn label_chars_day() -> (r: Vec<char>)
    ensures
        r@ == day_label(),
{
    let mut v = Vec::new();
    v.push('d');
    v.push('a');
    v.push('y');
    v.push(':');
    assert(v@ =~= day_label());
    v
}

fn time_of_cell(c: &Cell) -> (r: Option<(u8, u8)>)
    ensures
        r == cell_time(*c),
{
    match c {
        Cell::Text(s) => parse_time(s.as_str()),
        Cell::DateTime { time, month_day } => Some(*time),
        Cell::Number { time } => Some(*time),
        Cell::Other => None,
    }
}

fn month_day_of_cell(c: &Cell) -> (r: Option<(u32, u32)>)
    ensures
        match cell_month_day(*c) {
            Some((m, d)) => r == Some((m as u32, d as u32)),
            None => r is None,
        },
{
    match c {
        Cell::Text(s) => parse_month_day(s.as_str()),
        Cell::DateTime { time, month_day } => *month_day,
        _ => None,
    }
}

fn filled(c: Option<&Cell>) -> (r: Option<String>)
    ensures
        opt_text(r) == filled_text(match c {
            Some(x) => Some(*x),
            None => None,
        }),
{
    match c {
        Some(Cell::Text(s)) => {
            if is_blank_str(s.as_str()) {
                None
            } else {
                Some(s.clone())
            }
        },
        _ => None,
    }
}

fn text_or_empty(c: Option<&Cell>) -> (r: String)
    ensures
        r@ == match c {
            Some(Cell::Text(s)) => s@,
            _ => Seq::empty(),
        },
{
    match c {
        Some(Cell::Text(s)) => s.clone(),
        _ => String::new(),
    }
}

fn month_day_of_title(sheet: &Sheet) -> (r: Option<(u32, u32)>)
    requires
        sheet.wf(),
    ensures
        match title_month_day(*sheet) {
            Some((m, d)) => r == Some((m as u32, d as u32)),
            None => r is None,
        },
{
    let n = if sheet.rows.len() < 4 {
        sheet.rows.len()
    } else {
        4
    };
    let ghost top = sheet.rows@.take(n as int);
    let ghost rp = row_has_dated_text();
    let ghost cp = dated_text_pred();
    let mut r: usize = 0;
    while r < n
        invariant
            r <= n,
            n <= sheet.rows@.len(),
            top == sheet.rows@.take(n as int),
            top == sheet.rows@.take(if sheet.rows@.len() < 4 { sheet.rows@.len() as int } else { 4 }),
            top.len() == n,
            rp == row_has_dated_text(),
            cp == dated_text_pred(),
            forall|j: int| 0 <= j < r ==> !rp(#[trigger] top[j]),
        decreases n - r,
    {
        let row = &sheet.rows[r];
        assert(top[r as int] == *row);
        let mut c: usize = 0;
        while c < row.len()
            invariant
                c <= row@.len(),
                r < n,
                top.len() == n,
                top == sheet.rows@.take(if sheet.rows@.len() < 4 { sheet.rows@.len() as int } else { 4 }),
                top[r as int] == *row,
                rp == row_has_dated_text(),
                cp == dated_text_pred(),
                forall|j: int| 0 <= j < r ==> !rp(#[trigger] top[j]),
                forall|j: int| 0 <= j < c ==> !cp(#[trigger] row@[j]),
            decreases row@.len() - c,
        {
            if let Cell::Text(s) = &row[c] {
                if let Some(md) = parse_month_day(s.as_str()) {
                    proof {
                        lemma_first_where_at(row@, cp, c as int);
                        lemma_first_where_at(top, rp, r as int);
                        assert(title_month_day(*sheet) == month_day_of(s@));
                    }
                    return Some(md);
                }
            }
            c = c + 1;
        }
        proof {
            lemma_first_where_none(row@, cp);
        }
        r = r + 1;
    }
    proof {
        lemma_first_where_none(top, rp);
    }
    None
}

/// The header row and the column of its first `DJ` cell.
fn find_header(sheet: &Sheet, dj: &Vec<char>) -> (r: Option<(usize, usize)>)
    requires
        sheet.wf(),
        dj@ == dj_label(),
    ensures
        match header_row(*sheet) {
            Some(h) => r matches Some((hr, c)) && hr == h && label_col(sheet.rows@[h]@, dj_label())
                == Some(c as int) && c < sheet.width,
            None => r is None,
        },
        r matches Some((hr, c)) ==> hr < sheet.rows@.len() && c < sheet.width,
{
    let ghost rp = row_has_label(dj_label());
    let mut hr: usize = 0;
    while hr < sheet.rows.len()
        invariant
            hr <= sheet.rows@.len(),
            sheet.wf(),
            dj@ == dj_label(),
            rp == row_has_label(dj_label()),
            forall|j: int| 0 <= j < hr ==> !rp(#[trigger] sheet.rows@[j]),
        decreases sheet.rows@.len() - hr,
    {
        if let Some(c) = find_label(&sheet.rows[hr], dj) {
            proof {
                lemma_first_where_at(sheet.rows@, rp, hr as int);
            }
            return Some((hr, c));
        }
        hr = hr + 1;
    }
    proof {
        lemma_first_where_none(sheet.rows@, rp);
    }
    None
}

/// Where the `Day:` value stands: right of the first `Day:` cell of the
/// first row where that cell is not in the last column.
fn find_day_value(sheet: &Sheet) -> (r: Option<(usize, usize)>)
    requires
        sheet.wf(),
    ensures
        match first_where(sheet.rows@, day_row_pred(sheet.width as int)) {
            Some(h) => r matches Some((hr, c)) && hr == h && label_col(sheet.rows@[h]@, day_label())
                == Some(c - 1) && c < sheet.width,
            None => r is None,
        },
        r matches Some((hr, c)) ==> hr < sheet.rows@.len() && c < sheet.width,
{
    let day = label_chars_day();
    let ghost rp = day_row_pred(sheet.width as int);
    let mut hr: usize = 0;
    while hr < sheet.rows.len()
        invariant
            hr <= sheet.rows@.len(),
            sheet.wf(),
            day@ == day_label(),
            rp == day_row_pred(sheet.width as int),
            forall|j: int| 0 <= j < hr ==> !rp(#[trigger] sheet.rows@[j]),
        decreases sheet.rows@.len() - hr,
    {
        if let Some(c) = find_label(&sheet.rows[hr], &day) {
            if c + 1 < sheet.width {
                proof {
                    lemma_first_where_at(sheet.rows@, rp, hr as int);
                }
                return Some((hr, c + 1));
            }
        }
        hr = hr + 1;
    }
    proof {
        lemma_first_where_none(sheet.rows@, rp);
    }
    None
}

fn sheet_month_day_exec(name: &str, sheet: &Sheet) -> (r: Option<(u32, u32)>)
    requires
        sheet.wf(),
    ensures
        match sheet_month_day(name@, *sheet) {
            Some((m, d)) => r == Some((m as u32, d as u32)),
            None => r is None,
        },
{
    let from_day = match find_day_value(sheet) {
        Some((r, c)) => month_day_of_cell(&sheet.rows[r][c]),
        None => None,
    };
    match from_day {
        Some(md) => Some(md),
        None => match parse_month_day(name) {
            Some(md) => Some(md),
            None => month_day_of_title(sheet),
        },
    }
}

/// Lineup row `r`, if it is not empty.
fn row_at(sheet: &Sheet, r: usize, dj_col: usize) -> (res: Option<RawRow>)
    requires
        sheet.wf(),
        r < sheet.rows@.len(),
        1 <= dj_col < sheet.width,
    ensures
        match raw_row_at(*sheet, r as int, dj_col as int) {
            Some(x) => res matches Some(row) && row@ == x,
            None => res is None,
        },
        res matches Some(row) ==> time_in_range(row.parsed_time),
{
    let t = match sheet.get(r, dj_col - 1) {
        Some(c) => time_of_cell(c),
        None => None,
    };
    assert(time_in_range(t));
    let dj = filled(sheet.get(r, dj_col));
    let vj = filled(sheet.get(r, dj_col + 1));
    let notes = text_or_empty(sheet.get(r, dj_col + 2));
    if t.is_none() && dj.is_none() && vj.is_none() && is_blank_str(notes.as_str()) {
        None
    } else {
        Some(RawRow { parsed_time: t, dj, vj, notes })
    }
}

/// The lineup rows from row `lo` down.
fn rows_from(sheet: &Sheet, lo: usize, dj_col: usize) -> (res: Vec<RawRow>)
    requires
        sheet.wf(),
        lo <= sheet.rows@.len(),
        1 <= dj_col < sheet.width,
    ensures
        raw_rows_view(res@) == raw_rows_between(*sheet, lo as int, sheet.rows@.len() as int, dj_col as int),
        res@.len() <= sheet.rows@.len() - lo,
        forall|k: int| 0 <= k < res@.len() ==> time_in_range(#[trigger] res@[k].parsed_time),
{
    let mut out: Vec<RawRow> = Vec::new();
    let mut i = lo;
    while i < sheet.rows.len()
        invariant
            sheet.wf(),
            lo <= i <= sheet.rows@.len(),
            1 <= dj_col < sheet.width,
            raw_rows_view(out@) == raw_rows_between(*sheet, lo as int, i as int, dj_col as int),
            out@.len() <= i - lo,
            forall|k: int| 0 <= k < out@.len() ==> time_in_range(#[trigger] out@[k].parsed_time),
        decreases sheet.rows@.len() - i,
    {
        let ghost before = out@;
        match row_at(sheet, i, dj_col) {
            Some(row) => {
                out.push(row);
                assert(raw_rows_view(out@) =~= raw_rows_view(before).push(out@.last()@));
            },
            None => {},
        }
        i = i + 1;
    }
    out
}

/// Reads a sheet's lineup: the `DJ` header locates the columns (time to
/// its left, then VJ and notes to its right), the month and day come from
/// the `Day:` cell, the sheet's name, or the first rows, and every
/// non-empty row below the header is a lineup row. `Err` gives the reason
/// the sheet is skipped.
pub fn parse_sheet(name: &str, sheet: &Sheet) -> (r: Result<RawSheet, String>)
    requires
        sheet.wf(),
    ensures
        match parsed_sheet(name@, *sheet) {
            Ok(v) => r matches Ok(raw) && raw@ == v,
            Err(e) => r matches Err(msg) && msg@ == e,
        },
        r matches Ok(raw) ==> raw.rows@.len() <= sheet.rows@.len() && forall|k: int|
            0 <= k < raw.rows@.len() ==> time_in_range(#[trigger] raw.rows@[k].parsed_time),
{
    let dj = label_chars_dj();
    let (hr, dj_col) = match find_header(sheet, &dj) {
        Some(p) => p,
        None => {
            return Err(owned("no DJ header row"));
        },
    };
    if dj_col < 1 {
        return Err(owned("DJ header has no time column to its left"));
    }
    let (month, day) = match sheet_month_day_exec(name, sheet) {
        Some(p) => p,
        None => {
            return Err(owned("no month-day in Day cell, sheet name, or title"));
        },
    };
    proof {
        lemma_sheet_month_day_bounds(name@, *sheet);
    }
    let n = sheet.rows.len();
    assert(hr < n);
    let rows = rows_from(sheet, hr + 1, dj_col);
    if rows.len() == 0 {
        return Err(owned("no lineup rows"));
    }
    Ok(RawSheet { sheet_name: owned(name), month, day, rows })
}

/// The month and day a sheet states fit the calendar's ranges.
proof fn lemma_sheet_month_day_bounds(name: Seq<char>, sheet: Sheet)
    ensures
        sheet_month_day(name, sheet) matches Some((m, d)) ==> m <= u32::MAX && d <= u32::MAX,
{
    lemma_month_day_from_bounds(name, 0);
    if let Some(c) = day_value(sheet) {
        if let Cell::Text(s) = c {
            lemma_month_day_from_bounds(s@, 0);
        }
    }
    let top = sheet.rows@.take(if sheet.rows@.len() < 4 { sheet.rows@.len() as int } else { 4 });
    if let Some(r) = first_where(top, row_has_dated_text()) {
        if let Cell::Text(s) = top[r]@[first_where(top[r]@, dated_text_pred()).unwrap()] {
            lemma_month_day_from_bounds(s@, 0);
        }
    }
}

} // verus!
