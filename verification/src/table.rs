//! The ASCII table parser: locate the separator line, read the line before
//! it as the column header, consume data rows until a footer or a second
//! separator, and re-emit the table as escaped delimited records.

use vstd::prelude::*;

use crate::escape::escape_csv_field;
use crate::escape::join_escaped;
use crate::escape::spec_escape;
use crate::escape::spec_record;
use crate::text::is_blank;
use crate::text::line_is_blank;
use crate::text::spec_lines;
use crate::text::spec_split;
use crate::text::spec_trim;
use crate::text::split_by;
use crate::text::split_lines;
use crate::text::trim_bytes;
use crate::text::views_of;
use crate::text::rows_views;
use crate::text::lemma_views_of_push;
use crate::text::lemma_rows_views_push;

verus! {

/// Why an input fails to parse as a rendered table.
#[derive(Debug, Clone, Copy, PartialEq, Eq, Structural)]
pub enum ParseError {
    /// The input has no lines at all.
    EmptyInput,
    /// No line holds three consecutive dashes.
    NoSeparator,
    /// The separator is the very first line, so no header precedes it.
    MissingHeader,
    /// The header line yields no field names.
    NoColumns,
    /// A data row has a different number of cells than the header has
    /// columns.
    ColumnMismatch { expected: usize, found: usize },
}

impl ParseError {
    /// A human-readable reason for the failure.
    pub fn message(&self) -> (r: String)
        ensures
            self is EmptyInput ==> r@ == "Empty input: no data to parse"@,
            self is NoSeparator ==> r@
                == "Input does not appear to be a psql table (no separator line found)"@,
            self is MissingHeader ==> r@
                == "Malformed table: separator found at first line (missing header)"@,
            self is NoColumns ==> r@ == "No columns found in header"@,
            self is ColumnMismatch ==> r@ == "Column count mismatch"@,
    {
        match self {
            ParseError::EmptyInput => "Empty input: no data to parse".to_owned(),
            ParseError::NoSeparator => "Input does not appear to be a psql table (no separator line found)".to_owned(),
            ParseError::MissingHeader => "Malformed table: separator found at first line (missing header)".to_owned(),
            ParseError::NoColumns => "No columns found in header".to_owned(),
            ParseError::ColumnMismatch { .. } => "Column count mismatch".to_owned(),
        }
    }
}

/// Three consecutive bytes `a`, `b`, `c` occur somewhere in `s`.
pub open spec fn spec_has_triple(s: Seq<u8>, a: u8, b: u8, c: u8) -> bool {
    exists|i: int|
        0 <= i && i + 3 <= s.len() && #[trigger] s[i] == a && s[i + 1] == b && s[i + 2] == c
}

/// A separator line holds three or more consecutive dashes.
pub open spec fn spec_is_separator(s: Seq<u8>) -> bool {
    spec_has_triple(s, 45, 45, 45)
}

/// A footer line: trimmed, it starts with `(`, ends with `)` and holds the
/// letters `row` in a row.
pub open spec fn spec_is_footer(s: Seq<u8>) -> bool {
    let t = spec_trim(s);
    t.len() > 0 && t[0] == 40 && t.last() == 41 && spec_has_triple(t, 114, 111, 119)
}

fn contains_triple(s: &Vec<u8>, a: u8, b: u8, c: u8) -> (r: bool)
    ensures
        r == spec_has_triple(s@, a, b, c),
{
    let n = s.len();
    if n < 3 {
        return false;
    }
    let mut i: usize = 0;
    while i <= n - 3
        invariant
            0 <= i <= n - 2,
            n == s@.len(),
            n >= 3,
            forall|k: int|
                0 <= k < i ==> !(#[trigger] s@[k] == a && s@[k + 1] == b && s@[k + 2] == c),
        decreases n - i,
    {
        if s[i] == a && s[i + 1] == b && s[i + 2] == c {
            return true;
        }
        i = i + 1;
    }
    false
}

/// Does this line mark the boundary between header and data rows?
pub fn is_separator_line(line: &Vec<u8>) -> (r: bool)
    ensures
        r == spec_is_separator(line@),
{
    contains_triple(line, 45, 45, 45)
}

/// Does this line summarize the table, such as a row-count trailer?
pub fn is_footer_line(line: &Vec<u8>) -> (r: bool)
    ensures
        r == spec_is_footer(line@),
{
    let t = trim_bytes(line);
    let n = t.len();
    if n == 0 {
        return false;
    }
    if t[0] != 40 {
        return false;
    }
    if t[n - 1] != 41 {
        return false;
    }
    contains_triple(&t, 114, 111, 119)
}

/// The index of the first separator line, or `lines.len()` if none exists.
pub open spec fn spec_sep_idx(lines: Seq<Seq<u8>>) -> int
    decreases lines.len(),
{
    if lines.len() == 0 {
        0
    } else if spec_is_separator(lines[0]) {
        0
    } else {
        1 + spec_sep_idx(lines.skip(1))
    }
}

pub proof fn lemma_sep_idx_bounds(lines: Seq<Seq<u8>>)
    ensures
        0 <= spec_sep_idx(lines) <= lines.len(),
    decreases lines.len(),
{
    if lines.len() == 0 {
    } else if spec_is_separator(lines[0]) {
    } else {
        lemma_sep_idx_bounds(lines.skip(1));
    }
}

pub proof fn lemma_sep_idx_is(lines: Seq<Seq<u8>>, m: int)
    requires
        0 <= m <= lines.len(),
        forall|k: int| 0 <= k < m ==> !spec_is_separator(lines[k]),
        m < lines.len() ==> spec_is_separator(lines[m]),
    ensures
        spec_sep_idx(lines) == m,
    decreases lines.len(),
{
    if lines.len() == 0 {
    } else if spec_is_separator(lines[0]) {
        assert(m == 0);
    } else {
        assert(m >= 1);
        assert forall|k: int| 0 <= k < m - 1 implies !spec_is_separator(
            lines.skip(1)[k],
        ) by {
            assert(lines.skip(1)[k] == lines[k + 1]);
        }
        if m - 1 < lines.skip(1).len() {
            assert(lines.skip(1)[m - 1] == lines[m]);
        }
        lemma_sep_idx_is(lines.skip(1), m - 1);
    }
}

/// The field names read from the pieces of a header line: each piece is
/// trimmed, and pieces that trim to nothing are dropped.
pub open spec fn spec_fields(pieces: Seq<Seq<u8>>) -> Seq<Seq<u8>>
    decreases pieces.len(),
{
    if pieces.len() == 0 {
        Seq::empty()
    } else {
        (if spec_trim(pieces[0]).len() == 0 {
            Seq::<Seq<u8>>::empty()
        } else {
            seq![spec_trim(pieces[0])]
        }) + spec_fields(pieces.skip(1))
    }
}

/// The schema a header line yields: split on the vertical bar, trim, drop
/// empty pieces.
pub open spec fn spec_header_fields(line: Seq<u8>) -> Seq<Seq<u8>> {
    spec_fields(spec_split(line, 124))
}

/// The cells a data line yields: split on the vertical bar and trim each
/// piece, keeping empty pieces as empty strings (absent values).
pub open spec fn spec_cells(line: Seq<u8>) -> Seq<Seq<u8>> {
    spec_split(line, 124).map(|i: int, p: Seq<u8>| spec_trim(p))
}

/// The data rows read from `lines` starting at `i`, each with exactly
/// `ncols` cells: consumption stops before a footer or separator line, blank
/// lines are skipped, and the first row with a different cell count fails
/// with that count.
pub open spec fn spec_rows(lines: Seq<Seq<u8>>, i: int, ncols: nat) -> Result<
    Seq<Seq<Seq<u8>>>,
    nat,
>
    decreases lines.len() - i,
{
    if i < 0 || i >= lines.len() {
        Ok(Seq::empty())
    } else if spec_is_footer(lines[i]) || spec_is_separator(lines[i]) {
        Ok(Seq::empty())
    } else if is_blank(lines[i]) {
        spec_rows(lines, i + 1, ncols)
    } else {
        let cs = spec_cells(lines[i]);
        if cs.len() == ncols {
            match spec_rows(lines, i + 1, ncols) {
                Ok(rest) => Ok(seq![cs] + rest),
                Err(f) => Err(f),
            }
        } else {
            Err(cs.len())
        }
    }
}

/// The table body: one delimited record per row, each followed by a line
/// feed.
pub open spec fn spec_body(rows: Seq<Seq<Seq<u8>>>) -> Seq<u8>
    decreases rows.len(),
{
    if rows.len() == 0 {
        Seq::empty()
    } else {
        spec_body(rows.drop_last()) + spec_record(rows.last()) + seq![10u8]
    }
}

/// A parsed table: the ordered column names and the rows of cell values.
/// Every row has exactly one cell per column.
#[derive(Debug)]
pub struct PsqlTable {
    pub columns: Vec<Vec<u8>>,
    pub rows: Vec<Vec<Vec<u8>>>,
}

impl PsqlTable {
    /// The structural invariant: at least one column, and each row as wide
    /// as the schema.
    pub open spec fn wf(self) -> bool {
        self.columns@.len() > 0 && forall|i: int|
            0 <= i < self.rows@.len() ==> (#[trigger] self.rows@[i])@.len()
                == self.columns@.len()
    }

    /// Read the column names out of the header line.
    pub fn parse_header(line: &Vec<u8>) -> (r: Result<Vec<Vec<u8>>, ParseError>)
        ensures
            match r {
                Ok(cols) => views_of(cols@) == spec_header_fields(line@) && cols@.len() > 0,
                Err(e) => e == ParseError::NoColumns && spec_header_fields(line@).len() == 0,
            },
    {
        let pieces = split_by(line, 124);
        let n = pieces.len();
        let ghost pv = views_of(pieces@);
        let mut cols: Vec<Vec<u8>> = Vec::new();
        let mut i: usize = 0;
        proof {
            assert(pv.skip(0) =~= pv);
            assert(views_of(cols@) =~= Seq::<Seq<u8>>::empty());
        }
        while i < n
            invariant
                0 <= i <= n,
                n == pieces@.len(),
                pv == views_of(pieces@),
                pv == spec_split(line@, 124),
                spec_fields(pv) =~= views_of(cols@) + spec_fields(pv.skip(i as int)),
            decreases n - i,
        {
            let ghost before = views_of(cols@);
            let ghost rest = pv.skip(i as int);
            proof {
                assert(rest[0] == pv[i as int]);
                assert(rest.skip(1) =~= pv.skip(i as int + 1));
            }
            let t = trim_bytes(&pieces[i]);
            if t.len() > 0 {
                let ghost cv = cols@;
                cols.push(t);
                proof {
                    lemma_views_of_push(cv, t);
                    assert(spec_fields(pv) =~= views_of(cols@) + spec_fields(
                        pv.skip(i as int + 1),
                    ));
                }
            } else {
                proof {
                    assert(spec_fields(pv) =~= views_of(cols@) + spec_fields(
                        pv.skip(i as int + 1),
                    ));
                }
            }
            i = i + 1;
        }
        proof {
            assert(pv.skip(n as int) =~= Seq::<Seq<u8>>::empty());
            assert(views_of(cols@) =~= spec_fields(pv));
        }
        if cols.len() == 0 {
            Err(ParseError::NoColumns)
        } else {
            Ok(cols)
        }
    }

    /// Parse a rendered table out of raw input bytes.
    ///
    /// The first separator line anchors the structure: the line before it is
    /// the header, the lines after it are data rows up to (but not
    /// including) the first footer or second separator. Blank lines among
    /// the data are skipped; a table may also end with its last data row.
    pub fn parse(input: &Vec<u8>) -> (r: Result<PsqlTable, ParseError>)
        ensures
            ({
                let lines = spec_lines(input@);
                let si = spec_sep_idx(lines);
                &&& (lines.len() == 0 ==> r == Err::<PsqlTable, ParseError>(
                    ParseError::EmptyInput,
                ))
                &&& (lines.len() > 0 && si >= lines.len() ==> r == Err::<
                    PsqlTable,
                    ParseError,
                >(ParseError::NoSeparator))
                &&& (lines.len() > 0 && si == 0 && si < lines.len() ==> r == Err::<
                    PsqlTable,
                    ParseError,
                >(ParseError::MissingHeader))
                &&& (0 < si < lines.len() ==> {
                    let fields = spec_header_fields(lines[si - 1]);
                    &&& (fields.len() == 0 ==> r == Err::<PsqlTable, ParseError>(
                        ParseError::NoColumns,
                    ))
                    &&& (fields.len() > 0 ==> match spec_rows(
                        lines,
                        si + 1,
                        fields.len(),
                    ) {
                        Ok(rs) => {
                            &&& r is Ok
                            &&& views_of(r->Ok_0.columns@) == fields
                            &&& rows_views(r->Ok_0.rows@) == rs
                            &&& r->Ok_0.wf()
                        },
                        Err(f) => r == Err::<PsqlTable, ParseError>(
                            ParseError::ColumnMismatch {
                                expected: fields.len() as usize,
                                found: f as usize,
                            },
                        ),
                    })
                })
            }),
    {
        let lines = split_lines(input);
        let ghost lv = views_of(lines@);
        let nl = lines.len();
        if nl == 0 {
            return Err(ParseError::EmptyInput);
        }
        let mut si: usize = 0;
        while si < nl && !is_separator_line(&lines[si])
            invariant
                0 <= si <= nl,
                nl == lines@.len(),
                lv == views_of(lines@),
                forall|k: int| 0 <= k < si ==> !spec_is_separator(lv[k]),
            decreases nl - si,
        {
            si = si + 1;
        }
        proof {
            lemma_sep_idx_is(lv, si as int);
        }
        if si == nl {
            return Err(ParseError::NoSeparator);
        }
        if si == 0 {
            return Err(ParseError::MissingHeader);
        }
        let columns = match Self::parse_header(&lines[si - 1]) {
            Ok(cols) => cols,
            Err(e) => {
                return Err(e);
            },
        };
        let ncols = columns.len();
        let mut rows: Vec<Vec<Vec<u8>>> = Vec::new();
        let mut i: usize = si + 1;
        proof {
            assert(rows_views(rows@) =~= Seq::<Seq<Seq<u8>>>::empty());
            assert(match spec_rows(lv, i as int, ncols as nat) {
                Ok(rest) => spec_rows(lv, si + 1, ncols as nat) == Ok::<_, nat>(
                    rows_views(rows@) + rest,
                ),
                Err(f) => spec_rows(lv, si + 1, ncols as nat) == Err::<Seq<Seq<Seq<u8>>>, _>(f),
            }) by {
                assert(rows_views(rows@) + spec_rows(lv, si + 1, ncols as nat)->Ok_0
                    =~= spec_rows(lv, si + 1, ncols as nat)->Ok_0);
            }
        }
        while i < nl
            invariant_except_break
                si + 1 <= i <= nl,
                nl == lines@.len(),
                lv == views_of(lines@),
                lv == spec_lines(input@),
                0 < si < nl,
                spec_sep_idx(lv) == si as int,
                views_of(columns@) == spec_header_fields(lv[si as int - 1]),
                ncols == columns@.len(),
                ncols > 0,
                forall|k: int|
                    0 <= k < rows@.len() ==> (#[trigger] rows@[k])@.len() == ncols,
                match spec_rows(lv, i as int, ncols as nat) {
                    Ok(rest) => spec_rows(lv, si + 1, ncols as nat) == Ok::<_, nat>(
                        rows_views(rows@) + rest,
                    ),
                    Err(f) => spec_rows(lv, si + 1, ncols as nat) == Err::<
                        Seq<Seq<Seq<u8>>>,
                        _,
                    >(f),
                },
            ensures
                spec_rows(lv, si + 1, ncols as nat) == Ok::<_, nat>(rows_views(rows@)),
                forall|k: int|
                    0 <= k < rows@.len() ==> (#[trigger] rows@[k])@.len() == ncols,
            decreases nl - i,
        {
            let line = &lines[i];
            proof {
                assert(line@ == lv[i as int]);
            }
            if is_footer_line(line) || is_separator_line(line) {
                proof {
                    assert(spec_rows(lv, i as int, ncols as nat) == Ok::<_, nat>(
                        Seq::<Seq<Seq<u8>>>::empty(),
                    ));
                    assert(rows_views(rows@) + Seq::<Seq<Seq<u8>>>::empty() =~= rows_views(
                        rows@,
                    ));
                }
                break;
            }
            if line_is_blank(line) {
                i = i + 1;
                continue;
            }
            let row = match Self::parse_row(line, ncols) {
                Ok(cells) => cells,
                Err(e) => {
                    proof {
                        let cs = spec_cells(lv[i as int]);
                        assert(spec_rows(lv, i as int, ncols as nat) == Err::<
                            Seq<Seq<Seq<u8>>>,
                            nat,
                        >(cs.len()));
                        assert(spec_rows(lv, si + 1, ncols as nat) == Err::<
                            Seq<Seq<Seq<u8>>>,
                            nat,
                        >(cs.len()));
                        assert(views_of(columns@).len() == ncols as nat);
                    }
                    return Err(e);
                },
            };
            let ghost rv = rows@;
            rows.push(row);
            proof {
                lemma_rows_views_push(rv, row);
                assert(spec_cells(lv[i as int]).len() == ncols);
                match spec_rows(lv, i as int + 1, ncols as nat) {
                    Ok(rest) => {
                        assert(spec_rows(lv, i as int, ncols as nat) == Ok::<_, nat>(
                            seq![spec_cells(lv[i as int])] + rest,
                        ));
                        assert(rows_views(rv) + (seq![spec_cells(lv[i as int])] + rest)
                            =~= rows_views(rows@) + rest);
                    },
                    Err(_) => {},
                }
            }
            i = i + 1;
        }
        proof {
            if i == nl {
                assert(spec_rows(lv, nl as int, ncols as nat) == Ok::<_, nat>(
                    Seq::<Seq<Seq<u8>>>::empty(),
                ));
            }
        }
        let table = PsqlTable { columns, rows };
        Ok(table)
    }

    /// How many data rows the table holds.
    pub fn row_count(&self) -> (r: usize)
        ensures
            r == self.rows@.len(),
    {
        self.rows.len()
    }

    /// The table body: one escaped delimited record per row, each followed
    /// by a line feed.
    pub fn csv_body(&self) -> (r: Vec<u8>)
        ensures
            r@ == spec_body(rows_views(self.rows@)),
    {
        let n = self.rows.len();
        let mut r: Vec<u8> = Vec::new();
        let mut i: usize = 0;
        proof {
            assert(rows_views(self.rows@).take(0) =~= Seq::<Seq<Seq<u8>>>::empty());
        }
        while i < n
            invariant
                0 <= i <= n,
                n == self.rows@.len(),
                r@ =~= spec_body(rows_views(self.rows@).take(i as int)),
            decreases n - i,
        {
            let ghost rv = rows_views(self.rows@);
            let ghost after = rv.take(i as int + 1);
            proof {
                assert(after.drop_last() =~= rv.take(i as int));
                assert(after.last() == views_of(self.rows@[i as int]@));
            }
            let mut record = join_escaped(&self.rows[i]);
            r.append(&mut record);
            r.push(10);
            proof {
                assert(r@ =~= spec_body(after));
            }
            i = i + 1;
        }
        proof {
            assert(rows_views(self.rows@).take(n as int) =~= rows_views(self.rows@));
        }
        r
    }

    /// Escape one cell value for a delimited record, quoting it when it
    /// holds a comma, a double quote or a line break, and doubling every
    /// inner double quote.
    pub fn escape_csv_field(field: &Vec<u8>) -> (r: Vec<u8>)
        ensures
            r@ == spec_escape(field@),
    {
        escape_csv_field(field)
    }

    /// Read one data line into exactly `expected` trimmed cells.
    pub fn parse_row(line: &Vec<u8>, expected: usize) -> (r: Result<
        Vec<Vec<u8>>,
        ParseError,
    >)
        ensures
            match r {
                Ok(cells) => views_of(cells@) == spec_cells(line@) && cells@.len()
                    == expected,
                Err(e) => {
                    &&& spec_cells(line@).len() != expected
                    &&& e == (ParseError::ColumnMismatch {
                        expected,
                        found: spec_cells(line@).len() as usize,
                    })
                },
            },
    {
        let pieces = split_by(line, 124);
        let n = pieces.len();
        let ghost pv = views_of(pieces@);
        proof {
            assert(spec_cells(line@).len() == pv.len());
        }
        if n != expected {
            return Err(ParseError::ColumnMismatch { expected, found: n });
        }
        let mut cells: Vec<Vec<u8>> = Vec::new();
        let mut i: usize = 0;
        while i < n
            invariant
                0 <= i <= n,
                n == pieces@.len(),
                pv == views_of(pieces@),
                pv == spec_split(line@, 124),
                views_of(cells@) =~= spec_cells(line@).take(i as int),
            decreases n - i,
        {
            let t = trim_bytes(&pieces[i]);
            let ghost cv = cells@;
            cells.push(t);
            proof {
                lemma_views_of_push(cv, t);
                assert(spec_cells(line@)[i as int] == spec_trim(pv[i as int]));
                assert(views_of(cells@) =~= spec_cells(line@).take(i as int + 1));
            }
            i = i + 1;
        }
        proof {
            assert(spec_cells(line@).take(n as int) =~= spec_cells(line@));
        }
        Ok(cells)
    }
}

} // verus!
