//! Conversion of tabular data into the TOSE serialization format: one header
//! line `name[rowCount]{field1,field2,...}:` followed by the row data.
//!
//! Two input disciplines are supported. Raw delimited text is passed through
//! unchanged while its non-blank lines are counted. A rendered ASCII table
//! (header line, separator line, data rows, optional footer) is parsed into a
//! schema and rows, then re-emitted as escaped delimited records.

use vstd::prelude::*;

pub mod escape;
pub mod header;
pub mod stream;
pub mod table;
pub mod text;

use crate::header::format_header;
use crate::header::spec_header;
use crate::table::ParseError;
use crate::table::PsqlTable;
use crate::table::spec_body;
use crate::table::spec_header_fields;
use crate::table::spec_rows;
use crate::table::spec_sep_idx;
use crate::text::rows_views;
use crate::text::spec_lines;
use crate::text::views_of;

verus! {

/// The entity name used when a table is parsed: `result`.
pub open spec fn spec_default_entity() -> Seq<u8> {
    seq![114u8, 101u8, 115u8, 117u8, 108u8, 116u8]
}

/// Converts a rendered table read as raw bytes into a TOSE stream: the
/// header line carries the entity name, the row count and the column names,
/// and the body is one escaped delimited record per data row.
pub struct ToseConverter {
    entity_name: Vec<u8>,
}

impl ToseConverter {
    /// The entity name this converter writes into the header.
    pub closed spec fn entity(self) -> Seq<u8> {
        self.entity_name@
    }

    /// A converter with the default entity name `result`.
    pub fn new() -> (c: Self)
        ensures
            c.entity() == spec_default_entity(),
    {
        let mut e: Vec<u8> = Vec::new();
        e.push(114);
        e.push(101);
        e.push(115);
        e.push(117);
        e.push(108);
        e.push(116);
        let c = ToseConverter { entity_name: e };
        proof {
            assert(c.entity() =~= spec_default_entity());
        }
        c
    }

    /// What a conversion returns: either the full TOSE stream for the table
    /// the input renders, or the first structural error of the parse.
    pub open spec fn spec_convert(entity: Seq<u8>, input: Seq<u8>) -> Result<
        Seq<u8>,
        ParseError,
    > {
        let lines = spec_lines(input);
        let si = spec_sep_idx(lines);
        if lines.len() == 0 {
            Err(ParseError::EmptyInput)
        } else if si >= lines.len() {
            Err(ParseError::NoSeparator)
        } else if si == 0 {
            Err(ParseError::MissingHeader)
        } else {
            let fields = spec_header_fields(lines[si - 1]);
            if fields.len() == 0 {
                Err(ParseError::NoColumns)
            } else {
                match spec_rows(lines, si + 1, fields.len()) {
                    Ok(rs) => Ok(spec_header(entity, rs.len(), fields) + spec_body(rs)),
                    Err(f) => Err(
                        ParseError::ColumnMismatch {
                            expected: fields.len() as usize,
                            found: f as usize,
                        },
                    ),
                }
            }
        }
    }

    /// Parse the input as a rendered table and emit the TOSE stream for it,
    /// or report the first structural error with no output produced.
    pub fn convert(&self, input: &Vec<u8>) -> (r: Result<Vec<u8>, ParseError>)
        ensures
            ({
                let s = Self::spec_convert(self.entity(), input@);
                match r {
                    Ok(out) => s is Ok && out@ == s->Ok_0,
                    Err(e) => s == Err::<Seq<u8>, ParseError>(e),
                }
            }),
    {
        proof {
            crate::table::lemma_sep_idx_bounds(spec_lines(input@));
        }
        let table = match PsqlTable::parse(input) {
            Ok(t) => t,
            Err(e) => {
                return Err(e);
            },
        };
        let count = table.row_count();
        let mut out = self.generate_header(count, &table.columns);
        let mut body = table.csv_body();
        out.append(&mut body);
        proof {
            let lines = spec_lines(input@);
            let si = spec_sep_idx(lines);
            let fields = spec_header_fields(lines[si - 1]);
            let rs = spec_rows(lines, si + 1, fields.len())->Ok_0;
            assert(rows_views(table.rows@) == rs);
            assert(rs.len() == table.rows@.len());
            assert(out@ == spec_header(self.entity(), rs.len(), fields) + spec_body(rs));
        }
        Ok(out)
    }

    /// The TOSE header line for this converter's entity name, a row count
    /// and an ordered column list.
    pub fn generate_header(&self, row_count: usize, columns: &Vec<Vec<u8>>) -> (r: Vec<u8>)
        ensures
            r@ == spec_header(self.entity(), row_count as nat, views_of(columns@)),
    {
        format_header(&self.entity_name, row_count, columns)
    }
}

impl Default for ToseConverter {
    /// The same converter `new` builds, with the default entity name.
    fn default() -> (c: Self)
        ensures
            c.entity() == spec_default_entity(),
    {
        ToseConverter::new()
    }
}

} // verus!
