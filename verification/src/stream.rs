//! Streaming counter/buffer: reads raw delimited input line by line, counts
//! the rows that hold any non-whitespace byte, and stages the exact bytes so
//! that replaying them reproduces the input.

use vstd::prelude::*;

use crate::header::format_header;
use crate::header::spec_header;
use crate::text::find_byte;
use crate::text::is_blank;
use crate::text::is_ws_byte;
use crate::text::lemma_find_byte_bounds;
use crate::text::line_is_blank;
use crate::text::scan_for;
use crate::text::spec_lines;
use crate::text::views_of;

verus! {

/// How many lines of `s` hold at least one byte that is not whitespace.
/// A line runs to and includes its line feed; a final line without one still
/// counts when it is not blank.
pub open spec fn row_count_of(s: Seq<u8>) -> nat
    decreases s.len(),
{
    if s.len() == 0 {
        0
    } else {
        let e = find_byte(s, 10);
        let end = if e < s.len() {
            e + 1
        } else {
            e
        };
        proof {
            lemma_find_byte_bounds(s, 10);
        }
        (if is_blank(s.take(end)) {
            0nat
        } else {
            1nat
        }) + row_count_of(s.skip(end))
    }
}

/// How many of these lines are not blank.
pub open spec fn count_nonblank(lines: Seq<Seq<u8>>) -> nat
    decreases lines.len(),
{
    if lines.len() == 0 {
        0
    } else {
        (if is_blank(lines[0]) {
            0nat
        } else {
            1nat
        }) + count_nonblank(lines.skip(1))
    }
}

/// The row count of a byte stream is the number of its lines that hold at
/// least one non-whitespace byte.
pub proof fn lemma_row_count_is_nonblank_lines(s: Seq<u8>)
    ensures
        row_count_of(s) == count_nonblank(spec_lines(s)),
    decreases s.len(),
{
    if s.len() == 0 {
    } else {
        let e = find_byte(s, 10);
        lemma_find_byte_bounds(s, 10);
        if e < s.len() {
            lemma_row_count_is_nonblank_lines(s.skip(e + 1));
            // the line feed is whitespace, so keeping or dropping it does
            // not change whether the line is blank
            assert(is_blank(s.take(e + 1)) == is_blank(s.take(e))) by {
                assert(s[e] == 10);
                assert(forall|k: int|
                    0 <= k < e ==> #[trigger] s.take(e + 1)[k] == s.take(e)[k]);
                if is_blank(s.take(e)) {
                    assert(forall|k: int|
                        0 <= k < e + 1 ==> is_ws_byte(#[trigger] s.take(e + 1)[k]));
                }
            }
            let rest = spec_lines(s.skip(e + 1));
            assert((seq![s.take(e)] + rest).skip(1) =~= rest);
            assert((seq![s.take(e)] + rest)[0] == s.take(e));
        } else {
            assert(s.take(e) =~= s);
            assert(s.skip(e) =~= Seq::<u8>::empty());
            let single = seq![s];
            assert(single.skip(1) =~= Seq::<Seq<u8>>::empty());
            assert(spec_lines(s) == single);
            assert(row_count_of(s.skip(e)) == 0);
            assert(count_nonblank(single.skip(1)) == 0);
            assert(is_blank(s.take(e)) == is_blank(s));
        }
    }
}

/// The staging area of the pass-through pipeline: bytes are appended one line
/// at a time, then read back once, while the meaningful rows among them are
/// counted.
pub struct StagedByteStream {
    staged: Vec<u8>,
    rows: usize,
}

impl StagedByteStream {
    /// The bytes staged so far, exactly as received.
    pub closed spec fn bytes(self) -> Seq<u8> {
        self.staged@
    }

    /// The number of non-blank lines staged so far.
    pub closed spec fn rows(self) -> nat {
        self.rows as nat
    }

    /// An empty staging area.
    pub fn new() -> (s: Self)
        ensures
            s.bytes() == Seq::<u8>::empty(),
            s.rows() == 0,
    {
        let s = StagedByteStream { staged: Vec::new(), rows: 0 };
        proof {
            assert(s.bytes() =~= Seq::<u8>::empty());
        }
        s
    }

    /// Stage one line, exactly as read, counting it when any of its bytes is
    /// not whitespace. The line includes its delimiter when it has one.
    pub fn stage_line(&mut self, line: &Vec<u8>)
        requires
            old(self).rows() < usize::MAX,
        ensures
            final(self).bytes() == old(self).bytes() + line@,
            is_blank(line@) ==> final(self).rows() == old(self).rows(),
            !is_blank(line@) ==> final(self).rows() == old(self).rows() + 1,
    {
        let n = line.len();
        let mut i: usize = 0;
        let ghost before = self.staged@;
        while i < n
            invariant
                0 <= i <= n,
                n == line@.len(),
                self.staged@ =~= before + line@.take(i as int),
                self.rows == old(self).rows,
            decreases n - i,
        {
            self.staged.push(line[i]);
            proof {
                assert(self.staged@ =~= before + line@.take(i as int + 1));
            }
            i = i + 1;
        }
        proof {
            assert(self.staged@ =~= before + line@);
        }
        if !line_is_blank(line) {
            self.rows = self.rows + 1;
        }
    }

    /// The count of meaningful rows staged so far.
    pub fn row_count(&self) -> (r: usize)
        ensures
            r == self.rows(),
    {
        self.rows
    }

    /// Read the staged bytes back, consuming the staging area: replay
    /// reproduces exactly what was staged.
    pub fn into_bytes(self) -> (r: Vec<u8>)
        ensures
            r@ == self.bytes(),
    {
        self.staged
    }
}

/// Run the whole counting pass over `input`: the staged bytes are exactly
/// `input`, and the row count is the number of lines of `input` holding any
/// non-whitespace byte.
pub fn stage_input(input: &Vec<u8>) -> (s: StagedByteStream)
    ensures
        s.bytes() == input@,
        s.rows() == row_count_of(input@),
{
    let mut st = StagedByteStream::new();
    let n = input.len();
    let mut pos: usize = 0;
    proof {
        assert(st.bytes() =~= input@.take(0));
        assert(input@.skip(0) =~= input@);
    }
    while pos < n
        invariant
            0 <= pos <= n,
            n == input@.len(),
            st.bytes() =~= input@.take(pos as int),
            st.rows() <= pos,
            st.rows() + row_count_of(input@.skip(pos as int)) == row_count_of(input@),
        decreases n - pos,
    {
        let j = scan_for(input, 10, pos);
        let end = if j < n {
            j + 1
        } else {
            n
        };
        let mut line: Vec<u8> = Vec::new();
        let mut i = pos;
        while i < end
            invariant
                pos <= i <= end <= n,
                n == input@.len(),
                line@ =~= input@.subrange(pos as int, i as int),
            decreases end - i,
        {
            line.push(input[i]);
            proof {
                assert(line@ =~= input@.subrange(pos as int, i as int + 1));
            }
            i = i + 1;
        }
        let ghost rest = input@.skip(pos as int);
        proof {
            // one line of the remainder: find_byte locates its end
            assert(line@ =~= rest.take(end - pos));
            assert(rest.skip(end - pos) =~= input@.skip(end as int));
        }
        st.stage_line(&line);
        proof {
            assert(st.bytes() =~= input@.take(end as int));
        }
        pos = end;
    }
    proof {
        assert(input@.take(n as int) =~= input@);
        assert(input@.skip(n as int) =~= Seq::<u8>::empty());
    }
    st
}

/// The pass-through conversion: the header names the entity and the fields
/// and carries the row count of `input`; the body is `input` itself,
/// byte for byte.
pub fn convert_passthrough(entity: &Vec<u8>, fields: &Vec<Vec<u8>>, input: &Vec<u8>) -> (out: Vec<
    u8,
>)
    ensures
        out@ == spec_header(entity@, row_count_of(input@), views_of(fields@)) + input@,
{
    let st = stage_input(input);
    let count = st.row_count();
    let mut out = format_header(entity, count, fields);
    let mut body = st.into_bytes();
    out.append(&mut body);
    out
}

} // verus!
