//! RFC 4180 escaping of cell values and assembly of one delimited record.

use vstd::prelude::*;

use crate::text::views_of;

verus! {

/// A cell value must be quoted when it holds a comma, a double quote, a line
/// feed or a carriage return.
pub open spec fn is_special_byte(b: u8) -> bool {
    b == 44 || b == 34 || b == 10 || b == 13
}

pub open spec fn needs_quoting(s: Seq<u8>) -> bool {
    exists|k: int| 0 <= k < s.len() && is_special_byte(s[k])
}

/// `s` with every double quote doubled.
pub open spec fn spec_double_quotes(s: Seq<u8>) -> Seq<u8>
    decreases s.len(),
{
    if s.len() == 0 {
        Seq::empty()
    } else {
        spec_double_quotes(s.drop_last()) + (if s.last() == 34 {
            seq![34u8, 34u8]
        } else {
            seq![s.last()]
        })
    }
}

/// The escaped form of one cell value: unchanged when no byte calls for
/// quoting, otherwise wrapped in double quotes with every inner double quote
/// doubled. An empty value stays an empty field.
pub open spec fn spec_escape(s: Seq<u8>) -> Seq<u8> {
    if needs_quoting(s) {
        seq![34u8] + spec_double_quotes(s) + seq![34u8]
    } else {
        s
    }
}

/// A value without comma, double quote, line feed or carriage return escapes
/// to itself, so escaping is idempotent on already-simple values.
pub proof fn lemma_escape_plain_identity(s: Seq<u8>)
    requires
        !needs_quoting(s),
    ensures
        spec_escape(s) == s,
{
}

/// An empty value escapes to an empty field: absent values pass through as
/// nothing between delimiters.
pub proof fn lemma_escape_empty()
    ensures
        spec_escape(Seq::<u8>::empty()) == Seq::<u8>::empty(),
{
    assert(!needs_quoting(Seq::<u8>::empty()));
}

/// How many times `b` occurs in `s`.
pub open spec fn count_byte(s: Seq<u8>, b: u8) -> nat
    decreases s.len(),
{
    if s.len() == 0 {
        0
    } else {
        count_byte(s.drop_last(), b) + (if s.last() == b {
            1nat
        } else {
            0nat
        })
    }
}

pub proof fn lemma_count_byte_append(a: Seq<u8>, c: Seq<u8>, b: u8)
    ensures
        count_byte(a + c, b) == count_byte(a, b) + count_byte(c, b),
    decreases c.len(),
{
    if c.len() == 0 {
        assert(a + c =~= a);
    } else {
        lemma_count_byte_append(a, c.drop_last(), b);
        assert((a + c).drop_last() =~= a + c.drop_last());
        assert((a + c).last() == c.last());
    }
}

/// A value holding a double quote is escaped by wrapping it in double quotes
/// and doubling every double quote inside it.
pub proof fn lemma_escape_doubles_quotes(s: Seq<u8>)
    requires
        exists|k: int| 0 <= k < s.len() && s[k] == 34,
    ensures
        spec_escape(s) == seq![34u8] + spec_double_quotes(s) + seq![34u8],
        count_byte(spec_double_quotes(s), 34) == 2 * count_byte(s, 34),
{
    let k = choose|k: int| 0 <= k < s.len() && s[k] == 34;
    assert(is_special_byte(s[k]));
    lemma_double_quotes_count(s);
}

proof fn lemma_double_quotes_count(s: Seq<u8>)
    ensures
        count_byte(spec_double_quotes(s), 34) == 2 * count_byte(s, 34),
    decreases s.len(),
{
    if s.len() == 0 {
    } else {
        lemma_double_quotes_count(s.drop_last());
        let tail: Seq<u8> = if s.last() == 34 {
            seq![34u8, 34u8]
        } else {
            seq![s.last()]
        };
        lemma_count_byte_append(spec_double_quotes(s.drop_last()), tail, 34);
        if s.last() == 34 {
            assert(count_byte(tail, 34) == 2) by {
                assert(tail.drop_last() =~= seq![34u8]);
                assert(seq![34u8].drop_last() =~= Seq::<u8>::empty());
                assert(count_byte(Seq::<u8>::empty(), 34) == 0);
                assert(count_byte(seq![34u8], 34) == 1);
            }
        } else {
            assert(count_byte(tail, 34) == 0) by {
                assert(tail.drop_last() =~= Seq::<u8>::empty());
                assert(count_byte(Seq::<u8>::empty(), 34) == 0);
            }
        }
    }
}

/// Escape one cell value for a delimited record.
pub fn escape_csv_field(field: &Vec<u8>) -> (r: Vec<u8>)
    ensures
        r@ == spec_escape(field@),
{
    let n = field.len();
    let mut special = false;
    let mut i: usize = 0;
    while i < n
        invariant
            0 <= i <= n,
            n == field@.len(),
            special == exists|k: int| 0 <= k < i && is_special_byte(field@[k]),
        decreases n - i,
    {
        let b = field[i];
        if b == 44 || b == 34 || b == 10 || b == 13 {
            special = true;
        }
        i = i + 1;
    }
    if !special {
        let mut r: Vec<u8> = Vec::new();
        let mut j: usize = 0;
        while j < n
            invariant
                0 <= j <= n,
                n == field@.len(),
                r@ =~= field@.take(j as int),
            decreases n - j,
        {
            r.push(field[j]);
            proof {
                assert(r@ =~= field@.take(j as int + 1));
            }
            j = j + 1;
        }
        proof {
            assert(field@.take(n as int) =~= field@);
        }
        r
    } else {
        let mut r: Vec<u8> = Vec::new();
        r.push(34);
        let mut j: usize = 0;
        while j < n
            invariant
                0 <= j <= n,
                n == field@.len(),
                r@ =~= seq![34u8] + spec_double_quotes(field@.take(j as int)),
            decreases n - j,
        {
            let ghost before = field@.take(j as int);
            let ghost after = field@.take(j as int + 1);
            proof {
                assert(after.drop_last() =~= before);
                assert(after.last() == field@[j as int]);
            }
            if field[j] == 34 {
                r.push(34);
                r.push(34);
            } else {
                r.push(field[j]);
            }
            proof {
                assert(r@ =~= seq![34u8] + spec_double_quotes(after));
            }
            j = j + 1;
        }
        r.push(34);
        proof {
            assert(field@.take(n as int) =~= field@);
            assert(r@ =~= seq![34u8] + spec_double_quotes(field@) + seq![34u8]);
        }
        r
    }
}

/// One delimited record: the escaped cells joined with commas, no trailing
/// delimiter.
pub open spec fn spec_record(cells: Seq<Seq<u8>>) -> Seq<u8>
    decreases cells.len(),
{
    if cells.len() == 0 {
        Seq::empty()
    } else if cells.len() == 1 {
        spec_escape(cells[0])
    } else {
        spec_record(cells.drop_last()) + seq![44u8] + spec_escape(cells.last())
    }
}

/// Render one row of cell values as a delimited record.
pub fn join_escaped(cells: &Vec<Vec<u8>>) -> (r: Vec<u8>)
    ensures
        r@ == spec_record(views_of(cells@)),
{
    let n = cells.len();
    let mut r: Vec<u8> = Vec::new();
    let mut i: usize = 0;
    proof {
        assert(views_of(cells@).take(0) =~= Seq::<Seq<u8>>::empty());
    }
    while i < n
        invariant
            0 <= i <= n,
            n == cells@.len(),
            r@ =~= spec_record(views_of(cells@).take(i as int)),
        decreases n - i,
    {
        let ghost vs = views_of(cells@);
        let ghost before = vs.take(i as int);
        let ghost after = vs.take(i as int + 1);
        proof {
            assert(after.drop_last() =~= before);
            assert(after.last() == cells@[i as int]@);
        }
        if i > 0 {
            r.push(44);
        }
        let mut piece = escape_csv_field(&cells[i]);
        r.append(&mut piece);
        proof {
            if i == 0 {
                assert(r@ =~= spec_escape(cells@[0]@));
                assert(after.len() == 1);
                assert(after[0] == cells@[0]@);
            } else {
                assert(r@ =~= spec_record(before) + seq![44u8] + spec_escape(
                    cells@[i as int]@,
                ));
            }
            assert(r@ =~= spec_record(after));
        }
        i = i + 1;
    }
    proof {
        assert(views_of(cells@).take(n as int) =~= views_of(cells@));
    }
    r
}

} // verus!
