//! The TOSE header line: the entity name, the row count in brackets, the
//! field list in braces, a colon and a line feed.

use vstd::prelude::*;

use crate::text::views_of;

verus! {

/// The decimal digits of `n`, most significant first.
pub open spec fn spec_decimal(n: nat) -> Seq<u8>
    decreases n,
{
    if n < 10 {
        seq![(48 + n) as u8]
    } else {
        spec_decimal(n / 10) + seq![(48 + n % 10) as u8]
    }
}

/// Field names joined with commas, no escaping and no trailing comma.
pub open spec fn spec_joined(fields: Seq<Seq<u8>>) -> Seq<u8>
    decreases fields.len(),
{
    if fields.len() == 0 {
        Seq::empty()
    } else if fields.len() == 1 {
        fields[0]
    } else {
        spec_joined(fields.drop_last()) + seq![44u8] + fields.last()
    }
}

/// The whole header line, newline included:
/// `<entity>[<count>]{<field1>,<field2>,...}:`.
pub open spec fn spec_header(entity: Seq<u8>, count: nat, fields: Seq<Seq<u8>>) -> Seq<u8> {
    entity + seq![91u8] + spec_decimal(count) + seq![93u8, 123u8] + spec_joined(fields) + seq![
        125u8,
        58u8,
        10u8,
    ]
}

/// Append the decimal digits of `n` to `out`.
pub fn push_decimal(out: &mut Vec<u8>, n: usize)
    ensures
        final(out)@ == old(out)@ + spec_decimal(n as nat),
    decreases n,
{
    if n < 10 {
        out.push(48 + n as u8);
        proof {
            assert(out@ =~= old(out)@ + spec_decimal(n as nat));
        }
    } else {
        let d = n % 10;
        let ghost before = out@;
        push_decimal(out, n / 10);
        out.push(48 + d as u8);
        proof {
            assert(out@ =~= before + spec_decimal(n as nat));
        }
    }
}

/// Build the header line from the entity name, the row count and the ordered
/// field names.
pub fn format_header(entity: &Vec<u8>, count: usize, fields: &Vec<Vec<u8>>) -> (r: Vec<u8>)
    ensures
        r@ == spec_header(entity@, count as nat, views_of(fields@)),
{
    let mut r: Vec<u8> = Vec::new();
    let n = entity.len();
    let mut i: usize = 0;
    while i < n
        invariant
            0 <= i <= n,
            n == entity@.len(),
            r@ =~= entity@.take(i as int),
        decreases n - i,
    {
        r.push(entity[i]);
        proof {
            assert(r@ =~= entity@.take(i as int + 1));
        }
        i = i + 1;
    }
    proof {
        assert(r@ =~= entity@);
    }
    r.push(91);
    push_decimal(&mut r, count);
    r.push(93);
    r.push(123);
    let ghost prefix = r@;
    let m = fields.len();
    let mut j: usize = 0;
    proof {
        assert(views_of(fields@).take(0) =~= Seq::<Seq<u8>>::empty());
    }
    while j < m
        invariant
            0 <= j <= m,
            m == fields@.len(),
            r@ =~= prefix + spec_joined(views_of(fields@).take(j as int)),
        decreases m - j,
    {
        let ghost vs = views_of(fields@);
        let ghost after = vs.take(j as int + 1);
        proof {
            assert(after.drop_last() =~= vs.take(j as int));
            assert(after.last() == fields@[j as int]@);
        }
        if j > 0 {
            r.push(44);
        }
        let fj = &fields[j];
        let fn_len = fj.len();
        let mut k: usize = 0;
        let ghost mid = r@;
        while k < fn_len
            invariant
                0 <= k <= fn_len,
                fn_len == fj@.len(),
                r@ =~= mid + fj@.take(k as int),
            decreases fn_len - k,
        {
            r.push(fj[k]);
            proof {
                assert(r@ =~= mid + fj@.take(k as int + 1));
            }
            k = k + 1;
        }
        proof {
            assert(fj@.take(fn_len as int) =~= fj@);
            if j == 0 {
                assert(after.len() == 1);
                assert(after[0] == fields@[0]@);
                assert(r@ =~= prefix + spec_joined(after));
            } else {
                assert(r@ =~= prefix + spec_joined(after));
            }
        }
        j = j + 1;
    }
    proof {
        assert(views_of(fields@).take(m as int) =~= views_of(fields@));
    }
    r.push(125);
    r.push(58);
    r.push(10);
    proof {
        assert(r@ =~= spec_header(entity@, count as nat, views_of(fields@)));
    }
    r
}

} // verus!
