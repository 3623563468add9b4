//! Byte-level text primitives shared by both pipelines: whitespace
//! classification, scanning for a byte, trimming, and splitting into lines or
//! delimiter-separated pieces.

use vstd::prelude::*;

verus! {

/// The views of the byte vectors of `vs`, in order.
pub open spec fn views_of(vs: Seq<Vec<u8>>) -> Seq<Seq<u8>> {
    Seq::new(vs.len(), |i: int| vs[i]@)
}

pub proof fn lemma_views_of_push(vs: Seq<Vec<u8>>, x: Vec<u8>)
    ensures
        views_of(vs.push(x)) =~= views_of(vs).push(x@),
{
}

/// The views of the cells of each row of `vs`, in order.
pub open spec fn rows_views(vs: Seq<Vec<Vec<u8>>>) -> Seq<Seq<Seq<u8>>> {
    Seq::new(vs.len(), |i: int| views_of(vs[i]@))
}

pub proof fn lemma_rows_views_push(vs: Seq<Vec<Vec<u8>>>, x: Vec<Vec<u8>>)
    ensures
        rows_views(vs.push(x)) =~= rows_views(vs).push(views_of(x@)),
{
}

/// ASCII whitespace: space, horizontal tab, line feed, vertical tab, form
/// feed and carriage return.
pub open spec fn is_ws_byte(b: u8) -> bool {
    b == 32 || b == 9 || b == 10 || b == 11 || b == 12 || b == 13
}

/// Executable check for `is_ws_byte`.
pub fn byte_is_ws(b: u8) -> (r: bool)
    ensures
        r == is_ws_byte(b),
{
    b == 32 || b == 9 || b == 10 || b == 11 || b == 12 || b == 13
}

/// Index of the first occurrence of `b` in `s`, or `s.len()` if there is none.
pub open spec fn find_byte(s: Seq<u8>, b: u8) -> int
    decreases s.len(),
{
    if s.len() == 0 {
        0
    } else if s[0] == b {
        0
    } else {
        1 + find_byte(s.skip(1), b)
    }
}

pub proof fn lemma_find_byte_bounds(s: Seq<u8>, b: u8)
    ensures
        0 <= find_byte(s, b) <= s.len(),
        forall|k: int| 0 <= k < find_byte(s, b) ==> s[k] != b,
        find_byte(s, b) < s.len() ==> s[find_byte(s, b)] == b,
    decreases s.len(),
{
    if s.len() == 0 {
    } else if s[0] == b {
    } else {
        lemma_find_byte_bounds(s.skip(1), b);
        assert forall|k: int| 0 <= k < find_byte(s, b) implies s[k] != b by {
            if k > 0 {
                assert(s.skip(1)[k - 1] == s[k]);
            }
        }
        if find_byte(s, b) < s.len() {
            assert(s.skip(1)[find_byte(s, b) - 1] == s[find_byte(s, b)]);
        }
    }
}

/// `find_byte` is determined by the properties an executable scan establishes.
pub proof fn lemma_find_byte_is(s: Seq<u8>, b: u8, m: int)
    requires
        0 <= m <= s.len(),
        forall|k: int| 0 <= k < m ==> s[k] != b,
        m < s.len() ==> s[m] == b,
    ensures
        find_byte(s, b) == m,
    decreases s.len(),
{
    if s.len() == 0 {
    } else if s[0] == b {
        assert(m == 0);
    } else {
        assert(m >= 1);
        assert forall|k: int| 0 <= k < m - 1 implies s.skip(1)[k] != b by {
            assert(s.skip(1)[k] == s[k + 1]);
        }
        if m - 1 < s.skip(1).len() {
            assert(s.skip(1)[m - 1] == s[m]);
        }
        lemma_find_byte_is(s.skip(1), b, m - 1);
    }
}

/// Index of the first byte of `s` that is not whitespace, or `s.len()`.
pub open spec fn trim_start_idx(s: Seq<u8>) -> int
    decreases s.len(),
{
    if s.len() == 0 {
        0
    } else if !is_ws_byte(s[0]) {
        0
    } else {
        1 + trim_start_idx(s.skip(1))
    }
}

/// One past the index of the last byte of `s` that is not whitespace, or 0.
pub open spec fn trim_end_idx(s: Seq<u8>) -> int
    decreases s.len(),
{
    if s.len() == 0 {
        0
    } else if !is_ws_byte(s.last()) {
        s.len() as int
    } else {
        trim_end_idx(s.drop_last())
    }
}

/// `s` with leading and trailing whitespace removed.
pub open spec fn spec_trim(s: Seq<u8>) -> Seq<u8> {
    if trim_start_idx(s) >= trim_end_idx(s) {
        Seq::empty()
    } else {
        s.subrange(trim_start_idx(s), trim_end_idx(s))
    }
}

/// A line is blank when every byte of it is whitespace.
pub open spec fn is_blank(s: Seq<u8>) -> bool {
    forall|k: int| 0 <= k < s.len() ==> is_ws_byte(s[k])
}

pub proof fn lemma_trim_start_is(s: Seq<u8>, m: int)
    requires
        0 <= m <= s.len(),
        forall|k: int| 0 <= k < m ==> is_ws_byte(s[k]),
        m < s.len() ==> !is_ws_byte(s[m]),
    ensures
        trim_start_idx(s) == m,
    decreases s.len(),
{
    if s.len() == 0 {
    } else if !is_ws_byte(s[0]) {
        assert(m == 0);
    } else {
        assert(m >= 1);
        assert forall|k: int| 0 <= k < m - 1 implies is_ws_byte(s.skip(1)[k]) by {
            assert(s.skip(1)[k] == s[k + 1]);
        }
        if m - 1 < s.skip(1).len() {
            assert(s.skip(1)[m - 1] == s[m]);
        }
        lemma_trim_start_is(s.skip(1), m - 1);
    }
}

pub proof fn lemma_trim_end_is(s: Seq<u8>, m: int)
    requires
        0 <= m <= s.len(),
        forall|k: int| m <= k < s.len() ==> is_ws_byte(s[k]),
        m > 0 ==> !is_ws_byte(s[m - 1]),
    ensures
        trim_end_idx(s) == m,
    decreases s.len(),
{
    if s.len() == 0 {
    } else if !is_ws_byte(s.last()) {
        assert(m == s.len());
    } else {
        assert(m < s.len());
        assert forall|k: int| m <= k < s.drop_last().len() implies is_ws_byte(
            s.drop_last()[k],
        ) by {
            assert(s.drop_last()[k] == s[k]);
        }
        if m > 0 {
            assert(s.drop_last()[m - 1] == s[m - 1]);
        }
        lemma_trim_end_is(s.drop_last(), m);
    }
}

/// A copy of `s` with surrounding whitespace removed.
pub fn trim_bytes(s: &Vec<u8>) -> (r: Vec<u8>)
    ensures
        r@ == spec_trim(s@),
{
    let n = s.len();
    let mut a: usize = 0;
    while a < n && byte_is_ws(s[a])
        invariant
            0 <= a <= n,
            n == s@.len(),
            forall|k: int| 0 <= k < a ==> is_ws_byte(s@[k]),
        decreases n - a,
    {
        a = a + 1;
    }
    proof {
        lemma_trim_start_is(s@, a as int);
    }
    let mut b: usize = n;
    while b > a && byte_is_ws(s[b - 1])
        invariant
            a <= b <= n,
            n == s@.len(),
            forall|k: int| b <= k < n ==> is_ws_byte(s@[k]),
        decreases b,
    {
        b = b - 1;
    }
    let mut r: Vec<u8> = Vec::new();
    if b == a {
        proof {
            // the two scans met, so every byte is whitespace and the
            // trimmed sequence is empty
            lemma_trim_end_bounds(s@);
            assert(r@ =~= spec_trim(s@));
        }
        return r;
    }
    proof {
        lemma_trim_end_is(s@, b as int);
    }
    let mut i: usize = a;
    while i < b
        invariant
            a <= i <= b <= n,
            n == s@.len(),
            r@ =~= s@.subrange(a as int, i as int),
        decreases b - i,
    {
        r.push(s[i]);
        proof {
            assert(r@ =~= s@.subrange(a as int, i as int + 1));
        }
        i = i + 1;
    }
    proof {
        assert(r@ =~= spec_trim(s@));
    }
    r
}

pub proof fn lemma_trim_end_bounds(s: Seq<u8>)
    ensures
        0 <= trim_end_idx(s) <= s.len(),
    decreases s.len(),
{
    if s.len() == 0 {
    } else if !is_ws_byte(s.last()) {
    } else {
        lemma_trim_end_bounds(s.drop_last());
    }
}

/// The pieces of `s` between occurrences of `sep`, in order. The separator
/// bytes themselves are not part of any piece, and an empty `s` yields one
/// empty piece, as splitting a string does.
pub open spec fn spec_split(s: Seq<u8>, sep: u8) -> Seq<Seq<u8>>
    decreases s.len(),
{
    let e = find_byte(s, sep);
    if e < s.len() {
        proof {
            lemma_find_byte_bounds(s, sep);
        }
        seq![s.take(e)] + spec_split(s.skip(e + 1), sep)
    } else {
        seq![s]
    }
}

/// The lines of `s`: each piece ends before a line feed, the line feeds
/// themselves are dropped, and a trailing line feed does not open a final
/// empty line. An empty `s` has no lines.
pub open spec fn spec_lines(s: Seq<u8>) -> Seq<Seq<u8>>
    decreases s.len(),
{
    if s.len() == 0 {
        Seq::empty()
    } else {
        let e = find_byte(s, 10);
        if e < s.len() {
            proof {
                lemma_find_byte_bounds(s, 10);
            }
            seq![s.take(e)] + spec_lines(s.skip(e + 1))
        } else {
            seq![s]
        }
    }
}

/// Scan for the first occurrence of `sep` in `s` at or after `from`.
pub(crate) fn scan_for(s: &Vec<u8>, sep: u8, from: usize) -> (j: usize)
    requires
        from <= s@.len(),
    ensures
        from <= j <= s@.len(),
        forall|k: int| from <= k < j ==> s@[k] != sep,
        j < s@.len() ==> s@[j as int] == sep,
        find_byte(s@.skip(from as int), sep) == j - from,
{
    let n = s.len();
    let mut j = from;
    while j < n && s[j] != sep
        invariant
            from <= j <= n,
            n == s@.len(),
            forall|k: int| from <= k < j ==> s@[k] != sep,
        decreases n - j,
    {
        j = j + 1;
    }
    proof {
        let t = s@.skip(from as int);
        assert forall|k: int| 0 <= k < j - from implies t[k] != sep by {
            assert(t[k] == s@[k + from]);
        }
        if j < n {
            assert(t[j - from] == s@[j as int]);
        }
        lemma_find_byte_is(t, sep, j - from);
    }
    j
}

/// Split `s` on `sep`, as `spec_split` describes.
pub fn split_by(s: &Vec<u8>, sep: u8) -> (r: Vec<Vec<u8>>)
    ensures
        views_of(r@) == spec_split(s@, sep),
{
    let n = s.len();
    let mut r: Vec<Vec<u8>> = Vec::new();
    let mut pos: usize = 0;
    proof {
        assert(s@.skip(0) =~= s@);
        assert(views_of(r@) =~= Seq::<Seq<u8>>::empty());
    }
    loop
        invariant_except_break
            0 <= pos <= n,
            n == s@.len(),
            spec_split(s@, sep) =~= views_of(r@) + spec_split(s@.skip(pos as int), sep),
        ensures
            views_of(r@) =~= spec_split(s@, sep),
        decreases n - pos,
    {
        let j = scan_for(s, sep, pos);
        let mut piece: Vec<u8> = Vec::new();
        let mut i = pos;
        while i < j
            invariant
                pos <= i <= j <= n,
                n == s@.len(),
                piece@ =~= s@.subrange(pos as int, i as int),
            decreases j - i,
        {
            piece.push(s[i]);
            proof {
                assert(piece@ =~= s@.subrange(pos as int, i as int + 1));
            }
            i = i + 1;
        }
        let ghost rest = s@.skip(pos as int);
        proof {
            assert(piece@ =~= rest.take(j - pos));
        }
        let ghost old_r = r@;
        r.push(piece);
        proof {
            lemma_views_of_push(old_r, piece);
        }
        if j == n {
            proof {
                assert(find_byte(rest, sep) == rest.len());
                assert(spec_split(rest, sep) =~= seq![rest]);
                assert(piece@ =~= rest);
            }
            break;
        }
        proof {
            assert(rest.skip(j - pos + 1) =~= s@.skip(j + 1));
            assert(spec_split(rest, sep) =~= seq![piece@] + spec_split(
                s@.skip(j + 1),
                sep,
            ));
        }
        pos = j + 1;
    }
    r
}

/// Split `s` into lines, as `spec_lines` describes.
pub fn split_lines(s: &Vec<u8>) -> (r: Vec<Vec<u8>>)
    ensures
        views_of(r@) == spec_lines(s@),
{
    let n = s.len();
    let mut r: Vec<Vec<u8>> = Vec::new();
    let mut pos: usize = 0;
    proof {
        assert(s@.skip(0) =~= s@);
        assert(views_of(r@) =~= Seq::<Seq<u8>>::empty());
    }
    while pos < n
        invariant
            0 <= pos <= n,
            n == s@.len(),
            spec_lines(s@) =~= views_of(r@) + spec_lines(s@.skip(pos as int)),
        decreases n - pos,
    {
        let j = scan_for(s, 10, pos);
        let mut piece: Vec<u8> = Vec::new();
        let mut i = pos;
        while i < j
            invariant
                pos <= i <= j <= n,
                n == s@.len(),
                piece@ =~= s@.subrange(pos as int, i as int),
            decreases j - i,
        {
            piece.push(s[i]);
            proof {
                assert(piece@ =~= s@.subrange(pos as int, i as int + 1));
            }
            i = i + 1;
        }
        let ghost rest = s@.skip(pos as int);
        proof {
            assert(piece@ =~= rest.take(j - pos));
        }
        let ghost old_r = r@;
        r.push(piece);
        proof {
            lemma_views_of_push(old_r, piece);
        }
        if j == n {
            proof {
                assert(find_byte(rest, 10) == rest.len());
                assert(spec_lines(rest) =~= seq![rest]);
                assert(piece@ =~= rest);
                assert(s@.skip(n as int) =~= Seq::<u8>::empty());
            }
            pos = n;
        } else {
            proof {
                assert(rest.skip(j - pos + 1) =~= s@.skip(j + 1));
                assert(spec_lines(rest) =~= seq![piece@] + spec_lines(
                    s@.skip(j + 1),
                ));
            }
            pos = j + 1;
        }
    }
    proof {
        assert(s@.skip(pos as int) =~= Seq::<u8>::empty());
        assert(views_of(r@) =~= spec_lines(s@));
    }
    r
}

/// True when every byte of `s` is whitespace.
pub fn line_is_blank(s: &Vec<u8>) -> (r: bool)
    ensures
        r == is_blank(s@),
{
    let n = s.len();
    let mut i: usize = 0;
    while i < n
        invariant
            0 <= i <= n,
            n == s@.len(),
            forall|k: int| 0 <= k < i ==> is_ws_byte(s@[k]),
        decreases n - i,
    {
        if !byte_is_ws(s[i]) {
            return false;
        }
        i = i + 1;
    }
    true
}

} // verus!
