//! Byte-string primitives: equality, first occurrence of a byte, first
//! occurrence of a subsequence, and splitting tool output into lines.

use vstd::prelude::*;

verus! {

/// The byte `'\n'`, which separates the lines of the tool's output.
pub const NEWLINE: u8 = 10;

/// The byte `'\r'`, stripped from the end of a reported line.
pub const CARRIAGE_RETURN: u8 = 13;

/// The byte `'/'`, which separates a remote's name from the branch name.
pub const SLASH: u8 = 47;

/// Index of the first occurrence of `b` in `t`, or `t.len()` when `t` does
/// not contain `b`.
pub open spec fn first_pos(t: Seq<u8>, b: u8) -> int
    decreases t.len(),
{
    if t.len() == 0 {
        0
    } else if t[0] == b {
        0
    } else {
        1 + first_pos(t.drop_first(), b)
    }
}

/// `first_pos` is the unique index bounded by `t.len()` such that everything
/// before it differs from `b` and, unless it is `t.len()`, the byte there is `b`.
pub proof fn lemma_first_pos_characterization(t: Seq<u8>, b: u8, i: int)
    requires
        0 <= i <= t.len(),
        forall|k: int| 0 <= k < i ==> t[k] != b,
        i == t.len() || t[i] == b,
    ensures
        first_pos(t, b) == i,
    decreases t.len(),
{
    if i == 0 {
        if t.len() != 0 && t[0] != b {
            assert(t[i] == b);
        }
    } else {
        assert(t[0] != b);
        let rest = t.drop_first();
        assert(forall|k: int| 0 <= k < i - 1 ==> rest[k] != b);
        lemma_first_pos_characterization(rest, b, i - 1);
    }
}

pub proof fn lemma_first_pos_bounds(t: Seq<u8>, b: u8)
    ensures
        0 <= first_pos(t, b) <= t.len(),
        first_pos(t, b) < t.len() ==> t[first_pos(t, b)] == b,
        forall|k: int| 0 <= k < first_pos(t, b) ==> t[k] != b,
    decreases t.len(),
{
    if t.len() != 0 && t[0] != b {
        let rest = t.drop_first();
        lemma_first_pos_bounds(rest, b);
        assert forall|k: int| 0 <= k < first_pos(t, b) implies t[k] != b by {
            if k > 0 {
                assert(rest[k - 1] != b);
            }
        }
    }
}

/// First index at which `b` occurs in `v`, or `v.len()` when it never does.
pub fn find_byte(v: &Vec<u8>, b: u8) -> (r: usize)
    ensures
        r == first_pos(v@, b),
{
    let mut i: usize = 0;
    while i < v.len()
        invariant
            0 <= i <= v.len(),
            forall|k: int| 0 <= k < i ==> v@[k] != b,
        decreases v.len() - i,
    {
        if v[i] == b {
            proof {
                lemma_first_pos_characterization(v@, b, i as int);
            }
            return i;
        }
        i = i + 1;
    }
    proof {
        lemma_first_pos_characterization(v@, b, v@.len() as int);
    }
    i
}

/// The two byte strings hold the same bytes.
pub fn bytes_eq(a: &Vec<u8>, b: &Vec<u8>) -> (r: bool)
    ensures
        r == (a@ == b@),
{
    if a.len() != b.len() {
        return false;
    }
    let mut i: usize = 0;
    while i < a.len()
        invariant
            a.len() == b.len(),
            0 <= i <= a.len(),
            forall|k: int| 0 <= k < i ==> a@[k] == b@[k],
        decreases a.len() - i,
    {
        if a[i] != b[i] {
            return false;
        }
        i = i + 1;
    }
    proof {
        assert(a@ =~= b@);
    }
    true
}

/// The needle `n` occurs in the haystack `h` starting at index `i`.
pub open spec fn is_match_at(h: Seq<u8>, n: Seq<u8>, i: int) -> bool {
    &&& 0 <= i
    &&& i + n.len() <= h.len()
    &&& h.subrange(i, i + n.len() as int) == n
}

/// The needle `n` occurs somewhere in the haystack `h` as a contiguous run.
pub open spec fn contains_sub(h: Seq<u8>, n: Seq<u8>) -> bool {
    exists|i: int| is_match_at(h, n, i)
}

/// Index of the first occurrence of `n` in `h`, or `None` when `h` does not
/// contain `n`. The empty needle occurs at index 0 of every haystack.
pub fn find_sub(h: &Vec<u8>, n: &Vec<u8>) -> (r: Option<usize>)
    ensures
        match r {
            Some(i) => is_match_at(h@, n@, i as int) && forall|j: int|
                0 <= j < i ==> !is_match_at(h@, n@, j),
            None => !contains_sub(h@, n@),
        },
{
    if n.len() > h.len() {
        return None;
    }
    if n.len() == 0 {
        proof {
            assert(h@.subrange(0, 0) =~= n@);
        }
        return Some(0);
    }
    let last_start: usize = h.len() - n.len();
    let mut i: usize = 0;
    while i <= last_start
        invariant
            1 <= n.len() <= h.len(),
            last_start == h.len() - n.len(),
            0 <= i <= last_start + 1,
            forall|j: int| 0 <= j < i ==> !is_match_at(h@, n@, j),
        decreases last_start + 1 - i,
    {
        let mut k: usize = 0;
        let mut mismatch = false;
        while k < n.len()
            invariant
                1 <= n.len() <= h.len(),
                0 <= i <= h.len() - n.len(),
                0 <= k <= n.len(),
                !mismatch ==> forall|m: int| 0 <= m < k ==> h@[i + m] == n@[m],
                mismatch ==> !is_match_at(h@, n@, i as int),
            decreases n.len() - k,
        {
            if h[i + k] != n[k] {
                proof {
                    if is_match_at(h@, n@, i as int) {
                        assert(h@.subrange(i as int, i + n@.len())[k as int] == n@[k as int]);
                    }
                }
                mismatch = true;
                k = n.len();
            } else {
                k = k + 1;
            }
        }
        if !mismatch {
            proof {
                assert(h@.subrange(i as int, i + n@.len()) =~= n@);
            }
            return Some(i);
        }
        i = i + 1;
    }
    proof {
        assert forall|j: int| !is_match_at(h@, n@, j) by {
            if 0 <= j && j + n@.len() <= h@.len() {
                assert(!is_match_at(h@, n@, j));
            }
        }
    }
    None
}

/// A fresh byte string holding the bytes of `src` between `from` and `to`.
pub fn copy_range(src: &Vec<u8>, from: usize, to: usize) -> (r: Vec<u8>)
    requires
        from <= to <= src@.len(),
    ensures
        r@ == src@.subrange(from as int, to as int),
{
    let mut r: Vec<u8> = Vec::new();
    let mut m: usize = from;
    while m < to
        invariant
            from <= m <= to <= src.len(),
            r@ == src@.subrange(from as int, m as int),
        decreases to - m,
    {
        r.push(src[m]);
        proof {
            assert(src@.subrange(from as int, m + 1) =~= src@.subrange(
                from as int,
                m as int,
            ).push(src@[m as int]));
        }
        m = m + 1;
    }
    proof {
        assert(r@ =~= src@.subrange(from as int, to as int));
    }
    r
}

/// A fresh byte string holding the same bytes as `src`.
pub fn copy_bytes(src: &Vec<u8>) -> (r: Vec<u8>)
    ensures
        r@ == src@,
{
    let r = copy_range(src, 0, src.len());
    proof {
        assert(src@.subrange(0, src@.len() as int) =~= src@);
    }
    r
}

/// One reported line: the piece between two newlines, with a single trailing
/// carriage return removed.
pub open spec fn strip_cr(piece: Seq<u8>) -> Seq<u8> {
    if piece.len() > 0 && piece.last() == CARRIAGE_RETURN {
        piece.drop_last()
    } else {
        piece
    }
}

/// The lines of a text, split at newline bytes: the piece after the last
/// newline is a line only when it is non-empty, and each line loses a single
/// trailing carriage return.
pub open spec fn spec_lines(t: Seq<u8>) -> Seq<Seq<u8>>
    decreases t.len(),
    via spec_lines_decreases
{
    if t.len() == 0 {
        Seq::empty()
    } else {
        let k: int = first_pos(t, NEWLINE);
        if k == t.len() {
            seq![strip_cr(t)]
        } else {
            seq![strip_cr(t.subrange(0, k))] + spec_lines(t.subrange(k + 1, t.len() as int))
        }
    }
}

#[via_fn]
proof fn spec_lines_decreases(t: Seq<u8>) {
    lemma_first_pos_bounds(t, NEWLINE);
}

/// Split a text into its lines, as `spec_lines` describes them.
pub fn split_lines(t: &Vec<u8>) -> (r: Vec<Vec<u8>>)
    ensures
        r.deep_view() == spec_lines(t@),
{
    let mut r: Vec<Vec<u8>> = Vec::new();
    let mut start: usize = 0;
    proof {
        assert(t@.subrange(0, t@.len() as int) =~= t@);
        assert(r.deep_view() + spec_lines(t@) =~= spec_lines(t@));
    }
    while start < t.len()
        invariant
            0 <= start <= t.len(),
            spec_lines(t@) == r.deep_view() + spec_lines(
                t@.subrange(start as int, t@.len() as int),
            ),
        decreases t.len() - start,
    {
        let ghost rem = t@.subrange(start as int, t@.len() as int);
        let mut j: usize = start;
        while j < t.len() && t[j] != NEWLINE
            invariant
                start <= j <= t.len(),
                forall|m: int| start <= m < j ==> t@[m] != NEWLINE,
            decreases t.len() - j,
        {
            j = j + 1;
        }
        proof {
            assert(forall|m: int| 0 <= m < j - start ==> rem[m] != NEWLINE);
            if j < t.len() {
                assert(rem[j - start] == NEWLINE);
            }
            lemma_first_pos_characterization(rem, NEWLINE, j - start);
        }
        let mut line: Vec<u8> = Vec::new();
        let mut m: usize = start;
        while m < j
            invariant
                start <= m <= j <= t.len(),
                line@ == t@.subrange(start as int, m as int),
            decreases j - m,
        {
            line.push(t[m]);
            proof {
                assert(t@.subrange(start as int, m + 1) =~= t@.subrange(
                    start as int,
                    m as int,
                ).push(t@[m as int]));
            }
            m = m + 1;
        }
        if line.len() > 0 && line[line.len() - 1] == CARRIAGE_RETURN {
            line.pop();
            proof {
                assert(line@ =~= strip_cr(t@.subrange(start as int, j as int)));
            }
        }
        let ghost old_r = r.deep_view();
        proof {
            assert(line.deep_view() =~= line@);
        }
        r.push(line);
        proof {
            assert(r.deep_view() =~= old_r.push(line@));
        }
        if j < t.len() {
            proof {
                assert(rem.subrange(0, j - start) =~= t@.subrange(start as int, j as int));
                assert(rem.subrange(j - start + 1, rem.len() as int) =~= t@.subrange(
                    j + 1,
                    t@.len() as int,
                ));
                assert(spec_lines(rem) == seq![line@] + spec_lines(
                    t@.subrange(j + 1, t@.len() as int),
                ));
                assert(old_r + spec_lines(rem) =~= r.deep_view() + spec_lines(
                    t@.subrange(j + 1, t@.len() as int),
                ));
            }
            start = j + 1;
        } else {
            proof {
                assert(rem =~= t@.subrange(start as int, j as int));
                assert(spec_lines(rem) == seq![line@]);
                assert(t@.subrange(t@.len() as int, t@.len() as int) =~= Seq::<u8>::empty());
                assert(spec_lines(Seq::<u8>::empty()) == Seq::<Seq<u8>>::empty());
                assert(old_r + spec_lines(rem) =~= r.deep_view() + spec_lines(
                    t@.subrange(t@.len() as int, t@.len() as int),
                ));
            }
            start = j;
        }
    }
    proof {
        assert(t@.subrange(t@.len() as int, t@.len() as int) =~= Seq::<u8>::empty());
        assert(spec_lines(Seq::<u8>::empty()) == Seq::<Seq<u8>>::empty());
        assert(r.deep_view() + Seq::<Seq<u8>>::empty() =~= r.deep_view());
    }
    r
}

} // verus!
