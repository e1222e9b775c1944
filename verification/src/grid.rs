//! Locating the rectangular ballot block inside a spreadsheet-style table.
//!
//! A cell reference is a column letter from a fixed 25-letter alphabet (the
//! letter H is absent) followed by a 1-based decimal row number.  The block
//! spanned by two references covers the inclusive row span between their row
//! numbers; its columns are offset by two from the column letters, because
//! two leading metadata columns precede the ballot-choice columns of every
//! row.

use vstd::prelude::*;

use crate::ElectionError;
use crate::ballot::is_digit_char;
use crate::ballot::digit_val;

verus! {

/// Position of a column letter in the fixed alphabet `ABCDEFGIJKLMNOPQRSTUVWXYZ`
/// (25 letters, `H` excluded), or `None` for any other character.
pub open spec fn alpha_index(c: char) -> Option<int> {
    if c == 'A' {
        Some(0int)
    } else if c == 'B' {
        Some(1int)
    } else if c == 'C' {
        Some(2int)
    } else if c == 'D' {
        Some(3int)
    } else if c == 'E' {
        Some(4int)
    } else if c == 'F' {
        Some(5int)
    } else if c == 'G' {
        Some(6int)
    } else if c == 'I' {
        Some(7int)
    } else if c == 'J' {
        Some(8int)
    } else if c == 'K' {
        Some(9int)
    } else if c == 'L' {
        Some(10int)
    } else if c == 'M' {
        Some(11int)
    } else if c == 'N' {
        Some(12int)
    } else if c == 'O' {
        Some(13int)
    } else if c == 'P' {
        Some(14int)
    } else if c == 'Q' {
        Some(15int)
    } else if c == 'R' {
        Some(16int)
    } else if c == 'S' {
        Some(17int)
    } else if c == 'T' {
        Some(18int)
    } else if c == 'U' {
        Some(19int)
    } else if c == 'V' {
        Some(20int)
    } else if c == 'W' {
        Some(21int)
    } else if c == 'X' {
        Some(22int)
    } else if c == 'Y' {
        Some(23int)
    } else if c == 'Z' {
        Some(24int)
    } else {
        None
    }
}

pub open spec fn all_digits(s: Seq<char>) -> bool {
    forall|i: int| 0 <= i < s.len() ==> is_digit_char(#[trigger] s[i])
}

/// The number that a sequence of decimal digits denotes, most significant
/// digit first.
pub open spec fn digits_val(s: Seq<char>) -> int
    decreases s.len(),
{
    if s.len() == 0 {
        0
    } else {
        digits_val(s.drop_last()) * 10 + digit_val(s.last())
    }
}

/// When a cell reference text is acceptable: one column letter of the fixed
/// alphabet, then the row number as plain decimal digits with no leading
/// characters, 1-based and small enough for the machine word.
pub open spec fn cell_ref_ok(s: Seq<char>) -> bool {
    &&& s.len() >= 2
    &&& alpha_index(s[0]) is Some
    &&& all_digits(s.skip(1))
    &&& 1 <= digits_val(s.skip(1)) <= usize::MAX
}

/// A cell reference resolved to a 0-based row index and a 0-based column
/// position in the fixed alphabet.
#[derive(PartialEq, Eq, Structural, Clone, Copy, Debug)]
pub struct GridPos {
    pub row: usize,
    pub col: usize,
}

/// A digit sequence denotes at least the value of any of its prefixes.
proof fn lemma_digits_val_prefix(s: Seq<char>, k: int)
    requires
        all_digits(s),
        0 <= k <= s.len(),
    ensures
        0 <= digits_val(s.take(k)) <= digits_val(s),
    decreases s.len() - k,
{
    if k == s.len() {
        assert(s.take(k) =~= s);
        lemma_digits_val_nonneg(s);
    } else {
        assert(s.take(k + 1).drop_last() =~= s.take(k));
        assert(s.take(k + 1).last() == s[k]);
        lemma_digits_val_prefix(s, k + 1);
        lemma_digits_val_nonneg(s.take(k));
    }
}

proof fn lemma_digits_val_nonneg(s: Seq<char>)
    requires
        all_digits(s),
    ensures
        digits_val(s) >= 0,
    decreases s.len(),
{
    if s.len() > 0 {
        assert(all_digits(s.drop_last()));
        lemma_digits_val_nonneg(s.drop_last());
    }
}

/// Position of the character in the fixed column alphabet.
fn col_index(c: char) -> (r: Option<usize>)
    ensures
        match r {
            Some(u) => alpha_index(c) == Some(u as int) && u < 25,
            None => alpha_index(c) is None,
        },
{
    match c {
        'A' => Some(0),
        'B' => Some(1),
        'C' => Some(2),
        'D' => Some(3),
        'E' => Some(4),
        'F' => Some(5),
        'G' => Some(6),
        'I' => Some(7),
        'J' => Some(8),
        'K' => Some(9),
        'L' => Some(10),
        'M' => Some(11),
        'N' => Some(12),
        'O' => Some(13),
        'P' => Some(14),
        'Q' => Some(15),
        'R' => Some(16),
        'S' => Some(17),
        'T' => Some(18),
        'U' => Some(19),
        'V' => Some(20),
        'W' => Some(21),
        'X' => Some(22),
        'Y' => Some(23),
        'Z' => Some(24),
        _ => None,
    }
}

impl GridPos {
    /// Parse a cell reference.  The column letter must stand in the fixed
    /// alphabet and the rest must be a usable 1-based row number, else the
    /// reference is invalid and reported as such.
    pub fn from_str(input: &str) -> (r: Result<GridPos, ElectionError>)
        ensures
            match r {
                Ok(p) => {
                    &&& cell_ref_ok(input@)
                    &&& alpha_index(input@[0]) == Some(p.col as int)
                    &&& p.col < 25
                    &&& p.row as int == digits_val(input@.skip(1)) - 1
                },
                Err(e) => !cell_ref_ok(input@) && (e matches
                    ElectionError::InvalidCellReference(f) && f@ == input@),
            },
    {
        let n = input.unicode_len();
        if n < 2 {
            return Err(ElectionError::InvalidCellReference(input.to_owned()));
        }
        let col = match col_index(input.get_char(0)) {
            Some(c) => c,
            None => {
                return Err(ElectionError::InvalidCellReference(input.to_owned()));
            },
        };
        let ghost sk = input@.skip(1);
        let mut val: usize = 0;
        let mut i: usize = 1;
        while i < n
            invariant
                1 <= i <= n,
                n == input@.len(),
                sk == input@.skip(1),
                all_digits(sk.take(i - 1)),
                val == digits_val(sk.take(i - 1)),
            decreases n - i,
        {
            let c = input.get_char(i);
            proof {
                assert(sk[i - 1] == input@[i as int]);
                assert(sk.take(i as int).drop_last() =~= sk.take(i - 1));
                assert(sk.take(i as int).last() == sk[i - 1]);
            }
            if !('0' <= c && c <= '9') {
                proof {
                    assert(!all_digits(sk));
                }
                return Err(ElectionError::InvalidCellReference(input.to_owned()));
            }
            let d = (c as u32 - '0' as u32) as usize;
            if val > (usize::MAX - d) / 10 {
                proof {
                    assert(val * 10 + d > usize::MAX) by (nonlinear_arith)
                        requires
                            val > (usize::MAX - d) / 10,
                            d <= usize::MAX,
                    ;
                    if all_digits(sk) {
                        lemma_digits_val_prefix(sk, i as int);
                        assert(digits_val(sk.take(i as int)) == val * 10 + d);
                        assert(!cell_ref_ok(input@));
                    }
                }
                return Err(ElectionError::InvalidCellReference(input.to_owned()));
            }
            proof {
                assert(val * 10 + d <= usize::MAX) by (nonlinear_arith)
                    requires
                        val <= (usize::MAX - d) / 10,
                        d <= usize::MAX,
                ;
            }
            val = val * 10 + d;
            i += 1;
        }
        proof {
            assert(sk.take(n - 1) =~= sk);
        }
        if val == 0 {
            return Err(ElectionError::InvalidCellReference(input.to_owned()));
        }
        Ok(GridPos { row: val - 1, col })
    }
}

/// The part of `s` that iterating from index `from` for at most `count`
/// elements yields: empty when `from` lies past the end, cut short at the
/// end otherwise.
pub open spec fn window<T>(s: Seq<T>, from: int, count: int) -> Seq<T> {
    let lo = if from <= s.len() {
        from
    } else {
        s.len() as int
    };
    let hi = if from + count <= s.len() {
        from + count
    } else {
        s.len() as int
    };
    if 0 <= lo <= hi {
        s.subrange(lo, hi)
    } else {
        Seq::empty()
    }
}

/// Cut the block spanned by two cell references out of the sheet rows: the
/// inclusive row span between the two row numbers (1-based, taken after the
/// header row), and the inclusive column span between the two column
/// letters, shifted right by the two leading metadata columns.  Spans
/// reaching past the sheet are cut short.
pub fn select_region(rows: &Vec<Vec<String>>, start: &GridPos, end: &GridPos) -> (r: Vec<
    Vec<String>,
>)
    requires
        1 <= start.row <= end.row,
        start.col <= end.col < 25,
    ensures
        r@.len() == window(rows@, start.row - 1, end.row - start.row + 1).len(),
        forall|i: int|
            0 <= i < r@.len() ==> (#[trigger] r@[i])@ == window(
                rows@[start.row - 1 + i]@,
                start.col + 1,
                end.col - start.col + 1,
            ),
{
    let r0 = start.row - 1;
    let nrows = end.row - start.row + 1;
    let c0 = start.col + 1;
    let ncols = end.col - start.col + 1;
    let mut out: Vec<Vec<String>> = Vec::new();
    let mut i: usize = 0;
    while i < nrows && r0 + i < rows.len()
        invariant
            r0 == start.row - 1,
            nrows == end.row - start.row + 1,
            c0 == start.col + 1,
            ncols == end.col - start.col + 1,
            r0 + nrows == end.row,
            c0 + ncols <= 26,
            i <= nrows,
            out@.len() == i,
            i <= window(rows@, r0 as int, nrows as int).len(),
            forall|k: int|
                0 <= k < i ==> (#[trigger] out@[k])@ == window(
                    rows@[r0 + k]@,
                    c0 as int,
                    ncols as int,
                ),
        decreases nrows - i,
    {
        let row = &rows[r0 + i];
        let mut cut: Vec<String> = Vec::new();
        let mut j: usize = 0;
        while j < ncols && c0 + j < row.len()
            invariant
                c0 + ncols <= usize::MAX,
                j <= ncols,
                cut@.len() == j,
                row@ == rows@[r0 + i]@,
                r0 + i < rows@.len(),
                j <= window(row@, c0 as int, ncols as int).len(),
                forall|k: int| 0 <= k < j ==> #[trigger] cut@[k] == row@[c0 + k],
            decreases ncols - j,
        {
            cut.push(row[c0 + j].clone());
            j += 1;
        }
        proof {
            assert(cut@ =~= window(row@, c0 as int, ncols as int));
        }
        out.push(cut);
        i += 1;
    }
    proof {
        assert(out@.len() == window(rows@, r0 as int, nrows as int).len());
    }
    out
}

} // verus!
