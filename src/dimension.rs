//! A1-style cell and range references.
use vstd::prelude::*;
use vstd::string::StringSliceAdditionalSpecFns;
use crate::error::{malformed, ExcelResult};

verus! {

pub const MAX_U32: u64 = 0xFFFF_FFFF;

pub open spec fn is_upper(b: u8) -> bool {
    0x41 <= b <= 0x5A
}

pub open spec fn is_lower(b: u8) -> bool {
    0x61 <= b <= 0x7A
}

pub open spec fn is_letter(b: u8) -> bool {
    is_upper(b) || is_lower(b)
}

pub open spec fn is_digit(b: u8) -> bool {
    0x30 <= b <= 0x39
}

/// The value of a column letter, `A` (or `a`) being 1 and `Z` (or `z`) 26.
pub open spec fn letter_value(b: u8) -> nat {
    if is_upper(b) {
        (b - 0x41 + 1) as nat
    } else {
        (b - 0x61 + 1) as nat
    }
}

/// Bijective base 26: each letter is a digit from 1 to 26, the last one the least significant.
pub open spec fn column_value(s: Seq<u8>) -> nat
    decreases s.len(),
{
    if s.len() == 0 {
        0
    } else {
        column_value(s.drop_last()) * 26 + letter_value(s.last())
    }
}

/// Plain decimal value of a sequence of ASCII digits.
pub open spec fn decimal_value(s: Seq<u8>) -> nat
    decreases s.len(),
{
    if s.len() == 0 {
        0
    } else {
        decimal_value(s.drop_last()) * 10 + (s.last() - 0x30) as nat
    }
}

/// The index of the first byte at or after `i` that is not a letter.
pub open spec fn letters_end(s: Seq<u8>, i: int) -> int
    decreases s.len() - i,
{
    if 0 <= i < s.len() && is_letter(s[i]) {
        letters_end(s, i + 1)
    } else {
        i
    }
}

/// The `(row, column)` that the cell text `s` names: a non-empty run of
/// letters, then a non-empty run of digits, both values fitting in `u32` and
/// the row at least 1. `None` for any other text.
pub open spec fn cell_spec(s: Seq<u8>) -> Option<(nat, nat)> {
    let k = letters_end(s, 0);
    let col = column_value(s.subrange(0, k));
    let row = decimal_value(s.subrange(k, s.len() as int));
    if k >= 1 && k < s.len() && (forall|j: int| k <= j < s.len() ==> is_digit(#[trigger] s[j]))
        && 1 <= col <= MAX_U32 && 1 <= row <= MAX_U32 {
        Some((row, col))
    } else {
        None
    }
}

/// The position of the first `:` in `s`, if any.
pub open spec fn first_colon(s: Seq<u8>, i: int) -> Option<int>
    decreases s.len() - i,
{
    if i < 0 || i >= s.len() {
        None
    } else if s[i] == 0x3A {
        Some(i)
    } else {
        first_colon(s, i + 1)
    }
}

/// Origin `(row, col)` and extent `(width, height)` of a range text: one cell,
/// or two cells around the first `:`, the second not above nor left of the first.
pub open spec fn dimension_spec(s: Seq<u8>) -> Option<((nat, nat), (nat, nat))> {
    match first_colon(s, 0) {
        None => match cell_spec(s) {
            Some(p) => Some((p, (1nat, 1nat))),
            None => None,
        },
        Some(p) => match (cell_spec(s.subrange(0, p)), cell_spec(s.subrange(p + 1, s.len() as int))) {
            (Some(tl), Some(br)) => if tl.0 <= br.0 && tl.1 <= br.1 {
                Some((tl, ((br.1 - tl.1 + 1) as nat, (br.0 - tl.0 + 1) as nat)))
            } else {
                None
            },
            _ => None,
        },
    }
}

proof fn lemma_letters_end(s: Seq<u8>, i: int)
    requires
        0 <= i <= s.len(),
    ensures
        i <= letters_end(s, i) <= s.len(),
        forall|j: int| i <= j < letters_end(s, i) ==> is_letter(#[trigger] s[j]),
    decreases s.len() - i,
{
    if i < s.len() && is_letter(s[i]) {
        lemma_letters_end(s, i + 1);
    }
}

proof fn lemma_column_monotone(s: Seq<u8>, i: int)
    requires
        0 <= i <= s.len(),
    ensures
        column_value(s.subrange(0, i)) <= column_value(s),
    decreases s.len() - i,
{
    if i < s.len() {
        lemma_column_monotone(s, i + 1);
        assert(s.subrange(0, i + 1).drop_last() =~= s.subrange(0, i));
    } else {
        assert(s.subrange(0, i) =~= s);
    }
}

pub proof fn lemma_decimal_monotone(s: Seq<u8>, i: int)
    requires
        0 <= i <= s.len(),
    ensures
        decimal_value(s.subrange(0, i)) <= decimal_value(s),
    decreases s.len() - i,
{
    if i < s.len() {
        lemma_decimal_monotone(s, i + 1);
        assert(s.subrange(0, i + 1).drop_last() =~= s.subrange(0, i));
    } else {
        assert(s.subrange(0, i) =~= s);
    }
}

/// Reads the cell text `s[lo..hi]`.
fn cell_in(s: &[u8], lo: usize, hi: usize) -> (r: ExcelResult<(u32, u32)>)
    requires
        lo <= hi <= s@.len(),
    ensures
        match cell_spec(s@.subrange(lo as int, hi as int)) {
            Some(p) => r is Ok && r->Ok_0 == (p.0 as u32, p.1 as u32),
            None => r is Err && r->Err_0 is Malformed,
        },
{
    let ghost t = s@.subrange(lo as int, hi as int);
    proof {
        lemma_letters_end(t, 0);
    }
    let mut i: usize = lo;
    let mut col: u64 = 0;
    while i < hi && ((0x41 <= s[i] && s[i] <= 0x5A) || (0x61 <= s[i] && s[i] <= 0x7A))
        invariant
            lo <= i <= hi <= s@.len(),
            t == s@.subrange(lo as int, hi as int),
            letters_end(t, 0) == letters_end(t, i - lo),
            col == column_value(t.subrange(0, i - lo)),
            col <= MAX_U32,
            i > lo ==> col >= 1,
            i - lo <= letters_end(t, 0) <= t.len(),
        decreases hi - i,
    {
        let b = s[i];
        assert(t[i - lo] == b);
        let v: u64 = if b <= 0x5A { (b - 0x41 + 1) as u64 } else { (b - 0x61 + 1) as u64 };
        assert(t.subrange(0, i + 1 - lo).drop_last() =~= t.subrange(0, i - lo));
        col = col * 26 + v;
        i = i + 1;
        proof {
            lemma_letters_end(t, i - lo);
        }
        if col > MAX_U32 {
            proof {
                lemma_letters_end(t, 0);
                lemma_column_monotone(t.subrange(0, letters_end(t, 0)), i - lo);
                assert(t.subrange(0, letters_end(t, 0)).subrange(0, i - lo) =~= t.subrange(0, i - lo));
            }
            return Err(malformed("column out of range"));
        }
    }
    let k = i;
    assert(letters_end(t, 0) == k - lo);
    assert(t.subrange(0, k - lo) =~= t.subrange(0, letters_end(t, 0)));
    if k == lo {
        return Err(malformed("missing column letters"));
    }
    if k == hi {
        return Err(malformed("missing row number"));
    }
    let ghost d = t.subrange(k - lo, t.len() as int);
    let mut row: u64 = 0;
    while i < hi
        invariant
            lo < k <= i <= hi <= s@.len(),
            t == s@.subrange(lo as int, hi as int),
            d == t.subrange(k - lo, t.len() as int),
            letters_end(t, 0) == k - lo,
            forall|j: int| k - lo <= j < i - lo ==> is_digit(#[trigger] t[j]),
            row == decimal_value(d.subrange(0, i - k)),
            row <= MAX_U32,
        decreases hi - i,
    {
        let b = s[i];
        if b < 0x30 || b > 0x39 {
            assert(t[i - lo] == b);
            assert(!is_digit(t[i - lo]));
            if 0x41 <= b && b <= 0x5A || 0x61 <= b && b <= 0x7A {
                return Err(malformed("letters are only allowed before the row number"));
            }
            return Err(malformed("expecting an alphanumeric character"));
        }
        assert(d.subrange(0, i + 1 - k).drop_last() =~= d.subrange(0, i - k));
        row = row * 10 + (b - 0x30) as u64;
        i = i + 1;
        if row > MAX_U32 {
            proof {
                lemma_decimal_monotone(d, i - k);
            }
            return Err(malformed("row out of range"));
        }
    }
    assert(d.subrange(0, i - k) =~= d);
    if row == 0 {
        return Err(malformed("row must be positive"));
    }
    Ok((row as u32, col as u32))
}

/// Converts a cell text such as `AB12` into its `(row, column)`.
pub fn get_row_column(range: &str) -> (r: ExcelResult<(u32, u32)>)
    ensures
        match cell_spec(range.spec_bytes()) {
            Some(p) => r is Ok && r->Ok_0 == (p.0 as u32, p.1 as u32),
            None => r is Err && r->Err_0 is Malformed,
        },
{
    let b = range.as_bytes();
    assert(b@.subrange(0, b@.len() as int) =~= b@);
    cell_in(b, 0, b.len())
}

/// Converts a range text such as `A6:G67` into its top-left `(row, column)`
/// and its `(width, height)`.
pub fn get_dimension(dimension: &str) -> (r: ExcelResult<((u32, u32), (u32, u32))>)
    ensures
        match dimension_spec(dimension.spec_bytes()) {
            Some(d) => r is Ok && r->Ok_0 == ((d.0.0 as u32, d.0.1 as u32), (d.1.0 as u32, d.1.1 as u32)),
            None => r is Err && r->Err_0 is Malformed,
        },
{
    let b = dimension.as_bytes();
    let ghost s = b@;
    let mut i: usize = 0;
    while i < b.len() && b[i] != 0x3A
        invariant
            i <= b@.len(),
            s == b@,
            first_colon(s, 0) == first_colon(s, i as int),
        decreases b.len() - i,
    {
        i = i + 1;
    }
    if i == b.len() {
        assert(s.subrange(0, s.len() as int) =~= s);
        let p = cell_in(b, 0, b.len())?;
        Ok((p, (1, 1)))
    } else {
        let tl = cell_in(b, 0, i)?;
        let br = cell_in(b, i + 1, b.len())?;
        if br.0 < tl.0 || br.1 < tl.1 {
            return Err(malformed("range ends before it starts"));
        }
        Ok((tl, (br.1 - tl.1 + 1, br.0 - tl.0 + 1)))
    }
}

/// The column letters of column `c` (bijective base 26, upper case).
pub open spec fn column_letters(c: nat) -> Seq<u8>
    decreases c,
{
    if c == 0 {
        Seq::empty()
    } else {
        column_letters(((c - 1) / 26) as nat).push((0x41 + (c - 1) % 26) as u8)
    }
}

/// The decimal digits of `r`, without leading zeros.
pub open spec fn decimal_digits(r: nat) -> Seq<u8>
    decreases r,
{
    if r < 10 {
        seq![(0x30 + r) as u8]
    } else {
        decimal_digits(r / 10).push((0x30 + r % 10) as u8)
    }
}

/// The A1 text of the cell at row `r`, column `c`.
pub open spec fn a1_of(r: nat, c: nat) -> Seq<u8> {
    column_letters(c) + decimal_digits(r)
}

/// `s` with its upper-case letters made lower case.
pub open spec fn to_lower(s: Seq<u8>) -> Seq<u8> {
    s.map_values(|b: u8| if is_upper(b) { (b + 32) as u8 } else { b })
}

/// `s` with its lower-case letters made upper case.
pub open spec fn to_upper(s: Seq<u8>) -> Seq<u8> {
    s.map_values(|b: u8| if is_lower(b) { (b - 32) as u8 } else { b })
}

proof fn lemma_case_map(s: Seq<u8>, t: Seq<u8>)
    requires
        s.len() == t.len(),
        forall|i: int| 0 <= i < s.len() ==> (#[trigger] is_letter(s[i])) == is_letter(t[i]),
        forall|i: int| 0 <= i < s.len() && is_letter(s[i]) ==> #[trigger] letter_value(s[i]) == letter_value(t[i]),
        forall|i: int| 0 <= i < s.len() && !is_letter(s[i]) ==> #[trigger] s[i] == t[i],
    ensures
        cell_spec(s) == cell_spec(t),
{
    assert forall|i: int| 0 <= i <= s.len() implies #[trigger] letters_end(s, i) == letters_end(t, i) by {
        lemma_letters_end_same(s, t, i);
    }
    let k = letters_end(s, 0);
    lemma_letters_end(s, 0);
    assert(letters_end(t, 0) == k);
    let (sa, ta) = (s.subrange(0, k), t.subrange(0, k));
    assert forall|i: int| 0 <= i < sa.len() implies #[trigger] letter_value(sa[i]) == letter_value(ta[i]) by {
        assert(is_letter(s[i]));
        assert(sa[i] == s[i] && ta[i] == t[i]);
    }
    lemma_column_same(sa, ta);
    assert forall|j: int| 0 <= j < s.len() implies #[trigger] is_digit(s[j]) == is_digit(t[j]) by {
        if is_letter(s[j]) {
            assert(is_letter(t[j]));
        }
    }
    if forall|j: int| k <= j < s.len() ==> is_digit(#[trigger] s[j]) {
        assert(s.subrange(k, s.len() as int) =~= t.subrange(k, t.len() as int)) by {
            assert forall|j: int| k <= j < s.len() implies s[j] == t[j] by {
                assert(is_digit(s[j]));
            }
        }
        assert forall|j: int| k <= j < t.len() implies is_digit(#[trigger] t[j]) by {
            assert(is_digit(s[j]));
        }
    } else {
        let j = choose|j: int| k <= j < s.len() && !is_digit(#[trigger] s[j]);
        assert(!is_digit(t[j]));
    }
}

proof fn lemma_letters_end_same(s: Seq<u8>, t: Seq<u8>, i: int)
    requires
        s.len() == t.len(),
        0 <= i <= s.len(),
        forall|j: int| 0 <= j < s.len() ==> (#[trigger] is_letter(s[j])) == is_letter(t[j]),
    ensures
        letters_end(s, i) == letters_end(t, i),
    decreases s.len() - i,
{
    if i < s.len() {
        lemma_letters_end_same(s, t, i + 1);
    }
}

proof fn lemma_column_same(s: Seq<u8>, t: Seq<u8>)
    requires
        s.len() == t.len(),
        forall|i: int| 0 <= i < s.len() ==> #[trigger] letter_value(s[i]) == letter_value(t[i]),
    ensures
        column_value(s) == column_value(t),
    decreases s.len(),
{
    if s.len() > 0 {
        lemma_column_same(s.drop_last(), t.drop_last());
        assert(letter_value(s[s.len() - 1]) == letter_value(t[t.len() - 1]));
    }
}

/// Upper- and lower-case letters read alike: any text names the same cell,
/// or none, whatever the case of its letters.
pub proof fn lemma_case_insensitive(s: Seq<u8>)
    ensures
        cell_spec(to_upper(s)) == cell_spec(s),
        cell_spec(to_lower(s)) == cell_spec(s),
{
    let u = to_upper(s);
    let l = to_lower(s);
    assert forall|i: int| 0 <= i < s.len() implies (#[trigger] is_letter(s[i])) == is_letter(u[i])
        && (is_letter(s[i]) ==> letter_value(s[i]) == letter_value(u[i])) && (!is_letter(s[i]) ==> s[i] == u[i])
        && is_letter(s[i]) == is_letter(l[i]) && (is_letter(s[i]) ==> letter_value(s[i]) == letter_value(l[i]))
        && (!is_letter(s[i]) ==> s[i] == l[i]) by {}
    lemma_case_map(s, u);
    lemma_case_map(s, l);
}

proof fn lemma_column_letters(c: nat)
    ensures
        column_value(column_letters(c)) == c,
        column_value(to_lower(column_letters(c))) == c,
        forall|i: int| 0 <= i < column_letters(c).len() ==> is_upper(#[trigger] column_letters(c)[i]),
        c >= 1 ==> column_letters(c).len() >= 1,
    decreases c,
{
    if c > 0 {
        let p = ((c - 1) / 26) as nat;
        lemma_column_letters(p);
        let l = column_letters(c);
        assert(l.drop_last() =~= column_letters(p));
        assert(to_lower(l).drop_last() =~= to_lower(column_letters(p)));
    } else {
        assert(to_lower(column_letters(c)) =~= Seq::<u8>::empty());
    }
}

proof fn lemma_decimal_digits(r: nat)
    ensures
        decimal_value(decimal_digits(r)) == r,
        forall|i: int| 0 <= i < decimal_digits(r).len() ==> is_digit(#[trigger] decimal_digits(r)[i]),
        decimal_digits(r).len() >= 1,
    decreases r,
{
    if r >= 10 {
        lemma_decimal_digits(r / 10);
        assert(decimal_digits(r).drop_last() =~= decimal_digits(r / 10));
    } else {
        assert(decimal_digits(r).drop_last() =~= Seq::<u8>::empty());
        reveal_with_fuel(decimal_value, 2);
    }
}

proof fn lemma_letters_prefix(s: Seq<u8>, k: int, i: int)
    requires
        0 <= i <= k <= s.len(),
        forall|j: int| 0 <= j < k ==> is_letter(#[trigger] s[j]),
        k == s.len() || !is_letter(s[k]),
    ensures
        letters_end(s, i) == k,
    decreases k - i,
{
    if i < k {
        lemma_letters_prefix(s, k, i + 1);
    }
}

/// Writing a cell in A1 form and reading it back gives the same row and
/// column, whether the letters are written in upper or in lower case.
pub proof fn lemma_a1_round_trip(r: nat, c: nat)
    requires
        1 <= r <= 1_048_576,
        1 <= c <= 16_384,
    ensures
        cell_spec(a1_of(r, c)) == Some((r, c)),
        cell_spec(to_lower(a1_of(r, c))) == Some((r, c)),
{
    lemma_column_letters(c);
    lemma_decimal_digits(r);
    let l = column_letters(c);
    let d = decimal_digits(r);
    let s = a1_of(r, c);
    let k = l.len() as int;
    assert forall|j: int| 0 <= j < k implies is_letter(#[trigger] s[j]) by {
        assert(s[j] == l[j]);
        assert(is_upper(l[j]));
    }
    assert(s[k] == d[0]);
    assert(is_digit(d[0]));
    lemma_letters_prefix(s, k, 0);
    assert(s.subrange(0, k) =~= l);
    assert(s.subrange(k, s.len() as int) =~= d);
    assert forall|j: int| k <= j < s.len() implies is_digit(#[trigger] s[j]) by {
        assert(s[j] == d[j - k]);
    }
    let t = to_lower(s);
    assert forall|j: int| 0 <= j < k implies is_letter(#[trigger] t[j]) by {
        assert(s[j] == l[j]);
        assert(is_upper(l[j]));
    }
    assert(t[k] == d[0]);
    lemma_letters_prefix(t, k, 0);
    assert(t.subrange(0, k) =~= to_lower(l));
    assert forall|j: int| k <= j < t.len() implies is_digit(#[trigger] t[j]) by {
        assert(s[j] == d[j - k]);
        assert(t[j] == s[j]);
    }
    assert(t.subrange(k, t.len() as int) =~= d) by {
        assert forall|j: int| 0 <= j < d.len() implies t.subrange(k, t.len() as int)[j] == d[j] by {
            assert(s[k + j] == d[j]);
        }
    }
}

} // verus!
