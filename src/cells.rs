//! The value rules of worksheet cells: shared-string indices and integers.
use vstd::prelude::*;
use vstd::string::StringSliceAdditionalSpecFns;
use crate::dimension::{decimal_value, is_digit, lemma_decimal_monotone};
use crate::error::{malformed, ExcelError, ExcelResult};

verus! {

/// `s` without a leading `+`.
pub open spec fn unsigned_digits(s: Seq<u8>) -> Seq<u8> {
    if s.len() > 0 && s[0] == 0x2B {
        s.drop_first()
    } else {
        s
    }
}

pub open spec fn all_digits(s: Seq<u8>) -> bool {
    forall|i: int| 0 <= i < s.len() ==> is_digit(#[trigger] s[i])
}

/// The value of a decimal text: an optional `+`, then one or more digits.
pub open spec fn unsigned_spec(s: Seq<u8>) -> Option<nat> {
    let d = unsigned_digits(s);
    if d.len() > 0 && all_digits(d) {
        Some(decimal_value(d))
    } else {
        None
    }
}

/// The value of a signed decimal text: an optional `+` or `-`, then one or
/// more digits, within the range of `i64`.
pub open spec fn integer_spec(s: Seq<u8>) -> Option<int> {
    if s.len() > 0 && s[0] == 0x2D {
        let d = s.drop_first();
        if d.len() > 0 && all_digits(d) && decimal_value(d) <= 0x8000_0000_0000_0000 {
            Some(-decimal_value(d))
        } else {
            None
        }
    } else {
        match unsigned_spec(s) {
            Some(v) => if v <= 0x7FFF_FFFF_FFFF_FFFF {
                Some(v as int)
            } else {
                None
            },
            None => None,
        }
    }
}

/// Reads the digits `s[lo..]`, all of them, as a number no larger than `max`.
fn digits_value(s: &[u8], lo: usize, max: u64) -> (r: Option<u64>)
    requires
        lo <= s@.len(),
        max >= 9,
    ensures
        ({
            let d = s@.subrange(lo as int, s@.len() as int);
            if d.len() > 0 && all_digits(d) && decimal_value(d) <= max {
                r == Some(decimal_value(d) as u64)
            } else {
                r is None
            }
        }),
{
    let ghost d = s@.subrange(lo as int, s@.len() as int);
    if lo >= s.len() {
        return None;
    }
    let mut v: u64 = 0;
    let mut i: usize = lo;
    while i < s.len()
        invariant
            lo <= i <= s@.len(),
            d == s@.subrange(lo as int, s@.len() as int),
            v == decimal_value(d.subrange(0, i - lo)),
            v <= max,
            max >= 9,
            forall|j: int| 0 <= j < i - lo ==> is_digit(#[trigger] d[j]),
        decreases s@.len() - i,
    {
        let b = s[i];
        if b < 0x30 || b > 0x39 {
            assert(!is_digit(d[i - lo]));
            return None;
        }
        assert(d.subrange(0, i + 1 - lo).drop_last() =~= d.subrange(0, i - lo));
        if v > (max - (b - 0x30) as u64) / 10 {
            proof {
                assert(v * 10 + (b - 0x30) > max) by (nonlinear_arith)
                    requires
                        v > (max - (b - 0x30)) / 10,
                        b >= 0x30,
                ;
                lemma_decimal_monotone(d, i + 1 - lo);
            }
            return None;
        }
        proof {
            assert(v * 10 + (b - 0x30) <= max) by (nonlinear_arith)
                requires
                    v <= (max - (b - 0x30)) / 10,
                    b >= 0x30,
                    b - 0x30 <= max,
            ;
        }
        v = v * 10 + (b - 0x30) as u64;
        i = i + 1;
    }
    assert(d.subrange(0, i - lo) =~= d);
    Some(v)
}

/// Parses an unsigned decimal text that fits in `usize`.
pub fn parse_index(v: &str) -> (r: Option<usize>)
    ensures
        match unsigned_spec(v.spec_bytes()) {
            Some(n) => if n <= usize::MAX {
                r == Some(n as usize)
            } else {
                r is None
            },
            None => r is None,
        },
{
    let s = v.as_bytes();
    let lo: usize = if s.len() > 0 && s[0] == 0x2B { 1 } else { 0 };
    assert(s@.subrange(lo as int, s@.len() as int) =~= unsigned_digits(s@));
    match digits_value(s, lo, usize::MAX as u64) {
        Some(n) => Some(n as usize),
        None => None,
    }
}

/// Parses a signed decimal integer that fits in `i64`.
pub fn parse_int(v: &str) -> (r: Option<i64>)
    ensures
        match integer_spec(v.spec_bytes()) {
            Some(n) => r == Some(n as i64),
            None => r is None,
        },
{
    let s = v.as_bytes();
    if s.len() > 0 && s[0] == 0x2D {
        assert(s@.subrange(1, s@.len() as int) =~= s@.drop_first());
        match digits_value(s, 1, 0x8000_0000_0000_0000) {
            Some(n) => if n == 0x8000_0000_0000_0000 {
                Some(i64::MIN)
            } else {
                Some(-(n as i64))
            },
            None => None,
        }
    } else {
        let lo: usize = if s.len() > 0 && s[0] == 0x2B { 1 } else { 0 };
        assert(s@.subrange(lo as int, s@.len() as int) =~= unsigned_digits(s@));
        match digits_value(s, lo, 0x7FFF_FFFF_FFFF_FFFF) {
            Some(n) => Some(n as i64),
            None => None,
        }
    }
}

/// A cell value. `F` is the type that holds a non-integer number; the
/// library never reads it.
#[derive(Debug, Clone, PartialEq)]
pub enum Cell<F> {
    Int(i64),
    Float(F),
    String(String),
    Empty,
}

/// The value of a cell whose `<v>` text is `v` (see `cell_value`).
pub open spec fn value_of<F>(shared: bool, v: Seq<u8>, strings: Seq<String>, number: Option<F>) -> Option<Cell<F>> {
    if shared {
        match unsigned_spec(v) {
            Some(n) => if n < strings.len() {
                Some(Cell::String(strings[n as int]))
            } else {
                None
            },
            None => None,
        }
    } else {
        match integer_spec(v) {
            Some(i) => Some(Cell::Int(i as i64)),
            None => match number {
                Some(x) => Some(Cell::Float(x)),
                None => None,
            },
        }
    }
}

/// The value of a cell whose `<v>` text is `v`: a shared string when the
/// cell's type is `s`, else an integer when `v` is one, else the number that
/// `v` reads as (`number`, parsed by the caller), else a `Parse` error.
pub fn cell_value<F>(shared: bool, v: &str, strings: &Vec<String>, number: Option<F>) -> (r: ExcelResult<Cell<F>>)
    ensures
        match value_of(shared, v.spec_bytes(), strings@, number) {
            Some(c) => r == Ok::<Cell<F>, ExcelError>(c),
            None => r is Err,
        },
        shared ==> match unsigned_spec(v.spec_bytes()) {
            Some(n) => if n < strings@.len() {
                r is Ok && r->Ok_0 is String && r->Ok_0->String_0@ == strings@[n as int]@
            } else {
                r is Err && (r->Err_0 is Malformed || r->Err_0 is Parse)
            },
            None => r is Err && r->Err_0 is Parse,
        },
        !shared ==> match integer_spec(v.spec_bytes()) {
            Some(i) => r == Ok::<Cell<F>, ExcelError>(Cell::Int(i as i64)),
            None => match number {
                Some(x) => r == Ok::<Cell<F>, ExcelError>(Cell::Float(x)),
                None => r is Err && r->Err_0 is Parse,
            },
        },
{
    if shared {
        let t = shared_string(strings, v)?;
        Ok(Cell::String(t))
    } else {
        match parse_int(v) {
            Some(i) => Ok(Cell::Int(i)),
            None => match number {
                Some(x) => Ok(Cell::Float(x)),
                None => Err(ExcelError::Parse("invalid cell value".to_owned())),
            },
        }
    }
}

/// The shared string that a cell of type `s` names by the index text `v`:
/// an index that does not parse is a `Parse` error, one past the end of the
/// table a `Malformed` error, never an empty value.
pub fn shared_string(strings: &Vec<String>, v: &str) -> (r: ExcelResult<String>)
    ensures
        match unsigned_spec(v.spec_bytes()) {
            Some(n) => if n < strings@.len() {
                r is Ok && r->Ok_0 == strings@[n as int]
            } else {
                r is Err && (r->Err_0 is Malformed || r->Err_0 is Parse)
            },
            None => r is Err && r->Err_0 is Parse,
        },
{
    let _count = strings.len();
    match parse_index(v) {
        None => Err(ExcelError::Parse("invalid shared string index".to_owned())),
        Some(idx) => if idx < strings.len() {
            Ok(strings[idx].clone())
        } else {
            Err(malformed("shared string index out of range"))
        },
    }
}

} // verus!
