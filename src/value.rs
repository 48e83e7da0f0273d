//! Coercion of a raw token into the most specific typed value.
use vstd::prelude::*;
use crate::humantime::{all_digits, digits_value, is_digit, parse_duration, duration_of, Duration};
use crate::text::{chars_of, string_of};

verus! {

/// A typed value of a `key=value` pair.
///
/// A floating-point value is kept as its text, which `f64`'s parser accepts.
#[derive(Debug, Clone)]
pub enum DataValue {
    String(String),
    F64(String),
    I64(i64),
    Duration(Duration),
}

/// What a [`DataValue`] holds, with text as sequences of characters.
pub enum DataView {
    String(Seq<char>),
    F64(Seq<char>),
    I64(i64),
    Duration(Duration),
}

impl View for DataValue {
    type V = DataView;

    open spec fn view(&self) -> DataView {
        match self {
            DataValue::String(s) => DataView::String(s@),
            DataValue::F64(s) => DataView::F64(s@),
            DataValue::I64(i) => DataView::I64(*i),
            DataValue::Duration(d) => DataView::Duration(*d),
        }
    }
}

pub open spec fn is_sign(c: char) -> bool {
    c == '+' || c == '-'
}

/// What `i64`'s parser gives: an optional sign, then one digit or more,
/// whose value fits in `i64`.
pub open spec fn i64_of(s: Seq<char>) -> Option<i64> {
    let signed = s.len() > 0 && is_sign(s[0]);
    let body = if signed { s.drop_first() } else { s };
    let v: int = if signed && s[0] == '-' { -digits_value(body) } else { digits_value(body) as int };
    if body.len() > 0 && all_digits(body) && i64::MIN <= v <= i64::MAX {
        Some(v as i64)
    } else {
        None
    }
}

/// `s` without a leading sign.
pub open spec fn unsigned(s: Seq<char>) -> Seq<char> {
    if s.len() > 0 && is_sign(s[0]) { s.drop_first() } else { s }
}

/// `c` is the lower-case letter `w`, or that letter in upper case.
pub open spec fn folds_to(c: char, w: char) -> bool {
    c == w || ('A' <= c <= 'Z' && c as u32 + 32 == w as u32)
}

/// `s` is `w` up to the case of ASCII letters (`w` in lower case).
pub open spec fn same_folded(s: Seq<char>, w: Seq<char>) -> bool {
    s.len() == w.len() && forall|i: int| 0 <= i < s.len() ==> folds_to(#[trigger] s[i], w[i])
}

/// The index of the first character of `s` that satisfies `is_exp` (or
/// `s.len()`).
pub open spec fn first_exp(s: Seq<char>) -> int
    decreases s.len(),
{
    if s.len() == 0 {
        0
    } else if s[0] == 'e' || s[0] == 'E' {
        0
    } else {
        1 + first_exp(s.drop_first())
    }
}

pub open spec fn first_dot(s: Seq<char>) -> int
    decreases s.len(),
{
    if s.len() == 0 {
        0
    } else if s[0] == '.' {
        0
    } else {
        1 + first_dot(s.drop_first())
    }
}

/// `Digit+ | Digit+ '.' Digit* | Digit* '.' Digit+`
pub open spec fn is_mantissa(m: Seq<char>) -> bool {
    let j = first_dot(m);
    if j == m.len() {
        m.len() > 0 && all_digits(m)
    } else {
        all_digits(m.take(j)) && all_digits(m.skip(j + 1)) && m.len() >= 2
    }
}

/// What `f64`'s parser accepts: an optional sign, then `inf`, `infinity`
/// or `nan` in any case, or a decimal number with an optional exponent
/// `e` (or `E`), an optional sign and one digit or more.
pub open spec fn is_float_text(s: Seq<char>) -> bool {
    let b = unsigned(s);
    let k = first_exp(b);
    same_folded(b, seq!['i', 'n', 'f']) || same_folded(b, seq!['i', 'n', 'f', 'i', 'n', 'i', 't', 'y'])
        || same_folded(b, seq!['n', 'a', 'n'])
        || (is_mantissa(b.take(k)) && (k == b.len() || ({
            let e = unsigned(b.skip(k + 1));
            e.len() > 0 && all_digits(e)
        })))
}

/// The most specific value of the token `s`: an integer, else a float,
/// else a duration, else the text itself.
pub open spec fn coerce(s: Seq<char>) -> DataView {
    match i64_of(s) {
        Some(i) => DataView::I64(i),
        None => if is_float_text(s) {
            DataView::F64(s)
        } else {
            match duration_of(s) {
                Ok(d) => DataView::Duration(d),
                Err(_) => DataView::String(s),
            }
        },
    }
}


/// Relies on `i64`'s `FromStr`: an optional `+` or `-`, then decimal
/// digits only, rejected when empty or out of range.
#[verifier::external_body]
fn parse_i64(s: &str) -> (r: Option<i64>)
    ensures
        r == i64_of(s@),
{
    s.parse::<i64>().ok()
}

fn digits_in(v: &Vec<char>, lo: usize, hi: usize) -> (r: bool)
    requires
        lo <= hi <= v@.len(),
    ensures
        r == all_digits(v@.subrange(lo as int, hi as int)),
{
    let mut j = lo;
    while j < hi
        invariant
            lo <= j <= hi <= v@.len(),
            forall|k: int| lo <= k < j ==> is_digit(v@[k]),
        decreases hi - j,
    {
        if !('0' <= v[j] && v[j] <= '9') {
            assert(!is_digit(v@.subrange(lo as int, hi as int)[j - lo]));
            return false;
        }
        j += 1;
    }
    assert forall|i: int| 0 <= i < hi - lo implies is_digit(#[trigger] v@.subrange(lo as int, hi as int)[i]) by {
        assert(v@.subrange(lo as int, hi as int)[i] == v@[lo + i]);
    }
    true
}

fn folded_eq(v: &Vec<char>, lo: usize, hi: usize, w: &[char]) -> (r: bool)
    requires
        lo <= hi <= v@.len(),
    ensures
        r == same_folded(v@.subrange(lo as int, hi as int), w@),
{
    if hi - lo != w.len() {
        return false;
    }
    let mut j: usize = 0;
    while j < w.len()
        invariant
            lo <= hi <= v@.len(),
            hi - lo == w@.len(),
            j <= w@.len(),
            forall|k: int| 0 <= k < j ==> folds_to(v@[lo + k], w@[k]),
        decreases w@.len() - j,
    {
        let c = v[lo + j];
        let x = w[j];
        if !(c == x || ('A' <= c && c <= 'Z' && c as u32 + 32 == x as u32)) {
            assert(!folds_to(v@.subrange(lo as int, hi as int)[j as int], w@[j as int]));
            return false;
        }
        j += 1;
    }
    assert forall|i: int| 0 <= i < hi - lo implies folds_to(#[trigger] v@.subrange(lo as int, hi as int)[i], w@[i]) by {
        assert(v@.subrange(lo as int, hi as int)[i] == v@[lo + i]);
    }
    true
}

/// The first index in `v[lo..hi]` of `e`, `E` (where `exp`) or `.` (else),
/// or `hi`.
fn find_mark(v: &Vec<char>, lo: usize, hi: usize, exp: bool) -> (r: usize)
    requires
        lo <= hi <= v@.len(),
    ensures
        exp ==> r == lo + first_exp(v@.subrange(lo as int, hi as int)),
        !exp ==> r == lo + first_dot(v@.subrange(lo as int, hi as int)),
        lo <= r <= hi,
{
    let mut j = lo;
    while j < hi
        invariant
            lo <= j <= hi <= v@.len(),
            exp ==> first_exp(v@.subrange(lo as int, hi as int)) == (j - lo) + first_exp(v@.subrange(j as int, hi as int)),
            !exp ==> first_dot(v@.subrange(lo as int, hi as int)) == (j - lo) + first_dot(v@.subrange(j as int, hi as int)),
        decreases hi - j,
    {
        let c = v[j];
        let hit = if exp { c == 'e' || c == 'E' } else { c == '.' };
        assert(v@.subrange(j as int, hi as int).drop_first() =~= v@.subrange(j + 1, hi as int));
        if hit {
            return j;
        }
        j += 1;
    }
    j
}

fn is_mantissa_exec(v: &Vec<char>, lo: usize, hi: usize) -> (r: bool)
    requires
        lo <= hi <= v@.len(),
    ensures
        r == is_mantissa(v@.subrange(lo as int, hi as int)),
{
    let ghost m = v@.subrange(lo as int, hi as int);
    let j = find_mark(v, lo, hi, false);
    if j == hi {
        hi > lo && digits_in(v, lo, hi)
    } else {
        assert(m.take(j - lo) =~= v@.subrange(lo as int, j as int));
        assert(m.skip(j - lo + 1) =~= v@.subrange(j + 1, hi as int));
        digits_in(v, lo, j) && digits_in(v, j + 1, hi) && hi - lo >= 2
    }
}

/// Whether `f64`'s parser accepts the characters `v`.
fn is_float_exec(v: &Vec<char>) -> (r: bool)
    ensures
        r == is_float_text(v@),
{
    let hi = v.len();
    let lo: usize = if hi > 0 && (v[0] == '+' || v[0] == '-') { 1 } else { 0 };
    let ghost b = unsigned(v@);
    assert(b =~= v@.subrange(lo as int, hi as int));
    if folded_eq(v, lo, hi, &['i', 'n', 'f']) || folded_eq(v, lo, hi, &['i', 'n', 'f', 'i', 'n', 'i', 't', 'y'])
        || folded_eq(v, lo, hi, &['n', 'a', 'n']) {
        return true;
    }
    let k = find_mark(v, lo, hi, true);
    assert(b.take(k - lo) =~= v@.subrange(lo as int, k as int));
    if !is_mantissa_exec(v, lo, k) {
        return false;
    }
    if k == hi {
        return true;
    }
    let e0 = k + 1;
    let e1: usize = if e0 < hi && (v[e0] == '+' || v[e0] == '-') { e0 + 1 } else { e0 };
    assert(unsigned(b.skip(k - lo + 1)) =~= v@.subrange(e1 as int, hi as int));
    e1 < hi && digits_in(v, e1, hi)
}

impl DataValue {
    /// The most specific value of the token `s`: an integer, else a float,
    /// else a duration, else the text itself.
    pub fn from_token(s: &str) -> (r: DataValue)
        ensures
            r@ == coerce(s@),
    {
        match parse_i64(s) {
            Some(i) => DataValue::I64(i),
            None => {
                let v = chars_of(s);
                assert(v@.subrange(0, v@.len() as int) =~= s@);
                if is_float_exec(&v) {
                    DataValue::F64(string_of(&v, 0, v.len()))
                } else {
                    match parse_duration(s) {
                        Ok(d) => DataValue::Duration(d),
                        Err(_) => DataValue::String(string_of(&v, 0, v.len())),
                    }
                }
            },
        }
    }
}

impl From<&str> for DataValue {
    fn from(s: &str) -> (r: DataValue)
        ensures
            r@ == coerce(s@),
    {
        DataValue::from_token(s)
    }
}

// What `from` returns is stated by its own `ensures`, over the value's view:
// a value holding text has no spec-level constructor to state it here.
impl vstd::std_specs::convert::FromSpecImpl<&str> for DataValue {
    open spec fn obeys_from_spec() -> bool {
        false
    }

    open spec fn from_spec(s: &str) -> DataValue {
        arbitrary()
    }
}

} // verus!
