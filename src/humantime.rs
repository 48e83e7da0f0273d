//! Human-written durations such as `100.32ms`, `2h` or `1h30m`.
use vstd::prelude::*;
use vstd::arithmetic::div_mod::{lemma_fundamental_div_mod, lemma_fundamental_div_mod_converse};
use vstd::utf8::{encode_utf8, encode_scalar, char_is_scalar};
use crate::text::{chars_of, string_of};

verus! {

/// A span of time: whole seconds plus nanoseconds.
///
/// `nanos` is the sum of the sub-second parts of every group of the input;
/// it is not carried into `secs`, so it may reach one second or more.
#[derive(Debug, Clone, Copy, PartialEq, Eq)]
pub struct Duration {
    pub secs: u64,
    pub nanos: u32,
}

/// Error parsing a human-friendly duration.
#[derive(Debug, PartialEq, Clone)]
pub enum Error {
    /// A character that is neither a digit, `.`, a unit letter nor
    /// whitespace; the field is its byte offset in the input.
    InvalidCharacter(usize),
    /// A number was expected at this byte offset.
    NumberExpected(usize),
    /// The unit is not one of the known ones (an empty unit included).
    UnknownUnit {
        /// The unit verbatim.
        unit: String,
        /// The integer quantity written before it.
        value: u64,
    },
    /// A number or a sum does not fit its 64-bit (or, for the nanoseconds,
    /// 32-bit) field.
    NumberOverflow,
    /// The input is empty or holds only whitespace.
    Empty,
}

/// What an [`Error`] says, with the unit as a sequence of characters.
pub enum ErrorView {
    InvalidCharacter(nat),
    NumberExpected(nat),
    UnknownUnit { unit: Seq<char>, value: u64 },
    NumberOverflow,
    Empty,
}

impl View for Error {
    type V = ErrorView;

    open spec fn view(&self) -> ErrorView {
        match self {
            Error::InvalidCharacter(o) => ErrorView::InvalidCharacter(*o as nat),
            Error::NumberExpected(o) => ErrorView::NumberExpected(*o as nat),
            Error::UnknownUnit { unit, value } => ErrorView::UnknownUnit { unit: unit@, value: *value },
            Error::NumberOverflow => ErrorView::NumberOverflow,
            Error::Empty => ErrorView::Empty,
        }
    }
}

/// The outcome of a parse, with the error seen through its view.
pub open spec fn outcome(r: Result<Duration, Error>) -> Result<Duration, ErrorView> {
    match r {
        Ok(d) => Ok(d),
        Err(e) => Err(e@),
    }
}

pub open spec fn is_digit(c: char) -> bool {
    '0' <= c <= '9'
}

pub open spec fn digit_value(c: char) -> nat {
    (c as u32 - '0' as u32) as nat
}

pub open spec fn all_digits(s: Seq<char>) -> bool {
    forall|i: int| 0 <= i < s.len() ==> is_digit(#[trigger] s[i])
}

/// The value of a run of decimal digits.
pub open spec fn digits_value(s: Seq<char>) -> nat
    decreases s.len(),
{
    if s.len() == 0 {
        0
    } else {
        10 * digits_value(s.drop_last()) + (s.last() as u32 - '0' as u32) as nat
    }
}

/// Unicode `White_Space`, as `char::is_whitespace` documents it.
pub open spec fn is_space(c: char) -> bool {
    let u = c as u32;
    (0x09 <= u <= 0x0D) || u == 0x20 || u == 0x85 || u == 0xA0 || u == 0x1680
        || (0x2000 <= u <= 0x200A) || u == 0x2028 || u == 0x2029 || u == 0x202F
        || u == 0x205F || u == 0x3000
}

/// A letter of a unit: an ASCII letter or the micro sign.
pub open spec fn is_unit_char(c: char) -> bool {
    ('a' <= c <= 'z') || ('A' <= c <= 'Z') || c == 'µ'
}

pub open spec fn is_word(u: Seq<char>, w: Seq<char>) -> bool {
    u =~= w
}

/// The length in seconds of one unit, as a fraction `(num, den)`.
pub open spec fn unit_scale(u: Seq<char>) -> Option<(nat, nat)> {
    if is_word(u, seq!['n', 's']) || is_word(u, seq!['n', 's', 'e', 'c'])
        || is_word(u, seq!['n', 'a', 'n', 'o', 's']) {
        Some((1, 1_000_000_000))
    } else if is_word(u, seq!['u', 's']) || is_word(u, seq!['µ', 's'])
        || is_word(u, seq!['u', 's', 'e', 'c']) {
        Some((1, 1_000_000))
    } else if is_word(u, seq!['m', 's']) || is_word(u, seq!['m', 's', 'e', 'c'])
        || is_word(u, seq!['m', 'i', 'l', 'l', 'i', 's']) {
        Some((1, 1_000))
    } else if is_word(u, seq!['s']) || is_word(u, seq!['s', 'e', 'c'])
        || is_word(u, seq!['s', 'e', 'c', 's']) || is_word(u, seq!['s', 'e', 'c', 'o', 'n', 'd'])
        || is_word(u, seq!['s', 'e', 'c', 'o', 'n', 'd', 's']) {
        Some((1, 1))
    } else if is_word(u, seq!['m']) || is_word(u, seq!['m', 'i', 'n'])
        || is_word(u, seq!['m', 'i', 'n', 's']) || is_word(u, seq!['m', 'i', 'n', 'u', 't', 'e'])
        || is_word(u, seq!['m', 'i', 'n', 'u', 't', 'e', 's']) {
        Some((60, 1))
    } else if is_word(u, seq!['h']) || is_word(u, seq!['h', 'r'])
        || is_word(u, seq!['h', 'r', 's']) || is_word(u, seq!['h', 'o', 'u', 'r'])
        || is_word(u, seq!['h', 'o', 'u', 'r', 's']) {
        Some((3600, 1))
    } else if is_word(u, seq!['d']) || is_word(u, seq!['d', 'a', 'y'])
        || is_word(u, seq!['d', 'a', 'y', 's']) {
        Some((86400, 1))
    } else if is_word(u, seq!['w']) || is_word(u, seq!['w', 'e', 'e', 'k'])
        || is_word(u, seq!['w', 'e', 'e', 'k', 's']) {
        Some((604800, 1))
    } else if is_word(u, seq!['M']) || is_word(u, seq!['m', 'o', 'n', 't', 'h'])
        || is_word(u, seq!['m', 'o', 'n', 't', 'h', 's']) {
        Some((2_630_016, 1))
    } else if is_word(u, seq!['y']) || is_word(u, seq!['y', 'e', 'a', 'r'])
        || is_word(u, seq!['y', 'e', 'a', 'r', 's']) {
        Some((31_557_600, 1))
    } else {
        None
    }
}

/// The numerator of a known unit's length in seconds.
pub open spec fn scale_num(u: Seq<char>) -> nat {
    match unit_scale(u) {
        Some((num, _)) => num,
        None => 0,
    }
}

/// The denominator of a known unit's length in seconds.
pub open spec fn scale_den(u: Seq<char>) -> nat {
    match unit_scale(u) {
        Some((_, den)) => den,
        None => 1,
    }
}

pub open spec fn pow10(e: nat) -> nat
    decreases e,
{
    if e == 0 { 1 } else { 10 * pow10((e - 1) as nat) }
}

/// The number of decimal digits of `d` (one for zero). The fraction of a
/// group is read as this many places, so its leading zeros are lost.
pub open spec fn places(d: nat) -> nat
    decreases d,
{
    if d < 10 { 1 } else { 1 + places(d / 10) }
}

/// `x / y` rounded to the nearest integer, halves up.
pub open spec fn round_div(x: nat, y: nat) -> nat {
    x / y + if 2 * (x % y) >= y { 1nat } else { 0nat }
}

/// The exact length of a group `n.d` in the unit `num / den` seconds, as
/// the fraction `top / bottom` seconds.
pub open spec fn group_top(n: nat, d: nat, num: nat) -> nat {
    num * (n * pow10(places(d)) + d)
}

pub open spec fn group_bottom(d: nat, den: nat) -> nat {
    den * pow10(places(d))
}

/// The whole seconds of a group, floored.
pub open spec fn group_secs(n: nat, d: nat, num: nat, den: nat) -> nat {
    group_top(n, d, num) / group_bottom(d, den)
}

/// The rest of a group below one second, in nanoseconds, rounded.
pub open spec fn group_nanos(n: nat, d: nat, num: nat, den: nat) -> nat {
    round_div((group_top(n, d, num) % group_bottom(d, den)) * 1_000_000_000, group_bottom(d, den))
}

/// Where the scan of a duration stands.
#[derive(Clone, Copy, PartialEq, Eq)]
pub enum Stage {
    /// Reading the integer part of a group (or whitespace before it).
    Number,
    /// Reading the digits after `.`.
    Fraction,
    /// Reading the letters of a unit.
    Unit,
}

/// The state of the scan between two characters.
#[derive(Clone, Copy)]
pub struct Scan {
    pub stage: Stage,
    /// A digit or `.` of the current group was read.
    pub pending: bool,
    /// Where the unit of the current group starts.
    pub start: usize,
    pub n: u64,
    pub d: u64,
    pub secs: u64,
    pub nanos: u32,
    /// At least one group was completed.
    pub done: bool,
}

pub open spec fn initial() -> Scan {
    Scan { stage: Stage::Number, pending: false, start: 0, n: 0, d: 0, secs: 0, nanos: 0, done: false }
}

/// The byte offset of the character at index `i`.
pub open spec fn byte_offset(s: Seq<char>, i: int) -> nat {
    encode_utf8(s.take(i)).len()
}

/// Ends the group whose unit runs from `st.start` to `end`.
pub open spec fn finish(s: Seq<char>, st: Scan, end: int) -> Result<Scan, ErrorView> {
    let u = s.subrange(st.start as int, end);
    match unit_scale(u) {
        None => Err(ErrorView::UnknownUnit { unit: u, value: st.n }),
        Some((num, den)) => {
            let secs = st.secs + group_secs(st.n as nat, st.d as nat, num, den);
            let nanos = st.nanos + group_nanos(st.n as nat, st.d as nat, num, den);
            if secs > u64::MAX || nanos > u32::MAX {
                Err(ErrorView::NumberOverflow)
            } else {
                Ok(Scan {
                    stage: Stage::Number,
                    pending: false,
                    start: 0,
                    n: 0,
                    d: 0,
                    secs: secs as u64,
                    nanos: nanos as u32,
                    done: true,
                })
            }
        },
    }
}

/// One character `s[i]` read where a group's integer part may stand.
pub open spec fn number_step(s: Seq<char>, i: int, st: Scan) -> Result<Scan, ErrorView> {
    let c = s[i];
    if is_digit(c) {
        let v = st.n * 10 + digit_value(c);
        if v > u64::MAX {
            Err(ErrorView::NumberOverflow)
        } else {
            Ok(Scan { n: v as u64, pending: true, ..st })
        }
    } else if is_space(c) {
        Ok(st)
    } else if c == '.' {
        Ok(Scan { stage: Stage::Fraction, pending: true, ..st })
    } else if is_unit_char(c) && st.pending {
        Ok(Scan { stage: Stage::Unit, start: i as usize, ..st })
    } else {
        Err(ErrorView::InvalidCharacter(byte_offset(s, i)))
    }
}

/// One character `s[i]` read in state `st`.
pub open spec fn step(s: Seq<char>, i: int, st: Scan) -> Result<Scan, ErrorView> {
    let c = s[i];
    match st.stage {
        Stage::Unit => {
            if is_unit_char(c) {
                Ok(st)
            } else {
                match finish(s, st, i) {
                    Ok(next) => number_step(s, i, next),
                    Err(e) => Err(e),
                }
            }
        },
        Stage::Fraction => {
            if is_digit(c) {
                let v = st.d * 10 + digit_value(c);
                if v > u64::MAX {
                    Err(ErrorView::NumberOverflow)
                } else {
                    Ok(Scan { d: v as u64, ..st })
                }
            } else if is_unit_char(c) {
                Ok(Scan { stage: Stage::Unit, start: i as usize, ..st })
            } else {
                Err(ErrorView::InvalidCharacter(byte_offset(s, i)))
            }
        },
        Stage::Number => number_step(s, i, st),
    }
}

/// The state after the first `k` characters of `s`.
pub open spec fn run(s: Seq<char>, k: nat) -> Result<Scan, ErrorView>
    decreases k,
{
    if k == 0 {
        Ok(initial())
    } else {
        match run(s, (k - 1) as nat) {
            Ok(st) => step(s, k - 1, st),
            Err(e) => Err(e),
        }
    }
}

/// The result once the whole input is read.
pub open spec fn conclude(s: Seq<char>, st: Scan) -> Result<Duration, ErrorView> {
    match st.stage {
        Stage::Unit => match finish(s, st, s.len() as int) {
            Ok(last) => Ok(Duration { secs: last.secs, nanos: last.nanos }),
            Err(e) => Err(e),
        },
        _ => {
            if st.pending {
                Err(ErrorView::UnknownUnit { unit: Seq::empty(), value: st.n })
            } else if !st.done {
                Err(ErrorView::Empty)
            } else {
                Ok(Duration { secs: st.secs, nanos: st.nanos })
            }
        },
    }
}

/// What parsing `s` gives.
pub open spec fn duration_of(s: Seq<char>) -> Result<Duration, ErrorView> {
    match run(s, s.len()) {
        Ok(st) => conclude(s, st),
        Err(e) => Err(e),
    }
}

/// The outcome of one step, with the error seen through its view.
pub open spec fn scan_outcome(r: Result<Scan, Error>) -> Result<Scan, ErrorView> {
    match r {
        Ok(st) => Ok(st),
        Err(e) => Err(e@),
    }
}

proof fn lemma_encode_append(a: Seq<char>, b: Seq<char>)
    ensures
        encode_utf8(a + b) == encode_utf8(a) + encode_utf8(b),
    decreases a.len(),
{
    if a.len() == 0 {
        assert(a + b =~= b);
        assert(encode_utf8(a) + encode_utf8(b) =~= encode_utf8(b));
    } else {
        assert((a + b).drop_first() =~= a.drop_first() + b);
        lemma_encode_append(a.drop_first(), b);
        assert(encode_utf8(a + b) =~= encode_utf8(a) + encode_utf8(b));
    }
}

/// The byte offset of `s[i + 1]` follows that of `s[i]` by the width of
/// `s[i]`, and no offset passes the length of the whole encoding.
proof fn lemma_offset_next(s: Seq<char>, i: int)
    requires
        0 <= i < s.len(),
    ensures
        byte_offset(s, i + 1) == byte_offset(s, i) + encode_scalar(s[i] as u32).len(),
        byte_offset(s, i + 1) <= encode_utf8(s).len(),
{
    let one = seq![s[i]];
    assert(s.take(i + 1) =~= s.take(i) + one);
    lemma_encode_append(s.take(i), one);
    assert(one.drop_first() =~= Seq::<char>::empty());
    assert(encode_utf8(Seq::<char>::empty()) =~= Seq::<u8>::empty());
    assert(encode_utf8(one) == encode_scalar(one[0] as u32) + encode_utf8(one.drop_first()));
    assert(encode_utf8(one) =~= encode_scalar(s[i] as u32));
    assert(s =~= s.take(i + 1) + s.skip(i + 1));
    lemma_encode_append(s.take(i + 1), s.skip(i + 1));
}

fn char_width(c: char) -> (w: usize)
    ensures
        w == encode_scalar(c as u32).len(),
        1 <= w <= 4,
{
    proof {
        char_is_scalar(c);
    }
    let u = c as u32;
    if u <= 0x7F {
        1
    } else if u <= 0x7FF {
        2
    } else if u <= 0xFFFF {
        3
    } else {
        4
    }
}

fn is_digit_exec(c: char) -> (r: bool)
    ensures
        r == is_digit(c),
{
    '0' <= c && c <= '9'
}

fn is_space_exec(c: char) -> (r: bool)
    ensures
        r == is_space(c),
{
    let u = c as u32;
    (0x09 <= u && u <= 0x0D) || u == 0x20 || u == 0x85 || u == 0xA0 || u == 0x1680
        || (0x2000 <= u && u <= 0x200A) || u == 0x2028 || u == 0x2029 || u == 0x202F
        || u == 0x205F || u == 0x3000
}

fn is_unit_char_exec(c: char) -> (r: bool)
    ensures
        r == is_unit_char(c),
{
    ('a' <= c && c <= 'z') || ('A' <= c && c <= 'Z') || c == 'µ'
}

/// Whether `v[a..b]` is the word `w`.
pub(crate) fn same_word(v: &Vec<char>, a: usize, b: usize, w: &[char]) -> (r: bool)
    requires
        a <= b <= v@.len(),
    ensures
        r == is_word(v@.subrange(a as int, b as int), w@),
{
    if b - a != w.len() {
        return false;
    }
    let mut j: usize = 0;
    while j < w.len()
        invariant
            a <= b <= v@.len(),
            b - a == w@.len(),
            j <= w@.len(),
            forall|k: int| 0 <= k < j ==> v@[a + k] == w@[k],
        decreases w@.len() - j,
    {
        if v[a + j] != w[j] {
            assert(v@.subrange(a as int, b as int)[j as int] != w@[j as int]);
            return false;
        }
        j += 1;
    }
    assert(v@.subrange(a as int, b as int) =~= w@);
    true
}

/// The unit `v[a..b]` looked up.
fn unit_scale_exec(v: &Vec<char>, a: usize, b: usize) -> (r: Option<(u64, u64)>)
    requires
        a <= b <= v@.len(),
    ensures
        match unit_scale(v@.subrange(a as int, b as int)) {
            Some((num, den)) => r == Some((num as u64, den as u64)),
            None => r is None,
        },
{
    if same_word(v, a, b, &['n', 's']) || same_word(v, a, b, &['n', 's', 'e', 'c'])
        || same_word(v, a, b, &['n', 'a', 'n', 'o', 's']) {
        Some((1, 1_000_000_000))
    } else if same_word(v, a, b, &['u', 's']) || same_word(v, a, b, &['µ', 's'])
        || same_word(v, a, b, &['u', 's', 'e', 'c']) {
        Some((1, 1_000_000))
    } else if same_word(v, a, b, &['m', 's']) || same_word(v, a, b, &['m', 's', 'e', 'c'])
        || same_word(v, a, b, &['m', 'i', 'l', 'l', 'i', 's']) {
        Some((1, 1_000))
    } else if same_word(v, a, b, &['s']) || same_word(v, a, b, &['s', 'e', 'c'])
        || same_word(v, a, b, &['s', 'e', 'c', 's'])
        || same_word(v, a, b, &['s', 'e', 'c', 'o', 'n', 'd'])
        || same_word(v, a, b, &['s', 'e', 'c', 'o', 'n', 'd', 's']) {
        Some((1, 1))
    } else if same_word(v, a, b, &['m']) || same_word(v, a, b, &['m', 'i', 'n'])
        || same_word(v, a, b, &['m', 'i', 'n', 's'])
        || same_word(v, a, b, &['m', 'i', 'n', 'u', 't', 'e'])
        || same_word(v, a, b, &['m', 'i', 'n', 'u', 't', 'e', 's']) {
        Some((60, 1))
    } else if same_word(v, a, b, &['h']) || same_word(v, a, b, &['h', 'r'])
        || same_word(v, a, b, &['h', 'r', 's']) || same_word(v, a, b, &['h', 'o', 'u', 'r'])
        || same_word(v, a, b, &['h', 'o', 'u', 'r', 's']) {
        Some((3600, 1))
    } else if same_word(v, a, b, &['d']) || same_word(v, a, b, &['d', 'a', 'y'])
        || same_word(v, a, b, &['d', 'a', 'y', 's']) {
        Some((86400, 1))
    } else if same_word(v, a, b, &['w']) || same_word(v, a, b, &['w', 'e', 'e', 'k'])
        || same_word(v, a, b, &['w', 'e', 'e', 'k', 's']) {
        Some((604800, 1))
    } else if same_word(v, a, b, &['M']) || same_word(v, a, b, &['m', 'o', 'n', 't', 'h'])
        || same_word(v, a, b, &['m', 'o', 'n', 't', 'h', 's']) {
        Some((2_630_016, 1))
    } else if same_word(v, a, b, &['y']) || same_word(v, a, b, &['y', 'e', 'a', 'r'])
        || same_word(v, a, b, &['y', 'e', 'a', 'r', 's']) {
        Some((31_557_600, 1))
    } else {
        None
    }
}


proof fn lemma_below_pow10(d: nat)
    ensures
        d < pow10(places(d)),
        pow10(places(d)) >= 10,
    decreases d,
{
    if d >= 10 {
        lemma_below_pow10(d / 10);
        let p = pow10(places(d / 10));
        assert(pow10(places(d)) == 10 * p);
        assert(d < 10 * p) by (nonlinear_arith)
            requires
                d / 10 < p,
        ;
    } else {
        assert(pow10(1) == 10 * pow10(0));
    }
}

/// The units that `unit_scale` gives: a whole number of seconds, or one
/// over a power of a thousand.
pub open spec fn scale_shape(num: nat, den: nat) -> bool {
    (num == 1 && (den == 1 || den == 1_000 || den == 1_000_000 || den == 1_000_000_000))
        || (den == 1 && 1 <= num <= 31_557_600)
}

proof fn lemma_scale_shape(u: Seq<char>)
    ensures
        unit_scale(u) matches Some((num, den)) ==> scale_shape(num, den),
{
}

/// `10^places(d)`, computed.
fn pow10_places(d: u64) -> (p: u128)
    ensures
        p == pow10(places(d as nat)),
        p <= 10 * (d as nat) + 10,
{
    let mut p: u128 = 10;
    let mut t: u64 = d;
    let ghost mut k: nat = 0;
    assert(pow10(1) == 10 * pow10(0));
    while t >= 10
        invariant
            places(d as nat) == k + places(t as nat),
            p == 10 * pow10(k),
            pow10(k) * t <= d,
            k > 0 ==> t >= 1,
            pow10(k) >= 1,
        decreases t,
    {
        let ghost q = pow10(k);
        assert(q * 10 * (t / 10) <= q * t) by (nonlinear_arith)
            requires
                q >= 1,
        ;
        assert(q <= q * t) by (nonlinear_arith)
            requires
                q >= 1, t >= 1,
        ;
        t = t / 10;
        p = p * 10;
        proof {
            k = k + 1;
            assert(pow10(k) == 10 * q);
        }
    }
    proof {
        let q = pow10(k);
        if k > 0 {
            assert(q <= q * t) by (nonlinear_arith)
                requires
                    q >= 1, t >= 1,
            ;
        }
    }
    p
}

/// One group `n.d` in the unit `num / den` seconds: its whole seconds and
/// its rounded nanoseconds, or `None` where the seconds pass `u64::MAX`.
fn group_amount(n: u64, d: u64, num: u64, den: u64) -> (r: Option<(u64, u32)>)
    requires
        scale_shape(num as nat, den as nat),
    ensures
        match r {
            Some((w, ns)) => w == group_secs(n as nat, d as nat, num as nat, den as nat)
                && ns == group_nanos(n as nat, d as nat, num as nat, den as nat),
            None => group_secs(n as nat, d as nat, num as nat, den as nat) > u64::MAX,
        },
{
    let p = pow10_places(d);
    proof {
        lemma_below_pow10(d as nat);
    }
    let ghost top = group_top(n as nat, d as nat, num as nat);
    let ghost bottom = group_bottom(d as nat, den as nat);
    let nn = n as u128;
    let dd = d as u128;
    let mm = num as u128;
    let whole: u128;
    let rem: u128;
    let base: u128;
    if den == 1 {
        assert(mm * dd <= 31_557_600 * 18_446_744_073_709_551_615) by (nonlinear_arith)
            requires
                mm <= 31_557_600, dd <= 18_446_744_073_709_551_615,
        ;
        assert(mm * nn <= 31_557_600 * 18_446_744_073_709_551_615) by (nonlinear_arith)
            requires
                mm <= 31_557_600, nn <= 18_446_744_073_709_551_615,
        ;
        let md = mm * dd;
        whole = mm * nn + md / p;
        rem = md % p;
        base = p;
        proof {
            lemma_fundamental_div_mod(md as int, p as int);
            assert(top == (mm * nn + md / p) * p + md % p) by (nonlinear_arith)
                requires
                    top == mm * (nn * p + dd),
                    md == mm * dd,
                    md == p * (md / p) + md % p,
            ;
            lemma_fundamental_div_mod_converse(top as int, p as int, (mm * nn + md / p) as int, (md % p) as int);
            assert(bottom == p) by (nonlinear_arith)
                requires
                    bottom == den * p, den == 1,
            ;
        }
    } else {
        let dn = den as u128;
        whole = nn / dn;
        assert(nn % dn < dn);
        assert(dn * p <= 1_000_000_000 * 184_467_440_737_095_516_160) by (nonlinear_arith)
            requires
                dn <= 1_000_000_000, p <= 184_467_440_737_095_516_160,
        ;
        assert((nn % dn) * p <= 1_000_000_000 * 184_467_440_737_095_516_160) by (nonlinear_arith)
            requires
                nn % dn <= 1_000_000_000, p <= 184_467_440_737_095_516_160,
        ;
        rem = (nn % dn) * p + dd;
        base = dn * p;
        proof {
            assert(num == 1);
            lemma_fundamental_div_mod(nn as int, dn as int);
            assert((nn % dn) * p + dd < dn * p) by (nonlinear_arith)
                requires
                    nn % dn < dn, dd < p,
            ;
            assert(top == (nn / dn) * (dn * p) + ((nn % dn) * p + dd)) by (nonlinear_arith)
                requires
                    top == 1 * (nn * p + dd),
                    nn == dn * (nn / dn) + nn % dn,
            ;
            lemma_fundamental_div_mod_converse(top as int, (dn * p) as int, (nn / dn) as int, ((nn % dn) * p + dd) as int);
        }
    }
    if whole > u64::MAX as u128 {
        return None;
    }
    assert(rem < base);
    assert(rem * 1_000_000_000 < base * 1_000_000_000) by (nonlinear_arith)
        requires
            rem < base,
    ;
    let x = rem * 1_000_000_000;
    let q = x / base;
    let r2 = x % base;
    proof {
        lemma_fundamental_div_mod(x as int, base as int);
        assert(q < 1_000_000_000) by (nonlinear_arith)
            requires
                x == base * q + r2, r2 >= 0, x < base * 1_000_000_000, base > 0,
        ;
    }
    let ns: u128 = if 2 * r2 >= base { q + 1 } else { q };
    Some((whole as u64, ns as u32))
}


/// Ends the group whose unit is `v[st.start..end]`.
fn finish_exec(v: &Vec<char>, st: Scan, end: usize) -> (r: Result<Scan, Error>)
    requires
        st.start <= end <= v@.len(),
    ensures
        scan_outcome(r) == finish(v@, st, end as int),
{
    proof {
        lemma_scale_shape(v@.subrange(st.start as int, end as int));
    }
    match unit_scale_exec(v, st.start, end) {
        None => Err(Error::UnknownUnit { unit: string_of(v, st.start, end), value: st.n }),
        Some((num, den)) => match group_amount(st.n, st.d, num, den) {
            None => Err(Error::NumberOverflow),
            Some((w, ns)) => {
                match (st.secs.checked_add(w), st.nanos.checked_add(ns)) {
                    (Some(secs), Some(nanos)) => Ok(Scan {
                        stage: Stage::Number,
                        pending: false,
                        start: 0,
                        n: 0,
                        d: 0,
                        secs,
                        nanos,
                        done: true,
                    }),
                    _ => Err(Error::NumberOverflow),
                }
            },
        },
    }
}

fn number_step_exec(v: &Vec<char>, i: usize, off: usize, st: Scan) -> (r: Result<Scan, Error>)
    requires
        i < v@.len(),
        off == byte_offset(v@, i as int),
        st.stage != Stage::Unit,
    ensures
        scan_outcome(r) == number_step(v@, i as int, st),
        r matches Ok(next) ==> (next.stage == Stage::Unit ==> next.start == i),
{
    let c = v[i];
    if is_digit_exec(c) {
        let dv = (c as u32 - '0' as u32) as u64;
        match st.n.checked_mul(10) {
            None => Err(Error::NumberOverflow),
            Some(t) => match t.checked_add(dv) {
                None => Err(Error::NumberOverflow),
                Some(n) => Ok(Scan { n, pending: true, ..st }),
            },
        }
    } else if is_space_exec(c) {
        Ok(st)
    } else if c == '.' {
        Ok(Scan { stage: Stage::Fraction, pending: true, ..st })
    } else if is_unit_char_exec(c) && st.pending {
        Ok(Scan { stage: Stage::Unit, start: i, ..st })
    } else {
        Err(Error::InvalidCharacter(off))
    }
}

fn step_exec(v: &Vec<char>, i: usize, off: usize, st: Scan) -> (r: Result<Scan, Error>)
    requires
        i < v@.len(),
        off == byte_offset(v@, i as int),
        st.stage == Stage::Unit ==> st.start < i,
    ensures
        scan_outcome(r) == step(v@, i as int, st),
        r matches Ok(next) ==> (next.stage == Stage::Unit ==> next.start <= i),
{
    let c = v[i];
    match st.stage {
        Stage::Unit => {
            if is_unit_char_exec(c) {
                Ok(st)
            } else {
                match finish_exec(v, st, i) {
                    Ok(next) => number_step_exec(v, i, off, next),
                    Err(e) => Err(e),
                }
            }
        },
        Stage::Fraction => {
            if is_digit_exec(c) {
                let dv = (c as u32 - '0' as u32) as u64;
                match st.d.checked_mul(10) {
                    None => Err(Error::NumberOverflow),
                    Some(t) => match t.checked_add(dv) {
                        None => Err(Error::NumberOverflow),
                        Some(d) => Ok(Scan { d, ..st }),
                    },
                }
            } else if is_unit_char_exec(c) {
                Ok(Scan { stage: Stage::Unit, start: i, ..st })
            } else {
                Err(Error::InvalidCharacter(off))
            }
        },
        Stage::Number => number_step_exec(v, i, off, st),
    }
}

/// Once the scan has failed, reading more leaves the failure as it is.
proof fn lemma_run_failed(s: Seq<char>, k: nat, m: nat)
    requires
        k <= m,
        run(s, k) is Err,
    ensures
        run(s, m) == run(s, k),
    decreases m - k,
{
    if k < m {
        lemma_run_failed(s, k, (m - 1) as nat);
    }
}

/// Parses a duration written as groups of a number and a unit, such as
/// `100.32ms`, `2h` or `1h 30m`; the groups add up.
pub fn parse_duration(s: &str) -> (r: Result<Duration, Error>)
    ensures
        outcome(r) == duration_of(s@),
{
    let v = chars_of(s);
    let total = s.as_bytes().len();
    let mut st = Scan {
        stage: Stage::Number,
        pending: false,
        start: 0,
        n: 0,
        d: 0,
        secs: 0,
        nanos: 0,
        done: false,
    };
    let mut i: usize = 0;
    let mut off: usize = 0;
    assert(s@.take(0) =~= Seq::<char>::empty());
    while i < v.len()
        invariant
            v@ == s@,
            i <= v@.len(),
            run(s@, i as nat) == Ok::<Scan, ErrorView>(st),
            off == byte_offset(s@, i as int),
            total == encode_utf8(s@).len(),
            st.stage == Stage::Unit ==> st.start < i,
        decreases v@.len() - i,
    {
        let next = step_exec(&v, i, off, st);
        match next {
            Ok(x) => {
                st = x;
            },
            Err(e) => {
                proof {
                    lemma_run_failed(s@, (i + 1) as nat, s@.len());
                }
                return Err(e);
            },
        }
        proof {
            lemma_offset_next(s@, i as int);
        }
        off = off + char_width(v[i]);
        i += 1;
    }
    match st.stage {
        Stage::Unit => match finish_exec(&v, st, v.len()) {
            Ok(last) => Ok(Duration { secs: last.secs, nanos: last.nanos }),
            Err(e) => Err(e),
        },
        _ => {
            if st.pending {
                Err(Error::UnknownUnit { unit: String::new(), value: st.n })
            } else if !st.done {
                Err(Error::Empty)
            } else {
                Ok(Duration { secs: st.secs, nanos: st.nanos })
            }
        },
    }
}


/// The prefixes of a run of digits are worth no more than the run.
proof fn lemma_prefix_value(a: Seq<char>, k: int)
    requires
        0 <= k <= a.len(),
    ensures
        digits_value(a.take(k)) <= digits_value(a),
    decreases a.len(),
{
    if k < a.len() {
        assert(a.drop_last().take(k) =~= a.take(k));
        lemma_prefix_value(a.drop_last(), k);
    } else {
        assert(a.take(k) =~= a);
    }
}

proof fn lemma_digit_extend(a: Seq<char>, k: int)
    requires
        0 <= k < a.len(),
    ensures
        digits_value(a.take(k + 1)) == 10 * digits_value(a.take(k)) + digit_value(a[k]),
{
    assert(a.take(k + 1).drop_last() =~= a.take(k));
}

/// Reading the digits `a` at the start of `s` builds their value.
proof fn lemma_integer_run(s: Seq<char>, a: Seq<char>, k: nat)
    requires
        k <= a.len() <= s.len(),
        forall|i: int| 0 <= i < a.len() ==> s[i] == a[i],
        all_digits(a),
        digits_value(a) <= u64::MAX,
    ensures
        run(s, k) == Ok::<Scan, ErrorView>(Scan {
            stage: Stage::Number,
            pending: k > 0,
            start: 0,
            n: digits_value(a.take(k as int)) as u64,
            d: 0,
            secs: 0,
            nanos: 0,
            done: false,
        }),
    decreases k,
{
    if k == 0 {
        assert(a.take(0) =~= Seq::<char>::empty());
    } else {
        lemma_integer_run(s, a, (k - 1) as nat);
        lemma_digit_extend(a, k - 1);
        lemma_prefix_value(a, k as int);
        assert(is_digit(a[k - 1]));
    }
}

/// Reading the digits `f` from `base` on, after `.`, builds their value.
proof fn lemma_fraction_run(s: Seq<char>, base: nat, f: Seq<char>, n: u64, k: nat)
    requires
        k <= f.len(),
        base + f.len() <= s.len(),
        forall|i: int| 0 <= i < f.len() ==> s[base + i] == f[i],
        all_digits(f),
        digits_value(f) <= u64::MAX,
        run(s, base) == Ok::<Scan, ErrorView>(Scan {
            stage: Stage::Fraction,
            pending: true,
            start: 0,
            n,
            d: 0,
            secs: 0,
            nanos: 0,
            done: false,
        }),
    ensures
        run(s, base + k) == Ok::<Scan, ErrorView>(Scan {
            stage: Stage::Fraction,
            pending: true,
            start: 0,
            n,
            d: digits_value(f.take(k as int)) as u64,
            secs: 0,
            nanos: 0,
            done: false,
        }),
    decreases k,
{
    if k == 0 {
        assert(f.take(0) =~= Seq::<char>::empty());
    } else {
        lemma_fraction_run(s, base, f, n, (k - 1) as nat);
        lemma_digit_extend(f, k - 1);
        lemma_prefix_value(f, k as int);
        assert(is_digit(f[k - 1]));
        assert(s[base + k - 1] == f[k - 1]);
    }
}

/// Reading the letters `u` from `base` on, after a fraction, reads a unit
/// that starts at `base`.
proof fn lemma_unit_run(s: Seq<char>, base: nat, u: Seq<char>, st: Scan, k: nat)
    requires
        1 <= k <= u.len(),
        base + u.len() <= s.len() <= usize::MAX,
        forall|i: int| 0 <= i < u.len() ==> s[base + i] == u[i],
        forall|i: int| 0 <= i < u.len() ==> is_unit_char(#[trigger] u[i]),
        run(s, base) == Ok::<Scan, ErrorView>(st),
        st.stage == Stage::Fraction,
    ensures
        run(s, base + k) == Ok::<Scan, ErrorView>(Scan { stage: Stage::Unit, start: base as usize, ..st }),
    decreases k,
{
    if k == 1 {
        assert(s[base as int] == u[0]);
        assert(is_unit_char(u[0]));
    } else {
        lemma_unit_run(s, base, u, st, (k - 1) as nat);
        assert(s[base + k - 1] == u[k - 1]);
        assert(is_unit_char(u[k - 1]));
    }
}

/// The whole seconds and the rounded rest of a group together are the
/// group's exact length rounded to the nearest nanosecond.
proof fn lemma_group_exact(n: nat, d: nat, num: nat, den: nat)
    requires
        den > 0,
    ensures
        group_secs(n, d, num, den) * 1_000_000_000 + group_nanos(n, d, num, den)
            == round_div(group_top(n, d, num) * 1_000_000_000, group_bottom(d, den)),
        group_nanos(n, d, num, den) <= 1_000_000_000,
{
    let top = group_top(n, d, num) as int;
    lemma_below_pow10(d);
    let b = group_bottom(d, den) as int;
    assert(b > 0) by (nonlinear_arith)
        requires
            b == den * pow10(places(d)), den > 0, pow10(places(d)) >= 10,
    ;
    let q = top / b;
    let r = top % b;
    lemma_fundamental_div_mod(top, b);
    let x = r * 1_000_000_000;
    lemma_fundamental_div_mod(x, b);
    let q2 = x / b;
    let r2 = x % b;
    assert(top * 1_000_000_000 == (q * 1_000_000_000 + q2) * b + r2) by (nonlinear_arith)
        requires
            top == b * q + r, x == r * 1_000_000_000, x == b * q2 + r2,
    ;
    lemma_fundamental_div_mod_converse(top * 1_000_000_000, b, q * 1_000_000_000 + q2, r2);
    assert(q2 < 1_000_000_000) by (nonlinear_arith)
        requires
            x == b * q2 + r2, 0 <= r2, 0 <= r < b, x == r * 1_000_000_000,
    ;
}

/// A single group `<int>.<frac><unit>` parses to the unit's length in
/// seconds times the decimal value, rounded to the nearest nanosecond,
/// where the fraction counts as its digits' value over ten to the number
/// of digits of that value (so its leading zeros are lost).
pub proof fn lemma_single_group(a: Seq<char>, f: Seq<char>, u: Seq<char>)
    requires
        a.len() > 0,
        all_digits(a),
        f.len() > 0,
        all_digits(f),
        u.len() > 0,
        forall|i: int| 0 <= i < u.len() ==> is_unit_char(#[trigger] u[i]),
        unit_scale(u) is Some,
        digits_value(a) <= u64::MAX,
        digits_value(f) <= u64::MAX,
        a.len() + 1 + f.len() + u.len() <= usize::MAX,
        group_secs(digits_value(a), digits_value(f), scale_num(u), scale_den(u)) <= u64::MAX,
    ensures
        duration_of(a + seq!['.'] + f + u) matches Ok(t)
            && t.secs * 1_000_000_000 + t.nanos == round_div(
                scale_num(u) * (digits_value(a) * pow10(places(digits_value(f))) + digits_value(f))
                    * 1_000_000_000,
                scale_den(u) * pow10(places(digits_value(f))),
            ),
{
    let s = a + seq!['.'] + f + u;
    let la = a.len();
    let lf = f.len();
    let num = scale_num(u);
    let den = scale_den(u);
    assert(den > 0);
    assert forall|i: int| 0 <= i < la implies s[i] == a[i] by {}
    lemma_integer_run(s, a, la as nat);
    assert(a.take(la as int) =~= a);
    let n = digits_value(a) as u64;
    assert(s[la as int] == '.');
    let base = (la + 1) as nat;
    assert(run(s, base) == Ok::<Scan, ErrorView>(Scan {
        stage: Stage::Fraction, pending: true, start: 0, n, d: 0, secs: 0, nanos: 0, done: false,
    }));
    assert forall|i: int| 0 <= i < lf implies s[base + i] == f[i] by {}
    lemma_fraction_run(s, base, f, n, lf as nat);
    assert(f.take(lf as int) =~= f);
    let st = Scan {
        stage: Stage::Fraction, pending: true, start: 0, n, d: digits_value(f) as u64, secs: 0, nanos: 0, done: false,
    };
    let ubase = (base + lf) as nat;
    assert forall|i: int| 0 <= i < u.len() implies s[ubase + i] == u[i] by {}
    lemma_unit_run(s, ubase, u, st, u.len() as nat);
    assert(s.len() == ubase + u.len());
    assert(s.subrange(ubase as int, s.len() as int) =~= u);
    lemma_group_exact(digits_value(a), digits_value(f), num, den);
}


/// The state `p` of a scan that has read a prefix worth `x` before the
/// text that `q` scans alone, `off` characters on.
pub open spec fn shifted(p: Scan, q: Scan, x: Duration, off: nat) -> bool {
    &&& p.stage == q.stage
    &&& p.pending == q.pending
    &&& p.n == q.n
    &&& p.d == q.d
    &&& p.secs == x.secs + q.secs
    &&& p.nanos == x.nanos + q.nanos
    &&& p.done
    &&& (q.stage == Stage::Unit ==> p.start == q.start + off)
}

proof fn lemma_unit_start(s: Seq<char>, k: nat)
    requires
        k <= s.len() <= usize::MAX,
    ensures
        run(s, k) matches Ok(st) ==> (st.stage == Stage::Unit ==> st.start < k),
    decreases k,
{
    if k > 0 {
        lemma_unit_start(s, (k - 1) as nat);
    }
}

/// Reading more never lowers the seconds or the nanoseconds.
proof fn lemma_run_grows(s: Seq<char>, k: nat, m: nat)
    requires
        k <= m <= s.len(),
        run(s, m) is Ok,
    ensures
        run(s, k) is Ok,
        run(s, k)->Ok_0.secs <= run(s, m)->Ok_0.secs,
        run(s, k)->Ok_0.nanos <= run(s, m)->Ok_0.nanos,
    decreases m - k,
{
    if run(s, k) is Err {
        lemma_run_failed(s, k, m);
    }
    if k < m {
        lemma_run_grows(s, k + 1, m);
    }
}

proof fn lemma_prefix_run(a: Seq<char>, b: Seq<char>, k: nat)
    requires
        k <= a.len(),
        a.len() + b.len() <= usize::MAX,
    ensures
        run(a + b, k) == run(a, k),
    decreases k,
{
    if k > 0 {
        let s = a + b;
        let i = k - 1;
        lemma_prefix_run(a, b, (k - 1) as nat);
        lemma_unit_start(a, (k - 1) as nat);
        assert(s.take(i) =~= a.take(i));
        if let Ok(st) = run(a, (k - 1) as nat) {
            if st.stage == Stage::Unit {
                assert(s.subrange(st.start as int, i) =~= a.subrange(st.start as int, i));
            }
        }
    }
}

proof fn lemma_shifted_step(a: Seq<char>, b: Seq<char>, x: Duration, i: int, p: Scan, q: Scan)
    requires
        0 <= i < b.len(),
        a.len() + b.len() <= usize::MAX,
        shifted(p, q, x, a.len()),
        q.stage == Stage::Unit ==> q.start < i,
        step(b, i, q) matches Ok(q2) && x.secs + q2.secs <= u64::MAX && x.nanos + q2.nanos <= u32::MAX,
    ensures
        step(a + b, a.len() + i, p) matches Ok(p2) && shifted(p2, step(b, i, q)->Ok_0, x, a.len()),
{
    let s = a + b;
    assert(s[a.len() + i] == b[i]);
    if q.stage == Stage::Unit {
        assert(s.subrange(p.start as int, a.len() + i) =~= b.subrange(q.start as int, i));
    }
}

proof fn lemma_shifted_run(a: Seq<char>, b: Seq<char>, x: Duration, k: nat)
    requires
        1 <= k <= b.len(),
        a.len() + b.len() <= usize::MAX,
        run(b, b.len()) is Ok,
        x.secs + run(b, b.len())->Ok_0.secs <= u64::MAX,
        x.nanos + run(b, b.len())->Ok_0.nanos <= u32::MAX,
        run(a + b, a.len() + 1) is Ok,
        run(b, 1) is Ok,
        shifted(run(a + b, a.len() + 1)->Ok_0, run(b, 1)->Ok_0, x, a.len()),
    ensures
        run(a + b, a.len() + k) is Ok,
        run(b, k) is Ok,
        shifted(run(a + b, a.len() + k)->Ok_0, run(b, k)->Ok_0, x, a.len()),
    decreases k,
{
    if k > 1 {
        let j = (k - 1) as nat;
        lemma_shifted_run(a, b, x, j);
        lemma_run_grows(b, k, b.len());
        lemma_unit_start(b, j);
        lemma_shifted_step(a, b, x, j as int, run(a + b, a.len() + j)->Ok_0, run(b, j)->Ok_0);
        assert(a.len() + j + 1 == a.len() + k);
    }
}

proof fn lemma_ends_in_unit(a: Seq<char>)
    requires
        0 < a.len() <= usize::MAX,
        is_unit_char(a.last()),
        run(a, a.len()) is Ok,
    ensures
        run(a, a.len())->Ok_0.stage == Stage::Unit,
{
    let j = (a.len() - 1) as nat;
    if run(a, j) is Err {
        lemma_run_failed(a, j, a.len());
    }
    let st = run(a, j)->Ok_0;
    assert(a[j as int] == a.last());
    assert(run(a, a.len()) == step(a, j as int, st));
}

/// The first digit of `b` ends the last group of `a`.
proof fn lemma_join_step(a: Seq<char>, b: Seq<char>)
    requires
        a.len() > 0,
        is_unit_char(a.last()),
        b.len() > 0,
        is_digit(b[0]),
        duration_of(a) is Ok,
        a.len() + b.len() <= usize::MAX,
    ensures
        run(a + b, a.len() + 1) is Ok,
        run(b, 1) is Ok,
        shifted(run(a + b, a.len() + 1)->Ok_0, run(b, 1)->Ok_0, duration_of(a)->Ok_0, a.len()),
{
    let s = a + b;
    let la = a.len();
    lemma_prefix_run(a, b, la as nat);
    lemma_unit_start(a, la as nat);
    lemma_ends_in_unit(a);
    let pa = run(a, la as nat)->Ok_0;
    assert(s[la as int] == b[0]);
    assert(!is_unit_char(b[0]));
    assert(s.subrange(pa.start as int, la as int) =~= a.subrange(pa.start as int, la as int));
    assert(finish(s, pa, la as int) == finish(a, pa, la as int));
    let f = finish(a, pa, la as int)->Ok_0;
    assert(run(s, (la + 1) as nat) == step(s, la as int, pa));
    assert(step(s, la as int, pa) == number_step(s, la as int, f));
    assert(run(b, 0) == Ok::<Scan, ErrorView>(initial()));
    assert(run(b, 1) == step(b, 0, initial()));
}

proof fn lemma_conclude_grows(s: Seq<char>)
    requires
        duration_of(s) is Ok,
    ensures
        run(s, s.len()) is Ok,
        run(s, s.len())->Ok_0.secs <= duration_of(s)->Ok_0.secs,
        run(s, s.len())->Ok_0.nanos <= duration_of(s)->Ok_0.nanos,
{
}

proof fn lemma_conclude_shifted(a: Seq<char>, b: Seq<char>, x: Duration, p: Scan, q: Scan)
    requires
        shifted(p, q, x, a.len()),
        q.stage == Stage::Unit ==> q.start < b.len(),
        conclude(b, q) is Ok,
        x.secs + conclude(b, q)->Ok_0.secs <= u64::MAX,
        x.nanos + conclude(b, q)->Ok_0.nanos <= u32::MAX,
    ensures
        conclude(a + b, p) == Ok::<Duration, ErrorView>(Duration {
            secs: (x.secs + conclude(b, q)->Ok_0.secs) as u64,
            nanos: (x.nanos + conclude(b, q)->Ok_0.nanos) as u32,
        }),
{
    let s = a + b;
    if q.stage == Stage::Unit {
        assert(s.subrange(p.start as int, s.len() as int) =~= b.subrange(q.start as int, b.len() as int));
    }
}

/// Groups add up: where `a` ends with a unit and `b` starts with a digit,
/// `a` followed by `b` lasts as long as both together, seconds and
/// nanoseconds apart, provided the sums fit.
pub proof fn lemma_groups_add(a: Seq<char>, b: Seq<char>)
    requires
        a.len() > 0,
        is_unit_char(a.last()),
        b.len() > 0,
        is_digit(b[0]),
        duration_of(a) is Ok,
        duration_of(b) is Ok,
        duration_of(a)->Ok_0.secs + duration_of(b)->Ok_0.secs <= u64::MAX,
        duration_of(a)->Ok_0.nanos + duration_of(b)->Ok_0.nanos <= u32::MAX,
        a.len() + b.len() <= usize::MAX,
    ensures
        duration_of(a + b) == Ok::<Duration, ErrorView>(Duration {
            secs: (duration_of(a)->Ok_0.secs + duration_of(b)->Ok_0.secs) as u64,
            nanos: (duration_of(a)->Ok_0.nanos + duration_of(b)->Ok_0.nanos) as u32,
        }),
{
    let s = a + b;
    let x = duration_of(a)->Ok_0;
    let la = a.len();
    assert(b.len() <= usize::MAX);
    lemma_conclude_grows(b);
    lemma_run_grows(b, 1, b.len());
    lemma_join_step(a, b);
    lemma_shifted_run(a, b, x, b.len());
    let p = run(s, s.len())->Ok_0;
    let q = run(b, b.len())->Ok_0;
    assert(s.len() == la + b.len());
    lemma_unit_start(b, b.len());
    lemma_conclude_shifted(a, b, x, p, q);
}

} // verus!
