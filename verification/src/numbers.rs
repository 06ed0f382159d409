//! Decimal numbers in configuration text: reading them as `str::parse`
//! does for `u32`, `usize`, `i32` and `bool`, and writing `i32` values.

use vstd::prelude::*;

verus! {

/// `c` is one of the ASCII digits `0` to `9`.
pub open spec fn is_digit(c: char) -> bool {
    48 <= (c as u32) && (c as u32) <= 57
}

/// The value of an ASCII digit.
pub open spec fn digit_value(c: char) -> int {
    (c as u32) - 48
}

/// Every character of `s` is an ASCII digit.
pub open spec fn all_digits(s: Seq<char>) -> bool {
    forall|i: int| 0 <= i < s.len() ==> is_digit(#[trigger] s[i])
}

/// The value of a sequence of decimal digits, most significant first.
pub open spec fn digits_value(s: Seq<char>) -> int
    decreases s.len(),
{
    if s.len() == 0 {
        0
    } else {
        digits_value(s.drop_last()) * 10 + digit_value(s.last())
    }
}

/// The magnitude written by `s`: one or more digits, with an optional
/// leading `+`.
pub open spec fn unsigned_text_value(s: Seq<char>) -> Option<int> {
    let d = if s.len() > 0 && s[0] == '+' { s.drop_first() } else { s };
    if d.len() > 0 && all_digits(d) {
        Some(digits_value(d))
    } else {
        None
    }
}

/// The signed value written by `s`: one or more digits, with an optional
/// leading `+` or `-`.
pub open spec fn signed_text_value(s: Seq<char>) -> Option<int> {
    if s.len() > 0 && s[0] == '-' {
        let d = s.drop_first();
        if d.len() > 0 && all_digits(d) {
            Some(-digits_value(d))
        } else {
            None
        }
    } else {
        unsigned_text_value(s)
    }
}

/// What `s.parse::<u32>()` gives: the value when `s` writes one in range.
pub open spec fn parsed_u32(s: Seq<char>) -> Option<u32> {
    match unsigned_text_value(s) {
        Some(v) => if v <= u32::MAX { Some(v as u32) } else { None },
        None => None,
    }
}

/// What `s.parse::<usize>()` gives.
pub open spec fn parsed_usize(s: Seq<char>) -> Option<usize> {
    match unsigned_text_value(s) {
        Some(v) => if v <= usize::MAX { Some(v as usize) } else { None },
        None => None,
    }
}

/// What `s.parse::<i32>()` gives.
pub open spec fn parsed_i32(s: Seq<char>) -> Option<i32> {
    match signed_text_value(s) {
        Some(v) => if i32::MIN <= v <= i32::MAX { Some(v as i32) } else { None },
        None => None,
    }
}

/// What `s.parse::<bool>()` gives: only `true` and `false` are accepted.
pub open spec fn parsed_bool(s: Seq<char>) -> Option<bool> {
    if s == seq!['t', 'r', 'u', 'e'] {
        Some(true)
    } else if s == seq!['f', 'a', 'l', 's', 'e'] {
        Some(false)
    } else {
        None
    }
}

proof fn lemma_digits_value_nonneg(s: Seq<char>)
    requires
        all_digits(s),
    ensures
        digits_value(s) >= 0,
    decreases s.len(),
{
    if s.len() > 0 {
        lemma_digits_value_nonneg(s.drop_last());
    }
}

proof fn lemma_digits_prefix_le(s: Seq<char>, k: int, j: int)
    requires
        all_digits(s),
        0 <= k <= j <= s.len(),
    ensures
        digits_value(s.take(k)) <= digits_value(s.take(j)),
    decreases j - k,
{
    if k < j {
        lemma_digits_prefix_le(s, k, j - 1);
        assert(s.take(j).drop_last() =~= s.take(j - 1));
        lemma_digits_value_nonneg(s.take(j - 1));
        assert(is_digit(s[j - 1]));
    }
}

proof fn lemma_text_value_nonneg(s: Seq<char>)
    ensures
        unsigned_text_value(s) matches Some(v) ==> v >= 0,
        s.len() > 0 && s[0] == '-' && s.drop_first().len() > 0 && all_digits(s.drop_first())
            ==> digits_value(s.drop_first()) >= 0,
{
    let d = if s.len() > 0 && s[0] == '+' { s.drop_first() } else { s };
    if d.len() > 0 && all_digits(d) {
        lemma_digits_value_nonneg(d);
    }
    if s.len() > 0 && all_digits(s.drop_first()) {
        lemma_digits_value_nonneg(s.drop_first());
    }
}

/// The value of the digits of `s` from `start` on, when they are all digits,
/// there is at least one, and the value is at most `bound`.
fn digits_from(s: &Vec<char>, start: usize, bound: u128) -> (r: Option<u128>)
    requires
        start <= s.len(),
        bound < 0x1_0000_0000_0000_0000,
    ensures
        ({
            let d = s@.skip(start as int);
            r == (if d.len() > 0 && all_digits(d) && digits_value(d) <= bound {
                Some(digits_value(d) as u128)
            } else {
                None::<u128>
            })
        }),
        r matches Some(x) ==> x <= bound && x == digits_value(s@.skip(start as int)),
{
    let ghost d = s@.skip(start as int);
    proof {
        if all_digits(d) {
            lemma_digits_value_nonneg(d);
        }
    }
    if start == s.len() {
        return None;
    }
    let mut acc: u128 = 0;
    let mut i: usize = start;
    proof { assert(d.take(0) =~= Seq::<char>::empty()); }
    while i < s.len()
        invariant
            start <= i <= s.len(),
            d == s@.skip(start as int),
            bound < 0x1_0000_0000_0000_0000,
            all_digits(d.take(i - start)),
            acc == digits_value(d.take(i - start)),
            acc <= bound,
        decreases s.len() - i,
    {
        let c = s[i];
        let cu = c as u32;
        if !(48 <= cu && cu <= 57) {
            proof {
                assert(d[i - start] == c);
                assert(!is_digit(d[i - start]));
                assert(!all_digits(d));
            }
            return None;
        }
        let v: u32 = cu - 48;
        proof {
            assert(d.take(i + 1 - start).drop_last() =~= d.take(i - start));
            assert(d.take(i + 1 - start).last() == c);
        }
        acc = acc * 10 + (v as u128);
        i += 1;
        proof { assert(all_digits(d.take(i - start))); }
        if acc > bound {
            proof {
                if all_digits(d) {
                    lemma_digits_prefix_le(d, i - start, d.len() as int);
                    assert(d.take(d.len() as int) =~= d);
                }
            }
            return None;
        }
    }
    proof { assert(d.take(i - start) =~= d); }
    Some(acc)
}

/// The magnitude written at `s`: an optional `+`, then digits.
fn unsigned_value(s: &Vec<char>, bound: u128) -> (r: Option<u128>)
    requires
        bound < 0x1_0000_0000_0000_0000,
    ensures
        r == (match unsigned_text_value(s@) {
            Some(v) => if v <= bound { Some(v as u128) } else { None::<u128> },
            None => None::<u128>,
        }),
        r matches Some(x) ==> x <= bound,
{
    let start: usize = if s.len() > 0 && s[0] == '+' { 1 } else { 0 };
    proof {
        assert(s@.skip(1) =~= s@.drop_first());
        assert(s@.skip(0) =~= s@);
    }
    digits_from(s, start, bound)
}

/// `s.parse::<u32>()`.
pub fn parse_u32(s: &Vec<char>) -> (r: Option<u32>)
    ensures
        r == parsed_u32(s@),
{
    proof { lemma_text_value_nonneg(s@); }
    match unsigned_value(s, 0xffff_ffff) {
        Some(v) => Some(v as u32),
        None => None,
    }
}

/// `s.parse::<usize>()`.
pub fn parse_usize(s: &Vec<char>) -> (r: Option<usize>)
    ensures
        r == parsed_usize(s@),
{
    proof { lemma_text_value_nonneg(s@); }
    let bound: u128 = usize::MAX as u128;
    match unsigned_value(s, bound) {
        Some(v) => Some(v as usize),
        None => None,
    }
}

/// `s.parse::<i32>()`.
pub fn parse_i32(s: &Vec<char>) -> (r: Option<i32>)
    ensures
        r == parsed_i32(s@),
{
    proof { lemma_text_value_nonneg(s@); }
    if s.len() > 0 && s[0] == '-' {
        proof { assert(s@.skip(1) =~= s@.drop_first()); }
        match digits_from(s, 1, 0x8000_0000) {
            Some(v) => Some((0 - (v as i64)) as i32),
            None => {
                proof {
                    let d = s@.drop_first();
                    if d.len() > 0 && all_digits(d) {
                        lemma_digits_value_nonneg(d);
                    }
                }
                None
            },
        }
    } else {
        match unsigned_value(s, 0x7fff_ffff) {
            Some(v) => Some(v as i32),
            None => {
                proof {
                    let d = if s@.len() > 0 && s@[0] == '+' { s@.drop_first() } else { s@ };
                    if d.len() > 0 && all_digits(d) {
                        lemma_digits_value_nonneg(d);
                    }
                }
                None
            },
        }
    }
}

/// `s.parse::<bool>()`.
pub fn parse_bool(s: &Vec<char>) -> (r: Option<bool>)
    ensures
        r == parsed_bool(s@),
{
    if s.len() == 4 && s[0] == 't' && s[1] == 'r' && s[2] == 'u' && s[3] == 'e' {
        proof { assert(s@ =~= seq!['t', 'r', 'u', 'e']); }
        Some(true)
    } else if s.len() == 5 && s[0] == 'f' && s[1] == 'a' && s[2] == 'l' && s[3] == 's' && s[4] == 'e' {
        proof { assert(s@ =~= seq!['f', 'a', 'l', 's', 'e']); }
        Some(false)
    } else {
        proof {
            if s@ == seq!['t', 'r', 'u', 'e'] {
                assert(s@[1] == 'r');
            }
            if s@ == seq!['f', 'a', 'l', 's', 'e'] {
                assert(s@[1] == 'a');
            }
        }
        None
    }
}

/// The ASCII digit of a value below ten.
pub open spec fn digit_char(d: int) -> char {
    (d + 48) as char
}

/// The decimal digits of `n`, most significant first, without leading zeros.
pub open spec fn decimal_digits(n: nat) -> Seq<char>
    decreases n,
{
    if n < 10 {
        seq![digit_char(n as int)]
    } else {
        decimal_digits(n / 10).push(digit_char(n as int % 10))
    }
}

/// How `i32::to_string` writes `n`: a `-` for negative values, then the
/// decimal digits of the magnitude.
pub open spec fn decimal(n: int) -> Seq<char> {
    if n < 0 {
        seq!['-'] + decimal_digits((-n) as nat)
    } else {
        decimal_digits(n as nat)
    }
}

/// The decimal text of `n`.
pub fn format_i32(n: i32) -> (r: Vec<char>)
    ensures
        r@ == decimal(n as int),
{
    let neg = n < 0;
    let m: u64 = if neg { (0 - (n as i64)) as u64 } else { n as u64 };
    let ghost mag = m as nat;
    let mut q: u64 = m;
    let mut acc: Vec<char> = Vec::new();
    if m == 0 {
        acc.push('0');
        proof { assert(acc@ =~= decimal_digits(0)); }
    }
    while q > 0
        invariant
            m > 0 ==> decimal_digits(mag) == (if q > 0 { decimal_digits(q as nat) } else {
                Seq::<char>::empty()
            }) + acc@,
            m == 0 ==> acc@ == decimal_digits(mag) && q == 0,
            mag == m,
        decreases q,
    {
        let d: u64 = q % 10;
        let c: char = ((d as u8) + 48) as char;
        let ghost acc_before = acc@;
        proof {
            assert(c == digit_char(d as int));
            if q >= 10 {
                assert(decimal_digits(q as nat) == decimal_digits((q / 10) as nat).push(c));
                assert(decimal_digits((q / 10) as nat) + (seq![c] + acc@) =~= decimal_digits(
                    q as nat,
                ) + acc@);
            } else {
                assert(decimal_digits(q as nat) == seq![c]);
                assert(Seq::<char>::empty() + (seq![c] + acc@) =~= seq![c] + acc@);
            }
        }
        acc.insert(0, c);
        proof { assert(acc@ =~= seq![c] + acc_before); }
        q = q / 10;
    }
    proof {
        if m > 0 {
            assert(Seq::<char>::empty() + acc@ =~= acc@);
        }
    }
    if neg {
        acc.insert(0, '-');
    }
    proof {
        if neg {
            assert(acc@ =~= seq!['-'] + decimal_digits(mag));
        }
    }
    acc
}

proof fn lemma_digit_char(d: int)
    requires
        0 <= d < 10,
    ensures
        is_digit(digit_char(d)),
        digit_value(digit_char(d)) == d,
{
    assert(((d + 48) as char) as u32 == d + 48);
}

/// The digits of a value are digits, at least one, and write the value.
pub proof fn lemma_decimal_digits(m: nat)
    ensures
        decimal_digits(m).len() > 0,
        all_digits(decimal_digits(m)),
        digits_value(decimal_digits(m)) == m,
    decreases m,
{
    if m < 10 {
        lemma_digit_char(m as int);
        let d = decimal_digits(m);
        assert(d.drop_last() =~= Seq::<char>::empty());
        assert(digits_value(d.drop_last()) == 0);
        assert(d.last() == digit_char(m as int));
    } else {
        lemma_decimal_digits(m / 10);
        lemma_digit_char(m as int % 10);
        let d = decimal_digits(m);
        assert(d.drop_last() =~= decimal_digits(m / 10));
        assert(d.last() == digit_char(m as int % 10));
        assert(digits_value(d) == digits_value(d.drop_last()) * 10 + digit_value(d.last()));
        assert((m / 10) * 10 + m % 10 == m) by (nonlinear_arith);
        assert(all_digits(d)) by {
            assert forall|i: int| 0 <= i < d.len() implies is_digit(#[trigger] d[i]) by {
                if i < d.len() - 1 {
                    assert(d[i] == decimal_digits(m / 10)[i]);
                }
            }
        }
    }
}

/// Every character of a written `i32` is a digit or the minus sign, and the
/// last one is a digit.
pub proof fn lemma_decimal_chars(n: int)
    ensures
        decimal(n).len() > 0,
        forall|k: int| 0 <= k < decimal(n).len() ==> is_digit(#[trigger] decimal(n)[k]) || decimal(n)[k] == '-',
        is_digit(decimal(n).last()),
{
    if n < 0 {
        lemma_decimal_digits((-n) as nat);
        let d = decimal_digits((-n) as nat);
        assert forall|k: int| 0 <= k < decimal(n).len() implies is_digit(#[trigger] decimal(n)[k]) || decimal(n)[k] == '-' by {
            if k > 0 {
                assert(decimal(n)[k] == d[k - 1]);
            }
        }
        assert(decimal(n).last() == d.last());
        assert(is_digit(d[d.len() - 1]));
    } else {
        lemma_decimal_digits(n as nat);
        let d = decimal_digits(n as nat);
        assert(is_digit(d[d.len() - 1]));
    }
}

/// Reading back what `format_i32` wrote gives the same number.
pub proof fn law_i32_reads_back(n: i32)
    ensures
        parsed_i32(decimal(n as int)) == Some(n),
{
    if n < 0 {
        let d = decimal_digits((-n) as nat);
        lemma_decimal_digits((-n) as nat);
        assert(decimal(n as int).drop_first() =~= d);
    } else {
        let d = decimal_digits(n as nat);
        lemma_decimal_digits(n as nat);
        assert(is_digit(d[0]));
        assert(d[0] != '-' && d[0] != '+');
    }
}

} // verus!
