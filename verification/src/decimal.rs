//! Numbers in decimal: node ids travel as text, because they do not fit the numbers of JSON.

use vstd::prelude::*;

use crate::text;

verus! {

/// The digit of a number below ten.
pub open spec fn digit_char(d: nat) -> char {
    (48 + d) as char
}

/// The decimal form of a number.
pub open spec fn decimal(n: nat) -> Seq<char>
    decreases n,
{
    if n < 10 {
        seq![digit_char(n)]
    } else {
        decimal(n / 10).push(digit_char(n % 10))
    }
}

/// A decimal digit.
pub open spec fn is_digit(c: char) -> bool {
    '0' <= c <= '9'
}

/// Decimal digits only.
pub open spec fn all_digits(s: Seq<char>) -> bool {
    forall|i: int| 0 <= i < s.len() ==> is_digit(#[trigger] s[i])
}

/// The number that digits stand for.
pub open spec fn value_of(s: Seq<char>) -> nat
    decreases s.len(),
{
    if s.len() == 0 {
        0
    } else {
        value_of(s.drop_last()) * 10 + (s.last() as nat - 48) as nat
    }
}

/// The digits of a numeral: what follows one leading plus sign, if there is one.
pub open spec fn digits_of(s: Seq<char>) -> Seq<char> {
    if s.len() != 0 && s[0] == '+' {
        s.skip(1)
    } else {
        s
    }
}

/// The number that a numeral stands for; nothing where it is not a numeral or is too large.
pub open spec fn parsed(s: Seq<char>) -> Option<u128> {
    let d = digits_of(s);
    if d.len() != 0 && all_digits(d) && value_of(d) <= u128::MAX {
        Some(value_of(d) as u128)
    } else {
        None
    }
}

fn digit(d: u128) -> (r: char)
    requires
        d < 10,
    ensures
        r == digit_char(d as nat),
{
    (48u8 + d as u8) as char
}

/// Writes a number in decimal.
pub fn to_decimal(n: u128) -> (r: Vec<char>)
    ensures
        r@ == decimal(n as nat),
    decreases n,
{
    if n < 10 {
        let mut out: Vec<char> = Vec::new();
        out.push(digit(n));
        assert(out@ =~= decimal(n as nat));
        out
    } else {
        let mut out = to_decimal(n / 10);
        out.push(digit(n % 10));
        out
    }
}

/// The decimal form of an id.
pub fn id_text(id: u128) -> (r: String)
    ensures
        r@ == decimal(id as nat),
{
    text::string_of(&to_decimal(id))
}

proof fn lemma_value_grows(s: Seq<char>, n: int)
    requires
        0 <= n <= s.len(),
    ensures
        value_of(s.take(n)) <= value_of(s),
    decreases s.len() - n,
{
    if n < s.len() {
        assert(s.take(n + 1).drop_last() =~= s.take(n));
        lemma_value_grows(s, n + 1);
    } else {
        assert(s.take(n) =~= s);
    }
}

/// Reads an id.
pub fn parse_id(s: &str) -> (r: Option<u128>)
    ensures
        r == parsed(s@),
{
    let all = text::chars_of(s);
    let from: usize = if all.len() != 0 && all[0] == '+' {
        1
    } else {
        0
    };
    let d = text::part(&all, from, all.len());
    assert(d@ =~= digits_of(s@));
    let n: usize = d.len();
    if n == 0 {
        return None;
    }
    let mut value: u128 = 0;
    let max: u128 = u128::MAX;
    assert(d@.take(0) =~= Seq::empty());
    for i in 0..n
        invariant
            n == d@.len(),
            d@ == digits_of(s@),
            max == u128::MAX,
            forall|j: int| 0 <= j < i ==> is_digit(#[trigger] d@[j]),
            value == value_of(d@.take(i as int)),
    {
        let c = d[i];
        if !('0' <= c && c <= '9') {
            assert(!is_digit(d@[i as int]));
            return None;
        }
        let k: u128 = (c as u32 - 48) as u128;
        assert(d@.take(i + 1).drop_last() =~= d@.take(i as int));
        assert(value_of(d@.take(i + 1)) == value * 10 + k);
        if value > max / 10 || value * 10 > max - k {
            proof {
                lemma_value_grows(d@, i + 1);
            }
            return None;
        }
        value = value * 10 + k;
    }
    assert(d@.take(n as int) =~= d@);
    Some(value)
}

// ---------------------------------------------------------------------------
// Laws
// ---------------------------------------------------------------------------

proof fn lemma_decimal(n: nat)
    ensures
        decimal(n).len() != 0,
        all_digits(decimal(n)),
        value_of(decimal(n)) == n,
    decreases n,
{
    if n < 10 {
        assert(decimal(n).drop_last() =~= Seq::empty());
        assert(decimal(n).last() == digit_char(n));
        assert(value_of(decimal(n).drop_last()) == 0);
    } else {
        lemma_decimal(n / 10);
        assert(decimal(n).drop_last() =~= decimal(n / 10));
    }
}

/// An id is read back from its decimal form.
pub proof fn id_is_read_back(id: u128)
    ensures
        parsed(decimal(id as nat)) == Some(id),
{
    lemma_decimal(id as nat);
    let d = decimal(id as nat);
    assert(is_digit(d[0]));
    assert(digits_of(d) == d);
}

/// Different numbers have different decimal forms.
pub proof fn decimals_differ(a: nat, b: nat)
    requires
        decimal(a) == decimal(b),
    ensures
        a == b,
{
    lemma_decimal(a);
    lemma_decimal(b);
}

/// A number is written in base ten, the highest digit first.
pub proof fn digits_are_in_base_ten(n: nat, d: nat)
    requires
        d < 10,
    ensures
        decimal(d).len() == 1,
        decimal(d)[0] as int == '0' as int + d,
        n > 0 ==> decimal(10 * n + d) == decimal(n) + decimal(d),
{
    if n > 0 {
        assert((10 * n + d) / 10 == n);
        assert((10 * n + d) % 10 == d);
        assert(decimal(n).push(digit_char(d)) =~= decimal(n) + decimal(d));
    }
}

/// Nothing but digits, behind a plus sign at most, is a number; the sign changes nothing.
pub proof fn only_digits_are_numbers(s: Seq<char>, i: int)
    ensures
        s.len() == 0 ==> parsed(s) is None,
        1 <= i < s.len() && !('0' <= s[i] <= '9') ==> parsed(s) is None,
        s.len() != 0 && s[0] != '+' && !('0' <= s[0] <= '9') ==> parsed(s) is None,
        s.len() != 0 && s[0] != '+' ==> parsed(seq!['+'] + s) == parsed(s),
{
    if 1 <= i < s.len() && !('0' <= s[i] <= '9') {
        let d = digits_of(s);
        if s[0] == '+' {
            assert(d[i - 1] == s[i]);
            assert(!is_digit(d[i - 1]));
        } else {
            assert(!is_digit(d[i]));
        }
    }
    if s.len() != 0 && s[0] != '+' {
        assert((seq!['+'] + s).skip(1) =~= s);
        if !('0' <= s[0] <= '9') {
            assert(!is_digit(digits_of(s)[0]));
        }
    }
}

} // verus!
