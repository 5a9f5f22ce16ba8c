//! Small text utilities: decimal and hexadecimal rendering of integers,
//! joining, and the lexicographic order on strings.
use vstd::prelude::*;

verus! {

/// Appends one character to a string (std's `String::push`).
#[verifier::external_body]
pub(crate) fn push_char(s: &mut String, c: char)
    ensures
        final(s)@ == old(s)@.push(c),
{
    s.push(c);
}

/// The lowercase hexadecimal digit for a value below sixteen.
pub open spec fn lower_hex_digit(d: nat) -> char {
    if d < 10 {
        ((48 + d) as u8) as char
    } else {
        ((87 + d) as u8) as char
    }
}

/// Lowercase hexadecimal rendering of a number, most significant digit
/// first, without leading zeros (`0` renders as a single `0`).
pub open spec fn lower_hex(n: nat) -> Seq<char>
    decreases n,
{
    if n < 16 {
        seq![lower_hex_digit(n)]
    } else {
        lower_hex(n / 16).push(lower_hex_digit(n % 16))
    }
}

/// The decimal digit for a value below ten.
pub open spec fn decimal_digit(d: nat) -> char {
    ((48 + d) as u8) as char
}

/// Decimal rendering of a number without leading zeros.
pub open spec fn decimal(n: nat) -> Seq<char>
    decreases n,
{
    if n < 10 {
        seq![decimal_digit(n)]
    } else {
        decimal(n / 10).push(decimal_digit(n % 10))
    }
}

/// The value of a digit character: `0`-`9` are 0-9 and `a`-`f` are 10-15;
/// any other character is -1.
pub open spec fn digit_value(c: char) -> int {
    if '0' <= c <= '9' {
        c as int - 48
    } else if 'a' <= c <= 'f' {
        c as int - 87
    } else {
        -1
    }
}

/// The number the digits `s` read as in `base`, most significant first.
pub open spec fn read_digits(s: Seq<char>, base: int) -> int
    decreases s.len(),
{
    if s.len() == 0 {
        0
    } else {
        read_digits(s.drop_last(), base) * base + digit_value(s.last())
    }
}

pub(crate) proof fn lemma_hex_digit_value(d: nat)
    requires
        d < 16,
    ensures
        digit_value(lower_hex_digit(d)) == d,
        '0' <= lower_hex_digit(d) <= '9' || 'a' <= lower_hex_digit(d) <= 'f',
        d > 0 ==> lower_hex_digit(d) != '0',
{
}

/// `n` in lowercase hex reads back as `n`: every character is a digit
/// `0`-`9` or `a`-`f`, and there is no leading zero.
pub proof fn lemma_lower_hex_reads_back(n: nat)
    ensures
        read_digits(lower_hex(n), 16) == n,
        forall|i: int|
            0 <= i < lower_hex(n).len() ==> 0 <= #[trigger] digit_value(lower_hex(n)[i]) < 16
                && ('0' <= lower_hex(n)[i] <= '9' || 'a' <= lower_hex(n)[i] <= 'f'),
        lower_hex(n).len() > 0,
        n > 0 ==> lower_hex(n)[0] != '0',
    decreases n,
{
    if n < 16 {
        lemma_hex_digit_value(n);
        assert(seq![lower_hex_digit(n)].drop_last() =~= Seq::<char>::empty());
        assert(read_digits(Seq::<char>::empty(), 16) == 0);
    } else {
        lemma_lower_hex_reads_back(n / 16);
        lemma_hex_digit_value(n % 16);
        let r = lower_hex(n / 16);
        assert(lower_hex(n).drop_last() =~= r);
        assert(lower_hex(n).last() == lower_hex_digit(n % 16));
        assert(read_digits(lower_hex(n), 16) == read_digits(r, 16) * 16 + digit_value(
            lower_hex_digit(n % 16),
        ));
        assert(lower_hex(n)[0] == r[0]);
        assert forall|i: int| 0 <= i < lower_hex(n).len() implies 0 <= #[trigger] digit_value(
            lower_hex(n)[i],
        ) < 16 && ('0' <= lower_hex(n)[i] <= '9' || 'a' <= lower_hex(n)[i] <= 'f') by {
            if i < r.len() {
                assert(lower_hex(n)[i] == r[i]);
            }
        }
    }
}

/// `n` in decimal reads back as `n`: every character is a digit `0`-`9`,
/// and there is no leading zero.
pub proof fn lemma_decimal_reads_back(n: nat)
    ensures
        read_digits(decimal(n), 10) == n,
        forall|i: int| 0 <= i < decimal(n).len() ==> '0' <= #[trigger] decimal(n)[i] <= '9',
        decimal(n).len() > 0,
        n > 0 ==> decimal(n)[0] != '0',
    decreases n,
{
    if n < 10 {
        assert(seq![decimal_digit(n)].drop_last() =~= Seq::<char>::empty());
        assert(read_digits(Seq::<char>::empty(), 10) == 0);
    } else {
        lemma_decimal_reads_back(n / 10);
        let r = decimal(n / 10);
        assert(decimal(n).drop_last() =~= r);
        assert(decimal(n).last() == decimal_digit(n % 10));
        assert(read_digits(decimal(n), 10) == read_digits(r, 10) * 10 + digit_value(
            decimal_digit(n % 10),
        ));
        assert(decimal(n)[0] == r[0]);
        assert forall|i: int| 0 <= i < decimal(n).len() implies '0' <= #[trigger] decimal(n)[i]
            <= '9' by {
            if i < r.len() {
                assert(decimal(n)[i] == r[i]);
            }
        }
    }
}

fn digit_char(d: u64) -> (c: char)
    requires
        d < 16,
    ensures
        c == lower_hex_digit(d as nat),
{
    if d < 10 {
        ((48 + d) as u8) as char
    } else {
        ((87 + d) as u8) as char
    }
}

/// Builds a string from characters given in reverse order.
fn string_from_reversed(digits: &Vec<char>) -> (s: String)
    ensures
        s@ == digits@.reverse(),
{
    let mut s = String::new();
    let mut i = digits.len();
    while i > 0
        invariant
            i <= digits.len(),
            s@ == digits@.subrange(i as int, digits.len() as int).reverse(),
        decreases i,
    {
        i = i - 1;
        push_char(&mut s, digits[i]);
        assert(digits@.subrange(i as int, digits.len() as int).reverse() =~= digits@.subrange(
            i + 1,
            digits.len() as int,
        ).reverse().push(digits@[i as int]));
    }
    assert(digits@.subrange(0, digits.len() as int) =~= digits@);
    s
}

/// Renders `n` in lowercase hexadecimal (the `{:x}` format).
pub fn to_lower_hex(n: u64) -> (s: String)
    ensures
        s@ == lower_hex(n as nat),
{
    let mut rev: Vec<char> = Vec::new();
    let mut m: u64 = n;
    // rev holds the low digits already emitted, least significant first.
    loop
        invariant
            lower_hex(n as nat) == lower_hex(m as nat) + rev@.reverse(),
        decreases m,
    {
        let d = m % 16;
        let c = digit_char(d);
        if m < 16 {
            rev.push(c);
            assert(rev@.reverse() =~= seq![c] + rev@.drop_last().reverse());
            return string_from_reversed(&rev);
        }
        proof {
            let r = rev@;
            assert(r.push(c).reverse() =~= seq![c] + r.reverse());
            assert(lower_hex(m as nat) == lower_hex((m / 16) as nat).push(c));
            assert(lower_hex((m / 16) as nat).push(c) + r.reverse() =~= lower_hex((m / 16) as nat)
                + (seq![c] + r.reverse()));
        }
        rev.push(c);
        m = m / 16;
    }
}

/// Renders `n` in decimal (the `{}` format of an unsigned integer).
pub fn to_decimal(n: usize) -> (s: String)
    ensures
        s@ == decimal(n as nat),
{
    let mut rev: Vec<char> = Vec::new();
    let mut m: usize = n;
    loop
        invariant
            decimal(n as nat) == decimal(m as nat) + rev@.reverse(),
        decreases m,
    {
        let d = m % 10;
        let c = ((48 + d) as u8) as char;
        assert(c == decimal_digit(d as nat));
        if m < 10 {
            rev.push(c);
            assert(rev@.reverse() =~= seq![c] + rev@.drop_last().reverse());
            return string_from_reversed(&rev);
        }
        proof {
            let r = rev@;
            assert(r.push(c).reverse() =~= seq![c] + r.reverse());
            assert(decimal(m as nat) == decimal((m / 10) as nat).push(c));
            assert(decimal((m / 10) as nat).push(c) + r.reverse() =~= decimal((m / 10) as nat) + (
            seq![c] + r.reverse()));
        }
        rev.push(c);
        m = m / 10;
    }
}

} // verus!
