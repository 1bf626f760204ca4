//! Decimal numbers and padded text, as the status lines show them.
use vstd::prelude::*;
use vstd::string::StrSliceExecFns;
use crate::text::{
    all_ascii, byte_len, lemma_byte_len_push, lemma_char_width, lemma_len_le_byte_len, push_all,
    string_push,
};

verus! {

/// The digit character of `d` (`d < 10`).
pub open spec fn digit_char(d: nat) -> char {
    (('0' as u32) + d) as char
}

/// The decimal writing of `n`, without leading zeros.
pub open spec fn decimal(n: nat) -> Seq<char>
    decreases n,
{
    if n < 10 {
        seq![digit_char(n)]
    } else {
        decimal(n / 10).push(digit_char(n % 10))
    }
}

/// `s` followed by spaces up to `width` characters (`s` itself when it is
/// at least that long), as the `{:width}` format of a string does.
pub open spec fn pad_right(s: Seq<char>, width: nat) -> Seq<char> {
    if s.len() >= width {
        s
    } else {
        s + Seq::new((width - s.len()) as nat, |i: int| ' ')
    }
}

pub open spec fn pow10(k: nat) -> nat
    decreases k,
{
    if k == 0 {
        1
    } else {
        10 * pow10((k - 1) as nat)
    }
}

pub proof fn lemma_decimal_bound(n: nat, k: nat)
    requires
        1 <= k,
        n < pow10(k),
    ensures
        decimal(n).len() <= k,
    decreases n,
{
    if n >= 10 {
        if k == 1 {
            assert(pow10(1) == 10 * pow10(0));
        } else {
            assert(pow10(k) == 10 * pow10((k - 1) as nat));
            assert(n / 10 < pow10((k - 1) as nat));
            lemma_decimal_bound(n / 10, (k - 1) as nat);
        }
    }
}

/// A `u64` has at most twenty decimal digits.
pub proof fn lemma_decimal_u64(n: u64)
    ensures
        decimal(n as nat).len() <= 20,
{
    assert(pow10(20) == 100_000_000_000_000_000_000) by {
        reveal_with_fuel(pow10, 21);
    }
    lemma_decimal_bound(n as nat, 20);
}

pub proof fn lemma_decimal(n: nat)
    ensures
        1 <= decimal(n).len(),
        n < 10 ==> decimal(n).len() == 1,
        all_ascii(decimal(n)),
    decreases n,
{
    if n >= 10 {
        lemma_decimal(n / 10);
        assert(decimal(n) == decimal(n / 10).push(digit_char(n % 10)));
        assert forall|i: int| 0 <= i < decimal(n).len() implies (#[trigger] decimal(n)[i] as u32)
            < 0x80 by {
            if i < decimal(n / 10).len() {
                assert(decimal(n)[i] == decimal(n / 10)[i]);
            }
        }
    }
}

/// Writes `n` in decimal.
pub fn decimal_string(n: u64) -> (r: String)
    ensures
        r@ == decimal(n as nat),
    decreases n,
{
    proof {
        lemma_decimal(n as nat);
    }
    if n < 10 {
        let mut r = String::new();
        let c = digit_of(n);
        proof {
            lemma_byte_len_push(r@, c);
            lemma_char_width(c);
            assert(r@.push(c) =~= decimal(n as nat));
        }
        string_push(&mut r, c);
        r
    } else {
        let mut r = decimal_string(n / 10);
        let c = digit_of(n % 10);
        proof {
            lemma_decimal((n / 10) as nat);
            lemma_decimal_u64(n / 10);
            lemma_len_le_byte_len(r@);
            lemma_byte_len_push(r@, c);
            lemma_char_width(c);
        }
        string_push(&mut r, c);
        r
    }
}

fn digit_of(d: u64) -> (c: char)
    requires
        d < 10,
    ensures
        c == digit_char(d as nat),
        (c as u32) < 0x80,
{
    if d == 0 { '0' }
    else if d == 1 { '1' }
    else if d == 2 { '2' }
    else if d == 3 { '3' }
    else if d == 4 { '4' }
    else if d == 5 { '5' }
    else if d == 6 { '6' }
    else if d == 7 { '7' }
    else if d == 8 { '8' }
    else { '9' }
}

/// `s` padded with spaces on the right to `width` characters.
pub fn pad_to(s: &str, width: usize) -> (r: String)
    requires
        width <= isize::MAX,
    ensures
        r@ == pad_right(s@, width as nat),
{
    let n = s.unicode_len();
    let mut sp = String::new();
    let mut k = n;
    while k < width
        invariant
            n == s@.len(),
            n <= k,
            width <= isize::MAX,
            k <= width || k == n,
            sp@ == Seq::new((k - n) as nat, |i: int| ' '),
            byte_len(sp@) == sp@.len(),
        decreases width - k,
    {
        proof {
            lemma_byte_len_push(sp@, ' ');
            lemma_char_width(' ');
        }
        string_push(&mut sp, ' ');
        k += 1;
        proof {
            assert(sp@ =~= Seq::new((k - n) as nat, |i: int| ' '));
        }
    }
    let mut r = String::new();
    push_all(&mut r, s);
    push_all(&mut r, sp.as_str());
    proof {
        if n >= width {
            assert(r@ =~= s@);
        } else {
            assert(r@ =~= pad_right(s@, width as nat));
        }
    }
    r
}

} // verus!
