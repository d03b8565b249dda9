//! Decimal rendering and scanning of unsigned 64-bit values, used by the
//! sidecar codec for the two timestamp fields.

use vstd::prelude::*;

verus! {

/// True for the ten ASCII digit characters.
pub open spec fn is_digit(c: char) -> bool {
    48 <= c as u32 <= 57
}

/// The numeric value of an ASCII digit character.
pub open spec fn digit_val(c: char) -> nat {
    ((c as u32) - 48) as nat
}

/// The digit character for a value below ten.
pub open spec fn spec_digit_char(d: nat) -> char {
    if d == 0 {
        '0'
    } else if d == 1 {
        '1'
    } else if d == 2 {
        '2'
    } else if d == 3 {
        '3'
    } else if d == 4 {
        '4'
    } else if d == 5 {
        '5'
    } else if d == 6 {
        '6'
    } else if d == 7 {
        '7'
    } else if d == 8 {
        '8'
    } else {
        '9'
    }
}

/// The decimal rendering of `n`, most significant digit first, with no
/// leading zeros (a single zero for `n == 0`).
pub open spec fn dec_seq(n: nat) -> Seq<char>
    decreases n,
{
    if n < 10 {
        seq![spec_digit_char(n)]
    } else {
        dec_seq(n / 10) + seq![spec_digit_char(n % 10)]
    }
}

pub proof fn lemma_digit_char_val(d: nat)
    requires
        d < 10,
    ensures
        is_digit(spec_digit_char(d)),
        digit_val(spec_digit_char(d)) == d,
{
}

/// Every character of a decimal rendering is a digit.
pub proof fn lemma_dec_seq_digits(n: nat)
    ensures
        dec_seq(n).len() >= 1,
        forall|k: int| 0 <= k < dec_seq(n).len() ==> is_digit(#[trigger] dec_seq(n)[k]),
    decreases n,
{
    if n < 10 {
        lemma_digit_char_val(n);
    } else {
        lemma_dec_seq_digits(n / 10);
        lemma_digit_char_val(n % 10);
    }
}

/// The executable digit for a value below ten.
fn digit_char(d: u64) -> (r: char)
    requires
        d < 10,
    ensures
        r == spec_digit_char(d as nat),
{
    if d == 0 {
        '0'
    } else if d == 1 {
        '1'
    } else if d == 2 {
        '2'
    } else if d == 3 {
        '3'
    } else if d == 4 {
        '4'
    } else if d == 5 {
        '5'
    } else if d == 6 {
        '6'
    } else if d == 7 {
        '7'
    } else if d == 8 {
        '8'
    } else {
        '9'
    }
}

/// Appends the decimal rendering of `n` to `out`.
pub fn push_dec(n: u64, out: &mut Vec<char>)
    ensures
        final(out)@ == old(out)@ + dec_seq(n as nat),
    decreases n,
{
    if n < 10 {
        out.push(digit_char(n));
    } else {
        push_dec(n / 10, out);
        out.push(digit_char(n % 10));
        proof {
            assert(out@ =~= old(out)@ + dec_seq(n as nat));
        }
    }
}

/// The first index at or after `i` whose character is not a digit.
pub open spec fn digits_end(s: Seq<char>, i: int) -> int
    decreases s.len() - i when 0 <= i <= s.len()
{
    if i < s.len() && is_digit(s[i]) {
        digits_end(s, i + 1)
    } else {
        i
    }
}

pub proof fn lemma_digits_end_bounds(s: Seq<char>, i: int)
    requires
        0 <= i <= s.len(),
    ensures
        i <= digits_end(s, i) <= s.len(),
        forall|k: int| i <= k < digits_end(s, i) ==> is_digit(s[k]),
        digits_end(s, i) < s.len() ==> !is_digit(s[digits_end(s, i)]),
    decreases s.len() - i,
{
    if i < s.len() && is_digit(s[i]) {
        lemma_digits_end_bounds(s, i + 1);
    }
}

/// Where a run of digits over `[i, j)` ends exactly at `j`.
pub proof fn lemma_digits_end_of_run(s: Seq<char>, i: int, j: int)
    requires
        0 <= i <= j <= s.len(),
        forall|k: int| i <= k < j ==> is_digit(s[k]),
        j < s.len() ==> !is_digit(s[j]),
    ensures
        digits_end(s, i) == j,
    decreases j - i,
{
    if i < j {
        assert(is_digit(s[i]));
        lemma_digits_end_of_run(s, i + 1, j);
    }
}

/// The value of the digit run `s[i..j)`, read as a decimal number.
pub open spec fn val_of(s: Seq<char>, i: int, j: int) -> nat
    decreases j - i when i <= j
{
    if i >= j {
        0
    } else {
        val_of(s, i, j - 1) * 10 + digit_val(s[j - 1])
    }
}

/// Reading back the decimal rendering of `n` recovers `n`.
pub proof fn lemma_val_of_dec(s: Seq<char>, i: int, n: nat)
    requires
        0 <= i,
        i + dec_seq(n).len() <= s.len(),
        s.subrange(i, i + dec_seq(n).len() as int) == dec_seq(n),
    ensures
        val_of(s, i, i + dec_seq(n).len() as int) == n,
    decreases n,
{
    let l = dec_seq(n).len() as int;
    if n < 10 {
        assert(s.subrange(i, i + 1)[0] == s[i]);
        assert(s[i] == spec_digit_char(n));
        lemma_digit_char_val(n);
        assert(val_of(s, i, i + 1) == val_of(s, i, i) * 10 + digit_val(s[i]));
    } else {
        let lh = dec_seq(n / 10).len() as int;
        assert(dec_seq(n) == dec_seq(n / 10) + seq![spec_digit_char(n % 10)]);
        assert(s.subrange(i, i + lh) =~= dec_seq(n / 10)) by {
            assert forall|k: int| 0 <= k < lh implies #[trigger] s.subrange(i, i + lh)[k]
                == dec_seq(n / 10)[k] by {
                assert(s[i + k] == dec_seq(n)[k]);
            }
        }
        lemma_val_of_dec(s, i, n / 10);
        assert(val_of(s, i, i + lh) == n / 10);
        assert(s.subrange(i, i + l)[l - 1] == s[i + l - 1]);
        assert(dec_seq(n)[l - 1] == spec_digit_char(n % 10));
        assert(s[i + l - 1] == spec_digit_char(n % 10));
        lemma_digit_char_val(n % 10);
        assert(val_of(s, i, i + l) == val_of(s, i, i + l - 1) * 10 + digit_val(s[i + l - 1]));
        assert(val_of(s, i, i + l) == (n / 10) * 10 + (n % 10));
        assert((n / 10) * 10 + (n % 10) == n) by (nonlinear_arith);
    }
}

/// Extending a digit run never shrinks its value.
pub proof fn lemma_val_monotone(s: Seq<char>, i: int, j: int, k: int)
    requires
        i <= j <= k,
    ensures
        val_of(s, i, j) <= val_of(s, i, k),
    decreases k - j,
{
    if j < k {
        lemma_val_monotone(s, i, j, k - 1);
        assert(val_of(s, i, k - 1) * 10 >= val_of(s, i, k - 1)) by (nonlinear_arith);
    }
}

/// What scanning a decimal number at `i` yields: the value of the longest
/// digit run starting there and the index after it, or nothing when no
/// digit stands at `i` or the value does not fit in a `u64`.
pub open spec fn parse_num(s: Seq<char>, i: int) -> Option<(u64, int)> {
    let j = digits_end(s, i);
    if j == i {
        None
    } else if val_of(s, i, j) > u64::MAX {
        None
    } else {
        Some((val_of(s, i, j) as u64, j))
    }
}

/// Scans a decimal number in `s` starting at `i`.
pub fn parse_u64_at(s: &Vec<char>, i: usize) -> (r: Option<(u64, usize)>)
    requires
        i <= s@.len(),
    ensures
        match r {
            Some((v, j)) => parse_num(s@, i as int) == Some((v, j as int)) && i < j <= s@.len(),
            None => parse_num(s@, i as int) is None,
        },
{
    proof {
        lemma_digits_end_bounds(s@, i as int);
    }
    let mut j: usize = i;
    let mut acc: u64 = 0;
    let mut over: bool = false;
    loop
        invariant_except_break
            i <= j <= s@.len(),
            forall|k: int| i <= k < j ==> is_digit(s@[k]),
            !over ==> acc == val_of(s@, i as int, j as int),
            over ==> val_of(s@, i as int, j as int) > u64::MAX,
        ensures
            i <= j <= s@.len(),
            forall|k: int| i <= k < j ==> is_digit(s@[k]),
            j < s@.len() ==> !is_digit(s@[j as int]),
            !over ==> acc == val_of(s@, i as int, j as int),
            over ==> val_of(s@, i as int, j as int) > u64::MAX,
        decreases s@.len() - j,
    {
        if j >= s.len() {
            break ;
        }
        let u = s[j] as u32;
        if !(48 <= u && u <= 57) {
            break ;
        }
        let d: u64 = (u - 48) as u64;
        proof {
            assert(d == digit_val(s@[j as int]));
            assert(val_of(s@, i as int, j as int + 1) == val_of(s@, i as int, j as int) * 10
                + digit_val(s@[j as int]));
        }
        if !over {
            if acc > 1844674407370955161u64 || (acc == 1844674407370955161u64 && d > 5) {
                over = true;
                proof {
                    assert(acc * 10 + d > u64::MAX);
                }
            } else {
                acc = acc * 10 + d;
            }
        } else {
            proof {
                assert(val_of(s@, i as int, j as int) * 10 >= val_of(s@, i as int, j as int)) by (
                nonlinear_arith);
            }
        }
        j = j + 1;
    }
    proof {
        lemma_digits_end_of_run(s@, i as int, j as int);
    }
    if j == i {
        None
    } else if over {
        None
    } else {
        Some((acc, j))
    }
}

} // verus!
