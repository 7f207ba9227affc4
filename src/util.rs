use vstd::prelude::*;
use vstd::arithmetic::div_mod::{
    lemma_add_mod_noop, lemma_mod_breakdown, lemma_mul_mod_noop_right, lemma_small_mod,
};
use crate::bit::Bit;

verus! {

/// Two to the power `e`.
pub open spec fn exp2(e: nat) -> nat
    decreases e,
{
    if e == 0 {
        1
    } else {
        2 * exp2((e - 1) as nat)
    }
}

/// Number of binary digits of `n` written without leading zeros; zero is written with one digit.
pub open spec fn width(n: nat) -> nat
    decreases n,
{
    if n <= 1 {
        1
    } else {
        1 + width(n / 2)
    }
}

/// The low `w` binary digits of `n`, most significant first.
pub open spec fn digits(n: nat, w: nat) -> Seq<Bit>
    decreases w,
{
    if w == 0 {
        seq![]
    } else {
        digits(n / 2, (w - 1) as nat).push(Bit((n % 2) as u8))
    }
}

/// The number that a digit sequence spells, most significant digit first.
pub open spec fn value(s: Seq<Bit>) -> nat
    decreases s.len(),
{
    if s.len() == 0 {
        0
    } else {
        2 * value(s.drop_last()) + s.last().0 as nat
    }
}

/// Every element of the sequence is a well-formed bit.
pub open spec fn all_bits(s: Seq<Bit>) -> bool {
    forall|i: int| 0 <= i < s.len() ==> (#[trigger] s[i]).wf()
}

pub proof fn lemma_width_bound(n: nat)
    ensures
        1 <= width(n),
        n < exp2(width(n)),
    decreases n,
{
    reveal_with_fuel(exp2, 2);
    if n > 1 {
        lemma_width_bound(n / 2);
    }
}

pub proof fn lemma_width_monotone(a: nat, b: nat)
    requires
        a <= b,
    ensures
        width(a) <= width(b),
    decreases b,
{
    if a > 1 {
        lemma_width_monotone(a / 2, b / 2);
    }
}

pub proof fn lemma_digits_wf(n: nat, w: nat)
    ensures
        digits(n, w).len() == w,
        all_bits(digits(n, w)),
    decreases w,
{
    if w > 0 {
        lemma_digits_wf(n / 2, (w - 1) as nat);
    }
}

pub proof fn lemma_value_digits(n: nat, w: nat)
    ensures
        value(digits(n, w)) == n % exp2(w),
    decreases w,
{
    if w > 0 {
        let d = digits(n, w);
        lemma_value_digits(n / 2, (w - 1) as nat);
        assert(d.drop_last() =~= digits(n / 2, (w - 1) as nat));
        lemma_width_bound(0);
        assert(exp2((w - 1) as nat) > 0) by {
            lemma_exp2_positive((w - 1) as nat);
        }
        lemma_mod_breakdown(n as int, 2, exp2((w - 1) as nat) as int);
    }
}

pub proof fn lemma_exp2_positive(e: nat)
    ensures
        exp2(e) > 0,
    decreases e,
{
    if e > 0 {
        lemma_exp2_positive((e - 1) as nat);
    }
}

/// A sequence of `w` well-formed bits spells a number below `2^w`.
pub proof fn lemma_value_bound(s: Seq<Bit>)
    requires
        all_bits(s),
    ensures
        value(s) < exp2(s.len()),
    decreases s.len(),
{
    if s.len() > 0 {
        assert(all_bits(s.drop_last()));
        lemma_value_bound(s.drop_last());
        assert(s[s.len() - 1].wf());
    }
}

/// A byte has between one and eight binary digits.
pub proof fn lemma_width_of_byte(n: u8)
    ensures
        1 <= width(n as nat) <= 8,
{
    lemma_width_bound(n as nat);
    lemma_width_monotone(n as nat, 255);
    assert(width(255) == 8) by {
        reveal_with_fuel(width, 9);
    }
}

/// Reading back the digits that `dec2bin` writes gives the number again: `bin2dec(dec2bin(n))`
/// is `n` for every byte `n`.
pub proof fn lemma_codec_round_trip(n: u8)
    ensures
        all_bits(digits(n as nat, width(n as nat))),
        value(digits(n as nat, width(n as nat))) % 256 == n,
{
    lemma_digits_wf(n as nat, width(n as nat));
    lemma_value_digits(n as nat, width(n as nat));
    lemma_width_bound(n as nat);
    lemma_small_mod(n as nat, exp2(width(n as nat)));
    lemma_small_mod(n as nat, 256);
}

/// Number of binary digits of `n`, at least one.
pub fn length(n: u8) -> (r: u8)
    ensures
        r as nat == width(n as nat),
        1 <= r <= 8,
{
    let mut w: u8 = 1;
    let mut x: u8 = n;
    proof {
        lemma_width_of_byte(n);
    }
    while x > 1
        invariant
            1 <= w,
            w as nat + width(x as nat) == width(n as nat) + 1,
            width(n as nat) <= 8,
        decreases x,
    {
        proof {
            lemma_width_bound(x as nat / 2);
        }
        x = x / 2;
        w = w + 1;
    }
    w
}

/// The binary digits of `n`, most significant first, without leading zeros.
pub fn dec2bin(n: u8) -> (r: Vec<Bit>)
    ensures
        r@ == digits(n as nat, width(n as nat)),
        all_bits(r@),
{
    let w = length(n);
    let mut r: Vec<Bit> = Vec::new();
    let mut x: u8 = n;
    let mut i: u8 = 0;
    while i < w
        invariant
            i <= w,
            w as nat == width(n as nat),
            r@.len() == i,
            digits(x as nat, (w - i) as nat) + r@ == digits(n as nat, w as nat),
        decreases w - i,
    {
        let ghost before = r@;
        r.insert(0, Bit(x % 2));
        proof {
            let rest = (w - i - 1) as nat;
            assert(digits(x as nat, (w - i) as nat) == digits(x as nat / 2, rest).push(
                Bit((x % 2) as u8),
            ));
            assert(digits(x as nat / 2, rest) + r@ =~= digits(x as nat, (w - i) as nat) + before);
        }
        x = x / 2;
        i = i + 1;
    }
    proof {
        assert(digits(x as nat, 0) + r@ =~= r@);
        lemma_digits_wf(n as nat, w as nat);
    }
    r
}

proof fn lemma_shift_in(v: nat, r: u8, b: u8)
    requires
        r as nat == v % 256,
        b <= 1,
    ensures
        ((r << 1u8) | b) as nat == (2 * v + b) % 256,
{
    assert(((r << 1u8) | b) as nat == (2 * r + b) as nat % 256) by (bit_vector)
        requires
            b <= 1,
    ;
    lemma_mul_mod_noop_right(2, v as int, 256);
    lemma_add_mod_noop(2 * (v % 256) as int, b as int, 256);
    lemma_add_mod_noop(2 * v as int, b as int, 256);
}

/// The number that `bits` spells, most significant bit first, kept to its low eight bits.
pub fn bin2dec(bits: Vec<Bit>) -> (r: u8)
    requires
        all_bits(bits@),
    ensures
        r as nat == value(bits@) % 256,
{
    let mut result: u8 = 0;
    let mut i: usize = 0;
    while i < bits.len()
        invariant
            i <= bits@.len(),
            all_bits(bits@),
            result as nat == value(bits@.take(i as int)) % 256,
        decreases bits@.len() - i,
    {
        let b = bits[i].0;
        proof {
            assert(bits@.take(i as int + 1).drop_last() =~= bits@.take(i as int));
            lemma_shift_in(value(bits@.take(i as int)), result, b);
        }
        result = (result << 1u8) | b;
        i = i + 1;
    }
    assert(bits@.take(i as int) =~= bits@);
    result
}

} // verus!
