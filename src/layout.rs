use vstd::prelude::*;
use crate::bit::Bit;
use crate::util::{exp2, value};

verus! {

/// First `k`, counting up from `k`, with `2^k >= k + m + 1`, stopping at `m + 1` at the latest.
pub open spec fn search_check_count(m: nat, k: nat) -> nat
    decreases m + 1 - k,
{
    if k >= m + 1 || exp2(k) >= k + m + 1 {
        k
    } else {
        search_check_count(m, k + 1)
    }
}

/// Number of parity bits for a payload of `m` bits: the smallest `k >= 1` with `2^k >= k + m + 1`.
pub open spec fn check_count(m: nat) -> nat {
    search_check_count(m, 1)
}

/// `k` parity bits suffice for `m` payload bits, and no smaller positive count does.
pub open spec fn is_least_check_count(m: nat, k: nat) -> bool {
    &&& 1 <= k
    &&& exp2(k) >= k + m + 1
    &&& forall|j: nat| 1 <= j < k ==> exp2(j) < j + m + 1
}

/// `q` is a power of two.
pub open spec fn is_power_of_two(q: nat) -> bool {
    exists|j: nat| q == exp2(j)
}

/// Position `q` (counted from 1) is covered by parity position `p`: every bit of `p` is set in `q`.
pub open spec fn covers(p: u8, q: u8) -> bool {
    p & q == p
}

/// The positions in `[1, n]` that `p` covers, ascending.
pub open spec fn covered_upto(p: u8, n: nat) -> Seq<u8>
    decreases n,
{
    if n == 0 {
        seq![]
    } else if covers(p, n as u8) {
        covered_upto(p, (n - 1) as nat).push(n as u8)
    } else {
        covered_upto(p, (n - 1) as nat)
    }
}

/// The bits of `s` at the positions in `[1, n]` that `p` covers, in order of position.
pub open spec fn group_bits(s: Seq<Bit>, p: u8, n: nat) -> Seq<Bit>
    decreases n,
{
    if n == 0 {
        seq![]
    } else if covers(p, n as u8) {
        group_bits(s, p, (n - 1) as nat).push(s[n - 1])
    } else {
        group_bits(s, p, (n - 1) as nat)
    }
}

/// Exclusive or of all the bits of `g`.
pub open spec fn xor_all(g: Seq<Bit>) -> u8
    decreases g.len(),
{
    if g.len() == 0 {
        0
    } else {
        xor_all(g.drop_last()) ^ g.last().0
    }
}

/// Parity over the positions in `[1, n]` of `s` that `p` covers.
pub open spec fn parity(s: Seq<Bit>, p: u8, n: nat) -> u8 {
    xor_all(group_bits(s, p, n))
}

/// Parity position number `j` (counted from 0): `2^j`.
pub open spec fn check_position(j: nat) -> u8 {
    exp2(j) as u8
}

/// The parity bits of codeword `s` for its first `k` parity positions, ascending.
pub open spec fn parities(s: Seq<Bit>, k: nat) -> Seq<Bit> {
    Seq::new(k, |j: int| Bit(parity(s, check_position(j as nat), s.len())))
}

pub proof fn lemma_exp2_grows(k: nat)
    ensures
        exp2(k) > 0,
        exp2(k) + 4 >= 4 * k,
        exp2(k) > k,
    decreases k,
{
    if k > 0 {
        lemma_exp2_grows((k - 1) as nat);
    }
}

pub proof fn lemma_exp2_monotone(a: nat, b: nat)
    requires
        a <= b,
    ensures
        exp2(a) <= exp2(b),
    decreases b,
{
    if a < b {
        lemma_exp2_monotone(a, (b - 1) as nat);
    }
}

proof fn lemma_search_is_least(m: nat, k: nat)
    requires
        1 <= k <= m + 1,
        forall|j: nat| 1 <= j < k ==> exp2(j) < j + m + 1,
    ensures
        is_least_check_count(m, search_check_count(m, k)),
    decreases m + 1 - k,
{
    if k < m + 1 && exp2(k) < k + m + 1 {
        lemma_search_is_least(m, k + 1);
    } else if k >= m + 1 {
        lemma_exp2_grows(k);
    }
}

/// The parity count is the smallest positive `k` with `2^k >= k + m + 1`.
pub proof fn lemma_check_count_is_least(m: nat)
    ensures
        is_least_check_count(m, check_count(m)),
        check_count(m) <= m + 1,
{
    lemma_search_is_least(m, 1);
    lemma_search_bounded(m, 1);
}

proof fn lemma_search_bounded(m: nat, k: nat)
    requires
        k <= m + 1,
    ensures
        k <= search_check_count(m, k) <= m + 1,
    decreases m + 1 - k,
{
    if k < m + 1 && exp2(k) < k + m + 1 {
        lemma_search_bounded(m, k + 1);
    }
}

/// A payload of at most eight bits needs at most four parity bits.
pub proof fn lemma_check_count_small(m: nat)
    requires
        m <= 8,
    ensures
        1 <= check_count(m) <= 4,
{
    lemma_check_count_is_least(m);
    reveal_with_fuel(exp2, 5);
    if check_count(m) > 4 {
        assert(exp2(4) < 4 + m + 1);
    }
}

/// The parity positions, found as the first `k` powers of two for the least `k`, are exactly the
/// powers of two that do not exceed the length `m + k` of the codeword.
pub proof fn lemma_check_positions_are_powers_up_to_length(m: nat)
    ensures
        Set::new(|q: nat| 1 <= q <= m + check_count(m) && is_power_of_two(q)) == Set::new(
            |q: nat| exists|j: nat| j < check_count(m) && q == exp2(j),
        ),
{
    let k = check_count(m);
    lemma_check_count_is_least(m);
    let a = Set::new(|q: nat| 1 <= q <= m + k && is_power_of_two(q));
    let b = Set::new(|q: nat| exists|j: nat| j < k && q == exp2(j));
    assert forall|q: nat| a.contains(q) implies b.contains(q) by {
        let j = choose|j: nat| q == exp2(j);
        if j >= k {
            lemma_exp2_monotone(k, j);
        }
    }
    assert forall|q: nat| b.contains(q) implies a.contains(q) by {
        let j = choose|j: nat| j < k && q == exp2(j);
        lemma_exp2_grows(j);
        lemma_exp2_monotone(j, (k - 1) as nat);
        if k >= 2 {
            assert(exp2((k - 1) as nat) < (k - 1) as nat + m + 1);
        }
    }
    assert(a =~= b);
}

/// `s` with a zero bit inserted at each of the first `k` parity positions, in ascending order.
pub open spec fn spaced(s: Seq<Bit>, k: nat) -> Seq<Bit>
    decreases k,
{
    if k == 0 {
        s
    } else {
        spaced(s, (k - 1) as nat).insert(exp2((k - 1) as nat) - 1, Bit(0))
    }
}

/// `s` with the bit at position `e` (counted from 1) inverted.
pub open spec fn flipped(s: Seq<Bit>, e: nat) -> Seq<Bit> {
    s.update(e - 1, Bit(s[e - 1].0 ^ 1))
}

/// `s` with `c[j]` written at parity position `2^j`, for each `j < t`.
pub open spec fn with_parities(s: Seq<Bit>, c: Seq<Bit>, t: nat) -> Seq<Bit>
    decreases t,
{
    if t == 0 {
        s
    } else {
        with_parities(s, c, (t - 1) as nat).update(exp2((t - 1) as nat) - 1, c[t - 1])
    }
}

/// `s` with each of its first `k` parity positions set to the parity that it has in `s`.
pub open spec fn filled(s: Seq<Bit>, k: nat) -> Seq<Bit> {
    with_parities(s, parities(s, k), k)
}

/// The number that the parity bits `c` spell, the last parity position giving the most
/// significant bit.
pub open spec fn syndrome_of(c: Seq<Bit>) -> nat {
    value(c.reverse())
}

/// The positions that `p` covers, read off `s`, are the bits that `p` groups.
pub proof fn lemma_group_is_covered_bits(s: Seq<Bit>, p: u8, n: nat)
    requires
        n <= 255,
    ensures
        group_bits(s, p, n) == covered_upto(p, n).map_values(|q: u8| s[q - 1]),
        forall|t: int| 0 <= t < covered_upto(p, n).len() ==> 1 <= #[trigger] covered_upto(p, n)[t] <= n,
    decreases n,
{
    if n > 0 {
        lemma_group_is_covered_bits(s, p, (n - 1) as nat);
        assert(group_bits(s, p, n) =~= covered_upto(p, n).map_values(|q: u8| s[q - 1]));
    }
}

} // verus!
