use vstd::prelude::*;
use vstd::arithmetic::div_mod::{lemma_mod_breakdown, lemma_small_mod};
use crate::bit::Bit;
use crate::layout::{
    check_position, covers, filled, flipped, group_bits, lemma_exp2_grows, lemma_exp2_monotone,
    parities, parity, spaced, syndrome_of, with_parities,
};
use crate::util::{all_bits, exp2, value};

verus! {

proof fn lemma_xor(a: u8, b: u8, c: u8)
    by (bit_vector)
    ensures
        a ^ 0u8 == a,
        (a ^ b) ^ (b ^ c) == a ^ c,
        (a ^ c) ^ b == (a ^ b) ^ c,
        a ^ (0u8 ^ a) == 0u8,
        a ^ (a ^ 1u8) == 1u8,
        0u8 ^ a == a,
        a <= 1 && b <= 1 ==> a ^ b <= 1,
{
}

/// Parity over `[1, n]` extends parity over `[1, n - 1]` by the bit at `n`, if covered.
pub proof fn lemma_parity_step(s: Seq<Bit>, p: u8, n: nat)
    requires
        n > 0,
    ensures
        parity(s, p, n) == if covers(p, n as u8) {
            parity(s, p, (n - 1) as nat) ^ s[n - 1].0
        } else {
            parity(s, p, (n - 1) as nat)
        },
{
    if covers(p, n as u8) {
        assert(group_bits(s, p, n).drop_last() =~= group_bits(s, p, (n - 1) as nat));
    }
}

/// The parity of well-formed bits is a well-formed bit.
pub proof fn lemma_parity_is_bit(s: Seq<Bit>, p: u8, n: nat)
    requires
        all_bits(s),
        n <= s.len(),
    ensures
        parity(s, p, n) <= 1,
    decreases n,
{
    if n == 0 {
        lemma_xor(0, 0, 0);
    } else {
        lemma_parity_step(s, p, n);
        lemma_parity_is_bit(s, p, (n - 1) as nat);
        assert(s[n - 1].wf());
        lemma_xor(parity(s, p, (n - 1) as nat), s[n - 1].0, 0);
    }
}

/// Writing `v` at position `x` changes a parity by the change of that bit, if `x` is covered.
pub proof fn lemma_parity_update(s: Seq<Bit>, x: nat, v: Bit, p: u8, n: nat)
    requires
        1 <= x <= s.len(),
        n <= s.len(),
        s.len() <= 255,
    ensures
        parity(s.update(x - 1, v), p, n) == parity(s, p, n) ^ (if x <= n && covers(p, x as u8) {
            s[x - 1].0 ^ v.0
        } else {
            0u8
        }),
    decreases n,
{
    let t = s.update(x - 1, v);
    if n == 0 {
        lemma_xor(0, 0, 0);
    } else {
        let m = (n - 1) as nat;
        lemma_parity_update(s, x, v, p, m);
        lemma_parity_step(s, p, n);
        lemma_parity_step(t, p, n);
        let a = parity(s, p, m);
        let d = if x <= m && covers(p, x as u8) {
            s[x - 1].0 ^ v.0
        } else {
            0u8
        };
        lemma_xor(a, 0, 0);
        lemma_xor(a, s[n - 1].0, v.0);
        lemma_xor(a, d, s[n - 1].0);
        lemma_xor(a ^ s[n - 1].0, 0, 0);
    }
}

/// Parity position `2^j`, for `j < 8`, is `1 << j` in a byte.
proof fn lemma_position_is_shift(j: nat)
    requires
        j < 8,
    ensures
        check_position(j) == 1u8 << (j as u8),
        check_position(j) as nat == exp2(j),
{
    reveal_with_fuel(exp2, 9);
    if j == 0 {
        assert(1u8 << 0u8 == 1u8) by (bit_vector);
    } else if j == 1 {
        assert(1u8 << 1u8 == 2u8) by (bit_vector);
    } else if j == 2 {
        assert(1u8 << 2u8 == 4u8) by (bit_vector);
    } else if j == 3 {
        assert(1u8 << 3u8 == 8u8) by (bit_vector);
    } else if j == 4 {
        assert(1u8 << 4u8 == 16u8) by (bit_vector);
    } else if j == 5 {
        assert(1u8 << 5u8 == 32u8) by (bit_vector);
    } else if j == 6 {
        assert(1u8 << 6u8 == 64u8) by (bit_vector);
    } else {
        assert(1u8 << 7u8 == 128u8) by (bit_vector);
    }
}

/// Parity position `2^j`, for `j < 8`, fits a byte unchanged.
pub proof fn lemma_position_value(j: nat)
    requires
        j < 8,
    ensures
        check_position(j) as nat == exp2(j),
{
    lemma_position_is_shift(j);
}

/// Parity position `2^j` covers position `q` exactly when bit `j` of `q` is set.
proof fn lemma_covers_bit(j: nat, q: u8)
    requires
        j < 8,
    ensures
        covers(check_position(j), q) <==> (q >> (j as u8)) & 1u8 == 1u8,
{
    lemma_position_is_shift(j);
    let a = j as u8;
    assert(((1u8 << a) & q == (1u8 << a)) <==> ((q >> a) & 1u8 == 1u8)) by (bit_vector)
        requires
            a < 8,
    ;
}

/// Of two parity positions, one covers the other only when they are the same.
proof fn lemma_positions_apart(i: nat, j: nat)
    requires
        i < 8,
        j < 8,
    ensures
        covers(check_position(j), check_position(i)) <==> i == j,
{
    lemma_position_is_shift(i);
    lemma_position_is_shift(j);
    let a = j as u8;
    let b = i as u8;
    assert(((1u8 << a) & (1u8 << b) == (1u8 << a)) <==> a == b) by (bit_vector)
        requires
            a < 8,
            b < 8,
    ;
}

proof fn lemma_exp2_strict(i: nat, j: nat)
    requires
        i < j,
    ensures
        exp2(i) < exp2(j),
{
    lemma_exp2_monotone(i, (j - 1) as nat);
    lemma_exp2_grows((j - 1) as nat);
}

/// Writing the first `t` parity values: each slot then holds its value, and each parity
/// changes by what its own slot changed.
pub proof fn lemma_with_parities(s: Seq<Bit>, c: Seq<Bit>, k: nat, t: nat)
    requires
        t <= k <= 8,
        1 <= k,
        c.len() == k,
        s.len() <= 255,
        exp2((k - 1) as nat) <= s.len(),
    ensures
        with_parities(s, c, t).len() == s.len(),
        forall|j: nat|
            j < k ==> #[trigger] with_parities(s, c, t)[exp2(j) - 1] == if j < t {
                c[j as int]
            } else {
                s[exp2(j) - 1]
            },
        forall|j: nat|
            j < k ==> #[trigger] parity(with_parities(s, c, t), check_position(j), s.len()) == if j
                < t {
                parity(s, check_position(j), s.len()) ^ (s[exp2(j) - 1].0 ^ c[j as int].0)
            } else {
                parity(s, check_position(j), s.len())
            },
    decreases t,
{
    if t > 0 {
        let u = (t - 1) as nat;
        lemma_with_parities(s, c, k, u);
        let w = with_parities(s, c, u);
        let x = exp2(u);
        lemma_exp2_grows(u);
        lemma_exp2_monotone(u, (k - 1) as nat);
        assert forall|j: nat| j < k implies #[trigger] with_parities(s, c, t)[exp2(j) - 1] == if j
            < t {
            c[j as int]
        } else {
            s[exp2(j) - 1]
        } by {
            lemma_exp2_grows(j);
            lemma_exp2_monotone(j, (k - 1) as nat);
            if j < u {
                lemma_exp2_strict(j, u);
            } else if j > u {
                lemma_exp2_strict(u, j);
            }
        }
        assert forall|j: nat| j < k implies #[trigger] parity(
            with_parities(s, c, t),
            check_position(j),
            s.len(),
        ) == if j < t {
            parity(s, check_position(j), s.len()) ^ (s[exp2(j) - 1].0 ^ c[j as int].0)
        } else {
            parity(s, check_position(j), s.len())
        } by {
            let p = check_position(j);
            lemma_parity_update(w, x, c[u as int], p, s.len());
            lemma_positions_apart(u, j);
            lemma_position_is_shift(u);
            assert(w[x - 1] == s[x - 1]);
            lemma_xor(parity(w, p, s.len()), 0, 0);
        }
    }
}

/// Filling in the parity bits of a word whose parity slots hold zero leaves every parity zero.
pub proof fn lemma_filled_parities_zero(s: Seq<Bit>, k: nat)
    requires
        1 <= k <= 8,
        s.len() <= 255,
        exp2((k - 1) as nat) <= s.len(),
        forall|j: nat| j < k ==> #[trigger] s[exp2(j) - 1] == Bit(0),
    ensures
        filled(s, k).len() == s.len(),
        parities(filled(s, k), k) == Seq::new(k, |j: int| Bit(0)),
{
    let c = parities(s, k);
    lemma_with_parities(s, c, k, k);
    assert forall|j: int| 0 <= j < k implies #[trigger] parities(filled(s, k), k)[j] == Bit(0) by {
        let a = parity(s, check_position(j as nat), s.len());
        assert(s[exp2(j as nat) - 1] == Bit(0));
        lemma_xor(a, 0, 0);
    }
    assert(parities(filled(s, k), k) =~= Seq::new(k, |j: int| Bit(0)));
}

/// Inserting zeros at the parity positions, with room for each, lengthens the word by `k` and
/// leaves zero in every parity slot.
pub proof fn lemma_spaced_slots(s: Seq<Bit>, m: nat, k: nat)
    requires
        s.len() >= m,
        forall|i: nat| 1 <= i < k ==> exp2(i) < i + m + 1,
    ensures
        spaced(s, k).len() == s.len() + k,
        forall|j: nat| j < k ==> #[trigger] spaced(s, k)[exp2(j) - 1] == Bit(0),
    decreases k,
{
    if k > 0 {
        let u = (k - 1) as nat;
        lemma_spaced_slots(s, m, u);
        let w = spaced(s, u);
        lemma_exp2_grows(u);
        reveal_with_fuel(exp2, 1);
        assert(exp2(u) - 1 <= w.len()) by {
            if u >= 1 {
                assert(exp2(u) < u + m + 1);
            } else {
                assert(exp2(0) == 1);
            }
        }
        w.insert_ensures(exp2(u) - 1, Bit(0));
        assert forall|j: nat| j < k implies #[trigger] spaced(s, k)[exp2(j) - 1] == Bit(0) by {
            lemma_exp2_grows(j);
            if j < u {
                lemma_exp2_strict(j, u);
            }
        }
    }
}

/// The parity bits `c` spell `e` in its low `k` bits when `c[j]` is bit `j` of `e`.
proof fn lemma_syndrome_spells(c: Seq<Bit>, e: u8, k: nat)
    requires
        c.len() == k,
        k <= 7,
        forall|j: int| 0 <= j < k ==> (#[trigger] c[j]).0 == (e >> (j as u8)) & 1u8,
    ensures
        syndrome_of(c) == e as nat % exp2(k),
    decreases k,
{
    if k == 0 {
        assert(c.reverse() =~= Seq::<Bit>::empty());
    } else {
        let d = c.drop_first();
        let e2 = e >> 1u8;
        assert forall|j: int| 0 <= j < k - 1 implies (#[trigger] d[j]).0 == (e2 >> (j as u8)) & 1u8 by {
            let a = j as u8;
            assert(c[j + 1].0 == (e >> ((j + 1) as u8)) & 1u8);
            assert((e >> ((a + 1) as u8)) == ((e >> 1u8) >> a)) by (bit_vector)
                requires
                    a < 7,
            ;
        }
        lemma_syndrome_spells(d, e2, (k - 1) as nat);
        assert(c.reverse().drop_last() =~= d.reverse());
        assert(c.reverse().last() == c[0]);
        assert(c[0].0 == (e >> 0u8) & 1u8);
        assert((e >> 0u8) & 1u8 == e % 2 && e >> 1u8 == e / 2) by (bit_vector);
        lemma_exp2_grows((k - 1) as nat);
        lemma_mod_breakdown(e as int, 2, exp2((k - 1) as nat) as int);
    }
}

/// In a word whose parities are all zero, inverting the bit at position `e` makes the parity
/// bits spell `e`, provided that the word is shorter than `2^k`.
pub proof fn lemma_single_error_syndrome(s: Seq<Bit>, k: nat, e: nat)
    requires
        1 <= k <= 7,
        s.len() <= 255,
        s.len() < exp2(k),
        1 <= e <= s.len(),
        parities(s, k) == Seq::new(k, |j: int| Bit(0)),
    ensures
        syndrome_of(parities(flipped(s, e), k)) == e,
{
    let f = flipped(s, e);
    let c = parities(f, k);
    let eb = e as u8;
    assert forall|j: int| 0 <= j < k implies (#[trigger] c[j]).0 == (eb >> (j as u8)) & 1u8 by {
        let p = check_position(j as nat);
        lemma_parity_update(s, e, Bit(s[e - 1].0 ^ 1), p, s.len());
        assert(parities(s, k)[j] == Bit(0));
        lemma_xor(s[e - 1].0, 0, 0);
        lemma_xor(0, 0, 0);
        lemma_xor(1, 0, 0);
        lemma_covers_bit(j as nat, eb);
        let a = j as u8;
        assert(((eb >> a) & 1u8) <= 1u8) by (bit_vector);
    }
    lemma_syndrome_spells(c, eb, k);
    lemma_exp2_grows(k);
    lemma_small_mod(e, exp2(k));
}

} // verus!
