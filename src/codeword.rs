use vstd::prelude::*;
use rand::Rng;
use crate::algebra::{
    lemma_filled_parities_zero, lemma_parity_is_bit, lemma_position_value,
    lemma_single_error_syndrome, lemma_spaced_slots, lemma_with_parities,
};
use crate::bit::Bit;
use crate::layout::{
    check_count, check_position, covered_upto, covers, filled, flipped, group_bits,
    is_least_check_count, lemma_check_count_is_least, lemma_check_count_small, lemma_exp2_grows,
    lemma_exp2_monotone, lemma_group_is_covered_bits, parities, parity, search_check_count, spaced,
    syndrome_of, with_parities, xor_all,
};
use crate::util::{
    all_bits, bin2dec, dec2bin, digits, exp2, length, lemma_digits_wf, lemma_value_bound,
    lemma_width_of_byte, width,
};

verus! {

/// Number of payload bits that `n` is taken to have: its binary width, and none for zero.
pub open spec fn payload_width(n: nat) -> nat {
    if n == 0 {
        0
    } else {
        width(n)
    }
}

/// The codeword for payload `n`: zero bits inserted at the parity positions, then each parity
/// position set to the parity that it covers.
pub open spec fn encoded(n: u8) -> Seq<Bit> {
    let k = check_count(payload_width(n as nat));
    filled(spaced(digits(n as nat, width(n as nat)), k), k)
}

/// A payload word, later a codeword: its bits from position 1 on, and the payload's length.
#[derive(Clone, Debug, PartialEq)]
pub struct BinaryNumber {
    pub bits: Vec<Bit>,
    payload_length: u8,
}

impl View for BinaryNumber {
    type V = Seq<Bit>;

    /// The bits of the word, position 1 first.
    closed spec fn view(&self) -> Seq<Bit> {
        self.bits@
    }
}

impl BinaryNumber {
    /// The payload fits in one byte.
    pub closed spec fn wf(self) -> bool {
        self.payload_length <= 8
    }

    /// Number of payload bits.
    pub closed spec fn data_len(self) -> nat {
        self.payload_length as nat
    }

    /// Number of parity bits that the payload needs.
    pub open spec fn check_len(self) -> nat {
        check_count(self.data_len())
    }

    /// The word that holds the payload `n`, without parity bits.
    pub fn new(n: u8) -> (r: BinaryNumber)
        ensures
            r.wf(),
            r@ == digits(n as nat, width(n as nat)),
            r.data_len() == payload_width(n as nat),
    {
        let payload_length: u8 = if n == 0 {
            0
        } else {
            length(n)
        };
        BinaryNumber { bits: dec2bin(n), payload_length }
    }

    /// The smallest positive `k` with `2^k >= k + m + 1`, for `m` payload bits.
    pub fn number_of_check_bits(&self) -> (r: u8)
        ensures
            r as nat == self.check_len(),
            is_least_check_count(self.data_len(), r as nat),
    {
        let m: u32 = self.payload_length as u32;
        let mut k: u32 = 1;
        let mut pw: u32 = 2;
        proof {
            reveal_with_fuel(exp2, 2);
        }
        while pw < k + m + 1
            invariant
                1 <= k <= m + 1,
                3 * k <= m + 8,
                m <= 255,
                pw as nat == exp2(k as nat),
                forall|j: nat| 1 <= j < k ==> exp2(j) < j + m + 1,
                search_check_count(m as nat, k as nat) == check_count(m as nat),
            decreases m + 1 - k,
        {
            proof {
                lemma_exp2_grows(k as nat);
                lemma_exp2_grows(m as nat + 1);
            }
            k = k + 1;
            pw = pw * 2;
        }
        proof {
            lemma_exp2_grows(k as nat);
            lemma_check_count_is_least(m as nat);
            assert(search_check_count(m as nat, k as nat) == k as nat);
        }
        k as u8
    }

    /// The parity positions `1, 2, 4, ...`, one for each parity bit, ascending.
    pub fn check_bit_positions(&self) -> (r: Vec<u8>)
        requires
            self.wf(),
        ensures
            r@.len() == self.check_len(),
            forall|j: int| 0 <= j < r@.len() ==> r@[j] == check_position(j as nat),
            forall|j: int| 0 <= j < r@.len() ==> r@[j] as nat == exp2(j as nat),
    {
        let k = self.number_of_check_bits();
        proof {
            lemma_check_count_small(self.data_len());
            reveal_with_fuel(exp2, 4);
        }
        let mut r: Vec<u8> = Vec::new();
        let mut p: u8 = 1;
        let mut i: u8 = 0;
        while i < k
            invariant
                i <= k <= 4,
                p as nat == exp2(i as nat),
                r@.len() == i,
                forall|j: int| 0 <= j < i ==> r@[j] as nat == exp2(j as nat),
            decreases k - i,
        {
            proof {
                lemma_exp2_monotone(i as nat, 3);
                assert(exp2(3) == 8) by {
                    reveal_with_fuel(exp2, 4);
                }
            }
            r.push(p);
            p = p * 2;
            i = i + 1;
        }
        r
    }

    /// For each parity position, ascending, the positions of the word that it covers, ascending.
    pub fn covered_positions(&self) -> (r: Vec<Vec<u8>>)
        requires
            self.wf(),
            self@.len() <= 255,
        ensures
            r@.len() == self.check_len(),
            forall|j: int|
                0 <= j < r@.len() ==> (#[trigger] r@[j])@ == covered_upto(
                    check_position(j as nat),
                    self@.len(),
                ),
    {
        let positions = self.check_bit_positions();
        let n: usize = self.bits.len();
        let mut r: Vec<Vec<u8>> = Vec::new();
        let mut j: usize = 0;
        while j < positions.len()
            invariant
                n == self@.len() <= 255,
                positions@.len() == self.check_len(),
                forall|t: int| 0 <= t < positions@.len() ==> positions@[t] == check_position(t as nat),
                j <= positions@.len(),
                r@.len() == j,
                forall|t: int|
                    0 <= t < j ==> (#[trigger] r@[t])@ == covered_upto(check_position(t as nat), n as nat),
            decreases positions@.len() - j,
        {
            let p = positions[j];
            let mut group: Vec<u8> = Vec::new();
            let mut q: usize = 1;
            while q <= n
                invariant
                    1 <= q <= n + 1,
                    n <= 255,
                    group@ == covered_upto(p, (q - 1) as nat),
                decreases n + 1 - q,
            {
                let qb = q as u8;
                if p & qb == p {
                    group.push(qb);
                }
                q = q + 1;
            }
            r.push(group);
            j = j + 1;
        }
        r
    }

    /// For each parity position, ascending, the bits of the word at the positions it covers.
    pub fn bits_at_covered_positions(&self) -> (r: Vec<Vec<Bit>>)
        requires
            self.wf(),
            self@.len() <= 255,
        ensures
            r@.len() == self.check_len(),
            forall|j: int|
                0 <= j < r@.len() ==> (#[trigger] r@[j])@ == group_bits(
                    self@,
                    check_position(j as nat),
                    self@.len(),
                ),
    {
        let groups = self.covered_positions();
        let ghost s = self@;
        let ghost n = s.len();
        let mut r: Vec<Vec<Bit>> = Vec::new();
        let mut j: usize = 0;
        while j < groups.len()
            invariant
                s == self@,
                n == s.len() <= 255,
                groups@.len() == self.check_len(),
                forall|t: int|
                    0 <= t < groups@.len() ==> (#[trigger] groups@[t])@ == covered_upto(
                        check_position(t as nat),
                        n,
                    ),
                j <= groups@.len(),
                r@.len() == j,
                forall|t: int|
                    0 <= t < j ==> (#[trigger] r@[t])@ == group_bits(s, check_position(t as nat), n),
            decreases groups@.len() - j,
        {
            let ghost p = check_position(j as nat);
            proof {
                lemma_group_is_covered_bits(s, p, n);
            }
            let pos_group = &groups[j];
            let mut covered: Vec<Bit> = Vec::new();
            let mut t: usize = 0;
            while t < pos_group.len()
                invariant
                    s == self@,
                    n == s.len(),
                    pos_group@ == covered_upto(p, n),
                    forall|u: int| 0 <= u < pos_group@.len() ==> 1 <= #[trigger] pos_group@[u] <= n,
                    t <= pos_group@.len(),
                    covered@ == pos_group@.take(t as int).map_values(|q: u8| s[q - 1]),
                decreases pos_group@.len() - t,
            {
                let pos = pos_group[t];
                covered.push(self.bits[pos as usize - 1]);
                t = t + 1;
                assert(covered@ =~= pos_group@.take(t as int).map_values(|q: u8| s[q - 1]));
            }
            assert(pos_group@.take(t as int) =~= pos_group@);
            r.push(covered);
            j = j + 1;
        }
        r
    }

    /// The parity bits of the word, one for each parity position, ascending: each is the
    /// exclusive or of the bits at the positions that its parity position covers.
    pub fn compute_check_bits(&self) -> (r: Vec<Bit>)
        requires
            self.wf(),
            self@.len() <= 255,
        ensures
            r@ == parities(self@, self.check_len()),
    {
        let groups = self.bits_at_covered_positions();
        let ghost s = self@;
        let mut c: Vec<Bit> = Vec::new();
        let mut j: usize = 0;
        while j < groups.len()
            invariant
                s == self@,
                groups@.len() == self.check_len(),
                forall|t: int|
                    0 <= t < groups@.len() ==> (#[trigger] groups@[t])@ == group_bits(
                        s,
                        check_position(t as nat),
                        s.len(),
                    ),
                j <= groups@.len(),
                c@ == parities(s, self.check_len()).take(j as int),
            decreases groups@.len() - j,
        {
            let group = &groups[j];
            let mut c_n = Bit(0);
            let mut t: usize = 0;
            while t < group.len()
                invariant
                    t <= group@.len(),
                    c_n.0 == xor_all(group@.take(t as int)),
                decreases group@.len() - t,
            {
                assert(group@.take(t as int + 1).drop_last() =~= group@.take(t as int));
                c_n = c_n ^ group[t];
                t = t + 1;
            }
            assert(group@.take(t as int) =~= group@);
            c.push(c_n);
            j = j + 1;
            assert(c@ =~= parities(s, self.check_len()).take(j as int));
        }
        assert(c@ =~= parities(s, self.check_len()));
        c
    }

    /// Inserts a zero bit at each parity position, ascending, so that the payload bits move to
    /// the other positions in their order.
    pub fn make_space_for_check_bits(&mut self)
        requires
            old(self).wf(),
            old(self)@.len() >= old(self).data_len(),
        ensures
            final(self).wf(),
            final(self).data_len() == old(self).data_len(),
            final(self)@ == spaced(old(self)@, old(self).check_len()),
            final(self)@.len() == old(self)@.len() + old(self).check_len(),
            forall|j: nat|
                j < old(self).check_len() ==> #[trigger] final(self)@[exp2(j) - 1] == Bit(0),
    {
        let positions = self.check_bit_positions();
        let ghost s0 = self@;
        let ghost m = self.data_len();
        proof {
            lemma_check_count_is_least(m);
            lemma_spaced_slots(s0, m, self.check_len());
        }
        let mut i: usize = 0;
        while i < positions.len()
            invariant
                self.wf(),
                self.data_len() == m,
                s0.len() >= m,
                positions@.len() == self.check_len(),
                is_least_check_count(m, self.check_len()),
                forall|t: int| 0 <= t < positions@.len() ==> positions@[t] as nat == exp2(t as nat),
                i <= positions@.len(),
                self@ == spaced(s0, i as nat),
            decreases positions@.len() - i,
        {
            proof {
                lemma_spaced_slots(s0, m, i as nat);
                lemma_exp2_grows(i as nat);
                reveal_with_fuel(exp2, 1);
                if i >= 1 {
                    assert(exp2(i as nat) < i + m + 1);
                }
            }
            let pos = positions[i];
            self.bits.insert(pos as usize - 1, Bit(0));
            i = i + 1;
        }
        proof {
            lemma_spaced_slots(s0, m, self.check_len());
        }
    }

    /// Writes at each parity position the parity that the word has there, computed over the
    /// word as it stands before any of them is written.
    pub fn populate_check_bits(&mut self)
        requires
            old(self).wf(),
            old(self)@.len() <= 255,
            exp2((old(self).check_len() - 1) as nat) <= old(self)@.len(),
        ensures
            final(self).wf(),
            final(self).data_len() == old(self).data_len(),
            final(self)@ == filled(old(self)@, old(self).check_len()),
    {
        let positions = self.check_bit_positions();
        let c = self.compute_check_bits();
        let ghost s0 = self@;
        let ghost k = self.check_len();
        proof {
            lemma_check_count_small(self.data_len());
            lemma_exp2_grows((k - 1) as nat);
        }
        let mut j: usize = 0;
        while j < positions.len()
            invariant
                self.wf(),
                self.data_len() == old(self).data_len(),
                k == self.check_len(),
                1 <= k <= 4,
                s0.len() <= 255,
                exp2((k - 1) as nat) <= s0.len(),
                positions@.len() == k,
                forall|t: int| 0 <= t < positions@.len() ==> positions@[t] as nat == exp2(t as nat),
                c@ == parities(s0, k),
                j <= k,
                self@ == with_parities(s0, c@, j as nat),
                self@.len() == s0.len(),
            decreases k - j,
        {
            proof {
                lemma_exp2_grows(j as nat);
                lemma_exp2_monotone(j as nat, (k - 1) as nat);
            }
            let pos = positions[j];
            self.bits.set(pos as usize - 1, c[j]);
            j = j + 1;
        }
    }

    /// The codeword for payload `n`, its parity bits in place.
    pub fn with_check_bits(n: u8) -> (r: BinaryNumber)
        ensures
            r.wf(),
            r.data_len() == payload_width(n as nat),
            r@ == encoded(n),
            r@.len() == width(n as nat) + r.check_len(),
            r@.len() <= 12,
            all_bits(r@),
    {
        let mut word = BinaryNumber::new(n);
        proof {
            lemma_encoded_layout(n);
        }
        word.make_space_for_check_bits();
        word.populate_check_bits();
        word
    }

    /// Inverts the bit at position `index`, counted from 1.
    pub fn flip_bit(&mut self, index: usize)
        requires
            1 <= index <= old(self)@.len(),
        ensures
            final(self).wf() == old(self).wf(),
            final(self).data_len() == old(self).data_len(),
            final(self)@ == flipped(old(self)@, index as nat),
    {
        let b = self.bits[index - 1];
        self.bits.set(index - 1, b ^ Bit(1));
    }

    /// Inverts the bit at one position of the word, drawn at random.
    pub fn flip_random_bit(&mut self)
        requires
            old(self)@.len() > 0,
        ensures
            final(self).wf() == old(self).wf(),
            final(self).data_len() == old(self).data_len(),
            exists|e: nat|
                1 <= e <= old(self)@.len() && final(self)@ == flipped(old(self)@, e),
    {
        let random_index = random_below(self.bits.len());
        self.flip_bit(random_index + 1);
    }

    /// The syndrome: the parity bits of the word read as a number, the last parity position
    /// giving the most significant bit. Zero when every parity holds; after one inverted bit,
    /// its position.
    pub fn syndrome(&self) -> (r: u8)
        requires
            self.wf(),
            self@.len() <= 255,
            all_bits(self@),
        ensures
            r as nat == syndrome_of(parities(self@, self.check_len())),
    {
        let c = self.compute_check_bits();
        let ghost k = self.check_len();
        proof {
            lemma_check_count_small(self.data_len());
            assert forall|j: int| 0 <= j < c@.len() implies (#[trigger] c@[j]).wf() by {
                lemma_parity_is_bit(self@, check_position(j as nat), self@.len());
            }
        }
        let mut reversed: Vec<Bit> = Vec::new();
        let mut i: usize = c.len();
        while i > 0
            invariant
                i <= c@.len(),
                all_bits(c@),
                reversed@ == c@.reverse().take((c@.len() - i) as int),
            decreases i,
        {
            i = i - 1;
            reversed.push(c[i]);
            assert(reversed@ =~= c@.reverse().take((c@.len() - i) as int));
        }
        assert(reversed@ =~= c@.reverse());
        proof {
            lemma_value_bound(reversed@);
            lemma_exp2_monotone(reversed@.len(), 4);
            reveal_with_fuel(exp2, 5);
        }
        bin2dec(reversed)
    }
}

/// Relies on rand's `thread_rng().gen_range(0..len)`: a value drawn from `0..len`, which must
/// not be empty.
#[verifier::external_body]
fn random_below(len: usize) -> (r: usize)
    requires
        len > 0,
    ensures
        r < len,
{
    rand::thread_rng().gen_range(0..len)
}

} // verus!

verus! {

/// The layout facts behind the codeword for `n`: its length, and zero in each parity slot before
/// the parities are written.
proof fn lemma_encoded_layout(n: u8)
    ensures
        ({
            let m = payload_width(n as nat);
            let k = check_count(m);
            let s = spaced(digits(n as nat, width(n as nat)), k);
            &&& 1 <= k <= 4
            &&& m <= width(n as nat) <= 8
            &&& digits(n as nat, width(n as nat)).len() == width(n as nat)
            &&& n >= 1 ==> m == width(n as nat)
            &&& s.len() == width(n as nat) + k
            &&& exp2((k - 1) as nat) <= s.len()
            &&& forall|j: nat| j < k ==> #[trigger] s[exp2(j) - 1] == Bit(0)
            &&& all_bits(s)
            &&& filled(s, k).len() == s.len()
            &&& parities(filled(s, k), k) == Seq::new(k, |j: int| Bit(0))
            &&& all_bits(filled(s, k))
        }),
{
    let m = payload_width(n as nat);
    let k = check_count(m);
    let d = digits(n as nat, width(n as nat));
    let s = spaced(d, k);
    lemma_width_of_byte(n);
    lemma_digits_wf(n as nat, width(n as nat));
    lemma_check_count_is_least(m);
    lemma_check_count_small(m);
    lemma_spaced_slots(d, m, k);
    lemma_exp2_grows((k - 1) as nat);
    if k >= 2 {
        assert(exp2((k - 1) as nat) < (k - 1) as nat + m + 1);
    } else {
        reveal_with_fuel(exp2, 1);
    }
    lemma_spaced_bits(d, m, k);
    lemma_filled_parities_zero(s, k);
    lemma_filled_bits(s, k);
}

/// Inserting zero bits keeps every bit well formed.
proof fn lemma_spaced_bits(s: Seq<Bit>, m: nat, k: nat)
    requires
        all_bits(s),
        s.len() >= m,
        forall|i: nat| 1 <= i < k ==> exp2(i) < i + m + 1,
    ensures
        all_bits(spaced(s, k)),
    decreases k,
{
    if k > 0 {
        let u = (k - 1) as nat;
        let w = spaced(s, u);
        lemma_spaced_bits(s, m, u);
        lemma_spaced_slots(s, m, u);
        lemma_exp2_grows(u);
        let x = exp2(u) - 1;
        assert(x <= w.len()) by {
            reveal_with_fuel(exp2, 1);
            if u >= 1 {
                assert(exp2(u) < u + m + 1);
            }
        }
        w.insert_ensures(x, Bit(0));
        assert forall|i: int| 0 <= i < spaced(s, k).len() implies (#[trigger] spaced(s, k)[i]).wf() by {
            if i > x {
                assert(spaced(s, k)[i] == w[i - 1]);
            }
        }
    }
}

/// Writing parity bits of well-formed bits keeps every bit well formed.
proof fn lemma_filled_bits(s: Seq<Bit>, k: nat)
    requires
        all_bits(s),
        1 <= k <= 8,
        s.len() <= 255,
        exp2((k - 1) as nat) <= s.len(),
    ensures
        all_bits(filled(s, k)),
{
    lemma_with_parities_bits(s, parities(s, k), k, k);
}

proof fn lemma_with_parities_bits(s: Seq<Bit>, c: Seq<Bit>, k: nat, t: nat)
    requires
        all_bits(s),
        t <= k <= 8,
        1 <= k,
        c.len() == k,
        s.len() <= 255,
        exp2((k - 1) as nat) <= s.len(),
        forall|j: int| 0 <= j < t ==> (c[j].0 == parity(s, check_position(j as nat), s.len())),
    ensures
        all_bits(with_parities(s, c, t)),
    decreases t,
{
    if t > 0 {
        let w = with_parities(s, c, (t - 1) as nat);
        lemma_with_parities_bits(s, c, k, (t - 1) as nat);
        lemma_with_parities(s, c, k, (t - 1) as nat);
        lemma_exp2_grows((t - 1) as nat);
        lemma_exp2_monotone((t - 1) as nat, (k - 1) as nat);
        lemma_parity_is_bit(s, check_position((t - 1) as nat), s.len());
        let x = exp2((t - 1) as nat) - 1;
        assert forall|i: int| 0 <= i < with_parities(s, c, t).len() implies (#[trigger] with_parities(
            s,
            c,
            t,
        )[i]).wf() by {
            if i != x {
                assert(w[i].wf());
            }
        }
    }
}

/// Every parity of a codeword built from a payload byte is zero: recomputing the parity bits of
/// an untouched codeword gives all zeros.
pub proof fn lemma_encoded_parities_zero(n: u8)
    ensures
        parities(encoded(n), check_count(payload_width(n as nat))) == Seq::new(
            check_count(payload_width(n as nat)),
            |j: int| Bit(0),
        ),
{
    lemma_encoded_layout(n);
}

/// Inverting any one bit of the codeword for a nonzero payload byte makes the syndrome name
/// that bit's position.
pub proof fn lemma_encoded_single_error(n: u8, e: nat)
    requires
        n >= 1,
        1 <= e <= encoded(n).len(),
    ensures
        syndrome_of(parities(flipped(encoded(n), e), check_count(payload_width(n as nat)))) == e,
{
    let m = payload_width(n as nat);
    let k = check_count(m);
    lemma_encoded_layout(n);
    lemma_check_count_is_least(m);
    lemma_single_error_syndrome(encoded(n), k, e);
}

/// Each parity position `2^j` is among the positions that it covers, in any word that reaches it.
pub proof fn lemma_check_position_covers_itself(j: nat, n: nat)
    requires
        j < 8,
        exp2(j) <= n <= 255,
    ensures
        covered_upto(check_position(j), n).contains(check_position(j)),
    decreases n,
{
    let p = check_position(j);
    lemma_position_value(j);
    lemma_exp2_grows(j);
    if n == exp2(j) {
        assert(p & p == p) by (bit_vector);
        assert(covers(p, n as u8));
        let c = covered_upto(p, n);
        assert(c == covered_upto(p, (n - 1) as nat).push(p));
        assert(c[c.len() - 1] == p);
    } else {
        lemma_check_position_covers_itself(j, (n - 1) as nat);
        let prev = covered_upto(p, (n - 1) as nat);
        let i = choose|i: int| 0 <= i < prev.len() && prev[i] == p;
        if covers(p, n as u8) {
            assert(covered_upto(p, n)[i] == p);
        }
    }
}

} // verus!
