use hamming::{bin2dec, length, BinaryNumber, Bit};

fn bits(v: &[u8]) -> Vec<Bit> {
    v.iter().map(|&b| Bit(b)).collect()
}

#[test]
fn binary_number_creation() {
    assert_eq!(BinaryNumber::new(0).bits, vec![Bit(0)]);
    assert_eq!(BinaryNumber::new(1).bits, vec![Bit(1)]);
    assert_eq!(BinaryNumber::new(3).bits, vec![Bit(1), Bit(1)]);
    assert_eq!(BinaryNumber::new(8).bits, vec![Bit(1), Bit(0), Bit(0), Bit(0)]);
}

#[test]
fn check_bits() {
    assert_eq!(BinaryNumber::new(0b1010).check_bit_positions(), vec![1, 2, 4]);
    assert_eq!(BinaryNumber::new(0b10101).check_bit_positions(), vec![1, 2, 4, 8]);
    assert_eq!(BinaryNumber::new(0b10101010).check_bit_positions(), vec![1, 2, 4, 8]);
}

#[test]
fn covered_positions() {
    let n = BinaryNumber::new(0b10101010);
    assert_eq!(
        n.covered_positions(),
        vec![vec![1, 3, 5, 7], vec![2, 3, 6, 7], vec![4, 5, 6, 7], vec![8]]
    );
}

#[test]
fn bits_at_covered_positions() {
    let n = BinaryNumber::new(0b1010);
    assert_eq!(
        n.bits_at_covered_positions(),
        vec![vec![Bit(1), Bit(1)], vec![Bit(0), Bit(1)], vec![Bit(0)]]
    );
    let n = BinaryNumber::new(0b10101010);
    assert_eq!(
        n.bits_at_covered_positions(),
        vec![
            vec![Bit(1), Bit(1), Bit(1), Bit(1)],
            vec![Bit(0), Bit(1), Bit(0), Bit(1)],
            vec![Bit(0), Bit(1), Bit(0), Bit(1)],
            vec![Bit(0)],
        ]
    );
}

#[test]
fn num_of_check_bits() {
    assert_eq!(BinaryNumber::new(0b10).number_of_check_bits(), 3);
    assert_eq!(BinaryNumber::new(0b101).number_of_check_bits(), 3);
    assert_eq!(BinaryNumber::new(0b1010).number_of_check_bits(), 3);
    assert_eq!(BinaryNumber::new(0b10101).number_of_check_bits(), 4);
    assert_eq!(BinaryNumber::new(0b101010).number_of_check_bits(), 4);
    assert_eq!(BinaryNumber::new(0b1010101).number_of_check_bits(), 4);
    assert_eq!(BinaryNumber::new(0b10101010).number_of_check_bits(), 4);
}

#[test]
fn check_count_edges() {
    assert_eq!(BinaryNumber::new(0).number_of_check_bits(), 1);
    assert_eq!(BinaryNumber::new(1).number_of_check_bits(), 2);
    assert_eq!(BinaryNumber::new(0b1111).number_of_check_bits(), 3);
    assert_eq!(BinaryNumber::new(0b11111).number_of_check_bits(), 4);
}

#[test]
fn zero_payload_scenario() {
    let n = BinaryNumber::new(0);
    assert_eq!(n.bits, vec![Bit(0)]);
    assert_eq!(n.check_bit_positions(), vec![1]);
}

#[test]
fn make_space_inserts_zeros_at_powers_of_two() {
    let mut n = BinaryNumber::new(0b1010);
    n.make_space_for_check_bits();
    assert_eq!(n.bits, bits(&[0, 0, 1, 0, 0, 1, 0]));
    let mut n = BinaryNumber::new(0b11111);
    n.make_space_for_check_bits();
    assert_eq!(n.bits, bits(&[0, 0, 1, 0, 1, 1, 1, 0, 1]));
}

#[test]
fn compute_check_bits_on_spaced_word() {
    let mut n = BinaryNumber::new(0b1010);
    n.make_space_for_check_bits();
    assert_eq!(n.compute_check_bits(), bits(&[1, 0, 1]));
}

#[test]
fn populate_writes_parities() {
    let mut n = BinaryNumber::new(0b1010);
    n.make_space_for_check_bits();
    n.populate_check_bits();
    assert_eq!(n.bits, bits(&[1, 0, 1, 1, 0, 1, 0]));
    assert_eq!(bin2dec(n.bits.clone()), 0b1011010);
    assert_eq!(n, BinaryNumber::with_check_bits(0b1010));
}

#[test]
fn payload_1010_scenario() {
    let word = BinaryNumber::with_check_bits(0b1010);
    assert_eq!(word.number_of_check_bits(), 3);
    assert_eq!(word.check_bit_positions(), vec![1, 2, 4]);
    assert_eq!(word.bits.len(), 7);
    assert_eq!(
        word.covered_positions(),
        vec![vec![1, 3, 5, 7], vec![2, 3, 6, 7], vec![4, 5, 6, 7]]
    );
    assert_eq!(word.syndrome(), 0);
    let mut output = word.clone();
    output.flip_bit(3);
    assert_eq!(bin2dec(output.bits.clone()), 0b1001010);
    assert_eq!(output.compute_check_bits(), bits(&[1, 1, 0]));
    assert_eq!(output.syndrome(), 3);
    output.flip_bit(3);
    assert_eq!(output, word);
}

#[test]
fn zero_syndrome_every_payload() {
    for m in 0..=255u8 {
        let word = BinaryNumber::with_check_bits(m);
        let k = word.number_of_check_bits() as usize;
        assert_eq!(word.compute_check_bits(), vec![Bit(0); k]);
        assert_eq!(word.syndrome(), 0);
    }
}

#[test]
fn single_error_located_every_payload() {
    for m in 1..=255u8 {
        let word = BinaryNumber::with_check_bits(m);
        for p in 1..=word.bits.len() {
            let mut corrupted = word.clone();
            corrupted.flip_bit(p);
            assert_eq!(corrupted.syndrome() as usize, p);
        }
    }
}

#[test]
fn zero_payload_error_in_data_bit_goes_unseen() {
    let word = BinaryNumber::with_check_bits(0);
    assert_eq!(word.bits, bits(&[0, 0]));
    let mut corrupted = word.clone();
    corrupted.flip_bit(1);
    assert_eq!(corrupted.syndrome(), 1);
    let mut corrupted = word.clone();
    corrupted.flip_bit(2);
    assert_eq!(corrupted.syndrome(), 0);
}

#[test]
fn positions_agree_with_powers_up_to_length() {
    for m in 0..=255u8 {
        let word = BinaryNumber::new(m);
        let payload = if m == 0 { 0 } else { length(m) as usize };
        let n = payload + word.number_of_check_bits() as usize;
        let powers: Vec<u8> = (1..=n).filter(|q| q.is_power_of_two()).map(|q| q as u8).collect();
        assert_eq!(word.check_bit_positions(), powers);
    }
}

#[test]
fn each_position_covers_itself() {
    for m in 0..=255u8 {
        let word = BinaryNumber::with_check_bits(m);
        let groups = word.covered_positions();
        for (p, group) in word.check_bit_positions().into_iter().zip(groups) {
            assert!(group.contains(&p));
            assert!(group.iter().all(|q| q & p == p));
        }
    }
}

#[test]
fn flip_bit_inverts_one_bit() {
    let mut n = BinaryNumber::new(0b1010);
    n.flip_bit(1);
    assert_eq!(n.bits, bits(&[0, 0, 1, 0]));
    n.flip_bit(4);
    assert_eq!(n.bits, bits(&[0, 0, 1, 1]));
}

#[test]
fn flip_random_bit_is_located() {
    for m in [1u8, 0b1010, 0b10101010, 255] {
        let word = BinaryNumber::with_check_bits(m);
        for _ in 0..20 {
            let mut corrupted = word.clone();
            corrupted.flip_random_bit();
            let differing: Vec<usize> = (0..word.bits.len())
                .filter(|&i| word.bits[i] != corrupted.bits[i])
                .collect();
            assert_eq!(differing.len(), 1);
            assert_eq!(corrupted.syndrome() as usize, differing[0] + 1);
        }
    }
}
