use hamming::{bin2dec, dec2bin, length, Bit};

#[test]
fn dec2bin_cases() {
    assert_eq!(dec2bin(0), vec![Bit(0)]);
    assert_eq!(dec2bin(1), vec![Bit(1)]);
    assert_eq!(dec2bin(3), vec![Bit(1), Bit(1)]);
    assert_eq!(dec2bin(8), vec![Bit(1), Bit(0), Bit(0), Bit(0)]);
}

#[test]
fn bin2dec_cases() {
    assert_eq!(bin2dec(vec![Bit(0)]), 0);
    assert_eq!(bin2dec(vec![Bit(1)]), 1);
    assert_eq!(bin2dec(vec![Bit(1), Bit(1)]), 3);
    assert_eq!(bin2dec(vec![Bit(1), Bit(0), Bit(0), Bit(0)]), 8);
}

#[test]
fn length_cases() {
    assert_eq!(length(0b1), 1);
    assert_eq!(length(0b10), 2);
    assert_eq!(length(0b101), 3);
    assert_eq!(length(0b1010), 4);
    assert_eq!(length(0b10101), 5);
    assert_eq!(length(0b101010), 6);
    assert_eq!(length(0b1010101), 7);
    assert_eq!(length(0b10101010), 8);
}

#[test]
fn length_at_powers_of_two() {
    assert_eq!(length(0), 1);
    assert_eq!(length(4), 3);
    assert_eq!(length(7), 3);
    assert_eq!(length(8), 4);
    assert_eq!(length(128), 8);
    assert_eq!(length(255), 8);
}

#[test]
fn codec_round_trip_every_byte() {
    for n in 0..=255u8 {
        let bits = dec2bin(n);
        assert_eq!(bits.len(), length(n) as usize);
        assert!(bits[0] == Bit(1) || n == 0);
        assert_eq!(bin2dec(bits), n);
    }
}

#[test]
fn bin2dec_keeps_low_eight_bits() {
    let mut bits = vec![Bit(1)];
    bits.extend(dec2bin(0b1000_0001));
    assert_eq!(bits.len(), 9);
    assert_eq!(bin2dec(bits), 0b1000_0001);
    assert_eq!(bin2dec(vec![]), 0);
}

#[test]
fn bit_operators() {
    let mut b = Bit(1);
    b ^= Bit(1);
    assert_eq!(b, Bit(0));
    assert_eq!(Bit(1) ^ Bit(0), Bit(1));
    assert_eq!(Bit(1) ^ Bit(1), Bit(0));
    let mut c = Bit(0);
    c |= Bit(1);
    assert_eq!(c, Bit(1));
    c |= Bit(0);
    assert_eq!(c, Bit(1));
}
