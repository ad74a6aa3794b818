use pibary_of_babel::spigot::Spigot;
use pibary_of_babel::{BbpBellard, ByteGenerator};

const PI_DIGITS: &str = "31415926535897932384626433832795028841971693993751058209749445923078";

#[test]
fn should_generate_equivalent_pi_value_to_stdlib_constant_using_spigot() {
    let pi_const = std::f64::consts::PI.to_string();
    let mut pi_generated = Spigot::new();

    let digits_of_pi_const = "3"
        .chars()
        .chain(pi_const.chars().skip(2))
        .map(|ascii_digit| ascii_digit.to_digit(10).map(|digit| digit as u8).unwrap());

    for (idx, expected) in digits_of_pi_const.enumerate() {
        let got = pi_generated.next().unwrap();
        assert_eq!(
            &expected, &got,
            "failed at index: {}\nexpected: {}, got: {}",
            idx, &expected, &got
        )
    }
}

#[test]
fn spigot_matches_the_reference_expansion() {
    let mut spigot = Spigot::new();
    for (idx, c) in PI_DIGITS.chars().enumerate() {
        let want = c.to_digit(10).unwrap() as u8;
        assert_eq!(spigot.next(), Some(want), "index {}", idx);
    }
}

#[test]
fn extraction_agrees_with_spigot_position_by_position() {
    let mut spigot = Spigot::new();
    for p in 0..40 {
        let s = spigot.next().unwrap() as i32;
        assert_eq!(BbpBellard::<9>::get_n_position(p), s, "position {}", p);
    }
}

#[test]
fn fresh_spigots_give_the_same_digits() {
    let mut a = Spigot::new();
    let mut b = Spigot::new();
    for _ in 0..50 {
        assert_eq!(a.next(), b.next());
    }
}

#[test]
fn spigot_first_digit_is_three() {
    assert_eq!(Spigot::new().next(), Some(3));
}

#[test]
fn bytes_from_either_engine_agree_at_the_start() {
    let mut from_spigot = ByteGenerator::new(Spigot::new());
    let mut from_extraction = ByteGenerator::new(BbpBellard::<9>::new(0));
    assert_eq!(from_spigot.next(), Some(0b11_01_00_01));
    assert_eq!(from_extraction.next(), Some(0b11_01_00_01));
    // 5, 9, 2, 6 -> 01 01 10 10
    assert_eq!(from_spigot.next(), Some(0b01_01_10_10));
    let mut again = ByteGenerator::new(Spigot::new());
    assert_eq!(again.next(), Some(0b11_01_00_01));
}

#[test]
fn default_spigot_starts_at_three() {
    let mut s: Spigot = Default::default();
    assert_eq!(s.next(), Some(3));
    assert_eq!(s.next(), Some(1));
}

#[test]
fn default_byte_generator_wraps_a_fresh_source() {
    let mut bytes: ByteGenerator<Spigot> = Default::default();
    assert_eq!(bytes.next(), Some(0b11_01_00_01));
    let mut from_extraction: ByteGenerator<BbpBellard<9>> = Default::default();
    assert_eq!(from_extraction.next(), Some(0b11_01_00_01));
}
