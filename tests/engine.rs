use pibary_of_babel::bbp::{big_n_of, get_next_n_dec_digits, max_power};
use pibary_of_babel::digits::split_block;
use pibary_of_babel::modular::{mod_inverse, mul_mod, pow_mod};
use pibary_of_babel::{pack_digits, BbpBellard, ByteGenerator, MaybePrime, Primes};

#[test]
fn should_generate_n_digit_of_pi_with_bbp_algorithm() {
    let expected = [9u8, 2, 1, 6, 4, 2, 0, 1, 9];
    let mut generator = BbpBellard::<9>::new(990);
    for (idx, want) in expected.iter().enumerate() {
        let got = generator.next();
        assert_eq!(Some(*want), got, "failed at {}, wanted", idx + 990);
    }
}

#[test]
fn should_return_true_on_primes() {
    for value in [0, 1, 728] {
        assert!(!value.is_prime(), "{} is not a prime number", value);
    }
    for value in [2, 3, 5, 7, 11, 13, 17, 19, 23, 727] {
        assert!(value.is_prime(), "{} is a prime number", value);
    }
}

#[test]
fn should_find_next_prime() {
    let mut primes = Primes::new(1i32);
    let mut first_five = Vec::new();
    for _ in 0..5 {
        first_five.push(primes.next().unwrap());
    }
    assert_eq!(&first_five, &[2, 3, 5, 7, 11]);
    assert_eq!(Primes::new(728i32).next(), Some(733));
}

#[test]
fn wide_primality_agrees_with_narrow() {
    for value in 0..2000i64 {
        assert_eq!(value.is_prime(), (value as i32).is_prime());
    }
    assert!(1_000_000_007i64.is_prime());
    assert!(!1_000_000_008i64.is_prime());
    assert!(!(-7i64).is_prime());
}

#[test]
fn wide_prime_cursor_walks_primes() {
    let mut primes = Primes::new(3i64);
    assert_eq!(primes.next(), Some(3));
    assert_eq!(primes.next(), Some(5));
    assert_eq!(Primes::new(-10i64).next(), Some(2));
    assert_eq!(Primes::new(i32::MAX).next(), None);
}

#[test]
fn modular_helpers_give_exact_values() {
    assert_eq!(mul_mod(123, 456, 1000), 88);
    assert_eq!(pow_mod(10, 3, 7), 6);
    assert_eq!(pow_mod(10, 1, 7), 3);
    assert_eq!(pow_mod(10, 0, 7), 1);
    assert_eq!(mul_mod(-3, 5, 7), -1);
    assert_eq!(mul_mod(3, -5, 7), -1);
    assert_eq!(mul_mod(-4, -5, 7), 6);
    assert_eq!(pow_mod(2, 0, 5), 1);
    assert_eq!(pow_mod(3, 200, 1_000_003), {
        let mut x: i64 = 1;
        for _ in 0..200 {
            x = x * 3 % 1_000_003;
        }
        x
    });
    assert_eq!(mod_inverse(3, 7), 5);
    assert_eq!(mod_inverse(10, 27), 19);
    assert_eq!(mod_inverse(1, 2), 1);
}

#[test]
fn working_precision_and_prime_powers() {
    assert_eq!(big_n_of(990), 3355);
    assert_eq!(big_n_of(0), 66);
    assert_eq!(max_power(3, 20), (2, 9));
    assert_eq!(max_power(7, 7), (1, 7));
    assert_eq!(max_power(2, 1024), (10, 1024));
}

#[test]
fn position_zero_is_three_on_every_path() {
    assert_eq!(BbpBellard::<9>::get_n_position(0), 3);
    let mut g = BbpBellard::<9>::new(0);
    assert_eq!(g.next(), Some(3));
    let mut g1 = BbpBellard::<1>::new(0);
    assert_eq!(g1.next(), Some(3));
}

#[test]
fn single_positions_match_the_expansion() {
    let expected = [3, 1, 4, 1, 5, 9, 2, 6, 5, 3, 5];
    for (p, want) in expected.iter().enumerate() {
        assert_eq!(BbpBellard::<9>::get_n_position(p as i32), *want);
    }
    assert_eq!(get_next_n_dec_digits(1, 5), 14159);
    assert_eq!(BbpBellard::<9>::get_n_position(5), 9);
    assert_eq!(BbpBellard::<9>::get_n_position(990), 9);
    assert_eq!(BbpBellard::<3>::get_n_position(990), 9);
    assert_eq!(get_next_n_dec_digits(990, 9), 921642019);
    assert_eq!(get_next_n_dec_digits(990, 1), 9);
}

#[test]
fn stream_from_start_and_fresh_instances_agree() {
    let mut a = BbpBellard::<9>::new(0);
    let mut b = BbpBellard::<9>::new(0);
    let mut got = Vec::new();
    for _ in 0..12 {
        let x = a.next();
        assert_eq!(x, b.next());
        got.push(x.unwrap());
    }
    // After a block of nine digits the position moves on by ten: the digit at
    // position 10 is passed over.
    assert_eq!(got, vec![3, 1, 4, 1, 5, 9, 2, 6, 5, 3, 8, 9]);
}

#[test]
fn past_the_last_position_the_stream_ends() {
    let mut g = BbpBellard::<9>::new(400_000_001);
    assert_eq!(g.next(), None);
    let mut z = BbpBellard::<0>::new(5);
    assert_eq!(z.next(), None);
}

#[test]
fn digits_split_most_significant_first() {
    assert_eq!(split_block(921642019, 9), vec![9, 2, 1, 6, 4, 2, 0, 1, 9]);
    assert_eq!(split_block(0, 1), vec![0]);
    assert_eq!(split_block(42, 5), vec![0, 0, 0, 4, 2]);
    assert_eq!(split_block(10, 2), vec![1, 0]);
    assert_eq!(split_block(7, 0), Vec::<u8>::new());
}

#[test]
fn bytes_pack_low_bits_of_four_digits() {
    assert_eq!(pack_digits(&vec![3, 1, 4, 1]), 0b11_01_00_01);
    assert_eq!(pack_digits(&vec![9, 9, 9, 9]), 0b01_01_01_01);
    assert_eq!(pack_digits(&vec![]), 0);
    let mut bytes = ByteGenerator::new(BbpBellard::<9>::new(0));
    assert_eq!(bytes.next(), Some(0b11_01_00_01));
    let mut again = ByteGenerator::new(BbpBellard::<9>::new(0));
    let (byte, digits) = again.next_with_digits();
    assert_eq!(byte, 0b11_01_00_01);
    assert_eq!(digits, vec![3, 1, 4, 1]);
    assert_eq!(bytes.next(), again.next());
}

#[test]
fn default_engine_starts_at_three() {
    let mut g: BbpBellard<9> = Default::default();
    assert_eq!(g.next(), Some(3));
    assert_eq!(g.next(), Some(1));
}
