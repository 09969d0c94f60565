use renrs::rng::{gen_random_uuid, uuid_from, Rng};

#[test]
fn next_u64_from_known_seed() {
    let mut rng = Rng::new_seed(0x853c49e6748fea9b);
    assert_eq!(rng.next_u64(), 1525594373772846989);
    assert_eq!(rng.next_u64(), 1055580183);
}

#[test]
fn next_u64_from_one_is_zero_first() {
    let mut rng = Rng::new_seed(1);
    assert_eq!(rng.next_u64(), 0);
}

#[test]
fn gen_range_zero_gives_zero_and_keeps_state() {
    let mut a = Rng::new_seed(42);
    let mut b = Rng::new_seed(42);
    assert_eq!(a.gen_range(0), 0);
    assert_eq!(a.next_u64(), b.next_u64());
}

#[test]
fn gen_range_is_next_modulo() {
    let mut a = Rng::new_seed(42);
    assert_eq!(a.gen_range(10), 0);
    let mut b = Rng::new_seed(0x853c49e6748fea9b);
    assert_eq!(b.gen_range(65535), 1525594373772846989 % 65535);
}

#[test]
fn gen_range_stays_below_max() {
    let mut rng = Rng::new_seed(7);
    for _ in 0..1000 {
        assert!(rng.gen_range(13) < 13);
    }
}

#[test]
fn from_nanos_multiplies_the_reading() {
    let mut a = Rng::from_nanos(12345);
    let mut b = Rng::new_seed(578673459679314181);
    assert_eq!(a.next_u64(), b.next_u64());
}

#[test]
fn from_nanos_zero_seeds_one() {
    let mut a = Rng::from_nanos(0);
    let mut b = Rng::new_seed(1);
    assert_eq!(a.next_u64(), b.next_u64());
    assert_eq!(a.next_u64(), b.next_u64());
}

#[test]
fn from_nanos_keeps_low_64_bits() {
    let mut a = Rng::from_nanos((1u128 << 64) + 12345);
    let mut b = Rng::from_nanos(12345);
    assert_eq!(a.next_u64(), b.next_u64());
}

#[test]
fn uuid_from_known_seed() {
    let mut rng = Rng::new_seed(0x853c49e6748fea9b);
    assert_eq!(uuid_from(&mut rng), "bcc91f02-bda7-7be0-e484-5f774a3cc802");
}

#[test]
fn random_uuid_has_the_shape() {
    let id = gen_random_uuid().unwrap();
    assert_eq!(id.len(), 36);
    for (i, c) in id.chars().enumerate() {
        if i == 8 || i == 13 || i == 18 || i == 23 {
            assert_eq!(c, '-');
        } else {
            assert!(c.is_ascii_hexdigit() && !c.is_ascii_uppercase());
        }
    }
}

#[test]
fn clock_seeded_generator_is_there() {
    assert!(Rng::new().is_some());
}
