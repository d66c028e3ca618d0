use lib::rng::Rng;

#[test]
fn new_keeps_seed() {
    let r = Rng::new(88172645463325252);
    assert_eq!(r.state(), 88172645463325252);
}

#[test]
fn next_bits_follows_xorshift64() {
    let mut r = Rng::new(88172645463325252);
    assert_eq!(r.next_bits(), 4271745192131522);
    assert_eq!(r.state(), 8748534153485358512);
    assert_eq!(r.next_bits(), 1484814938391960);
    assert_eq!(r.state(), 3040900993826735515);
    assert_eq!(r.next_bits(), 1686522244164179);
    assert_eq!(r.state(), 3453997556048239312);
}

#[test]
fn next_bits_from_seed_one() {
    let mut r = Rng::new(1);
    assert_eq!(r.next_bits(), 528452);
    assert_eq!(r.state(), 1082269761);
}

#[test]
fn samples_lie_in_unit_interval() {
    let mut r = Rng::new(88172645463325252);
    for _ in 0..10000 {
        let k = r.next_bits();
        assert!(k < (1u64 << 53));
        let f = k as f64 * (1.0 / 9007199254740992.0);
        assert!((0.0..1.0).contains(&f));
    }
}

#[test]
fn zero_seed_stays_zero() {
    let mut r = Rng::new(0);
    for _ in 0..100 {
        assert_eq!(r.next_bits(), 0);
        assert_eq!(r.state(), 0);
    }
}

#[test]
fn nonzero_seed_never_reaches_zero() {
    let mut r = Rng::new(1);
    for _ in 0..100000 {
        r.next_bits();
        assert_ne!(r.state(), 0);
    }
}

#[test]
fn equal_seeds_give_equal_sequences() {
    let mut a = Rng::new(12345);
    let mut b = Rng::new(12345);
    for _ in 0..1000 {
        assert_eq!(a.next_bits(), b.next_bits());
    }
}
