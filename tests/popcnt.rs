use mih_rs::bits::popcnt_64;
use mih_rs::Popcnt;
use rand::{thread_rng, Rng};

#[test]
fn popcnt8_works() {
    let mut rng = thread_rng();
    for _ in 0..100 {
        let x: u8 = rng.gen();
        assert_eq!(x.count_ones(), x.popcnt());
    }
}

#[test]
fn popcnt16_works() {
    let mut rng = thread_rng();
    for _ in 0..100 {
        let x: u16 = rng.gen();
        assert_eq!(x.count_ones(), x.popcnt());
    }
}

#[test]
fn popcnt32_works() {
    let mut rng = thread_rng();
    for _ in 0..100 {
        let x: u32 = rng.gen();
        assert_eq!(x.count_ones(), x.popcnt());
    }
}

#[test]
fn popcnt64_works() {
    let mut rng = thread_rng();
    for _ in 0..100 {
        let x: u64 = rng.gen();
        assert_eq!(x.count_ones(), x.popcnt());
    }
}

#[test]
fn popcnt128_works() {
    let mut rng = thread_rng();
    for _ in 0..100 {
        let x: u128 = rng.gen();
        assert_eq!(x.count_ones(), x.popcnt());
    }
}

#[test]
fn popcnt_64_values() {
    assert_eq!(popcnt_64(0), 0);
    assert_eq!(popcnt_64(u64::MAX), 64);
    assert_eq!(popcnt_64(0x8000_0000_0000_0001), 2);
    assert_eq!(popcnt_64(0x0f0f), 8);
}
