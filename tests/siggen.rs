use mih_rs::siggen::SigGenerator64;

#[test]
fn siggen_siggen_works() {
    let mut siggen = SigGenerator64::new();
    for k in 1..5 {
        siggen.init(0, 32, k);
        while siggen.has_next() {
            let sig = siggen.next();
            assert_eq!(sig.count_ones(), k as u32);
        }
    }
}

#[test]
fn mih_siggen_works() {
    let mut siggen = SigGenerator64::new();
    for k in 1..5 {
        siggen.init(0, 32, k);
        while siggen.has_next() {
            let sig = siggen.next();
            assert_eq!(sig.count_ones(), k as u32);
        }
    }
}

fn binomial(n: u64, k: u64) -> u64 {
    let mut r = 1u64;
    for i in 0..k {
        r = r * (n - i) / (i + 1);
    }
    r
}

#[test]
fn siggen_emits_each_pattern_once() {
    let mut siggen = SigGenerator64::new();
    for d in 1..=12usize {
        for r in 0..=d {
            siggen.init(0, d, r);
            let mut seen = std::collections::BTreeSet::new();
            let mut last: Option<u64> = None;
            while siggen.has_next() {
                let sig = siggen.next();
                assert_eq!(sig.count_ones(), r as u32);
                assert!(sig < (1u64 << d));
                if let Some(prev) = last {
                    assert!(prev < sig);
                }
                last = Some(sig);
                assert!(seen.insert(sig));
            }
            assert_eq!(seen.len() as u64, binomial(d as u64, r as u64));
        }
    }
}

#[test]
fn siggen_radius_zero_yields_base() {
    let mut siggen = SigGenerator64::new();
    siggen.init(0b1011, 8, 0);
    assert!(siggen.has_next());
    assert_eq!(siggen.next(), 0b1011);
    assert!(!siggen.has_next());
}

#[test]
fn siggen_xors_base() {
    let mut siggen = SigGenerator64::new();
    siggen.init(0b1111, 4, 1);
    let mut got = Vec::new();
    while siggen.has_next() {
        got.push(siggen.next());
    }
    assert_eq!(got, vec![0b1110, 0b1101, 0b1011, 0b0111]);
}

#[test]
fn siggen_new_has_nothing() {
    let siggen = SigGenerator64::new();
    assert!(!siggen.has_next());
}
