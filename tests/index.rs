use mih_rs::index::Index;
use mih_rs::ls;
use mih_rs::CodeInt;
use rand::distributions::{Distribution, Standard};
use rand::{thread_rng, Rng};
use std::collections::BTreeSet;

fn gen_random_codes<T>(size: usize) -> Vec<T>
where
    Standard: Distribution<T>,
{
    let mut rng = thread_rng();
    let mut codes: Vec<T> = Vec::with_capacity(size);
    for _ in 0..size {
        codes.push(rng.gen::<T>());
    }
    codes
}

fn naive_topk_search<T: CodeInt>(codes: &[T], qcode: T, topk: usize) -> Vec<u32> {
    let mut cands = ls::exhaustive_search(codes, qcode);
    cands.sort_by_key(|x| x.1);

    let max_dist = cands[topk - 1].1;

    let mut i = 0;
    let mut answers = Vec::new();

    while i < cands.len() && cands[i].1 <= max_dist {
        answers.push(cands[i].0);
        i += 1;
    }
    answers
}

fn do_range_search<T: CodeInt + std::fmt::Debug + PartialEq>(codes: Vec<T>) {
    let index = Index::new(codes).unwrap();
    let mut searcher = index.range_searcher();

    for rad in 0..6 {
        for qi in (0..10000).step_by(100) {
            let qcode = index.codes()[qi];
            let ans1 = ls::range_search(index.codes(), qcode, rad);
            let ans2 = searcher.run(qcode, rad);
            assert_eq!(ans1, ans2);
        }
    }
}

fn do_topk_search<T: CodeInt + std::fmt::Debug + PartialEq>(codes: Vec<T>) {
    let index = Index::new(codes).unwrap();
    let mut searcher = index.topk_searcher();

    for topk in &[1, 10, 100] {
        for qi in (0..10000).step_by(100) {
            let qcode = index.codes()[qi];
            let ans1 = naive_topk_search(index.codes(), qcode, *topk);
            let ans2 = searcher.run(qcode, *topk);
            assert_eq!(ans2.len(), *topk);
            let set1: BTreeSet<u32> = ans1.into_iter().collect();
            let set2: BTreeSet<u32> = ans2.into_iter().cloned().collect();
            assert_eq!(set2.is_subset(&set1), true);
        }
    }
}

#[test]
fn range_search_u8_works() {
    let codes = gen_random_codes::<u8>(10000);
    do_range_search(codes);
}

#[test]
fn range_search_u16_works() {
    let codes = gen_random_codes::<u16>(10000);
    do_range_search(codes);
}

#[test]
fn range_search_u32_works() {
    let codes = gen_random_codes::<u32>(10000);
    do_range_search(codes);
}

#[test]
fn range_search_u64_works() {
    let codes = gen_random_codes::<u64>(10000);
    do_range_search(codes);
}

#[test]
fn topk_search_u8_works() {
    let codes = gen_random_codes::<u8>(10000);
    do_topk_search(codes);
}

#[test]
fn topk_search_u16_works() {
    let codes = gen_random_codes::<u16>(10000);
    do_topk_search(codes);
}

#[test]
fn topk_search_u32_works() {
    let codes = gen_random_codes::<u32>(10000);
    do_topk_search(codes);
}

#[test]
fn topk_search_u64_works() {
    let codes = gen_random_codes::<u64>(10000);
    do_topk_search(codes);
}

#[test]
fn serialize_u8_works() {
    let codes = gen_random_codes::<u8>(10000);
    let index = Index::new(codes).unwrap();

    let mut data = vec![];
    index.serialize_into(&mut data).unwrap();
    let other = Index::<u8>::deserialize_from(&data[..]).unwrap();

    assert_eq!(index, other);
}

#[test]
fn serialize_u16_works() {
    let codes = gen_random_codes::<u16>(10000);
    let index = Index::new(codes).unwrap();

    let mut data = vec![];
    index.serialize_into(&mut data).unwrap();
    let other = Index::<u16>::deserialize_from(&data[..]).unwrap();

    assert_eq!(index, other);
}

#[test]
fn serialize_u32_works() {
    let codes = gen_random_codes::<u32>(10000);
    let index = Index::new(codes).unwrap();

    let mut data = vec![];
    index.serialize_into(&mut data).unwrap();
    let other = Index::<u32>::deserialize_from(&data[..]).unwrap();

    assert_eq!(index, other);
}

#[test]
fn serialize_u64_works() {
    let codes = gen_random_codes::<u64>(10000);
    let index = Index::new(codes).unwrap();

    let mut data = vec![];
    index.serialize_into(&mut data).unwrap();
    let other = Index::<u64>::deserialize_from(&data[..]).unwrap();

    assert_eq!(index, other);
}

#[test]
fn range_search_works() {
    let codes = gen_random_codes::<u64>(10000);
    let index = Index::new(codes.clone()).unwrap();
    for rad in 0..6 {
        for qi in (0..10000).step_by(100) {
            let qcode = codes[qi];
            let ans1 = ls::range_search(&codes, qcode, rad);
            let ans2 = index.range_search(qcode, rad);
            assert_eq!(ans1, ans2);
        }
    }
}

#[test]
fn topk_search_works() {
    let codes = gen_random_codes::<u64>(10000);
    let index = Index::new(codes.clone()).unwrap();
    for topk in &[1, 10, 100] {
        for qi in (0..10000).step_by(100) {
            let qcode = codes[qi];
            let ans1 = naive_topk_search(&codes, qcode, *topk);
            let ans2 = index.topk_search(qcode, *topk);
            assert_eq!(ans2.len(), *topk);
            let set1: BTreeSet<u32> = ans1.into_iter().collect();
            let set2: BTreeSet<u32> = ans2.into_iter().collect();
            assert_eq!(set2.is_subset(&set1), true);
        }
    }
}

#[test]
fn new_with_blocks_copies_codes() {
    let codes = gen_random_codes::<u32>(1000);
    let index = Index::new_with_blocks(&codes, 4).unwrap();
    assert_eq!(index.codes(), &codes[..]);
    assert_eq!(index.num_blocks(), 4);
    for qi in (0..1000).step_by(50) {
        let q = codes[qi];
        assert_eq!(index.range_search(q, 3), ls::range_search(&codes, q, 3));
    }
}
