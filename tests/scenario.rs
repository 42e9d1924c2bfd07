use mih_rs::error::Error;
use mih_rs::index::Index;
use mih_rs::{hamdist, ls};

fn db() -> Vec<u64> {
    vec![
        0b1111111111111111111111011111111111111111111111111011101111111111,
        0b1111111111111111111111111111111101111111111011111111111111111111,
        0b1111111011011101111111111111111101111111111111111111111111111111,
        0b1111111111111101111111111111111111111000111111111110001111111110,
        0b1101111111111111111111111111111111111111111111111111111111111111,
        0b1111111111111111101111111011111111111111111101001110111111111111,
        0b1111111111111111111111111111111111101111111111111111011111111111,
        0b1110110101011011011111111111111101111111111111111000011111111111,
    ]
}

const Q: u64 = 0b1111111111111111111111111111111111111111111111111111111111111111;

#[test]
fn readme_range_search() {
    let index = Index::new(db()).unwrap();
    let mut searcher = index.range_searcher();
    let answers = searcher.run(Q, 2);
    assert_eq!(answers, vec![1, 4, 6]);
}

#[test]
fn readme_topk_search() {
    let index = Index::new(db()).unwrap();
    let mut searcher = index.topk_searcher();
    let answers = searcher.run(Q, 4);
    assert_eq!(answers, vec![4, 1, 6, 0]);
}

#[test]
fn readme_serialization() {
    let index = Index::new(db()).unwrap();
    let mut data = vec![];
    index.serialize_into(&mut data).unwrap();
    let other = Index::<u64>::deserialize_from(&data[..]).unwrap();
    assert_eq!(index, other);
    let mut again = vec![];
    other.serialize_into(&mut again).unwrap();
    assert_eq!(data, again);
}

#[test]
fn readme_codes_kept() {
    let index = Index::new(db()).unwrap();
    assert_eq!(index.codes(), &db()[..]);
}

#[test]
fn spec_scenario_with_leading_code() {
    let mut codes = vec![0xFFFFFFFF_FFFFEFFFu64];
    codes.extend(db());
    let index = Index::new(codes.clone()).unwrap();
    let ls_ans = ls::range_search(&codes, Q, 2);
    assert_eq!(index.range_searcher().run(Q, 2), &ls_ans[..]);
    assert_eq!(index.topk_search(Q, 1), vec![0]);
}

#[test]
fn identical_codes() {
    let codes = vec![0x5au8; 20];
    let index = Index::new(codes).unwrap();
    assert_eq!(index.topk_search(0x5a, 3), vec![0, 1, 2]);
    assert_eq!(index.range_search(0x5a, 0), (0..20).collect::<Vec<u32>>());
}

#[test]
fn single_code() {
    let index = Index::new(vec![0x1234u16]).unwrap();
    assert_eq!(index.range_search(0x1234, 0), vec![0]);
    assert_eq!(index.topk_search(0xffff, 1), vec![0]);
    assert_eq!(index.num_blocks(), 16);
}

#[test]
fn topk_larger_than_database() {
    let index = Index::new(vec![0u8, 0xff, 0x0f]).unwrap();
    assert_eq!(index.topk_search(0, 10), vec![0, 2, 1]);
}

#[test]
fn build_errors() {
    assert_eq!(Index::<u32>::new(vec![]).unwrap_err(), Error::EmptyInput);
    assert_eq!(Index::with_blocks(vec![1u8, 2], 1).unwrap_err(), Error::InvalidBlocks);
    assert_eq!(Index::with_blocks(vec![1u8, 2], 9).unwrap_err(), Error::InvalidBlocks);
    assert!(Index::with_blocks(vec![1u8, 2], 8).is_ok());
    assert_eq!(Index::<u8>::new_with_blocks(&[], 2).unwrap_err(), Error::EmptyInput);
}

#[test]
fn auto_blocks() {
    let codes: Vec<u64> = (0..10000u64).collect();
    let index = Index::new(codes).unwrap();
    assert_eq!(index.num_blocks(), 5);
    assert_eq!(index.get_blocks(), 5);
    let small: Vec<u8> = (0..=255u8).collect();
    assert_eq!(Index::new(small).unwrap().num_blocks(), 2);
}

#[test]
fn deserialize_rejects_bad_input() {
    let index = Index::new(db()).unwrap();
    let mut data = vec![];
    index.serialize_into(&mut data).unwrap();
    assert_eq!(Index::<u64>::deserialize_from(&data[..data.len() - 1]).unwrap_err(), Error::Io);
    let mut longer = data.clone();
    longer.push(0);
    assert_eq!(Index::<u64>::deserialize_from(&longer[..]).unwrap_err(), Error::Io);
    let mut changed = data.clone();
    let last = changed.len() - 1;
    changed[last] ^= 1;
    assert_eq!(Index::<u64>::deserialize_from(&changed[..]).unwrap_err(), Error::Io);
    assert_eq!(Index::<u64>::deserialize_from(&[]).unwrap_err(), Error::Io);
}

#[test]
fn serialized_layout() {
    let index = Index::with_blocks(vec![0x0fu8, 0xf0], 2).unwrap();
    let mut data = vec![];
    index.serialize_into(&mut data).unwrap();
    assert_eq!(&data[0..8], &2u64.to_le_bytes());
    assert_eq!(&data[8..16], &2u64.to_le_bytes());
    assert_eq!(&data[16..18], &[0x0f, 0xf0]);
    assert_eq!(&data[18..26], &2u64.to_le_bytes());
    // block 0: four bits, one group, codes 0 and 1 in slots 15 and 0
    assert_eq!(&data[26..34], &4u64.to_le_bytes());
    assert_eq!(&data[34..42], &1u64.to_le_bytes());
    let bitmap = (1u64 << 15) | 1;
    assert_eq!(&data[42..50], &bitmap.to_le_bytes());
    assert_eq!(&data[50..54], &5u32.to_le_bytes());
    let words: Vec<u32> = (0..5).map(|i| u32::from_le_bytes([data[54 + 4 * i], data[55 + 4 * i], data[56 + 4 * i], data[57 + 4 * i]])).collect();
    assert_eq!(words, vec![0, 1, 2, 1, 0]);
    let n = data.len();
    let begs: Vec<u64> = (0..3).map(|i| u64::from_le_bytes(data[n - 24 + 8 * i..n - 16 + 8 * i].try_into().unwrap())).collect();
    assert_eq!(begs, vec![0, 4, 8]);
    assert_eq!(&data[n - 34..n - 32], &[0x0f, 0x0f]);
}

#[test]
fn hamdist_counts_differing_bits() {
    assert_eq!(hamdist(0b1010u8, 0b0110u8), 2);
    assert_eq!(hamdist(0u64, u64::MAX), 64);
    assert_eq!(hamdist(0xffffu16, 0xffffu16), 0);
    assert_eq!(hamdist(0x8000_0001u32, 1u32), 1);
}

#[test]
fn linear_scan_oracle() {
    let codes = vec![0b0000u8, 0b0001, 0b0011, 0b0111];
    assert_eq!(ls::range_search(&codes, 0, 1), vec![0, 1]);
    let mut buf = vec![9, 9, 9];
    ls::range_search_with_buf(&codes, 0b0111, 0, &mut buf);
    assert_eq!(buf, vec![3]);
    assert_eq!(ls::exhaustive_search(&codes, 0b0001), vec![(0, 1), (1, 0), (2, 1), (3, 2)]);
    let mut pairs = vec![(7, 7)];
    ls::exhaustive_search_with_buf(&codes, 0, &mut pairs);
    assert_eq!(pairs, vec![(0, 0), (1, 1), (2, 2), (3, 3)]);
}

#[test]
fn range_search_with_buf_reuses_buffer() {
    let index = Index::new(db()).unwrap();
    let mut buf = vec![42, 43];
    index.range_search_with_buf(Q, 2, &mut buf);
    assert_eq!(buf, vec![1, 4, 6]);
    index.topk_search_with_buf(Q, 4, &mut buf);
    assert_eq!(buf, vec![4, 1, 6, 0]);
}

#[test]
fn large_radius_returns_everything() {
    let index = Index::new(db()).unwrap();
    assert_eq!(index.range_search(Q, 64), (0..8).collect::<Vec<u32>>());
    assert_eq!(index.range_search(Q, usize::MAX), (0..8).collect::<Vec<u32>>());
}

#[test]
fn builds_and_queries_are_deterministic() {
    let codes: Vec<u32> = (0..5000u32).map(|i| i.wrapping_mul(2654435761)).collect();
    let a = Index::new(codes.clone()).unwrap();
    let b = Index::new(codes.clone()).unwrap();
    let mut da = vec![];
    let mut db = vec![];
    a.serialize_into(&mut da).unwrap();
    b.serialize_into(&mut db).unwrap();
    assert_eq!(da, db);
    let mut sa = a.topk_searcher();
    let mut sb = b.topk_searcher();
    let mut ra = a.range_searcher();
    let mut rb = b.range_searcher();
    for qi in (0..5000).step_by(250) {
        let q = codes[qi];
        assert_eq!(sa.run(q, 10).to_vec(), sb.run(q, 10).to_vec());
        assert_eq!(ra.run(q, 4).to_vec(), rb.run(q, 4).to_vec());
    }
}

#[test]
fn topk_closer_ids_are_never_dropped() {
    let codes: Vec<u16> = (0..3000u32).map(|i| (i.wrapping_mul(40503) >> 3) as u16).collect();
    let index = Index::new(codes.clone()).unwrap();
    let mut searcher = index.topk_searcher();
    for qi in (0..3000).step_by(97) {
        let q = codes[qi];
        let got = searcher.run(q, 25).to_vec();
        assert_eq!(got.len(), 25);
        let worst = got.iter().map(|&v| hamdist(codes[v as usize], q)).max().unwrap();
        for (u, &c) in codes.iter().enumerate() {
            if hamdist(c, q) < worst {
                assert!(got.contains(&(u as u32)));
            }
        }
        for w in got.windows(2) {
            assert!(hamdist(codes[w[0] as usize], q) <= hamdist(codes[w[1] as usize], q));
        }
    }
}

#[test]
fn read_back_index_answers_alike() {
    let codes: Vec<u64> = (0..3000u64).map(|i| i.wrapping_mul(0x9E37_79B9_7F4A_7C15)).collect();
    let index = Index::new(codes.clone()).unwrap();
    let mut data = vec![];
    index.serialize_into(&mut data).unwrap();
    let other = Index::<u64>::deserialize_from(&data[..]).unwrap();
    let mut a = index.topk_searcher();
    let mut b = other.topk_searcher();
    for qi in (0..3000).step_by(150) {
        let q = codes[qi] ^ 0x0101;
        assert_eq!(a.run(q, 7).to_vec(), b.run(q, 7).to_vec());
        assert_eq!(index.topk_search(q, 7), other.topk_search(q, 7));
        let mut buf = vec![1, 2, 3, 4, 5, 6, 7, 8, 9];
        index.topk_search_with_buf(q, 7, &mut buf);
        assert_eq!(buf, index.topk_search(q, 7));
    }
}

#[test]
fn counting_leaves_other_slots_empty() {
    let mut t = mih_rs::Table::new(8).unwrap();
    t.count_insert(3);
    t.count_insert(200);
    assert_eq!(t.access(4), None);
    assert_eq!(t.array_len(199), 0);
}
