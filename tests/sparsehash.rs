use mih_rs::error::Error;
use mih_rs::sparsehash::Table;
use rand::{thread_rng, Rng};

#[test]
fn sparsehash_table_works_in_balk_manner() {
    let mut obj1 = vec![Vec::<u32>::default(); 1 << 10];
    let mut obj2 = Table::new(10).unwrap();
    assert_eq!(obj2.num_bits(), 10);
    assert_eq!(obj2.len(), obj1.len());

    let mut rng = thread_rng();
    let mut idxs = vec![0; 1000];

    for i in 0..1000 {
        idxs[i] = rng.gen_range(0..obj2.len());
    }

    for i in 0..1000 {
        let idx = idxs[i];
        obj2.count_insert(idx);
    }

    for i in 0..1000 {
        let idx = idxs[i];
        obj1[idx].push(i as u32);
        obj2.data_insert(idx, i as u32);
    }

    for idx in 0..obj1.len() {
        let org = &obj1[idx];
        match obj2.access(idx) {
            None => assert_eq!(org.is_empty(), true),
            Some(a) => assert_eq!(&org[..], a),
        }
    }
}

#[test]
fn sparsehash_group_works_in_balk_manner() {
    let mut rng = thread_rng();

    let mut obj1 = vec![Vec::<u32>::default(); 64];
    let mut obj2 = Table::new(6).unwrap();

    let mut idxs = vec![0; 100];
    for i in 0..100 {
        idxs[i] = rng.gen_range(0..64);
    }

    for i in 0..100 {
        let idx = idxs[i];
        obj2.count_insert(idx);
    }
    for i in 0..100 {
        let idx = idxs[i];
        obj1[idx].push(i as u32);
        obj2.data_insert(idx, i as u32);
    }

    for idx in 0..64 {
        let org = &obj1[idx];
        match obj2.access(idx) {
            None => assert_eq!(org.is_empty(), true),
            Some(a) => assert_eq!(&org[..], a),
        }
    }
}

#[test]
fn table_width_errors() {
    assert_eq!(Table::new(0).unwrap_err(), Error::InvalidTableWidth);
    assert_eq!(Table::new(64).unwrap_err(), Error::InvalidTableWidth);
    let t = Table::new(3).unwrap();
    assert_eq!(t.len(), 8);
    assert_eq!(t.get_size(), 8);
    assert_eq!(t.get_bits(), 3);
    assert_eq!(t.access(5), None);
}

#[test]
fn table_two_phase_layout() {
    let mut t = Table::new(7).unwrap();
    for &v in &[3usize, 70, 3, 5] {
        t.count_insert(v);
    }
    for (id, &v) in [3usize, 70, 3, 5].iter().enumerate() {
        t.data_insert(v, id as u32);
    }
    assert_eq!(t.access(3), Some(&[0u32, 2][..]));
    assert_eq!(t.access(5), Some(&[3u32][..]));
    assert_eq!(t.access(70), Some(&[1u32][..]));
    assert_eq!(t.access(4), None);
    assert_eq!(t.array_len(3), 2);
    assert_eq!(t.get_array_size(70), 1);
    assert_eq!(t.array_len(0), 0);
    let mut data = vec![];
    t.serialize_into(&mut data).unwrap();
    // width, two groups, then group 0: bitmap, length 6, header 0 2 3, ids 0 2 3
    assert_eq!(&data[0..8], &7u64.to_le_bytes());
    assert_eq!(&data[8..16], &2u64.to_le_bytes());
    assert_eq!(&data[16..24], &((1u64 << 3) | (1u64 << 5)).to_le_bytes());
    assert_eq!(&data[24..28], &6u32.to_le_bytes());
}

#[test]
fn sparsehash_table_works() {
    let mut obj1 = vec![Vec::<u32>::default(); 1 << 10];
    let mut obj2 = Table::new(10).unwrap();
    assert_eq!(obj2.num_bits(), 10);
    assert_eq!(obj2.len(), obj1.len());

    let mut rng = thread_rng();
    for i in 0..1000 {
        let idx = rng.gen_range(0..obj2.len());
        obj1[idx].push(i);
        obj2.insert(idx, i);
    }

    for idx in 0..obj1.len() {
        let org = &obj1[idx];
        match obj2.access(idx) {
            None => assert_eq!(org.is_empty(), true),
            Some(a) => assert_eq!(&org[..], a),
        }
    }
}

#[test]
fn table_io_works() {
    let mut rng = thread_rng();
    let mut table = Table::new(10).unwrap();

    for i in 0..1000 {
        let idx = rng.gen_range(0..table.len());
        table.insert(idx, i);
    }

    let mut data = vec![];
    table.serialize_into(&mut data).unwrap();
    let other = Table::deserialize_from(&data[..]).unwrap();

    assert_eq!(table, other);
}

#[test]
fn sparsehash_group_works() {
    let mut rng = thread_rng();

    let mut obj1 = vec![Vec::<u32>::default(); 64];
    let mut obj2 = Table::new(6).unwrap();

    for i in 0..100 {
        let idx = rng.gen_range(0..64);
        obj1[idx].push(i);
        obj2.insert(idx, i);
    }

    for idx in 0..64 {
        let org = &obj1[idx];
        match obj2.access(idx) {
            None => assert_eq!(org.is_empty(), true),
            Some(a) => assert_eq!(&org[..], a),
        }
    }
}

#[test]
fn group_io_works() {
    let mut rng = thread_rng();
    let mut group = Table::new(6).unwrap();

    for i in 0..100 {
        let idx = rng.gen_range(0..64);
        group.insert(idx, i);
    }

    let mut data = vec![];
    group.serialize_into(&mut data).unwrap();
    let other = Table::deserialize_from(&data[..]).unwrap();
    assert_eq!(group, other);
}

#[test]
fn insert_and_two_phase_agree() {
    let slots = [5usize, 9, 5, 200, 9, 5];
    let mut one = Table::new(8).unwrap();
    let mut two = Table::new(8).unwrap();
    for &v in &slots {
        two.count_insert(v);
    }
    for (id, &v) in slots.iter().enumerate() {
        one.insert(v, id as u32);
        two.data_insert(v, id as u32);
    }
    assert_eq!(one, two);
    assert_eq!(one.access(5), Some(&[0u32, 2, 5][..]));
    assert_eq!(one.access(200), Some(&[3u32][..]));
}

#[test]
fn table_deserialize_rejects_bad_layout() {
    let mut t = Table::new(3).unwrap();
    t.insert(2, 7);
    let mut data = vec![];
    t.serialize_into(&mut data).unwrap();
    assert_eq!(Table::deserialize_from(&data[..]).unwrap(), t);
    // a slot beyond the eight a 3-bit table has
    let mut wide = data.clone();
    wide[16 + 1] = 1;
    assert_eq!(Table::deserialize_from(&wide[..]).unwrap_err(), Error::Io);
    // truncated
    assert_eq!(Table::deserialize_from(&data[..data.len() - 1]).unwrap_err(), Error::Io);
    // zero width
    let mut zero = data.clone();
    zero[0] = 0;
    assert_eq!(Table::deserialize_from(&zero[..]).unwrap_err(), Error::Io);
}
