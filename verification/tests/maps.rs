//! Map stores.

use ebpf_lab::vm::maps::{build_stores, from_hex, to_hex, UpdateFlags};
use ebpf_lab::vm::{MapDesc, MapError, MapStore, MapType};

fn hash_desc() -> MapDesc {
    MapDesc {
        fd: 1,
        map_type: MapType::Hash,
        key_size: 4,
        value_size: 8,
        max_entries: 2,
        initial: Vec::new(),
    }
}

#[test]
fn hash_crud() {
    let mut m = MapStore::new(hash_desc()).unwrap();
    assert!(m.is_empty());
    m.update(&[1, 0, 0, 0], &[10, 0, 0, 0, 0, 0, 0, 0], 0).unwrap();
    assert_eq!(m.len(), 1);
    assert_eq!(m.lookup(&[1, 0, 0, 0]).unwrap(), Some([10, 0, 0, 0, 0, 0, 0, 0].as_slice()));
    assert_eq!(m.lookup(&[9, 0, 0, 0]).unwrap(), None);
    m.delete(&[1, 0, 0, 0]).unwrap();
    assert!(m.is_empty());
    assert_eq!(m.delete(&[1, 0, 0, 0]), Err(MapError::KeyNotFound));
}

#[test]
fn hash_full_and_flags() {
    let mut m = MapStore::new(hash_desc()).unwrap();
    m.update(&[1, 0, 0, 0], &[0; 8], 0).unwrap();
    m.update(&[2, 0, 0, 0], &[0; 8], 0).unwrap();
    assert_eq!(m.update(&[3, 0, 0, 0], &[0; 8], 0), Err(MapError::Full { max_entries: 2 }));
    assert_eq!(m.update(&[1, 0, 0, 0], &[0; 8], 1), Err(MapError::KeyExists));
    assert_eq!(m.update(&[9, 0, 0, 0], &[0; 8], 2), Err(MapError::KeyNotFound));
    assert_eq!(m.update(&[1, 0, 0, 0], &[1; 8], 0).unwrap(), ());
    assert_eq!(m.lookup(&[1, 0, 0, 0]).unwrap(), Some([1; 8].as_slice()));
}

#[test]
fn array_index_and_zero() {
    let desc = MapDesc { fd: 2, map_type: MapType::Array, ..hash_desc() };
    let mut m = MapStore::new(desc).unwrap();
    // Slots start zeroed; key bytes are the LE index.
    assert_eq!(m.lookup(&[1, 0, 0, 0]).unwrap(), Some([0; 8].as_slice()));
    m.update(&[1, 0, 0, 0], &[42; 8], 0).unwrap();
    assert_eq!(m.lookup(&[1, 0, 0, 0]).unwrap(), Some([42; 8].as_slice()));
    m.delete(&[1, 0, 0, 0]).unwrap();
    assert_eq!(m.lookup(&[1, 0, 0, 0]).unwrap(), Some([0; 8].as_slice()));
    // Out-of-range index reports Full (at capacity).
    assert_eq!(m.lookup(&[9, 0, 0, 0]), Err(MapError::Full { max_entries: 2 }));
}

#[test]
fn lru_evicts_oldest() {
    let desc = MapDesc { fd: 3, map_type: MapType::LruArray, ..hash_desc() };
    let mut m = MapStore::new(desc).unwrap();
    m.update(&[1, 0, 0, 0], &[0; 8], 0).unwrap();
    m.update(&[2, 0, 0, 0], &[0; 8], 0).unwrap();
    // Touch key 1 so key 2 is oldest.
    let _ = m.lookup(&[1, 0, 0, 0]).unwrap();
    m.update(&[3, 0, 0, 0], &[0; 8], 0).unwrap();
    assert_eq!(m.lookup(&[2, 0, 0, 0]).unwrap(), None);
    assert!(m.lookup(&[1, 0, 0, 0]).unwrap().is_some());
    assert_eq!(m.len(), 2);
}

#[test]
fn rejects_bad_descriptors() {
    assert!(matches!(
        MapStore::new(MapDesc { fd: 0, ..hash_desc() }),
        Err(MapError::BadFd { .. })
    ));
    assert!(matches!(
        MapStore::new(MapDesc { key_size: 0, ..hash_desc() }),
        Err(MapError::InvalidDesc(_))
    ));
    assert!(matches!(
        MapStore::new(MapDesc { fd: 2, map_type: MapType::Array, key_size: 8, ..hash_desc() }),
        Err(MapError::InvalidDesc(_))
    ));
    let mut m = MapStore::new(hash_desc()).unwrap();
    assert_eq!(
        m.update(&[1, 0], &[0; 8], 0),
        Err(MapError::KeySizeMismatch { expected: 4, got: 2 })
    );
    assert_eq!(
        m.update(&[1, 0, 0, 0], &[0; 4], 0),
        Err(MapError::ValueSizeMismatch { expected: 8, got: 4 })
    );
}

#[test]
fn hex_and_initial() {
    assert_eq!(from_hex("01000000").unwrap(), vec![1, 0, 0, 0]);
    assert!(from_hex("abc").is_err());
    assert!(from_hex("zz").is_err());
    assert_eq!(to_hex(&[1, 0, 0, 0]), "01000000");
    assert_eq!(to_hex(&[10, 0, 0, 0, 0, 0, 0, 0]), "0A00000000000000");

    let initial = vec![(vec![1, 0, 0, 0], vec![10, 0, 0, 0, 0, 0, 0, 0])];
    let desc = MapDesc { initial, ..hash_desc() };
    let mut m = MapStore::new(desc).unwrap();
    assert_eq!(m.lookup(&[1, 0, 0, 0]).unwrap(), Some([10, 0, 0, 0, 0, 0, 0, 0].as_slice()));
}

#[test]
fn display_forms() {
    assert_eq!(MapType::Hash.to_string(), "hash");
    assert_eq!(MapType::Array.to_string(), "array");
    assert_eq!(MapType::LruArray.to_string(), "lru_array");
    assert_eq!(hash_desc().to_string(), "fd 1 (hash: 4B keys, 8B values, cap 2)");
}

#[test]
fn len_and_capacity() {
    let m = MapStore::new(hash_desc()).unwrap();
    assert_eq!(m.len(), 0);
    assert_eq!(m.capacity(), 2);
    assert!(m.is_empty());
    let desc = MapDesc { fd: 2, map_type: MapType::Array, ..hash_desc() };
    let a = MapStore::new(desc).unwrap();
    assert_eq!(a.len(), 2);
    assert_eq!(a.capacity(), 2);
    assert!(!a.is_empty());
}

#[test]
fn build_stores_table() {
    let table = build_stores(vec![hash_desc()]).unwrap();
    assert_eq!(table.len(), 2);
    assert!(table[0].is_none());
    assert!(table[1].is_some());
    assert!(matches!(
        build_stores(vec![hash_desc(), hash_desc()]),
        Err(MapError::DuplicateFd { fd: 1 })
    ));
    assert!(build_stores(vec![]).unwrap().is_empty());
}

#[test]
fn update_then_lookup() {
    let mut m = MapStore::new(MapDesc { max_entries: 64, ..hash_desc() }).unwrap();
    for k in [0u32, 1, 77, 0xffff_ffff] {
        let v = u64::from(k).wrapping_mul(0x9e37_79b9_7f4a_7c15).to_le_bytes();
        m.update(&k.to_le_bytes(), &v, 0).unwrap();
        assert_eq!(m.lookup(&k.to_le_bytes()).unwrap(), Some(v.as_slice()));
    }
}

#[test]
fn delete_then_miss() {
    let mut m = MapStore::new(MapDesc { max_entries: 64, ..hash_desc() }).unwrap();
    let key = 9u32.to_le_bytes();
    m.update(&key, &[0; 8], 0).unwrap();
    m.delete(&key).unwrap();
    assert_eq!(m.lookup(&key).unwrap(), None);
    assert_eq!(m.delete(&key), Err(MapError::KeyNotFound));
}

#[test]
fn lru_keeps_its_capacity() {
    let desc = MapDesc { map_type: MapType::LruArray, max_entries: 3, ..hash_desc() };
    let mut m = MapStore::new(desc).unwrap();
    for k in [1u32, 2, 3, 1, 4, 5, 5, 6] {
        m.update(&k.to_le_bytes(), &[0; 8], 0).unwrap();
        assert!(m.len() <= 3);
        assert!(m.lookup(&k.to_le_bytes()).unwrap().is_some());
    }
    assert_eq!(m.lookup(&1u32.to_le_bytes()).unwrap(), None);
}

#[test]
fn update_flags() {
    assert_eq!(UpdateFlags::from_word(0), Ok(UpdateFlags::Any));
    assert_eq!(UpdateFlags::from_word(1), Ok(UpdateFlags::NoExist));
    assert_eq!(UpdateFlags::from_word(2), Ok(UpdateFlags::Exist));
    assert!(matches!(UpdateFlags::from_word(3), Err(MapError::InvalidDesc(_))));
}

#[test]
fn hex_goes_both_ways() {
    let all: Vec<u8> = (0..=255).collect();
    assert_eq!(from_hex(&to_hex(&all)).unwrap(), all);
    assert!(matches!(from_hex("0g"), Err(MapError::BadHex(_))));
    assert_eq!(from_hex("aB").unwrap(), vec![0xab]);
}

#[test]
fn oversized_descriptor_numbers_are_refused() {
    let r = build_stores(vec![MapDesc { fd: 9_999_999_999, ..hash_desc() }]);
    assert!(r.unwrap_err().to_string().contains("exceeds maximum"));
}
