use chash_table::hasher::{CHasher, CHasherU32Impl};
use chash_table::table::CHashTable;

type Table = CHashTable<u32, u32, CHasherU32Impl>;

#[test]
fn chash_table_test() {
    let mut ht = Table::new();

    ht.reserve(100);

    for i in (2u32..100).step_by(2) {
        ht.insert(&i, i * 2);
    }

    assert_eq!(ht.get(&10), Some(20));
    assert_eq!(ht.get(&18), Some(36));
    assert_eq!(ht.get(&21), None);
    assert_eq!(ht.get(&37), None);
}

#[test]
fn u32_hasher_values() {
    assert_eq!(CHasherU32Impl::hash(&0), 0);
    assert_eq!(CHasherU32Impl::hash(&1), 1000000007);
    assert_eq!(CHasherU32Impl::hash(&5), 705032739);
}

#[test]
fn fresh_table_finds_nothing() {
    let mut ht = Table::new();
    assert_eq!(ht.get(&0), None);
    assert_eq!(ht.get(&7), None);
}

#[test]
fn growth_keeps_five_keys() {
    let mut ht = Table::new();
    for k in [3u32, 14, 15, 92, 65] {
        ht.insert(&k, k + 1000);
    }
    for k in [3u32, 14, 15, 92, 65] {
        assert_eq!(ht.get(&k), Some(k + 1000));
    }
    assert_eq!(ht.get(&35), None);
}

#[test]
fn probing_wraps_past_the_end() {
    // With 8 slots, every key that is 1 modulo 8 has the last slot as home.
    let mut ht = Table::new();
    ht.insert(&1, 100);
    ht.insert(&9, 900);
    ht.insert(&17, 1700);
    assert_eq!(ht.get(&1), Some(100));
    assert_eq!(ht.get(&9), Some(900));
    assert_eq!(ht.get(&17), Some(1700));
    assert_eq!(ht.get(&25), None);
}

#[test]
fn second_insert_is_shadowed() {
    let mut ht = Table::new();
    ht.insert(&5, 50);
    ht.insert(&5, 60);
    assert_eq!(ht.get(&5), Some(50));
}

#[test]
fn reserve_again_keeps_entries() {
    let mut ht = Table::new();
    for k in 0u32..6 {
        ht.insert(&k, k * 3);
    }
    ht.reserve(100);
    ht.reserve(100);
    ht.reserve(40);
    ht.reserve(0);
    for k in 0u32..6 {
        assert_eq!(ht.get(&k), Some(k * 3));
    }
    assert_eq!(ht.get(&6), None);
}

#[test]
fn many_inserts_all_found() {
    let mut ht = Table::new();
    for k in 0u32..2000 {
        ht.insert(&(k * 7919), k);
    }
    for k in 0u32..2000 {
        assert_eq!(ht.get(&(k * 7919)), Some(k));
    }
    assert_eq!(ht.get(&1), None);
}
