use tuber_ecs::bitset::BitSet;

#[test]
fn set_bit_u64() {
    let mut bitset = 0u64;
    bitset.set_bit(1);

    assert_eq!(bitset, 2u64)
}

#[test]
fn unset_bit_u64() {
    let mut bitset = 3u64;
    bitset.unset_bit(1);

    assert_eq!(bitset, 1u64)
}

#[test]
fn bit_u64() {
    let mut bitset = 0u64;
    bitset.set_bit(0);
    bitset.set_bit(2);

    assert_eq!(bitset.bit(2), true);
    assert_eq!(bitset, 5u64);
}

#[test]
fn set_bit_u64_array() {
    let mut bitset = vec![0u64; 1024];
    bitset.set_bit(64);
    assert_eq!(bitset[1], 1);
}

#[test]
fn unset_bit_u64_array() {
    let mut bitset = vec![0u64; 1024];
    bitset.set_bit(64);
    bitset.unset_bit(64);
    assert_eq!(bitset[1], 0);
}

#[test]
fn bit_u64_array() {
    let mut bitset = vec![0u64; 1024];
    bitset.set_bit(66);
    bitset.set_bit(2);
    assert_eq!(bitset.bit(66), true);
    assert_eq!(bitset.bit(2), true);
}

#[test]
fn bit_count_matches_universe() {
    let bitset = vec![0u64; 1024];
    assert_eq!(bitset.bit_count(), 65536);
    assert_eq!(7u64.bit_count(), 64);
}
