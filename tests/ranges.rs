use hibp_ranges::ranges::{all_ranges_iter, range_at, total_len};
use std::collections::HashSet;

#[test]
fn total_len_is_sixteen_to_the_fifth() {
    assert_eq!(total_len(), 1_048_576);
}

#[test]
fn enumeration_yields_every_key_once_in_order() {
    let all = all_ranges_iter();
    assert_eq!(all.len(), 1_048_576);
    assert_eq!(&all[0], b"00000");
    assert_eq!(&all[1], b"00001");
    assert_eq!(&all[10], b"0000A");
    assert_eq!(&all[16], b"00010");
    assert_eq!(&all[all.len() - 1], b"FFFFF");
    let distinct: HashSet<[u8; 5]> = all.iter().copied().collect();
    assert_eq!(distinct.len(), 1_048_576);
    for w in all.windows(2) {
        assert!(w[0] < w[1]);
    }
}

#[test]
fn enumeration_is_reproducible() {
    assert_eq!(all_ranges_iter(), all_ranges_iter());
    assert_eq!(range_at(0xABCDE), *b"ABCDE");
}
