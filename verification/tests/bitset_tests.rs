use peg_solitaire::u32set::{CountOnes, FixedBitSet, ReverseBits, SliceIndexBitSet, U32Set, U64Set};
use peg_solitaire::word::BitWord;

#[test]
fn new_keeps_the_pattern() {
    assert_eq!(U64Set::new(0b1011).val, 0b1011);
    assert_eq!(U32Set::new(7).val, 7);
    assert_eq!(FixedBitSet::<u64>::new(0), FixedBitSet { val: 0u64 });
}

#[test]
fn get_reads_single_bits() {
    let set = U64Set::new(0b1010);
    assert_eq!(set.get(0usize), Some(false));
    assert_eq!(set.get(1usize), Some(true));
    assert_eq!(set.get(3usize), Some(true));
    assert_eq!(set.get(63usize), Some(false));
    assert_eq!(U64Set::new(1 << 63).get(63usize), Some(true));
}

#[test]
fn get_outside_the_capacity_is_none() {
    let set = U64Set::new(u64::MAX);
    assert_eq!(set.get(64usize), None);
    assert_eq!(set.get(65usize), None);
    assert_eq!(set.get(usize::MAX), None);
    let small = U32Set::new(u32::MAX);
    assert_eq!(small.get(31usize), Some(true));
    assert_eq!(small.get(32usize), None);
}

#[test]
fn get_range_cuts_and_moves_down() {
    let set = U64Set::new(0b1101_0110);
    assert_eq!(set.get(1usize..5usize), Some(U64Set::new(0b1011)));
    assert_eq!(set.get(0usize..64usize), Some(set));
    assert_eq!(set.get(4usize..64usize), Some(U64Set::new(0b1101)));
    assert_eq!(set.get(0usize..3usize), Some(U64Set::new(0b110)));
    assert_eq!(U64Set::new(u64::MAX).get(60usize..64usize), Some(U64Set::new(0b1111)));
}

#[test]
fn get_range_at_the_edges() {
    let set = U64Set::new(u64::MAX);
    assert_eq!(set.get(0usize..0usize), Some(U64Set::new(0)));
    assert_eq!(set.get(64usize..64usize), Some(U64Set::new(0)));
    assert_eq!(set.get(7usize..7usize), Some(U64Set::new(0)));
    assert_eq!(set.get(0usize..65usize), None);
    assert_eq!(set.get(5usize..3usize), None);
    assert_eq!(set.get(65usize..66usize), None);
}

#[test]
fn get_range_on_thirty_two_bits() {
    let set = U32Set::new(0xf000_00f0);
    assert_eq!(set.get(0usize..32usize), Some(set));
    assert_eq!(set.get(4usize..32usize), Some(U32Set::new(0x0f00_000f)));
    assert_eq!(set.get(28usize..32usize), Some(U32Set::new(0xf)));
    assert_eq!(set.get(0usize..33usize), None);
}

#[test]
fn index_reads_what_get_reads() {
    let set = U64Set::new(0b100);
    assert!(2usize.index(&set));
    assert!(!1usize.index(&set));
    assert_eq!((1usize..3usize).index(&set), U64Set::new(0b10));
    assert_eq!(SliceIndexBitSet::<u64>::get(2usize, &set), Some(true));
}

#[test]
fn union_and_intersection() {
    let a = U64Set::new(0b1100);
    let b = U64Set::new(0b1010);
    assert_eq!(a.union(b), U64Set::new(0b1110));
    assert_eq!(a.intersect(b), U64Set::new(0b1000));
    let mut c = a;
    c.union_with(b);
    assert_eq!(c, U64Set::new(0b1110));
    let mut d = a;
    d.intersect_with(b);
    assert_eq!(d, U64Set::new(0b1000));
    assert_eq!(U32Set::new(1).union(U32Set::new(1 << 31)), U32Set::new(0x8000_0001));
}

#[test]
fn len_counts_the_members() {
    assert_eq!(U64Set::new(0).len(), 0);
    assert_eq!(U64Set::new(0xff00ff).len(), 16);
    assert_eq!(U64Set::new(u64::MAX).len(), 64);
    assert_eq!(U64Set::new(1 << 63).len(), 1);
    assert_eq!(U32Set::new(0xf0f0).len(), 8);
    assert_eq!(U32Set::new(u32::MAX).len(), 32);
}

#[test]
fn is_empty_only_without_members() {
    assert!(U64Set::new(0).is_empty());
    assert!(!U64Set::new(1 << 40).is_empty());
    assert!(U32Set::new(0).is_empty());
    assert!(!U32Set::new(2).is_empty());
}

#[test]
fn revn_reverses_the_first_bits() {
    assert_eq!(U64Set::new(0b1011).revn(4), U64Set::new(0b1101));
    assert_eq!(U64Set::new(0b110).revn(3), U64Set::new(0b011));
    assert_eq!(U64Set::new(0b1).revn(1), U64Set::new(0b1));
    assert_eq!(U64Set::new(0b1).revn(5), U64Set::new(0b10000));
    assert_eq!(U32Set::new(0b1011).revn(4), U32Set::new(0b1101));
}

#[test]
fn revn_drops_the_bits_behind() {
    assert_eq!(U64Set::new(0b1111_0001).revn(4), U64Set::new(0b1000));
    assert_eq!(U64Set::new(u64::MAX).revn(0), U64Set::new(0));
    assert_eq!(U64Set::new(u64::MAX).revn(3), U64Set::new(0b111));
}

#[test]
fn revn_of_the_whole_width_is_rev() {
    let set = U64Set::new(0x0123_4567_89ab_cdef);
    assert_eq!(set.revn(64), set.rev());
    let small = U32Set::new(0x0123_4567);
    assert_eq!(small.revn(32), small.rev());
}

#[test]
fn rev_reverses_all_bits() {
    assert_eq!(U64Set::new(1).rev(), U64Set::new(1 << 63));
    assert_eq!(U64Set::new(0b110).rev(), U64Set::new(0b011 << 61));
    assert_eq!(U32Set::new(1).rev(), U32Set::new(1 << 31));
    assert_eq!(U64Set::new(0xf0).rev().rev(), U64Set::new(0xf0));
}

#[test]
fn iter_pos_lists_members_in_order() {
    assert_eq!(U64Set::new(0b100101).iter_pos(), vec![0, 2, 5]);
    assert_eq!(U64Set::new(0).iter_pos(), Vec::<usize>::new());
    assert_eq!(U64Set::new(1 << 63).iter_pos(), vec![63]);
    assert_eq!(U64Set::new(u64::MAX).iter_pos(), (0..64).collect::<Vec<usize>>());
    assert_eq!(U32Set::new(0x8000_0001).iter_pos(), vec![0, 31]);
}

#[test]
fn iter_bits_goes_on_with_false() {
    assert_eq!(U64Set::new(0b101).iter_bits(5), vec![true, false, true, false, false]);
    assert_eq!(U64Set::new(0b101).iter_bits(0), Vec::<bool>::new());
    let long = U32Set::new(u32::MAX).iter_bits(40);
    assert_eq!(long.len(), 40);
    assert!(long[..32].iter().all(|&bit| bit));
    assert!(long[32..].iter().all(|&bit| !bit));
}

#[test]
fn from_positions_sets_each_position() {
    assert_eq!(U64Set::from_positions(&vec![5, 0, 2, 2]), U64Set::new(0b100101));
    assert_eq!(U64Set::from_positions(&vec![]), U64Set::new(0));
    assert_eq!(U64Set::from_positions(&vec![63]), U64Set::new(1 << 63));
    assert_eq!(U32Set::from_positions(&vec![31, 1]), U32Set::new(0x8000_0002));
}

#[test]
fn from_bits_sets_the_true_positions() {
    assert_eq!(U64Set::from_bits(&vec![true, false, true, true]), U64Set::new(0b1101));
    assert_eq!(U64Set::from_bits(&vec![false; 64]), U64Set::new(0));
    assert_eq!(U64Set::from_bits(&vec![true; 64]), U64Set::new(u64::MAX));
    assert_eq!(U32Set::from_bits(&vec![true; 32]), U32Set::new(u32::MAX));
}

#[test]
fn positions_round_trip() {
    let set = U64Set::new(0x8421_0000_1248_0001);
    assert_eq!(U64Set::from_positions(&set.iter_pos()), set);
    assert_eq!(U64Set::from_bits(&set.iter_bits(64)), set);
    assert_eq!(set.iter_pos().len(), set.len());
}

#[test]
fn words_count_and_reverse() {
    assert_eq!(CountOnes::count_ones(&0b1011u64), 3);
    assert_eq!(CountOnes::count_ones(&0xffu32), 8);
    assert_eq!(ReverseBits::reverse_bits(&1u64), 1 << 63);
    assert_eq!(ReverseBits::reverse_bits(&2u32), 1 << 30);
}

#[test]
fn words_offer_their_bits() {
    assert_eq!(<u64 as BitWord>::bit_width(), 64);
    assert_eq!(<u32 as BitWord>::bit_width(), 32);
    assert_eq!(<u64 as BitWord>::zero(), 0);
    assert_eq!(<u64 as BitWord>::one(), 1);
    assert_eq!(<u64 as BitWord>::max_value(), u64::MAX);
    assert_eq!(<u32 as BitWord>::max_value(), u32::MAX);
    assert_eq!(BitWord::shl(1u64, 63), 1 << 63);
    assert_eq!(BitWord::shl(3u32, 31), 1 << 31);
    assert_eq!(BitWord::shr(0xf0u64, 4), 0xf);
    assert_eq!(BitWord::and(0b1100u32, 0b1010), 0b1000);
    assert_eq!(BitWord::or(0b1100u32, 0b1010), 0b1110);
    assert!(BitWord::same(5u64, 5));
    assert!(!BitWord::same(5u64, 4));
}

#[test]
fn sets_order_by_their_pattern() {
    assert!(U64Set::new(3) < U64Set::new(4));
    assert_eq!(U64Set::default(), U64Set::new(0));
}

#[test]
fn get_from_a_position_on() {
    let set = U64Set::new(0b1101_0110);
    assert_eq!(set.get(4usize..), Some(U64Set::new(0b1101)));
    assert_eq!(set.get(0usize..), Some(set));
    assert_eq!(set.get(63usize..), Some(U64Set::new(0)));
    assert_eq!(set.get(64usize..), Some(U64Set::new(0)));
    assert_eq!(set.get(65usize..), None);
    assert_eq!(U32Set::new(0xf000_0000).get(28usize..), Some(U32Set::new(0xf)));
    assert_eq!(U32Set::new(0xf000_0000).get(33usize..), None);
}

#[test]
fn get_up_to_a_position() {
    let set = U64Set::new(0b1101_0110);
    assert_eq!(set.get(..4usize), Some(U64Set::new(0b0110)));
    assert_eq!(set.get(..0usize), Some(U64Set::new(0)));
    assert_eq!(set.get(..64usize), Some(set));
    assert_eq!(set.get(..65usize), None);
    assert_eq!(U64Set::new(u64::MAX).get(..63usize), Some(U64Set::new(u64::MAX >> 1)));
    assert_eq!(U32Set::new(u32::MAX).get(..32usize), Some(U32Set::new(u32::MAX)));
    assert_eq!(U32Set::new(u32::MAX).get(..33usize), None);
    assert_eq!((..3usize).index(&set), U64Set::new(0b110));
    assert_eq!((5usize..).index(&set), U64Set::new(0b110));
}

#[test]
fn from_bits_takes_false_beyond_the_width() {
    let mut bits = vec![false; 70];
    bits[3] = true;
    bits[63] = true;
    assert_eq!(U64Set::from_bits(&bits), U64Set::new((1 << 63) | 0b1000));
    let mut short = vec![false; 40];
    short[31] = true;
    assert_eq!(U32Set::from_bits(&short), U32Set::new(1 << 31));
}
