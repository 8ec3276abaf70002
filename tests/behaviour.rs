use natset::ascending::Ascending;
use natset::borrowed::Borrowed;
use natset::descending::Descending;
use natset::inner::{bits_to_chunk, chunk_to_bits, get, mask, Inner, Iter};
use natset::owned::Owned;

fn members_by_contains(set: &Owned) -> usize {
    (0..set.maximum()).filter(|&v| set.contains(v)).count()
}

#[test]
fn word_primitives() {
    assert_eq!(bits_to_chunk(0), 0);
    assert_eq!(bits_to_chunk(63), 0);
    assert_eq!(bits_to_chunk(130), 2);
    assert_eq!(chunk_to_bits(3), 192);
    assert_eq!(mask(70), 1u64 << 6);
    assert_eq!(mask(63), 1u64 << 63);
    assert!(get(0b100, 2));
    assert!(get(0b100, 66));
    assert!(!get(0b100, 3));
}

#[test]
fn word_iterator_counts_and_orders() {
    let mut it = Iter::new(0b1011_0000_0001);
    assert_eq!(it.len(), 4);
    assert_eq!(it.size_hint(), (4, Some(4)));
    assert_eq!(it.next(), Some(0));
    assert_eq!(it.next_back(), Some(11));
    assert_eq!(it.next(), Some(8));
    assert_eq!(it.len(), 1);
    assert_eq!(it.next_back(), Some(9));
    assert_eq!(it.next(), None);
    assert_eq!(it.next_back(), None);
    assert_eq!(Iter::new(0).len(), 0);
    assert_eq!(Iter::new(Inner::MAX).len(), 64);
}

#[test]
fn empty_set() {
    let set = Owned::new();
    assert_eq!(set.maximum(), 0);
    assert_eq!(set.len(), 0);
    assert!(set.is_empty());
    assert!(!set.contains(0));
    assert!(set.ascending().to_vec().is_empty());
    assert!(set.descending().to_vec().is_empty());
    assert!(Owned::default() == set);
}

#[test]
fn with_maximum_counts_words() {
    let set = Owned::with_maximum(3);
    assert_eq!(set.maximum(), 192);
    assert_eq!(set.len(), 0);
    assert!(set.is_empty());
}

#[test]
fn insert_and_remove_report_previous_state() {
    let mut set = Owned::with_maximum(2);
    assert_eq!(set.insert(70), Some(false));
    assert_eq!(set.insert(70), Some(true));
    assert_eq!(set.len(), 1);
    assert!(set.contains(70));
    assert_eq!(set.remove(70), Some(true));
    assert_eq!(set.remove(70), Some(false));
    assert_eq!(set.len(), 0);
    assert!(!set.contains(70));
}

#[test]
fn insert_beyond_capacity_is_none() {
    let mut set = Owned::with_maximum(1);
    set.insert(3).unwrap();
    assert_eq!(set.insert(64), None);
    assert_eq!(set.remove(64), None);
    assert_eq!(set.len(), 1);
    assert_eq!(set.maximum(), 64);
    assert_eq!(set.ascending().to_vec(), vec![3]);
}

#[test]
fn bulk_beyond_capacity_is_none_and_unchanged() {
    let mut set = Owned::with_maximum(2);
    set.insert(1).unwrap();
    assert_eq!(set.insert_all(100, 129), None);
    assert_eq!(set.remove_all(0, 129), None);
    assert_eq!(set.ascending().to_vec(), vec![1]);
    assert_eq!(set.insert_all(100, 128), Some(()));
    assert_eq!(set.len(), 29);
}

#[test]
fn empty_ranges_change_nothing() {
    let mut set = Owned::with_maximum(1);
    set.insert(5).unwrap();
    assert_eq!(set.insert_all(10, 10), Some(()));
    assert_eq!(set.insert_all(500, 3), Some(()));
    assert_eq!(set.remove_all(5, 5), Some(()));
    assert_eq!(set.remove_all(usize::MAX, 0), Some(()));
    assert_eq!(set.ascending().to_vec(), vec![5]);
}

#[test]
fn whole_chunks_update_the_count() {
    let mut set = Owned::with_maximum(4);
    set.insert(70).unwrap();
    set.insert(200).unwrap();
    assert_eq!(set.insert_all(0, 256), Some(()));
    assert_eq!(set.len(), 256);
    assert_eq!(set.remove_all(64, 192), Some(()));
    assert_eq!(set.len(), 128);
    assert!(set.contains(63));
    assert!(!set.contains(64));
    assert!(!set.contains(191));
    assert!(set.contains(192));
}

#[test]
fn range_in_one_chunk() {
    let mut set = Owned::with_maximum(2);
    assert_eq!(set.insert_all(66, 70), Some(()));
    assert_eq!(set.ascending().to_vec(), vec![66, 67, 68, 69]);
    assert_eq!(set.remove_all(67, 69), Some(()));
    assert_eq!(set.ascending().to_vec(), vec![66, 69]);
}

#[test]
fn bulk_matches_single_steps() {
    let mut bulk = Owned::with_maximum(5);
    let mut single = Owned::with_maximum(5);
    bulk.insert(1).unwrap();
    single.insert(1).unwrap();
    bulk.insert_all(3, 250).unwrap();
    for v in 3..250 {
        single.insert(v).unwrap();
    }
    assert!(bulk == single);
    assert_eq!(bulk.len(), single.len());
    bulk.remove_all(17, 140).unwrap();
    for v in 17..140 {
        single.remove(v).unwrap();
    }
    assert!(bulk == single);
    assert_eq!(bulk.ascending().to_vec(), single.ascending().to_vec());
}

#[test]
fn grow_insert_all_then_remove_all() {
    let mut set = Owned::new();
    set.grow_insert_all(30, 300);
    let expected: Vec<usize> = (30..300).collect();
    assert_eq!(set.ascending().to_vec(), expected);
    set.remove_all(60, 240).unwrap();
    let expected: Vec<usize> = (30..60).chain(240..300).collect();
    assert_eq!(set.ascending().to_vec(), expected);
    assert_eq!(set.len(), 90);
}

#[test]
fn powers_of_two_both_directions() {
    let mut set = Owned::new();
    for index in 0..10 {
        set.grow_insert(2_usize.pow(index));
    }
    assert_eq!(set.len(), 10);
    assert_eq!(
        set.ascending().to_vec(),
        vec![1, 2, 4, 8, 16, 32, 64, 128, 256, 512]
    );
    assert_eq!(
        set.descending().to_vec(),
        vec![512, 256, 128, 64, 32, 16, 8, 4, 2, 1]
    );
}

#[test]
fn descending_is_reverse_of_ascending() {
    let set = Owned::from_slice(&[900, 3, 64, 63, 0, 127, 128, 5000]);
    let mut up = set.ascending().to_vec();
    up.reverse();
    assert_eq!(set.descending().to_vec(), up);
}

#[test]
fn ordering_follows_sorted_values() {
    let empty_a = Owned::new();
    let empty_b = Owned::with_maximum(3);
    assert!(empty_a == empty_b);
    assert_eq!(empty_a.cmp(&empty_b), std::cmp::Ordering::Equal);

    let three = Owned::from_slice(&[3]);
    let five = Owned::from_slice(&[5]);
    let five_six = Owned::from_slice(&[5, 6]);
    assert!(five > three);
    assert!(five < five_six);
    assert_eq!(five.cmp(&three), std::cmp::Ordering::Greater);
    assert_eq!(five.cmp(&five_six), std::cmp::Ordering::Less);
    assert!(empty_a < three);
    assert!(five != five_six);
}

#[test]
fn equality_ignores_capacity() {
    let mut small = Owned::with_maximum(1);
    small.insert(9).unwrap();
    let mut large = Owned::with_maximum(8);
    large.insert(9).unwrap();
    assert!(small == large);
    assert!(small.as_slice() == large.as_slice());
    large.insert(400).unwrap();
    assert!(small != large);
}

#[test]
fn contains_beyond_maximum_is_false() {
    let set = Owned::with_maximum(2);
    assert!(!set.contains(set.maximum()));
    assert!(!set.contains(1000));
    assert!(!set.contains(usize::MAX));
    let view = set.as_slice();
    assert!(!view.contains(128));
    assert!(!view.contains(usize::MAX));
    assert!(!Owned::new().contains(0));
}

#[test]
fn insert_then_remove_restores() {
    let mut set = Owned::from_slice(&[1, 2, 100]);
    let before = set.ascending().to_vec();
    assert_eq!(set.insert(50), Some(false));
    assert_eq!(set.remove(50), Some(true));
    assert_eq!(set.ascending().to_vec(), before);
    assert_eq!(set.len(), 3);
    assert_eq!(set.insert(2), Some(true));
    assert_eq!(set.len(), 3);
}

#[test]
fn insert_twice_and_clear_twice() {
    let mut once = Owned::with_maximum(2);
    let mut twice = Owned::with_maximum(2);
    once.insert(77).unwrap();
    twice.insert(77).unwrap();
    twice.insert(77).unwrap();
    assert!(once == twice);
    assert_eq!(once.len(), twice.len());

    twice.clear();
    assert!(twice.is_empty());
    assert_eq!(twice.maximum(), 128);
    twice.clear();
    assert!(twice.is_empty());
    assert_eq!(twice.maximum(), 128);
}

#[test]
fn cardinality_matches_membership() {
    let mut set = Owned::new();
    set.grow_insert(10);
    set.grow_insert(300);
    set.grow_insert(10);
    set.grow_insert_all(60, 130);
    set.remove(61).unwrap();
    set.remove_all(100, 120).unwrap();
    assert_eq!(set.len(), members_by_contains(&set));
    assert_eq!(set.len(), set.ascending().to_vec().len());
    assert_eq!(set.len(), 1 + 1 + 69 - 20);
}

#[test]
fn clear_empties_every_word() {
    let mut set = Owned::from_slice(&[0, 64, 700, 701]);
    let maximum = set.maximum();
    set.clear();
    assert_eq!(set.len(), 0);
    assert_eq!(set.maximum(), maximum);
    assert_eq!(members_by_contains(&set), 0);
}

#[test]
fn grow_maximum_keeps_values() {
    let mut set = Owned::with_maximum(1);
    set.insert(7).unwrap();
    set.grow_maximum(100);
    assert!(set.maximum() > 100);
    assert_eq!(set.ascending().to_vec(), vec![7]);
    let maximum = set.maximum();
    set.grow_maximum(10);
    assert_eq!(set.maximum(), maximum);
}

#[test]
fn shrink_to_fit_drops_trailing_zero_words() {
    let mut set = Owned::with_maximum(6);
    set.insert(70).unwrap();
    set.shrink_to_fit();
    assert_eq!(set.maximum(), 128);
    assert_eq!(set.ascending().to_vec(), vec![70]);
    set.remove(70).unwrap();
    set.shrink_to_fit();
    assert_eq!(set.maximum(), 0);
}

#[test]
fn extend_collapses_duplicates() {
    let mut set = Owned::new();
    set.extend(&[4, 4, 90, 4]);
    assert_eq!(set.len(), 2);
    set.extend(&[90, 1]);
    assert_eq!(set.ascending().to_vec(), vec![1, 4, 90]);
    let built = Owned::from_slice(&[90, 1, 4, 1]);
    assert!(built == set);
    assert_eq!(built.maximum(), 128);
}

#[test]
fn clone_and_clone_from_slice() {
    let source = Owned::from_slice(&[2, 3, 200]);
    let copy = source.clone();
    assert!(copy == source);
    let mut target = Owned::from_slice(&[1000, 1]);
    target.clone_from_slice(source.as_slice());
    assert_eq!(target.ascending().to_vec(), vec![2, 3, 200]);
    assert_eq!(target.len(), 3);
    assert_eq!(target.maximum(), 1024);
}

#[test]
fn clone_from_slice_keeps_capacity() {
    let mut set = Owned::with_maximum(2);
    set.insert(127).unwrap();
    let mut source = Owned::with_maximum(1);
    source.insert(4).unwrap();
    set.clone_from_slice(source.as_slice());
    assert_eq!(set.maximum(), 128);
    assert_eq!(set.ascending().to_vec(), vec![4]);
    assert_eq!(set.insert(100), Some(false));

    let wide = Owned::with_maximum(3);
    set.clone_from_slice(wide.as_slice());
    assert_eq!(set.maximum(), 192);
    assert!(set.is_empty());
}

#[test]
fn slice_construction_capacity() {
    assert_eq!(Owned::from_slice(&[]).maximum(), 0);
    assert_eq!(Owned::from_slice(&[63]).maximum(), 64);
    assert_eq!(Owned::from_slice(&[64]).maximum(), 128);
    let mut set = Owned::with_maximum(4);
    set.extend(&[1]);
    assert_eq!(set.maximum(), 256);
}

#[test]
fn borrowed_view_queries() {
    let words: [Inner; 2] = [0b101, 1 << 63];
    let view = Borrowed::new(&words, 3);
    assert_eq!(view.maximum(), 128);
    assert_eq!(view.len(), 3);
    assert!(!view.is_empty());
    assert!(view.contains(0));
    assert!(view.contains(2));
    assert!(view.contains(127));
    assert!(!view.contains(1));
    assert_eq!(view.ascending().to_vec(), vec![0, 2, 127]);
    assert_eq!(view.descending().to_vec(), vec![127, 2, 0]);
}

#[test]
fn cursors_step_and_report_length() {
    let words: [Inner; 3] = [0b11, 0, 1 << 5];
    let mut up = Ascending::new(&words, 3);
    assert_eq!(up.size_hint(), (3, Some(3)));
    assert_eq!(up.next(), Some(0));
    assert_eq!(up.next(), Some(1));
    assert_eq!(up.len(), 1);
    assert_eq!(up.next(), Some(133));
    assert_eq!(up.next(), None);
    assert_eq!(up.next(), None);

    let mut down = Descending::new(&words, 3);
    assert_eq!(down.next(), Some(133));
    assert_eq!(down.next(), Some(1));
    assert_eq!(down.next(), Some(0));
    assert_eq!(down.next(), None);

    assert_eq!(Ascending::new(&words, 2).to_vec(), vec![0, 1]);
    assert_eq!(Descending::new(&words, 2).to_vec(), vec![133, 1]);
}
