use ittybitty::word::WORD_BITS;
use ittybitty::{IttyBitty, NONE};

fn next_set_bit_for<const N: usize>() {
    let mut b = IttyBitty::<N>::new();
    assert_eq!(b.next_set_bit(usize::MAX), usize::MAX);
    assert_eq!(b.next_set_bit(2), usize::MAX);
    assert_eq!(b.next_set_bit(0), usize::MAX);
    b.set(1, true);
    assert_eq!(b.next_set_bit(0), 1);
    assert_eq!(b.next_set_bit(1), 1);
    assert_eq!(b.next_set_bit(2), usize::MAX);
    b.set(2, true);
    assert_eq!(b.next_set_bit(0), 1);
    assert_eq!(b.next_set_bit(1), 1);
    assert_eq!(b.next_set_bit(2), 2);
    b.set(1, false);
    assert_eq!(b.next_set_bit(0), 2);
    assert_eq!(b.next_set_bit(1), 2);
    b.set(0, true);
    assert_eq!(b.next_set_bit(0), 0);
    assert_eq!(b.next_set_bit(1), 2);
    b.set(10, true);
    assert_eq!(b.next_set_bit(0), 0);
    assert_eq!(b.next_set_bit(1), 2);
    assert_eq!(b.next_set_bit(2), 2);
    assert_eq!(b.next_set_bit(9), 10);
    assert_eq!(b.next_set_bit(10), 10);
    b.set(1000, true);
    assert_eq!(b.next_set_bit(9), 10);
    assert_eq!(b.next_set_bit(10), 10);
    assert_eq!(b.next_set_bit(999), 1000);
    assert_eq!(b.next_set_bit(1000), 1000);
    assert_eq!(b.next_set_bit(1001), usize::MAX);
}

#[test]
fn test_next_set_bit() {
    next_set_bit_for::<2>();
    next_set_bit_for::<3>();
    next_set_bit_for::<4>();
    next_set_bit_for::<6>();
}

fn prev_set_bit_for<const N: usize>() {
    let mut b = IttyBitty::<N>::new();
    assert_eq!(b.prev_set_bit(usize::MAX), usize::MAX);
    assert_eq!(b.prev_set_bit(2), usize::MAX);
    assert_eq!(b.prev_set_bit(0), usize::MAX);
    b.set(1, true);
    assert_eq!(b.prev_set_bit(0), usize::MAX);
    assert_eq!(b.prev_set_bit(1), usize::MAX);
    assert_eq!(b.prev_set_bit(2), 1);
    assert_eq!(b.prev_set_bit(usize::MAX), 1);
    b.set(2, true);
    assert_eq!(b.prev_set_bit(1), usize::MAX);
    assert_eq!(b.prev_set_bit(2), 1);
    assert_eq!(b.prev_set_bit(3), 2);
    b.set(1, false);
    assert_eq!(b.prev_set_bit(1), usize::MAX);
    assert_eq!(b.prev_set_bit(3), 2);
    assert_eq!(b.prev_set_bit(2), usize::MAX);
    b.set(0, true);
    assert_eq!(b.prev_set_bit(0), usize::MAX);
    assert_eq!(b.prev_set_bit(1), 0);
    b.set(10, true);
    assert_eq!(b.prev_set_bit(2), 0);
    assert_eq!(b.prev_set_bit(9), 2);
    assert_eq!(b.prev_set_bit(10), 2);
    assert_eq!(b.prev_set_bit(11), 10);
    b.set(1000, true);
    assert_eq!(b.prev_set_bit(10), 2);
    assert_eq!(b.prev_set_bit(11), 10);
    assert_eq!(b.prev_set_bit(999), 10);
    assert_eq!(b.prev_set_bit(1000), 10);
    assert_eq!(b.prev_set_bit(1001), 1000);
}

#[test]
fn test_prev_set_bit() {
    prev_set_bit_for::<2>();
    prev_set_bit_for::<3>();
    prev_set_bit_for::<4>();
    prev_set_bit_for::<6>();
}

#[test]
fn only_bit_one_set() {
    let mut b = IttyBitty::<2>::new();
    b.set(1, true);
    assert_eq!(b.prev_set_bit(0), NONE);
    assert_eq!(b.prev_set_bit(1), NONE);
    assert_eq!(b.prev_set_bit(2), 1);
}

#[test]
fn next_set_bit_at_or_beyond_capacity_is_none() {
    let mut b = IttyBitty::<2>::new();
    b.set(0, true);
    b.set(126, true);
    let capacity = b.capacity();
    assert_eq!(b.next_set_bit(capacity), NONE);
    assert_eq!(b.next_set_bit(capacity + 1), NONE);
    assert_eq!(b.next_set_bit(usize::MAX), NONE);
    b.set(5000, true);
    let capacity = b.capacity();
    assert_eq!(b.next_set_bit(capacity), NONE);
    assert_eq!(b.next_set_bit(capacity + 1), NONE);
    assert_eq!(b.next_set_bit(usize::MAX), NONE);
}

#[test]
fn prev_set_bit_of_zero_is_none() {
    let mut b = IttyBitty::<2>::new();
    assert_eq!(b.prev_set_bit(0), NONE);
    b.set(0, true);
    assert_eq!(b.prev_set_bit(0), NONE);
    b.set(5000, true);
    assert_eq!(b.prev_set_bit(0), NONE);
}

#[test]
fn none_is_no_index() {
    assert_eq!(NONE, usize::MAX);
    let b = IttyBitty::<2>::with_capacity(100_000);
    assert!(b.capacity() < NONE);
}

#[test]
fn scans_cross_word_boundaries() {
    let w = WORD_BITS;
    let mut b = IttyBitty::<2>::new();
    b.set(w - 1, true);
    b.set(5 * w, true);
    assert_eq!(b.next_set_bit(0), w - 1);
    assert_eq!(b.next_set_bit(w - 1), w - 1);
    assert_eq!(b.next_set_bit(w), 5 * w);
    assert_eq!(b.next_set_bit(5 * w), 5 * w);
    assert_eq!(b.next_set_bit(5 * w + 1), NONE);
    assert_eq!(b.prev_set_bit(5 * w + 1), 5 * w);
    assert_eq!(b.prev_set_bit(5 * w), w - 1);
    assert_eq!(b.prev_set_bit(w), w - 1);
    assert_eq!(b.prev_set_bit(w - 1), NONE);
}

#[test]
fn next_is_inclusive_and_prev_is_exclusive() {
    let mut b = IttyBitty::<3>::new();
    b.set(77, true);
    assert_eq!(b.next_set_bit(77), 77);
    assert_eq!(b.prev_set_bit(77), NONE);
    assert_eq!(b.prev_set_bit(78), 77);
    assert_eq!(b.next_set_bit(78), NONE);
}

#[test]
fn prev_set_bit_reports_the_last_index_of_the_capacity() {
    let mut b = IttyBitty::<2>::new();
    let capacity = b.capacity();
    let last = capacity - 1;
    b.set(last, true);
    assert!(!b.spilled());
    assert_eq!(b.capacity(), capacity);
    assert_eq!(b.prev_set_bit(last), NONE);
    assert_eq!(b.prev_set_bit(capacity), last);
    assert_eq!(b.prev_set_bit(capacity + 1), last);
    assert_eq!(b.prev_set_bit(usize::MAX), last);
    b.set(0, true);
    assert_eq!(b.prev_set_bit(last), 0);
    assert_eq!(b.prev_set_bit(capacity), last);
    assert_eq!(b.prev_set_bit(usize::MAX), last);
    assert_eq!(b.next_set_bit(last), last);
}

#[test]
fn prev_set_bit_reports_the_last_index_of_a_spilled_set() {
    let mut b = IttyBitty::<2>::with_capacity(1000);
    let capacity = b.capacity();
    let last = capacity - 1;
    assert!(b.spilled());
    b.set(last, true);
    assert_eq!(b.capacity(), capacity);
    assert_eq!(b.prev_set_bit(last), NONE);
    assert_eq!(b.prev_set_bit(capacity), last);
    assert_eq!(b.prev_set_bit(capacity + 1), last);
    assert_eq!(b.prev_set_bit(usize::MAX), last);
    b.set(last - WORD_BITS, true);
    assert_eq!(b.prev_set_bit(last), last - WORD_BITS);
    assert_eq!(b.prev_set_bit(capacity), last);
}

#[test]
fn prev_set_bit_is_none_exactly_when_nothing_lies_below() {
    let mut b = IttyBitty::<3>::new();
    for &bit in [5usize, 64, 190, 400].iter() {
        b.set(bit, true);
    }
    let members = b.to_vec();
    for probe in 0..b.capacity() + 70 {
        let below = members.iter().copied().filter(|&m| m < probe).max();
        match below {
            Some(highest) => assert_eq!(b.prev_set_bit(probe), highest),
            None => assert_eq!(b.prev_set_bit(probe), NONE),
        }
    }
}
