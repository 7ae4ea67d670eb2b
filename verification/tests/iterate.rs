use ittybitty::{IntoIter, Iter, IterRev, IttyBitty};

const NUMBERS: [usize; 8] = [3, 17, 127, 128, 340, 600, 942, 1732];

fn collect<const N: usize>(mut it: Iter<'_, N>) -> Vec<usize> {
    let mut out = Vec::new();
    while let Some(bit) = it.next() {
        out.push(bit);
    }
    out
}

fn collect_rev<const N: usize>(mut it: IterRev<'_, N>) -> Vec<usize> {
    let mut out = Vec::new();
    while let Some(bit) = it.next() {
        out.push(bit);
    }
    out
}

fn collect_owned<const N: usize>(mut it: IntoIter<N>) -> Vec<usize> {
    let mut out = Vec::new();
    while let Some(bit) = it.next() {
        out.push(bit);
    }
    out
}

fn iter_for<const N: usize>() {
    for i in 0..NUMBERS.len() {
        let mut b = IttyBitty::<N>::new();
        for &n in NUMBERS.iter().take(i) {
            b.set(n, true);
        }
        assert_eq!(
            collect(b.iter()),
            NUMBERS.iter().take(i).map(|&u| u).collect::<Vec<_>>()
        );
    }
}

#[test]
fn test_iter() {
    iter_for::<2>();
    iter_for::<3>();
    iter_for::<4>();
    iter_for::<6>();
}

fn iter_rev_for<const N: usize>() {
    for i in 0..NUMBERS.len() {
        let mut b = IttyBitty::<N>::new();
        for &n in NUMBERS.iter().take(i) {
            b.set(n, true);
        }
        assert_eq!(
            collect_rev(b.iter_rev()),
            NUMBERS.iter().take(i).rev().map(|&u| u).collect::<Vec<_>>()
        );
    }
}

#[test]
fn test_iter_rev() {
    iter_rev_for::<2>();
    iter_rev_for::<3>();
    iter_rev_for::<4>();
    iter_rev_for::<6>();
}

fn into_iter_for<const N: usize>() {
    for i in 0..NUMBERS.len() {
        let mut b = IttyBitty::<N>::new();
        for &n in NUMBERS.iter().take(i) {
            b.set(n, true);
        }
        assert_eq!(
            collect_owned(b.into_iter()),
            NUMBERS.iter().take(i).map(|&u| u).collect::<Vec<_>>()
        );
    }
}

#[test]
fn test_into_iter() {
    into_iter_for::<2>();
    into_iter_for::<3>();
    into_iter_for::<4>();
    into_iter_for::<6>();
}

fn with_capacity_for<const N: usize>() {
    for i in 0..NUMBERS.len() {
        let mut b = IttyBitty::<N>::with_capacity(NUMBERS[i]);
        for &n in NUMBERS.iter() {
            b.set(n, true);
        }
        assert_eq!(
            collect(b.iter()),
            NUMBERS.iter().map(|&u| u).collect::<Vec<_>>()
        );
    }
}

#[test]
fn test_with_capacity() {
    with_capacity_for::<2>();
    with_capacity_for::<3>();
    with_capacity_for::<4>();
    with_capacity_for::<6>();
}

#[test]
fn iter_crosses_the_inline_boundary() {
    let mut b = IttyBitty::<2>::new();
    for &n in [3usize, 17, 127, 128, 340].iter() {
        b.set(n, true);
    }
    assert_eq!(collect(b.iter()), vec![3, 17, 127, 128, 340]);
}

#[test]
fn capacity_hint_of_1732() {
    let mut b = IttyBitty::<2>::with_capacity(1732);
    for &n in NUMBERS.iter() {
        b.set(n, true);
    }
    assert_eq!(collect(b.iter()), NUMBERS.to_vec());
    for bit in 0..b.capacity() {
        assert_eq!(b.get(bit), NUMBERS.contains(&bit));
    }
}

#[test]
fn three_walks_agree() {
    let mut b = IttyBitty::<3>::new();
    for &n in [0usize, 1, 64, 65, 191, 192, 1000, 31, 32].iter() {
        b.set(n, true);
    }
    let up = collect(b.iter());
    assert_eq!(up, vec![0, 1, 31, 32, 64, 65, 191, 192, 1000]);
    for pair in up.windows(2) {
        assert!(pair[0] < pair[1]);
    }
    for bit in 0..b.capacity() {
        assert_eq!(b.get(bit), up.contains(&bit));
    }
    let mut down = collect_rev(b.iter_rev());
    for pair in down.windows(2) {
        assert!(pair[0] > pair[1]);
    }
    down.reverse();
    assert_eq!(down, up);
    assert_eq!(b.to_vec(), up);
    assert_eq!(collect_owned(b.into_iter()), up);
}

#[test]
fn empty_set_yields_nothing() {
    let b = IttyBitty::<2>::new();
    assert_eq!(collect(b.iter()), Vec::<usize>::new());
    assert_eq!(collect_rev(b.iter_rev()), Vec::<usize>::new());
    assert_eq!(b.to_vec(), Vec::<usize>::new());
    assert_eq!(collect_owned(b.into_iter()), Vec::<usize>::new());
}

#[test]
fn exhausted_iterators_stay_exhausted() {
    let mut b = IttyBitty::<2>::new();
    b.set(9, true);
    let mut it = b.iter();
    assert_eq!(it.next(), Some(9));
    assert_eq!(it.next(), None);
    assert_eq!(it.next(), None);
    let mut it = b.iter_rev();
    assert_eq!(it.next(), Some(9));
    assert_eq!(it.next(), None);
    assert_eq!(it.next(), None);
    let mut it = b.into_iter();
    assert_eq!(it.next(), Some(9));
    assert_eq!(it.next(), None);
    assert_eq!(it.next(), None);
}

#[test]
fn reverse_walk_includes_the_last_index_of_the_capacity() {
    let mut b = IttyBitty::<2>::new();
    let last = b.capacity() - 1;
    b.set(4, true);
    b.set(last, true);
    assert!(!b.spilled());
    assert_eq!(collect(b.iter()), vec![4, last]);
    assert_eq!(collect_rev(b.iter_rev()), vec![last, 4]);

    let mut c = IttyBitty::<2>::with_capacity(1000);
    let last = c.capacity() - 1;
    c.set(4, true);
    c.set(last, true);
    assert_eq!(collect(c.iter()), vec![4, last]);
    assert_eq!(collect_rev(c.iter_rev()), vec![last, 4]);
}

#[test]
fn debug_text_lists_the_true_bits() {
    let mut b = IttyBitty::<2>::new();
    assert_eq!(b.to_debug_string(), "[]");
    b.set(17, true);
    b.set(3, true);
    assert_eq!(b.to_debug_string(), "[3, 17]");
    b.set(1000, true);
    assert_eq!(b.to_debug_string(), "[3, 17, 1000]");
    assert_eq!(b.to_debug_string(), format!("{:?}", b.to_vec()));
}
