use octal_games::bitset::Bin;

fn bits_of(b: &Bin) -> Vec<bool> {
    (0..b.len()).map(|i| b.get(i)).collect()
}

fn with_bits(len: usize, set: &[usize]) -> Bin {
    let mut b = Bin::with_len(len);
    for &i in set {
        b.set_bit(i);
    }
    b
}

#[test]
fn make_sizes_the_set_for_the_largest_value() {
    assert_eq!(Bin::make(0).len(), 4);
    assert_eq!(Bin::make(1).len(), 4);
    assert_eq!(Bin::make(2).len(), 6);
    assert_eq!(Bin::make(3).len(), 10);
    assert_eq!(Bin::make(16).len(), 34);
    assert_eq!(Bin::make(17).len(), 66);
    assert_eq!(Bin::make(100).len(), 258);
    assert_eq!(Bin::make(u16::MAX).len(), 131074);
    assert_eq!(Bin::make(100).count_unset(), 258);
}

#[test]
fn set_and_get_in_both_sizes() {
    for len in [1usize, 5, 63, 64, 65, 200] {
        let mut b = Bin::with_len(len);
        assert_eq!(bits_of(&b), vec![false; len]);
        b.set_bit(0);
        b.set_bit(len - 1);
        b.set_bit(len / 2);
        for i in 0..len {
            assert_eq!(b.get(i), i == 0 || i == len - 1 || i == len / 2, "len {} bit {}", len, i);
        }
        b.set_bit(0);
        assert!(b.get(0));
    }
}

#[test]
fn lowest_unset_is_the_first_cleared_bit() {
    for len in [8usize, 64, 65, 300] {
        let mut b = Bin::with_len(len);
        assert_eq!(b.lowest_unset(), 0);
        assert_eq!(b.first_unset(), Some(0));
        b.set_bit(0);
        b.set_bit(1);
        b.set_bit(3);
        assert_eq!(b.lowest_unset(), 2);
        for i in 0..len - 1 {
            b.set_bit(i);
        }
        assert_eq!(b.lowest_unset(), len - 1);
        b.set_bit(len - 1);
        assert_eq!(b.first_unset(), None);
    }
}

#[test]
fn count_unset_counts_cleared_bits() {
    for len in [0usize, 1, 7, 64, 65, 130] {
        let mut b = Bin::with_len(len);
        assert_eq!(b.count_unset(), len);
        if len > 2 {
            b.set_bit(1);
            b.set_bit(len - 1);
            b.set_bit(1);
            assert_eq!(b.count_unset(), len - 2);
        }
    }
}

#[test]
fn zero_bits_clears_and_keeps_the_length() {
    for len in [6usize, 64, 100] {
        let mut b = with_bits(len, &[0, 3, 5]);
        b.zero_bits();
        assert_eq!(b.len(), len);
        assert_eq!(b.count_unset(), len);
        assert_eq!(b.lowest_unset(), 0);
    }
}

#[test]
fn copy_up_to_inclusive_takes_a_prefix() {
    for len in [10usize, 64, 100] {
        let b = with_bits(len, &[1, 4, 9]);
        let p = b.copy_up_to_inclusive(5);
        assert_eq!(p.len(), 5);
        assert_eq!(bits_of(&p), vec![false, true, false, false, true]);
        assert_eq!(p.count_unset(), 3);
        let whole = b.copy_up_to_inclusive(len);
        assert_eq!(bits_of(&whole), bits_of(&b));
        let none = b.copy_up_to_inclusive(0);
        assert_eq!(none.len(), 0);
        assert_eq!(none.first_unset(), None);
    }
}

#[test]
fn a_prefix_is_a_set_of_its_own() {
    let b = with_bits(100, &[1, 4]);
    let mut p = b.copy_up_to_inclusive(70);
    p.set_bit(2);
    p.zero_bits();
    assert!(b.get(1) && b.get(4) && !b.get(2));
    assert_eq!(p.count_unset(), 70);
}

#[test]
fn set_all_bits_from_is_the_union() {
    for (mine, theirs) in [(10usize, 10usize), (100, 100), (100, 10), (10, 100), (64, 65), (65, 64), (70, 66)] {
        let mut a = with_bits(mine, &[0, 7]);
        let b = with_bits(theirs, &[1, 7, 9]);
        a.set_all_bits_from(&b);
        assert_eq!(a.len(), mine);
        for i in 0..mine {
            assert_eq!(a.get(i), i == 0 || i == 1 || i == 7 || i == 9, "{} {} {}", mine, theirs, i);
        }
        assert_eq!(b.count_unset(), theirs - 3);
    }
}

#[test]
fn a_shorter_set_adds_nothing_past_its_end() {
    let mut a = Bin::with_len(20);
    let b = with_bits(6, &[5]);
    a.set_all_bits_from(&b);
    assert_eq!(a.count_unset(), 19);
    let mut wide = Bin::with_len(200);
    let short = with_bits(70, &[69]);
    wide.set_all_bits_from(&short);
    assert_eq!(wide.count_unset(), 199);
    assert!(wide.get(69));
}

#[test]
fn first_bit_cleared_in_both() {
    for len in [8usize, 100] {
        let seen = with_bits(len, &[0, 1, 4]);
        let rare = with_bits(len, &[0, 2, 3]);
        assert_eq!(seen.find_first_unset_also_unset_in(&rare), 5);
        let none_left = with_bits(len, &(0..len).collect::<Vec<_>>());
        assert_eq!(seen.find_first_unset_also_unset_in(&none_left), len - 1);
        assert_eq!(none_left.find_first_unset_also_unset_in(&seen), len - 1);
        let short = with_bits(3, &[2]);
        assert_eq!(seen.find_first_unset_also_unset_in(&short), len - 1);
        let empty = Bin::with_len(len);
        assert_eq!(empty.find_first_unset_also_unset_in(&short), 0);
    }
}

#[test]
fn clone_copies_the_bits() {
    for len in [9usize, 90] {
        let a = with_bits(len, &[2, 8]);
        let mut b = a.clone();
        assert_eq!(bits_of(&a), bits_of(&b));
        b.set_bit(3);
        assert!(!a.get(3));
        assert!(b.get(3));
    }
}
