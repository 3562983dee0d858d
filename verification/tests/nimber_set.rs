use octal_games::nimber_set::{AtomicNimberSet, Mex, NimberSet, NimberSetConstructor};
use std::sync::atomic::AtomicU64;

#[test]
fn test_mex() {
    assert_eq!(vec![0u64].mex(), 0);
    assert_eq!(vec![0b1011u64].mex(), 2);
    assert_eq!(vec![u64::MAX].mex(), 64);
    assert_eq!(vec![u64::MAX, 0b1011u64].mex(), 66);
}

#[test]
fn test_nimber_set() {
    let mut s: Vec<u64> = Vec::with_max_nimber(64); // insert_nimber needs mut
    for i in 0..=64 {
        s.insert_nimber(i);
    }
    assert_eq!(s.mex(), 65);
}

#[test]
fn test_atomic_nimber_set() {
    let s: Vec<AtomicU64> = Vec::with_max_nimber(64); // mut is not needed
    for i in 0..=64 {
        s.insert_nimber(i);
    }
    assert_eq!(s.mex(), 65);
}

#[test]
fn mex_of_free_function() {
    assert_eq!(octal_games::nimber_set::mex(&[u64::MAX, u64::MAX, 0b0111u64]), 131);
    assert_eq!(octal_games::nimber_set::mex(&[]), 0);
}

#[test]
fn insert_keeps_the_other_nimbers() {
    let mut s: Vec<u64> = Vec::with_max_nimber(200);
    assert_eq!(s.len(), 4);
    s.insert_nimber(0);
    s.insert_nimber(2);
    s.insert_nimber(1);
    s.insert_nimber(130);
    assert_eq!(s, vec![0b111u64, 0, 0b100u64, 0]);
    assert_eq!(s.mex(), 3);
}
