use octal_games::checkpoint::{checkpoint_index, decode_window, encode_window, CheckpointError};
use octal_games::window::{Fetch, Mem, Mmap};

#[test]
fn nimbers_are_written_high_byte_first() {
    assert_eq!(encode_window(&vec![0x0102, 0xffff, 0, 7]), vec![1, 2, 255, 255, 0, 0, 0, 7]);
    assert_eq!(encode_window(&vec![]), Vec::<u8>::new());
}

#[test]
fn bytes_are_read_high_byte_first() {
    assert_eq!(decode_window(&[1, 2, 255, 255, 0, 0, 0, 7], 4), Ok(vec![0x0102, 0xffff, 0, 7]));
    assert_eq!(decode_window(&[], 0), Ok(vec![]));
}

#[test]
fn a_window_survives_writing_and_reading() {
    let window: Vec<u16> = (0..1000u32).map(|k| (k * 7919 % 65536) as u16).collect();
    let bytes = encode_window(&window);
    assert_eq!(bytes.len(), 2000);
    assert_eq!(decode_window(&bytes, 1000), Ok(window));
}

#[test]
fn any_other_length_is_refused() {
    assert_eq!(
        decode_window(&[1, 2, 3], 1),
        Err(CheckpointError::WrongLength { expected: Some(2), found: 3 })
    );
    assert_eq!(
        decode_window(&[1, 2], 2),
        Err(CheckpointError::WrongLength { expected: Some(4), found: 2 })
    );
    assert_eq!(
        decode_window(&[], 1),
        Err(CheckpointError::WrongLength { expected: Some(2), found: 0 })
    );
    assert_eq!(
        decode_window(&[1, 2], usize::MAX),
        Err(CheckpointError::WrongLength { expected: None, found: 2 })
    );
}

#[test]
fn the_name_of_a_checkpoint_gives_its_heap() {
    assert_eq!(checkpoint_index("nimbers_0.034_1000"), Some(1000));
    assert_eq!(checkpoint_index("nimbers_0.034_0"), Some(0));
    assert_eq!(checkpoint_index("dir_x/nimbers_0.4_007"), Some(7));
    assert_eq!(checkpoint_index("_18446744073709551615"), Some(usize::MAX));
    assert_eq!(checkpoint_index("_18446744073709551616"), None);
    assert_eq!(checkpoint_index("_99999999999999999999999"), None);
    assert_eq!(checkpoint_index("nimbers"), None);
    assert_eq!(checkpoint_index("1000"), None);
    assert_eq!(checkpoint_index("nimbers_"), None);
    assert_eq!(checkpoint_index("nimbers_12a"), None);
    assert_eq!(checkpoint_index("nimbers_-3"), None);
    assert_eq!(checkpoint_index(""), None);
}

#[test]
fn a_window_answers_for_its_heaps() {
    let m = Mmap::new(String::from("nimbers_0.034_"), vec![5, 6, 7, 8], 12);
    assert_eq!(m.at(8), Fetch::Value(5));
    assert_eq!(m.at(9), Fetch::Value(6));
    assert_eq!(m.at(11), Fetch::Value(8));
    assert_eq!(m.at(12), Fetch::Load(16));
    assert_eq!(m.at(7), Fetch::Load(8));
    assert_eq!(m.at(0), Fetch::Load(4));
    assert_eq!(m.at(23), Fetch::Load(24));
    assert_eq!(m.path, "nimbers_0.034_");
}

#[test]
fn a_window_is_replaced_by_the_one_that_was_asked_for() {
    let mut m = Mmap::new(String::from("p"), vec![5, 6, 7, 8], 4);
    assert_eq!(m.at(5), Fetch::Load(8));
    m.refill(vec![1, 2, 3, 4], 8);
    assert_eq!(m.at(5), Fetch::Value(2));
    assert_eq!(m.at(3), Fetch::Load(4));
    assert_eq!(m.end, 8);
    assert_eq!(m.path, "p");
}

#[test]
fn two_windows_start_alike() {
    let mem = Mem::new(String::from("p"), vec![3, 1, 4], 3);
    assert_eq!(mem.left.buf, vec![3, 1, 4]);
    assert_eq!(mem.right.buf, vec![3, 1, 4]);
    assert_eq!(mem.left.at(1), Fetch::Value(1));
    assert_eq!(mem.right.at(2), Fetch::Value(4));
    assert_eq!(mem.right.at(3), Fetch::Load(6));
    assert_eq!((mem.left.end, mem.right.end), (3, 3));
}
