use strumyk::{Bitfield, PiecePicker};

fn bits(set: &[usize], len: usize) -> Bitfield {
    let mut bits = Bitfield::repeat(false, len);
    for index in set {
        bits.set(*index, true);
    }
    bits
}

#[test]
fn pieces_are_picked_in_the_order_of_their_announcement() {
    let mut picker = PiecePicker::new(6, bits(&[], 6));
    picker.update(1, bits(&[4], 6));
    picker.update(2, bits(&[1, 4, 5], 6));
    assert_eq!(picker.next(2), 4);
    assert_eq!(picker.next(2), 1);
    assert_eq!(picker.next(2), 5);
    assert!(!picker.has_next(2));
}

#[test]
fn only_pieces_of_the_peer_are_picked() {
    let mut picker = PiecePicker::new(4, bits(&[], 4));
    picker.update(1, bits(&[0, 1], 4));
    picker.update(2, bits(&[3], 4));
    assert!(!picker.has_next(3));
    assert_eq!(picker.next(2), 3);
    assert!(!picker.has_next(2));
    assert_eq!(picker.next(1), 0);
}

#[test]
fn completed_pieces_are_not_picked() {
    let mut picker = PiecePicker::new(3, bits(&[0, 2], 3));
    picker.update(1, bits(&[0, 1, 2], 3));
    assert_eq!(picker.next(1), 1);
    assert!(!picker.has_next(1));
    assert!(picker.completed());
}

#[test]
fn no_piece_is_picked_twice() {
    let mut picker = PiecePicker::new(2, bits(&[], 2));
    picker.update(1, bits(&[0, 1], 2));
    assert_eq!(picker.next(1), 0);
    picker.update(1, bits(&[0, 1], 2));
    picker.update(2, bits(&[0], 2));
    assert!(!picker.has_next(2));
    assert_eq!(picker.next(1), 1);
    assert!(!picker.has_next(1));
}

#[test]
fn download_is_complete_when_all_is_picked() {
    let mut picker = PiecePicker::new(2, bits(&[], 2));
    assert!(!picker.completed());
    picker.update(9, bits(&[0, 1], 2));
    picker.next(9);
    picker.finished(0);
    assert!(!picker.completed());
    picker.next(9);
    picker.finished(1);
    assert!(picker.completed());
}

#[test]
fn announcements_of_unknown_pieces_are_told() {
    let mut picker = PiecePicker::new(3, bits(&[], 3));
    assert!(picker.covers(&bits(&[0, 2], 8)));
    assert!(!picker.covers(&bits(&[0, 3], 8)));
    picker.update(1, bits(&[2], 8));
    assert_eq!(picker.next(1), 2);
}

#[test]
fn empty_download_is_complete() {
    assert!(PiecePicker::new(0, bits(&[], 0)).completed());
}

#[test]
fn run_of_calls_returns_each_clear_piece_once() {
    let clear: [usize; 4] = [1, 2, 4, 5];
    let mut picker = PiecePicker::new(6, bits(&[0, 3], 6));
    picker.update(1, bits(&[0, 2, 5], 6));
    let mut returned = vec![picker.next(1)];
    picker.update(2, Bitfield::repeat(true, 6));
    picker.finished(2);
    while picker.has_next(2) {
        assert!(!picker.completed());
        assert!(returned.len() < clear.len());
        let piece = picker.next(2);
        picker.finished(piece);
        returned.push(piece);
    }
    assert!(picker.completed());
    assert_eq!(returned, vec![2, 5, 1, 4]);
    assert!(!picker.has_next(1));
}
