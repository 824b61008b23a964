use aoc24::secret::{changes, mix, next, next_iter, price, prune, push_shift};
use itertools::Itertools;

#[test]
fn mix_test() {
    assert_eq!(mix(42, 15), 37);
}

#[test]
fn next_test() {
    let test = [
        123, 15887950, 16495136, 527345, 704524, 1553684, 12683156, 11100544, 12249484, 7753432,
        5908254,
    ];

    for (first, second) in test.iter().cloned().tuple_windows() {
        assert_eq!(second, next(first));
    }
}

#[test]
fn changes_test() {
    let tests = next_iter(123, 10).into_iter().map(price).collect::<Vec<_>>();
    assert_eq!(tests, vec![3, 0, 6, 5, 4, 4, 6, 4, 4, 2]);

    let changes = changes(&tests);
    assert_eq!(
        changes,
        vec![
            (4, [-3, 6, -1, -1]),
            (4, [6, -1, -1, 0]),
            (6, [-1, -1, 0, 2]),
            (4, [-1, 0, 2, -2]),
            (4, [0, 2, -2, 0]),
            (2, [2, -2, 0, -2])
        ]
    );
}

#[test]
fn prune_and_price() {
    assert_eq!(prune(100000000), 16113920);
    assert_eq!(prune(16777216), 0);
    assert_eq!(price(15887950), 0);
    assert_eq!(price(1234567), 7);
}

#[test]
fn next_iter_lengths() {
    assert_eq!(next_iter(1, 0), Vec::<u64>::new());
    assert_eq!(next_iter(1, 1), vec![1]);
    let s = next_iter(123, 3);
    assert_eq!(s, vec![123, 15887950, 16495136]);
}

#[test]
fn push_shift_moves_left() {
    let mut a = [1, 2, 3, 4];
    push_shift(&mut a, 9);
    assert_eq!(a, [2, 3, 4, 9]);
    let mut b = [7];
    push_shift(&mut b, 8);
    assert_eq!(b, [8]);
}

#[test]
fn changes_of_short_input() {
    assert!(changes(&vec![1, 2, 3, 4]).is_empty());
    assert_eq!(changes(&vec![1, 2, 3, 4, 5]), vec![(5, [1, 1, 1, 1])]);
}
