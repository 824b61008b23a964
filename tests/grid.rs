use aoc24::grid::{
    copy_default, get_at, get_at_mut, iter_pos, map_result, neighbors, reduce_vec, scale,
    vec_add, vec_sub, Direction,
};

fn sample() -> Vec<Vec<char>> {
    vec![vec!['a', 'b', 'c'], vec!['d', 'e', 'f']]
}

#[test]
fn get_at_bounds() {
    let g = sample();
    assert_eq!(get_at(&g, (1, 2)), Some(&'f'));
    assert_eq!(get_at(&g, (0, 0)), Some(&'a'));
    assert_eq!(get_at(&g, (-1, 0)), None);
    assert_eq!(get_at(&g, (0, 3)), None);
    assert_eq!(get_at(&g, (2, 0)), None);
}

#[test]
fn get_at_mut_writes() {
    let mut g = sample();
    *get_at_mut(&mut g, (1, 1)).unwrap() = 'x';
    assert_eq!(g[1][1], 'x');
    assert!(get_at_mut(&mut g, (5, 5)).is_none());
}

#[test]
fn vector_arithmetic() {
    assert_eq!(vec_add((1, 2), (3, -4)), (4, -2));
    assert_eq!(vec_sub((1, 2), (3, -4)), (-2, 6));
    assert_eq!(scale((1, -2), 3), (3, -6));
}

#[test]
fn reduce_vec_divides_by_gcd() {
    assert_eq!(reduce_vec((4, 6)), (2, 3));
    assert_eq!(reduce_vec((-4, 6)), (-2, 3));
    assert_eq!(reduce_vec((0, -5)), (0, -1));
    assert_eq!(reduce_vec((7, 0)), (1, 0));
    assert_eq!(reduce_vec((3, 5)), (3, 5));
}

#[test]
fn neighbors_in_grid() {
    let g = sample();
    let n = neighbors(&g, (0, 0));
    assert_eq!(n, vec![((1, 0), &'d'), ((0, 1), &'b')]);
    let m = neighbors(&g, (1, 1));
    assert_eq!(m, vec![((0, 1), &'b'), ((1, 0), &'d'), ((1, 2), &'f')]);
}

#[test]
fn iter_pos_row_by_row() {
    let g = sample();
    let all: Vec<((isize, isize), char)> = iter_pos(&g).into_iter().map(|(p, v)| (p, *v)).collect();
    assert_eq!(
        all,
        vec![((0, 0), 'a'), ((0, 1), 'b'), ((0, 2), 'c'), ((1, 0), 'd'), ((1, 1), 'e'), ((1, 2), 'f')]
    );
}

#[test]
fn map_and_map_result() {
    let g = sample();
    let m = aoc24::grid::map(&g, |(r, c), v| format!("{}{}{}", v, r, c));
    assert_eq!(m[1][2], "f12");
    let ok: Result<Vec<Vec<u32>>, String> = map_result(&g, |_, v| Ok(*v as u32));
    assert_eq!(ok.unwrap()[0][1], 'b' as u32);
    let err: Result<Vec<Vec<u32>>, (isize, isize)> =
        map_result(&g, |p, v| if *v == 'e' || *v == 'f' { Err(p) } else { Ok(0) });
    assert_eq!(err, Err((1, 1)));
}

#[test]
fn copy_default_shape() {
    let g = vec![vec![1, 2], vec![], vec![3]];
    let d: Vec<Vec<bool>> = copy_default(&g);
    assert_eq!(d, vec![vec![false, false], vec![], vec![false]]);
}

#[test]
fn directions() {
    assert_eq!(
        Direction::all_directions(),
        [Direction::Up, Direction::Down, Direction::Left, Direction::Right]
    );
    assert_eq!(Direction::all_diagonals()[1], [Direction::Up, Direction::Right]);
    assert!(Direction::Up.is_horizontal());
    assert!(!Direction::Up.is_vertical());
    assert!(Direction::Left.is_vertical());
    assert_eq!(Direction::Up.adjacent(), [Direction::Left, Direction::Right]);
    assert_eq!(Direction::Right.adjacent(), [Direction::Up, Direction::Down]);
    assert_eq!(Direction::Left.invert(), Direction::Right);
    assert_eq!(Direction::Up.rotate_90_right(), Direction::Right);
    assert_eq!(Direction::Right.rotate_90_right(), Direction::Down);
    assert_eq!(Direction::Up.apply((3, 3)), (2, 3));
    assert_eq!(Direction::Right.apply((3, 3)), (3, 4));
    assert_eq!(Direction::Down.apply_inverse((3, 3)), (2, 3));
    assert_eq!(Direction::Left.horizontal(), [Direction::Up, Direction::Down]);
    assert_eq!(Direction::Left.vertical(), [Direction::Left, Direction::Right]);
}

#[test]
fn map_result_stops_at_first_error() {
    let g = vec![vec![1, 2], vec![3, 4]];
    let r: Result<Vec<Vec<i32>>, i32> = map_result(&g, |_, v| if *v >= 2 { Err(*v) } else { Ok(*v) });
    assert_eq!(r, Err(2));
}
