//! Rectangular grids stored row by row, positions as `(row, column)`, and
//! the four directions of movement between neighbouring cells.
use vstd::math::abs;
use vstd::prelude::*;

verus! {

/// A grid of cells, row by row.
pub type Grid<V> = Vec<Vec<V>>;

/// Whether `pos` names a cell of `grid`.
pub open spec fn in_grid<V>(grid: Seq<Vec<V>>, pos: (isize, isize)) -> bool {
    &&& 0 <= pos.0 < grid.len()
    &&& 0 <= pos.1 < grid[pos.0 as int].len()
}

/// The cell of `grid` at `pos`, which must be in the grid.
pub open spec fn cell<V>(grid: Seq<Vec<V>>, pos: (isize, isize)) -> V {
    grid[pos.0 as int][pos.1 as int]
}

/// Every row and column index of the grid fits in an `isize`.
pub open spec fn indexable<V>(grid: Seq<Vec<V>>) -> bool {
    &&& grid.len() <= isize::MAX
    &&& forall|r: int| 0 <= r < grid.len() ==> #[trigger] grid[r].len() <= isize::MAX
}

/// The cell at `pos`, or `None` when `pos` lies outside the grid.
pub fn get_at<V>(grid: &Grid<V>, pos: (isize, isize)) -> (r: Option<&V>)
    ensures
        match r {
            Some(v) => in_grid(grid@, pos) && *v == cell(grid@, pos),
            None => !in_grid(grid@, pos),
        },
{
    let (row, col) = pos;
    if row < 0 || col < 0 {
        return None;
    }
    let row = row as usize;
    let col = col as usize;
    if row >= grid.len() {
        return None;
    }
    let line = &grid[row];
    if col >= line.len() {
        return None;
    }
    Some(&line[col])
}

/// Adds two vectors.
pub fn vec_add(v: (isize, isize), v2: (isize, isize)) -> (r: (isize, isize))
    requires
        isize::MIN <= v.0 + v2.0 <= isize::MAX,
        isize::MIN <= v.1 + v2.1 <= isize::MAX,
    ensures
        r.0 == v.0 + v2.0,
        r.1 == v.1 + v2.1,
{
    (v.0 + v2.0, v.1 + v2.1)
}

/// Subtracts the second vector from the first.
pub fn vec_sub(v: (isize, isize), v2: (isize, isize)) -> (r: (isize, isize))
    requires
        isize::MIN <= v.0 - v2.0 <= isize::MAX,
        isize::MIN <= v.1 - v2.1 <= isize::MAX,
    ensures
        r.0 == v.0 - v2.0,
        r.1 == v.1 - v2.1,
{
    (v.0 - v2.0, v.1 - v2.1)
}

/// Multiplies both components by `factor`.
pub fn scale(v: (isize, isize), factor: isize) -> (r: (isize, isize))
    requires
        isize::MIN <= v.0 * factor <= isize::MAX,
        isize::MIN <= v.1 * factor <= isize::MAX,
    ensures
        r.0 == v.0 * factor,
        r.1 == v.1 * factor,
{
    (v.0 * factor, v.1 * factor)
}

/// Greatest common divisor, by Euclid's algorithm.
pub open spec fn gcd(x: nat, y: nat) -> nat
    decreases y,
{
    if y == 0 {
        x
    } else {
        gcd(y, x % y)
    }
}

/// The greatest common divisor divides both numbers, and is positive unless
/// both are zero.
pub proof fn lemma_gcd_divides(x: nat, y: nat)
    ensures
        gcd(x, y) == 0 ==> x == 0 && y == 0,
        gcd(x, y) > 0 ==> x % gcd(x, y) == 0 && y % gcd(x, y) == 0,
    decreases y,
{
    if y > 0 {
        lemma_gcd_divides(y, x % y);
        let g = gcd(y, x % y);
        assert(g > 0) by {
            if g == 0 {
                assert(y == 0);
            }
        }
        // x = (x / y) * y + x % y, and g divides both terms.
        let q = x / y;
        let r = x % y;
        assert(x == q * y + r) by (nonlinear_arith)
            requires
                y > 0,
                q == x / y,
                r == x % y,
        ;
        let a = y / g;
        let b = r / g;
        assert(y == a * g) by (nonlinear_arith)
            requires
                g > 0,
                y % g == 0,
                a == y / g,
        ;
        assert(r == b * g) by (nonlinear_arith)
            requires
                g > 0,
                r % g == 0,
                b == r / g,
        ;
        assert(x == (q * a + b) * g) by (nonlinear_arith)
            requires
                x == q * y + r,
                y == a * g,
                r == b * g,
        ;
        vstd::arithmetic::div_mod::lemma_mod_multiples_basic((q * a + b) as int, g as int);
    }
}

/// Euclid's algorithm on non-negative numbers.
fn gcd_of(x: isize, y: isize) -> (r: isize)
    requires
        x >= 0,
        y >= 0,
    ensures
        r >= 0,
        r as nat == gcd(x as nat, y as nat),
{
    let mut a = x;
    let mut b = y;
    while b != 0
        invariant
            a >= 0,
            b >= 0,
            gcd(a as nat, b as nat) == gcd(x as nat, y as nat),
        decreases b,
    {
        let t = b;
        b = a % b;
        a = t;
    }
    a
}

/// The vector divided by the greatest common divisor of its components: the
/// shortest vector with integer components in the same direction.
pub fn reduce_vec(v: (isize, isize)) -> (r: (isize, isize))
    requires
        v != (0isize, 0isize),
        v.0 != isize::MIN,
        v.1 != isize::MIN,
    ensures
        ({
            let g = gcd(abs(v.0 as int) as nat, abs(v.1 as int) as nat) as int;
            &&& g > 0
            &&& r.0 * g == v.0
            &&& r.1 * g == v.1
        }),
{
    let (a, b) = v;
    let aa: isize = if a < 0 { -a } else { a };
    let bb: isize = if b < 0 { -b } else { b };
    let divisor = gcd_of(aa, bb);
    proof {
        lemma_gcd_divides(aa as nat, bb as nat);
        assert(divisor > 0);
    }
    // Divide the magnitudes, which the divisor divides exactly, and restore the signs.
    let qa = aa / divisor;
    let qb = bb / divisor;
    proof {
        vstd::arithmetic::div_mod::lemma_fundamental_div_mod(aa as int, divisor as int);
        vstd::arithmetic::div_mod::lemma_fundamental_div_mod(bb as int, divisor as int);
        assert((aa as int) % (divisor as int) == 0);
        assert((bb as int) % (divisor as int) == 0);
        assert(qa * divisor == aa) by (nonlinear_arith)
            requires
                aa == divisor * (aa / divisor) + aa % divisor,
                aa % divisor == 0,
                qa == aa / divisor,
        ;
        assert(qb * divisor == bb) by (nonlinear_arith)
            requires
                bb == divisor * (bb / divisor) + bb % divisor,
                bb % divisor == 0,
                qb == bb / divisor,
        ;
    }
    let ra: isize = if a < 0 { -qa } else { qa };
    let rb: isize = if b < 0 { -qb } else { qb };
    proof {
        assert(ra * divisor == a) by (nonlinear_arith)
            requires
                qa * divisor == aa,
                aa == (if a < 0 { -(a as int) } else { a as int }),
                ra == (if a < 0 { -(qa as int) } else { qa as int }),
        ;
        assert(rb * divisor == b) by (nonlinear_arith)
            requires
                qb * divisor == bb,
                bb == (if b < 0 { -(b as int) } else { b as int }),
                rb == (if b < 0 { -(qb as int) } else { qb as int }),
        ;
    }
    (ra, rb)
}

/// A direction of movement on the grid.
#[derive(Debug, Clone, Copy, PartialEq, Eq, Structural, Hash)]
pub enum Direction {
    Up,
    Down,
    Left,
    Right,
}

/// The change of `(row, column)` that one step in `d` makes.
pub open spec fn delta(d: Direction) -> (int, int) {
    match d {
        Direction::Up => (-1, 0),
        Direction::Down => (1, 0),
        Direction::Left => (0, -1),
        Direction::Right => (0, 1),
    }
}

/// The position one step from `cur` in direction `d`.
pub open spec fn step(d: Direction, cur: (isize, isize)) -> (isize, isize) {
    ((cur.0 + delta(d).0) as isize, (cur.1 + delta(d).1) as isize)
}

/// One step from `cur` in direction `d` stays within `isize`.
pub open spec fn step_fits(d: Direction, cur: (isize, isize)) -> bool {
    &&& isize::MIN <= cur.0 + delta(d).0 <= isize::MAX
    &&& isize::MIN <= cur.1 + delta(d).1 <= isize::MAX
}

impl Direction {
    /// The four directions: up, down, left, right.
    pub fn all_directions() -> (r: [Self; 4])
        ensures
            r@ == seq![Direction::Up, Direction::Down, Direction::Left, Direction::Right],
    {
        let r = [Self::Up, Self::Down, Self::Left, Self::Right];
        assert(r@ =~= seq![Direction::Up, Direction::Down, Direction::Left, Direction::Right]);
        r
    }

    /// The four diagonals, each as the pair of directions it combines.
    pub fn all_diagonals() -> (r: [[Self; 2]; 4])
        ensures
            r[0]@ == seq![Direction::Up, Direction::Left],
            r[1]@ == seq![Direction::Up, Direction::Right],
            r[2]@ == seq![Direction::Down, Direction::Left],
            r[3]@ == seq![Direction::Down, Direction::Right],
            r@.len() == 4,
    {
        let a = [Self::Up, Self::Left];
        let b = [Self::Up, Self::Right];
        let c = [Self::Down, Self::Left];
        let d = [Self::Down, Self::Right];
        assert(a@ =~= seq![Direction::Up, Direction::Left]);
        assert(b@ =~= seq![Direction::Up, Direction::Right]);
        assert(c@ =~= seq![Direction::Down, Direction::Left]);
        assert(d@ =~= seq![Direction::Down, Direction::Right]);
        [a, b, c, d]
    }

    /// The pair `[Up, Down]`, the directions this library calls horizontal.
    pub fn horizontal(self) -> (r: [Self; 2])
        ensures
            r@ == seq![Direction::Up, Direction::Down],
    {
        let r = [Self::Up, Self::Down];
        assert(r@ =~= seq![Direction::Up, Direction::Down]);
        r
    }

    /// The pair `[Left, Right]`, the directions this library calls vertical.
    pub fn vertical(self) -> (r: [Self; 2])
        ensures
            r@ == seq![Direction::Left, Direction::Right],
    {
        let r = [Self::Left, Self::Right];
        assert(r@ =~= seq![Direction::Left, Direction::Right]);
        r
    }

    /// Whether `self` is one of [`Direction::horizontal`].
    pub fn is_horizontal(self) -> (r: bool)
        ensures
            r == (self == Direction::Up || self == Direction::Down),
    {
        let h = self.horizontal();
        h[0] == self || h[1] == self
    }

    /// Whether `self` is one of [`Direction::vertical`].
    pub fn is_vertical(self) -> (r: bool)
        ensures
            r == (self == Direction::Left || self == Direction::Right),
    {
        let v = self.vertical();
        v[0] == self || v[1] == self
    }

    /// The two directions at right angles to `self`.
    pub fn adjacent(self) -> (r: [Self; 2])
        ensures
            (self == Direction::Up || self == Direction::Down) ==> r@ == seq![Direction::Left, Direction::Right],
            (self == Direction::Left || self == Direction::Right) ==> r@ == seq![Direction::Up, Direction::Down],
    {
        if self.is_horizontal() {
            self.vertical()
        } else {
            self.horizontal()
        }
    }

    /// The opposite direction.
    pub fn invert(self) -> (r: Self)
        ensures
            delta(r).0 == -delta(self).0,
            delta(r).1 == -delta(self).1,
    {
        match self {
            Self::Up => Self::Down,
            Self::Down => Self::Up,
            Self::Left => Self::Right,
            Self::Right => Self::Left,
        }
    }

    /// The direction a quarter turn clockwise from `self`.
    pub fn rotate_90_right(&self) -> (r: Self)
        ensures
            delta(r) == (delta(*self).1, -delta(*self).0),
    {
        match self {
            Self::Up => Self::Right,
            Self::Down => Self::Left,
            Self::Left => Self::Up,
            Self::Right => Self::Down,
        }
    }

    /// The position one step from `cur` in this direction.
    pub fn apply(self, cur: (isize, isize)) -> (r: (isize, isize))
        requires
            step_fits(self, cur),
        ensures
            r.0 == cur.0 + delta(self).0,
            r.1 == cur.1 + delta(self).1,
    {
        let delta: (isize, isize) = match self {
            Self::Up => (-1, 0),
            Self::Right => (0, 1),
            Self::Left => (0, -1),
            Self::Down => (1, 0),
        };
        (cur.0 + delta.0, cur.1 + delta.1)
    }

    /// The position one step from `cur` against this direction.
    pub fn apply_inverse(self, cur: (isize, isize)) -> (r: (isize, isize))
        requires
            isize::MIN <= cur.0 - delta(self).0 <= isize::MAX,
            isize::MIN <= cur.1 - delta(self).1 <= isize::MAX,
        ensures
            r.0 == cur.0 - delta(self).0,
            r.1 == cur.1 - delta(self).1,
    {
        self.invert().apply(cur)
    }
}

/// The positions one step from `pos` in the directions `ds`, in that order,
/// less those outside the grid.
pub open spec fn steps_in_grid<V>(grid: Seq<Vec<V>>, pos: (isize, isize), ds: Seq<Direction>) -> Seq<(isize, isize)>
    decreases ds.len(),
{
    if ds.len() == 0 {
        Seq::empty()
    } else {
        let prev = steps_in_grid(grid, pos, ds.drop_last());
        if in_grid(grid, step(ds.last(), pos)) {
            prev.push(step(ds.last(), pos))
        } else {
            prev
        }
    }
}

/// The cells next to `pos` in the four directions, in the order of
/// [`Direction::all_directions`], each with its position; positions outside
/// the grid are left out.
pub fn neighbors<V>(grid: &Grid<V>, pos: (isize, isize)) -> (r: Vec<((isize, isize), &V)>)
    requires
        isize::MIN < pos.0 < isize::MAX,
        isize::MIN < pos.1 < isize::MAX,
    ensures
        forall|i: int| 0 <= i < r.len() ==> in_grid(grid@, #[trigger] r[i].0) && *r[i].1 == cell(grid@, r[i].0)
            && exists|d: Direction| r[i].0 == step(d, pos),
        forall|d: Direction| #[trigger] in_grid(grid@, step(d, pos))
            ==> exists|i: int| 0 <= i < r.len() && r[i].0 == step(d, pos),
        r@.map_values(|e: ((isize, isize), &V)| e.0) == steps_in_grid(
            grid@,
            pos,
            seq![Direction::Up, Direction::Down, Direction::Left, Direction::Right],
        ),
{
    let dirs = Direction::all_directions();
    let mut r: Vec<((isize, isize), &V)> = Vec::new();
    let mut k: usize = 0;
    while k < 4
        invariant
            0 <= k <= 4,
            dirs@ == seq![Direction::Up, Direction::Down, Direction::Left, Direction::Right],
            isize::MIN < pos.0 < isize::MAX,
            isize::MIN < pos.1 < isize::MAX,
            forall|i: int| 0 <= i < r.len() ==> in_grid(grid@, #[trigger] r[i].0) && *r[i].1 == cell(grid@, r[i].0)
                && exists|d: Direction| r[i].0 == step(d, pos),
            forall|l: int| 0 <= l < k ==> #[trigger] in_grid(grid@, step(dirs@[l], pos))
                ==> exists|i: int| 0 <= i < r.len() && r[i].0 == step(dirs@[l], pos),
            r@.map_values(|e: ((isize, isize), &V)| e.0) == steps_in_grid(grid@, pos, dirs@.take(k as int)),
        decreases 4 - k,
    {
        let d = dirs[k];
        let p = d.apply(pos);
        assert(p == step(d, pos));
        let ghost r0 = r@;
        proof {
            assert(dirs@.take(k + 1).drop_last() == dirs@.take(k as int));
            assert(dirs@.take(k + 1).last() == d);
        }
        match get_at(grid, p) {
            Some(v) => {
                r.push((p, v));
                proof {
                    assert(r@[r0.len() as int].0 == p);
                    assert(r@.map_values(|e: ((isize, isize), &V)| e.0) =~= r0.map_values(|e: ((isize, isize), &V)| e.0).push(p));
                    assert forall|i: int| 0 <= i < r.len() implies in_grid(grid@, #[trigger] r[i].0) && *r[i].1 == cell(grid@, r[i].0)
                        && exists|d: Direction| r[i].0 == step(d, pos) by {
                        if i < r0.len() {
                            assert(r[i] == r0[i]);
                        }
                    }
                    assert forall|l: int| 0 <= l < k + 1 && #[trigger] in_grid(grid@, step(dirs@[l], pos))
                        implies exists|i: int| 0 <= i < r.len() && r[i].0 == step(dirs@[l], pos) by {
                        if l < k {
                            let i = choose|i: int| 0 <= i < r0.len() && r0[i].0 == step(dirs@[l], pos);
                            assert(r[i] == r0[i]);
                        }
                    }
                }
            },
            None => {},
        }
        k = k + 1;
    }
    proof {
        assert forall|d: Direction| #[trigger] in_grid(grid@, step(d, pos))
            implies exists|i: int| 0 <= i < r.len() && r[i].0 == step(d, pos) by {
            let l: int = match d {
                Direction::Up => 0,
                Direction::Down => 1,
                Direction::Left => 2,
                Direction::Right => 3,
            };
            assert(dirs@[l] == d);
        }
        assert(dirs@.take(4) =~= seq![Direction::Up, Direction::Down, Direction::Left, Direction::Right]);
    }
    r
}

/// Every cell with its position, row by row, each once.
pub fn iter_pos<V>(grid: &Grid<V>) -> (r: Vec<((isize, isize), &V)>)
    requires
        indexable(grid@),
    ensures
        forall|i: int| 0 <= i < r.len() ==> in_grid(grid@, #[trigger] r[i].0) && *r[i].1 == cell(grid@, r[i].0),
        forall|p: (isize, isize)| #[trigger] in_grid(grid@, p) ==> exists|i: int| 0 <= i < r.len() && r[i].0 == p,
        forall|i: int, j: int| 0 <= i < j < r.len() ==> row_major_before(#[trigger] r[i].0, #[trigger] r[j].0),
{
    let mut r: Vec<((isize, isize), &V)> = Vec::new();
    let mut row: usize = 0;
    while row < grid.len()
        invariant
            0 <= row <= grid.len(),
            indexable(grid@),
            forall|i: int| 0 <= i < r.len() ==> in_grid(grid@, #[trigger] r[i].0) && *r[i].1 == cell(grid@, r[i].0),
            forall|p: (isize, isize)| #[trigger] in_grid(grid@, p) && p.0 < row ==> exists|i: int| 0 <= i < r.len() && r[i].0 == p,
            forall|i: int, j: int| 0 <= i < j < r.len() ==> row_major_before(#[trigger] r[i].0, #[trigger] r[j].0),
            forall|i: int| 0 <= i < r.len() ==> (#[trigger] r[i].0).0 < row,
        decreases grid.len() - row,
    {
        let line = &grid[row];
        let mut col: usize = 0;
        while col < line.len()
            invariant
                0 <= row < grid.len(),
                0 <= col <= line.len(),
                *line == grid@[row as int],
                indexable(grid@),
                forall|i: int| 0 <= i < r.len() ==> in_grid(grid@, #[trigger] r[i].0) && *r[i].1 == cell(grid@, r[i].0),
                forall|p: (isize, isize)| #[trigger] in_grid(grid@, p) && (p.0 < row || (p.0 == row && p.1 < col)) ==> exists|i: int| 0 <= i < r.len() && r[i].0 == p,
                forall|i: int, j: int| 0 <= i < j < r.len() ==> row_major_before(#[trigger] r[i].0, #[trigger] r[j].0),
                forall|i: int| 0 <= i < r.len() ==> row_major_before(#[trigger] r[i].0, (row as isize, col as isize)),
                grid@.len() <= isize::MAX,
            decreases line.len() - col,
        {
            proof {
                assert(grid@[row as int].len() <= isize::MAX);
            }
            let p: (isize, isize) = (row as isize, col as isize);
            let ghost r0 = r@;
            r.push((p, &line[col]));
            proof {
                assert forall|i: int, j: int| 0 <= i < j < r.len() implies row_major_before(#[trigger] r[i].0, #[trigger] r[j].0) by {
                    if j < r0.len() {
                        assert(r[i] == r0[i] && r[j] == r0[j]);
                    } else {
                        assert(r[i] == r0[i]);
                    }
                }
                assert forall|i: int| 0 <= i < r.len() implies row_major_before(#[trigger] r[i].0, (row as isize, (col + 1) as isize)) by {
                    if i < r0.len() {
                        assert(r[i] == r0[i]);
                    }
                }
                assert forall|q: (isize, isize)| #[trigger] in_grid(grid@, q) && (q.0 < row || (q.0 == row && q.1 < col + 1)) implies exists|i: int| 0 <= i < r.len() && r[i].0 == q by {
                    if q == p {
                        assert(r[r0.len() as int].0 == q);
                    } else {
                        let i = choose|i: int| 0 <= i < r0.len() && r0[i].0 == q;
                        assert(r[i].0 == q);
                    }
                }
            }
            col = col + 1;
        }
        row = row + 1;
    }
    r
}

/// The cell at `pos` for writing, or `None` when `pos` lies outside the grid.
pub fn get_at_mut<V>(grid: &mut Grid<V>, pos: (isize, isize)) -> (r: Option<&mut V>)
    ensures
        match r {
            Some(v) => {
                &&& in_grid(old(grid)@, pos)
                &&& *v == cell(old(grid)@, pos)
                &&& final(grid)@.len() == old(grid)@.len()
                &&& forall|i: int| 0 <= i < old(grid)@.len() && i != pos.0 ==> #[trigger] final(grid)@[i] == old(grid)@[i]
                &&& final(grid)@[pos.0 as int]@ == old(grid)@[pos.0 as int]@.update(pos.1 as int, *final(v))
            },
            None => !in_grid(old(grid)@, pos) && final(grid)@ == old(grid)@,
        },
{
    let (row, col) = pos;
    if row < 0 || col < 0 {
        return None;
    }
    let row = row as usize;
    let col = col as usize;
    if row >= grid.len() {
        return None;
    }
    if col >= grid[row].len() {
        return None;
    }
    Some(&mut grid[row][col])
}

/// `out` has the shape of `grid`, and each of its cells is what `f` returns
/// for the cell of `grid` at the same position.
pub open spec fn mapped_by<V, V2, F: Fn((isize, isize), &V) -> V2>(grid: Seq<Vec<V>>, f: F, out: Seq<Vec<V2>>) -> bool {
    &&& out.len() == grid.len()
    &&& forall|r: int| 0 <= r < grid.len() ==> #[trigger] out[r].len() == grid[r].len()
    &&& forall|r: int, c: int| 0 <= r < grid.len() && 0 <= c < grid[r].len() ==> f.ensures(((r as isize, c as isize), &grid[r][c]), #[trigger] out[r]@[c])
}

/// A new grid of the same shape whose cell at each position is
/// `f(position, cell)`.
pub fn map<V, V2, F>(grid: &Grid<V>, f: F) -> (r: Grid<V2>)
    where
        F: Fn((isize, isize), &V) -> V2,
    requires
        indexable(grid@),
        forall|p: (isize, isize)| #[trigger] in_grid(grid@, p) ==> f.requires((p, &cell(grid@, p))),
    ensures
        mapped_by(grid@, f, r@),
{
    let mut out: Grid<V2> = Vec::new();
    let mut row: usize = 0;
    while row < grid.len()
        invariant
            0 <= row <= grid.len(),
            indexable(grid@),
            forall|p: (isize, isize)| #[trigger] in_grid(grid@, p) ==> f.requires((p, &cell(grid@, p))),
            out.len() == row,
            forall|r: int| 0 <= r < row ==> #[trigger] out@[r].len() == grid@[r].len(),
            forall|r: int, c: int| 0 <= r < row && 0 <= c < grid@[r].len() ==> f.ensures(((r as isize, c as isize), &grid@[r][c]), #[trigger] out@[r]@[c]),
        decreases grid.len() - row,
    {
        let line = &grid[row];
        let mut new_line: Vec<V2> = Vec::new();
        let mut col: usize = 0;
        while col < line.len()
            invariant
                0 <= row < grid.len(),
                0 <= col <= line.len(),
                *line == grid@[row as int],
                indexable(grid@),
                forall|p: (isize, isize)| #[trigger] in_grid(grid@, p) ==> f.requires((p, &cell(grid@, p))),
                new_line.len() == col,
                forall|c: int| 0 <= c < col ==> f.ensures(((row as isize, c as isize), &grid@[row as int][c]), #[trigger] new_line@[c]),
            decreases line.len() - col,
        {
            proof {
                assert(grid@[row as int].len() <= isize::MAX);
                assert(in_grid(grid@, (row as isize, col as isize)));
            }
            let v = f((row as isize, col as isize), &line[col]);
            new_line.push(v);
            col = col + 1;
        }
        out.push(new_line);
        row = row + 1;
    }
    out
}

/// `p` comes before `q` when the grid is read row by row.
pub open spec fn row_major_before(p: (isize, isize), q: (isize, isize)) -> bool {
    p.0 < q.0 || (p.0 == q.0 && p.1 < q.1)
}

/// `f` may succeed on the cell of `grid` at `q`.
pub open spec fn ok_at<V, V2, E, F: Fn((isize, isize), &V) -> Result<V2, E>>(f: F, grid: Seq<Vec<V>>, q: (isize, isize)) -> bool {
    exists|v: V2| #[trigger] f.ensures((q, &cell(grid, q)), Ok(v))
}

/// Like [`map`], for an `f` that may fail: the first failure, row by row,
/// is returned.
pub fn map_result<V, V2, E, F>(grid: &Grid<V>, f: F) -> (r: Result<Grid<V2>, E>)
    where
        F: Fn((isize, isize), &V) -> Result<V2, E>,
    requires
        indexable(grid@),
        forall|p: (isize, isize)| #[trigger] in_grid(grid@, p) ==> f.requires((p, &cell(grid@, p))),
    ensures
        match r {
            Ok(out) => {
                &&& out@.len() == grid@.len()
                &&& forall|r: int| 0 <= r < grid@.len() ==> #[trigger] out@[r].len() == grid@[r].len()
                &&& forall|r: int, c: int| 0 <= r < grid@.len() && 0 <= c < grid@[r].len() ==> f.ensures(((r as isize, c as isize), &grid@[r][c]), Ok(#[trigger] out@[r]@[c]))
            },
            Err(e) => exists|p: (isize, isize)| #[trigger] in_grid(grid@, p) && f.ensures((p, &cell(grid@, p)), Err(e))
                && forall|q: (isize, isize)| #[trigger] in_grid(grid@, q) && row_major_before(q, p) ==> ok_at(f, grid@, q),
        },
{
    let mut out: Grid<V2> = Vec::new();
    let mut row: usize = 0;
    while row < grid.len()
        invariant
            0 <= row <= grid.len(),
            indexable(grid@),
            forall|p: (isize, isize)| #[trigger] in_grid(grid@, p) ==> f.requires((p, &cell(grid@, p))),
            out.len() == row,
            forall|r: int| 0 <= r < row ==> #[trigger] out@[r].len() == grid@[r].len(),
            forall|r: int, c: int| 0 <= r < row && 0 <= c < grid@[r].len() ==> f.ensures(((r as isize, c as isize), &grid@[r][c]), Ok(#[trigger] out@[r]@[c])),
        decreases grid.len() - row,
    {
        let line = &grid[row];
        let mut new_line: Vec<V2> = Vec::new();
        let mut col: usize = 0;
        while col < line.len()
            invariant
                0 <= row < grid.len(),
                0 <= col <= line.len(),
                *line == grid@[row as int],
                indexable(grid@),
                forall|p: (isize, isize)| #[trigger] in_grid(grid@, p) ==> f.requires((p, &cell(grid@, p))),
                new_line.len() == col,
                forall|c: int| 0 <= c < col ==> f.ensures(((row as isize, c as isize), &grid@[row as int][c]), Ok(#[trigger] new_line@[c])),
                out.len() == row,
                forall|r: int, c: int| 0 <= r < row && 0 <= c < grid@[r].len() ==> f.ensures(((r as isize, c as isize), &grid@[r][c]), Ok(#[trigger] out@[r]@[c])),
            decreases line.len() - col,
        {
            proof {
                assert(grid@[row as int].len() <= isize::MAX);
                assert(in_grid(grid@, (row as isize, col as isize)));
            }
            match f((row as isize, col as isize), &line[col]) {
                Ok(v) => new_line.push(v),
                Err(e) => {
                    proof {
                        let p = (row as isize, col as isize);
                        assert(in_grid(grid@, p));
                        assert(cell(grid@, p) == grid@[row as int][col as int]);
                        assert forall|q: (isize, isize)| #[trigger] in_grid(grid@, q) && row_major_before(q, p) implies ok_at(f, grid@, q) by {
                            let r = q.0 as int;
                            let c = q.1 as int;
                            assert((r as isize, c as isize) == q);
                            assert(cell(grid@, q) == grid@[r][c]);
                            if r < row {
                                assert(f.ensures(((r as isize, c as isize), &grid@[r][c]), Ok(out@[r]@[c])));
                            } else {
                                assert(f.ensures(((row as isize, c as isize), &grid@[row as int][c]), Ok(new_line@[c])));
                            }
                        }
                    }
                    return Err(e);
                },
            }
            col = col + 1;
        }
        out.push(new_line);
        row = row + 1;
    }
    Ok(out)
}

/// A grid of the same shape whose cells all hold `V2::default()`.
pub fn copy_default<V, V2: Default>(grid: &Grid<V>) -> (r: Vec<Vec<V2>>)
    ensures
        r@.len() == grid@.len(),
        forall|i: int| 0 <= i < grid@.len() ==> #[trigger] r@[i].len() == grid@[i].len(),
        forall|i: int, j: int| 0 <= i < grid@.len() && 0 <= j < grid@[i].len() ==> call_ensures(V2::default, (), #[trigger] r@[i]@[j]),
{
    let mut out: Vec<Vec<V2>> = Vec::new();
    let mut row: usize = 0;
    while row < grid.len()
        invariant
            0 <= row <= grid.len(),
            out.len() == row,
            forall|i: int| 0 <= i < row ==> #[trigger] out@[i].len() == grid@[i].len(),
            forall|i: int, j: int| 0 <= i < row && 0 <= j < grid@[i].len() ==> call_ensures(V2::default, (), #[trigger] out@[i]@[j]),
        decreases grid.len() - row,
    {
        let mut line: Vec<V2> = Vec::new();
        let mut col: usize = 0;
        while col < grid[row].len()
            invariant
                0 <= row < grid.len(),
                0 <= col <= grid@[row as int].len(),
                line.len() == col,
                forall|j: int| 0 <= j < col ==> call_ensures(V2::default, (), #[trigger] line@[j]),
            decreases grid@[row as int].len() - col,
        {
            line.push(V2::default());
            col = col + 1;
        }
        out.push(line);
        row = row + 1;
    }
    out
}

} // verus!
