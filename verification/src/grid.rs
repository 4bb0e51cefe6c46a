//! Grid-world helpers: headings, turn actions, offsets and neighbour moves
//! on a rectangular grid of `rows` by `cols` cells, addressed as `(y, x)`.

use vstd::prelude::*;

verus! {

/// A heading on the grid.
#[derive(Clone, Copy, Debug, PartialEq, Eq, Structural)]
pub enum Dir {
    Up,
    Left,
    Down,
    Right,
}

/// A turn taken relative to the current heading.
#[derive(Clone, Copy, Debug, PartialEq, Eq, Structural)]
pub enum Action {
    LeftTurn,
    NoTurn,
    RightTurn,
}

/// A drift applied to an intended heading by a stochastic motion model.
#[derive(Clone, Copy, Debug, PartialEq, Eq, Structural)]
pub enum Offset {
    LeftOffset,
    NoOffset,
    RightOffset,
}

/// The non-negative remainder of `n` modulo `m`.
pub fn modulo(n: i32, m: i32) -> (r: i32)
    requires
        m > 0,
    ensures
        r as int == (n as int) % (m as int),
{
    let mu: u64 = m as u64;
    if n >= 0 {
        ((n as u64) % mu) as i32
    } else {
        let nm: u64 = ((-(n as i64)) as u64) % mu;
        proof {
            let a: int = -(n as int);
            let mi: int = m as int;
            let qa: int = a / mi;
            vstd::arithmetic::div_mod::lemma_fundamental_div_mod(a, mi);
            vstd::arithmetic::div_mod::lemma_mod_division_less_than_divisor(a, mi);
            if a % mi == 0 {
                assert(n as int == (-qa) * mi + 0) by (nonlinear_arith)
                    requires a == mi * qa + a % mi && a % mi == 0 && n as int == -a
                {}
                vstd::arithmetic::div_mod::lemma_fundamental_div_mod_converse_mod(
                    n as int, mi, -qa, 0,
                );
            } else {
                assert(n as int == (-qa - 1) * mi + (mi - a % mi)) by (nonlinear_arith)
                    requires a == mi * qa + a % mi && n as int == -a
                {}
                vstd::arithmetic::div_mod::lemma_fundamental_div_mod_converse_mod(
                    n as int, mi, -qa - 1, mi - a % mi,
                );
            }
        }
        if nm == 0 {
            0
        } else {
            (mu - nm) as i32
        }
    }
}

/// The cell one move in direction `dir` from `(y, x)`, or `None` when the
/// move leaves the `rows` by `cols` grid.
pub fn delta(pos: (usize, usize), dir: Dir, rows: usize, cols: usize) -> (r: Option<
    (usize, usize),
>)
    ensures
        r == delta_spec(pos, dir, rows as int, cols as int),
{
    let (y, x) = pos;
    match dir {
        Dir::Up => if y >= 1 && y <= rows && x < cols {
            Some((y - 1, x))
        } else {
            None
        },
        Dir::Left => if x >= 1 && x <= cols && y < rows {
            Some((y, x - 1))
        } else {
            None
        },
        Dir::Down => if y < rows && y + 1 < rows && x < cols {
            Some((y + 1, x))
        } else {
            None
        },
        Dir::Right => if x < cols && x + 1 < cols && y < rows {
            Some((y, x + 1))
        } else {
            None
        },
    }
}

/// What `delta` returns: the neighbour in direction `dir`, if it lies on the
/// grid.
pub open spec fn delta_spec(pos: (usize, usize), dir: Dir, rows: int, cols: int) -> Option<
    (usize, usize),
> {
    let y = pos.0 as int;
    let x = pos.1 as int;
    let y2 = match dir {
        Dir::Up => y - 1,
        Dir::Left => y,
        Dir::Down => y + 1,
        Dir::Right => y,
    };
    let x2 = match dir {
        Dir::Up => x,
        Dir::Left => x - 1,
        Dir::Down => x,
        Dir::Right => x + 1,
    };
    if 0 <= y2 < rows && 0 <= x2 < cols {
        Some((y2 as usize, x2 as usize))
    } else {
        None
    }
}

/// The cell one forward move in heading `dir` from `(y, x)`, or `None` when
/// it leaves the grid: the same move as `delta`.
pub fn forward(pos: (usize, usize), dir: Dir, rows: usize, cols: usize) -> (r: Option<
    (usize, usize),
>)
    ensures
        r == delta_spec(pos, dir, rows as int, cols as int),
{
    delta(pos, dir, rows, cols)
}

/// The glyph conventionally printed for a heading.
pub fn delta_name(dir: Dir) -> (r: char)
    ensures
        r == (match dir {
            Dir::Up => '^',
            Dir::Down => 'v',
            Dir::Left => '<',
            Dir::Right => '>',
        }),
{
    match dir {
        Dir::Up => '^',
        Dir::Down => 'v',
        Dir::Left => '<',
        Dir::Right => '>',
    }
}

/// The index under which tables store a heading.
pub fn from_dir(dir: Dir) -> (r: usize)
    ensures
        r == (match dir {
            Dir::Up => 0usize,
            Dir::Left => 1usize,
            Dir::Down => 2usize,
            Dir::Right => 3usize,
        }),
{
    match dir {
        Dir::Up => 0,
        Dir::Left => 1,
        Dir::Down => 2,
        Dir::Right => 3,
    }
}

/// The opposite heading.
pub fn opp_dir(dir: Dir) -> (r: Dir)
    ensures
        r == (match dir {
            Dir::Up => Dir::Down,
            Dir::Left => Dir::Right,
            Dir::Down => Dir::Up,
            Dir::Right => Dir::Left,
        }),
{
    match dir {
        Dir::Up => Dir::Down,
        Dir::Left => Dir::Right,
        Dir::Down => Dir::Up,
        Dir::Right => Dir::Left,
    }
}

/// The glyph conventionally printed for a turn action.
pub fn action_name(action: Action) -> (r: char)
    ensures
        r == (match action {
            Action::LeftTurn => 'L',
            Action::NoTurn => '#',
            Action::RightTurn => 'R',
        }),
{
    match action {
        Action::LeftTurn => 'L',
        Action::NoTurn => '#',
        Action::RightTurn => 'R',
    }
}

/// The cost charged for a turn action: left turns are dear, going straight
/// is cheap.
pub fn cost(action: Action) -> (r: usize)
    ensures
        r == (match action {
            Action::LeftTurn => 20usize,
            Action::NoTurn => 1usize,
            Action::RightTurn => 2usize,
        }),
{
    match action {
        Action::LeftTurn => 20,
        Action::NoTurn => 1,
        Action::RightTurn => 2,
    }
}

/// The heading after taking a turn action from the given heading.
pub fn apply_action_on_dir(dir: Dir, action: Action) -> (r: Dir)
    ensures
        r == apply_action_spec(dir, action),
{
    match dir {
        Dir::Up => match action {
            Action::LeftTurn => Dir::Left,
            Action::NoTurn => Dir::Up,
            Action::RightTurn => Dir::Right,
        },
        Dir::Left => match action {
            Action::LeftTurn => Dir::Down,
            Action::NoTurn => Dir::Left,
            Action::RightTurn => Dir::Up,
        },
        Dir::Down => match action {
            Action::LeftTurn => Dir::Right,
            Action::NoTurn => Dir::Down,
            Action::RightTurn => Dir::Left,
        },
        Dir::Right => match action {
            Action::LeftTurn => Dir::Up,
            Action::NoTurn => Dir::Right,
            Action::RightTurn => Dir::Down,
        },
    }
}

/// What `apply_action_on_dir` returns: a left turn rotates the heading
/// counter-clockwise, a right turn clockwise.
pub open spec fn apply_action_spec(dir: Dir, action: Action) -> Dir {
    match action {
        Action::NoTurn => dir,
        Action::LeftTurn => match dir {
            Dir::Up => Dir::Left,
            Dir::Left => Dir::Down,
            Dir::Down => Dir::Right,
            Dir::Right => Dir::Up,
        },
        Action::RightTurn => match dir {
            Dir::Up => Dir::Right,
            Dir::Left => Dir::Up,
            Dir::Down => Dir::Left,
            Dir::Right => Dir::Down,
        },
    }
}

/// The heading a stochastic motion actually takes when an offset drifts the
/// intended heading: the same rotation as the matching turn action.
pub fn apply_offset_on_dir(dir: Dir, offset: Offset) -> (r: Dir)
    ensures
        r == apply_action_spec(
            dir,
            match offset {
                Offset::LeftOffset => Action::LeftTurn,
                Offset::NoOffset => Action::NoTurn,
                Offset::RightOffset => Action::RightTurn,
            },
        ),
{
    match offset {
        Offset::LeftOffset => apply_action_on_dir(dir, Action::LeftTurn),
        Offset::NoOffset => dir,
        Offset::RightOffset => apply_action_on_dir(dir, Action::RightTurn),
    }
}

/// The heading the robot must have held before an action propagated it to
/// the given heading: the inverse rotation of `apply_action_on_dir`.
pub fn propagate_dir_from_action(action: Action, dir: Dir) -> (r: Dir)
    ensures
        apply_action_spec(r, action) == dir,
        r == (match action {
            Action::NoTurn => dir,
            Action::LeftTurn => match dir {
                Dir::Up => Dir::Right,
                Dir::Left => Dir::Up,
                Dir::Down => Dir::Left,
                Dir::Right => Dir::Down,
            },
            Action::RightTurn => match dir {
                Dir::Up => Dir::Left,
                Dir::Left => Dir::Down,
                Dir::Down => Dir::Right,
                Dir::Right => Dir::Up,
            },
        }),
{
    match action {
        Action::LeftTurn => match dir {
            Dir::Up => Dir::Right,
            Dir::Left => Dir::Up,
            Dir::Down => Dir::Left,
            Dir::Right => Dir::Down,
        },
        Action::NoTurn => dir,
        Action::RightTurn => match dir {
            Dir::Up => Dir::Left,
            Dir::Left => Dir::Down,
            Dir::Down => Dir::Right,
            Dir::Right => Dir::Up,
        },
    }
}

/// A cell of the searched grid: open ground or an obstacle.
#[derive(Clone, Copy, Debug, PartialEq, Eq, Structural)]
pub enum Space {
    O,
    X,
}

/// Whether `g` is a non-empty rectangular grid.
pub open spec fn grid_wf(g: Seq<Vec<Space>>) -> bool {
    g.len() >= 1 && g[0]@.len() >= 1 && forall|i: int|
        0 <= i < g.len() ==> (#[trigger] g[i])@.len() == g[0]@.len()
}

/// Whether some entry of the frontier or visited list names cell `(y, x)`.
pub open spec fn names_cell(l: Seq<(usize, usize, usize)>, y: int, x: int) -> bool {
    exists|t: int| 0 <= t < l.len() && (#[trigger] l[t]).0 == y && l[t].1 == x
}

/// Whether some entry of the list names the cell with flat index `id` on a
/// grid with `cols` columns.
pub open spec fn names_flat(l: Seq<(usize, usize, usize)>, cols: int, id: int) -> bool {
    exists|t: int| 0 <= t < l.len() && (#[trigger] l[t]).0 * cols + l[t].1 == id
}

/// Flat cell indices agree only on equal coordinates.
proof fn lemma_cell_flat(cols: int, y1: int, x1: int, y2: int, x2: int)
    requires
        cols >= 1,
        0 <= x1 < cols,
        0 <= x2 < cols,
        y1 * cols + x1 == y2 * cols + x2,
    ensures
        y1 == y2 && x1 == x2,
{
    assert(y1 == y2 && x1 == x2) by (nonlinear_arith)
        requires
            cols >= 1,
            0 <= x1 < cols,
            0 <= x2 < cols,
            y1 * cols + x1 == y2 * cols + x2,
    {}
}

/// Whether the list names cell `(y, x)`, checked.
fn contains_cell(l: &Vec<(usize, usize, usize)>, y: usize, x: usize) -> (r: bool)
    ensures
        r == names_cell(l@, y as int, x as int),
{
    let mut t: usize = 0;
    while t < l.len()
        invariant
            t <= l@.len(),
            forall|u: int| 0 <= u < t ==> !((#[trigger] l@[u]).0 == y && l@[u].1 == x),
        decreases l@.len() - t,
    {
        if l[t].0 == y && l[t].1 == x {
            return true;
        }
        t = t + 1;
    }
    false
}

/// Breadth-like search over a rectangular grid from `init` toward `goal`,
/// expanding each open cell at most once. Returns the goal cell with the
/// step count along the path the search took, or `None` when the goal was
/// never reached.
#[verifier::rlimit(60)]
pub fn search(grid: &Vec<Vec<Space>>, init: (usize, usize), goal: (usize, usize)) -> (r: Option<
    (usize, usize, usize),
>)
    requires
        grid_wf(grid@),
        init.0 < grid@.len(),
        init.1 < grid@[0]@.len(),
        grid@.len() * grid@[0]@.len() < usize::MAX,
    ensures
        r matches Some(c) ==> c.0 == goal.0 && c.1 == goal.1
            && c.2 <= grid@.len() * grid@[0]@.len(),
{
    let rows = grid.len();
    let cols = grid[0].len();
    let ghost cells = rows as int * cols as int;
    let mut open: Vec<(usize, usize, usize)> = Vec::new();
    let mut close: Vec<(usize, usize, usize)> = Vec::new();
    let ghost mut seen: Set<int> = Set::empty().insert(init.0 as int * cols as int + init.1 as int);
    open.push((init.0, init.1, 0));
    proof {
        vstd::set_lib::lemma_int_range(0, cells);
        lemma_ix_grid(rows as int, cols as int, init.0 as int, init.1 as int);
        assert(seen.subset_of(vstd::set_lib::set_int_range(0, cells)));
        vstd::set_lib::lemma_len_subset(seen, vstd::set_lib::set_int_range(0, cells));
        assert(open@[0] == (init.0, init.1, 0usize));
        assert(names_flat(open@, cols as int, init.0 as int * cols as int + init.1 as int));
        assert(seen.len() == 1);
    }
    while open.len() > 0
        invariant
            grid_wf(grid@),
            rows == grid@.len(),
            cols == grid@[0]@.len(),
            cells == rows as int * cols as int,
            cells < usize::MAX,
            seen.finite(),
            seen.len() <= cells,
            forall|id: int| seen.contains(id) ==> 0 <= id < cells,
            forall|id: int|
                seen.contains(id) ==> names_flat(open@, cols as int, id) || names_flat(
                    close@, cols as int, id,
                ),
            forall|t: int|
                0 <= t < open@.len() ==> (#[trigger] open@[t]).0 < rows && open@[t].1 < cols
                    && open@[t].2 <= seen.len() && seen.contains(
                    open@[t].0 * cols as int + open@[t].1,
                ),
            forall|t: int|
                0 <= t < close@.len() ==> (#[trigger] close@[t]).0 < rows && close@[t].1 < cols,
        decreases open@.len() + 2 * (cells - seen.len()),
    {
        let ghost open0 = open@;
        let ghost close0 = close@;
        let cell = match open.pop() {
            Some(c) => c,
            None => {
                proof {
                    assert(false);
                }
                return None;
            },
        };
        close.push(cell);
        proof {
            assert(cell == open0[open0.len() - 1]);
            assert forall|id: int| seen.contains(id) implies names_flat(open@, cols as int, id)
                || names_flat(close@, cols as int, id) by {
                if names_flat(open0, cols as int, id) {
                    let t = choose|t: int|
                        0 <= t < open0.len() && (#[trigger] open0[t]).0 * cols as int + open0[t].1
                            == id;
                    if t < open0.len() - 1 {
                        assert(open@[t] == open0[t]);
                    } else {
                        assert(close@[close@.len() - 1] == cell);
                    }
                } else {
                    let t = choose|t: int|
                        0 <= t < close0.len() && (#[trigger] close0[t]).0 * cols as int
                            + close0[t].1 == id;
                    assert(close@[t] == close0[t]);
                }
            }
        }
        if cell.0 == goal.0 && cell.1 == goal.1 {
            return Some(cell);
        }
        let g2 = cell.2 + 1;
        let mut neighbors: Vec<(usize, usize, usize)> = Vec::new();
        if let Some((y2, x2)) = delta((cell.0, cell.1), Dir::Up, rows, cols) {
            neighbors.push((y2, x2, g2));
        }
        if let Some((y2, x2)) = delta((cell.0, cell.1), Dir::Left, rows, cols) {
            neighbors.push((y2, x2, g2));
        }
        if let Some((y2, x2)) = delta((cell.0, cell.1), Dir::Down, rows, cols) {
            neighbors.push((y2, x2, g2));
        }
        if let Some((y2, x2)) = delta((cell.0, cell.1), Dir::Right, rows, cols) {
            neighbors.push((y2, x2, g2));
        }
        let ghost seen_at_pop = seen;
        let mut u: usize = 0;
        while u < neighbors.len()
            invariant
                grid_wf(grid@),
                rows == grid@.len(),
                cols == grid@[0]@.len(),
                cells == rows as int * cols as int,
                cells < usize::MAX,
                u <= neighbors@.len(),
                seen.finite(),
                seen.len() <= cells,
                forall|t: int|
                    0 <= t < neighbors@.len() ==> (#[trigger] neighbors@[t]).0 < rows
                        && neighbors@[t].1 < cols && neighbors@[t].2 == g2,
                g2 <= seen_at_pop.len() + 1,
                seen_at_pop.len() <= seen.len(),
                forall|id: int| seen.contains(id) ==> 0 <= id < cells,
                forall|id: int|
                    seen.contains(id) ==> names_flat(open@, cols as int, id) || names_flat(
                        close@, cols as int, id,
                    ),
                forall|t: int|
                    0 <= t < open@.len() ==> (#[trigger] open@[t]).0 < rows && open@[t].1 < cols
                        && open@[t].2 <= seen.len() && seen.contains(
                        open@[t].0 * cols as int + open@[t].1,
                    ),
                forall|t: int|
                    0 <= t < close@.len() ==> (#[trigger] close@[t]).0 < rows
                        && close@[t].1 < cols,
                open@.len() + 2 * (cells - seen.len()) <= open0.len() - 1 + 2 * (
                cells - seen_at_pop.len()),
            decreases neighbors@.len() - u,
        {
            let (y2, x2, gg) = neighbors[u];
            if grid[y2][x2] == Space::X {
                let ghost closeb = close@;
                close.push((y2, x2, gg));
                proof {
                    assert forall|id: int| seen.contains(id) implies names_flat(
                        open@, cols as int, id,
                    ) || names_flat(close@, cols as int, id) by {
                        if names_flat(closeb, cols as int, id) {
                            let t = choose|t: int|
                                0 <= t < closeb.len() && (#[trigger] closeb[t]).0 * cols as int
                                    + closeb[t].1 == id;
                            assert(close@[t] == closeb[t]);
                        }
                    }
                }
            } else {
                if !contains_cell(&open, y2, x2) && !contains_cell(&close, y2, x2) {
                    proof {
                        let id = y2 as int * cols as int + x2 as int;
                        lemma_ix_grid(rows as int, cols as int, y2 as int, x2 as int);
                        if seen.contains(id) {
                            if names_flat(open@, cols as int, id) {
                                let t = choose|t: int|
                                    0 <= t < open@.len() && (#[trigger] open@[t]).0 * cols as int
                                        + open@[t].1 == id;
                                lemma_cell_flat(
                                    cols as int, open@[t].0 as int, open@[t].1 as int,
                                    y2 as int, x2 as int,
                                );
                                assert(names_cell(open@, y2 as int, x2 as int));
                            } else {
                                let t = choose|t: int|
                                    0 <= t < close@.len() && (#[trigger] close@[t]).0 * cols as int
                                        + close@[t].1 == id;
                                lemma_cell_flat(
                                    cols as int, close@[t].0 as int, close@[t].1 as int,
                                    y2 as int, x2 as int,
                                );
                                assert(names_cell(close@, y2 as int, x2 as int));
                            }
                            assert(false);
                        }
                        seen = seen.insert(id);
                        vstd::set_lib::lemma_int_range(0, cells);
                        vstd::set_lib::lemma_len_subset(
                            seen, vstd::set_lib::set_int_range(0, cells),
                        );
                    }
                    let ghost openb = open@;
                    open.push((y2, x2, gg));
                    proof {
                        assert forall|id: int| seen.contains(id) implies names_flat(
                            open@, cols as int, id,
                        ) || names_flat(close@, cols as int, id) by {
                            if id == y2 as int * cols as int + x2 as int {
                                assert(open@[open@.len() - 1] == (y2, x2, gg));
                            } else {
                                if names_flat(openb, cols as int, id) {
                                    let t = choose|t: int|
                                        0 <= t < openb.len() && (#[trigger] openb[t]).0
                                            * cols as int + openb[t].1 == id;
                                    assert(open@[t] == openb[t]);
                                }
                            }
                        }
                        assert forall|t: int|
                            0 <= t < open@.len() implies (#[trigger] open@[t]).0 < rows
                            && open@[t].1 < cols && open@[t].2 <= seen.len() && seen.contains(
                            open@[t].0 * cols as int + open@[t].1,
                        ) by {
                            if t < open@.len() - 1 {
                                assert(open@[t] == openb[t]);
                            }
                        }
                    }
                }
            }
            u = u + 1;
        }
    }
    None
}

/// A cell's flat index lies inside the grid's cell count.
proof fn lemma_ix_grid(rows: int, cols: int, y: int, x: int)
    requires
        0 <= y < rows,
        0 <= x < cols,
    ensures
        0 <= y * cols + x < rows * cols,
{
    assert(0 <= y * cols + x < rows * cols) by (nonlinear_arith)
        requires 0 <= y < rows, 0 <= x < cols
    {}
}

} // verus!

verus! {

/// The sum of the first `j` entries of a row of cell values.
pub open spec fn sum_row(s: Seq<usize>, j: int) -> int
    decreases j,
{
    if j <= 0 {
        0
    } else {
        sum_row(s, j - 1) + s[j - 1]
    }
}

/// The sum of all entries of the first `i` rows of a value table.
pub open spec fn sum_grid(s: Seq<Vec<usize>>, i: int) -> int
    decreases i,
{
    if i <= 0 {
        0
    } else {
        sum_grid(s, i - 1) + sum_row(s[i - 1]@, s[i - 1]@.len() as int)
    }
}

/// A row sum of cell values is non-negative.
proof fn lemma_sum_row_nonneg(s: Seq<usize>, j: int)
    ensures
        sum_row(s, j) >= 0,
    decreases j,
{
    if j > 0 {
        lemma_sum_row_nonneg(s, j - 1);
    }
}

/// A table sum of cell values is non-negative.
proof fn lemma_sum_grid_nonneg(s: Seq<Vec<usize>>, i: int)
    ensures
        sum_grid(s, i) >= 0,
    decreases i,
{
    if i > 0 {
        lemma_sum_grid_nonneg(s, i - 1);
        lemma_sum_row_nonneg(s[i - 1]@, s[i - 1]@.len() as int);
    }
}

/// Updating one entry of a row moves its sum by the difference.
proof fn lemma_sum_row_update(s: Seq<usize>, j: int, k: int, v: usize)
    requires
        0 <= k < j <= s.len(),
    ensures
        sum_row(s.update(k, v), j) == sum_row(s, j) - s[k] + v,
    decreases j,
{
    if k < j - 1 {
        lemma_sum_row_update(s, j - 1, k, v);
        assert(s.update(k, v)[j - 1] == s[j - 1]);
    } else {
        assert(sum_row(s.update(k, v), j - 1) == sum_row(s, j - 1)) by {
            lemma_sum_row_agree(s.update(k, v), s, j - 1);
        }
    }
}

/// Rows that agree on a prefix have equal prefix sums.
proof fn lemma_sum_row_agree(a: Seq<usize>, b: Seq<usize>, j: int)
    requires
        j <= a.len(),
        j <= b.len(),
        forall|t: int| 0 <= t < j ==> a[t] == b[t],
    ensures
        sum_row(a, j) == sum_row(b, j),
    decreases j,
{
    if j > 0 {
        lemma_sum_row_agree(a, b, j - 1);
    }
}

/// Replacing one row of a table moves its sum by the difference of the row
/// sums.
proof fn lemma_sum_grid_update(s: Seq<Vec<usize>>, i: int, k: int, row: Vec<usize>)
    requires
        0 <= k < i <= s.len(),
    ensures
        sum_grid(s.update(k, row), i) == sum_grid(s, i)
            - sum_row(s[k]@, s[k]@.len() as int) + sum_row(row@, row@.len() as int),
    decreases i,
{
    if k < i - 1 {
        lemma_sum_grid_update(s, i - 1, k, row);
        assert(s.update(k, row)[i - 1] == s[i - 1]);
    } else {
        assert(sum_grid(s.update(k, row), i - 1) == sum_grid(s, i - 1)) by {
            lemma_sum_grid_agree(s.update(k, row), s, i - 1);
        }
    }
}

/// Tables that agree on a prefix of rows have equal prefix sums.
proof fn lemma_sum_grid_agree(a: Seq<Vec<usize>>, b: Seq<Vec<usize>>, i: int)
    requires
        i <= a.len(),
        i <= b.len(),
        forall|t: int| 0 <= t < i ==> a[t] == b[t],
    ensures
        sum_grid(a, i) == sum_grid(b, i),
    decreases i,
{
    if i > 0 {
        lemma_sum_grid_agree(a, b, i - 1);
    }
}

/// A `rows` by `cols` table filled with one value.
fn fill_grid<T: Copy>(rows: usize, cols: usize, v: T) -> (r: Vec<Vec<T>>)
    ensures
        r@.len() == rows,
        forall|i: int| 0 <= i < rows ==> (#[trigger] r@[i])@.len() == cols,
        forall|i: int, j: int| 0 <= i < rows && 0 <= j < cols ==> #[trigger] r@[i]@[j] == v,
    decreases rows,
{
    let mut r: Vec<Vec<T>> = Vec::new();
    let mut i: usize = 0;
    while i < rows
        invariant
            i <= rows,
            r@.len() == i,
            forall|p: int| 0 <= p < i ==> (#[trigger] r@[p])@.len() == cols,
            forall|p: int, q: int| 0 <= p < i && 0 <= q < cols ==> #[trigger] r@[p]@[q] == v,
        decreases rows - i,
    {
        let mut row: Vec<T> = Vec::new();
        let mut j: usize = 0;
        while j < cols
            invariant
                j <= cols,
                row@.len() == j,
                forall|q: int| 0 <= q < j ==> #[trigger] row@[q] == v,
            decreases cols - j,
        {
            row.push(v);
            j = j + 1;
        }
        r.push(row);
        proof {
            assert(r@[i as int]@ == row@);
        }
        i = i + 1;
    }
    r
}

} // verus!

verus! {

/// Whether `v` is a value table for the grid shape with every cell at most
/// the unreached marker 99.
pub open spec fn values_wf(v: Seq<Vec<usize>>, rows: int, cols: int) -> bool {
    &&& v.len() == rows
    &&& forall|i: int| 0 <= i < rows ==> (#[trigger] v[i])@.len() == cols
    &&& forall|i: int, j: int| 0 <= i < rows && 0 <= j < cols ==> #[trigger] v[i]@[j] <= 99
}

/// Whether every frontier entry carries a value below the marker and a cell
/// inside the grid.
pub open spec fn frontier_wf(open: Seq<(usize, usize, usize)>, rows: int, cols: int) -> bool {
    forall|t: int|
        0 <= t < open.len() ==> (#[trigger] open[t]).0 <= 98 && open[t].1 < rows
            && open[t].2 < cols
}

/// Relax one neighbour during the value sweep: when stepping `dir` from
/// `pos` stays on open ground and improves that cell's value, write the new
/// value and put the cell back on the frontier. The weighted total of cell
/// values and frontier length never grows.
fn relax(
    value: &mut Vec<Vec<usize>>,
    open: &mut Vec<(usize, usize, usize)>,
    grid: &Vec<Vec<Space>>,
    pos: (usize, usize),
    dir: Dir,
    step2: usize,
)
    requires
        grid_wf(grid@),
        values_wf(old(value)@, grid@.len() as int, grid@[0]@.len() as int),
        frontier_wf(old(open)@, grid@.len() as int, grid@[0]@.len() as int),
        step2 <= 99,
    ensures
        values_wf(final(value)@, grid@.len() as int, grid@[0]@.len() as int),
        frontier_wf(final(open)@, grid@.len() as int, grid@[0]@.len() as int),
        2 * sum_grid(final(value)@, grid@.len() as int) + final(open)@.len() <= 2 * sum_grid(
            old(value)@, grid@.len() as int,
        ) + old(open)@.len(),
{
    let rows = grid.len();
    let cols = grid[0].len();
    match delta(pos, dir, rows, cols) {
        Some((y2, x2)) => {
            if grid[y2][x2] == Space::O && value[y2][x2] > step2 {
                let ghost v0 = value@;
                let ghost oldrow = value@[y2 as int];
                value[y2][x2] = step2;
                open.push((step2, y2, x2));
                proof {
                    lemma_sum_row_update(oldrow@, oldrow@.len() as int, x2 as int, step2);
                    lemma_sum_grid_update(v0, v0.len() as int, y2 as int, value@[y2 as int]);
                    assert(value@ == v0.update(y2 as int, value@[y2 as int]));
                    assert(sum_grid(value@, rows as int)
                        <= sum_grid(v0, rows as int) - 1);
                }
            }
        },
        None => {},
    }
}

/// The cheapest-path policy toward `goal` over a rectangular grid: a sweep
/// settles each open cell's step count to the goal, then each open cell is
/// labelled with the direction of its best neighbour. The goal is labelled
/// `*`; obstacles and unreached cells stay blank. Cells farther than the
/// unreached marker 99 keep their best label among values below it.
pub fn optimum_policy(grid: &Vec<Vec<Space>>, goal: (usize, usize)) -> (r: Vec<Vec<char>>)
    requires
        grid_wf(grid@),
        goal.0 < grid@.len(),
        goal.1 < grid@[0]@.len(),
    ensures
        r@.len() == grid@.len(),
        forall|i: int| 0 <= i < r@.len() ==> (#[trigger] r@[i])@.len() == grid@[0]@.len(),
        r@[goal.0 as int]@[goal.1 as int] == '*',
{
    let rows = grid.len();
    let cols = grid[0].len();
    let mut value: Vec<Vec<usize>> = fill_grid(rows, cols, 99usize);
    value[goal.0][goal.1] = 0;
    let mut open: Vec<(usize, usize, usize)> = Vec::new();
    open.push((0, goal.0, goal.1));
    proof {
        lemma_sum_grid_nonneg(value@, rows as int);
    }
    while open.len() > 0
        invariant
            grid_wf(grid@),
            rows == grid@.len(),
            cols == grid@[0]@.len(),
            values_wf(value@, rows as int, cols as int),
            frontier_wf(open@, rows as int, cols as int),
            sum_grid(value@, rows as int) >= 0,
        decreases 2 * sum_grid(value@, rows as int) + open@.len(),
    {
        let (step, y, x) = match open.pop() {
            Some(c) => c,
            None => {
                proof {
                    assert(false);
                }
                return Vec::new();
            },
        };
        let step2 = step + 1;
        relax(&mut value, &mut open, grid, (y, x), Dir::Up, step2);
        relax(&mut value, &mut open, grid, (y, x), Dir::Down, step2);
        relax(&mut value, &mut open, grid, (y, x), Dir::Left, step2);
        relax(&mut value, &mut open, grid, (y, x), Dir::Right, step2);
        proof {
            lemma_sum_grid_nonneg(value@, rows as int);
        }
    }
    let mut policy: Vec<Vec<char>> = fill_grid(rows, cols, ' ');
    policy[goal.0][goal.1] = '*';
    let mut i: usize = 0;
    while i < rows
        invariant
            grid_wf(grid@),
            rows == grid@.len(),
            cols == grid@[0]@.len(),
            goal.0 < rows && goal.1 < cols,
            values_wf(value@, rows as int, cols as int),
            i <= rows,
            policy@.len() == rows,
            forall|p: int| 0 <= p < rows ==> (#[trigger] policy@[p])@.len() == cols,
            policy@[goal.0 as int]@[goal.1 as int] == '*',
        decreases rows - i,
    {
        let mut j: usize = 0;
        while j < cols
            invariant
                grid_wf(grid@),
                rows == grid@.len(),
                cols == grid@[0]@.len(),
                goal.0 < rows && goal.1 < cols,
                values_wf(value@, rows as int, cols as int),
                i < rows,
                j <= cols,
                policy@.len() == rows,
                forall|p: int| 0 <= p < rows ==> (#[trigger] policy@[p])@.len() == cols,
                policy@[goal.0 as int]@[goal.1 as int] == '*',
            decreases cols - j,
        {
            if grid[i][j] == Space::O && !(i == goal.0 && j == goal.1) {
                let mut best: usize = 99;
                let ghost p0 = policy@;
                if let Some((y2, x2)) = delta((i, j), Dir::Up, rows, cols) {
                    if best > value[y2][x2] {
                        best = value[y2][x2];
                        policy[i][j] = delta_name(Dir::Up);
                    }
                }
                if let Some((y2, x2)) = delta((i, j), Dir::Down, rows, cols) {
                    if best > value[y2][x2] {
                        best = value[y2][x2];
                        policy[i][j] = delta_name(Dir::Down);
                    }
                }
                if let Some((y2, x2)) = delta((i, j), Dir::Left, rows, cols) {
                    if best > value[y2][x2] {
                        best = value[y2][x2];
                        policy[i][j] = delta_name(Dir::Left);
                    }
                }
                if let Some((y2, x2)) = delta((i, j), Dir::Right, rows, cols) {
                    if best > value[y2][x2] {
                        best = value[y2][x2];
                        policy[i][j] = delta_name(Dir::Right);
                    }
                }
                proof {
                    assert(policy@[goal.0 as int]@[goal.1 as int] == '*');
                }
            }
            j = j + 1;
        }
        i = i + 1;
    }
    policy
}

} // verus!
