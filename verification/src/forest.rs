//! Tree-grid visibility: reading a digit grid and marking, per viewing
//! direction, which trees are hidden behind a taller or equal tree.
use vstd::prelude::*;

use crate::text::{chars_of, digit_val, is_dec_digit, spec_trim_trailing, split_fields, split_raw};

verus! {

/// A viewing direction across the grid.
#[allow(non_camel_case_types)]
pub enum Direction {
    DOWNWARDS,
    UPWARDS,
    LEFT,
    RIGHT,
}

/// The width (characters of the first line) and height (line count) of the
/// grid text.
pub fn determine_x_y_width(content: &str) -> (r: Option<(usize, usize)>)
    ensures
        r == Some(
            (
                split_raw(spec_trim_trailing(content@, '\n'), '\n')[0].len() as usize,
                split_raw(spec_trim_trailing(content@, '\n'), '\n').len() as usize,
            ),
        ),
{
    let mut cs = chars_of(content);
    let ghost orig = content@;
    while cs.len() > 0 && cs[cs.len() - 1] == '\n'
        invariant
            orig == content@,
            spec_trim_trailing(orig, '\n') == spec_trim_trailing(cs@, '\n'),
        decreases cs@.len(),
    {
        proof {
            assert(cs@.last() == '\n');
        }
        cs.pop();
    }
    proof {
        assert(spec_trim_trailing(cs@, '\n') == cs@);
    }
    let lines = split_fields(&cs, '\n');
    let width = lines[0].len();
    let height = lines.len();
    Some((width, height))
}

/// Whether a line holds nothing but decimal digits.
pub open spec fn line_digits(l: Seq<char>) -> bool {
    forall|c: int| 0 <= c < l.len() ==> is_dec_digit(#[trigger] l[c])
}

/// Whether the grid text is well formed: no line longer than the first, and
/// nothing but decimal digits.
pub open spec fn grid_ok(lines: Seq<Seq<char>>) -> bool {
    forall|r: int|
        0 <= r < lines.len() ==> (#[trigger] lines[r]).len() <= lines[0].len() && line_digits(
            lines[r],
        )
}

/// The height of the tree at row `r`, column `c`: the digit there, or 0 where
/// the line stops short.
pub open spec fn grid_at(lines: Seq<Seq<char>>, r: int, c: int) -> int {
    if c < lines[r].len() {
        digit_val(lines[r][c])
    } else {
        0
    }
}

/// Reads the grid text into a rectangular matrix of tree heights, one row per
/// line, missing places filled with zeros; nothing if a line is longer than
/// the first or holds a non-digit.
pub fn get_tree_matrix(content: &str) -> (rm: Option<Vec<Vec<u8>>>)
    ensures
        rm is Some <==> grid_ok(split_raw(spec_trim_trailing(content@, '\n'), '\n')),
        rm is Some ==> ({
            let lines = split_raw(spec_trim_trailing(content@, '\n'), '\n');
            let m = rm->Some_0;
            &&& m@.len() == lines.len()
            &&& forall|r: int| 0 <= r < m@.len() ==> (#[trigger] m@[r])@.len() == lines[0].len()
            &&& forall|r: int, c: int|
                0 <= r < m@.len() && 0 <= c < lines[0].len() ==> (#[trigger] m@[r]@[c]) as int
                    == grid_at(lines, r, c)
        }),
{
    let mut cs = chars_of(content);
    let ghost orig = content@;
    while cs.len() > 0 && cs[cs.len() - 1] == '\n'
        invariant
            orig == content@,
            spec_trim_trailing(orig, '\n') == spec_trim_trailing(cs@, '\n'),
        decreases cs@.len(),
    {
        proof {
            assert(cs@.last() == '\n');
        }
        cs.pop();
    }
    proof {
        assert(spec_trim_trailing(cs@, '\n') == cs@);
    }
    let lines = split_fields(&cs, '\n');
    let ghost ls = split_raw(spec_trim_trailing(orig, '\n'), '\n');
    let width = lines[0].len();
    let height = lines.len();
    let mut trees: Vec<Vec<u8>> = Vec::new();
    let mut r: usize = 0;
    while r < height
        invariant
            ls == split_raw(spec_trim_trailing(content@, '\n'), '\n'),
            height == lines@.len(),
            height == ls.len(),
            width == ls[0].len(),
            r <= height,
            forall|j: int| 0 <= j < height ==> lines@[j]@ == ls[j],
            trees@.len() == r,
            forall|j: int| 0 <= j < r ==> (#[trigger] ls[j]).len() <= width,
            forall|j: int| 0 <= j < r ==> line_digits(#[trigger] ls[j]),
            forall|j: int| 0 <= j < r ==> (#[trigger] trees@[j])@.len() == width,
            forall|j: int, c: int|
                0 <= j < r && 0 <= c < width ==> (#[trigger] trees@[j]@[c]) as int == grid_at(
                    ls,
                    j,
                    c,
                ),
        decreases height - r,
    {
        if lines[r].len() > width {
            proof {
                assert(!grid_ok(ls)) by {
                    assert(ls[r as int].len() > ls[0].len());
                }
            }
            return None;
        }
        let mut row: Vec<u8> = Vec::new();
        let line_len = lines[r].len();
        let mut c: usize = 0;
        while c < width
            invariant
                ls == split_raw(spec_trim_trailing(content@, '\n'), '\n'),
                height == lines@.len(),
                height == ls.len(),
                r < height,
                width == ls[0].len(),
                line_len == ls[r as int].len(),
                line_len <= width,
                c <= width,
                forall|j: int| 0 <= j < height ==> lines@[j]@ == ls[j],
                row@.len() == c,
                forall|k: int| 0 <= k < c && k < line_len ==> is_dec_digit(#[trigger] ls[r as int][k]),
                forall|k: int|
                    0 <= k < c ==> (#[trigger] row@[k]) as int == grid_at(ls, r as int, k),
            decreases width - c,
        {
            if c < line_len {
                let ch = lines[r][c];
                if ch < '0' || ch > '9' {
                    proof {
                        assert(!line_digits(ls[r as int])) by {
                            assert(!is_dec_digit(ls[r as int][c as int]));
                        }
                        assert(!grid_ok(ls));
                    }
                    return None;
                }
                row.push(((ch as u32) - 48) as u8);
            } else {
                row.push(0);
            }
            c = c + 1;
        }
        trees.push(row);
        r = r + 1;
    }
    Some(trees)
}

/// Whether the cursor `(line, column)` lies on the border of the matrix.
pub fn cursor_at_edge<T>(cursor: (usize, usize), matrix: &Vec<Vec<T>>) -> (r: bool)
    requires
        matrix@.len() > 0,
        matrix@[0]@.len() > 0,
    ensures
        r == (cursor.0 == 0 || cursor.0 == matrix@.len() - 1 || cursor.1 == 0 || cursor.1
            == matrix@[0]@.len() - 1),
{
    let max_width = matrix[0].len();
    let max_height = matrix.len();
    let (line, column) = cursor;
    if line == 0 {
        true
    } else if line == max_height - 1 {
        true
    } else if column == 0 {
        true
    } else if column == max_width - 1 {
        true
    } else {
        false
    }
}

/// Whether the tree at position `j` of a sight line is hidden: some tree
/// before it along the line is at least as tall.
pub open spec fn line_hidden(h: Seq<u8>, j: int) -> bool {
    !(forall|k: int| 0 <= k < j ==> h[k] < h[j])
}

/// Hidden flags for one sight line scanned from its start.
fn scan_line(heights: &Vec<u8>) -> (r: Vec<bool>)
    ensures
        r@.len() == heights@.len(),
        forall|j: int| 0 <= j < r@.len() ==> #[trigger] r@[j] == line_hidden(heights@, j),
{
    let mut r: Vec<bool> = Vec::new();
    let mut mx: u8 = 0;
    let n = heights.len();
    for j in 0..n
        invariant
            n == heights@.len(),
            r@.len() == j,
            j == 0 ==> mx == 0,
            forall|k: int| 0 <= k < j ==> heights@[k] <= mx,
            j > 0 ==> exists|k: int| 0 <= k < j && heights@[k] == mx,
            forall|k: int| 0 <= k < j ==> #[trigger] r@[k] == line_hidden(heights@, k),
    {
        let h = heights[j];
        let visible = j == 0 || h > mx;
        proof {
            if j == 0 || h > mx {
                assert(!line_hidden(heights@, j as int));
            } else {
                let k = choose|k: int| 0 <= k < j && heights@[k] == mx;
                assert(!(heights@[k] < heights@[j as int]));
                assert(line_hidden(heights@, j as int));
            }
        }
        r.push(!visible);
        if h > mx {
            mx = h;
        }
        proof {
            if h == mx {
                assert(heights@[j as int] == mx);
            } else {
                assert(j > 0);
                let k = choose|k: int| 0 <= k < j && heights@[k] == mx;
                assert(heights@[k] == mx);
            }
        }
    }
    r
}

/// A copy of `v` in reverse order.
fn reversed<T: Copy>(v: &Vec<T>) -> (r: Vec<T>)
    ensures
        r@.len() == v@.len(),
        forall|j: int| 0 <= j < r@.len() ==> #[trigger] r@[j] == v@[v@.len() - 1 - j],
{
    let mut r: Vec<T> = Vec::new();
    let n = v.len();
    for j in 0..n
        invariant
            n == v@.len(),
            r@.len() == j,
            forall|k: int| 0 <= k < j ==> #[trigger] r@[k] == v@[n - 1 - k],
    {
        r.push(v[n - 1 - j]);
    }
    r
}

/// Whether every row of the matrix has the same length as the first.
pub open spec fn rectangular(m: Seq<Seq<u8>>) -> bool {
    forall|r: int| 0 <= r < m.len() ==> (#[trigger] m[r]).len() == m[0].len()
}

/// Whether the tree at `(i, j)` is hidden looking along `d`: looking `RIGHT`
/// the gaze comes from the left border, so a tree is hidden when a tree
/// before it in its row is at least as tall; the other directions likewise.
pub open spec fn hidden_in_direction(m: Seq<Seq<u8>>, d: Direction, i: int, j: int) -> bool {
    match d {
        Direction::RIGHT => !(forall|k: int| 0 <= k < j ==> m[i][k] < m[i][j]),
        Direction::LEFT => !(forall|k: int| j < k < m[i].len() ==> m[i][k] < m[i][j]),
        Direction::DOWNWARDS => !(forall|k: int| 0 <= k < i ==> m[k][j] < m[i][j]),
        Direction::UPWARDS => !(forall|k: int| i < k < m.len() ==> m[k][j] < m[i][j]),
    }
}

/// Marks, for every tree, whether it is hidden when looking across the grid
/// in the given direction.
pub fn get_hidden_matrix_in_direction(tree_matrix: &Vec<Vec<u8>>, direction: Direction) -> (hm:
    Vec<Vec<bool>>)
    requires
        tree_matrix@.len() > 0,
        tree_matrix@[0]@.len() > 0,
        rectangular(tree_matrix@.map_values(|v: Vec<u8>| v@)),
    ensures
        hm@.len() == tree_matrix@.len(),
        forall|i: int| 0 <= i < hm@.len() ==> (#[trigger] hm@[i])@.len() == tree_matrix@[0]@.len(),
        forall|i: int, j: int|
            0 <= i < hm@.len() && 0 <= j < tree_matrix@[0]@.len() ==> (#[trigger] hm@[i]@[j])
                == hidden_in_direction(
                tree_matrix@.map_values(|v: Vec<u8>| v@),
                direction,
                i,
                j,
            ),
{
    let ghost m = tree_matrix@.map_values(|v: Vec<u8>| v@);
    let lines = tree_matrix.len();
    let columns = tree_matrix[0].len();
    let mut hm: Vec<Vec<bool>> = Vec::new();
    match direction {
        Direction::RIGHT => {
            for i in 0..lines
                invariant
                    m == tree_matrix@.map_values(|v: Vec<u8>| v@),
                    lines == m.len(),
                    columns == m[0].len(),
                    rectangular(m),
                    hm@.len() == i,
                    forall|r: int| 0 <= r < i ==> (#[trigger] hm@[r])@.len() == columns,
                    forall|r: int, j: int|
                        0 <= r < i && 0 <= j < columns ==> (#[trigger] hm@[r]@[j])
                            == hidden_in_direction(m, Direction::RIGHT, r, j),
            {
                let row = scan_line(&tree_matrix[i]);
                proof {
                    assert(tree_matrix@[i as int]@ == m[i as int]);
                }
                hm.push(row);
            }
        },
        Direction::LEFT => {
            for i in 0..lines
                invariant
                    m == tree_matrix@.map_values(|v: Vec<u8>| v@),
                    lines == m.len(),
                    columns == m[0].len(),
                    rectangular(m),
                    hm@.len() == i,
                    forall|r: int| 0 <= r < i ==> (#[trigger] hm@[r])@.len() == columns,
                    forall|r: int, j: int|
                        0 <= r < i && 0 <= j < columns ==> (#[trigger] hm@[r]@[j])
                            == hidden_in_direction(m, Direction::LEFT, r, j),
            {
                proof {
                    assert(tree_matrix@[i as int]@ == m[i as int]);
                }
                let rev = reversed(&tree_matrix[i]);
                let scanned = scan_line(&rev);
                let row = reversed(&scanned);
                proof {
                    assert forall|j: int| 0 <= j < columns implies #[trigger] row@[j]
                        == hidden_in_direction(m, Direction::LEFT, i as int, j) by {
                        assert(row@[j] == scanned@[columns - 1 - j]);
                        assert(scanned@[columns - 1 - j] == line_hidden(rev@, columns - 1 - j));
                        assert(rev@[columns - 1 - j] == m[i as int][j]);
                        if line_hidden(rev@, columns - 1 - j) {
                            let k = choose|k: int|
                                0 <= k < columns - 1 - j && !((#[trigger] rev@[k]) < rev@[columns - 1 - j]);
                            assert(!(m[i as int][columns - 1 - k] < m[i as int][j]));
                            assert(j < columns - 1 - k < columns);
                            assert(hidden_in_direction(m, Direction::LEFT, i as int, j));
                        } else {
                            assert forall|k2: int| j < k2 < columns implies m[i as int][k2]
                                < m[i as int][j] by {
                                assert(rev@[columns - 1 - k2] == m[i as int][k2]);
                                assert(0 <= columns - 1 - k2 < columns - 1 - j);
                                assert(rev@[columns - 1 - k2] < rev@[columns - 1 - j]);
                            }
                            assert(!hidden_in_direction(m, Direction::LEFT, i as int, j));
                        }
                    }
                }
                hm.push(row);
            }
        },
        Direction::DOWNWARDS => {
            let mut cols: Vec<Vec<bool>> = Vec::new();
            for j in 0..columns
                invariant
                    m == tree_matrix@.map_values(|v: Vec<u8>| v@),
                    lines == m.len(),
                    columns == m[0].len(),
                    rectangular(m),
                    cols@.len() == j,
                    forall|c: int| 0 <= c < j ==> (#[trigger] cols@[c])@.len() == lines,
                    forall|c: int, i: int|
                        0 <= c < j && 0 <= i < lines ==> (#[trigger] cols@[c]@[i])
                            == hidden_in_direction(m, Direction::DOWNWARDS, i, c),
            {
                let mut column: Vec<u8> = Vec::new();
                for i in 0..lines
                    invariant
                        m == tree_matrix@.map_values(|v: Vec<u8>| v@),
                        lines == m.len(),
                        columns == m[0].len(),
                        rectangular(m),
                        j < columns,
                        column@.len() == i,
                        forall|k: int| 0 <= k < i ==> #[trigger] column@[k] == m[k][j as int],
                {
                    proof {
                        assert(tree_matrix@[i as int]@ == m[i as int]);
                        assert(m[i as int].len() == columns);
                    }
                    column.push(tree_matrix[i][j]);
                }
                let scanned = scan_line(&column);
                proof {
                    assert forall|i: int| 0 <= i < lines implies #[trigger] scanned@[i]
                        == hidden_in_direction(m, Direction::DOWNWARDS, i, j as int) by {
                        assert(scanned@[i] == line_hidden(column@, i));
                        if line_hidden(column@, i) {
                            let k = choose|k: int| 0 <= k < i && !((#[trigger] column@[k]) < column@[i]);
                            assert(!(m[k][j as int] < m[i][j as int]));
                        } else {
                            assert forall|k: int| 0 <= k < i implies m[k][j as int]
                                < m[i][j as int] by {
                                assert(column@[k] < column@[i]);
                            }
                        }
                    }
                }
                cols.push(scanned);
            }
            // transpose the per-column flags into row-major order
            for i in 0..lines
                invariant
                    m == tree_matrix@.map_values(|v: Vec<u8>| v@),
                    lines == m.len(),
                    columns == m[0].len(),
                    cols@.len() == columns,
                    forall|c: int| 0 <= c < columns ==> (#[trigger] cols@[c])@.len() == lines,
                    forall|c: int, r: int|
                        0 <= c < columns && 0 <= r < lines ==> (#[trigger] cols@[c]@[r])
                            == hidden_in_direction(m, Direction::DOWNWARDS, r, c),
                    hm@.len() == i,
                    forall|r: int| 0 <= r < i ==> (#[trigger] hm@[r])@.len() == columns,
                    forall|r: int, c: int|
                        0 <= r < i && 0 <= c < columns ==> (#[trigger] hm@[r]@[c])
                            == hidden_in_direction(m, Direction::DOWNWARDS, r, c),
            {
                let mut row: Vec<bool> = Vec::new();
                for j in 0..columns
                    invariant
                        m == tree_matrix@.map_values(|v: Vec<u8>| v@),
                        lines == m.len(),
                        columns == m[0].len(),
                        i < lines,
                        cols@.len() == columns,
                        forall|c: int| 0 <= c < columns ==> (#[trigger] cols@[c])@.len() == lines,
                        forall|c: int, r: int|
                            0 <= c < columns && 0 <= r < lines ==> (#[trigger] cols@[c]@[r])
                                == hidden_in_direction(m, Direction::DOWNWARDS, r, c),
                        row@.len() == j,
                        forall|c: int|
                            0 <= c < j ==> #[trigger] row@[c] == hidden_in_direction(
                                m,
                                Direction::DOWNWARDS,
                                i as int,
                                c,
                            ),
                {
                    row.push(cols[j][i]);
                }
                hm.push(row);
            }
        },
        Direction::UPWARDS => {
            let mut cols: Vec<Vec<bool>> = Vec::new();
            for j in 0..columns
                invariant
                    m == tree_matrix@.map_values(|v: Vec<u8>| v@),
                    lines == m.len(),
                    columns == m[0].len(),
                    rectangular(m),
                    cols@.len() == j,
                    forall|c: int| 0 <= c < j ==> (#[trigger] cols@[c])@.len() == lines,
                    forall|c: int, i: int|
                        0 <= c < j && 0 <= i < lines ==> (#[trigger] cols@[c]@[i])
                            == hidden_in_direction(m, Direction::UPWARDS, i, c),
            {
                let mut column: Vec<u8> = Vec::new();
                for i in 0..lines
                    invariant
                        m == tree_matrix@.map_values(|v: Vec<u8>| v@),
                        lines == m.len(),
                        columns == m[0].len(),
                        rectangular(m),
                        j < columns,
                        column@.len() == i,
                        forall|k: int|
                            0 <= k < i ==> #[trigger] column@[k] == m[lines - 1 - k][j as int],
                {
                    proof {
                        assert(tree_matrix@[lines - 1 - i as int]@ == m[lines - 1 - i as int]);
                        assert(m[lines - 1 - i as int].len() == columns);
                    }
                    column.push(tree_matrix[lines - 1 - i][j]);
                }
                let scanned = scan_line(&column);
                let flags = reversed(&scanned);
                proof {
                    assert forall|i: int| 0 <= i < lines implies #[trigger] flags@[i]
                        == hidden_in_direction(m, Direction::UPWARDS, i, j as int) by {
                        assert(flags@[i] == scanned@[lines - 1 - i]);
                        assert(scanned@[lines - 1 - i] == line_hidden(column@, lines - 1 - i));
                        if line_hidden(column@, lines - 1 - i) {
                            let k = choose|k: int|
                                0 <= k < lines - 1 - i && !((#[trigger] column@[k]) < column@[lines - 1 - i]);
                            assert(column@[k] == m[lines - 1 - k][j as int]);
                            assert(column@[lines - 1 - i] == m[i][j as int]);
                            assert(!(m[lines - 1 - k][j as int] < m[i][j as int]));
                            assert(i < lines - 1 - k < lines);
                        } else {
                            assert forall|k2: int| i < k2 < lines implies m[k2][j as int]
                                < m[i][j as int] by {
                                assert(column@[lines - 1 - k2] == m[k2][j as int]);
                                assert(column@[lines - 1 - i] == m[i][j as int]);
                                assert(0 <= lines - 1 - k2 < lines - 1 - i);
                                assert(column@[lines - 1 - k2] < column@[lines - 1 - i]);
                            }
                        }
                    }
                }
                cols.push(flags);
            }
            for i in 0..lines
                invariant
                    m == tree_matrix@.map_values(|v: Vec<u8>| v@),
                    lines == m.len(),
                    columns == m[0].len(),
                    cols@.len() == columns,
                    forall|c: int| 0 <= c < columns ==> (#[trigger] cols@[c])@.len() == lines,
                    forall|c: int, r: int|
                        0 <= c < columns && 0 <= r < lines ==> (#[trigger] cols@[c]@[r])
                            == hidden_in_direction(m, Direction::UPWARDS, r, c),
                    hm@.len() == i,
                    forall|r: int| 0 <= r < i ==> (#[trigger] hm@[r])@.len() == columns,
                    forall|r: int, c: int|
                        0 <= r < i && 0 <= c < columns ==> (#[trigger] hm@[r]@[c])
                            == hidden_in_direction(m, Direction::UPWARDS, r, c),
            {
                let mut row: Vec<bool> = Vec::new();
                for j in 0..columns
                    invariant
                        m == tree_matrix@.map_values(|v: Vec<u8>| v@),
                        lines == m.len(),
                        columns == m[0].len(),
                        i < lines,
                        cols@.len() == columns,
                        forall|c: int| 0 <= c < columns ==> (#[trigger] cols@[c])@.len() == lines,
                        forall|c: int, r: int|
                            0 <= c < columns && 0 <= r < lines ==> (#[trigger] cols@[c]@[r])
                                == hidden_in_direction(m, Direction::UPWARDS, r, c),
                        row@.len() == j,
                        forall|c: int|
                            0 <= c < j ==> #[trigger] row@[c] == hidden_in_direction(
                                m,
                                Direction::UPWARDS,
                                i as int,
                                c,
                            ),
                {
                    row.push(cols[j][i]);
                }
                hm.push(row);
            }
        },
    }
    hm
}

} // verus!
