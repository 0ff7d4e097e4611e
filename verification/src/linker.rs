use vstd::prelude::*;
use vstd::string::StrSliceExecFns;

use crate::station::{Direction, SourceLocation, Station, StationModifiers};

verus! {

// ---------------------------------------------------------------------------
// The character grid
// ---------------------------------------------------------------------------
/// The rows of the character grid as sequences.
pub open spec fn grid_views(g: Seq<Vec<char>>) -> Seq<Seq<char>> {
    g.map(|_i: int, row: Vec<char>| row@)
}

/// Whether `(r, c)` is a cell of the (possibly ragged) grid.
pub open spec fn in_grid(grid: Seq<Seq<char>>, r: int, c: int) -> bool {
    0 <= r < grid.len() && 0 <= c < grid[r].len()
}

/// A blank grid cell, which neighbor scanning passes over.
pub open spec fn blank(c: char) -> bool {
    c == ' '
}

/// Whether a station spanning `loc` lies fully on the grid.
pub open spec fn station_in_grid(grid: Seq<Seq<char>>, loc: SourceLocation) -> bool {
    loc.line < grid.len() && loc.col + loc.len <= grid[loc.line as int].len()
}

/// Turns the source lines into the character grid the neighbor geometry runs
/// on: row `r` holds the decoded characters of line `r`.
pub fn build_map(lines: &Vec<&str>) -> (map: Vec<Vec<char>>)
    ensures
        grid_views(map@) =~= crate::preprocessor::line_views(lines@),
{
    let mut map: Vec<Vec<char>> = Vec::new();
    let n = lines.len();
    let mut l: usize = 0;
    while l < n
        invariant
            n == lines@.len(),
            l <= n,
            map@.len() == l,
            forall|x: int| 0 <= x < l ==> #[trigger] map@[x]@ == lines@[x]@,
        decreases n - l,
    {
        let line = lines[l];
        let m = line.unicode_len();
        let mut row: Vec<char> = Vec::new();
        let mut k: usize = 0;
        while k < m
            invariant
                m == line@.len(),
                k <= m,
                row@ =~= line@.take(k as int),
            decreases m - k,
        {
            row.push(line.get_char(k));
            proof {
                assert(row@ =~= line@.take(k as int + 1));
            }
            k = k + 1;
        }
        proof {
            assert(line@.take(m as int) =~= line@);
        }
        map.push(row);
        l = l + 1;
    }
    map
}

// ---------------------------------------------------------------------------
// Adjacent cells and their rotation order
// ---------------------------------------------------------------------------
/// How many columns of the span `loc` have a cell on row `r` of the grid.
pub open spec fn span_width(grid: Seq<Seq<char>>, loc: SourceLocation, r: int) -> int {
    if grid[r].len() >= loc.col + loc.len {
        loc.len as int
    } else if grid[r].len() >= loc.col {
        grid[r].len() - loc.col
    } else {
        0
    }
}

/// The grid cells bordering the span `loc` in direction `d`, as (row, column)
/// pairs in ascending column (for north and south) or the single cell beside
/// the span (for east and west).
pub open spec fn adjacent_cells(grid: Seq<Seq<char>>, loc: SourceLocation, d: Direction) -> Seq<
    (usize, usize),
> {
    match d {
        Direction::NORTH => if loc.line > 0 {
            Seq::new(
                span_width(grid, loc, loc.line - 1) as nat,
                |k: int| (((loc.line - 1) as usize), ((loc.col + k) as usize)),
            )
        } else {
            Seq::empty()
        },
        Direction::SOUTH => if loc.line + 1 < grid.len() {
            Seq::new(
                span_width(grid, loc, loc.line + 1) as nat,
                |k: int| (((loc.line + 1) as usize), ((loc.col + k) as usize)),
            )
        } else {
            Seq::empty()
        },
        Direction::EAST => if loc.line < grid.len() && loc.col + loc.len < grid[
            loc.line as int
        ].len() {
            seq![(loc.line, ((loc.col + loc.len) as usize))]
        } else {
            Seq::empty()
        },
        Direction::WEST => if loc.col > 0 {
            seq![(loc.line, ((loc.col - 1) as usize))]
        } else {
            Seq::empty()
        },
    }
}

/// Whether the perimeter walk visits the cells of direction `d` in descending
/// order: a clockwise walk runs west along the south edge and north along the
/// west edge, a counter-clockwise walk mirrors this.
pub open spec fn walk_descending(d: Direction, reverse: bool) -> bool {
    if !reverse {
        d is SOUTH || d is WEST
    } else {
        d is NORTH || d is EAST
    }
}

/// The cells of direction `d` in the order the perimeter walk visits them.
pub open spec fn cells_in_walk_order(
    grid: Seq<Seq<char>>,
    loc: SourceLocation,
    d: Direction,
    reverse: bool,
) -> Seq<(usize, usize)> {
    if walk_descending(d, reverse) {
        adjacent_cells(grid, loc, d).reverse()
    } else {
        adjacent_cells(grid, loc, d)
    }
}

/// Cell pairs tagged with the direction they lie in.
pub open spec fn attach_dir(cs: Seq<(usize, usize)>, d: Direction) -> Seq<(usize, usize, Direction)> {
    cs.map(|_i: int, c: (usize, usize)| (c.0, c.1, d))
}

/// The four directions in the order the modifiers prescribe: starting at the
/// priority direction, stepping clockwise, or counter-clockwise when reversed.
pub open spec fn rotation(mods: StationModifiers) -> Seq<Direction> {
    let p = mods.priority;
    if !mods.reverse {
        seq![p, p.clockwise(), p.clockwise().clockwise(), p.clockwise().clockwise().clockwise()]
    } else {
        seq![
            p,
            p.counter_clockwise(),
            p.counter_clockwise().counter_clockwise(),
            p.counter_clockwise().counter_clockwise().counter_clockwise(),
        ]
    }
}

/// Every cell bordering the station's span, tagged with its direction, in the
/// order the modifiers prescribe: direction groups in rotation order starting
/// at the priority direction, each group in perimeter-walk order.
pub open spec fn neighbors_spec(
    grid: Seq<Seq<char>>,
    loc: SourceLocation,
    mods: StationModifiers,
) -> Seq<(usize, usize, Direction)> {
    let r = rotation(mods);
    attach_dir(cells_in_walk_order(grid, loc, r[0], mods.reverse), r[0]) + attach_dir(
        cells_in_walk_order(grid, loc, r[1], mods.reverse),
        r[1],
    ) + attach_dir(cells_in_walk_order(grid, loc, r[2], mods.reverse), r[2]) + attach_dir(
        cells_in_walk_order(grid, loc, r[3], mods.reverse),
        r[3],
    )
}

/// The next direction of the rotation the modifiers prescribe.
fn next_dir(d: Direction, reverse: bool) -> (r: Direction)
    ensures
        r == if reverse {
            d.counter_clockwise()
        } else {
            d.clockwise()
        },
{
    if reverse {
        match d {
            Direction::NORTH => Direction::WEST,
            Direction::WEST => Direction::SOUTH,
            Direction::SOUTH => Direction::EAST,
            Direction::EAST => Direction::NORTH,
        }
    } else {
        match d {
            Direction::NORTH => Direction::EAST,
            Direction::EAST => Direction::SOUTH,
            Direction::SOUTH => Direction::WEST,
            Direction::WEST => Direction::NORTH,
        }
    }
}

/// The number of span columns present on row `r` of the grid.
fn row_span(map: &Vec<Vec<char>>, loc: SourceLocation, r: usize) -> (w: usize)
    requires
        r < map@.len(),
    ensures
        w == span_width(grid_views(map@), loc, r as int),
        w <= loc.len,
        loc.col + w <= usize::MAX,
{
    let rl = map[r].len();
    proof {
        assert(grid_views(map@)[r as int] == map@[r as int]@);
    }
    if rl >= loc.col && rl - loc.col >= loc.len {
        loc.len
    } else if rl >= loc.col {
        rl - loc.col
    } else {
        0
    }
}

/// Appends the cells of direction `d`, in walk order, each tagged with `d`.
fn push_group(
    out: &mut Vec<(usize, usize, Direction)>,
    map: &Vec<Vec<char>>,
    loc: SourceLocation,
    d: Direction,
    reverse: bool,
)
    requires
        station_in_grid(grid_views(map@), loc),
    ensures
        final(out)@ == old(out)@ + attach_dir(
            cells_in_walk_order(grid_views(map@), loc, d, reverse),
            d,
        ),
{
    let ghost g = grid_views(map@);
    let mut cells: Vec<(usize, usize)> = Vec::new();
    match d {
        Direction::NORTH => {
            if loc.line > 0 {
                let r = loc.line - 1;
                let w = row_span(map, loc, r);
                let mut k: usize = 0;
                while k < w
                    invariant
                        w == span_width(g, loc, r as int),
                        r == loc.line - 1,
                        loc.line > 0,
                        w <= loc.len,
                        loc.col + w <= usize::MAX,
                        k <= w,
                        cells@ =~= adjacent_cells(g, loc, d).take(k as int),
                        d == Direction::NORTH,
                        g == grid_views(map@),
                        station_in_grid(g, loc),
                    decreases w - k,
                {
                    cells.push((r, loc.col + k));
                    proof {
                        assert(cells@ =~= adjacent_cells(g, loc, d).take(k as int + 1));
                    }
                    k = k + 1;
                }
            }
        },
        Direction::SOUTH => {
            if loc.line < map.len() - 1 {
                let r = loc.line + 1;
                let w = row_span(map, loc, r);
                let mut k: usize = 0;
                while k < w
                    invariant
                        w == span_width(g, loc, r as int),
                        r == loc.line + 1,
                        loc.line + 1 < g.len(),
                        w <= loc.len,
                        loc.col + w <= usize::MAX,
                        k <= w,
                        cells@ =~= adjacent_cells(g, loc, d).take(k as int),
                        d == Direction::SOUTH,
                        g == grid_views(map@),
                        station_in_grid(g, loc),
                    decreases w - k,
                {
                    cells.push((r, loc.col + k));
                    proof {
                        assert(cells@ =~= adjacent_cells(g, loc, d).take(k as int + 1));
                    }
                    k = k + 1;
                }
            }
        },
        Direction::EAST => {
            let rl = map[loc.line].len();
            proof {
                assert(g[loc.line as int] == map@[loc.line as int]@);
            }
            if loc.col + loc.len < rl {
                cells.push((loc.line, loc.col + loc.len));
            }
        },
        Direction::WEST => {
            if loc.col > 0 {
                cells.push((loc.line, loc.col - 1));
            }
        },
    }
    proof {
        assert(adjacent_cells(g, loc, d).take(adjacent_cells(g, loc, d).len() as int) =~= adjacent_cells(
            g,
            loc,
            d,
        ));
        assert(cells@ =~= adjacent_cells(g, loc, d));
    }
    let n = cells.len();
    let descending = if !reverse {
        match d {
            Direction::SOUTH | Direction::WEST => true,
            _ => false,
        }
    } else {
        match d {
            Direction::NORTH | Direction::EAST => true,
            _ => false,
        }
    };
    let ghost ordered = cells_in_walk_order(g, loc, d, reverse);
    let ghost base = out@;
    let mut k: usize = 0;
    while k < n
        invariant
            n == cells@.len(),
            cells@ == adjacent_cells(g, loc, d),
            descending == walk_descending(d, reverse),
            ordered == cells_in_walk_order(g, loc, d, reverse),
            ordered.len() == n,
            k <= n,
            out@ =~= base + attach_dir(ordered.take(k as int), d),
        decreases n - k,
    {
        let c = if descending {
            cells[n - 1 - k]
        } else {
            cells[k]
        };
        proof {
            assert(ordered[k as int] == c);
        }
        out.push((c.0, c.1, d));
        proof {
            assert(out@ =~= base + attach_dir(ordered.take(k as int + 1), d));
        }
        k = k + 1;
    }
    proof {
        assert(ordered.take(n as int) =~= ordered);
    }
}

/// The cells bordering `station`'s span, each as `(row, column, direction)`,
/// in the rotation order the station's modifiers prescribe.
pub fn get_neighbors(map: &Vec<Vec<char>>, station: &Station) -> (r: Vec<(usize, usize, Direction)>)
    requires
        station_in_grid(grid_views(map@), station.loc),
    ensures
        r@ == neighbors_spec(grid_views(map@), station.loc, station.modifiers),
{
    let ghost g = grid_views(map@);
    let mut out: Vec<(usize, usize, Direction)> = Vec::new();
    let reverse = station.modifiers.reverse;
    let d0 = station.modifiers.priority;
    let d1 = next_dir(d0, reverse);
    let d2 = next_dir(d1, reverse);
    let d3 = next_dir(d2, reverse);
    push_group(&mut out, map, station.loc, d0, reverse);
    push_group(&mut out, map, station.loc, d1, reverse);
    push_group(&mut out, map, station.loc, d2, reverse);
    push_group(&mut out, map, station.loc, d3, reverse);
    proof {
        let r = rotation(station.modifiers);
        assert(r[0] == d0 && r[1] == d1 && r[2] == d2 && r[3] == d3);
        assert(out@ =~= neighbors_spec(g, station.loc, station.modifiers));
    }
    out
}


// ---------------------------------------------------------------------------
// Scanning outward for the nearest station
// ---------------------------------------------------------------------------
/// Whether the span `loc` covers grid cell `(r, c)`.
pub open spec fn covers(loc: SourceLocation, r: int, c: int) -> bool {
    loc.line == r && loc.col <= c < loc.col + loc.len
}

/// The first station whose span covers cell `(r, c)`, if any.
pub open spec fn station_at(locs: Seq<SourceLocation>, r: int, c: int) -> Option<int>
    decreases locs.len(),
{
    if locs.len() == 0 {
        None
    } else if covers(locs[0], r, c) {
        Some(0int)
    } else {
        match station_at(locs.drop_first(), r, c) {
            Some(i) => Some(i + 1),
            None => None,
        }
    }
}

proof fn lemma_station_at_bounds(locs: Seq<SourceLocation>, r: int, c: int)
    ensures
        match station_at(locs, r, c) {
            Some(i) => 0 <= i < locs.len() && covers(locs[i], r, c),
            None => forall|i: int| 0 <= i < locs.len() ==> !covers(locs[i], r, c),
        },
    decreases locs.len(),
{
    if locs.len() > 0 {
        lemma_station_at_bounds(locs.drop_first(), r, c);
        if !covers(locs[0], r, c) {
            assert(forall|i: int| 1 <= i < locs.len() ==> locs[i] == locs.drop_first()[i - 1]);
        }
    }
}

proof fn lemma_station_at_first(locs: Seq<SourceLocation>, r: int, c: int, k: int)
    requires
        0 <= k < locs.len(),
        covers(locs[k], r, c),
        forall|i: int| 0 <= i < k ==> !covers(locs[i], r, c),
    ensures
        station_at(locs, r, c) == Some(k),
    decreases locs.len(),
{
    if k > 0 {
        lemma_station_at_first(locs.drop_first(), r, c, k - 1);
    }
}

/// The first station covering cell `(r, c)`, found by checking the spans in
/// station order.
fn station_at_exec(locs: &Vec<SourceLocation>, r: usize, c: usize) -> (res: Option<usize>)
    ensures
        match res {
            Some(t) => station_at(locs@, r as int, c as int) == Some(t as int) && t < locs@.len(),
            None => station_at(locs@, r as int, c as int) is None,
        },
{
    let n = locs.len();
    let mut k: usize = 0;
    while k < n
        invariant
            n == locs@.len(),
            k <= n,
            forall|i: int| 0 <= i < k ==> !covers(locs@[i], r as int, c as int),
        decreases n - k,
    {
        let lk = locs[k];
        if lk.line == r && c >= lk.col && c - lk.col < lk.len {
            proof {
                lemma_station_at_first(locs@, r as int, c as int, k as int);
            }
            return Some(k);
        }
        k = k + 1;
    }
    proof {
        lemma_station_at_bounds(locs@, r as int, c as int);
    }
    None
}

/// The row the scan moves to next.
pub open spec fn step_row(d: Direction, r: int) -> int {
    match d {
        Direction::NORTH => r - 1,
        Direction::SOUTH => r + 1,
        _ => r,
    }
}

/// The column the scan moves to next.
pub open spec fn step_col(d: Direction, c: int) -> int {
    match d {
        Direction::EAST => c + 1,
        Direction::WEST => c - 1,
        _ => c,
    }
}

/// An upper bound on the cells a scan can still visit before leaving the grid.
pub open spec fn scan_measure(grid: Seq<Seq<char>>, r: int, c: int, d: Direction) -> int {
    match d {
        Direction::NORTH => r + 1,
        Direction::SOUTH => grid.len() - r,
        Direction::EAST => if 0 <= r < grid.len() {
            grid[r].len() - c
        } else {
            0
        },
        Direction::WEST => c + 1,
    }
}

/// The station reached by scanning outward from cell `(r, c)` in direction
/// `d`: blank cells are passed over, and the scan stops at the grid boundary
/// or at the first non-blank cell, which links only if it belongs to a
/// station other than `exclude`.
pub open spec fn scan_dir(
    grid: Seq<Seq<char>>,
    locs: Seq<SourceLocation>,
    r: int,
    c: int,
    d: Direction,
    exclude: int,
) -> Option<int>
    decreases scan_measure(grid, r, c, d),
{
    if !in_grid(grid, r, c) {
        None
    } else if !blank(grid[r][c]) {
        match station_at(locs, r, c) {
            Some(t) => if t != exclude {
                Some(t)
            } else {
                None
            },
            None => None,
        }
    } else {
        scan_dir(grid, locs, step_row(d, r), step_col(d, c), d, exclude)
    }
}

/// Walks the grid outward from `(r, c)` in direction `d` until it leaves the
/// grid or meets a non-blank cell.
fn scan_dir_exec(
    map: &Vec<Vec<char>>,
    locs: &Vec<SourceLocation>,
    r: usize,
    c: usize,
    d: Direction,
    exclude: usize,
) -> (res: Option<usize>)
    ensures
        match res {
            Some(t) => scan_dir(grid_views(map@), locs@, r as int, c as int, d, exclude as int)
                == Some(t as int) && t < locs@.len(),
            None => scan_dir(grid_views(map@), locs@, r as int, c as int, d, exclude as int)
                is None,
        },
{
    let ghost g = grid_views(map@);
    let mut rr = r;
    let mut cc = c;
    loop
        invariant
            g == grid_views(map@),
            scan_dir(g, locs@, r as int, c as int, d, exclude as int) == scan_dir(
                g,
                locs@,
                rr as int,
                cc as int,
                d,
                exclude as int,
            ),
        decreases scan_measure(g, rr as int, cc as int, d),
    {
        if rr >= map.len() {
            return None;
        }
        let row_len = map[rr].len();
        proof {
            assert(g[rr as int] == map@[rr as int]@);
        }
        if cc >= row_len {
            return None;
        }
        let ch = map[rr][cc];
        if ch != ' ' {
            match station_at_exec(locs, rr, cc) {
                Some(t) => {
                    if t != exclude {
                        return Some(t);
                    } else {
                        return None;
                    }
                },
                None => {
                    return None;
                },
            }
        }
        match d {
            Direction::NORTH => {
                if rr == 0 {
                    proof {
                        assert(scan_dir(g, locs@, -1, cc as int, d, exclude as int) is None);
                    }
                    return None;
                }
                rr = rr - 1;
            },
            Direction::SOUTH => {
                rr = rr + 1;
            },
            Direction::EAST => {
                cc = cc + 1;
            },
            Direction::WEST => {
                if cc == 0 {
                    proof {
                        assert(scan_dir(g, locs@, rr as int, -1, d, exclude as int) is None);
                    }
                    return None;
                }
                cc = cc - 1;
            },
        }
    }
}

// ---------------------------------------------------------------------------
// Wiring the graph
// ---------------------------------------------------------------------------
/// The stations reached by scanning outward from each of the given cells, in
/// cell order, each with the direction it was found in.
pub open spec fn scan_cells(
    grid: Seq<Seq<char>>,
    locs: Seq<SourceLocation>,
    cells: Seq<(usize, usize, Direction)>,
    exclude: int,
) -> Seq<(int, Direction)>
    decreases cells.len(),
{
    if cells.len() == 0 {
        Seq::empty()
    } else {
        (match scan_dir(grid, locs, cells[0].0 as int, cells[0].1 as int, cells[0].2, exclude) {
            Some(t) => seq![(t, cells[0].2)],
            None => Seq::empty(),
        }) + scan_cells(grid, locs, cells.drop_first(), exclude)
    }
}

proof fn lemma_scan_cells_push(
    grid: Seq<Seq<char>>,
    locs: Seq<SourceLocation>,
    cells: Seq<(usize, usize, Direction)>,
    x: (usize, usize, Direction),
    exclude: int,
)
    ensures
        scan_cells(grid, locs, cells.push(x), exclude) == scan_cells(grid, locs, cells, exclude)
            + (match scan_dir(grid, locs, x.0 as int, x.1 as int, x.2, exclude) {
            Some(t) => seq![(t, x.2)],
            None => Seq::<(int, Direction)>::empty(),
        }),
    decreases cells.len(),
{
    let scanned_x = (match scan_dir(grid, locs, x.0 as int, x.1 as int, x.2, exclude) {
        Some(t) => seq![(t, x.2)],
        None => Seq::<(int, Direction)>::empty(),
    });
    if cells.len() == 0 {
        assert(cells.push(x)[0] == x);
        assert(cells.push(x).drop_first() =~= Seq::<(usize, usize, Direction)>::empty());
        assert(scan_cells(grid, locs, Seq::<(usize, usize, Direction)>::empty(), exclude) =~= Seq::<
            (int, Direction),
        >::empty());
        assert(scan_cells(grid, locs, cells, exclude) + scanned_x =~= scanned_x);
        assert(scanned_x + Seq::<(int, Direction)>::empty() =~= scanned_x);
        assert(scan_cells(grid, locs, cells.push(x), exclude) =~= scan_cells(
            grid,
            locs,
            cells,
            exclude,
        ) + scanned_x);
    } else {
        assert(cells.push(x)[0] == cells[0]);
        assert(cells.push(x).drop_first() =~= cells.drop_first().push(x));
        lemma_scan_cells_push(grid, locs, cells.drop_first(), x, exclude);
        let s0 = (match scan_dir(
            grid,
            locs,
            cells[0].0 as int,
            cells[0].1 as int,
            cells[0].2,
            exclude,
        ) {
            Some(t) => seq![(t, cells[0].2)],
            None => Seq::<(int, Direction)>::empty(),
        });
        assert(s0 + (scan_cells(grid, locs, cells.drop_first(), exclude) + scanned_x) =~= (s0
            + scan_cells(grid, locs, cells.drop_first(), exclude)) + scanned_x);
        assert(scan_cells(grid, locs, cells.push(x), exclude) =~= scan_cells(
            grid,
            locs,
            cells,
            exclude,
        ) + scanned_x);
    }
}

/// The locations of a station list.
pub open spec fn locs_of(sts: Seq<Station>) -> Seq<SourceLocation> {
    sts.map(|_i: int, s: Station| s.loc)
}

/// The links leaving station `i`: the station reached from each cell
/// bordering its span, in the rotation order its modifiers prescribe.
pub open spec fn station_links(grid: Seq<Seq<char>>, sts: Seq<Station>, i: int) -> Seq<
    (int, Direction),
> {
    scan_cells(grid, locs_of(sts), neighbors_spec(grid, sts[i].loc, sts[i].modifiers), i)
}

/// The target stations of a link list.
pub open spec fn targets(ls: Seq<(int, Direction)>) -> Seq<int> {
    ls.map(|_i: int, l: (int, Direction)| l.0)
}

/// The targets of every link of the stations before `upto`, in wiring order.
pub open spec fn links_concat(grid: Seq<Seq<char>>, sts: Seq<Station>, upto: int) -> Seq<int>
    decreases upto,
{
    if upto <= 0 {
        Seq::empty()
    } else {
        links_concat(grid, sts, upto - 1) + targets(station_links(grid, sts, upto - 1))
    }
}

/// Occurrences of `t` in `g`.
pub open spec fn count_in(g: Seq<int>, t: int) -> int
    decreases g.len(),
{
    if g.len() == 0 {
        0
    } else {
        count_in(g.drop_last(), t) + if g.last() == t {
            1int
        } else {
            0int
        }
    }
}

/// A wired graph: every out-bay names a station of the graph and an input
/// bay present on that station.
pub open spec fn wf_graph(sts: Seq<Station>) -> bool {
    forall|i: int, j: int|
        0 <= i < sts.len() && 0 <= j < sts[i].out_bays@.len() ==> ((
        #[trigger] sts[i].out_bays@[j]).0 as int) < sts.len() && (sts[i].out_bays@[j].1 as int)
            < sts[sts[i].out_bays@[j].0 as int].in_bays@.len()
}

/// The links of a station depend only on the spans and modifiers.
pub proof fn lemma_links_concat_congruence(
    grid: Seq<Seq<char>>,
    sts1: Seq<Station>,
    sts2: Seq<Station>,
    upto: int,
)
    requires
        sts1.len() == sts2.len(),
        locs_of(sts1) == locs_of(sts2),
        forall|i: int|
            0 <= i < sts1.len() ==> sts1[i].loc == sts2[i].loc && sts1[i].modifiers
                == sts2[i].modifiers,
        0 <= upto <= sts1.len(),
    ensures
        links_concat(grid, sts1, upto) == links_concat(grid, sts2, upto),
        forall|i: int|
            0 <= i < sts1.len() ==> station_links(grid, sts1, i) == station_links(grid, sts2, i),
    decreases upto,
{
    assert forall|i: int| 0 <= i < sts1.len() implies station_links(grid, sts1, i)
        == station_links(grid, sts2, i) by {
        assert(sts1[i].loc == sts2[i].loc);
    }
    if upto > 0 {
        lemma_links_concat_congruence(grid, sts1, sts2, upto - 1);
    }
}

/// Wires every station's out-bays: for each cell bordering the station's
/// span, in rotation order, the nearest station found by the outward scan
/// becomes a link; each link plugs into a fresh input bay on its target, so a
/// target's bay indices follow the global wiring order.
pub fn wire_stations(stations: &mut Vec<Station>, map: &Vec<Vec<char>>)
    requires
        forall|i: int|
            0 <= i < old(stations)@.len() ==> station_in_grid(
                grid_views(map@),
                (#[trigger] old(stations)@[i]).loc,
            ),
        forall|i: int|
            0 <= i < old(stations)@.len() ==> (#[trigger] old(stations)@[i]).in_bays@.len() == 0
                && old(stations)@[i].out_bays@.len() == 0,
    ensures
        final(stations)@.len() == old(stations)@.len(),
        forall|i: int|
            0 <= i < final(stations)@.len() ==> (#[trigger] final(stations)@[i]).loc == old(stations)@[i].loc && final(stations)@[i].logic == old(stations)@[i].logic && final(stations)@[i].modifiers == old(stations)@[i].modifiers,
        forall|i: int|
            0 <= i < final(stations)@.len() ==> (#[trigger] final(stations)@[i]).out_bays@.len()
                == station_links(grid_views(map@), final(stations)@, i).len(),
        forall|i: int, j: int|
            0 <= i < final(stations)@.len() && 0 <= j < station_links(
                grid_views(map@),
                final(stations)@,
                i,
            ).len() ==> ((#[trigger] final(stations)@[i].out_bays@[j]).0 as int) == station_links(
                grid_views(map@),
                final(stations)@,
                i,
            )[j].0 && (final(stations)@[i].out_bays@[j].1 as int) == count_in(
                links_concat(grid_views(map@), final(stations)@, i) + targets(
                    station_links(grid_views(map@), final(stations)@, i),
                ).take(j),
                station_links(grid_views(map@), final(stations)@, i)[j].0,
            ),
        forall|i: int|
            0 <= i < final(stations)@.len() ==> (#[trigger] final(stations)@[i]).in_bays@.len()
                == count_in(
                links_concat(grid_views(map@), final(stations)@, final(stations)@.len() as int),
                i,
            ),
        forall|i: int, b: int|
            0 <= i < final(stations)@.len() && 0 <= b < final(stations)@[i].in_bays@.len()
                ==> (#[trigger] final(stations)@[i].in_bays@[b]) is None,
        wf_graph(final(stations)@),
{
    let ghost g = grid_views(map@);
    let ghost sts0 = old(stations)@;
    let n = stations.len();
    let mut locs: Vec<SourceLocation> = Vec::new();
    let mut k: usize = 0;
    while k < n
        invariant
            stations@ == sts0,
            n == sts0.len(),
            k <= n,
            locs@ =~= locs_of(sts0).take(k as int),
        decreases n - k,
    {
        locs.push(stations[k].loc);
        proof {
            assert(locs@ =~= locs_of(sts0).take(k as int + 1));
        }
        k = k + 1;
    }
    proof {
        assert(locs@ =~= locs_of(sts0).take(n as int));
        assert(locs_of(sts0).take(n as int) =~= locs_of(sts0));
    }
    let mut s: usize = 0;
    while s < n
        invariant
            n == stations@.len(),
            n == sts0.len(),
            s <= n,
            g == grid_views(map@),
            locs@ == locs_of(sts0),
            forall|i: int|
                0 <= i < n ==> (#[trigger] stations@[i]).loc == sts0[i].loc && stations@[i].logic
                    == sts0[i].logic && stations@[i].modifiers == sts0[i].modifiers,
            forall|i: int| 0 <= i < n ==> station_in_grid(g, (#[trigger] sts0[i]).loc),
            forall|i: int|
                0 <= i < s ==> (#[trigger] stations@[i]).out_bays@.len() == station_links(
                    g,
                    sts0,
                    i,
                ).len(),
            forall|i: int, j: int|
                0 <= i < s && 0 <= j < station_links(g, sts0, i).len() ==> ((
                #[trigger] stations@[i].out_bays@[j]).0 as int) == station_links(g, sts0, i)[j].0
                    && (stations@[i].out_bays@[j].1 as int) == count_in(
                    links_concat(g, sts0, i) + targets(station_links(g, sts0, i)).take(j),
                    station_links(g, sts0, i)[j].0,
                ),
            forall|i: int| s <= i < n ==> (#[trigger] stations@[i]).out_bays@.len() == 0,
            forall|i: int|
                0 <= i < n ==> (#[trigger] stations@[i]).in_bays@.len() == count_in(
                    links_concat(g, sts0, s as int),
                    i,
                ),
            forall|i: int, b: int|
                0 <= i < n && 0 <= b < stations@[i].in_bays@.len() ==> (
                #[trigger] stations@[i].in_bays@[b]) is None,
            wf_graph(stations@),
        decreases n - s,
    {
        let nbrs = get_neighbors(map, &stations[s]);
        let ghost lnk = station_links(g, sts0, s as int);
        let m = nbrs.len();
        let mut idx: usize = 0;
        while idx < m
            invariant
                n == stations@.len(),
                n == sts0.len(),
                s < n,
                m == nbrs@.len(),
                g == grid_views(map@),
                locs@ == locs_of(sts0),
                nbrs@ == neighbors_spec(g, sts0[s as int].loc, sts0[s as int].modifiers),
                idx <= m,
                forall|i: int|
                    0 <= i < n ==> (#[trigger] stations@[i]).loc == sts0[i].loc
                        && stations@[i].logic == sts0[i].logic && stations@[i].modifiers
                        == sts0[i].modifiers,
                forall|i: int| 0 <= i < n ==> station_in_grid(g, (#[trigger] sts0[i]).loc),
                forall|i: int|
                    0 <= i < s ==> (#[trigger] stations@[i]).out_bays@.len() == station_links(
                        g,
                        sts0,
                        i,
                    ).len(),
                forall|i: int, j: int|
                    0 <= i < s && 0 <= j < station_links(g, sts0, i).len() ==> ((
                    #[trigger] stations@[i].out_bays@[j]).0 as int) == station_links(
                        g,
                        sts0,
                        i,
                    )[j].0 && (stations@[i].out_bays@[j].1 as int) == count_in(
                        links_concat(g, sts0, i) + targets(station_links(g, sts0, i)).take(j),
                        station_links(g, sts0, i)[j].0,
                    ),
                forall|i: int| s < i < n ==> (#[trigger] stations@[i]).out_bays@.len() == 0,
                stations@[s as int].out_bays@.len() == scan_cells(
                    g,
                    locs_of(sts0),
                    nbrs@.take(idx as int),
                    s as int,
                ).len(),
                forall|j: int|
                    0 <= j < stations@[s as int].out_bays@.len() ==> ((
                    #[trigger] stations@[s as int].out_bays@[j]).0 as int) == scan_cells(
                        g,
                        locs_of(sts0),
                        nbrs@.take(idx as int),
                        s as int,
                    )[j].0 && (stations@[s as int].out_bays@[j].1 as int) == count_in(
                        links_concat(g, sts0, s as int) + targets(
                            scan_cells(g, locs_of(sts0), nbrs@.take(idx as int), s as int),
                        ).take(j),
                        scan_cells(g, locs_of(sts0), nbrs@.take(idx as int), s as int)[j].0,
                    ),
                forall|i: int|
                    0 <= i < n ==> (#[trigger] stations@[i]).in_bays@.len() == count_in(
                        links_concat(g, sts0, s as int) + targets(
                            scan_cells(g, locs_of(sts0), nbrs@.take(idx as int), s as int),
                        ),
                        i,
                    ),
                forall|i: int, b: int|
                    0 <= i < n && 0 <= b < stations@[i].in_bays@.len() ==> (
                    #[trigger] stations@[i].in_bays@[b]) is None,
                wf_graph(stations@),
            decreases m - idx,
        {
            let cell = nbrs[idx];
            let ghost scanned = scan_cells(g, locs_of(sts0), nbrs@.take(idx as int), s as int);
            proof {
                assert(nbrs@.take(idx as int + 1) =~= nbrs@.take(idx as int).push(
                    nbrs@[idx as int],
                ));
                lemma_scan_cells_push(g, locs_of(sts0), nbrs@.take(idx as int), nbrs@[idx as int], s as int);
            }
            match scan_dir_exec(map, &locs, cell.0, cell.1, cell.2, s) {
                Some(t) => {
                    let ghost pre = stations@;
                    let b = stations[t].in_bays.len();
                    stations[t].in_bays.push(None);
                    stations[s].out_bays.push((t, b));
                    proof {
                        let scanned2 = scan_cells(
                            g,
                            locs_of(sts0),
                            nbrs@.take(idx as int + 1),
                            s as int,
                        );
                        assert(scanned2 =~= scanned.push((t as int, cell.2)));
                        assert(targets(scanned2) =~= targets(scanned).push(t as int));
                        let gpre = links_concat(g, sts0, s as int) + targets(scanned);
                        let gpost = links_concat(g, sts0, s as int) + targets(scanned2);
                        assert(gpost =~= gpre.push(t as int));
                        assert(gpost.drop_last() =~= gpre);
                        assert forall|i: int| 0 <= i < n implies count_in(gpost, i) == count_in(
                            gpre,
                            i,
                        ) + if i == t as int {
                            1int
                        } else {
                            0int
                        } by {}
                        assert forall|j: int|
                            0 <= j < stations@[s as int].out_bays@.len() implies ((
                        #[trigger] stations@[s as int].out_bays@[j]).0 as int) == scanned2[j].0
                            && (stations@[s as int].out_bays@[j].1 as int) == count_in(
                            links_concat(g, sts0, s as int) + targets(scanned2).take(j),
                            scanned2[j].0,
                        ) by {
                            if j < scanned.len() {
                                assert(targets(scanned2).take(j) =~= targets(scanned).take(j));
                                assert(scanned2[j] == scanned[j]);
                                assert(stations@[s as int].out_bays@[j]
                                    == pre[s as int].out_bays@[j]);
                            } else {
                                assert(j == scanned.len());
                                assert(targets(scanned2).take(j) =~= targets(scanned));
                                assert(scanned2[j] == (t as int, cell.2));
                            }
                        }
                    }
                },
                None => {
                    proof {
                        let scanned2 = scan_cells(
                            g,
                            locs_of(sts0),
                            nbrs@.take(idx as int + 1),
                            s as int,
                        );
                        assert(scanned2 =~= scanned);
                        assert(targets(scanned2) =~= targets(scanned));
                        assert(links_concat(g, sts0, s as int) + targets(scanned2)
                            =~= links_concat(g, sts0, s as int) + targets(scanned));
                    }
                },
            }
            idx = idx + 1;
        }
        proof {
            assert(nbrs@.take(m as int) =~= nbrs@);
            assert(scan_cells(g, locs_of(sts0), nbrs@, s as int) == station_links(
                g,
                sts0,
                s as int,
            ));
            assert(links_concat(g, sts0, s as int + 1) == links_concat(g, sts0, s as int)
                + targets(station_links(g, sts0, s as int)));
        }
        s = s + 1;
    }
    proof {
        assert(locs_of(stations@) =~= locs_of(sts0));
        lemma_links_concat_congruence(g, stations@, sts0, n as int);
        assert forall|i: int| 0 <= i <= n implies links_concat(g, stations@, i) == links_concat(
            g,
            sts0,
            i,
        ) by {
            lemma_links_concat_congruence(g, stations@, sts0, i);
        }
    }
}


/// A graph the wiring pass has completed: every station's out-bays hold
/// exactly its links in rotation order, each link plugs into the input bay
/// its target grew for it in global wiring order, every input bay is empty,
/// and all references are in bounds.
pub open spec fn fully_wired(grid: Seq<Seq<char>>, sts: Seq<Station>) -> bool {
    &&& forall|i: int|
        0 <= i < sts.len() ==> (#[trigger] sts[i]).out_bays@.len() == station_links(
            grid,
            sts,
            i,
        ).len()
    &&& forall|i: int, j: int|
        0 <= i < sts.len() && 0 <= j < station_links(grid, sts, i).len() ==> ((
        #[trigger] sts[i].out_bays@[j]).0 as int) == station_links(grid, sts, i)[j].0 && (
        sts[i].out_bays@[j].1 as int) == count_in(
            links_concat(grid, sts, i) + targets(station_links(grid, sts, i)).take(j),
            station_links(grid, sts, i)[j].0,
        )
    &&& forall|i: int|
        0 <= i < sts.len() ==> (#[trigger] sts[i]).in_bays@.len() == count_in(
            links_concat(grid, sts, sts.len() as int),
            i,
        )
    &&& forall|i: int, b: int|
        0 <= i < sts.len() && 0 <= b < sts[i].in_bays@.len() ==> (
        #[trigger] sts[i].in_bays@[b]) is None
    &&& wf_graph(sts)
}


// ---------------------------------------------------------------------------
// Laws of the neighbor ordering
// ---------------------------------------------------------------------------
proof fn lemma_reverse_twice(s: Seq<(usize, usize)>)
    ensures
        s.reverse().reverse() =~= s,
{
}

proof fn lemma_attach_dir_reverse(cs: Seq<(usize, usize)>, d: Direction)
    ensures
        attach_dir(cs.reverse(), d) =~= attach_dir(cs, d).reverse(),
{
}

proof fn lemma_walk_order_flip(grid: Seq<Seq<char>>, loc: SourceLocation, d: Direction)
    ensures
        cells_in_walk_order(grid, loc, d, true) =~= cells_in_walk_order(grid, loc, d, false).reverse(),
{
    if walk_descending(d, false) {
        lemma_reverse_twice(adjacent_cells(grid, loc, d));
    }
}

/// Two sequences that are rotations of one another hold the same elements.
proof fn lemma_rotation_same_elements(a: Seq<(usize, usize, Direction)>, b: Seq<(usize, usize, Direction)>, k: int)
    requires
        0 <= k <= a.len(),
        b == a.subrange(k, a.len() as int) + a.subrange(0, k),
    ensures
        forall|x: (usize, usize, Direction)| #[trigger] b.contains(x) <==> a.contains(x),
{
    assert forall|x: (usize, usize, Direction)| #[trigger] b.contains(x) implies a.contains(x) by {
        let i = choose|i: int| 0 <= i < b.len() && b[i] == x;
        if i < a.len() - k {
            assert(a[k + i] == x);
        } else {
            assert(a[i - (a.len() - k)] == x);
        }
    }
    assert forall|x: (usize, usize, Direction)| #[trigger] a.contains(x) implies b.contains(x) by {
        let i = choose|i: int| 0 <= i < a.len() && a[i] == x;
        if i >= k {
            assert(b[i - k] == x);
        } else {
            assert(b[a.len() - k + i] == x);
        }
    }
}

proof fn lemma_reverse_of_concat(a: Seq<(usize, usize, Direction)>, b: Seq<(usize, usize, Direction)>)
    ensures
        (a + b).reverse() =~= b.reverse() + a.reverse(),
{
}

proof fn lemma_reverse_contains(s: Seq<(usize, usize, Direction)>)
    ensures
        forall|x: (usize, usize, Direction)| #[trigger] s.reverse().contains(x) <==> s.contains(x),
{
    assert forall|x: (usize, usize, Direction)| #[trigger] s.reverse().contains(x) implies s.contains(
        x,
    ) by {
        let i = choose|i: int| 0 <= i < s.reverse().len() && s.reverse()[i] == x;
        assert(s[s.len() - 1 - i] == x);
    }
    assert forall|x: (usize, usize, Direction)| #[trigger] s.contains(x) implies s.reverse().contains(
        x,
    ) by {
        let i = choose|i: int| 0 <= i < s.len() && s[i] == x;
        assert(s.reverse()[s.len() - 1 - i] == x);
    }
}

proof fn lemma_concat_contains(a: Seq<(usize, usize, Direction)>, b: Seq<(usize, usize, Direction)>)
    ensures
        forall|x: (usize, usize, Direction)| #[trigger]
            (a + b).contains(x) <==> a.contains(x) || b.contains(x),
{
    assert forall|x: (usize, usize, Direction)| #[trigger] (a + b).contains(x) implies a.contains(x)
        || b.contains(x) by {
        let i = choose|i: int| 0 <= i < (a + b).len() && (a + b)[i] == x;
        if i < a.len() {
            assert(a[i] == x);
        } else {
            assert(b[i - a.len()] == x);
        }
    }
    assert forall|x: (usize, usize, Direction)| a.contains(x) || b.contains(x) implies #[trigger] (a
        + b).contains(x) by {
        if a.contains(x) {
            let i = choose|i: int| 0 <= i < a.len() && a[i] == x;
            assert((a + b)[i] == x);
        } else {
            let i = choose|i: int| 0 <= i < b.len() && b[i] == x;
            assert((a + b)[a.len() + i] == x);
        }
    }
}

/// One direction group of the counter-clockwise walk is the clockwise group
/// reversed.
proof fn lemma_group_flip(grid: Seq<Seq<char>>, loc: SourceLocation, d: Direction)
    ensures
        attach_dir(cells_in_walk_order(grid, loc, d, true), d) == attach_dir(
            cells_in_walk_order(grid, loc, d, false),
            d,
        ).reverse(),
{
    lemma_walk_order_flip(grid, loc, d);
    lemma_attach_dir_reverse(cells_in_walk_order(grid, loc, d, false), d);
    assert(attach_dir(cells_in_walk_order(grid, loc, d, true), d) =~= attach_dir(
        cells_in_walk_order(grid, loc, d, false),
        d,
    ).reverse());
}

/// Toggling `reverse` on otherwise-identical modifiers mirrors the neighbor
/// ordering: the counter-clockwise list is the clockwise list with the
/// priority group reversed in place and the remainder reversed as a block,
/// and both lists hold exactly the same neighbor cells.
#[verifier::rlimit(100)]
#[verifier::spinoff_prover]
pub proof fn lemma_neighbors_reverse_mirror(grid: Seq<Seq<char>>, loc: SourceLocation, p: Direction)
    ensures
        ({
            let cw = neighbors_spec(grid, loc, (StationModifiers { reverse: false, priority: p }));
            let ccw = neighbors_spec(grid, loc, (StationModifiers { reverse: true, priority: p }));
            let k = adjacent_cells(grid, loc, p).len() as int;
            &&& ccw.len() == cw.len()
            &&& k <= cw.len()
            &&& ccw == cw.subrange(0, k).reverse() + cw.subrange(k, cw.len() as int).reverse()
            &&& forall|x: (usize, usize, Direction)| #[trigger] ccw.contains(x) <==> cw.contains(x)
        }),
{
    let cw = neighbors_spec(grid, loc, (StationModifiers { reverse: false, priority: p }));
    let ccw = neighbors_spec(grid, loc, (StationModifiers { reverse: true, priority: p }));
    let d1 = p.clockwise();
    let d2 = p.clockwise().clockwise();
    let d3 = p.clockwise().clockwise().clockwise();
    assert(p.counter_clockwise() == d3);
    assert(p.counter_clockwise().counter_clockwise() == d2);
    assert(p.counter_clockwise().counter_clockwise().counter_clockwise() == d1);
    let a0 = attach_dir(cells_in_walk_order(grid, loc, p, false), p);
    let a1 = attach_dir(cells_in_walk_order(grid, loc, d1, false), d1);
    let a2 = attach_dir(cells_in_walk_order(grid, loc, d2, false), d2);
    let a3 = attach_dir(cells_in_walk_order(grid, loc, d3, false), d3);
    lemma_group_flip(grid, loc, p);
    lemma_group_flip(grid, loc, d1);
    lemma_group_flip(grid, loc, d2);
    lemma_group_flip(grid, loc, d3);
    assert(cw == a0 + a1 + a2 + a3);
    assert(ccw == a0.reverse() + a3.reverse() + a2.reverse() + a1.reverse());
    let k = adjacent_cells(grid, loc, p).len() as int;
    assert(a0.len() == k);
    let rest = a1 + a2 + a3;
    assert(cw.subrange(0, k) =~= a0);
    assert(cw.subrange(k, cw.len() as int) =~= rest);
    lemma_reverse_of_concat(a1 + a2, a3);
    lemma_reverse_of_concat(a1, a2);
    assert((a1 + a2) + a3 =~= rest);
    assert(rest.reverse() =~= a3.reverse() + (a1 + a2).reverse());
    assert(a3.reverse() + ((a2.reverse() + a1.reverse())) =~= (a3.reverse() + a2.reverse())
        + a1.reverse());
    assert(rest.reverse() =~= a3.reverse() + a2.reverse() + a1.reverse());
    assert(a0.reverse() + a3.reverse() + a2.reverse() + a1.reverse() =~= a0.reverse() + (
    a3.reverse() + a2.reverse() + a1.reverse()));
    assert(ccw == cw.subrange(0, k).reverse() + cw.subrange(k, cw.len() as int).reverse());
    lemma_reverse_contains(a0);
    lemma_reverse_contains(a1);
    lemma_reverse_contains(a2);
    lemma_reverse_contains(a3);
    lemma_concat_contains(a0, a1);
    lemma_concat_contains(a0 + a1, a2);
    lemma_concat_contains(a0 + a1 + a2, a3);
    lemma_concat_contains(a0.reverse(), a3.reverse());
    lemma_concat_contains(a0.reverse() + a3.reverse(), a2.reverse());
    lemma_concat_contains(a0.reverse() + a3.reverse() + a2.reverse(), a1.reverse());
    assert forall|x: (usize, usize, Direction)| #[trigger] ccw.contains(x) <==> cw.contains(x) by {
        assert(cw.contains(x) <==> a0.contains(x) || a1.contains(x) || a2.contains(x)
            || a3.contains(x));
        assert(ccw.contains(x) <==> a0.reverse().contains(x) || a3.reverse().contains(x)
            || a2.reverse().contains(x) || a1.reverse().contains(x));
    }
}

/// How far into the priority-north neighbor list the group of direction `p`
/// begins.
pub open spec fn rotation_offset(
    grid: Seq<Seq<char>>,
    loc: SourceLocation,
    reverse: bool,
    p: Direction,
) -> int {
    let wn = adjacent_cells(grid, loc, Direction::NORTH).len() as int;
    let we = adjacent_cells(grid, loc, Direction::EAST).len() as int;
    let ws = adjacent_cells(grid, loc, Direction::SOUTH).len() as int;
    let ww = adjacent_cells(grid, loc, Direction::WEST).len() as int;
    if !reverse {
        match p {
            Direction::NORTH => 0,
            Direction::EAST => wn,
            Direction::SOUTH => wn + we,
            Direction::WEST => wn + we + ws,
        }
    } else {
        match p {
            Direction::NORTH => 0,
            Direction::WEST => wn,
            Direction::SOUTH => wn + ww,
            Direction::EAST => wn + ww + ws,
        }
    }
}

/// Changing the priority only rotates the starting point of the same cyclic
/// neighbor ordering, so the neighbor cells themselves stay the same.
#[verifier::rlimit(100)]
#[verifier::spinoff_prover]
pub proof fn lemma_neighbors_priority_rotation(
    grid: Seq<Seq<char>>,
    loc: SourceLocation,
    reverse: bool,
    p: Direction,
)
    ensures
        ({
            let base = neighbors_spec(
                grid,
                loc,
                (StationModifiers { reverse, priority: Direction::NORTH }),
            );
            let rp = neighbors_spec(grid, loc, (StationModifiers { reverse, priority: p }));
            let off = rotation_offset(grid, loc, reverse, p);
            &&& 0 <= off <= base.len()
            &&& rp.len() == base.len()
            &&& rp == base.subrange(off, base.len() as int) + base.subrange(0, off)
            &&& forall|x: (usize, usize, Direction)| #[trigger] rp.contains(x) <==> base.contains(x)
        }),
{
    let base = neighbors_spec(grid, loc, (StationModifiers { reverse, priority: Direction::NORTH }));
    let rp = neighbors_spec(grid, loc, (StationModifiers { reverse, priority: p }));
    let off = rotation_offset(grid, loc, reverse, p);
    let an = attach_dir(cells_in_walk_order(grid, loc, Direction::NORTH, reverse), Direction::NORTH);
    let ae = attach_dir(cells_in_walk_order(grid, loc, Direction::EAST, reverse), Direction::EAST);
    let as_ = attach_dir(cells_in_walk_order(grid, loc, Direction::SOUTH, reverse), Direction::SOUTH);
    let aw = attach_dir(cells_in_walk_order(grid, loc, Direction::WEST, reverse), Direction::WEST);
    if !reverse {
        assert(base == an + ae + as_ + aw);
        match p {
            Direction::NORTH => {
                assert(rp =~= base.subrange(off, base.len() as int) + base.subrange(0, off));
            },
            Direction::EAST => {
                assert(rp == ae + as_ + aw + an);
                assert(base.subrange(off, base.len() as int) =~= ae + as_ + aw);
                assert(base.subrange(0, off) =~= an);
                assert(rp =~= base.subrange(off, base.len() as int) + base.subrange(0, off));
            },
            Direction::SOUTH => {
                assert(rp == as_ + aw + an + ae);
                assert(base.subrange(off, base.len() as int) =~= as_ + aw);
                assert(base.subrange(0, off) =~= an + ae);
                assert(rp =~= base.subrange(off, base.len() as int) + base.subrange(0, off));
            },
            Direction::WEST => {
                assert(rp == aw + an + ae + as_);
                assert(base.subrange(off, base.len() as int) =~= aw);
                assert(base.subrange(0, off) =~= an + ae + as_);
                assert(rp =~= base.subrange(off, base.len() as int) + base.subrange(0, off));
            },
        }
    } else {
        assert(base == an + aw + as_ + ae);
        match p {
            Direction::NORTH => {
                assert(rp =~= base.subrange(off, base.len() as int) + base.subrange(0, off));
            },
            Direction::WEST => {
                assert(rp == aw + as_ + ae + an);
                assert(base.subrange(off, base.len() as int) =~= aw + as_ + ae);
                assert(base.subrange(0, off) =~= an);
                assert(rp =~= base.subrange(off, base.len() as int) + base.subrange(0, off));
            },
            Direction::SOUTH => {
                assert(rp == as_ + ae + an + aw);
                assert(base.subrange(off, base.len() as int) =~= as_ + ae);
                assert(base.subrange(0, off) =~= an + aw);
                assert(rp =~= base.subrange(off, base.len() as int) + base.subrange(0, off));
            },
            Direction::EAST => {
                assert(rp == ae + an + aw + as_);
                assert(base.subrange(off, base.len() as int) =~= ae);
                assert(base.subrange(0, off) =~= an + aw + as_);
                assert(rp =~= base.subrange(off, base.len() as int) + base.subrange(0, off));
            },
        }
    }
    lemma_rotation_same_elements(base, rp, off);
}


// ---------------------------------------------------------------------------
// A station with nothing around it
// ---------------------------------------------------------------------------
/// A scan position strictly outside the span `loc` on the far side of
/// direction `d`, from which walking further along `d` never meets the span.
pub open spec fn moving_away(loc: SourceLocation, r: int, c: int, d: Direction) -> bool {
    match d {
        Direction::NORTH => r < loc.line,
        Direction::SOUTH => r > loc.line,
        Direction::EAST => c >= loc.col + loc.len,
        Direction::WEST => c < loc.col,
    }
}

proof fn lemma_scan_away_none(
    grid: Seq<Seq<char>>,
    locs: Seq<SourceLocation>,
    loc: SourceLocation,
    r: int,
    c: int,
    d: Direction,
    ex: int,
)
    requires
        forall|r2: int, c2: int|
            in_grid(grid, r2, c2) && !covers(loc, r2, c2) ==> blank(#[trigger] grid[r2][c2]),
        moving_away(loc, r, c, d),
    ensures
        scan_dir(grid, locs, r, c, d, ex) is None,
    decreases scan_measure(grid, r, c, d),
{
    if in_grid(grid, r, c) {
        assert(!covers(loc, r, c));
        assert(blank(grid[r][c]));
        lemma_scan_away_none(grid, locs, loc, step_row(d, r), step_col(d, c), d, ex);
    }
}

proof fn lemma_scan_cells_away(
    grid: Seq<Seq<char>>,
    locs: Seq<SourceLocation>,
    loc: SourceLocation,
    cells: Seq<(usize, usize, Direction)>,
    ex: int,
)
    requires
        forall|r2: int, c2: int|
            in_grid(grid, r2, c2) && !covers(loc, r2, c2) ==> blank(#[trigger] grid[r2][c2]),
        forall|k: int|
            0 <= k < cells.len() ==> moving_away(
                loc,
                (#[trigger] cells[k]).0 as int,
                cells[k].1 as int,
                cells[k].2,
            ),
    ensures
        scan_cells(grid, locs, cells, ex).len() == 0,
    decreases cells.len(),
{
    if cells.len() > 0 {
        lemma_scan_away_none(grid, locs, loc, cells[0].0 as int, cells[0].1 as int, cells[0].2, ex);
        assert(forall|k: int|
            0 <= k < cells.drop_first().len() ==> (#[trigger] cells.drop_first()[k]) == cells[k
                + 1]);
        lemma_scan_cells_away(grid, locs, loc, cells.drop_first(), ex);
    }
}

proof fn lemma_group_moving_away(grid: Seq<Seq<char>>, loc: SourceLocation, d: Direction, reverse: bool)
    requires
        loc.col + loc.len <= usize::MAX,
        loc.line < usize::MAX,
    ensures
        forall|m: int|
            0 <= m < attach_dir(cells_in_walk_order(grid, loc, d, reverse), d).len()
                ==> moving_away(
                loc,
                (#[trigger] attach_dir(cells_in_walk_order(grid, loc, d, reverse), d)[m]).0 as int,
                attach_dir(cells_in_walk_order(grid, loc, d, reverse), d)[m].1 as int,
                attach_dir(cells_in_walk_order(grid, loc, d, reverse), d)[m].2,
            ),
{
    let adj = adjacent_cells(grid, loc, d);
    assert forall|m: int| 0 <= m < adj.len() implies moving_away(
        loc,
        (#[trigger] adj[m]).0 as int,
        adj[m].1 as int,
        d,
    ) by {}
    let ordered = cells_in_walk_order(grid, loc, d, reverse);
    assert forall|m: int| 0 <= m < ordered.len() implies moving_away(
        loc,
        (#[trigger] ordered[m]).0 as int,
        ordered[m].1 as int,
        d,
    ) by {
        if walk_descending(d, reverse) {
            assert(ordered[m] == adj[adj.len() - 1 - m]);
        } else {
            assert(ordered[m] == adj[m]);
        }
    }
}

/// A station around which every grid cell outside its own span is blank is
/// wired to nothing, whatever its modifiers say.
pub proof fn lemma_isolated_station_unwired(grid: Seq<Seq<char>>, sts: Seq<Station>, i: int)
    requires
        0 <= i < sts.len(),
        sts[i].loc.col + sts[i].loc.len <= usize::MAX,
        sts[i].loc.line < usize::MAX,
        forall|r: int, c: int|
            in_grid(grid, r, c) && !covers(sts[i].loc, r, c) ==> blank(#[trigger] grid[r][c]),
    ensures
        station_links(grid, sts, i).len() == 0,
{
    let loc = sts[i].loc;
    let mods = sts[i].modifiers;
    let nbrs = neighbors_spec(grid, loc, mods);
    let r = rotation(mods);
    let a0 = attach_dir(cells_in_walk_order(grid, loc, r[0], mods.reverse), r[0]);
    let a1 = attach_dir(cells_in_walk_order(grid, loc, r[1], mods.reverse), r[1]);
    let a2 = attach_dir(cells_in_walk_order(grid, loc, r[2], mods.reverse), r[2]);
    let a3 = attach_dir(cells_in_walk_order(grid, loc, r[3], mods.reverse), r[3]);
    lemma_group_moving_away(grid, loc, r[0], mods.reverse);
    lemma_group_moving_away(grid, loc, r[1], mods.reverse);
    lemma_group_moving_away(grid, loc, r[2], mods.reverse);
    lemma_group_moving_away(grid, loc, r[3], mods.reverse);
    assert forall|k: int| 0 <= k < nbrs.len() implies moving_away(
        loc,
        (#[trigger] nbrs[k]).0 as int,
        nbrs[k].1 as int,
        nbrs[k].2,
    ) by {
        if k < a0.len() {
            assert(nbrs[k] == a0[k]);
        } else if k < a0.len() + a1.len() {
            assert(nbrs[k] == a1[k - a0.len()]);
        } else if k < a0.len() + a1.len() + a2.len() {
            assert(nbrs[k] == a2[k - a0.len() - a1.len()]);
        } else {
            assert(nbrs[k] == a3[k - a0.len() - a1.len() - a2.len()]);
        }
    }
    lemma_scan_cells_away(grid, locs_of(sts), loc, nbrs, i);
}

} // verus!
