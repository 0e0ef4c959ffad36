use vstd::prelude::*;
use std::collections::HashMap;
use crate::gtfs::PlanarPoint;

verus! {

broadcast use vstd::std_specs::hash::group_hash_axioms;

/// Manhattan distance between two projected points, in metres.
pub open spec fn manhattan(a: PlanarPoint, b: PlanarPoint) -> int {
    let dx = a.x - b.x;
    let dy = a.y - b.y;
    (if dx >= 0 {
        dx
    } else {
        -dx
    }) + (if dy >= 0 {
        dy
    } else {
        -dy
    })
}

/// The grid cell, along one axis, of coordinate `x` for cells of side `r`.
pub open spec fn cell_of(x: int, r: int) -> int {
    x / r
}

/// One number for the grid cell `(cx, cy)`, the key of its bucket.
pub open spec fn cell_key(cx: int, cy: int) -> int {
    cx * 0x100_0000_0000 + (cy + 0x80_0000_0000)
}

/// The cell number of a point.
pub open spec fn point_key(p: PlanarPoint, r: int) -> int {
    cell_key(cell_of(p.x as int, r), cell_of(p.y as int, r))
}

/// The grid cell along one axis, rounding down.
fn cell(x: i32, r: u32) -> (c: i64)
    requires
        r >= 1,
    ensures
        c == cell_of(x as int, r as int),
        -0x8000_0000 <= c < 0x8000_0000,
{
    if x >= 0 {
        let c = (x as i64) / (r as i64);
        proof {
            assert(c <= x) by (nonlinear_arith)
                requires
                    c == (x as int) / (r as int),
                    x >= 0,
                    r >= 1,
            ;
        }
        c
    } else {
        let a: i64 = -(x as i64);
        let q: i64 = (a + r as i64 - 1) / (r as i64);
        proof {
            let ri = r as int;
            let xi = x as int;
            let qi = q as int;
            assert(qi * ri <= a + ri - 1 < qi * ri + ri) by (nonlinear_arith)
                requires
                    qi == (a + ri - 1) / ri,
                    ri >= 1,
                    a + ri - 1 >= 0,
            ;
            let f = xi / ri;
            assert(f * ri <= xi < f * ri + ri) by (nonlinear_arith)
                requires
                    f == xi / ri,
                    ri >= 1,
            ;
            assert(-qi == f) by (nonlinear_arith)
                requires
                    qi * ri <= a + ri - 1 < qi * ri + ri,
                    f * ri <= xi < f * ri + ri,
                    a == -xi,
                    ri >= 1,
            ;
            assert(qi <= a) by (nonlinear_arith)
                requires
                    qi * ri <= a + ri - 1,
                    ri >= 1,
                    a >= 1,
            ;
        }
        -q
    }
}

/// Points within Manhattan distance `r` lie in cells that differ by at most one along each axis.
pub proof fn lemma_near_points_in_adjacent_cells(a: int, b: int, r: int)
    requires
        r >= 1,
        -r <= a - b <= r,
    ensures
        -1 <= cell_of(a, r) - cell_of(b, r) <= 1,
{
    let fa = a / r;
    let fb = b / r;
    assert(fa * r <= a < fa * r + r) by (nonlinear_arith)
        requires
            fa == a / r,
            r >= 1,
    ;
    assert(fb * r <= b < fb * r + r) by (nonlinear_arith)
        requires
            fb == b / r,
            r >= 1,
    ;
    assert(-1 <= fa - fb <= 1) by (nonlinear_arith)
        requires
            fa * r <= a < fa * r + r,
            fb * r <= b < fb * r + r,
            -r <= a - b <= r,
            r >= 1,
    ;
}

/// For each stop, every stop within Manhattan distance `radius` of it (itself included), with
/// that distance. Stops are bucketed into a grid of cells of side `radius`, and only the
/// 3 x 3 block of cells around a stop is searched.
pub fn get_pedestrian_connections(positions: &Vec<PlanarPoint>, radius: u32) -> (links: Vec<
    Vec<(usize, u32)>,
>)
    requires
        radius >= 1,
    ensures
        links.len() == positions.len(),
        forall|s: int, j: int|
            0 <= s < links.len() && 0 <= j < links@[s]@.len() ==> {
                let (t, d) = #[trigger] links@[s]@[j];
                &&& t < positions.len()
                &&& d == manhattan(positions@[s], positions@[t as int])
                &&& d <= radius
            },
        forall|s: int, t: int|
            0 <= s < positions.len() && 0 <= t < positions.len() && manhattan(
                positions@[s],
                positions@[t],
            ) <= radius ==> #[trigger] links@[s]@.contains(
                (t as usize, manhattan(positions@[s], positions@[t]) as u32),
            ),
{
    let n = positions.len();
    let mut cells: HashMap<i128, Vec<usize>> = HashMap::new();
    let mut i: usize = 0;
    while i < n
        invariant
            radius >= 1,
            n == positions.len(),
            i <= n,
            forall|k: i128|
                #[trigger] cells@.contains_key(k) ==> forall|j: int|
                    0 <= j < cells@[k]@.len() ==> {
                        &&& (#[trigger] cells@[k]@[j]) < n
                        &&& point_key(positions@[cells@[k]@[j] as int], radius as int) == k as int
                    },
            forall|s: int|
                0 <= s < i ==> cells@.contains_key(
                    point_key(#[trigger] positions@[s], radius as int) as i128,
                ) && cells@[point_key(positions@[s], radius as int) as i128]@.contains(s as usize),
        decreases n - i,
    {
        let p = positions[i];
        let key: i128 = cell(p.x, radius) as i128 * 0x100_0000_0000 + (cell(p.y, radius) as i128
            + 0x80_0000_0000);
        let ghost old_cells = cells@;
        let mut bucket = match cells.remove(&key) {
            Some(b) => b,
            None => Vec::new(),
        };
        let ghost old_bucket = bucket@;
        bucket.push(i);
        cells.insert(key, bucket);
        proof {
            assert forall|s: int|
                0 <= s < i + 1 implies cells@.contains_key(
                point_key(#[trigger] positions@[s], radius as int) as i128,
            ) && cells@[point_key(positions@[s], radius as int) as i128]@.contains(s as usize) by {
                let ks = point_key(positions@[s], radius as int) as i128;
                if s == i {
                    assert(cells@[key]@[old_bucket.len() as int] == i);
                } else if ks == key {
                    let j = choose|j: int| 0 <= j < old_cells[ks]@.len() && old_cells[ks]@[j] == s as usize;
                    assert(cells@[key]@[j] == s);
                } else {
                    assert(cells@[ks] == old_cells[ks]);
                }
            }
        }
        i += 1;
    }
    let mut links: Vec<Vec<(usize, u32)>> = Vec::new();
    let mut s: usize = 0;
    while s < n
        invariant
            radius >= 1,
            n == positions.len(),
            s <= n,
            links.len() == s,
            forall|k: i128|
                #[trigger] cells@.contains_key(k) ==> forall|j: int|
                    0 <= j < cells@[k]@.len() ==> {
                        &&& (#[trigger] cells@[k]@[j]) < n
                        &&& point_key(positions@[cells@[k]@[j] as int], radius as int) == k as int
                    },
            forall|s: int|
                0 <= s < n ==> cells@.contains_key(
                    point_key(#[trigger] positions@[s], radius as int) as i128,
                ) && cells@[point_key(positions@[s], radius as int) as i128]@.contains(s as usize),
            forall|a: int, j: int|
                0 <= a < links.len() && 0 <= j < links@[a]@.len() ==> {
                    let (t, d) = #[trigger] links@[a]@[j];
                    &&& t < positions.len()
                    &&& d == manhattan(positions@[a], positions@[t as int])
                    &&& d <= radius
                },
            forall|a: int, t: int|
                0 <= a < links.len() && 0 <= t < positions.len() && manhattan(
                    positions@[a],
                    positions@[t],
                ) <= radius ==> #[trigger] links@[a]@.contains(
                    (t as usize, manhattan(positions@[a], positions@[t]) as u32),
                ),
        decreases n - s,
    {
        let row = near_stops(positions, &cells, radius, s);
        links.push(row);
        s += 1;
    }
    links
}

/// The stops within Manhattan distance `radius` of stop `s`, found in the 3 x 3 block of cells
/// around it.
fn near_stops(
    positions: &Vec<PlanarPoint>,
    cells: &HashMap<i128, Vec<usize>>,
    radius: u32,
    s: usize,
) -> (row: Vec<(usize, u32)>)
    requires
        radius >= 1,
        s < positions.len(),
        forall|k: i128|
            #[trigger] cells@.contains_key(k) ==> forall|j: int|
                0 <= j < cells@[k]@.len() ==> {
                    &&& (#[trigger] cells@[k]@[j]) < positions.len()
                    &&& point_key(positions@[cells@[k]@[j] as int], radius as int) == k as int
                },
        forall|t: int|
            0 <= t < positions.len() ==> cells@.contains_key(
                point_key(#[trigger] positions@[t], radius as int) as i128,
            ) && cells@[point_key(positions@[t], radius as int) as i128]@.contains(t as usize),
    ensures
        forall|j: int|
            0 <= j < row@.len() ==> {
                let (t, d) = #[trigger] row@[j];
                &&& t < positions.len()
                &&& d == manhattan(positions@[s as int], positions@[t as int])
                &&& d <= radius
            },
        forall|t: int|
            0 <= t < positions.len() && manhattan(positions@[s as int], positions@[t]) <= radius
                ==> row@.contains((t as usize, manhattan(positions@[s as int], positions@[t]) as u32)),
{
    let p = positions[s];
    let cx = cell(p.x, radius);
    let cy = cell(p.y, radius);
    let mut row: Vec<(usize, u32)> = Vec::new();
    let mut off: usize = 0;
    while off < 9
        invariant
            radius >= 1,
            s < positions.len(),
            p == positions@[s as int],
            cx == cell_of(p.x as int, radius as int),
            cy == cell_of(p.y as int, radius as int),
            -0x8000_0000 <= cx < 0x8000_0000,
            -0x8000_0000 <= cy < 0x8000_0000,
            off <= 9,
            forall|k: i128|
                #[trigger] cells@.contains_key(k) ==> forall|j: int|
                    0 <= j < cells@[k]@.len() ==> {
                        &&& (#[trigger] cells@[k]@[j]) < positions.len()
                        &&& point_key(positions@[cells@[k]@[j] as int], radius as int) == k as int
                    },
            forall|t: int|
                0 <= t < positions.len() ==> cells@.contains_key(
                    point_key(#[trigger] positions@[t], radius as int) as i128,
                ) && cells@[point_key(positions@[t], radius as int) as i128]@.contains(t as usize),
            forall|j: int|
                0 <= j < row@.len() ==> {
                    let (t, d) = #[trigger] row@[j];
                    &&& t < positions.len()
                    &&& d == manhattan(positions@[s as int], positions@[t as int])
                    &&& d <= radius
                },
            forall|t: int|
                0 <= t < positions.len() && manhattan(positions@[s as int], positions@[t]) <= radius
                    && -1 <= cell_of(positions@[t].x as int, radius as int) - cx <= 1
                    && -1 <= cell_of(positions@[t].y as int, radius as int) - cy <= 1
                    && (cell_of(positions@[t].x as int, radius as int) - cx + 1) * 3 + (cell_of(
                    positions@[t].y as int,
                    radius as int,
                ) - cy + 1) < off ==> #[trigger] row@.contains(
                    (t as usize, manhattan(positions@[s as int], positions@[t]) as u32),
                ),
        decreases 9 - off,
    {
        let dx: i64 = (off / 3) as i64 - 1;
        let dy: i64 = (off % 3) as i64 - 1;
        let key: i128 = (cx + dx) as i128 * 0x100_0000_0000 + ((cy + dy) as i128 + 0x80_0000_0000);
        let ghost old_row = row@;
        match cells.get(&key) {
            Some(bucket) => {
                let mut j: usize = 0;
                while j < bucket.len()
                    invariant
                        radius >= 1,
                        s < positions.len(),
                        p == positions@[s as int],
                        cells@.contains_key(key),
                        cells@[key] == *bucket,
                        forall|jj: int|
                            0 <= jj < bucket@.len() ==> {
                                &&& (#[trigger] bucket@[jj]) < positions.len()
                                &&& point_key(positions@[bucket@[jj] as int], radius as int) == key as int
                            },
                        j <= bucket.len(),
                        forall|i: int| 0 <= i < old_row.len() ==> row@[i] == old_row[i],
                        old_row.len() <= row@.len(),
                        forall|i: int|
                            0 <= i < row@.len() ==> {
                                let (t, d) = #[trigger] row@[i];
                                &&& t < positions.len()
                                &&& d == manhattan(positions@[s as int], positions@[t as int])
                                &&& d <= radius
                            },
                        forall|jj: int|
                            0 <= jj < j && manhattan(
                                positions@[s as int],
                                positions@[bucket@[jj] as int],
                            ) <= radius ==> row@.contains(
                                (
                                    #[trigger] bucket@[jj],
                                    manhattan(positions@[s as int], positions@[bucket@[jj] as int])
                                        as u32,
                                ),
                            ),
                    decreases bucket.len() - j,
                {
                    let t = bucket[j];
                    let q = positions[t];
                    let ddx: i64 = if p.x as i64 >= q.x as i64 {
                        p.x as i64 - q.x as i64
                    } else {
                        q.x as i64 - p.x as i64
                    };
                    let ddy: i64 = if p.y as i64 >= q.y as i64 {
                        p.y as i64 - q.y as i64
                    } else {
                        q.y as i64 - p.y as i64
                    };
                    let d: i64 = ddx + ddy;
                    let ghost before = row@;
                    if d <= radius as i64 {
                        row.push((t, d as u32));
                        proof {
                            assert(row@[before.len() as int] == (t, d as u32));
                        }
                    }
                    proof {
                        assert forall|jj: int|
                            0 <= jj < j + 1 && manhattan(
                                positions@[s as int],
                                positions@[bucket@[jj] as int],
                            ) <= radius implies row@.contains(
                            (
                                #[trigger] bucket@[jj],
                                manhattan(positions@[s as int], positions@[bucket@[jj] as int])
                                    as u32,
                            ),
                        ) by {
                            if jj < j {
                                let e = (
                                    bucket@[jj],
                                    manhattan(positions@[s as int], positions@[bucket@[jj] as int])
                                        as u32,
                                );
                                let i = choose|i: int| 0 <= i < before.len() && before[i] == e;
                                assert(row@[i] == e);
                            } else {
                                assert(row@[before.len() as int] == (t, d as u32));
                            }
                        }
                    }
                    j += 1;
                }
                proof {
                    assert forall|t: int|
                        0 <= t < positions.len() && manhattan(positions@[s as int], positions@[t])
                            <= radius && point_key(positions@[t], radius as int) == key as int implies row@.contains(
                        (t as usize, manhattan(positions@[s as int], positions@[t]) as u32),
                    ) by {
                        assert(cells@[point_key(positions@[t], radius as int) as i128]@.contains(
                            t as usize,
                        ));
                        let jj = choose|jj: int| 0 <= jj < bucket@.len() && bucket@[jj] == t as usize;
                        assert(bucket@[jj] == t as usize);
                    }
                }
            },
            None => {},
        }
        proof {
            assert forall|t: int|
                0 <= t < positions.len() && manhattan(positions@[s as int], positions@[t]) <= radius
                    && -1 <= cell_of(positions@[t].x as int, radius as int) - cx <= 1
                    && -1 <= cell_of(positions@[t].y as int, radius as int) - cy <= 1
                    && (cell_of(positions@[t].x as int, radius as int) - cx + 1) * 3 + (cell_of(
                    positions@[t].y as int,
                    radius as int,
                ) - cy + 1) < off + 1 implies #[trigger] row@.contains(
                (t as usize, manhattan(positions@[s as int], positions@[t]) as u32),
            ) by {
                let tx = cell_of(positions@[t].x as int, radius as int);
                let ty = cell_of(positions@[t].y as int, radius as int);
                let e = (t as usize, manhattan(positions@[s as int], positions@[t]) as u32);
                lemma_near_points_in_adjacent_cells(p.x as int, positions@[t].x as int, radius as int);
                lemma_near_points_in_adjacent_cells(p.y as int, positions@[t].y as int, radius as int);
                if (tx - cx + 1) * 3 + (ty - cy + 1) < off {
                    assert(old_row.contains(e));
                    let i = choose|i: int| 0 <= i < old_row.len() && old_row[i] == e;
                    assert(row@[i] == e);
                } else {
                    assert(tx == cx + dx && ty == cy + dy);
                    assert(point_key(positions@[t], radius as int) == key as int);
                    assert(cells@.contains_key(point_key(positions@[t], radius as int) as i128));
                }
            }
        }
        off += 1;
    }
    proof {
        assert forall|t: int|
            0 <= t < positions.len() && manhattan(positions@[s as int], positions@[t]) <= radius
                implies row@.contains((t as usize, manhattan(positions@[s as int], positions@[t]) as u32)) by {
            lemma_near_points_in_adjacent_cells(p.x as int, positions@[t].x as int, radius as int);
            lemma_near_points_in_adjacent_cells(p.y as int, positions@[t].y as int, radius as int);
            assert(row@.contains((t as usize, manhattan(positions@[s as int], positions@[t]) as u32)));
        }
    }
    row
}

/// Walking links are symmetric: stop `t` is listed for `s` at distance `d` exactly when `s`
/// is listed for `t` at the same distance.
pub proof fn lemma_pedestrian_links_symmetric(
    positions: Seq<PlanarPoint>,
    radius: int,
    links: Seq<Seq<(usize, u32)>>,
    s: int,
    t: int,
    d: u32,
)
    requires
        links.len() == positions.len(),
        positions.len() <= usize::MAX,
        radius <= u32::MAX,
        0 <= s < positions.len(),
        0 <= t < positions.len(),
        forall|a: int, j: int|
            0 <= a < links.len() && 0 <= j < links[a].len() ==> {
                let (b, e) = #[trigger] links[a][j];
                &&& b < positions.len()
                &&& e == manhattan(positions[a], positions[b as int])
                &&& e <= radius
            },
        forall|a: int, b: int|
            0 <= a < positions.len() && 0 <= b < positions.len() && manhattan(positions[a], positions[b])
                <= radius ==> #[trigger] links[a].contains(
                (b as usize, manhattan(positions[a], positions[b]) as u32),
            ),
        links[s].contains((t as usize, d)),
    ensures
        links[t].contains((s as usize, d)),
{
    let j = choose|j: int| 0 <= j < links[s].len() && links[s][j] == (t as usize, d);
    assert(links[s][j] == (t as usize, d));
    assert(d == manhattan(positions[s], positions[t]));
    assert(manhattan(positions[s], positions[t]) == manhattan(positions[t], positions[s]));
    assert(manhattan(positions[t], positions[s]) <= radius);
    assert(links[t].contains((s as usize, manhattan(positions[t], positions[s]) as u32)));
}

} // verus!
