use packstep::celllist::{brute_force_pairs, GridError, GridPartition};
use packstep::point::{distance_squared, Point, MAX_COORD};
use std::collections::BTreeSet;

fn all_pairs(grid: &mut GridPartition, points: &[Point]) -> Vec<(usize, usize, i64)> {
    let mut it = grid.query_neighbors(points);
    let mut out = Vec::new();
    while let Some(e) = it.next() {
        out.push(e);
    }
    out
}

fn pseudo_random_points(n: usize, extent: i64, mut seed: u64) -> Vec<Point> {
    let mut next = || {
        seed = seed.wrapping_mul(6364136223846793005).wrapping_add(1442695040888963407);
        ((seed >> 33) % (extent as u64 + 1)) as i64
    };
    (0..n).map(|_| Point(next(), next(), next())).collect()
}

fn coords(grid: &GridPartition, c: usize) -> (i64, i64, i64) {
    let s = grid.nb_subdivisons();
    ((c / (s[1] * s[2])) as i64, ((c / s[2]) % s[1]) as i64, (c % s[2]) as i64)
}

#[test]
fn degenerate_domain_is_rejected() {
    assert!(matches!(GridPartition::new([10, 100, 100], 20), Err(GridError::DegenerateDomain)));
    assert!(matches!(GridPartition::new([100, 100, 5], 20), Err(GridError::DegenerateDomain)));
    assert!(matches!(GridPartition::new([100, 100, 100], 0), Err(GridError::DegenerateDomain)));
    assert!(matches!(GridPartition::new([100, 100, 100], -3), Err(GridError::DegenerateDomain)));
}

#[test]
fn domain_equal_to_radius_has_one_cell() {
    let grid = GridPartition::new([20, 20, 20], 20).ok().unwrap();
    assert_eq!(grid.nb_subdivisons(), [1, 1, 1]);
    assert_eq!(grid.nb_cells(), 1);
    assert_eq!(grid.adjacent_cells(0), vec![0]);
}

#[test]
fn subdivisions_and_widths() {
    let grid = GridPartition::new([100, 50, 70], 30).ok().unwrap();
    assert_eq!(grid.nb_subdivisons(), [3, 1, 2]);
    assert_eq!(grid.cell_width(), [33, 50, 35]);
    assert_eq!(grid.nb_cells(), 6);
}

#[test]
fn adjacency_lists_are_halved() {
    let grid = GridPartition::new([90, 90, 90], 30).ok().unwrap();
    assert_eq!(grid.nb_cells(), 27);
    assert_eq!(grid.adjacent_cells(0), vec![0]);
    // the centre cell (1, 1, 1) keeps itself and the 13 touching cells below it
    assert_eq!(grid.adjacent_cells(13), (0..14).collect::<Vec<usize>>());
    let total: usize = (0..27).map(|c| grid.adjacent_cells(c).len()).sum();
    // 27 cells with themselves, plus each unordered touching pair once
    let mut touching = 0;
    for a in 0..27 {
        for b in 0..a {
            let (ax, ay, az) = coords(&grid, a);
            let (bx, by, bz) = coords(&grid, b);
            if (ax - bx).abs() <= 1 && (ay - by).abs() <= 1 && (az - bz).abs() <= 1 {
                touching += 1;
            }
        }
    }
    assert_eq!(total, 27 + touching);
}

#[test]
fn adjacency_is_symmetric() {
    let grid = GridPartition::new([100, 120, 90], 25).ok().unwrap();
    for a in 0..grid.nb_cells() {
        for b in grid.adjacent_cells(a) {
            assert!(b <= a);
            let (ax, ay, az) = coords(&grid, a);
            let (bx, by, bz) = coords(&grid, b);
            assert!((ax - bx).abs() <= 1 && (ay - by).abs() <= 1 && (az - bz).abs() <= 1);
            assert!(a == b || !grid.adjacent_cells(b).contains(&a));
        }
    }
}

#[test]
fn cell_of_points() {
    let grid = GridPartition::new([100, 100, 100], 30).ok().unwrap();
    assert_eq!(grid.cell_of_point(&Point(0, 0, 0)), 0);
    assert_eq!(grid.cell_of_point(&Point(34, 0, 0)), 9);
    // the far faces of the box belong to the last cells
    assert_eq!(grid.cell_of_point(&Point(100, 100, 100)), 26);
    assert_eq!(grid.cell_of_point(&Point(99, 0, 67)), 20);
}

#[test]
fn fill_puts_each_point_in_its_cell() {
    let mut grid = GridPartition::new([100, 100, 100], 30).ok().unwrap();
    let points = pseudo_random_points(200, 100, 7);
    grid.fill_grid(&points);
    let mut seen = vec![0usize; points.len()];
    for c in 0..grid.nb_cells() {
        let members = grid.cell_members(c);
        for w in members.windows(2) {
            assert!(w[0] > w[1]);
        }
        for &i in &members {
            assert_eq!(grid.cell_of_point(&points[i]), c);
            seen[i] += 1;
        }
    }
    assert!(seen.iter().all(|&k| k == 1));
}

#[test]
fn refill_gives_same_cells() {
    let mut grid = GridPartition::new([100, 100, 100], 30).ok().unwrap();
    let points = pseudo_random_points(150, 100, 11);
    grid.fill_grid(&points);
    let first: Vec<Vec<usize>> = (0..grid.nb_cells()).map(|c| grid.cell_members(c)).collect();
    grid.fill_grid(&points);
    let second: Vec<Vec<usize>> = (0..grid.nb_cells()).map(|c| grid.cell_members(c)).collect();
    assert_eq!(first, second);
}

#[test]
fn refill_with_fewer_points() {
    let mut grid = GridPartition::new([100, 100, 100], 30).ok().unwrap();
    grid.fill_grid(&pseudo_random_points(100, 100, 3));
    let points = vec![Point(1, 1, 1), Point(2, 2, 2)];
    grid.fill_grid(&points);
    assert_eq!(grid.cell_members(0), vec![1, 0]);
    for c in 1..grid.nb_cells() {
        assert!(grid.cell_members(c).is_empty());
    }
}

#[test]
fn grid_pairs_match_brute_force() {
    for (seed, radius) in [(1u64, 10i64), (2, 25), (3, 40), (4, 100)] {
        let mut grid = GridPartition::new([100, 100, 100], radius).ok().unwrap();
        let points = pseudo_random_points(300, 100, seed);
        let from_grid = all_pairs(&mut grid, &points);
        let brute = brute_force_pairs(&points, radius);
        let a: BTreeSet<(usize, usize, i64)> = from_grid.iter().cloned().collect();
        let b: BTreeSet<(usize, usize, i64)> = brute.iter().cloned().collect();
        assert_eq!(a.len(), from_grid.len());
        assert_eq!(a, b);
        for &(i, j, _) in &from_grid {
            assert!(i < j);
        }
    }
}

#[test]
fn pair_with_lower_id_in_higher_cell_is_found() {
    let mut grid = GridPartition::new([100, 100, 100], 30).ok().unwrap();
    let points = vec![Point(35, 0, 0), Point(25, 0, 0)];
    assert!(grid.cell_of_point(&points[0]) > grid.cell_of_point(&points[1]));
    assert_eq!(all_pairs(&mut grid, &points), vec![(0, 1, 100)]);
}

#[test]
fn pair_at_exact_radius_is_excluded() {
    let mut grid = GridPartition::new([100, 100, 100], 30).ok().unwrap();
    let points = vec![Point(0, 0, 0), Point(30, 0, 0), Point(0, 29, 0)];
    assert_eq!(all_pairs(&mut grid, &points), vec![(0, 2, 841)]);
}

#[test]
fn coincident_points_are_neighbors() {
    let mut grid = GridPartition::new([100, 100, 100], 30).ok().unwrap();
    let points = vec![Point(50, 50, 50), Point(50, 50, 50)];
    assert_eq!(all_pairs(&mut grid, &points), vec![(0, 1, 0)]);
}

#[test]
fn three_particles_one_pair() {
    // positions (0,0,0), (0.01,0,0), (10,10,10) and radius 0.04, in thousandths
    let mut grid = GridPartition::new([10000, 10000, 10000], 40).ok().unwrap();
    let points = vec![Point(0, 0, 0), Point(10, 0, 0), Point(10000, 10000, 10000)];
    assert_eq!(all_pairs(&mut grid, &points), vec![(0, 1, 100)]);
}

#[test]
fn no_points_no_pairs() {
    let mut grid = GridPartition::new([100, 100, 100], 30).ok().unwrap();
    assert!(all_pairs(&mut grid, &[]).is_empty());
    assert!(brute_force_pairs(&[], 30).is_empty());
}

#[test]
fn single_cell_iteration() {
    let mut grid = GridPartition::new([100, 100, 100], 30).ok().unwrap();
    let points = vec![Point(1, 1, 1), Point(90, 90, 90), Point(2, 3, 4)];
    grid.fill_grid(&points);
    let mut it = grid.iter_cell(0);
    assert_eq!(it.next(), Some(2));
    assert_eq!(it.next(), Some(0));
    assert_eq!(it.next(), None);
    assert_eq!(it.next(), None);
}

#[test]
fn adjacent_cell_iteration() {
    let mut grid = GridPartition::new([90, 90, 90], 30).ok().unwrap();
    // cell 0, cell 1 (0,0,1), cell 13 (1,1,1), cell 26 (2,2,2)
    let points = vec![Point(1, 1, 1), Point(1, 1, 40), Point(40, 40, 40), Point(80, 80, 80), Point(2, 2, 2)];
    grid.fill_grid(&points);
    let mut it = grid.iter_adjascent_cells(13);
    let mut seen = Vec::new();
    while let Some(i) = it.next() {
        seen.push(i);
    }
    // cell 0 first, then the remaining adjacent cells from the highest down
    assert_eq!(seen, vec![4, 0, 2, 1]);
    let mut corner = grid.iter_adjascent_cells(0);
    assert_eq!(corner.next(), Some(4));
    assert_eq!(corner.next(), Some(0));
    assert_eq!(corner.next(), None);
}

#[test]
fn per_particle_neighbor_lists() {
    let mut grid = GridPartition::new([100, 100, 100], 30).ok().unwrap();
    let points = vec![Point(0, 0, 0), Point(20, 0, 0), Point(40, 0, 0), Point(95, 95, 95)];
    let lists = grid.neighbor_lists(&points);
    let sorted: Vec<Vec<usize>> = lists
        .into_iter()
        .map(|mut l| {
            l.sort();
            l
        })
        .collect();
    assert_eq!(sorted, vec![vec![1], vec![0, 2], vec![1], vec![]]);
}

#[test]
fn neighbor_lists_match_brute_force() {
    let mut grid = GridPartition::new([100, 100, 100], 20).ok().unwrap();
    let points = pseudo_random_points(120, 100, 5);
    let lists = grid.neighbor_lists(&points);
    let brute = brute_force_pairs(&points, 20);
    for i in 0..points.len() {
        let mut expected: Vec<usize> = brute
            .iter()
            .filter_map(|&(a, b, _)| if a == i { Some(b) } else if b == i { Some(a) } else { None })
            .collect();
        expected.sort();
        let mut got = lists[i].clone();
        got.sort();
        assert_eq!(got, expected);
    }
}

#[test]
fn largest_coordinates() {
    let radius = MAX_COORD / 4;
    let mut grid = GridPartition::new([MAX_COORD, MAX_COORD, MAX_COORD], radius).ok().unwrap();
    assert_eq!(grid.nb_cells(), 64);
    let points = vec![
        Point(MAX_COORD, MAX_COORD, MAX_COORD),
        Point(0, 0, 0),
        Point(MAX_COORD - 1000, MAX_COORD, MAX_COORD - 1000),
        Point(MAX_COORD, 0, MAX_COORD),
    ];
    assert_eq!(grid.cell_of_point(&points[0]), 63);
    assert_eq!(all_pairs(&mut grid, &points), vec![(0, 2, 2_000_000)]);
    let far = distance_squared(&points[1], &points[0]);
    assert_eq!(far, 3 * MAX_COORD * MAX_COORD);
}

#[test]
fn exhausted_neighbor_walk_stays_exhausted() {
    let mut grid = GridPartition::new([100, 100, 100], 30).ok().unwrap();
    let points = vec![Point(10, 10, 10), Point(12, 10, 10)];
    let mut it = grid.query_neighbors(&points);
    assert_eq!(it.next(), Some((0, 1, 4)));
    assert_eq!(it.next(), None);
    assert_eq!(it.next(), None);
}

#[test]
fn iter_neighbors_after_fill() {
    let mut grid = GridPartition::new([100, 100, 100], 30).ok().unwrap();
    let points = vec![Point(10, 10, 10), Point(50, 50, 50), Point(55, 50, 50), Point(12, 10, 10)];
    grid.fill_grid(&points);
    let mut it = grid.iter_neighbors(&points);
    let mut got = Vec::new();
    while let Some(e) = it.next() {
        got.push(e);
    }
    got.sort();
    assert_eq!(got, vec![(0, 3, 4), (1, 2, 25)]);
}
