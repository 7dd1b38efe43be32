use map_4col::map::{Point, Region, RegionMap};

fn region_with_boundary(boundary: Vec<Point>) -> Region {
    Region { pivot: (0, 0), boundary, neighbors: vec![] }
}

#[test]
fn empty_boundary_gives_empty_polyline() {
    let r = region_with_boundary(vec![]);
    assert!(r.boundary_polyline().is_empty());
}

#[test]
fn single_point_boundary() {
    let r = region_with_boundary(vec![(3, 4)]);
    assert_eq!(r.boundary_polyline(), vec![(3, 4)]);
}

#[test]
fn ring_walk_visits_the_loop_once() {
    // the eight cells around (1, 1) form a single 8-connected simple loop;
    // the walk starts at the lexicographically smallest point, visits every
    // point once, keeps the corners and drops the interior colinear points,
    // and the last emitted point closes the loop back to the start
    let ring: Vec<Point> = vec![
        (0, 0),
        (1, 0),
        (2, 0),
        (2, 1),
        (2, 2),
        (1, 2),
        (0, 2),
        (0, 1),
    ];
    let r = region_with_boundary(ring);
    let line = r.boundary_polyline();
    assert_eq!(line, vec![(0, 0), (0, 2), (2, 2), (2, 0), (1, 0)]);
    let last = line[line.len() - 1];
    let start = line[0];
    let dx = (last.0 as i32 - start.0 as i32).abs();
    let dy = (last.1 as i32 - start.1 as i32).abs();
    assert!(dx <= 1 && dy <= 1, "the walk does not close its loop");
}

#[test]
fn polyline_points_are_distinct_boundary_points() {
    let pivots: Vec<Point> = vec![(0, 0), (6, 4), (3, 2)];
    let m = RegionMap::voronoi_like(pivots, (8, 6));
    for r in &m.regions {
        let line = r.boundary_polyline();
        assert!(!line.is_empty());
        // starts at the lexicographically smallest boundary point
        let mut min = r.boundary[0];
        for p in &r.boundary {
            if *p < min {
                min = *p;
            }
        }
        assert_eq!(line[0], min);
        for (a, p) in line.iter().enumerate() {
            assert!(r.boundary.contains(p));
            for q in &line[a + 1..] {
                assert_ne!(p, q);
            }
        }
    }
}

#[test]
fn polyline_segments_are_straight() {
    // consecutive polyline vertices lie on one straight compass run whose
    // interior points are all boundary points
    let pivots: Vec<Point> = vec![(0, 0), (6, 4), (3, 2)];
    let m = RegionMap::voronoi_like(pivots, (8, 6));
    for r in &m.regions {
        let line = r.boundary_polyline();
        for k in 0..line.len().saturating_sub(1) {
            let (ax, ay) = (line[k].0 as i32, line[k].1 as i32);
            let (bx, by) = (line[k + 1].0 as i32, line[k + 1].1 as i32);
            let (dx, dy) = (bx - ax, by - ay);
            let t = dx.abs().max(dy.abs());
            assert!(t >= 1);
            // one of the eight compass directions
            assert!(dx == 0 || dx.abs() == t);
            assert!(dy == 0 || dy.abs() == t);
            let (sx, sy) = (dx.signum(), dy.signum());
            for s in 1..t {
                let q = ((ax + s * sx) as u16, (ay + s * sy) as u16);
                assert!(r.boundary.contains(&q), "interior point {:?} not boundary", q);
            }
        }
    }
}
