use map_4col::map::{Point, RegionMap};

/// Checks the structural guarantees of a generated map: raster shape, every
/// cell claimed by a valid region, adjacency symmetric and irreflexive,
/// bookkeeping duplicate-free, and each seed cell owned by its own region.
fn check_region_map(m: &RegionMap, pivots: &[Point], w: usize, h: usize) {
    assert_eq!(m.regions.len(), pivots.len());
    for (i, p) in pivots.iter().enumerate() {
        assert_eq!(m.regions[i].pivot, *p);
        assert_eq!(m.raster[p.1 as usize][p.0 as usize], i);
    }
    assert_eq!(m.raster.len(), h);
    for row in &m.raster {
        assert_eq!(row.len(), w);
        for &rid in row {
            assert!(rid < m.regions.len());
        }
    }
    for (i, r) in m.regions.iter().enumerate() {
        for (a, &j) in r.neighbors.iter().enumerate() {
            assert!(j < m.regions.len());
            assert_ne!(j, i);
            assert!(m.regions[j].neighbors.contains(&i));
            for &j2 in &r.neighbors[a + 1..] {
                assert_ne!(j, j2);
            }
        }
        for (a, p) in r.boundary.iter().enumerate() {
            assert!((p.0 as usize) < w && (p.1 as usize) < h);
            assert_eq!(m.raster[p.1 as usize][p.0 as usize], i);
            for p2 in &r.boundary[a + 1..] {
                assert_ne!(p, p2);
            }
        }
    }
}

#[test]
fn raster_partitions_grid() {
    let pivots: Vec<Point> = vec![(1, 1), (5, 3), (3, 0)];
    let m = RegionMap::voronoi_like(pivots.clone(), (7, 5));
    check_region_map(&m, &pivots, 7, 5);
    // the raster partitions the grid: counting cells per region covers it
    let mut cells = vec![0usize; m.regions.len()];
    for row in &m.raster {
        for &rid in row {
            cells[rid] += 1;
        }
    }
    assert_eq!(cells.iter().sum::<usize>(), 7 * 5);
}

#[test]
fn adjacency_symmetric_irreflexive() {
    let pivots: Vec<Point> = vec![(0, 0), (9, 0), (0, 7), (9, 7), (4, 3)];
    let m = RegionMap::voronoi_like(pivots.clone(), (10, 8));
    check_region_map(&m, &pivots, 10, 8);
}

#[test]
fn single_seed_covers_everything() {
    let pivots: Vec<Point> = vec![(2, 1)];
    let m = RegionMap::voronoi_like(pivots.clone(), (4, 3));
    check_region_map(&m, &pivots, 4, 3);
    for row in &m.raster {
        for &rid in row {
            assert_eq!(rid, 0);
        }
    }
    assert!(m.regions[0].neighbors.is_empty());
}

#[test]
fn three_by_three_four_seeds() {
    // four corner seeds on a 3x3 grid: four regions, each adjacent to the
    // two geometrically nearest others and never to the diagonal one
    let pivots: Vec<Point> = vec![(0, 0), (2, 0), (0, 2), (2, 2)];
    let m = RegionMap::voronoi_like(pivots.clone(), (3, 3));
    check_region_map(&m, &pivots, 3, 3);
    assert_eq!(m.regions.len(), 4);
    let expect: [&[usize]; 4] = [&[1, 2], &[0, 3], &[0, 3], &[1, 2]];
    for (i, exp) in expect.iter().enumerate() {
        let nb = &m.regions[i].neighbors;
        assert_eq!(nb.len(), exp.len(), "region {} has neighbors {:?}", i, nb);
        for j in exp.iter() {
            assert!(nb.contains(j), "region {} misses neighbor {}", i, j);
        }
    }
}

#[test]
fn ties_go_to_the_lowest_region_id() {
    // the center of the 3x3 grid is reached by all four corner regions in
    // the same round; region 0 wins it
    let pivots: Vec<Point> = vec![(0, 0), (2, 0), (0, 2), (2, 2)];
    let m = RegionMap::voronoi_like(pivots, (3, 3));
    assert_eq!(m.raster[1][1], 0);
}

#[test]
fn rim_cells_are_boundary() {
    // the outer rim is always boundary, even with no foreign neighbor and
    // even at a seed cell
    let pivots: Vec<Point> = vec![(0, 0), (5, 3)];
    let m = RegionMap::voronoi_like(pivots, (7, 5));
    for y in 0..5usize {
        for x in 0..7usize {
            if x == 0 || x == 6 || y == 0 || y == 4 {
                let rid = m.raster[y][x];
                let p = (x as u16, y as u16);
                assert!(m.regions[rid].boundary.contains(&p));
            }
        }
    }
}

#[test]
fn adjacency_matches_raster_borders() {
    let pivots: Vec<Point> = vec![(0, 0), (9, 0), (0, 7), (9, 7), (4, 3)];
    let m = RegionMap::voronoi_like(pivots, (10, 8));
    // completeness: a cell bordering a foreign region is boundary, and the
    // two owners are recorded in each other's neighbor lists
    for y in 0..8usize {
        for x in 0..10usize {
            let o = m.raster[y][x];
            let mut foreign = vec![];
            if x > 0 {
                foreign.push(m.raster[y][x - 1]);
            }
            if x < 9 {
                foreign.push(m.raster[y][x + 1]);
            }
            if y > 0 {
                foreign.push(m.raster[y - 1][x]);
            }
            if y < 7 {
                foreign.push(m.raster[y + 1][x]);
            }
            for q in foreign {
                if q != o {
                    assert!(m.regions[o].neighbors.contains(&q));
                    assert!(m.regions[q].neighbors.contains(&o));
                    assert!(m.regions[o].boundary.contains(&(x as u16, y as u16)));
                }
            }
        }
    }
    // soundness: every recorded neighbor pair shares at least one border
    for (i, r) in m.regions.iter().enumerate() {
        for &j in &r.neighbors {
            let mut found = false;
            for y in 0..8usize {
                for x in 0..10usize {
                    if m.raster[y][x] == i {
                        if (x > 0 && m.raster[y][x - 1] == j)
                            || (x < 9 && m.raster[y][x + 1] == j)
                            || (y > 0 && m.raster[y - 1][x] == j)
                            || (y < 7 && m.raster[y + 1][x] == j)
                        {
                            found = true;
                        }
                    }
                }
            }
            assert!(found, "regions {} and {} share no border", i, j);
        }
    }
}

#[test]
fn boundary_cells_are_justified() {
    // a boundary cell is on the outer rim or borders a foreign region
    let pivots: Vec<Point> = vec![(2, 2), (7, 1), (4, 6)];
    let m = RegionMap::voronoi_like(pivots, (9, 8));
    for r in &m.regions {
        for &(x, y) in &r.boundary {
            let (x, y) = (x as usize, y as usize);
            let on_rim = x == 0 || x == 8 || y == 0 || y == 7;
            let o = m.raster[y][x];
            let foreign = (x > 0 && m.raster[y][x - 1] != o)
                || (x < 8 && m.raster[y][x + 1] != o)
                || (y > 0 && m.raster[y - 1][x] != o)
                || (y < 7 && m.raster[y + 1][x] != o);
            assert!(on_rim || foreign, "({}, {}) is an interior boundary cell", x, y);
        }
    }
}
