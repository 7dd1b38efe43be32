use map_4col::colormap::{Color, ColorMap};
use map_4col::map::{Point, Region, RegionMap};

/// A hand-built map whose adjacency graph is given by one neighbor list per
/// region; the raster is irrelevant to the solver.
fn graph(neighbors: Vec<Vec<usize>>) -> RegionMap {
    let regions = neighbors
        .into_iter()
        .map(|nb| Region { pivot: (0, 0), boundary: vec![], neighbors: nb })
        .collect();
    RegionMap { regions, raster: vec![] }
}

/// Every region must be resolved to exactly one color and differ from all of
/// its neighbors.
fn check_solution(m: &RegionMap, cm: &ColorMap) {
    assert_eq!(cm.num_regions(), m.regions.len());
    for i in 0..m.regions.len() {
        let d = cm.at(i);
        assert!(d == 1 || d == 2 || d == 4 || d == 8, "region {} unresolved: {:#x}", i, d);
        for &j in &m.regions[i].neighbors {
            assert_eq!(cm.at(i) & cm.at(j), 0, "regions {} and {} share a color", i, j);
        }
    }
}

#[test]
fn four_seed_grid_colors_validly() {
    let pivots: Vec<Point> = vec![(0, 0), (2, 0), (0, 2), (2, 2)];
    let m = RegionMap::voronoi_like(pivots, (3, 3));
    let cm = ColorMap::color(&m).expect("a planar map is four-colorable");
    check_solution(&m, &cm);
}

#[test]
fn single_region_solves() {
    let m = graph(vec![vec![]]);
    let cm = ColorMap::color(&m).expect("one region always solves");
    check_solution(&m, &cm);
    let c = cm.color_of_region(0);
    assert!(matches!(c, Color::C1 | Color::C2 | Color::C3 | Color::C4));
    // the implementation-defined choice: the lowest color bit is tried first
    assert_eq!(cm.at(0), 1);
    assert!(matches!(c, Color::C1));
}

#[test]
fn five_cycle_solves() {
    // a 5-cycle is 3-colorable, so certainly 4-colorable
    let m = graph(vec![
        vec![1, 4],
        vec![2, 0],
        vec![3, 1],
        vec![4, 2],
        vec![0, 3],
    ]);
    let cm = ColorMap::color(&m).expect("a 5-cycle is four-colorable");
    check_solution(&m, &cm);
}

#[test]
fn complete_graph_of_four_solves() {
    let m = graph(vec![
        vec![1, 2, 3],
        vec![0, 2, 3],
        vec![0, 1, 3],
        vec![0, 1, 2],
    ]);
    let cm = ColorMap::color(&m).expect("four mutually adjacent regions take four colors");
    check_solution(&m, &cm);
    // all four colors are used
    let mut seen = 0u8;
    for i in 0..4 {
        seen |= cm.at(i);
    }
    assert_eq!(seen, 0xf);
}

#[test]
fn complete_graph_of_five_is_unsolvable() {
    // five mutually adjacent regions cannot take four colors; the search
    // exhausts its stack and reports the absence of a solution
    let m = graph(vec![
        vec![1, 2, 3, 4],
        vec![0, 2, 3, 4],
        vec![0, 1, 3, 4],
        vec![0, 1, 2, 4],
        vec![0, 1, 2, 3],
    ]);
    assert!(ColorMap::color(&m).is_none());
}

#[test]
fn first_solution_is_deterministic() {
    let m = graph(vec![
        vec![1, 4],
        vec![2, 0],
        vec![3, 1],
        vec![4, 2],
        vec![0, 3],
    ]);
    let first = ColorMap::color(&m).unwrap();
    let again = ColorMap::color(&m).unwrap();
    assert_eq!(first, again);
    let from_iter = ColorMap::all_possible_colorings(&m).next().unwrap();
    assert_eq!(first, from_iter);
}

#[test]
fn all_colorings_of_one_edge() {
    // two adjacent regions: 4 * 3 ordered color pairs, each yielded once
    let m = graph(vec![vec![1], vec![0]]);
    let mut it = ColorMap::all_possible_colorings(&m);
    let mut seen: Vec<(u8, u8)> = vec![];
    while let Some(cm) = it.next() {
        check_solution(&m, &cm);
        let pair = (cm.at(0), cm.at(1));
        assert!(!seen.contains(&pair), "solution repeated: {:?}", pair);
        seen.push(pair);
        assert!(seen.len() <= 12, "more solutions than exist");
    }
    assert_eq!(seen.len(), 12);
    assert!(it.next().is_none());
}

#[test]
fn color_masks() {
    assert_eq!(Color::C1.mask(), 1);
    assert_eq!(Color::C2.mask(), 1 << 1);
    assert_eq!(Color::C3.mask(), 1 << 2);
    assert_eq!(Color::C4.mask(), 1 << 3);
}

#[test]
fn color_of_region_matches_domain() {
    let m = graph(vec![vec![1], vec![0]]);
    let cm = ColorMap::color(&m).unwrap();
    for i in 0..2 {
        assert_eq!(cm.color_of_region(i).mask(), cm.at(i));
    }
}

#[test]
fn set_and_at_roundtrip() {
    let m = graph(vec![vec![], vec![], vec![]]);
    let mut cm = ColorMap::color(&m).unwrap();
    assert_eq!(cm.num_regions(), 3);
    let keep0 = cm.at(0);
    cm.set(1, 0xf);
    assert_eq!(cm.at(1), 0xf);
    assert_eq!(cm.at(0), keep0);
    cm.set(2, 0x5);
    assert_eq!(cm.at(2), 0x5);
    assert_eq!(cm.at(1), 0xf);
}

#[test]
fn uncolorable_means_none_and_vice_versa() {
    // the solver is complete: None comes back only when no valid coloring
    // exists; on anything four-colorable it returns Some
    let solvable = graph(vec![vec![1, 2], vec![0, 2], vec![0, 1]]);
    assert!(ColorMap::color(&solvable).is_some());
    let unsolvable = graph(vec![
        vec![1, 2, 3, 4],
        vec![0, 2, 3, 4],
        vec![0, 1, 3, 4],
        vec![0, 1, 2, 4],
        vec![0, 1, 2, 3],
    ]);
    let mut it = ColorMap::all_possible_colorings(&unsolvable);
    assert!(it.next().is_none());
    // once exhausted, the enumeration stays ended
    assert!(it.next().is_none());
}
