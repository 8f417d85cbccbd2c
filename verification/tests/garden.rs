use puzzles::garden::{total_price, Garden, Plant, Region};

fn garden(map: &str) -> Garden {
    Garden { plots: map.lines().map(|row| row.chars().map(Plant).collect()).collect() }
}

const LARGE: &str = "\
RRRRIICCFF
RRRRIICCCF
VVRRRCCFFF
VVRCCCJFFF
VVVVCJJCFE
VVIVCCJJEE
VVIIICJJEE
MIIIIIJJEE
MIIISIJEEE
MMMISSJEEE";

fn prices(map: &str) -> (u64, u64) {
    let regions = garden(map).regions();
    (
        regions.iter().map(|r| r.area * r.perimeter).sum(),
        regions.iter().map(|r| r.area * r.sides).sum(),
    )
}

#[test]
fn prices_of_the_small_garden() {
    assert_eq!(prices("AAAA\nBBCD\nBBCC\nEEEC"), (140, 80));
}

#[test]
fn prices_of_the_garden_with_holes() {
    assert_eq!(prices("OOOOO\nOXOXO\nOOOOO\nOXOXO\nOOOOO"), (772, 436));
}

#[test]
fn prices_of_the_large_garden() {
    assert_eq!(prices(LARGE), (1930, 1206));
}

#[test]
fn sides_where_regions_touch_at_a_corner() {
    assert_eq!(prices("AAAAAA\nAAABBA\nAAABBA\nABBAAA\nABBAAA\nAAAAAA").1, 368);
    assert_eq!(prices("EEEEE\nEXXXX\nEEEEE\nEXXXX\nEEEEE").1, 236);
}

#[test]
fn regions_in_reading_order() {
    let regions = garden("AAAA\nBBCD\nBBCC\nEEEC").regions();
    assert_eq!(
        regions,
        vec![
            Region { area: 4, perimeter: 10, sides: 4 },
            Region { area: 4, perimeter: 8, sides: 4 },
            Region { area: 4, perimeter: 10, sides: 8 },
            Region { area: 1, perimeter: 4, sides: 4 },
            Region { area: 3, perimeter: 8, sides: 4 },
        ]
    );
}

#[test]
fn one_region_is_marked_as_visited() {
    let g = garden("AAAA\nBBCD\nBBCC\nEEEC");
    let mut visited = vec![vec![false; 4]; 4];
    let plots = g.plots_in_a_same_region((1, 2), &mut visited);
    assert_eq!(plots, vec![(1, 2), (2, 2), (2, 3), (3, 3)]);
    assert_eq!(
        visited,
        vec![
            vec![false, false, false, false],
            vec![false, false, true, false],
            vec![false, false, true, true],
            vec![false, false, false, true],
        ]
    );
    assert_eq!(Region::new(plots), Region { area: 4, perimeter: 10, sides: 8 });
    assert_eq!(Region::new(vec![]), Region { area: 0, perimeter: 0, sides: 0 });
}

#[test]
fn total_prices() {
    let regions = garden(LARGE).regions();
    assert_eq!(total_price(&regions, false), Some(1930));
    assert_eq!(total_price(&regions, true), Some(1206));
    assert_eq!(total_price(&vec![], true), Some(0));
    let huge = Region { area: u64::MAX, perimeter: u64::MAX, sides: 1 };
    assert_eq!(total_price(&vec![huge], false), Some(u64::MAX as u128 * u64::MAX as u128));
    assert_eq!(total_price(&vec![huge, huge], true), Some(2 * (u64::MAX as u128)));
    assert_eq!(total_price(&vec![huge, huge], false), None);
}

#[test]
fn the_source_comes_first() {
    let g = garden("AAAA\nBBCD\nBBCC\nEEEC");
    let mut visited = vec![vec![false; 4]; 4];
    let plots = g.plots_in_a_same_region((2, 3), &mut visited);
    assert_eq!(plots, vec![(2, 3), (1, 2), (2, 2), (3, 3)]);
    let mut again = vec![vec![true; 4]; 4];
    let plots = g.plots_in_a_same_region((0, 3), &mut again);
    assert_eq!(plots, vec![(0, 3), (0, 0), (0, 1), (0, 2)]);
    assert_eq!(again, vec![vec![true; 4]; 4]);
    let mut list = vec![(5, 5), (6, 6), (7, 7)];
    puzzles::garden::bring_first(&mut list, (7, 7));
    assert_eq!(list, vec![(7, 7), (5, 5), (6, 6)]);
    puzzles::garden::bring_first(&mut list, (7, 7));
    assert_eq!(list, vec![(7, 7), (5, 5), (6, 6)]);
}
