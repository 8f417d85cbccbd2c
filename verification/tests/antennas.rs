use puzzles::antennas::{AntennaMap, Cell, Rule};

const MAP: &str = "\
............
........0...
.....0......
.......0....
....0.......
......A.....
............
............
........A...
.........A..
............
............";

#[test]
fn fourteen_antinodes_next_to_the_pairs() {
    let map = AntennaMap::try_from(MAP).unwrap();
    assert_eq!(map.find_unique_antinodes(Rule::Nearest).len(), 14);
}

#[test]
fn thirty_four_antinodes_along_the_lines() {
    let map = AntennaMap::try_from(MAP).unwrap();
    assert_eq!(map.find_unique_antinodes(Rule::Line).len(), 34);
}

#[test]
fn antennas_are_grouped_by_frequency() {
    let map = AntennaMap::try_from(MAP).unwrap();
    assert_eq!(map.antennas.len(), 2);
    assert_eq!(map.antennas[0].frequency, '0');
    assert_eq!(map.antennas[0].locations, vec![(1, 8), (2, 5), (3, 7), (4, 4)]);
    assert_eq!(map.antennas[1].frequency, 'A');
    assert_eq!(map.antennas[1].locations, vec![(5, 6), (8, 8), (9, 9)]);
    assert_eq!(map.cells[1][8], Cell::Antenna('0'));
    assert_eq!(map.cells[0][0], Cell::Empty);
}

#[test]
fn antinodes_of_one_pair() {
    let map = AntennaMap::try_from(MAP).unwrap();
    assert_eq!(map.antinodes1(&(3, 4), &(5, 5)), vec![(1, 3), (7, 6)]);
    assert_eq!(map.antinodes1(&(1, 1), &(0, 0)), vec![(2, 2)]);
    assert_eq!(map.antinodes1(&(0, 0), &(11, 11)), Vec::<(usize, usize)>::new());
    assert_eq!(
        map.antinodes_infinity(&(0, 0), &(3, 1)),
        vec![(0, 0), (3, 1), (6, 2), (9, 3)]
    );
    assert_eq!(
        map.antinodes_infinity(&(2, 2), &(1, 1)),
        vec![(2, 2), (3, 3), (4, 4), (5, 5), (6, 6), (7, 7), (8, 8), (9, 9), (10, 10), (11, 11), (1, 1), (0, 0)]
    );
    assert!(map.is_valid_coord((0, 0)));
    assert!(map.is_valid_coord((11, 11)));
    assert!(!map.is_valid_coord((12, 0)));
    assert!(!map.is_valid_coord((0, -1)));
}
