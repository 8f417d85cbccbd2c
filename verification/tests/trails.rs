use puzzles::trails::{Position, TopographicMap};

const MAP: &str = "\
89010123
78121874
87430965
96549874
45678903
32019012
01329801
10456732";

fn worked_out(map: &str) -> TopographicMap {
    let mut topo = TopographicMap::try_from(map).unwrap();
    for i in 0..topo.positions.len() {
        for j in 0..topo.positions[0].len() {
            topo.update((i, j));
        }
    }
    topo
}

fn heads(topo: &TopographicMap) -> Vec<&Position> {
    topo.positions.iter().flat_map(|row| row.iter()).filter(|p| p.is_trailhead()).collect()
}

#[test]
fn scores_of_the_trailheads() {
    let topo = worked_out(MAP);
    let scores: Vec<usize> = heads(&topo).iter().map(|p| p.reachable.len()).collect();
    assert_eq!(scores, vec![5, 6, 5, 3, 1, 3, 5, 3, 5]);
    assert_eq!(scores.iter().sum::<usize>(), 36);
}

#[test]
fn ratings_of_the_trailheads() {
    let topo = worked_out(MAP);
    let ratings: Vec<u32> = heads(&topo).iter().map(|p| p.rating.unwrap()).collect();
    assert_eq!(ratings, vec![20, 24, 10, 4, 1, 4, 5, 8, 5]);
    assert_eq!(ratings.iter().sum::<u32>(), 81);
}

#[test]
fn a_trail_climbs_one_step_at_a_time() {
    let mut topo = TopographicMap::try_from("0123\n1234\n8765\n9876").unwrap();
    assert_eq!(topo.height(0, 1), 1);
    assert_eq!(topo.rating(0, 0), None);
    assert_eq!(topo.next_positions((0, 0)), vec![(1, 0), (0, 1)]);
    assert_eq!(topo.next_positions((3, 0)), Vec::<(usize, usize)>::new());
    topo.update((0, 0));
    assert_eq!(topo.rating(0, 0), Some(16));
    assert_eq!(topo.positions[0][0].reachable, vec![(3, 0)]);
    assert_eq!(topo.rating(3, 0), Some(1));
    assert_eq!(topo.rating(3, 3), Some(1));
}

#[test]
fn a_peak_counts_itself() {
    let mut topo = TopographicMap::try_from("9").unwrap();
    topo.update((0, 0));
    assert_eq!(topo.rating(0, 0), Some(1));
    assert_eq!(topo.positions[0][0].reachable, vec![(0, 0)]);
    assert!(!topo.positions[0][0].is_trailhead());
    assert!(TopographicMap::try_from("12x").is_err());
}

#[test]
fn sums_over_the_trailheads() {
    let mut topo = TopographicMap::try_from(MAP).unwrap();
    topo.update_all();
    assert_eq!(topo.sums(), Some((36, 81)));
}
