use puzzles::racetrack::{count_saving, RaceTrack, Tile};

const MAP: &str = "\
###############
#...#...#.....#
#.#.#.#.#.###.#
#S#...#.#.#...#
#######.#.#.###
#######.#.#...#
#######.#.###.#
###..E#...#...#
###.#######.###
#...###...#...#
#.#####.#.###.#
#.#...#.#.#...#
#.#.#.#.#.#.###
#...#...#...###
###############";

fn timed() -> RaceTrack {
    let mut track = RaceTrack::try_from(MAP).unwrap();
    assert!(track.populate_dist_map());
    track
}

fn count(track: &RaceTrack, budget: usize, at_least: usize) -> usize {
    track.cheats_to_saved_ps(budget).iter().filter(|(_, saved)| *saved >= at_least).count()
}

#[test]
fn race_without_cheat_takes_84() {
    let track = timed();
    assert_eq!(track.start, (3, 1));
    assert_eq!(track.end, (7, 5));
    assert_eq!(track.elapsed_ps_no_cheat, 84);
    assert_eq!(track.dist_map[7][5], Some(0));
    assert_eq!(track.dist_map[0][0], None);
    assert_eq!(track.tiles[0][0], Tile::Wall);
    assert_eq!(track.tiles[3][1], Tile::Track);
}

#[test]
fn cheats_of_two_steps() {
    let track = timed();
    let saved: Vec<usize> = track.cheats_to_saved_ps(2).iter().map(|(_, s)| *s).collect();
    for (time, cheats) in
        [(2, 14), (4, 14), (6, 2), (8, 4), (10, 2), (12, 3), (20, 1), (36, 1), (38, 1), (40, 1), (64, 1)]
    {
        assert_eq!(saved.iter().filter(|s| **s == time).count(), cheats);
    }
    assert_eq!(saved.len(), 44);
    assert_eq!(count(&track, 2, 64), 1);
}

#[test]
fn cheats_of_twenty_steps() {
    let track = timed();
    let saved: Vec<usize> = track.cheats_to_saved_ps(20).iter().map(|(_, s)| *s).collect();
    for (time, cheats) in [(50, 32), (52, 31), (54, 29), (62, 20), (72, 22), (74, 4), (76, 3)] {
        assert_eq!(saved.iter().filter(|s| **s == time).count(), cheats);
    }
    assert_eq!(count(&track, 20, 50), 285);
}

#[test]
fn each_cheat_is_listed_once() {
    let track = timed();
    let cheats = track.cheats_to_saved_ps(3);
    for (i, (a, _)) in cheats.iter().enumerate() {
        for (b, _) in cheats.iter().skip(i + 1) {
            assert_ne!(a, b);
        }
    }
}

#[test]
fn tiles_at_a_distance() {
    let track = timed();
    assert_eq!(track.pos_at_dist((3, 1), 0), vec![(3, 1)]);
    assert_eq!(track.pos_at_dist((3, 1), 1), vec![(2, 1)]);
    assert_eq!(track.pos_at_dist((3, 1), 2), vec![(1, 1), (3, 3)]);
    assert_eq!(track.pos_at_dist((0, 0), 2), vec![(1, 1)]);
    let from_start = track.bfs((3, 1));
    assert_eq!(from_start[7][5], Some(84));
}

#[test]
fn a_track_cut_in_two_cannot_be_raced() {
    let mut track = RaceTrack::try_from("#####\n#S#E#\n#####").unwrap();
    assert_eq!(track.start, (1, 1));
    assert_eq!(track.end, (0, 0));
    track.end = (1, 3);
    assert!(!track.populate_dist_map());
}

#[test]
fn counting_the_cheats_that_save_enough() {
    let track = timed();
    assert_eq!(count_saving(&track.cheats_to_saved_ps(2), 20), 5);
    assert_eq!(count_saving(&track.cheats_to_saved_ps(20), 76), 3);
    assert_eq!(count_saving(&track.cheats_to_saved_ps(20), 77), 0);
}
