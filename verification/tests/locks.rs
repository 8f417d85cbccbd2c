use puzzles::locks::{count_fits, gather, holds, Schematic};

const LOCK: &str = "#####\n.####\n.####\n.####\n.#.#.\n.#...\n.....";
const KEY: &str = ".....\n#....\n#....\n#...#\n#.#.#\n#.###\n#####";

#[test]
fn lock_and_key_heights() {
    match Schematic::<5, 7>::try_from(LOCK) {
        Ok(Schematic::Lock(h)) => assert_eq!(h, vec![0, 5, 3, 4, 3]),
        _ => panic!("no lock"),
    }
    match Schematic::<5, 7>::try_from(KEY) {
        Ok(Schematic::Key(h)) => assert_eq!(h, vec![5, 0, 2, 1, 3]),
        _ => panic!("no key"),
    }
}

#[test]
fn fit_needs_room_in_every_column() {
    let lock = [0u32, 5, 3, 4, 3];
    assert!(!Schematic::<5, 7>::fit(&lock, &[5, 0, 2, 1, 3]));
    assert!(!Schematic::<5, 7>::fit(&lock, &[4, 3, 4, 0, 2]));
    assert!(Schematic::<5, 7>::fit(&lock, &[3, 0, 2, 0, 1]));
    assert!(Schematic::<5, 7>::fit(&[1, 2, 0, 5, 3], &[4, 3, 4, 0, 2]));
}

#[test]
fn drawings_that_are_refused() {
    assert!(Schematic::<5, 7>::try_from("#####\n.....").is_err());
    assert!(Schematic::<5, 7>::try_from("#.#.#\n.####\n.####\n.####\n.#.#.\n.#...\n.....").is_err());
    assert!(Schematic::<5, 7>::try_from("#####\n.###\n.####\n.####\n.#.#.\n.#...\n.....").is_err());
    assert!(Schematic::<5, 7>::try_from(".....\n.....\n.....\n.....\n.....\n.....\n.....").is_err());
}

#[test]
fn three_pairs_fit() {
    let locks = vec![vec![0, 5, 3, 4, 3], vec![1, 2, 0, 5, 3]];
    let keys = vec![vec![5, 0, 2, 1, 3], vec![4, 3, 4, 0, 2], vec![3, 0, 2, 0, 1]];
    assert_eq!(count_fits::<5, 7>(&locks, &keys), 3);
    assert_eq!(count_fits::<5, 7>(&locks, &vec![]), 0);
}

const DRAWINGS: &str = "\
#####
.####
.####
.####
.#.#.
.#...
.....

#####
##.##
.#.##
...##
...#.
...#.
.....

.....
#....
#....
#...#
#.#.#
#.###
#####

.....
.....
#.#..
###..
###.#
###.#
#####

.....
.....
.....
#....
#.#..
#.#.#
#####";

#[test]
fn gathering_locks_and_keys() {
    let (locks, keys) = gather::<5, 7>(DRAWINGS);
    assert_eq!(locks, vec![vec![0, 5, 3, 4, 3], vec![1, 2, 0, 5, 3]]);
    assert_eq!(keys, vec![vec![5, 0, 2, 1, 3], vec![4, 3, 4, 0, 2], vec![3, 0, 2, 0, 1]]);
    assert_eq!(count_fits::<5, 7>(&locks, &keys), 3);
}

#[test]
fn a_drawing_seen_twice_counts_once() {
    let twice = format!("{}\n\n{}\n\nno drawing\n\n{}\n\n{}", LOCK, KEY, LOCK, KEY);
    let (locks, keys) = gather::<5, 7>(&twice);
    assert_eq!(locks, vec![vec![0, 5, 3, 4, 3]]);
    assert_eq!(keys, vec![vec![5, 0, 2, 1, 3]]);
    assert!(holds(&locks, &vec![0, 5, 3, 4, 3]));
    assert!(!holds(&locks, &vec![0, 5, 3, 4]));
    assert!(!holds(&locks, &vec![0, 5, 3, 4, 4]));
    let (none, nothing) = gather::<5, 7>("");
    assert!(none.is_empty() && nothing.is_empty());
}
