use puzzles::grid::distances;
use puzzles::paths::{back_closure, cheapest, holds, shortest_paths, Arc};

fn graph(arcs: &[(usize, usize, usize)], n: usize) -> Vec<Vec<Arc>> {
    let mut adj = vec![Vec::new(); n];
    for &(from, to, cost) in arcs {
        adj[from].push(Arc { to, cost });
    }
    adj
}

#[test]
fn cheapest_costs_and_all_tight_predecessors() {
    let adj = graph(&[(0, 1, 2), (0, 2, 5), (1, 2, 3), (2, 3, 1), (1, 3, 4), (3, 0, 1), (4, 0, 1)], 5);
    let (dist, prev) = shortest_paths(&adj, 0);
    assert_eq!(dist, vec![Some(0), Some(2), Some(5), Some(6), None]);
    assert_eq!(prev[0], Vec::<usize>::new());
    assert_eq!(prev[1], vec![0]);
    let mut second = prev[2].clone();
    second.sort();
    assert_eq!(second, vec![0, 1]);
    let mut third = prev[3].clone();
    third.sort();
    assert_eq!(third, vec![1, 2]);
    assert_eq!(prev[4], Vec::<usize>::new());
    let marks = back_closure(&prev, &vec![3]);
    assert_eq!(marks, vec![true, true, true, true, false]);
    let marks = back_closure(&prev, &vec![1]);
    assert_eq!(marks, vec![true, true, false, false, false]);
    let marks = back_closure(&prev, &vec![]);
    assert_eq!(marks, vec![false; 5]);
}

#[test]
fn a_late_shortcut_resets_the_predecessors() {
    let adj = graph(&[(0, 1, 10), (0, 2, 1), (2, 3, 1), (3, 1, 1), (1, 4, 1)], 5);
    let (dist, prev) = shortest_paths(&adj, 0);
    assert_eq!(dist, vec![Some(0), Some(3), Some(1), Some(2), Some(4)]);
    assert_eq!(prev[1], vec![3]);
    assert_eq!(prev[4], vec![1]);
}

#[test]
fn costs_that_no_machine_integer_holds_count_as_no_way() {
    let adj = graph(&[(0, 1, usize::MAX), (1, 2, 1)], 3);
    let (dist, _) = shortest_paths(&adj, 0);
    assert_eq!(dist, vec![Some(0), Some(usize::MAX), None]);
}

#[test]
fn small_helpers() {
    assert!(holds(&vec![3, 1, 2], 1));
    assert!(!holds(&vec![3, 1, 2], 4));
    let queue = vec![Arc { to: 0, cost: 5 }, Arc { to: 1, cost: 2 }, Arc { to: 2, cost: 2 }];
    assert_eq!(cheapest(&queue), 1);
}

#[test]
fn walking_distances_on_a_grid() {
    let open = vec![
        vec![true, true, true],
        vec![false, false, true],
        vec![true, true, true],
        vec![true, false, false],
    ];
    let dist = distances(&open, 3, (0, 0));
    assert_eq!(
        dist,
        vec![
            vec![Some(0), Some(1), Some(2)],
            vec![None, None, Some(3)],
            vec![Some(6), Some(5), Some(4)],
            vec![Some(7), None, None],
        ]
    );
    let from_wall = distances(&open, 3, (1, 0));
    assert_eq!(from_wall[1][0], Some(0));
    assert_eq!(from_wall[0][0], Some(1));
    assert_eq!(from_wall[1][1], None);
}
