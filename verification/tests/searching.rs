use gridpath::pathfinder::{init_map, is_neighbor, next_tile, repair_tail, search_path};

fn search(text: &str, start: (i32, i32), end: (i32, i32)) -> Result<Vec<(usize, usize)>, ()> {
    let map = init_map(text, start, end).unwrap();
    search_path(&map, start, end)
}

/// Checks the path shape: nonempty, ends at `end`, consecutive pairs
/// adjacent, and starting at `start` whenever it still holds `start`.
fn check_path(path: &[(usize, usize)], start: (usize, usize), end: (usize, usize)) {
    assert!(!path.is_empty());
    assert_eq!(*path.last().unwrap(), end);
    for w in path.windows(2) {
        assert!(is_neighbor(w[0], w[1]), "gap between {:?} and {:?}", w[0], w[1]);
    }
    if path.contains(&start) {
        assert_eq!(path[0], start);
    }
}

#[test]
fn two_by_two_shortest() {
    // 2x2 open grid: the path has exactly 3 coordinates
    let path = search("--\n--", (0, 0), (1, 1)).unwrap();
    assert_eq!(path.len(), 3);
    assert_eq!(path[0], (0, 0));
    assert_eq!(*path.last().unwrap(), (1, 1));
    assert!(path[1] == (1, 0) || path[1] == (0, 1));
    // the walk examines down before right, so the tie goes down
    assert_eq!(path, vec![(0, 0), (0, 1), (1, 1)]);
}

#[test]
fn three_by_three_avoids_center_wall() {
    let path = search("---\n-#-\n---", (0, 0), (2, 2)).unwrap();
    check_path(&path, (0, 0), (2, 2));
    assert!(path.len() >= 5);
    assert!(!path.contains(&(1, 1)));
}

#[test]
fn single_row_blocked() {
    // a wall splits the only row: no 4-directional path exists
    assert_eq!(search("-#-", (0, 0), (2, 0)), Err(()));
}

#[test]
fn walled_in_start() {
    assert_eq!(search("-#\n##", (0, 0), (1, 1)), Err(()));
}

#[test]
fn start_equals_end() {
    let path = search("--\n--", (1, 1), (1, 1)).unwrap();
    assert_eq!(path, vec![(1, 1)]);
}

#[test]
fn path_tiles_are_passable() {
    let text = "----\n-##-\n----";
    let map = init_map(text, (0, 0), (3, 0)).unwrap();
    let path = search_path(&map, (0, 0), (3, 0)).unwrap();
    check_path(&path, (0, 0), (3, 0));
    for &(x, y) in &path {
        assert!(map[y][x].get_path(), "impassable tile {:?} on path", (x, y));
    }
}

#[test]
fn repeated_searches_identical() {
    let text = "-----\n-###-\n-----\n###--\n-----";
    let first = search(text, (0, 0), (4, 4));
    for _ in 0..3 {
        assert_eq!(search(text, (0, 0), (4, 4)), first);
    }
    let path = first.unwrap();
    check_path(&path, (0, 0), (4, 4));
}

#[test]
fn dead_end_uses_fallback() {
    // the greedy walk runs into the pocket and must fall back to an
    // earlier frontier tile to get around the wall
    let text = "--#--\n-###-\n-----";
    let path = search(text, (0, 0), (4, 0)).unwrap();
    check_path(&path, (0, 0), (4, 0));
}

#[test]
fn larger_maze() {
    let text = "-------\n######-\n-------\n-######\n-------";
    let path = search(text, (0, 0), (6, 4)).unwrap();
    check_path(&path, (0, 0), (6, 4));
    assert!(path.len() >= 19);
}

#[test]
fn unreachable_far_corner() {
    let text = "---#-\n---#-\n---#-";
    assert_eq!(search(text, (0, 0), (4, 1)), Err(()));
}

#[test]
fn next_tile_prefers_low_f_then_h() {
    // start (0,0), end (2,0) on "---": from (1,0) the neighbor (2,0) has
    // (f,h) = (2,0) and (0,0) is visited, so (2,0) wins
    let map = init_map("---", (0, 0), (2, 0)).unwrap();
    let mut known = Vec::new();
    let visited = vec![(0usize, 0usize), (1usize, 0usize)];
    let cur = map[0][1];
    let picked = next_tile(&map, &mut known, &visited, &cur).unwrap();
    assert_eq!(picked.get_coord(), (2, 0));
    assert_eq!(known.len(), 1);
    assert_eq!(known[0].get_coord(), (2, 0));
}

#[test]
fn next_tile_none_when_surrounded() {
    let map = init_map("###\n#-#\n###", (1, 1), (1, 1)).unwrap();
    let mut known = Vec::new();
    let visited = vec![(1usize, 1usize)];
    let cur = map[1][1];
    assert!(next_tile(&map, &mut known, &visited, &cur).is_none());
    assert!(known.is_empty());
}

#[test]
fn repair_pops_stale_tail() {
    let mut path = vec![(0usize, 0usize), (1, 0), (2, 0)];
    repair_tail(&mut path, (0, 1));
    assert_eq!(path, vec![(0, 0)]);
}

#[test]
fn repair_keeps_adjacent_tail() {
    let mut path = vec![(0usize, 0usize), (1, 0)];
    repair_tail(&mut path, (1, 1));
    assert_eq!(path, vec![(0, 0), (1, 0)]);
}

#[test]
fn repair_can_empty_path() {
    let mut path = vec![(0usize, 0usize), (1, 0)];
    repair_tail(&mut path, (5, 5));
    assert!(path.is_empty());
}

#[test]
fn fallback_can_trim_start_away() {
    // a late fallback jump can pop the whole recorded tail, start
    // included: the returned path is still contiguous and ends at the
    // end, but begins at the jump target instead of the start
    let text = "-----#\n--##--\n##----\n#---#-\n##-#-#";
    let path = search(text, (2, 2), (0, 1)).unwrap();
    check_path(&path, (2, 2), (0, 1));
    assert!(!path.contains(&(2, 2)));
    assert_eq!(
        path,
        vec![(4, 2), (4, 1), (4, 0), (3, 0), (2, 0), (1, 0), (1, 1), (0, 1)]
    );
}

#[test]
fn start_equals_end_on_wall() {
    // the walk never leaves the start, so its passability never matters
    let path = search("#-", (0, 0), (0, 0)).unwrap();
    assert_eq!(path, vec![(0, 0)]);
}
