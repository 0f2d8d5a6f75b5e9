use gridpath::pathfinder::structs::{CreationError, Node, Tile};
use gridpath::pathfinder::{get_tile, init_map, is_neighbor, line_to_vec};

#[test]
fn node_new_keeps_triple() {
    let n = Node::new((1, 2, 3)).unwrap();
    assert_eq!(n.get_info(), (1, 2, 3));
}

#[test]
fn node_new_rejects_negative_g() {
    assert!(matches!(Node::new((-1, 2, 1)), Err(CreationError::Negative)));
}

#[test]
fn node_new_rejects_negative_h() {
    assert!(matches!(Node::new((0, -5, -5)), Err(CreationError::Negative)));
}

#[test]
fn node_new_allows_negative_f() {
    let n = Node::new((0, 0, -7)).unwrap();
    assert_eq!(n.get_info(), (0, 0, -7));
}

#[test]
fn tile_new_keeps_fields() {
    let n = Node::new((0, 0, 0)).unwrap();
    let t = Tile::new(3, 4, true, n).unwrap();
    assert_eq!(t.get_coord(), (3, 4));
    assert!(t.get_path());
    assert_eq!(t.get_node().get_info(), (0, 0, 0));
}

#[test]
fn tile_new_rejects_negative_coordinate() {
    let n = Node::new((0, 0, 0)).unwrap();
    assert!(matches!(Tile::new(-3, 2, true, n), Err(CreationError::Negative)));
    let n = Node::new((0, 0, 0)).unwrap();
    assert!(matches!(Tile::new(0, -1, false, n), Err(CreationError::Negative)));
}

#[test]
fn creation_error_describe() {
    assert_eq!(CreationError::Negative.describe(), "number is negative");
    assert_eq!(CreationError::WrongCharacter.describe(), "wrong character");
}

#[test]
fn line_scores_manhattan() {
    // start (0,0), end (2,0): the middle tile of "---" scores g=1, h=1, f=2
    let row = line_to_vec("---", 0, (0, 0), (2, 0)).unwrap();
    assert_eq!(row.len(), 3);
    assert_eq!(row[0].get_node().get_info(), (0, 2, 2));
    assert_eq!(row[1].get_node().get_info(), (1, 1, 2));
    assert_eq!(row[2].get_node().get_info(), (2, 0, 2));
    assert!(row.iter().all(|t| t.get_path()));
    assert_eq!(row[1].get_coord(), (1, 0));
}

#[test]
fn line_marks_walls() {
    let row = line_to_vec("-#-", 1, (0, 0), (2, 2)).unwrap();
    assert!(row[0].get_path());
    assert!(!row[1].get_path());
    assert!(row[2].get_path());
    // scores ignore passability: the wall is still scored by geometry
    assert_eq!(row[1].get_node().get_info(), (2, 2, 4));
}

#[test]
fn line_rejects_wrong_character() {
    assert!(matches!(
        line_to_vec("-a-", 0, (0, 0), (1, 0)),
        Err(CreationError::WrongCharacter)
    ));
}

#[test]
fn map_builds_rows_in_order() {
    let m = init_map("--\n#-", (0, 0), (1, 1)).unwrap();
    assert_eq!(m.len(), 2);
    assert_eq!(m[0].len(), 2);
    assert_eq!(m[1].len(), 2);
    assert!(m[0][0].get_path());
    assert!(!m[1][0].get_path());
    assert_eq!(m[1][1].get_coord(), (1, 1));
    assert_eq!(m[1][1].get_node().get_info(), (2, 0, 2));
}

#[test]
fn map_allows_irregular_rows() {
    let m = init_map("---\n-", (0, 0), (0, 0)).unwrap();
    assert_eq!(m[0].len(), 3);
    assert_eq!(m[1].len(), 1);
}

#[test]
fn map_trailing_newline_gives_empty_row() {
    let m = init_map("--\n", (0, 0), (0, 0)).unwrap();
    assert_eq!(m.len(), 2);
    assert_eq!(m[1].len(), 0);
}

#[test]
fn map_rejects_wrong_character_first_row() {
    assert!(matches!(
        init_map("x-\n--", (0, 0), (1, 1)),
        Err(CreationError::WrongCharacter)
    ));
}

#[test]
fn map_rejects_wrong_character_last_row() {
    assert!(matches!(
        init_map("--\n-*", (0, 0), (1, 1)),
        Err(CreationError::WrongCharacter)
    ));
}

#[test]
fn map_rejects_space_anywhere() {
    assert!(init_map(" ", (0, 0), (0, 0)).is_err());
    assert!(init_map("- -", (0, 0), (0, 0)).is_err());
    assert!(init_map("--\n --", (0, 0), (0, 0)).is_err());
}

#[test]
fn get_tile_bounds() {
    let m = init_map("--\n--", (0, 0), (1, 1)).unwrap();
    assert_eq!(get_tile(&m, (1, 0)).unwrap().get_coord(), (1, 0));
    assert!(get_tile(&m, (2, 0)).is_none());
    assert!(get_tile(&m, (0, 2)).is_none());
    assert!(get_tile(&m, (-1, 0)).is_none());
    assert!(get_tile(&m, (0, -1)).is_none());
}

#[test]
fn neighbor_relation() {
    assert!(is_neighbor((1, 1), (1, 2)));
    assert!(is_neighbor((1, 1), (1, 0)));
    assert!(is_neighbor((1, 1), (0, 1)));
    assert!(is_neighbor((1, 1), (2, 1)));
    assert!(!is_neighbor((1, 1), (1, 1)));
    assert!(!is_neighbor((1, 1), (2, 2)));
    assert!(!is_neighbor((1, 1), (1, 3)));
    assert!(!is_neighbor((0, 0), (5, 0)));
}

#[test]
fn empty_text_is_one_empty_row() {
    let m = init_map("", (0, 0), (0, 0)).unwrap();
    assert_eq!(m.len(), 1);
    assert!(m[0].is_empty());
}
