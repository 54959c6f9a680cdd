use tile_grid::game_board::{AdjacentData, BoardError, Cordinate, GameData, Shape, ShapeType};
use tile_grid::tiles::{BlockColor, TileTypes};

fn blue_board(height: u16, width: u16) -> GameData {
    GameData::preset_new(
        height,
        width,
        vec![TileTypes::Block(BlockColor::Blue); (height * width).into()],
    )
}

#[test]
fn write_then_read_returns_written_tile() {
    let mut game = blue_board(5, 5);
    game.set_cell(Cordinate::new(3, 1), TileTypes::Block(BlockColor::Red))
        .unwrap();
    assert_eq!(
        game.get_cell(Cordinate::new(3, 1)).unwrap(),
        TileTypes::Block(BlockColor::Red)
    );
}

#[test]
fn out_of_bounds_error_carries_limit_and_value() {
    let game = blue_board(4, 4);
    assert_eq!(
        game.get_cell(Cordinate::new(9, 2)),
        Err(BoardError::BoundsError {
            limit: 4,
            exception: 9
        })
    );
    // x is checked before y, so an (8, 8) probe reports the x side.
    assert_eq!(
        game.get_cell(Cordinate::new(8, 8)),
        Err(BoardError::BoundsError {
            limit: 4,
            exception: 8
        })
    );
}

#[test]
fn failed_set_cell_changes_nothing() {
    let mut game = blue_board(4, 4);
    game.set_cell(Cordinate::new(1, 1), TileTypes::Gap).unwrap();
    let before: Vec<TileTypes> = all_tiles(&game, 4, 4);
    assert_eq!(
        game.set_cell(Cordinate::new(9, 2), TileTypes::Block(BlockColor::Red)),
        Err(BoardError::BoundsError {
            limit: 4,
            exception: 9
        })
    );
    assert_eq!(
        game.set_cell(Cordinate::new(2, 7), TileTypes::Block(BlockColor::Red)),
        Err(BoardError::BoundsError {
            limit: 4,
            exception: 7
        })
    );
    assert_eq!(all_tiles(&game, 4, 4), before);
}

fn all_tiles(game: &GameData, height: u16, width: u16) -> Vec<TileTypes> {
    let mut tiles = Vec::new();
    for y in 0..height {
        for x in 0..width {
            tiles.push(game.get_cell(Cordinate::new(x, y)).unwrap());
        }
    }
    tiles
}

#[test]
fn cache_reflects_fresh_write() {
    let mut game = blue_board(4, 4);
    game.set_cell(Cordinate::new(2, 2), TileTypes::Gap).unwrap();
    // The cell below the gap sees the new value above it, not the old
    // block color.
    assert_eq!(
        game.get_adjacency_status(Cordinate::new(2, 1)).unwrap(),
        Some(AdjacentData {
            up: Some(false),
            down: Some(true),
            left: Some(true),
            right: Some(true),
        })
    );
    // The written cell differs from all four of its block neighbors.
    assert_eq!(
        game.get_adjacency_status(Cordinate::new(2, 2)).unwrap(),
        Some(AdjacentData {
            up: Some(false),
            down: Some(false),
            left: Some(false),
            right: Some(false),
        })
    );
    // The cell above the gap: its up side leaves the grid, its down
    // side sees the gap.
    assert_eq!(
        game.get_adjacency_status(Cordinate::new(2, 3)).unwrap(),
        Some(AdjacentData {
            up: Some(false),
            down: Some(false),
            left: Some(true),
            right: Some(true),
        })
    );
}

#[test]
fn fresh_board_write_updates_neighbor_cache() {
    // Whatever colors the constructor drew, every cell is a block, so
    // the cell below a newly written gap must record its up side as
    // unequal.
    let mut game = GameData::new(4, 4);
    game.set_cell(Cordinate::new(2, 2), TileTypes::Gap).unwrap();
    assert_eq!(game.get_cell(Cordinate::new(2, 2)).unwrap(), TileTypes::Gap);
    let below = game
        .get_adjacency_status(Cordinate::new(2, 1))
        .unwrap()
        .expect("set_cell must leave every record present");
    assert_eq!(below.up, Some(false));
}

#[test]
fn set_cell_leaves_no_absent_record() {
    let mut game = blue_board(3, 3);
    assert!(game.adjacent_cache_is_dirty());
    game.set_cell(Cordinate::new(1, 1), TileTypes::Gap).unwrap();
    assert!(!game.adjacent_cache_is_dirty());
    game.reset_adjacent_cache();
    assert!(game.adjacent_cache_is_dirty());
    game.update_adjacent_cache().unwrap();
    assert!(!game.adjacent_cache_is_dirty());
}

#[test]
fn rectangle_stamp_covers_exactly_its_extent() {
    let mut game = blue_board(4, 4);
    let rectangle = Shape::new(&ShapeType::Rectangle(Cordinate::new(3, 2)));
    game.apply_shape(&rectangle, Cordinate::new(1, 1), TileTypes::Gap)
        .unwrap();
    for y in 0..4u16 {
        for x in 0..4u16 {
            let expected = if (1..4).contains(&x) && (1..3).contains(&y) {
                TileTypes::Gap
            } else {
                TileTypes::Block(BlockColor::Blue)
            };
            assert_eq!(game.get_cell(Cordinate::new(x, y)).unwrap(), expected);
        }
    }
}

#[test]
fn rectangle_stamp_fits_the_far_corner() {
    let mut game = blue_board(4, 4);
    let rectangle = Shape::new(&ShapeType::Rectangle(Cordinate::new(2, 2)));
    game.apply_shape(&rectangle, Cordinate::new(2, 2), TileTypes::Gap)
        .unwrap();
    assert_eq!(game.get_cell(Cordinate::new(3, 3)).unwrap(), TileTypes::Gap);
    assert_eq!(game.get_cell(Cordinate::new(2, 2)).unwrap(), TileTypes::Gap);
    assert_eq!(
        game.get_cell(Cordinate::new(1, 1)).unwrap(),
        TileTypes::Block(BlockColor::Blue)
    );
}

#[test]
fn rejected_stamp_modifies_no_cell() {
    let mut game = blue_board(4, 4);
    let before = all_tiles(&game, 4, 4);
    let rectangle = Shape::new(&ShapeType::Rectangle(Cordinate::new(2, 2)));
    assert_eq!(
        game.apply_shape(&rectangle, Cordinate::new(3, 3), TileTypes::Gap),
        Err(BoardError::BoundsError {
            limit: 4,
            exception: 4
        })
    );
    assert_eq!(all_tiles(&game, 4, 4), before);
}

#[test]
fn adjacent_emits_up_right_down_left() {
    let middle = Cordinate::new(5, 7).adjacent();
    assert_eq!(
        middle,
        vec![
            Some(Cordinate::new(5, 8)),
            Some(Cordinate::new(6, 7)),
            Some(Cordinate::new(5, 6)),
            Some(Cordinate::new(4, 7)),
        ]
    );
    // At the origin the down and left steps are not representable.
    let origin = Cordinate::new(0, 0).adjacent();
    assert_eq!(
        origin,
        vec![
            Some(Cordinate::new(0, 1)),
            Some(Cordinate::new(1, 0)),
            None,
            None,
        ]
    );
    // At the numeric ceiling the up and right steps overflow.
    let ceiling = Cordinate::new(u16::MAX, u16::MAX).adjacent();
    assert_eq!(
        ceiling,
        vec![
            None,
            None,
            Some(Cordinate::new(u16::MAX, u16::MAX - 1)),
            Some(Cordinate::new(u16::MAX - 1, u16::MAX)),
        ]
    );
}

#[test]
fn checked_add_signed_refuses_leaving_u16() {
    let origin = Cordinate::new(0, 0);
    assert_eq!(origin.checked_add_signed(-1, 0), None);
    assert_eq!(origin.checked_add_signed(0, -1), None);
    assert_eq!(origin.checked_add_signed(3, 2), Some(Cordinate::new(3, 2)));
    let top = Cordinate::new(u16::MAX, 0);
    assert_eq!(top.checked_add_signed(1, 0), None);
    assert_eq!(
        top.checked_add_signed(-1, 1),
        Some(Cordinate::new(u16::MAX - 1, 1))
    );
}

#[test]
fn coordinate_add_and_sub_are_componentwise() {
    let sum = Cordinate::new(3, 4).add(Cordinate::new(10, 20));
    assert_eq!(sum, Cordinate::new(13, 24));
    let difference = Cordinate::new(13, 24).sub(Cordinate::new(3, 4));
    assert_eq!(difference, Cordinate::new(10, 20));
}

#[test]
fn all_cords_walks_row_major() {
    let game = blue_board(2, 3);
    assert_eq!(
        game.all_cords(),
        vec![
            Cordinate::new(0, 0),
            Cordinate::new(1, 0),
            Cordinate::new(2, 0),
            Cordinate::new(0, 1),
            Cordinate::new(1, 1),
            Cordinate::new(2, 1),
        ]
    );
}

#[test]
fn new_board_holds_only_blocks() {
    let game = GameData::new(6, 7);
    for y in 0..6u16 {
        for x in 0..7u16 {
            let tile = game.get_cell(Cordinate::new(x, y)).unwrap();
            assert!(matches!(tile, TileTypes::Block(_)));
        }
    }
}

#[test]
fn single_row_board_at_full_width() {
    let mut game = blue_board(1, u16::MAX);
    game.set_cell(Cordinate::new(u16::MAX - 1, 0), TileTypes::Gap)
        .unwrap();
    assert_eq!(
        game.get_cell(Cordinate::new(u16::MAX - 1, 0)).unwrap(),
        TileTypes::Gap
    );
    assert!(!game.adjacent_cache_is_dirty());
}

#[test]
fn default_tile_and_byte_colors() {
    assert_eq!(TileTypes::new(), TileTypes::Block(BlockColor::Blue));
    assert_eq!(BlockColor::from_byte(0), BlockColor::Red);
    assert_eq!(BlockColor::from_byte(1), BlockColor::Green);
    assert_eq!(BlockColor::from_byte(2), BlockColor::Blue);
    assert_eq!(BlockColor::from_byte(3), BlockColor::Yellow);
    assert_eq!(BlockColor::from_byte(255), BlockColor::Yellow);
}
