use tile_grid::game_board::{Cordinate, GameData};
use tile_grid::player_input::Inputter;
use tile_grid::tiles::{BlockColor, Direction, RenderError, TileTypes};

const BLUE: &str = "\u{1b}[48;5;4m[]\u{1b}[49m";
const GAP: &str = "\u{1b}[49m  ";

#[test]
fn tile_text_forms_are_exact() {
    assert_eq!(
        TileTypes::Block(BlockColor::Red).display_text().unwrap(),
        "\u{1b}[48;5;1m[]"
    );
    assert_eq!(
        TileTypes::Block(BlockColor::Green).display_text().unwrap(),
        "\u{1b}[48;5;2m[]"
    );
    assert_eq!(
        TileTypes::Block(BlockColor::Yellow).display_text().unwrap(),
        "\u{1b}[48;5;3m[]"
    );
    assert_eq!(
        TileTypes::Block(BlockColor::Blue).display_text().unwrap(),
        "\u{1b}[48;5;4m[]"
    );
    assert_eq!(TileTypes::Gap.display_text().unwrap(), GAP);
    assert_eq!(TileTypes::Block(BlockColor::Blue).debug_text().unwrap(), BLUE);
    assert_eq!(TileTypes::Gap.debug_text().unwrap(), GAP);
}

#[test]
fn reserved_tiles_fail_to_render() {
    assert_eq!(
        TileTypes::_DiscoBall.display_text(),
        Err(RenderError::UnimplementedTile)
    );
    assert_eq!(
        TileTypes::_Firework(Direction::_Vertical).debug_text(),
        Err(RenderError::UnimplementedTile)
    );
    let game = GameData::preset_new(1, 1, vec![TileTypes::_DiscoBall]);
    assert_eq!(game.render_raw(), Err(RenderError::UnimplementedTile));
    assert_eq!(game.render_board(), Err(RenderError::UnimplementedTile));
    assert_eq!(game.render_info(), Err(RenderError::UnimplementedTile));
}

#[test]
fn raw_dump_concatenates_debug_forms() {
    let game = GameData::preset_new(
        1,
        2,
        vec![TileTypes::Block(BlockColor::Red), TileTypes::Gap],
    );
    assert_eq!(
        game.render_raw().unwrap(),
        format!("\u{1b}[48;5;1m[]\u{1b}[49m{GAP}\n")
    );
}

#[test]
fn boxed_board_frames_one_cell() {
    let game = GameData::preset_new(1, 1, vec![TileTypes::Gap]);
    assert_eq!(
        game.render_board().unwrap(),
        format!("╔══╗\n║{GAP}\u{1b}[49m║\n╚══╝\n")
    );
}

#[test]
fn boxed_board_prints_highest_row_first() {
    let game = GameData::preset_new(
        2,
        1,
        vec![TileTypes::Gap, TileTypes::Block(BlockColor::Red)],
    );
    // Row 1 holds the red block and must appear above row 0's gap.
    assert_eq!(
        game.render_board().unwrap(),
        format!("╔══╗\n║\u{1b}[48;5;1m[]\u{1b}[49m║\n║{GAP}\u{1b}[49m║\n╚══╝\n")
    );
}

#[test]
fn empty_boards_render_without_panicking() {
    let nothing = GameData::preset_new(0, 0, vec![]);
    assert_eq!(nothing.render_raw().unwrap(), "\n");
    assert_eq!(nothing.render_board().unwrap(), "╔╗\n╚╝\n");
    assert_eq!(nothing.render_info().unwrap(), " \n");
    let rows_only = GameData::preset_new(2, 0, vec![]);
    assert_eq!(
        rows_only.render_board().unwrap(),
        "╔╗\n║\u{1b}[49m║\n║\u{1b}[49m║\n╚╝\n"
    );
}

#[test]
fn info_view_marks_fresh_cache_absent() {
    let game = GameData::preset_new(
        2,
        2,
        vec![TileTypes::Block(BlockColor::Blue); 4],
    );
    assert_eq!(
        game.render_info().unwrap(),
        format!(" 1X{BLUE}XX{BLUE}X\n0  XX  XX \n 0X{BLUE}XX{BLUE}X\n    0   1\n")
    );
}

#[test]
fn info_view_draws_adjacency_markers() {
    let mut game = GameData::preset_new(
        2,
        2,
        vec![TileTypes::Block(BlockColor::Blue); 4],
    );
    game.set_cell(Cordinate::new(0, 0), TileTypes::Gap).unwrap();
    assert_eq!(
        game.render_info().unwrap(),
        format!(" 1:{BLUE}=={BLUE}:\n0  ::  || \n 0:{GAP}::{BLUE}:\n    0   1\n")
    );
}

#[test]
fn history_text_lists_exchanges_in_order() {
    let mut inputter = Inputter::new();
    assert_eq!(inputter.history_text(), "");
    inputter.add_history(String::from("look"), String::from("Output"));
    inputter.add_history(String::from("quit"), String::from("Output"));
    assert_eq!(inputter.history_text(), ">look\n<Output\n>quit\n<Output\n");
}
