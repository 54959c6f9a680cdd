//! Tile values: what a single board cell can hold.

use vstd::prelude::*;
use vstd::string::StringExecFns;

verus! {

/// The content of one cell: a gap, a colored block, or one of the two
/// reserved variants that no renderer supports yet.
#[derive(Clone, Copy, Debug, PartialEq, Eq, Structural)]
pub enum TileTypes {
    Gap,
    Block(BlockColor),
    _Firework(Direction),
    _DiscoBall,
}

/// The four colors a block can have.
#[derive(Clone, Copy, Debug, PartialEq, Eq, Structural)]
pub enum BlockColor {
    Red,
    Blue,
    Green,
    Yellow,
}

/// The orientation a reserved firework tile would fire in.
#[derive(Clone, Copy, Debug, PartialEq, Eq, Structural)]
pub enum Direction {
    _Vertical,
    _Horizontal,
}

impl TileTypes {
    /// The default tile: a blue block.
    pub fn new() -> (r: Self)
        ensures
            r == TileTypes::Block(BlockColor::Blue),
    {
        Self::Block(BlockColor::Blue)
    }
}

/// The error of rendering a tile whose text form does not exist yet:
/// a fatal gap in the renderer, not a user mistake.
#[derive(Debug, PartialEq, Eq, Structural)]
pub enum RenderError {
    UnimplementedTile,
}

/// Relies on rand::random: draws a value from the standard
/// distribution; nothing is promised of which value comes back.
pub assume_specification<T>[ rand::random::<T> ]() -> (r: T)
    where
        rand::distributions::Standard: rand::distributions::Distribution<T>,
;

/// The terminal escape that starts a block's background color.
pub open spec fn bg_escape_seq(c: BlockColor) -> Seq<char> {
    match c {
        BlockColor::Red => "\u{1b}[48;5;1m"@,
        BlockColor::Blue => "\u{1b}[48;5;4m"@,
        BlockColor::Green => "\u{1b}[48;5;2m"@,
        BlockColor::Yellow => "\u{1b}[48;5;3m"@,
    }
}

/// The terminal escape that resets the background color.
pub open spec fn reset_escape_seq() -> Seq<char> {
    "\u{1b}[49m"@
}

/// Relies on termion's color::Red::bg_str: the constant background
/// escape sequence for red.
#[verifier::external_body]
fn red_bg_str() -> (r: &'static str)
    ensures
        r@ == "\u{1b}[48;5;1m"@,
{
    termion::color::Red.bg_str()
}

/// Relies on termion's color::Blue::bg_str: the constant background
/// escape sequence for blue.
#[verifier::external_body]
fn blue_bg_str() -> (r: &'static str)
    ensures
        r@ == "\u{1b}[48;5;4m"@,
{
    termion::color::Blue.bg_str()
}

/// Relies on termion's color::Green::bg_str: the constant background
/// escape sequence for green.
#[verifier::external_body]
fn green_bg_str() -> (r: &'static str)
    ensures
        r@ == "\u{1b}[48;5;2m"@,
{
    termion::color::Green.bg_str()
}

/// Relies on termion's color::Yellow::bg_str: the constant background
/// escape sequence for yellow.
#[verifier::external_body]
fn yellow_bg_str() -> (r: &'static str)
    ensures
        r@ == "\u{1b}[48;5;3m"@,
{
    termion::color::Yellow.bg_str()
}

/// Relies on termion's color::Reset::bg_str: the constant escape
/// sequence that resets the background color.
#[verifier::external_body]
pub(crate) fn reset_bg_str() -> (r: &'static str)
    ensures
        r@ == "\u{1b}[49m"@,
{
    termion::color::Reset.bg_str()
}

/// The background escape of one block color, as executable text.
fn bg_str_of(c: BlockColor) -> (r: &'static str)
    ensures
        r@ == bg_escape_seq(c),
{
    match c {
        BlockColor::Red => red_bg_str(),
        BlockColor::Blue => blue_bg_str(),
        BlockColor::Green => green_bg_str(),
        BlockColor::Yellow => yellow_bg_str(),
    }
}

/// Whether a tile has a text form at all; the reserved variants do
/// not, and rendering them fails rather than inventing a placeholder.
pub open spec fn renderable(t: TileTypes) -> bool {
    t is Gap || t is Block
}

/// The fixed-width display form of a renderable tile: a background
/// escape followed by two glyph characters.  A gap resets the
/// background, a block fills it with the block's color.
pub open spec fn tile_display_seq(t: TileTypes) -> Seq<char>
    recommends
        renderable(t),
{
    match t {
        TileTypes::Gap => reset_escape_seq() + "  "@,
        TileTypes::Block(c) => bg_escape_seq(c) + "[]"@,
        _ => Seq::empty(),
    }
}

/// The debug form: like the display form, but a block also restores
/// the default background after its glyphs.
pub open spec fn tile_debug_seq(t: TileTypes) -> Seq<char>
    recommends
        renderable(t),
{
    match t {
        TileTypes::Gap => reset_escape_seq() + "  "@,
        TileTypes::Block(c) => bg_escape_seq(c) + "[]"@ + reset_escape_seq(),
        _ => Seq::empty(),
    }
}

impl TileTypes {
    /// The tile's display form, or the rendering failure for a
    /// reserved variant.
    pub fn display_text(&self) -> (r: Result<String, RenderError>)
        ensures
            r is Ok <==> renderable(*self),
            r matches Ok(s) ==> s@ == tile_display_seq(*self),
            !renderable(*self) ==> r == Err::<String, RenderError>(RenderError::UnimplementedTile),
    {
        match self {
            Self::Gap => {
                let mut s = String::from_str(reset_bg_str());
                s.append("  ");
                Ok(s)
            },
            Self::Block(c) => {
                let mut s = String::from_str(bg_str_of(*c));
                s.append("[]");
                Ok(s)
            },
            Self::_Firework(_) => Err(RenderError::UnimplementedTile),
            Self::_DiscoBall => Err(RenderError::UnimplementedTile),
        }
    }

    /// The tile's debug form, or the rendering failure for a reserved
    /// variant.
    pub fn debug_text(&self) -> (r: Result<String, RenderError>)
        ensures
            r is Ok <==> renderable(*self),
            r matches Ok(s) ==> s@ == tile_debug_seq(*self),
            !renderable(*self) ==> r == Err::<String, RenderError>(RenderError::UnimplementedTile),
    {
        match self {
            Self::Gap => {
                let mut s = String::from_str(reset_bg_str());
                s.append("  ");
                Ok(s)
            },
            Self::Block(c) => {
                let mut s = String::from_str(bg_str_of(*c));
                s.append("[]");
                s.append(reset_bg_str());
                Ok(s)
            },
            Self::_Firework(_) => Err(RenderError::UnimplementedTile),
            Self::_DiscoBall => Err(RenderError::UnimplementedTile),
        }
    }
}

/// The color that a sampled byte stands for: its residue modulo the
/// number of colors picks one of the four colors.
pub open spec fn color_of_byte(value: u8) -> BlockColor {
    if value % 4 == 0 {
        BlockColor::Red
    } else if value % 4 == 1 {
        BlockColor::Green
    } else if value % 4 == 2 {
        BlockColor::Blue
    } else {
        BlockColor::Yellow
    }
}

impl BlockColor {
    /// Maps a byte to a color; all four colors are hit equally often
    /// over the byte range.
    pub fn from_byte(value: u8) -> (r: Self)
        ensures
            r == color_of_byte(value),
    {
        match value % 4 {
            0 => Self::Red,
            1 => Self::Green,
            2 => Self::Blue,
            _ => Self::Yellow,
        }
    }
}

} // verus!
