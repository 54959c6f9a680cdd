//! The board: a rectangular grid of tiles with bounds-checked access,
//! shape stamping, and a per-cell cache of neighbor adjacency.

use crate::tiles::{
    renderable, reset_escape_seq, tile_debug_seq, tile_display_seq, BlockColor, RenderError,
    TileTypes,
};
use vstd::prelude::*;
use vstd::string::{StrSliceExecFns, StringExecFns};

verus! {

/// A zero-based grid position.  Whether it lies on a given board is the
/// board's concern, not the coordinate's.
#[derive(Debug, Clone, Copy, PartialEq, Eq, Structural)]
pub struct Cordinate {
    pub x: u16,
    pub y: u16,
}

/// The one recoverable error: a coordinate component at or past its
/// axis limit.  `limit` is the board's extent on the offending axis and
/// `exception` the component that broke it.
#[derive(Debug, PartialEq, Eq, Structural)]
pub enum BoardError {
    BoundsError { limit: u16, exception: u16 },
}

/// Component-wise checked addition of a signed offset, as a spec value:
/// `None` exactly when a component would leave the `u16` range.
pub open spec fn spec_checked_add(c: Cordinate, dx: int, dy: int) -> Option<Cordinate> {
    if 0 <= c.x + dx <= u16::MAX && 0 <= c.y + dy <= u16::MAX {
        Some(Cordinate { x: (c.x + dx) as u16, y: (c.y + dy) as u16 })
    } else {
        None
    }
}

/// The neighbor of `c` one step in direction `dir`, where the fixed
/// direction order is 0 = up (+y), 1 = right (+x), 2 = down (-y),
/// 3 = left (-x); `None` when the step is not representable in `u16`.
pub open spec fn spec_neighbor(c: Cordinate, dir: int) -> Option<Cordinate> {
    if dir == 0 {
        spec_checked_add(c, 0, 1)
    } else if dir == 1 {
        spec_checked_add(c, 1, 0)
    } else if dir == 2 {
        spec_checked_add(c, 0, -1)
    } else {
        spec_checked_add(c, -1, 0)
    }
}

/// The direction pointing back: following `dir` and then its opposite
/// returns to the start.
pub open spec fn opposite_dir(dir: int) -> int {
    if dir == 0 {
        2
    } else if dir == 1 {
        3
    } else if dir == 2 {
        0
    } else {
        1
    }
}

/// Stepping to a neighbor and stepping back lands on the original
/// coordinate; so a cell is its neighbor's neighbor.
pub proof fn lemma_neighbor_symmetric(c: Cordinate, n: Cordinate, dir: int)
    requires
        0 <= dir < 4,
        spec_neighbor(c, dir) == Some(n),
    ensures
        spec_neighbor(n, opposite_dir(dir)) == Some(c),
{
}

impl Cordinate {
    pub fn new(x: u16, y: u16) -> (r: Self)
        ensures
            r == (Cordinate { x, y }),
    {
        Self { x, y }
    }

    /// Offsets both components by a signed step, refusing any step that
    /// leaves the `u16` range.
    pub fn checked_add_signed(&self, rhs_x: i16, rhs_y: i16) -> (r: Option<Self>)
        ensures
            r == spec_checked_add(*self, rhs_x as int, rhs_y as int),
    {
        let x: i32 = self.x as i32 + rhs_x as i32;
        let y: i32 = self.y as i32 + rhs_y as i32;
        if 0 <= x && x <= u16::MAX as i32 && 0 <= y && y <= u16::MAX as i32 {
            Some(Self { x: x as u16, y: y as u16 })
        } else {
            None
        }
    }

    /// The four Manhattan-distance-1 neighbors in the fixed order up,
    /// right, down, left; an entry is `None` only when the offset
    /// arithmetic leaves `u16`, never because of board bounds.
    pub fn adjacent(&self) -> (r: Vec<Option<Self>>)
        ensures
            r@.len() == 4,
            forall|d: int| 0 <= d < 4 ==> r@[d] == spec_neighbor(*self, d),
    {
        let mut adjacent_cords: Vec<Option<Self>> = Vec::new();
        adjacent_cords.push(self.checked_add_signed(0, 1));
        adjacent_cords.push(self.checked_add_signed(1, 0));
        adjacent_cords.push(self.checked_add_signed(0, -1));
        adjacent_cords.push(self.checked_add_signed(-1, 0));
        adjacent_cords
    }

    /// Component-wise sum; overflow is a caller bug, ruled out here.
    pub fn add(self, rhs: Self) -> (r: Self)
        requires
            self.x + rhs.x <= u16::MAX,
            self.y + rhs.y <= u16::MAX,
        ensures
            r.x == self.x + rhs.x,
            r.y == self.y + rhs.y,
    {
        Self { x: self.x + rhs.x, y: self.y + rhs.y }
    }

    /// Component-wise difference; underflow is a caller bug, ruled out
    /// here.
    pub fn sub(self, rhs: Self) -> (r: Self)
        requires
            rhs.x <= self.x,
            rhs.y <= self.y,
        ensures
            r.x == self.x - rhs.x,
            r.y == self.y - rhs.y,
    {
        Self { x: self.x - rhs.x, y: self.y - rhs.y }
    }
}

/// Component-wise sum of two coordinates as a spec value; meaningful
/// when neither component overflows.
pub open spec fn coord_plus(a: Cordinate, b: Cordinate) -> Cordinate {
    Cordinate { x: (a.x + b.x) as u16, y: (a.y + b.y) as u16 }
}

/// The coordinate that a rectangle enumeration of extent `size` puts
/// at position `i`: the x axis is the outer loop, the y axis the
/// inner.
pub open spec fn rect_coord(size: Cordinate, i: int) -> Cordinate {
    Cordinate { x: (i / size.y as int) as u16, y: (i % size.y as int) as u16 }
}

/// Every position of a rectangle enumeration holds an in-extent
/// coordinate, and the position can be recovered from the coordinate.
proof fn lemma_rect_coord(size: Cordinate, i: int)
    requires
        0 <= i < size.x as int * size.y as int,
    ensures
        rect_coord(size, i).x < size.x,
        rect_coord(size, i).y < size.y,
        rect_coord(size, i).x as int * size.y as int + rect_coord(size, i).y as int == i,
{
    let x = size.x as int;
    let y = size.y as int;
    assert(y > 0) by (nonlinear_arith)
        requires
            0 <= i < x * y,
            0 <= y,
    ;
    vstd::arithmetic::div_mod::lemma_fundamental_div_mod(i, y);
    vstd::arithmetic::div_mod::lemma_mod_bound(i, y);
    assert(i / y < x) by (nonlinear_arith)
        requires
            y > 0,
            i < x * y,
            y * (i / y) + i % y == i,
            0 <= i % y < y,
    ;
    assert(i / y >= 0) by (nonlinear_arith)
        requires
            y > 0,
            i >= 0,
            y * (i / y) + i % y == i,
            0 <= i % y < y,
    ;
    assert((i / y) * y + i % y == i) by (nonlinear_arith)
        requires
            y * (i / y) + i % y == i,
    ;
}

/// A reusable stamp pattern: an ordered list of relative coordinates,
/// whose last element is the component-wise maximal corner.
pub struct Shape {
    locations: Vec<Cordinate>,
}

/// The descriptors a [`Shape`] can be built from.
pub enum ShapeType {
    Rectangle(Cordinate),
}

impl Shape {
    /// The relative coordinates of the stamp, in enumeration order.
    pub closed spec fn locations(&self) -> Seq<Cordinate> {
        self.locations@
    }

    /// The ordering invariant that bounds checking relies on: the
    /// pattern is non-empty and its last element dominates every
    /// element on both axes.
    pub open spec fn wf(&self) -> bool {
        &&& self.locations().len() > 0
        &&& forall|i: int|
            0 <= i < self.locations().len() ==> (#[trigger] self.locations()[i]).x
                <= self.locations().last().x && self.locations()[i].y <= self.locations().last().y
    }

    /// Whether one of the first `k` elements of the pattern, offset by
    /// `offset`, lands on the absolute coordinate `c`.
    pub open spec fn covers_prefix(&self, offset: Cordinate, c: Cordinate, k: int) -> bool {
        exists|m: int|
            0 <= m < k && c == coord_plus(#[trigger] self.locations()[m], offset)
    }

    /// Whether stamping this shape at `offset` writes the absolute
    /// coordinate `c`.
    pub open spec fn covers(&self, offset: Cordinate, c: Cordinate) -> bool {
        self.covers_prefix(offset, c, self.locations().len() as int)
    }

    /// Builds the stamp pattern of a descriptor.  A rectangle of
    /// extent `(w, h)` enumerates all `w * h` coordinates of
    /// `[0, w) x [0, h)`, x axis outermost, so that the enumeration
    /// ends on the maximal corner `(w - 1, h - 1)`.
    pub fn new(shape_type: &ShapeType) -> (r: Self)
        requires
            (match *shape_type {
                ShapeType::Rectangle(size) => size.x as int * size.y as int <= u16::MAX as int,
            }),
        ensures
            (match *shape_type {
                ShapeType::Rectangle(size) => {
                    &&& r.locations().len() == size.x as int * size.y as int
                    &&& forall|i: int|
                        0 <= i < r.locations().len() ==> #[trigger] r.locations()[i] == rect_coord(
                            size,
                            i,
                        )
                    &&& forall|i: int|
                        0 <= i < r.locations().len() ==> (#[trigger] r.locations()[i]).x < size.x
                            && r.locations()[i].y < size.y
                    &&& forall|i: int, j: int|
                        0 <= i < j < r.locations().len() ==> r.locations()[i] != r.locations()[j]
                    &&& size.x > 0 && size.y > 0 ==> r.locations().last() == (Cordinate {
                        x: (size.x - 1) as u16,
                        y: (size.y - 1) as u16,
                    })
                    &&& size.x > 0 && size.y > 0 ==> r.wf()
                },
            }),
    {
        match shape_type {
            ShapeType::Rectangle(size) => {
                let volume: usize = (size.x * size.y) as usize;
                let mut locations: Vec<Cordinate> = Vec::with_capacity(volume);
                let mut x: u16 = 0;
                while x < size.x
                    invariant
                        x <= size.x,
                        size.x as int * size.y as int <= u16::MAX as int,
                        locations@.len() == x as int * size.y as int,
                        forall|i: int| 0 <= i < locations@.len() ==> #[trigger] locations@[i]
                            == rect_coord(*size, i),
                    decreases size.x - x,
                {
                    let mut y: u16 = 0;
                    proof {
                        let sx = size.x as int;
                        let sy = size.y as int;
                        assert(x as int * sy + sy == (x as int + 1) * sy) by (nonlinear_arith);
                        assert((x as int + 1) * sy <= sx * sy) by (nonlinear_arith)
                            requires
                                0 <= sy,
                                x as int + 1 <= sx,
                        ;
                    }
                    while y < size.y
                        invariant
                            x < size.x,
                            y <= size.y,
                            size.x as int * size.y as int <= u16::MAX as int,
                            locations@.len() == x as int * size.y as int + y as int,
                            x as int * size.y as int + size.y as int <= size.x as int
                                * size.y as int,
                            forall|i: int| 0 <= i < locations@.len() ==> #[trigger] locations@[i]
                                == rect_coord(*size, i),
                        decreases size.y - y,
                    {
                        proof {
                            vstd::arithmetic::div_mod::lemma_fundamental_div_mod_converse(
                                x as int * size.y as int + y as int,
                                size.y as int,
                                x as int,
                                y as int,
                            );
                        }
                        locations.push(Cordinate { x, y });
                        y = y + 1;
                    }
                    x = x + 1;
                }
                proof {
                    let sx = size.x as int;
                    let sy = size.y as int;
                    let n = locations@.len() as int;
                    assert forall|i: int, j: int| 0 <= i < j < n implies locations@[i]
                        != locations@[j] by {
                        lemma_rect_coord(*size, i);
                        lemma_rect_coord(*size, j);
                    }
                    if sx > 0 && sy > 0 {
                        assert((sx - 1) * sy + (sy - 1) == sx * sy - 1) by (nonlinear_arith);
                        vstd::arithmetic::div_mod::lemma_fundamental_div_mod_converse(
                            sx * sy - 1,
                            sy,
                            sx - 1,
                            sy - 1,
                        );
                        assert forall|i: int| 0 <= i < n implies (#[trigger] locations@[i]).x <= (
                        sx - 1) && locations@[i].y <= (sy - 1) by {
                            lemma_rect_coord(*size, i);
                        }
                    }
                }
                Self { locations }
            },
        }
    }
}

/// The raw dump of the first `n` cells: each tile's debug form in
/// row-major order, with no separators.
pub open spec fn raw_text_upto(board: Seq<TileTypes>, n: int) -> Seq<char>
    decreases n,
{
    if n <= 0 {
        Seq::empty()
    } else {
        raw_text_upto(board, n - 1) + tile_debug_seq(board[n - 1])
    }
}

/// `n` copies of `s`.
pub open spec fn repeat_text(s: Seq<char>, n: int) -> Seq<char>
    decreases n,
{
    if n <= 0 {
        Seq::empty()
    } else {
        repeat_text(s, n - 1) + s
    }
}

/// The display forms of the first `n` cells of row `y`.
pub open spec fn row_display_upto(board: Seq<TileTypes>, w: int, y: int, n: int) -> Seq<char>
    decreases n,
{
    if n <= 0 {
        Seq::empty()
    } else {
        row_display_upto(board, w, y, n - 1) + tile_display_seq(board[y * w + (n - 1)])
    }
}

/// One framed line of the boxed board: row `y` between pipes, with the
/// background reset before the closing pipe.
pub open spec fn board_row_line(board: Seq<TileTypes>, w: int, y: int) -> Seq<char> {
    "║"@ + row_display_upto(board, w, y, w) + reset_escape_seq() + "║"@ + "\n"@
}

/// The first `n` printed lines of the boxed board's body: rows are
/// printed from the top of the grid down, so the `n`-th printed line
/// shows row `h - n`.
pub open spec fn board_rows_upto(board: Seq<TileTypes>, w: int, h: int, n: int) -> Seq<char>
    decreases n,
{
    if n <= 0 {
        Seq::empty()
    } else {
        board_rows_upto(board, w, h, n - 1) + board_row_line(board, w, h - n)
    }
}

/// The top border of the boxed board, twice the board's width across.
pub open spec fn box_top(w: int) -> Seq<char> {
    "╔"@ + repeat_text("═"@, 2 * w) + "╗"@ + "\n"@
}

/// The bottom border of the boxed board.
pub open spec fn box_bottom(w: int) -> Seq<char> {
    "╚"@ + repeat_text("═"@, 2 * w) + "╝"@ + "\n"@
}

/// The whole boxed board: top border, rows from the highest y down to
/// row zero, bottom border.
pub open spec fn board_text(board: Seq<TileTypes>, w: int, h: int) -> Seq<char> {
    box_top(w) + board_rows_upto(board, w, h, h) + box_bottom(w)
}

/// The one-character marker of a known horizontal side in the info
/// view: `=` for an equal neighbor, `:` for a different one, and `|`
/// for a side that was never filled in.
pub open spec fn side_mark(o: Option<bool>) -> Seq<char> {
    match o {
        None => "|"@,
        Some(true) => "="@,
        Some(false) => ":"@,
    }
}

/// The marker drawn left of a cell; a wholly absent record draws `X`.
pub open spec fn left_mark(entry: Option<AdjacentData>) -> Seq<char> {
    match entry {
        None => "X"@,
        Some(ad) => side_mark(ad.left),
    }
}

/// The marker drawn right of a cell; a wholly absent record draws `X`.
pub open spec fn right_mark(entry: Option<AdjacentData>) -> Seq<char> {
    match entry {
        None => "X"@,
        Some(ad) => side_mark(ad.right),
    }
}

/// The vertical marker of one known direction: `|` for an equal
/// neighbor, `:` for a different one.  A present record never leaves a
/// direction unknown (well-formedness guarantees it), so that case has
/// no text.
pub open spec fn vert_mark(o: Option<bool>) -> Seq<char> {
    match o {
        Some(true) => "|"@,
        Some(false) => ":"@,
        None => Seq::empty(),
    }
}

/// A cell's downward marker in a separator line; an absent record
/// draws `X`.
pub open spec fn down_mark(entry: Option<AdjacentData>) -> Seq<char> {
    match entry {
        None => "X"@,
        Some(ad) => vert_mark(ad.down),
    }
}

/// A cell's upward marker in a separator line; an absent record draws
/// `X`.
pub open spec fn up_mark(entry: Option<AdjacentData>) -> Seq<char> {
    match entry {
        None => "X"@,
        Some(ad) => vert_mark(ad.up),
    }
}

/// The first `n` cells of row `y` in the info view: each cell's debug
/// form between its left and right markers.
pub open spec fn info_cells_upto(
    board: Seq<TileTypes>,
    cache: Seq<Option<AdjacentData>>,
    w: int,
    y: int,
    n: int,
) -> Seq<char>
    decreases n,
{
    if n <= 0 {
        Seq::empty()
    } else {
        info_cells_upto(board, cache, w, y, n - 1) + left_mark(cache[y * w + (n - 1)])
            + tile_debug_seq(board[y * w + (n - 1)]) + right_mark(cache[y * w + (n - 1)])
    }
}

/// One row line of the info view: the row's y index right-aligned to
/// two characters, then the marked cells, then a line break.
pub open spec fn info_row_line(
    board: Seq<TileTypes>,
    cache: Seq<Option<AdjacentData>>,
    w: int,
    y: int,
) -> Seq<char> {
    pad_left(dec_seq(y), 2) + info_cells_upto(board, cache, w, y, w) + "\n"@
}

/// The first `n` columns of the separator between row `y` and the row
/// below it: per column, a space, the upper cell's downward marker,
/// the lower cell's upward marker, and a space.
pub open spec fn info_sep_cols_upto(
    cache: Seq<Option<AdjacentData>>,
    w: int,
    y: int,
    n: int,
) -> Seq<char>
    decreases n,
{
    if n <= 0 {
        Seq::empty()
    } else {
        info_sep_cols_upto(cache, w, y, n - 1) + " "@ + down_mark(cache[y * w + (n - 1)])
            + up_mark(cache[(y - 1) * w + (n - 1)]) + " "@
    }
}

/// One separator line: its print-order label, a space, the column
/// markers, and a line break.
pub open spec fn info_sep_line(
    cache: Seq<Option<AdjacentData>>,
    w: int,
    y: int,
    label: int,
) -> Seq<char> {
    dec_seq(label) + " "@ + info_sep_cols_upto(cache, w, y, w) + "\n"@
}

/// The first `n` printed row lines of the info view, each followed by
/// its separator except after the bottom row.  Rows print from the top
/// of the grid down, so the `n`-th printed line shows row `h - n`, and
/// its separator carries the zero-based print label `n - 1`.
pub open spec fn info_lines_upto(
    board: Seq<TileTypes>,
    cache: Seq<Option<AdjacentData>>,
    w: int,
    h: int,
    n: int,
) -> Seq<char>
    decreases n,
{
    if n <= 0 {
        Seq::empty()
    } else {
        info_lines_upto(board, cache, w, h, n - 1) + info_row_line(board, cache, w, h - n) + (if h
            - n > 0 {
            info_sep_line(cache, w, h - n, n - 1)
        } else {
            Seq::empty()
        })
    }
}

/// The first `n` column labels of the info view's footer, each
/// right-aligned to four characters.
pub open spec fn info_footer_upto(n: int) -> Seq<char>
    decreases n,
{
    if n <= 0 {
        Seq::empty()
    } else {
        info_footer_upto(n - 1) + pad_left(dec_seq(n - 1), 4)
    }
}

/// The whole info view: the marked rows with their separators, then a
/// footer line of column labels behind a leading space.
pub open spec fn info_text(
    board: Seq<TileTypes>,
    cache: Seq<Option<AdjacentData>>,
    w: int,
    h: int,
) -> Seq<char> {
    info_lines_upto(board, cache, w, h, h) + " "@ + info_footer_upto(w) + "\n"@
}

/// One cell's cached adjacency record: for each direction, whether the
/// neighbor there is in bounds and holds an equal tile.  A direction is
/// `None` only in records that no refresh has produced; the refresh
/// always fills all four directions.
#[derive(Clone, Copy, Debug, PartialEq, Eq)]
pub struct AdjacentData {
    pub up: Option<bool>,
    pub down: Option<bool>,
    pub left: Option<bool>,
    pub right: Option<bool>,
}

/// A known horizontal side's marker, as executable text.
fn side_mark_text(o: Option<bool>) -> (r: &'static str)
    ensures
        r@ == side_mark(o),
{
    match o {
        None => "|",
        Some(true) => "=",
        Some(false) => ":",
    }
}

/// A cell's left marker, as executable text.
fn left_mark_text(entry: &Option<AdjacentData>) -> (r: &'static str)
    ensures
        r@ == left_mark(*entry),
{
    match entry {
        None => "X",
        Some(ad) => side_mark_text(ad.left),
    }
}

/// A cell's right marker, as executable text.
fn right_mark_text(entry: &Option<AdjacentData>) -> (r: &'static str)
    ensures
        r@ == right_mark(*entry),
{
    match entry {
        None => "X",
        Some(ad) => side_mark_text(ad.right),
    }
}

/// A cell's downward marker, as executable text; a present record must
/// have its downward state filled in.
fn down_mark_text(entry: &Option<AdjacentData>) -> (r: &'static str)
    requires
        entry matches Some(ad) ==> ad.down is Some,
    ensures
        r@ == down_mark(*entry),
{
    match entry {
        None => "X",
        Some(ad) => match ad.down {
            Some(true) => "|",
            Some(false) => ":",
            None => ":",
        },
    }
}

/// A cell's upward marker, as executable text; a present record must
/// have its upward state filled in.
fn up_mark_text(entry: &Option<AdjacentData>) -> (r: &'static str)
    requires
        entry matches Some(ad) ==> ad.up is Some,
    ensures
        r@ == up_mark(*entry),
{
    match entry {
        None => "X",
        Some(ad) => match ad.up {
            Some(true) => "|",
            Some(false) => ":",
            None => ":",
        },
    }
}

/// The ten decimal digit characters.
pub open spec fn digit_char(d: int) -> char {
    if d == 0 {
        '0'
    } else if d == 1 {
        '1'
    } else if d == 2 {
        '2'
    } else if d == 3 {
        '3'
    } else if d == 4 {
        '4'
    } else if d == 5 {
        '5'
    } else if d == 6 {
        '6'
    } else if d == 7 {
        '7'
    } else if d == 8 {
        '8'
    } else {
        '9'
    }
}

/// The decimal text of a non-negative number, most significant digit
/// first, without leading zeros.
pub open spec fn dec_seq(n: int) -> Seq<char>
    recommends
        n >= 0,
    decreases n,
{
    if n <= 9 {
        seq![digit_char(n)]
    } else {
        dec_seq(n / 10) + seq![digit_char(n % 10)]
    }
}

/// `s` padded on the left with spaces to at least `width` characters.
pub open spec fn pad_left(s: Seq<char>, width: int) -> Seq<char> {
    if s.len() >= width {
        s
    } else {
        repeat_text(" "@, width - s.len()) + s
    }
}

/// One decimal digit as text.
fn digit_text(d: u16) -> (r: &'static str)
    requires
        d < 10,
    ensures
        r@ == seq![digit_char(d as int)],
{
    let r: &'static str = match d {
        0 => "0",
        1 => "1",
        2 => "2",
        3 => "3",
        4 => "4",
        5 => "5",
        6 => "6",
        7 => "7",
        8 => "8",
        _ => "9",
    };
    proof {
        reveal_strlit("0");
        reveal_strlit("1");
        reveal_strlit("2");
        reveal_strlit("3");
        reveal_strlit("4");
        reveal_strlit("5");
        reveal_strlit("6");
        reveal_strlit("7");
        reveal_strlit("8");
        reveal_strlit("9");
        assert(r@ =~= seq![digit_char(d as int)]);
    }
    r
}

/// A number's decimal text.
fn u16_text(n: u16) -> (r: String)
    ensures
        r@ == dec_seq(n as int),
    decreases n,
{
    if n <= 9 {
        String::from_str(digit_text(n))
    } else {
        let mut s = u16_text(n / 10);
        s.append(digit_text(n % 10));
        s
    }
}

/// A number's decimal text, right-aligned in a field of at least
/// `width` characters.
fn padded_u16_text(n: u16, width: usize) -> (r: String)
    ensures
        r@ == pad_left(dec_seq(n as int), width as int),
{
    let t = u16_text(n);
    let len = t.as_str().unicode_len();
    let mut out = String::new();
    let pad: usize = if width > len {
        width - len
    } else {
        0
    };
    let mut k: usize = 0;
    proof {
        assert(out@ =~= repeat_text(" "@, 0));
    }
    while k < pad
        invariant
            k <= pad,
            out@ == repeat_text(" "@, k as int),
        decreases pad - k,
    {
        out.append(" ");
        k = k + 1;
    }
    out.append(t.as_str());
    proof {
        assert(out@ =~= pad_left(dec_seq(n as int), width as int));
    }
    out
}

/// A board of tiles in row-major order, together with the per-cell
/// adjacency cache; an adjacency here is a Manhattan-distance-1
/// relation, so diagonals do not count.
pub struct GameData {
    game_board: Vec<TileTypes>,
    adjacent_cache: Vec<Option<AdjacentData>>,
    height: u16,
    width: u16,
}

impl GameData {
    /// The stored tiles, row-major: the cell at `(x, y)` sits at index
    /// `x + y * width`.
    pub closed spec fn board(&self) -> Seq<TileTypes> {
        self.game_board@
    }

    /// The adjacency cache, index-aligned with the tiles; `None` marks
    /// a cell whose record must be recomputed before use.
    pub closed spec fn cache(&self) -> Seq<Option<AdjacentData>> {
        self.adjacent_cache@
    }

    pub closed spec fn spec_height(&self) -> u16 {
        self.height
    }

    pub closed spec fn spec_width(&self) -> u16 {
        self.width
    }

    /// Number of cells.
    pub open spec fn size(&self) -> int {
        self.spec_height() as int * self.spec_width() as int
    }

    pub open spec fn spec_in_bounds(&self, c: Cordinate) -> bool {
        c.x < self.spec_width() && c.y < self.spec_height()
    }

    /// The linear index of an in-bounds coordinate.
    pub open spec fn cell_index(&self, c: Cordinate) -> int {
        c.x + c.y * self.spec_width()
    }

    /// The coordinate living at linear index `i`.
    pub open spec fn coord_at(&self, i: int) -> Cordinate {
        Cordinate {
            x: (i % self.spec_width() as int) as u16,
            y: (i / self.spec_width() as int) as u16,
        }
    }

    /// The error reported for an out-of-bounds coordinate: the x axis
    /// is checked before the y axis.
    pub open spec fn oob_error(&self, c: Cordinate) -> BoardError {
        if c.x >= self.spec_width() {
            BoardError::BoundsError { limit: self.spec_width(), exception: c.x }
        } else {
            BoardError::BoundsError { limit: self.spec_height(), exception: c.y }
        }
    }

    /// Whether the neighbor of `c` in direction `dir` exists, is in
    /// bounds, and holds a tile equal to the one at `c`.
    pub open spec fn spec_same(&self, c: Cordinate, dir: int) -> bool {
        match spec_neighbor(c, dir) {
            Some(n) => self.spec_in_bounds(n) && self.board()[self.cell_index(n)]
                == self.board()[self.cell_index(c)],
            None => false,
        }
    }

    /// The record a cache refresh computes for the cell at `c`.
    pub open spec fn fresh_record(&self, c: Cordinate) -> AdjacentData {
        AdjacentData {
            up: Some(self.spec_same(c, 0)),
            right: Some(self.spec_same(c, 1)),
            down: Some(self.spec_same(c, 2)),
            left: Some(self.spec_same(c, 3)),
        }
    }

    /// A present cache entry always agrees with the tiles: it is
    /// exactly the record a fresh recomputation would produce.
    pub open spec fn entry_ok(&self, i: int) -> bool {
        self.cache()[i] is Some ==> self.cache()[i] == Some(self.fresh_record(self.coord_at(i)))
    }

    pub open spec fn cache_ok(&self) -> bool {
        forall|i: int| 0 <= i < self.size() ==> #[trigger] self.entry_ok(i)
    }

    /// Well-formedness: tile array and cache both hold one slot per
    /// cell, the cell count is addressable in `u16` arithmetic, and
    /// every present cache entry is truthful.
    pub open spec fn wf(&self) -> bool {
        &&& self.board().len() == self.size()
        &&& self.cache().len() == self.size()
        &&& self.size() <= u16::MAX as int
        &&& self.cache_ok()
    }

    /// An in-bounds coordinate's linear index lies inside the array,
    /// and mapping the index back recovers the coordinate.
    pub proof fn lemma_cell_index_bijective(&self, c: Cordinate)
        requires
            self.spec_in_bounds(c),
        ensures
            0 <= self.cell_index(c) < self.size(),
            self.coord_at(self.cell_index(c)) == c,
    {
        let w = self.spec_width() as int;
        let h = self.spec_height() as int;
        assert(c.x + c.y * w < h * w) by (nonlinear_arith)
            requires
                c.x < w,
                c.y < h,
        ;
        vstd::arithmetic::div_mod::lemma_fundamental_div_mod_converse(
            c.x + c.y * w,
            w,
            c.y as int,
            c.x as int,
        );
    }

    /// Every linear index inside the array belongs to an in-bounds
    /// coordinate, and that coordinate maps back to the index.
    pub proof fn lemma_coord_at_bijective(&self, i: int)
        requires
            0 <= i < self.size(),
        ensures
            self.spec_in_bounds(self.coord_at(i)),
            self.cell_index(self.coord_at(i)) == i,
    {
        let w = self.spec_width() as int;
        let h = self.spec_height() as int;
        assert(w > 0) by (nonlinear_arith)
            requires
                0 <= i < h * w,
                0 <= w,
        ;
        vstd::arithmetic::div_mod::lemma_fundamental_div_mod(i, w);
        vstd::arithmetic::div_mod::lemma_mod_bound(i, w);
        assert((i % w) + (i / w) * w == i) by (nonlinear_arith)
            requires
                w * (i / w) + i % w == i,
        ;
        assert(i / w < h) by (nonlinear_arith)
            requires
                w > 0,
                i < h * w,
                w * (i / w) + i % w == i,
                0 <= i % w < w,
        ;
        assert(i / w >= 0) by (nonlinear_arith)
            requires
                w > 0,
                i >= 0,
                w * (i / w) + i % w == i,
                0 <= i % w < w,
        ;
    }

    /// Builds a board of the given extent where every cell is filled
    /// with a block of an independently drawn random color; the cache
    /// starts wholly absent.
    pub fn new(height: u16, width: u16) -> (r: GameData)
        requires
            height as int * width as int <= u16::MAX as int,
        ensures
            r.wf(),
            r.spec_height() == height,
            r.spec_width() == width,
            forall|i: int| 0 <= i < r.size() ==> r.board()[i] is Block,
            forall|i: int| 0 <= i < r.size() ==> r.cache()[i] is None,
    {
        let size: usize = (height * width) as usize;
        let mut prototype_board: Vec<TileTypes> = Vec::with_capacity(size);
        while prototype_board.len() < size
            invariant
                prototype_board@.len() <= size,
                forall|i: int| 0 <= i < prototype_board@.len() ==> prototype_board@[i] is Block,
            decreases size - prototype_board.len(),
        {
            let sample = rand::random::<u8>();
            prototype_board.push(TileTypes::Block(BlockColor::from_byte(sample)));
        }
        Self::preset_new(height, width, prototype_board)
    }

    /// Builds a board over a caller-supplied tile array; the cache
    /// starts wholly absent.
    pub fn preset_new(height: u16, width: u16, board: Vec<TileTypes>) -> (r: GameData)
        requires
            height as int * width as int <= u16::MAX as int,
            board@.len() == height as int * width as int,
        ensures
            r.wf(),
            r.spec_height() == height,
            r.spec_width() == width,
            r.board() == board@,
            forall|i: int| 0 <= i < r.size() ==> r.cache()[i] is None,
    {
        let size: usize = (height * width) as usize;
        let mut adjacent_cache: Vec<Option<AdjacentData>> = Vec::new();
        while adjacent_cache.len() < size
            invariant
                adjacent_cache@.len() <= size,
                forall|i: int| 0 <= i < adjacent_cache@.len() ==> adjacent_cache@[i] is None,
            decreases size - adjacent_cache.len(),
        {
            adjacent_cache.push(None);
        }
        GameData { game_board: board, adjacent_cache, height, width }
    }

    /// Accepts a coordinate that lies on the board and reports the
    /// exact offending axis otherwise, x before y.
    pub fn in_bounds(&self, location: Cordinate) -> (r: Result<(), BoardError>)
        ensures
            self.spec_in_bounds(location) ==> r == Ok::<(), BoardError>(()),
            !self.spec_in_bounds(location) ==> r == Err::<(), BoardError>(self.oob_error(location)),
    {
        if location.x >= self.width {
            return Err(BoardError::BoundsError { limit: self.width, exception: location.x });
        }
        if location.y >= self.height {
            return Err(BoardError::BoundsError { limit: self.height, exception: location.y });
        }
        Ok(())
    }

    /// The linear index of a coordinate, or the bounds error.
    pub fn cordinates_to_index(&self, location: Cordinate) -> (r: Result<usize, BoardError>)
        requires
            self.wf(),
        ensures
            self.spec_in_bounds(location) ==> (r matches Ok(i) && i as int == self.cell_index(
                location,
            ) && i < self.board().len()),
            !self.spec_in_bounds(location) ==> r == Err::<usize, BoardError>(
                self.oob_error(location),
            ),
    {
        self.in_bounds(location)?;
        proof {
            self.lemma_cell_index_bijective(location);
        }
        Ok((location.x + (location.y * self.width)) as usize)
    }

    /// The tile at an in-bounds coordinate, or the bounds error.
    pub fn get_cell(&self, location: Cordinate) -> (r: Result<TileTypes, BoardError>)
        requires
            self.wf(),
        ensures
            self.spec_in_bounds(location) ==> r == Ok::<TileTypes, BoardError>(
                self.board()[self.cell_index(location)],
            ),
            !self.spec_in_bounds(location) ==> r == Err::<TileTypes, BoardError>(
                self.oob_error(location),
            ),
    {
        Ok(self.game_board[self.cordinates_to_index(location)?])
    }

    /// The cached record at an in-bounds coordinate (which may be
    /// absent), or the bounds error.
    pub fn get_adjacency_status(&self, location: Cordinate) -> (r: Result<
        Option<AdjacentData>,
        BoardError,
    >)
        requires
            self.wf(),
        ensures
            self.spec_in_bounds(location) ==> r == Ok::<Option<AdjacentData>, BoardError>(
                self.cache()[self.cell_index(location)],
            ),
            !self.spec_in_bounds(location) ==> r == Err::<Option<AdjacentData>, BoardError>(
                self.oob_error(location),
            ),
    {
        Ok(self.adjacent_cache[self.cordinates_to_index(location)?])
    }

    /// Every coordinate of the grid, in row-major order: the entry at
    /// linear index `i` is exactly the coordinate whose cell sits at
    /// `i`.
    pub fn all_cords(&self) -> (r: Vec<Cordinate>)
        requires
            self.wf(),
        ensures
            r@.len() == self.size(),
            forall|i: int| 0 <= i < r@.len() ==> r@[i] == self.coord_at(i),
    {
        let length: usize = (self.height * self.width) as usize;
        let mut all_cordinate_vector: Vec<Cordinate> = Vec::with_capacity(length);
        let mut y: u16 = 0;
        while y < self.height
            invariant
                self.wf(),
                y <= self.spec_height(),
                all_cordinate_vector@.len() == y as int * self.spec_width() as int,
                forall|i: int| 0 <= i < all_cordinate_vector@.len() ==> all_cordinate_vector@[i]
                    == self.coord_at(i),
            decreases self.spec_height() - y,
        {
            let mut x: u16 = 0;
            proof {
                let w = self.spec_width() as int;
                let h = self.spec_height() as int;
                assert(y as int * w + w == (y as int + 1) * w) by (nonlinear_arith);
                assert((y as int + 1) * w <= h * w) by (nonlinear_arith)
                    requires
                        0 <= w,
                        y as int + 1 <= h,
                ;
            }
            while x < self.width
                invariant
                    self.wf(),
                    y < self.spec_height(),
                    x <= self.spec_width(),
                    all_cordinate_vector@.len() == y as int * self.spec_width() as int + x as int,
                    all_cordinate_vector@.len() <= self.size(),
                    forall|i: int| 0 <= i < all_cordinate_vector@.len() ==> all_cordinate_vector@[i]
                        == self.coord_at(i),
                decreases self.spec_width() - x,
            {
                let c = Cordinate { x, y };
                proof {
                    self.lemma_cell_index_bijective(c);
                }
                all_cordinate_vector.push(c);
                x = x + 1;
            }
            y = y + 1;
        }
        proof {
            assert(all_cordinate_vector@.len() == self.size()) by (nonlinear_arith)
                requires
                    all_cordinate_vector@.len() == self.spec_height() as int
                        * self.spec_width() as int,
                    self.size() == self.spec_height() as int * self.spec_width() as int,
            ;
        }
        all_cordinate_vector
    }

    /// Whether any cell's record is still absent.
    pub fn adjacent_cache_is_dirty(&self) -> (r: bool)
        ensures
            r == exists|i: int| 0 <= i < self.cache().len() && self.cache()[i] is None,
    {
        let mut index: usize = 0;
        while index < self.adjacent_cache.len()
            invariant
                index <= self.cache().len(),
                forall|i: int| 0 <= i < index ==> self.cache()[i] is Some,
            decreases self.cache().len() - index,
        {
            if self.adjacent_cache[index].is_none() {
                return true;
            }
            index = index + 1;
        }
        false
    }

    /// A tile write at `loc` leaves the fresh record of any cell that
    /// is neither `loc` nor one of its neighbors exactly as it was:
    /// such a record compares only tiles that the write did not touch.
    proof fn lemma_record_unaffected(pre: &GameData, post: &GameData, loc: Cordinate, c: Cordinate)
        requires
            pre.spec_width() == post.spec_width(),
            pre.spec_height() == post.spec_height(),
            pre.spec_in_bounds(loc),
            pre.spec_in_bounds(c),
            c != loc,
            forall|d: int| 0 <= d < 4 ==> spec_neighbor(c, d) != Some(loc),
            pre.board().len() == pre.size(),
            post.board().len() == pre.size(),
            forall|j: int|
                0 <= j < pre.size() && j != pre.cell_index(loc) ==> post.board()[j]
                    == pre.board()[j],
        ensures
            post.fresh_record(c) == pre.fresh_record(c),
    {
        pre.lemma_cell_index_bijective(c);
        pre.lemma_cell_index_bijective(loc);
        assert(pre.cell_index(c) != pre.cell_index(loc));
        assert forall|d: int| 0 <= d < 4 implies post.spec_same(c, d) == pre.spec_same(c, d) by {
            match spec_neighbor(c, d) {
                Some(n) => {
                    if pre.spec_in_bounds(n) {
                        pre.lemma_cell_index_bijective(n);
                        assert(n != loc);
                        assert(pre.cell_index(n) != pre.cell_index(loc));
                    }
                },
                None => {},
            }
        }
    }

    /// The record the refresh stores for the in-bounds cell at
    /// `top_cordinates`: each direction holds whether that neighbor is
    /// on the board and carries an equal tile.
    fn compute_adjacency(&self, top_cordinates: Cordinate) -> (r: AdjacentData)
        requires
            self.wf(),
            self.spec_in_bounds(top_cordinates),
        ensures
            r == self.fresh_record(top_cordinates),
    {
        let mut up: Option<bool> = Some(false);
        let mut down: Option<bool> = Some(false);
        let mut left: Option<bool> = Some(false);
        let mut right: Option<bool> = Some(false);
        let adjacent_cords = top_cordinates.adjacent();
        let mut direction: usize = 0;
        while direction < adjacent_cords.len()
            invariant
                self.wf(),
                self.spec_in_bounds(top_cordinates),
                adjacent_cords@.len() == 4,
                forall|d: int| 0 <= d < 4 ==> adjacent_cords@[d] == spec_neighbor(
                    top_cordinates,
                    d,
                ),
                direction <= 4,
                up == Some::<bool>(0 < direction && self.spec_same(top_cordinates, 0)),
                right == Some::<bool>(1 < direction && self.spec_same(top_cordinates, 1)),
                down == Some::<bool>(2 < direction && self.spec_same(top_cordinates, 2)),
                left == Some::<bool>(3 < direction && self.spec_same(top_cordinates, 3)),
            decreases 4 - direction,
        {
            let mut same = false;
            match adjacent_cords[direction] {
                Some(real_adjacent_cords) => {
                    if self.in_bounds(real_adjacent_cords).is_ok() {
                        let top_tile = self.get_cell(top_cordinates).unwrap();
                        let adjacent_tile = self.get_cell(real_adjacent_cords).unwrap();
                        if top_tile == adjacent_tile {
                            same = true;
                        }
                    }
                },
                None => {},
            }
            if same {
                if direction == 0 {
                    up = Some(true);
                } else if direction == 1 {
                    right = Some(true);
                } else if direction == 2 {
                    down = Some(true);
                } else {
                    left = Some(true);
                }
            }
            direction = direction + 1;
        }
        AdjacentData { up, down, left, right }
    }

    /// Recomputes every absent cache record from the current tiles,
    /// cell by cell in row-major order; present records are left
    /// untouched.  Afterwards no record is absent.
    pub fn update_adjacent_cache(&mut self) -> (r: Result<(), BoardError>)
        requires
            old(self).wf(),
        ensures
            final(self).wf(),
            r == Ok::<(), BoardError>(()),
            final(self).board() == old(self).board(),
            final(self).spec_height() == old(self).spec_height(),
            final(self).spec_width() == old(self).spec_width(),
            forall|i: int|
                0 <= i < old(self).size() && old(self).cache()[i] is Some ==> final(self).cache()[i]
                    == old(self).cache()[i],
            forall|i: int| 0 <= i < final(self).size() ==> final(self).cache()[i] is Some,
    {
        let all_cordinates = self.all_cords();
        let mut index: usize = 0;
        while index < all_cordinates.len()
            invariant
                self.wf(),
                self.board() == old(self).board(),
                self.spec_height() == old(self).spec_height(),
                self.spec_width() == old(self).spec_width(),
                all_cordinates@.len() == self.size(),
                forall|i: int| 0 <= i < all_cordinates@.len() ==> all_cordinates@[i]
                    == self.coord_at(i),
                index <= all_cordinates@.len(),
                forall|i: int| 0 <= i < index ==> self.cache()[i] is Some,
                forall|i: int|
                    0 <= i < old(self).size() && old(self).cache()[i] is Some ==> self.cache()[i]
                        == old(self).cache()[i],
            decreases all_cordinates@.len() - index,
        {
            let top_cordinates = all_cordinates[index];
            proof {
                self.lemma_coord_at_bijective(index as int);
            }
            if self.get_adjacency_status(top_cordinates).unwrap().is_none() {
                let record = self.compute_adjacency(top_cordinates);
                let ghost prev = *self;
                self.adjacent_cache[index] = Some(record);
                proof {
                    assert forall|i: int| 0 <= i < self.size() implies self.entry_ok(i) by {
                        if i != index as int {
                            assert(prev.entry_ok(i));
                        }
                    }
                }
            }
            index = index + 1;
        }
        Ok(())
    }

    /// Overwrites an in-bounds cell, invalidates the record of that
    /// cell and of every in-bounds neighbor, and refreshes the cache,
    /// so that afterwards every record is present and agrees with the
    /// new tiles.  An out-of-bounds coordinate is reported and changes
    /// nothing.
    pub fn set_cell(&mut self, location: Cordinate, tile_type: TileTypes) -> (r: Result<
        (),
        BoardError,
    >)
        requires
            old(self).wf(),
        ensures
            final(self).wf(),
            final(self).spec_height() == old(self).spec_height(),
            final(self).spec_width() == old(self).spec_width(),
            !old(self).spec_in_bounds(location) ==> r == Err::<(), BoardError>(
                old(self).oob_error(location),
            ) && *final(self) == *old(self),
            old(self).spec_in_bounds(location) ==> {
                &&& r == Ok::<(), BoardError>(())
                &&& final(self).board() == old(self).board().update(
                    old(self).cell_index(location),
                    tile_type,
                )
            },
            old(self).spec_in_bounds(location) ==> forall|i: int|
                0 <= i < final(self).size() ==> final(self).cache()[i] == Some(
                    final(self).fresh_record(final(self).coord_at(i)),
                ),
    {
        let location_index = self.cordinates_to_index(location)?;
        self.adjacent_cache[location_index] = None;
        proof {
            assert forall|i: int| 0 <= i < self.size() implies self.entry_ok(i) by {
                if i != location_index as int {
                    assert(old(self).entry_ok(i));
                }
            }
        }
        let adjacent_cords = location.adjacent();
        let mut direction: usize = 0;
        while direction < adjacent_cords.len()
            invariant
                self.wf(),
                self.board() == old(self).board(),
                self.spec_height() == old(self).spec_height(),
                self.spec_width() == old(self).spec_width(),
                self.spec_in_bounds(location),
                location_index == self.cell_index(location),
                location_index < self.cache().len(),
                adjacent_cords@.len() == 4,
                forall|d: int| 0 <= d < 4 ==> adjacent_cords@[d] == spec_neighbor(location, d),
                direction <= 4,
                self.cache()[location_index as int] is None,
                forall|d: int|
                    0 <= d < direction ==> (#[trigger] spec_neighbor(location, d) matches Some(n)
                        ==> (self.spec_in_bounds(n) ==> 0 <= self.cell_index(n)
                            < self.cache().len() && self.cache()[self.cell_index(n)] is None)),
                forall|i: int|
                    0 <= i < self.size() && self.cache()[i] is Some ==> self.cache()[i] == old(
                        self,
                    ).cache()[i],
            decreases 4 - direction,
        {
            match adjacent_cords[direction] {
                Some(adjacent_location) => {
                    if self.in_bounds(adjacent_location).is_ok() {
                        let adjacent_location_index = self.cordinates_to_index(adjacent_location)?;
                        let ghost prev = *self;
                        self.adjacent_cache[adjacent_location_index] = None;
                        proof {
                            assert forall|i: int| 0 <= i < self.size() implies self.entry_ok(
                                i,
                            ) by {
                                if i != adjacent_location_index as int {
                                    assert(prev.entry_ok(i));
                                }
                            }
                        }
                    }
                },
                None => {},
            }
            direction = direction + 1;
        }
        let ghost mid = *self;
        self.game_board[location_index] = tile_type;
        proof {
            assert forall|i: int| 0 <= i < self.size() implies self.entry_ok(i) by {
                if self.cache()[i] is Some {
                    mid.lemma_coord_at_bijective(i);
                    let c = mid.coord_at(i);
                    assert(mid.entry_ok(i));
                    assert(c != location);
                    assert forall|d: int| 0 <= d < 4 implies spec_neighbor(c, d) != Some(
                        location,
                    ) by {
                        if spec_neighbor(c, d) == Some(location) {
                            lemma_neighbor_symmetric(c, location, d);
                            assert(mid.cache()[mid.cell_index(c)] is None);
                        }
                    }
                    Self::lemma_record_unaffected(&mid, self, location, c);
                }
            }
        }
        self.update_adjacent_cache()?;
        proof {
            assert forall|i: int| 0 <= i < self.size() implies self.cache()[i] == Some(
                self.fresh_record(self.coord_at(i)),
            ) by {
                assert(self.entry_ok(i));
            }
        }
        Ok(())
    }

    /// Stamps `tile_type` onto every coordinate of the shape offset by
    /// `offset`, cell by cell in shape order.  Only the shape's
    /// maximal corner is checked up front: the ordering invariant
    /// makes that one check cover every element, so an in-bounds
    /// corner means every write succeeds, and an out-of-bounds corner
    /// is reported before anything is written.
    pub fn apply_shape(&mut self, shape: &Shape, offset: Cordinate, tile_type: TileTypes) -> (r:
        Result<(), BoardError>)
        requires
            old(self).wf(),
            shape.wf(),
            offset.x + shape.locations().last().x <= u16::MAX,
            offset.y + shape.locations().last().y <= u16::MAX,
        ensures
            final(self).wf(),
            final(self).spec_height() == old(self).spec_height(),
            final(self).spec_width() == old(self).spec_width(),
            !old(self).spec_in_bounds(coord_plus(shape.locations().last(), offset)) ==> {
                &&& r == Err::<(), BoardError>(
                    old(self).oob_error(coord_plus(shape.locations().last(), offset)),
                )
                &&& *final(self) == *old(self)
            },
            old(self).spec_in_bounds(coord_plus(shape.locations().last(), offset)) ==> {
                &&& r == Ok::<(), BoardError>(())
                &&& forall|i: int|
                    0 <= i < final(self).size() ==> final(self).board()[i] == (if shape.covers(
                        offset,
                        old(self).coord_at(i),
                    ) {
                        tile_type
                    } else {
                        old(self).board()[i]
                    })
                &&& forall|i: int|
                    0 <= i < final(self).size() ==> final(self).cache()[i] == Some(
                        final(self).fresh_record(final(self).coord_at(i)),
                    )
            },
    {
        let last_location = shape.locations[shape.locations.len() - 1];
        let corner = offset.add(last_location);
        self.in_bounds(corner)?;
        let mut k: usize = 0;
        while k < shape.locations.len()
            invariant
                self.wf(),
                shape.wf(),
                self.spec_height() == old(self).spec_height(),
                self.spec_width() == old(self).spec_width(),
                self.size() == old(self).size(),
                offset.x + shape.locations().last().x <= u16::MAX,
                offset.y + shape.locations().last().y <= u16::MAX,
                self.spec_in_bounds(coord_plus(shape.locations().last(), offset)),
                k <= shape.locations().len(),
                forall|i: int|
                    0 <= i < self.size() ==> self.board()[i] == (if shape.covers_prefix(
                        offset,
                        old(self).coord_at(i),
                        k as int,
                    ) {
                        tile_type
                    } else {
                        old(self).board()[i]
                    }),
                k > 0 ==> forall|i: int|
                    0 <= i < self.size() ==> self.cache()[i] == Some(
                        self.fresh_record(self.coord_at(i)),
                    ),
            decreases shape.locations().len() - k,
        {
            let location_item = shape.locations[k];
            proof {
                assert(shape.locations()[k as int].x <= shape.locations().last().x
                    && shape.locations()[k as int].y <= shape.locations().last().y);
            }
            let location = location_item.add(offset);
            assert(self.spec_in_bounds(location));
            let ghost prev = *self;
            self.set_cell(location, tile_type)?;
            proof {
                assert(location == coord_plus(shape.locations()[k as int], offset));
                assert forall|i: int| 0 <= i < self.size() implies self.board()[i] == (
                if shape.covers_prefix(offset, old(self).coord_at(i), k as int + 1) {
                    tile_type
                } else {
                    old(self).board()[i]
                }) by {
                    prev.lemma_coord_at_bijective(i);
                    prev.lemma_cell_index_bijective(location);
                    let c = prev.coord_at(i);
                    if i == prev.cell_index(location) {
                        assert(c == location);
                        assert(c == coord_plus(shape.locations()[k as int], offset));
                        assert(shape.covers_prefix(offset, c, k as int + 1));
                    } else {
                        assert(c != location);
                        if shape.covers_prefix(offset, c, k as int + 1) {
                            let m = choose|m: int|
                                0 <= m < k as int + 1 && c == coord_plus(
                                    #[trigger] shape.locations()[m],
                                    offset,
                                );
                            assert(m < k as int);
                            assert(shape.covers_prefix(offset, c, k as int));
                        }
                        if shape.covers_prefix(offset, c, k as int) {
                            let m = choose|m: int|
                                0 <= m < k as int && c == coord_plus(
                                    #[trigger] shape.locations()[m],
                                    offset,
                                );
                            assert(0 <= m < k as int + 1 && c == coord_plus(
                                shape.locations()[m],
                                offset,
                            ));
                            assert(shape.covers_prefix(offset, c, k as int + 1));
                        }
                    }
                }
            }
            k = k + 1;
        }
        Ok(())
    }

    /// Law: a write then a read of the same in-bounds cell yields the
    /// written tile.  `pre` and `post` are related exactly as
    /// `set_cell`'s contract relates the board before and after a
    /// successful write of `t` at `c`, and the conclusion is the value
    /// `get_cell` returns at `c` afterwards.
    pub proof fn lemma_write_then_read(pre: GameData, post: GameData, c: Cordinate, t: TileTypes)
        requires
            pre.wf(),
            pre.spec_in_bounds(c),
            post.spec_width() == pre.spec_width(),
            post.spec_height() == pre.spec_height(),
            post.board() == pre.board().update(pre.cell_index(c), t),
        ensures
            post.spec_in_bounds(c),
            post.board()[post.cell_index(c)] == t,
    {
        pre.lemma_cell_index_bijective(c);
    }

    /// Whether every stored tile has a text form.
    fn tiles_renderable(&self) -> (r: bool)
        ensures
            r == (forall|i: int|
                0 <= i < self.board().len() ==> renderable(#[trigger] self.board()[i])),
    {
        let mut index: usize = 0;
        while index < self.game_board.len()
            invariant
                index <= self.board().len(),
                forall|j: int| 0 <= j < index ==> renderable(#[trigger] self.board()[j]),
            decreases self.board().len() - index,
        {
            match self.game_board[index] {
                TileTypes::Gap => {},
                TileTypes::Block(_) => {},
                TileTypes::_Firework(_) => {
                    return false;
                },
                TileTypes::_DiscoBall => {
                    return false;
                },
            }
            index = index + 1;
        }
        true
    }

    /// The raw dump: every cell's debug form in row-major order on one
    /// line, no separators.  Fails if any stored tile has no text
    /// form.
    pub fn render_raw(&self) -> (r: Result<String, RenderError>)
        ensures
            r is Ok <==> (forall|i: int|
                0 <= i < self.board().len() ==> renderable(#[trigger] self.board()[i])),
            r matches Ok(s) ==> s@ == raw_text_upto(self.board(), self.board().len() as int)
                + "\n"@,
            r is Err ==> r == Err::<String, RenderError>(RenderError::UnimplementedTile),
    {
        let mut out = String::new();
        proof {
            assert(out@ =~= raw_text_upto(self.board(), 0));
        }
        let mut index: usize = 0;
        while index < self.game_board.len()
            invariant
                index <= self.board().len(),
                forall|j: int| 0 <= j < index ==> renderable(#[trigger] self.board()[j]),
                out@ == raw_text_upto(self.board(), index as int),
            decreases self.board().len() - index,
        {
            let piece = self.game_board[index].debug_text()?;
            out.append(piece.as_str());
            index = index + 1;
        }
        out.append("\n");
        Ok(out)
    }

    /// The boxed board: a double-line frame two characters per cell
    /// wide, rows printed from the highest y down to row zero, each
    /// cell as its display form with the background reset before the
    /// row's closing pipe.  Fails if any stored tile has no text form.
    pub fn render_board(&self) -> (r: Result<String, RenderError>)
        requires
            self.wf(),
        ensures
            r is Ok <==> (forall|i: int|
                0 <= i < self.board().len() ==> renderable(#[trigger] self.board()[i])),
            r matches Ok(s) ==> s@ == board_text(
                self.board(),
                self.spec_width() as int,
                self.spec_height() as int,
            ),
            r is Err ==> r == Err::<String, RenderError>(RenderError::UnimplementedTile),
    {
        if !self.tiles_renderable() {
            return Err(RenderError::UnimplementedTile);
        }
        let ghost w = self.spec_width() as int;
        let ghost h = self.spec_height() as int;
        let edge: usize = 2 * (self.width as usize);
        let mut out = String::new();
        out.append("╔");
        proof {
            assert(out@ =~= "╔"@ + repeat_text("═"@, 0));
        }
        let mut k: usize = 0;
        while k < edge
            invariant
                k <= edge,
                out@ == "╔"@ + repeat_text("═"@, k as int),
            decreases edge - k,
        {
            out.append("═");
            k = k + 1;
        }
        out.append("╗");
        out.append("\n");
        proof {
            assert(out@ =~= box_top(w) + board_rows_upto(self.board(), w, h, 0));
        }
        let mut n: usize = 0;
        while n < self.height as usize
            invariant
                self.wf(),
                w == self.spec_width() as int,
                h == self.spec_height() as int,
                n <= h,
                forall|i: int|
                    0 <= i < self.board().len() ==> renderable(#[trigger] self.board()[i]),
                out@ == box_top(w) + board_rows_upto(self.board(), w, h, n as int),
            decreases h - n,
        {
            let y: u16 = self.height - 1 - (n as u16);
            out.append("║");
            proof {
                assert(out@ =~= box_top(w) + board_rows_upto(self.board(), w, h, n as int) + "║"@
                    + row_display_upto(self.board(), w, y as int, 0));
            }
            let mut x: usize = 0;
            while x < self.width as usize
                invariant
                    self.wf(),
                    w == self.spec_width() as int,
                    h == self.spec_height() as int,
                    n < h,
                    y == h - 1 - n,
                    x <= w,
                    forall|i: int|
                        0 <= i < self.board().len() ==> renderable(#[trigger] self.board()[i]),
                    out@ == box_top(w) + board_rows_upto(self.board(), w, h, n as int) + "║"@
                        + row_display_upto(self.board(), w, y as int, x as int),
                decreases w - x,
            {
                proof {
                    self.lemma_cell_index_bijective(Cordinate { x: x as u16, y });
                }
                let cell_index: usize = (y as usize) * (self.width as usize) + x;
                let piece = self.game_board[cell_index].display_text()?;
                out.append(piece.as_str());
                proof {
                    assert(out@ =~= box_top(w) + board_rows_upto(self.board(), w, h, n as int)
                        + "║"@ + row_display_upto(self.board(), w, y as int, x as int + 1));
                }
                x = x + 1;
            }
            out.append(crate::tiles::reset_bg_str());
            out.append("║");
            out.append("\n");
            proof {
                assert(out@ =~= box_top(w) + board_rows_upto(
                    self.board(),
                    w,
                    h,
                    n as int + 1,
                ));
            }
            n = n + 1;
        }
        out.append("╚");
        proof {
            assert(out@ =~= box_top(w) + board_rows_upto(self.board(), w, h, h) + "╚"@
                + repeat_text("═"@, 0));
        }
        let mut k2: usize = 0;
        while k2 < edge
            invariant
                k2 <= edge,
                edge == 2 * w,
                out@ == box_top(w) + board_rows_upto(self.board(), w, h, h) + "╚"@ + repeat_text(
                    "═"@,
                    k2 as int,
                ),
            decreases edge - k2,
        {
            out.append("═");
            k2 = k2 + 1;
        }
        out.append("╝");
        out.append("\n");
        proof {
            assert(out@ =~= board_text(self.board(), w, h));
        }
        Ok(out)
    }

    /// The info view: each row's cells framed by their horizontal
    /// adjacency markers and labeled with the row's y index, a marker
    /// line between vertically adjacent rows, and a footer of column
    /// labels.  Fails if any stored tile has no text form.
    pub fn render_info(&self) -> (r: Result<String, RenderError>)
        requires
            self.wf(),
        ensures
            r is Ok <==> (forall|i: int|
                0 <= i < self.board().len() ==> renderable(#[trigger] self.board()[i])),
            r matches Ok(s) ==> s@ == info_text(
                self.board(),
                self.cache(),
                self.spec_width() as int,
                self.spec_height() as int,
            ),
            r is Err ==> r == Err::<String, RenderError>(RenderError::UnimplementedTile),
    {
        if !self.tiles_renderable() {
            return Err(RenderError::UnimplementedTile);
        }
        let ghost w = self.spec_width() as int;
        let ghost h = self.spec_height() as int;
        let ghost board = self.board();
        let ghost cache = self.cache();
        let mut out = String::new();
        proof {
            assert(out@ =~= info_lines_upto(board, cache, w, h, 0));
        }
        let mut n: usize = 0;
        while n < self.height as usize
            invariant
                self.wf(),
                w == self.spec_width() as int,
                h == self.spec_height() as int,
                board == self.board(),
                cache == self.cache(),
                n <= h,
                forall|i: int|
                    0 <= i < self.board().len() ==> renderable(#[trigger] self.board()[i]),
                out@ == info_lines_upto(board, cache, w, h, n as int),
            decreases h - n,
        {
            let y: u16 = self.height - 1 - (n as u16);
            let row_label = padded_u16_text(y, 2);
            out.append(row_label.as_str());
            proof {
                assert(out@ =~= info_lines_upto(board, cache, w, h, n as int) + pad_left(
                    dec_seq(y as int),
                    2,
                ) + info_cells_upto(board, cache, w, y as int, 0));
            }
            let mut x: usize = 0;
            while x < self.width as usize
                invariant
                    self.wf(),
                    w == self.spec_width() as int,
                    h == self.spec_height() as int,
                    board == self.board(),
                    cache == self.cache(),
                    n < h,
                    y == h - 1 - n,
                    x <= w,
                    forall|i: int|
                        0 <= i < self.board().len() ==> renderable(#[trigger] self.board()[i]),
                    out@ == info_lines_upto(board, cache, w, h, n as int) + pad_left(
                        dec_seq(y as int),
                        2,
                    ) + info_cells_upto(board, cache, w, y as int, x as int),
                decreases w - x,
            {
                proof {
                    self.lemma_cell_index_bijective(Cordinate { x: x as u16, y });
                }
                let cell_index: usize = (y as usize) * (self.width as usize) + x;
                let entry = self.adjacent_cache[cell_index];
                out.append(left_mark_text(&entry));
                let piece = self.game_board[cell_index].debug_text()?;
                out.append(piece.as_str());
                out.append(right_mark_text(&entry));
                proof {
                    assert(out@ =~= info_lines_upto(board, cache, w, h, n as int) + pad_left(
                        dec_seq(y as int),
                        2,
                    ) + info_cells_upto(board, cache, w, y as int, x as int + 1));
                }
                x = x + 1;
            }
            out.append("\n");
            if n < (self.height as usize) - 1 {
                let sep_label = u16_text(n as u16);
                out.append(sep_label.as_str());
                out.append(" ");
                proof {
                    assert(out@ =~= info_lines_upto(board, cache, w, h, n as int) + info_row_line(
                        board,
                        cache,
                        w,
                        y as int,
                    ) + dec_seq(n as int) + " "@ + info_sep_cols_upto(cache, w, y as int, 0));
                }
                let mut col: usize = 0;
                while col < self.width as usize
                    invariant
                        self.wf(),
                        w == self.spec_width() as int,
                        h == self.spec_height() as int,
                        board == self.board(),
                        cache == self.cache(),
                        n < h - 1,
                        y == h - 1 - n,
                        col <= w,
                        out@ == info_lines_upto(board, cache, w, h, n as int) + info_row_line(
                            board,
                            cache,
                            w,
                            y as int,
                        ) + dec_seq(n as int) + " "@ + info_sep_cols_upto(
                            cache,
                            w,
                            y as int,
                            col as int,
                        ),
                    decreases w - col,
                {
                    proof {
                        self.lemma_cell_index_bijective(Cordinate { x: col as u16, y });
                        self.lemma_cell_index_bijective(
                            Cordinate { x: col as u16, y: (y - 1) as u16 },
                        );
                        assert(y as int * w - w == (y as int - 1) * w) by (nonlinear_arith);
                    }
                    let upper_cell_index: usize = (y as usize) * (self.width as usize) + col;
                    let lower_cell_index: usize = upper_cell_index - (self.width as usize);
                    let upper_entry = self.adjacent_cache[upper_cell_index];
                    let lower_entry = self.adjacent_cache[lower_cell_index];
                    proof {
                        assert(self.entry_ok(upper_cell_index as int));
                        assert(self.entry_ok(lower_cell_index as int));
                    }
                    out.append(" ");
                    out.append(down_mark_text(&upper_entry));
                    out.append(up_mark_text(&lower_entry));
                    out.append(" ");
                    proof {
                        assert(out@ =~= info_lines_upto(board, cache, w, h, n as int)
                            + info_row_line(board, cache, w, y as int) + dec_seq(n as int) + " "@
                            + info_sep_cols_upto(cache, w, y as int, col as int + 1));
                    }
                    col = col + 1;
                }
                out.append("\n");
                proof {
                    assert(out@ =~= info_lines_upto(board, cache, w, h, n as int + 1));
                }
            } else {
                proof {
                    assert(out@ =~= info_lines_upto(board, cache, w, h, n as int + 1));
                }
            }
            n = n + 1;
        }
        out.append(" ");
        proof {
            assert(out@ =~= info_lines_upto(board, cache, w, h, h) + " "@ + info_footer_upto(0));
        }
        let mut fcol: usize = 0;
        while fcol < self.width as usize
            invariant
                w == self.spec_width() as int,
                h == self.spec_height() as int,
                board == self.board(),
                cache == self.cache(),
                fcol <= w,
                out@ == info_lines_upto(board, cache, w, h, h) + " "@ + info_footer_upto(
                    fcol as int,
                ),
            decreases w - fcol,
        {
            let column_label = padded_u16_text(fcol as u16, 4);
            out.append(column_label.as_str());
            fcol = fcol + 1;
        }
        out.append("\n");
        proof {
            assert(out@ =~= info_text(board, cache, w, h));
        }
        Ok(out)
    }

    /// Marks every cell's record absent; the tiles are untouched.
    pub fn reset_adjacent_cache(&mut self)
        ensures
            final(self).board() == old(self).board(),
            final(self).spec_height() == old(self).spec_height(),
            final(self).spec_width() == old(self).spec_width(),
            final(self).cache().len() == old(self).cache().len(),
            forall|i: int| 0 <= i < final(self).cache().len() ==> final(self).cache()[i] is None,
            old(self).wf() ==> final(self).wf(),
    {
        let mut index: usize = 0;
        while index < self.adjacent_cache.len()
            invariant
                self.board() == old(self).board(),
                self.spec_height() == old(self).spec_height(),
                self.spec_width() == old(self).spec_width(),
                self.cache().len() == old(self).cache().len(),
                index <= self.cache().len(),
                forall|i: int| 0 <= i < index ==> self.cache()[i] is None,
            decreases self.cache().len() - index,
        {
            self.adjacent_cache[index] = None;
            index = index + 1;
        }
    }
}

} // verus!
