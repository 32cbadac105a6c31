use vstd::prelude::*;
use crate::error::{in_i32, Overflow};
use crate::rect::{rect_of, Rect, Rgb};
use crate::text::{
    chars_of, decimal, decimal_chars, line_ranges, range_texts, ranges_within, split_on,
    split_ranges, text_lines,
};

verus! {

/// A solid block of ground.
#[derive(Clone, Copy, Debug, PartialEq, Eq, Structural)]
pub struct Ground {
    /// The block in level coordinates (16 units per tile).
    pub rect: Rect,
    /// The block on the screen (64 pixels per tile).
    pub draw_rect: Rect,
}

/// A door to another level.
#[derive(Clone, Copy, Debug, PartialEq, Eq, Structural)]
pub struct Goal {
    pub rect: Rect,
    pub draw_rect: Rect,
    /// The level this door leads to.
    pub dest: i32,
}

/// A spike that kills the player.
#[derive(Clone, Copy, Debug, PartialEq, Eq, Structural)]
pub struct Spike {
    pub rect: Rect,
    pub draw_rect: Rect,
}

/// One tile of a level.
#[derive(Clone, Copy, Debug, PartialEq, Eq, Structural)]
pub enum Tile {
    Air,
    Ground(Ground),
    Goal(Goal),
    Spike(Spike),
}

/// A filled rectangle to draw, with its colour.
#[derive(Clone, Copy, Debug, PartialEq, Eq, Structural)]
pub struct Paint {
    pub color: Rgb,
    pub rect: Rect,
}

/// The level rectangle of the tile at column `x`, row `y`.
pub open spec fn tile_rect(x: int, y: int) -> Rect {
    rect_of(x * 16, y * 16, 16, 16)
}

/// The screen rectangle of the tile at column `x`, row `y`.
pub open spec fn tile_draw_rect(x: int, y: int) -> Rect {
    rect_of(x * 64, y * 64, 64, 64)
}

/// Whether the tile position can be scaled to the screen without overflow.
pub open spec fn tile_fits(x: int, y: int) -> bool {
    in_i32(x * 64) && in_i32(y * 64)
}

impl Ground {
    /// The ground block at column `x`, row `y`.
    pub fn new(x: i32, y: i32) -> (r: Ground)
        requires
            tile_fits(x as int, y as int),
        ensures
            r == (Ground { rect: tile_rect(x as int, y as int), draw_rect: tile_draw_rect(x as int, y as int) }),
    {
        Ground {
            rect: Rect::new(x * 16, y * 16, 16, 16),
            draw_rect: Rect::new(x * 64, y * 64, 64, 64),
        }
    }
}

impl Goal {
    /// The door at column `x`, row `y`, leading to level `dest`.
    pub fn new(x: i32, y: i32, dest: i32) -> (r: Goal)
        requires
            tile_fits(x as int, y as int),
        ensures
            r == (Goal {
                rect: tile_rect(x as int, y as int),
                draw_rect: tile_draw_rect(x as int, y as int),
                dest,
            }),
    {
        Goal {
            rect: Rect::new(x * 16, y * 16, 16, 16),
            draw_rect: Rect::new(x * 64, y * 64, 64, 64),
            dest,
        }
    }
}

impl Spike {
    /// The spike at column `x`, row `y`.
    pub fn new(x: i32, y: i32) -> (r: Spike)
        requires
            tile_fits(x as int, y as int),
        ensures
            r == (Spike { rect: tile_rect(x as int, y as int), draw_rect: tile_draw_rect(x as int, y as int) }),
    {
        Spike {
            rect: Rect::new(x * 16, y * 16, 16, 16),
            draw_rect: Rect::new(x * 64, y * 64, 64, 64),
        }
    }
}

/// How a tile is drawn: ground black, doors dark green, spikes dark red, air not at all.
pub open spec fn map_paint(m: Tile) -> Option<Paint> {
    match m {
        Tile::Ground(g) => Some(Paint { color: Rgb(0, 0, 0), rect: g.draw_rect }),
        Tile::Goal(g) => Some(Paint { color: Rgb(0, 100, 0), rect: g.draw_rect }),
        Tile::Spike(s) => Some(Paint { color: Rgb(152, 0, 0), rect: s.draw_rect }),
        Tile::Air => None,
    }
}

impl Tile {
    /// The rectangle to fill for this tile, and its colour.
    pub fn draw(&self) -> (r: Option<Paint>)
        ensures
            r == map_paint(*self),
    {
        match self {
            Tile::Ground(g) => Some(Paint { color: Rgb(0, 0, 0), rect: g.draw_rect }),
            Tile::Goal(g) => Some(Paint { color: Rgb(0, 100, 0), rect: g.draw_rect }),
            Tile::Spike(s) => Some(Paint { color: Rgb(152, 0, 0), rect: s.draw_rect }),
            Tile::Air => None,
        }
    }
}

// ---------------------------------------------------------------------------
// Level files
// ---------------------------------------------------------------------------

/// The items of a level text: its lines, each split at commas.
pub open spec fn level_cells(text: Seq<char>) -> Seq<Seq<Seq<char>>> {
    text_lines(text).map_values(|l: Seq<char>| split_on(l, ','))
}

/// The tile an item stands for: `1` ground, `2` a door to the next level,
/// `3` a spike, anything else air.
pub open spec fn tile_of(item: Seq<char>, x: int, y: int, level: int) -> Tile {
    if item == seq!['1'] {
        Tile::Ground(Ground { rect: tile_rect(x, y), draw_rect: tile_draw_rect(x, y) })
    } else if item == seq!['2'] {
        Tile::Goal(Goal { rect: tile_rect(x, y), draw_rect: tile_draw_rect(x, y), dest: (level + 1) as i32 })
    } else if item == seq!['3'] {
        Tile::Spike(Spike { rect: tile_rect(x, y), draw_rect: tile_draw_rect(x, y) })
    } else {
        Tile::Air
    }
}

pub open spec fn is_solid_item(item: Seq<char>) -> bool {
    item == seq!['1'] || item == seq!['2'] || item == seq!['3']
}

/// Whether building the tile for this item stays within `i32`.
pub open spec fn cell_fits(item: Seq<char>, x: int, y: int, level: int) -> bool {
    &&& is_solid_item(item) ==> tile_fits(x, y)
    &&& item == seq!['2'] ==> level + 1 <= i32::MAX
}

/// The row number a tile of line `y` gets: the line's index as an `i32`,
/// wrapping around past `i32::MAX`.
pub open spec fn row_number(y: int) -> int {
    (y as i32) as int
}

/// Whether every line has at most `i32::MAX` items to count, and every tile
/// of the level text can be built within `i32`.
pub open spec fn level_fits(text: Seq<char>, level: int) -> bool {
    let cells = level_cells(text);
    &&& forall|y: int| 0 <= y < cells.len() ==> (#[trigger] cells[y]).len() <= i32::MAX
    &&& forall|y: int, x: int|
        0 <= y < cells.len() && 0 <= x < cells[y].len() ==> #[trigger] cell_fits(
            cells[y][x],
            x,
            row_number(y),
            level,
        )
}

/// The tiles of a level text, row by row.
pub open spec fn level_grid(text: Seq<char>, level: int) -> Seq<Seq<Tile>> {
    let cells = level_cells(text);
    Seq::new(
        cells.len(),
        |y: int| Seq::new(cells[y].len(), |x: int| tile_of(cells[y][x], x, row_number(y), level)),
    )
}

/// The tiles of a map, row by row.
pub open spec fn grid_view(map: Seq<Vec<Tile>>) -> Seq<Seq<Tile>> {
    map.map_values(|row: Vec<Tile>| row@)
}

/// The tiles of a grid in reading order: row by row, left to right.
pub open spec fn flatten(g: Seq<Seq<Tile>>) -> Seq<Tile>
    decreases g.len(),
{
    if g.len() == 0 {
        Seq::<Tile>::empty()
    } else {
        flatten(g.drop_last()) + g.last()
    }
}

/// The tiles of a map in reading order.
pub open spec fn tiles_of(map: Seq<Vec<Tile>>) -> Seq<Tile> {
    flatten(grid_view(map))
}

/// Whether a tile's rectangles are well formed.
pub open spec fn tile_wf(t: Tile) -> bool {
    match t {
        Tile::Ground(g) => g.rect.wf() && g.draw_rect.wf(),
        Tile::Goal(g) => g.rect.wf() && g.draw_rect.wf(),
        Tile::Spike(s) => s.rect.wf() && s.draw_rect.wf(),
        Tile::Air => true,
    }
}

pub proof fn lemma_flatten_contains(g: Seq<Seq<Tile>>, t: Tile)
    requires
        flatten(g).contains(t),
    ensures
        exists|y: int, x: int| 0 <= y < g.len() && 0 <= x < g[y].len() && g[y][x] == t,
    decreases g.len(),
{
    if g.len() > 0 {
        let f = flatten(g.drop_last());
        let k = choose|k: int| 0 <= k < flatten(g).len() && flatten(g)[k] == t;
        if k < f.len() {
            assert(f[k] == t);
            lemma_flatten_contains(g.drop_last(), t);
            let (y, x) = choose|y: int, x: int|
                0 <= y < g.drop_last().len() && 0 <= x < g.drop_last()[y].len() && g.drop_last()[y][x] == t;
            assert(g[y][x] == t);
        } else {
            assert(g[g.len() - 1][k - f.len()] == t);
        }
    }
}

/// Every tile of a level built from a text has well-formed rectangles.
pub proof fn lemma_level_tiles_wf(text: Seq<char>, level: int)
    ensures
        forall|t: Tile| #[trigger] flatten(level_grid(text, level)).contains(t) ==> tile_wf(t),
{
    let g = level_grid(text, level);
    assert forall|t: Tile| #[trigger] flatten(g).contains(t) implies tile_wf(t) by {
        lemma_flatten_contains(g, t);
        let (y, x) = choose|y: int, x: int| 0 <= y < g.len() && 0 <= x < g[y].len() && g[y][x] == t;
        assert(t == tile_of(level_cells(text)[y][x], x, row_number(y), level));
    }
}

/// The tile for the item `v[lo..hi]`, or `None` when it cannot be built within `i32`.
fn tile_at(v: &Vec<char>, lo: usize, hi: usize, x: i32, y: i32, level: i32) -> (r: Option<Tile>)
    requires
        lo <= hi <= v@.len(),
    ensures
        r is Some <==> cell_fits(v@.subrange(lo as int, hi as int), x as int, y as int, level as int),
        r matches Some(t) ==> t == tile_of(v@.subrange(lo as int, hi as int), x as int, y as int, level as int),
{
    let ghost item = v@.subrange(lo as int, hi as int);
    if hi - lo != 1 {
        assert(item.len() != 1);
        assert(item != seq!['1'] && item != seq!['2'] && item != seq!['3']);
        return Some(Tile::Air);
    }
    let c = v[lo];
    assert(item =~= seq![c]);
    assert(item[0] == c);
    assert(seq!['1'][0] == '1' && seq!['2'][0] == '2' && seq!['3'][0] == '3');
    if c != '1' && c != '2' && c != '3' {
        return Some(Tile::Air);
    }
    if x < -33554432 || x > 33554431 || y < -33554432 || y > 33554431 {
        return None;
    }
    if c == '1' {
        Some(Tile::Ground(Ground::new(x, y)))
    } else if c == '2' {
        if level == i32::MAX {
            return None;
        }
        Some(Tile::Goal(Goal::new(x, y, level + 1)))
    } else {
        Some(Tile::Spike(Spike::new(x, y)))
    }
}

/// Builds the tiles of a level from the text of its file: one row per line,
/// one tile per comma-separated item. Fails when a tile's position or the
/// next level's number would leave `i32`.
pub fn read(contents: &str, level: i32) -> (r: Result<Vec<Vec<Tile>>, Overflow>)
    ensures
        r is Ok <==> level_fits(contents@, level as int),
        r matches Ok(map) ==> grid_view(map@) == level_grid(contents@, level as int),
        r matches Ok(map) ==> forall|t: Tile| #[trigger] tiles_of(map@).contains(t) ==> tile_wf(t),
{
    let v = chars_of(contents);
    let lines = line_ranges(&v);
    let ghost text = v@;
    let ghost cells = level_cells(text);
    let ghost grid = level_grid(text, level as int);
    assert(cells.len() == lines@.len());
    let mut map: Vec<Vec<Tile>> = Vec::new();
    let mut y: usize = 0;
    while y < lines.len()
        invariant
            text == v@,
            text == contents@,
            cells == level_cells(text),
            grid == level_grid(text, level as int),
            cells.len() == lines@.len(),
            range_texts(v@, lines@) == text_lines(text),
            ranges_within(lines@, 0, v@.len() as int),
            y <= lines@.len(),
            grid_view(map@) == grid.take(y as int),
            forall|yy: int| 0 <= yy < y ==> (#[trigger] cells[yy]).len() <= i32::MAX,
            forall|yy: int, x: int|
                0 <= yy < y && 0 <= x < cells[yy].len() ==> #[trigger] cell_fits(
                    cells[yy][x],
                    x,
                    row_number(yy),
                    level as int,
                ),
        decreases lines@.len() - y,
    {
        let (a, b) = lines[y];
        assert(lines@[y as int].0 <= lines@[y as int].1 <= v@.len());
        let items = split_ranges(&v, a, b, ',');
        assert(range_texts(v@, lines@)[y as int] == v@.subrange(a as int, b as int));
        assert(cells[y as int] == range_texts(v@, items@));
        if items.len() > 2147483647 {
            assert(cells[y as int].len() > i32::MAX);
            assert(!level_fits(contents@, level as int));
            return Err(Overflow);
        }
        #[verifier::truncate]
        let ry = y as i32;
        assert(ry == row_number(y as int));
        let mut row: Vec<Tile> = Vec::new();
        let mut x: usize = 0;
        while x < items.len()
            invariant
                cells[y as int] == range_texts(v@, items@),
                ranges_within(items@, a as int, b as int),
                a <= b <= v@.len(),
                items@.len() <= i32::MAX,
                ry == row_number(y as int),
                y < lines@.len(),
                cells.len() == lines@.len(),
                x <= items@.len(),
                grid == level_grid(text, level as int),
                cells == level_cells(text),
                text == v@,
                text == contents@,
                row@ == grid[y as int].take(x as int),
                forall|xx: int|
                    0 <= xx < x ==> #[trigger] cell_fits(cells[y as int][xx], xx, row_number(y as int), level as int),
            decreases items@.len() - x,
        {
            let (c, d) = items[x];
            assert(items@[x as int].0 <= items@[x as int].1 <= b);
            assert(range_texts(v@, items@)[x as int] == v@.subrange(c as int, d as int));
            match tile_at(&v, c, d, x as i32, ry, level) {
                Some(t) => {
                    row.push(t);
                },
                None => {
                    assert(!cell_fits(cells[y as int][x as int], x as int, row_number(y as int), level as int));
                    assert(!level_fits(contents@, level as int));
                    return Err(Overflow);
                },
            }
            x = x + 1;
            assert(row@ =~= grid[y as int].take(x as int));
        }
        assert(row@ =~= grid[y as int]);
        let ghost before = grid_view(map@);
        map.push(row);
        assert(grid_view(map@) =~= before.push(grid[y as int]));
        y = y + 1;
        assert(grid_view(map@) =~= grid.take(y as int));
    }
    assert(grid_view(map@) =~= grid);
    proof {
        lemma_level_tiles_wf(text, level as int);
    }
    Ok(map)
}

/// The text written to the save file when a level starts: its number in decimal.
pub fn save_text(level: i32) -> (r: Vec<char>)
    ensures
        r@ == decimal(level as int),
{
    decimal_chars(level)
}

} // verus!
