use vstd::prelude::*;
use crate::chance::random_in;
use crate::error::{in_i32, Overflow};
use crate::ground::{
    cell_fits, flatten, grid_view, row_number, lemma_flatten_contains, level_cells, level_fits, level_grid,
    tile_of, tile_wf, tiles_of, Goal, Tile,
};
use crate::menu::{Event, Key};
use crate::player::{agrees, advanced, fresh_player, lemma_controls_kept, lemma_door_outcome, Player, Tick};
use crate::rect::{rect_of, Rect, Rgb};

verus! {

/// The run input for the arrow keys held: both or neither slow down (0),
/// left alone runs left (-1), right alone runs right (1).
pub open spec fn run_input(left: bool, right: bool) -> i8 {
    if (left && right) || (!left && !right) {
        0i8
    } else if left {
        -1i8
    } else {
        1i8
    }
}

/// Neither arrow or both give the run input 0; left alone gives -1 and right
/// alone gives 1.
pub proof fn lemma_run_input(left: bool, right: bool)
    ensures
        run_input(left, right) == 0 <==> left == right,
        run_input(left, right) == -1 <==> left && !right,
        run_input(left, right) == 1 <==> right && !left,
{
}

/// The player with its run input set from the arrow keys held.
pub open spec fn with_input(p: Player, left: bool, right: bool) -> Player {
    Player { input: run_input(left, right), ..p }
}

/// Sets the player's run input from the arrow keys held, then updates the
/// player for one frame (see `Player::update`).
pub fn update(player: &mut Player, left: bool, right: bool, map: &Vec<Vec<Tile>>, canvas_size: (
    u32,
    u32,
)) -> (res: Result<Tick, Overflow>)
    ensures
        old(player).wf() ==> final(player).wf(),
        final(player).input == 0 <==> left == right,
        final(player).input == -1 <==> left && !right,
        final(player).input == 1 <==> right && !left,
        final(player).jump == old(player).jump,
        exists|burst: u32|
            10 <= burst < 20 && agrees(
                #[trigger] advanced(with_input(*old(player), left, right), tiles_of(map@), canvas_size.1, burst),
                res,
                with_input(*old(player), left, right),
                *final(player),
            ),
{
    if (left && right) || (!left && !right) {
        player.input = 0;
    } else if left {
        player.input = -1;
    } else {
        player.input = 1;
    }
    assert(*player == with_input(*old(player), left, right));
    let ghost p0 = *player;
    let res = player.update(map, canvas_size);
    proof {
        let burst = choose|burst: u32|
            10 <= burst < 20 && agrees(
                #[trigger] advanced(p0, tiles_of(map@), canvas_size.1, burst),
                res,
                p0,
                *player,
            );
        lemma_controls_kept(p0, tiles_of(map@), canvas_size.1, burst);
    }
    res
}

/// What the game asks of its caller after an event.
#[derive(Clone, Copy, Debug, PartialEq, Eq, Structural)]
pub enum GameStep {
    /// Go on playing.
    Play,
    /// Back to the menu.
    Leave,
    /// Leave the program.
    Exit,
}

/// A game in progress: the keys held, the player and the current level's tiles.
#[derive(Debug)]
pub struct Game {
    pub left: bool,
    pub right: bool,
    pub player: Player,
    pub map: Vec<Vec<Tile>>,
}

/// The keys held after an event, and what the game asks: closing the window
/// leaves the program, Escape goes back to the menu, the arrows run, Shift
/// holds the jump.
pub open spec fn game_after(g: Game, e: Event) -> (Game, GameStep) {
    match e {
        Event::Quit => (g, GameStep::Exit),
        Event::KeyDown(Key::Left) => (Game { left: true, ..g }, GameStep::Play),
        Event::KeyDown(Key::Right) => (Game { right: true, ..g }, GameStep::Play),
        Event::KeyDown(Key::LShift) => (Game { player: Player { jump: true, ..g.player }, ..g }, GameStep::Play),
        Event::KeyDown(Key::RShift) => (Game { player: Player { jump: true, ..g.player }, ..g }, GameStep::Play),
        Event::KeyDown(Key::Escape) => (g, GameStep::Leave),
        Event::KeyUp(Key::Left) => (Game { left: false, ..g }, GameStep::Play),
        Event::KeyUp(Key::Right) => (Game { right: false, ..g }, GameStep::Play),
        Event::KeyUp(Key::LShift) => (Game { player: Player { jump: false, ..g.player }, ..g }, GameStep::Play),
        Event::KeyUp(Key::RShift) => (Game { player: Player { jump: false, ..g.player }, ..g }, GameStep::Play),
        _ => (g, GameStep::Play),
    }
}

/// During play an arrow pressed is held and an arrow released is let go,
/// whatever it was before; Shift pressed holds the jump and Shift released
/// lets it go. Each of these changes only that key and goes on playing, so
/// after the right arrow is released the next frame does not run right, and
/// after the left arrow is released it does not run left. Escape goes back to
/// the menu and closing the window leaves the program, changing nothing.
pub proof fn lemma_game_keys(g: Game)
    ensures
        ({
            let (a, s) = game_after(g, Event::KeyDown(Key::Escape));
            s == GameStep::Leave && a.left == g.left && a.right == g.right && a.player == g.player && a.map@ == g.map@
        }),
        ({
            let (a, s) = game_after(g, Event::Quit);
            s == GameStep::Exit && a.left == g.left && a.right == g.right && a.player == g.player && a.map@ == g.map@
        }),
        ({
            let (a, s) = game_after(g, Event::KeyDown(Key::Right));
            s == GameStep::Play && a.right && a.left == g.left && a.player == g.player && a.map@ == g.map@
        }),
        ({
            let (a, s) = game_after(g, Event::KeyUp(Key::Right));
            &&& s == GameStep::Play && !a.right && a.left == g.left && a.player == g.player && a.map@ == g.map@
            &&& run_input(a.left, a.right) != 1
        }),
        ({
            let (a, s) = game_after(g, Event::KeyDown(Key::Left));
            s == GameStep::Play && a.left && a.right == g.right && a.player == g.player && a.map@ == g.map@
        }),
        ({
            let (a, s) = game_after(g, Event::KeyUp(Key::Left));
            &&& s == GameStep::Play && !a.left && a.right == g.right && a.player == g.player && a.map@ == g.map@
            &&& run_input(a.left, a.right) != -1
        }),
        ({
            let (a, s) = game_after(g, Event::KeyDown(Key::LShift));
            &&& s == GameStep::Play && a.player.jump && a.left == g.left && a.right == g.right
            &&& a.player == (Player { jump: true, ..g.player }) && a.map@ == g.map@
        }),
        ({
            let (a, s) = game_after(g, Event::KeyDown(Key::RShift));
            &&& s == GameStep::Play && a.player.jump && a.left == g.left && a.right == g.right
            &&& a.player == (Player { jump: true, ..g.player }) && a.map@ == g.map@
        }),
        ({
            let (a, s) = game_after(g, Event::KeyUp(Key::LShift));
            &&& s == GameStep::Play && !a.player.jump && a.left == g.left && a.right == g.right
            &&& a.player == (Player { jump: false, ..g.player }) && a.map@ == g.map@
        }),
        ({
            let (a, s) = game_after(g, Event::KeyUp(Key::RShift));
            &&& s == GameStep::Play && !a.player.jump && a.left == g.left && a.right == g.right
            &&& a.player == (Player { jump: false, ..g.player }) && a.map@ == g.map@
        }),
{
}

impl Game {
    /// A game on the level `map`, with the player at its start point.
    pub fn new(map: Vec<Vec<Tile>>) -> (g: Game)
        ensures
            g.player == fresh_player(rect_of(64, 1312, 64, 64)),
            g.player.wf(),
            g.map@ == map@,
            !g.left,
            !g.right,
    {
        Game { left: false, right: false, player: Player::new(Rect::new(64, 1312, 64, 64)), map }
    }

    /// Handles one event (see `game_after`).
    pub fn handle(&mut self, event: Event) -> (step: GameStep)
        ensures
            (*final(self), step) == game_after(*old(self), event),
    {
        match event {
            Event::Quit => GameStep::Exit,
            Event::KeyDown(key) => match key {
                Key::Left => {
                    self.left = true;
                    GameStep::Play
                },
                Key::Right => {
                    self.right = true;
                    GameStep::Play
                },
                Key::LShift | Key::RShift => {
                    self.player.jump = true;
                    GameStep::Play
                },
                Key::Escape => GameStep::Leave,
                _ => GameStep::Play,
            },
            Event::KeyUp(key) => match key {
                Key::Left => {
                    self.left = false;
                    GameStep::Play
                },
                Key::Right => {
                    self.right = false;
                    GameStep::Play
                },
                Key::LShift | Key::RShift => {
                    self.player.jump = false;
                    GameStep::Play
                },
                _ => GameStep::Play,
            },
            Event::Other => GameStep::Play,
        }
    }

    /// One frame of play (see `update`).
    pub fn tick(&mut self, canvas_size: (u32, u32)) -> (res: Result<Tick, Overflow>)
        ensures
            old(self).player.wf() ==> final(self).player.wf(),
            final(self).map@ == old(self).map@,
            final(self).left == old(self).left,
            final(self).right == old(self).right,
            final(self).player.input == 0 <==> old(self).left == old(self).right,
            final(self).player.input == -1 <==> old(self).left && !old(self).right,
            final(self).player.input == 1 <==> old(self).right && !old(self).left,
            final(self).player.jump == old(self).player.jump,
            exists|burst: u32|
                10 <= burst < 20 && agrees(
                    #[trigger] advanced(
                        with_input(old(self).player, old(self).left, old(self).right),
                        tiles_of(old(self).map@),
                        canvas_size.1,
                        burst,
                    ),
                    res,
                    with_input(old(self).player, old(self).left, old(self).right),
                    final(self).player,
                ),
    {
        update(&mut self.player, self.left, self.right, &self.map, canvas_size)
    }
}

/// Every door of level `level` leads to level `level + 1`: on the tiles built
/// from a level text, an update that reports a next level reports
/// `level + 1`, with the player back at its start point.
pub proof fn lemma_doors_lead_to_next_level(text: Seq<char>, level: i32, p: Player, h: u32, burst: u32)
    requires
        level_fits(text, level as int),
    ensures
        advanced(p, flatten(level_grid(text, level as int)), h, burst) matches Some((q, t)) ==> (
        t.next_level matches Some(n) ==> n == level + 1 && q.rect.x == p.start_pos.0 && q.rect.y
            == p.start_pos.1),
{
    let g = level_grid(text, level as int);
    let tiles = flatten(g);
    lemma_door_outcome(p, tiles, h, burst);
    if let Some((q, t)) = advanced(p, tiles, h, burst) {
        if let Some(n) = t.next_level {
            let goal = choose|goal: Goal| #[trigger] tiles.contains(Tile::Goal(goal)) && goal.dest == n;
            lemma_flatten_contains(g, Tile::Goal(goal));
            let (y, x) = choose|y: int, x: int|
                0 <= y < g.len() && 0 <= x < g[y].len() && g[y][x] == Tile::Goal(goal);
            let cells = level_cells(text);
            let item = cells[y][x];
            assert(g[y][x] == tile_of(item, x, row_number(y), level as int));
            assert(cell_fits(item, x, row_number(y), level as int));
            assert(item == seq!['2']);
        }
    }
}

/// The first door of a sequence of tiles.
pub open spec fn first_door(tiles: Seq<Tile>) -> Option<Goal>
    decreases tiles.len(),
{
    if tiles.len() == 0 {
        None
    } else {
        match first_door(tiles.drop_last()) {
            Some(g) => Some(g),
            None => match tiles.last() {
                Tile::Goal(g) => Some(g),
                _ => None,
            },
        }
    }
}

/// Where the door-opening animation is drawn for a door: a frame twice as
/// wide and three times as high as the tile, centred on it and resting on
/// its top.
pub open spec fn door_anim_rect(g: Goal) -> Rect {
    rect_of(g.draw_rect.x - 64, g.draw_rect.y as int, 128, 192)
}

/// Where the animation of entering the level's first door (in reading
/// order) is drawn; `None` when the level has no door.
pub fn door_rect(map: &Vec<Vec<Tile>>) -> (r: Option<Rect>)
    requires
        forall|t: Tile| #[trigger] tiles_of(map@).contains(t) ==> tile_wf(t),
    ensures
        r == (match first_door(tiles_of(map@)) {
            Some(g) => Some(door_anim_rect(g)),
            None => None,
        }),
{
    let ghost g = grid_view(map@);
    let ghost all = tiles_of(map@);
    let mut found: Option<Goal> = None;
    let mut i: usize = 0;
    assert(g.take(0) =~= Seq::<Seq<Tile>>::empty());
    while i < map.len()
        invariant
            g == grid_view(map@),
            all == tiles_of(map@),
            i <= map@.len(),
            found == first_door(flatten(g.take(i as int))),
        decreases map@.len() - i,
    {
        let row = &map[i];
        assert(g[i as int] == row@);
        let ghost base = flatten(g.take(i as int));
        let mut j: usize = 0;
        assert(base + row@.take(0) =~= base);
        while j < row.len()
            invariant
                g == grid_view(map@),
                i < map@.len(),
                g[i as int] == row@,
                base == flatten(g.take(i as int)),
                j <= row@.len(),
                found == first_door(base + row@.take(j as int)),
            decreases row@.len() - j,
        {
            let t = row[j];
            let ghost pre = base + row@.take(j as int);
            let ghost post = base + row@.take(j + 1);
            assert(post.drop_last() =~= pre);
            assert(post.last() == t);
            if found.is_none() {
                if let Tile::Goal(goal) = t {
                    found = Some(goal);
                }
            }
            j = j + 1;
        }
        assert(row@.take(j as int) =~= row@);
        assert(g.take(i + 1).drop_last() =~= g.take(i as int));
        i = i + 1;
    }
    assert(g.take(i as int) =~= g);
    match found {
        Some(goal) => {
            proof {
                lemma_first_door_in(all);
            }
            Some(Rect::new(goal.draw_rect.x - 64, goal.draw_rect.y, 128, 192))
        },
        None => None,
    }
}

proof fn lemma_first_door_in(tiles: Seq<Tile>)
    ensures
        first_door(tiles) matches Some(g) ==> tiles.contains(Tile::Goal(g)),
    decreases tiles.len(),
{
    if tiles.len() > 0 {
        lemma_first_door_in(tiles.drop_last());
        if let Some(g) = first_door(tiles.drop_last()) {
            let k = choose|k: int| 0 <= k < tiles.drop_last().len() && tiles.drop_last()[k] == Tile::Goal(g);
            assert(tiles[k] == Tile::Goal(g));
        } else if let Tile::Goal(g) = tiles.last() {
            assert(tiles[tiles.len() - 1] == Tile::Goal(g));
        }
    }
}

/// The part of the door animation's sprite sheet for frame `i`.
pub fn door_frame(i: i32) -> (r: Rect)
    requires
        in_i32(32 * i),
    ensures
        r == rect_of(32 * i, 0, 32, 48),
{
    Rect::new(32 * i, 0, 32, 48)
}

/// The colour of a jump particle for a pick `0..4`.
pub open spec fn jump_color(pick: u32) -> Rgb {
    if pick == 0 {
        Rgb(204, 66, 94)
    } else if pick == 1 {
        Rgb(163, 40, 88)
    } else if pick == 2 {
        Rgb(107, 201, 108)
    } else {
        Rgb(91, 166, 117)
    }
}

/// The colour of a jump particle for a pick `0..4`.
pub fn jump_color_of(pick: u32) -> (c: Rgb)
    requires
        pick < 4,
    ensures
        c == jump_color(pick),
{
    if pick == 0 {
        Rgb(204, 66, 94)
    } else if pick == 1 {
        Rgb(163, 40, 88)
    } else if pick == 2 {
        Rgb(107, 201, 108)
    } else {
        Rgb(91, 166, 117)
    }
}

/// The colour of a jump particle, picked at random among four: the colour
/// of a pick drawn from `0..4`.
pub fn jump_particle_color() -> (c: Rgb)
    ensures
        exists|pick: u32| pick < 4 && c == jump_color(pick),
{
    let pick = random_in(0, 4);
    jump_color_of(pick)
}

} // verus!
