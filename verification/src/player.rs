use vstd::prelude::*;
use crate::chance::random_in;
use crate::error::{in_i32, Overflow};
use crate::ground::{flatten, grid_view, tiles_of, Goal, Ground, Spike, Tile};
use crate::rect::{overlaps, rect_of, Rect};
use crate::text::{decimal, decimal_chars};

verus! {

/// A pair of integers: a position or a velocity.
#[derive(Clone, Copy, Debug, PartialEq, Eq, Structural)]
pub struct Vec2(pub i32, pub i32);

/// The result of `clamp`: each number trimmed into its range, the first
/// into `min.0..=max.0` and the second into `min.1..=max.1`.
pub open spec fn clamped(num: Vec2, min: Vec2, max: Vec2) -> Vec2 {
    Vec2(
        if num.0 < min.0 {
            min.0
        } else if num.0 > max.0 {
            max.0
        } else {
            num.0
        },
        if num.1 < min.1 {
            min.1
        } else if num.1 > max.1 {
            max.1
        } else {
            num.1
        },
    )
}

/// Trims the numbers of a vector into the range of two others.
pub fn clamp(num: &Vec2, min: &Vec2, max: &Vec2) -> (ans: Vec2)
    ensures
        ans == clamped(*num, *min, *max),
{
    let mut ans = Vec2(num.0, num.1);
    if num.0 < min.0 {
        ans.0 = min.0
    } else if num.0 > max.0 {
        ans.0 = max.0
    }
    if num.1 < min.1 {
        ans.1 = min.1
    } else if num.1 > max.1 {
        ans.1 = max.1
    }
    ans
}

/// The player character: its position in level units (`rect`), where it is
/// drawn on the screen (`draw_rect`, four times larger), and its motion.
#[derive(Clone, Copy, Debug, PartialEq, Eq, Structural)]
pub struct Player {
    pub rect: Rect,
    /// Where the player starts the level and comes back to after dying.
    pub start_pos: Vec2,
    pub previous_position: Rect,
    pub draw_rect: Rect,
    pub vel: Vec2,
    pub min_vel: Vec2,
    pub max_vel: Vec2,
    /// -1 to run left, 1 to run right, 0 to slow down.
    pub input: i8,
    /// Whether the jump key is held.
    pub jump: bool,
    pub grounded: bool,
    pub death_count: u16,
    pub animation_num: i32,
    pub particle_delay: i32,
}

/// What happened in one update of the player, for the caller to show.
#[derive(Clone, Copy, Debug, PartialEq, Eq, Structural)]
pub struct Tick {
    /// The level to go to, when the player reached a door.
    pub next_level: Option<i32>,
    /// Whether the player died (and went back to the start).
    pub died: bool,
    /// The top-left corner of the screen rectangle before the update.
    pub burst_origin: Vec2,
    /// The velocity the player moved with in this update.
    pub burst_vel: Vec2,
    /// The number of particles a fresh jump throws, when one started.
    pub jump_burst: Option<u32>,
}

/// Integer division by four, rounding toward zero as Rust does.
pub open spec fn quarter(v: int) -> int {
    if v >= 0 {
        v / 4
    } else {
        -((-v) / 4)
    }
}

/// `clamp` fits both numbers into their ranges, and leaves numbers already
/// within them unchanged.
pub proof fn lemma_clamp_fits(num: Vec2, min: Vec2, max: Vec2)
    requires
        min.0 <= max.0,
        min.1 <= max.1,
    ensures
        min.0 <= clamped(num, min, max).0 <= max.0,
        min.1 <= clamped(num, min, max).1 <= max.1,
        min.0 <= num.0 <= max.0 && min.1 <= num.1 <= max.1 ==> clamped(num, min, max) == num,
{
}

/// The player that `Player::new` builds for a screen rectangle.
pub open spec fn fresh_player(r: Rect) -> Player {
    let small = rect_of(quarter(r.x as int), quarter(r.y as int), ((r.w as u32) / 4) as int, ((r.h as u32) / 4) as int);
    Player {
        draw_rect: rect_of(r.x as int, r.y + 1, r.w as u32 as int, r.h as u32 as int),
        rect: small,
        start_pos: Vec2(quarter(r.x as int) as i32, quarter(r.y as int) as i32),
        previous_position: small,
        vel: Vec2(0i32, 0i32),
        min_vel: Vec2(-2i32, -8i32),
        max_vel: Vec2(2i32, 8i32),
        input: 0,
        jump: false,
        grounded: false,
        death_count: 0,
        animation_num: 0,
        particle_delay: 0,
    }
}

// ---------------------------------------------------------------------------
// Collisions
// ---------------------------------------------------------------------------

/// The destination of the first door, in reading order, that `r` overlaps.
pub open spec fn first_goal(tiles: Seq<Tile>, r: Rect) -> Option<i32>
    decreases tiles.len(),
{
    if tiles.len() == 0 {
        None
    } else {
        match first_goal(tiles.drop_last(), r) {
            Some(d) => Some(d),
            None => match tiles.last() {
                Tile::Goal(g) => if overlaps(r, g.rect) {
                    Some(g.dest)
                } else {
                    None
                },
                _ => None,
            },
        }
    }
}

/// The ground blocks and spikes that `r` overlaps, in reading order.
pub open spec fn contacts(tiles: Seq<Tile>, r: Rect) -> Seq<Tile>
    decreases tiles.len(),
{
    if tiles.len() == 0 {
        Seq::<Tile>::empty()
    } else {
        let c = contacts(tiles.drop_last(), r);
        match tiles.last() {
            Tile::Ground(g) => if overlaps(r, g.rect) {
                c.push(tiles.last())
            } else {
                c
            },
            Tile::Spike(s) => if overlaps(r, s.rect) {
                c.push(tiles.last())
            } else {
                c
            },
            _ => c,
        }
    }
}

/// One horizontal contact: moving right, ground puts the player against its
/// left side; moving left, against its right side; a spike still overlapped
/// kills (-1). `None` when the new position leaves `i32`.
pub open spec fn step_x(t: Tile, r: Rect, ret: i32, vx: i32) -> Option<(Rect, i32)> {
    if vx > 0 {
        match t {
            Tile::Ground(g) => if in_i32(g.rect.x - r.w) {
                Some((Rect { x: (g.rect.x - r.w) as i32, ..r }, ret))
            } else {
                None
            },
            Tile::Spike(s) => Some((r, if overlaps(r, s.rect) { -1i32 } else { ret })),
            _ => Some((r, ret)),
        }
    } else if vx < 0 {
        match t {
            Tile::Ground(g) => if in_i32(g.rect.w + g.rect.x) {
                Some((Rect { x: (g.rect.w + g.rect.x) as i32, ..r }, ret))
            } else {
                None
            },
            Tile::Spike(s) => Some((r, if overlaps(r, s.rect) { -1i32 } else { ret })),
            _ => Some((r, ret)),
        }
    } else {
        Some((r, ret))
    }
}

/// The horizontal contacts handled in order, from the rectangle `r`.
pub open spec fn pushed_x(tiles: Seq<Tile>, r: Rect, vx: i32) -> Option<(Rect, i32)>
    decreases tiles.len(),
{
    if tiles.len() == 0 {
        Some((r, 0i32))
    } else {
        match pushed_x(tiles.drop_last(), r, vx) {
            Some((r1, ret)) => step_x(tiles.last(), r1, ret, vx),
            None => None,
        }
    }
}

/// One vertical contact: falling onto ground lands on it (grounded, 1);
/// rising into ground stops below it; a spike still overlapped kills (-1).
pub open spec fn step_y(t: Tile, r: Rect, grounded: bool, ret: i32, vy: i32) -> Option<
    (Rect, bool, i32),
> {
    if vy > 0 {
        match t {
            Tile::Ground(g) => if in_i32(g.rect.y - g.rect.h) {
                Some((Rect { y: (g.rect.y - g.rect.h) as i32, ..r }, true, 1i32))
            } else {
                None
            },
            Tile::Spike(s) => Some((r, grounded, if overlaps(r, s.rect) { -1i32 } else { ret })),
            _ => Some((r, grounded, ret)),
        }
    } else if vy < 0 {
        match t {
            Tile::Ground(g) => if in_i32(g.rect.y + r.h) {
                Some((Rect { y: (g.rect.y + r.h) as i32, ..r }, grounded, ret))
            } else {
                None
            },
            Tile::Spike(s) => Some((r, grounded, if overlaps(r, s.rect) { -1i32 } else { ret })),
            _ => Some((r, grounded, ret)),
        }
    } else {
        Some((r, grounded, ret))
    }
}

/// The vertical contacts handled in order.
pub open spec fn pushed_y(tiles: Seq<Tile>, r: Rect, grounded: bool, vy: i32) -> Option<
    (Rect, bool, i32),
>
    decreases tiles.len(),
{
    if tiles.len() == 0 {
        Some((r, grounded, 0i32))
    } else {
        match pushed_y(tiles.drop_last(), r, grounded, vy) {
            Some((r1, g1, ret)) => step_y(tiles.last(), r1, g1, ret, vy),
            None => None,
        }
    }
}

/// Rising into ground stops below it: moving up against the blocks and
/// spikes `tiles`, the rectangle keeps its column, its size and whether it
/// stood on ground, nothing reports a landing, and its top ends at the bottom
/// edge of one of the ground blocks (its y is that block's y plus the
/// rectangle's height), never above a block; with no ground block it stays
/// where it was, and a death is reported exactly when a spike among the
/// tiles overlaps it.
pub proof fn lemma_rising_stops_below(tiles: Seq<Tile>, r: Rect, grounded: bool, vy: i32)
    requires
        vy < 0,
    ensures
        pushed_y(tiles, r, grounded, vy) matches Some((r2, g2, ret)) ==> {
            &&& r2.x == r.x && r2.w == r.w && r2.h == r.h
            &&& g2 == grounded
            &&& ret == 0 || ret == -1
            &&& (forall|g: Ground| !#[trigger] tiles.contains(Tile::Ground(g))) ==> r2.y == r.y
            &&& (exists|g: Ground| #[trigger] tiles.contains(Tile::Ground(g))) ==> exists|g: Ground|
                #[trigger] tiles.contains(Tile::Ground(g)) && r2.y == g.rect.y + r.h
            &&& (forall|g: Ground| !#[trigger] tiles.contains(Tile::Ground(g))) ==> (ret == -1 <==> exists|
                sp: Spike,
            | #[trigger] tiles.contains(Tile::Spike(sp)) && overlaps(r, sp.rect))
        },
    decreases tiles.len(),
{
    if tiles.len() > 0 {
        let init = tiles.drop_last();
        lemma_rising_stops_below(init, r, grounded, vy);
        assert forall|t: Tile| #[trigger] init.contains(t) implies tiles.contains(t) by {
            let k = choose|k: int| 0 <= k < init.len() && init[k] == t;
            assert(tiles[k] == t);
        }
        assert(tiles[tiles.len() - 1] == tiles.last());
        if let Some((r2, g2, ret)) = pushed_y(tiles, r, grounded, vy) {
            if let Tile::Ground(g) = tiles.last() {
                assert(tiles.contains(Tile::Ground(g)));
            } else {
                lemma_spike_kills(tiles, r, pushed_y(init, r, grounded, vy) matches Some((_, _, -1)), ret == -1);
                if exists|g: Ground| #[trigger] tiles.contains(Tile::Ground(g)) {
                    let g = choose|g: Ground| #[trigger] tiles.contains(Tile::Ground(g));
                    let k = choose|k: int| 0 <= k < tiles.len() && tiles[k] == Tile::Ground(g);
                    assert(k != tiles.len() - 1);
                    assert(init[k] == Tile::Ground(g));
                    assert(init.contains(Tile::Ground(g)));
                }
            }
        }
    }
}

/// The step shared by the laws on pushes: with no ground block among the
/// tiles and the last tile no ground block, a spike among them overlaps `r`
/// exactly when one among all but the last does or the last one is such a
/// spike; `before` and `after` say whether a death was reported before and
/// after the last tile.
proof fn lemma_spike_kills(tiles: Seq<Tile>, r: Rect, before: bool, after: bool)
    requires
        tiles.len() > 0,
        !(tiles.last() is Ground),
        (forall|g: Ground| !#[trigger] tiles.drop_last().contains(Tile::Ground(g))) ==> (before <==> exists|
            sp: Spike,
        | #[trigger] tiles.drop_last().contains(Tile::Spike(sp)) && overlaps(r, sp.rect)),
        (forall|g: Ground| !#[trigger] tiles.contains(Tile::Ground(g))) ==> (after <==> (before || (
        tiles.last() matches Tile::Spike(sp) && overlaps(r, sp.rect)))),
    ensures
        (forall|g: Ground| !#[trigger] tiles.contains(Tile::Ground(g))) ==> (after <==> exists|sp: Spike|
            #[trigger] tiles.contains(Tile::Spike(sp)) && overlaps(r, sp.rect)),
{
    let init = tiles.drop_last();
    assert forall|t: Tile| #[trigger] init.contains(t) implies tiles.contains(t) by {
        let k = choose|k: int| 0 <= k < init.len() && init[k] == t;
        assert(tiles[k] == t);
    }
    assert(tiles[tiles.len() - 1] == tiles.last());
    if forall|g: Ground| !#[trigger] tiles.contains(Tile::Ground(g)) {
        if exists|sp: Spike| #[trigger] tiles.contains(Tile::Spike(sp)) && overlaps(r, sp.rect) {
            let sp = choose|sp: Spike| #[trigger] tiles.contains(Tile::Spike(sp)) && overlaps(r, sp.rect);
            let k = choose|k: int| 0 <= k < tiles.len() && tiles[k] == Tile::Spike(sp);
            if k < tiles.len() - 1 {
                assert(init[k] == Tile::Spike(sp));
                assert(init.contains(Tile::Spike(sp)));
            }
        }
        if after {
            if let Tile::Spike(sp) = tiles.last() {
                if overlaps(r, sp.rect) {
                    assert(tiles.contains(Tile::Spike(sp)));
                }
            }
            if before {
                let sp = choose|sp: Spike| #[trigger] init.contains(Tile::Spike(sp)) && overlaps(r, sp.rect);
                assert(tiles.contains(Tile::Spike(sp)));
            }
        }
    }
}

proof fn lemma_contacts_in(tiles: Seq<Tile>, r: Rect)
    ensures
        forall|g: Ground| #[trigger] contacts(tiles, r).contains(Tile::Ground(g)) ==> tiles.contains(
            Tile::Ground(g),
        ) && overlaps(r, g.rect),
    decreases tiles.len(),
{
    if tiles.len() > 0 {
        let init = tiles.drop_last();
        lemma_contacts_in(init, r);
        let c = contacts(init, r);
        assert forall|g: Ground| #[trigger] contacts(tiles, r).contains(Tile::Ground(g)) implies tiles.contains(
            Tile::Ground(g),
        ) && overlaps(r, g.rect) by {
            let cs = contacts(tiles, r);
            let k = choose|k: int| 0 <= k < cs.len() && cs[k] == Tile::Ground(g);
            if k < c.len() {
                assert(c[k] == Tile::Ground(g));
                assert(c.contains(Tile::Ground(g)));
                let j = choose|j: int| 0 <= j < init.len() && init[j] == Tile::Ground(g);
                assert(tiles[j] == Tile::Ground(g));
            } else {
                assert(tiles.last() == Tile::Ground(g));
                assert(tiles[tiles.len() - 1] == Tile::Ground(g));
            }
        }
    }
}

/// Jumping into a ceiling: when the player rises (at a speed its limits
/// keep) and the update neither reaches a door nor kills it, the player ends
/// either where its speed takes it, when its moved rectangle overlaps no
/// ground block, or with its top at the bottom edge of a ground block that
/// rectangle overlaps (its y is the block's y plus its height): it stays
/// below the block and never ends on top of it. Off the ground, gravity then
/// adds 1 to its vertical speed. Doors of the level lead to levels from 1 on.
pub proof fn lemma_rising_into_ground(p: Player, tiles: Seq<Tile>, h: u32, burst: u32)
    requires
        p.vel.1 < 0,
        p.min_vel.1 <= p.vel.1 <= p.max_vel.1,
        forall|g: Goal| #[trigger] tiles.contains(Tile::Goal(g)) ==> g.dest >= 1,
    ensures
        advanced(p, tiles, h, burst) matches Some((q, t)) ==> (t.next_level is None && !t.died ==> {
            let moved_rect = Rect { x: q.rect.x, y: (p.rect.y + p.vel.1) as i32, ..p.rect };
            &&& q.rect.w == p.rect.w && q.rect.h == p.rect.h
            &&& (forall|g: Ground| #[trigger] tiles.contains(Tile::Ground(g)) ==> !overlaps(
                moved_rect,
                g.rect,
            )) ==> q.rect.y == p.rect.y + p.vel.1
            &&& (exists|g: Ground| #[trigger] tiles.contains(Tile::Ground(g)) && overlaps(
                moved_rect,
                g.rect,
            )) ==> exists|g: Ground| #[trigger] tiles.contains(Tile::Ground(g)) && overlaps(
                moved_rect,
                g.rect,
            ) && q.rect.y == g.rect.y + p.rect.h
            &&& !p.grounded ==> q.vel.1 == p.vel.1 + 1
        }),
{
    let v1 = clamped(steered(p.vel, p.input), p.min_vel, p.max_vel);
    assert(v1.1 == p.vel.1);
    let p0 = Player { vel: v1, ..p };
    let nx = p0.rect.x + v1.0;
    if steer_fits(p.vel, p.input) && in_i32(nx) {
        let r = Rect { x: nx as i32, ..p.rect };
        lemma_first_goal_from(tiles, r);
        lemma_pushed_x_ret(contacts(tiles, r), r, v1.0);
        lemma_pushed_keep_size(contacts(tiles, r), r, p.grounded, v1.0);
        if first_goal(tiles, r) is None {
            if let Some((r2, ret)) = pushed_x(contacts(tiles, r), r, v1.0) {
                if ret == 0 {
                    let p1 = Player { rect: r2, ..p0 };
                    let ny = r2.y + v1.1;
                    if in_i32(ny) && p1.draw_rect.y < h as i32 {
                        let r3 = Rect { y: ny as i32, ..r2 };
                        lemma_first_goal_from(tiles, r3);
                        if first_goal(tiles, r3) is None {
                            let cs = contacts(tiles, r3);
                            lemma_contacts_in(tiles, r3);
                            lemma_rising_stops_below(cs, r3, p1.grounded, v1.1);
                            if let Some((r4, g4, ret4)) = pushed_y(cs, r3, p1.grounded, v1.1) {
                                let p2 = Player { rect: r4, grounded: g4, ..p1 };
                                assert(moved(p0, tiles, h) == Some((p2, ret4)));
                                if ret4 == 0 {
                                    if let Some((q, t)) = advanced(p, tiles, h, burst) {
                                        assert(q.rect == r4);
                                        let moved_rect = Rect { x: q.rect.x, y: (p.rect.y + p.vel.1) as i32, ..p.rect };
                                        assert(moved_rect == r3);
                                        if exists|g: Ground| #[trigger] cs.contains(Tile::Ground(g)) {
                                            let g = choose|g: Ground| #[trigger] cs.contains(Tile::Ground(g)) && r4.y == g.rect.y + r3.h;
                                            assert(tiles.contains(Tile::Ground(g)));
                                        }
                                        if exists|g: Ground| #[trigger] tiles.contains(Tile::Ground(g)) && overlaps(moved_rect, g.rect) {
                                            let g = choose|g: Ground| #[trigger] tiles.contains(Tile::Ground(g)) && overlaps(moved_rect, g.rect);
                                            let k = choose|k: int| 0 <= k < tiles.len() && tiles[k] == Tile::Ground(g);
                                            lemma_contacts_has(tiles, r3, k);
                                        }
                                    }
                                }
                            }
                        }
                    }
                }
            }
        }
    }
}

/// Falling onto ground: when the player falls (at a speed its limits keep)
/// from off the ground and the update neither reaches a door nor kills it,
/// either its moved rectangle overlaps no ground block, and it ends where its
/// speed takes it with gravity adding 1 to that speed; or it lands on a
/// ground block that rectangle overlaps (its y is the block's y less the
/// block's height) and stops falling: its vertical speed is 0, or -8 when the
/// jump is held. Doors of the level lead to levels from 1 on.
pub proof fn lemma_falling_onto_ground(p: Player, tiles: Seq<Tile>, h: u32, burst: u32)
    requires
        p.vel.1 > 0,
        !p.grounded,
        p.min_vel.1 <= p.vel.1 <= p.max_vel.1,
        forall|g: Goal| #[trigger] tiles.contains(Tile::Goal(g)) ==> g.dest >= 1,
    ensures
        advanced(p, tiles, h, burst) matches Some((q, t)) ==> (t.next_level is None && !t.died ==> {
            let moved_rect = Rect { x: q.rect.x, y: (p.rect.y + p.vel.1) as i32, ..p.rect };
            &&& q.rect.w == p.rect.w && q.rect.h == p.rect.h
            &&& (forall|g: Ground| #[trigger] tiles.contains(Tile::Ground(g)) ==> !overlaps(
                moved_rect,
                g.rect,
            )) ==> q.rect.y == p.rect.y + p.vel.1 && q.vel.1 == p.vel.1 + 1
            &&& (exists|g: Ground| #[trigger] tiles.contains(Tile::Ground(g)) && overlaps(
                moved_rect,
                g.rect,
            )) ==> exists|g: Ground| #[trigger] tiles.contains(Tile::Ground(g)) && overlaps(
                moved_rect,
                g.rect,
            ) && q.rect.y == g.rect.y - g.rect.h && q.vel.1 == (if p.jump {
                -8int
            } else {
                0int
            })
        }),
{
    let v1 = clamped(steered(p.vel, p.input), p.min_vel, p.max_vel);
    assert(v1.1 == p.vel.1);
    let p0 = Player { vel: v1, ..p };
    let nx = p0.rect.x + v1.0;
    if steer_fits(p.vel, p.input) && in_i32(nx) {
        let r = Rect { x: nx as i32, ..p.rect };
        lemma_first_goal_from(tiles, r);
        lemma_pushed_x_ret(contacts(tiles, r), r, v1.0);
        lemma_pushed_keep_size(contacts(tiles, r), r, p.grounded, v1.0);
        if first_goal(tiles, r) is None {
            if let Some((r2, ret)) = pushed_x(contacts(tiles, r), r, v1.0) {
                if ret == 0 {
                    let p1 = Player { rect: r2, ..p0 };
                    let ny = r2.y + v1.1;
                    if in_i32(ny) && p1.draw_rect.y < h as i32 {
                        let r3 = Rect { y: ny as i32, ..r2 };
                        lemma_first_goal_from(tiles, r3);
                        if first_goal(tiles, r3) is None {
                            let cs = contacts(tiles, r3);
                            lemma_contacts_in(tiles, r3);
                            lemma_falling_lands(cs, r3, p1.grounded, v1.1);
                            if let Some((r4, g4, ret4)) = pushed_y(cs, r3, p1.grounded, v1.1) {
                                let p2 = Player { rect: r4, grounded: g4, ..p1 };
                                assert(moved(p0, tiles, h) == Some((p2, ret4)));
                                if ret4 != -1 {
                                    if let Some((q, t)) = advanced(p, tiles, h, burst) {
                                        assert(q.rect == r4);
                                        let moved_rect = Rect { x: q.rect.x, y: (p.rect.y + p.vel.1) as i32, ..p.rect };
                                        assert(moved_rect == r3);
                                        if exists|g: Ground| #[trigger] cs.contains(Tile::Ground(g)) {
                                            let g = choose|g: Ground| #[trigger] cs.contains(Tile::Ground(g)) && r4.y == g.rect.y - g.rect.h;
                                            assert(tiles.contains(Tile::Ground(g)));
                                        }
                                        if exists|g: Ground| #[trigger] tiles.contains(Tile::Ground(g)) && overlaps(moved_rect, g.rect) {
                                            let g = choose|g: Ground| #[trigger] tiles.contains(Tile::Ground(g)) && overlaps(moved_rect, g.rect);
                                            let k = choose|k: int| 0 <= k < tiles.len() && tiles[k] == Tile::Ground(g);
                                            lemma_contacts_has(tiles, r3, k);
                                        }
                                    }
                                }
                            }
                        }
                    }
                }
            }
        }
    }
}

proof fn lemma_contacts_has(tiles: Seq<Tile>, r: Rect, k: int)
    requires
        0 <= k < tiles.len(),
        tiles[k] is Ground,
        overlaps(r, tiles[k]->Ground_0.rect),
    ensures
        contacts(tiles, r).contains(tiles[k]),
    decreases tiles.len(),
{
    let init = tiles.drop_last();
    let c = contacts(init, r);
    if k == tiles.len() - 1 {
        assert(contacts(tiles, r) == c.push(tiles[k]));
        assert(contacts(tiles, r)[c.len() as int] == tiles[k]);
    } else {
        assert(init[k] == tiles[k]);
        lemma_contacts_has(init, r, k);
        let j = choose|j: int| 0 <= j < c.len() && c[j] == tiles[k];
        let cs = contacts(tiles, r);
        assert(cs.take(c.len() as int) =~= c) by {
            match tiles.last() {
                Tile::Ground(g) => {},
                Tile::Spike(sp) => {},
                _ => {},
            }
        }
        assert(cs[j] == tiles[k]);
    }
}

/// Falling onto ground lands on it: moving down against the blocks and
/// spikes `tiles`, the rectangle keeps its column and size; with a ground
/// block among them it stands on ground, reports a landing or a death, and
/// its y is that of one of the blocks less the block's height; with none its
/// place and footing stay, and a death is reported exactly when a spike among
/// them overlaps it. A death is reported only with a spike among them.
pub proof fn lemma_falling_lands(tiles: Seq<Tile>, r: Rect, grounded: bool, vy: i32)
    requires
        vy > 0,
    ensures
        pushed_y(tiles, r, grounded, vy) matches Some((r2, g2, ret)) ==> {
            &&& r2.x == r.x && r2.w == r.w && r2.h == r.h
            &&& ret == -1 ==> exists|sp: Spike| #[trigger] tiles.contains(Tile::Spike(sp))
            &&& (forall|g: Ground| !#[trigger] tiles.contains(Tile::Ground(g))) ==> r2.y == r.y && g2
                == grounded && (ret == 0 || ret == -1)
            &&& (exists|g: Ground| #[trigger] tiles.contains(Tile::Ground(g))) ==> g2 && (ret == 1 || ret
                == -1) && exists|g: Ground| #[trigger] tiles.contains(Tile::Ground(g)) && r2.y == g.rect.y
                - g.rect.h
            &&& (forall|g: Ground| !#[trigger] tiles.contains(Tile::Ground(g))) ==> (ret == -1 <==> exists|
                sp: Spike,
            | #[trigger] tiles.contains(Tile::Spike(sp)) && overlaps(r, sp.rect))
        },
    decreases tiles.len(),
{
    if tiles.len() > 0 {
        let init = tiles.drop_last();
        lemma_falling_lands(init, r, grounded, vy);
        assert forall|t: Tile| #[trigger] init.contains(t) implies tiles.contains(t) by {
            let k = choose|k: int| 0 <= k < init.len() && init[k] == t;
            assert(tiles[k] == t);
        }
        assert(tiles[tiles.len() - 1] == tiles.last());
        if let Some((r2, g2, ret)) = pushed_y(tiles, r, grounded, vy) {
            if let Tile::Ground(g) = tiles.last() {
                assert(tiles.contains(Tile::Ground(g)));
            } else {
                if let Tile::Spike(sp) = tiles.last() {
                    assert(tiles.contains(Tile::Spike(sp)));
                }
                lemma_spike_kills(tiles, r, pushed_y(init, r, grounded, vy) matches Some((_, _, -1)), ret == -1);
                if exists|g: Ground| #[trigger] tiles.contains(Tile::Ground(g)) {
                    let g = choose|g: Ground| #[trigger] tiles.contains(Tile::Ground(g));
                    let k = choose|k: int| 0 <= k < tiles.len() && tiles[k] == Tile::Ground(g);
                    assert(init[k] == Tile::Ground(g));
                    assert(init.contains(Tile::Ground(g)));
                }
                if ret == -1 && pushed_y(init, r, grounded, vy) matches Some((_, _, -1)) {
                    let sp = choose|sp: Spike| #[trigger] init.contains(Tile::Spike(sp));
                    assert(tiles.contains(Tile::Spike(sp)));
                }
            }
        }
    }
}

/// Running into ground stops beside it: moving sideways against the blocks
/// and spikes `tiles`, the rectangle keeps its row and size; moving right its
/// right side ends at the left side of one of the ground blocks, moving left
/// its left side ends at the right side of one; with no ground block, or no
/// sideways speed, it stays where it was. A death is reported only with a
/// spike among them, and nothing else is reported; moving with no ground
/// block, exactly when a spike overlaps the rectangle.
pub proof fn lemma_running_stops_beside(tiles: Seq<Tile>, r: Rect, vx: i32)
    ensures
        pushed_x(tiles, r, vx) matches Some((r2, ret)) ==> {
            &&& r2.y == r.y && r2.w == r.w && r2.h == r.h
            &&& ret == 0 || ret == -1
            &&& ret == -1 ==> exists|sp: Spike| #[trigger] tiles.contains(Tile::Spike(sp))
            &&& vx == 0 ==> r2 == r && ret == 0
            &&& (forall|g: Ground| !#[trigger] tiles.contains(Tile::Ground(g))) ==> r2.x == r.x
            &&& (exists|g: Ground| #[trigger] tiles.contains(Tile::Ground(g))) ==> {
                &&& vx > 0 ==> exists|g: Ground| #[trigger] tiles.contains(Tile::Ground(g)) && r2.x + r.w
                    == g.rect.x
                &&& vx < 0 ==> exists|g: Ground| #[trigger] tiles.contains(Tile::Ground(g)) && r2.x
                    == g.rect.x + g.rect.w
            }
            &&& vx != 0 && (forall|g: Ground| !#[trigger] tiles.contains(Tile::Ground(g))) ==> (ret == -1
                <==> exists|sp: Spike| #[trigger] tiles.contains(Tile::Spike(sp)) && overlaps(r, sp.rect))
        },
    decreases tiles.len(),
{
    if tiles.len() > 0 {
        let init = tiles.drop_last();
        lemma_running_stops_beside(init, r, vx);
        assert forall|t: Tile| #[trigger] init.contains(t) implies tiles.contains(t) by {
            let k = choose|k: int| 0 <= k < init.len() && init[k] == t;
            assert(tiles[k] == t);
        }
        assert(tiles[tiles.len() - 1] == tiles.last());
        if let Some((r2, ret)) = pushed_x(tiles, r, vx) {
            if let Tile::Ground(g) = tiles.last() {
                assert(tiles.contains(Tile::Ground(g)));
            } else {
                if let Tile::Spike(sp) = tiles.last() {
                    assert(tiles.contains(Tile::Spike(sp)));
                }
                if vx != 0 {
                    lemma_spike_kills(tiles, r, pushed_x(init, r, vx) matches Some((_, -1)), ret == -1);
                }
                if exists|g: Ground| #[trigger] tiles.contains(Tile::Ground(g)) {
                    let g = choose|g: Ground| #[trigger] tiles.contains(Tile::Ground(g));
                    let k = choose|k: int| 0 <= k < tiles.len() && tiles[k] == Tile::Ground(g);
                    assert(init[k] == Tile::Ground(g));
                    assert(init.contains(Tile::Ground(g)));
                }
                if ret == -1 && pushed_x(init, r, vx) matches Some((_, -1)) {
                    let sp = choose|sp: Spike| #[trigger] init.contains(Tile::Spike(sp));
                    assert(tiles.contains(Tile::Spike(sp)));
                }
            }
        }
    }
}

/// The player put back at its start position, keeping its size.
pub open spec fn at_start(p: Player, r: Rect) -> Player {
    Player { rect: Rect { x: p.start_pos.0, y: p.start_pos.1, ..r }, ..p }
}

/// The vertical half of a move: `None` when a number would leave `i32`;
/// otherwise the player and the outcome: 0 nothing, 1 landed, -1 dead
/// (fell off the screen of height `h` or touched a spike), `1 + dest` a door.
pub open spec fn moved_y(p: Player, tiles: Seq<Tile>, h: u32) -> Option<(Player, i32)> {
    let ny = p.rect.y + p.vel.1;
    if !in_i32(ny) {
        None
    } else {
        let r = Rect { y: ny as i32, ..p.rect };
        if p.draw_rect.y >= h as i32 {
            Some((Player { rect: r, ..p }, -1i32))
        } else {
            match first_goal(tiles, r) {
                Some(d) => if in_i32(1 + d) {
                    Some((at_start(p, r), (1 + d) as i32))
                } else {
                    None
                },
                None => match pushed_y(contacts(tiles, r), r, p.grounded, p.vel.1) {
                    Some((r2, g, ret)) => Some((Player { rect: r2, grounded: g, ..p }, ret)),
                    None => None,
                },
            }
        }
    }
}

/// A whole move: first horizontally, then (when nothing happened) vertically.
pub open spec fn moved(p: Player, tiles: Seq<Tile>, h: u32) -> Option<(Player, i32)> {
    let nx = p.rect.x + p.vel.0;
    if !in_i32(nx) {
        None
    } else {
        let r = Rect { x: nx as i32, ..p.rect };
        match first_goal(tiles, r) {
            Some(d) => if in_i32(1 + d) {
                Some((at_start(p, r), (1 + d) as i32))
            } else {
                None
            },
            None => match pushed_x(contacts(tiles, r), r, p.vel.0) {
                Some((r2, ret)) => if ret != 0 {
                    Some((Player { rect: r2, ..p }, ret))
                } else {
                    moved_y(Player { rect: r2, ..p }, tiles, h)
                },
                None => None,
            },
        }
    }
}

enum Contact {
    Door(i32),
    Touching(Vec<Tile>),
}

/// Looks for a door that `r` overlaps, and collects the ground and spikes it overlaps.
fn scan(map: &Vec<Vec<Tile>>, r: &Rect) -> (c: Contact)
    ensures
        match c {
            Contact::Door(d) => first_goal(tiles_of(map@), *r) == Some(d),
            Contact::Touching(v) => first_goal(tiles_of(map@), *r) is None && v@ == contacts(
                tiles_of(map@),
                *r,
            ),
        },
{
    let ghost g = grid_view(map@);
    let mut found: Option<i32> = None;
    let mut touching: Vec<Tile> = Vec::new();
    let mut i: usize = 0;
    assert(g.take(0) =~= Seq::<Seq<Tile>>::empty());
    while i < map.len()
        invariant
            g == grid_view(map@),
            i <= map@.len(),
            found == first_goal(flatten(g.take(i as int)), *r),
            touching@ == contacts(flatten(g.take(i as int)), *r),
        decreases map@.len() - i,
    {
        let row = &map[i];
        assert(g[i as int] == row@);
        let ghost base = flatten(g.take(i as int));
        let mut j: usize = 0;
        assert(base + row@.take(0) =~= base);
        while j < row.len()
            invariant
                g == grid_view(map@),
                i < map@.len(),
                g[i as int] == row@,
                base == flatten(g.take(i as int)),
                j <= row@.len(),
                found == first_goal(base + row@.take(j as int), *r),
                touching@ == contacts(base + row@.take(j as int), *r),
            decreases row@.len() - j,
        {
            let t = row[j];
            let ghost pre = base + row@.take(j as int);
            let ghost post = base + row@.take(j + 1);
            assert(post.drop_last() =~= pre);
            assert(post.last() == t);
            match t {
                Tile::Goal(goal) => {
                    if found.is_none() && r.intersects(&goal.rect) {
                        found = Some(goal.dest);
                    }
                },
                Tile::Ground(ground) => {
                    if r.intersects(&ground.rect) {
                        touching.push(t);
                    }
                },
                Tile::Spike(spike) => {
                    if r.intersects(&spike.rect) {
                        touching.push(t);
                    }
                },
                Tile::Air => {},
            }
            j = j + 1;
        }
        assert(row@.take(j as int) =~= row@);
        assert(g.take(i + 1).drop_last() =~= g.take(i as int));
        i = i + 1;
    }
    assert(g.take(i as int) =~= g);
    match found {
        Some(d) => Contact::Door(d),
        None => Contact::Touching(touching),
    }
}

proof fn lemma_pushed_x_stays_none(s: Seq<Tile>, k: int, r: Rect, vx: i32)
    requires
        0 <= k <= s.len(),
        pushed_x(s.take(k), r, vx) is None,
    ensures
        pushed_x(s, r, vx) is None,
    decreases s.len(),
{
    if k == s.len() {
        assert(s.take(k) =~= s);
    } else {
        assert(s.drop_last().take(k) =~= s.take(k));
        lemma_pushed_x_stays_none(s.drop_last(), k, r, vx);
    }
}

proof fn lemma_pushed_y_stays_none(s: Seq<Tile>, k: int, r: Rect, g: bool, vy: i32)
    requires
        0 <= k <= s.len(),
        pushed_y(s.take(k), r, g, vy) is None,
    ensures
        pushed_y(s, r, g, vy) is None,
    decreases s.len(),
{
    if k == s.len() {
        assert(s.take(k) =~= s);
    } else {
        assert(s.drop_last().take(k) =~= s.take(k));
        lemma_pushed_y_stays_none(s.drop_last(), k, r, g, vy);
    }
}

/// Handles the horizontal contacts in order.
fn push_x(touching: &Vec<Tile>, r0: Rect, vx: i32) -> (res: Result<(Rect, i32), Overflow>)
    ensures
        match res {
            Ok(v) => pushed_x(touching@, r0, vx) == Some(v),
            Err(_) => pushed_x(touching@, r0, vx) is None,
        },
{
    let mut r = r0;
    let mut ret: i32 = 0;
    let mut k: usize = 0;
    assert(touching@.take(0) =~= Seq::<Tile>::empty());
    while k < touching.len()
        invariant
            k <= touching@.len(),
            pushed_x(touching@.take(k as int), r0, vx) == Some((r, ret)),
        decreases touching@.len() - k,
    {
        let t = touching[k];
        assert(touching@.take(k + 1).drop_last() =~= touching@.take(k as int));
        assert(touching@.take(k + 1).last() == t);
        if vx > 0 {
            match t {
                Tile::Ground(g) => {
                    match g.rect.x.checked_sub(r.w) {
                        Some(nx) => {
                            r.x = nx;
                        },
                        None => {
                            proof {
                                lemma_pushed_x_stays_none(touching@, k + 1, r0, vx);
                            }
                            return Err(Overflow);
                        },
                    }
                },
                Tile::Spike(s) => {
                    if r.intersects(&s.rect) {
                        ret = -1;
                    }
                },
                _ => {},
            }
        } else if vx < 0 {
            match t {
                Tile::Ground(g) => {
                    match g.rect.w.checked_add(g.rect.x) {
                        Some(nx) => {
                            r.x = nx;
                        },
                        None => {
                            proof {
                                lemma_pushed_x_stays_none(touching@, k + 1, r0, vx);
                            }
                            return Err(Overflow);
                        },
                    }
                },
                Tile::Spike(s) => {
                    if r.intersects(&s.rect) {
                        ret = -1;
                    }
                },
                _ => {},
            }
        }
        k = k + 1;
    }
    assert(touching@.take(k as int) =~= touching@);
    Ok((r, ret))
}

/// Handles the vertical contacts in order.
fn push_y(touching: &Vec<Tile>, r0: Rect, g0: bool, vy: i32) -> (res: Result<
    (Rect, bool, i32),
    Overflow,
>)
    ensures
        match res {
            Ok(v) => pushed_y(touching@, r0, g0, vy) == Some(v),
            Err(_) => pushed_y(touching@, r0, g0, vy) is None,
        },
{
    let mut r = r0;
    let mut grounded = g0;
    let mut ret: i32 = 0;
    let mut k: usize = 0;
    assert(touching@.take(0) =~= Seq::<Tile>::empty());
    while k < touching.len()
        invariant
            k <= touching@.len(),
            pushed_y(touching@.take(k as int), r0, g0, vy) == Some((r, grounded, ret)),
        decreases touching@.len() - k,
    {
        let t = touching[k];
        assert(touching@.take(k + 1).drop_last() =~= touching@.take(k as int));
        assert(touching@.take(k + 1).last() == t);
        if vy > 0 {
            match t {
                Tile::Ground(g) => {
                    match g.rect.y.checked_sub(g.rect.h) {
                        Some(ny) => {
                            grounded = true;
                            r.y = ny;
                            ret = 1;
                        },
                        None => {
                            proof {
                                lemma_pushed_y_stays_none(touching@, k + 1, r0, g0, vy);
                            }
                            return Err(Overflow);
                        },
                    }
                },
                Tile::Spike(s) => {
                    if r.intersects(&s.rect) {
                        ret = -1;
                    }
                },
                _ => {},
            }
        } else if vy < 0 {
            match t {
                Tile::Ground(g) => {
                    match g.rect.y.checked_add(r.h) {
                        Some(ny) => {
                            r.y = ny;
                        },
                        None => {
                            proof {
                                lemma_pushed_y_stays_none(touching@, k + 1, r0, g0, vy);
                            }
                            return Err(Overflow);
                        },
                    }
                },
                Tile::Spike(s) => {
                    if r.intersects(&s.rect) {
                        ret = -1;
                    }
                },
                _ => {},
            }
        }
        k = k + 1;
    }
    assert(touching@.take(k as int) =~= touching@);
    Ok((r, grounded, ret))
}

impl Player {
    /// Moves the player by its velocity, horizontally and then vertically,
    /// against the tiles of `map`; the result says what happened (see `moved`).
    fn mov_pos(&mut self, map: &Vec<Vec<Tile>>, canvas_size: (u32, u32)) -> (res: Result<
        i32,
        Overflow,
    >)
        ensures
            match res {
                Ok(v) => moved(*old(self), tiles_of(map@), canvas_size.1) == Some((*final(self), v)),
                Err(_) => moved(*old(self), tiles_of(map@), canvas_size.1) is None,
            },
    {
        let ghost p0 = *self;
        match self.rect.x.checked_add(self.vel.0) {
            Some(nx) => {
                self.rect.x = nx;
            },
            None => {
                return Err(Overflow);
            },
        }
        match scan(map, &self.rect) {
            Contact::Door(d) => {
                match d.checked_add(1) {
                    Some(v) => {
                        self.rect.x = self.start_pos.0;
                        self.rect.y = self.start_pos.1;
                        return Ok(v);
                    },
                    None => {
                        return Err(Overflow);
                    },
                }
            },
            Contact::Touching(touching) => {
                match push_x(&touching, self.rect, self.vel.0) {
                    Ok((r, ret)) => {
                        self.rect = r;
                        if ret != 0 {
                            return Ok(ret);
                        }
                    },
                    Err(e) => {
                        return Err(e);
                    },
                }
            },
        }
        let ghost p1 = *self;
        assert(p1 == (Player { rect: p1.rect, ..p0 }));
        match self.rect.y.checked_add(self.vel.1) {
            Some(ny) => {
                self.rect.y = ny;
            },
            None => {
                return Err(Overflow);
            },
        }
        if self.draw_rect.y >= canvas_size.1 as i32 {
            return Ok(-1);
        }
        match scan(map, &self.rect) {
            Contact::Door(d) => {
                match d.checked_add(1) {
                    Some(v) => {
                        self.rect.x = self.start_pos.0;
                        self.rect.y = self.start_pos.1;
                        Ok(v)
                    },
                    None => Err(Overflow),
                }
            },
            Contact::Touching(touching) => {
                match push_y(&touching, self.rect, self.grounded, self.vel.1) {
                    Ok((r, g, ret)) => {
                        self.rect = r;
                        self.grounded = g;
                        Ok(ret)
                    },
                    Err(e) => Err(e),
                }
            },
        }
    }
}

/// The horizontal velocity after the run input: 1 speeds up to the right,
/// -1 to the left, 0 slows down toward a stop; other inputs change nothing.
pub open spec fn steered(vel: Vec2, input: i8) -> Vec2 {
    if input == 1 {
        Vec2((vel.0 + 1) as i32, vel.1)
    } else if input == 0 {
        if vel.0 > 0 {
            Vec2((vel.0 - 1) as i32, vel.1)
        } else if vel.0 < 0 {
            Vec2((vel.0 + 1) as i32, vel.1)
        } else {
            vel
        }
    } else if input == -1 {
        Vec2((vel.0 - 1) as i32, vel.1)
    } else {
        vel
    }
}

/// Whether steering stays within `i32`.
pub open spec fn steer_fits(vel: Vec2, input: i8) -> bool {
    &&& input == 1 ==> vel.0 < i32::MAX
    &&& input == -1 ==> vel.0 > i32::MIN
}

/// The player after dying: back at the start, at rest, one more death counted.
pub open spec fn respawned(p: Player) -> Player {
    Player {
        vel: Vec2(0i32, 0i32),
        rect: Rect { x: p.start_pos.0, y: p.start_pos.1, ..p.rect },
        death_count: (p.death_count + 1) as u16,
        ..p
    }
}

/// The player after the jump or fall of an update: a held jump on the ground
/// starts a jump (upward speed 8, particles when the delay is over); in the
/// air gravity adds 1 to the downward speed; on the ground it stops.
pub open spec fn jumped_or_fell(p: Player) -> Player {
    if p.jump && p.grounded {
        Player {
            vel: Vec2(p.vel.0, -8i32),
            particle_delay: if p.particle_delay == 0 {
                10i32
            } else {
                p.particle_delay
            },
            ..p
        }
    } else if !p.grounded {
        Player { vel: Vec2(p.vel.0, (p.vel.1 + 1) as i32), ..p }
    } else {
        Player { vel: Vec2(p.vel.0, 0i32), ..p }
    }
}

/// The end of an update that did not reach a door: `p0` is the player before
/// the update, `p2` after the move, `died` whether the move killed it and
/// `burst` the particle count of a fresh jump.
pub open spec fn settled(p0: Player, p2: Player, died: bool, burst: u32) -> Option<(Player, Tick)> {
    let p3 = if died {
        respawned(p2)
    } else {
        p2
    };
    let fresh = p3.jump && p3.grounded && p3.particle_delay == 0;
    let falls = !(p3.jump && p3.grounded) && !p3.grounded;
    let p4 = jumped_or_fell(p3);
    let dx = p4.rect.x * 4;
    let dy = p4.rect.y * 4;
    let py = p4.rect.y - 1;
    if !(in_i32(dx) && in_i32(dy) && in_i32(py)) || (falls && p3.vel.1 == i32::MAX) || (
    p4.particle_delay == i32::MIN) {
        None
    } else {
        Some(
            (
                Player {
                    draw_rect: Rect { x: dx as i32, y: dy as i32, ..p4.draw_rect },
                    previous_position: Rect { x: p4.rect.x, y: py as i32, ..p4.previous_position },
                    particle_delay: if p4.particle_delay != 0 {
                        (p4.particle_delay - 1) as i32
                    } else {
                        0i32
                    },
                    grounded: false,
                    ..p4
                },
                Tick {
                    next_level: None,
                    died,
                    burst_origin: Vec2(p0.draw_rect.x, p0.draw_rect.y),
                    burst_vel: p2.vel,
                    jump_burst: if fresh {
                        Some(burst)
                    } else {
                        None
                    },
                },
            ),
        )
    }
}

/// One update of the player on the tiles `tiles` and a screen of height `h`:
/// steer, clamp the speed, move; at a door report the next level; else
/// die or not, jump or fall, and place the screen rectangle. `None` when a
/// number would leave its type (the game would stop there on an overflow).
pub open spec fn advanced(p: Player, tiles: Seq<Tile>, h: u32, burst: u32) -> Option<(Player, Tick)> {
    let v1 = clamped(steered(p.vel, p.input), p.min_vel, p.max_vel);
    if !steer_fits(p.vel, p.input) {
        None
    } else {
    match moved(Player { vel: v1, ..p }, tiles, h) {
        None => None,
        Some((p2, g)) => if g > 1 {
            Some(
                (
                    p2,
                    Tick {
                        next_level: Some((g - 1) as i32),
                        died: false,
                        burst_origin: Vec2(p.draw_rect.x, p.draw_rect.y),
                        burst_vel: v1,
                        jump_burst: None,
                    },
                ),
            )
        } else if g == -1 && p2.death_count == u16::MAX {
            None
        } else {
            settled(p, p2, g == -1, burst)
        },
    }
    }
}

/// Whether a result of an update agrees with the expected outcome `r`: on
/// success the new player and the report; on overflow no outcome, and the
/// player `after` is the player `before`.
pub open spec fn agrees(r: Option<(Player, Tick)>, res: Result<Tick, Overflow>, before: Player, after: Player) -> bool {
    match res {
        Ok(t) => r == Some((after, t)),
        Err(_) => r is None && after == before,
    }
}

impl Player {
    /// The player's own invariant: the speed limits it was made with, a speed
    /// within them (the downward one may exceed its cap by the one step of
    /// gravity), and its counters within their cycles.
    pub open spec fn wf(self) -> bool {
        &&& self.min_vel == Vec2(-2i32, -8i32)
        &&& self.max_vel == Vec2(2i32, 8i32)
        &&& -2 <= self.vel.0 <= 2
        &&& -8 <= self.vel.1 <= 9
        &&& 0 <= self.particle_delay <= 10
        &&& 0 <= self.animation_num < 54
    }

    /// A player for the screen rectangle `rect`; its level rectangle is a
    /// quarter of it.
    pub fn new(rect: Rect) -> (p: Player)
        requires
            rect.y < i32::MAX,
        ensures
            p == fresh_player(rect),
            p.wf(),
    {
        let small = Rect::new(rect.x / 4, rect.y / 4, rect.width() / 4, rect.height() / 4);
        Player {
            draw_rect: Rect::new(rect.x, rect.y + 1, rect.width(), rect.height()),
            rect: small,
            start_pos: Vec2(rect.x / 4, rect.y / 4),
            previous_position: small,
            vel: Vec2(0, 0),
            min_vel: Vec2(-2, -8),
            max_vel: Vec2(2, 8),
            input: 0,
            jump: false,
            grounded: false,
            death_count: 0,
            animation_num: 0,
            particle_delay: 0,
        }
    }

    /// Starts a jump; returns the particle count `burst` when the particle
    /// delay is over (and restarts the delay), else nothing.
    fn jump(&mut self, burst: u32) -> (n: Option<u32>)
        ensures
            *final(self) == (Player {
                vel: Vec2(old(self).vel.0, -8i32),
                particle_delay: if old(self).particle_delay == 0 {
                    10i32
                } else {
                    old(self).particle_delay
                },
                ..*old(self)
            }),
            n == (if old(self).particle_delay == 0 {
                Some(burst)
            } else {
                None
            }),
    {
        self.vel.1 = -8;
        if self.particle_delay == 0 {
            self.particle_delay = 10;
            Some(burst)
        } else {
            None
        }
    }

    /// Gravity: one more unit of downward speed.
    fn fall(&mut self)
        requires
            old(self).vel.1 < i32::MAX,
        ensures
            *final(self) == (Player { vel: Vec2(old(self).vel.0, (old(self).vel.1 + 1) as i32), ..*old(self) }),
    {
        self.vel.1 += 1;
    }

    /// One frame of the player's game, with `burst` as the particle count
    /// of a jump that starts now. On an overflow the player is unchanged.
    pub fn advance(&mut self, map: &Vec<Vec<Tile>>, canvas_size: (u32, u32), burst: u32) -> (res:
        Result<Tick, Overflow>)
        ensures
            old(self).wf() ==> final(self).wf(),
            match res {
                Ok(t) => advanced(*old(self), tiles_of(map@), canvas_size.1, burst) == Some(
                    (*final(self), t),
                ),
                Err(_) => advanced(*old(self), tiles_of(map@), canvas_size.1, burst) is None
                    && *final(self) == *old(self),
            },
    {
        let p0 = *self;
        let mut p = *self;
        match p.input {
            1 => {
                if p.vel.0 == i32::MAX {
                    return Err(Overflow);
                }
                p.vel.0 += 1;
            },
            0 => {
                if p.vel.0 > 0 {
                    p.vel.0 -= 1;
                } else if p.vel.0 < 0 {
                    p.vel.0 += 1;
                }
            },
            -1 => {
                if p.vel.0 == i32::MIN {
                    return Err(Overflow);
                }
                p.vel.0 -= 1;
            },
            _ => {},
        }
        p.vel = clamp(&p.vel, &p.min_vel, &p.max_vel);
        let ghost v1 = p.vel;
        assert(v1 == clamped(steered(p0.vel, p0.input), p0.min_vel, p0.max_vel));
        let ground_num = match p.mov_pos(map, canvas_size) {
            Ok(g) => g,
            Err(e) => {
                return Err(e);
            },
        };
        let burst_vel = p.vel;
        if ground_num > 1 {
            *self = p;
            return Ok(
                Tick {
                    next_level: Some(ground_num - 1),
                    died: false,
                    burst_origin: Vec2(p0.draw_rect.x, p0.draw_rect.y),
                    burst_vel: p.vel,
                    jump_burst: None,
                },
            );
        }
        let died = ground_num == -1;
        if died {
            if p.death_count == u16::MAX {
                return Err(Overflow);
            }
            p.vel = Vec2(0, 0);
            p.rect.x = p.start_pos.0;
            p.rect.y = p.start_pos.1;
            p.death_count += 1;
        }
        let mut jump_burst: Option<u32> = None;
        if p.jump && p.grounded {
            jump_burst = p.jump(burst);
        } else if !p.grounded {
            if p.vel.1 == i32::MAX {
                return Err(Overflow);
            }
            p.fall();
        } else if p.grounded {
            p.vel.1 = 0;
        }
        let dx = match p.rect.x.checked_mul(4) {
            Some(v) => v,
            None => {
                return Err(Overflow);
            },
        };
        let dy = match p.rect.y.checked_mul(4) {
            Some(v) => v,
            None => {
                return Err(Overflow);
            },
        };
        let py = match p.rect.y.checked_sub(1) {
            Some(v) => v,
            None => {
                return Err(Overflow);
            },
        };
        p.draw_rect.x = dx;
        p.draw_rect.y = dy;
        p.previous_position.x = p.rect.x;
        p.previous_position.y = py;
        if p.particle_delay != 0 {
            if p.particle_delay == i32::MIN {
                return Err(Overflow);
            }
            p.particle_delay -= 1;
        }
        p.grounded = false;
        *self = p;
        Ok(
            Tick {
                next_level: None,
                died,
                burst_origin: Vec2(p0.draw_rect.x, p0.draw_rect.y),
                burst_vel,
                jump_burst,
            },
        )
    }

    /// One frame of the player's game, as `advance` with the particle count
    /// of a jump drawn at random from 10 to 19. On an overflow the player is
    /// unchanged.
    pub fn update(&mut self, map: &Vec<Vec<Tile>>, canvas_size: (u32, u32)) -> (res: Result<
        Tick,
        Overflow,
    >)
        ensures
            old(self).wf() ==> final(self).wf(),
            exists|burst: u32|
                10 <= burst < 20 && agrees(
                    #[trigger] advanced(*old(self), tiles_of(map@), canvas_size.1, burst),
                    res,
                    *old(self),
                    *final(self),
                ),
    {
        let burst = random_in(10, 20);
        self.advance(map, canvas_size, burst)
    }
}

proof fn lemma_first_goal_from(tiles: Seq<Tile>, r: Rect)
    ensures
        first_goal(tiles, r) matches Some(d) ==> exists|g: Goal|
            #[trigger] tiles.contains(Tile::Goal(g)) && g.dest == d && overlaps(r, g.rect),
    decreases tiles.len(),
{
    if tiles.len() > 0 {
        lemma_first_goal_from(tiles.drop_last(), r);
        if let Some(d) = first_goal(tiles.drop_last(), r) {
            let g = choose|g: Goal|
                #[trigger] tiles.drop_last().contains(Tile::Goal(g)) && g.dest == d && overlaps(r, g.rect);
            let k = choose|k: int| 0 <= k < tiles.drop_last().len() && tiles.drop_last()[k] == Tile::Goal(g);
            assert(tiles[k] == Tile::Goal(g));
            assert(tiles.contains(Tile::Goal(g)));
        } else if let Tile::Goal(g) = tiles.last() {
            assert(tiles[tiles.len() - 1] == Tile::Goal(g));
            assert(tiles.contains(Tile::Goal(g)));
        }
    }
}

proof fn lemma_pushed_x_ret(tiles: Seq<Tile>, r: Rect, vx: i32)
    ensures
        pushed_x(tiles, r, vx) matches Some((r2, ret)) ==> ret == 0 || ret == -1,
    decreases tiles.len(),
{
    if tiles.len() > 0 {
        lemma_pushed_x_ret(tiles.drop_last(), r, vx);
    }
}

proof fn lemma_pushed_y_ret(tiles: Seq<Tile>, r: Rect, g: bool, vy: i32)
    ensures
        pushed_y(tiles, r, g, vy) matches Some((r2, g2, ret)) ==> -1 <= ret <= 1,
    decreases tiles.len(),
{
    if tiles.len() > 0 {
        lemma_pushed_y_ret(tiles.drop_last(), r, g, vy);
    }
}

proof fn lemma_pushed_keep_size(tiles: Seq<Tile>, r: Rect, g: bool, v: i32)
    ensures
        pushed_x(tiles, r, v) matches Some((r2, ret)) ==> r2.w == r.w && r2.h == r.h && r2.y == r.y,
        pushed_y(tiles, r, g, v) matches Some((r2, g2, ret)) ==> r2.w == r.w && r2.h == r.h,
    decreases tiles.len(),
{
    if tiles.len() > 0 {
        lemma_pushed_keep_size(tiles.drop_last(), r, g, v);
    }
}

proof fn lemma_moved_door(p: Player, tiles: Seq<Tile>, h: u32)
    ensures
        moved(p, tiles, h) matches Some((q, g)) ==> (g > 1 ==> (exists|goal: Goal|
            #[trigger] tiles.contains(Tile::Goal(goal)) && goal.dest == g - 1) && q.rect.x
            == p.start_pos.0 && q.rect.y == p.start_pos.1 && q.start_pos == p.start_pos
            && q.death_count == p.death_count),
        moved(p, tiles, h) matches Some((q, g)) ==> q.start_pos == p.start_pos && q.death_count
            == p.death_count && q.vel == p.vel && q.draw_rect == p.draw_rect && q.rect.w == p.rect.w
            && q.rect.h == p.rect.h && q.input == p.input && q.jump == p.jump,
{
    let nx = p.rect.x + p.vel.0;
    if in_i32(nx) {
        let r = Rect { x: nx as i32, ..p.rect };
        lemma_first_goal_from(tiles, r);
        lemma_pushed_x_ret(contacts(tiles, r), r, p.vel.0);
        lemma_pushed_keep_size(contacts(tiles, r), r, p.grounded, p.vel.0);
        if let Some((r2, ret)) = pushed_x(contacts(tiles, r), r, p.vel.0) {
            let p1 = Player { rect: r2, ..p };
            let ny = p1.rect.y + p1.vel.1;
            if in_i32(ny) {
                let r3 = Rect { y: ny as i32, ..p1.rect };
                lemma_first_goal_from(tiles, r3);
                lemma_pushed_y_ret(contacts(tiles, r3), r3, p1.grounded, p1.vel.1);
                lemma_pushed_keep_size(contacts(tiles, r3), r3, p1.grounded, p1.vel.1);
            }
        }
    }
}

/// A next level is reported only after touching a door: it is that door's
/// destination, and the player is back at its start point.
pub proof fn lemma_door_outcome(p: Player, tiles: Seq<Tile>, h: u32, burst: u32)
    ensures
        advanced(p, tiles, h, burst) matches Some((q, t)) ==> (t.next_level matches Some(n) ==> (
        exists|goal: Goal| #[trigger] tiles.contains(Tile::Goal(goal)) && goal.dest == n) && q.rect.x
            == p.start_pos.0 && q.rect.y == p.start_pos.1 && q.start_pos == p.start_pos && !t.died),
{
    let v1 = clamped(steered(p.vel, p.input), p.min_vel, p.max_vel);
    lemma_moved_door(Player { vel: v1, ..p }, tiles, h);
}

/// Dying sends the player back to its start point, with no sideways speed
/// and one more death counted; otherwise the count stays.
pub proof fn lemma_death_outcome(p: Player, tiles: Seq<Tile>, h: u32, burst: u32)
    ensures
        advanced(p, tiles, h, burst) matches Some((q, t)) ==> {
            &&& t.died ==> q.rect.x == p.start_pos.0 && q.rect.y == p.start_pos.1 && q.vel.0 == 0
                && q.death_count == p.death_count + 1 && t.next_level is None
            &&& !t.died ==> q.death_count == p.death_count
        },
{
    let v1 = clamped(steered(p.vel, p.input), p.min_vel, p.max_vel);
    lemma_moved_door(Player { vel: v1, ..p }, tiles, h);
}

/// An update never changes the player's size, its start point, or the size
/// of its screen rectangle.
pub proof fn lemma_shape_kept(p: Player, tiles: Seq<Tile>, h: u32, burst: u32)
    ensures
        advanced(p, tiles, h, burst) matches Some((q, t)) ==> {
            &&& q.rect.w == p.rect.w && q.rect.h == p.rect.h
            &&& q.start_pos == p.start_pos
            &&& q.draw_rect.w == p.draw_rect.w && q.draw_rect.h == p.draw_rect.h
        },
{
    let v1 = clamped(steered(p.vel, p.input), p.min_vel, p.max_vel);
    lemma_moved_door(Player { vel: v1, ..p }, tiles, h);
}

/// An update never changes the controls: the run input and whether the jump
/// is held stay as they were set.
pub proof fn lemma_controls_kept(p: Player, tiles: Seq<Tile>, h: u32, burst: u32)
    ensures
        advanced(p, tiles, h, burst) matches Some((q, t)) ==> q.input == p.input && q.jump == p.jump,
{
    let v1 = clamped(steered(p.vel, p.input), p.min_vel, p.max_vel);
    lemma_moved_door(Player { vel: v1, ..p }, tiles, h);
}

/// Steering: in an update the sideways speed of a valid player goes one step
/// toward the run input and stays within -2..=2: input 1 adds 1 up to 2,
/// input -1 takes 1 down to -2, input 0 slows one step toward a stop, and any
/// other input leaves it. The player keeps that speed unless it died, and
/// the report carries it.
pub proof fn lemma_steering(p: Player, tiles: Seq<Tile>, h: u32, burst: u32)
    requires
        p.wf(),
    ensures
        advanced(p, tiles, h, burst) matches Some((q, t)) ==> {
            let vx = if p.input == 1 {
                if p.vel.0 == 2 { 2int } else { p.vel.0 + 1 }
            } else if p.input == -1 {
                if p.vel.0 == -2 { -2int } else { p.vel.0 - 1 }
            } else if p.input == 0 {
                if p.vel.0 > 0 { p.vel.0 - 1 } else if p.vel.0 < 0 { p.vel.0 + 1 } else { 0int }
            } else {
                p.vel.0 as int
            };
            &&& t.burst_vel.0 == vx
            &&& !t.died ==> q.vel.0 == vx
        },
{
    let v1 = clamped(steered(p.vel, p.input), p.min_vel, p.max_vel);
    lemma_moved_door(Player { vel: v1, ..p }, tiles, h);
}

/// Falling off the screen kills: when the player's screen rectangle starts an
/// update at or below the bottom of a screen of height `h`, the update either
/// reaches a door or reports a death, sending the player back to its start
/// point. Doors of the level lead to levels from 1 on.
pub proof fn lemma_off_screen_dies(p: Player, tiles: Seq<Tile>, h: u32, burst: u32)
    requires
        p.draw_rect.y >= h,
        forall|g: Goal| #[trigger] tiles.contains(Tile::Goal(g)) ==> g.dest >= 1,
    ensures
        advanced(p, tiles, h, burst) matches Some((q, t)) ==> (t.next_level is None ==> t.died
            && q.rect.x == p.start_pos.0 && q.rect.y == p.start_pos.1),
{
    let v1 = clamped(steered(p.vel, p.input), p.min_vel, p.max_vel);
    let p0 = Player { vel: v1, ..p };
    lemma_moved_door(p0, tiles, h);
    lemma_death_outcome(p, tiles, h, burst);
    let nx = p0.rect.x + v1.0;
    if in_i32(nx) {
        let r = Rect { x: nx as i32, ..p.rect };
        lemma_first_goal_from(tiles, r);
        lemma_pushed_x_ret(contacts(tiles, r), r, v1.0);
    }
}

/// What to draw of the player in one frame.
#[derive(Debug)]
pub struct Sprite {
    /// The part of the sprite sheet to show.
    pub source: Rect,
    /// Where on the screen to show it.
    pub target: Rect,
    /// Where to show the death icon.
    pub icon: Rect,
    /// The death counter text, `:` and the number of deaths.
    pub counter: Vec<char>,
    /// Where to show the counter: 64 pixels wide per character.
    pub counter_rect: Rect,
}

/// The frame counter after one more frame of the 54-frame cycle.
pub open spec fn next_frame(n: int) -> int {
    if n + 1 == 54 {
        0
    } else {
        n + 1
    }
}

/// The counter text for a number of deaths.
pub open spec fn counter_text(deaths: u16) -> Seq<char> {
    seq![':'] + decimal(deaths as int)
}

impl Player {
    /// Advances the animation by one frame and says what to draw: the first
    /// sprite for 49 frames of each 54, then the second.
    pub fn draw(&mut self) -> (s: Sprite)
        requires
            old(self).animation_num < i32::MAX,
        ensures
            old(self).wf() ==> final(self).wf(),
            *final(self) == (Player { animation_num: next_frame(old(self).animation_num as int) as i32, ..*old(self) }),
            s.source == (if final(self).animation_num < 49 {
                rect_of(0, 0, 16, 16)
            } else {
                rect_of(16, 0, 16, 16)
            }),
            s.target == old(self).draw_rect,
            s.icon == rect_of(16, 16, 64, 64),
            s.counter@ == counter_text(old(self).death_count),
            s.counter_rect == rect_of(80, 16, 64 * s.counter@.len() as int, 64),
    {
        self.animation_num += 1;
        if self.animation_num == 54 {
            self.animation_num = 0;
        }
        let source = if self.animation_num < 49 {
            Rect::new(0, 0, 16, 16)
        } else {
            Rect::new(16, 0, 16, 16)
        };
        let mut counter: Vec<char> = Vec::new();
        counter.push(':');
        let mut digits = decimal_chars(self.death_count as i32);
        counter.append(&mut digits);
        assert(counter@ =~= counter_text(self.death_count));
        proof {
            lemma_counter_len(self.death_count);
        }
        let width = (counter.len() as u32) * 64;
        Sprite {
            source,
            target: self.draw_rect,
            icon: Rect::new(16, 16, 64, 64),
            counter,
            counter_rect: Rect::new(80, 16, width, 64),
        }
    }
}

proof fn lemma_digits_len(n: nat)
    ensures
        n < 10 ==> crate::text::digits_of(n).len() <= 1,
        n < 100 ==> crate::text::digits_of(n).len() <= 2,
        n < 1000 ==> crate::text::digits_of(n).len() <= 3,
        n < 10000 ==> crate::text::digits_of(n).len() <= 4,
        n < 100000 ==> crate::text::digits_of(n).len() <= 5,
    decreases n,
{
    if n >= 10 {
        lemma_digits_len(n / 10);
    }
}

proof fn lemma_counter_len(d: u16)
    ensures
        counter_text(d).len() <= 6,
{
    lemma_digits_len(d as nat);
}

} // verus!
