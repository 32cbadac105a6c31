use platformer::ground::{read, Tile};
use platformer::player::{Player, Vec2};
use platformer::rect::Rect;

const CANVAS: (u32, u32) = (2560, 1440);

/// A level whose row 21 (level y 336..352) holds the given items.
fn level_with_row21(row: &str, level: i32) -> Vec<Vec<Tile>> {
    let mut text = String::new();
    for _ in 0..21 {
        text.push_str("0\n");
    }
    text.push_str(row);
    read(&text, level).unwrap()
}

fn start_player() -> Player {
    Player::new(Rect::new(64, 1312, 64, 64))
}

#[test]
fn new_player_is_a_quarter_of_its_screen_rect() {
    let p = start_player();
    assert_eq!(p.rect, Rect::new(16, 328, 16, 16));
    assert_eq!(p.draw_rect, Rect::new(64, 1313, 64, 64));
    assert_eq!(p.start_pos, Vec2(16, 328));
    assert_eq!(p.previous_position, p.rect);
    assert_eq!(p.vel, Vec2(0, 0));
    assert_eq!(p.min_vel, Vec2(-2, -8));
    assert_eq!(p.max_vel, Vec2(2, 8));
    assert_eq!(p.death_count, 0);
}

#[test]
fn new_player_rounds_toward_zero() {
    let p = Player::new(Rect::new(-5, -9, 8, 8));
    assert_eq!(p.start_pos, Vec2(-1, -2));
    assert_eq!(p.rect, Rect::new(-1, -2, 2, 2));
}

#[test]
fn falling_player_gains_speed() {
    let map = level_with_row21("0", 1);
    let mut p = start_player();
    let t = p.update(&map, CANVAS).unwrap();
    assert_eq!(t.next_level, None);
    assert!(!t.died);
    assert_eq!(p.vel, Vec2(0, 1));
    assert_eq!(p.rect, Rect::new(16, 328, 16, 16));
    assert_eq!(p.draw_rect, Rect::new(64, 1312, 64, 64));
    assert_eq!(p.previous_position.y, 327);
    p.update(&map, CANVAS).unwrap();
    assert_eq!(p.rect.y, 329);
    assert_eq!(p.vel, Vec2(0, 2));
}

#[test]
fn player_lands_on_ground() {
    let map = level_with_row21("1,1,1", 1);
    let mut p = start_player();
    p.update(&map, CANVAS).unwrap();
    assert_eq!(p.vel, Vec2(0, 1));
    p.update(&map, CANVAS).unwrap();
    assert_eq!(p.rect.y, 320);
    assert_eq!(p.vel, Vec2(0, 0));
    assert!(!p.grounded);
    assert_eq!(p.draw_rect.y, 1280);
}

#[test]
fn player_jumps_from_ground() {
    let map = level_with_row21("1,1,1", 1);
    let mut p = start_player();
    p.update(&map, CANVAS).unwrap();
    p.jump = true;
    let t = p.update(&map, CANVAS).unwrap();
    assert_eq!(p.vel, Vec2(0, -8));
    assert_eq!(p.particle_delay, 9);
    let n = t.jump_burst.unwrap();
    assert!((10..20).contains(&n));
    assert_eq!(t.burst_origin, Vec2(64, 1312));
}

#[test]
fn jump_particle_counts_vary() {
    let map = level_with_row21("1,1,1", 1);
    let mut seen = std::collections::BTreeSet::new();
    for _ in 0..200 {
        let mut p = start_player();
        p.update(&map, CANVAS).unwrap();
        p.jump = true;
        let t = p.update(&map, CANVAS).unwrap();
        seen.insert(t.jump_burst.unwrap());
    }
    assert!(seen.len() > 1);
    assert!(seen.iter().all(|n| (10..20).contains(n)));
}

#[test]
fn advance_uses_given_burst() {
    let map = level_with_row21("1,1,1", 1);
    let mut p = start_player();
    p.advance(&map, CANVAS, 13).unwrap();
    p.jump = true;
    let t = p.advance(&map, CANVAS, 13).unwrap();
    assert_eq!(t.jump_burst, Some(13));
}

#[test]
fn spike_kills_and_respawns() {
    let map = level_with_row21("0,3", 1);
    let mut p = start_player();
    let t = p.update(&map, CANVAS).unwrap();
    assert!(!t.died);
    let t = p.update(&map, CANVAS).unwrap();
    assert!(t.died);
    assert_eq!(t.burst_vel, Vec2(0, 1));
    assert_eq!(p.death_count, 1);
    assert_eq!((p.rect.x, p.rect.y), (16, 328));
    assert_eq!(p.vel, Vec2(0, 1));
}

#[test]
fn door_reports_next_level() {
    let map = level_with_row21("0,2", 4);
    let mut p = start_player();
    let t = p.update(&map, CANVAS).unwrap();
    assert_eq!(t.next_level, Some(5));
    assert!(!t.died);
    assert_eq!((p.rect.x, p.rect.y), (16, 328));
}

#[test]
fn falling_off_screen_kills() {
    let map = level_with_row21("0", 1);
    let mut p = start_player();
    let t = p.update(&map, (100, 100)).unwrap();
    assert!(t.died);
    assert_eq!(p.death_count, 1);
}

#[test]
fn running_right_on_empty_level() {
    let map = level_with_row21("0", 1);
    let mut p = start_player();
    p.input = 1;
    p.update(&map, CANVAS).unwrap();
    assert_eq!(p.vel, Vec2(1, 1));
    assert_eq!(p.rect.x, 17);
    assert_eq!(p.draw_rect.x, 68);
    p.update(&map, CANVAS).unwrap();
    p.update(&map, CANVAS).unwrap();
    assert_eq!(p.vel.0, 2);
    assert_eq!(p.rect.x, 21);
    p.input = 0;
    p.update(&map, CANVAS).unwrap();
    assert_eq!(p.vel.0, 1);
}

#[test]
fn wall_stops_running_right() {
    let mut text = String::new();
    for _ in 0..20 {
        text.push_str("0\n");
    }
    text.push_str("0,0,1\n");
    let map = read(&text, 1).unwrap();
    let mut p = start_player();
    p.input = 1;
    p.update(&map, CANVAS).unwrap();
    assert_eq!(p.rect.x, 16);
}

#[test]
fn counter_shows_deaths() {
    let mut p = start_player();
    p.death_count = 12;
    let s = p.draw();
    assert_eq!(s.counter, vec![':', '1', '2']);
    assert_eq!(s.counter_rect, Rect::new(80, 16, 192, 64));
    assert_eq!(s.icon, Rect::new(16, 16, 64, 64));
    assert_eq!(s.target, p.draw_rect);
    assert_eq!(p.animation_num, 1);
    assert_eq!(s.source, Rect::new(0, 0, 16, 16));
}

#[test]
fn animation_cycles_in_54_frames() {
    let mut p = start_player();
    let mut sources = Vec::new();
    for _ in 0..54 {
        sources.push(p.draw().source);
    }
    assert_eq!(p.animation_num, 0);
    assert_eq!(sources[47], Rect::new(0, 0, 16, 16));
    assert_eq!(sources[48], Rect::new(16, 0, 16, 16));
    assert_eq!(sources[52], Rect::new(16, 0, 16, 16));
    assert_eq!(sources[53], Rect::new(0, 0, 16, 16));
}

#[test]
fn overflowing_move_is_refused_and_changes_nothing() {
    let map = level_with_row21("0", 1);
    let mut p = start_player();
    p.rect.x = i32::MAX - 1;
    p.vel = Vec2(2, 0);
    p.input = 1;
    let before = p;
    assert_eq!(p.update(&map, CANVAS), Err(platformer::error::Overflow));
    assert_eq!(p, before);
}

#[test]
fn death_counter_overflow_is_refused() {
    let map = level_with_row21("0", 1);
    let mut p = start_player();
    p.death_count = u16::MAX;
    assert!(p.update(&map, (100, 100)).is_err());
    assert_eq!(p.death_count, u16::MAX);
}

#[test]
fn updates_keep_size_and_start() {
    let map = level_with_row21("1,3,2", 1);
    let mut p = start_player();
    p.input = -1;
    for _ in 0..30 {
        let t = p.update(&map, CANVAS).unwrap();
        assert_eq!((p.rect.w, p.rect.h), (16, 16));
        assert_eq!((p.draw_rect.w, p.draw_rect.h), (64, 64));
        assert_eq!(p.start_pos, Vec2(16, 328));
        if t.died {
            assert_eq!((p.rect.x, p.rect.y), (16, 328));
        }
    }
}

#[test]
fn steering_overflow_is_refused() {
    let map = level_with_row21("0", 1);
    let mut p = start_player();
    p.vel = Vec2(i32::MAX, 0);
    p.input = 1;
    let before = p;
    assert!(p.update(&map, CANVAS).is_err());
    assert_eq!(p, before);
}

#[test]
fn any_speed_is_clamped_in_one_update() {
    let map = level_with_row21("0", 1);
    let mut p = start_player();
    p.vel = Vec2(-50, -50);
    p.input = 0;
    p.update(&map, CANVAS).unwrap();
    assert_eq!(p.vel, Vec2(-2, -7));
}
