use platformer::error::Overflow;
use platformer::ground::{read, save_text, Goal, Ground, Paint, Spike, Tile};
use platformer::rect::{Rect, Rgb};

fn ground(x: i32, y: i32) -> Tile {
    Tile::Ground(Ground { rect: Rect::new(x * 16, y * 16, 16, 16), draw_rect: Rect::new(x * 64, y * 64, 64, 64) })
}

#[test]
fn level_items_become_tiles() {
    let map = read("1,0,2\n3,1\n", 4).unwrap();
    assert_eq!(map.len(), 2);
    assert_eq!(map[0].len(), 3);
    assert_eq!(map[1].len(), 2);
    assert_eq!(map[0][0], ground(0, 0));
    assert_eq!(map[0][1], Tile::Air);
    assert_eq!(
        map[0][2],
        Tile::Goal(Goal { rect: Rect::new(32, 0, 16, 16), draw_rect: Rect::new(128, 0, 64, 64), dest: 5 })
    );
    assert_eq!(
        map[1][0],
        Tile::Spike(Spike { rect: Rect::new(0, 16, 16, 16), draw_rect: Rect::new(0, 64, 64, 64) })
    );
    assert_eq!(map[1][1], ground(1, 1));
}

#[test]
fn level_tile_rectangles_exact() {
    let map = read("0,0,0\n0,0,1", 1).unwrap();
    assert_eq!(map[1][2], Tile::Ground(Ground { rect: Rect { x: 32, y: 16, w: 16, h: 16 }, draw_rect: Rect { x: 128, y: 64, w: 64, h: 64 } }));
}

#[test]
fn level_unknown_items_are_air() {
    let map = read("4, 1,11,,x", 1).unwrap();
    assert_eq!(map.len(), 1);
    assert_eq!(map[0], vec![Tile::Air; 5]);
}

#[test]
fn level_windows_line_endings() {
    let map = read("1\r\n2\r\n", 7).unwrap();
    assert_eq!(map.len(), 2);
    assert_eq!(map[0][0], ground(0, 0));
    assert!(matches!(map[1][0], Tile::Goal(g) if g.dest == 8));
}

#[test]
fn level_empty_text_has_no_rows() {
    assert_eq!(read("", 1).unwrap().len(), 0);
}

#[test]
fn level_blank_line_is_one_air_tile() {
    let map = read("\n1", 1).unwrap();
    assert_eq!(map.len(), 2);
    assert_eq!(map[0], vec![Tile::Air]);
    assert_eq!(map[1], vec![ground(0, 1)]);
}

#[test]
fn level_door_past_last_level_overflows() {
    assert_eq!(read("0,2", i32::MAX), Err(Overflow));
    assert!(read("1,3,0", i32::MAX).is_ok());
}

#[test]
fn tiles_paint_colours() {
    let map = read("1,2,3,0", 1).unwrap();
    assert_eq!(map[0][0].draw(), Some(Paint { color: Rgb(0, 0, 0), rect: Rect::new(0, 0, 64, 64) }));
    assert_eq!(map[0][1].draw(), Some(Paint { color: Rgb(0, 100, 0), rect: Rect::new(64, 0, 64, 64) }));
    assert_eq!(map[0][2].draw(), Some(Paint { color: Rgb(152, 0, 0), rect: Rect::new(128, 0, 64, 64) }));
    assert_eq!(map[0][3].draw(), None);
}

#[test]
fn tile_constructors() {
    assert_eq!(Ground::new(2, 3).rect, Rect::new(32, 48, 16, 16));
    assert_eq!(Goal::new(2, 3, 9).draw_rect, Rect::new(128, 192, 64, 64));
    assert_eq!(Goal::new(2, 3, 9).dest, 9);
    assert_eq!(Spike::new(0, 1).rect, Rect::new(0, 16, 16, 16));
}

#[test]
fn save_text_is_decimal() {
    let s: String = save_text(12).into_iter().collect();
    assert_eq!(s, "12");
    let s: String = save_text(-3).into_iter().collect();
    assert_eq!(s, "-3");
}

