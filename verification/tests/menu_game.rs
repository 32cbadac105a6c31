use platformer::button::{Action, Button, Mouse, Selection};
use platformer::error::Overflow;
use platformer::game::{door_frame, door_rect, jump_color_of, jump_particle_color, update, Game, GameStep};
use platformer::ground::{read, save_text};
use platformer::menu::{Event, Key, Menu, MenuStep};
use platformer::particles::{discard_flagged, flagged_indexes};
use platformer::player::Player;
use platformer::rect::{Rect, Rgb};

#[test]
fn load_reads_saved_level() {
    assert_eq!(Action::load(Some("3\n")), 3);
    assert_eq!(Action::load(Some(" -2 ")), -2);
}

#[test]
fn load_defaults_to_first_level() {
    assert_eq!(Action::load(None), 1);
    assert_eq!(Action::load(Some("")), 1);
    assert_eq!(Action::load(Some("level 3")), 1);
    assert_eq!(Action::load(Some("99999999999")), 1);
}

#[test]
fn save_then_load_round_trip() {
    for level in [1, 2, 17, 0, -5, i32::MAX, i32::MIN] {
        let text: String = save_text(level).into_iter().collect();
        assert_eq!(Action::load(Some(&text)), level);
        let padded = format!("\n {}\r\n", text);
        assert_eq!(Action::load(Some(&padded)), level);
    }
}

#[test]
fn button_inside_is_inset_by_four() {
    let b = Button::new(Rect::new(1158, 990, 512, 64), Action::Start);
    assert_eq!(b.draw_rect, Rect::new(1162, 994, 504, 56));
    assert!(!b.colision);
    assert_eq!(b.action, Action::Start);
}

#[test]
fn button_functions() {
    let rect = Rect::new(0, 0, 100, 50);
    assert_eq!(Button::new(rect, Action::Start).function(None), Selection::Level(1));
    assert_eq!(Button::new(rect, Action::ClearSave).function(None), Selection::Level(0));
    assert_eq!(Button::new(rect, Action::Quit).function(None), Selection::Quit);
    assert_eq!(Button::new(rect, Action::Continue).function(Some("4")), Selection::Level(4));
    assert_eq!(Button::new(rect, Action::Continue).function(None), Selection::Level(1));
}

#[test]
fn button_draw_plan() {
    let mut b = Button::new(Rect::new(1158, 990, 512, 64), Action::Quit);
    let d = b.draw();
    assert_eq!(d.fill, Rgb(255, 255, 255));
    assert_eq!(d.fill_rect, Rect::new(1162, 994, 504, 56));
    assert_eq!(d.ink, Rgb(31, 16, 42));
    assert_eq!(d.top, Rect::new(1162, 990, 504, 4));
    assert_eq!(d.bottom, Rect::new(1162, 1050, 504, 4));
    assert_eq!(d.left, Rect::new(1158, 994, 4, 56));
    assert_eq!(d.right, Rect::new(1666, 994, 4, 56));
    assert_eq!(d.label, "QUIT");
    assert_eq!(d.label_rect, Rect::new(1350, 990, 128, 64));
    b.colision = true;
    assert_eq!(b.draw().fill, Rgb(217, 189, 200));
}

#[test]
fn button_labels() {
    let rect = Rect::new(0, 0, 512, 64);
    let c = Button::new(rect, Action::Continue).draw();
    assert_eq!((c.label, c.label_rect), ("CONTINUE", Rect::new(128, 0, 256, 64)));
    let s = Button::new(rect, Action::Start).draw();
    assert_eq!((s.label, s.label_rect), ("START", Rect::new(176, 0, 160, 64)));
    let x = Button::new(Rect::new(0, 0, 512, 80), Action::ClearSave).draw();
    assert_eq!((x.label, x.label_rect), ("CLEAR SAVE", Rect::new(96, 0, 320, 64)));
}

#[test]
fn mouse_moves_six_per_direction() {
    let mut m = Mouse::new();
    assert_eq!(m.rect, Rect::new(1264, 704, 32, 32));
    m.up = true;
    m.right = true;
    m.update().unwrap();
    assert_eq!((m.rect.x, m.rect.y), (1270, 698));
    m.down = true;
    m.update().unwrap();
    assert_eq!((m.rect.x, m.rect.y), (1276, 698));
}

#[test]
fn mouse_overflow_is_refused() {
    let mut m = Mouse::new();
    m.rect.x = i32::MAX - 3;
    m.right = true;
    assert_eq!(m.update(), Err(Overflow));
    assert_eq!(m.rect.x, i32::MAX - 3);
}

#[test]
fn menu_has_four_buttons() {
    let m = Menu::new();
    let actions: Vec<Action> = m.buttons.iter().map(|b| b.action).collect();
    assert_eq!(actions, vec![Action::Start, Action::Continue, Action::ClearSave, Action::Quit]);
    assert_eq!(m.buttons[1].rect, Rect::new(1158, 1086, 512, 64));
    assert_eq!(m.level, 0);
}

fn menu_on(index: usize) -> Menu {
    let mut m = Menu::new();
    let b = m.buttons[index].rect;
    m.mouse.rect = Rect::new(b.x + 10, b.y + 10, 32, 32);
    m.frame().unwrap();
    m
}

#[test]
fn menu_marks_button_under_cursor() {
    let m = menu_on(2);
    let marks: Vec<bool> = m.buttons.iter().map(|b| b.colision).collect();
    assert_eq!(marks, vec![false, false, true, false]);
}

#[test]
fn menu_start_chooses_first_level() {
    let mut m = menu_on(0);
    assert_eq!(m.handle(Event::KeyDown(Key::LShift)), MenuStep::Stay);
    assert_eq!(m.take_level(), Some(1));
    assert_eq!(m.take_level(), None);
}

#[test]
fn menu_continue_waits_for_save() {
    let mut m = menu_on(1);
    assert_eq!(m.handle(Event::KeyDown(Key::RShift)), MenuStep::NeedSave);
    assert_eq!(m.resume(Some("6\n")), MenuStep::Stay);
    assert_eq!(m.take_level(), Some(6));
}

#[test]
fn menu_quit_and_escape_exit() {
    let mut m = menu_on(3);
    assert_eq!(m.handle(Event::KeyDown(Key::LShift)), MenuStep::Exit);
    let mut m = Menu::new();
    assert_eq!(m.handle(Event::KeyDown(Key::Escape)), MenuStep::Exit);
    assert_eq!(m.handle(Event::Quit), MenuStep::Exit);
}

#[test]
fn menu_arrows_hold_and_release() {
    let mut m = Menu::new();
    m.handle(Event::KeyDown(Key::Left));
    m.handle(Event::KeyDown(Key::Down));
    assert!(m.mouse.left && m.mouse.down);
    m.frame().unwrap();
    assert_eq!((m.mouse.rect.x, m.mouse.rect.y), (1258, 710));
    m.handle(Event::KeyUp(Key::Left));
    assert!(!m.mouse.left && m.mouse.down);
}

#[test]
fn game_keys() {
    let map = read("0", 1).unwrap();
    let mut g = Game::new(map);
    assert_eq!(g.handle(Event::KeyDown(Key::Left)), GameStep::Play);
    assert!(g.left);
    g.handle(Event::KeyDown(Key::LShift));
    assert!(g.player.jump);
    g.handle(Event::KeyUp(Key::RShift));
    assert!(!g.player.jump);
    assert_eq!(g.handle(Event::KeyDown(Key::Escape)), GameStep::Leave);
    assert_eq!(g.handle(Event::Quit), GameStep::Exit);
}

#[test]
fn update_sets_run_input() {
    let map = read("0", 1).unwrap();
    let mut p = Player::new(Rect::new(64, 1312, 64, 64));
    update(&mut p, true, false, &map, (2560, 1440)).unwrap();
    assert_eq!(p.input, -1);
    assert_eq!(p.vel.0, -1);
    update(&mut p, true, true, &map, (2560, 1440)).unwrap();
    assert_eq!(p.input, 0);
    update(&mut p, false, true, &map, (2560, 1440)).unwrap();
    assert_eq!(p.input, 1);
}

#[test]
fn game_tick_moves_player() {
    let map = read("0", 1).unwrap();
    let mut g = Game::new(map);
    g.handle(Event::KeyDown(Key::Right));
    g.tick((2560, 1440)).unwrap();
    assert_eq!(g.player.rect.x, 17);
}

#[test]
fn door_animation_place() {
    let map = read("0,0\n0,2,2", 1).unwrap();
    assert_eq!(door_rect(&map), Some(Rect::new(0, 64, 128, 192)));
    let none = read("1,3", 1).unwrap();
    assert_eq!(door_rect(&none), None);
}

#[test]
fn door_frames() {
    assert_eq!(door_frame(0), Rect::new(0, 0, 32, 48));
    assert_eq!(door_frame(12), Rect::new(384, 0, 32, 48));
}

#[test]
fn jump_colours_from_palette() {
    let palette = [Rgb(204, 66, 94), Rgb(163, 40, 88), Rgb(107, 201, 108), Rgb(91, 166, 117)];
    for _ in 0..50 {
        assert!(palette.contains(&jump_particle_color()));
    }
}

#[test]
fn flagged_indexes_in_order() {
    assert_eq!(flagged_indexes(&vec![false, true, true, false, true]), vec![1, 2, 4]);
}

#[test]
fn discard_keeps_unflagged_in_order() {
    let mut v = vec!['a', 'b', 'c', 'd', 'e'];
    discard_flagged(&mut v, &vec![true, false, true, true, false]);
    assert_eq!(v, vec!['b', 'e']);
}

#[test]
fn discard_nothing_or_everything() {
    let mut v = vec![1, 2, 3];
    discard_flagged(&mut v, &vec![false, false, false]);
    assert_eq!(v, vec![1, 2, 3]);
    discard_flagged(&mut v, &vec![true, true, true]);
    assert!(v.is_empty());
}

#[test]
fn menu_frame_overflow_changes_nothing() {
    let mut m = Menu::new();
    m.mouse.rect.y = i32::MIN + 2;
    m.mouse.up = true;
    assert_eq!(m.frame(), Err(Overflow));
    assert_eq!(m.mouse.rect.y, i32::MIN + 2);
}

#[test]
fn jump_colour_for_each_pick() {
    assert_eq!(jump_color_of(0), Rgb(204, 66, 94));
    assert_eq!(jump_color_of(1), Rgb(163, 40, 88));
    assert_eq!(jump_color_of(2), Rgb(107, 201, 108));
    assert_eq!(jump_color_of(3), Rgb(91, 166, 117));
}
