use vstd::prelude::*;
use crate::error::Overflow;
use crate::rect::{clamp_position, rect_of, Rect, Rgb};
use crate::text::{
    decimal, is_white_space, lemma_decimal_not_blank, lemma_decimal_round_trip, lemma_trim_around,
    parse_trimmed_i32, parsed_i32, trimmed,
};

verus! {

/// What a menu button does when pressed.
#[derive(Clone, Copy, Debug, PartialEq, Eq, Structural)]
pub enum Action {
    /// Starts the first level.
    Start,
    /// Starts the level named in the save file.
    Continue,
    /// Starts nothing.
    ClearSave,
    /// Leaves the game.
    Quit,
}

/// The outcome of pressing a button.
#[derive(Clone, Copy, Debug, PartialEq, Eq, Structural)]
pub enum Selection {
    /// Leave the game.
    Quit,
    /// Go to this level (0: stay in the menu).
    Level(i32),
}

/// The text of the save file, if it could be read.
pub open spec fn saved_text(saved: Option<&str>) -> Option<Seq<char>> {
    match saved {
        Some(s) => Some(s@),
        None => None,
    }
}

/// The level that Continue starts: the number in the save file, read without
/// surrounding whitespace; 1 when the file cannot be read or holds no number.
pub open spec fn loaded_level(saved: Option<Seq<char>>) -> i32 {
    match saved {
        Some(s) => match parsed_i32(trimmed(s)) {
            Some(v) => v,
            None => 1i32,
        },
        None => 1i32,
    }
}

/// The save file that starting a level writes (its number in decimal) makes
/// Continue start that same level, also with whitespace (such as a line
/// break an editor added) around the number.
pub proof fn lemma_continue_loads_saved_level(level: i32, before: Seq<char>, after: Seq<char>)
    requires
        forall|i: int| 0 <= i < before.len() ==> is_white_space(#[trigger] before[i]),
        forall|i: int| 0 <= i < after.len() ==> is_white_space(#[trigger] after[i]),
    ensures
        loaded_level(Some(decimal(level as int))) == level,
        loaded_level(Some(before + decimal(level as int) + after)) == level,
{
    lemma_decimal_round_trip(level);
    lemma_decimal_not_blank(level);
    lemma_trim_around(before, decimal(level as int), after);
}

impl Action {
    /// The level named by the text of the save file (`None`: it could not be read).
    pub fn load(saved: Option<&str>) -> (level: i32)
        ensures
            level == loaded_level(saved_text(saved)),
    {
        match saved {
            Some(s) => match parse_trimmed_i32(s) {
                Some(v) => v,
                None => 1,
            },
            None => 1,
        }
    }
}

/// A menu button.
#[derive(Clone, Copy, Debug, PartialEq, Eq, Structural)]
pub struct Button {
    pub rect: Rect,
    /// The inside, four pixels in from the border.
    pub draw_rect: Rect,
    /// Whether the cursor is on the button.
    pub colision: bool,
    pub action: Action,
}

/// The inside of a button rectangle: four pixels in from each side.
pub open spec fn inner_rect(r: Rect) -> Rect {
    rect_of(r.x + 4, r.y + 4, (r.w as u32) - 8, (r.h as u32) - 8)
}

/// What to draw for a button.
#[derive(Debug)]
pub struct ButtonDraw {
    /// The colour of the inside: pink under the cursor, else white.
    pub fill: Rgb,
    pub fill_rect: Rect,
    /// The colour of the border and the label.
    pub ink: Rgb,
    pub top: Rect,
    pub bottom: Rect,
    pub left: Rect,
    pub right: Rect,
    pub label: &'static str,
    pub label_rect: Rect,
}

/// The horizontal centre of a rectangle, as a point (clamped) holds it.
pub open spec fn center_x(r: Rect) -> int {
    clamp_position(r.x + r.w / 2)
}

impl Button {
    /// A button on `rect`, with its inside four pixels in from the border.
    pub fn new(rect: Rect, action_in: Action) -> (b: Button)
        requires
            rect.x + 4 <= i32::MAX,
            rect.y + 4 <= i32::MAX,
            rect.w as u32 >= 8,
            rect.h as u32 >= 8,
        ensures
            b == (Button { rect, draw_rect: inner_rect(rect), colision: false, action: action_in }),
    {
        Button {
            rect,
            draw_rect: Rect::new(rect.x + 4, rect.y + 4, rect.width() - 8, rect.height() - 8),
            action: match action_in {
                Action::Quit => Action::Quit,
                Action::Start => Action::Start,
                Action::ClearSave => Action::ClearSave,
                Action::Continue => Action::Continue,
            },
            colision: false,
        }
    }

    /// Presses the button: Start gives level 1, ClearSave 0, Continue the
    /// level of the save file's text `saved`, Quit leaves.
    pub fn function(&self, saved: Option<&str>) -> (s: Selection)
        ensures
            s == (match self.action {
                Action::Quit => Selection::Quit,
                Action::Start => Selection::Level(1),
                Action::Continue => Selection::Level(loaded_level(saved_text(saved))),
                Action::ClearSave => Selection::Level(0),
            }),
    {
        match self.action {
            Action::Quit => Selection::Quit,
            Action::Start => Selection::Level(1),
            Action::Continue => Selection::Level(Action::load(saved)),
            Action::ClearSave => Selection::Level(0),
        }
    }

    /// What to draw: the inside, a four-pixel border with open corners, and
    /// the label centred on the button.
    pub fn draw(&self) -> (d: ButtonDraw)
        requires
            self.rect.wf(),
            self.rect.w >= 8,
            self.rect.h >= 8,
        ensures
            d.fill == (if self.colision {
                Rgb(217, 189, 200)
            } else {
                Rgb(255, 255, 255)
            }),
            d.fill_rect == self.draw_rect,
            d.ink == Rgb(31, 16, 42),
            d.top == rect_of(self.rect.x + 4, self.rect.y as int, self.rect.w - 8, 4),
            d.bottom == rect_of(self.rect.x + 4, self.rect.y + self.rect.h - 4, self.rect.w - 8, 4),
            d.left == rect_of(self.rect.x as int, self.rect.y + 4, 4, self.rect.h - 8),
            d.right == rect_of(self.rect.x + self.rect.w - 4, self.rect.y + 4, 4, self.rect.h - 8),
            match self.action {
                Action::Quit => d.label@ == "QUIT"@ && d.label_rect == rect_of(
                    center_x(self.rect) - 64,
                    self.rect.y as int,
                    128,
                    self.rect.h as int,
                ),
                Action::Continue => d.label@ == "CONTINUE"@ && d.label_rect == rect_of(
                    center_x(self.rect) - 128,
                    self.rect.y as int,
                    256,
                    self.rect.h as int,
                ),
                Action::Start => d.label@ == "START"@ && d.label_rect == rect_of(
                    center_x(self.rect) - 80,
                    self.rect.y as int,
                    160,
                    self.rect.h as int,
                ),
                Action::ClearSave => d.label@ == "CLEAR SAVE"@ && d.label_rect == rect_of(
                    center_x(self.rect) - 160,
                    self.rect.y as int,
                    320,
                    64,
                ),
            },
    {
        let r = self.rect;
        let fill = if self.colision {
            Rgb(217, 189, 200)
        } else {
            Rgb(255, 255, 255)
        };
        let cx0 = r.x + r.w / 2;
        let cx = if cx0 > 1073741823 {
            1073741823
        } else {
            cx0
        };
        let (label, label_rect) = match self.action {
            Action::Quit => ("QUIT", Rect::new(cx - 64, r.y, 128, r.height())),
            Action::Continue => ("CONTINUE", Rect::new(cx - 128, r.y, 256, r.height())),
            Action::Start => ("START", Rect::new(cx - 80, r.y, 160, r.height())),
            Action::ClearSave => ("CLEAR SAVE", Rect::new(cx - 160, r.y, 320, 64)),
        };
        ButtonDraw {
            fill,
            fill_rect: self.draw_rect,
            ink: Rgb(31, 16, 42),
            top: Rect::new(r.x + 4, r.y, r.width() - 8, 4),
            bottom: Rect::new(r.x + 4, r.y + r.height() as i32 - 4, r.width() - 8, 4),
            left: Rect::new(r.x, r.y + 4, 4, r.height() - 8),
            right: Rect::new(r.x + r.width() as i32 - 4, r.y + 4, 4, r.height() - 8),
            label,
            label_rect,
        }
    }
}

/// A cursor moved with the arrow keys, for playing the menu with a joystick.
#[derive(Clone, Copy, Debug, PartialEq, Eq, Structural)]
pub struct Mouse {
    pub rect: Rect,
    pub up: bool,
    pub down: bool,
    pub left: bool,
    pub right: bool,
}

/// The cursor's vertical position after a move: 6 up, 6 down, as held.
pub open spec fn moved_y(m: Mouse) -> int {
    m.rect.y - (if m.up { 6int } else { 0int }) + (if m.down { 6int } else { 0int })
}

/// The cursor's horizontal position after a move: 6 left, 6 right, as held.
pub open spec fn moved_x(m: Mouse) -> int {
    m.rect.x - (if m.left { 6int } else { 0int }) + (if m.right { 6int } else { 0int })
}

/// One step of the cursor: 6 pixels up with Up alone held, 6 down with Down
/// alone, 6 left with Left alone, 6 right with Right alone; opposite
/// directions held together, or neither, leave that coordinate.
pub proof fn lemma_cursor_step(m: Mouse)
    ensures
        m.up && !m.down ==> moved_y(m) == m.rect.y - 6,
        m.down && !m.up ==> moved_y(m) == m.rect.y + 6,
        m.up == m.down ==> moved_y(m) == m.rect.y,
        m.left && !m.right ==> moved_x(m) == m.rect.x - 6,
        m.right && !m.left ==> moved_x(m) == m.rect.x + 6,
        m.left == m.right ==> moved_x(m) == m.rect.x,
{
}

/// Whether each step of the move stays within `i32`.
pub open spec fn move_fits(m: Mouse) -> bool {
    &&& m.up ==> i32::MIN <= m.rect.y - 6
    &&& m.down ==> m.rect.y - (if m.up { 6int } else { 0int }) + 6 <= i32::MAX
    &&& m.left ==> i32::MIN <= m.rect.x - 6
    &&& m.right ==> m.rect.x - (if m.left { 6int } else { 0int }) + 6 <= i32::MAX
}

impl Mouse {
    /// The cursor at its start, as `new` builds it.
    pub open spec fn spec_start() -> Mouse {
        Mouse { rect: rect_of(1264, 704, 32, 32), up: false, down: false, left: false, right: false }
    }

    /// The cursor at its start, in the bottom right, with no key held.
    pub fn new() -> (m: Mouse)
        ensures
            m == (Mouse { rect: rect_of(1264, 704, 32, 32), up: false, down: false, left: false, right: false }),
    {
        Mouse { rect: Rect::new(1264, 704, 32, 32), up: false, down: false, left: false, right: false }
    }

    /// Moves the cursor 6 pixels in each held direction. Fails, leaving the
    /// cursor unchanged, when a step would leave `i32`.
    pub fn update(&mut self) -> (res: Result<(), Overflow>)
        ensures
            res is Ok <==> move_fits(*old(self)),
            res is Ok ==> *final(self) == (Mouse {
                rect: Rect { x: moved_x(*old(self)) as i32, y: moved_y(*old(self)) as i32, ..old(self).rect },
                ..*old(self)
            }),
            res is Err ==> *final(self) == *old(self),
    {
        let mut r = self.rect;
        if self.up {
            if r.y < i32::MIN + 6 {
                return Err(Overflow);
            }
            r.y -= 6;
        }
        if self.down {
            if r.y > i32::MAX - 6 {
                return Err(Overflow);
            }
            r.y += 6;
        }
        if self.left {
            if r.x < i32::MIN + 6 {
                return Err(Overflow);
            }
            r.x -= 6;
        }
        if self.right {
            if r.x > i32::MAX - 6 {
                return Err(Overflow);
            }
            r.x += 6;
        }
        self.rect = r;
        Ok(())
    }
}

} // verus!
