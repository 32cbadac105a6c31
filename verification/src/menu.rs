use vstd::prelude::*;
use crate::button::{move_fits, moved_x, moved_y, inner_rect, loaded_level, saved_text, Action, Button, Mouse, Selection};
use crate::error::Overflow;
use crate::rect::{overlaps, rect_of, Rect};

verus! {

/// The keys the game reacts to.
#[derive(Clone, Copy, Debug, PartialEq, Eq, Structural)]
pub enum Key {
    Left,
    Right,
    Up,
    Down,
    LShift,
    RShift,
    Escape,
    /// Any other key, or a key without a code.
    Other,
}

/// An input event.
#[derive(Clone, Copy, Debug, PartialEq, Eq, Structural)]
pub enum Event {
    /// The window is closed.
    Quit,
    KeyDown(Key),
    KeyUp(Key),
    /// Anything else.
    Other,
}

/// How a run of button presses ended.
#[derive(Clone, Copy, Debug, PartialEq, Eq, Structural)]
pub enum Press {
    /// All pressed buttons were handled; this is the chosen level.
    Done(i32),
    /// A Quit button was pressed.
    Exit,
    /// The Continue button at this index waits for the save file.
    Wait(usize),
}

/// What the menu asks of its caller after an event.
#[derive(Clone, Copy, Debug, PartialEq, Eq, Structural)]
pub enum MenuStep {
    /// Go on.
    Stay,
    /// Leave the game.
    Exit,
    /// Read the save file and hand its text to `Menu::resume`.
    NeedSave,
}

/// The title menu: its buttons, the cursor and the level chosen.
#[derive(Debug)]
pub struct Menu {
    pub buttons: Vec<Button>,
    pub mouse: Mouse,
    /// The level to start; 0 for none.
    pub level: i32,
    /// The Continue button that waits for the save file, if any.
    pub pending: Option<usize>,
}

/// Pressing, in order from index `i`, every button under the cursor, with
/// `level` chosen so far: Start chooses 1, ClearSave 0, Quit leaves at
/// once, and Continue waits for the save file.
pub open spec fn press_from(bs: Seq<Button>, i: int, level: i32) -> Press
    decreases bs.len() - i,
{
    if i < 0 || i >= bs.len() {
        Press::Done(level)
    } else if !bs[i].colision {
        press_from(bs, i + 1, level)
    } else {
        match bs[i].action {
            Action::Quit => Press::Exit,
            Action::Start => press_from(bs, i + 1, 1),
            Action::ClearSave => press_from(bs, i + 1, 0),
            Action::Continue => Press::Wait(i as usize),
        }
    }
}

/// Pressing the buttons under the cursor from index `i` on, when no Quit or
/// Continue button stops it, chooses the level of the last button pressed:
/// 1 for Start, 0 for Clear Save (no level started); with no button under
/// the cursor the level chosen so far stays.
pub proof fn lemma_press_chooses_last(bs: Seq<Button>, i: int, level: i32)
    requires
        0 <= i,
    ensures
        press_from(bs, i, level) matches Press::Done(l) ==> {
            &&& forall|k: int|
                i <= k < bs.len() && #[trigger] bs[k].colision ==> bs[k].action == Action::Start
                    || bs[k].action == Action::ClearSave
            &&& (forall|k: int| i <= k < bs.len() ==> !#[trigger] bs[k].colision) ==> l == level
            &&& forall|k: int|
                i <= k < bs.len() && #[trigger] bs[k].colision && (forall|j: int|
                    k < j < bs.len() ==> !#[trigger] bs[j].colision) ==> {
                    &&& bs[k].action == Action::ClearSave ==> l == 0
                    &&& bs[k].action == Action::Start ==> l == 1
                }
        },
    decreases bs.len() - i,
{
    if i < bs.len() {
        lemma_press_chooses_last(bs, i + 1, level);
        if bs[i].colision {
            match bs[i].action {
                Action::Start => lemma_press_chooses_last(bs, i + 1, 1),
                Action::ClearSave => lemma_press_chooses_last(bs, i + 1, 0),
                _ => {},
            }
        }
    }
}

/// Pressing the buttons under the cursor from index `i` on stops at the first
/// Quit or Continue button under the cursor: a Quit button leaves, and a
/// Continue button waits for the save file at its own index; every button
/// under the cursor before it is a Start or Clear Save button.
pub proof fn lemma_press_stops_at_quit_or_continue(bs: Seq<Button>, i: int, level: i32)
    requires
        0 <= i,
        bs.len() <= usize::MAX,
    ensures
        press_from(bs, i, level) == Press::Exit ==> exists|k: int|
            i <= k < bs.len() && #[trigger] bs[k].colision && bs[k].action == Action::Quit && forall|
                j: int,
            | i <= j < k && #[trigger] bs[j].colision ==> bs[j].action == Action::Start || bs[j].action
                == Action::ClearSave,
        press_from(bs, i, level) matches Press::Wait(k) ==> {
            &&& i <= k < bs.len() && bs[k as int].colision && bs[k as int].action == Action::Continue
            &&& forall|j: int|
                i <= j < k && #[trigger] bs[j].colision ==> bs[j].action == Action::Start || bs[j].action
                    == Action::ClearSave
        },
    decreases bs.len() - i,
{
    if i < bs.len() {
        lemma_press_stops_at_quit_or_continue(bs, i + 1, level);
        if bs[i].colision {
            match bs[i].action {
                Action::Start => lemma_press_stops_at_quit_or_continue(bs, i + 1, 1),
                Action::ClearSave => lemma_press_stops_at_quit_or_continue(bs, i + 1, 0),
                Action::Quit => {
                    assert(bs[i].colision && bs[i].action == Action::Quit);
                },
                Action::Continue => {
                    assert(press_from(bs, i, level) == Press::Wait(i as usize));
                    assert((i as usize) as int == i);
                },
            }
        }
    }
}

/// Shift in the menu presses the buttons under the cursor: when it stays in
/// the menu, the level chosen is 0 if the last button pressed is Clear Save
/// (the same level `Button::function` gives it), 1 if it is Start, and the
/// level chosen before when no button is under the cursor.
pub proof fn lemma_shift_presses_buttons(m: Menu, e: Event)
    requires
        e == Event::KeyDown(Key::LShift) || e == Event::KeyDown(Key::RShift),
    ensures
        ({
            let (m2, step) = menu_after(m, e);
            let bs = m.buttons@;
            step == MenuStep::Stay ==> {
                &&& m2.pending is None
                &&& m2.mouse == m.mouse
                &&& m2.buttons@ == bs
                &&& (forall|k: int| 0 <= k < bs.len() ==> !#[trigger] bs[k].colision) ==> m2.level
                    == m.level
                &&& forall|k: int|
                    0 <= k < bs.len() && #[trigger] bs[k].colision && (forall|j: int|
                        k < j < bs.len() ==> !#[trigger] bs[j].colision) ==> {
                        &&& bs[k].action == Action::ClearSave ==> m2.level == 0
                        &&& bs[k].action == Action::Start ==> m2.level == 1
                    }
            }
        }),
{
    lemma_press_chooses_last(m.buttons@, 0, m.level);
}

/// The arrow keys in the menu hold and release the cursor's directions: a
/// key pressed sets its direction and a key released clears it, whatever it
/// was, leaving the other directions, the cursor's place, the buttons and
/// the level as they were. So after Up is released the next frame does not
/// move the cursor up, and after Down is released it does not move it down
/// (likewise Left and Right).
pub proof fn lemma_arrows_hold_and_release(m: Menu)
    ensures
        ({
            let (a, s) = menu_after(m, Event::KeyDown(Key::Up));
            &&& s == MenuStep::Stay && a.mouse.up && a.mouse.rect == m.mouse.rect
            &&& a.mouse.down == m.mouse.down && a.mouse.left == m.mouse.left && a.mouse.right == m.mouse.right
            &&& a.buttons@ == m.buttons@ && a.level == m.level && a.pending == m.pending
        }),
        ({
            let (a, s) = menu_after(m, Event::KeyUp(Key::Up));
            &&& s == MenuStep::Stay && !a.mouse.up && a.mouse.rect == m.mouse.rect
            &&& a.mouse.down == m.mouse.down && a.mouse.left == m.mouse.left && a.mouse.right == m.mouse.right
            &&& a.buttons@ == m.buttons@ && a.level == m.level && a.pending == m.pending
            &&& moved_y(a.mouse) >= m.mouse.rect.y
        }),
        ({
            let (a, s) = menu_after(m, Event::KeyDown(Key::Down));
            &&& s == MenuStep::Stay && a.mouse.down && a.mouse.rect == m.mouse.rect
            &&& a.mouse.up == m.mouse.up && a.mouse.left == m.mouse.left && a.mouse.right == m.mouse.right
            &&& a.buttons@ == m.buttons@ && a.level == m.level && a.pending == m.pending
        }),
        ({
            let (a, s) = menu_after(m, Event::KeyUp(Key::Down));
            &&& s == MenuStep::Stay && !a.mouse.down && a.mouse.rect == m.mouse.rect
            &&& a.mouse.up == m.mouse.up && a.mouse.left == m.mouse.left && a.mouse.right == m.mouse.right
            &&& a.buttons@ == m.buttons@ && a.level == m.level && a.pending == m.pending
            &&& moved_y(a.mouse) <= m.mouse.rect.y
        }),
        ({
            let (a, s) = menu_after(m, Event::KeyDown(Key::Left));
            &&& s == MenuStep::Stay && a.mouse.left && a.mouse.rect == m.mouse.rect
            &&& a.mouse.up == m.mouse.up && a.mouse.down == m.mouse.down && a.mouse.right == m.mouse.right
            &&& a.buttons@ == m.buttons@ && a.level == m.level && a.pending == m.pending
        }),
        ({
            let (a, s) = menu_after(m, Event::KeyUp(Key::Left));
            &&& s == MenuStep::Stay && !a.mouse.left && a.mouse.rect == m.mouse.rect
            &&& a.mouse.up == m.mouse.up && a.mouse.down == m.mouse.down && a.mouse.right == m.mouse.right
            &&& a.buttons@ == m.buttons@ && a.level == m.level && a.pending == m.pending
            &&& moved_x(a.mouse) >= m.mouse.rect.x
        }),
        ({
            let (a, s) = menu_after(m, Event::KeyDown(Key::Right));
            &&& s == MenuStep::Stay && a.mouse.right && a.mouse.rect == m.mouse.rect
            &&& a.mouse.up == m.mouse.up && a.mouse.down == m.mouse.down && a.mouse.left == m.mouse.left
            &&& a.buttons@ == m.buttons@ && a.level == m.level && a.pending == m.pending
        }),
        ({
            let (a, s) = menu_after(m, Event::KeyUp(Key::Right));
            &&& s == MenuStep::Stay && !a.mouse.right && a.mouse.rect == m.mouse.rect
            &&& a.mouse.up == m.mouse.up && a.mouse.down == m.mouse.down && a.mouse.left == m.mouse.left
            &&& a.buttons@ == m.buttons@ && a.level == m.level && a.pending == m.pending
            &&& moved_x(a.mouse) <= m.mouse.rect.x
        }),
{
}

/// In the menu, Escape and closing the window both leave the game, changing
/// nothing of the menu.
pub proof fn lemma_menu_leaves(m: Menu)
    ensures
        ({
            let (a, s) = menu_after(m, Event::KeyDown(Key::Escape));
            s == MenuStep::Exit && a.mouse == m.mouse && a.buttons@ == m.buttons@ && a.level == m.level
                && a.pending == m.pending
        }),
        ({
            let (a, s) = menu_after(m, Event::Quit);
            s == MenuStep::Exit && a.mouse == m.mouse && a.buttons@ == m.buttons@ && a.level == m.level
                && a.pending == m.pending
        }),
{
}

/// The menu's buttons, from top to bottom.
pub open spec fn menu_buttons() -> Seq<Button> {
    seq![
        Button { rect: rect_of(1158, 990, 512, 64), draw_rect: inner_rect(rect_of(1158, 990, 512, 64)), colision: false, action: Action::Start },
        Button { rect: rect_of(1158, 1086, 512, 64), draw_rect: inner_rect(rect_of(1158, 1086, 512, 64)), colision: false, action: Action::Continue },
        Button { rect: rect_of(1158, 1182, 512, 64), draw_rect: inner_rect(rect_of(1158, 1182, 512, 64)), colision: false, action: Action::ClearSave },
        Button { rect: rect_of(1158, 1278, 512, 64), draw_rect: inner_rect(rect_of(1158, 1278, 512, 64)), colision: false, action: Action::Quit },
    ]
}

/// The menu state after a run of presses ended with `p`.
pub open spec fn after_press(m: Menu, p: Press) -> (Menu, MenuStep) {
    match p {
        Press::Done(l) => (Menu { level: l, pending: None, ..m }, MenuStep::Stay),
        Press::Exit => (Menu { pending: None, ..m }, MenuStep::Exit),
        Press::Wait(i) => (Menu { pending: Some(i), ..m }, MenuStep::NeedSave),
    }
}

/// The menu after an event, and what it asks: closing the window or Escape
/// leaves; the arrow keys hold and release the cursor's directions; Shift
/// presses the buttons under the cursor.
pub open spec fn menu_after(m: Menu, e: Event) -> (Menu, MenuStep) {
    match e {
        Event::Quit => (m, MenuStep::Exit),
        Event::KeyDown(Key::Escape) => (m, MenuStep::Exit),
        Event::KeyDown(Key::Left) => (Menu { mouse: Mouse { left: true, ..m.mouse }, ..m }, MenuStep::Stay),
        Event::KeyDown(Key::Right) => (Menu { mouse: Mouse { right: true, ..m.mouse }, ..m }, MenuStep::Stay),
        Event::KeyDown(Key::Up) => (Menu { mouse: Mouse { up: true, ..m.mouse }, ..m }, MenuStep::Stay),
        Event::KeyDown(Key::Down) => (Menu { mouse: Mouse { down: true, ..m.mouse }, ..m }, MenuStep::Stay),
        Event::KeyDown(Key::LShift) => after_press(m, press_from(m.buttons@, 0, m.level)),
        Event::KeyDown(Key::RShift) => after_press(m, press_from(m.buttons@, 0, m.level)),
        Event::KeyUp(Key::Left) => (Menu { mouse: Mouse { left: false, ..m.mouse }, ..m }, MenuStep::Stay),
        Event::KeyUp(Key::Right) => (Menu { mouse: Mouse { right: false, ..m.mouse }, ..m }, MenuStep::Stay),
        Event::KeyUp(Key::Up) => (Menu { mouse: Mouse { up: false, ..m.mouse }, ..m }, MenuStep::Stay),
        Event::KeyUp(Key::Down) => (Menu { mouse: Mouse { down: false, ..m.mouse }, ..m }, MenuStep::Stay),
        _ => (m, MenuStep::Stay),
    }
}

/// Whether each button is marked as under the cursor exactly when they overlap.
pub open spec fn marked(bs: Seq<Button>, old_bs: Seq<Button>, cursor: Rect) -> bool {
    &&& bs.len() == old_bs.len()
    &&& forall|i: int|
        0 <= i < bs.len() ==> #[trigger] bs[i] == (Button {
            colision: overlaps(old_bs[i].rect, cursor),
            ..old_bs[i]
        })
}

/// The cursor `m` is `m0` moved one step in its held directions.
pub open spec fn cursor_moved(m: Mouse, m0: Mouse) -> bool {
    m == (Mouse {
        rect: Rect { x: moved_x(m0) as i32, y: moved_y(m0) as i32, ..m0.rect },
        ..m0
    })
}

impl Menu {
    /// The menu with its four buttons (Start, Continue, Clear save, Quit)
    /// and the cursor at its start.
    pub fn new() -> (m: Menu)
        ensures
            m.buttons@ == menu_buttons(),
            m.mouse == Mouse::spec_start(),
            m.level == 0,
            m.pending is None,
    {
        let mut buttons: Vec<Button> = Vec::new();
        buttons.push(Button::new(Rect::new(1158, 990, 512, 64), Action::Start));
        buttons.push(Button::new(Rect::new(1158, 1086, 512, 64), Action::Continue));
        buttons.push(Button::new(Rect::new(1158, 1182, 512, 64), Action::ClearSave));
        buttons.push(Button::new(Rect::new(1158, 1278, 512, 64), Action::Quit));
        assert(buttons@ =~= menu_buttons());
        Menu { buttons, mouse: Mouse::new(), level: 0, pending: None }
    }

    /// Presses the buttons under the cursor from index `i` on.
    fn press(&mut self, from: usize, level: i32) -> (step: MenuStep)
        ensures
            (*final(self), step) == after_press(
                *old(self),
                press_from(old(self).buttons@, from as int, level),
            ),
    {
        let mut i = from;
        let mut chosen = level;
        let n = self.buttons.len();
        while i < n
            invariant
                n == self.buttons@.len(),
                self == old(self),
                from <= i,
                press_from(self.buttons@, from as int, level) == press_from(
                    self.buttons@,
                    i as int,
                    chosen,
                ),
            decreases n - i,
        {
            let b = self.buttons[i];
            if b.colision {
                match b.action {
                    Action::Quit => {
                        self.pending = None;
                        return MenuStep::Exit;
                    },
                    Action::Start => {
                        chosen = 1;
                    },
                    Action::ClearSave => {
                        chosen = 0;
                    },
                    Action::Continue => {
                        self.pending = Some(i);
                        return MenuStep::NeedSave;
                    },
                }
            }
            i = i + 1;
        }
        self.level = chosen;
        self.pending = None;
        MenuStep::Stay
    }

    /// Handles one event (see `menu_after`). While a Continue button waits
    /// for the save file, `resume` comes first.
    pub fn handle(&mut self, event: Event) -> (step: MenuStep)
        requires
            old(self).pending is None,
        ensures
            (*final(self), step) == menu_after(*old(self), event),
    {
        match event {
            Event::Quit => MenuStep::Exit,
            Event::KeyDown(key) => match key {
                Key::Escape => MenuStep::Exit,
                Key::Left => {
                    self.mouse.left = true;
                    MenuStep::Stay
                },
                Key::Right => {
                    self.mouse.right = true;
                    MenuStep::Stay
                },
                Key::Up => {
                    self.mouse.up = true;
                    MenuStep::Stay
                },
                Key::Down => {
                    self.mouse.down = true;
                    MenuStep::Stay
                },
                Key::LShift | Key::RShift => {
                    let level = self.level;
                    self.press(0, level)
                },
                Key::Other => MenuStep::Stay,
            },
            Event::KeyUp(key) => match key {
                Key::Left => {
                    self.mouse.left = false;
                    MenuStep::Stay
                },
                Key::Right => {
                    self.mouse.right = false;
                    MenuStep::Stay
                },
                Key::Up => {
                    self.mouse.up = false;
                    MenuStep::Stay
                },
                Key::Down => {
                    self.mouse.down = false;
                    MenuStep::Stay
                },
                _ => MenuStep::Stay,
            },
            Event::Other => MenuStep::Stay,
        }
    }

    /// Finishes the press of the waiting Continue button with the text of the
    /// save file (`None`: it could not be read), then presses the buttons
    /// after it.
    pub fn resume(&mut self, saved: Option<&str>) -> (step: MenuStep)
        requires
            old(self).pending is Some,
        ensures
            (*final(self), step) == after_press(
                *old(self),
                press_from(
                    old(self).buttons@,
                    old(self).pending->0 + 1,
                    loaded_level(saved_text(saved)),
                ),
            ),
    {
        let i = match self.pending {
            Some(i) => i,
            None => 0,
        };
        let level = Action::load(saved);
        if i < usize::MAX {
            self.press(i + 1, level)
        } else {
            let n = self.buttons.len();
            assert(n < i + 1);
            assert(press_from(self.buttons@, i + 1, level) == Press::Done(level));
            self.pending = None;
            self.level = level;
            MenuStep::Stay
        }
    }

    /// One frame: moves the cursor, then marks the buttons under it. Fails,
    /// changing nothing, when the cursor's move would overflow.
    pub fn frame(&mut self) -> (res: Result<(), Overflow>)
        ensures
            res is Ok <==> move_fits(old(self).mouse),
            res is Err ==> *final(self) == *old(self),
            res is Ok ==> {
                &&& cursor_moved(final(self).mouse, old(self).mouse)
                &&& marked(final(self).buttons@, old(self).buttons@, final(self).mouse.rect)
                &&& final(self).level == old(self).level
                &&& final(self).pending == old(self).pending
            },
    {
        let mut mouse = self.mouse;
        match mouse.update() {
            Ok(()) => {},
            Err(e) => {
                return Err(e);
            },
        }
        self.mouse = mouse;
        let ghost old_bs = self.buttons@;
        let mut i: usize = 0;
        while i < self.buttons.len()
            invariant
                self.buttons@.len() == old_bs.len(),
                self.mouse == mouse,
                cursor_moved(mouse, old(self).mouse),
                old_bs == old(self).buttons@,
                self.level == old(self).level,
                self.pending == old(self).pending,
                i <= old_bs.len(),
                forall|j: int|
                    0 <= j < i ==> #[trigger] self.buttons@[j] == (Button {
                        colision: overlaps(old_bs[j].rect, mouse.rect),
                        ..old_bs[j]
                    }),
                forall|j: int| i <= j < old_bs.len() ==> #[trigger] self.buttons@[j] == old_bs[j],
            decreases old_bs.len() - i,
        {
            let mut b = self.buttons[i];
            b.colision = b.rect.intersects(&mouse.rect);
            self.buttons.set(i, b);
            i = i + 1;
        }
        Ok(())
    }

    /// The level to start, if one was chosen; the menu forgets it.
    pub fn take_level(&mut self) -> (l: Option<i32>)
        ensures
            l == (if old(self).level != 0 {
                Some(old(self).level)
            } else {
                None
            }),
            *final(self) == (Menu { level: 0, ..*old(self) }),
    {
        if self.level != 0 {
            let l = self.level;
            self.level = 0;
            Some(l)
        } else {
            None
        }
    }
}

} // verus!
