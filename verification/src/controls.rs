//! What keys, buttons and the menu do: from the state of the controls and an
//! event to the next state and the action to take.

use crate::arith::{lemma_div_floor, lemma_div_is, lemma_mod_add_multiple, mod_floor};
use crate::block::BlockId;
use crate::registry::BlockRegistry;
use crate::seqs::lemma_contains_push;
use vstd::prelude::*;

verus! {

/// How the player moves through the world.
#[derive(Debug, Clone, Copy, PartialEq, Eq, Structural)]
pub enum MoveMode {
    /// Free flight, through blocks.
    Spectator,
    /// On the ground: gravity, jumping and collision.
    Survival,
}

/// Which screen the menu is showing.
#[derive(Debug, Clone, Copy, PartialEq, Eq, Structural)]
pub enum Screen {
    Pause,
    Options,
}

/// The keys that act while they are held.
#[derive(Debug, Clone, Copy, PartialEq, Eq, Structural)]
pub enum HeldKey {
    Forward,
    Back,
    Left,
    Right,
    Up,
    Down,
    Sprint,
}

/// A key, by where it is on the keyboard.
#[derive(Debug, Clone, Copy, PartialEq, Eq, Structural)]
pub enum Key {
    Escape,
    F,
    G,
    T,
    Backslash,
    BracketLeft,
    BracketRight,
    M,
    L,
    K,
    /// A key of the number row.
    Digit(usize),
    Held(HeldKey),
    Other,
}

/// What happened.
#[derive(Debug, Clone, Copy, PartialEq, Eq, Structural)]
pub enum Event {
    Pressed(Key),
    Released(Key),
    LeftButton,
    RightButton,
    /// The wheel turned, by one step forward or back, or not at all.
    Wheel(i32),
    FocusLost,
    CloseRequested,
}

/// A button of the menu.
#[derive(Debug, Clone, Copy, PartialEq, Eq, Structural)]
pub enum MenuButton {
    BackToGame,
    Options,
    SaveAndQuit,
    Done,
}

/// What to do.
#[derive(Debug, Clone, Copy, PartialEq, Eq, Structural)]
pub enum Action {
    Nothing,
    /// Take or release the cursor, and report back whether it was.
    Capture(bool),
    /// Stand still: the way of moving changed.
    StopMoving,
    PunchHole,
    /// Move the clock by so many hours of the day.
    ShiftHours(i32),
    /// Move the clock by one day.
    NextDay,
    /// Switch coarse terrain on or off, in the settings.
    ToggleLod,
    /// Drop the coarse terrain.
    ResetLod,
    /// Select a block by its slot.
    SelectSlot(usize),
    /// Select the next or the previous block.
    CycleSelection(i32),
    BreakBlock,
    PlaceBlock,
    SaveAndQuit,
}

/// The keys that are held.
#[derive(Debug, Clone, Copy, PartialEq, Eq, Structural)]
pub struct HeldKeys {
    pub forward: bool,
    pub back: bool,
    pub left: bool,
    pub right: bool,
    pub up: bool,
    pub down: bool,
    pub sprint: bool,
}

impl HeldKeys {
    /// No key.
    pub fn none() -> (r: Self)
        ensures
            r == Self::spec_none(),
    {
        HeldKeys {
            forward: false,
            back: false,
            left: false,
            right: false,
            up: false,
            down: false,
            sprint: false,
        }
    }

    /// No key.
    pub open spec fn spec_none() -> Self {
        HeldKeys {
            forward: false,
            back: false,
            left: false,
            right: false,
            up: false,
            down: false,
            sprint: false,
        }
    }

    /// With one key down or up.
    pub open spec fn with_key(self, key: HeldKey, down: bool) -> Self {
        match key {
            HeldKey::Forward => HeldKeys { forward: down, ..self },
            HeldKey::Back => HeldKeys { back: down, ..self },
            HeldKey::Left => HeldKeys { left: down, ..self },
            HeldKey::Right => HeldKeys { right: down, ..self },
            HeldKey::Up => HeldKeys { up: down, ..self },
            HeldKey::Down => HeldKeys { down, ..self },
            HeldKey::Sprint => HeldKeys { sprint: down, ..self },
        }
    }

    /// Notes that a key is down or up.
    pub fn set(&mut self, key: HeldKey, down: bool)
        ensures
            *final(self) == old(self).with_key(key, down),
    {
        match key {
            HeldKey::Forward => {
                self.forward = down;
            },
            HeldKey::Back => {
                self.back = down;
            },
            HeldKey::Left => {
                self.left = down;
            },
            HeldKey::Right => {
                self.right = down;
            },
            HeldKey::Up => {
                self.up = down;
            },
            HeldKey::Down => {
                self.down = down;
            },
            HeldKey::Sprint => {
                self.sprint = down;
            },
        }
    }

    /// Where the keys push: forward, to the right and up.
    pub open spec fn pushes(self) -> (int, int, int) {
        (
            axis(self.forward, self.back),
            axis(self.right, self.left),
            axis(self.up, self.down),
        )
    }

    /// Where the keys push: forward, to the right and up. Opposite keys cancel.
    pub fn axes(&self) -> (r: (i32, i32, i32))
        ensures
            r.0 == axis(self.forward, self.back),
            r.1 == axis(self.right, self.left),
            r.2 == axis(self.up, self.down),
            (r.0 as int, r.1 as int, r.2 as int) == self.pushes(),
    {
        (push(self.forward, self.back), push(self.right, self.left), push(self.up, self.down))
    }
}

/// Where two opposite keys push.
pub open spec fn axis(plus: bool, minus: bool) -> int {
    if plus == minus {
        0
    } else if plus {
        1
    } else {
        -1
    }
}

fn push(plus: bool, minus: bool) -> (r: i32)
    ensures
        r == axis(plus, minus),
{
    if plus == minus {
        0
    } else if plus {
        1
    } else {
        -1
    }
}

/// The menu.
#[derive(Debug, Clone, Copy, PartialEq, Eq, Structural)]
pub struct Menu {
    /// Visible. The cursor is then free and mouse-look off.
    pub open: bool,
    pub screen: Screen,
    /// The player asked to save and quit.
    pub quit_requested: bool,
}

impl Menu {
    /// A closed menu.
    pub fn new() -> (r: Self)
        ensures
            r == (Menu { open: false, screen: Screen::Pause, quit_requested: false }),
    {
        Menu { open: false, screen: Screen::Pause, quit_requested: false }
    }

    /// After the escape key: one screen back, or closed.
    pub open spec fn after_escape(self) -> Self {
        match self.screen {
            Screen::Options => Menu { screen: Screen::Pause, ..self },
            Screen::Pause => Menu { open: false, ..self },
        }
    }

    /// Escape pressed while the menu is open: step back one screen, or close.
    /// True if the menu is now closed, and the cursor is to be taken again.
    pub fn on_escape(&mut self) -> (r: bool)
        ensures
            *final(self) == old(self).after_escape(),
            r == (old(self).screen == Screen::Pause),
    {
        match self.screen {
            Screen::Options => {
                self.screen = Screen::Pause;
                false
            },
            Screen::Pause => {
                self.open = false;
                true
            },
        }
    }

    /// After a button of the menu: going back to the game closes it, and it
    /// opens on the pause screen again.
    pub open spec fn after_button(self, button: MenuButton) -> Self {
        match button {
            MenuButton::BackToGame => Menu { open: false, screen: Screen::Pause, ..self },
            MenuButton::Options => Menu { screen: Screen::Options, ..self },
            MenuButton::SaveAndQuit => Menu { quit_requested: true, ..self },
            MenuButton::Done => Menu { screen: Screen::Pause, ..self },
        }
    }

    /// A button of the menu was clicked.
    pub fn on_button(&mut self, button: MenuButton)
        ensures
            *final(self) == old(self).after_button(button),
    {
        match button {
            MenuButton::BackToGame => {
                self.open = false;
                self.screen = Screen::Pause;
            },
            MenuButton::Options => {
                self.screen = Screen::Options;
            },
            MenuButton::SaveAndQuit => {
                self.quit_requested = true;
            },
            MenuButton::Done => {
                self.screen = Screen::Pause;
            },
        }
    }
}

/// The state of the controls.
#[derive(Debug, Clone, Copy, PartialEq, Eq, Structural)]
pub struct Controls {
    pub held: HeldKeys,
    /// The cursor is taken by the game.
    pub captured: bool,
    /// The menu, once there is a window.
    pub menu: Option<Menu>,
    pub mode: MoveMode,
    /// The clock stands still.
    pub time_paused: bool,
    /// The clock runs fast.
    pub time_fast: bool,
    /// Coarse terrain has skirts.
    pub lod_skirts: bool,
}

/// The slot that a key of the number row selects: 1 to 6.
pub open spec fn slot_of_key(key: Key) -> Option<usize> {
    match key {
        Key::Digit(n) => if 1 <= n <= 6 {
            Some(n)
        } else {
            None
        },
        _ => None,
    }
}

/// The slot that a key of the number row selects, counted from 1.
pub fn digit_slot(key: Key) -> (r: Option<usize>)
    ensures
        r == slot_of_key(key),
{
    match key {
        Key::Digit(n) => {
            if 1 <= n && n <= 6 {
                Some(n)
            } else {
                None
            }
        },
        _ => None,
    }
}

impl Controls {
    /// A fresh start: nothing held, flying, and no window yet.
    pub fn new() -> (r: Self)
        ensures
            r == (Controls {
                held: HeldKeys::spec_none(),
                captured: false,
                menu: None,
                mode: MoveMode::Spectator,
                time_paused: false,
                time_fast: false,
                lod_skirts: true,
            }),
    {
        Controls {
            held: HeldKeys::none(),
            captured: false,
            menu: None,
            mode: MoveMode::Spectator,
            time_paused: false,
            time_fast: false,
            lod_skirts: true,
        }
    }

    /// The menu is visible.
    pub open spec fn menu_open(self) -> bool {
        self.menu matches Some(m) && m.open
    }

    /// The controls and the action after a key went down.
    pub open spec fn after_key(self, key: Key) -> (Self, Action) {
        match key {
            Key::Escape => match self.menu {
                None => (self, Action::Capture(true)),
                Some(m) => if m.open {
                    (
                        Controls { menu: Some(m.after_escape()), ..self },
                        Action::Capture(m.screen == Screen::Pause),
                    )
                } else {
                    (Controls { menu: Some(Menu { open: true, ..m }), ..self }, Action::Capture(
                        false,
                    ))
                },
            },
            Key::F => (
                Controls {
                    mode: match self.mode {
                        MoveMode::Spectator => MoveMode::Survival,
                        MoveMode::Survival => MoveMode::Spectator,
                    },
                    ..self
                },
                Action::StopMoving,
            ),
            Key::G => (self, Action::PunchHole),
            Key::T => (Controls { time_paused: !self.time_paused, ..self }, Action::Nothing),
            Key::Backslash => (Controls { time_fast: !self.time_fast, ..self }, Action::Nothing),
            Key::BracketLeft => (self, Action::ShiftHours(-1i32)),
            Key::BracketRight => (self, Action::ShiftHours(1)),
            Key::M => (self, Action::NextDay),
            Key::L => (self, Action::ToggleLod),
            Key::K => (Controls { lod_skirts: !self.lod_skirts, ..self }, Action::ResetLod),
            Key::Digit(n) => match slot_of_key(key) {
                Some(slot) => (self, Action::SelectSlot(slot)),
                None => (self, Action::Nothing),
            },
            Key::Held(k) => (Controls { held: self.held.with_key(k, true), ..self }, Action::Nothing),
            Key::Other => (self, Action::Nothing),
        }
    }

    /// The controls and the action after an event.
    pub open spec fn after(self, event: Event) -> (Self, Action) {
        match event {
            Event::Pressed(key) => self.after_key(key),
            Event::Released(key) => match key {
                Key::Held(k) => (
                    Controls { held: self.held.with_key(k, false), ..self },
                    Action::Nothing,
                ),
                _ => (self, Action::Nothing),
            },
            Event::LeftButton => (
                self,
                if self.captured {
                    Action::BreakBlock
                } else {
                    Action::Capture(true)
                },
            ),
            Event::RightButton => (
                self,
                if self.captured {
                    Action::PlaceBlock
                } else {
                    Action::Nothing
                },
            ),
            Event::Wheel(dir) => (
                self,
                if self.captured && dir != 0 {
                    Action::CycleSelection(dir)
                } else {
                    Action::Nothing
                },
            ),
            Event::FocusLost => (
                Controls { held: HeldKeys::spec_none(), ..self },
                Action::Capture(false),
            ),
            Event::CloseRequested => (self, Action::SaveAndQuit),
        }
    }

    fn on_key(&mut self, key: Key) -> (r: Action)
        ensures
            (*final(self), r) == old(self).after_key(key),
    {
        match key {
            Key::Escape => {
                let closed: bool = match self.menu {
                    None => true,
                    Some(m) => {
                        let mut menu = m;
                        let now_closed: bool = if menu.open {
                            menu.on_escape()
                        } else {
                            menu.open = true;
                            false
                        };
                        self.menu = Some(menu);
                        now_closed
                    },
                };
                Action::Capture(closed)
            },
            Key::F => {
                self.mode = match self.mode {
                    MoveMode::Spectator => MoveMode::Survival,
                    MoveMode::Survival => MoveMode::Spectator,
                };
                Action::StopMoving
            },
            Key::G => Action::PunchHole,
            Key::T => {
                self.time_paused = !self.time_paused;
                Action::Nothing
            },
            Key::Backslash => {
                self.time_fast = !self.time_fast;
                Action::Nothing
            },
            Key::BracketLeft => Action::ShiftHours(-1),
            Key::BracketRight => Action::ShiftHours(1),
            Key::M => Action::NextDay,
            Key::L => Action::ToggleLod,
            Key::K => {
                self.lod_skirts = !self.lod_skirts;
                Action::ResetLod
            },
            Key::Digit(_) => match digit_slot(key) {
                Some(slot) => Action::SelectSlot(slot),
                None => Action::Nothing,
            },
            Key::Held(k) => {
                self.held.set(k, true);
                Action::Nothing
            },
            Key::Other => Action::Nothing,
        }
    }

    /// Take an event that the menu has not consumed.
    pub fn on_event(&mut self, event: Event) -> (r: Action)
        ensures
            (*final(self), r) == old(self).after(event),
    {
        match event {
            Event::Pressed(key) => self.on_key(key),
            Event::Released(key) => {
                if let Key::Held(k) = key {
                    self.held.set(k, false);
                }
                Action::Nothing
            },
            Event::LeftButton => {
                if self.captured {
                    Action::BreakBlock
                } else {
                    Action::Capture(true)
                }
            },
            Event::RightButton => {
                if self.captured {
                    Action::PlaceBlock
                } else {
                    Action::Nothing
                }
            },
            Event::Wheel(dir) => {
                if self.captured && dir != 0 {
                    Action::CycleSelection(dir)
                } else {
                    Action::Nothing
                }
            },
            Event::FocusLost => {
                self.held = HeldKeys::none();
                Action::Capture(false)
            },
            Event::CloseRequested => Action::SaveAndQuit,
        }
    }

    /// The cursor was taken or released, as asked; `done` is false where that
    /// failed, and the cursor is then as it was.
    pub fn on_capture(&mut self, captured: bool, done: bool)
        ensures
            *final(self) == (Controls {
                captured: if done {
                    captured
                } else {
                    old(self).captured
                },
                ..*old(self)
            }),
    {
        if done {
            self.captured = captured;
        }
    }

    /// After the menu was shown for a frame: quit if that was asked for, and
    /// take the cursor if the menu closed itself.
    pub fn after_menu(&self) -> (r: Action)
        ensures
            r == (if self.menu matches Some(m) && m.quit_requested {
                Action::SaveAndQuit
            } else if !self.menu_open() && !self.captured {
                Action::Capture(true)
            } else {
                Action::Nothing
            }),
            r == Action::SaveAndQuit <==> (self.menu matches Some(m) && m.quit_requested),
            r == Action::Capture(true) ==> !self.captured,
            self.captured && r != Action::SaveAndQuit ==> r == Action::Nothing,
    {
        let (open, quit): (bool, bool) = match self.menu {
            Some(m) => (m.open, m.quit_requested),
            None => (false, false),
        };
        if quit {
            Action::SaveAndQuit
        } else if !open && !self.captured {
            Action::Capture(true)
        } else {
            Action::Nothing
        }
    }

    /// By how much the clock is sped up; 0 while it stands still, by the key or
    /// by the settings.
    pub fn clock_rate(&self, settings_paused: bool) -> (r: u32)
        ensures
            r == (if self.time_paused || settings_paused {
                0u32
            } else if self.time_fast {
                60
            } else {
                1
            }),
            r == 0 <==> self.time_paused || settings_paused,
            r > 1 ==> self.time_fast && r == 60,
    {
        if self.time_paused || settings_paused {
            0
        } else if self.time_fast {
            60
        } else {
            1
        }
    }
}

/// Escape opens a closed menu and closes it again, taking the cursor back; from
/// the options it takes one more press.
pub proof fn lemma_escape_toggles(c: Controls)
    requires
        c.menu matches Some(m) && !m.open && m.screen == Screen::Pause,
    ensures
        ({
            let esc = Event::Pressed(Key::Escape);
            let shown = c.after(esc);
            let options = Controls {
                menu: Some(shown.0.menu->0.after_button(MenuButton::Options)),
                ..shown.0
            };
            &&& shown.0.menu_open()
            &&& shown.1 == Action::Capture(false)
            &&& shown.0.after(esc) == (c, Action::Capture(true))
            &&& options.after(esc) == (shown.0, Action::Capture(false))
        }),
{
}

/// While the cursor is free no event edits the world.
pub proof fn lemma_free_cursor_edits_nothing(c: Controls, event: Event)
    requires
        !c.captured,
    ensures
        c.after(event).1 != Action::BreakBlock,
        c.after(event).1 != Action::PlaceBlock,
        !(c.after(event).1 is CycleSelection),
{
}

/// A key that toggles, pressed twice, changes nothing.
pub proof fn lemma_toggles(c: Controls, key: Key)
    requires
        key == Key::F || key == Key::T || key == Key::Backslash || key == Key::K,
    ensures
        c.after_key(key).0.after_key(key).0 == c,
        c.after_key(key).0 != c,
{
}

/// The slots: the blocks that can be placed, in the order of their ids.
pub open spec fn slots(registry: BlockRegistry) -> Seq<BlockId> {
    Seq::new(registry.count() as nat, |i: int| BlockId(i as u16)).filter(
        |id: BlockId| registry.can_place(id),
    )
}

/// The place of the first `x` in `s`, or 0.
pub open spec fn first_place(s: Seq<BlockId>, x: BlockId) -> int
    decreases s.len(),
{
    if !s.contains(x) || s[0] == x {
        0
    } else {
        1 + first_place(s.skip(1), x)
    }
}

/// The block in a slot, counted from 1. `None` for a slot that is not there,
/// which selects nothing.
pub fn select_block_slot(registry: &BlockRegistry, slot: usize) -> (r: Option<BlockId>)
    ensures
        r == (if 1 <= slot <= slots(*registry).len() {
            Some(slots(*registry)[slot - 1])
        } else {
            None
        }),
{
    let placeable = registry.placeable();
    if slot >= 1 && slot <= placeable.len() {
        Some(placeable[slot - 1])
    } else {
        None
    }
}

proof fn lemma_first_place(s: Seq<BlockId>, x: BlockId, i: int)
    requires
        0 <= i < s.len(),
        s[i] == x,
        forall|j: int| 0 <= j < i ==> s[j] != x,
    ensures
        first_place(s, x) == i,
    decreases i,
{
    assert(s.contains(x));
    if i > 0 {
        let t = s.skip(1);
        assert(t[i - 1] == x);
        assert forall|j: int| 0 <= j < i - 1 implies t[j] != x by {
            assert(t[j] == s[j + 1]);
        }
        lemma_first_place(t, x, i - 1);
    }
}

/// The block `dir` slots further, going round; from the first slot if the
/// selected block is in none. `None` with no slots, which selects nothing.
pub fn cycle_selection(registry: &BlockRegistry, selected: BlockId, dir: i32) -> (r: Option<
    BlockId,
>)
    ensures
        ({
            let s = slots(*registry);
            r == (if s.len() == 0 {
                None
            } else {
                Some(s[(first_place(s, selected) + dir) % (s.len() as int)])
            })
        }),
{
    let placeable = registry.placeable();
    let n: usize = placeable.len();
    if n == 0 {
        return None;
    }
    let mut cur: usize = 0;
    let mut i: usize = 0;
    let mut found: bool = false;
    while i < n && !found
        invariant
            i <= n,
            n == placeable.len(),
            !found ==> cur == 0 && forall|j: int| 0 <= j < i ==> placeable[j] != selected,
            found ==> cur < n && placeable[cur as int] == selected && forall|j: int|
                0 <= j < cur ==> placeable[j] != selected,
        decreases n - i,
    {
        if placeable[i].0 == selected.0 {
            cur = i;
            found = true;
        }
        i += 1;
    }
    proof {
        if found {
            lemma_first_place(placeable@, selected, cur as int);
        } else {
            assert(!placeable@.contains(selected));
        }
    }
    let next: i64 = mod_floor(cur as i64 + dir as i64, n as i64);
    Some(placeable[next as usize])
}

/// A held key pushes its own way while it is down, and only that way; letting go
/// of it undoes pressing it. Opposite keys cancel.
pub proof fn lemma_held_keys_push(held: HeldKeys, key: HeldKey)
    ensures
        ({
            let one = HeldKeys::spec_none().with_key(key, true);
            &&& one.pushes() == (match key {
                HeldKey::Forward => (1int, 0int, 0int),
                HeldKey::Back => (-1, 0, 0),
                HeldKey::Right => (0, 1, 0),
                HeldKey::Left => (0, -1, 0),
                HeldKey::Up => (0, 0, 1),
                HeldKey::Down => (0, 0, -1),
                HeldKey::Sprint => (0, 0, 0),
            })
            &&& one.sprint == (key == HeldKey::Sprint)
            &&& one.with_key(key, false) == HeldKeys::spec_none()
        }),
        held.with_key(key, true).with_key(key, false) == held.with_key(key, false),
        held.with_key(key, false).with_key(key, true) == held.with_key(key, true),
        held.with_key(key, true) == held || held.with_key(key, false) == held,
        held.with_key(key, true) != held.with_key(key, false),
        axis(true, true) == 0 && axis(false, false) == 0,
{
}

/// Two keys do not get in each other's way.
pub proof fn lemma_held_keys_apart(held: HeldKeys, a: HeldKey, b: HeldKey, down: bool, too: bool)
    requires
        a != b,
    ensures
        held.with_key(a, down).with_key(b, too) == held.with_key(b, too).with_key(a, down),
{
}

/// What each key does, whatever the state: nothing but this changes.
pub proof fn lemma_keys_act(c: Controls)
    ensures
        c.after_key(Key::G) == (c, Action::PunchHole),
        c.after_key(Key::M) == (c, Action::NextDay),
        c.after_key(Key::L) == (c, Action::ToggleLod),
        c.after_key(Key::Other) == (c, Action::Nothing),
        c.after_key(Key::BracketLeft) == (c, Action::ShiftHours(-1i32)),
        c.after_key(Key::BracketRight) == (c, Action::ShiftHours(1i32)),
        c.after_key(Key::F).1 == Action::StopMoving && c.after_key(Key::F).0.mode != c.mode,
        c.after_key(Key::T).1 == Action::Nothing && c.after_key(Key::T).0.time_paused
            != c.time_paused,
        c.after_key(Key::Backslash).1 == Action::Nothing && c.after_key(Key::Backslash).0.time_fast
            != c.time_fast,
        c.after_key(Key::K).1 == Action::ResetLod && c.after_key(Key::K).0.lod_skirts
            != c.lod_skirts,
        (Controls { mode: c.mode, ..c.after_key(Key::F).0 }) == c,
        (Controls { time_paused: c.time_paused, ..c.after_key(Key::T).0 }) == c,
        (Controls { time_fast: c.time_fast, ..c.after_key(Key::Backslash).0 }) == c,
        (Controls { lod_skirts: c.lod_skirts, ..c.after_key(Key::K).0 }) == c,
{
}

/// The number keys 1 to 6 select the slot of that number, and no other key selects
/// one.
pub proof fn lemma_digits_select(c: Controls, key: Key, n: usize)
    ensures
        c.after_key(Key::Digit(n)) == (if 1 <= n && n <= 6 {
            (c, Action::SelectSlot(n))
        } else {
            (c, Action::Nothing)
        }),
        c.after_key(key).1 is SelectSlot ==> key is Digit,
        slot_of_key(key) matches Some(s) ==> key == Key::Digit(s) && 1 <= s <= 6,
        1 <= n <= 6 ==> slot_of_key(Key::Digit(n)) == Some(n),
{
}

/// What the mouse, the wheel and the window do. Breaking, placing and choosing a
/// block take a captured cursor; a click without one takes it. Losing the focus
/// lets go of every key and of the cursor, and closing the window saves.
pub proof fn lemma_events_act(c: Controls, key: HeldKey, other: Key, dir: i32)
    ensures
        c.after(Event::LeftButton) == (c, if c.captured {
            Action::BreakBlock
        } else {
            Action::Capture(true)
        }),
        c.after(Event::RightButton) == (c, if c.captured {
            Action::PlaceBlock
        } else {
            Action::Nothing
        }),
        c.after(Event::Wheel(dir)) == (c, if c.captured && dir != 0 {
            Action::CycleSelection(dir)
        } else {
            Action::Nothing
        }),
        c.after(Event::CloseRequested) == (c, Action::SaveAndQuit),
        c.after(Event::FocusLost).1 == Action::Capture(false),
        ({
            let h = c.after(Event::FocusLost).0.held;
            &&& !h.forward && !h.back && !h.left && !h.right && !h.up && !h.down && !h.sprint
            &&& (Controls { held: c.held, ..c.after(Event::FocusLost).0 }) == c
        }),
        c.after(Event::Pressed(other)) == c.after_key(other),
        c.after(Event::Pressed(Key::Held(key))).0.held == c.held.with_key(key, true),
        c.after(Event::Released(Key::Held(key))).0.held == c.held.with_key(key, false),
        (Controls { held: c.held, ..c.after(Event::Pressed(Key::Held(key))).0 }) == c,
        (Controls { held: c.held, ..c.after(Event::Released(Key::Held(key))).0 }) == c,
        c.after(Event::Pressed(Key::Held(key))).1 == Action::Nothing,
        c.after(Event::Released(Key::Held(key))).1 == Action::Nothing,
        !(other is Held) ==> c.after(Event::Released(other)) == (c, Action::Nothing),
{
}

/// What the menu's buttons do: only going back to the game closes it, only the one
/// for saving asks to quit, and "Done" undoes "Options".
pub proof fn lemma_menu_buttons(m: Menu)
    ensures
        !m.after_button(MenuButton::BackToGame).open,
        m.after_button(MenuButton::BackToGame).screen == Screen::Pause,
        m.after_button(MenuButton::BackToGame).quit_requested == m.quit_requested,
        m.after_button(MenuButton::Options) == (Menu { screen: Screen::Options, ..m }),
        m.after_button(MenuButton::Done) == (Menu { screen: Screen::Pause, ..m }),
        m.after_button(MenuButton::SaveAndQuit) == (Menu { quit_requested: true, ..m }),
        m.screen == Screen::Options ==> m.after_escape() == m.after_button(MenuButton::Done),
        m.screen == Screen::Pause ==> m.after_escape() == (Menu { open: false, ..m }),
{
}

/// Escape without a menu takes the cursor.
pub proof fn lemma_escape_without_menu(c: Controls)
    requires
        c.menu is None,
    ensures
        c.after(Event::Pressed(Key::Escape)) == (c, Action::Capture(true)),
        !c.menu_open(),
{
}

/// The slots hold each block that can be placed once, by ascending id, and no
/// other.
pub proof fn lemma_slots(registry: BlockRegistry, i: int, j: int, id: BlockId)
    requires
        0 <= registry.count() <= 65536,
    ensures
        slots(registry).contains(id) <==> id.0 < registry.count() && registry.solid(id)
            && registry.emits(id) == 0,
        0 <= i < j < slots(registry).len() ==> slots(registry)[i].0 < slots(registry)[j].0,
{
    let all = Seq::new(registry.count() as nat, |i: int| BlockId(i as u16));
    let f = |id: BlockId| registry.can_place(id);
    lemma_filtered(all, f, id);
    if id.0 < registry.count() {
        assert(all[id.0 as int] == id);
    }
    if 0 <= i < j < slots(registry).len() {
        lemma_filtered_order(all, f, i, j);
    }
}

proof fn lemma_filtered(s: Seq<BlockId>, f: spec_fn(BlockId) -> bool, id: BlockId)
    ensures
        s.filter(f).contains(id) <==> s.contains(id) && f(id),
    decreases s.len(),
{
    reveal(Seq::filter);
    if s.len() > 0 {
        let t = s.drop_last();
        lemma_filtered(t, f, id);
        assert(s =~= t.push(s.last()));
        lemma_contains_push(t, s.last());
        lemma_contains_push(t.filter(f), s.last());
        assert(t.push(s.last()).contains(id) <==> t.contains(id) || s.last() == id);
        assert(t.filter(f).push(s.last()).contains(id) <==> t.filter(f).contains(id) || s.last()
            == id);
    }
}

proof fn lemma_filtered_order(s: Seq<BlockId>, f: spec_fn(BlockId) -> bool, i: int, j: int)
    requires
        forall|a: int, b: int| 0 <= a < b < s.len() ==> (#[trigger] s[a]).0 < (#[trigger] s[b]).0,
        0 <= i < j < s.filter(f).len(),
    ensures
        s.filter(f)[i].0 < s.filter(f)[j].0,
    decreases s.len(),
{
    reveal(Seq::filter);
    if s.len() > 0 {
        let t = s.drop_last();
        let kept = t.filter(f);
        if j < kept.len() {
            lemma_filtered_order(t, f, i, j);
        } else {
            let x = kept[i];
            assert(kept.contains(x));
            lemma_filtered(t, f, x);
            let k = choose|k: int| 0 <= k < t.len() && t[k] == x;
            assert(s[k].0 < s[s.len() - 1].0);
        }
    }
}

/// The first place that holds a block is one that does, with none before it.
pub proof fn lemma_first_place_holds(s: Seq<BlockId>, x: BlockId)
    ensures
        s.contains(x) ==> 0 <= first_place(s, x) < s.len() && s[first_place(s, x)] == x && forall|
            j: int,
        |
            0 <= j < first_place(s, x) ==> s[j] != x,
        !s.contains(x) ==> first_place(s, x) == 0,
    decreases s.len(),
{
    if s.contains(x) && s[0] != x {
        let t = s.skip(1);
        let k = choose|k: int| 0 <= k < s.len() && s[k] == x;
        assert(t[k - 1] == x);
        lemma_first_place_holds(t, x);
        assert forall|j: int| 0 <= j < first_place(s, x) implies s[j] != x by {
            if j > 0 {
                assert(t[j - 1] == s[j]);
            }
        }
    }
}

/// Cycling goes round: from a block in a slot, one step forward and one back comes
/// to it again, and as many steps as there are slots do too.
pub proof fn lemma_cycle_goes_round(s: Seq<BlockId>, x: BlockId, dir: int)
    requires
        s.contains(x),
        s.no_duplicates(),
    ensures
        ({
            let n = s.len() as int;
            let y = s[(first_place(s, x) + dir) % n];
            &&& s[(first_place(s, y) - dir) % n] == x
            &&& s[(first_place(s, x) + n) % n] == x
            &&& s[first_place(s, x) % n] == x
        }),
{
    let n = s.len() as int;
    lemma_first_place_holds(s, x);
    let p = first_place(s, x);
    lemma_div_floor(p + dir, n);
    let q = (p + dir) % n;
    let y = s[q];
    assert(s.contains(y));
    lemma_first_place_holds(s, y);
    assert(first_place(s, y) == q);
    let k = (p + dir) / n;
    assert(q - dir == p + (-k) * n) by (nonlinear_arith)
        requires
            p + dir == k * n + q,
    ;
    lemma_mod_add_multiple(p, -k, n);
    lemma_mod_add_multiple(p, 1, n);
    lemma_div_is(p, n, 0);
}

} // verus!
