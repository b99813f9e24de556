//! Keys, buttons and the menu.

use voxterra::controls::{
    cycle_selection, digit_slot, select_block_slot, Action, Controls, Event, HeldKey, HeldKeys,
    Key, Menu, MenuButton, MoveMode, Screen,
};
use voxterra::registry::{dirt, lamp, planks, stone};
use voxterra::{BlockId, BlockRegistry};

fn in_game() -> Controls {
    let mut c = Controls::new();
    c.menu = Some(Menu::new());
    c.on_capture(true, true);
    c
}

#[test]
fn escape_opens_the_menu_and_closes_it() {
    let mut c = in_game();
    assert_eq!(c.on_event(Event::Pressed(Key::Escape)), Action::Capture(false));
    assert!(c.menu.unwrap().open);
    assert_eq!(c.on_event(Event::Pressed(Key::Escape)), Action::Capture(true));
    assert!(!c.menu.unwrap().open);
}

#[test]
fn escape_steps_back_from_the_options() {
    let mut c = in_game();
    c.on_event(Event::Pressed(Key::Escape));
    let mut menu = c.menu.unwrap();
    menu.on_button(MenuButton::Options);
    assert_eq!(menu.screen, Screen::Options);
    c.menu = Some(menu);
    assert_eq!(c.on_event(Event::Pressed(Key::Escape)), Action::Capture(false));
    assert_eq!(c.menu.unwrap().screen, Screen::Pause);
    assert!(c.menu.unwrap().open);
}

#[test]
fn without_a_window_escape_takes_the_cursor() {
    let mut c = Controls::new();
    assert_eq!(c.on_event(Event::Pressed(Key::Escape)), Action::Capture(true));
}

#[test]
fn the_menu_can_close_itself_and_quit() {
    let mut c = in_game();
    c.on_event(Event::Pressed(Key::Escape));
    c.on_capture(false, true);
    assert_eq!(c.after_menu(), Action::Nothing);
    let mut menu = c.menu.unwrap();
    menu.on_button(MenuButton::Options);
    menu.on_button(MenuButton::BackToGame);
    assert_eq!(menu, Menu::new());
    c.menu = Some(menu);
    assert_eq!(c.after_menu(), Action::Capture(true));
    menu.on_button(MenuButton::SaveAndQuit);
    c.menu = Some(menu);
    assert_eq!(c.after_menu(), Action::SaveAndQuit);
    menu.on_button(MenuButton::Done);
    assert_eq!(menu.screen, Screen::Pause);
}

#[test]
fn buttons_edit_only_while_the_cursor_is_taken() {
    let mut c = in_game();
    assert_eq!(c.on_event(Event::LeftButton), Action::BreakBlock);
    assert_eq!(c.on_event(Event::RightButton), Action::PlaceBlock);
    assert_eq!(c.on_event(Event::Wheel(-1)), Action::CycleSelection(-1));
    assert_eq!(c.on_event(Event::Wheel(0)), Action::Nothing);
    c.on_capture(false, true);
    assert_eq!(c.on_event(Event::LeftButton), Action::Capture(true));
    assert_eq!(c.on_event(Event::RightButton), Action::Nothing);
    assert_eq!(c.on_event(Event::Wheel(1)), Action::Nothing);
}

#[test]
fn a_failed_capture_changes_nothing() {
    let mut c = Controls::new();
    c.on_capture(true, false);
    assert!(!c.captured);
    c.on_capture(true, true);
    assert!(c.captured);
}

#[test]
fn losing_focus_drops_held_keys() {
    let mut c = in_game();
    c.on_event(Event::Pressed(Key::Held(HeldKey::Forward)));
    c.on_event(Event::Pressed(Key::Held(HeldKey::Sprint)));
    assert!(c.held.forward && c.held.sprint);
    assert_eq!(c.on_event(Event::FocusLost), Action::Capture(false));
    assert_eq!(c.held, HeldKeys::none());
}

#[test]
fn opposite_keys_cancel() {
    let mut k = HeldKeys::none();
    assert_eq!(k.axes(), (0, 0, 0));
    k.set(HeldKey::Forward, true);
    k.set(HeldKey::Left, true);
    k.set(HeldKey::Down, true);
    assert_eq!(k.axes(), (1, -1, -1));
    k.set(HeldKey::Back, true);
    k.set(HeldKey::Right, true);
    k.set(HeldKey::Up, true);
    assert_eq!(k.axes(), (0, 0, 0));
    k.set(HeldKey::Forward, false);
    assert_eq!(k.axes(), (-1, 0, 0));
}

#[test]
fn toggles_and_commands() {
    let mut c = in_game();
    assert_eq!(c.on_event(Event::Pressed(Key::F)), Action::StopMoving);
    assert_eq!(c.mode, MoveMode::Survival);
    c.on_event(Event::Pressed(Key::F));
    assert_eq!(c.mode, MoveMode::Spectator);
    assert_eq!(c.on_event(Event::Pressed(Key::G)), Action::PunchHole);
    assert_eq!(c.on_event(Event::Pressed(Key::BracketLeft)), Action::ShiftHours(-1));
    assert_eq!(c.on_event(Event::Pressed(Key::BracketRight)), Action::ShiftHours(1));
    assert_eq!(c.on_event(Event::Pressed(Key::M)), Action::NextDay);
    assert_eq!(c.on_event(Event::Pressed(Key::L)), Action::ToggleLod);
    assert_eq!(c.on_event(Event::Pressed(Key::K)), Action::ResetLod);
    assert!(!c.lod_skirts);
    assert_eq!(c.on_event(Event::Pressed(Key::Other)), Action::Nothing);
    assert_eq!(c.on_event(Event::CloseRequested), Action::SaveAndQuit);
}

#[test]
fn the_clock_stands_still_or_runs_fast() {
    let mut c = in_game();
    assert_eq!(c.clock_rate(false), 1);
    assert_eq!(c.clock_rate(true), 0);
    c.on_event(Event::Pressed(Key::Backslash));
    assert_eq!(c.clock_rate(false), 60);
    c.on_event(Event::Pressed(Key::T));
    assert_eq!(c.clock_rate(false), 0);
}

#[test]
fn number_keys_select_slots() {
    assert_eq!(digit_slot(Key::Digit(1)), Some(1));
    assert_eq!(digit_slot(Key::Digit(6)), Some(6));
    assert_eq!(digit_slot(Key::Digit(7)), None);
    assert_eq!(digit_slot(Key::F), None);
    let mut c = in_game();
    assert_eq!(c.on_event(Event::Pressed(Key::Digit(3))), Action::SelectSlot(3));
    assert_eq!(c.on_event(Event::Pressed(Key::Digit(9))), Action::Nothing);
}

#[test]
fn the_selection_goes_round() {
    let reg = BlockRegistry::default_set();
    assert_eq!(select_block_slot(&reg, 2), Some(dirt()));
    assert_eq!(select_block_slot(&reg, 6), Some(planks()));
    assert_eq!(select_block_slot(&reg, 7), None);
    assert_eq!(select_block_slot(&reg, 0), None);
    assert_eq!(cycle_selection(&reg, stone(), 1), Some(dirt()));
    assert_eq!(cycle_selection(&reg, stone(), -1), Some(planks()));
    assert_eq!(cycle_selection(&reg, planks(), 1), Some(stone()));
    // A block in no slot counts as the first.
    assert_eq!(cycle_selection(&reg, lamp(), 1), Some(dirt()));
    assert_eq!(cycle_selection(&reg, BlockId(999), 0), Some(stone()));
}
