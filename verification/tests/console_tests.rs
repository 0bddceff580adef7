use runa::console::{Console, ConsoleCommand, ConsoleKey, MAX_HISTORY, MAX_MESSAGES};

struct Greet;

impl ConsoleCommand for Greet {
    fn name(&self) -> String {
        "greet".to_string()
    }
    fn description(&self) -> String {
        "Say hello".to_string()
    }
    fn execute(&mut self, args: &Vec<String>) -> Vec<String> {
        vec![format!("hello {}", args.join(","))]
    }
    fn detailed_help(&self) -> Vec<String> {
        vec!["greet <names> - greet people".to_string()]
    }
}

fn last(c: &Console<Greet>) -> String {
    c.messages().last().cloned().unwrap()
}

#[test]
fn new_console_has_builtins_and_greeting() {
    let c: Console<Greet> = Console::new();
    assert_eq!(c.messages(), vec!["Runa Console initialized. Press ` to open.".to_string()]);
    assert_eq!(c.command_names(), vec!["echo", "clear", "test", "version"]);
    assert!(!c.is_visible());
    assert!(!c.show_fps());
    assert!(c.history().is_empty());
}

#[test]
fn echo_prints_its_arguments() {
    let mut c: Console<Greet> = Console::new();
    assert!(c.try_execute("  echo   Hello   world "));
    assert_eq!(last(&c), "Hello world");
}

#[test]
fn builtin_and_custom_commands_run() {
    let mut c: Console<Greet> = Console::new();
    assert!(c.try_execute("version"));
    assert_eq!(last(&c), "Runa Engine v0.5.1-alpha.1");
    assert!(c.try_execute("TEST"));
    assert_eq!(last(&c), "Test command executed successfully!");
    c.register_command(Greet);
    assert!(c.has_command("greet"));
    assert!(c.try_execute("greet ann bob"));
    assert_eq!(last(&c), "hello ann,bob");
}

#[test]
fn unknown_commands_are_reported() {
    let mut c: Console<Greet> = Console::new();
    assert!(!c.try_execute("frobnicate now"));
    c.execute_command("frobnicate now");
    assert_eq!(last(&c), "Unknown command: 'frobnicate now'. Type 'help' for commands.");
    let before = c.messages().len();
    assert!(c.try_execute("   "));
    assert_eq!(c.messages().len(), before);
}

#[test]
fn fps_quit_and_cls() {
    let mut c: Console<Greet> = Console::new();
    assert!(c.try_execute("fps"));
    assert!(c.show_fps());
    assert_eq!(last(&c), "FPS counter: ON");
    assert!(c.try_execute("fps"));
    assert_eq!(last(&c), "FPS counter: OFF");
    c.set_visible(true);
    assert!(c.try_execute("exit"));
    assert!(!c.is_visible());
    assert_eq!(last(&c), "Console closed.");
    assert!(c.try_execute("cls"));
    assert_eq!(c.messages(), vec!["Console cleared.".to_string()]);
    assert!(c.try_execute("clear"));
    assert_eq!(c.messages(), vec!["Console cleared.".to_string()]);
}

#[test]
fn help_lists_and_explains_commands() {
    let mut c: Console<Greet> = Console::new();
    assert!(c.try_execute("help echo"));
    assert_eq!(last(&c), "Example: echo Hello world");
    assert!(c.try_execute("help nothing"));
    assert_eq!(last(&c), "No help for 'nothing'.");
    assert!(c.try_execute("help quit"));
    assert_eq!(last(&c), "quit / exit - Close the console.");
    let before = c.messages().len();
    assert!(c.try_execute("help"));
    let msgs = c.messages();
    assert_eq!(msgs[before], "Available commands:");
    assert!(msgs.len() > before + 4);
}

#[test]
fn the_log_keeps_the_newest_messages() {
    let mut c: Console<Greet> = Console::new();
    for i in 0..(MAX_MESSAGES + 100) {
        c.add_message(format!("m{}", i));
    }
    let msgs = c.messages();
    assert_eq!(msgs.len(), MAX_MESSAGES);
    assert_eq!(msgs[0], "m100");
    assert_eq!(msgs[MAX_MESSAGES - 1], format!("m{}", MAX_MESSAGES + 99));
}

#[test]
fn the_history_keeps_the_newest_entries() {
    let mut c: Console<Greet> = Console::new();
    for i in 0..(MAX_HISTORY + 5) {
        c.push_history(&format!("cmd{}", i));
    }
    let h = c.history();
    assert_eq!(h.len(), MAX_HISTORY);
    assert_eq!(h[0], "cmd5");
}

#[test]
fn submitting_input_logs_runs_and_clears() {
    let mut c: Console<Greet> = Console::new();
    c.set_input_buffer("echo hi".to_string());
    c.submit_input();
    let msgs = c.messages();
    assert_eq!(msgs[msgs.len() - 2], "> echo hi");
    assert_eq!(msgs[msgs.len() - 1], "hi");
    assert_eq!(c.input_buffer(), "");
    assert_eq!(c.history(), vec!["echo hi".to_string()]);
    let before = c.messages().len();
    c.submit_input();
    assert_eq!(c.messages().len(), before);
}

#[test]
fn toggling_twice_restores_visibility() {
    let mut c: Console<Greet> = Console::new();
    c.toggle();
    assert!(c.is_visible());
    c.toggle();
    assert!(!c.is_visible());
}

#[test]
fn history_navigation_walks_back_and_forth() {
    let mut c: Console<Greet> = Console::new();
    c.push_history("first");
    c.push_history("second");
    c.navigate_history_up();
    assert_eq!(c.input_buffer(), "second");
    c.navigate_history_up();
    assert_eq!(c.input_buffer(), "first");
    c.navigate_history_up();
    assert_eq!(c.input_buffer(), "first");
    c.navigate_history_down();
    assert_eq!(c.input_buffer(), "second");
    c.navigate_history_down();
    assert_eq!(c.input_buffer(), "");
}

#[test]
fn suggestions_match_the_typed_prefix() {
    let mut c: Console<Greet> = Console::new();
    c.set_input_buffer("e".to_string());
    assert_eq!(c.matching_commands(), vec!["echo".to_string(), "editor".to_string()]);
    assert_eq!(c.advance_suggestion(), Some("echo".to_string()));
    assert_eq!(c.input_buffer(), "echo ");
    c.set_input_buffer("zzz".to_string());
    assert_eq!(c.advance_suggestion(), None);
    assert_eq!(c.selected_suggestion(), None);
}

#[test]
fn keyboard_opens_types_and_submits() {
    let mut c: Console<Greet> = Console::new();
    c.handle_keyboard(ConsoleKey::Backquote, Some("`".to_string()), true, false);
    assert!(c.is_visible());
    c.handle_keyboard(ConsoleKey::Other, Some("echo yo".to_string()), true, false);
    assert_eq!(c.input_buffer(), "echo yo");
    c.handle_keyboard(ConsoleKey::Backspace, None, true, false);
    assert_eq!(c.input_buffer(), "echo y");
    c.handle_keyboard(ConsoleKey::Enter, None, true, false);
    assert_eq!(last(&c), "y");
    c.handle_keyboard(ConsoleKey::Escape, None, true, false);
    assert!(!c.is_visible());
}

#[test]
fn unregistering_removes_a_command() {
    let mut c: Console<Greet> = Console::new();
    c.unregister_command("echo");
    assert!(!c.has_command("echo"));
    assert!(!c.try_execute("echo x"));
    assert_eq!(c.command_names(), vec!["clear", "test", "version"]);
}

use runa::input::{route_keyboard, InputState, KeyEvent};
use runa::window::{WindowRequest, WindowState};

fn key(code: u32, key: ConsoleKey, text: Option<&str>, pressed: bool) -> KeyEvent {
    KeyEvent { key, code, is_fullscreen_key: false, text: text.map(|t| t.to_string()), pressed, repeat: false }
}

#[test]
fn key_state_tracks_presses_and_frames() {
    let mut input = InputState::new();
    input.key_event(30, true);
    assert!(input.is_key_pressed(30) && input.is_key_just_pressed(30));
    input.update_frame();
    assert!(input.is_key_pressed(30) && !input.is_key_just_pressed(30));
    input.key_event(30, false);
    assert!(!input.is_key_pressed(30));
    input.mouse_button_event(1, true);
    assert!(input.is_mouse_button_pressed(1) && input.is_mouse_button_just_pressed(1));
    input.mouse_button_event(1, false);
    assert!(!input.is_mouse_button_pressed(1));
    assert!(input.mouse_buttons_just_released.contains(1));
}

#[test]
fn keyboard_events_go_to_fullscreen_console_or_game() {
    let mut console: Console<Greet> = Console::new();
    let mut input = InputState::new();
    let mut window = WindowState::default();

    let f11 = KeyEvent { key: ConsoleKey::Other, code: 87, is_fullscreen_key: true, text: None, pressed: true, repeat: false };
    assert_eq!(route_keyboard(f11, &mut console, &mut input, &mut window), Some(WindowRequest::SetFullscreen(true)));
    assert!(window.fullscreen);
    assert!(!input.is_key_pressed(87));

    // With the console closed, keys reach the game.
    assert_eq!(route_keyboard(key(17, ConsoleKey::Other, Some("w"), true), &mut console, &mut input, &mut window), None);
    assert!(input.is_key_pressed(17));

    // Opening the console keeps further keys away from the game.
    route_keyboard(key(41, ConsoleKey::Backquote, Some("`"), true), &mut console, &mut input, &mut window);
    assert!(console.is_visible());
    route_keyboard(key(18, ConsoleKey::Other, Some("e"), true), &mut console, &mut input, &mut window);
    assert!(!input.is_key_pressed(18));
    assert_eq!(console.input_buffer(), "e");
}

#[test]
fn suggestion_strip_brackets_the_selected_one() {
    let mut c: Console<Greet> = Console::new();
    c.set_input_buffer("e".to_string());
    assert_eq!(c.suggestion_strip(), "echo  editor");
    c.select_next_suggestion();
    assert_eq!(c.suggestion_strip(), "[echo]  editor");
    c.set_input_buffer("".to_string());
    assert_eq!(c.suggestion_strip(), "");
}

#[test]
fn recent_messages_come_newest_first() {
    let mut c: Console<Greet> = Console::new();
    c.add_message("one".to_string());
    c.add_message("two".to_string());
    assert_eq!(c.recent_messages(2), vec!["two".to_string(), "one".to_string()]);
    assert_eq!(c.recent_messages(10).len(), 3);
    assert!(c.recent_messages(0).is_empty());
}
