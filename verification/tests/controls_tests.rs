use gowr_noclip::controls::{
    gravity_after_keys, movement_intent, parse_command, ConsoleCommand, Direction, KeyState, ToggleState,
};

fn keys() -> KeyState {
    KeyState {
        g: false,
        w: false,
        s: false,
        a: false,
        d: false,
        q: false,
        e: false,
        l: false,
        u: false,
        lshift: false,
        lcontrol: false,
    }
}

#[test]
fn g_toggles_once_per_press() {
    let mut t = ToggleState::<f32>::new();
    assert_eq!(t.poll(true), Some(true));
    assert_eq!(t.poll(true), None);
    assert!(t.input_enabled);
    assert_eq!(t.poll(false), None);
    assert_eq!(t.poll(true), Some(false));
    assert!(!t.input_enabled);
}

#[test]
fn later_keys_win_on_each_axis() {
    let mut k = keys();
    k.w = true;
    k.s = true;
    k.a = true;
    k.d = true;
    k.q = true;
    k.e = true;
    let m = movement_intent(&k);
    assert!(matches!(m.forward, Direction::Positive));
    assert!(matches!(m.strafe, Direction::Negative));
    assert!(matches!(m.rotate, Direction::Negative));
    let mut k = keys();
    k.w = true;
    k.d = true;
    k.lshift = true;
    let m = movement_intent(&k);
    assert!(matches!(m.forward, Direction::Negative));
    assert!(matches!(m.strafe, Direction::Positive));
    assert!(matches!(m.rotate, Direction::Still));
    assert!(m.raise && !m.lower);
}

#[test]
fn gravity_lock_follows_l_then_u() {
    let mut k = keys();
    assert!(gravity_after_keys(true, &k));
    k.u = true;
    assert!(!gravity_after_keys(true, &k));
    k.l = true;
    assert!(!gravity_after_keys(false, &k));
    k.u = false;
    assert!(gravity_after_keys(false, &k));
}

#[test]
fn console_commands_ignore_surrounding_whitespace() {
    assert!(matches!(parse_command("w\n"), ConsoleCommand::Forward));
    assert!(matches!(parse_command("  s \r\n"), ConsoleCommand::Back));
    assert!(matches!(parse_command("a"), ConsoleCommand::Left));
    assert!(matches!(parse_command("d"), ConsoleCommand::Right));
    assert!(matches!(parse_command("q"), ConsoleCommand::Raise));
    assert!(matches!(parse_command("e"), ConsoleCommand::Lower));
    assert!(matches!(parse_command("l"), ConsoleCommand::LockGravity));
    assert!(matches!(parse_command("u"), ConsoleCommand::UnlockGravity));
    assert!(matches!(parse_command("\tx"), ConsoleCommand::Exit));
    assert!(matches!(parse_command("ww"), ConsoleCommand::Unknown));
    assert!(matches!(parse_command("W"), ConsoleCommand::Unknown));
    assert!(matches!(parse_command(""), ConsoleCommand::Unknown));
}

#[test]
fn a_toggle_clears_the_target_height() {
    let mut t = ToggleState::<f32>::new();
    assert!(t.target.is_none());
    assert_eq!(t.poll(true), Some(true));
    t.target = Some(12.5);
    assert_eq!(t.poll(true), None);
    assert_eq!(t.target, Some(12.5));
    assert_eq!(t.poll(false), None);
    assert_eq!(t.target, Some(12.5));
    assert_eq!(t.poll(true), Some(false));
    assert!(t.target.is_none());
}
