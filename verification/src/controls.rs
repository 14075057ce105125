//! Decisions of the no-clip controls: the input toggle, movement from held
//! keys, the gravity lock, and console commands.
use vstd::prelude::*;
use crate::pattern::{chars_of, is_whitespace};

verus! {

broadcast use vstd::string::group_string_axioms;

// ── Keyboard polling ────────────────────────────────────────────────────────

/// Keys of interest held down during one poll of the keyboard.
#[derive(Clone, Copy)]
pub struct KeyState {
    pub g: bool,
    pub w: bool,
    pub s: bool,
    pub a: bool,
    pub d: bool,
    pub q: bool,
    pub e: bool,
    pub l: bool,
    pub u: bool,
    pub lshift: bool,
    pub lcontrol: bool,
}

/// State of the input toggle: whether G was down at the last poll, whether
/// movement input is enabled, and the height that movement holds the player
/// at, if one has been set since the last toggle.
pub struct ToggleState<T> {
    pub g_was_down: bool,
    pub input_enabled: bool,
    pub target: Option<T>,
}

/// One poll of the G key: a press (G down now, up before) flips the input
/// toggle, clears the target height and reports the new setting; holding or
/// releasing it changes nothing else than the memory of the key.
pub open spec fn toggle_step<T>(s: ToggleState<T>, g_down: bool) -> (ToggleState<T>, Option<bool>) {
    if g_down && !s.g_was_down {
        (ToggleState { g_was_down: true, input_enabled: !s.input_enabled, target: None }, Some(!s.input_enabled))
    } else {
        (ToggleState { g_was_down: g_down, input_enabled: s.input_enabled, target: s.target }, None)
    }
}

impl<T> ToggleState<T> {
    /// Input starts disabled, with G up and no target height.
    pub fn new() -> (r: ToggleState<T>)
        ensures
            !r.g_was_down,
            !r.input_enabled,
            r.target is None,
    {
        ToggleState { g_was_down: false, input_enabled: false, target: None }
    }

    /// Poll the G key. Returns the new input setting when the press toggled it.
    pub fn poll(&mut self, g_down: bool) -> (toggled: Option<bool>)
        ensures
            (*final(self), toggled) == toggle_step(*old(self), g_down),
    {
        if g_down {
            if !self.g_was_down {
                let new_state = !self.input_enabled;
                self.input_enabled = new_state;
                self.g_was_down = true;
                self.target = None;
                Some(new_state)
            } else {
                None
            }
        } else {
            self.g_was_down = false;
            None
        }
    }
}

/// Law: a poll that finds G newly pressed flips the input setting and clears
/// the target height; any other poll leaves both as they were.
pub proof fn lemma_press_flips_and_clears<T>(s: ToggleState<T>, g_down: bool)
    ensures
        ({
            let (s1, t1) = toggle_step(s, g_down);
            if g_down && !s.g_was_down {
                &&& s1.input_enabled == !s.input_enabled
                &&& s1.target is None
                &&& t1 == Some(s1.input_enabled)
            } else {
                &&& s1.input_enabled == s.input_enabled
                &&& s1.target == s.target
                &&& t1 is None
            }
        }),
{
}

/// Law: holding G down toggles the input once: after a press, further polls
/// with G still down change nothing.
pub proof fn lemma_hold_toggles_once<T>(s: ToggleState<T>)
    ensures
        ({
            let (s1, t1) = toggle_step(s, true);
            let (s2, t2) = toggle_step(s1, true);
            &&& t2 is None
            &&& s2 == s1
        }),
{
}

/// Law: two presses (each followed by a release) restore the input setting.
pub proof fn lemma_two_presses_restore<T>(s: ToggleState<T>)
    requires
        !s.g_was_down,
    ensures
        ({
            let (s1, t1) = toggle_step(s, true);
            let (s2, t2) = toggle_step(s1, false);
            let (s3, t3) = toggle_step(s2, true);
            &&& t1 == Some(!s.input_enabled)
            &&& t3 == Some(s.input_enabled)
            &&& s3.input_enabled == s.input_enabled
        }),
{
}

/// Direction of a movement step along one axis.
pub enum Direction {
    Negative,
    Still,
    Positive,
}

/// Movement asked for by the keys held in one poll.
pub struct MovementIntent {
    /// W steps negative, S positive; S wins when both are held.
    pub forward: Direction,
    /// A steps negative, D positive; A wins when both are held.
    pub strafe: Direction,
    /// Q turns positive, E negative; E wins when both are held.
    pub rotate: Direction,
    /// Left shift: raise the target height.
    pub raise: bool,
    /// Left control: lower the target height.
    pub lower: bool,
}

/// The direction picked from a key that steps negative and one that steps
/// positive, where `later_positive` says which of the two is checked last
/// and so wins when both are held.
pub open spec fn pick(neg: bool, pos: bool, later_positive: bool) -> Direction {
    if later_positive {
        if pos {
            Direction::Positive
        } else if neg {
            Direction::Negative
        } else {
            Direction::Still
        }
    } else {
        if neg {
            Direction::Negative
        } else if pos {
            Direction::Positive
        } else {
            Direction::Still
        }
    }
}

/// Movement asked for by held keys.
pub fn movement_intent(keys: &KeyState) -> (r: MovementIntent)
    ensures
        r.forward == pick(keys.w, keys.s, true),
        r.strafe == pick(keys.a, keys.d, false),
        r.rotate == pick(keys.e, keys.q, false),
        r.raise == keys.lshift,
        r.lower == keys.lcontrol,
{
    let forward = if keys.s {
        Direction::Positive
    } else if keys.w {
        Direction::Negative
    } else {
        Direction::Still
    };
    let strafe = if keys.a {
        Direction::Negative
    } else if keys.d {
        Direction::Positive
    } else {
        Direction::Still
    };
    let rotate = if keys.e {
        Direction::Negative
    } else if keys.q {
        Direction::Positive
    } else {
        Direction::Still
    };
    MovementIntent { forward, strafe, rotate, raise: keys.lshift, lower: keys.lcontrol }
}

/// Gravity lock after the held keys: L locks, then U unlocks, so U wins.
pub fn gravity_after_keys(locked: bool, keys: &KeyState) -> (r: bool)
    ensures
        r == (if keys.u {
            false
        } else if keys.l {
            true
        } else {
            locked
        }),
{
    let mut now = locked;
    if keys.l {
        now = true;
    }
    if keys.u {
        now = false;
    }
    now
}

// ── Console commands ────────────────────────────────────────────────────────

/// A command typed at the console.
pub enum ConsoleCommand {
    /// `w`
    Forward,
    /// `s`
    Back,
    /// `a`
    Left,
    /// `d`
    Right,
    /// `q`
    Raise,
    /// `e`
    Lower,
    /// `l`
    LockGravity,
    /// `u`
    UnlockGravity,
    /// `x`
    Exit,
    /// Anything else.
    Unknown,
}

/// `s` without leading whitespace.
pub open spec fn trim_start(s: Seq<char>) -> Seq<char>
    decreases s.len(),
{
    if s.len() > 0 && is_whitespace(s[0]) {
        trim_start(s.drop_first())
    } else {
        s
    }
}

/// `s` without trailing whitespace.
pub open spec fn trim_end(s: Seq<char>) -> Seq<char>
    decreases s.len(),
{
    if s.len() > 0 && is_whitespace(s.last()) {
        trim_end(s.drop_last())
    } else {
        s
    }
}

/// `s` without leading or trailing whitespace.
pub open spec fn trimmed(s: Seq<char>) -> Seq<char> {
    trim_end(trim_start(s))
}

/// The command a trimmed console line names.
pub open spec fn command_of(t: Seq<char>) -> ConsoleCommand {
    if t == seq!['w'] {
        ConsoleCommand::Forward
    } else if t == seq!['s'] {
        ConsoleCommand::Back
    } else if t == seq!['a'] {
        ConsoleCommand::Left
    } else if t == seq!['d'] {
        ConsoleCommand::Right
    } else if t == seq!['q'] {
        ConsoleCommand::Raise
    } else if t == seq!['e'] {
        ConsoleCommand::Lower
    } else if t == seq!['l'] {
        ConsoleCommand::LockGravity
    } else if t == seq!['u'] {
        ConsoleCommand::UnlockGravity
    } else if t == seq!['x'] {
        ConsoleCommand::Exit
    } else {
        ConsoleCommand::Unknown
    }
}

fn is_whitespace_at(c: char) -> (r: bool)
    ensures
        r == is_whitespace(c),
{
    let u = c as u32;
    (0x09 <= u && u <= 0x0D) || u == 0x20 || u == 0x85 || u == 0xA0 || u == 0x1680 || (0x2000
        <= u && u <= 0x200A) || u == 0x2028 || u == 0x2029 || u == 0x202F || u == 0x205F || u
        == 0x3000
}

/// The command on a console line, ignoring surrounding whitespace.
pub fn parse_command(line: &str) -> (r: ConsoleCommand)
    ensures
        r == command_of(trimmed(line@)),
{
    let chars = chars_of(line);
    let n = chars.len();
    let mut lo: usize = 0;
    assert(line@.skip(0) =~= line@);
    while lo < n && is_whitespace_at(chars[lo])
        invariant
            n == line@.len(),
            chars@ == line@,
            lo <= n,
            trim_start(line@) == trim_start(line@.skip(lo as int)),
        decreases n - lo,
    {
        assert(line@.skip(lo as int).drop_first() =~= line@.skip(lo + 1));
        lo = lo + 1;
    }
    let ghost rest = line@.skip(lo as int);
    assert(trim_start(rest) == rest) by {
        if rest.len() > 0 {
            assert(rest[0] == chars@[lo as int]);
        }
    }
    let mut hi: usize = n;
    assert(rest.take(rest.len() as int) =~= rest);
    while hi > lo && is_whitespace_at(chars[hi - 1])
        invariant
            n == line@.len(),
            chars@ == line@,
            lo <= hi <= n,
            rest == line@.skip(lo as int),
            trim_end(rest) == trim_end(rest.take(hi - lo)),
        decreases hi,
    {
        assert(rest.take(hi - lo).drop_last() =~= rest.take(hi - 1 - lo));
        assert(rest.take(hi - lo).last() == chars@[hi - 1]);
        hi = hi - 1;
    }
    let ghost t = rest.take(hi - lo);
    assert(trim_end(t) == t) by {
        if t.len() > 0 {
            assert(t.last() == chars@[hi - 1]);
        }
    }
    assert(trimmed(line@) == t);
    if hi - lo != 1 {
        assert(t.len() != 1);
        assert(t != seq!['w'] && t != seq!['s'] && t != seq!['a'] && t != seq!['d'] && t != seq!['q']
            && t != seq!['e'] && t != seq!['l'] && t != seq!['u'] && t != seq!['x']);
        return ConsoleCommand::Unknown;
    }
    let c = chars[lo];
    assert(t =~= seq![c]);
    if c == 'w' {
        ConsoleCommand::Forward
    } else if c == 's' {
        ConsoleCommand::Back
    } else if c == 'a' {
        ConsoleCommand::Left
    } else if c == 'd' {
        ConsoleCommand::Right
    } else if c == 'q' {
        ConsoleCommand::Raise
    } else if c == 'e' {
        ConsoleCommand::Lower
    } else if c == 'l' {
        ConsoleCommand::LockGravity
    } else if c == 'u' {
        ConsoleCommand::UnlockGravity
    } else if c == 'x' {
        ConsoleCommand::Exit
    } else {
        ConsoleCommand::Unknown
    }
}

} // verus!
