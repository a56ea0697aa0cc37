//! Keyboard events: modifier tracking, pane cycling, and what a key press
//! means to the active process.

use vstd::prelude::*;

verus! {

/// Event type of key events.
pub const EV_KEY: u16 = 1;

pub const VAL_RELEASE: u32 = 0;

pub const VAL_PRESS: u32 = 1;

pub const VAL_REPEAT: u32 = 2;

const KEY_ESC: u16 = 1;

const KEY_1: u16 = 2;

const KEY_2: u16 = 3;

const KEY_3: u16 = 4;

const KEY_4: u16 = 5;

const KEY_5: u16 = 6;

const KEY_6: u16 = 7;

const KEY_7: u16 = 8;

const KEY_8: u16 = 9;

const KEY_9: u16 = 10;

const KEY_0: u16 = 11;

const KEY_MINUS: u16 = 12;

const KEY_EQUAL: u16 = 13;

const KEY_BACKSPACE: u16 = 14;

const KEY_TAB: u16 = 15;

const KEY_LEFTBRACE: u16 = 26;

const KEY_RIGHTBRACE: u16 = 27;

const KEY_ENTER: u16 = 28;

const KEY_LEFTCTRL: u16 = 29;

const KEY_SEMICOLON: u16 = 39;

const KEY_APOSTROPHE: u16 = 40;

const KEY_GRAVE: u16 = 41;

const KEY_LEFTSHIFT: u16 = 42;

const KEY_BACKSLASH: u16 = 43;

const KEY_COMMA: u16 = 51;

const KEY_DOT: u16 = 52;

const KEY_SLASH: u16 = 53;

const KEY_RIGHTSHIFT: u16 = 54;

const KEY_LEFTALT: u16 = 56;

const KEY_SPACE: u16 = 57;

const KEY_RIGHTCTRL: u16 = 97;

const KEY_RIGHTALT: u16 = 100;

const KEY_HOME: u16 = 102;

const KEY_UP: u16 = 103;

const KEY_LEFT: u16 = 105;

const KEY_RIGHT: u16 = 106;

const KEY_END: u16 = 107;

const KEY_DOWN: u16 = 108;

const KEY_DELETE: u16 = 111;

/// An event from the input device.
#[derive(Clone, Copy, Debug, PartialEq, Eq, Structural)]
pub struct InputEvent {
    pub ty: u16,
    pub code: u16,
    pub value: u32,
}

/// Modifier keys held down.
#[derive(Clone, Copy, Debug, PartialEq, Eq, Structural)]
pub struct Mods {
    pub shift: bool,
    pub ctrl: bool,
    pub alt: bool,
}

/// Which modifier a key is.
#[derive(Clone, Copy, Debug, PartialEq, Eq, Structural)]
pub enum Modifier {
    Shift,
    Ctrl,
    Alt,
}

#[derive(Clone, Copy, Debug, PartialEq, Eq, Structural)]
pub enum KeyEventKind {
    Press,
    Release,
    Repeat,
}

/// A key as a program sees it.
#[derive(Clone, Copy, Debug, PartialEq, Eq, Structural)]
pub enum KeyCode {
    Backspace,
    Enter,
    Tab,
    BackTab,
    Escape,
    Delete,
    Left,
    Right,
    Up,
    Down,
    Home,
    End,
    Char(u8),
}

/// A structured key event.
#[derive(Clone, Copy, Debug, PartialEq, Eq, Structural)]
pub struct KeyEvent {
    pub code: KeyCode,
    pub modifiers: Mods,
    pub kind: KeyEventKind,
}

/// What an input event makes the kernel do.
#[derive(Debug)]
pub enum InputAction {
    /// Nothing.
    Ignore,
    /// Show the next pane.
    CycleActive,
    /// Deliver to `pid`: the structured event, if the key has one, and the
    /// bytes for its standard input.
    Deliver { pid: u16, event: Option<KeyEvent>, bytes: Vec<u8> },
}

/// The lower-case letter on a key: the three letter rows of the keyboard.
pub open spec fn letter_on(code: u16) -> Option<u8> {
    if 16 <= code <= 25 {
        Some(seq![0x71u8, 0x77, 0x65, 0x72, 0x74, 0x79, 0x75, 0x69, 0x6f, 0x70][code - 16])
    } else if 30 <= code <= 38 {
        Some(seq![0x61u8, 0x73, 0x64, 0x66, 0x67, 0x68, 0x6a, 0x6b, 0x6c][code - 30])
    } else if 44 <= code <= 50 {
        Some(seq![0x7au8, 0x78, 0x63, 0x76, 0x62, 0x6e, 0x6d][code - 44])
    } else {
        None
    }
}

/// The plain and shifted character on a number or symbol key.
pub open spec fn symbol_on(code: u16) -> Option<(u8, u8)> {
    if 2 <= code <= 13 {
        Some(
            (
                seq![0x31u8, 0x32, 0x33, 0x34, 0x35, 0x36, 0x37, 0x38, 0x39, 0x30, 0x2d, 0x3d][code
                    - 2],
                seq![0x21u8, 0x40, 0x23, 0x24, 0x25, 0x5e, 0x26, 0x2a, 0x28, 0x29, 0x5f, 0x2b][code
                    - 2],
            ),
        )
    } else if 26 <= code <= 27 {
        Some((seq![0x5bu8, 0x5d][code - 26], seq![0x7bu8, 0x7d][code - 26]))
    } else if 39 <= code <= 41 {
        Some((seq![0x3bu8, 0x27, 0x60][code - 39], seq![0x3au8, 0x22, 0x7e][code - 39]))
    } else if code == 43 {
        Some((0x5c, 0x7c))
    } else if 51 <= code <= 53 {
        Some((seq![0x2cu8, 0x2e, 0x2f][code - 51], seq![0x3cu8, 0x3e, 0x3f][code - 51]))
    } else {
        None
    }
}

/// The character a letter, number or symbol key types.
pub open spec fn typed_char(code: u16, shift: bool) -> Option<u8> {
    match letter_on(code) {
        Some(l) => Some(
            if shift {
                (l - 0x20) as u8
            } else {
                l
            },
        ),
        None => match symbol_on(code) {
            Some(p) => Some(
                if shift {
                    p.1
                } else {
                    p.0
                },
            ),
            None => None,
        },
    }
}

/// Final byte of the escape sequence of a cursor key.
pub open spec fn cursor_final(code: u16) -> Option<u8> {
    if code == 103 {
        Some(0x41)
    } else if code == 108 {
        Some(0x42)
    } else if code == 106 {
        Some(0x43)
    } else if code == 105 {
        Some(0x44)
    } else if code == 102 {
        Some(0x48)
    } else if code == 107 {
        Some(0x46)
    } else {
        None
    }
}

/// The control byte of an editing key.
pub open spec fn editing_byte(code: u16) -> Option<u8> {
    if code == 28 {
        Some(0x0a)
    } else if code == 14 {
        Some(0x08)
    } else if code == 15 {
        Some(0x09)
    } else if code == 1 {
        Some(0x1b)
    } else if code == 57 {
        Some(0x20)
    } else if code == 111 {
        Some(0x7f)
    } else {
        None
    }
}

/// The bytes a key press sends to a terminal program.
pub open spec fn key_bytes(code: u16, mods: Mods) -> Seq<u8> {
    if mods.ctrl && letter_on(code) is Some {
        seq![(letter_on(code)->0 - 0x60) as u8]
    } else if editing_byte(code) is Some {
        seq![editing_byte(code)->0]
    } else if cursor_final(code) is Some {
        seq![0x1bu8, 0x5b, cursor_final(code)->0]
    } else {
        match typed_char(code, mods.shift) {
            Some(c) => seq![c],
            None => Seq::empty(),
        }
    }
}

/// The key a program sees.
pub open spec fn key_code(code: u16, shift: bool) -> Option<KeyCode> {
    if code == 14 {
        Some(KeyCode::Backspace)
    } else if code == 28 {
        Some(KeyCode::Enter)
    } else if code == 15 {
        Some(
            if shift {
                KeyCode::BackTab
            } else {
                KeyCode::Tab
            },
        )
    } else if code == 1 {
        Some(KeyCode::Escape)
    } else if code == 111 {
        Some(KeyCode::Delete)
    } else if code == 105 {
        Some(KeyCode::Left)
    } else if code == 106 {
        Some(KeyCode::Right)
    } else if code == 103 {
        Some(KeyCode::Up)
    } else if code == 108 {
        Some(KeyCode::Down)
    } else if code == 102 {
        Some(KeyCode::Home)
    } else if code == 107 {
        Some(KeyCode::End)
    } else if code == 57 {
        Some(KeyCode::Char(0x20))
    } else {
        match typed_char(code, shift) {
            Some(c) => Some(KeyCode::Char(c)),
            None => None,
        }
    }
}

/// Position in the alphabet of a letter key.
fn letter_index(code: u16) -> (r: Option<u8>)
    ensures
        match letter_on(code) {
            Some(l) => 0x61 <= l <= 0x7a && r == Some((l - 0x61) as u8),
            None => r is None,
        },
{
    match code {
        30 => Some(0),
        48 => Some(1),
        46 => Some(2),
        32 => Some(3),
        18 => Some(4),
        33 => Some(5),
        34 => Some(6),
        35 => Some(7),
        23 => Some(8),
        36 => Some(9),
        37 => Some(10),
        38 => Some(11),
        50 => Some(12),
        49 => Some(13),
        24 => Some(14),
        25 => Some(15),
        16 => Some(16),
        19 => Some(17),
        31 => Some(18),
        20 => Some(19),
        22 => Some(20),
        47 => Some(21),
        17 => Some(22),
        45 => Some(23),
        21 => Some(24),
        44 => Some(25),
        _ => None,
    }
}

fn symbol_pair(code: u16) -> (r: Option<(u8, u8)>)
    ensures
        r == symbol_on(code),
{
    match code {
        KEY_1 => Some((0x31, 0x21)),
        KEY_2 => Some((0x32, 0x40)),
        KEY_3 => Some((0x33, 0x23)),
        KEY_4 => Some((0x34, 0x24)),
        KEY_5 => Some((0x35, 0x25)),
        KEY_6 => Some((0x36, 0x5e)),
        KEY_7 => Some((0x37, 0x26)),
        KEY_8 => Some((0x38, 0x2a)),
        KEY_9 => Some((0x39, 0x28)),
        KEY_0 => Some((0x30, 0x29)),
        KEY_MINUS => Some((0x2d, 0x5f)),
        KEY_EQUAL => Some((0x3d, 0x2b)),
        KEY_LEFTBRACE => Some((0x5b, 0x7b)),
        KEY_RIGHTBRACE => Some((0x5d, 0x7d)),
        KEY_BACKSLASH => Some((0x5c, 0x7c)),
        KEY_SEMICOLON => Some((0x3b, 0x3a)),
        KEY_APOSTROPHE => Some((0x27, 0x22)),
        KEY_GRAVE => Some((0x60, 0x7e)),
        KEY_COMMA => Some((0x2c, 0x3c)),
        KEY_DOT => Some((0x2e, 0x3e)),
        KEY_SLASH => Some((0x2f, 0x3f)),
        _ => None,
    }
}

fn char_of(code: u16, shift: bool) -> (r: Option<u8>)
    ensures
        r == typed_char(code, shift),
{
    match letter_index(code) {
        Some(idx) => {
            if shift {
                Some(0x41 + idx)
            } else {
                Some(0x61 + idx)
            }
        },
        None => match symbol_pair(code) {
            Some(p) => {
                if shift {
                    Some(p.1)
                } else {
                    Some(p.0)
                }
            },
            None => None,
        },
    }
}

/// The modifier that a key is, if it is one.
pub open spec fn modifier_of(code: u16) -> Option<Modifier> {
    if code == 42 || code == 54 {
        Some(Modifier::Shift)
    } else if code == 29 || code == 97 {
        Some(Modifier::Ctrl)
    } else if code == 56 || code == 100 {
        Some(Modifier::Alt)
    } else {
        None
    }
}

pub fn modifier_bit(code: u16) -> (r: Option<Modifier>)
    ensures
        r == modifier_of(code),
{
    match code {
        KEY_LEFTSHIFT | KEY_RIGHTSHIFT => Some(Modifier::Shift),
        KEY_LEFTCTRL | KEY_RIGHTCTRL => Some(Modifier::Ctrl),
        KEY_LEFTALT | KEY_RIGHTALT => Some(Modifier::Alt),
        _ => None,
    }
}

/// Translates a key press into terminal bytes.
pub fn evdev_to_bytes(code: u16, mods: Mods) -> (r: Vec<u8>)
    ensures
        r@ == key_bytes(code, mods),
        r@.len() <= 3,
{
    let mut out: Vec<u8> = Vec::new();
    if mods.ctrl {
        match letter_index(code) {
            Some(idx) => {
                out.push(idx + 1);
                proof {
                    assert(out@ =~= key_bytes(code, mods));
                }
                return out;
            },
            None => {},
        }
    }
    let single: Option<u8> = match code {
        KEY_ENTER => Some(0x0a),
        KEY_BACKSPACE => Some(0x08),
        KEY_TAB => Some(0x09),
        KEY_ESC => Some(0x1b),
        KEY_SPACE => Some(0x20),
        KEY_DELETE => Some(0x7f),
        _ => None,
    };
    match single {
        Some(b) => {
            out.push(b);
            proof {
                assert(out@ =~= key_bytes(code, mods));
            }
            return out;
        },
        None => {},
    }
    let last: Option<u8> = match code {
        KEY_UP => Some(0x41),
        KEY_DOWN => Some(0x42),
        KEY_RIGHT => Some(0x43),
        KEY_LEFT => Some(0x44),
        KEY_HOME => Some(0x48),
        KEY_END => Some(0x46),
        _ => None,
    };
    match last {
        Some(b) => {
            out.push(0x1b);
            out.push(0x5b);
            out.push(b);
            proof {
                assert(out@ =~= key_bytes(code, mods));
            }
            return out;
        },
        None => {},
    }
    match char_of(code, mods.shift) {
        Some(c) => {
            out.push(c);
        },
        None => {},
    }
    proof {
        assert(out@ =~= key_bytes(code, mods));
    }
    out
}

/// Builds the structured event of a key.
pub fn encode_key_event(code: u16, mods: Mods, kind: KeyEventKind) -> (r: Option<KeyEvent>)
    ensures
        r == (match key_code(code, mods.shift) {
            Some(c) => Some(KeyEvent { code: c, modifiers: mods, kind }),
            None => None,
        }),
{
    let c: KeyCode = match code {
        KEY_BACKSPACE => KeyCode::Backspace,
        KEY_ENTER => KeyCode::Enter,
        KEY_TAB => {
            if mods.shift {
                KeyCode::BackTab
            } else {
                KeyCode::Tab
            }
        },
        KEY_ESC => KeyCode::Escape,
        KEY_DELETE => KeyCode::Delete,
        KEY_LEFT => KeyCode::Left,
        KEY_RIGHT => KeyCode::Right,
        KEY_UP => KeyCode::Up,
        KEY_DOWN => KeyCode::Down,
        KEY_HOME => KeyCode::Home,
        KEY_END => KeyCode::End,
        KEY_SPACE => KeyCode::Char(0x20),
        _ => match char_of(code, mods.shift) {
            Some(ch) => KeyCode::Char(ch),
            None => {
                return None;
            },
        },
    };
    Some(KeyEvent { code: c, modifiers: mods, kind })
}

/// What a key event value means.
pub open spec fn kind_of_value(value: u32) -> Option<KeyEventKind> {
    if value == 1 {
        Some(KeyEventKind::Press)
    } else if value == 0 {
        Some(KeyEventKind::Release)
    } else if value == 2 {
        Some(KeyEventKind::Repeat)
    } else {
        None
    }
}

/// The modifiers after an event: a modifier key sets its modifier when pressed
/// or repeated and clears it when released; nothing else changes them.
pub open spec fn mods_after(mods: Mods, ev: InputEvent) -> Mods {
    if ev.ty != EV_KEY || modifier_of(ev.code) is None || ev.value > 2 {
        mods
    } else {
        let down = ev.value != 0;
        match modifier_of(ev.code)->0 {
            Modifier::Shift => Mods { shift: down, ..mods },
            Modifier::Ctrl => Mods { ctrl: down, ..mods },
            Modifier::Alt => Mods { alt: down, ..mods },
        }
    }
}

/// The view of an action.
pub enum ActionView {
    Ignore,
    CycleActive,
    Deliver { pid: u16, event: Option<KeyEvent>, bytes: Seq<u8> },
}

impl View for InputAction {
    type V = ActionView;

    open spec fn view(&self) -> ActionView {
        match *self {
            InputAction::Ignore => ActionView::Ignore,
            InputAction::CycleActive => ActionView::CycleActive,
            InputAction::Deliver { pid, event, bytes } => ActionView::Deliver {
                pid,
                event,
                bytes: bytes@,
            },
        }
    }
}

/// What an event means while `mods` are held and `active` has the focus. Bytes
/// go out for presses and repeats only.
pub open spec fn action_of(mods: Mods, active: Option<u16>, ev: InputEvent) -> ActionView {
    if ev.ty != EV_KEY || modifier_of(ev.code) is Some {
        ActionView::Ignore
    } else {
        match kind_of_value(ev.value) {
            None => ActionView::Ignore,
            Some(kind) => if kind == KeyEventKind::Press && ev.code == 15 && mods.ctrl {
                ActionView::CycleActive
            } else {
                match active {
                    None => ActionView::Ignore,
                    Some(pid) => ActionView::Deliver {
                        pid,
                        event: match key_code(ev.code, mods.shift) {
                            Some(c) => Some(KeyEvent { code: c, modifiers: mods, kind }),
                            None => None,
                        },
                        bytes: if kind == KeyEventKind::Release {
                            Seq::empty()
                        } else {
                            key_bytes(ev.code, mods)
                        },
                    },
                }
            },
        }
    }
}

/// Handles one device event: tracks modifiers, catches the pane-cycling
/// shortcut, and otherwise decides what the active process receives.
pub fn dispatch(mods: &mut Mods, active: Option<u16>, ev: InputEvent) -> (r: InputAction)
    ensures
        *final(mods) == mods_after(*old(mods), ev),
        r@ == action_of(*old(mods), active, ev),
{
    if ev.ty != EV_KEY {
        return InputAction::Ignore;
    }
    match modifier_bit(ev.code) {
        Some(m) => {
            if ev.value <= VAL_REPEAT {
                let down: bool = ev.value != VAL_RELEASE;
                match m {
                    Modifier::Shift => {
                        mods.shift = down;
                    },
                    Modifier::Ctrl => {
                        mods.ctrl = down;
                    },
                    Modifier::Alt => {
                        mods.alt = down;
                    },
                }
            }
            return InputAction::Ignore;
        },
        None => {},
    }
    let kind: KeyEventKind = if ev.value == VAL_PRESS {
        KeyEventKind::Press
    } else if ev.value == VAL_RELEASE {
        KeyEventKind::Release
    } else if ev.value == VAL_REPEAT {
        KeyEventKind::Repeat
    } else {
        return InputAction::Ignore;
    };
    if kind == KeyEventKind::Press && ev.code == KEY_TAB && mods.ctrl {
        return InputAction::CycleActive;
    }
    let pid: u16 = match active {
        Some(p) => p,
        None => {
            return InputAction::Ignore;
        },
    };
    let event = encode_key_event(ev.code, *mods, kind);
    let bytes: Vec<u8> = if kind == KeyEventKind::Release {
        Vec::new()
    } else {
        evdev_to_bytes(ev.code, *mods)
    };
    let r = InputAction::Deliver { pid, event, bytes };
    proof {
        assert(r@->bytes =~= action_of(*old(mods), active, ev)->bytes);
    }
    r
}

/// Pressing a modifier and releasing it again leaves that modifier off and the
/// others as they were.
pub proof fn law_modifier_press_release(mods: Mods, code: u16)
    requires
        modifier_of(code) is Some,
    ensures
        ({
            let down = mods_after(mods, InputEvent { ty: EV_KEY, code, value: VAL_PRESS });
            let up = mods_after(down, InputEvent { ty: EV_KEY, code, value: VAL_RELEASE });
            match modifier_of(code)->0 {
                Modifier::Shift => down == Mods { shift: true, ..mods } && up == Mods {
                    shift: false,
                    ..mods
                },
                Modifier::Ctrl => down == Mods { ctrl: true, ..mods } && up == Mods {
                    ctrl: false,
                    ..mods
                },
                Modifier::Alt => down == Mods { alt: true, ..mods } && up == Mods {
                    alt: false,
                    ..mods
                },
            }
        }),
{
}

/// Every letter is on one key, in the order of the rows of the keyboard.
pub proof fn law_each_letter_has_its_key(a: u16, b: u16)
    ensures
        letter_on(a) matches Some(l) ==> 'a' as u8 <= l <= 'z' as u8,
        letter_on(a) is Some && letter_on(a) == letter_on(b) ==> a == b,
        letter_on(a) is Some <==> 16 <= a <= 25 || 30 <= a <= 38 || 44 <= a <= 50,
        letter_on(16) == Some('q' as u8),
        letter_on(17) == Some('w' as u8),
        letter_on(18) == Some('e' as u8),
        letter_on(19) == Some('r' as u8),
        letter_on(20) == Some('t' as u8),
        letter_on(21) == Some('y' as u8),
        letter_on(22) == Some('u' as u8),
        letter_on(23) == Some('i' as u8),
        letter_on(24) == Some('o' as u8),
        letter_on(25) == Some('p' as u8),
        letter_on(30) == Some('a' as u8),
        letter_on(31) == Some('s' as u8),
        letter_on(32) == Some('d' as u8),
        letter_on(33) == Some('f' as u8),
        letter_on(34) == Some('g' as u8),
        letter_on(35) == Some('h' as u8),
        letter_on(36) == Some('j' as u8),
        letter_on(37) == Some('k' as u8),
        letter_on(38) == Some('l' as u8),
        letter_on(44) == Some('z' as u8),
        letter_on(45) == Some('x' as u8),
        letter_on(46) == Some('c' as u8),
        letter_on(47) == Some('v' as u8),
        letter_on(48) == Some('b' as u8),
        letter_on(49) == Some('n' as u8),
        letter_on(50) == Some('m' as u8),
{
}

/// The other printing keys give one sign alone and another with shift.
pub proof fn law_each_sign_has_its_key(code: u16)
    ensures
        symbol_on(code) is Some <==> 2 <= code <= 13 || 26 <= code <= 27 || 39 <= code <= 41 || code
            == 43 || 51 <= code <= 53,
        symbol_on(code) is Some ==> letter_on(code) is None,
        symbol_on(2) == Some(('1' as u8, '!' as u8)),
        symbol_on(3) == Some(('2' as u8, '@' as u8)),
        symbol_on(4) == Some(('3' as u8, '#' as u8)),
        symbol_on(5) == Some(('4' as u8, '$' as u8)),
        symbol_on(6) == Some(('5' as u8, '%' as u8)),
        symbol_on(7) == Some(('6' as u8, '^' as u8)),
        symbol_on(8) == Some(('7' as u8, '&' as u8)),
        symbol_on(9) == Some(('8' as u8, '*' as u8)),
        symbol_on(10) == Some(('9' as u8, '(' as u8)),
        symbol_on(11) == Some(('0' as u8, ')' as u8)),
        symbol_on(12) == Some(('-' as u8, '_' as u8)),
        symbol_on(13) == Some(('=' as u8, '+' as u8)),
        symbol_on(26) == Some(('[' as u8, '{' as u8)),
        symbol_on(27) == Some((']' as u8, '}' as u8)),
        symbol_on(39) == Some((';' as u8, ':' as u8)),
        symbol_on(40) == Some(('\'' as u8, '"' as u8)),
        symbol_on(41) == Some(('`' as u8, '~' as u8)),
        symbol_on(43) == Some(('\\' as u8, '|' as u8)),
        symbol_on(51) == Some((',' as u8, '<' as u8)),
        symbol_on(52) == Some(('.' as u8, '>' as u8)),
        symbol_on(53) == Some(('/' as u8, '?' as u8)),
{
}

/// Shift turns a letter into its capital, control into its control
/// character; the editing keys give their control characters and the cursor
/// keys their sequences, with any modifiers.
pub proof fn law_keys_give_their_bytes(code: u16, mods: Mods)
    ensures
        letter_on(code) matches Some(l) ==> key_bytes(code, mods) == seq![
            if mods.ctrl {
                (l - 96) as u8
            } else if mods.shift {
                (l - 32) as u8
            } else {
                l
            },
        ],
        symbol_on(code) matches Some(p) ==> key_bytes(code, mods) == seq![
            if mods.shift {
                p.1
            } else {
                p.0
            },
        ],
        key_bytes(28, mods) == seq![10u8],
        key_bytes(14, mods) == seq![8u8],
        key_bytes(15, mods) == seq![9u8],
        key_bytes(1, mods) == seq![27u8],
        key_bytes(57, mods) == seq![' ' as u8],
        key_bytes(111, mods) == seq![127u8],
        key_bytes(103, mods) == seq![27u8, '[' as u8, 'A' as u8],
        key_bytes(108, mods) == seq![27u8, '[' as u8, 'B' as u8],
        key_bytes(106, mods) == seq![27u8, '[' as u8, 'C' as u8],
        key_bytes(105, mods) == seq![27u8, '[' as u8, 'D' as u8],
        key_bytes(102, mods) == seq![27u8, '[' as u8, 'H' as u8],
        key_bytes(107, mods) == seq![27u8, '[' as u8, 'F' as u8],
        code > 57 && code != 102 && code != 103 && code != 105 && code != 106 && code != 107 && code
            != 108 && code != 111 ==> key_bytes(code, mods).len() == 0,
        modifier_of(code) is Some ==> key_bytes(code, mods).len() == 0,
{
}

/// A printing key is told as the sign it types; each other key by its name,
/// and only the tab key goes by shift.
pub proof fn law_keys_are_told_by_name(code: u16, shift: bool)
    ensures
        key_code(1, shift) == Some(KeyCode::Escape),
        key_code(14, shift) == Some(KeyCode::Backspace),
        key_code(15, true) == Some(KeyCode::BackTab),
        key_code(15, false) == Some(KeyCode::Tab),
        key_code(28, shift) == Some(KeyCode::Enter),
        key_code(57, shift) == Some(KeyCode::Char(' ' as u8)),
        key_code(102, shift) == Some(KeyCode::Home),
        key_code(103, shift) == Some(KeyCode::Up),
        key_code(105, shift) == Some(KeyCode::Left),
        key_code(106, shift) == Some(KeyCode::Right),
        key_code(107, shift) == Some(KeyCode::End),
        key_code(108, shift) == Some(KeyCode::Down),
        key_code(111, shift) == Some(KeyCode::Delete),
        letter_on(code) matches Some(l) ==> key_code(code, shift) == Some(
            KeyCode::Char(
                if shift {
                    (l - 32) as u8
                } else {
                    l
                },
            ),
        ),
        symbol_on(code) matches Some(p) ==> key_code(code, shift) == Some(
            KeyCode::Char(
                if shift {
                    p.1
                } else {
                    p.0
                },
            ),
        ),
        key_code(code, shift) is None <==> key_bytes(
            code,
            (Mods { shift, ctrl: false, alt: false }),
        ).len() == 0,
{
}

/// The two shift, control and alt keys change their own modifier and no
/// other; a held key counts as down; other keys and other events change
/// none.
pub proof fn law_modifier_keys_change_their_own(mods: Mods, ev: InputEvent)
    ensures
        ({
            let m = mods_after(mods, ev);
            let counts = ev.ty == 1 && ev.value <= 2;
            let shift_key = counts && (ev.code == 42 || ev.code == 54);
            let ctrl_key = counts && (ev.code == 29 || ev.code == 97);
            let alt_key = counts && (ev.code == 56 || ev.code == 100);
            &&& m.shift == if shift_key {
                ev.value != 0
            } else {
                mods.shift
            }
            &&& m.ctrl == if ctrl_key {
                ev.value != 0
            } else {
                mods.ctrl
            }
            &&& m.alt == if alt_key {
                ev.value != 0
            } else {
                mods.alt
            }
        }),
{
}

/// A key reaches the active process and no other. Releasing it is told but
/// types nothing; control and tab together change the active process on the
/// press alone; modifiers, other devices and a missing process give nothing.
pub proof fn law_a_key_reaches_the_active_process(
    mods: Mods,
    active: Option<u16>,
    ev: InputEvent,
)
    ensures
        ({
            let a = action_of(mods, active, ev);
            let modifier = ev.code == 42 || ev.code == 54 || ev.code == 29 || ev.code == 97
                || ev.code == 56 || ev.code == 100;
            let key = ev.ty == 1 && ev.value <= 2 && !modifier;
            let cycle = key && ev.code == 15 && ev.value == 1 && mods.ctrl;
            &&& a == ActionView::CycleActive <==> cycle
            &&& a is Deliver <==> key && !cycle && active is Some
            &&& a matches ActionView::Deliver { pid, event, bytes } ==> {
                &&& active == Some(pid)
                &&& event matches Some(e) ==> {
                    &&& Some(e.code) == key_code(ev.code, mods.shift)
                    &&& e.modifiers == mods
                    &&& e.kind == KeyEventKind::Release <==> ev.value == 0
                    &&& e.kind == KeyEventKind::Press <==> ev.value == 1
                    &&& e.kind == KeyEventKind::Repeat <==> ev.value == 2
                }
                &&& event is None <==> key_code(ev.code, mods.shift) is None
                &&& ev.value == 0 ==> bytes.len() == 0
                &&& ev.value != 0 ==> bytes == key_bytes(ev.code, mods)
            }
        }),
{
}

} // verus!
