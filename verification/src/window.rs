use vstd::prelude::*;
use crate::game::Move;

verus! {

/// The keys the game listens to.
#[derive(Debug, Clone, Copy, PartialEq, Eq, Structural)]
pub enum Key {
    Left,
    Right,
    Up,
    Down,
    Pause,
    Reset,
}

/// Virtual-key codes of the keys the game reads.
pub const VK_SPACE: usize = 0x20;
pub const VK_LEFT: usize = 0x25;
pub const VK_UP: usize = 0x26;
pub const VK_RIGHT: usize = 0x27;
pub const VK_DOWN: usize = 0x28;
pub const VK_A: usize = 0x41;
pub const VK_D: usize = 0x44;
pub const VK_R: usize = 0x52;
pub const VK_S: usize = 0x53;
pub const VK_W: usize = 0x57;

/// The key that a virtual-key code stands for: A and the left arrow, D and
/// the right arrow, W and the up arrow, S and the down arrow, space to pause
/// and R to restart.
pub open spec fn key_for_code(code: usize) -> Option<Key> {
    if code == VK_A || code == VK_LEFT {
        Some(Key::Left)
    } else if code == VK_D || code == VK_RIGHT {
        Some(Key::Right)
    } else if code == VK_W || code == VK_UP {
        Some(Key::Up)
    } else if code == VK_S || code == VK_DOWN {
        Some(Key::Down)
    } else if code == VK_SPACE {
        Some(Key::Pause)
    } else if code == VK_R {
        Some(Key::Reset)
    } else {
        None
    }
}

/// The move a key asks for while the game runs.
pub open spec fn move_for_key(key: Key) -> Option<Move> {
    match key {
        Key::Left => Some(Move::Left),
        Key::Right => Some(Move::Right),
        Key::Up => Some(Move::Forward),
        Key::Down => Some(Move::Backward),
        Key::Pause => None,
        Key::Reset => None,
    }
}

impl Key {
    /// The key pressed with a virtual-key code, if the game reads that code.
    pub fn from_virtual_key(code: usize) -> (key: Option<Key>)
        ensures
            key == key_for_code(code),
    {
        if code == VK_A || code == VK_LEFT {
            Some(Key::Left)
        } else if code == VK_D || code == VK_RIGHT {
            Some(Key::Right)
        } else if code == VK_W || code == VK_UP {
            Some(Key::Up)
        } else if code == VK_S || code == VK_DOWN {
            Some(Key::Down)
        } else if code == VK_SPACE {
            Some(Key::Pause)
        } else if code == VK_R {
            Some(Key::Reset)
        } else {
            None
        }
    }

    /// The virtual-key codes that press this key.
    pub fn virtual_keys(self) -> (codes: Vec<usize>)
        ensures
            codes@.len() >= 1,
            forall|i: int| 0 <= i < codes@.len() ==> key_for_code(#[trigger] codes@[i]) == Some(self),
            forall|code: usize| key_for_code(code) == Some(self) ==> codes@.contains(code),
    {
        let codes = match self {
            Key::Left => vec![VK_A, VK_LEFT],
            Key::Right => vec![VK_D, VK_RIGHT],
            Key::Up => vec![VK_W, VK_UP],
            Key::Down => vec![VK_S, VK_DOWN],
            Key::Pause => vec![VK_SPACE],
            Key::Reset => vec![VK_R],
        };
        proof {
            assert forall|code: usize| key_for_code(code) == Some(self) implies codes@.contains(code) by {
                if code == codes@[0] {
                    assert(codes@.contains(codes@[0]));
                } else {
                    assert(codes@.len() == 2 && code == codes@[1]);
                    assert(codes@.contains(codes@[1]));
                }
            }
        }
        codes
    }

    /// The move this key asks for while the game runs: the arrows (and
    /// W, A, S, D) move the player, the other keys do not.
    pub fn direction(self) -> (direction: Option<Move>)
        ensures
            direction == move_for_key(self),
    {
        match self {
            Key::Left => Some(Move::Left),
            Key::Right => Some(Move::Right),
            Key::Up => Some(Move::Forward),
            Key::Down => Some(Move::Backward),
            Key::Pause => None,
            Key::Reset => None,
        }
    }
}

/// The UTF-16 code units of one character: one unit for a character below
/// 0x10000, else a high and a low surrogate.
pub open spec fn utf16_of_char(c: char) -> Seq<u16> {
    let code = c as u32;
    if code < 0x10000 {
        seq![code as u16]
    } else {
        let rest = (code - 0x10000) as u32;
        seq![(0xD800 + rest / 0x400) as u16, (0xDC00 + rest % 0x400) as u16]
    }
}

/// The UTF-16 code units of a text, character after character.
pub open spec fn utf16_of(text: Seq<char>) -> Seq<u16>
    decreases text.len(),
{
    if text.len() == 0 {
        Seq::empty()
    } else {
        utf16_of(text.drop_last()) + utf16_of_char(text.last())
    }
}

/// A text as the zero-terminated UTF-16 string that the window system takes.
pub fn wide(text: &str) -> (units: Vec<u16>)
    ensures
        units@ == utf16_of(text@).push(0),
{
    let mut units: Vec<u16> = Vec::new();
    let ghost mut seen: Seq<char> = Seq::empty();
    for c in it: text.chars()
        invariant
            it.seq() == text@,
            seen.len() == it.index(),
            seen == text@.take(seen.len() as int),
            units@ == utf16_of(seen),
    {
        let code = c as u32;
        if code < 0x10000 {
            units.push(code as u16);
        } else {
            let rest = code - 0x10000;
            units.push((0xD800 + rest / 0x400) as u16);
            units.push((0xDC00 + rest % 0x400) as u16);
        }
        proof {
            let before = seen;
            seen = seen.push(c);
            assert(seen.drop_last() =~= before);
            assert(seen =~= text@.take(seen.len() as int));
            assert(units@ =~= utf16_of(before) + utf16_of_char(c));
        }
    }
    proof {
        assert(seen =~= text@);
    }
    units.push(0);
    units
}

} // verus!
