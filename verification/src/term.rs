//! Keys read from the terminal, and how the bytes of one read decode to a key.
use vstd::prelude::*;

verus! {

/// A key press.
#[derive(Clone, Copy, PartialEq, Eq, Structural)]
pub enum Key {
    Char(char),
    Tab,
    Enter,
    Escape,
    Up,
    Down,
    Left,
    Right,
    Backspace,
    Space,
    NoKey,
}

/// The key that the bytes of one read stand for: control keys by their byte, arrow keys by
/// their three-byte escape sequence, a lone escape byte (or any other sequence that starts
/// with one) as Escape, printable ASCII as itself, and anything else as no key.
pub open spec fn key_of(bytes: Seq<u8>) -> Key {
    if bytes.len() == 0 {
        Key::NoKey
    } else {
        let b = bytes[0];
        if b == 9 {
            Key::Tab
        } else if b == 13 {
            Key::Enter
        } else if b == 32 {
            Key::Space
        } else if b == 8 || b == 0x7f {
            Key::Backspace
        } else if b == 0x1b {
            if bytes.len() == 1 {
                Key::Escape
            } else if bytes.len() == 3 && bytes[1] == 91 {
                if bytes[2] == 65 {
                    Key::Up
                } else if bytes[2] == 66 {
                    Key::Down
                } else if bytes[2] == 67 {
                    Key::Right
                } else if bytes[2] == 68 {
                    Key::Left
                } else {
                    Key::NoKey
                }
            } else {
                Key::Escape
            }
        } else if 32 <= b < 127 {
            Key::Char(b as char)
        } else {
            Key::NoKey
        }
    }
}

/// Decodes the bytes of one read from the terminal into a key.
pub fn decode_key(bytes: &[u8]) -> (k: Key)
    ensures
        k == key_of(bytes@),
{
    let n = bytes.len();
    if n == 0 {
        return Key::NoKey;
    }
    let b = bytes[0];
    if b == 9 {
        Key::Tab
    } else if b == 13 {
        Key::Enter
    } else if b == 32 {
        Key::Space
    } else if b == 0x08 || b == 0x7F {
        Key::Backspace
    } else if b == 0x1b {
        if n == 1 {
            return Key::Escape;
        }
        if n == 3 && bytes[1] == 91 {
            let c = bytes[2];
            if c == 65 {
                Key::Up
            } else if c == 66 {
                Key::Down
            } else if c == 67 {
                Key::Right
            } else if c == 68 {
                Key::Left
            } else {
                Key::NoKey
            }
        } else {
            Key::Escape
        }
    } else if b >= 32 && b < 127 {
        Key::Char(b as char)
    } else {
        Key::NoKey
    }
}

} // verus!
