//! Stone colors.

use vstd::prelude::*;
use vstd::string::StrSliceExecFns;

verus! {

/// The color of a stone: black moves are encoded as 1, white as 2 in the
/// board's vertex array.
#[derive(Clone, Copy, Debug, PartialEq, Eq, Hash, Structural)]
pub enum Color {
    Black,
    White,
}

/// The vertex-array byte that encodes a stone of color `c`.
pub open spec fn color_byte(c: Color) -> u8 {
    match c {
        Color::Black => 1,
        Color::White => 2,
    }
}

/// The byte that encodes the opposing color.
pub open spec fn opp_byte(b: u8) -> u8 {
    if b == 1 {
        2
    } else {
        1
    }
}

impl Color {
    /// Returns the opposite of this color.
    pub fn opposite(&self) -> (r: Color)
        ensures
            color_byte(r) == opp_byte(color_byte(*self)),
            r != *self,
    {
        match *self {
            Color::Black => Color::White,
            Color::White => Color::Black,
        }
    }

    /// The vertex-array encoding of this color.
    pub fn byte(&self) -> (r: u8)
        ensures
            r == color_byte(*self),
    {
        match *self {
            Color::Black => 1,
            Color::White => 2,
        }
    }

    /// Single-letter name used when printing moves: `B` or `W`.
    pub fn letter(&self) -> (r: char)
        ensures
            *self == Color::Black ==> r == 'B',
            *self == Color::White ==> r == 'W',
    {
        match *self {
            Color::Black => 'B',
            Color::White => 'W',
        }
    }
}

/// Case-insensitive color names: `"black"` and `"b"` parse as black,
/// `"white"` and `"w"` as white; anything else is rejected.
pub open spec fn parses_as(s: Seq<char>, c: Color) -> bool {
    match c {
        Color::Black => ascii_lower(s) =~= seq!['b'] || ascii_lower(s) =~= seq![
            'b',
            'l',
            'a',
            'c',
            'k',
        ],
        Color::White => ascii_lower(s) =~= seq!['w'] || ascii_lower(s) =~= seq![
            'w',
            'h',
            'i',
            't',
            'e',
        ],
    }
}

/// ASCII lower-casing of a character sequence.
pub open spec fn ascii_lower(s: Seq<char>) -> Seq<char> {
    s.map_values(|c: char| lower_char(c))
}

pub open spec fn lower_char(c: char) -> char {
    if 'A' <= c && c <= 'Z' {
        ((c as u8) + 32) as char
    } else {
        c
    }
}

/// ASCII lower-casing of one character.
fn lower(c: char) -> (r: char)
    ensures
        r == lower_char(c),
{
    if 'A' <= c && c <= 'Z' {
        ((c as u8) + 32) as char
    } else {
        c
    }
}

impl Color {
    /// Parses a color name: case-insensitive `black` or `b` give black,
    /// `white` or `w` white; anything else is rejected.
    pub fn parse(s: &str) -> (r: Result<Color, ()>)
        ensures
            r == Ok::<Color, ()>(Color::Black) <==> parses_as(s@, Color::Black),
            r == Ok::<Color, ()>(Color::White) <==> parses_as(s@, Color::White),
            r is Err <==> !parses_as(s@, Color::Black) && !parses_as(s@, Color::White),
    {
        let n = s.unicode_len();
        proof {
            assert(ascii_lower(s@).len() == s@.len());
        }
        if n == 1 {
            let c0 = lower(s.get_char(0));
            proof {
                assert(ascii_lower(s@)[0] == c0);
            }
            if c0 == 'b' {
                proof {
                    assert(ascii_lower(s@) =~= seq!['b']);
                }
                Ok(Color::Black)
            } else if c0 == 'w' {
                proof {
                    assert(ascii_lower(s@) =~= seq!['w']);
                }
                Ok(Color::White)
            } else {
                proof {
                    assert(!(ascii_lower(s@) =~= seq!['b']));
                    assert(!(ascii_lower(s@) =~= seq!['w']));
                }
                Err(())
            }
        } else if n == 5 {
            let c0 = lower(s.get_char(0));
            let c1 = lower(s.get_char(1));
            let c2 = lower(s.get_char(2));
            let c3 = lower(s.get_char(3));
            let c4 = lower(s.get_char(4));
            proof {
                assert(ascii_lower(s@)[0] == c0);
                assert(ascii_lower(s@)[1] == c1);
                assert(ascii_lower(s@)[2] == c2);
                assert(ascii_lower(s@)[3] == c3);
                assert(ascii_lower(s@)[4] == c4);
            }
            if c0 == 'b' && c1 == 'l' && c2 == 'a' && c3 == 'c' && c4 == 'k' {
                proof {
                    assert(ascii_lower(s@) =~= seq!['b', 'l', 'a', 'c', 'k']);
                }
                Ok(Color::Black)
            } else if c0 == 'w' && c1 == 'h' && c2 == 'i' && c3 == 't' && c4 == 'e' {
                proof {
                    assert(ascii_lower(s@) =~= seq!['w', 'h', 'i', 't', 'e']);
                }
                Ok(Color::White)
            } else {
                proof {
                    assert(!(ascii_lower(s@) =~= seq!['b', 'l', 'a', 'c', 'k']));
                    assert(!(ascii_lower(s@) =~= seq!['w', 'h', 'i', 't', 'e']));
                }
                Err(())
            }
        } else {
            Err(())
        }
    }
}

} // verus!
