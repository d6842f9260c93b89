//! The closed value domains of the console: channel label colors and
//! scene lists, each with a canonical wire string in both directions.
//! Unknown strings are rejected, never defaulted.

use vstd::prelude::*;

use crate::ascii::ascii_bytes;
use crate::ascii::bytes_of;
use crate::codec::eq_bytes;
use crate::codec::lf_free;
use crate::codec::sub_vec;
use crate::error::Error;

verus! {

/// The byte lowercased, for the ASCII letters.
pub open spec fn lower_byte(b: u8) -> u8 {
    if 65 <= b <= 90 {
        (b + 32) as u8
    } else {
        b
    }
}

/// The sequence lowercased bytewise; wire-name parsing is
/// case-insensitive.
pub open spec fn lower_bytes(s: Seq<u8>) -> Seq<u8> {
    s.map_values(|b: u8| lower_byte(b))
}

/// Lowercases ASCII letters in place of the wire's case-insensitive
/// matching.
fn to_lower(s: &Vec<u8>) -> (r: Vec<u8>)
    ensures
        r@ == lower_bytes(s@),
{
    let mut r: Vec<u8> = Vec::new();
    let mut i: usize = 0;
    while i < s.len()
        invariant
            i <= s@.len(),
            r@ == lower_bytes(s@.take(i as int)),
        decreases s.len() - i,
    {
        let b = s[i];
        if 65 <= b && b <= 90 {
            r.push(b + 32);
        } else {
            r.push(b);
        }
        proof {
            assert(r@ =~= lower_bytes(s@.take(i + 1)));
        }
        i += 1;
    }
    proof {
        assert(s@.take(s@.len() as int) =~= s@);
    }
    r
}

/// All colors the console can give a channel's label.
#[derive(Clone, Copy, Debug, PartialEq, Eq, Structural)]
pub enum LabelColor {
    Purple,
    Pink,
    Red,
    Orange,
    Yellow,
    Blue,
    SkyBlue,
    Green,
}

impl LabelColor {
    /// The canonical wire string of the color.
    pub open spec fn spec_wire_name(self) -> Seq<u8> {
        match self {
            LabelColor::Purple => bytes_of("Purple"@),
            LabelColor::Pink => bytes_of("Pink"@),
            LabelColor::Red => bytes_of("Red"@),
            LabelColor::Orange => bytes_of("Orange"@),
            LabelColor::Yellow => bytes_of("Yellow"@),
            LabelColor::Blue => bytes_of("Blue"@),
            LabelColor::SkyBlue => bytes_of("SkyBlue"@),
            LabelColor::Green => bytes_of("Green"@),
        }
    }

    /// Writes the color's canonical wire string.
    pub fn wire_name(&self) -> (v: Vec<u8>)
        ensures
            v@ == self.spec_wire_name(),
    {
        match self {
            LabelColor::Purple => {
                proof {
                    reveal_strlit("Purple");
                    assert("Purple".is_ascii());
                }
                ascii_bytes("Purple")
            },
            LabelColor::Pink => {
                proof {
                    reveal_strlit("Pink");
                    assert("Pink".is_ascii());
                }
                ascii_bytes("Pink")
            },
            LabelColor::Red => {
                proof {
                    reveal_strlit("Red");
                    assert("Red".is_ascii());
                }
                ascii_bytes("Red")
            },
            LabelColor::Orange => {
                proof {
                    reveal_strlit("Orange");
                    assert("Orange".is_ascii());
                }
                ascii_bytes("Orange")
            },
            LabelColor::Yellow => {
                proof {
                    reveal_strlit("Yellow");
                    assert("Yellow".is_ascii());
                }
                ascii_bytes("Yellow")
            },
            LabelColor::Blue => {
                proof {
                    reveal_strlit("Blue");
                    assert("Blue".is_ascii());
                }
                ascii_bytes("Blue")
            },
            LabelColor::SkyBlue => {
                proof {
                    reveal_strlit("SkyBlue");
                    assert("SkyBlue".is_ascii());
                }
                ascii_bytes("SkyBlue")
            },
            LabelColor::Green => {
                proof {
                    reveal_strlit("Green");
                    assert("Green".is_ascii());
                }
                ascii_bytes("Green")
            },
        }
    }

    /// The color named by a wire string, compared without regard to
    /// ASCII case; `None` for anything else.
    pub open spec fn spec_of_wire(s: Seq<u8>) -> Option<LabelColor> {
        let l = lower_bytes(s);
        if l == bytes_of("purple"@) {
            Some(LabelColor::Purple)
        } else if l == bytes_of("pink"@) {
            Some(LabelColor::Pink)
        } else if l == bytes_of("red"@) {
            Some(LabelColor::Red)
        } else if l == bytes_of("orange"@) {
            Some(LabelColor::Orange)
        } else if l == bytes_of("yellow"@) {
            Some(LabelColor::Yellow)
        } else if l == bytes_of("blue"@) {
            Some(LabelColor::Blue)
        } else if l == bytes_of("skyblue"@) {
            Some(LabelColor::SkyBlue)
        } else if l == bytes_of("green"@) {
            Some(LabelColor::Green)
        } else {
            None
        }
    }

    /// The color names are single words: no line feed.
    pub proof fn wire_name_lf_free(self)
        ensures
            lf_free(self.spec_wire_name()),
    {
        match self {
            LabelColor::Purple => {
                reveal_strlit("Purple");
                assert(lf_free(bytes_of("Purple"@)));
            },
            LabelColor::Pink => {
                reveal_strlit("Pink");
                assert(lf_free(bytes_of("Pink"@)));
            },
            LabelColor::Red => {
                reveal_strlit("Red");
                assert(lf_free(bytes_of("Red"@)));
            },
            LabelColor::Orange => {
                reveal_strlit("Orange");
                assert(lf_free(bytes_of("Orange"@)));
            },
            LabelColor::Yellow => {
                reveal_strlit("Yellow");
                assert(lf_free(bytes_of("Yellow"@)));
            },
            LabelColor::Blue => {
                reveal_strlit("Blue");
                assert(lf_free(bytes_of("Blue"@)));
            },
            LabelColor::SkyBlue => {
                reveal_strlit("SkyBlue");
                assert(lf_free(bytes_of("SkyBlue"@)));
            },
            LabelColor::Green => {
                reveal_strlit("Green");
                assert(lf_free(bytes_of("Green"@)));
            },
        }
    }

    /// Parses a wire string as a color, case-insensitively. An
    /// unrecognized string is an error carrying the string, never a
    /// default.
    pub fn from_wire(s: &Vec<u8>) -> (r: Result<LabelColor, Error>)
        ensures
            match r {
                Ok(c) => Self::spec_of_wire(s@) == Some(c),
                Err(e) => Self::spec_of_wire(s@) is None && e is LabelColorParseError,
            },
    {
        proof {
            reveal_strlit("purple");
            reveal_strlit("pink");
            reveal_strlit("red");
            reveal_strlit("orange");
            reveal_strlit("yellow");
            reveal_strlit("blue");
            reveal_strlit("skyblue");
            reveal_strlit("green");
            assert("purple".is_ascii());
            assert("pink".is_ascii());
            assert("red".is_ascii());
            assert("orange".is_ascii());
            assert("yellow".is_ascii());
            assert("blue".is_ascii());
            assert("skyblue".is_ascii());
            assert("green".is_ascii());
        }
        let l = to_lower(s);
        if eq_bytes(&l, &ascii_bytes("purple")) {
            Ok(LabelColor::Purple)
        } else if eq_bytes(&l, &ascii_bytes("pink")) {
            Ok(LabelColor::Pink)
        } else if eq_bytes(&l, &ascii_bytes("red")) {
            Ok(LabelColor::Red)
        } else if eq_bytes(&l, &ascii_bytes("orange")) {
            Ok(LabelColor::Orange)
        } else if eq_bytes(&l, &ascii_bytes("yellow")) {
            Ok(LabelColor::Yellow)
        } else if eq_bytes(&l, &ascii_bytes("blue")) {
            Ok(LabelColor::Blue)
        } else if eq_bytes(&l, &ascii_bytes("skyblue")) {
            Ok(LabelColor::SkyBlue)
        } else if eq_bytes(&l, &ascii_bytes("green")) {
            Ok(LabelColor::Green)
        } else {
            Err(Error::LabelColorParseError(sub_vec(s, 0, s.len())))
        }
    }
}

/// The two scene banks a numbered scene can be recalled from.
#[derive(Clone, Copy, Debug, PartialEq, Eq, Structural)]
pub enum SceneList {
    A,
    B,
}

impl SceneList {
    /// The canonical wire string of the scene list.
    pub open spec fn spec_wire_name(self) -> Seq<u8> {
        match self {
            SceneList::A => bytes_of("scene_a"@),
            SceneList::B => bytes_of("scene_b"@),
        }
    }

    /// Writes the scene list's canonical wire string.
    pub fn wire_name(&self) -> (v: Vec<u8>)
        ensures
            v@ == self.spec_wire_name(),
    {
        match self {
            SceneList::A => {
                proof {
                    reveal_strlit("scene_a");
                    assert("scene_a".is_ascii());
                }
                ascii_bytes("scene_a")
            },
            SceneList::B => {
                proof {
                    reveal_strlit("scene_b");
                    assert("scene_b".is_ascii());
                }
                ascii_bytes("scene_b")
            },
        }
    }

    /// The scene-list names are single words: no line feed.
    pub proof fn wire_name_lf_free(self)
        ensures
            lf_free(self.spec_wire_name()),
    {
        match self {
            SceneList::A => {
                reveal_strlit("scene_a");
                assert(lf_free(bytes_of("scene_a"@)));
            },
            SceneList::B => {
                reveal_strlit("scene_b");
                assert(lf_free(bytes_of("scene_b"@)));
            },
        }
    }

    /// The scene list named by a descriptor, case-insensitively.
    pub open spec fn spec_of_wire(s: Seq<u8>) -> Option<SceneList> {
        let l = lower_bytes(s);
        if l == bytes_of("a"@) {
            Some(SceneList::A)
        } else if l == bytes_of("b"@) {
            Some(SceneList::B)
        } else {
            None
        }
    }

    /// Parses a scene-list descriptor (`a` or `b`, either case). An
    /// unrecognized string is an error carrying the string.
    pub fn from_wire(s: &Vec<u8>) -> (r: Result<SceneList, Error>)
        ensures
            match r {
                Ok(c) => Self::spec_of_wire(s@) == Some(c),
                Err(e) => Self::spec_of_wire(s@) is None && e is SceneListParseError,
            },
    {
        proof {
            reveal_strlit("a");
            reveal_strlit("b");
            assert("a".is_ascii());
            assert("b".is_ascii());
        }
        let l = to_lower(s);
        if eq_bytes(&l, &ascii_bytes("a")) {
            Ok(SceneList::A)
        } else if eq_bytes(&l, &ascii_bytes("b")) {
            Ok(SceneList::B)
        } else {
            Err(Error::SceneListParseError(sub_vec(s, 0, s.len())))
        }
    }
}

} // verus!
