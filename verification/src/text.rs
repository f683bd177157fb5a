use vstd::prelude::*;
use crate::strs::{ascii_lower, lowercase, str_eq, str_to_lowercase};

verus! {

/// Text alignment options.
#[derive(Clone, Copy, Debug, PartialEq, Eq, Structural)]
pub enum TextAlign {
    Left,
    Center,
    Right,
}

/// The alignment a name selects once lowercased: "center" and "right" are
/// recognised, anything else means left.
pub open spec fn spec_align_of(lowered: Seq<char>) -> TextAlign {
    if lowered == "center"@ {
        TextAlign::Center
    } else if lowered == "right"@ {
        TextAlign::Right
    } else {
        TextAlign::Left
    }
}

/// The name of an alignment.
pub open spec fn spec_align_name(a: TextAlign) -> Seq<char> {
    match a {
        TextAlign::Left => "left"@,
        TextAlign::Center => "center"@,
        TextAlign::Right => "right"@,
    }
}

impl TextAlign {
    /// Parse an alignment name, case-insensitively; unknown names give `Left`.
    pub fn from_str(s: &str) -> (r: TextAlign)
        ensures
            r == spec_align_of(lowercase(s@)),
            ascii_lower(s@) ==> r == spec_align_of(s@),
    {
        let lowered = str_to_lowercase(s);
        Self::from_lowercase(lowered.as_str())
    }

    /// The alignment a lowercase name selects; unknown names give `Left`.
    pub fn from_lowercase(lowered: &str) -> (r: TextAlign)
        ensures
            r == spec_align_of(lowered@),
    {
        proof {
            reveal_strlit("center");
            reveal_strlit("right");
        }
        if str_eq(lowered, "center") {
            TextAlign::Center
        } else if str_eq(lowered, "right") {
            TextAlign::Right
        } else {
            TextAlign::Left
        }
    }

    /// The lowercase name of this alignment.
    pub fn as_str(&self) -> (r: &'static str)
        ensures
            r@ == spec_align_name(*self),
    {
        proof {
            reveal_strlit("left");
            reveal_strlit("center");
            reveal_strlit("right");
        }
        match self {
            TextAlign::Left => "left",
            TextAlign::Center => "center",
            TextAlign::Right => "right",
        }
    }
}

/// An alignment's name is plain lowercase ASCII and names it back: parsing
/// the name of an alignment gives that alignment.
pub proof fn law_align_name_round_trip(a: TextAlign)
    ensures
        ascii_lower(spec_align_name(a)),
        spec_align_of(spec_align_name(a)) == a,
{
    reveal_strlit("left");
    reveal_strlit("center");
    reveal_strlit("right");
    assert("left"@.len() == 4 && "center"@.len() == 6 && "right"@.len() == 5);
    assert("left"@ != "center"@ && "left"@ != "right"@ && "right"@ != "center"@);
}

} // verus!
