//! Frames of a video.
use vstd::prelude::*;

pub mod assembly;
pub mod bframe;
pub mod coding;
pub mod compression;
pub mod gop;
pub mod grid;
pub mod iframe;
pub mod laying;
pub mod macroblock;
pub mod motion_vector;
pub mod pframe;
pub mod prediction;
pub mod residual;
pub mod same;
pub mod tables;

verus! {

/// The code of a frame that stands alone.
pub const FRAME_CODE_I: u8 = 1;

/// The code of a frame that is predicted from the one before.
pub const FRAME_CODE_P: u8 = 2;

/// The code of a frame that is predicted from both sides.
pub const FRAME_CODE_B: u8 = 3;

/// What a frame is predicted from.
#[derive(Debug, Clone, Copy, PartialEq, Eq, Structural)]
pub enum Kind {
    /// The frames on both sides.
    B,
    /// Nothing.
    I,
    /// The frame before.
    P,
}

impl Kind {
    /// The byte that stands for the kind.
    pub open spec fn code(self) -> u8 {
        match self {
            Kind::B => FRAME_CODE_B,
            Kind::I => FRAME_CODE_I,
            Kind::P => FRAME_CODE_P,
        }
    }

    /// The kind of a byte.
    pub fn from_code(value: u8) -> (r: Option<Self>)
        ensures
            r is Some <==> 1 <= value <= 3,
            r is Some ==> r->0.code() == value,
    {
        if value == FRAME_CODE_I {
            Some(Kind::I)
        } else if value == FRAME_CODE_P {
            Some(Kind::P)
        } else if value == FRAME_CODE_B {
            Some(Kind::B)
        } else {
            None
        }
    }
}

impl From<Kind> for u8 {
    fn from(value: Kind) -> (r: Self) {
        match value {
            Kind::B => FRAME_CODE_B,
            Kind::I => FRAME_CODE_I,
            Kind::P => FRAME_CODE_P,
        }
    }
}

impl vstd::std_specs::convert::FromSpecImpl<Kind> for u8 {
    open spec fn obeys_from_spec() -> bool {
        true
    }

    open spec fn from_spec(value: Kind) -> Self {
        value.code()
    }
}

/// The byte of a kind stands for no other kind.
pub proof fn law_kind_comes_back(a: Kind, b: Kind)
    requires
        a.code() == b.code(),
    ensures
        a == b,
{
}

} // verus!
