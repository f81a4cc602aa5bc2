//! How daemons protect what they send each other.
use vstd::prelude::*;

verus! {

/// The security profile that a daemon runs with.
#[derive(Clone, Copy, Debug, PartialEq, Eq, Structural)]
pub enum SecurityMode {
    /// Keys agreed by an ordinary key exchange.
    Classic,
    /// Keys delivered by quantum key distribution.
    Qkd,
}

impl SecurityMode {
    /// The byte that stands for the profile on the wire.
    pub open spec fn spec_wire_value(self) -> u8 {
        match self {
            SecurityMode::Classic => 0,
            SecurityMode::Qkd => 1,
        }
    }

    /// The profile that a byte stands for.
    pub open spec fn spec_from_wire(value: u8) -> Option<SecurityMode> {
        if value == 0 {
            Some(SecurityMode::Classic)
        } else if value == 1 {
            Some(SecurityMode::Qkd)
        } else {
            None
        }
    }

    /// The byte that stands for the profile on the wire.
    pub fn wire_value(self) -> (r: u8)
        ensures
            r == self.spec_wire_value(),
    {
        match self {
            SecurityMode::Classic => 0,
            SecurityMode::Qkd => 1,
        }
    }

    /// The profile that a byte stands for.
    pub fn from_wire(value: u8) -> (r: Option<SecurityMode>)
        ensures
            r == Self::spec_from_wire(value),
    {
        match value {
            0 => Some(SecurityMode::Classic),
            1 => Some(SecurityMode::Qkd),
            _ => None,
        }
    }

    /// The name of the profile, for people.
    pub fn name(self) -> (r: &'static str)
        ensures
            r@ == (match self {
                SecurityMode::Classic => "classic"@,
                SecurityMode::Qkd => "qkd"@,
            }),
    {
        match self {
            SecurityMode::Classic => "classic",
            SecurityMode::Qkd => "qkd",
        }
    }
}

/// Reading a profile from the wire gives back the one that was written.
pub proof fn law_security_mode_round_trip(mode: SecurityMode)
    ensures
        SecurityMode::spec_from_wire(mode.spec_wire_value()) == Some(mode),
{
}

/// The first two bytes stand for the two profiles, the classic one first, and no other
/// byte stands for one.
pub proof fn law_only_two_bytes_stand_for_a_profile(value: u8, mode: SecurityMode)
    ensures
        SecurityMode::spec_from_wire(value) is Some <==> value <= 1,
        mode is Classic <==> mode.spec_wire_value() == 0,
        mode is Qkd <==> mode.spec_wire_value() == 1,
        SecurityMode::spec_from_wire(value) == Some(mode) ==> mode.spec_wire_value() == value,
{
}

} // verus!
