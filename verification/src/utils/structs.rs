use vstd::prelude::*;
use vstd::string::StringExecFns;

verus! {

/// Everything that can go wrong in this library.
#[derive(Debug, PartialEq, Eq, Structural, Clone, Copy)]
pub enum NetHelperError {
    /// The first octet lies in no address class.
    UnknownClass,
    /// The prefix length exceeds the width of the address family.
    InvalidCidr,
    /// The parent prefix cannot be subdivided (0, or 31 and above).
    InvalidCidrVLSM,
    /// The address text is not a well-formed address.
    InvalidIP,
    /// The demands do not fit into the parent network.
    NoSpace,
}

impl NetHelperError {
    /// The message that describes the error.
    pub open spec fn message(self) -> Seq<char> {
        match self {
            NetHelperError::UnknownClass => "Unknown class"@,
            NetHelperError::InvalidCidr => "Invalid CIDR"@,
            NetHelperError::InvalidCidrVLSM => "Invalid CIDR for VLSM [0-30]"@,
            NetHelperError::InvalidIP => "Invalid IP Address"@,
            NetHelperError::NoSpace => "Not enough space"@,
        }
    }

    /// The message that describes the error, as text.
    pub fn to_string(&self) -> (s: String)
        ensures
            s@ == self.message(),
    {
        match self {
            NetHelperError::UnknownClass => String::from_str("Unknown class"),
            NetHelperError::InvalidCidr => String::from_str("Invalid CIDR"),
            NetHelperError::InvalidCidrVLSM => String::from_str("Invalid CIDR for VLSM [0-30]"),
            NetHelperError::InvalidIP => String::from_str("Invalid IP Address"),
            NetHelperError::NoSpace => String::from_str("Not enough space"),
        }
    }
}

/// The historical classes of IPv4 addresses.
#[derive(Debug, PartialEq, Eq, Structural, Clone, Copy)]
pub enum IPv4Class {
    A,
    B,
    C,
    D,
    E,
}

impl IPv4Class {
    /// The letter of the class.
    pub open spec fn letter(self) -> Seq<char> {
        match self {
            IPv4Class::A => "A"@,
            IPv4Class::B => "B"@,
            IPv4Class::C => "C"@,
            IPv4Class::D => "D"@,
            IPv4Class::E => "E"@,
        }
    }

    /// The letter of the class, as text.
    pub fn to_string(&self) -> (s: String)
        ensures
            s@ == self.letter(),
    {
        match self {
            IPv4Class::A => String::from_str("A"),
            IPv4Class::B => String::from_str("B"),
            IPv4Class::C => String::from_str("C"),
            IPv4Class::D => String::from_str("D"),
            IPv4Class::E => String::from_str("E"),
        }
    }
}

} // verus!
