//! The type of record that a question asks for, and its number on the wire.

use vstd::prelude::*;

verus! {

/// A record type. The named variants are the types this library knows by
/// name; `UNKNOWN` carries the number of any other.
#[derive(PartialEq, Eq, Debug, Clone, Hash, Copy, Structural)]
pub enum QueryType {
    UNKNOWN(u16),
    A,
    NS,
    CNAME,
    MX,
    AAAA,
}

impl QueryType {
    /// The number that stands for this type in a message.
    pub open spec fn number(self) -> u16 {
        match self {
            QueryType::UNKNOWN(x) => x,
            QueryType::A => 1,
            QueryType::NS => 2,
            QueryType::CNAME => 5,
            QueryType::MX => 15,
            QueryType::AAAA => 28,
        }
    }

    /// The type that a number taken from a message is read as. Only the
    /// address type is recognised; every other number is kept as it is.
    pub open spec fn of_number(num: u16) -> QueryType {
        if num == 1 {
            QueryType::A
        } else {
            QueryType::UNKNOWN(num)
        }
    }

    /// The number that stands for this type in a message.
    pub fn to_num(&self) -> (num: u16)
        ensures
            num == self.number(),
    {
        match *self {
            QueryType::UNKNOWN(x) => x,
            QueryType::A => 1,
            QueryType::NS => 2,
            QueryType::CNAME => 5,
            QueryType::MX => 15,
            QueryType::AAAA => 28,
        }
    }

    /// Reads a number taken from a message as a type.
    pub fn from_num(num: u16) -> (q: QueryType)
        ensures
            q == QueryType::of_number(num),
    {
        match num {
            1 => QueryType::A,
            _ => QueryType::UNKNOWN(num),
        }
    }

    /// A number read as a type and turned back into a number is unchanged.
    pub proof fn lemma_number_of_number(num: u16)
        ensures
            QueryType::of_number(num).number() == num,
    {
    }
}

} // verus!
