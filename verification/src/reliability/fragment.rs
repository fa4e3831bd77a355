use vstd::prelude::*;

verus! {

/// How a message is delivered: whether it is acknowledged and resent,
/// and whether it is ordered or sequenced on its channel.
#[derive(Debug, Clone, Copy, PartialEq, Eq, Structural)]
pub enum Reliability {
    Unreliable,
    UnreliableSequenced,
    Reliable,
    ReliableOrdered,
    ReliableSequenced,
    UnreliableWithAckReceipt,
    ReliableWithAckReceipt,
    ReliableOrderedWithAckReceipt,
}

impl Reliability {
    /// The three-bit code of the variant on the wire.
    pub open spec fn code(self) -> u8 {
        match self {
            Reliability::Unreliable => 0,
            Reliability::UnreliableSequenced => 1,
            Reliability::Reliable => 2,
            Reliability::ReliableOrdered => 3,
            Reliability::ReliableSequenced => 4,
            Reliability::UnreliableWithAckReceipt => 5,
            Reliability::ReliableWithAckReceipt => 6,
            Reliability::ReliableOrderedWithAckReceipt => 7,
        }
    }

    /// The variant whose code is `value`, if there is one.
    pub open spec fn from_code(value: u8) -> Option<Reliability> {
        if value == 0 {
            Some(Reliability::Unreliable)
        } else if value == 1 {
            Some(Reliability::UnreliableSequenced)
        } else if value == 2 {
            Some(Reliability::Reliable)
        } else if value == 3 {
            Some(Reliability::ReliableOrdered)
        } else if value == 4 {
            Some(Reliability::ReliableSequenced)
        } else if value == 5 {
            Some(Reliability::UnreliableWithAckReceipt)
        } else if value == 6 {
            Some(Reliability::ReliableWithAckReceipt)
        } else if value == 7 {
            Some(Reliability::ReliableOrderedWithAckReceipt)
        } else {
            None
        }
    }

    pub open spec fn spec_is_reliable(self) -> bool {
        match self {
            Reliability::Reliable | Reliability::ReliableOrdered | Reliability::ReliableSequenced
            | Reliability::ReliableWithAckReceipt | Reliability::ReliableOrderedWithAckReceipt => true,
            _ => false,
        }
    }

    pub open spec fn spec_is_sequenced(self) -> bool {
        self == Reliability::UnreliableSequenced || self == Reliability::ReliableSequenced
    }

    pub open spec fn spec_is_ordered(self) -> bool {
        self == Reliability::ReliableOrdered || self == Reliability::ReliableOrderedWithAckReceipt
    }

    pub open spec fn spec_reliablize(self) -> Reliability {
        match self {
            Reliability::Unreliable => Reliability::Reliable,
            Reliability::UnreliableSequenced => Reliability::ReliableSequenced,
            Reliability::UnreliableWithAckReceipt => Reliability::ReliableWithAckReceipt,
            _ => self,
        }
    }

    pub fn from_u8(value: u8) -> (r: Option<Self>)
        ensures
            r == Self::from_code(value),
            r is Some <==> value < 8,
            r matches Some(x) ==> x.code() == value,
    {
        match value {
            0 => Some(Self::Unreliable),
            1 => Some(Self::UnreliableSequenced),
            2 => Some(Self::Reliable),
            3 => Some(Self::ReliableOrdered),
            4 => Some(Self::ReliableSequenced),
            5 => Some(Self::UnreliableWithAckReceipt),
            6 => Some(Self::ReliableWithAckReceipt),
            7 => Some(Self::ReliableOrderedWithAckReceipt),
            _ => None,
        }
    }

    pub fn to_u8(&self) -> (v: u8)
        ensures
            v == self.code(),
            v < 8,
    {
        match self {
            Self::Unreliable => 0,
            Self::UnreliableSequenced => 1,
            Self::Reliable => 2,
            Self::ReliableOrdered => 3,
            Self::ReliableSequenced => 4,
            Self::UnreliableWithAckReceipt => 5,
            Self::ReliableWithAckReceipt => 6,
            Self::ReliableOrderedWithAckReceipt => 7,
        }
    }

    pub fn is_reliable(&self) -> (b: bool)
        ensures
            b == self.spec_is_reliable(),
    {
        match self {
            Self::Reliable | Self::ReliableOrdered | Self::ReliableSequenced
            | Self::ReliableWithAckReceipt | Self::ReliableOrderedWithAckReceipt => true,
            _ => false,
        }
    }

    pub fn is_sequenced(&self) -> (b: bool)
        ensures
            b == self.spec_is_sequenced(),
    {
        match self {
            Self::UnreliableSequenced | Self::ReliableSequenced => true,
            _ => false,
        }
    }

    pub fn is_ordered(&self) -> (b: bool)
        ensures
            b == self.spec_is_ordered(),
    {
        match self {
            Self::ReliableOrdered | Self::ReliableOrderedWithAckReceipt => true,
            _ => false,
        }
    }

    pub fn reliablize(&self) -> (r: Self)
        ensures
            r == self.spec_reliablize(),
    {
        match self {
            Self::Unreliable => Self::Reliable,
            Self::UnreliableSequenced => Self::ReliableSequenced,
            Self::UnreliableWithAckReceipt => Self::ReliableWithAckReceipt,
            _ => *self,
        }
    }
}

/// Decoding a code gives back the variant that was encoded, and encoding a
/// decoded code gives back the code.
pub proof fn lemma_reliability_code_roundtrip(r: Reliability, v: u8)
    ensures
        Reliability::from_code(r.code()) == Some(r),
        Reliability::from_code(v) matches Some(x) ==> x.code() == v,
{
}

/// `reliablize` makes every kind reliable, keeps its sequencing and ordering,
/// leaves reliable kinds as they are, and is idempotent.
pub proof fn lemma_reliablize(r: Reliability)
    ensures
        r.spec_reliablize().spec_is_reliable(),
        r.spec_reliablize().spec_is_sequenced() == r.spec_is_sequenced(),
        r.spec_reliablize().spec_is_ordered() == r.spec_is_ordered(),
        r.spec_is_reliable() ==> r.spec_reliablize() == r,
        r.spec_reliablize().spec_reliablize() == r.spec_reliablize(),
{
}

/// Every ordered kind is reliable, and no kind is both sequenced and ordered.
pub proof fn lemma_reliability_classes(r: Reliability)
    ensures
        r.spec_is_ordered() ==> r.spec_is_reliable(),
        !(r.spec_is_ordered() && r.spec_is_sequenced()),
{
}

/// The scheduling priority of an outgoing message; lower ranks go first.
#[derive(Debug, Clone, Copy, PartialEq, Eq, PartialOrd, Ord, Structural)]
pub enum Priority {
    Immediate,
    High,
    Medium,
    Low,
}

impl Priority {
    pub const COUNT: usize = 4;

    /// The rank of the priority, `0` for the most urgent.
    pub open spec fn rank(self) -> nat {
        match self {
            Priority::Immediate => 0,
            Priority::High => 1,
            Priority::Medium => 2,
            Priority::Low => 3,
        }
    }

    pub fn index(&self) -> (i: usize)
        ensures
            i == self.rank(),
            i < Self::COUNT,
    {
        match self {
            Priority::Immediate => 0,
            Priority::High => 1,
            Priority::Medium => 2,
            Priority::Low => 3,
        }
    }
}

} // verus!
