//! Identifier algebra: UIDs, change ids and the modification sequence numbers
//! that pack the two together.

use vstd::prelude::*;

verus! {

/// The number of distinct values of the low (CID) half of a `Modseq`.
pub const CID_SPAN: u64 = 0x1_0000_0000;

/// The largest UID value; reported as the next UID when no more can be
/// assigned.
pub const MAX_UID: u32 = 0xFFFF_FFFF;

/// A message identifier, unique and monotonic within one mailbox.
///
/// A valid UID is strictly positive.
#[derive(Clone, Copy, Debug, PartialEq, Eq, Structural, Hash, PartialOrd, Ord)]
pub struct Uid(pub u32);

/// A change identifier, naming one transaction of a mailbox.
///
/// `Cid(0)` stands for "before any change".
#[derive(Clone, Copy, Debug, PartialEq, Eq, Structural, Hash, PartialOrd, Ord)]
pub struct Cid(pub u32);

/// A modification sequence number: the pair (UID, CID), ordered
/// lexicographically, packed as `uid * 2^32 + cid`.
///
/// Both halves are strictly positive.
#[derive(Clone, Copy, Debug, PartialEq, Eq, Structural, Hash, PartialOrd, Ord)]
pub struct Modseq(u64);

impl Uid {
    pub open spec fn valid(self) -> bool {
        self.0 > 0
    }

    /// The UID with the given value, if it is a valid one.
    pub fn of(raw: u32) -> (r: Option<Uid>)
        ensures
            r == (if raw > 0 { Some(Uid(raw)) } else { None::<Uid> }),
    {
        if raw > 0 {
            Some(Uid(raw))
        } else {
            None
        }
    }
}

/// The modseq value packed from its two halves.
pub open spec fn pack(uid: u32, cid: u32) -> u64 {
    (uid as u64 * CID_SPAN + cid as u64) as u64
}

/// Whether `raw` is the packed form of a valid modseq.
pub open spec fn valid_modseq_raw(raw: u64) -> bool {
    raw / CID_SPAN > 0 && raw % CID_SPAN > 0
}

impl Modseq {
    pub closed spec fn raw(self) -> u64 {
        self.0
    }

    pub open spec fn uid_part(self) -> u32 {
        (self.raw() / CID_SPAN) as u32
    }

    pub open spec fn cid_part(self) -> u32 {
        (self.raw() % CID_SPAN) as u32
    }

    pub closed spec fn valid(self) -> bool {
        valid_modseq_raw(self.0)
    }

    /// Every modseq value that can be built is a valid one, and its packed
    /// form is made of its two halves.
    pub proof fn lemma_parts(self)
        requires
            self.valid(),
        ensures
            self.uid_part() > 0,
            self.cid_part() > 0,
            self.raw() == pack(self.uid_part(), self.cid_part()),
    {
        assert(self.0 / CID_SPAN < CID_SPAN) by (nonlinear_arith)
            requires self.0 <= u64::MAX, CID_SPAN == 0x1_0000_0000u64;
    }

    /// The modseq made of `uid` and `cid`.
    pub fn new(uid: Uid, cid: Cid) -> (r: Modseq)
        requires
            uid.valid(),
            cid.0 > 0,
        ensures
            r.valid(),
            r.raw() == pack(uid.0, cid.0),
            r.uid_part() == uid.0,
            r.cid_part() == cid.0,
    {
        let raw: u64 = uid.0 as u64 * CID_SPAN + cid.0 as u64;
        assert(raw / CID_SPAN == uid.0 && raw % CID_SPAN == cid.0) by (nonlinear_arith)
            requires raw == uid.0 as u64 * CID_SPAN + cid.0 as u64,
                     CID_SPAN == 0x1_0000_0000u64, cid.0 < CID_SPAN;
        Modseq(raw)
    }

    /// The modseq whose packed form is `raw`; `None` where `raw` is zero or
    /// either half of it is zero.
    pub fn of(raw: u64) -> (r: Option<Modseq>)
        ensures
            r.is_some() == valid_modseq_raw(raw),
            r.is_some() ==> r.unwrap().raw() == raw && r.unwrap().valid(),
    {
        if raw / CID_SPAN > 0 && raw % CID_SPAN > 0 {
            Some(Modseq(raw))
        } else {
            None
        }
    }

    /// The packed form, as it appears on the wire and in file names.
    pub fn raw_value(self) -> (r: u64)
        ensures
            r == self.raw(),
    {
        self.0
    }

    /// The UID half.
    pub fn uid(self) -> (r: Uid)
        requires
            self.valid(),
        ensures
            r.0 == self.uid_part(),
            r.valid(),
    {
        proof { self.lemma_parts(); }
        Uid((self.0 / CID_SPAN) as u32)
    }

    /// The CID half.
    pub fn cid(self) -> (r: Cid)
        requires
            self.valid(),
        ensures
            r.0 == self.cid_part(),
            r.0 > 0,
    {
        proof { self.lemma_parts(); }
        Cid((self.0 % CID_SPAN) as u32)
    }

    /// Whether `self` comes strictly before `other`.
    pub fn precedes(self, other: Modseq) -> (r: bool)
        ensures
            r == (self.raw() < other.raw()),
    {
        self.0 < other.0
    }
}

} // verus!
