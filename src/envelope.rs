//! The `ENVELOPE` structure of RFC 3501, and how parsed addresses map into
//! it.

use vstd::prelude::*;

verus! {

/// The `ENVELOPE` structure defined by RFC 3501, in the order the fields
/// are sent.
#[derive(Debug, Clone, Default)]
pub struct Envelope {
    /// The `Date` header.
    pub date: Option<String>,
    /// The `Subject` header, decoded.
    pub subject: Option<String>,
    /// The `From` header, decoded.
    pub from: Vec<EnvelopeAddress>,
    /// The `Sender` header, decoded.
    pub sender: Vec<EnvelopeAddress>,
    /// The `Reply-To` header, decoded.
    pub reply_to: Vec<EnvelopeAddress>,
    /// The `To` header, decoded.
    pub to: Vec<EnvelopeAddress>,
    /// The `CC` header, decoded.
    pub cc: Vec<EnvelopeAddress>,
    /// The `BCC` header, decoded.
    pub bcc: Vec<EnvelopeAddress>,
    /// The `In-Reply-To` header, trimmed.
    pub in_reply_to: Option<String>,
    /// The `Message-ID` header, trimmed.
    pub message_id: Option<String>,
}

/// An email address, or a group delimiter, in an RFC 3501 `ENVELOPE`.
///
/// A group starts with an entry that has a local part (the group's name)
/// but no domain, and ends with one that has neither.
#[derive(Debug, Clone, Default, PartialEq, Eq)]
pub struct EnvelopeAddress {
    /// The display name if present, decoded.
    pub name: Option<String>,
    /// The obsolete source route, if any.
    pub routing: Option<String>,
    /// The local part, decoded.
    pub local: Option<String>,
    /// The domain, decoded.
    pub domain: Option<String>,
}

/// A mailbox address of a header, its parts already decoded.
#[derive(Debug, Clone)]
pub struct DecodedMailbox {
    /// The display name; empty where there is none.
    pub name: String,
    /// The source route; empty where there is none.
    pub routing: String,
    pub local: String,
    pub domain: String,
}

/// `Some(s)` unless `s` is empty.
pub open spec fn nonempty(s: String) -> Option<String> {
    if s@.len() == 0 {
        None
    } else {
        Some(s)
    }
}

/// The envelope entry of mailbox `m`.
pub open spec fn envelope_address_of(m: DecodedMailbox) -> EnvelopeAddress {
    EnvelopeAddress {
        name: nonempty(m.name),
        routing: nonempty(m.routing),
        local: Some(m.local),
        domain: Some(m.domain),
    }
}

/// The envelope entry of mailbox `mbox`: the name and route only where
/// they are not empty.
pub fn to_envelope_address(mbox: DecodedMailbox) -> (r: EnvelopeAddress)
    ensures
        r == envelope_address_of(mbox),
{
    let ghost m = mbox;
    let DecodedMailbox { name, routing, local, domain } = mbox;
    let name = if name.as_str().is_empty() {
        None
    } else {
        Some(name)
    };
    let routing = if routing.as_str().is_empty() {
        None
    } else {
        Some(routing)
    };
    EnvelopeAddress { name, routing, local: Some(local), domain: Some(domain) }
}

/// The entries of a group: its start (the group's name in the local part),
/// each member, and its end.
pub open spec fn group_entries(name: String, members: Seq<DecodedMailbox>) -> Seq<EnvelopeAddress> {
    seq![EnvelopeAddress { name: None, routing: None, local: Some(name), domain: None }]
        + members.map_values(|m: DecodedMailbox| envelope_address_of(m))
        + seq![EnvelopeAddress { name: None, routing: None, local: None, domain: None }]
}

impl DecodedMailbox {
    /// A copy of this mailbox.
    pub fn duplicate(&self) -> (r: DecodedMailbox)
        ensures
            r == *self,
    {
        DecodedMailbox {
            name: self.name.clone(),
            routing: self.routing.clone(),
            local: self.local.clone(),
            domain: self.domain.clone(),
        }
    }
}

/// Appends the entries of a group named `name` with `members` to `field`.
pub fn push_group(field: &mut Vec<EnvelopeAddress>, name: String, members: &Vec<DecodedMailbox>)
    ensures
        final(field)@ == old(field)@ + group_entries(name, members@),
{
    let ghost m = members@;
    let ghost n = name;
    field.push(EnvelopeAddress { name: None, routing: None, local: Some(name), domain: None });
    let ghost start = field@;
    let mut i: usize = 0;
    while i < members.len()
        invariant
            0 <= i <= m.len(),
            m == members@,
            field@ == start + m.subrange(0, i as int).map_values(|x: DecodedMailbox| envelope_address_of(x)),
        decreases m.len() - i,
    {
        field.push(to_envelope_address(members[i].duplicate()));
        proof {
            assert(m.subrange(0, i + 1).map_values(|x: DecodedMailbox| envelope_address_of(x))
                =~= m.subrange(0, i as int).map_values(|x: DecodedMailbox| envelope_address_of(x)).push(envelope_address_of(m[i as int])));
        }
        i = i + 1;
    }
    field.push(EnvelopeAddress { name: None, routing: None, local: None, domain: None });
    proof {
        assert(m.subrange(0, m.len() as int) == m);
        assert(field@ =~= old(field)@ + group_entries(n, m));
    }
}

} // verus!
