//! The notifications that the kernel multicasts about namespace ids, and the
//! replies that it gives to a request for the id of a namespace.
use crate::netns::NsId;
use crate::search::{first_index, lemma_first_index_is, lemma_first_index_none};
use vstd::prelude::*;

verus! {

/// A namespace id was assigned or taken away.
#[derive(Debug, Clone, Copy, PartialEq, Eq, Structural)]
pub enum NetnsIdEvent {
    Added(NsId),
    Removed(NsId),
}

/// One attribute of a namespace-id message.
#[derive(Debug, Clone, Copy, PartialEq, Eq, Structural)]
pub enum NsidAttribute {
    /// The id of the namespace; -1 means that none is assigned.
    Id(i32),
    /// A process whose namespace is meant.
    Pid(u32),
    /// A file descriptor whose namespace is meant.
    Fd(u32),
    /// The id of the namespace in which the request is to be answered.
    TargetNsid(i32),
    /// The id of the namespace as the answering namespace knows it.
    CurrentNsid(i32),
    /// Any other attribute.
    Other,
}

/// What a message of the routing-netlink protocol is about, as far as
/// namespace ids go.
#[derive(Debug, Clone, Copy, PartialEq, Eq, Structural)]
pub enum NsidMessageKind {
    /// An id was assigned, or is reported in reply to a request.
    New,
    /// An id was taken away.
    Del,
    /// A request for an id.
    Get,
    /// Any other message.
    Other,
}

/// Attributes that are the id of the namespace.
pub open spec fn is_id() -> spec_fn(NsidAttribute) -> bool {
    |attr: NsidAttribute| attr is Id
}

/// Attributes that name an assigned id: the id of the namespace, or its id as
/// the answering namespace knows it, if it is not negative.
pub open spec fn names_assigned_id() -> spec_fn(NsidAttribute) -> bool {
    |attr: NsidAttribute|
        match attr {
            NsidAttribute::Id(id) => id >= 0,
            NsidAttribute::CurrentNsid(id) => id >= 0,
            _ => false,
        }
}

/// The id that a notification is about: that of its first id attribute,
/// unless it is negative, which stands for "not assigned".
pub open spec fn notified_id(attrs: Seq<NsidAttribute>) -> Option<NsId> {
    match first_index(attrs, is_id()) {
        Some(k) => if attrs[k]->Id_0 >= 0 {
            Some(attrs[k]->Id_0)
        } else {
            None
        },
        None => None,
    }
}

/// The event that a message of the multicast group stands for: the
/// assignment or the removal of the id that the message is about. Messages of
/// other kinds, and messages about no assigned id, stand for none.
pub open spec fn notified_event(kind: NsidMessageKind, attrs: Seq<NsidAttribute>) -> Option<
    NetnsIdEvent,
> {
    match (kind, notified_id(attrs)) {
        (NsidMessageKind::New, Some(id)) => Some(NetnsIdEvent::Added(id)),
        (NsidMessageKind::Del, Some(id)) => Some(NetnsIdEvent::Removed(id)),
        _ => None,
    }
}

/// The id that a reply to a request reports: that of the first attribute of a
/// `New` message that names an assigned id.
pub open spec fn replied_id(kind: NsidMessageKind, attrs: Seq<NsidAttribute>) -> Option<NsId> {
    if kind == NsidMessageKind::New {
        match first_index(attrs, names_assigned_id()) {
            Some(k) => match attrs[k] {
                NsidAttribute::Id(id) => Some(id),
                NsidAttribute::CurrentNsid(id) => Some(id),
                _ => None,
            },
            None => None,
        }
    } else {
        None
    }
}

/// The id that a notification is about.
pub fn extract_nsid_from_attrs(attrs: &Vec<NsidAttribute>) -> (r: Option<NsId>)
    ensures
        r == notified_id(attrs@),
        r is Some ==> r->0 >= 0,
{
    let mut i: usize = 0;
    while i < attrs.len()
        invariant
            i <= attrs.len(),
            forall|j: int| 0 <= j < i ==> !#[trigger] is_id()(attrs@[j]),
        decreases attrs.len() - i,
    {
        match attrs[i] {
            NsidAttribute::Id(id) => {
                proof {
                    assert(is_id()(attrs@[i as int]));
                    lemma_first_index_is(attrs@, is_id(), i as int);
                }
                if id >= 0 {
                    return Some(id);
                } else {
                    return None;
                }
            },
            _ => {},
        }
        i += 1;
    }
    proof {
        lemma_first_index_none(attrs@, is_id());
    }
    None
}

/// The event that a message of the multicast group stands for, if any.
pub fn notification_event(kind: NsidMessageKind, attrs: &Vec<NsidAttribute>) -> (r: Option<
    NetnsIdEvent,
>)
    ensures
        r == notified_event(kind, attrs@),
{
    match kind {
        NsidMessageKind::New => match extract_nsid_from_attrs(attrs) {
            Some(id) => Some(NetnsIdEvent::Added(id)),
            None => None,
        },
        NsidMessageKind::Del => match extract_nsid_from_attrs(attrs) {
            Some(id) => Some(NetnsIdEvent::Removed(id)),
            None => None,
        },
        _ => None,
    }
}

/// The id that a message reports in reply to a request for the id of a
/// namespace, if it reports one.
pub fn reply_nsid(kind: NsidMessageKind, attrs: &Vec<NsidAttribute>) -> (r: Option<NsId>)
    ensures
        r == replied_id(kind, attrs@),
        r is Some ==> r->0 >= 0,
{
    match kind {
        NsidMessageKind::New => {},
        _ => {
            return None;
        },
    }
    let mut i: usize = 0;
    while i < attrs.len()
        invariant
            i <= attrs.len(),
            kind == NsidMessageKind::New,
            forall|j: int| 0 <= j < i ==> !#[trigger] names_assigned_id()(attrs@[j]),
        decreases attrs.len() - i,
    {
        let found = match attrs[i] {
            NsidAttribute::Id(id) => if id >= 0 {
                Some(id)
            } else {
                None
            },
            NsidAttribute::CurrentNsid(id) => if id >= 0 {
                Some(id)
            } else {
                None
            },
            _ => None,
        };
        match found {
            Some(id) => {
                proof {
                    assert(names_assigned_id()(attrs@[i as int]));
                    lemma_first_index_is(attrs@, names_assigned_id(), i as int);
                }
                return Some(id);
            },
            None => {},
        }
        i += 1;
    }
    proof {
        lemma_first_index_none(attrs@, names_assigned_id());
    }
    None
}

} // verus!
