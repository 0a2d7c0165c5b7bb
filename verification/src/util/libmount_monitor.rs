//! What the mount-monitor library reports, and how its numbers are read.
use vstd::prelude::*;
use vstd::string::*;

verus! {

/// Which side noticed that a mount table changed.
#[derive(Debug, Clone, Copy, Hash, PartialEq, Eq, Structural, PartialOrd, Ord)]
pub enum EventKind {
    Kernel,
    Userspace,
}

impl EventKind {
    /// The number that the library has for the kind.
    pub open spec fn spec_code(self) -> i32 {
        match self {
            EventKind::Userspace => 1,
            EventKind::Kernel => 2,
        }
    }

    /// The number that the library has for the kind.
    pub fn code(self) -> (r: i32)
        ensures
            r == self.spec_code(),
    {
        match self {
            EventKind::Userspace => 1,
            EventKind::Kernel => 2,
        }
    }

    /// The kind that the library means by `code`, if it means one.
    pub fn from_code(code: i32) -> (r: Option<EventKind>)
        ensures
            match r {
                Some(kind) => kind.spec_code() == code,
                None => code != 1 && code != 2,
            },
    {
        if code == 1 {
            Some(EventKind::Userspace)
        } else if code == 2 {
            Some(EventKind::Kernel)
        } else {
            None
        }
    }
}

/// A change of a mount table file.
#[derive(Debug, PartialEq, Eq, Hash, PartialOrd, Ord)]
pub struct Event {
    /// The file that changed.
    pub path: String,
    /// Which side noticed.
    pub kind: EventKind,
}

/// What `Event` holds, as mathematical values.
pub struct EventView {
    pub path: Seq<char>,
    pub kind: EventKind,
}

impl View for Event {
    type V = EventView;

    open spec fn view(&self) -> EventView {
        EventView { path: self.path@, kind: self.kind }
    }
}

impl Clone for Event {
    fn clone(&self) -> (r: Self)
        ensures
            r@ == self@,
    {
        Event { path: self.path.clone(), kind: self.kind }
    }
}

/// What a list of events holds, in order.
pub open spec fn event_views(v: Seq<Event>) -> Seq<EventView> {
    Seq::new(v.len(), |i: int| v[i]@)
}

/// How long to wait for a change.
#[derive(Debug, Clone, Copy, PartialEq, Eq, Structural)]
pub enum Timeout {
    Forever,
    Millis(u32),
}

impl Timeout {
    /// The number of milliseconds that the library is handed: -1 to wait
    /// forever, and else the number, one less where it is the greatest that
    /// 32 bits hold, read as a signed number of 32 bits.
    pub open spec fn spec_millis(self) -> i32 {
        match self {
            Timeout::Forever => -1i32,
            Timeout::Millis(n) => {
                let m: int = if n == u32::MAX {
                    n - 1
                } else {
                    n as int
                };
                if m > i32::MAX {
                    (m - 0x1_0000_0000) as i32
                } else {
                    m as i32
                }
            },
        }
    }

    /// The number of milliseconds that the library is handed.
    pub fn millis(self) -> (r: i32)
        ensures
            r == self.spec_millis(),
    {
        match self {
            Timeout::Forever => -1,
            Timeout::Millis(n) => {
                let m: u32 = if n == u32::MAX {
                    n - 1
                } else {
                    n
                };
                if m > 0x7fff_ffff {
                    let below: i64 = m as i64 - 0x1_0000_0000;
                    below as i32
                } else {
                    m as i32
                }
            },
        }
    }
}

/// What a call into the library came to, by the number that it returned.
#[derive(Debug, Clone, Copy, PartialEq, Eq, Structural)]
pub enum Outcome {
    /// The call succeeded, and returned this number, which is not negative.
    Done(i32),
    /// The call failed with this error number of the system.
    Failed(i32),
}

/// Reads the number that a call into the library returned: a negative number
/// is the negated error number of the system.
pub fn outcome(code: i32) -> (r: Outcome)
    ensures
        r == if code >= 0 {
            Outcome::Done(code)
        } else if code == i32::MIN {
            Outcome::Failed(i32::MAX)
        } else {
            Outcome::Failed((-code) as i32)
        },
{
    if code >= 0 {
        Outcome::Done(code)
    } else if code == i32::MIN {
        Outcome::Failed(i32::MAX)
    } else {
        Outcome::Failed(-code)
    }
}

/// The events of `events` without those that repeat an earlier one.
pub open spec fn first_sightings(events: Seq<EventView>) -> Seq<EventView>
    decreases events.len(),
{
    if events.len() == 0 {
        Seq::empty()
    } else if events.drop_last().contains(events.last()) {
        first_sightings(events.drop_last())
    } else {
        first_sightings(events.drop_last()).push(events.last())
    }
}

/// The changes that one wake of the monitor reports: each changed file once
/// per kind, in the order in which the library listed them first.
pub fn changed_files(events: &Vec<Event>) -> (r: Vec<Event>)
    ensures
        event_views(r@) == first_sightings(event_views(events@)),
{
    let ghost all = event_views(events@);
    let mut out: Vec<Event> = Vec::new();
    let mut i: usize = 0;
    assert(all.take(0) =~= Seq::empty());
    assert(event_views(out@) =~= first_sightings(all.take(0)));
    while i < events.len()
        invariant
            i <= events.len(),
            all == event_views(events@),
            event_views(out@) == first_sightings(all.take(i as int)),
        decreases events.len() - i,
    {
        proof {
            assert(all.take(i + 1).drop_last() =~= all.take(i as int));
            assert(all.take(i + 1).last() == all[i as int]);
        }
        let ghost before = event_views(out@);
        let mut seen = false;
        let mut j: usize = 0;
        while j < i
            invariant
                j <= i < events.len(),
                all == event_views(events@),
                seen <==> exists|m: int| 0 <= m < j && all[m] == all[i as int],
            decreases i - j,
        {
            if events[j].kind == events[i].kind && events[j].path == events[i].path {
                assert(all[j as int] == all[i as int]);
                seen = true;
            }
            j += 1;
        }
        proof {
            let earlier = all.take(i as int);
            if seen {
                let m = choose|m: int| 0 <= m < i && all[m] == all[i as int];
                assert(earlier[m] == all[i as int]);
            }
            if earlier.contains(all[i as int]) {
                let m = choose|m: int| 0 <= m < earlier.len() && earlier[m] == all[i as int];
                assert(all[m] == all[i as int]);
            }
        }
        if !seen {
            out.push(events[i].clone());
            assert(event_views(out@) =~= before.push(all[i as int]));
        }
        i += 1;
    }
    assert(all.take(i as int) =~= all);
    out
}

} // verus!
