use vstd::prelude::*;
use crate::router::{route_line, route_message, route_targets, trimmed, Dispatch};
use crate::registry::Registry;
use crate::text::{decimal, decimal_string};

verus! {

/// The identities handed out so far, in order: `1, 2, ..., count`.
pub open spec fn issued_seq(count: nat) -> Seq<usize> {
    Seq::new(count, |i: int| (i + 1) as usize)
}

/// Hands out client identities: positive, increasing from 1, never reused.
pub struct IdAllocator {
    issued: usize,
}

impl IdAllocator {
    /// How many identities have been handed out.
    pub closed spec fn count(&self) -> nat {
        self.issued as nat
    }

    /// The identities handed out so far, in the order they were handed out.
    pub open spec fn issued(&self) -> Seq<usize> {
        issued_seq(self.count())
    }

    /// An allocator that has handed out nothing yet.
    pub fn new() -> (r: Self)
        ensures
            r.count() == 0,
            r.issued() == Seq::<usize>::empty(),
    {
        let r = IdAllocator { issued: 0 };
        assert(r.issued() =~= Seq::<usize>::empty());
        r
    }

    /// How many identities have been handed out.
    pub fn issued_count(&self) -> (r: usize)
        ensures
            r as nat == self.count(),
    {
        self.issued
    }

    /// Hands out the next identity. Every identity is consumed whether or
    /// not its connection is registered afterwards.
    pub fn next_id(&mut self) -> (r: usize)
        requires
            old(self).count() < usize::MAX,
        ensures
            r as nat == old(self).count() + 1,
            final(self).count() == old(self).count() + 1,
            final(self).issued() == old(self).issued().push(r),
    {
        self.issued = self.issued + 1;
        let r = self.issued;
        assert(self.issued() =~= old(self).issued().push(r));
        r
    }
}

/// However many connections have been accepted, the identities handed out
/// are exactly `1..=count`, each once.
pub proof fn lemma_identities_unique(a: IdAllocator)
    requires
        a.count() <= usize::MAX,
    ensures
        a.issued().len() == a.count(),
        a.issued().no_duplicates(),
        forall|id: usize| #![auto] a.issued().contains(id) <==> 1 <= id <= a.count(),
{
    let s = a.issued();
    assert forall|id: usize| #![auto] s.contains(id) <==> 1 <= id <= a.count() by {
        if 1 <= id <= a.count() {
            assert(s[id - 1] == id);
        }
    }
}

/// The handshake line `Your ID: {id}` and a newline.
pub open spec fn handshake_text(id: nat) -> Seq<char> {
    seq!['Y', 'o', 'u', 'r', ' ', 'I', 'D', ':', ' '] + decimal(id) + seq!['\n']
}

/// Formats the handshake line sent to a newly accepted connection.
pub fn handshake_line(id: usize) -> (r: String)
    ensures
        r@ == handshake_text(id as nat),
{
    proof {
        reveal_strlit("Your ID: ");
        reveal_strlit("\n");
    }
    let mut s = String::from_str("Your ID: ");
    let digits = decimal_string(id);
    s.append(digits.as_str());
    s.append("\n");
    s
}

/// What one read on a connection produced.
pub enum ReadEvent {
    /// One line, terminator included.
    Line(String),
    /// The peer closed the connection: the read returned nothing.
    Closed,
    /// The read failed.
    Failed,
}

/// What the connection's processing unit does next.
pub enum Step {
    /// Write `message` to each of `targets`, then evict those that failed.
    Deliver(Dispatch),
    /// Remove this identity from the registry and stop reading.
    Leave(usize),
    /// Nothing: the connection has already terminated.
    Done,
}

/// One accepted connection's processing unit: active while it reads lines,
/// terminated once the peer has closed or the read has failed.
pub struct Session {
    id: usize,
    active: bool,
}

impl Session {
    pub closed spec fn spec_id(&self) -> usize {
        self.id
    }

    pub closed spec fn spec_active(&self) -> bool {
        self.active
    }

    /// The unit of a connection registered under `id`, reading.
    pub fn new(id: usize) -> (r: Self)
        ensures
            r.spec_id() == id,
            r.spec_active(),
    {
        Session { id, active: true }
    }

    pub fn id(&self) -> (r: usize)
        ensures
            r == self.spec_id(),
    {
        self.id
    }

    pub fn is_active(&self) -> (r: bool)
        ensures
            r == self.spec_active(),
    {
        self.active
    }

    /// Decides what follows one read. A line is routed on behalf of this
    /// connection; end of stream or a failed read terminates the unit, which
    /// then asks for its own removal once.
    pub fn on_read<H>(&mut self, reg: &Registry<H>, event: &ReadEvent) -> (r: Step)
        requires
            reg.wf(),
        ensures
            final(self).spec_id() == old(self).spec_id(),
            !old(self).spec_active() ==> r is Done && !final(self).spec_active(),
            old(self).spec_active() ==> match event {
                ReadEvent::Line(l) => final(self).spec_active() && match r {
                    Step::Deliver(d) => d.targets@ == route_targets(*reg, trimmed(l@))
                        && d.message@ == route_message(
                        old(self).spec_id() as nat,
                        trimmed(l@),
                    ),
                    _ => false,
                },
                _ => !final(self).spec_active() && r == Step::Leave(old(self).spec_id()),
            },
    {
        if !self.active {
            return Step::Done;
        }
        match event {
            ReadEvent::Line(l) => Step::Deliver(route_line(reg, self.id, l.as_str())),
            _ => {
                self.active = false;
                Step::Leave(self.id)
            },
        }
    }
}

} // verus!
