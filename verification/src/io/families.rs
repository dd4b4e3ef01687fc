//! Ethernet family dispatch precedes each protocol's checked packet parser.
use crate::bytes::{be16, copy_range};
use crate::dns::name::labels_view;
use std::collections::VecDeque;
use vstd::prelude::*;

verus! {

/// The Ethernet payload families that the router handles.
#[derive(Clone, Copy, Debug, PartialEq, Eq, Structural)]
pub enum Family {
    Ipv6,
    Ipv4,
    Arp,
}

/// The family named by the EtherType of a frame with a complete header.
pub open spec fn spec_ethernet_family(frame: Seq<u8>) -> Option<Family> {
    if frame.len() < 14 {
        None
    } else {
        let t = be16(frame[12], frame[13]);
        if t == 0x86dd {
            Some(Family::Ipv6)
        } else if t == 0x0800 {
            Some(Family::Ipv4)
        } else if t == 0x0806 {
            Some(Family::Arp)
        } else {
            None
        }
    }
}

pub fn ethernet_family(frame: &[u8]) -> (r: Option<Family>)
    ensures
        r == spec_ethernet_family(frame@),
{
    if frame.len() < 14 {
        return None;
    }
    let t: u16 = (frame[12] as u16) * 256 + frame[13] as u16;
    if t == 0x86dd {
        Some(Family::Ipv6)
    } else if t == 0x0800 {
        Some(Family::Ipv4)
    } else if t == 0x0806 {
        Some(Family::Arp)
    } else {
        None
    }
}

pub const MAX_FRAMES: usize = 64;
pub const MAX_BYTES: usize = 65535;

/// Octets held by a queue of frames.
pub open spec fn total(s: Seq<Seq<u8>>) -> nat
    decreases s.len(),
{
    if s.len() == 0 {
        0
    } else {
        total(s.drop_last()) + s.last().len()
    }
}

proof fn lemma_total_front(s: Seq<Seq<u8>>)
    requires
        s.len() > 0,
    ensures
        total(s) == s[0].len() + total(s.drop_first()),
    decreases s.len(),
{
    if s.len() > 1 {
        lemma_total_front(s.drop_last());
        assert(s.drop_last().drop_first() =~= s.drop_first().drop_last());
        assert(s.drop_first().last() == s.last());
        assert(s.drop_last()[0] == s[0]);
        assert(total(s.drop_first()) == total(s.drop_first().drop_last()) + s.drop_first().last().len());
    } else {
        assert(s.drop_last() =~= Seq::<Seq<u8>>::empty());
        assert(s.drop_first() =~= Seq::<Seq<u8>>::empty());
        assert(total(Seq::<Seq<u8>>::empty()) == 0);
    }
}

/// Bounded ingress handoff to the IPv4/ARP reducer: at most 64 frames and 65535 octets.
pub struct AilFrames {
    frames: VecDeque<Vec<u8>>,
    bytes: usize,
}

impl View for AilFrames {
    type V = Seq<Seq<u8>>;

    closed spec fn view(&self) -> Seq<Seq<u8>> {
        labels_view(self.frames@)
    }
}

impl AilFrames {
    /// The octet count matches the queue, and both limits hold.
    pub closed spec fn wf(&self) -> bool {
        &&& self.bytes == total(self@)
        &&& self@.len() <= MAX_FRAMES
        &&& total(self@) <= MAX_BYTES
    }

    /// An empty queue.
    pub fn new() -> (r: AilFrames)
        ensures
            r.wf(),
            r@ == Seq::<Seq<u8>>::empty(),
    {
        let r = AilFrames { frames: VecDeque::new(), bytes: 0 };
        assert(r@ =~= Seq::<Seq<u8>>::empty());
        r
    }

    /// Queues a copy of the frame unless that would pass either limit; reports whether it did.
    pub fn push(&mut self, frame: &[u8]) -> (r: bool)
        requires
            old(self).wf(),
        ensures
            final(self).wf(),
            r <==> (old(self)@.len() < MAX_FRAMES && frame@.len() <= MAX_BYTES && total(old(self)@)
                + frame@.len() <= MAX_BYTES),
            r ==> final(self)@ == old(self)@.push(frame@),
            !r ==> final(self)@ == old(self)@,
    {
        if self.frames.len() >= MAX_FRAMES || frame.len() > MAX_BYTES || self.bytes + frame.len() > MAX_BYTES {
            return false;
        }
        let ghost before = self@;
        self.bytes = self.bytes + frame.len();
        let copy = copy_range(frame, 0, frame.len());
        assert(copy@ =~= frame@);
        self.frames.push_back(copy);
        proof {
            assert(self@ =~= before.push(frame@));
            assert(self@.drop_last() =~= before);
        }
        true
    }

    /// Takes the oldest frame, if any.
    pub fn pop(&mut self) -> (r: Option<Vec<u8>>)
        requires
            old(self).wf(),
        ensures
            final(self).wf(),
            old(self)@.len() == 0 ==> r is None && final(self)@ == old(self)@,
            old(self)@.len() > 0 ==> (r matches Some(v) && v@ == old(self)@[0] && final(self)@
                == old(self)@.drop_first()),
    {
        let ghost before = self@;
        match self.frames.pop_front() {
            None => None,
            Some(f) => {
                proof {
                    lemma_total_front(before);
                    assert(self@ =~= before.drop_first());
                }
                self.bytes = self.bytes - f.len();
                Some(f)
            },
        }
    }

    /// Number of queued frames.
    pub fn len(&self) -> (r: usize)
        ensures
            r == self@.len(),
    {
        self.frames.len()
    }

    /// Whether no frame is queued.
    pub fn is_empty(&self) -> (r: bool)
        ensures
            r <==> self@.len() == 0,
    {
        self.frames.len() == 0
    }
}

impl Default for AilFrames {
    fn default() -> (r: AilFrames)
        ensures
            r.wf(),
            r@ == Seq::<Seq<u8>>::empty(),
    {
        AilFrames::new()
    }
}

/// The queue after pushing each frame in turn.
pub open spec fn push_all(q: Seq<Seq<u8>>, fs: Seq<Seq<u8>>) -> Seq<Seq<u8>>
    decreases fs.len(),
{
    if fs.len() == 0 {
        q
    } else {
        push_all(q, fs.drop_last()).push(fs.last())
    }
}

/// First in, first out: frames pushed onto an empty queue are held in order, the `j`-th pop
/// gives the `j`-th frame and leaves the rest, and after all of them the queue is empty.
pub proof fn lemma_fifo(fs: Seq<Seq<u8>>)
    ensures
        push_all(Seq::empty(), fs) == fs,
        forall|j: int| 0 <= j < fs.len() ==> (#[trigger] fs.skip(j))[0] == fs[j] && fs.skip(j).drop_first() == fs.skip(j + 1),
        fs.skip(fs.len() as int).len() == 0,
    decreases fs.len(),
{
    if fs.len() > 0 {
        lemma_fifo(fs.drop_last());
        assert(fs.drop_last().push(fs.last()) =~= fs);
    } else {
        assert(fs =~= Seq::<Seq<u8>>::empty());
    }
    assert forall|j: int| 0 <= j < fs.len() implies (#[trigger] fs.skip(j))[0] == fs[j] && fs.skip(j).drop_first() == fs.skip(j + 1) by {
        assert(fs.skip(j).drop_first() =~= fs.skip(j + 1));
    }
}

} // verus!
