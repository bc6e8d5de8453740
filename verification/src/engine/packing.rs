//! Packing segments into datagrams.
use crate::buffers;
use crate::engine;
use crate::protocol;
use crate::protocol::{KcpSegment, SegmentModel};
use bytes::{Bytes, BytesMut};
use vstd::prelude::*;

verus! {

/// Segments on their way into datagrams.
#[verifier::ext_equal]
pub struct Packing {
    /// The datagrams that are full
    pub full: Seq<Seq<u8>>,
    /// The datagram that is being filled
    pub current: Seq<u8>,
}

impl Packing {
    /// Nothing has been packed.
    pub open spec fn empty() -> Self {
        Packing { full: Seq::empty(), current: Seq::empty() }
    }

    /// One more segment has been packed: into the current datagram if it fits there, into a
    /// new one otherwise.
    pub open spec fn with(self, wire: Seq<u8>, mtu: int) -> Self {
        if self.current.len() > 0 && self.current.len() + wire.len() > mtu {
            Packing { full: self.full.push(self.current), current: wire }
        } else {
            Packing { full: self.full, current: self.current + wire }
        }
    }

    /// The datagrams, the last of which need not be full.
    pub open spec fn datagrams(self) -> Seq<Seq<u8>> {
        if self.current.len() > 0 {
            self.full.push(self.current)
        } else {
            self.full
        }
    }
}

/// Packs segments one after the other.
pub open spec fn packed(segs: Seq<SegmentModel>, mtu: int) -> Packing
    decreases segs.len(),
{
    if segs.len() == 0 {
        Packing::empty()
    } else {
        packed(segs.drop_last(), mtu).with(segs.last().wire(), mtu)
    }
}

/// The datagrams that segments are sent in.
pub open spec fn datagrams(segs: Seq<SegmentModel>, mtu: int) -> Seq<Seq<u8>> {
    packed(segs, mtu).datagrams()
}

/// Fills datagrams with segments.
pub struct Packer {
    mtu: usize,
    full: Vec<Bytes>,
    current: BytesMut,
}

impl View for Packer {
    type V = Packing;

    closed spec fn view(&self) -> Packing {
        Packing { full: engine::contents(self.full@), current: buffers::buf_of(self.current) }
    }
}

impl Packer {
    /// How large a datagram may be.
    pub closed spec fn limit(&self) -> int {
        self.mtu as int
    }

    /// The current datagram is within the limit, and the limit within memory.
    pub open spec fn wf(&self) -> bool {
        self@.current.len() <= self.limit() <= usize::MAX / 8
    }

    /// Nothing packed yet.
    pub fn new(mtu: u32) -> (r: Self)
        requires
            mtu <= usize::MAX / 8,
        ensures
            r@ == Packing::empty(),
            r.limit() == mtu,
            r.wf(),
    {
        let r = Packer {
            mtu: mtu as usize,
            full: Vec::new(),
            current: BytesMut::with_capacity(mtu as usize),
        };
        assert(r@ =~= Packing::empty());
        r
    }

    /// Packs a segment.
    pub fn put(&mut self, segment: &KcpSegment)
        requires
            old(self).wf(),
            24 + segment@.data.len() <= old(self).limit(),
        ensures
            final(self)@ == old(self)@.with(segment@.wire(), old(self).limit()),
            final(self).limit() == old(self).limit(),
            final(self).wf(),
    {
        let ghost start = self@;
        proof {
            protocol::lemma_header_wire_len(segment.header);
        }
        let held: usize = self.current.len();
        if held > 0 && held + segment.size() > self.mtu {
            let mut next = BytesMut::with_capacity(self.mtu);
            segment.encode(&mut next);
            assert(buffers::buf_of(next) =~= segment@.wire());
            core::mem::swap(&mut self.current, &mut next);
            self.full.push(next.freeze());
            assert(engine::contents(self.full@) =~= start.full.push(start.current));
        } else {
            segment.encode(&mut self.current);
        }
    }

    /// The datagrams.
    pub fn finish(self) -> (r: Vec<Bytes>)
        ensures
            engine::contents(r@) == self@.datagrams(),
    {
        let mut full = self.full;
        if self.current.len() > 0 {
            full.push(self.current.freeze());
        }
        assert(engine::contents(full@) =~= self@.datagrams());
        full
    }
}

} // verus!
