//! How segments share datagrams, and what the bytes of a segment say.
use crate::endian;
use crate::engine::input;
use crate::engine::packing;
use crate::engine::wire_laws;
use crate::protocol;
use crate::protocol::SegmentModel;
use vstd::prelude::*;

verus! {

/// What four bytes say, least significant byte first.
pub open spec fn four(a: u8, b: u8, c: u8, d: u8) -> int {
    a + 0x100 * b + 0x1_0000 * c + 0x100_0000 * d
}

/// The four bytes of a number.
proof fn lemma_four_bytes(v: u32)
    ensures
        endian::le_bytes(v as nat, 4).len() == 4,
        ({
            let s = endian::le_bytes(v as nat, 4);
            v == four(s[0], s[1], s[2], s[3])
        }),
{
    endian::lemma_le_bytes_len(v as nat, 4);
    reveal_with_fuel(endian::le_bytes, 5);
    let v = v as nat;
    let s = endian::le_bytes(v, 4);
    assert(s[0] == v % 256);
    assert(s[1] == (v / 256) % 256);
    assert(s[2] == (v / 256 / 256) % 256);
    assert(s[3] == (v / 256 / 256 / 256) % 256);
}

/// The two bytes of a number.
proof fn lemma_two_bytes(v: u16)
    ensures
        endian::le_bytes(v as nat, 2).len() == 2,
        ({
            let s = endian::le_bytes(v as nat, 2);
            v == s[0] + 0x100 * s[1]
        }),
{
    endian::lemma_le_bytes_len(v as nat, 2);
    reveal_with_fuel(endian::le_bytes, 3);
    let v = v as nat;
    let s = endian::le_bytes(v, 2);
    assert(s[0] == v % 256);
    assert(s[1] == (v / 256) % 256);
}

/// A segment is 24 bytes of header and its data. The header holds the conversation, the command,
/// the fragment count, the window, the time, the number, the next number that is expected and the
/// length of the data, in this order, each with its least significant byte first.
pub proof fn law_bytes_of_a_segment(seg: SegmentModel)
    ensures
        ({
            let s = seg.wire();
            let h = seg.header;
            &&& s.len() == 24 + seg.data.len()
            &&& h.conv == four(s[0], s[1], s[2], s[3])
            &&& h.cmd == s[4]
            &&& h.frg == s[5]
            &&& h.wnd == s[6] + 0x100 * s[7]
            &&& h.ts == four(s[8], s[9], s[10], s[11])
            &&& h.sn == four(s[12], s[13], s[14], s[15])
            &&& h.una == four(s[16], s[17], s[18], s[19])
            &&& h.len == four(s[20], s[21], s[22], s[23])
            &&& s.skip(24) == seg.data
        }),
{
    let h = seg.header;
    let s = seg.wire();
    protocol::lemma_header_wire_len(h);
    lemma_four_bytes(h.conv);
    lemma_two_bytes(h.wnd);
    lemma_four_bytes(h.ts);
    lemma_four_bytes(h.sn);
    lemma_four_bytes(h.una);
    lemma_four_bytes(h.len);
    assert(s.skip(24) =~= seg.data);
    let w = h.wire();
    assert(forall|i: int| 0 <= i < 24 ==> s[i] == w[i]);
}

/// Four bytes are read with the least significant one first.
pub proof fn law_word(s: Seq<u8>, at: int)
    requires
        0 <= at <= s.len() - 4,
    ensures
        protocol::word_at(s, at) == four(s[at], s[at + 1], s[at + 2], s[at + 3]),
{
    let w = s.subrange(at, at + 4);
    reveal_with_fuel(endian::le_value, 5);
    assert(w.skip(1).skip(1).skip(1).skip(1).len() == 0);
    assert(w.skip(1)[0] == w[1]);
    assert(w.skip(1).skip(1)[0] == w[2]);
    assert(w.skip(1).skip(1).skip(1)[0] == w[3]);
}

/// What two bytes are read as.
proof fn lemma_half_word(s: Seq<u8>)
    requires
        s.len() >= 8,
    ensures
        endian::le_value(s.subrange(6, 8)) == s[6] + 0x100 * s[7],
{
    let w = s.subrange(6, 8);
    reveal_with_fuel(endian::le_value, 3);
    assert(w.skip(1).skip(1).len() == 0);
    assert(w.skip(1)[0] == w[1]);
}

/// What is read from a packet: segment after segment, each with as much data as it announces. A
/// tail that is too short for a header, or for the data it announces, is no segment.
pub proof fn law_packets_are_read(s: Seq<u8>)
    ensures
        s.len() < 24 ==> input::parse_packet(s).len() == 0,
        s.len() >= 24 && s.len() < 24 + four(s[20], s[21], s[22], s[23]) ==> input::parse_packet(
            s,
        ).len() == 0,
        s.len() >= 24 && s.len() >= 24 + four(s[20], s[21], s[22], s[23]) ==> {
            let all = input::parse_packet(s);
            let h = all[0].header;
            let end = 24 + four(s[20], s[21], s[22], s[23]);
            &&& all.len() > 0
            &&& h.conv == four(s[0], s[1], s[2], s[3])
            &&& h.cmd == s[4]
            &&& h.frg == s[5]
            &&& h.wnd == s[6] + 0x100 * s[7]
            &&& h.ts == four(s[8], s[9], s[10], s[11])
            &&& h.sn == four(s[12], s[13], s[14], s[15])
            &&& h.una == four(s[16], s[17], s[18], s[19])
            &&& h.len == end - 24
            &&& all[0].data == s.subrange(24, end)
            &&& all.skip(1) == input::parse_packet(s.skip(end))
        },
{
    if s.len() >= 24 {
        law_word(s, 0);
        law_word(s, 8);
        law_word(s, 12);
        law_word(s, 16);
        law_word(s, 20);
        lemma_half_word(s);
        let end = 24 + four(s[20], s[21], s[22], s[23]);
        if s.len() >= end {
            assert(input::parse_packet(s).skip(1) =~= input::parse_packet(s.skip(end)));
        }
    }
}

/// What follows does not change the segment at the front.
proof fn lemma_front_stays(a: Seq<u8>, b: Seq<u8>)
    requires
        input::parse_packet(a).len() > 0,
    ensures
        input::parse_packet(a + b).len() > 0,
        input::parse_packet(a + b)[0] == input::parse_packet(a)[0],
{
    law_packets_are_read(a);
    law_packets_are_read(a + b);
    let s = a + b;
    assert(forall|i: int| 0 <= i < a.len() ==> s[i] == a[i]);
    let h = protocol::header_at_front(a);
    assert(protocol::header_at_front(s) == h) by {
        assert(s.subrange(0, 4) =~= a.subrange(0, 4));
        assert(s.subrange(6, 8) =~= a.subrange(6, 8));
        assert(s.subrange(8, 12) =~= a.subrange(8, 12));
        assert(s.subrange(12, 16) =~= a.subrange(12, 16));
        assert(s.subrange(16, 20) =~= a.subrange(16, 20));
        assert(s.subrange(20, 24) =~= a.subrange(20, 24));
    }
    assert(s.subrange(24, 24 + h.len as int) =~= a.subrange(24, 24 + h.len as int));
}

/// The segment at the front of `next` does not fit behind `packet`.
pub open spec fn no_room(packet: Seq<u8>, next: Seq<u8>, mtu: int) -> bool {
    &&& input::parse_packet(next).len() > 0
    &&& packet.len() + 24 + input::parse_packet(next)[0].data.len() > mtu
}

/// The datagrams that are full leave no room for what follows.
proof fn lemma_packed_full(segs: Seq<SegmentModel>, mtu: int)
    requires
        forall|i: int| 0 <= i < segs.len() ==> (#[trigger] segs[i]).len_matches(),
    ensures
        ({
            let p = packing::packed(segs, mtu);
            &&& p.current.len() > 0 ==> input::parse_packet(p.current).len() > 0
            &&& segs.len() > 0 ==> p.current.len() > 0
            &&& p.full.len() > 0 ==> no_room(p.full.last(), p.current, mtu)
            &&& forall|i: int|
                0 <= i < p.full.len() - 1 ==> no_room(#[trigger] p.full[i], p.full[i + 1], mtu)
        }),
    decreases segs.len(),
{
    if segs.len() > 0 {
        let front = segs.drop_last();
        let seg = segs.last();
        assert forall|i: int| 0 <= i < front.len() implies (#[trigger] front[i]).len_matches() by {
            assert(segs[i].len_matches());
        }
        lemma_packed_full(front, mtu);
        let p = packing::packed(front, mtu);
        let q = packing::packed(segs, mtu);
        assert(segs[segs.len() - 1].len_matches());
        protocol::lemma_header_wire_len(seg.header);
        wire_laws::lemma_parse_front(seg, Seq::empty());
        assert(seg.wire() + Seq::<u8>::empty() =~= seg.wire());
        if p.current.len() > 0 && p.current.len() + seg.wire().len() > mtu {
            assert(q.full == p.full.push(p.current));
            assert forall|i: int| 0 <= i < q.full.len() - 1 implies no_room(
                #[trigger] q.full[i],
                q.full[i + 1],
                mtu,
            ) by {
                assert(q.full[i] == p.full[i]);
                if i < p.full.len() - 1 {
                    assert(q.full[i + 1] == p.full[i + 1]);
                    assert(no_room(p.full[i], p.full[i + 1], mtu));
                }
            }
        } else {
            assert(q.full == p.full);
            if p.current.len() > 0 {
                lemma_front_stays(p.current, seg.wire());
            } else {
                assert(q.current =~= seg.wire());
            }
        }
    }
}

/// Datagrams are filled: a segment starts a new one only where the one before has no room for it.
pub proof fn law_datagrams_are_filled(segs: Seq<SegmentModel>, mtu: int, i: int)
    requires
        forall|k: int| 0 <= k < segs.len() ==> (#[trigger] segs[k]).len_matches(),
        0 <= i < packing::datagrams(segs, mtu).len() - 1,
    ensures
        no_room(packing::datagrams(segs, mtu)[i], packing::datagrams(segs, mtu)[i + 1], mtu),
{
    lemma_packed_full(segs, mtu);
    let p = packing::packed(segs, mtu);
    assert(p.full[i] == packing::datagrams(segs, mtu)[i]);
    if i < p.full.len() - 1 {
        assert(p.full[i + 1] == packing::datagrams(segs, mtu)[i + 1]);
    }
}

} // verus!
