//! The form on the wire of what an established connection sends, byte by byte: frames and frame
//! sets, acknowledgements, and the bodies of frames.
use vstd::prelude::*;

use crate::errors::CodecError;
use crate::packet::address::{lemma_addr_len, SocketAddr};
use crate::packet::connected::ack::{
    ack_bytes, lemma_ack_roundtrip, parse_ack, records_bytes, records_count, records_wf, Record,
};
use crate::packet::connected::body::{
    addresses_bytes, body_bytes, filled, parse_addresses, parse_body, parse_more, BodyView,
    FrameBody,
};
use crate::packet::connected::flags::Flags;
use crate::packet::connected::frame::{lemma_frame_len, optional_bytes, Fragment, Frame, Ordered};
use crate::packet::connected::frame_set::{
    frame_set_bytes, frames_bytes, frames_wf, lemma_frame_set_roundtrip, lemma_frames_bytes_push,
};
use crate::packet::connected::packet::PacketView as ConnectedView;
use crate::packet::connected::reliability::{lemma_code_injective, Reliability};
use crate::packet::datagram::{parse_packet, PacketView};
use crate::packet::layout::{
    addr_stands, addr_width, be16, be32, be64, is_short, le24, lemma_addr_stands_read,
    lemma_addr_written, lemma_be16, lemma_be32, lemma_be64, lemma_le24, lemma_widths,
    lemma_written, signed64,
};
use crate::packet::pack_type::{lemma_type_of, type_of, PackType};
use crate::uint24::u24;
use crate::wire::{
    be_at, be_bytes, i64_at, i64_bits, lemma_at_skip, lemma_be_roundtrip, lemma_le_roundtrip,
    lemma_pow256_values,
};

verus! {

/// The way to deliver that a number from 0 to 7 stands for.
pub open spec fn delivery(k: int) -> Reliability {
    if k == 0 {
        Reliability::Unreliable
    } else if k == 1 {
        Reliability::UnreliableSequenced
    } else if k == 2 {
        Reliability::Reliable
    } else if k == 3 {
        Reliability::ReliableOrdered
    } else if k == 4 {
        Reliability::ReliableSequenced
    } else if k == 5 {
        Reliability::UnreliableWithAckReceipt
    } else if k == 6 {
        Reliability::ReliableWithAckReceipt
    } else {
        Reliability::ReliableOrderedWithAckReceipt
    }
}

/// How the byte of flags is read: the upper three bits give the way to deliver, the next one says
/// whether the frame is a part, and the bit of value 4 is set in every frame that is sent.
pub proof fn lemma_flags_read(raw: u8)
    ensures
        Flags::of_byte(raw) == (Flags {
            raw,
            reliability: delivery(raw as int / 32),
            parted: (raw as int / 16) % 2 == 1,
            needs_bas: (raw as int / 4) % 2 == 1,
        }),
{
    let k = delivery(raw as int / 32);
    assert(raw >> 5u8 == raw / 32u8 && (raw & 0b0001_0000u8 != 0) == ((raw / 16u8) % 2u8 == 1u8) && (
    raw & 0b0000_0100u8 != 0) == ((raw / 4u8) % 2u8 == 1u8)) by (bit_vector);
    assert(k.code() == raw >> 5u8);
    let chosen = Flags::of_byte(raw).reliability;
    lemma_code_injective(chosen, k);
}

/// The byte of flags of a frame that is sent.
pub proof fn lemma_flags_written(k: int, parted: bool)
    requires
        0 <= k < 8,
    ensures
        Flags::of_reliability(delivery(k), parted).raw == 32 * k + 4 + (if parted {
            16int
        } else {
            0
        }),
{
    let code = k as u8;
    assert(delivery(k).code() == code);
    assert((code << 5u8) | 4u8 | 16u8 == 32 * code + 20 && (code << 5u8) | 4u8 | 0u8 == 32 * code
        + 4) by (bit_vector)
        requires
            code < 8,
    ;
}

/// A frame is made whole by taking off the bit of value 16, and nothing else.
pub proof fn lemma_flags_whole(flags: Flags)
    requires
        flags.wf(),
    ensures
        flags.whole() == (Flags {
            raw: (flags.raw - (if flags.parted {
                16int
            } else {
                0
            })) as u8,
            parted: false,
            ..flags
        }),
{
    let raw = flags.raw;
    assert(raw & 0b1110_1111u8 == (if raw & 0b0001_0000u8 != 0 {
        (raw - 16) as u8
    } else {
        raw
    })) by (bit_vector);
}

/// Which frames are numbered, by the number of their way to deliver: those that are sent until
/// they arrive are 2, 3, 4, 6 and 7, those of which only the newest counts 1 and 4, and those that
/// have a place on an order channel 1, 3, 4 and 7.
pub proof fn lemma_deliveries(k: int)
    requires
        0 <= k < 8,
    ensures
        delivery(k).reliable() <==> (k == 2 || k == 3 || k == 4 || k == 6 || k == 7),
        delivery(k).sequenced() <==> (k == 1 || k == 4),
        delivery(k).sequenced_or_ordered() <==> (k == 1 || k == 3 || k == 4 || k == 7),
        delivery(k).code() == k,
{
}

/// Where the fields of a frame stand: the bytes where the sequence number, the place in the order,
/// the place among parts and the body start, by what comes before them.
pub open spec fn starts(reliable: bool, sequenced: bool, placed: bool, parted: bool) -> (
    int,
    int,
    int,
    int,
) {
    let a = if reliable {
        6int
    } else {
        3int
    };
    let b = if sequenced {
        a + 3
    } else {
        a
    };
    let c = if placed {
        b + 4
    } else {
        b
    };
    let d = if parted {
        c + 10
    } else {
        c
    };
    (a, b, c, d)
}

/// The bytes of a frame: the flags; the length of the body in bits; then, where they are there,
/// three bytes each for the number and the sequence number, three bytes and one for the place on
/// an order channel, and for a part the number of parts, the id and the place of the part; and the
/// body.
pub proof fn lemma_frame_written(f: Frame<Seq<u8>>)
    requires
        f.wf(),
    ensures
        ({
            let s = f.bytes();
            let (a, b, c, d) = starts(
                f.reliable_frame_index is Some,
                f.seq_frame_index is Some,
                f.ordered is Some,
                f.fragment is Some,
            );
            &&& s.len() == d + f.body.len()
            &&& s[0] == f.flags.raw
            &&& be16(s, 1) == 8 * f.body.len()
            &&& f.reliable_frame_index matches Some(n) ==> le24(s, 3) == n.0
            &&& f.seq_frame_index matches Some(n) ==> le24(s, a) == n.0
            &&& f.ordered matches Some(o) ==> le24(s, b) == o.frame_index.0 && s[b + 3] == o.channel
            &&& f.fragment matches Some(p) ==> be32(s, c) == p.parted_size && be16(s, c + 4)
                == p.parted_id && be32(s, c + 6) == p.parted_index
            &&& s.skip(d) == f.body
        }),
{
    let s = f.bytes();
    let (a, b, c, d) = starts(
        f.reliable_frame_index is Some,
        f.seq_frame_index is Some,
        f.ordered is Some,
        f.fragment is Some,
    );
    lemma_frame_len(f);
    lemma_pow256_values();
    let bits = f.body.len() * 8;
    lemma_widths(bits);
    assert(s.skip(d) =~= f.body) by {
        assert(f.header_bytes().len() == d);
    }
    assert(s.subrange(1, 3) =~= be_bytes(bits, 2)) by {
        assert(f.header_bytes().subrange(1, 3) =~= be_bytes(bits, 2)) by {
            lemma_header_fields(f);
        }
        assert(s.subrange(1, 3) =~= f.header_bytes().subrange(1, 3));
    }
    lemma_written(s, 1, bits, 2);
    lemma_be16(s, 1);
    lemma_header_fields(f);
    let h = f.header_bytes();
    assert forall|i: int, j: int| 0 <= i <= j <= d implies #[trigger] s.subrange(i, j)
        == h.subrange(i, j) by {
        assert(s.subrange(i, j) =~= h.subrange(i, j));
    }
    if let Some(n) = f.reliable_frame_index {
        lemma_le_roundtrip(n.0 as nat, 3);
        assert(s.subrange(3, 6) == h.subrange(3, 6));
        lemma_le24(s, 3);
    }
    if let Some(n) = f.seq_frame_index {
        lemma_le_roundtrip(n.0 as nat, 3);
        assert(s.subrange(a, a + 3) == h.subrange(a, a + 3));
        lemma_le24(s, a);
    }
    if let Some(o) = f.ordered {
        lemma_le_roundtrip(o.frame_index.0 as nat, 3);
        assert(s.subrange(b, b + 4) == h.subrange(b, b + 4));
        assert(s.subrange(b, b + 3) =~= h.subrange(b, b + 4).take(3));
        assert(h.subrange(b, b + 4).take(3) =~= o.frame_index.bytes());
        assert(s.subrange(b, b + 4)[3] == s[b + 3]);
        lemma_le24(s, b);
    }
    if let Some(p) = f.fragment {
        lemma_widths(p.parted_size as nat);
        lemma_widths(p.parted_id as nat);
        lemma_widths(p.parted_index as nat);
        assert(s.subrange(c, c + 10) == h.subrange(c, c + 10));
        assert(s.subrange(c, c + 4) =~= s.subrange(c, c + 10).subrange(0, 4));
        assert(s.subrange(c + 4, c + 6) =~= s.subrange(c, c + 10).subrange(4, 6));
        assert(s.subrange(c + 6, c + 10) =~= s.subrange(c, c + 10).subrange(6, 10));
        assert(p.bytes().subrange(0, 4) =~= be_bytes(p.parted_size as nat, 4));
        assert(p.bytes().subrange(4, 6) =~= be_bytes(p.parted_id as nat, 2));
        assert(p.bytes().subrange(6, 10) =~= be_bytes(p.parted_index as nat, 4));
        lemma_written(s, c, p.parted_size as nat, 4);
        lemma_written(s, c + 4, p.parted_id as nat, 2);
        lemma_written(s, c + 6, p.parted_index as nat, 4);
        lemma_be32(s, c);
        lemma_be16(s, c + 4);
        lemma_be32(s, c + 6);
    }
}

/// Where the fields of a header stand in it.
proof fn lemma_header_fields(f: Frame<Seq<u8>>)
    requires
        f.wf(),
    ensures
        ({
            let h = f.header_bytes();
            let (a, b, c, d) = starts(
                f.reliable_frame_index is Some,
                f.seq_frame_index is Some,
                f.ordered is Some,
                f.fragment is Some,
            );
            &&& h.len() == d
            &&& h[0] == f.flags.raw
            &&& h.subrange(1, 3) == be_bytes(f.body.len() * 8, 2)
            &&& f.reliable_frame_index matches Some(n) ==> h.subrange(3, 6) == n.bytes()
            &&& f.seq_frame_index matches Some(n) ==> h.subrange(a, a + 3) == n.bytes()
            &&& f.ordered matches Some(o) ==> h.subrange(b, b + 4) == o.bytes()
            &&& f.fragment matches Some(p) ==> h.subrange(c, c + 10) == p.bytes()
        }),
{
    let h = f.header_bytes();
    let (a, b, c, d) = starts(
        f.reliable_frame_index is Some,
        f.seq_frame_index is Some,
        f.ordered is Some,
        f.fragment is Some,
    );
    lemma_widths(f.body.len() * 8);
    let head = seq![f.flags.raw] + be_bytes(f.body.len() * 8, 2);
    let reliable = optional_bytes(f.reliable_frame_index);
    let sequenced = optional_bytes(f.seq_frame_index);
    let ordered = match f.ordered {
        Some(v) => v.bytes(),
        None => Seq::<u8>::empty(),
    };
    let part = match f.fragment {
        Some(v) => v.bytes(),
        None => Seq::<u8>::empty(),
    };
    if let Some(n) = f.reliable_frame_index {
        lemma_widths(n.0 as nat);
    }
    if let Some(n) = f.seq_frame_index {
        lemma_widths(n.0 as nat);
    }
    if let Some(o) = f.ordered {
        lemma_widths(o.frame_index.0 as nat);
    }
    if let Some(p) = f.fragment {
        lemma_widths(p.parted_size as nat);
        lemma_widths(p.parted_id as nat);
        lemma_widths(p.parted_index as nat);
    }
    let h1 = head + reliable;
    let h2 = h1 + sequenced;
    let h3 = h2 + ordered;
    assert(h == h3 + part);
    assert(h1.len() == a && h2.len() == b && h3.len() == c && h.len() == d);
    assert(h.subrange(1, 3) =~= be_bytes(f.body.len() * 8, 2));
    assert(h.subrange(3, a) =~= reliable);
    assert(h.subrange(a, b) =~= sequenced);
    assert(h.subrange(b, c) =~= ordered);
    assert(h.subrange(c, d) =~= part);
}

/// How a frame is read. The number `k` in the upper three bits of the first byte gives the way to
/// deliver and with it the fields that are there; what is there is read from where it stands. A
/// frame of which bytes are missing, or whose body would be empty, is refused.
pub proof fn lemma_frame_read(s: Seq<u8>)
    ensures
        s.len() < 3 ==> is_short(Frame::<Seq<u8>>::parse(s)),
        s.len() >= 3 ==> {
            let k = s[0] as int / 32;
            let reliable = k == 2 || k == 3 || k == 4 || k == 6 || k == 7;
            let sequenced = k == 1 || k == 4;
            let placed = k == 1 || k == 3 || k == 4 || k == 7;
            let parted = (s[0] as int / 16) % 2 == 1;
            let (a, b, c, d) = starts(reliable, sequenced, placed, parted);
            let n = be16(s, 1) / 8;
            &&& n == 0 || s.len() < d + n ==> is_short(Frame::<Seq<u8>>::parse(s))
            &&& n > 0 && s.len() >= d + n ==> Frame::<Seq<u8>>::parse(s) == Ok::<
                (Frame<Seq<u8>>, int),
                CodecError,
            >(
                (
                    Frame {
                        flags: Flags {
                            raw: s[0],
                            reliability: delivery(k),
                            parted,
                            needs_bas: (s[0] as int / 4) % 2 == 1,
                        },
                        reliable_frame_index: if reliable {
                            Some(u24(le24(s, 3) as u32))
                        } else {
                            None
                        },
                        seq_frame_index: if sequenced {
                            Some(u24(le24(s, a) as u32))
                        } else {
                            None
                        },
                        ordered: if placed {
                            Some(
                                Ordered {
                                    frame_index: u24(le24(s, b) as u32),
                                    channel: s[b + 3],
                                },
                            )
                        } else {
                            None
                        },
                        fragment: if parted {
                            Some(
                                Fragment {
                                    parted_size: be32(s, c) as u32,
                                    parted_id: be16(s, c + 4) as u16,
                                    parted_index: be32(s, c + 6) as u32,
                                },
                            )
                        } else {
                            None
                        },
                        body: s.subrange(d, d + n),
                    },
                    d + n,
                ),
            )
        },
{
    if s.len() >= 3 {
        let k = s[0] as int / 32;
        lemma_flags_read(s[0]);
        lemma_deliveries(k);
        lemma_be16(s, 1);
        let reliable = k == 2 || k == 3 || k == 4 || k == 6 || k == 7;
        let sequenced = k == 1 || k == 4;
        let placed = k == 1 || k == 3 || k == 4 || k == 7;
        let parted = (s[0] as int / 16) % 2 == 1;
        let (a, b, c, d) = starts(reliable, sequenced, placed, parted);
        let n = be16(s, 1) / 8;
        if n > 0 && s.len() >= d + n {
            if reliable {
                lemma_le24(s, 3);
            }
            if sequenced {
                lemma_le24(s, a);
            }
            if placed {
                lemma_le24(s, b);
            }
            if parted {
                lemma_be32(s, c);
                lemma_be16(s, c + 4);
                lemma_be32(s, c + 6);
            }
        }
    }
}

/// A datagram with frames starts with 0x8c where its first frame is a part, else with 0x84; then
/// comes its number, the least significant byte first, and then frame behind frame.
pub proof fn lemma_frame_set_written(seq_num: u24, fs: Seq<Frame<Seq<u8>>>)
    requires
        seq_num.wf(),
        fs.len() > 0,
    ensures
        ({
            let s = ConnectedView::FrameSet(seq_num, fs).bytes();
            &&& s.len() >= 4
            &&& fs[0].fragment is Some && fs[0].wf() ==> s[0] == 0x8c
            &&& fs[0].fragment is None && fs[0].wf() ==> s[0] == 0x84
            &&& le24(s, 1) == seq_num.0
            &&& fs.len() == 1 ==> s.skip(4) == fs[0].bytes()
            &&& forall|f: Frame<Seq<u8>>| #[trigger]
                ConnectedView::FrameSet(seq_num, fs.push(f)).bytes() == s + f.bytes()
        }),
{
    let s = ConnectedView::FrameSet(seq_num, fs).bytes();
    lemma_le_roundtrip(seq_num.0 as nat, 3);
    lemma_pow256_values();
    assert(s.subrange(1, 4) =~= seq_num.bytes());
    lemma_le24(s, 1);
    assert(s.skip(4) =~= frames_bytes(fs));
    if fs.len() == 1 {
        reveal_with_fuel(frames_bytes, 2);
        assert(frames_bytes(fs) =~= fs[0].bytes());
    }
    assert forall|f: Frame<Seq<u8>>| #[trigger]
        ConnectedView::FrameSet(seq_num, fs.push(f)).bytes() == s + f.bytes() by {
        lemma_frames_bytes_push(fs, f);
        assert(ConnectedView::FrameSet(seq_num, fs.push(f)).bytes() =~= s + f.bytes());
    }
}

/// A datagram whose first byte is from 0x80 up to 0x9f holds frames: behind the number in its next
/// three bytes it is read frame by frame, up to its end.
pub proof fn lemma_frame_set_read(s: Seq<u8>, fs: Seq<Frame<Seq<u8>>>)
    requires
        s.len() > 0,
        0x80 <= s[0] < 0xa0,
    ensures
        s.len() < 4 ==> is_short(parse_packet(s)),
        s.len() == 4 ==> is_short(parse_packet(s)),
        s.len() >= 4 && fs.len() > 0 && frames_wf(fs) && s.skip(4) == frames_bytes(fs)
            ==> parse_packet(s) == Ok::<(Option<PacketView>, int), CodecError>(
            (
                Some(
                    PacketView::Connected(
                        ConnectedView::FrameSet(u24(le24(s, 1) as u32), fs),
                    ),
                ),
                s.len() as int,
            ),
        ),
{
    lemma_type_of(s[0], PackType::FrameSet);
    let t = s.skip(1);
    if s.len() >= 4 {
        assert(t.skip(3) =~= s.skip(4));
        lemma_at_skip(s, 1, 0, 3);
        lemma_le24(s, 1);
        if fs.len() > 0 && frames_wf(fs) && s.skip(4) == frames_bytes(fs) {
            let n = u24(le24(s, 1) as u32);
            lemma_frame_set_roundtrip(n, fs);
            let w = frame_set_bytes(n, fs);
            assert(w.skip(3) =~= frames_bytes(fs)) by {
                lemma_widths(n.0 as nat);
            }
        }
    }
}

/// A run of numbers takes 7 bytes: 0, its first and its last number; a single number takes 4: 1
/// and the number.
pub proof fn lemma_record_written(a: u24, b: u24)
    requires
        a.wf(),
        b.wf(),
    ensures
        ({
            let s = Record::Range(a, b).bytes();
            &&& s.len() == 7
            &&& s[0] == 0
            &&& le24(s, 1) == a.0
            &&& le24(s, 4) == b.0
        }),
        ({
            let s = Record::Single(a).bytes();
            &&& s.len() == 4
            &&& s[0] == 1
            &&& le24(s, 1) == a.0
        }),
{
    let s = Record::Range(a, b).bytes();
    let t = Record::Single(a).bytes();
    lemma_le_roundtrip(a.0 as nat, 3);
    lemma_le_roundtrip(b.0 as nat, 3);
    lemma_pow256_values();
    assert(s.subrange(1, 4) =~= a.bytes());
    assert(s.subrange(4, 7) =~= b.bytes());
    assert(t.subrange(1, 4) =~= a.bytes());
    lemma_le24(s, 1);
    lemma_le24(s, 4);
    lemma_le24(t, 1);
}

/// How a record is read: its first byte says whether it is a run or a single number.
pub proof fn lemma_record_read(s: Seq<u8>)
    ensures
        ({
            let r = Record::parse(s);
            &&& s.len() == 0 ==> is_short(r)
            &&& s.len() > 0 && s[0] == 0 && s.len() < 7 ==> is_short(r)
            &&& s.len() >= 7 && s[0] == 0 ==> r == Ok::<(Record, int), CodecError>(
                (Record::Range(u24(le24(s, 1) as u32), u24(le24(s, 4) as u32)), 7),
            )
            &&& s.len() > 0 && s[0] == 1 && s.len() < 4 ==> is_short(r)
            &&& s.len() >= 4 && s[0] == 1 ==> r == Ok::<(Record, int), CodecError>(
                (Record::Single(u24(le24(s, 1) as u32)), 4),
            )
            &&& s.len() > 0 && s[0] > 1 ==> r == Err::<(Record, int), CodecError>(
                CodecError::InvalidRecordType(s[0]),
            )
        }),
{
    if s.len() >= 4 {
        lemma_le24(s, 1);
    }
    if s.len() >= 7 {
        lemma_le24(s, 4);
    }
}

/// An acknowledgement starts with 0xc0, a request to send again with 0xa0; then comes the number
/// of records in two bytes, and then record behind record.
pub proof fn lemma_ack_written(rs: Seq<Record>)
    requires
        rs.len() < u16::MAX,
    ensures
        ({
            let s = ConnectedView::Ack(rs).bytes();
            let t = ConnectedView::Nack(rs).bytes();
            &&& s.len() >= 3
            &&& s[0] == 0xc0
            &&& be16(s, 1) == rs.len()
            &&& t.len() >= 3
            &&& t[0] == 0xa0
            &&& t.skip(1) == s.skip(1)
            &&& rs.len() == 0 ==> s.len() == 3
            &&& rs.len() > 0 ==> s.skip(3) == rs[0].bytes() + ConnectedView::Ack(
                rs.drop_first(),
            ).bytes().skip(3)
        }),
{
    let s = ConnectedView::Ack(rs).bytes();
    let t = ConnectedView::Nack(rs).bytes();
    lemma_be_roundtrip(rs.len(), 2);
    lemma_pow256_values();
    assert(s.subrange(1, 3) =~= be_bytes(rs.len(), 2));
    lemma_be16(s, 1);
    assert(t.skip(1) =~= s.skip(1));
    assert(s.skip(3) =~= records_bytes(rs));
    if rs.len() > 0 {
        let rest = rs.drop_first();
        lemma_be_roundtrip(rest.len(), 2);
        assert(ConnectedView::Ack(rest).bytes().skip(3) =~= records_bytes(rest));
    }
}

/// A datagram whose first byte is from 0xc0 on acknowledges, one whose first byte is from 0xa0 up
/// to 0xbf asks to send again. Behind the number of records the records are read, as long as they
/// cover no more than 8192 numbers.
pub proof fn lemma_ack_read(s: Seq<u8>, rs: Seq<Record>)
    requires
        s.len() > 0,
        s[0] >= 0xa0,
    ensures
        s.len() < 3 ==> is_short(parse_packet(s)),
        s.len() >= 3 && be16(s, 1) == rs.len() && s.skip(3) == records_bytes(rs) && records_wf(rs)
            && records_count(rs) <= 8192 ==> parse_packet(s) == Ok::<
            (Option<PacketView>, int),
            CodecError,
        >(
            (
                Some(
                    PacketView::Connected(
                        if s[0] >= 0xc0 {
                            ConnectedView::Ack(rs)
                        } else {
                            ConnectedView::Nack(rs)
                        },
                    ),
                ),
                s.len() as int,
            ),
        ),
{
    if s[0] >= 0xc0 {
        lemma_type_of(s[0], PackType::Ack);
    } else {
        lemma_type_of(s[0], PackType::Nack);
    }
    let t = s.skip(1);
    if s.len() >= 3 && be16(s, 1) == rs.len() && s.skip(3) == records_bytes(rs) && records_wf(rs)
        && records_count(rs) <= 8192 {
        lemma_be16(s, 1);
        lemma_at_skip(s, 1, 0, 2);
        let none = Seq::<u8>::empty();
        let w = ack_bytes(rs) + none;
        lemma_ack_roundtrip(rs, none);
        lemma_be_roundtrip(rs.len(), 2);
        lemma_pow256_values();
        assert(w.subrange(0, 2) =~= be_bytes(rs.len(), 2));
        assert(be_at(w, 0, 2) == be_at(t, 0, 2));
        assert(w.skip(2) =~= records_bytes(rs));
        assert(t.skip(2) =~= s.skip(3));
        assert(parse_ack(w) == parse_ack(t));
    }
}

/// How many bytes addresses take that stand one behind the other.
pub open spec fn addrs_width(addrs: Seq<SocketAddr>) -> int
    decreases addrs.len(),
{
    if addrs.len() == 0 {
        0
    } else {
        addr_width(addrs[0]) + addrs_width(addrs.drop_first())
    }
}

/// The addresses stand from `at` on, one behind the other.
pub open spec fn addrs_stand(s: Seq<u8>, at: int, addrs: Seq<SocketAddr>) -> bool {
    forall|i: int|
        0 <= i < addrs.len() ==> addr_stands(s, at + addrs_width(addrs.take(i)), #[trigger] addrs[i])
}

proof fn lemma_width_step(addrs: Seq<SocketAddr>, i: int)
    requires
        0 <= i < addrs.len(),
    ensures
        addrs_width(addrs.take(i + 1)) == addr_width(addrs[0]) + addrs_width(
            addrs.drop_first().take(i),
        ),
{
    assert(addrs.take(i + 1).drop_first() =~= addrs.drop_first().take(i));
}

proof fn lemma_addrs_written(s: Seq<u8>, at: int, addrs: Seq<SocketAddr>)
    requires
        0 <= at,
        at + addresses_bytes(addrs).len() <= s.len(),
        s.subrange(at, at + addresses_bytes(addrs).len()) == addresses_bytes(addrs),
    ensures
        addresses_bytes(addrs).len() == addrs_width(addrs),
        addrs_stand(s, at, addrs),
    decreases addrs.len(),
{
    if addrs.len() > 0 {
        let w = addresses_bytes(addrs);
        let rest = addrs.drop_first();
        let first = addrs[0].bytes();
        lemma_addr_len(addrs[0]);
        let n = first.len() as int;
        assert(s.subrange(at, at + n) =~= first) by {
            assert(s.subrange(at, at + n) =~= s.subrange(at, at + w.len()).subrange(0, n));
            assert(w.subrange(0, n) =~= first);
        }
        assert(s.subrange(at + n, at + n + addresses_bytes(rest).len()) =~= addresses_bytes(rest))
            by {
            assert(s.subrange(at + n, at + w.len()) =~= s.subrange(at, at + w.len()).subrange(
                n,
                w.len() as int,
            ));
            assert(w.subrange(n, w.len() as int) =~= addresses_bytes(rest));
        }
        lemma_addr_written(s, at, addrs[0]);
        lemma_addrs_written(s, at + n, rest);
        assert forall|i: int| 0 <= i < addrs.len() implies addr_stands(
            s,
            at + addrs_width(addrs.take(i)),
            #[trigger] addrs[i],
        ) by {
            if i == 0 {
                assert(addrs_width(addrs.take(0)) == 0);
            } else {
                lemma_width_step(addrs, i - 1);
                assert(addr_stands(s, at + n + addrs_width(rest.take(i - 1)), rest[i - 1]));
            }
        }
    }
}

proof fn lemma_more_read(s: Seq<u8>, at: int, addrs: Seq<SocketAddr>, room: nat)
    requires
        0 <= at <= s.len(),
        addrs_stand(s, at, addrs),
        addrs.len() <= room,
        s.len() >= at + addrs_width(addrs) + 16,
        addrs.len() == room || s.len() == at + addrs_width(addrs) + 16,
    ensures
        parse_more(s.skip(at), room) == Ok::<(Seq<SocketAddr>, int), CodecError>(
            (addrs, addrs_width(addrs)),
        ),
    decreases addrs.len(),
{
    let t = s.skip(at);
    if addrs.len() == 0 {
        assert(addrs =~= Seq::empty());
    } else {
        let rest = addrs.drop_first();
        let n = addr_width(addrs[0]);
        assert(addrs_width(addrs.take(0)) == 0);
        assert(addr_stands(s, at + addrs_width(addrs.take(0)), addrs[0]));
        lemma_addr_stands_read(s, at, addrs[0]);
        assert forall|i: int| 0 <= i < rest.len() implies addr_stands(
            s,
            at + n + addrs_width(rest.take(i)),
            #[trigger] rest[i],
        ) by {
            lemma_width_step(addrs, i);
            assert(addr_stands(s, at + addrs_width(addrs.take(i + 1)), addrs[i + 1]));
        }
        lemma_widths_positive(rest);
        lemma_more_read(s, at + n, rest, (room - 1) as nat);
        assert(t.skip(n) =~= s.skip(at + n));
        assert(seq![addrs[0]] + rest =~= addrs);
    }
}

proof fn lemma_widths_positive(addrs: Seq<SocketAddr>)
    ensures
        addrs_width(addrs) >= 0,
    decreases addrs.len(),
{
    if addrs.len() > 0 {
        lemma_widths_positive(addrs.drop_first());
    }
}

/// A list of addresses that was sent short is read as a full one of 20: the places that were not
/// sent hold the first address.
proof fn lemma_addrs_read(s: Seq<u8>, at: int, addrs: Seq<SocketAddr>, full: Seq<SocketAddr>)
    requires
        0 <= at <= s.len(),
        addrs_stand(s, at, addrs),
        0 < addrs.len() <= 20,
        s.len() >= at + addrs_width(addrs) + 16,
        addrs.len() == 20 || s.len() == at + addrs_width(addrs) + 16,
        full.len() == 20,
        forall|i: int|
            0 <= i < 20 ==> #[trigger] full[i] == (if i < addrs.len() {
                addrs[i]
            } else {
                addrs[0]
            }),
    ensures
        parse_addresses(s.skip(at)) == Ok::<(Seq<SocketAddr>, int), CodecError>(
            (full, addrs_width(addrs)),
        ),
{
    let t = s.skip(at);
    let rest = addrs.drop_first();
    let n = addr_width(addrs[0]);
    assert(addrs_width(addrs.take(0)) == 0);
    assert(addr_stands(s, at + addrs_width(addrs.take(0)), addrs[0]));
    lemma_addr_stands_read(s, at, addrs[0]);
    assert forall|i: int| 0 <= i < rest.len() implies addr_stands(
        s,
        at + n + addrs_width(rest.take(i)),
        #[trigger] rest[i],
    ) by {
        lemma_width_step(addrs, i);
        assert(addr_stands(s, at + addrs_width(addrs.take(i + 1)), addrs[i + 1]));
    }
    lemma_widths_positive(rest);
    lemma_more_read(s, at + n, rest, 19);
    assert(t.skip(n) =~= s.skip(at + n));
    assert(seq![addrs[0]] + rest =~= addrs);
    assert(filled(addrs) =~= full);
}

proof fn lemma_stamp_written(s: Seq<u8>, at: int, v: i64)
    requires
        0 <= at,
        at + 8 <= s.len(),
        s.subrange(at, at + 8) == be_bytes(i64_bits(v), 8),
    ensures
        signed64(s, at) == v,
{
    lemma_pow256_values();
    lemma_written(s, at, i64_bits(v), 8);
    lemma_be64(s, at);
}

proof fn lemma_stamp_read(s: Seq<u8>, at: int)
    requires
        0 <= at,
        at + 8 <= s.len(),
    ensures
        i64_at(s, at) == signed64(s, at),
{
    lemma_be64(s, at);
}

/// The short bodies. A ping is 0x00 and the time; a pong 0x03 and two times; the request of a
/// connection 0x09, the id of the client, the time, and 1 or 0 for encryption; the notice of the
/// end is 0x15, the question whether the peer is there 0x04. A message of the user stands for
/// itself.
pub proof fn lemma_bodies_written(a: i64, b: i64, guid: u64, encryption: bool, data: Seq<u8>)
    ensures
        ({
            let s = body_bytes(FrameBody::ConnectedPing { client_timestamp: a });
            s.len() == 9 && s[0] == 0x00 && signed64(s, 1) == a
        }),
        ({
            let s = body_bytes(
                FrameBody::ConnectedPong { client_timestamp: a, server_timestamp: b },
            );
            s.len() == 17 && s[0] == 0x03 && signed64(s, 1) == a && signed64(s, 9) == b
        }),
        ({
            let s = body_bytes(
                FrameBody::ConnectionRequest {
                    client_guid: guid,
                    request_timestamp: a,
                    use_encryption: encryption,
                },
            );
            &&& s.len() == 18
            &&& s[0] == 0x09
            &&& be64(s, 1) == guid
            &&& signed64(s, 9) == a
            &&& s[17] == (if encryption {
                1u8
            } else {
                0u8
            })
        }),
        body_bytes(FrameBody::DisconnectNotification) == seq![0x15u8],
        body_bytes(FrameBody::DetectLostConnections) == seq![0x04u8],
        body_bytes(FrameBody::User(data)) == data,
{
    lemma_widths(i64_bits(a));
    lemma_widths(i64_bits(b));
    lemma_widths(guid as nat);
    lemma_pow256_values();
    let s = body_bytes(FrameBody::ConnectedPing { client_timestamp: a });
    assert(s.subrange(1, 9) =~= be_bytes(i64_bits(a), 8));
    lemma_stamp_written(s, 1, a);
    let s = body_bytes(FrameBody::ConnectedPong { client_timestamp: a, server_timestamp: b });
    assert(s.subrange(1, 9) =~= be_bytes(i64_bits(a), 8));
    assert(s.subrange(9, 17) =~= be_bytes(i64_bits(b), 8));
    lemma_stamp_written(s, 1, a);
    lemma_stamp_written(s, 9, b);
    let s = body_bytes(
        FrameBody::ConnectionRequest {
            client_guid: guid,
            request_timestamp: a,
            use_encryption: encryption,
        },
    );
    assert(s.subrange(1, 9) =~= be_bytes(guid as nat, 8));
    assert(s.subrange(9, 17) =~= be_bytes(i64_bits(a), 8));
    lemma_written(s, 1, guid as nat, 8);
    lemma_be64(s, 1);
    lemma_stamp_written(s, 9, a);
}

/// How the short bodies are read: by their first byte, with the fields where they stand. A body
/// that starts with a byte that announces none of the protocol's is the user's, whole.
pub proof fn lemma_bodies_read(s: Seq<u8>)
    requires
        s.len() > 0,
    ensures
        s[0] == 0x00 && s.len() < 9 ==> is_short(parse_body(s)),
        s[0] == 0x00 && s.len() >= 9 ==> parse_body(s) == Ok::<BodyView, CodecError>(
            FrameBody::ConnectedPing { client_timestamp: signed64(s, 1) as i64 },
        ),
        s[0] == 0x03 && s.len() < 17 ==> is_short(parse_body(s)),
        s[0] == 0x03 && s.len() >= 17 ==> parse_body(s) == Ok::<BodyView, CodecError>(
            FrameBody::ConnectedPong {
                client_timestamp: signed64(s, 1) as i64,
                server_timestamp: signed64(s, 9) as i64,
            },
        ),
        s[0] == 0x09 && s.len() < 18 ==> is_short(parse_body(s)),
        s[0] == 0x09 && s.len() >= 18 ==> parse_body(s) == Ok::<BodyView, CodecError>(
            FrameBody::ConnectionRequest {
                client_guid: be64(s, 1) as u64,
                request_timestamp: signed64(s, 9) as i64,
                use_encryption: s[17] != 0,
            },
        ),
        s[0] == 0x15 ==> parse_body(s) == Ok::<BodyView, CodecError>(
            FrameBody::DisconnectNotification,
        ),
        s[0] == 0x04 ==> parse_body(s) == Ok::<BodyView, CodecError>(
            FrameBody::DetectLostConnections,
        ),
        s[0] != 0x00 && s[0] != 0x03 && s[0] != 0x04 && s[0] != 0x09 && s[0] != 0x10 && s[0] != 0x13
            && s[0] != 0x15 ==> parse_body(s) == Ok::<BodyView, CodecError>(FrameBody::User(s)),
{
    let id = s[0];
    if id == 0x00 {
        lemma_type_of(id, PackType::ConnectedPing);
        if s.len() >= 9 {
            lemma_stamp_read(s, 1);
        }
    } else if id == 0x03 {
        lemma_type_of(id, PackType::ConnectedPong);
        if s.len() >= 17 {
            lemma_stamp_read(s, 1);
            lemma_stamp_read(s, 9);
        }
    } else if id == 0x09 {
        lemma_type_of(id, PackType::ConnectionRequest);
        if s.len() >= 18 {
            lemma_be64(s, 1);
            lemma_stamp_read(s, 9);
        }
    } else if id == 0x15 {
        lemma_type_of(id, PackType::DisconnectNotification);
    } else if id == 0x04 {
        lemma_type_of(id, PackType::DetectLostConnections);
    } else if id != 0x10 && id != 0x13 {
        if let Some(t) = type_of(id) {
            assert(t.covers(id));
        }
    }
}

/// The acceptance of a connection is 0x10, the address of the client, the index of the system, the
/// addresses of the system one behind the other, and two times: that of the request, then that of
/// the acceptance.
pub proof fn lemma_accepted_written(
    client: SocketAddr,
    index: u16,
    addrs: Seq<SocketAddr>,
    asked: i64,
    accepted: i64,
)
    ensures
        ({
            let s = body_bytes(
                FrameBody::ConnectionRequestAccepted {
                    client_address: client,
                    system_index: index,
                    system_addresses: addrs,
                    request_timestamp: asked,
                    accepted_timestamp: accepted,
                },
            );
            let n = addr_width(client);
            let m = addrs_width(addrs);
            &&& s.len() == n + m + 19
            &&& s[0] == 0x10
            &&& addr_stands(s, 1, client)
            &&& be16(s, 1 + n) == index
            &&& addrs_stand(s, 3 + n, addrs)
            &&& signed64(s, 3 + n + m) == asked
            &&& signed64(s, 11 + n + m) == accepted
        }),
{
    let s = body_bytes(
        FrameBody::ConnectionRequestAccepted {
            client_address: client,
            system_index: index,
            system_addresses: addrs,
            request_timestamp: asked,
            accepted_timestamp: accepted,
        },
    );
    let n = addr_width(client);
    let w = addresses_bytes(addrs);
    let m = w.len() as int;
    lemma_addr_len(client);
    lemma_widths(index as nat);
    lemma_widths(i64_bits(asked));
    lemma_widths(i64_bits(accepted));
    lemma_pow256_values();
    assert(s.subrange(1, 1 + n) =~= client.bytes());
    assert(s.subrange(1 + n, 3 + n) =~= be_bytes(index as nat, 2));
    assert(s.subrange(3 + n, 3 + n + m) =~= w);
    assert(s.subrange(3 + n + m, 11 + n + m) =~= be_bytes(i64_bits(asked), 8));
    assert(s.subrange(11 + n + m, 19 + n + m) =~= be_bytes(i64_bits(accepted), 8));
    lemma_addr_written(s, 1, client);
    lemma_written(s, 1 + n, index as nat, 2);
    lemma_be16(s, 1 + n);
    lemma_addrs_written(s, 3 + n, addrs);
    lemma_stamp_written(s, 3 + n + m, asked);
    lemma_stamp_written(s, 11 + n + m, accepted);
}

/// How the acceptance of a connection is read: from 1 up to 20 addresses of the system may stand
/// in it, and where there are fewer than 20 the first one fills the other places.
pub proof fn lemma_accepted_read(
    s: Seq<u8>,
    client: SocketAddr,
    addrs: Seq<SocketAddr>,
    full: Seq<SocketAddr>,
)
    requires
        s.len() > 0,
        s[0] == 0x10,
        addr_stands(s, 1, client),
        addrs_stand(s, 3 + addr_width(client), addrs),
        0 < addrs.len() <= 20,
        s.len() >= addr_width(client) + addrs_width(addrs) + 19,
        addrs.len() == 20 || s.len() == addr_width(client) + addrs_width(addrs) + 19,
        full.len() == 20,
        forall|i: int|
            0 <= i < 20 ==> #[trigger] full[i] == (if i < addrs.len() {
                addrs[i]
            } else {
                addrs[0]
            }),
    ensures
        ({
            let n = addr_width(client);
            let m = addrs_width(addrs);
            parse_body(s) == Ok::<BodyView, CodecError>(
                FrameBody::ConnectionRequestAccepted {
                    client_address: client,
                    system_index: be16(s, 1 + n) as u16,
                    system_addresses: full,
                    request_timestamp: signed64(s, 3 + n + m) as i64,
                    accepted_timestamp: signed64(s, 11 + n + m) as i64,
                },
            )
        }),
{
    let n = addr_width(client);
    let m = addrs_width(addrs);
    lemma_widths_positive(addrs);
    lemma_type_of(s[0], PackType::ConnectionRequestAccepted);
    lemma_addr_stands_read(s, 1, client);
    lemma_addrs_read(s, 3 + n, addrs, full);
    lemma_be16(s, 1 + n);
    lemma_stamp_read(s, 3 + n + m);
    lemma_stamp_read(s, 11 + n + m);
}

/// The last step of the handshake is 0x13, the address of the server, the addresses of the system
/// one behind the other, and two times: that of the request, then that of the acceptance.
pub proof fn lemma_incoming_written(
    server: SocketAddr,
    addrs: Seq<SocketAddr>,
    asked: i64,
    accepted: i64,
)
    ensures
        ({
            let s = body_bytes(
                FrameBody::NewIncomingConnection {
                    server_address: server,
                    system_addresses: addrs,
                    request_timestamp: asked,
                    accepted_timestamp: accepted,
                },
            );
            let n = addr_width(server);
            let m = addrs_width(addrs);
            &&& s.len() == n + m + 17
            &&& s[0] == 0x13
            &&& addr_stands(s, 1, server)
            &&& addrs_stand(s, 1 + n, addrs)
            &&& signed64(s, 1 + n + m) == asked
            &&& signed64(s, 9 + n + m) == accepted
        }),
{
    let s = body_bytes(
        FrameBody::NewIncomingConnection {
            server_address: server,
            system_addresses: addrs,
            request_timestamp: asked,
            accepted_timestamp: accepted,
        },
    );
    let n = addr_width(server);
    let w = addresses_bytes(addrs);
    let m = w.len() as int;
    lemma_addr_len(server);
    lemma_widths(i64_bits(asked));
    lemma_widths(i64_bits(accepted));
    assert(s.subrange(1, 1 + n) =~= server.bytes());
    assert(s.subrange(1 + n, 1 + n + m) =~= w);
    assert(s.subrange(1 + n + m, 9 + n + m) =~= be_bytes(i64_bits(asked), 8));
    assert(s.subrange(9 + n + m, 17 + n + m) =~= be_bytes(i64_bits(accepted), 8));
    lemma_addr_written(s, 1, server);
    lemma_addrs_written(s, 1 + n, addrs);
    lemma_stamp_written(s, 1 + n + m, asked);
    lemma_stamp_written(s, 9 + n + m, accepted);
}

/// How the last step of the handshake is read: from 1 up to 20 addresses of the system may stand
/// in it, and where there are fewer than 20 the first one fills the other places.
pub proof fn lemma_incoming_read(
    s: Seq<u8>,
    server: SocketAddr,
    addrs: Seq<SocketAddr>,
    full: Seq<SocketAddr>,
)
    requires
        s.len() > 0,
        s[0] == 0x13,
        addr_stands(s, 1, server),
        addrs_stand(s, 1 + addr_width(server), addrs),
        0 < addrs.len() <= 20,
        s.len() >= addr_width(server) + addrs_width(addrs) + 17,
        addrs.len() == 20 || s.len() == addr_width(server) + addrs_width(addrs) + 17,
        full.len() == 20,
        forall|i: int|
            0 <= i < 20 ==> #[trigger] full[i] == (if i < addrs.len() {
                addrs[i]
            } else {
                addrs[0]
            }),
    ensures
        ({
            let n = addr_width(server);
            let m = addrs_width(addrs);
            parse_body(s) == Ok::<BodyView, CodecError>(
                FrameBody::NewIncomingConnection {
                    server_address: server,
                    system_addresses: full,
                    request_timestamp: signed64(s, 1 + n + m) as i64,
                    accepted_timestamp: signed64(s, 9 + n + m) as i64,
                },
            )
        }),
{
    let n = addr_width(server);
    let m = addrs_width(addrs);
    lemma_widths_positive(addrs);
    lemma_type_of(s[0], PackType::NewIncomingConnection);
    lemma_addr_stands_read(s, 1, server);
    lemma_addrs_read(s, 1 + n, addrs, full);
    lemma_stamp_read(s, 1 + n + m);
    lemma_stamp_read(s, 9 + n + m);
}

} // verus!
