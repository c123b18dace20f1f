//! Acknowledgements: the sequence numbers that arrived, or that did not, in compressed form.
use std::collections::VecDeque;

use bytes::BytesMut;
use vstd::prelude::*;

use crate::buf::{get_u16, get_u8, put_u16, put_u8, remaining, Contents};
use crate::errors::CodecError;
use crate::packet::address::SIZED;
use crate::uint24::{u24, U24_RANGE};
use crate::wire::{
    be_at, be_bytes, is_tail, le_at, lemma_be_roundtrip, lemma_le_roundtrip, lemma_pow256_values,
    lemma_tail_trans,
};

verus! {

/// The most sequence numbers that one ACK or NACK may cover.
pub const MAX_ACKNOWLEDGEMENT_PACKETS: usize = 8192;

/// Announces a record that holds the first and the last number of a run.
pub const RECORD_RANGE: u8 = 0;

/// Announces a record that holds one number.
pub const RECORD_SINGLE: u8 = 1;

/// A run of consecutive sequence numbers.
#[derive(Debug, Clone, Copy, PartialEq, Eq, Structural)]
pub enum Record {
    /// All numbers from the first to the second, both included. It takes 7 bytes.
    Range(u24, u24),
    /// The one number. It takes 4 bytes.
    Single(u24),
}

impl Record {
    /// The numbers fit in 24 bits.
    pub open spec fn wf(self) -> bool {
        self.first().wf() && self.last().wf()
    }

    /// The first number of the run.
    pub open spec fn first(self) -> u24 {
        match self {
            Record::Range(start, _) => start,
            Record::Single(idx) => idx,
        }
    }

    /// The last number of the run.
    pub open spec fn last(self) -> u24 {
        match self {
            Record::Range(_, end) => end,
            Record::Single(idx) => idx,
        }
    }

    /// The numbers of the run, in order.
    pub open spec fn expand(self) -> Seq<u24> {
        if self.first().0 <= self.last().0 {
            Seq::new(
                (self.last().0 - self.first().0 + 1) as nat,
                |i: int| u24((self.first().0 + i) as u32),
            )
        } else {
            Seq::empty()
        }
    }

    /// How many numbers the record stands for, counted modulo 2 to the power of 24.
    pub open spec fn count(self) -> nat {
        match self {
            Record::Range(start, end) => ((end.0 - start.0 + 1) % U24_RANGE as int) as nat,
            Record::Single(_) => 1,
        }
    }

    /// The record as it is written in a packet.
    pub open spec fn bytes(self) -> Seq<u8> {
        match self {
            Record::Range(start, end) => seq![RECORD_RANGE] + start.bytes() + end.bytes(),
            Record::Single(idx) => seq![RECORD_SINGLE] + idx.bytes(),
        }
    }

    /// How many bytes the record takes in a packet.
    pub open spec fn size(self) -> nat {
        match self {
            Record::Range(_, _) => 7,
            Record::Single(_) => 4,
        }
    }

    /// The record that `s` starts with, and how many bytes it takes.
    pub open spec fn parse(s: Seq<u8>) -> Result<(Record, int), CodecError> {
        if s.len() < 1 {
            Err(CodecError::InvalidPacketLength(SIZED))
        } else if s[0] == RECORD_RANGE {
            if s.len() < 7 {
                Err(CodecError::InvalidPacketLength(SIZED))
            } else {
                Ok((Record::Range(u24(le_at(s, 1, 3) as u32), u24(le_at(s, 4, 3) as u32)), 7))
            }
        } else if s[0] == RECORD_SINGLE {
            if s.len() < 4 {
                Err(CodecError::InvalidPacketLength(SIZED))
            } else {
                Ok((Record::Single(u24(le_at(s, 1, 3) as u32)), 4))
            }
        } else {
            Err(CodecError::InvalidRecordType(s[0]))
        }
    }

    fn read(buf: &mut BytesMut) -> (r: Result<Record, CodecError>)
        ensures
            match Record::parse(old(buf).seq()) {
                Ok((v, n)) => r == Ok::<Record, CodecError>(v) && final(buf).seq() == old(
                    buf,
                ).seq().skip(n) && v.wf() && n <= old(buf).seq().len(),
                Err(e) => r == Err::<Record, CodecError>(e),
            },
            is_tail(final(buf).seq(), old(buf).seq()),
    {
        let ghost s = buf.seq();
        if remaining(buf) < 1 {
            return Err(CodecError::InvalidPacketLength(SIZED));
        }
        let record_type: u8 = get_u8(buf);
        match record_type {
            RECORD_RANGE => {
                if remaining(buf) < 6 {
                    return Err(CodecError::InvalidPacketLength(SIZED));
                }
                assert(buf.seq().subrange(0, 3) =~= s.subrange(1, 4));
                let start = u24::read(buf);
                assert(buf.seq().subrange(0, 3) =~= s.subrange(4, 7));
                let end = u24::read(buf);
                assert(buf.seq() =~= s.skip(7));
                Ok(Record::Range(start, end))
            },
            RECORD_SINGLE => {
                if remaining(buf) < 3 {
                    return Err(CodecError::InvalidPacketLength(SIZED));
                }
                assert(buf.seq().subrange(0, 3) =~= s.subrange(1, 4));
                let idx = u24::read(buf);
                assert(buf.seq() =~= s.skip(4));
                Ok(Record::Single(idx))
            },
            _ => Err(CodecError::InvalidRecordType(record_type)),
        }
    }

    fn write(self, buf: &mut BytesMut)
        ensures
            final(buf).seq() == old(buf).seq() + self.bytes(),
    {
        match self {
            Record::Range(start, end) => {
                put_u8(buf, RECORD_RANGE);
                start.write(buf);
                end.write(buf);
            },
            Record::Single(idx) => {
                put_u8(buf, RECORD_SINGLE);
                idx.write(buf);
            },
        }
        assert(buf.seq() =~= old(buf).seq() + self.bytes());
    }

    /// How many sequence numbers the record covers.
    pub fn ack_cnt(&self) -> (r: usize)
        requires
            self.wf(),
        ensures
            r == self.count(),
            r <= U24_RANGE,
    {
        match self {
            Record::Range(start, end) => {
                if end.0 >= start.0 {
                    ((end.0 - start.0 + 1) % U24_RANGE) as usize
                } else {
                    ((U24_RANGE - start.0 + end.0 + 1) % U24_RANGE) as usize
                }
            },
            Record::Single(_) => 1,
        }
    }
}

/// The bytes of records written one after the other.
pub open spec fn records_bytes(rs: Seq<Record>) -> Seq<u8>
    decreases rs.len(),
{
    if rs.len() == 0 {
        Seq::empty()
    } else {
        rs[0].bytes() + records_bytes(rs.drop_first())
    }
}

/// How many bytes the records take in a packet.
pub open spec fn records_size(rs: Seq<Record>) -> nat
    decreases rs.len(),
{
    if rs.len() == 0 {
        0
    } else {
        records_size(rs.drop_last()) + rs.last().size()
    }
}

/// How many sequence numbers the records stand for.
pub open spec fn records_count(rs: Seq<Record>) -> nat
    decreases rs.len(),
{
    if rs.len() == 0 {
        0
    } else {
        records_count(rs.drop_last()) + rs.last().count()
    }
}

/// The sequence numbers of all records, in order.
pub open spec fn records_expand(rs: Seq<Record>) -> Seq<u24>
    decreases rs.len(),
{
    if rs.len() == 0 {
        Seq::empty()
    } else {
        records_expand(rs.drop_last()) + rs.last().expand()
    }
}

/// All numbers of all records fit in 24 bits.
pub open spec fn records_wf(rs: Seq<Record>) -> bool {
    forall|i: int| 0 <= i < rs.len() ==> (#[trigger] rs[i]).wf()
}

/// The records that `s` starts with, where `cnt` of them are announced and `total` sequence
/// numbers were covered before; and how many bytes they take.
pub open spec fn parse_records(s: Seq<u8>, cnt: nat, total: nat) -> Result<
    (Seq<Record>, int),
    CodecError,
>
    decreases cnt,
{
    if cnt == 0 {
        Ok((Seq::empty(), 0))
    } else {
        match Record::parse(s) {
            Err(e) => Err(e),
            Ok((v, n)) => {
                if total + v.count() > MAX_ACKNOWLEDGEMENT_PACKETS {
                    Err(CodecError::AckCountExceed((total + v.count()) as usize))
                } else {
                    after_records(
                        seq![v],
                        n,
                        parse_records(s.skip(n), (cnt - 1) as nat, total + v.count()),
                    )
                }
            },
        }
    }
}

/// What a parse yields once the records before, in the bytes before, are put in front.
pub open spec fn after_records(
    rs: Seq<Record>,
    n: int,
    rest: Result<(Seq<Record>, int), CodecError>,
) -> Result<(Seq<Record>, int), CodecError> {
    match rest {
        Ok((more, m)) => Ok((rs + more, n + m)),
        Err(e) => Err(e),
    }
}

/// The records of an ACK or NACK that starts `s` behind its type, and how many bytes it takes.
pub open spec fn parse_ack(s: Seq<u8>) -> Result<(Seq<Record>, int), CodecError> {
    if s.len() < 2 {
        Err(CodecError::InvalidPacketLength(SIZED))
    } else {
        after_records(Seq::empty(), 2, parse_records(s.skip(2), be_at(s, 0, 2), 0))
    }
}

/// An ACK or NACK with these records, behind its type.
pub open spec fn ack_bytes(rs: Seq<Record>) -> Seq<u8> {
    be_bytes(rs.len(), 2) + records_bytes(rs)
}

/// The runs of consecutive numbers that make up `s`, in order.
pub open spec fn runs(s: Seq<u24>) -> Seq<Record>
    decreases s.len(),
{
    if s.len() == 0 {
        Seq::empty()
    } else {
        let before = runs(s.drop_last());
        let n = s.last();
        if before.len() > 0 && n.0 == before.last().last().0 + 1 {
            before.drop_last().push(Record::Range(before.last().first(), n))
        } else {
            before.push(Record::Single(n))
        }
    }
}

/// A packet with the first `n` of the numbers of `s` has room for one record more.
pub open spec fn has_room(s: Seq<u24>, n: int, mtu: u16) -> bool {
    3 + records_size(runs(s.take(n))) + 4 <= mtu
}

/// An ACK or a NACK: which one it is stands outside.
#[derive(Debug, Clone, PartialEq, Eq)]
pub struct AckOrNack {
    pub records: Vec<Record>,
}

impl AckOrNack {
    /// All numbers fit in 24 bits.
    pub open spec fn wf(self) -> bool {
        records_wf(self.records@)
    }

    /// Compresses the sequence numbers at the front of `sorted_seq_nums`: consecutive numbers
    /// become one `Record::Range`, others a `Record::Single` each. It takes numbers as long as
    /// the packet has room for one record more, and leaves the others where they are.
    pub fn extend_from(sorted_seq_nums: &mut VecDeque<u24>, mtu: u16) -> (r: Option<AckOrNack>)
        requires
            mtu >= 7,
        ensures
            r is None <==> old(sorted_seq_nums)@.len() == 0,
            r is None ==> final(sorted_seq_nums)@ == old(sorted_seq_nums)@,
            r matches Some(ack) ==> {
                let s = old(sorted_seq_nums)@;
                let n = s.len() - final(sorted_seq_nums)@.len();
                &&& 1 <= n
                &&& final(sorted_seq_nums)@ == s.skip(n)
                &&& ack.records@ == runs(s.take(n))
                &&& n == s.len() || !has_room(s, n, mtu)
                &&& forall|k: int| 1 <= k < n ==> has_room(s, k, mtu)
                &&& 3 + records_size(ack.records@) <= mtu
            },
    {
        let ghost s = sorted_seq_nums@;
        let mut first: u24 = match sorted_seq_nums.pop_front() {
            Some(n) => n,
            None => {
                return None;
            },
        };
        let mut records: Vec<Record> = Vec::new();
        let mut last: u24 = first;
        // the packet type, the count of records and the first record are accounted for
        let mut room: u16 = mtu - 7;
        let ghost mut n: int = 1;
        proof {
            assert(s.take(1).drop_last() =~= s.take(0));
            assert(runs(s.take(0)) =~= Seq::<Record>::empty());
            assert(runs(s.take(1)) =~= seq![Record::Single(first)]);
            lemma_records_size_push(Seq::empty(), Record::Single(first));
            assert(records@.push(closed_run(first, last)) =~= runs(s.take(1)));
        }
        while room >= 4
            invariant
                1 <= n <= s.len(),
                sorted_seq_nums@ == s.skip(n),
                last == s[n - 1],
                first.0 <= last.0,
                records@.push(closed_run(first, last)) == runs(s.take(n)),
                closed_run(first, last).last() == last,
                3 + records_size(runs(s.take(n))) + room == mtu,
                forall|k: int| 1 <= k < n ==> has_room(s, k, mtu),
            ensures
                n == s.len() || !has_room(s, n, mtu),
            decreases s.len() - n,
        {
            let seq_num: u24 = match sorted_seq_nums.pop_front() {
                Some(v) => v,
                None => {
                    break;
                },
            };
            let ghost before = runs(s.take(n));
            proof {
                assert(s.take(n + 1).drop_last() =~= s.take(n));
                assert(sorted_seq_nums@ =~= s.skip(n + 1));
                assert(has_room(s, n, mtu));
                lemma_records_size_push(records@, closed_run(first, last));
                assert(before.drop_last() =~= records@);
            }
            if last.0 < u32::MAX && seq_num.0 == last.0 + 1 {
                if first.0 == last.0 {
                    room = room - 3;
                }
                proof {
                    lemma_records_size_push(records@, closed_run(first, seq_num));
                    assert(runs(s.take(n + 1)) =~= records@.push(closed_run(first, seq_num)));
                }
                last = seq_num;
            } else {
                room = room - 4;
                proof {
                    lemma_records_size_push(before, Record::Single(seq_num));
                }
                if first.0 != last.0 {
                    records.push(Record::Range(first, last));
                } else {
                    records.push(Record::Single(first));
                }
                first = seq_num;
                last = seq_num;
            }
            proof {
                n = n + 1;
            }
        }
        if first.0 != last.0 {
            records.push(Record::Range(first, last));
        } else {
            records.push(Record::Single(first));
        }
        Some(AckOrNack { records })
    }

    /// Takes an ACK or NACK, whose type was taken before, off the front of `buf`.
    pub(crate) fn read(buf: &mut BytesMut) -> (r: Result<AckOrNack, CodecError>)
        ensures
            match parse_ack(old(buf).seq()) {
                Ok((rs, n)) => r is Ok && r->Ok_0.records@ == rs && final(buf).seq() == old(
                    buf,
                ).seq().skip(n) && r->Ok_0.wf() && 0 <= n <= old(buf).seq().len(),
                Err(e) => r == Err::<AckOrNack, CodecError>(e),
            },
            is_tail(final(buf).seq(), old(buf).seq()),
    {
        let ghost s = buf.seq();
        if remaining(buf) < 2 {
            return Err(CodecError::InvalidPacketLength(SIZED));
        }
        assert(s.take(2) =~= s.subrange(0, 2));
        let record_cnt: u16 = get_u16(buf);
        let ghost body = buf.seq();
        let mut ack_cnt: usize = 0;
        let mut records: Vec<Record> = Vec::new();
        let mut i: u16 = 0;
        proof {
            assert(body.skip(0) =~= body);
            let all = parse_records(body, record_cnt as nat, 0);
            if let Ok((rs, m)) = all {
                assert(Seq::<Record>::empty() + rs =~= rs);
            }
        }
        while i < record_cnt
            invariant
                i <= record_cnt,
                s == old(buf).seq(),
                s.len() >= 2,
                body == s.skip(2),
                record_cnt == be_at(s, 0, 2),
                is_tail(buf.seq(), body),
                ack_cnt <= MAX_ACKNOWLEDGEMENT_PACKETS,
                records_wf(records@),
                parse_records(body, record_cnt as nat, 0) == after_records(
                    records@,
                    body.len() - buf.seq().len(),
                    parse_records(buf.seq(), (record_cnt - i) as nat, ack_cnt as nat),
                ),
            decreases record_cnt - i,
        {
            let ghost here = buf.seq();
            let ghost done = records@;
            let record = match Record::read(buf) {
                Ok(v) => v,
                Err(e) => {
                    proof {
                        lemma_tail_trans(buf.seq(), here, body);
                        lemma_tail_trans(buf.seq(), body, s);
                    }
                    return Err(e);
                },
            };
            proof {
                lemma_tail_trans(buf.seq(), here, body);
                lemma_tail_trans(buf.seq(), body, s);
            }
            ack_cnt = ack_cnt + record.ack_cnt();
            if ack_cnt > MAX_ACKNOWLEDGEMENT_PACKETS {
                return Err(CodecError::AckCountExceed(ack_cnt));
            }
            records.push(record);
            proof {
                let rest = parse_records(buf.seq(), (record_cnt - i - 1) as nat, ack_cnt as nat);
                if let Ok((more, m)) = rest {
                    assert(done + (seq![record] + more) =~= records@ + more);
                }
            }
            i = i + 1;
        }
        proof {
            lemma_tail_trans(buf.seq(), body, s);
            assert(records@ + Seq::<Record>::empty() =~= records@);
            assert(Seq::<Record>::empty() + records@ =~= records@);
            assert(s.skip(2).skip(body.len() - buf.seq().len()) =~= s.skip(
                2 + (body.len() - buf.seq().len()),
            ));
        }
        Ok(AckOrNack { records })
    }

    /// Appends the ACK or NACK, without its type, to `buf`.
    pub fn write(self, buf: &mut BytesMut)
        requires
            self.records@.len() < u16::MAX,
        ensures
            final(buf).seq() == old(buf).seq() + ack_bytes(self.records@),
    {
        let cnt: usize = self.records.len();
        put_u16(buf, cnt as u16);
        let ghost head = buf.seq();
        let mut i: usize = 0;
        assert(self.records@.take(0) =~= Seq::<Record>::empty());
        assert(buf.seq() =~= head + records_bytes(self.records@.take(0)));
        while i < cnt
            invariant
                i <= cnt,
                cnt == self.records@.len(),
                buf.seq() == head + records_bytes(self.records@.take(i as int)),
            decreases cnt - i,
        {
            self.records[i].write(buf);
            proof {
                let r = self.records@[i as int];
                lemma_records_bytes_push(self.records@.take(i as int), r);
                assert(self.records@.take(i as int).push(r) =~= self.records@.take(i + 1));
                assert(buf.seq() =~= head + records_bytes(self.records@.take(i + 1)));
            }
            i = i + 1;
        }
        assert(self.records@.take(cnt as int) =~= self.records@);
        assert(buf.seq() =~= old(buf).seq() + ack_bytes(self.records@));
    }

    /// How many sequence numbers the records cover.
    pub fn total_cnt(&self) -> (r: usize)
        requires
            self.wf(),
            records_count(self.records@) <= usize::MAX,
        ensures
            r == records_count(self.records@),
    {
        let mut total: usize = 0;
        let mut i: usize = 0;
        assert(self.records@.take(0) =~= Seq::<Record>::empty());
        while i < self.records.len()
            invariant
                i <= self.records@.len(),
                self.wf(),
                records_count(self.records@) <= usize::MAX,
                total == records_count(self.records@.take(i as int)),
            decreases self.records@.len() - i,
        {
            proof {
                assert(self.records@.take(i + 1).drop_last() =~= self.records@.take(i as int));
                lemma_records_count_prefix(self.records@, i + 1);
            }
            total = total + self.records[i].ack_cnt();
            i = i + 1;
        }
        assert(self.records@.take(i as int) =~= self.records@);
        total
    }
}

/// The record of a run that starts with `first` and ends with `last`.
pub open spec fn closed_run(first: u24, last: u24) -> Record {
    if first.0 != last.0 {
        Record::Range(first, last)
    } else {
        Record::Single(first)
    }
}

proof fn lemma_records_size_push(rs: Seq<Record>, r: Record)
    ensures
        records_size(rs.push(r)) == records_size(rs) + r.size(),
{
    assert(rs.push(r).drop_last() =~= rs);
}

proof fn lemma_records_bytes_push(rs: Seq<Record>, r: Record)
    ensures
        records_bytes(rs.push(r)) == records_bytes(rs) + r.bytes(),
    decreases rs.len(),
{
    if rs.len() == 0 {
        assert(rs.push(r).drop_first() =~= rs);
        assert(records_bytes(rs.push(r)) =~= records_bytes(rs) + r.bytes());
    } else {
        lemma_records_bytes_push(rs.drop_first(), r);
        assert(rs.push(r).drop_first() =~= rs.drop_first().push(r));
        assert(records_bytes(rs.push(r)) =~= records_bytes(rs) + r.bytes());
    }
}

proof fn lemma_records_count_prefix(rs: Seq<Record>, n: int)
    requires
        0 <= n <= rs.len(),
    ensures
        records_count(rs.take(n)) <= records_count(rs),
    decreases rs.len() - n,
{
    if n == rs.len() {
        assert(rs.take(n) =~= rs);
    } else {
        assert(rs.take(n + 1).drop_last() =~= rs.take(n));
        lemma_records_count_prefix(rs, n + 1);
    }
}

/// A record takes as many bytes as its size says.
pub proof fn lemma_record_len(r: Record)
    ensures
        r.bytes().len() == r.size(),
{
    lemma_le_roundtrip(r.first().0 as nat, 3);
    lemma_le_roundtrip(r.last().0 as nat, 3);
}

/// An ACK or NACK takes the bytes of its records, and 2 for their count.
pub proof fn lemma_ack_len(rs: Seq<Record>)
    ensures
        ack_bytes(rs).len() == 2 + records_size(rs),
    decreases rs.len(),
{
    lemma_be_roundtrip(rs.len(), 2);
    if rs.len() > 0 {
        lemma_ack_len(rs.drop_last());
        lemma_be_roundtrip(rs.drop_last().len(), 2);
        lemma_record_len(rs.last());
        lemma_records_bytes_push(rs.drop_last(), rs.last());
        assert(rs.drop_last().push(rs.last()) =~= rs);
    }
}

/// A record that was written is read back as it was, whatever follows it.
pub proof fn lemma_record_roundtrip(r: Record, rest: Seq<u8>)
    requires
        r.wf(),
    ensures
        Record::parse(r.bytes() + rest) == Ok::<(Record, int), CodecError>((r, r.size() as int)),
        (r.bytes() + rest).skip(r.size() as int) == rest,
{
    lemma_record_len(r);
    lemma_pow256_values();
    lemma_le_roundtrip(r.first().0 as nat, 3);
    lemma_le_roundtrip(r.last().0 as nat, 3);
    let s = r.bytes() + rest;
    assert(s.skip(r.size() as int) =~= rest);
    match r {
        Record::Range(start, end) => {
            assert(s.subrange(1, 4) =~= start.bytes());
            assert(s.subrange(4, 7) =~= end.bytes());
        },
        Record::Single(idx) => {
            assert(s.subrange(1, 4) =~= idx.bytes());
        },
    }
}

proof fn lemma_records_count_first(rs: Seq<Record>)
    requires
        rs.len() > 0,
    ensures
        records_count(rs) == rs[0].count() + records_count(rs.drop_first()),
    decreases rs.len(),
{
    if rs.len() > 1 {
        lemma_records_count_first(rs.drop_last());
        assert(rs.drop_last().drop_first() =~= rs.drop_first().drop_last());
    } else {
        assert(rs.drop_last() =~= rs.drop_first());
    }
}

proof fn lemma_records_roundtrip(rs: Seq<Record>, rest: Seq<u8>, total: nat)
    requires
        records_wf(rs),
        total + records_count(rs) <= MAX_ACKNOWLEDGEMENT_PACKETS,
    ensures
        parse_records(records_bytes(rs) + rest, rs.len(), total) == Ok::<
            (Seq<Record>, int),
            CodecError,
        >((rs, records_bytes(rs).len() as int)),
    decreases rs.len(),
{
    let s = records_bytes(rs) + rest;
    if rs.len() > 0 {
        let tail = rs.drop_first();
        lemma_records_count_first(rs);
        lemma_record_len(rs[0]);
        assert(s =~= rs[0].bytes() + (records_bytes(tail) + rest));
        lemma_record_roundtrip(rs[0], records_bytes(tail) + rest);
        lemma_records_roundtrip(tail, rest, total + rs[0].count());
        assert(seq![rs[0]] + tail =~= rs);
    } else {
        assert(rs =~= Seq::<Record>::empty());
    }
}

/// An ACK or NACK that was written is read back as it was, whatever follows it, as long as it
/// covers no more sequence numbers than are accepted.
pub proof fn lemma_ack_roundtrip(rs: Seq<Record>, rest: Seq<u8>)
    requires
        records_wf(rs),
        rs.len() <= u16::MAX,
        records_count(rs) <= MAX_ACKNOWLEDGEMENT_PACKETS,
    ensures
        parse_ack(ack_bytes(rs) + rest) == Ok::<(Seq<Record>, int), CodecError>(
            (rs, ack_bytes(rs).len() as int),
        ),
{
    let s = ack_bytes(rs) + rest;
    lemma_be_roundtrip(rs.len(), 2);
    lemma_pow256_values();
    assert(s.subrange(0, 2) =~= be_bytes(rs.len(), 2));
    assert(s.skip(2) =~= records_bytes(rs) + rest);
    lemma_records_roundtrip(rs, rest, 0);
    assert(Seq::<Record>::empty() + rs =~= rs);
}

/// Compression loses nothing: the runs of `s` stand for the numbers of `s`, in order. Each run
/// goes upwards, and a range holds more than one number.
pub proof fn lemma_runs_expand(s: Seq<u24>)
    ensures
        records_expand(runs(s)) == s,
        s.len() > 0 ==> runs(s).len() > 0 && runs(s).last().last() == s.last(),
        forall|i: int| 0 <= i < runs(s).len() ==> ((#[trigger] runs(s)[i]) is Range
            ==> runs(s)[i].first().0 < runs(s)[i].last().0),
    decreases s.len(),
{
    if s.len() > 0 {
        let init = s.drop_last();
        let before = runs(init);
        let n = s.last();
        lemma_runs_expand(init);
        if before.len() > 0 && n.0 == before.last().last().0 + 1 {
            let r = before.last();
            let merged = Record::Range(r.first(), n);
            assert(runs(s).drop_last() =~= before.drop_last());
            assert(runs(s).last() == merged);
            assert(merged.expand() =~= r.expand().push(n));
            assert(records_expand(before.drop_last()) + r.expand() == init);
            assert(records_expand(before.drop_last()) + r.expand().push(n) =~= init.push(n));
            assert(init.push(n) =~= s);
        } else {
            assert(runs(s).drop_last() =~= before);
            assert(runs(s).last() == Record::Single(n));
            assert(Record::Single(n).expand() =~= seq![n]);
            assert(init + seq![n] =~= s);
        }
    }
}

/// Compression is complete: no two neighbouring runs of `s` could be one.
pub proof fn lemma_runs_maximal(s: Seq<u24>)
    ensures
        forall|i: int| 0 < i < runs(s).len() ==> (#[trigger] runs(s)[i]).first().0 != runs(s)[i
            - 1].last().0 + 1,
    decreases s.len(),
{
    if s.len() > 0 {
        let before = runs(s.drop_last());
        lemma_runs_maximal(s.drop_last());
        lemma_runs_expand(s.drop_last());
    }
}

/// The runs of fewer than 2 to the power of 24 numbers cover as many numbers as there are.
pub proof fn lemma_runs_count(s: Seq<u24>)
    requires
        s.len() < U24_RANGE,
        forall|i: int| 0 <= i < s.len() ==> (#[trigger] s[i]).wf(),
    ensures
        records_count(runs(s)) == s.len(),
        records_wf(runs(s)),
    decreases s.len(),
{
    if s.len() > 0 {
        let init = s.drop_last();
        let before = runs(init);
        let n = s.last();
        assert(s[s.len() - 1].wf());
        assert forall|i: int| 0 <= i < init.len() implies (#[trigger] init[i]).wf() by {
            assert(s[i].wf());
        }
        lemma_runs_count(init);
        lemma_runs_expand(init);
        if before.len() > 0 && n.0 == before.last().last().0 + 1 {
            let r = before.last();
            assert(before[before.len() - 1].wf());
            lemma_run_within(init);
            assert(runs(s).drop_last() =~= before.drop_last());
            assert(Record::Range(r.first(), n).count() == r.count() + 1);
        } else {
            assert(runs(s).drop_last() =~= before);
        }
    }
}

/// The runs never cover more numbers than there are.
pub proof fn lemma_runs_count_bound(s: Seq<u24>)
    requires
        forall|i: int| 0 <= i < s.len() ==> (#[trigger] s[i]).wf(),
    ensures
        records_count(runs(s)) <= s.len(),
        records_wf(runs(s)),
    decreases s.len(),
{
    if s.len() > 0 {
        let init = s.drop_last();
        let before = runs(init);
        let n = s.last();
        assert(s[s.len() - 1].wf());
        assert forall|i: int| 0 <= i < init.len() implies (#[trigger] init[i]).wf() by {
            assert(s[i].wf());
        }
        lemma_runs_count_bound(init);
        if before.len() > 0 && n.0 == before.last().last().0 + 1 {
            let r = before.last();
            assert(before[before.len() - 1].wf());
            lemma_run_within(init);
            assert(runs(s).drop_last() =~= before.drop_last());
            assert(Record::Range(r.first(), n).count() <= r.count() + 1);
        } else {
            assert(runs(s).drop_last() =~= before);
        }
    }
}

/// One number more takes at most one record more.
pub proof fn lemma_runs_size_step(s: Seq<u24>)
    requires
        s.len() > 0,
    ensures
        records_size(runs(s)) <= records_size(runs(s.drop_last())) + 4,
{
    let before = runs(s.drop_last());
    let n = s.last();
    if before.len() > 0 && n.0 == before.last().last().0 + 1 {
        assert(runs(s).drop_last() =~= before.drop_last());
    } else {
        assert(runs(s).drop_last() =~= before);
    }
}

/// Every record takes at least 4 bytes.
pub proof fn lemma_records_size_bound(rs: Seq<Record>)
    ensures
        4 * rs.len() <= records_size(rs),
    decreases rs.len(),
{
    if rs.len() > 0 {
        lemma_records_size_bound(rs.drop_last());
    }
}

/// The last run covers no more numbers than there are.
proof fn lemma_run_within(s: Seq<u24>)
    requires
        s.len() > 0,
    ensures
        runs(s).len() > 0,
        runs(s).last() is Single ==> runs(s).last().count() == 1,
        runs(s).last().first().0 <= runs(s).last().last().0,
        runs(s).last().last().0 - runs(s).last().first().0 + 1 <= s.len(),
    decreases s.len(),
{
    if s.len() > 1 {
        lemma_run_within(s.drop_last());
    } else {
        assert(runs(s.drop_last()) =~= Seq::<Record>::empty());
    }
}

/// A record covers the numbers from its first one up to its last one, in order, and counts them. A
/// record whose last number lies before its first covers none.
pub proof fn lemma_record_covers(a: u24, b: u24)
    requires
        a.wf(),
        b.wf(),
    ensures
        a.0 <= b.0 ==> {
            let e = Record::Range(a, b).expand();
            &&& e.len() == b.0 - a.0 + 1
            &&& forall|i: int| 0 <= i < e.len() ==> (#[trigger] e[i]).0 == a.0 + i
            &&& b.0 - a.0 + 1 < 0x100_0000 ==> Record::Range(a, b).count() == b.0 - a.0 + 1
        },
        a.0 > b.0 ==> Record::Range(a, b).expand().len() == 0,
        Record::Single(a).expand() == seq![a],
        Record::Single(a).count() == 1,
{
    assert(Record::Single(a).expand() =~= seq![a]);
}

proof fn lemma_records_refused(rs: Seq<Record>, rest: Seq<u8>, total: nat) -> (k: int)
    requires
        records_wf(rs),
        total <= MAX_ACKNOWLEDGEMENT_PACKETS,
        total + records_count(rs) > MAX_ACKNOWLEDGEMENT_PACKETS,
    ensures
        0 < k <= rs.len(),
        total + records_count(rs.take(k - 1)) <= MAX_ACKNOWLEDGEMENT_PACKETS,
        total + records_count(rs.take(k)) > MAX_ACKNOWLEDGEMENT_PACKETS,
        parse_records(records_bytes(rs) + rest, rs.len(), total) == Err::<
            (Seq<Record>, int),
            CodecError,
        >(CodecError::AckCountExceed((total + records_count(rs.take(k))) as usize)),
    decreases rs.len(),
{
    let s = records_bytes(rs) + rest;
    let first = rs[0];
    let tail = rs.drop_first();
    lemma_records_count_first(rs);
    lemma_record_roundtrip(first, records_bytes(tail) + rest);
    assert(s =~= first.bytes() + (records_bytes(tail) + rest));
    assert(rs.take(1).drop_last() =~= Seq::empty());
    assert(rs.take(0) =~= Seq::empty());
    if total + first.count() > MAX_ACKNOWLEDGEMENT_PACKETS {
        1
    } else {
        assert forall|i: int| 0 <= i < tail.len() implies (#[trigger] tail[i]).wf() by {
            assert(rs[i + 1].wf());
        }
        let k = lemma_records_refused(tail, rest, total + first.count());
        lemma_records_count_first(rs.take(k + 1));
        assert(rs.take(k + 1).drop_first() =~= tail.take(k));
        lemma_records_count_first(rs.take(k));
        assert(rs.take(k).drop_first() =~= tail.take(k - 1));
        k + 1
    }
}

/// An ACK or NACK that covers more than 8192 numbers is refused, at the first record that goes
/// beyond, and the error names how many numbers the records up to that one cover.
pub proof fn lemma_ack_refused(rs: Seq<Record>, rest: Seq<u8>)
    requires
        records_wf(rs),
        rs.len() <= u16::MAX,
        records_count(rs) > 8192,
    ensures
        exists|k: int|
            {
                &&& 0 < k <= rs.len()
                &&& records_count(rs.take(k - 1)) <= 8192
                &&& records_count(#[trigger] rs.take(k)) > 8192
                &&& parse_ack(ack_bytes(rs) + rest) == Err::<(Seq<Record>, int), CodecError>(
                    CodecError::AckCountExceed(records_count(rs.take(k)) as usize),
                )
            },
{
    let s = ack_bytes(rs) + rest;
    lemma_be_roundtrip(rs.len(), 2);
    lemma_pow256_values();
    assert(s.subrange(0, 2) =~= be_bytes(rs.len(), 2));
    assert(s.skip(2) =~= records_bytes(rs) + rest);
    let k = lemma_records_refused(rs, rest, 0);
    assert(records_count(rs.take(k)) > 8192);
}

/// What records cover, and how many numbers they count, adds up: a single record covers its own
/// numbers, and two runs of records cover those of the first, then those of the second.
pub proof fn lemma_records_add(a: Seq<Record>, b: Seq<Record>)
    ensures
        records_expand(a + b) == records_expand(a) + records_expand(b),
        records_count(a + b) == records_count(a) + records_count(b),
        b.len() == 1 ==> records_expand(b) == b[0].expand() && records_count(b) == b[0].count(),
        b.len() == 0 ==> records_expand(b).len() == 0 && records_count(b) == 0,
    decreases b.len(),
{
    if b.len() == 0 {
        assert(a + b =~= a);
        assert(records_expand(a) + records_expand(b) =~= records_expand(a));
    } else {
        let init = b.drop_last();
        lemma_records_add(a, init);
        assert((a + b).drop_last() =~= a + init);
        assert(records_expand(a + b) =~= records_expand(a) + records_expand(b));
        if b.len() == 1 {
            assert(records_expand(init) + b[0].expand() =~= b[0].expand());
        }
    }
}

} // verus!
