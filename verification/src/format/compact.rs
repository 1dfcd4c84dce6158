//! The compact layout of trace files: small events, a footer without numbers,
//! and readers that make do with what is left of a truncated file.

use vstd::prelude::*;

use super::header::{magic_bytes, ARCH_X86_64, ENDIAN_LE, HEADER_SIZE, MAGIC, VERSION};
use super::stream::{cut_short, failure_after, overwrite, zeros, ByteStream, StreamError};
use super::wire::{
    from_le, get_le, le_bytes, lemma_capacities, lemma_from_le_round_trip, lemma_le_len,
    lemma_le_round_trip, push_bytes, push_le,
};
use super::writer::{
    ascii, section_bytes, SECTION_ENTRY_SIZE, SECTION_ID_METADATA, TLV_HEADER_SIZE,
};

verus! {

/// The record type of a compact event.
pub const REC_TYPE_BASE_EVENT: u8 = 1;

/// The size of a compact event.
pub const BASE_EVENT_SIZE: usize = 23;

/// The size of a record: type, length and event.
pub const BASE_RECORD_SIZE: usize = 28;

/// Why a compact file could not be read.
#[derive(Debug, Clone)]
pub enum CompactError {
    /// The file does not start with the right bytes.
    BadMagic,
    /// A record is of a type that is not known.
    UnknownRecord,
    /// An event record has the wrong length.
    BadEventSize,
    Io(StreamError),
}

impl CompactError {
    /// The text of the error.
    pub open spec fn text(&self) -> Seq<char> {
        match self {
            CompactError::BadMagic => "bad magic"@,
            CompactError::UnknownRecord => "unknown rec_type"@,
            CompactError::BadEventSize => "bad event size"@,
            CompactError::Io(e) => e.text(),
        }
    }

    /// The error in words.
    pub fn message(&self) -> (s: String)
        ensures
            s@ == self.text(),
    {
        match self {
            CompactError::BadMagic => "bad magic".to_owned(),
            CompactError::UnknownRecord => "unknown rec_type".to_owned(),
            CompactError::BadEventSize => "bad event size".to_owned(),
            CompactError::Io(e) => e.message(),
        }
    }
}

/// The header of a compact file. Unused bytes are kept as they are.
#[derive(Debug, Clone, PartialEq)]
pub struct CompactHeader {
    pub version: u8,
    pub endianness: u8,
    pub host_arch: u8,
    pub reserved: u8,
    /// Where records end; zero if it was never written.
    pub data_section_end_offset: u64,
    pub section_table_offset: u64,
    pub feature_bitmap: [u8; 32],
    pub reserved_padding: [u8; 8],
}

/// A compact event.
#[derive(Debug, Clone, Copy, PartialEq, Eq, Structural)]
pub struct BaseEvent {
    pub event_id: u8,
    pub cpu: u16,
    pub pid: u32,
    pub tid: u32,
    pub timestamp_ns: u64,
    pub flags: u32,
}

// ---------------------------------------------------------------------------
// The mathematical model
// ---------------------------------------------------------------------------

/// What a [`CompactHeader`] stands for.
#[verifier::ext_equal]
pub struct CompactHeaderView {
    pub version: u8,
    pub endianness: u8,
    pub host_arch: u8,
    pub reserved: u8,
    pub data_section_end_offset: u64,
    pub section_table_offset: u64,
    pub feature_bitmap: Seq<u8>,
    pub reserved_padding: Seq<u8>,
}

impl View for CompactHeader {
    type V = CompactHeaderView;

    open spec fn view(&self) -> CompactHeaderView {
        CompactHeaderView {
            version: self.version,
            endianness: self.endianness,
            host_arch: self.host_arch,
            reserved: self.reserved,
            data_section_end_offset: self.data_section_end_offset,
            section_table_offset: self.section_table_offset,
            feature_bitmap: self.feature_bitmap@,
            reserved_padding: self.reserved_padding@,
        }
    }
}

/// The header that a file starts out with.
pub open spec fn blank_header() -> CompactHeaderView {
    CompactHeaderView {
        version: VERSION,
        endianness: ENDIAN_LE,
        host_arch: ARCH_X86_64,
        reserved: 0,
        data_section_end_offset: 0,
        section_table_offset: 0,
        feature_bitmap: zeros(32),
        reserved_padding: zeros(8),
    }
}

/// The wire form of a header.
pub open spec fn compact_header_bytes(h: CompactHeaderView) -> Seq<u8> {
    magic_bytes() + seq![h.version, h.endianness, h.host_arch, h.reserved] + le_bytes(
        h.data_section_end_offset as nat,
        8,
    ) + le_bytes(h.section_table_offset as nat, 8) + h.feature_bitmap + h.reserved_padding
}

/// The header that 64 bytes stand for.
pub open spec fn compact_header_from(b: Seq<u8>) -> CompactHeaderView {
    CompactHeaderView {
        version: b[4],
        endianness: b[5],
        host_arch: b[6],
        reserved: b[7],
        data_section_end_offset: from_le(b.subrange(8, 16)) as u64,
        section_table_offset: from_le(b.subrange(16, 24)) as u64,
        feature_bitmap: b.subrange(24, 56),
        reserved_padding: b.subrange(56, 64),
    }
}

/// The wire form of an event.
pub open spec fn base_bytes(e: BaseEvent) -> Seq<u8> {
    seq![e.event_id] + le_bytes(e.cpu as nat, 2) + le_bytes(e.pid as nat, 4) + le_bytes(
        e.tid as nat,
        4,
    ) + le_bytes(e.timestamp_ns as nat, 8) + le_bytes(e.flags as nat, 4)
}

/// The event that 23 bytes stand for.
pub open spec fn base_from(b: Seq<u8>) -> BaseEvent {
    BaseEvent {
        event_id: b[0],
        cpu: from_le(b.subrange(1, 3)) as u16,
        pid: from_le(b.subrange(3, 7)) as u32,
        tid: from_le(b.subrange(7, 11)) as u32,
        timestamp_ns: from_le(b.subrange(11, 19)) as u64,
        flags: from_le(b.subrange(19, 23)) as u32,
    }
}

/// The record of an event.
pub open spec fn base_record(e: BaseEvent) -> Seq<u8> {
    seq![REC_TYPE_BASE_EVENT] + le_bytes(BASE_EVENT_SIZE as nat, 4) + base_bytes(e)
}

/// The records of events.
pub open spec fn base_records(events: Seq<BaseEvent>) -> Seq<u8>
    decreases events.len(),
{
    if events.len() == 0 {
        Seq::empty()
    } else {
        base_records(events.drop_last()) + base_record(events.last())
    }
}

/// The text in the footer.
pub open spec fn footer_text() -> Seq<u8> {
    seq![68u8, 82, 79, 80, 95, 67, 79, 85, 78, 84, 61, 48]
}

/// Where the records of a file end.
pub open spec fn records_end(n: nat) -> int {
    HEADER_SIZE + BASE_RECORD_SIZE * n
}

/// The header of a complete file with `n` events.
pub open spec fn complete_header(n: nat) -> CompactHeaderView {
    CompactHeaderView {
        data_section_end_offset: records_end(n) as u64,
        section_table_offset: records_end(n) as u64,
        ..blank_header()
    }
}

/// A complete file: header, records, a table of one section, and that section.
pub open spec fn compact_file(events: Seq<BaseEvent>) -> Seq<u8> {
    let end = records_end(events.len());
    compact_header_bytes(complete_header(events.len())) + base_records(events) + section_bytes(
        SECTION_ID_METADATA,
        (end + SECTION_ENTRY_SIZE) as u64,
        12,
    ) + footer_text()
}

/// A file with the records of the first `n` events, and a header that does not
/// tell where they end.
pub open spec fn compact_start(events: Seq<BaseEvent>, n: int) -> Seq<u8> {
    compact_header_bytes(blank_header()) + base_records(events.take(n))
}

/// `b` is what may be left on an empty stream if a file cannot be written: its
/// parts are written one after the other, the header at last once more, and one
/// of these steps failed. Those before it are done, and no more than a part of it.
pub open spec fn compact_cut(events: Seq<BaseEvent>, b: Seq<u8>) -> bool {
    let n = events.len() as int;
    let table = section_bytes(
        SECTION_ID_METADATA,
        (records_end(events.len()) + SECTION_ENTRY_SIZE) as u64,
        12,
    );
    let all = compact_start(events, n);
    ||| cut_short(Seq::empty(), 0, compact_header_bytes(blank_header()), b)
    ||| exists|k: int|
        0 <= k < n && cut_short(
            #[trigger] compact_start(events, k),
            records_end(k as nat) as nat,
            base_record(events[k]),
            b,
        )
    ||| b == all
    ||| cut_short(all, all.len(), table, b)
    ||| cut_short(all + table, (all + table).len(), footer_text(), b)
    ||| b == all + table + footer_text()
    ||| cut_short(
        all + table + footer_text(),
        0,
        compact_header_bytes(complete_header(events.len())),
        b,
    )
}

/// What comes of reading a record.
pub enum Found {
    Event(BaseEvent),
    /// The bytes end within the record.
    Cut,
    Unknown,
    BadSize,
}

/// The record at `pos`.
pub open spec fn record_at(b: Seq<u8>, pos: int) -> Found {
    if pos + TLV_HEADER_SIZE > b.len() {
        Found::Cut
    } else {
        let length = from_le(b.subrange(pos + 1, pos + 5));
        let body = pos + TLV_HEADER_SIZE;
        if b[pos] != REC_TYPE_BASE_EVENT {
            if length > 0 && body + length > b.len() {
                Found::Cut
            } else {
                Found::Unknown
            }
        } else if length != BASE_EVENT_SIZE {
            Found::BadSize
        } else if body + BASE_EVENT_SIZE > b.len() {
            Found::Cut
        } else {
            Found::Event(base_from(b.subrange(body, body + BASE_EVENT_SIZE)))
        }
    }
}

/// The events from `pos` on, as long as whole records fit before `end`; and
/// what ended them, if it was not the end.
pub open spec fn events_from(b: Seq<u8>, end: int, pos: int) -> (Seq<BaseEvent>, Option<Found>)
    decreases end - pos,
{
    if pos + BASE_RECORD_SIZE > end {
        (Seq::empty(), None)
    } else {
        match record_at(b, pos) {
            Found::Event(e) => {
                let rest = events_from(b, end, pos + BASE_RECORD_SIZE);
                (seq![e] + rest.0, rest.1)
            },
            other => (Seq::empty(), Some(other)),
        }
    }
}

// ---------------------------------------------------------------------------
// Events
// ---------------------------------------------------------------------------

/// An event survives the way to the wire and back.
pub proof fn law_base_event_round_trip(e: BaseEvent)
    ensures
        base_bytes(e).len() == BASE_EVENT_SIZE,
        base_from(base_bytes(e)) == e,
{
    let b = base_bytes(e);
    lemma_capacities();
    lemma_le_len(e.cpu as nat, 2);
    lemma_le_len(e.pid as nat, 4);
    lemma_le_len(e.tid as nat, 4);
    lemma_le_len(e.timestamp_ns as nat, 8);
    lemma_le_len(e.flags as nat, 4);
    lemma_le_round_trip(e.cpu as nat, 2);
    lemma_le_round_trip(e.pid as nat, 4);
    lemma_le_round_trip(e.tid as nat, 4);
    lemma_le_round_trip(e.timestamp_ns as nat, 8);
    lemma_le_round_trip(e.flags as nat, 4);
    assert(b.subrange(1, 3) =~= le_bytes(e.cpu as nat, 2));
    assert(b.subrange(3, 7) =~= le_bytes(e.pid as nat, 4));
    assert(b.subrange(7, 11) =~= le_bytes(e.tid as nat, 4));
    assert(b.subrange(11, 19) =~= le_bytes(e.timestamp_ns as nat, 8));
    assert(b.subrange(19, 23) =~= le_bytes(e.flags as nat, 4));
}

proof fn lemma_base_record_len(e: BaseEvent)
    ensures
        base_record(e).len() == BASE_RECORD_SIZE,
{
    law_base_event_round_trip(e);
    lemma_le_len(BASE_EVENT_SIZE as nat, 4);
}

impl BaseEvent {
    /// Writes the event as a record at the position of a stream.
    pub fn write_tlv<W: ByteStream>(&self, w: &mut W) -> (r: Result<(), StreamError>)
        ensures
            r is Ok ==> {
                &&& final(w).bytes() == overwrite(old(w).bytes(), old(w).at(), base_record(*self))
                &&& final(w).at() == old(w).at() + BASE_RECORD_SIZE
            },
            r is Err ==> cut_short(
                old(w).bytes(),
                old(w).at(),
                base_record(*self),
                final(w).bytes(),
            ),
            final(w).failure() == failure_after(old(w).failure(), r),
            old(w).healthy() ==> final(w).healthy(),
            old(w).healthy() && old(w).at() + BASE_RECORD_SIZE <= isize::MAX ==> r is Ok,
    {
        let mut buf: Vec<u8> = Vec::new();
        buf.push(REC_TYPE_BASE_EVENT);
        push_le(&mut buf, BASE_EVENT_SIZE as u64, 4);
        buf.push(self.event_id);
        push_le(&mut buf, self.cpu as u64, 2);
        push_le(&mut buf, self.pid as u64, 4);
        push_le(&mut buf, self.tid as u64, 4);
        push_le(&mut buf, self.timestamp_ns, 8);
        push_le(&mut buf, self.flags as u64, 4);
        proof {
            lemma_base_record_len(*self);
            assert(buf@ =~= base_record(*self));
        }
        w.write_all(buf.as_slice())
    }

    /// Reads the record at the position of a stream. A record of another type is
    /// passed over, and is an error.
    pub fn read_tlv<R: ByteStream>(r: &mut R) -> (e: Result<Self, CompactError>)
        ensures
            final(r).bytes() == old(r).bytes(),
            old(r).healthy() ==> final(r).healthy(),
            e matches Ok(ev) ==> {
                &&& record_at(old(r).bytes(), old(r).at() as int) == Found::Event(ev)
                &&& final(r).at() == old(r).at() + BASE_RECORD_SIZE
            },
            e matches Err(err) ==> match err {
                CompactError::UnknownRecord => {
                    let at = old(r).at() as int;
                    &&& record_at(old(r).bytes(), at) is Unknown
                    &&& final(r).at() == at + TLV_HEADER_SIZE + from_le(
                        old(r).bytes().subrange(at + 1, at + 5),
                    )
                },
                CompactError::BadEventSize => {
                    &&& record_at(old(r).bytes(), old(r).at() as int) is BadSize
                    &&& final(r).at() == old(r).at() + TLV_HEADER_SIZE
                },
                CompactError::Io(io) => {
                    &&& final(r).failure() == Some(io@)
                    &&& old(r).healthy() ==> io is UnexpectedEof && record_at(
                        old(r).bytes(),
                        old(r).at() as int,
                    ) is Cut
                },
                CompactError::BadMagic => false,
            },
    {
        let ghost b = r.bytes();
        let ghost pos = r.at() as int;
        let head = match r.read_exact(TLV_HEADER_SIZE) {
            Ok(v) => v,
            Err(e) => {
                return Err(CompactError::Io(e));
            },
        };
        let rec_type: u8 = head[0];
        let length: u64 = get_le(head.as_slice(), 1, 4);
        proof {
            assert(head@.subrange(1, 5) =~= b.subrange(pos + 1, pos + 5));
            lemma_capacities();
            lemma_from_le_round_trip(b.subrange(pos + 1, pos + 5));
        }
        if rec_type != REC_TYPE_BASE_EVENT {
            return match r.read_exact(length as usize) {
                Ok(_) => Err(CompactError::UnknownRecord),
                Err(e) => Err(CompactError::Io(e)),
            };
        }
        if length != BASE_EVENT_SIZE as u64 {
            return Err(CompactError::BadEventSize);
        }
        let body = match r.read_exact(BASE_EVENT_SIZE) {
            Ok(v) => v,
            Err(e) => {
                return Err(CompactError::Io(e));
            },
        };
        let s = body.as_slice();
        proof {
            lemma_from_le_round_trip(s@.subrange(1, 3));
            lemma_from_le_round_trip(s@.subrange(3, 7));
            lemma_from_le_round_trip(s@.subrange(7, 11));
            lemma_from_le_round_trip(s@.subrange(19, 23));
        }
        Ok(
            BaseEvent {
                event_id: s[0],
                cpu: get_le(s, 1, 2) as u16,
                pid: get_le(s, 3, 4) as u32,
                tid: get_le(s, 7, 4) as u32,
                timestamp_ns: get_le(s, 11, 8),
                flags: get_le(s, 19, 4) as u32,
            },
        )
    }
}

// ---------------------------------------------------------------------------
// Headers
// ---------------------------------------------------------------------------

/// A header survives the way to the wire and back.
pub proof fn law_compact_header_round_trip(h: CompactHeaderView)
    requires
        h.feature_bitmap.len() == 32,
        h.reserved_padding.len() == 8,
    ensures
        compact_header_bytes(h).len() == HEADER_SIZE,
        compact_header_bytes(h).subrange(0, 4) == magic_bytes(),
        compact_header_from(compact_header_bytes(h)) == h,
{
    let b = compact_header_bytes(h);
    lemma_capacities();
    lemma_le_len(h.data_section_end_offset as nat, 8);
    lemma_le_len(h.section_table_offset as nat, 8);
    lemma_le_round_trip(h.data_section_end_offset as nat, 8);
    lemma_le_round_trip(h.section_table_offset as nat, 8);
    assert(b.subrange(0, 4) =~= magic_bytes());
    assert(b.subrange(8, 16) =~= le_bytes(h.data_section_end_offset as nat, 8));
    assert(b.subrange(16, 24) =~= le_bytes(h.section_table_offset as nat, 8));
    assert(b.subrange(24, 56) =~= h.feature_bitmap);
    assert(b.subrange(56, 64) =~= h.reserved_padding);
}

impl CompactHeader {
    /// The header that a file starts out with.
    pub fn new() -> (h: Self)
        ensures
            h@ == blank_header(),
    {
        let h = CompactHeader {
            version: VERSION,
            endianness: ENDIAN_LE,
            host_arch: ARCH_X86_64,
            reserved: 0,
            data_section_end_offset: 0,
            section_table_offset: 0,
            feature_bitmap: [0u8; 32],
            reserved_padding: [0u8; 8],
        };
        assert(h@ =~= blank_header());
        h
    }

    /// Writes the header at the position of a stream.
    pub fn write_to<W: ByteStream>(&self, w: &mut W) -> (r: Result<(), StreamError>)
        ensures
            r is Ok ==> {
                &&& final(w).bytes() == overwrite(
                    old(w).bytes(),
                    old(w).at(),
                    compact_header_bytes(self@),
                )
                &&& final(w).at() == old(w).at() + HEADER_SIZE
            },
            r is Err ==> cut_short(
                old(w).bytes(),
                old(w).at(),
                compact_header_bytes(self@),
                final(w).bytes(),
            ),
            final(w).failure() == failure_after(old(w).failure(), r),
            old(w).healthy() ==> final(w).healthy(),
            old(w).healthy() && old(w).at() + HEADER_SIZE <= isize::MAX ==> r is Ok,
    {
        let mut buf: Vec<u8> = Vec::new();
        buf.push(MAGIC[0]);
        buf.push(MAGIC[1]);
        buf.push(MAGIC[2]);
        buf.push(MAGIC[3]);
        buf.push(self.version);
        buf.push(self.endianness);
        buf.push(self.host_arch);
        buf.push(self.reserved);
        push_le(&mut buf, self.data_section_end_offset, 8);
        push_le(&mut buf, self.section_table_offset, 8);
        push_bytes(&mut buf, self.feature_bitmap.as_slice());
        push_bytes(&mut buf, self.reserved_padding.as_slice());
        proof {
            law_compact_header_round_trip(self@);
            assert(buf@ =~= compact_header_bytes(self@));
        }
        w.write_all(buf.as_slice())
    }

    /// Reads a header at the position of a stream. Only the first bytes are
    /// checked.
    pub fn read_from<R: ByteStream>(r: &mut R) -> (h: Result<Self, CompactError>)
        ensures
            final(r).bytes() == old(r).bytes(),
            old(r).healthy() ==> final(r).healthy(),
            h matches Ok(header) ==> {
                let b = old(r).bytes();
                let at = old(r).at() as int;
                &&& at + HEADER_SIZE <= b.len()
                &&& b.subrange(at, at + 4) == magic_bytes()
                &&& header@ == compact_header_from(b.subrange(at, at + HEADER_SIZE))
                &&& final(r).at() == at + HEADER_SIZE
            },
            h matches Err(err) ==> match err {
                CompactError::BadMagic => old(r).at() + HEADER_SIZE <= old(r).bytes().len()
                    && old(r).bytes().subrange(old(r).at() as int, old(r).at() as int + 4)
                    != magic_bytes(),
                CompactError::Io(io) => {
                    &&& final(r).failure() == Some(io@)
                    &&& old(r).healthy() ==> io is UnexpectedEof && old(r).at() + HEADER_SIZE
                        > old(r).bytes().len()
                },
                _ => false,
            },
    {
        let ghost b = r.bytes();
        let ghost at = r.at() as int;
        let buf = match r.read_exact(HEADER_SIZE) {
            Ok(v) => v,
            Err(e) => {
                return Err(CompactError::Io(e));
            },
        };
        let s = buf.as_slice();
        let magic_ok = s[0] == MAGIC[0] && s[1] == MAGIC[1] && s[2] == MAGIC[2] && s[3] == MAGIC[3];
        proof {
            let first = b.subrange(at, at + 4);
            assert(first[0] == s@[0] && first[1] == s@[1] && first[2] == s@[2] && first[3]
                == s@[3]);
            assert(magic_ok <==> first =~= magic_bytes());
        }
        if !magic_ok {
            return Err(CompactError::BadMagic);
        }
        let mut feature_bitmap: [u8; 32] = [0u8; 32];
        for i in 0..32usize
            invariant
                s@.len() == HEADER_SIZE,
                forall|k: int| 0 <= k < i ==> #[trigger] feature_bitmap@[k] == s@[24 + k],
        {
            feature_bitmap[i] = s[24 + i];
        }
        let mut reserved_padding: [u8; 8] = [0u8; 8];
        for i in 0..8usize
            invariant
                s@.len() == HEADER_SIZE,
                forall|k: int| 0 <= k < i ==> #[trigger] reserved_padding@[k] == s@[56 + k],
        {
            reserved_padding[i] = s[56 + i];
        }
        let h = CompactHeader {
            version: s[4],
            endianness: s[5],
            host_arch: s[6],
            reserved: s[7],
            data_section_end_offset: get_le(s, 8, 8),
            section_table_offset: get_le(s, 16, 8),
            feature_bitmap,
            reserved_padding,
        };
        proof {
            assert(h@ =~= compact_header_from(s@));
        }
        Ok(h)
    }
}

// ---------------------------------------------------------------------------
// Files
// ---------------------------------------------------------------------------

/// An entry of the section table.
#[derive(Debug, Clone, Copy, PartialEq, Eq, Structural)]
pub struct SectionEntry {
    pub id: u32,
    pub offset: u64,
    pub size: u64,
}

impl SectionEntry {
    /// Writes the entry at the position of a stream.
    pub fn write_to<W: ByteStream>(&self, w: &mut W) -> (r: Result<(), StreamError>)
        ensures
            r is Ok ==> {
                &&& final(w).bytes() == overwrite(
                    old(w).bytes(),
                    old(w).at(),
                    section_bytes(self.id, self.offset, self.size),
                )
                &&& final(w).at() == old(w).at() + SECTION_ENTRY_SIZE
            },
            r is Err ==> cut_short(
                old(w).bytes(),
                old(w).at(),
                section_bytes(self.id, self.offset, self.size),
                final(w).bytes(),
            ),
            final(w).failure() == failure_after(old(w).failure(), r),
            old(w).healthy() ==> final(w).healthy(),
            old(w).healthy() && old(w).at() + SECTION_ENTRY_SIZE <= isize::MAX ==> r is Ok,
    {
        let mut buf: Vec<u8> = Vec::new();
        push_le(&mut buf, self.id as u64, 4);
        push_le(&mut buf, self.offset, 8);
        push_le(&mut buf, self.size, 8);
        proof {
            lemma_le_len(self.id as nat, 4);
            lemma_le_len(self.offset as nat, 8);
            lemma_le_len(self.size as nat, 8);
            assert(buf@ =~= section_bytes(self.id, self.offset, self.size));
        }
        w.write_all(buf.as_slice())
    }
}

proof fn lemma_overwrite_end(b: Seq<u8>, data: Seq<u8>)
    ensures
        overwrite(b, b.len(), data) == b + data,
{
    assert(overwrite(b, b.len(), data) =~= b + data);
}

proof fn lemma_overwrite_front(head: Seq<u8>, rest: Seq<u8>, data: Seq<u8>)
    requires
        head.len() == data.len(),
    ensures
        overwrite(head + rest, 0, data) == data + rest,
{
    assert(overwrite(head + rest, 0, data) =~= data + rest);
}

proof fn lemma_base_records_len(events: Seq<BaseEvent>)
    ensures
        base_records(events).len() == BASE_RECORD_SIZE * events.len(),
    decreases events.len(),
{
    if events.len() > 0 {
        lemma_base_records_len(events.drop_last());
        lemma_base_record_len(events.last());
    }
}

/// Writes a file to an empty stream.
pub fn write_wperf<W: ByteStream>(f: &mut W, events: &[BaseEvent]) -> (r: Result<(), StreamError>)
    requires
        old(f).bytes().len() == 0,
        old(f).at() == 0,
        records_end(events@.len()) + 32 <= i64::MAX,
    ensures
        r is Ok ==> final(f).bytes() == compact_file(events@),
        r is Err ==> compact_cut(events@, final(f).bytes()),
        final(f).failure() == failure_after(old(f).failure(), r),
        old(f).healthy() ==> final(f).healthy(),
        old(f).healthy() && records_end(events@.len()) + 32 <= isize::MAX ==> r is Ok,
{
    let mut header = CompactHeader::new();
    let ghost start = compact_header_bytes(blank_header());
    proof {
        law_compact_header_round_trip(blank_header());
        lemma_overwrite_end(f.bytes(), start);
        assert(f.bytes() =~= Seq::empty());
        assert(f.bytes() + start =~= start);
        assert(start + base_records(events@.take(0)) =~= start);
    }
    match header.write_to(f) {
        Ok(()) => {},
        Err(e) => {
            return Err(e);
        },
    }
    for i in 0..events.len()
        invariant
            start == compact_header_bytes(blank_header()),
            start.len() == HEADER_SIZE,
            f.bytes() == start + base_records(events@.take(i as int)),
            f.at() == f.bytes().len(),
            f.at() == records_end(i as nat),
            old(f).healthy() ==> f.healthy(),
            f.failure() == old(f).failure(),
            records_end(events@.len()) + 32 <= i64::MAX,
    {
        proof {
            lemma_base_record_len(events@[i as int]);
            lemma_overwrite_end(f.bytes(), base_record(events@[i as int]));
            assert(events@.take(i + 1).drop_last() =~= events@.take(i as int));
            assert(start + base_records(events@.take(i + 1)) =~= start + base_records(
                events@.take(i as int),
            ) + base_record(events@[i as int]));
        }
        assert(f.bytes() == compact_start(events@, i as int));
        match events[i].write_tlv(f) {
            Ok(()) => {},
            Err(e) => {
                return Err(e);
            },
        }
    }
    assert(events@.take(events@.len() as int) =~= events@);
    let ghost records = base_records(events@);
    let data_end: u64 = match f.position() {
        Ok(p) => p,
        Err(e) => {
            return Err(e);
        },
    };
    let text: [u8; 12] = [68, 82, 79, 80, 95, 67, 79, 85, 78, 84, 61, 48];
    let section = SectionEntry { id: SECTION_ID_METADATA, offset: data_end + 20, size: 12 };
    let ghost table = section_bytes(section.id, section.offset, section.size);
    proof {
        assert(text@ =~= footer_text());
        lemma_le_len(section.id as nat, 4);
        lemma_le_len(section.offset as nat, 8);
        lemma_le_len(section.size as nat, 8);
        lemma_overwrite_end(f.bytes(), table);
        lemma_overwrite_end(f.bytes() + table, footer_text());
    }
    match section.write_to(f) {
        Ok(()) => {},
        Err(e) => {
            return Err(e);
        },
    }
    match f.write_all(text.as_slice()) {
        Ok(()) => {},
        Err(e) => {
            return Err(e);
        },
    }
    match f.seek_to(0) {
        Ok(()) => {},
        Err(e) => {
            return Err(e);
        },
    }
    header.data_section_end_offset = data_end;
    header.section_table_offset = data_end;
    proof {
        let rest = records + table + footer_text();
        assert(f.bytes() =~= start + rest);
        assert(header@ =~= complete_header(events@.len()));
        law_compact_header_round_trip(header@);
        lemma_overwrite_front(start, rest, compact_header_bytes(header@));
        assert(compact_header_bytes(header@) + rest =~= compact_file(events@));
    }
    header.write_to(f)
}

/// Reads records up to `end`: the events, and the error that stopped them, if
/// it was not the end.
fn read_records<R: ByteStream>(f: &mut R, end: u64) -> (r: Result<
    (Vec<BaseEvent>, Option<CompactError>),
    StreamError,
>)
    requires
        old(f).at() == HEADER_SIZE,
    ensures
        final(f).bytes() == old(f).bytes(),
        old(f).healthy() ==> r is Ok && final(f).healthy(),
        r matches Ok((events, stop)) ==> {
            let found = events_from(old(f).bytes(), end as int, HEADER_SIZE as int);
            events@.is_prefix_of(found.0) && match stop {
                None => events@ == found.0 && found.1 is None,
                Some(CompactError::UnknownRecord) => events@ == found.0 && (found.1 matches Some(
                    s,
                ) && s is Unknown),
                Some(CompactError::BadEventSize) => events@ == found.0 && (found.1 matches Some(s)
                    && s is BadSize),
                Some(CompactError::Io(io)) => {
                    &&& final(f).failure() == Some(io@)
                    &&& old(f).healthy() ==> events@ == found.0 && io is UnexpectedEof && (
                    found.1 matches Some(s) && s is Cut)
                },
                Some(CompactError::BadMagic) => false,
            }
        },
        r matches Err(e) ==> final(f).failure() == Some(e@),
{
    let mut events: Vec<BaseEvent> = Vec::new();
    let ghost b = f.bytes();
    let ghost all = events_from(b, end as int, HEADER_SIZE as int);
    assert(events@ + all.0 =~= all.0);
    loop
        invariant
            f.bytes() == b,
            b == old(f).bytes(),
            old(f).healthy() ==> f.healthy(),
            all == events_from(old(f).bytes(), end as int, HEADER_SIZE as int),
            ({
                let rest = events_from(b, end as int, f.at() as int);
                all == (events@ + rest.0, rest.1)
            }),
        decreases end - f.at(),
    {
        let ghost pos = f.at() as int;
        let ghost rest = events_from(b, end as int, pos);
        let at: u64 = match f.position() {
            Ok(p) => p,
            Err(e) => {
                return Err(e);
            },
        };
        if end < 28 || at > end - 28 {
            assert(events@ + rest.0 =~= events@);
            return Ok((events, None));
        }
        match BaseEvent::read_tlv(f) {
            Ok(event) => {
                proof {
                    let more = events_from(b, end as int, pos + BASE_RECORD_SIZE);
                    assert(events@ + rest.0 =~= events@.push(event) + more.0);
                }
                events.push(event);
            },
            Err(e) => {
                proof {
                    if !(record_at(b, pos) is Event) {
                        assert(events@ + rest.0 =~= events@);
                    }
                }
                return Ok((events, Some(e)));
            },
        }
    }
}

/// Where reading ends: where the header says, or at the end of the file if it
/// says nothing.
pub open spec fn stated_end(b: Seq<u8>, h: CompactHeaderView) -> int {
    if h.data_section_end_offset > 0 {
        h.data_section_end_offset as int
    } else {
        b.len() as int
    }
}

/// Where reading ends in a file that may be truncated: where the header says,
/// if that lies within the records, else at the end of the file.
pub open spec fn usable_end(b: Seq<u8>, h: CompactHeaderView) -> int {
    if HEADER_SIZE < h.data_section_end_offset <= b.len() {
        h.data_section_end_offset as int
    } else {
        b.len() as int
    }
}

/// Reads a file. A file that ends within a record ends before it; other faults
/// are errors.
pub fn read_wperf<R: ByteStream>(f: &mut R) -> (r: Result<
    (CompactHeader, Vec<BaseEvent>),
    CompactError,
>)
    requires
        old(f).at() == 0,
    ensures
        final(f).bytes() == old(f).bytes(),
        old(f).healthy() ==> final(f).healthy(),
        ({
            let b = old(f).bytes();
            let h = compact_header_from(b.take(HEADER_SIZE as int));
            let found = events_from(b, stated_end(b, h), HEADER_SIZE as int);
            match r {
                Ok((header, events)) => {
                    &&& b.len() >= HEADER_SIZE
                    &&& b.subrange(0, 4) == magic_bytes()
                    &&& header@ == h
                    &&& events@.is_prefix_of(found.0)
                    &&& old(f).healthy() ==> events@ == found.0 && (found.1 matches Some(s) ==> s
                        is Cut)
                },
                Err(CompactError::BadMagic) => b.len() >= HEADER_SIZE && b.subrange(0, 4)
                    != magic_bytes(),
                Err(CompactError::UnknownRecord) => b.len() >= HEADER_SIZE && (
                found.1 matches Some(s) && s is Unknown),
                Err(CompactError::BadEventSize) => b.len() >= HEADER_SIZE && (
                found.1 matches Some(s) && s is BadSize),
                Err(CompactError::Io(io)) => {
                    &&& final(f).failure() == Some(io@)
                    &&& old(f).healthy() ==> io is UnexpectedEof && b.len() < HEADER_SIZE
                },
            }
        }),
{
    let ghost b = f.bytes();
    let header = match CompactHeader::read_from(f) {
        Ok(h) => h,
        Err(e) => {
            return Err(e);
        },
    };
    assert(b.take(HEADER_SIZE as int) =~= b.subrange(0, HEADER_SIZE as int));
    let end: u64 = if header.data_section_end_offset > 0 {
        header.data_section_end_offset
    } else {
        match f.seek_to_end() {
            Ok(p) => p,
            Err(e) => {
                return Err(CompactError::Io(e));
            },
        }
    };
    match f.seek_to(HEADER_SIZE as u64) {
        Ok(()) => {},
        Err(e) => {
            return Err(CompactError::Io(e));
        },
    }
    match read_records(f, end) {
        Err(e) => Err(CompactError::Io(e)),
        Ok((events, None)) => Ok((header, events)),
        Ok((events, Some(CompactError::Io(StreamError::UnexpectedEof)))) => Ok((header, events)),
        Ok((_, Some(e))) => Err(e),
    }
}

/// Reads as many events as a file has before its end or its first fault.
pub fn read_wperf_recovered<R: ByteStream>(f: &mut R) -> (r: Result<
    (CompactHeader, Vec<BaseEvent>),
    CompactError,
>)
    requires
        old(f).at() == 0,
    ensures
        final(f).bytes() == old(f).bytes(),
        old(f).healthy() ==> final(f).healthy(),
        ({
            let b = old(f).bytes();
            let h = compact_header_from(b.take(HEADER_SIZE as int));
            let found = events_from(b, usable_end(b, h), HEADER_SIZE as int);
            match r {
                Ok((header, events)) => {
                    &&& b.len() >= HEADER_SIZE
                    &&& b.subrange(0, 4) == magic_bytes()
                    &&& header@ == h
                    &&& events@.is_prefix_of(found.0)
                    &&& old(f).healthy() ==> events@ == found.0
                },
                Err(CompactError::BadMagic) => b.len() >= HEADER_SIZE && b.subrange(0, 4)
                    != magic_bytes(),
                Err(CompactError::Io(io)) => {
                    &&& final(f).failure() == Some(io@)
                    &&& old(f).healthy() ==> io is UnexpectedEof && b.len() < HEADER_SIZE
                },
                Err(_) => false,
            }
        }),
{
    let ghost b = f.bytes();
    let header = match CompactHeader::read_from(f) {
        Ok(h) => h,
        Err(e) => {
            return Err(e);
        },
    };
    assert(b.take(HEADER_SIZE as int) =~= b.subrange(0, HEADER_SIZE as int));
    let file_size: u64 = match f.seek_to_end() {
        Ok(p) => p,
        Err(e) => {
            return Err(CompactError::Io(e));
        },
    };
    let end: u64 = if header.data_section_end_offset > HEADER_SIZE as u64
        && header.data_section_end_offset <= file_size {
        header.data_section_end_offset
    } else {
        file_size
    };
    match f.seek_to(HEADER_SIZE as u64) {
        Ok(()) => {},
        Err(e) => {
            return Err(CompactError::Io(e));
        },
    }
    match read_records(f, end) {
        Err(e) => Err(CompactError::Io(e)),
        Ok((events, _)) => Ok((header, events)),
    }
}

// ---------------------------------------------------------------------------
// Laws
// ---------------------------------------------------------------------------

/// Where the records of `events` stand from `pos` on, reading finds `k` of them
/// and goes on behind.
proof fn lemma_events_found(b: Seq<u8>, end: int, events: Seq<BaseEvent>, i: int, k: int)
    requires
        0 <= i <= k <= events.len(),
        records_end(k as nat) <= end,
        records_end(k as nat) <= b.len(),
        b.take(records_end(k as nat)).skip(HEADER_SIZE as int) == base_records(events.take(k)),
        records_end(k as nat) + BASE_RECORD_SIZE > end,
    ensures
        events_from(b, end, records_end(i as nat)) == (events.subrange(i, k), None::<Found>),
    decreases k - i,
{
    let pos = records_end(i as nat);
    if i == k {
        assert(events.subrange(i, k) =~= Seq::empty());
    } else {
        let e = events[i];
        lemma_record_in_place(b, events, i, k);
        lemma_events_found(b, end, events, i + 1, k);
        assert(records_end((i + 1) as nat) == pos + BASE_RECORD_SIZE);
        assert(events.subrange(i, k) =~= seq![e] + events.subrange(i + 1, k));
    }
}

proof fn lemma_records_prefix(events: Seq<BaseEvent>, i: int, k: int)
    requires
        0 <= i < k <= events.len(),
    ensures
        base_records(events.take(k)).len() == BASE_RECORD_SIZE * k,
        base_records(events.take(k)).subrange(
            BASE_RECORD_SIZE * i,
            BASE_RECORD_SIZE * i + BASE_RECORD_SIZE,
        ) == base_record(events[i]),
    decreases k,
{
    lemma_base_records_len(events.take(k));
    lemma_base_records_len(events.take(k - 1));
    lemma_base_record_len(events[k - 1]);
    assert(events.take(k).drop_last() =~= events.take(k - 1));
    let all = base_records(events.take(k));
    let front = base_records(events.take(k - 1));
    let at = BASE_RECORD_SIZE * i;
    if i == k - 1 {
        assert(all.subrange(at, at + BASE_RECORD_SIZE) =~= base_record(events[i]));
    } else {
        lemma_records_prefix(events, i, k - 1);
        assert(all.subrange(at, at + BASE_RECORD_SIZE) =~= front.subrange(
            at,
            at + BASE_RECORD_SIZE,
        ));
    }
}

proof fn lemma_record_in_place(b: Seq<u8>, events: Seq<BaseEvent>, i: int, k: int)
    requires
        0 <= i < k <= events.len(),
        records_end(k as nat) <= b.len(),
        b.take(records_end(k as nat)).skip(HEADER_SIZE as int) == base_records(events.take(k)),
    ensures
        record_at(b, records_end(i as nat)) == Found::Event(events[i]),
{
    let pos = records_end(i as nat);
    let e = events[i];
    lemma_records_prefix(events, i, k);
    law_base_event_round_trip(e);
    lemma_base_record_len(e);
    lemma_capacities();
    lemma_le_len(BASE_EVENT_SIZE as nat, 4);
    lemma_le_round_trip(BASE_EVENT_SIZE as nat, 4);
    let mid = b.take(records_end(k as nat)).skip(HEADER_SIZE as int);
    let at = BASE_RECORD_SIZE * i;
    let rec = base_record(e);
    assert(b.subrange(pos, pos + BASE_RECORD_SIZE) =~= mid.subrange(at, at + BASE_RECORD_SIZE));
    assert(b.subrange(pos, pos + BASE_RECORD_SIZE) == rec);
    assert(b[pos] == b.subrange(pos, pos + BASE_RECORD_SIZE)[0]);
    assert(b.subrange(pos + 1, pos + 5) =~= rec.subrange(1, 5));
    assert(rec.subrange(1, 5) =~= le_bytes(BASE_EVENT_SIZE as nat, 4));
    assert(b.subrange(pos + 5, pos + 28) =~= rec.subrange(5, 28));
    assert(rec.subrange(5, 28) =~= base_bytes(e));
}

proof fn lemma_file_layout(events: Seq<BaseEvent>)
    requires
        records_end(events.len()) + 32 <= i64::MAX,
    ensures
        ({
            let b = compact_file(events);
            &&& b.len() == records_end(events.len()) + 32
            &&& b.subrange(0, 4) == magic_bytes()
            &&& compact_header_from(b.take(HEADER_SIZE as int)) == complete_header(events.len())
            &&& b.take(records_end(events.len())).skip(HEADER_SIZE as int) == base_records(events)
        }),
{
    let b = compact_file(events);
    let h = complete_header(events.len());
    let end = records_end(events.len());
    law_compact_header_round_trip(h);
    lemma_base_records_len(events);
    lemma_le_len(SECTION_ID_METADATA as nat, 4);
    lemma_le_len((end + SECTION_ENTRY_SIZE) as u64 as nat, 8);
    lemma_le_len(12, 8);
    assert(b.take(HEADER_SIZE as int) =~= compact_header_bytes(h));
    assert(b.subrange(0, 4) =~= compact_header_bytes(h).subrange(0, 4));
    assert(b.take(end).skip(HEADER_SIZE as int) =~= base_records(events));
}

/// Reading gives back what was written.
pub proof fn law_compact_round_trip(events: Seq<BaseEvent>)
    requires
        records_end(events.len()) + 32 <= i64::MAX,
    ensures
        ({
            let b = compact_file(events);
            let h = complete_header(events.len());
            &&& b.len() >= HEADER_SIZE
            &&& b.subrange(0, 4) == magic_bytes()
            &&& compact_header_from(b.take(HEADER_SIZE as int)) == h
            &&& events_from(b, stated_end(b, h), HEADER_SIZE as int) == (events, None::<Found>)
            &&& events_from(b, usable_end(b, h), HEADER_SIZE as int).0 == events
        }),
{
    let b = compact_file(events);
    let h = complete_header(events.len());
    let n = events.len() as int;
    lemma_file_layout(events);
    assert(events.take(n) =~= events);
    assert(events.subrange(0, n) =~= events);
    lemma_events_found(b, records_end(events.len()), events, 0, n);
    if events.len() == 0 {
        // The header then says that records end where they would begin, which
        // recovery does not trust; but the footer is not taken for a record.
        lemma_footer_is_no_record(events);
    }
}

proof fn lemma_footer_is_no_record(events: Seq<BaseEvent>)
    requires
        events.len() == 0,
    ensures
        events_from(
            compact_file(events),
            compact_file(events).len() as int,
            HEADER_SIZE as int,
        ).0 == events,
{
    let b = compact_file(events);
    let h = complete_header(0);
    let table = section_bytes(SECTION_ID_METADATA, 84, 12);
    law_compact_header_round_trip(h);
    lemma_le_len(SECTION_ID_METADATA as nat, 4);
    lemma_le_len(84, 8);
    lemma_le_len(12, 8);
    assert(b[HEADER_SIZE as int] == table[0]);
    assert(le_bytes(SECTION_ID_METADATA as nat, 4)[0] == 3u8);
    assert(table[0] == 3u8);
    assert(events_from(b, b.len() as int, HEADER_SIZE as int).0 =~= events);
}

/// A file that is cut within its records gives back those that are whole.
pub proof fn law_truncated_file(events: Seq<BaseEvent>, size: int)
    requires
        records_end(events.len()) + 32 <= i64::MAX,
        HEADER_SIZE <= size < records_end(events.len()),
    ensures
        ({
            let b = compact_file(events).take(size);
            let h = complete_header(events.len());
            let whole = (size - HEADER_SIZE) / BASE_RECORD_SIZE as int;
            &&& b.subrange(0, 4) == magic_bytes()
            &&& compact_header_from(b.take(HEADER_SIZE as int)) == h
            &&& events_from(b, usable_end(b, h), HEADER_SIZE as int) == (
                events.take(whole),
                None::<Found>,
            )
        }),
{
    let full = compact_file(events);
    let b = full.take(size);
    let h = complete_header(events.len());
    let n = events.len() as int;
    let whole = (size - HEADER_SIZE) / BASE_RECORD_SIZE as int;
    lemma_file_layout(events);
    assert(b.subrange(0, 4) =~= full.subrange(0, 4));
    assert(b.take(HEADER_SIZE as int) =~= full.take(HEADER_SIZE as int));
    assert(usable_end(b, h) == size);
    assert(0 <= whole <= n);
    assert(records_end(whole as nat) <= size);
    assert(b.take(records_end(whole as nat)).skip(HEADER_SIZE as int) == base_records(
        events.take(whole),
    )) by {
        lemma_records_start(events, whole, n);
        assert(events.take(n) =~= events);
        assert(b.take(records_end(whole as nat)).skip(HEADER_SIZE as int) =~= full.take(
            records_end(n as nat),
        ).skip(HEADER_SIZE as int).take(BASE_RECORD_SIZE * whole));
    }
    lemma_events_found(b, size, events, 0, whole);
    assert(events.subrange(0, whole) =~= events.take(whole));
}

proof fn lemma_records_start(events: Seq<BaseEvent>, k: int, n: int)
    requires
        0 <= k <= n <= events.len(),
    ensures
        base_records(events.take(n)).take(BASE_RECORD_SIZE * k) == base_records(events.take(k)),
    decreases n,
{
    lemma_base_records_len(events.take(n));
    lemma_base_records_len(events.take(k));
    if k == n {
        assert(base_records(events.take(n)).take(BASE_RECORD_SIZE * k) =~= base_records(
            events.take(k),
        ));
    } else {
        lemma_records_start(events, k, n - 1);
        lemma_base_records_len(events.take(n - 1));
        assert(events.take(n).drop_last() =~= events.take(n - 1));
        assert(base_records(events.take(n)).take(BASE_RECORD_SIZE * k) =~= base_records(
            events.take(n - 1),
        ).take(BASE_RECORD_SIZE * k));
    }
}

/// The layout of a compact event and of its record: each field at its offset,
/// behind the type, one, and the length of the event.
pub proof fn law_base_event_layout(e: BaseEvent)
    ensures
        ({
            let b = base_bytes(e);
            &&& b.len() == 23
            &&& b[0] == e.event_id
            &&& from_le(b.subrange(1, 3)) == e.cpu
            &&& from_le(b.subrange(3, 7)) == e.pid
            &&& from_le(b.subrange(7, 11)) == e.tid
            &&& from_le(b.subrange(11, 19)) == e.timestamp_ns
            &&& from_le(b.subrange(19, 23)) == e.flags
        }),
        ({
            let b = base_record(e);
            &&& b.len() == 28
            &&& b[0] == 1
            &&& from_le(b.subrange(1, 5)) == 23
            &&& b.subrange(5, 28) == base_bytes(e)
        }),
{
    lemma_capacities();
    lemma_le_len(e.cpu as nat, 2);
    lemma_le_len(e.pid as nat, 4);
    lemma_le_len(e.tid as nat, 4);
    lemma_le_len(e.timestamp_ns as nat, 8);
    lemma_le_len(e.flags as nat, 4);
    lemma_le_round_trip(e.cpu as nat, 2);
    lemma_le_round_trip(e.pid as nat, 4);
    lemma_le_round_trip(e.tid as nat, 4);
    lemma_le_round_trip(e.timestamp_ns as nat, 8);
    lemma_le_round_trip(e.flags as nat, 4);
    let b = base_bytes(e);
    assert(b.subrange(1, 3) =~= le_bytes(e.cpu as nat, 2));
    assert(b.subrange(3, 7) =~= le_bytes(e.pid as nat, 4));
    assert(b.subrange(7, 11) =~= le_bytes(e.tid as nat, 4));
    assert(b.subrange(11, 19) =~= le_bytes(e.timestamp_ns as nat, 8));
    assert(b.subrange(19, 23) =~= le_bytes(e.flags as nat, 4));
    lemma_le_len(23, 4);
    lemma_le_round_trip(23, 4);
    let r = base_record(e);
    assert(r.subrange(1, 5) =~= le_bytes(23, 4));
    assert(r.subrange(5, 28) =~= b);
}

/// The layout of a compact header, and what that of a complete file says: the
/// section table follows the records.
pub proof fn law_compact_header_layout(h: CompactHeaderView, n: nat)
    requires
        h.feature_bitmap.len() == 32,
        h.reserved_padding.len() == 8,
        64 + 28 * n <= u64::MAX,
    ensures
        ({
            let b = compact_header_bytes(h);
            &&& b.len() == 64
            &&& b[0] == 0x77 && b[1] == 0x50 && b[2] == 0x52 && b[3] == 0x46
            &&& b[4] == h.version
            &&& b[5] == h.endianness
            &&& b[6] == h.host_arch
            &&& b[7] == h.reserved
            &&& from_le(b.subrange(8, 16)) == h.data_section_end_offset
            &&& from_le(b.subrange(16, 24)) == h.section_table_offset
            &&& b.subrange(24, 56) == h.feature_bitmap
            &&& b.subrange(56, 64) == h.reserved_padding
        }),
        complete_header(n).data_section_end_offset == 64 + 28 * n,
        complete_header(n).section_table_offset == 64 + 28 * n,
        complete_header(n).version == 1,
        complete_header(n).endianness == 1,
        complete_header(n).host_arch == 0,
        blank_header().data_section_end_offset == 0,
        blank_header().section_table_offset == 0,
        footer_text() == ascii("DROP_COUNT=0"@),
{
    reveal_strlit("DROP_COUNT=0");
    assert(footer_text() =~= ascii("DROP_COUNT=0"@));
    lemma_capacities();
    lemma_le_len(h.data_section_end_offset as nat, 8);
    lemma_le_len(h.section_table_offset as nat, 8);
    lemma_le_round_trip(h.data_section_end_offset as nat, 8);
    lemma_le_round_trip(h.section_table_offset as nat, 8);
    let b = compact_header_bytes(h);
    assert(b.subrange(8, 16) =~= le_bytes(h.data_section_end_offset as nat, 8));
    assert(b.subrange(16, 24) =~= le_bytes(h.section_table_offset as nat, 8));
    assert(b.subrange(24, 56) =~= h.feature_bitmap);
    assert(b.subrange(56, 64) =~= h.reserved_padding);
}

/// A compact record is read by its frame: what is cut off is not read, what is of
/// another type or size is told apart, and an event is read as one.
pub proof fn law_compact_records_are_read_by_frame(b: Seq<u8>, pos: int)
    requires
        0 <= pos,
    ensures
        ({
            let length = from_le(b.subrange(pos + 1, pos + 5));
            let found = record_at(b, pos);
            &&& pos + 5 > b.len() ==> found is Cut
            &&& pos + 5 <= b.len() && b[pos] != 1 ==> (found is Cut <==> length > 0 && pos + 5
                + length > b.len()) && (found is Cut || found is Unknown)
            &&& pos + 5 <= b.len() && b[pos] == 1 && length != 23 ==> found is BadSize
            &&& pos + 5 <= b.len() && b[pos] == 1 && length == 23 && pos + 28 > b.len()
                ==> found is Cut
            &&& pos + 28 <= b.len() && b[pos] == 1 && length == 23 ==> found == Found::Event(
                base_from(b.subrange(pos + 5, pos + 28)),
            )
        }),
{
}

/// Where reading ends: a header that tells no end leaves it to the length of the
/// file; one that tells an end counts, but for a file that may be truncated only
/// if that end lies behind the header and within the file.
pub proof fn law_header_tells_the_end(b: Seq<u8>, h: CompactHeaderView)
    ensures
        h.data_section_end_offset == 0 ==> stated_end(b, h) == b.len() && usable_end(b, h)
            == b.len(),
        h.data_section_end_offset > 0 ==> stated_end(b, h) == h.data_section_end_offset,
        64 < h.data_section_end_offset <= b.len() ==> usable_end(b, h)
            == h.data_section_end_offset,
        h.data_section_end_offset <= 64 ==> usable_end(b, h) == b.len(),
        usable_end(b, h) <= b.len(),
{
}

} // verus!
