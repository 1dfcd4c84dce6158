//! Reading `.wperf` files: header, records, footer.

use vstd::prelude::*;

use super::event::{event_from, WperfEvent, EVENT_SIZE};
use super::header::{
    header_from, magic_bytes, HeaderError, HeaderView, WprfHeader, HEADER_SIZE, VERSION,
};
use super::stream::{ByteStream, ErrorView, StreamError};
use super::wire::{from_le, lemma_capacities, lemma_from_le_round_trip};
use super::writer::{
    parse_entries, parse_metadata, read_section_entry, read_tlv_header, MAX_PAYLOAD_SIZE,
    REC_TYPE_SCHED_EVENT, SECTION_ENTRY_SIZE, SECTION_ID_METADATA, TLV_HEADER_SIZE,
};
use crate::text::{decimal, push_u64};

verus! {

/// Why a file could not be read.
#[derive(Debug, Clone)]
pub enum ReaderError {
    Header(HeaderError),
    /// A payload is larger than [`MAX_PAYLOAD_SIZE`].
    PayloadTooLarge {
        rec_type: u8,
        length: u32,
    },
    /// A payload has the wrong length for its type.
    UnexpectedPayloadSize {
        rec_type: u8,
        expected: u32,
        actual: u32,
    },
    /// A record type is not known. Readers skip such records.
    UnknownRecordType(u8),
    Io(StreamError),
}

impl ReaderError {
    /// The text of the error.
    pub open spec fn text(&self) -> Seq<char> {
        match self {
            ReaderError::Header(e) => "header error: "@ + e.text(),
            ReaderError::PayloadTooLarge { rec_type, length } => "TLV payload too large: type="@
                + decimal(*rec_type as nat) + ", length="@ + decimal(*length as nat),
            ReaderError::UnexpectedPayloadSize { rec_type, expected, actual } =>
                "unexpected payload size for type "@ + decimal(*rec_type as nat) + ": expected "@
                    + decimal(*expected as nat) + ", got "@ + decimal(*actual as nat),
            ReaderError::UnknownRecordType(t) => "unknown TLV record type: "@ + decimal(*t as nat),
            ReaderError::Io(e) => "I/O error: "@ + e.text(),
        }
    }

    /// The error in words.
    pub fn message(&self) -> (s: String)
        ensures
            s@ == self.text(),
    {
        match self {
            ReaderError::Header(e) => {
                let mut s = "header error: ".to_owned();
                s.append(e.message().as_str());
                s
            },
            ReaderError::PayloadTooLarge { rec_type, length } => {
                let mut s = "TLV payload too large: type=".to_owned();
                push_u64(&mut s, *rec_type as u64);
                s.append(", length=");
                push_u64(&mut s, *length as u64);
                s
            },
            ReaderError::UnexpectedPayloadSize { rec_type, expected, actual } => {
                let mut s = "unexpected payload size for type ".to_owned();
                push_u64(&mut s, *rec_type as u64);
                s.append(": expected ");
                push_u64(&mut s, *expected as u64);
                s.append(", got ");
                push_u64(&mut s, *actual as u64);
                s
            },
            ReaderError::UnknownRecordType(t) => {
                let mut s = "unknown TLV record type: ".to_owned();
                push_u64(&mut s, *t as u64);
                s
            },
            ReaderError::Io(e) => {
                let mut s = "I/O error: ".to_owned();
                s.append(e.message().as_str());
                s
            },
        }
    }

    /// The text of the error behind this one, if there is one.
    pub fn source_message(&self) -> (r: Option<String>)
        ensures
            r is Some <==> self is Header || self is Io,
            self matches ReaderError::Header(e) ==> r->0@ == e.text(),
            self matches ReaderError::Io(e) ==> r->0@ == e.text(),
    {
        match self {
            ReaderError::Header(e) => Some(e.message()),
            ReaderError::Io(e) => Some(e.message()),
            _ => None,
        }
    }
}

/// The counts in the footer of a file, as far as they are there.
#[derive(Debug, Clone, Copy, PartialEq, Eq, Structural)]
pub struct Metadata {
    pub event_count: Option<u64>,
    pub drop_count: Option<u64>,
}

// ---------------------------------------------------------------------------
// The mathematical model
// ---------------------------------------------------------------------------

/// What the records from some position on come to.
pub enum Scan {
    /// The next event.
    Event(WperfEvent),
    /// No complete record is left.
    End,
    /// A record's payload is too large.
    TooLarge { rec_type: u8, length: u32 },
    /// An event record's payload has the wrong length.
    BadSize { actual: u32 },
}

/// Looks for the next event before `data_end` from `pos` on: what is found, and
/// where reading stops. Records of unknown type are passed over.
pub open spec fn scan(b: Seq<u8>, data_end: int, pos: int) -> (Scan, int)
    decreases data_end - pos,
{
    if pos + TLV_HEADER_SIZE > data_end {
        (Scan::End, pos)
    } else {
        let rec_type = b[pos];
        let length = from_le(b.subrange(pos + 1, pos + 5)) as u32;
        let payload = pos + TLV_HEADER_SIZE;
        if length > MAX_PAYLOAD_SIZE {
            (Scan::TooLarge { rec_type, length }, payload)
        } else if payload + length > data_end {
            (Scan::End, payload)
        } else if rec_type == REC_TYPE_SCHED_EVENT {
            if length != EVENT_SIZE {
                (Scan::BadSize { actual: length }, payload)
            } else {
                (
                    Scan::Event(event_from(b.subrange(payload, payload + EVENT_SIZE))),
                    payload + EVENT_SIZE,
                )
            }
        } else {
            scan(b, data_end, payload + length)
        }
    }
}

/// Looks for all events before `data_end` from `pos` on: the events, what ends
/// them, and where reading stops.
pub open spec fn scan_all(b: Seq<u8>, data_end: int, pos: int) -> (Seq<WperfEvent>, Scan, int)
    decreases data_end - pos,
{
    proof {
        lemma_scan_advances(b, data_end, pos);
    }
    let (found, next) = scan(b, data_end, pos);
    match found {
        Scan::Event(e) => {
            let rest = scan_all(b, data_end, next);
            (seq![e] + rest.0, rest.1, rest.2)
        },
        _ => (Seq::empty(), found, next),
    }
}

/// A scan stops at or after where it starts, after an event past it.
pub proof fn lemma_scan_advances(b: Seq<u8>, data_end: int, pos: int)
    ensures
        scan(b, data_end, pos).0 is Event ==> pos < scan(b, data_end, pos).1 <= data_end,
        pos <= scan(b, data_end, pos).1,
    decreases data_end - pos,
{
    if pos + TLV_HEADER_SIZE <= data_end {
        let length = from_le(b.subrange(pos + 1, pos + 5)) as u32;
        let payload = pos + TLV_HEADER_SIZE;
        if length <= MAX_PAYLOAD_SIZE && payload + length <= data_end && b[pos]
            != REC_TYPE_SCHED_EVENT {
            lemma_scan_advances(b, data_end, payload + length);
        }
    }
}

/// The first metadata section in the table that starts at `pos`: its offset and
/// its size.
pub open spec fn find_metadata(b: Seq<u8>, pos: int) -> Option<(u64, u64)>
    decreases b.len() - pos,
{
    if pos + SECTION_ENTRY_SIZE > b.len() {
        None
    } else if from_le(b.subrange(pos, pos + 4)) == SECTION_ID_METADATA {
        Some(
            (
                from_le(b.subrange(pos + 4, pos + 12)) as u64,
                from_le(b.subrange(pos + 12, pos + 20)) as u64,
            ),
        )
    } else {
        find_metadata(b, pos + SECTION_ENTRY_SIZE)
    }
}

/// The counts of a file whose footer tells none.
pub open spec fn no_counts() -> Metadata {
    Metadata { event_count: None, drop_count: None }
}

/// What reading the footer comes to.
pub open spec fn metadata_outcome(
    b: Seq<u8>,
    header: HeaderView,
    r: Result<Metadata, ReaderError>,
) -> bool {
    let none = no_counts();
    if header.section_table_offset == 0 {
        r == Ok::<Metadata, ReaderError>(none)
    } else {
        match find_metadata(b, header.section_table_offset as int) {
            None => r == Ok::<Metadata, ReaderError>(none),
            Some((offset, size)) => if size > MAX_PAYLOAD_SIZE {
                r matches Err(e) && e == (ReaderError::PayloadTooLarge {
                    rec_type: SECTION_ID_METADATA as u8,
                    length: if size > u32::MAX {
                        u32::MAX
                    } else {
                        size as u32
                    },
                })
            } else if size > 0 && offset + size > b.len() {
                r matches Err(ReaderError::Io(e)) && e is UnexpectedEof
            } else {
                let counts = parse_entries(
                    if size == 0 {
                        Seq::empty()
                    } else {
                        b.subrange(offset as int, offset + size)
                    },
                    0,
                    (None, None),
                );
                r == Ok::<Metadata, ReaderError>(
                    Metadata { event_count: counts.0, drop_count: counts.1 },
                )
            },
        }
    }
}

/// Where the records of a file end: where its header says, but not after its end.
pub open spec fn end_of_records(b: Seq<u8>) -> int {
    let h = header_from(b.take(HEADER_SIZE as int));
    if h.data_section_end_offset <= b.len() {
        h.data_section_end_offset as int
    } else {
        b.len() as int
    }
}

/// All positions that reading the footer moves to are ones that every stream
/// accepts. It does not move to metadata that is too large.
pub open spec fn footer_reachable(b: Seq<u8>, header: HeaderView) -> bool {
    &&& header.section_table_offset <= i64::MAX
    &&& header.section_table_offset > 0 ==> (find_metadata(
        b,
        header.section_table_offset as int,
    ) matches Some(section) ==> section.1 > MAX_PAYLOAD_SIZE || section.0 <= i64::MAX)
}

/// What reading all events with the reader `before` may come to: the result and
/// the reader. The records decide, except where the device fails; then the error
/// is the device's.
pub open spec fn events_outcome<R: ByteStream>(
    before: WperfReader<R>,
    r: Result<Vec<WperfEvent>, ReaderError>,
    after: WperfReader<R>,
) -> bool {
    let found = scan_all(before.bytes(), before.data_end(), before.at());
    &&& match r {
        Ok(events) => found.1 is End && events@ == found.0,
        Err(ReaderError::PayloadTooLarge { rec_type, length }) => found.1 == Scan::TooLarge {
            rec_type,
            length,
        },
        Err(ReaderError::UnexpectedPayloadSize { rec_type, expected, actual }) => found.1
            == Scan::BadSize { actual } && rec_type == REC_TYPE_SCHED_EVENT && expected
            == EVENT_SIZE,
        Err(ReaderError::Io(e)) => !before.healthy() && after.failure() == Some(e@),
        Err(_) => false,
    }
    &&& !(r matches Err(ReaderError::Io(_))) ==> after.at() == found.2
}

/// What reading the footer with the reader `before` may come to: the result and
/// the reader. The footer decides, except where the device fails: then counts may
/// be missing, or the error is the device's.
pub open spec fn footer_outcome<R: ByteStream>(
    before: WperfReader<R>,
    r: Result<Metadata, ReaderError>,
    after: WperfReader<R>,
) -> bool {
    let by_footer = metadata_outcome(before.bytes(), before.head(), r);
    let sound = before.healthy() && footer_reachable(before.bytes(), before.head());
    &&& before.head().section_table_offset == 0 || sound ==> by_footer
    &&& match r {
        Ok(m) => by_footer || (m == no_counts() && !before.healthy()),
        Err(ReaderError::Io(e)) => after.failure() == Some(e@),
        Err(_) => by_footer,
    }
}

// ---------------------------------------------------------------------------
// The reader
// ---------------------------------------------------------------------------

/// Reader of `.wperf` files.
#[derive(Debug)]
pub struct WperfReader<R: ByteStream> {
    inner: R,
    header: WprfHeader,
    data_end: u64,
}

impl<R: ByteStream> WperfReader<R> {
    /// The bytes of the file.
    pub closed spec fn bytes(&self) -> Seq<u8> {
        self.inner.bytes()
    }

    /// Where reading goes on.
    pub closed spec fn at(&self) -> int {
        self.inner.at() as int
    }

    /// The header of the file.
    pub closed spec fn head(&self) -> HeaderView {
        self.header@
    }

    /// Where the records end.
    pub closed spec fn data_end(&self) -> int {
        self.data_end as int
    }

    /// The stream's device never fails.
    pub closed spec fn healthy(&self) -> bool {
        self.inner.healthy()
    }

    /// The error of the last operation on the stream that failed, if one did.
    pub closed spec fn failure(&self) -> Option<ErrorView> {
        self.inner.failure()
    }

    /// The records lie within the file, whose bytes can all be reached.
    pub closed spec fn wf(&self) -> bool {
        self.data_end <= self.inner.bytes().len() && self.inner.bytes().len() <= i64::MAX
    }

    /// This is a reader of the file with the bytes `b`.
    pub open spec fn reads(&self, b: Seq<u8>) -> bool {
        &&& self.wf()
        &&& self.bytes() == b
        &&& self.head() == header_from(b.take(HEADER_SIZE as int))
        &&& self.data_end() == end_of_records(b)
    }

    /// The file, its header and the end of its records are the same.
    pub open spec fn same_file(&self, other: &Self) -> bool {
        &&& self.bytes() == other.bytes()
        &&& self.head() == other.head()
        &&& self.data_end() == other.data_end()
    }

    pub proof fn lemma_wf(&self)
        requires
            self.wf(),
        ensures
            0 <= self.data_end() <= self.bytes().len() <= i64::MAX,
            self.at() >= 0,
    {
    }

    /// Opens a file: reads and checks its header. The records end where the
    /// header says, but not after the end of the file. An I/O error is that of the
    /// operation on the stream that failed.
    pub fn open(inner: R) -> (r: Result<Self, ReaderError>)
        ensures
            r matches Ok(rd) ==> {
                &&& rd.reads(inner.bytes())
                &&& inner.bytes().len() >= HEADER_SIZE
                &&& inner.bytes().subrange(0, 4) == magic_bytes()
                &&& inner.bytes()[4] == VERSION
                &&& rd.at() == HEADER_SIZE
                &&& rd.failure() == inner.failure()
                &&& inner.healthy() ==> rd.healthy()
            },
            r matches Err(e) ==> match e {
                ReaderError::Header(HeaderError::BadMagic) => inner.bytes().len() >= HEADER_SIZE
                    && inner.bytes().subrange(0, 4) != magic_bytes(),
                ReaderError::Header(HeaderError::UnsupportedVersion(v)) => inner.bytes().len()
                    >= HEADER_SIZE && inner.bytes().subrange(0, 4) == magic_bytes()
                    && inner.bytes()[4] == v && v != VERSION,
                ReaderError::Header(HeaderError::Io(io)) => {
                    &&& exists|s: R| #[trigger] s.failure() == Some(io@) && s.bytes() == inner.bytes()
                    &&& inner.healthy() ==> io is UnexpectedEof && inner.bytes().len() < HEADER_SIZE
                },
                ReaderError::Io(io) => {
                    &&& exists|s: R| #[trigger] s.failure() == Some(io@) && s.bytes() == inner.bytes()
                    &&& !inner.healthy()
                },
                _ => false,
            },
    {
        let mut inner = inner;
        let ghost b = inner.bytes();
        match inner.seek_to(0) {
            Ok(()) => {},
            Err(e) => {
                return Err(ReaderError::Io(e));
            },
        }
        let header = match WprfHeader::read_from(&mut inner) {
            Ok(h) => h,
            Err(e) => {
                proof {
                    if b.len() >= HEADER_SIZE {
                        let first = b.subrange(0, HEADER_SIZE as int);
                        assert(first.subrange(0, 4) =~= b.subrange(0, 4));
                        assert(first[4] == b[4]);
                    }
                }
                return Err(ReaderError::Header(e));
            },
        };
        proof {
            let first = b.subrange(0, HEADER_SIZE as int);
            assert(first =~= b.take(HEADER_SIZE as int));
            assert(first.subrange(0, 4) =~= b.subrange(0, 4));
            assert(first[4] == b[4]);
        }
        let file_len: u64 = match inner.seek_to_end() {
            Ok(n) => n,
            Err(e) => {
                return Err(ReaderError::Io(e));
            },
        };
        let data_end: u64 = if header.data_section_end_offset <= file_len {
            header.data_section_end_offset
        } else {
            file_len
        };
        match inner.seek_to(HEADER_SIZE as u64) {
            Ok(()) => {},
            Err(e) => {
                return Err(ReaderError::Io(e));
            },
        }
        Ok(WperfReader { inner, header, data_end })
    }

    /// The header of the file.
    pub fn header(&self) -> (h: &WprfHeader)
        ensures
            h@ == self.head(),
    {
        &self.header
    }

    /// The next event, `None` if no complete record is left. Records of unknown
    /// type are skipped.
    pub fn next_event(&mut self) -> (r: Result<Option<WperfEvent>, ReaderError>)
        requires
            old(self).wf(),
        ensures
            final(self).wf(),
            final(self).same_file(old(self)),
            old(self).healthy() ==> final(self).healthy(),
            ({
                let found = scan(old(self).bytes(), old(self).data_end(), old(self).at());
                &&& match r {
                    Ok(Some(e)) => found.0 == Scan::Event(e),
                    Ok(None) => found.0 is End,
                    Err(ReaderError::PayloadTooLarge { rec_type, length }) => found.0
                        == Scan::TooLarge { rec_type, length },
                    Err(ReaderError::UnexpectedPayloadSize { rec_type, expected, actual }) =>
                        found.0 == Scan::BadSize { actual } && rec_type == REC_TYPE_SCHED_EVENT
                            && expected == EVENT_SIZE,
                    Err(ReaderError::Io(e)) => !old(self).healthy() && final(self).failure() == Some(
                        e@,
                    ),
                    Err(_) => false,
                }
                &&& !(r matches Err(ReaderError::Io(_))) ==> final(self).at() == found.1
            }),
    {
        let ghost b = self.bytes();
        let ghost end = self.data_end();
        let ghost start = self.at();
        loop
            invariant
                self.wf(),
                self.same_file(old(self)),
                b == self.bytes(),
                end == self.data_end(),
                b == old(self).bytes(),
                end == old(self).data_end(),
                start == old(self).at(),
                old(self).healthy() ==> self.healthy(),
                scan(b, end, start) == scan(b, end, self.at()),
                end <= b.len(),
                end <= i64::MAX,
            decreases end - self.at(),
        {
            let pos: u64 = match self.inner.position() {
                Ok(p) => p,
                Err(e) => {
                    return Err(ReaderError::Io(e));
                },
            };
            if pos >= self.data_end {
                return Ok(None);
            }
            if self.data_end - pos < TLV_HEADER_SIZE as u64 {
                return Ok(None);
            }
            let (rec_type, length) = match read_tlv_header(&mut self.inner) {
                Ok(head) => head,
                Err(e) => {
                    return Err(ReaderError::Io(e));
                },
            };
            proof {
                lemma_capacities();
                lemma_from_le_round_trip(b.subrange(pos + 1, pos + 5));
            }
            if length > MAX_PAYLOAD_SIZE {
                return Err(ReaderError::PayloadTooLarge { rec_type, length });
            }
            let payload: u64 = match self.inner.position() {
                Ok(p) => p,
                Err(e) => {
                    return Err(ReaderError::Io(e));
                },
            };
            if payload + length as u64 > self.data_end {
                return Ok(None);
            }
            if rec_type == REC_TYPE_SCHED_EVENT {
                if length != EVENT_SIZE as u32 {
                    return Err(
                        ReaderError::UnexpectedPayloadSize {
                            rec_type,
                            expected: EVENT_SIZE as u32,
                            actual: length,
                        },
                    );
                }
                return match WperfEvent::read_from(&mut self.inner) {
                    Ok(event) => Ok(Some(event)),
                    Err(e) => Err(ReaderError::Io(e)),
                };
            }
            match self.inner.seek_to(payload + length as u64) {
                Ok(()) => {},
                Err(e) => {
                    return Err(ReaderError::Io(e));
                },
            }
        }
    }

    /// All events from the position on.
    pub fn read_all_events(&mut self) -> (r: Result<Vec<WperfEvent>, ReaderError>)
        requires
            old(self).wf(),
        ensures
            final(self).wf(),
            final(self).same_file(old(self)),
            old(self).healthy() ==> final(self).healthy(),
            events_outcome(*old(self), r, *final(self)),
    {
        let ghost b = self.bytes();
        let ghost end = self.data_end();
        let ghost all = scan_all(b, end, self.at());
        let mut events: Vec<WperfEvent> = Vec::new();
        assert(events@ + all.0 =~= all.0);
        loop
            invariant
                self.wf(),
                self.same_file(old(self)),
                b == self.bytes(),
                end == self.data_end(),
                b == old(self).bytes(),
                end == old(self).data_end(),
                all == scan_all(old(self).bytes(), old(self).data_end(), old(self).at()),
                old(self).healthy() ==> self.healthy(),
                ({
                    let rest = scan_all(b, end, self.at());
                    all == (events@ + rest.0, rest.1, rest.2)
                }),
            decreases end - self.at(),
        {
            let ghost pos = self.at();
            proof {
                lemma_scan_advances(b, end, pos);
            }
            match self.next_event() {
                Ok(Some(e)) => {
                    proof {
                        let rest = scan_all(b, end, self.at());
                        assert(events@ + (seq![e] + rest.0) =~= events@.push(e) + rest.0);
                    }
                    events.push(e);
                },
                Ok(None) => {
                    assert(events@ + Seq::empty() =~= events@);
                    return Ok(events);
                },
                Err(e) => {
                    return Err(e);
                },
            }
        }
    }

    /// The counts in the footer. They are missing if the file has no footer, as
    /// after a crash.
    pub fn read_metadata(&mut self) -> (r: Result<Metadata, ReaderError>)
        requires
            old(self).wf(),
        ensures
            final(self).wf(),
            final(self).same_file(old(self)),
            old(self).healthy() ==> final(self).healthy(),
            footer_outcome(*old(self), r, *final(self)),
    {
        let ghost b = self.bytes();
        let ghost head = self.head();
        let st_offset: u64 = self.header.section_table_offset;
        if st_offset == 0 {
            return Ok(Metadata { event_count: None, drop_count: None });
        }
        match self.inner.seek_to(st_offset) {
            Ok(()) => {},
            Err(e) => {
                return Err(ReaderError::Io(e));
            },
        }
        let mut section: Option<(u64, u64)> = None;
        loop
            invariant_except_break
                section is None,
                st_offset <= self.at(),
                find_metadata(b, self.at()) == find_metadata(b, st_offset as int),
            invariant
                self.wf(),
                self.same_file(old(self)),
                b == self.bytes(),
                b == old(self).bytes(),
                head == old(self).head(),
                head.section_table_offset == st_offset,
                old(self).healthy() ==> self.healthy(),
                st_offset > 0,
            ensures
                self.wf(),
                self.same_file(old(self)),
                old(self).healthy() ==> self.healthy(),
                old(self).healthy() || section is Some ==> section == find_metadata(
                    b,
                    st_offset as int,
                ),
            decreases b.len() - self.at(),
        {
            let ghost pos = self.at();
            match read_section_entry(&mut self.inner) {
                Ok((id, offset, size)) => {
                    proof {
                        lemma_capacities();
                        lemma_from_le_round_trip(b.subrange(pos + 4, pos + 12));
                        lemma_from_le_round_trip(b.subrange(pos + 12, pos + 20));
                    }
                    if id == SECTION_ID_METADATA {
                        section = Some((offset, size));
                        break ;
                    }
                },
                Err(StreamError::UnexpectedEof) => {
                    break ;
                },
                Err(e) => {
                    return Err(ReaderError::Io(e));
                },
            }
        }
        let (offset, size) = match section {
            Some(s) => s,
            None => {
                return Ok(Metadata { event_count: None, drop_count: None });
            },
        };
        if size > MAX_PAYLOAD_SIZE as u64 {
            return Err(
                ReaderError::PayloadTooLarge {
                    rec_type: SECTION_ID_METADATA as u8,
                    length: if size > u32::MAX as u64 {
                        u32::MAX
                    } else {
                        size as u32
                    },
                },
            );
        }
        match self.inner.seek_to(offset) {
            Ok(()) => {},
            Err(e) => {
                return Err(ReaderError::Io(e));
            },
        }
        let buf = match self.inner.read_exact(size as usize) {
            Ok(buf) => buf,
            Err(e) => {
                return Err(ReaderError::Io(e));
            },
        };
        proof {
            if size == 0 {
                assert(buf@ =~= Seq::empty());
            }
        }
        let (event_count, drop_count) = parse_metadata(buf.as_slice());
        Ok(Metadata { event_count, drop_count })
    }

    /// Goes back to the first record.
    pub fn rewind(&mut self) -> (r: Result<(), ReaderError>)
        requires
            old(self).wf(),
        ensures
            final(self).wf(),
            final(self).same_file(old(self)),
            old(self).healthy() ==> final(self).healthy() && r is Ok,
            r is Ok ==> final(self).at() == HEADER_SIZE,
            r matches Err(e) ==> (e matches ReaderError::Io(io) && final(self).failure() == Some(
                io@,
            )),
    {
        match self.inner.seek_to(HEADER_SIZE as u64) {
            Ok(()) => Ok(()),
            Err(e) => Err(ReaderError::Io(e)),
        }
    }
}

} // verus!
