//! Writing `.wperf` files: header, records, footer.
//!
//! ```text
//! [64 B header] [records ...] [metadata] [section table]
//! ```
//!
//! A record is a type byte, a payload length (u32) and the payload. The
//! metadata is a list of entries: key length (u16), key, value length (u16),
//! value. A section table entry is a section id (u32), an offset (u64) and a
//! size (u64). All numbers are little-endian.

use vstd::prelude::*;

use super::event::{
    event_bytes, event_from, law_bytes_round_trip, law_event_round_trip, WperfEvent, EVENT_SIZE,
};
use super::header::{
    fresh_header, header_bytes, law_header_round_trip, HeaderView, WprfHeader, HEADER_SIZE,
};
use super::stream::{
    cut_short, failure_after, lemma_cut_short, overwrite, ByteStream, ErrorView, StreamError,
};
use super::wire::{
    from_le, get_le, le_bytes, lemma_capacities, lemma_from_le_round_trip, lemma_le_len,
    lemma_le_round_trip, push_bytes, push_le,
};

verus! {

/// Record type of trace events.
pub const REC_TYPE_SCHED_EVENT: u8 = 1;

/// Size of a record's type and length, in bytes.
pub const TLV_HEADER_SIZE: usize = 5;

/// Size of an event's record, in bytes.
pub const RECORD_SIZE: usize = 45;

/// Section id of the metadata.
pub const SECTION_ID_METADATA: u32 = 3;

/// Size of a section table entry, in bytes.
pub const SECTION_ENTRY_SIZE: usize = 20;

/// Largest payload that is read: 16 MiB.
pub const MAX_PAYLOAD_SIZE: u32 = 16_777_216;

/// After how many events the header's bookmark is brought up to date.
pub const BOOKMARK_INTERVAL: u64 = 8192;

// ---------------------------------------------------------------------------
// The mathematical model
// ---------------------------------------------------------------------------

/// The record of an event in wire form.
pub open spec fn record_bytes(raw: Seq<u8>) -> Seq<u8> {
    seq![REC_TYPE_SCHED_EVENT] + le_bytes(EVENT_SIZE as nat, 4) + raw
}

/// The key of the event count.
pub open spec fn event_count_key() -> Seq<u8> {
    seq![69u8, 86, 69, 78, 84, 95, 67, 79, 85, 78, 84]
}

/// The key of the drop count.
pub open spec fn drop_count_key() -> Seq<u8> {
    seq![68u8, 82, 79, 80, 95, 67, 79, 85, 78, 84]
}

/// An entry of the metadata.
pub open spec fn meta_entry(key: Seq<u8>, value: Seq<u8>) -> Seq<u8> {
    le_bytes(key.len(), 2) + key + le_bytes(value.len(), 2) + value
}

/// The metadata of a file.
pub open spec fn metadata_bytes(event_count: u64, drop_count: u64) -> Seq<u8> {
    meta_entry(event_count_key(), le_bytes(event_count as nat, 8)) + meta_entry(
        drop_count_key(),
        le_bytes(drop_count as nat, 8),
    )
}

/// An entry of the section table.
pub open spec fn section_bytes(id: u32, offset: u64, size: u64) -> Seq<u8> {
    le_bytes(id as nat, 4) + le_bytes(offset as nat, 8) + le_bytes(size as nat, 8)
}

/// What a writer has done so far.
#[verifier::ext_equal]
pub struct WriterView {
    pub bytes: Seq<u8>,
    pub at: nat,
    pub header: HeaderView,
    pub event_count: nat,
    pub start_timestamp_ns: Option<u64>,
    pub end_timestamp_ns: u64,
}

/// A writer that has just been made on a stream.
pub open spec fn opened(bytes: Seq<u8>, at: nat, host_arch: u8) -> WriterView {
    WriterView {
        bytes: overwrite(bytes, at, header_bytes(fresh_header(host_arch))),
        at: at + HEADER_SIZE as nat,
        header: fresh_header(host_arch),
        event_count: 0,
        start_timestamp_ns: None,
        end_timestamp_ns: 0,
    }
}

/// A writer after one more event, given in wire form. Every
/// [`BOOKMARK_INTERVAL`] events the header on disk learns how far records extend.
pub open spec fn after_record(v: WriterView, raw: Seq<u8>) -> WriterView {
    let ts = from_le(raw.subrange(0, 8)) as u64;
    let bytes = overwrite(v.bytes, v.at, record_bytes(raw));
    let at = v.at + RECORD_SIZE as nat;
    let bookmark = (v.event_count + 1) % BOOKMARK_INTERVAL as nat == 0;
    WriterView {
        bytes: if bookmark {
            overwrite(bytes, 8, le_bytes(at, 8))
        } else {
            bytes
        },
        at,
        header: if bookmark {
            HeaderView { data_section_end_offset: at as u64, ..v.header }
        } else {
            v.header
        },
        event_count: v.event_count + 1,
        start_timestamp_ns: match v.start_timestamp_ns {
            None => Some(ts),
            Some(t) => Some(t),
        },
        end_timestamp_ns: if ts > v.end_timestamp_ns {
            ts
        } else {
            v.end_timestamp_ns
        },
    }
}

/// `w` is what may become of the writer `v` if the record of its next event, given
/// in wire form, cannot be written: the event is not counted, and no more than a
/// part of the record is there.
pub open spec fn record_cut(v: WriterView, raw: Seq<u8>, w: WriterView) -> bool {
    let done = after_record(v, raw);
    &&& w.event_count == v.event_count
    &&& w.header == v.header
    &&& w.start_timestamp_ns == done.start_timestamp_ns
    &&& w.end_timestamp_ns == done.end_timestamp_ns
    &&& cut_short(v.bytes, v.at, record_bytes(raw), w.bytes)
}

/// `w` is what may become of the writer `v` if the record of its next event is
/// written, but then the header on disk cannot be brought up to date: the event
/// counts, and the bookmark is the old one, the new one or a part of it.
pub open spec fn bookmark_cut(v: WriterView, raw: Seq<u8>, w: WriterView) -> bool {
    let done = after_record(v, raw);
    let full = overwrite(v.bytes, v.at, record_bytes(raw));
    &&& (v.event_count + 1) % BOOKMARK_INTERVAL as nat == 0
    &&& w.event_count == v.event_count + 1
    &&& w.header == v.header || w.header == done.header
    &&& w.start_timestamp_ns == done.start_timestamp_ns
    &&& w.end_timestamp_ns == done.end_timestamp_ns
    &&& w.bytes == full || cut_short(full, 8, le_bytes(done.at, 8), w.bytes) || w.bytes
        == done.bytes
}

/// What may come of writing an event, given in wire form, with the writer `v`:
/// the result `r` and the writer `w`.
pub open spec fn write_outcome(
    v: WriterView,
    raw: Seq<u8>,
    r: Result<(), StreamError>,
    w: WriterView,
) -> bool {
    match r {
        Ok(()) => w == after_record(v, raw),
        Err(_) => record_cut(v, raw, w) || bookmark_cut(v, raw, w),
    }
}

/// The header of a finished file.
pub open spec fn final_header(v: WriterView, drop_count: u64) -> HeaderView {
    HeaderView {
        data_section_end_offset: v.at as u64,
        section_table_offset: (v.at + metadata_bytes(
            v.event_count as u64,
            drop_count,
        ).len()) as u64,
        feature_bitmap: v.header.feature_bitmap.update(0, v.header.feature_bitmap[0] | 1u8),
        ..v.header
    }
}

/// The bytes of a finished file: metadata and section table follow the records,
/// and the header is written again.
pub open spec fn finished_bytes(v: WriterView, drop_count: u64) -> Seq<u8> {
    let meta = metadata_bytes(v.event_count as u64, drop_count);
    let table = section_bytes(SECTION_ID_METADATA, v.at as u64, meta.len() as u64);
    overwrite(
        overwrite(overwrite(v.bytes, v.at, meta), v.at + meta.len(), table),
        0,
        header_bytes(final_header(v, drop_count)),
    )
}

/// `b` is what may be left of the bytes of the writer `v` if the file cannot be
/// finished: the footer and the header are written in steps, and one of them
/// failed. Those before it are done, and no more than a part of it.
pub open spec fn finish_cut(v: WriterView, drop_count: u64, b: Seq<u8>) -> bool {
    let meta = metadata_bytes(v.event_count as u64, drop_count);
    let table = section_bytes(SECTION_ID_METADATA, v.at as u64, meta.len() as u64);
    let with_meta = overwrite(v.bytes, v.at, meta);
    let with_table = overwrite(with_meta, v.at + meta.len(), table);
    ||| b == v.bytes
    ||| cut_short(v.bytes, v.at, meta, b)
    ||| b == with_meta
    ||| cut_short(with_meta, v.at + meta.len(), table, b)
    ||| b == with_table
    ||| cut_short(with_table, 0, header_bytes(final_header(v, drop_count)), b)
    ||| b == finished_bytes(v, drop_count)
}

/// How many bytes a footer takes.
pub open spec fn footer_size() -> nat {
    65
}

/// What parsing metadata from `pos` on adds to what was found before.
pub open spec fn parse_entries(
    data: Seq<u8>,
    pos: int,
    found: (Option<u64>, Option<u64>),
) -> (Option<u64>, Option<u64>)
    decreases data.len() - pos,
{
    if pos + 4 > data.len() {
        found
    } else {
        let key_len = from_le(data.subrange(pos, pos + 2));
        let key_end = pos + 2 + key_len;
        if key_end + 2 > data.len() {
            found
        } else {
            let key = data.subrange(pos + 2, key_end);
            let value_len = from_le(data.subrange(key_end, key_end + 2));
            let end = key_end + 2 + value_len;
            if end > data.len() {
                found
            } else {
                let number = from_le(data.subrange(key_end + 2, end)) as u64;
                let more = if key == event_count_key() && value_len == 8 {
                    (Some(number), found.1)
                } else if key == drop_count_key() && value_len == 8 {
                    (found.0, Some(number))
                } else {
                    found
                };
                parse_entries(data, end, more)
            }
        }
    }
}

// ---------------------------------------------------------------------------
// The writer
// ---------------------------------------------------------------------------

/// Writer of `.wperf` files: the header first, then records; [`finish`]
/// completes the file.
///
/// [`finish`]: WperfWriter::finish
#[derive(Debug)]
pub struct WperfWriter<W: ByteStream> {
    inner: W,
    header: WprfHeader,
    event_count: u64,
    start_timestamp_ns: Option<u64>,
    end_timestamp_ns: u64,
}

impl<W: ByteStream> View for WperfWriter<W> {
    type V = WriterView;

    closed spec fn view(&self) -> WriterView {
        WriterView {
            bytes: self.inner.bytes(),
            at: self.inner.at(),
            header: self.header@,
            event_count: self.event_count as nat,
            start_timestamp_ns: self.start_timestamp_ns,
            end_timestamp_ns: self.end_timestamp_ns,
        }
    }
}

impl<W: ByteStream> WperfWriter<W> {
    /// The stream's device never fails.
    pub closed spec fn healthy(&self) -> bool {
        self.inner.healthy()
    }

    /// The error of the last operation on the stream that failed, if one did.
    pub closed spec fn failure(&self) -> Option<ErrorView> {
        self.inner.failure()
    }

    /// Makes a writer and writes the header. The error is that of the write, which
    /// leaves no more than a part of the header on the stream.
    pub fn new(inner: W, host_arch: u8) -> (r: Result<Self, StreamError>)
        ensures
            r matches Ok(w) ==> {
                &&& w@ == opened(inner.bytes(), inner.at(), host_arch)
                &&& w.failure() == inner.failure()
                &&& inner.healthy() ==> w.healthy()
            },
            r matches Err(e) ==> exists|s: W| #[trigger]
                s.failure() == Some(e@) && cut_short(
                    inner.bytes(),
                    inner.at(),
                    header_bytes(fresh_header(host_arch)),
                    s.bytes(),
                ),
            inner.healthy() && inner.at() + HEADER_SIZE <= isize::MAX ==> r is Ok,
    {
        let mut inner = inner;
        let header = WprfHeader::new(host_arch);
        match header.write_to(&mut inner) {
            Ok(()) => {},
            Err(e) => {
                return Err(e);
            },
        }
        Ok(
            WperfWriter {
                inner,
                header,
                event_count: 0,
                start_timestamp_ns: None,
                end_timestamp_ns: 0,
            },
        )
    }

    /// Writes an event.
    pub fn write_event(&mut self, event: &WperfEvent) -> (r: Result<(), StreamError>)
        requires
            old(self)@.event_count < u64::MAX,
        ensures
            write_outcome(old(self)@, event_bytes(*event), r, final(self)@),
            final(self).failure() == failure_after(old(self).failure(), r),
            old(self).healthy() ==> final(self).healthy(),
            old(self).healthy() && old(self)@.at + RECORD_SIZE <= isize::MAX ==> r is Ok,
    {
        proof {
            law_event_round_trip(*event);
        }
        let raw = event.to_bytes();
        self.write_event_raw(&raw)
    }

    /// Writes an event that is in wire form already.
    pub fn write_event_raw(&mut self, raw: &[u8; EVENT_SIZE]) -> (r: Result<(), StreamError>)
        requires
            old(self)@.event_count < u64::MAX,
        ensures
            write_outcome(old(self)@, raw@, r, final(self)@),
            final(self).failure() == failure_after(old(self).failure(), r),
            old(self).healthy() ==> final(self).healthy(),
            old(self).healthy() && old(self)@.at + RECORD_SIZE <= isize::MAX ==> r is Ok,
    {
        let ghost before = self@;
        let ts: u64 = get_le(raw.as_slice(), 0, 8);
        if self.start_timestamp_ns.is_none() {
            self.start_timestamp_ns = Some(ts);
        }
        if ts > self.end_timestamp_ns {
            self.end_timestamp_ns = ts;
        }
        let mut record: Vec<u8> = Vec::new();
        record.push(REC_TYPE_SCHED_EVENT);
        push_le(&mut record, EVENT_SIZE as u64, 4);
        push_bytes(&mut record, raw.as_slice());
        proof {
            lemma_record(raw@);
            assert(record@ =~= record_bytes(raw@));
        }
        match self.inner.write_all(record.as_slice()) {
            Ok(()) => {},
            Err(e) => {
                return Err(e);
            },
        }
        self.event_count = self.event_count + 1;
        if self.event_count % BOOKMARK_INTERVAL == 0 {
            match self.update_data_offset() {
                Ok(()) => {},
                Err(e) => {
                    return Err(e);
                },
            }
        }
        assert(self@ =~= after_record(before, raw@));
        Ok(())
    }

    /// Number of events written so far.
    pub fn event_count(&self) -> (n: u64)
        ensures
            n == self@.event_count,
    {
        self.event_count
    }

    /// The header as it was last written to disk.
    pub fn header(&self) -> (h: &WprfHeader)
        ensures
            h@ == self@.header,
    {
        &self.header
    }

    /// The timestamp of the first event, if there is one.
    pub fn start_timestamp_ns(&self) -> (t: Option<u64>)
        ensures
            t == self@.start_timestamp_ns,
    {
        self.start_timestamp_ns
    }

    /// The largest timestamp of all events so far.
    pub fn end_timestamp_ns(&self) -> (t: u64)
        ensures
            t == self@.end_timestamp_ns,
    {
        self.end_timestamp_ns
    }

    /// Tells the header on disk how far records extend.
    fn update_data_offset(&mut self) -> (r: Result<(), StreamError>)
        ensures
            r is Ok ==> final(self)@ == (WriterView {
                bytes: overwrite(old(self)@.bytes, 8, le_bytes(old(self)@.at, 8)),
                header: HeaderView {
                    data_section_end_offset: old(self)@.at as u64,
                    ..old(self)@.header
                },
                ..old(self)@
            }),
            r is Err ==> {
                let b = old(self)@.bytes;
                let mark = le_bytes(old(self)@.at, 8);
                &&& final(self)@.event_count == old(self)@.event_count
                &&& final(self)@.start_timestamp_ns == old(self)@.start_timestamp_ns
                &&& final(self)@.end_timestamp_ns == old(self)@.end_timestamp_ns
                &&& final(self)@.header == old(self)@.header || final(self)@.header == (HeaderView {
                    data_section_end_offset: old(self)@.at as u64,
                    ..old(self)@.header
                })
                &&& final(self)@.bytes == b || cut_short(b, 8, mark, final(self)@.bytes)
                    || final(self)@.bytes == overwrite(b, 8, mark)
            },
            final(self).failure() == failure_after(old(self).failure(), r),
            old(self).healthy() ==> final(self).healthy(),
            old(self).healthy() && old(self)@.at <= isize::MAX ==> r is Ok,
    {
        let ghost before = self@;
        let pos: u64 = match self.inner.position() {
            Ok(p) => p,
            Err(e) => {
                return Err(e);
            },
        };
        self.header.data_section_end_offset = pos;
        match self.inner.seek_to(8) {
            Ok(()) => {},
            Err(e) => {
                return Err(e);
            },
        }
        let mut field: Vec<u8> = Vec::new();
        push_le(&mut field, pos, 8);
        proof {
            lemma_le_len(pos as nat, 8);
            assert(field@ =~= le_bytes(pos as nat, 8));
        }
        match self.inner.write_all(field.as_slice()) {
            Ok(()) => {},
            Err(e) => {
                return Err(e);
            },
        }
        match self.inner.seek_to(pos) {
            Ok(()) => {},
            Err(e) => {
                return Err(e);
            },
        }
        assert(self@.header =~= HeaderView {
            data_section_end_offset: before.at as u64,
            ..before.header
        });
        Ok(())
    }

    /// Completes the file: writes metadata and section table, then the header
    /// again. `drop_count` is the number of events that were lost. The error is
    /// that of the first step that failed, and nothing is done after it.
    pub fn finish(self, drop_count: u64) -> (r: Result<W, StreamError>)
        ensures
            r matches Ok(w) ==> {
                &&& w.bytes() == finished_bytes(self@, drop_count)
                &&& w.at() == self@.at + footer_size()
                &&& w.at() <= u64::MAX
                &&& w.failure() == self.failure()
                &&& self.healthy() ==> w.healthy()
            },
            r matches Err(e) ==> exists|s: W| #[trigger]
                s.failure() == Some(e@) && finish_cut(self@, drop_count, s.bytes()),
            self.healthy() && self@.at + footer_size() <= isize::MAX ==> r is Ok,
    {
        let ghost v = self@;
        let mut inner = self.inner;
        let mut header = self.header;
        let data_end: u64 = match inner.position() {
            Ok(p) => p,
            Err(e) => {
                return Err(e);
            },
        };
        header.data_section_end_offset = data_end;
        let metadata = build_metadata(self.event_count, drop_count);
        proof {
            lemma_metadata_len(self.event_count, drop_count);
        }
        match inner.write_all(metadata.as_slice()) {
            Ok(()) => {},
            Err(e) => {
                return Err(e);
            },
        }
        let table_at: u64 = match inner.position() {
            Ok(p) => p,
            Err(e) => {
                return Err(e);
            },
        };
        let mut table: Vec<u8> = Vec::new();
        push_le(&mut table, SECTION_ID_METADATA as u64, 4);
        push_le(&mut table, data_end, 8);
        push_le(&mut table, metadata.len() as u64, 8);
        proof {
            lemma_section_len(SECTION_ID_METADATA, data_end, metadata@.len() as u64);
            assert(table@ =~= section_bytes(SECTION_ID_METADATA, data_end, metadata@.len() as u64));
        }
        match inner.write_all(table.as_slice()) {
            Ok(()) => {},
            Err(e) => {
                return Err(e);
            },
        }
        header.section_table_offset = table_at;
        header.feature_bitmap[0] = header.feature_bitmap[0] | 1u8;
        let end: u64 = match inner.position() {
            Ok(p) => p,
            Err(e) => {
                return Err(e);
            },
        };
        match inner.seek_to(0) {
            Ok(()) => {},
            Err(e) => {
                return Err(e);
            },
        }
        proof {
            assert(header@ =~= final_header(v, drop_count));
        }
        match header.write_to(&mut inner) {
            Ok(()) => {},
            Err(e) => {
                return Err(e);
            },
        }
        match inner.seek_to(end) {
            Ok(()) => {},
            Err(e) => {
                return Err(e);
            },
        }
        Ok(inner)
    }
}

/// The metadata of a file.
pub fn build_metadata(event_count: u64, drop_count: u64) -> (buf: Vec<u8>)
    ensures
        buf@ == metadata_bytes(event_count, drop_count),
{
    let mut buf: Vec<u8> = Vec::new();
    let key: [u8; 11] = [69, 86, 69, 78, 84, 95, 67, 79, 85, 78, 84];
    let mut value: Vec<u8> = Vec::new();
    push_le(&mut value, event_count, 8);
    proof {
        lemma_le_len(event_count as nat, 8);
        assert(key@ =~= event_count_key());
        assert(value@ =~= le_bytes(event_count as nat, 8));
    }
    write_meta_entry(&mut buf, key.as_slice(), value.as_slice());
    let key: [u8; 10] = [68, 82, 79, 80, 95, 67, 79, 85, 78, 84];
    let mut value: Vec<u8> = Vec::new();
    push_le(&mut value, drop_count, 8);
    proof {
        lemma_le_len(drop_count as nat, 8);
        assert(key@ =~= drop_count_key());
        assert(value@ =~= le_bytes(drop_count as nat, 8));
    }
    write_meta_entry(&mut buf, key.as_slice(), value.as_slice());
    assert(buf@ =~= metadata_bytes(event_count, drop_count));
    buf
}

/// Appends an entry of the metadata.
pub fn write_meta_entry(buf: &mut Vec<u8>, key: &[u8], value: &[u8])
    requires
        key@.len() <= u16::MAX,
        value@.len() <= u16::MAX,
    ensures
        final(buf)@ == old(buf)@ + meta_entry(key@, value@),
{
    push_le(buf, key.len() as u64, 2);
    push_bytes(buf, key);
    push_le(buf, value.len() as u64, 2);
    push_bytes(buf, value);
    assert(buf@ =~= old(buf)@ + meta_entry(key@, value@));
}

/// Whether a part of `data` is the given key.
fn is_key(data: &[u8], from: usize, to: usize, key: &[u8]) -> (b: bool)
    requires
        from <= to <= data@.len(),
    ensures
        b == (data@.subrange(from as int, to as int) == key@),
{
    if to - from != key.len() {
        assert(data@.subrange(from as int, to as int).len() != key@.len());
        return false;
    }
    for i in 0..key.len()
        invariant
            from <= to <= data@.len(),
            to - from == key@.len(),
            forall|k: int| 0 <= k < i ==> data@[from + k] == #[trigger] key@[k],
    {
        if data[from + i] != key[i] {
            proof {
                assert(data@.subrange(from as int, to as int)[i as int] == data@[from + i]);
            }
            return false;
        }
    }
    assert(data@.subrange(from as int, to as int) =~= key@);
    true
}

/// The event count and the drop count in the metadata of a file, as far as they
/// are there.
pub fn parse_metadata(data: &[u8]) -> (r: (Option<u64>, Option<u64>))
    ensures
        r == parse_entries(data@, 0, (None, None)),
{
    let event_key: [u8; 11] = [69, 86, 69, 78, 84, 95, 67, 79, 85, 78, 84];
    let drop_key: [u8; 10] = [68, 82, 79, 80, 95, 67, 79, 85, 78, 84];
    let len: usize = data.len();
    let mut event_count: Option<u64> = None;
    let mut drop_count: Option<u64> = None;
    let mut pos: usize = 0;
    proof {
        assert(event_key@ =~= event_count_key());
        assert(drop_key@ =~= drop_count_key());
        lemma_capacities();
    }
    while len - pos >= 4
        invariant
            len == data@.len(),
            pos <= len,
            event_key@ == event_count_key(),
            drop_key@ == drop_count_key(),
            parse_entries(data@, pos as int, (event_count, drop_count)) == parse_entries(
                data@,
                0,
                (None, None),
            ),
            capacity_of_two(),
        ensures
            parse_entries(data@, 0, (None, None)) == (event_count, drop_count),
        decreases len - pos,
    {
        proof {
            lemma_from_le_round_trip(data@.subrange(pos as int, pos + 2));
        }
        let key_len: usize = get_le(data, pos, 2) as usize;
        if len - pos - 2 < key_len || len - pos - 2 - key_len < 2 {
            break ;
        }
        let key_end: usize = pos + 2 + key_len;
        proof {
            lemma_from_le_round_trip(data@.subrange(key_end as int, key_end + 2));
        }
        let value_len: usize = get_le(data, key_end, 2) as usize;
        if len - key_end - 2 < value_len {
            break ;
        }
        let end: usize = key_end + 2 + value_len;
        if value_len == 8 {
            if is_key(data, pos + 2, key_end, event_key.as_slice()) {
                event_count = Some(get_le(data, key_end + 2, 8));
            } else if is_key(data, pos + 2, key_end, drop_key.as_slice()) {
                drop_count = Some(get_le(data, key_end + 2, 8));
            }
        }
        pos = end;
    }
    (event_count, drop_count)
}

spec fn capacity_of_two() -> bool {
    super::wire::capacity(2) == 0x1_0000
}

/// Reads a section table entry at the position of a stream: section id, offset
/// and size.
pub fn read_section_entry<R: ByteStream>(r: &mut R) -> (e: Result<(u32, u64, u64), StreamError>)
    ensures
        final(r).bytes() == old(r).bytes(),
        old(r).healthy() ==> final(r).healthy(),
        e matches Ok(entry) ==> {
            let b = old(r).bytes();
            let at = old(r).at() as int;
            &&& at + SECTION_ENTRY_SIZE <= b.len()
            &&& entry.0 == from_le(b.subrange(at, at + 4))
            &&& entry.1 == from_le(b.subrange(at + 4, at + 12))
            &&& entry.2 == from_le(b.subrange(at + 12, at + 20))
            &&& final(r).at() == at + SECTION_ENTRY_SIZE
        },
        old(r).healthy() ==> (e is Err <==> old(r).at() + SECTION_ENTRY_SIZE
            > old(r).bytes().len()),
        e matches Err(err) ==> (old(r).healthy() ==> err is UnexpectedEof),
        final(r).failure() == failure_after(old(r).failure(), e),
{
    match r.read_exact(SECTION_ENTRY_SIZE) {
        Ok(buf) => {
            let b = buf.as_slice();
            proof {
                lemma_capacities();
                lemma_from_le_round_trip(b@.subrange(0, 4));
                let all = old(r).bytes();
                let at = old(r).at() as int;
                assert(b@.subrange(0, 4) =~= all.subrange(at, at + 4));
                assert(b@.subrange(4, 12) =~= all.subrange(at + 4, at + 12));
                assert(b@.subrange(12, 20) =~= all.subrange(at + 12, at + 20));
            }
            Ok((get_le(b, 0, 4) as u32, get_le(b, 4, 8), get_le(b, 12, 8)))
        },
        Err(e) => Err(e),
    }
}

/// Reads a record's type and payload length at the position of a stream.
pub fn read_tlv_header<R: ByteStream>(r: &mut R) -> (h: Result<(u8, u32), StreamError>)
    ensures
        final(r).bytes() == old(r).bytes(),
        old(r).healthy() ==> final(r).healthy(),
        h matches Ok(head) ==> {
            let b = old(r).bytes();
            let at = old(r).at() as int;
            &&& at + TLV_HEADER_SIZE <= b.len()
            &&& head.0 == b[at]
            &&& head.1 == from_le(b.subrange(at + 1, at + 5))
            &&& final(r).at() == at + TLV_HEADER_SIZE
        },
        old(r).healthy() ==> (h is Err <==> old(r).at() + TLV_HEADER_SIZE
            > old(r).bytes().len()),
        h matches Err(err) ==> (old(r).healthy() ==> err is UnexpectedEof),
        final(r).failure() == failure_after(old(r).failure(), h),
{
    match r.read_exact(TLV_HEADER_SIZE) {
        Ok(buf) => {
            let b = buf.as_slice();
            proof {
                lemma_capacities();
                lemma_from_le_round_trip(b@.subrange(1, 5));
                let all = old(r).bytes();
                let at = old(r).at() as int;
                assert(b@.subrange(1, 5) =~= all.subrange(at + 1, at + 5));
                assert(b@[0] == all[at]);
            }
            Ok((b[0], get_le(b, 1, 4) as u32))
        },
        Err(e) => Err(e),
    }
}

// ---------------------------------------------------------------------------
// Lemmas
// ---------------------------------------------------------------------------

/// An event and its wire form are written alike. Writers that were the same are
/// the same after them, and finish the same files; and where writing fails,
/// whatever may come of one may come of the other.
pub proof fn law_raw_writes_agree(v: WriterView, raw: Seq<u8>)
    requires
        raw.len() == EVENT_SIZE,
    ensures
        forall|r: Result<(), StreamError>, w: WriterView| #[trigger]
            write_outcome(v, event_bytes(event_from(raw)), r, w) <==> write_outcome(v, raw, r, w),
        forall|a: WriterView, b: WriterView|
            #[trigger] write_outcome(v, event_bytes(event_from(raw)), Ok(()), a)
                && #[trigger] write_outcome(v, raw, Ok(()), b) ==> a == b,
        forall|drop_count: u64| #[trigger]
            finished_bytes(after_record(v, event_bytes(event_from(raw))), drop_count)
                == finished_bytes(after_record(v, raw), drop_count),
{
    law_bytes_round_trip(raw);
}

/// A write that fails changes nothing before the record that it was to write,
/// except for the bookmark, and nothing behind it. The event counts only if its
/// record is complete.
pub proof fn law_failed_write_keeps_records(v: WriterView, raw: Seq<u8>, w: WriterView)
    requires
        raw.len() == EVENT_SIZE,
        v.at >= HEADER_SIZE,
        v.at == v.bytes.len(),
        record_cut(v, raw, w) || bookmark_cut(v, raw, w),
    ensures
        v.bytes.len() <= w.bytes.len() <= v.bytes.len() + RECORD_SIZE,
        forall|i: int|
            0 <= i < v.bytes.len() && !(8 <= i < 16) ==> #[trigger] w.bytes[i] == v.bytes[i],
        w.event_count == v.event_count || (w.event_count == v.event_count + 1 && (v.event_count + 1)
            % BOOKMARK_INTERVAL as nat == 0),
        w.event_count == v.event_count <==> w.bytes.len() < v.bytes.len() + RECORD_SIZE,
        w.event_count > v.event_count ==> w.bytes.skip(v.at as int) == record_bytes(raw),
{
    lemma_record(raw);
    let done = after_record(v, raw);
    let full = overwrite(v.bytes, v.at, record_bytes(raw));
    let mark = le_bytes(done.at, 8);
    lemma_le_len(done.at, 8);
    assert(full =~= v.bytes + record_bytes(raw));
    if record_cut(v, raw, w) {
        lemma_cut_short(v.bytes, v.at, record_bytes(raw), w.bytes);
    } else {
        if cut_short(full, 8, mark, w.bytes) {
            lemma_cut_short(full, 8, mark, w.bytes);
        }
        assert(w.bytes.skip(v.at as int) =~= record_bytes(raw));
    }
}

/// A file that cannot be finished keeps its records: whatever step failed, the
/// bytes between the header and the footer are as they were.
pub proof fn law_failed_finish_keeps_records(v: WriterView, drop_count: u64, b: Seq<u8>)
    requires
        HEADER_SIZE <= v.at <= v.bytes.len(),
        v.header.feature_bitmap.len() == 32,
        finish_cut(v, drop_count, b),
    ensures
        b.len() >= v.bytes.len(),
        b.subrange(HEADER_SIZE as int, v.at as int) == v.bytes.subrange(
            HEADER_SIZE as int,
            v.at as int,
        ),
{
    let meta = metadata_bytes(v.event_count as u64, drop_count);
    let table = section_bytes(SECTION_ID_METADATA, v.at as u64, meta.len() as u64);
    let with_meta = overwrite(v.bytes, v.at, meta);
    let with_table = overwrite(with_meta, v.at + meta.len(), table);
    let head = header_bytes(final_header(v, drop_count));
    law_header_round_trip(final_header(v, drop_count));
    if cut_short(v.bytes, v.at, meta, b) {
        lemma_cut_short(v.bytes, v.at, meta, b);
    }
    if cut_short(with_meta, v.at + meta.len(), table, b) {
        lemma_cut_short(with_meta, v.at + meta.len(), table, b);
    }
    if cut_short(with_table, 0, head, b) {
        lemma_cut_short(with_table, 0, head, b);
    }
    assert(b.subrange(HEADER_SIZE as int, v.at as int) =~= v.bytes.subrange(
        HEADER_SIZE as int,
        v.at as int,
    ));
}

pub proof fn lemma_record(raw: Seq<u8>)
    requires
        raw.len() == EVENT_SIZE,
    ensures
        record_bytes(raw).len() == RECORD_SIZE,
        record_bytes(raw)[0] == REC_TYPE_SCHED_EVENT,
        record_bytes(raw).subrange(1, 5) == le_bytes(EVENT_SIZE as nat, 4),
        from_le(record_bytes(raw).subrange(1, 5)) == EVENT_SIZE,
        record_bytes(raw).subrange(5, 45) == raw,
{
    lemma_le_len(EVENT_SIZE as nat, 4);
    lemma_capacities();
    lemma_le_round_trip(EVENT_SIZE as nat, 4);
    assert(record_bytes(raw).subrange(1, 5) =~= le_bytes(EVENT_SIZE as nat, 4));
    assert(record_bytes(raw).subrange(5, 45) =~= raw);
}

pub proof fn lemma_metadata_len(event_count: u64, drop_count: u64)
    ensures
        metadata_bytes(event_count, drop_count).len() == 45,
{
    lemma_le_len(event_count as nat, 8);
    lemma_le_len(drop_count as nat, 8);
    lemma_le_len(11, 2);
    lemma_le_len(10, 2);
    lemma_le_len(8, 2);
}

pub proof fn lemma_section_len(id: u32, offset: u64, size: u64)
    ensures
        section_bytes(id, offset, size).len() == SECTION_ENTRY_SIZE,
{
    lemma_le_len(id as nat, 4);
    lemma_le_len(offset as nat, 8);
    lemma_le_len(size as nat, 8);
}

/// Parsing the metadata of a file gives back its counts.
pub proof fn law_metadata_round_trip(event_count: u64, drop_count: u64)
    ensures
        parse_entries(metadata_bytes(event_count, drop_count), 0, (None, None)) == (
            Some(event_count),
            Some(drop_count),
        ),
{
    let d = metadata_bytes(event_count, drop_count);
    lemma_metadata_len(event_count, drop_count);
    lemma_le_len(event_count as nat, 8);
    lemma_le_len(drop_count as nat, 8);
    lemma_le_len(11, 2);
    lemma_le_len(10, 2);
    lemma_le_len(8, 2);
    lemma_capacities();
    lemma_le_round_trip(11, 2);
    lemma_le_round_trip(10, 2);
    lemma_le_round_trip(8, 2);
    lemma_le_round_trip(event_count as nat, 8);
    lemma_le_round_trip(drop_count as nat, 8);
    assert(d.subrange(0, 2) =~= le_bytes(11, 2));
    assert(d.subrange(2, 13) =~= event_count_key());
    assert(d.subrange(13, 15) =~= le_bytes(8, 2));
    assert(d.subrange(15, 23) =~= le_bytes(event_count as nat, 8));
    assert(d.subrange(23, 25) =~= le_bytes(10, 2));
    assert(d.subrange(25, 35) =~= drop_count_key());
    assert(d.subrange(35, 37) =~= le_bytes(8, 2));
    assert(d.subrange(37, 45) =~= le_bytes(drop_count as nat, 8));
    assert(drop_count_key().len() != event_count_key().len());
    let one = (Some(event_count), None::<u64>);
    let two = (Some(event_count), Some(drop_count));
    assert(parse_entries(d, 45, two) == two);
    assert(parse_entries(d, 23, one) == parse_entries(d, 45, two));
    assert(parse_entries(d, 0, (None, None)) == parse_entries(d, 23, one));
}

/// The layout of an event's record: its type, one; the length of what follows as
/// four bytes; and the event.
pub proof fn law_record_layout(raw: Seq<u8>)
    requires
        raw.len() == 40,
    ensures
        ({
            let b = record_bytes(raw);
            &&& b.len() == 45
            &&& b[0] == 1
            &&& from_le(b.subrange(1, 5)) == 40
            &&& b.subrange(5, 45) == raw
        }),
{
    lemma_record(raw);
}

/// The bytes of a text of plain characters.
pub open spec fn ascii(s: Seq<char>) -> Seq<u8> {
    Seq::new(s.len(), |i: int| s[i] as u8)
}

/// The layout of a footer: the event count and the drop count under their names,
/// then an entry that says where they stand.
pub proof fn law_footer_layout(event_count: u64, drop_count: u64, at: u64)
    ensures
        event_count_key() == ascii("EVENT_COUNT"@),
        drop_count_key() == ascii("DROP_COUNT"@),
        ({
            let b = metadata_bytes(event_count, drop_count);
            &&& b.len() == 45
            &&& from_le(b.subrange(0, 2)) == 11
            &&& b.subrange(2, 13) == event_count_key()
            &&& from_le(b.subrange(13, 15)) == 8
            &&& from_le(b.subrange(15, 23)) == event_count
            &&& from_le(b.subrange(23, 25)) == 10
            &&& b.subrange(25, 35) == drop_count_key()
            &&& from_le(b.subrange(35, 37)) == 8
            &&& from_le(b.subrange(37, 45)) == drop_count
        }),
        ({
            let b = section_bytes(3, at, 45);
            &&& b.len() == 20
            &&& from_le(b.subrange(0, 4)) == 3
            &&& from_le(b.subrange(4, 12)) == at
            &&& from_le(b.subrange(12, 20)) == 45
        }),
{
    reveal_strlit("EVENT_COUNT");
    reveal_strlit("DROP_COUNT");
    assert(event_count_key() =~= ascii("EVENT_COUNT"@));
    assert(drop_count_key() =~= ascii("DROP_COUNT"@));
    lemma_capacities();
    lemma_le_len(event_count as nat, 8);
    lemma_le_len(drop_count as nat, 8);
    lemma_le_len(11, 2);
    lemma_le_len(10, 2);
    lemma_le_len(8, 2);
    lemma_le_round_trip(11, 2);
    lemma_le_round_trip(10, 2);
    lemma_le_round_trip(8, 2);
    lemma_le_round_trip(event_count as nat, 8);
    lemma_le_round_trip(drop_count as nat, 8);
    let d = metadata_bytes(event_count, drop_count);
    assert(d.subrange(0, 2) =~= le_bytes(11, 2));
    assert(d.subrange(2, 13) =~= event_count_key());
    assert(d.subrange(13, 15) =~= le_bytes(8, 2));
    assert(d.subrange(15, 23) =~= le_bytes(event_count as nat, 8));
    assert(d.subrange(23, 25) =~= le_bytes(10, 2));
    assert(d.subrange(25, 35) =~= drop_count_key());
    assert(d.subrange(35, 37) =~= le_bytes(8, 2));
    assert(d.subrange(37, 45) =~= le_bytes(drop_count as nat, 8));
    lemma_le_len(3, 4);
    lemma_le_len(at as nat, 8);
    lemma_le_len(45, 8);
    lemma_le_round_trip(3, 4);
    lemma_le_round_trip(at as nat, 8);
    lemma_le_round_trip(45, 8);
    let t = section_bytes(3, at, 45);
    assert(t.subrange(0, 4) =~= le_bytes(3, 4));
    assert(t.subrange(4, 12) =~= le_bytes(at as nat, 8));
    assert(t.subrange(12, 20) =~= le_bytes(45, 8));
}

} // verus!
