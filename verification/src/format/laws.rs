//! What reading gives back of what was written.

use vstd::prelude::*;

use super::event::{event_bytes, event_from, law_event_layout, law_event_round_trip, WperfEvent};
use super::header::{
    fresh_header, header_bytes, header_from, law_header_round_trip, magic_bytes, HeaderView,
    HEADER_SIZE, VERSION,
};
use super::reader::{
    end_of_records, events_outcome, find_metadata, footer_outcome, footer_reachable,
    metadata_outcome, no_counts, scan, scan_all, Metadata, ReaderError, Scan, WperfReader,
};
use super::stream::{overwrite, ByteStream};
use super::wire::{
    from_le, le_bytes, lemma_capacities, lemma_from_le_round_trip, lemma_le_len,
    lemma_le_round_trip,
};
use super::writer::{
    after_record, ascii, drop_count_key, event_count_key, final_header, finished_bytes,
    footer_size, law_footer_layout, law_metadata_round_trip, lemma_metadata_len, lemma_record,
    lemma_section_len, meta_entry, metadata_bytes, opened, parse_entries, record_bytes,
    section_bytes, WriterView, BOOKMARK_INTERVAL, MAX_PAYLOAD_SIZE, RECORD_SIZE,
    REC_TYPE_SCHED_EVENT, SECTION_ID_METADATA, TLV_HEADER_SIZE,
};

verus! {

/// The records of the first `n` events.
pub open spec fn records(events: Seq<WperfEvent>, n: int) -> Seq<u8>
    decreases n,
{
    if n <= 0 {
        Seq::empty()
    } else {
        records(events, n - 1) + record_bytes(event_bytes(events[n - 1]))
    }
}

/// A writer on an empty stream after the first `n` events.
pub open spec fn written(events: Seq<WperfEvent>, n: int, host_arch: u8) -> WriterView
    decreases n,
{
    if n <= 0 {
        opened(Seq::empty(), 0, host_arch)
    } else {
        after_record(written(events, n - 1, host_arch), event_bytes(events[n - 1]))
    }
}

/// How far the header on disk says that records extend after `n` events.
pub open spec fn bookmark(n: int) -> int {
    HEADER_SIZE + RECORD_SIZE * (n - n % BOOKMARK_INTERVAL as int)
}

/// The size of `n` records with their header.
pub open spec fn trace_size(n: int) -> int {
    HEADER_SIZE + RECORD_SIZE * n
}

proof fn lemma_records_len(events: Seq<WperfEvent>, n: int)
    requires
        0 <= n <= events.len(),
    ensures
        records(events, n).len() == RECORD_SIZE * n,
    decreases n,
{
    if n > 0 {
        lemma_records_len(events, n - 1);
        law_event_round_trip(events[n - 1]);
        lemma_record(event_bytes(events[n - 1]));
    }
}

/// Writing over the bookmark in a header changes nothing else.
proof fn lemma_bookmark(b: Seq<u8>, h: HeaderView, at: u64)
    requires
        h.feature_bitmap.len() == 32,
        b.len() >= HEADER_SIZE,
        b.take(HEADER_SIZE as int) == header_bytes(h),
    ensures
        ({
            let moved = overwrite(b, 8, le_bytes(at as nat, 8));
            &&& moved.len() == b.len()
            &&& moved.take(HEADER_SIZE as int) == header_bytes(
                HeaderView { data_section_end_offset: at, ..h },
            )
            &&& moved.skip(HEADER_SIZE as int) == b.skip(HEADER_SIZE as int)
        }),
{
    let moved = overwrite(b, 8, le_bytes(at as nat, 8));
    let h2 = HeaderView { data_section_end_offset: at, ..h };
    lemma_le_len(at as nat, 8);
    lemma_le_len(h.data_section_end_offset as nat, 8);
    lemma_le_len(h.section_table_offset as nat, 8);
    law_header_round_trip(h);
    law_header_round_trip(h2);
    assert(moved.len() == b.len());
    assert forall|i: int| 0 <= i < HEADER_SIZE implies moved.take(HEADER_SIZE as int)[i]
        == header_bytes(h2)[i] by {
        assert(b.take(HEADER_SIZE as int)[i] == header_bytes(h)[i]);
        if i < 8 || i >= 16 {
            assert(header_bytes(h)[i] == header_bytes(h2)[i]);
            assert(moved[i] == b[i]);
        } else {
            assert(moved[i] == le_bytes(at as nat, 8)[i - 8]);
        }
    }
    assert(moved.take(HEADER_SIZE as int) =~= header_bytes(h2));
    assert(moved.skip(HEADER_SIZE as int) =~= b.skip(HEADER_SIZE as int));
}

/// What is on disk after `n` events: a header with the last bookmark, and the
/// records of all of them.
#[verifier::spinoff_prover]
#[verifier::rlimit(50)]
pub proof fn law_written_layout(events: Seq<WperfEvent>, n: int, host_arch: u8)
    requires
        0 <= n <= events.len(),
        trace_size(n) <= u64::MAX,
    ensures
        ({
            let v = written(events, n, host_arch);
            &&& v.at == trace_size(n)
            &&& v.event_count == n
            &&& v.header == (HeaderView {
                data_section_end_offset: bookmark(n) as u64,
                ..fresh_header(host_arch)
            })
            &&& v.bytes == header_bytes(v.header) + records(events, n)
        }),
    decreases n,
{
    let v = written(events, n, host_arch);
    if n <= 0 {
        let h = fresh_header(host_arch);
        law_header_round_trip(h);
        assert(v.bytes =~= header_bytes(h) + records(events, 0));
        assert(v.header =~= HeaderView { data_section_end_offset: bookmark(0) as u64, ..h });
    } else {
        law_written_layout(events, n - 1, host_arch);
        lemma_records_len(events, n - 1);
        let w = written(events, n - 1, host_arch);
        let raw = event_bytes(events[n - 1]);
        law_event_round_trip(events[n - 1]);
        lemma_record(raw);
        law_header_round_trip(w.header);
        let more = overwrite(w.bytes, w.at, record_bytes(raw));
        assert(more =~= w.bytes + record_bytes(raw));
        assert(w.bytes + record_bytes(raw) =~= header_bytes(w.header) + records(events, n));
        let at = w.at + RECORD_SIZE as nat;
        if (w.event_count + 1) % BOOKMARK_INTERVAL as nat == 0 {
            assert(more.take(HEADER_SIZE as int) =~= header_bytes(w.header));
            lemma_bookmark(more, w.header, at as u64);
            let moved = overwrite(more, 8, le_bytes(at, 8));
            law_header_round_trip(v.header);
            assert(moved =~= moved.take(HEADER_SIZE as int) + moved.skip(HEADER_SIZE as int));
            assert(more.skip(HEADER_SIZE as int) =~= records(events, n));
            assert(bookmark(n) == at);
        } else {
            assert((n - 1) - (n - 1) % BOOKMARK_INTERVAL as int == n - n
                % BOOKMARK_INTERVAL as int);
        }
        assert(v.header =~= HeaderView {
            data_section_end_offset: bookmark(n) as u64,
            ..fresh_header(host_arch)
        });
    }
}

/// The record of event `i` in the records of `n` events.
proof fn lemma_record_at(events: Seq<WperfEvent>, n: int, i: int)
    requires
        0 <= i < n <= events.len(),
    ensures
        records(events, n).len() == RECORD_SIZE * n,
        records(events, n).subrange(RECORD_SIZE * i, RECORD_SIZE * i + RECORD_SIZE)
            == record_bytes(event_bytes(events[i])),
    decreases n,
{
    lemma_records_len(events, n);
    lemma_records_len(events, n - 1);
    law_event_round_trip(events[n - 1]);
    lemma_record(event_bytes(events[n - 1]));
    if i < n - 1 {
        lemma_record_at(events, n - 1, i);
        assert(records(events, n).subrange(RECORD_SIZE * i, RECORD_SIZE * i + RECORD_SIZE)
            =~= records(events, n - 1).subrange(
            RECORD_SIZE * i,
            RECORD_SIZE * i + RECORD_SIZE,
        ));
    } else {
        assert(records(events, n).subrange(RECORD_SIZE * i, RECORD_SIZE * i + RECORD_SIZE)
            =~= record_bytes(event_bytes(events[i])));
    }
}

/// Reading gives back the events whose records lie wholly before `end`.
#[verifier::spinoff_prover]
#[verifier::rlimit(50)]
pub proof fn law_scan_gives_back(events: Seq<WperfEvent>, b: Seq<u8>, end: int, i: int)
    requires
        HEADER_SIZE <= end <= b.len(),
        end <= trace_size(events.len() as int),
        b.subrange(HEADER_SIZE as int, end) == records(events, events.len() as int).take(
            end - HEADER_SIZE,
        ),
        0 <= i <= (end - HEADER_SIZE) / RECORD_SIZE as int,
    ensures
        scan_all(b, end, trace_size(i)).0 == events.subrange(
            i,
            (end - HEADER_SIZE) / RECORD_SIZE as int,
        ),
        scan_all(b, end, trace_size(i)).1 is End,
    decreases events.len() - i,
{
    let m = (end - HEADER_SIZE) / RECORD_SIZE as int;
    let pos = trace_size(i);
    let n = events.len() as int;
    lemma_records_len(events, n);
    assert(m <= n);
    if i < m {
        let raw = event_bytes(events[i]);
        lemma_record_at(events, n, i);
        law_event_round_trip(events[i]);
        lemma_record(raw);
        let rec = records(events, n).subrange(RECORD_SIZE * i, RECORD_SIZE * i + RECORD_SIZE);
        assert(pos + RECORD_SIZE <= end);
        assert(b.subrange(pos, pos + RECORD_SIZE) =~= rec) by {
            let body = b.subrange(HEADER_SIZE as int, end);
            assert forall|k: int| 0 <= k < RECORD_SIZE implies b.subrange(
                pos,
                pos + RECORD_SIZE,
            )[k] == rec[k] by {
                assert(body[RECORD_SIZE * i + k] == b[pos + k]);
                assert(records(events, n).take(end - HEADER_SIZE)[RECORD_SIZE * i + k] == records(
                    events,
                    n,
                )[RECORD_SIZE * i + k]);
            }
        }
        assert(b[pos] == rec[0]) by {
            assert(b.subrange(pos, pos + RECORD_SIZE)[0] == b[pos]);
        }
        assert(b.subrange(pos + 1, pos + 5) =~= rec.subrange(1, 5)) by {
            assert(b.subrange(pos, pos + RECORD_SIZE).subrange(1, 5) =~= b.subrange(
                pos + 1,
                pos + 5,
            ));
        }
        assert(b.subrange(pos + 5, pos + 45) =~= rec.subrange(5, 45)) by {
            assert(b.subrange(pos, pos + RECORD_SIZE).subrange(5, 45) =~= b.subrange(
                pos + 5,
                pos + 45,
            ));
        }
        assert(scan(b, end, pos) == (Scan::Event(events[i]), pos + RECORD_SIZE));
        law_scan_gives_back(events, b, end, i + 1);
        assert(trace_size(i + 1) == pos + RECORD_SIZE);
        let rest = scan_all(b, end, pos + RECORD_SIZE);
        assert(scan_all(b, end, pos).0 == seq![events[i]] + rest.0);
        assert(seq![events[i]] + events.subrange(i + 1, m) =~= events.subrange(i, m));
    } else {
        assert(pos + RECORD_SIZE > end);
        lemma_partial_record(events, b, end, i);
        assert(scan_all(b, end, pos).0 =~= events.subrange(i, m));
    }
}

/// A record that does not lie wholly before `end` ends the reading.
proof fn lemma_partial_record(events: Seq<WperfEvent>, b: Seq<u8>, end: int, i: int)
    requires
        HEADER_SIZE <= end <= b.len(),
        end <= trace_size(events.len() as int),
        b.subrange(HEADER_SIZE as int, end) == records(events, events.len() as int).take(
            end - HEADER_SIZE,
        ),
        i == (end - HEADER_SIZE) / RECORD_SIZE as int,
    ensures
        scan(b, end, trace_size(i)).0 is End,
{
    let pos = trace_size(i);
    let n = events.len() as int;
    lemma_records_len(events, n);
    if pos + TLV_HEADER_SIZE <= end {
        assert(i < n);
        lemma_record_at(events, n, i);
        law_event_round_trip(events[i]);
        lemma_record(event_bytes(events[i]));
        let rec = records(events, n).subrange(RECORD_SIZE * i, RECORD_SIZE * i + RECORD_SIZE);
        let body = b.subrange(HEADER_SIZE as int, end);
        let all = records(events, n).take(end - HEADER_SIZE);
        assert forall|k: int| 0 <= k < 5 implies b[pos + k] == rec[k] by {
            assert(body[RECORD_SIZE * i + k] == b[pos + k]);
            assert(all[RECORD_SIZE * i + k] == records(events, n)[RECORD_SIZE * i + k]);
        }
        assert(b.subrange(pos + 1, pos + 5) =~= rec.subrange(1, 5));
        assert(b[pos + 0] == rec[0]);
    }
}

/// How long a file is after `n` events.
proof fn lemma_written_len(events: Seq<WperfEvent>, n: int, host_arch: u8)
    requires
        0 <= n <= events.len(),
    ensures
        ({
            let v = written(events, n, host_arch);
            &&& v.at == trace_size(n)
            &&& v.bytes.len() == trace_size(n)
            &&& v.event_count == n
            &&& v.header.feature_bitmap.len() == 32
        }),
    decreases n,
{
    if n <= 0 {
        law_header_round_trip(fresh_header(host_arch));
    } else {
        lemma_written_len(events, n - 1, host_arch);
        law_event_round_trip(events[n - 1]);
        lemma_record(event_bytes(events[n - 1]));
        lemma_le_len(trace_size(n) as nat, 8);
    }
}

/// A finished file with the given events.
pub open spec fn finished_file(events: Seq<WperfEvent>, drop_count: u64, host_arch: u8) -> Seq<u8> {
    finished_bytes(written(events, events.len() as int, host_arch), drop_count)
}

/// How long a finished file is.
pub proof fn lemma_finished_len(events: Seq<WperfEvent>, drop_count: u64, host_arch: u8)
    ensures
        finished_file(events, drop_count, host_arch).len() == trace_size(events.len() as int)
            + footer_size(),
{
    let v = written(events, events.len() as int, host_arch);
    lemma_written_len(events, events.len() as int, host_arch);
    let meta = metadata_bytes(v.event_count as u64, drop_count);
    lemma_metadata_len(v.event_count as u64, drop_count);
    lemma_section_len(SECTION_ID_METADATA, v.at as u64, meta.len() as u64);
    law_header_round_trip(final_header(v, drop_count));
}

/// The footer of a finished file gives back how many events were written and how
/// many were lost, wherever its reader stands: counts never come out wrong, and
/// they are missing only where the device fails.
pub proof fn law_counts_are_given_back<R: ByteStream>(
    reader: WperfReader<R>,
    events: Seq<WperfEvent>,
    drop_count: u64,
    host_arch: u8,
)
    requires
        reader.reads(finished_file(events, drop_count, host_arch)),
    ensures
        events.len() <= u64::MAX,
        forall|r: Result<Metadata, ReaderError>, after: WperfReader<R>| #[trigger]
            footer_outcome(reader, r, after) ==> {
                ||| r == Ok::<Metadata, ReaderError>(
                    Metadata {
                        event_count: Some(events.len() as u64),
                        drop_count: Some(drop_count),
                    },
                )
                ||| !reader.healthy() && r == Ok::<Metadata, ReaderError>(no_counts())
                ||| !reader.healthy() && (r matches Err(e) && e is Io)
            },
{
    lemma_finished_len(events, drop_count, host_arch);
    reader.lemma_wf();
    law_finished_trace(events, drop_count, host_arch);
}

/// Reading a finished file, or what is left of it after it was cut off at `size`,
/// gives back exactly the events whose records are wholly there, in order. It
/// fails only where the device does.
pub proof fn law_events_are_given_back<R: ByteStream>(
    reader: WperfReader<R>,
    events: Seq<WperfEvent>,
    drop_count: u64,
    host_arch: u8,
    size: int,
)
    requires
        trace_size(events.len() as int) + footer_size() <= u64::MAX,
        HEADER_SIZE <= size <= finished_file(events, drop_count, host_arch).len(),
        reader.reads(finished_file(events, drop_count, host_arch).take(size)),
        reader.at() == HEADER_SIZE,
    ensures
        forall|r: Result<Vec<WperfEvent>, ReaderError>, after: WperfReader<R>| #[trigger]
            events_outcome(reader, r, after) ==> {
                ||| r matches Ok(found) && found@ == events.take(whole_records(events, size))
                ||| !reader.healthy() && (r matches Err(e) && e is Io)
            },
        size == finished_file(events, drop_count, host_arch).len() ==> events.take(
            whole_records(events, size),
        ) == events,
{
    let b = finished_file(events, drop_count, host_arch);
    lemma_finished_len(events, drop_count, host_arch);
    lemma_finished_layout(events, drop_count, host_arch);
    assert(end_of_records(b.take(size)) == cut_end(events, size)) by {
        lemma_finished_end(events, drop_count, host_arch, size);
    }
    lemma_cut_scan(events, b, size);
    assert(size == b.len() ==> events.take(whole_records(events, size)) =~= events);
}

/// Where the records of a file with the given events end if it is cut off at
/// `size`.
spec fn cut_end(events: Seq<WperfEvent>, size: int) -> int {
    if trace_size(events.len() as int) <= size {
        trace_size(events.len() as int)
    } else {
        size
    }
}

proof fn lemma_finished_end(events: Seq<WperfEvent>, drop_count: u64, host_arch: u8, size: int)
    requires
        trace_size(events.len() as int) + footer_size() <= u64::MAX,
        HEADER_SIZE <= size <= finished_file(events, drop_count, host_arch).len(),
    ensures
        end_of_records(finished_file(events, drop_count, host_arch).take(size)) == cut_end(
            events,
            size,
        ),
{
    let b = finished_file(events, drop_count, host_arch);
    let v = written(events, events.len() as int, host_arch);
    lemma_finished_layout(events, drop_count, host_arch);
    lemma_written_len(events, events.len() as int, host_arch);
    law_header_round_trip(final_header(v, drop_count));
    assert(b.take(size).take(HEADER_SIZE as int) =~= b.take(HEADER_SIZE as int));
}

proof fn lemma_cut_scan(events: Seq<WperfEvent>, b: Seq<u8>, size: int)
    requires
        HEADER_SIZE <= size <= b.len(),
        trace_size(events.len() as int) <= b.len(),
        b.subrange(HEADER_SIZE as int, trace_size(events.len() as int)) == records(
            events,
            events.len() as int,
        ),
    ensures
        ({
            let found = scan_all(b.take(size), cut_end(events, size), HEADER_SIZE as int);
            found.0 == events.take(whole_records(events, size)) && found.1 is End
        }),
{
    let n = events.len() as int;
    let cut = b.take(size);
    let end = cut_end(events, size);
    lemma_records_len(events, n);
    assert(cut.subrange(HEADER_SIZE as int, end) =~= records(events, n).take(end - HEADER_SIZE)) by {
        assert(cut.subrange(HEADER_SIZE as int, end) =~= b.subrange(
            HEADER_SIZE as int,
            trace_size(n),
        ).take(end - HEADER_SIZE));
    }
    law_scan_gives_back(events, cut, end, 0);
    let m = (end - HEADER_SIZE) / RECORD_SIZE as int;
    assert(m == whole_records(events, size));
    assert(events.subrange(0, m) =~= events.take(m));
}

/// How many of the records of events lie wholly before `size`.
pub open spec fn whole_records(events: Seq<WperfEvent>, size: int) -> int {
    let fit = (size - HEADER_SIZE) / RECORD_SIZE as int;
    if fit <= events.len() {
        fit
    } else {
        events.len() as int
    }
}

/// A finished file starts with its header, then come the records.
proof fn lemma_finished_layout(events: Seq<WperfEvent>, drop_count: u64, host_arch: u8)
    requires
        trace_size(events.len() as int) + footer_size() <= u64::MAX,
    ensures
        ({
            let n = events.len() as int;
            let v = written(events, n, host_arch);
            let b = finished_file(events, drop_count, host_arch);
            let meta = metadata_bytes(n as u64, drop_count);
            let table = section_bytes(SECTION_ID_METADATA, v.at as u64, 45);
            &&& b == header_bytes(final_header(v, drop_count)) + records(events, n) + meta + table
            &&& b.take(HEADER_SIZE as int) == header_bytes(final_header(v, drop_count))
            &&& b.subrange(HEADER_SIZE as int, trace_size(n)) == records(events, n)
        }),
{
    let n = events.len() as int;
    let v = written(events, n, host_arch);
    law_written_layout(events, n, host_arch);
    lemma_records_len(events, n);
    law_header_round_trip(v.header);
    let meta = metadata_bytes(n as u64, drop_count);
    lemma_metadata_len(n as u64, drop_count);
    let table = section_bytes(SECTION_ID_METADATA, v.at as u64, 45);
    lemma_section_len(SECTION_ID_METADATA, v.at as u64, 45);
    let fh = final_header(v, drop_count);
    law_header_round_trip(fh);
    let with_meta = overwrite(v.bytes, v.at, meta);
    assert(with_meta =~= v.bytes + meta);
    let with_table = overwrite(with_meta, v.at + meta.len(), table);
    assert(with_table =~= v.bytes + meta + table);
    let b = finished_file(events, drop_count, host_arch);
    assert(b =~= header_bytes(fh) + records(events, n) + meta + table);
    assert(b.take(HEADER_SIZE as int) =~= header_bytes(fh));
    assert(b.subrange(HEADER_SIZE as int, trace_size(n)) =~= records(events, n));
}

/// The read of a finished file gives back what was written: every event in
/// order, the event count and the drop count.
pub proof fn law_finished_trace(events: Seq<WperfEvent>, drop_count: u64, host_arch: u8)
    requires
        trace_size(events.len() as int) + footer_size() <= i64::MAX,
    ensures
        ({
            let n = events.len() as int;
            let b = finished_file(events, drop_count, host_arch);
            let h = header_from(b.take(HEADER_SIZE as int));
            &&& b.len() == trace_size(n) + footer_size()
            &&& b.subrange(0, 4) == magic_bytes()
            &&& b[4] == VERSION
            &&& h == final_header(written(events, n, host_arch), drop_count)
            &&& h.data_section_end_offset == trace_size(n)
            &&& scan_all(b, trace_size(n), HEADER_SIZE as int).0 == events
            &&& scan_all(b, trace_size(n), HEADER_SIZE as int).1 is End
            &&& footer_reachable(b, h)
            &&& forall|r: Result<Metadata, ReaderError>| #[trigger]
                metadata_outcome(b, h, r) ==> r == Ok::<Metadata, ReaderError>(
                    Metadata { event_count: Some(n as u64), drop_count: Some(drop_count) },
                )
        }),
{
    let n = events.len() as int;
    let v = written(events, n, host_arch);
    lemma_finished_layout(events, drop_count, host_arch);
    law_written_layout(events, n, host_arch);
    lemma_records_len(events, n);
    let meta = metadata_bytes(n as u64, drop_count);
    lemma_metadata_len(n as u64, drop_count);
    let table = section_bytes(SECTION_ID_METADATA, v.at as u64, 45);
    lemma_section_len(SECTION_ID_METADATA, v.at as u64, 45);
    let fh = final_header(v, drop_count);
    law_header_round_trip(fh);
    let b = finished_bytes(v, drop_count);
    assert(b.subrange(0, 4) =~= header_bytes(fh).subrange(0, 4));
    assert(b[4] == header_bytes(fh)[4]);
    let end = trace_size(n);
    assert(b.subrange(HEADER_SIZE as int, end) =~= records(events, n).take(end - HEADER_SIZE));
    law_scan_gives_back(events, b, end, 0);
    assert(events.subrange(0, n) =~= events);
    assert((end - HEADER_SIZE) / RECORD_SIZE as int == n);
    // The footer.
    let st = end + 45;
    assert(fh.section_table_offset == st);
    assert(b.subrange(st, st + 20) =~= table);
    lemma_le_len(SECTION_ID_METADATA as nat, 4);
    lemma_le_len(v.at, 8);
    lemma_le_len(meta.len(), 8);
    lemma_capacities();
    lemma_le_round_trip(SECTION_ID_METADATA as nat, 4);
    lemma_le_round_trip(v.at, 8);
    lemma_le_round_trip(meta.len(), 8);
    assert(b.subrange(st, st + 4) =~= le_bytes(SECTION_ID_METADATA as nat, 4));
    assert(b.subrange(st + 4, st + 12) =~= le_bytes(v.at, 8));
    assert(b.subrange(st + 12, st + 20) =~= le_bytes(meta.len(), 8));
    assert(find_metadata(b, st) == Some((end as u64, 45u64)));
    assert(b.subrange(end, end + 45) =~= meta);
    law_metadata_round_trip(n as u64, drop_count);
}

/// The read of a file that was never finished, or cut off at `cut`, gives back
/// the events up to the last bookmark whose records are wholly there, and no
/// counts.
pub proof fn law_unfinished_trace(events: Seq<WperfEvent>, host_arch: u8, cut: int)
    requires
        trace_size(events.len() as int) <= i64::MAX,
        HEADER_SIZE <= cut <= trace_size(events.len() as int),
    ensures
        ({
            let n = events.len() as int;
            let b = written(events, n, host_arch).bytes.take(cut);
            let h = header_from(b.take(HEADER_SIZE as int));
            let end = if bookmark(n) <= cut {
                bookmark(n)
            } else {
                cut
            };
            &&& b.subrange(0, 4) == magic_bytes()
            &&& b[4] == VERSION
            &&& h.data_section_end_offset == bookmark(n)
            &&& scan_all(b, end, HEADER_SIZE as int).0 == events.take(
                (end - HEADER_SIZE) / RECORD_SIZE as int,
            )
            &&& scan_all(b, end, HEADER_SIZE as int).1 is End
            &&& forall|r: Result<Metadata, ReaderError>| #[trigger]
                metadata_outcome(b, h, r) ==> r == Ok::<Metadata, ReaderError>(
                    Metadata { event_count: None, drop_count: None },
                )
        }),
{
    let n = events.len() as int;
    let v = written(events, n, host_arch);
    law_written_layout(events, n, host_arch);
    lemma_records_len(events, n);
    law_header_round_trip(v.header);
    let b = v.bytes.take(cut);
    let end = if bookmark(n) <= cut {
        bookmark(n)
    } else {
        cut
    };
    assert(b.take(HEADER_SIZE as int) =~= header_bytes(v.header));
    assert(b.subrange(0, 4) =~= header_bytes(v.header).subrange(0, 4));
    assert(b[4] == header_bytes(v.header)[4]);
    assert(bookmark(n) >= HEADER_SIZE);
    assert(b.subrange(HEADER_SIZE as int, end) =~= records(events, n).take(end - HEADER_SIZE));
    law_scan_gives_back(events, b, end, 0);
    let m = (end - HEADER_SIZE) / RECORD_SIZE as int;
    assert(events.subrange(0, m) =~= events.take(m));
}

/// A record of a trace: an event, or something that this version does not know.
pub enum Record {
    Event(WperfEvent),
    Other { rec_type: u8, payload: Seq<u8> },
}

/// The bytes of a record.
pub open spec fn bytes_of(r: Record) -> Seq<u8> {
    match r {
        Record::Event(e) => record_bytes(event_bytes(e)),
        Record::Other { rec_type, payload } => seq![rec_type] + le_bytes(payload.len(), 4)
            + payload,
    }
}

/// The bytes of records, one after the other.
pub open spec fn bytes_of_all(rs: Seq<Record>) -> Seq<u8>
    decreases rs.len(),
{
    if rs.len() == 0 {
        Seq::empty()
    } else {
        bytes_of(rs.first()) + bytes_of_all(rs.drop_first())
    }
}

/// The events among records.
pub open spec fn events_among(rs: Seq<Record>) -> Seq<WperfEvent>
    decreases rs.len(),
{
    if rs.len() == 0 {
        Seq::empty()
    } else {
        match rs.first() {
            Record::Event(e) => seq![e] + events_among(rs.drop_first()),
            Record::Other { .. } => events_among(rs.drop_first()),
        }
    }
}

/// The record is an event, or of an unknown type and not too large.
pub open spec fn is_readable(r: Record) -> bool {
    r matches Record::Other { rec_type, payload } ==> rec_type != REC_TYPE_SCHED_EVENT
        && payload.len() <= MAX_PAYLOAD_SIZE
}

/// Reading gives back the events among records of which some are of unknown
/// types, wherever these stand.
pub proof fn law_unknown_records_are_skipped(b: Seq<u8>, pos: int, rs: Seq<Record>)
    requires
        0 <= pos,
        pos + bytes_of_all(rs).len() <= b.len(),
        b.subrange(pos, pos + bytes_of_all(rs).len()) == bytes_of_all(rs),
        forall|i: int| 0 <= i < rs.len() ==> is_readable(#[trigger] rs[i]),
    ensures
        ({
            let end = pos + bytes_of_all(rs).len();
            scan_all(b, end, pos) == (events_among(rs), Scan::End, end)
        }),
    decreases rs.len(),
{
    let end = pos + bytes_of_all(rs).len();
    if rs.len() > 0 {
        let rest = rs.drop_first();
        let rec = bytes_of(rs[0]);
        let next = pos + rec.len();
        let all = b.subrange(pos, end);
        assert(b.subrange(next, end) =~= bytes_of_all(rest)) by {
            assert(all.skip(rec.len() as int) =~= bytes_of_all(rest));
            assert(b.subrange(next, end) =~= all.skip(rec.len() as int));
        }
        assert(b.subrange(pos, next) =~= rec) by {
            assert(all.take(rec.len() as int) =~= rec);
            assert(b.subrange(pos, next) =~= all.take(rec.len() as int));
        }
        law_unknown_records_are_skipped(b, next, rest);
        assert(is_readable(rs[0]));
        match rs[0] {
            Record::Event(e) => {
                law_event_round_trip(e);
                lemma_record(event_bytes(e));
                assert(b.subrange(pos, next).subrange(1, 5) =~= b.subrange(pos + 1, pos + 5));
                assert(b.subrange(pos, next).subrange(5, 45) =~= b.subrange(pos + 5, pos + 45));
                assert(b[pos] == rec[0]);
                assert(scan(b, end, pos) == (Scan::Event(e), next));
            },
            Record::Other { rec_type, payload } => {
                lemma_le_len(payload.len(), 4);
                lemma_capacities();
                lemma_le_round_trip(payload.len(), 4);
                assert(rec.subrange(1, 5) =~= le_bytes(payload.len(), 4));
                assert(b.subrange(pos, next).subrange(1, 5) =~= b.subrange(pos + 1, pos + 5));
                assert(b[pos] == rec[0]);
                assert(scan(b, end, pos) == scan(b, end, next));
            },
        }
    }
}

/// While a file is written its header knows of all records up to the last multiple
/// of 8192 events; and the writer knows when the first event was and when the
/// latest.
pub proof fn law_writer_keeps_track(events: Seq<WperfEvent>, n: int, host_arch: u8)
    requires
        0 <= n <= events.len(),
        trace_size(n) <= u64::MAX,
    ensures
        ({
            let v = written(events, n, host_arch);
            &&& v.event_count == n
            &&& v.at == 64 + 45 * n
            &&& v.header.data_section_end_offset == 64 + 45 * (n - n % 8192)
            &&& v.header.section_table_offset == 0
            &&& n == 0 ==> v.start_timestamp_ns is None && v.end_timestamp_ns == 0
            &&& n > 0 ==> v.start_timestamp_ns == Some(events[0].timestamp_ns)
            &&& forall|i: int|
                0 <= i < n ==> (#[trigger] events[i]).timestamp_ns <= v.end_timestamp_ns
            &&& v.end_timestamp_ns == 0 || exists|i: int|
                0 <= i < n && (#[trigger] events[i]).timestamp_ns == v.end_timestamp_ns
        }),
    decreases n,
{
    law_written_layout(events, n, host_arch);
    if n > 0 {
        law_writer_keeps_track(events, n - 1, host_arch);
        let e = events[n - 1];
        law_event_layout(e);
        let before = written(events, n - 1, host_arch);
        let v = written(events, n, host_arch);
        if v.end_timestamp_ns == e.timestamp_ns {
            assert(events[n - 1].timestamp_ns == v.end_timestamp_ns);
        }
    }
}

/// A finished file says where its records end and where its footer is, and that it
/// is complete.
pub proof fn law_finished_header(events: Seq<WperfEvent>, drop_count: u64, host_arch: u8)
    requires
        trace_size(events.len() as int) + footer_size() <= u64::MAX,
    ensures
        ({
            let n = events.len() as int;
            let h = header_from(finished_file(events, drop_count, host_arch).take(64));
            &&& h.version == 1
            &&& h.host_arch == host_arch
            &&& h.data_section_end_offset == 64 + 45 * n
            &&& h.section_table_offset == 64 + 45 * n + 45
            &&& h.feature_bitmap.len() == 32
            &&& h.feature_bitmap[0] == 1
            &&& forall|i: int| 1 <= i < 32 ==> #[trigger] h.feature_bitmap[i] == 0
        }),
{
    let n = events.len() as int;
    let v = written(events, n, host_arch);
    lemma_finished_layout(events, drop_count, host_arch);
    law_written_layout(events, n, host_arch);
    lemma_metadata_len(n as u64, drop_count);
    law_header_round_trip(final_header(v, drop_count));
    assert(0u8 | 1u8 == 1u8) by (bit_vector);
}

/// The first entry of the section table for the metadata counts: entries are 20
/// bytes each, and the number of the metadata is three.
pub proof fn law_first_section_counts(b: Seq<u8>, pos: int)
    requires
        0 <= pos,
    ensures
        find_metadata(b, pos) matches Some(found) ==> exists|i: int|
            #![trigger b.subrange(pos + 20 * i, pos + 20 * i + 4)]
            {
                &&& 0 <= i
                &&& pos + 20 * i + 20 <= b.len()
                &&& from_le(b.subrange(pos + 20 * i, pos + 20 * i + 4)) == 3
                &&& found.0 == from_le(b.subrange(pos + 20 * i + 4, pos + 20 * i + 12))
                &&& found.1 == from_le(b.subrange(pos + 20 * i + 12, pos + 20 * i + 20))
                &&& forall|j: int|
                    0 <= j < i ==> from_le(
                        #[trigger] b.subrange(pos + 20 * j, pos + 20 * j + 4),
                    ) != 3
            },
        find_metadata(b, pos) is None ==> forall|j: int|
            0 <= j && pos + 20 * j + 20 <= b.len() ==> from_le(
                #[trigger] b.subrange(pos + 20 * j, pos + 20 * j + 4),
            ) != 3,
    decreases b.len() - pos,
{
    if pos + 20 <= b.len() {
        if from_le(b.subrange(pos, pos + 4)) == 3 {
            lemma_capacities();
            lemma_from_le_round_trip(b.subrange(pos + 4, pos + 12));
            lemma_from_le_round_trip(b.subrange(pos + 12, pos + 20));
            assert(from_le(b.subrange(pos + 20 * 0, pos + 20 * 0 + 4)) == 3);
        } else {
            let next = pos + 20;
            law_first_section_counts(b, next);
            assert forall|j: int|
                0 < j implies #[trigger] b.subrange(pos + 20 * j, pos + 20 * j + 4) == b.subrange(
                next + 20 * (j - 1),
                next + 20 * (j - 1) + 4,
            ) by {}
            if let Some(found) = find_metadata(b, pos) {
                let i = choose|i: int|
                    #![trigger b.subrange(next + 20 * i, next + 20 * i + 4)]
                    {
                        &&& 0 <= i
                        &&& next + 20 * i + 20 <= b.len()
                        &&& from_le(b.subrange(next + 20 * i, next + 20 * i + 4)) == 3
                        &&& found.0 == from_le(b.subrange(next + 20 * i + 4, next + 20 * i + 12))
                        &&& found.1 == from_le(b.subrange(next + 20 * i + 12, next + 20 * i + 20))
                        &&& forall|j: int|
                            0 <= j < i ==> from_le(
                                #[trigger] b.subrange(next + 20 * j, next + 20 * j + 4),
                            ) != 3
                    };
                let k = i + 1;
                assert(b.subrange(pos + 20 * k, pos + 20 * k + 4) == b.subrange(
                    next + 20 * i,
                    next + 20 * i + 4,
                ));
                assert forall|j: int| 0 <= j < k implies from_le(
                    #[trigger] b.subrange(pos + 20 * j, pos + 20 * j + 4),
                ) != 3 by {
                    if j > 0 {
                        assert(from_le(
                            b.subrange(next + 20 * (j - 1), next + 20 * (j - 1) + 4),
                        ) != 3);
                    }
                }
            } else {
                assert forall|j: int| 0 <= j && pos + 20 * j + 20 <= b.len() implies from_le(
                    #[trigger] b.subrange(pos + 20 * j, pos + 20 * j + 4),
                ) != 3 by {
                    if j > 0 {
                        assert(from_le(
                            b.subrange(next + 20 * (j - 1), next + 20 * (j - 1) + 4),
                        ) != 3);
                    }
                }
            }
        }
    }
}

/// A record is read by its frame: too long a payload is refused, whatever its
/// type; one that does not end before `end` ends the reading; an event must have
/// the length of one; and other records are passed over. Reading stops behind the
/// frame of the record that ends it.
pub proof fn law_records_are_read_by_frame(b: Seq<u8>, end: int, pos: int)
    requires
        0 <= pos,
        end <= b.len(),
    ensures
        ({
            let length = from_le(b.subrange(pos + 1, pos + 5)) as int;
            let next = pos + 5 + length;
            &&& pos + 5 > end ==> scan(b, end, pos) == (Scan::End, pos)
            &&& pos + 5 <= end && length > 16_777_216 ==> scan(b, end, pos) == (
                Scan::TooLarge { rec_type: b[pos], length: length as u32 },
                pos + 5,
            )
            &&& pos + 5 <= end && length <= 16_777_216 && next > end ==> scan(b, end, pos) == (
                Scan::End,
                pos + 5,
            )
            &&& pos + 5 <= end && length <= 16_777_216 && next <= end && b[pos] == 1 && length
                != 40 ==> scan(b, end, pos) == (
                Scan::BadSize { actual: length as u32 },
                pos + 5,
            )
            &&& pos + 5 <= end && next <= end && b[pos] == 1 && length == 40 ==> scan(b, end, pos)
                == (Scan::Event(event_from(b.subrange(pos + 5, next))), next)
            &&& pos + 5 <= end && length <= 16_777_216 && next <= end && b[pos] != 1 ==> scan(
                b,
                end,
                pos,
            ) == scan(b, end, next)
        }),
{
    if pos + 5 <= end {
        lemma_capacities();
        lemma_from_le_round_trip(b.subrange(pos + 1, pos + 5));
    }
}

/// Where the records of a file end: where its header says, or at its end if that
/// comes first.
pub proof fn law_records_end(b: Seq<u8>)
    requires
        b.len() >= 64,
    ensures
        ({
            let stated = from_le(b.subrange(8, 16));
            &&& end_of_records(b) <= b.len()
            &&& end_of_records(b) <= stated
            &&& end_of_records(b) == b.len() || end_of_records(b) == stated
        }),
{
    lemma_capacities();
    lemma_from_le_round_trip(b.subrange(8, 16));
    assert(b.take(64).subrange(8, 16) =~= b.subrange(8, 16));
}

/// What reading a footer comes to: a file without one, or without metadata, tells
/// no counts; metadata of more than 16 MiB is refused, and metadata that the file
/// does not hold in full is an error.
pub proof fn law_footer_is_checked(
    b: Seq<u8>,
    header: HeaderView,
    r: Result<Metadata, ReaderError>,
)
    requires
        metadata_outcome(b, header, r),
    ensures
        header.section_table_offset == 0 ==> (r matches Ok(m) && m.event_count is None
            && m.drop_count is None),
        header.section_table_offset > 0 ==> match find_metadata(
            b,
            header.section_table_offset as int,
        ) {
            None => r matches Ok(m) && m.event_count is None && m.drop_count is None,
            Some((offset, size)) => {
                &&& r is Ok <==> size <= 16_777_216 && (size == 0 || offset + size <= b.len())
                &&& size > 16_777_216 ==> (r matches Err(
                    ReaderError::PayloadTooLarge { rec_type, length },
                ) && rec_type == 3 && length <= size && (length == size || length
                    == 4_294_967_295))
                &&& size <= 16_777_216 && size > 0 && offset + size > b.len() ==> (r matches Err(
                    ReaderError::Io(e),
                ) && e is UnexpectedEof)
                &&& size == 0 ==> (r matches Ok(m) && m.event_count is None
                    && m.drop_count is None)
            },
        },
{
}

/// Metadata is read entry by entry: an entry with the name of a count and eight
/// bytes sets that count, any other is passed over, and the last one counts.
pub proof fn law_entries_are_read_in_turn(
    before: Seq<u8>,
    key: Seq<u8>,
    value: Seq<u8>,
    rest: Seq<u8>,
    found: (Option<u64>, Option<u64>),
)
    requires
        key.len() <= 65_535,
        value.len() <= 65_535,
    ensures
        ({
            let data = before + meta_entry(key, value) + rest;
            let at = before.len() as int;
            let next = at + 4 + key.len() + value.len();
            let events = key == ascii("EVENT_COUNT"@) && value.len() == 8;
            let drops = key == ascii("DROP_COUNT"@) && value.len() == 8;
            &&& events ==> parse_entries(data, at, found) == parse_entries(
                data,
                next,
                (Some(from_le(value) as u64), found.1),
            )
            &&& drops ==> parse_entries(data, at, found) == parse_entries(
                data,
                next,
                (found.0, Some(from_le(value) as u64)),
            )
            &&& !events && !drops ==> parse_entries(data, at, found) == parse_entries(
                data,
                next,
                found,
            )
        }),
        parse_entries(before, before.len() as int, found) == found,
{
    assert(event_count_key() == ascii("EVENT_COUNT"@) && drop_count_key() == ascii("DROP_COUNT"@)
        && event_count_key().len() != drop_count_key().len()) by {
        law_footer_layout(0, 0, 0);
    }
    lemma_entry_ahead(before, key, value, rest);
}

/// How an entry of the metadata lies in the bytes.
proof fn lemma_entry_ahead(before: Seq<u8>, key: Seq<u8>, value: Seq<u8>, rest: Seq<u8>)
    requires
        key.len() <= 65_535,
        value.len() <= 65_535,
    ensures
        ({
            let data = before + meta_entry(key, value) + rest;
            let at = before.len() as int;
            let key_end = at + 2 + key.len();
            let end = key_end + 2 + value.len();
            &&& end <= data.len()
            &&& from_le(data.subrange(at, at + 2)) == key.len()
            &&& data.subrange(at + 2, key_end) == key
            &&& from_le(data.subrange(key_end, key_end + 2)) == value.len()
            &&& data.subrange(key_end + 2, end) == value
        }),
{
    let data = before + meta_entry(key, value) + rest;
    let at = before.len() as int;
    let key_end = at + 2 + key.len();
    let end = key_end + 2 + value.len();
    lemma_capacities();
    lemma_le_len(key.len(), 2);
    lemma_le_len(value.len(), 2);
    lemma_le_round_trip(key.len(), 2);
    lemma_le_round_trip(value.len(), 2);
    assert(data.subrange(at, at + 2) =~= le_bytes(key.len(), 2));
    assert(data.subrange(at + 2, key_end) =~= key);
    assert(data.subrange(key_end, key_end + 2) =~= le_bytes(value.len(), 2));
    assert(data.subrange(key_end + 2, end) =~= value);
}

} // verus!
