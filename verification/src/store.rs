//! Storage backends behind one contract.
//!
//! A backend records Streams and Events.  Its model is the pair of record
//! histories written successfully through the handle; every operation's
//! contract says exactly how it extends them.  The flat-file backend
//! additionally ties the histories to the bytes of its compressed files:
//! while the backend is healthy, decompressing everything it wrote yields
//! exactly one JSON line per record, in write order.

use vstd::prelude::*;
use vstd::string::StringSliceAdditionalSpecFns;

use crate::json::valid_payload;
use crate::render::{dec_digits, esc, push_escaped, push_u64};
use crate::splitter::check_payload;
use crate::writer::{JsonFileWriter, OutputFile};
use crate::{StorageError, StreamId};

verus! {

/// Caller-assigned position of an event within its stream.
pub type StreamEventIndex = u64;

/// The opaque serialized header blob carried from the originating request.
pub type SerializedHeaders = str;

/// One recorded stream: its identifier, start timestamp bytes, and headers.
pub struct StreamRecord {
    pub stream_id: u32,
    pub start: Seq<u8>,
    pub headers: Seq<u8>,
}

/// One recorded event: its stream, index, insert timestamp bytes, payload.
pub struct EventRecord {
    pub stream_id: u32,
    pub index: u64,
    pub insert: Seq<u8>,
    pub payload: Seq<u8>,
}

/// The bytes of `{\"headers\":\"`.
pub open spec fn lit_stream_head() -> Seq<u8> {
    seq![123u8, 34u8, 104u8, 101u8, 97u8, 100u8, 101u8, 114u8, 115u8, 34u8, 58u8, 34u8]
}

fn push_lit_stream_head(out: &mut Vec<u8>)
    ensures
        final(out)@ == old(out)@ + lit_stream_head(),
{
    out.push(123);
    out.push(34);
    out.push(104);
    out.push(101);
    out.push(97);
    out.push(100);
    out.push(101);
    out.push(114);
    out.push(115);
    out.push(34);
    out.push(58);
    out.push(34);
    proof {
        assert(out@ =~= old(out)@ + lit_stream_head());
    }
}

/// The bytes of `\",\"start_datetime\":\"`.
pub open spec fn lit_stream_mid1() -> Seq<u8> {
    seq![34u8, 44u8, 34u8, 115u8, 116u8, 97u8, 114u8, 116u8, 95u8, 100u8, 97u8, 116u8, 101u8, 116u8, 105u8, 109u8, 101u8, 34u8, 58u8, 34u8]
}

fn push_lit_stream_mid1(out: &mut Vec<u8>)
    ensures
        final(out)@ == old(out)@ + lit_stream_mid1(),
{
    out.push(34);
    out.push(44);
    out.push(34);
    out.push(115);
    out.push(116);
    out.push(97);
    out.push(114);
    out.push(116);
    out.push(95);
    out.push(100);
    out.push(97);
    out.push(116);
    out.push(101);
    out.push(116);
    out.push(105);
    out.push(109);
    out.push(101);
    out.push(34);
    out.push(58);
    out.push(34);
    proof {
        assert(out@ =~= old(out)@ + lit_stream_mid1());
    }
}

/// The bytes of `\",\"stream_id\":`.
pub open spec fn lit_stream_mid2() -> Seq<u8> {
    seq![34u8, 44u8, 34u8, 115u8, 116u8, 114u8, 101u8, 97u8, 109u8, 95u8, 105u8, 100u8, 34u8, 58u8]
}

fn push_lit_stream_mid2(out: &mut Vec<u8>)
    ensures
        final(out)@ == old(out)@ + lit_stream_mid2(),
{
    out.push(34);
    out.push(44);
    out.push(34);
    out.push(115);
    out.push(116);
    out.push(114);
    out.push(101);
    out.push(97);
    out.push(109);
    out.push(95);
    out.push(105);
    out.push(100);
    out.push(34);
    out.push(58);
    proof {
        assert(out@ =~= old(out)@ + lit_stream_mid2());
    }
}

/// The bytes of `}\n`.
pub open spec fn lit_line_end() -> Seq<u8> {
    seq![125u8, 10u8]
}

fn push_lit_line_end(out: &mut Vec<u8>)
    ensures
        final(out)@ == old(out)@ + lit_line_end(),
{
    out.push(125);
    out.push(10);
    proof {
        assert(out@ =~= old(out)@ + lit_line_end());
    }
}

/// The bytes of `{\"insert_datetime\":\"`.
pub open spec fn lit_event_head() -> Seq<u8> {
    seq![123u8, 34u8, 105u8, 110u8, 115u8, 101u8, 114u8, 116u8, 95u8, 100u8, 97u8, 116u8, 101u8, 116u8, 105u8, 109u8, 101u8, 34u8, 58u8, 34u8]
}

fn push_lit_event_head(out: &mut Vec<u8>)
    ensures
        final(out)@ == old(out)@ + lit_event_head(),
{
    out.push(123);
    out.push(34);
    out.push(105);
    out.push(110);
    out.push(115);
    out.push(101);
    out.push(114);
    out.push(116);
    out.push(95);
    out.push(100);
    out.push(97);
    out.push(116);
    out.push(101);
    out.push(116);
    out.push(105);
    out.push(109);
    out.push(101);
    out.push(34);
    out.push(58);
    out.push(34);
    proof {
        assert(out@ =~= old(out)@ + lit_event_head());
    }
}

/// The bytes of `\",\"payload\":`.
pub open spec fn lit_event_mid1() -> Seq<u8> {
    seq![34u8, 44u8, 34u8, 112u8, 97u8, 121u8, 108u8, 111u8, 97u8, 100u8, 34u8, 58u8]
}

fn push_lit_event_mid1(out: &mut Vec<u8>)
    ensures
        final(out)@ == old(out)@ + lit_event_mid1(),
{
    out.push(34);
    out.push(44);
    out.push(34);
    out.push(112);
    out.push(97);
    out.push(121);
    out.push(108);
    out.push(111);
    out.push(97);
    out.push(100);
    out.push(34);
    out.push(58);
    proof {
        assert(out@ =~= old(out)@ + lit_event_mid1());
    }
}

/// The bytes of `,\"stream_event_index\":`.
pub open spec fn lit_event_mid2() -> Seq<u8> {
    seq![44u8, 34u8, 115u8, 116u8, 114u8, 101u8, 97u8, 109u8, 95u8, 101u8, 118u8, 101u8, 110u8, 116u8, 95u8, 105u8, 110u8, 100u8, 101u8, 120u8, 34u8, 58u8]
}

fn push_lit_event_mid2(out: &mut Vec<u8>)
    ensures
        final(out)@ == old(out)@ + lit_event_mid2(),
{
    out.push(44);
    out.push(34);
    out.push(115);
    out.push(116);
    out.push(114);
    out.push(101);
    out.push(97);
    out.push(109);
    out.push(95);
    out.push(101);
    out.push(118);
    out.push(101);
    out.push(110);
    out.push(116);
    out.push(95);
    out.push(105);
    out.push(110);
    out.push(100);
    out.push(101);
    out.push(120);
    out.push(34);
    out.push(58);
    proof {
        assert(out@ =~= old(out)@ + lit_event_mid2());
    }
}

/// The bytes of `,\"stream_id\":`.
pub open spec fn lit_event_mid3() -> Seq<u8> {
    seq![44u8, 34u8, 115u8, 116u8, 114u8, 101u8, 97u8, 109u8, 95u8, 105u8, 100u8, 34u8, 58u8]
}

fn push_lit_event_mid3(out: &mut Vec<u8>)
    ensures
        final(out)@ == old(out)@ + lit_event_mid3(),
{
    out.push(44);
    out.push(34);
    out.push(115);
    out.push(116);
    out.push(114);
    out.push(101);
    out.push(97);
    out.push(109);
    out.push(95);
    out.push(105);
    out.push(100);
    out.push(34);
    out.push(58);
    proof {
        assert(out@ =~= old(out)@ + lit_event_mid3());
    }
}

/// The JSON line recording one stream.
pub open spec fn stream_line(r: StreamRecord) -> Seq<u8> {
    lit_stream_head() + esc(r.headers) + lit_stream_mid1() + esc(r.start) + lit_stream_mid2()
        + dec_digits(r.stream_id as nat) + lit_line_end()
}

/// The JSON line recording one event; the payload, itself a JSON value, is
/// embedded verbatim.
pub open spec fn event_line(r: EventRecord) -> Seq<u8> {
    lit_event_head() + esc(r.insert) + lit_event_mid1() + r.payload + lit_event_mid2()
        + dec_digits(r.index as nat) + lit_event_mid3() + dec_digits(r.stream_id as nat)
        + lit_line_end()
}

/// All stream records, rendered in order.
pub open spec fn stream_lines(rs: Seq<StreamRecord>) -> Seq<u8>
    decreases rs.len(),
{
    if rs.len() == 0 {
        Seq::empty()
    } else {
        stream_lines(rs.drop_last()) + stream_line(rs.last())
    }
}

/// All event records, rendered in order.
pub open spec fn event_lines(rs: Seq<EventRecord>) -> Seq<u8>
    decreases rs.len(),
{
    if rs.len() == 0 {
        Seq::empty()
    } else {
        event_lines(rs.drop_last()) + event_line(rs.last())
    }
}

/// The storage contract shared by every backend.  `streams()` and
/// `events()` are the records written successfully through this handle;
/// `healthy()` falls (and stays down) once the medium failed in a way that
/// may have corrupted buffered output.
pub trait StorageBackend: Sized {
    spec fn streams(&self) -> Seq<StreamRecord>;

    spec fn events(&self) -> Seq<EventRecord>;

    spec fn inv(&self) -> bool;

    spec fn healthy(&self) -> bool;

    spec fn sigint_commit(&self) -> bool;

    /// Persist a new Stream and return its backend-assigned identifier.
    fn new_stream(&mut self, headers: &SerializedHeaders) -> (r: Result<StreamId, StorageError>)
        requires
            old(self).inv(),
        ensures
            final(self).inv(),
            final(self).sigint_commit() == old(self).sigint_commit(),
            match r {
                Ok(id) => {
                    &&& final(self).healthy() == old(self).healthy()
                    &&& final(self).streams().len() == old(self).streams().len() + 1
                    &&& final(self).streams().take(old(self).streams().len() as int)
                        == old(self).streams()
                    &&& final(self).streams().last().stream_id == id.0
                    &&& final(self).streams().last().headers == headers.spec_bytes()
                    &&& final(self).events() == old(self).events()
                },
                Err(_) => {
                    &&& final(self).streams() == old(self).streams()
                    &&& final(self).events() == old(self).events()
                },
            },
    ;

    /// Persist one Event.  The payload must be one well-formed JSON value;
    /// anything else is rejected without touching the medium.
    fn insert_event(
        &mut self,
        stream_id: StreamId,
        stream_event_index: StreamEventIndex,
        payload: &str,
    ) -> (r: Result<(), StorageError>)
        requires
            old(self).inv(),
        ensures
            final(self).inv(),
            final(self).sigint_commit() == old(self).sigint_commit(),
            r == Err::<(), StorageError>(StorageError::InvalidPayload) <==> !valid_payload(
                payload.spec_bytes(),
            ),
            r == Err::<(), StorageError>(StorageError::InvalidPayload) ==> final(self).healthy()
                == old(self).healthy(),
            match r {
                Ok(_) => {
                    &&& final(self).healthy() == old(self).healthy()
                    &&& valid_payload(payload.spec_bytes())
                    &&& final(self).events().len() == old(self).events().len() + 1
                    &&& final(self).events().take(old(self).events().len() as int)
                        == old(self).events()
                    &&& final(self).events().last().stream_id == stream_id.0
                    &&& final(self).events().last().index == stream_event_index
                    &&& final(self).events().last().payload == payload.spec_bytes()
                    &&& final(self).streams() == old(self).streams()
                },
                Err(_) => {
                    &&& final(self).streams() == old(self).streams()
                    &&& final(self).events() == old(self).events()
                },
            },
    ;

    /// Make buffered output visible to readers; no record is lost, gained
    /// or reordered.
    fn flush(&mut self) -> (r: Result<(), StorageError>)
        requires
            old(self).inv(),
        ensures
            final(self).inv(),
            final(self).sigint_commit() == old(self).sigint_commit(),
            final(self).streams() == old(self).streams(),
            final(self).events() == old(self).events(),
            r is Ok ==> final(self).healthy() == old(self).healthy(),
    ;

    /// Finalize all output written so far; no record is lost, gained or
    /// reordered.
    fn commit(&mut self) -> (r: Result<(), StorageError>)
        requires
            old(self).inv(),
        ensures
            final(self).inv(),
            final(self).sigint_commit() == old(self).sigint_commit(),
            final(self).streams() == old(self).streams(),
            final(self).events() == old(self).events(),
            r is Ok ==> final(self).healthy() == old(self).healthy(),
    ;

    /// Whether the hosting process must commit on an interrupt signal to
    /// avoid losing buffered output.
    fn commit_on_sigint(&self) -> (r: bool)
        ensures
            r == self.sigint_commit(),
    ;
}

pub assume_specification<T>[ rand::random::<T> ]() -> (r: T)
    where
        rand::distributions::Standard: rand::distributions::Distribution<T>,
;

/// Relies on chrono::Utc::now and DateTime::to_rfc3339: the current
/// wall-clock time in RFC 3339 notation.  The result depends on the clock,
/// so nothing is assumed of it.
#[verifier::external_body]
fn now_rfc3339() -> (r: String) {
    chrono::Utc::now().to_rfc3339()
}

/// Appending a stream record appends its line.
proof fn lemma_stream_lines_push(rs: Seq<StreamRecord>, r: StreamRecord)
    ensures
        stream_lines(rs.push(r)) == stream_lines(rs) + stream_line(r),
{
    assert(rs.push(r).drop_last() =~= rs);
    assert(rs.push(r).last() == r);
}

/// Appending an event record appends its line.
proof fn lemma_event_lines_push(rs: Seq<EventRecord>, r: EventRecord)
    ensures
        event_lines(rs.push(r)) == event_lines(rs) + event_line(r),
{
    assert(rs.push(r).drop_last() =~= rs);
    assert(rs.push(r).last() == r);
}

/// The flat-file backend: one rotating compressed writer per table.
pub struct JsonFiles {
    streams: JsonFileWriter,
    events: JsonFileWriter,
    failed: bool,
    srecs: Ghost<Seq<StreamRecord>>,
    erecs: Ghost<Seq<EventRecord>>,
}

impl JsonFiles {
    /// The full model of the streams writer.
    pub closed spec fn streams_view(self) -> crate::writer::WriterView {
        self.streams.view()
    }

    /// The full model of the events writer.
    pub closed spec fn events_view(self) -> crate::writer::WriterView {
        self.events.view()
    }

    /// The decompressed concatenation of everything the streams writer
    /// accepted.
    pub closed spec fn stream_bytes(self) -> Seq<u8> {
        self.streams.view().all_bytes()
    }

    /// The decompressed concatenation of everything the events writer
    /// accepted.
    pub closed spec fn event_bytes(self) -> Seq<u8> {
        self.events.view().all_bytes()
    }

    /// Both writers are closed: every byte sits in a finished file.
    pub closed spec fn committed(self) -> bool {
        !self.streams.view().open && !self.events.view().open
    }

    /// A fresh backend with no records and both writers closed, writing
    /// into the well-known output directory.
    pub fn new() -> (r: JsonFiles)
        ensures
            r.inv(),
            r.healthy(),
            r.committed(),
            r.streams() == Seq::<StreamRecord>::empty(),
            r.events() == Seq::<EventRecord>::empty(),
    {
        let r = JsonFiles {
            streams: JsonFileWriter::new("streams".to_owned()),
            events: JsonFileWriter::new("events".to_owned()),
            failed: false,
            srecs: Ghost(Seq::empty()),
            erecs: Ghost(Seq::empty()),
        };
        r
    }

    /// A fresh backend writing into `dir` (which must exist before the
    /// first write).
    pub fn new_in(dir: &str) -> (r: JsonFiles)
        ensures
            r.inv(),
            r.healthy(),
            r.committed(),
            r.streams() == Seq::<StreamRecord>::empty(),
            r.events() == Seq::<EventRecord>::empty(),
    {
        let r = JsonFiles {
            streams: JsonFileWriter::new_in(dir.to_owned(), "streams".to_owned()),
            events: JsonFileWriter::new_in(dir.to_owned(), "events".to_owned()),
            failed: false,
            srecs: Ghost(Seq::empty()),
            erecs: Ghost(Seq::empty()),
        };
        r
    }

    /// While the backend is healthy, its files hold exactly the rendered
    /// records: decompressing every frame of every file in order and
    /// concatenating yields one JSON line per record, in write order.
    pub proof fn lemma_records_durable(&self)
        requires
            self.inv(),
            self.healthy(),
        ensures
            self.stream_bytes() == stream_lines(self.streams()),
            self.event_bytes() == event_lines(self.events()),
    {
    }

    /// Finish both files outright: afterwards every byte sits in a finished
    /// file, which a reader can rely on being complete, and the next write
    /// starts a new file.
    pub fn commit_files(&mut self) -> (r: Result<(), StorageError>)
        requires
            old(self).inv(),
        ensures
            final(self).inv(),
            final(self).streams() == old(self).streams(),
            final(self).events() == old(self).events(),
            r is Ok ==> final(self).committed() && final(self).healthy() == old(self).healthy()
                && final(self).stream_bytes() == old(self).stream_bytes()
                && final(self).event_bytes() == old(self).event_bytes(),
            old(self).committed() ==> r is Ok && final(self).streams_view() == old(self).streams_view() && final(self).events_view() == old(self).events_view(),
    {
        match self.streams.finish_file() {
            Ok(()) => {},
            Err(e) => {
                self.failed = true;
                return Err(e);
            },
        }
        match self.events.finish_file() {
            Ok(()) => Ok(()),
            Err(e) => {
                self.failed = true;
                Err(e)
            },
        }
    }

    /// Hand out the finished files of both tables (streams, then events),
    /// consuming the backend.  Everything must have been committed first.
    pub fn into_output_files(self) -> (r: (Vec<OutputFile>, Vec<OutputFile>))
        requires
            self.inv(),
            self.committed(),
        ensures
            r.0@.len() == self.streams_view().files.len(),
            r.1@.len() == self.events_view().files.len(),
    {
        let JsonFiles { streams, events, .. } = self;
        (streams.into_files(), events.into_files())
    }
}

impl StorageBackend for JsonFiles {
    closed spec fn streams(&self) -> Seq<StreamRecord> {
        self.srecs@
    }

    closed spec fn events(&self) -> Seq<EventRecord> {
        self.erecs@
    }

    closed spec fn inv(&self) -> bool {
        &&& self.streams.wf()
        &&& self.events.wf()
        &&& (!self.failed ==> self.streams.view().all_bytes() == stream_lines(self.srecs@))
        &&& (!self.failed ==> self.events.view().all_bytes() == event_lines(self.erecs@))
    }

    closed spec fn healthy(&self) -> bool {
        !self.failed
    }

    closed spec fn sigint_commit(&self) -> bool {
        true
    }

    fn new_stream(&mut self, headers: &SerializedHeaders) -> (r: Result<StreamId, StorageError>) {
        let id: u32 = rand::random();
        let ts = now_rfc3339();
        let ts_bytes = ts.as_str().as_bytes();
        let ghost startb = ts_bytes@;
        let hdr_bytes = headers.as_bytes();
        let mut line: Vec<u8> = Vec::new();
        push_lit_stream_head(&mut line);
        push_escaped(hdr_bytes, &mut line);
        push_lit_stream_mid1(&mut line);
        push_escaped(ts_bytes, &mut line);
        push_lit_stream_mid2(&mut line);
        push_u64(id as u64, &mut line);
        push_lit_line_end(&mut line);
        let ghost rec = StreamRecord { stream_id: id, start: startb, headers: headers.spec_bytes() };
        proof {
            assert(line@ =~= stream_line(rec));
        }
        match self.streams.write(line.as_slice()) {
            Ok(()) => {
                proof {
                    lemma_stream_lines_push(self.srecs@, rec);
                    self.srecs@ = self.srecs@.push(rec);
                    assert(self.srecs@.take(self.srecs@.len() - 1) =~= old(self).srecs@);
                }
                Ok(StreamId(id))
            },
            Err(e) => {
                self.failed = true;
                Err(e)
            },
        }
    }

    fn insert_event(
        &mut self,
        stream_id: StreamId,
        stream_event_index: StreamEventIndex,
        payload: &str,
    ) -> (r: Result<(), StorageError>)
        ensures
            r == Err::<(), StorageError>(StorageError::InvalidPayload) ==> final(self).streams_view() == old(self).streams_view() && final(self).events_view() == old(self).events_view(),
    {
        let pb = payload.as_bytes();
        if !check_payload(pb) {
            return Err(StorageError::InvalidPayload);
        }
        let ts = now_rfc3339();
        let ts_bytes = ts.as_str().as_bytes();
        let ghost insertb = ts_bytes@;
        let mut line: Vec<u8> = Vec::new();
        push_lit_event_head(&mut line);
        push_escaped(ts_bytes, &mut line);
        push_lit_event_mid1(&mut line);
        line.extend_from_slice(pb);
        push_lit_event_mid2(&mut line);
        push_u64(stream_event_index, &mut line);
        push_lit_event_mid3(&mut line);
        push_u64(stream_id.0 as u64, &mut line);
        push_lit_line_end(&mut line);
        let ghost rec = EventRecord {
            stream_id: stream_id.0,
            index: stream_event_index,
            insert: insertb,
            payload: payload.spec_bytes(),
        };
        proof {
            assert(line@ =~= event_line(rec));
        }
        match self.events.write(line.as_slice()) {
            Ok(()) => {
                proof {
                    lemma_event_lines_push(self.erecs@, rec);
                    self.erecs@ = self.erecs@.push(rec);
                    assert(self.erecs@.take(self.erecs@.len() - 1) =~= old(self).erecs@);
                }
                Ok(())
            },
            Err(e) => {
                self.failed = true;
                Err(e)
            },
        }
    }

    fn flush(&mut self) -> (r: Result<(), StorageError>)
        ensures
            old(self).committed() ==> r is Ok && final(self).committed(),
            r is Ok ==> {
                &&& final(self).stream_bytes() == old(self).stream_bytes()
                &&& final(self).event_bytes() == old(self).event_bytes()
                &&& final(self).streams_view().files == old(self).streams_view().files
                &&& final(self).events_view().files == old(self).events_view().files
                &&& final(self).streams_view().open == old(self).streams_view().open
                &&& final(self).events_view().open == old(self).events_view().open
                &&& final(self).streams_view().cur_frame == Seq::<u8>::empty()
                &&& final(self).events_view().cur_frame == Seq::<u8>::empty()
            },
    {
        match self.streams.flush() {
            Ok(()) => {},
            Err(e) => {
                self.failed = true;
                return Err(e);
            },
        }
        match self.events.flush() {
            Ok(()) => Ok(()),
            Err(e) => {
                self.failed = true;
                Err(e)
            },
        }
    }

    fn commit(&mut self) -> (r: Result<(), StorageError>)
        ensures
            old(self).committed() ==> r is Ok,
            r is Ok ==> final(self).committed() && final(self).stream_bytes() == old(self).stream_bytes() && final(self).event_bytes() == old(self).event_bytes(),
    {
        self.commit_files()
    }

    fn commit_on_sigint(&self) -> (r: bool) {
        true
    }
}
#[verifier::external_type_specification]
#[verifier::external_body]
pub struct ExRusqliteConnection(rusqlite::Connection);

/// Relies on rusqlite::Connection::open: opens (creating on demand) the
/// embedded database file at the given path.
#[verifier::external_body]
fn sqlite_open_file(path: &str) -> (r: Result<rusqlite::Connection, StorageError>)
    ensures
        (match r {
            Err(e) => e is Backend,
            Ok(_) => true,
        }),
{
    match rusqlite::Connection::open(path) {
        Ok(c) => Ok(c),
        Err(_) => Err(StorageError::Backend),
    }
}

/// Relies on rusqlite::Connection::pragma_update: sets the named pragma to
/// an integer value.
#[verifier::external_body]
fn sqlite_pragma_update(conn: &mut rusqlite::Connection, name: &str, value: i64) -> (r: Result<
    (),
    StorageError,
>)
    ensures
        (match r {
            Err(e) => e is Backend,
            Ok(_) => true,
        }),
{
    match conn.pragma_update(None, name, value) {
        Ok(()) => Ok(()),
        Err(_) => Err(StorageError::Backend),
    }
}

/// Relies on rusqlite::Connection::pragma_query_value: reads the named
/// integer-valued pragma.  The closure only extracts column 0.
#[verifier::external_body]
fn sqlite_pragma_query(conn: &mut rusqlite::Connection, name: &str) -> (r: Result<
    i64,
    StorageError,
>)
    ensures
        (match r {
            Err(e) => e is Backend,
            Ok(_) => true,
        }),
{
    match conn.pragma_query_value(None, name, |row| row.get(0)) {
        Ok(v) => Ok(v),
        Err(_) => Err(StorageError::Backend),
    }
}

/// Relies on rusqlite::Connection::execute_batch: runs the schema text.
#[verifier::external_body]
fn sqlite_execute_batch(conn: &mut rusqlite::Connection, sql: &str) -> (r: Result<
    (),
    StorageError,
>)
    ensures
        (match r {
            Err(e) => e is Backend,
            Ok(_) => true,
        }),
{
    match conn.execute_batch(sql) {
        Ok(()) => Ok(()),
        Err(_) => Err(StorageError::Backend),
    }
}

/// Relies on rusqlite::Connection::query_row running INSERT .. RETURNING:
/// inserts one streams row (the database validates and stores the values
/// and the current time) and returns the database-assigned stream_id.
/// The closure only extracts column 0 of the returned row.
#[verifier::external_body]
fn sqlite_insert_stream(conn: &mut rusqlite::Connection, headers: &str) -> (r: Result<
    i64,
    StorageError,
>)
    ensures
        (match r {
            Err(e) => e is Backend,
            Ok(_) => true,
        }),
{
    let res = conn.query_row(
        "insert into streams (headers, start_datetime) values (jsonb(?), datetime('now')) returning stream_id",
        (headers,),
        |row| row.get(0),
    );
    match res {
        Ok(v) => Ok(v),
        Err(_) => Err(StorageError::Backend),
    }
}

/// Relies on rusqlite::Connection::execute: inserts one events row with the
/// current time, the event index, the payload and the stream id.
#[verifier::external_body]
fn sqlite_insert_event(
    conn: &mut rusqlite::Connection,
    stream_event_index: i64,
    payload: &str,
    stream_id: i64,
) -> (r: Result<(), StorageError>)
    ensures
        (match r {
            Err(e) => e is Backend,
            Ok(_) => true,
        }),
{
    let res = conn.execute(
        "insert into events (insert_datetime, stream_event_index, payload, stream_id) values (datetime('now'), ?, jsonb(?), ?)",
        (stream_event_index, payload, stream_id),
    );
    match res {
        Ok(_) => Ok(()),
        Err(_) => Err(StorageError::Backend),
    }
}

/// The embedded single-file backend.  Every statement is durable once
/// executed, so `flush` and `commit` have nothing to do.
pub struct Embedded {
    conn: rusqlite::Connection,
    srecs: Ghost<Seq<StreamRecord>>,
    erecs: Ghost<Seq<EventRecord>>,
}

impl StorageBackend for Embedded {
    closed spec fn streams(&self) -> Seq<StreamRecord> {
        self.srecs@
    }

    closed spec fn events(&self) -> Seq<EventRecord> {
        self.erecs@
    }

    closed spec fn inv(&self) -> bool {
        true
    }

    closed spec fn healthy(&self) -> bool {
        true
    }

    closed spec fn sigint_commit(&self) -> bool {
        false
    }

    fn new_stream(&mut self, headers: &SerializedHeaders) -> (r: Result<StreamId, StorageError>) {
        let raw = match sqlite_insert_stream(&mut self.conn, headers) {
            Ok(v) => v,
            Err(e) => {
                return Err(e);
            },
        };
        if raw < 0 || raw > u32::MAX as i64 {
            return Err(StorageError::Backend);
        }
        let id = raw as u32;
        let ghost rec = StreamRecord {
            stream_id: id,
            start: Seq::empty(),
            headers: headers.spec_bytes(),
        };
        proof {
            self.srecs@ = self.srecs@.push(rec);
            assert(self.srecs@.take(self.srecs@.len() - 1) =~= old(self).srecs@);
        }
        Ok(StreamId(id))
    }

    fn insert_event(
        &mut self,
        stream_id: StreamId,
        stream_event_index: StreamEventIndex,
        payload: &str,
    ) -> (r: Result<(), StorageError>) {
        let pb = payload.as_bytes();
        if !check_payload(pb) {
            return Err(StorageError::InvalidPayload);
        }
        if stream_event_index > i64::MAX as u64 {
            return Err(StorageError::Backend);
        }
        match sqlite_insert_event(
            &mut self.conn,
            stream_event_index as i64,
            payload,
            stream_id.0 as i64,
        ) {
            Ok(()) => {
                let ghost rec = EventRecord {
                    stream_id: stream_id.0,
                    index: stream_event_index,
                    insert: Seq::empty(),
                    payload: payload.spec_bytes(),
                };
                proof {
                    self.erecs@ = self.erecs@.push(rec);
                    assert(self.erecs@.take(self.erecs@.len() - 1) =~= old(self).erecs@);
                }
                Ok(())
            },
            Err(e) => Err(e),
        }
    }

    fn flush(&mut self) -> (r: Result<(), StorageError>)
        ensures
            r is Ok,
    {
        Ok(())
    }

    fn commit(&mut self) -> (r: Result<(), StorageError>)
        ensures
            r is Ok,
    {
        Ok(())
    }

    fn commit_on_sigint(&self) -> (r: bool) {
        false
    }
}

/// The embedded store is durable per statement: it never asks the hosting
/// process to commit on an interrupt signal.
pub proof fn lemma_embedded_commit_on_sigint(c: &Embedded)
    ensures
        !c.sigint_commit(),
{
}

/// The flat-file store buffers compressed bytes in memory until a frame
/// boundary: the hosting process must commit on an interrupt signal.
pub proof fn lemma_json_files_commit_on_sigint(c: &JsonFiles)
    ensures
        c.sigint_commit(),
{
}

/// Construction of a ready backend from configuration.
pub trait StorageOpen: Sized {
    type Store: StorageBackend;

    /// Open the medium, apply the schema exactly once, and return a ready
    /// backend with empty record histories.
    fn open(self) -> (r: Result<Self::Store, StorageError>)
        ensures
            match r {
                Ok(c) => {
                    &&& c.inv()
                    &&& c.healthy()
                    &&& c.streams() == Seq::<StreamRecord>::empty()
                    &&& c.events() == Seq::<EventRecord>::empty()
                },
                Err(_) => true,
            },
    ;
}

/// The schema applied to a fresh embedded database.
pub const SQLITE_SCHEMA: &'static str = "\
    create table if not exists streams (\
        stream_id integer primary key autoincrement,\
        headers blob,\
        start_datetime text\
    );\
    create table if not exists events (\
        event_id integer primary key autoincrement,\
        insert_datetime text,\
        stream_event_index integer,\
        payload blob,\
        stream_id integer references streams (stream_id)\
    );";

/// Configuration of the embedded backend: optional schema text replacing
/// the built-in one, and an optional database file path.
pub struct SqliteOpen {
    pub custom_schema: Option<String>,
    pub db_path: Option<String>,
}

impl StorageOpen for SqliteOpen {
    type Store = Embedded;

    fn open(self) -> (r: Result<Embedded, StorageError>) {
        let path: &str = match &self.db_path {
            Some(p) => p.as_str(),
            None => "telemetry.sqlite.db",
        };
        let mut conn = match sqlite_open_file(path) {
            Ok(c) => c,
            Err(e) => {
                return Err(e);
            },
        };
        match sqlite_pragma_update(&mut conn, "foreign_keys", 1) {
            Ok(()) => {},
            Err(e) => {
                return Err(e);
            },
        }
        let user_version = match sqlite_pragma_query(&mut conn, "user_version") {
            Ok(v) => v,
            Err(e) => {
                return Err(e);
            },
        };
        if user_version == 0 {
            let schema: &str = match &self.custom_schema {
                Some(s) => s.as_str(),
                None => SQLITE_SCHEMA,
            };
            match sqlite_execute_batch(&mut conn, schema) {
                Ok(()) => {},
                Err(e) => {
                    return Err(e);
                },
            }
            match sqlite_pragma_update(&mut conn, "user_version", 1) {
                Ok(()) => {},
                Err(e) => {
                    return Err(e);
                },
            }
        }
        Ok(Embedded { conn, srecs: Ghost(Seq::empty()), erecs: Ghost(Seq::empty()) })
    }
}

/// Configuration of the flat-file backend (it has none).
pub struct JsonFilesOpen {}

impl StorageOpen for JsonFilesOpen {
    type Store = JsonFiles;

    fn open(self) -> (r: Result<JsonFiles, StorageError>)
        ensures
            r is Ok,
            (match r {
                Ok(c) => c.committed(),
                Err(_) => true,
            }),
    {
        Ok(JsonFiles::new())
    }
}

/// Checked narrowing of an event's key columns to the 32-bit integers the
/// relational store binds: both values unchanged, or a refusal when either
/// cannot be represented.
pub fn event_params_i32(stream_id: StreamId, stream_event_index: StreamEventIndex) -> (r: Option<
    (i32, i32),
>)
    ensures
        match r {
            Some(p) => p.0 == stream_event_index && p.1 == stream_id.0,
            None => stream_event_index > i32::MAX || stream_id.0 > i32::MAX,
        },
{
    if stream_event_index > i32::MAX as u64 {
        return None;
    }
    if stream_id.0 > i32::MAX as u32 {
        return None;
    }
    Some((stream_event_index as i32, stream_id.0 as i32))
}

} // verus!
