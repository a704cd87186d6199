//! The ingestion endpoint logic: drive one request body, chunk by chunk,
//! through the splitter, and hand each completed JSON value to a storage
//! backend as one event.
//!
//! The request loop itself (awaiting body chunks) lives outside the
//! library; it calls `start_session` once, `on_chunk` per chunk, and
//! `finish_session` at end of body, and reports the returned `Outcome` as
//! the HTTP status code.

use vstd::prelude::*;
use vstd::string::StringSliceAdditionalSpecFns;
use vstd::utf8::valid_utf8;

use crate::json::{has_pending_number, lemma_scan_wf, scan, split_ok, split_values};
use crate::splitter::Splitter;
use crate::store::{EventRecord, SerializedHeaders, StorageBackend};
use crate::StreamId;

verus! {

/// The outcome of one ingestion request, as reported over HTTP.
#[derive(Clone, Copy, Debug, PartialEq, Eq, Structural)]
pub enum Outcome {
    /// Every value of the body was stored: 200, empty response body.
    Success,
    /// The body was malformed or ended mid-value: 400.
    ClientError,
    /// Reading the body or writing to storage failed: 500.
    ServerError,
}

impl Outcome {
    /// The HTTP status code reporting this outcome.
    pub fn status_code(&self) -> (r: u16)
        ensures
            r == match self {
                Outcome::Success => 200u16,
                Outcome::ClientError => 400u16,
                Outcome::ServerError => 500u16,
            },
    {
        match self {
            Outcome::Success => 200,
            Outcome::ClientError => 400,
            Outcome::ServerError => 500,
        }
    }
}

/// Relies on core::str::from_utf8: `Some` exactly when the bytes are valid
/// UTF-8, and then the string's bytes are exactly the input bytes.
#[verifier::external_body]
fn bytes_as_str(b: &[u8]) -> (r: Option<&str>)
    ensures
        match r {
            Some(s) => s.spec_bytes() == b@,
            None => !valid_utf8(b@),
        },
{
    match core::str::from_utf8(b) {
        Ok(s) => Some(s),
        Err(_) => None,
    }
}

/// One request in progress: its splitter, the stream the backend assigned
/// to it, and the next event index.
pub struct IngestSession {
    splitter: Splitter,
    stream_id: StreamId,
    next_index: u64,
    base_events: Ghost<Seq<EventRecord>>,
}

impl IngestSession {
    /// All body bytes fed so far.
    pub closed spec fn fed(self) -> Seq<u8> {
        self.splitter.fed_bytes()
    }

    /// The stream identifier of this session.
    pub closed spec fn sid(self) -> u32 {
        self.stream_id.0
    }

    /// The backend's event history when the session began.
    pub closed spec fn base(self) -> Seq<EventRecord> {
        self.base_events@
    }
}

/// The session agrees with the backend: the body so far splits cleanly,
/// and every value completed so far has been stored, in order, with
/// consecutive indices, under this session's stream.
pub closed spec fn session_wf<C: StorageBackend>(s: IngestSession, conn: C) -> bool {
    &&& s.splitter.wf()
    &&& s.splitter.ok()
    &&& !scan(s.splitter.fed_bytes()).err
    &&& conn.inv()
    &&& s.next_index as int == scan(s.splitter.fed_bytes()).emits.len()
    &&& conn.events().len() == s.base_events@.len() + s.next_index as int
    &&& conn.events().take(s.base_events@.len() as int) == s.base_events@
    &&& forall|j: int|
        0 <= j < s.next_index as int ==> {
            let e = #[trigger] conn.events()[s.base_events@.len() + j];
            &&& e.stream_id == s.stream_id.0
            &&& e.index as int == j
            &&& e.payload == s.splitter.fed_bytes().subrange(
                scan(s.splitter.fed_bytes()).emits[j].0,
                scan(s.splitter.fed_bytes()).emits[j].1,
            )
        }
}

/// Begin one request: create its Stream on the backend.
pub fn start_session<C: StorageBackend>(conn: &mut C, headers: &SerializedHeaders) -> (r: Result<
    IngestSession,
    Outcome,
>)
    requires
        old(conn).inv(),
    ensures
        final(conn).inv(),
        match r {
            Ok(s) => {
                &&& session_wf(s, *final(conn))
                &&& s.fed() == Seq::<u8>::empty()
                &&& s.base() == old(conn).events()
                &&& final(conn).events() == old(conn).events()
                &&& final(conn).streams().len() == old(conn).streams().len() + 1
                &&& final(conn).streams().take(old(conn).streams().len() as int) == old(
                    conn,
                ).streams()
                &&& final(conn).streams().last().stream_id == s.sid()
                &&& final(conn).streams().last().headers == headers.spec_bytes()
            },
            Err(o) => {
                &&& o is ServerError
                &&& final(conn).streams() == old(conn).streams()
                &&& final(conn).events() == old(conn).events()
            },
        },
{
    match conn.new_stream(headers) {
        Ok(id) => {
            let ghost base = conn.events();
            let s = IngestSession {
                splitter: Splitter::new(),
                stream_id: id,
                next_index: 0,
                base_events: Ghost(base),
            };
            proof {
                assert(conn.events().take(base.len() as int) =~= base);
            }
            Ok(s)
        },
        Err(_) => Err(Outcome::ServerError),
    }
}

/// Feed one body chunk: every JSON value it completes is stored as one
/// event; a malformed body is reported after the values that preceded the
/// offending byte were stored.
pub fn on_chunk<C: StorageBackend>(conn: &mut C, s: &mut IngestSession, chunk: &[u8]) -> (r:
    Result<(), Outcome>)
    requires
        session_wf(*old(s), *old(conn)),
    ensures
        final(conn).inv(),
        final(conn).streams() == old(conn).streams(),
        // whatever the outcome, the event history only grows, keeps what it
        // had, and gains nothing but this chunk's completed values, in
        // order, with consecutive indices
        ({
            let st1 = scan(old(s).fed() + chunk@);
            let nbase = old(s).base().len() as int;
            &&& final(conn).events().len() >= old(conn).events().len()
            &&& final(conn).events().take(old(conn).events().len() as int) == old(conn).events()
            &&& final(conn).events().len() <= nbase + st1.emits.len()
            &&& forall|j: int|
                old(conn).events().len() <= j < final(conn).events().len() ==> {
                    let e = #[trigger] final(conn).events()[j];
                    &&& e.stream_id == old(s).sid()
                    &&& e.index as int == j - nbase
                    &&& e.payload == (old(s).fed() + chunk@).subrange(
                        st1.emits[j - nbase].0,
                        st1.emits[j - nbase].1,
                    )
                }
        }),
        // success is owed when nothing outside the library decides: a chunk
        // that completes no value and keeps the input well-formed
        !scan(old(s).fed() + chunk@).err && scan(old(s).fed() + chunk@).emits.len() == scan(
            old(s).fed(),
        ).emits.len() ==> r is Ok,
        match r {
            Ok(_) => {
                &&& session_wf(*final(s), *final(conn))
                &&& final(s).fed() == old(s).fed() + chunk@
                &&& final(s).base() == old(s).base()
                &&& final(s).sid() == old(s).sid()
                &&& !scan(final(s).fed()).err
                &&& final(conn).events().len() == old(s).base().len() + scan(
                    old(s).fed() + chunk@,
                ).emits.len()
            },
            Err(o) => {
                &&& !(o is Success)
                // a client error has a client-side cause: malformed bytes,
                // or a completed value that is not valid UTF-8
                &&& (o is ClientError ==> scan(old(s).fed() + chunk@).err || (exists|k: int|
                    scan(old(s).fed()).emits.len() <= k < scan(old(s).fed() + chunk@).emits.len()
                        && !valid_utf8((old(s).fed() + chunk@).subrange(
                        (#[trigger] scan(old(s).fed() + chunk@).emits[k]).0,
                        scan(old(s).fed() + chunk@).emits[k].1,
                    ))))
            },
        },
{
    let ghost fed0 = s.splitter.fed_bytes();
    let ghost st0 = scan(fed0);
    let ghost base = s.base_events@;
    let ghost old_events = conn.events();
    let fr = s.splitter.feed(chunk);
    let ghost fed1 = s.splitter.fed_bytes();
    let ghost st1 = scan(fed1);
    let vals = fr.values;
    let ghost n0 = st0.emits.len() as int;
    proof {
        assert(fed0 == old(s).fed());
        assert(fed1 == old(s).fed() + chunk@);
        assert(st1 == scan(old(s).fed() + chunk@));
        assert(old_events.len() == base.len() + n0);
        assert(conn.events().take(old_events.len() as int) =~= old_events);
        lemma_scan_wf(fed0);
        assert forall|j: int| 0 <= j < n0 implies fed1.subrange(
            st1.emits[j].0,
            st1.emits[j].1,
        ) == fed0.subrange(st0.emits[j].0, st0.emits[j].1) by {
            assert(st1.emits[j] == st0.emits[j]);
            assert(fed1.subrange(st0.emits[j].0, st0.emits[j].1) =~= fed0.subrange(
                st0.emits[j].0,
                st0.emits[j].1,
            ));
        }
    }
    let mut i: usize = 0;
    while i < vals.len()
        invariant
            0 <= i <= vals@.len(),
            conn.inv(),
            conn.streams() == old(conn).streams(),
            vals@.len() == st1.emits.len() - n0,
            n0 == st0.emits.len(),
            st1 == scan(fed1),
            st0 == scan(fed0),
            fed1 == s.splitter.fed_bytes(),
            s.splitter.wf(),
            s.splitter.ok() == !st1.err,
            base == s.base_events@,
            s.stream_id == old(s).stream_id,
            forall|j: int| 0 <= j < vals@.len() ==> (#[trigger] vals@[j])@ == fed1.subrange(
                st1.emits[n0 + j].0,
                st1.emits[n0 + j].1,
            ),
            s.next_index as int == n0 + i,
            conn.events().len() == base.len() + n0 + i,
            conn.events().take(base.len() as int) == base,
            old_events == old(conn).events(),
            old_events.len() == base.len() + n0,
            fed0 == old(s).fed(),
            conn.events().take(old_events.len() as int) == old_events,
            fed1 == old(s).fed() + chunk@,
            base == old(s).base(),
            forall|j: int|
                0 <= j < n0 + i ==> {
                    let e = #[trigger] conn.events()[base.len() + j];
                    &&& e.stream_id == s.stream_id.0
                    &&& e.index as int == j
                    &&& e.payload == fed1.subrange(st1.emits[j].0, st1.emits[j].1)
                },
        decreases vals@.len() - i,
    {
        let v = &vals[i];
        let sref = match bytes_as_str(v.as_slice()) {
            Some(x) => x,
            None => {
                proof {
                    let k = n0 + i;
                    assert(v@ == fed1.subrange(st1.emits[k].0, st1.emits[k].1));
                    assert(!valid_utf8(fed1.subrange(st1.emits[k].0, st1.emits[k].1)));
                    assert(scan(old(s).fed()).emits.len() == n0);
                    assert(scan(old(s).fed() + chunk@) == st1);
                    assert(n0 <= k < st1.emits.len());
                    assert(!valid_utf8((old(s).fed() + chunk@).subrange(
                        (#[trigger] scan(old(s).fed() + chunk@).emits[k]).0,
                        scan(old(s).fed() + chunk@).emits[k].1,
                    )));
                    assert(st1.emits.len() > scan(old(s).fed()).emits.len());
            assert forall|j: int|
                old_events.len() <= j < conn.events().len() implies {
                    let e = #[trigger] conn.events()[j];
                    &&& e.stream_id == old(s).sid()
                    &&& e.index as int == j - base.len()
                    &&& e.payload == fed1.subrange(
                        st1.emits[j - base.len()].0,
                        st1.emits[j - base.len()].1,
                    )
                } by {
                let jj = j - base.len() as int;
                assert(conn.events()[base.len() + jj] == conn.events()[j]);
            }
                }
                return Err(Outcome::ClientError);
            },
        };
        if s.next_index == u64::MAX {
            proof {
            assert forall|j: int|
                old_events.len() <= j < conn.events().len() implies {
                    let e = #[trigger] conn.events()[j];
                    &&& e.stream_id == old(s).sid()
                    &&& e.index as int == j - base.len()
                    &&& e.payload == fed1.subrange(
                        st1.emits[j - base.len()].0,
                        st1.emits[j - base.len()].1,
                    )
                } by {
                let jj = j - base.len() as int;
                assert(conn.events()[base.len() + jj] == conn.events()[j]);
            }
            }
            return Err(Outcome::ServerError);
        }
        let ghost pre_events = conn.events();
        match conn.insert_event(s.stream_id, s.next_index, sref) {
            Ok(()) => {
                proof {
                    assert(conn.events().take(pre_events.len() as int) == pre_events);
                    assert forall|j: int| 0 <= j < n0 + i + 1 implies {
                        let e = #[trigger] conn.events()[base.len() + j];
                        &&& e.stream_id == s.stream_id.0
                        &&& e.index as int == j
                        &&& e.payload == fed1.subrange(st1.emits[j].0, st1.emits[j].1)
                    } by {
                        if j < n0 + i {
                            assert(conn.events()[base.len() + j] == conn.events().take(
                                pre_events.len() as int,
                            )[base.len() + j]);
                        } else {
                            assert(conn.events()[base.len() + j] == conn.events().last());
                        }
                    }
                    assert(conn.events().take(base.len() as int) =~= base);
                    assert(conn.events().take(old_events.len() as int) =~= old_events);
                }
                s.next_index = s.next_index + 1;
            },
            Err(_) => {
                proof {
            assert forall|j: int|
                old_events.len() <= j < conn.events().len() implies {
                    let e = #[trigger] conn.events()[j];
                    &&& e.stream_id == old(s).sid()
                    &&& e.index as int == j - base.len()
                    &&& e.payload == fed1.subrange(
                        st1.emits[j - base.len()].0,
                        st1.emits[j - base.len()].1,
                    )
                } by {
                let jj = j - base.len() as int;
                assert(conn.events()[base.len() + jj] == conn.events()[j]);
            }
                }
                return Err(Outcome::ServerError);
            },
        }
        i = i + 1;
    }
    proof {
            assert forall|j: int|
                old_events.len() <= j < conn.events().len() implies {
                    let e = #[trigger] conn.events()[j];
                    &&& e.stream_id == old(s).sid()
                    &&& e.index as int == j - base.len()
                    &&& e.payload == fed1.subrange(
                        st1.emits[j - base.len()].0,
                        st1.emits[j - base.len()].1,
                    )
                } by {
                let jj = j - base.len() as int;
                assert(conn.events()[base.len() + jj] == conn.events()[j]);
            }
    }
    if fr.malformed {
        return Err(Outcome::ClientError);
    }
    Ok(())
}

/// End of body: reject a dangling incomplete value, store a trailing
/// complete number value if one was pending, and report the outcome.
pub fn finish_session<C: StorageBackend>(conn: &mut C, s: IngestSession) -> (r: Outcome)
    requires
        session_wf(s, *old(conn)),
    ensures
        final(conn).inv(),
        final(conn).streams() == old(conn).streams(),
        // a client error means exactly that the body was malformed or
        // ended mid-value
        r is ClientError <==> !split_ok(s.fed()),
        // anything but success leaves the event history as it was: every
        // value of a clean body was already stored by the chunk calls
        !(r is Success) ==> final(conn).events() == old(conn).events(),
        // success is owed when no storage call remains to be made
        split_ok(s.fed()) && !has_pending_number(scan(s.fed())) ==> r is Success,
        r is Success ==> {
            &&& split_ok(s.fed())
            &&& final(conn).events().len() == s.base().len() + split_values(s.fed()).len()
            &&& final(conn).events().take(s.base().len() as int) == s.base()
            &&& forall|j: int|
                0 <= j < split_values(s.fed()).len() ==> {
                    let e = #[trigger] final(conn).events()[s.base().len() + j];
                    &&& e.stream_id == s.sid()
                    &&& e.index as int == j
                    &&& e.payload == split_values(s.fed())[j]
                }
        },
{
    let ghost fed = s.splitter.fed_bytes();
    let ghost st = scan(fed);
    let ghost base = s.base_events@;
    let IngestSession { splitter, stream_id, next_index, .. } = s;
    match splitter.finish() {
        Err(_) => Outcome::ClientError,
        Ok(vs) => {
            if vs.len() == 0 {
                proof {
                    assert(crate::json::final_emits(fed) == st.emits);
                }
                Outcome::Success
            } else {
                let v = &vs[0];
                let sref = match bytes_as_str(v.as_slice()) {
                    Some(x) => x,
                    None => {
                        return Outcome::ServerError;
                    },
                };
                if next_index == u64::MAX {
                    return Outcome::ServerError;
                }
                let ghost pre_events = conn.events();
                match conn.insert_event(stream_id, next_index, sref) {
                    Ok(()) => {
                        proof {
                            assert(conn.events().take(base.len() as int) =~= base);
                            assert forall|j: int| 0 <= j < split_values(fed).len() implies {
                                let e = #[trigger] conn.events()[base.len() + j];
                                &&& e.stream_id == stream_id.0
                                &&& e.index as int == j
                                &&& e.payload == split_values(fed)[j]
                            } by {
                                if j < st.emits.len() {
                                    assert(conn.events()[base.len() + j] == conn.events().take(
                                        pre_events.len() as int,
                                    )[base.len() + j]);
                                    assert(crate::json::final_emits(fed)[j] == st.emits[j]);
                                } else {
                                    assert(conn.events()[base.len() + j] == conn.events().last());
                                }
                            }
                        }
                        Outcome::Success
                    },
                    Err(_) => Outcome::ServerError,
                }
            }
        },
    }
}

} // verus!
