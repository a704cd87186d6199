//! A rotating, compressed output file with an explicit commit protocol.
//!
//! A `JsonFileWriter` is either *closed* (no file open) or *open* (a file
//! exists and a compressor is wrapping it).  `write` opens a fresh file on
//! demand; `flush` ends the current compressed frame but keeps appending to
//! the same file with a new frame; `finish_file` ends the frame and releases
//! the file.  The ghost model tracks every finished file as its sequence of
//! frames, so that the library can state exactly which bytes a reader will
//! recover by decompressing each frame in order.

use vstd::prelude::*;
use vstd::seq_lib::lemma_flatten_concat;

use crate::StorageError;

verus! {

/// Mathematical state of one writer: the frames of every finished file, the
/// finished frames of the currently open file, and the bytes of the frame
/// being built.
pub struct WriterView {
    pub files: Seq<Seq<Seq<u8>>>,
    pub cur_frames: Seq<Seq<u8>>,
    pub cur_frame: Seq<u8>,
    pub open: bool,
}

impl WriterView {
    /// Every byte ever accepted, in write order, as a reader recovers them
    /// by decompressing all frames of all files in order.
    pub open spec fn all_bytes(self) -> Seq<u8> {
        self.files.flatten().flatten() + self.cur_frames.flatten() + self.cur_frame
    }

    /// A closed writer holds no partially written file.
    pub open spec fn wf(self) -> bool {
        !self.open ==> self.cur_frames == Seq::<Seq<u8>>::empty() && self.cur_frame == Seq::<u8>::empty()
    }
}

/// A finished or in-progress output file, opaque to the verifier.  It holds
/// the uniquely named on-disk file that the tempfile crate created.
#[verifier::external_body]
pub struct OutputFile {
    inner: tempfile::NamedTempFile,
}

/// A zstd compressor wrapping an output file, opaque to the verifier.
#[verifier::external_body]
pub struct FrameEncoder {
    inner: zstd::stream::write::Encoder<'static, tempfile::NamedTempFile>,
}

/// Relies on tempfile::NamedTempFile::reopen and zstd::stream::read::Decoder
/// (via zstd::decode_all, which by its documentation keeps concatenating
/// frames until end of file): reads the whole file back, decompressed.
#[verifier::external_body]
pub fn read_decompressed(f: &OutputFile) -> (r: Result<Vec<u8>, StorageError>)
{
    let reader = match f.inner.reopen() {
        Ok(h) => h,
        Err(_) => {
            return Err(StorageError::Io);
        },
    };
    match zstd::decode_all(reader) {
        Ok(v) => Ok(v),
        Err(_) => Err(StorageError::Io),
    }
}

/// Relies on tempfile::Builder::tempfile_in: creates a brand-new, uniquely
/// named, empty file (kept on disk, opened for appending) in the output
/// directory, named with the table prefix.
#[verifier::external_body]
fn create_output_file(dir: &String, table: &String) -> (r: Result<OutputFile, StorageError>)
    ensures
        (match r {
            Err(e) => e is Io,
            Ok(_) => true,
        }),
{
    let mut builder = tempfile::Builder::new();
    let prefix = format!("{}.file.", table);
    builder.prefix(&prefix).append(true).suffix(".json.zst").keep(true);
    match builder.tempfile_in(dir.as_str()) {
        Ok(f) => Ok(OutputFile { inner: f }),
        Err(_) => Err(StorageError::Io),
    }
}

/// Relies on zstd::stream::write::Encoder::new: attaches a fresh compressor
/// to the file; bytes written from now on form one compressed frame.
#[verifier::external_body]
fn new_encoder(file: OutputFile) -> (r: Result<FrameEncoder, StorageError>)
    ensures
        (match r {
            Err(e) => e is Io,
            Ok(_) => true,
        }),
{
    match zstd::stream::write::Encoder::new(file.inner, 0) {
        Ok(e) => Ok(FrameEncoder { inner: e }),
        Err(_) => Err(StorageError::Io),
    }
}

/// Relies on std::io::Write::write_all: feeds every byte of `bytes` into the
/// current compressed frame (or fails).
#[verifier::external_body]
fn encoder_write_all(enc: &mut FrameEncoder, bytes: &[u8]) -> (r: Result<(), StorageError>)
    ensures
        (match r {
            Err(e) => e is Io,
            Ok(_) => true,
        }),
{
    match std::io::Write::write_all(&mut enc.inner, bytes) {
        Ok(()) => Ok(()),
        Err(_) => Err(StorageError::Io),
    }
}

/// Relies on zstd::stream::write::Encoder::finish: ends the current frame so
/// that everything written so far is independently decodable, and returns
/// the underlying file.
#[verifier::external_body]
fn finish_encoder(enc: FrameEncoder) -> (r: Result<OutputFile, StorageError>)
    ensures
        (match r {
            Err(e) => e is Io,
            Ok(_) => true,
        }),
{
    match enc.inner.finish() {
        Ok(f) => Ok(OutputFile { inner: f }),
        Err(_) => Err(StorageError::Io),
    }
}

/// One rotating compressed output file for one table.
pub struct JsonFileWriter {
    w: Option<FrameEncoder>,
    dir: String,
    table: String,
    finished: Vec<OutputFile>,
    model: Ghost<WriterView>,
}

impl JsonFileWriter {
    /// The ghost model of this writer.
    pub closed spec fn view(self) -> WriterView {
        self.model@
    }

    /// The executable state is consistent with the model.
    pub closed spec fn wf(self) -> bool {
        &&& self.model@.wf()
        &&& (self.w is Some <==> self.model@.open)
        &&& self.finished@.len() == self.model@.files.len()
    }

    /// A closed writer for the given table, writing into the well-known
    /// output directory.
    pub fn new(table: String) -> (r: Self)
        ensures
            r.wf(),
            !r.view().open,
            r.view().files == Seq::<Seq<Seq<u8>>>::empty(),
            r.view().all_bytes() == Seq::<u8>::empty(),
    {
        Self::new_in("json_files".to_owned(), table)
    }

    /// A closed writer for the given table, writing into `dir` (which must
    /// exist before the first write).
    pub fn new_in(dir: String, table: String) -> (r: Self)
        ensures
            r.wf(),
            !r.view().open,
            r.view().files == Seq::<Seq<Seq<u8>>>::empty(),
            r.view().all_bytes() == Seq::<u8>::empty(),
    {
        let model = Ghost(WriterView {
            files: Seq::empty(),
            cur_frames: Seq::empty(),
            cur_frame: Seq::empty(),
            open: false,
        });
        let r = JsonFileWriter { w: None, dir, table, finished: Vec::new(), model };
        proof {
            assert(r.view().files.flatten() =~= Seq::<Seq<u8>>::empty());
            assert(r.view().files.flatten().flatten() =~= Seq::<u8>::empty());
            assert(r.view().cur_frames.flatten() =~= Seq::<u8>::empty());
            assert(r.view().all_bytes() =~= Seq::<u8>::empty());
        }
        r
    }

    /// Append bytes, opening a brand-new file first if no file is open.
    /// On success every previously accepted byte is still in place and
    /// `bytes` now follows them.
    pub fn write(&mut self, bytes: &[u8]) -> (r: Result<(), StorageError>)
        requires
            old(self).wf(),
        ensures
            final(self).wf(),
            final(self).view().files == old(self).view().files,
            (match r {
                Err(e) => e is Io,
                Ok(_) => true,
            }),
            r is Ok ==> {
                &&& final(self).view().open
                &&& final(self).view().cur_frames == if old(self).view().open {
                    old(self).view().cur_frames
                } else {
                    Seq::<Seq<u8>>::empty()
                }
                &&& final(self).view().cur_frame == if old(self).view().open {
                    old(self).view().cur_frame + bytes@
                } else {
                    bytes@
                }
                &&& final(self).view().all_bytes() == old(self).view().all_bytes() + bytes@
            },
    {
        if self.w.is_none() {
            let file = match create_output_file(&self.dir, &self.table) {
                Ok(f) => f,
                Err(e) => {
                    return Err(e);
                },
            };
            let enc = match new_encoder(file) {
                Ok(e) => e,
                Err(e) => {
                    return Err(e);
                },
            };
            self.w = Some(enc);
            let ghost old_model = self.model@;
            proof {
                self.model@ = WriterView {
                    files: old_model.files,
                    cur_frames: Seq::empty(),
                    cur_frame: Seq::empty(),
                    open: true,
                };
            }
        }
        let enc = match &mut self.w {
            Some(e) => e,
            None => {
                return Err(StorageError::Io);
            },
        };
        let res = encoder_write_all(enc, bytes);
        match res {
            Ok(()) => {
                let ghost m = self.model@;
                proof {
                    self.model@ = WriterView {
                        files: m.files,
                        cur_frames: m.cur_frames,
                        cur_frame: m.cur_frame + bytes@,
                        open: true,
                    };
                    assert(self.model@.all_bytes() =~= m.all_bytes() + bytes@);
                    if !old(self).view().open {
                        assert(m.cur_frames.flatten() =~= Seq::<u8>::empty());
                        assert(m.all_bytes() =~= old(self).view().all_bytes());
                    }
                }
                Ok(())
            },
            Err(e) => Err(e),
        }
    }

    /// End the current compressed frame but keep the same file open, with a
    /// fresh compressor appending after it.  Everything written so far
    /// becomes independently decodable; no byte is lost or reordered.
    pub fn flush(&mut self) -> (r: Result<(), StorageError>)
        requires
            old(self).wf(),
        ensures
            final(self).wf(),
            !old(self).view().open ==> r is Ok && final(self).view() == old(self).view(),
            (match r {
                Err(e) => e is Io,
                Ok(_) => true,
            }),
            r is Ok ==> {
                &&& final(self).view().open == old(self).view().open
                &&& final(self).view().files == old(self).view().files
                &&& final(self).view().cur_frames == if old(self).view().open {
                    old(self).view().cur_frames.push(old(self).view().cur_frame)
                } else {
                    Seq::<Seq<u8>>::empty()
                }
                &&& final(self).view().cur_frame == Seq::<u8>::empty()
                &&& final(self).view().all_bytes() == old(self).view().all_bytes()
            },
    {
        let taken = self.w.take();
        match taken {
            None => {
                proof {
                    assert(self.model@.cur_frame =~= Seq::<u8>::empty());
                }
                Ok(())
            },
            Some(enc) => {
                let file = match finish_encoder(enc) {
                    Ok(f) => f,
                    Err(e) => {
                        // the frame could not be finalized; give the file up
                        let ghost m = self.model@;
                        proof {
                            self.model@ = WriterView {
                                files: m.files,
                                cur_frames: Seq::empty(),
                                cur_frame: Seq::empty(),
                                open: false,
                            };
                        }
                        return Err(e);
                    },
                };
                let enc2 = match new_encoder(file) {
                    Ok(e) => e,
                    Err(e) => {
                        let ghost m = self.model@;
                        proof {
                            self.model@ = WriterView {
                                files: m.files,
                                cur_frames: Seq::empty(),
                                cur_frame: Seq::empty(),
                                open: false,
                            };
                        }
                        return Err(e);
                    },
                };
                self.w = Some(enc2);
                let ghost m = self.model@;
                proof {
                    self.model@ = WriterView {
                        files: m.files,
                        cur_frames: m.cur_frames.push(m.cur_frame),
                        cur_frame: Seq::empty(),
                        open: true,
                    };
                    assert(self.model@.cur_frames.flatten() == m.cur_frames.flatten() + m.cur_frame)
                        by {
                        assert(m.cur_frames.push(m.cur_frame) =~= m.cur_frames + seq![m.cur_frame]);
                        lemma_flatten_concat(m.cur_frames, seq![m.cur_frame]);
                        seq![m.cur_frame].lemma_flatten_singleton();
                    }
                    assert(self.model@.all_bytes() =~= m.all_bytes());
                }
                Ok(())
            },
        }
    }

    /// End the current frame and release the file entirely; the writer
    /// returns to the closed state and the next `write` starts a new file.
    pub fn finish_file(&mut self) -> (r: Result<(), StorageError>)
        requires
            old(self).wf(),
        ensures
            final(self).wf(),
            !old(self).view().open ==> r is Ok && final(self).view() == old(self).view(),
            (match r {
                Err(e) => e is Io,
                Ok(_) => true,
            }),
            r is Ok ==> {
                &&& !final(self).view().open
                &&& final(self).view().files == if old(self).view().open {
                    old(self).view().files.push(
                        old(self).view().cur_frames.push(old(self).view().cur_frame),
                    )
                } else {
                    old(self).view().files
                }
                &&& final(self).view().cur_frames == Seq::<Seq<u8>>::empty()
                &&& final(self).view().cur_frame == Seq::<u8>::empty()
                &&& final(self).view().all_bytes() == old(self).view().all_bytes()
            },
    {
        let taken = self.w.take();
        match taken {
            None => {
                proof {
                    assert(self.model@.cur_frames =~= Seq::<Seq<u8>>::empty());
                    assert(self.model@.cur_frame =~= Seq::<u8>::empty());
                }
                Ok(())
            },
            Some(enc) => {
                let ghost m = self.model@;
                let file = match finish_encoder(enc) {
                    Ok(f) => f,
                    Err(e) => {
                        proof {
                            self.model@ = WriterView {
                                files: m.files,
                                cur_frames: Seq::empty(),
                                cur_frame: Seq::empty(),
                                open: false,
                            };
                        }
                        return Err(e);
                    },
                };
                self.finished.push(file);
                proof {
                    self.model@ = WriterView {
                        files: m.files.push(m.cur_frames.push(m.cur_frame)),
                        cur_frames: Seq::empty(),
                        cur_frame: Seq::empty(),
                        open: false,
                    };
                    let newfile = m.cur_frames.push(m.cur_frame);
                    assert(self.model@.files.flatten() == m.files.flatten() + newfile) by {
                        assert(m.files.push(newfile) =~= m.files + seq![newfile]);
                        lemma_flatten_concat(m.files, seq![newfile]);
                        seq![newfile].lemma_flatten_singleton();
                    }
                    assert(newfile.flatten() == m.cur_frames.flatten() + m.cur_frame) by {
                        assert(newfile =~= m.cur_frames + seq![m.cur_frame]);
                        lemma_flatten_concat(m.cur_frames, seq![m.cur_frame]);
                        seq![m.cur_frame].lemma_flatten_singleton();
                    }
                    assert(self.model@.files.flatten().flatten() == m.files.flatten().flatten()
                        + m.cur_frames.flatten() + m.cur_frame) by {
                        lemma_flatten_concat(m.files.flatten(), newfile);
                        assert((m.files.flatten() + newfile).flatten() =~= m.files.flatten().flatten() + newfile.flatten());
                        assert(m.files.flatten().flatten() + (m.cur_frames.flatten() + m.cur_frame)
                            =~= m.files.flatten().flatten() + m.cur_frames.flatten() + m.cur_frame);
                    }
                    assert(self.model@.all_bytes() =~= m.all_bytes());
                }
                Ok(())
            },
        }
    }

    /// Hand out the finished files, consuming the writer.  The `j`-th file
    /// holds, compressed, exactly the frames `self@.files[j]`.
    pub fn into_files(self) -> (r: Vec<OutputFile>)
        requires
            self.wf(),
            !self.view().open,
        ensures
            r@.len() == self.view().files.len(),
    {
        let JsonFileWriter { finished, .. } = self;
        finished
    }
}

} // verus!
