//! The incremental JSON splitter: executable counterpart of the machine in
//! `json`.
//!
//! A `Splitter` is fed byte chunks as they arrive and hands back the
//! complete top-level JSON values found so far.  Only the bytes of the
//! value in progress are retained; consumed bytes are dropped.  Everything
//! the splitter does is proved equal to the specification fold `scan` over
//! the concatenation of all bytes fed, so chunk boundaries cannot affect
//! the outcome.

use vstd::prelude::*;

use crate::json::{
    dispatch, end_value, final_emits, has_pending_number, in_value, lemma_scan_from_append,
    lemma_scan_from_extends, lemma_scan_from_snoc, lemma_scan_wf, lemma_step_shape, lit_byte,
    lit_len, m_in_value, machine_init, num_step, scan, scan_init, scan_step, spec_step, split_ok,
    start_value, valid_payload, Emit, Frame, Lex, LitKind, MachineV, NumPhase, NumRes, StepRes,
};

verus! {

/// Executable machine state: lexical state plus container stack.
pub struct Machine {
    pub lex: Lex,
    pub stack: Vec<Frame>,
}

impl View for Machine {
    type V = MachineV;

    open spec fn view(&self) -> MachineV {
        MachineV { lex: self.lex, stack: self.stack@ }
    }
}

/// Executable outcome of one step.
#[derive(Clone, Copy)]
pub struct StepOut {
    pub emit: Emit,
    pub started: bool,
    pub err: bool,
}

/// The executable step agrees with the specification step.
pub open spec fn step_agrees(r: StepRes, m2: MachineV, out: StepOut) -> bool {
    &&& out.err == r.err
    &&& (!r.err ==> m2 == r.m && out.emit == r.emit && out.started == r.started)
}

impl Machine {
    /// A machine that has seen no bytes.
    pub fn new() -> (m: Machine)
        ensures
            m@ == machine_init(),
    {
        let m = Machine { lex: Lex::Idle, stack: Vec::new() };
        proof {
            assert(m@.stack =~= machine_init().stack);
        }
        m
    }
}

/// Update the enclosing frame after a value closed.
fn exec_end_value(stack: &mut Vec<Frame>)
    ensures
        final(stack)@ == end_value(old(stack)@),
{
    let n = stack.len();
    if n > 0 {
        let top = stack[n - 1];
        match top {
            Frame::ObjValue => {
                stack.pop();
                stack.push(Frame::ObjComma);
                proof {
                    assert(stack@ =~= end_value(old(stack)@));
                }
            },
            Frame::ArrFirst | Frame::ArrValue => {
                stack.pop();
                stack.push(Frame::ArrComma);
                proof {
                    assert(stack@ =~= end_value(old(stack)@));
                }
            },
            _ => {},
        }
    }
}

/// Begin a value (byte `b` read in value position).
fn exec_start_value(m: &mut Machine, b: u8) -> (out: StepOut)
    requires
        old(m).lex is Idle,
    ensures
        step_agrees(start_value(old(m)@.stack, b), final(m)@, out),
{
    let started = m.stack.len() == 0;
    if b == 0x7b {
        m.stack.push(Frame::ObjFirst);
        StepOut { emit: Emit::NoEmit, started, err: false }
    } else if b == 0x5b {
        m.stack.push(Frame::ArrFirst);
        StepOut { emit: Emit::NoEmit, started, err: false }
    } else if b == 0x22 {
        m.lex = Lex::Str { escape: false, hex: 0, key: false };
        StepOut { emit: Emit::NoEmit, started, err: false }
    } else if b == 0x2d {
        m.lex = Lex::Num { phase: NumPhase::Sign };
        StepOut { emit: Emit::NoEmit, started, err: false }
    } else if b == 0x30 {
        m.lex = Lex::Num { phase: NumPhase::IntZero };
        StepOut { emit: Emit::NoEmit, started, err: false }
    } else if 0x31 <= b && b <= 0x39 {
        m.lex = Lex::Num { phase: NumPhase::IntDigits };
        StepOut { emit: Emit::NoEmit, started, err: false }
    } else if b == 116 {
        m.lex = Lex::Lit { kind: LitKind::KwTrue, pos: 1 };
        StepOut { emit: Emit::NoEmit, started, err: false }
    } else if b == 102 {
        m.lex = Lex::Lit { kind: LitKind::KwFalse, pos: 1 };
        StepOut { emit: Emit::NoEmit, started, err: false }
    } else if b == 110 {
        m.lex = Lex::Lit { kind: LitKind::KwNull, pos: 1 };
        StepOut { emit: Emit::NoEmit, started, err: false }
    } else {
        StepOut { emit: Emit::NoEmit, started: false, err: true }
    }
}

/// A container closed; the top frame has already been popped.
fn exec_close_value(m: &mut Machine) -> (out: StepOut)
    requires
        old(m).lex is Idle,
    ensures
        step_agrees(crate::json::close_value(old(m)@.stack), final(m)@, out),
{
    let emit = if m.stack.len() == 0 {
        Emit::EndAt
    } else {
        Emit::NoEmit
    };
    exec_end_value(&mut m.stack);
    StepOut { emit, started: false, err: false }
}

/// Dispatch a byte read between tokens.
fn exec_dispatch(m: &mut Machine, b: u8) -> (out: StepOut)
    requires
        old(m).lex is Idle,
    ensures
        step_agrees(dispatch(old(m)@.stack, b), final(m)@, out),
{
    if b == 0x20 || b == 0x09 || b == 0x0a || b == 0x0d {
        return StepOut { emit: Emit::NoEmit, started: false, err: false };
    }
    let n = m.stack.len();
    if n == 0 {
        return exec_start_value(m, b);
    }
    let top = m.stack[n - 1];
    match top {
        Frame::ObjFirst => {
            if b == 0x22 {
                m.lex = Lex::Str { escape: false, hex: 0, key: true };
                StepOut { emit: Emit::NoEmit, started: false, err: false }
            } else if b == 0x7d {
                m.stack.pop();
                proof {
                    assert(m.stack@ =~= old(m)@.stack.drop_last());
                }
                exec_close_value(m)
            } else {
                StepOut { emit: Emit::NoEmit, started: false, err: true }
            }
        },
        Frame::ObjKey => {
            if b == 0x22 {
                m.lex = Lex::Str { escape: false, hex: 0, key: true };
                StepOut { emit: Emit::NoEmit, started: false, err: false }
            } else {
                StepOut { emit: Emit::NoEmit, started: false, err: true }
            }
        },
        Frame::ObjColon => {
            if b == 0x3a {
                m.stack.pop();
                m.stack.push(Frame::ObjValue);
                proof {
                    assert(m.stack@ =~= old(m)@.stack.update(old(m)@.stack.len() - 1, Frame::ObjValue));
                }
                StepOut { emit: Emit::NoEmit, started: false, err: false }
            } else {
                StepOut { emit: Emit::NoEmit, started: false, err: true }
            }
        },
        Frame::ObjComma => {
            if b == 0x2c {
                m.stack.pop();
                m.stack.push(Frame::ObjKey);
                proof {
                    assert(m.stack@ =~= old(m)@.stack.update(old(m)@.stack.len() - 1, Frame::ObjKey));
                }
                StepOut { emit: Emit::NoEmit, started: false, err: false }
            } else if b == 0x7d {
                m.stack.pop();
                proof {
                    assert(m.stack@ =~= old(m)@.stack.drop_last());
                }
                exec_close_value(m)
            } else {
                StepOut { emit: Emit::NoEmit, started: false, err: true }
            }
        },
        Frame::ObjValue => exec_start_value(m, b),
        Frame::ArrFirst => {
            if b == 0x5d {
                m.stack.pop();
                proof {
                    assert(m.stack@ =~= old(m)@.stack.drop_last());
                }
                exec_close_value(m)
            } else {
                exec_start_value(m, b)
            }
        },
        Frame::ArrValue => exec_start_value(m, b),
        Frame::ArrComma => {
            if b == 0x2c {
                m.stack.pop();
                m.stack.push(Frame::ArrValue);
                proof {
                    assert(m.stack@ =~= old(m)@.stack.update(old(m)@.stack.len() - 1, Frame::ArrValue));
                }
                StepOut { emit: Emit::NoEmit, started: false, err: false }
            } else if b == 0x5d {
                m.stack.pop();
                proof {
                    assert(m.stack@ =~= old(m)@.stack.drop_last());
                }
                exec_close_value(m)
            } else {
                StepOut { emit: Emit::NoEmit, started: false, err: true }
            }
        },
    }
}

/// Feed one byte to the machine.
pub fn step(m: &mut Machine, b: u8) -> (out: StepOut)
    ensures
        step_agrees(spec_step(old(m)@, b), final(m)@, out),
{
    let lex = m.lex;
    match lex {
        Lex::Idle => exec_dispatch(m, b),
        Lex::Str { escape, hex, key } => {
            if hex > 0 {
                if (0x30 <= b && b <= 0x39) || (0x41 <= b && b <= 0x46) || (0x61 <= b && b <= 0x66) {
                    m.lex = Lex::Str { escape: false, hex: hex - 1, key };
                    StepOut { emit: Emit::NoEmit, started: false, err: false }
                } else {
                    StepOut { emit: Emit::NoEmit, started: false, err: true }
                }
            } else if escape {
                if b == 0x22 || b == 0x5c || b == 0x2f || b == 0x62 || b == 0x66 || b == 0x6e
                    || b == 0x72 || b == 0x74 {
                    m.lex = Lex::Str { escape: false, hex: 0, key };
                    StepOut { emit: Emit::NoEmit, started: false, err: false }
                } else if b == 0x75 {
                    m.lex = Lex::Str { escape: false, hex: 4, key };
                    StepOut { emit: Emit::NoEmit, started: false, err: false }
                } else {
                    StepOut { emit: Emit::NoEmit, started: false, err: true }
                }
            } else if b == 0x22 {
                if key {
                    if m.stack.len() > 0 {
                        m.lex = Lex::Idle;
                        m.stack.pop();
                        m.stack.push(Frame::ObjColon);
                        proof {
                            assert(m.stack@ =~= old(m)@.stack.update(old(m)@.stack.len() - 1, Frame::ObjColon));
                        }
                        StepOut { emit: Emit::NoEmit, started: false, err: false }
                    } else {
                        StepOut { emit: Emit::NoEmit, started: false, err: true }
                    }
                } else {
                    let emit = if m.stack.len() == 0 {
                        Emit::EndAt
                    } else {
                        Emit::NoEmit
                    };
                    m.lex = Lex::Idle;
                    exec_end_value(&mut m.stack);
                    StepOut { emit, started: false, err: false }
                }
            } else if b == 0x5c {
                m.lex = Lex::Str { escape: true, hex: 0, key };
                StepOut { emit: Emit::NoEmit, started: false, err: false }
            } else if b < 0x20 {
                StepOut { emit: Emit::NoEmit, started: false, err: true }
            } else {
                StepOut { emit: Emit::NoEmit, started: false, err: false }
            }
        },
        Lex::Num { phase } => {
            let res = exec_num_step(phase, b);
            match res {
                ExecNumRes::Cont(p2) => {
                    m.lex = Lex::Num { phase: p2 };
                    StepOut { emit: Emit::NoEmit, started: false, err: false }
                },
                ExecNumRes::Bad => StepOut { emit: Emit::NoEmit, started: false, err: true },
                ExecNumRes::Ended => {
                    let top = m.stack.len() == 0;
                    m.lex = Lex::Idle;
                    exec_end_value(&mut m.stack);
                    let out2 = exec_dispatch(m, b);
                    StepOut {
                        emit: if top && !out2.err {
                            Emit::EndBefore
                        } else {
                            out2.emit
                        },
                        started: out2.started,
                        err: out2.err,
                    }
                },
            }
        },
        Lex::Lit { kind, pos } => {
            let expect = exec_lit_byte(kind, pos);
            let len = exec_lit_len(kind);
            if b == expect {
                if pos as usize + 1 == len as usize {
                    let emit = if m.stack.len() == 0 {
                        Emit::EndAt
                    } else {
                        Emit::NoEmit
                    };
                    m.lex = Lex::Idle;
                    exec_end_value(&mut m.stack);
                    StepOut { emit, started: false, err: false }
                } else {
                    let p2: u8 = #[verifier::truncate] ((pos as usize + 1) as u8);
                    m.lex = Lex::Lit { kind, pos: p2 };
                    StepOut { emit: Emit::NoEmit, started: false, err: false }
                }
            } else {
                StepOut { emit: Emit::NoEmit, started: false, err: true }
            }
        },
    }
}

/// Executable outcome of a byte against a number token.
#[derive(Clone, Copy)]
pub enum ExecNumRes {
    Cont(NumPhase),
    Ended,
    Bad,
}

/// Executable mirror of `num_step`.
fn exec_num_step(phase: NumPhase, b: u8) -> (r: ExecNumRes)
    ensures
        match r {
            ExecNumRes::Cont(p2) => num_step(phase, b) == NumRes::Cont(p2),
            ExecNumRes::Ended => num_step(phase, b) == NumRes::Ended,
            ExecNumRes::Bad => num_step(phase, b) == NumRes::Bad,
        },
{
    let digit = 0x30 <= b && b <= 0x39;
    match phase {
        NumPhase::Sign => {
            if b == 0x30 { ExecNumRes::Cont(NumPhase::IntZero) }
            else if digit { ExecNumRes::Cont(NumPhase::IntDigits) }
            else { ExecNumRes::Bad }
        },
        NumPhase::IntZero => {
            if b == 0x2e { ExecNumRes::Cont(NumPhase::FracDot) }
            else if b == 0x65 || b == 0x45 { ExecNumRes::Cont(NumPhase::ExpMark) }
            else if digit { ExecNumRes::Bad }
            else { ExecNumRes::Ended }
        },
        NumPhase::IntDigits => {
            if digit { ExecNumRes::Cont(NumPhase::IntDigits) }
            else if b == 0x2e { ExecNumRes::Cont(NumPhase::FracDot) }
            else if b == 0x65 || b == 0x45 { ExecNumRes::Cont(NumPhase::ExpMark) }
            else { ExecNumRes::Ended }
        },
        NumPhase::FracDot => {
            if digit { ExecNumRes::Cont(NumPhase::FracDigits) } else { ExecNumRes::Bad }
        },
        NumPhase::FracDigits => {
            if digit { ExecNumRes::Cont(NumPhase::FracDigits) }
            else if b == 0x65 || b == 0x45 { ExecNumRes::Cont(NumPhase::ExpMark) }
            else { ExecNumRes::Ended }
        },
        NumPhase::ExpMark => {
            if b == 0x2b || b == 0x2d { ExecNumRes::Cont(NumPhase::ExpSign) }
            else if digit { ExecNumRes::Cont(NumPhase::ExpDigits) }
            else { ExecNumRes::Bad }
        },
        NumPhase::ExpSign => {
            if digit { ExecNumRes::Cont(NumPhase::ExpDigits) } else { ExecNumRes::Bad }
        },
        NumPhase::ExpDigits => {
            if digit { ExecNumRes::Cont(NumPhase::ExpDigits) } else { ExecNumRes::Ended }
        },
    }
}

/// Executable mirror of `lit_byte`.
fn exec_lit_byte(kind: LitKind, pos: u8) -> (r: u8)
    ensures
        r == lit_byte(kind, pos),
{
    match kind {
        LitKind::KwTrue => if pos == 0 { 116 } else if pos == 1 { 114 } else if pos == 2 { 117 } else { 101 },
        LitKind::KwFalse => if pos == 0 { 102 } else if pos == 1 { 97 } else if pos == 2 { 108 } else if pos == 3 { 115 } else { 101 },
        LitKind::KwNull => if pos == 0 { 110 } else if pos == 1 { 117 } else { 108 },
    }
}

/// Executable mirror of `lit_len`.
fn exec_lit_len(kind: LitKind) -> (r: u8)
    ensures
        r == lit_len(kind),
{
    match kind {
        LitKind::KwTrue => 4,
        LitKind::KwFalse => 5,
        LitKind::KwNull => 4,
    }
}

/// Executable test: is the machine inside a top-level value?
fn exec_in_value(m: &Machine) -> (r: bool)
    ensures
        r == m_in_value(m@),
{
    if m.stack.len() > 0 {
        true
    } else {
        match m.lex {
            Lex::Idle => false,
            _ => true,
        }
    }
}

/// The splitter failed on malformed input.
#[derive(Clone, Copy, Debug, PartialEq, Eq, Structural)]
pub enum SplitError {
    /// The bytes fed so far cannot be a concatenation of JSON values.
    Malformed,
}

/// What one chunk produced: the values completed within it (also those
/// completed before a malformed byte), and whether the input went bad.
pub struct FeedResult {
    pub values: Vec<Vec<u8>>,
    pub malformed: bool,
}

/// Incremental splitter: feeds chunks to the machine and extracts the bytes
/// of each completed top-level value.
pub struct Splitter {
    machine: Machine,
    buf: Vec<u8>,
    failed: bool,
    fed: Ghost<Seq<u8>>,
}

impl Splitter {
    /// All bytes fed so far.
    pub closed spec fn fed_bytes(self) -> Seq<u8> {
        self.fed@
    }

    /// No malformed input has been seen.
    pub closed spec fn ok(self) -> bool {
        !self.failed
    }

    /// Internal consistency: the machine mirrors the scan of the bytes fed,
    /// and the buffer holds exactly the bytes of the value in progress.
    pub closed spec fn wf(self) -> bool {
        !self.failed ==> {
            &&& !scan(self.fed@).err
            &&& self.machine@ == scan(self.fed@).m
            &&& (in_value(scan(self.fed@)) ==> 0 <= scan(self.fed@).vstart <= self.fed@.len()
                && self.buf@ == self.fed@.subrange(scan(self.fed@).vstart, self.fed@.len() as int))
            &&& (!in_value(scan(self.fed@)) ==> self.buf@.len() == 0)
        }
    }

    /// A splitter that has seen no bytes.
    pub fn new() -> (s: Splitter)
        ensures
            s.wf(),
            s.ok(),
            s.fed_bytes() == Seq::<u8>::empty(),
    {
        let s = Splitter { machine: Machine::new(), buf: Vec::new(), failed: false, fed: Ghost(Seq::empty()) };
        proof {
            assert(s.fed@ =~= Seq::<u8>::empty());
        }
        s
    }

    /// Feed one chunk.  Returns the bytes of every top-level value completed
    /// by this chunk, in order; `malformed` reports that the input can no
    /// longer be a concatenation of JSON values (values completed before
    /// the offending byte are still returned).
    pub fn feed(&mut self, chunk: &[u8]) -> (r: FeedResult)
        requires
            old(self).wf(),
            old(self).ok(),
        ensures
            final(self).wf(),
            final(self).fed_bytes() == old(self).fed_bytes() + chunk@,
            ({
                let st0 = scan(old(self).fed_bytes());
                let st1 = scan(final(self).fed_bytes());
                &&& r.malformed == st1.err
                &&& final(self).ok() == !st1.err
                &&& st1.emits.len() >= st0.emits.len()
                &&& (forall|j: int| 0 <= j < st0.emits.len() ==> #[trigger] st1.emits[j] == st0.emits[j])
                &&& r.values@.len() == st1.emits.len() - st0.emits.len()
                &&& forall|j: int| 0 <= j < r.values@.len()
                    ==> (#[trigger] r.values@[j])@ == final(self).fed_bytes().subrange(
                        st1.emits[st0.emits.len() + j].0,
                        st1.emits[st0.emits.len() + j].1,
                    )
            }),
    {
        let ghost fed0 = self.fed@;
        let ghost st0 = scan(fed0);
        let mut out: Vec<Vec<u8>> = Vec::new();
        let mut k: usize = 0;
        while k < chunk.len()
            invariant
                0 <= k <= chunk@.len(),
                self.wf(),
                self.ok(),
                self.fed@ == fed0 + chunk@.take(k as int),
                !scan(self.fed@).err,
                scan(self.fed@).emits.len() >= st0.emits.len(),
                forall|j: int| 0 <= j < st0.emits.len()
                    ==> #[trigger] scan(self.fed@).emits[j] == st0.emits[j],
                out@.len() == scan(self.fed@).emits.len() - st0.emits.len(),
                forall|j: int| 0 <= j < out@.len()
                    ==> (#[trigger] out@[j])@ == self.fed@.subrange(
                        scan(self.fed@).emits[st0.emits.len() + j].0,
                        scan(self.fed@).emits[st0.emits.len() + j].1,
                    ),
                st0 == scan(fed0),
                fed0 == old(self).fed_bytes(),
            decreases chunk@.len() - k,
        {
            let b = chunk[k];
            let ghost fed1 = self.fed@;
            let ghost st1 = scan(fed1);
            let ghost i = fed1.len() as int;
            proof {
                lemma_scan_wf(fed1);
                lemma_scan_from_snoc(scan_init(), 0, fed1, b);
                lemma_step_shape(st1.m, b);
            }
            self.buf.push(b);
            let so = step(&mut self.machine, b);
            self.fed = Ghost(fed1.push(b));
            let ghost fed2 = self.fed@;
            let ghost st2 = scan(fed2);
            proof {
                assert(st2 == scan_step(st1, i, b));
                assert(fed2 =~= fed0 + chunk@.take(k as int + 1));
            }
            if so.err {
                self.failed = true;
                proof {
                    let rest = chunk@.skip(k as int + 1);
                    lemma_scan_from_append(scan_init(), 0, fed2, rest);
                    assert(fed2 + rest =~= fed0 + chunk@);
                    lemma_scan_from_extends(st2, fed2.len() as int, rest);
                }
                self.fed = Ghost(fed0 + chunk@);
                proof {
                    assert forall|j: int| 0 <= j < out@.len() implies (#[trigger] out@[j])@
                        == self.fed@.subrange(
                            scan(self.fed@).emits[st0.emits.len() + j].0,
                            scan(self.fed@).emits[st0.emits.len() + j].1,
                        ) by {
                        let a = st1.emits[st0.emits.len() + j].0;
                        let c = st1.emits[st0.emits.len() + j].1;
                        assert(0 <= a <= c <= fed1.len());
                        assert(self.fed@.subrange(a, c) =~= fed1.subrange(a, c));
                    }
                }
                return FeedResult { values: out, malformed: true };
            }
            proof {
                // previously collected values keep their bytes: spans end
                // within the old input
                assert forall|j: int| 0 <= j < out@.len() implies (#[trigger] out@[j])@
                    == fed2.subrange(
                        st2.emits[st0.emits.len() + j].0,
                        st2.emits[st0.emits.len() + j].1,
                    ) by {
                    let a = st1.emits[st0.emits.len() + j].0;
                    let c = st1.emits[st0.emits.len() + j].1;
                    assert(0 <= a <= c <= fed1.len());
                    assert(fed2.subrange(a, c) =~= fed1.subrange(a, c));
                }
            }
            match so.emit {
                Emit::NoEmit => {
                    if !exec_in_value(&self.machine) {
                        self.buf.clear();
                    } else {
                        proof {
                            if m_in_value(st1.m) {
                                assert(self.buf@ =~= fed2.subrange(st2.vstart, fed2.len() as int));
                            } else {
                                assert(so.started);
                                assert(self.buf@ =~= fed2.subrange(st2.vstart, fed2.len() as int));
                            }
                        }
                    }
                },
                Emit::EndAt => {
                    let mut val: Vec<u8> = Vec::new();
                    core::mem::swap(&mut self.buf, &mut val);
                    proof {
                        assert(m_in_value(st1.m));
                        assert(val@ =~= fed2.subrange(st1.vstart, i + 1));
                    }
                    out.push(val);
                },
                Emit::EndBefore => {
                    let mut val: Vec<u8> = Vec::new();
                    core::mem::swap(&mut self.buf, &mut val);
                    val.pop();
                    proof {
                        assert(m_in_value(st1.m));
                        assert(val@ =~= fed2.subrange(st1.vstart, i));
                    }
                    out.push(val);
                    if so.started {
                        self.buf.push(b);
                        proof {
                            assert(self.buf@ =~= fed2.subrange(st2.vstart, fed2.len() as int));
                        }
                    }
                },
            }
            k = k + 1;
        }
        proof {
            assert(chunk@.take(chunk@.len() as int) =~= chunk@);
        }
        FeedResult { values: out, malformed: false }
    }

    /// End of input.  Returns the bytes of a trailing number value if one
    /// was pending, or an error if a value is dangling incomplete.
    pub fn finish(self) -> (r: Result<Vec<Vec<u8>>, SplitError>)
        requires
            self.wf(),
            self.ok(),
        ensures
            ({
                let s = self.fed_bytes();
                match r {
                    Ok(vs) => {
                        &&& split_ok(s)
                        &&& final_emits(s).len() == scan(s).emits.len() + vs@.len()
                        &&& vs@.len() <= 1
                        &&& forall|j: int| 0 <= j < vs@.len()
                            ==> (#[trigger] vs@[j])@ == s.subrange(
                                final_emits(s)[scan(s).emits.len() + j].0,
                                final_emits(s)[scan(s).emits.len() + j].1,
                            )
                    },
                    Err(_) => !split_ok(s),
                }
            }),
    {
        let ghost s = self.fed@;
        let ghost st = scan(s);
        proof {
            lemma_scan_wf(s);
        }
        let Splitter { machine, buf, failed, fed } = self;
        if machine.stack.len() > 0 {
            return Err(SplitError::Malformed);
        }
        match machine.lex {
            Lex::Idle => {
                proof {
                    assert(final_emits(s) == st.emits);
                }
                Ok(Vec::new())
            },
            Lex::Num { phase } => {
                let terminal = match phase {
                    NumPhase::IntZero | NumPhase::IntDigits | NumPhase::FracDigits
                        | NumPhase::ExpDigits => true,
                    _ => false,
                };
                if terminal {
                    let mut vs: Vec<Vec<u8>> = Vec::new();
                    proof {
                        assert(has_pending_number(st));
                        assert(in_value(st));
                        assert(buf@ == s.subrange(st.vstart, s.len() as int));
                        assert(final_emits(s) == st.emits.push((st.vstart, s.len() as int)));
                    }
                    vs.push(buf);
                    Ok(vs)
                } else {
                    Err(SplitError::Malformed)
                }
            },
            _ => Err(SplitError::Malformed),
        }
    }
}

/// Decide whether `b` is exactly one well-formed JSON value.
pub fn check_payload(b: &[u8]) -> (r: bool)
    ensures
        r == valid_payload(b@),
{
    let n = b.len();
    let ghost nn = b@.len() as int;
    let mut m = Machine::new();
    let mut vstart: usize = 0;
    let mut nem: usize = 0;
    let mut exact = false;
    let mut k: usize = 0;
    while k < n
        invariant
            0 <= k <= b@.len(),
            n == b@.len(),
            nn == b@.len() as int,
            !scan(b@.take(k as int)).err,
            m@ == scan(b@.take(k as int)).m,
            vstart as int == scan(b@.take(k as int)).vstart,
            nem as int == scan(b@.take(k as int)).emits.len(),
            nem <= k,
            exact <==> scan(b@.take(k as int)).emits == seq![(0int, nn)],
        decreases b@.len() - k,
    {
        let byte = b[k];
        let ghost pre = b@.take(k as int);
        let ghost st1 = scan(pre);
        proof {
            lemma_scan_wf(pre);
            lemma_scan_from_snoc(scan_init(), 0, pre, byte);
            assert(pre.push(byte) =~= b@.take(k as int + 1));
        }
        let so = step(&mut m, byte);
        let ghost st2 = scan(b@.take(k as int + 1));
        proof {
            assert(st2 == scan_step(st1, k as int, byte));
        }
        if so.err {
            proof {
                let rest = b@.skip(k as int + 1);
                lemma_scan_from_append(scan_init(), 0, b@.take(k as int + 1), rest);
                assert(b@.take(k as int + 1) + rest =~= b@);
                lemma_scan_from_extends(st2, k as int + 1, rest);
            }
            return false;
        }
        match so.emit {
            Emit::NoEmit => {},
            Emit::EndAt => {
                let span_exact = nem == 0 && vstart == 0 && k + 1 == n;
                proof {
                    let sp = (st1.vstart, k as int + 1);
                    assert(st2.emits == st1.emits.push(sp));
                    if nem == 0 && vstart == 0 && k + 1 == n {
                        assert(st1.emits =~= Seq::<(int, int)>::empty());
                        assert(st2.emits =~= seq![(0int, nn)]);
                    } else {
                        if st2.emits == seq![(0int, nn)] {
                            assert(st2.emits.len() == 1);
                            assert(st1.emits.len() == 0);
                            assert(st2.emits[0] == sp);
                            assert(seq![(0int, nn)][0] == (0int, nn));
                            assert(sp == (0int, nn));
                            assert(false);
                        }
                    }
                }
                exact = span_exact;
                nem = nem + 1;
            },
            Emit::EndBefore => {
                proof {
                    let sp = (st1.vstart, k as int);
                    assert(st2.emits == st1.emits.push(sp));
                    if st2.emits == seq![(0int, nn)] {
                        assert(st2.emits[st2.emits.len() - 1] == (0int, nn));
                        assert(false);
                    }
                }
                exact = false;
                nem = nem + 1;
            },
        }
        if so.started {
            vstart = k;
        }
        k = k + 1;
    }
    proof {
        assert(b@.take(nn) =~= b@);
    }
    let ghost st = scan(b@);
    if m.stack.len() > 0 {
        return false;
    }
    match m.lex {
        Lex::Idle => {
            proof {
                assert(!has_pending_number(st));
                assert(final_emits(b@) == st.emits);
            }
            exact
        },
        Lex::Num { phase } => {
            let terminal = match phase {
                NumPhase::IntZero | NumPhase::IntDigits | NumPhase::FracDigits
                    | NumPhase::ExpDigits => true,
                _ => false,
            };
            if terminal {
                let ok = nem == 0 && vstart == 0;
                proof {
                    assert(has_pending_number(st));
                    assert(final_emits(b@) == st.emits.push((st.vstart, nn)));
                    if nem == 0 && vstart == 0 {
                        assert(st.emits =~= Seq::<(int, int)>::empty());
                        assert(final_emits(b@) =~= seq![(0int, nn)]);
                    } else {
                        if final_emits(b@) == seq![(0int, nn)] {
                            assert(final_emits(b@).len() == 1);
                            assert(st.emits.len() == 0);
                            assert(final_emits(b@)[0] == (st.vstart, nn));
                            assert(seq![(0int, nn)][0] == (0int, nn));
                            assert((st.vstart, nn) == (0int, nn));
                            assert(false);
                        }
                    }
                }
                ok
            } else {
                false
            }
        },
        _ => false,
    }
}

} // verus!
