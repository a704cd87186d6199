//! A byte-level state machine for splitting a stream of bytes into complete
//! top-level JSON values.
//!
//! The machine consumes one byte at a time.  Its specification (`spec_step`,
//! `scan`) is the authoritative definition of what the splitter does: the
//! executable code is proved to compute exactly the fold of `spec_step` over
//! the input.  Because the machine is a function of the byte sequence alone,
//! how the input is cut into chunks cannot influence the outcome.

use vstd::prelude::*;

verus! {

/// Sub-state while scanning a number token.
#[derive(Clone, Copy)]
pub enum NumPhase {
    /// A leading minus sign has been read.
    Sign,
    /// A leading zero has been read.
    IntZero,
    /// Inside the integer part (first digit nonzero, or past it).
    IntDigits,
    /// A decimal point has been read, no fraction digit yet.
    FracDot,
    /// Inside the fraction digits.
    FracDigits,
    /// An exponent marker has been read, no sign or digit yet.
    ExpMark,
    /// An exponent sign has been read, no digit yet.
    ExpSign,
    /// Inside the exponent digits.
    ExpDigits,
}

/// Which keyword literal is being scanned.
#[derive(Clone, Copy)]
pub enum LitKind {
    KwTrue,
    KwFalse,
    KwNull,
}

/// Lexical state: what token, if any, is in progress.
#[derive(Clone, Copy)]
pub enum Lex {
    /// Between tokens.
    Idle,
    /// Inside a string token.  `escape` is true right after a backslash;
    /// `hex` counts the hex digits still owed to a `\u` escape; `key` is
    /// true when the string is an object key.
    Str { escape: bool, hex: u8, key: bool },
    /// Inside a number token.
    Num { phase: NumPhase },
    /// Inside a keyword literal; `pos` bytes have matched so far.
    Lit { kind: LitKind, pos: u8 },
}

/// One enclosing container context on the stack.
#[derive(Clone, Copy)]
pub enum Frame {
    /// After `{`: expecting a key string or `}`.
    ObjFirst,
    /// After `,` in an object: expecting a key string.
    ObjKey,
    /// After a key: expecting `:`.
    ObjColon,
    /// After `:`: expecting a value.
    ObjValue,
    /// After a member value: expecting `,` or `}`.
    ObjComma,
    /// After `[`: expecting a value or `]`.
    ArrFirst,
    /// After `,` in an array: expecting a value.
    ArrValue,
    /// After an element: expecting `,` or `]`.
    ArrComma,
}

/// Mathematical view of the machine: lexical state plus container stack.
pub struct MachineV {
    pub lex: Lex,
    pub stack: Seq<Frame>,
}

/// Whether a top-level value ended at this byte.
#[derive(Clone, Copy)]
pub enum Emit {
    /// No top-level value ended.
    NoEmit,
    /// A value ended with (including) this byte.
    EndAt,
    /// A value ended just before this byte (a number hit its delimiter).
    EndBefore,
}

/// Outcome of one specification step.
pub struct StepRes {
    pub m: MachineV,
    pub emit: Emit,
    /// A new top-level value began at this byte.
    pub started: bool,
    pub err: bool,
}

pub open spec fn is_ws(b: u8) -> bool {
    b == 0x20 || b == 0x09 || b == 0x0a || b == 0x0d
}

pub open spec fn is_digit(b: u8) -> bool {
    0x30 <= b && b <= 0x39
}

pub open spec fn is_hex_digit(b: u8) -> bool {
    is_digit(b) || (0x41 <= b && b <= 0x46) || (0x61 <= b && b <= 0x66)
}

/// Length of a keyword literal.
pub open spec fn lit_len(kind: LitKind) -> u8 {
    match kind {
        LitKind::KwTrue => 4,
        LitKind::KwFalse => 5,
        LitKind::KwNull => 4,
    }
}

/// The byte expected at position `pos` of a keyword literal.
pub open spec fn lit_byte(kind: LitKind, pos: u8) -> u8 {
    match kind {
        LitKind::KwTrue => if pos == 0 { 116 } else if pos == 1 { 114 } else if pos == 2 { 117 } else { 101 },
        LitKind::KwFalse => if pos == 0 { 102 } else if pos == 1 { 97 } else if pos == 2 { 108 } else if pos == 3 { 115 } else { 101 },
        LitKind::KwNull => if pos == 0 { 110 } else if pos == 1 { 117 } else { 108 },
    }
}

/// After a value closed, update the enclosing frame (if any).
pub open spec fn end_value(stack: Seq<Frame>) -> Seq<Frame> {
    if stack.len() == 0 {
        stack
    } else {
        match stack.last() {
            Frame::ObjValue => stack.update(stack.len() - 1, Frame::ObjComma),
            Frame::ArrFirst => stack.update(stack.len() - 1, Frame::ArrComma),
            Frame::ArrValue => stack.update(stack.len() - 1, Frame::ArrComma),
            _ => stack,
        }
    }
}

/// A container just closed with `stack` being the frames that remain.
pub open spec fn close_value(stack: Seq<Frame>) -> StepRes {
    StepRes {
        m: MachineV { lex: Lex::Idle, stack: end_value(stack) },
        emit: if stack.len() == 0 { Emit::EndAt } else { Emit::NoEmit },
        started: false,
        err: false,
    }
}

/// A byte in value position begins a new value (or is rejected).
pub open spec fn start_value(stack: Seq<Frame>, b: u8) -> StepRes {
    let started = stack.len() == 0;
    if b == 0x7b {  // '{'
        StepRes { m: MachineV { lex: Lex::Idle, stack: stack.push(Frame::ObjFirst) }, emit: Emit::NoEmit, started, err: false }
    } else if b == 0x5b {  // '['
        StepRes { m: MachineV { lex: Lex::Idle, stack: stack.push(Frame::ArrFirst) }, emit: Emit::NoEmit, started, err: false }
    } else if b == 0x22 {  // '"'
        StepRes { m: MachineV { lex: Lex::Str { escape: false, hex: 0, key: false }, stack }, emit: Emit::NoEmit, started, err: false }
    } else if b == 0x2d {  // '-'
        StepRes { m: MachineV { lex: Lex::Num { phase: NumPhase::Sign }, stack }, emit: Emit::NoEmit, started, err: false }
    } else if b == 0x30 {  // '0'
        StepRes { m: MachineV { lex: Lex::Num { phase: NumPhase::IntZero }, stack }, emit: Emit::NoEmit, started, err: false }
    } else if is_digit(b) {
        StepRes { m: MachineV { lex: Lex::Num { phase: NumPhase::IntDigits }, stack }, emit: Emit::NoEmit, started, err: false }
    } else if b == 116 {  // 't'
        StepRes { m: MachineV { lex: Lex::Lit { kind: LitKind::KwTrue, pos: 1 }, stack }, emit: Emit::NoEmit, started, err: false }
    } else if b == 102 {  // 'f'
        StepRes { m: MachineV { lex: Lex::Lit { kind: LitKind::KwFalse, pos: 1 }, stack }, emit: Emit::NoEmit, started, err: false }
    } else if b == 110 {  // 'n'
        StepRes { m: MachineV { lex: Lex::Lit { kind: LitKind::KwNull, pos: 1 }, stack }, emit: Emit::NoEmit, started, err: false }
    } else {
        StepRes { m: MachineV { lex: Lex::Idle, stack }, emit: Emit::NoEmit, started: false, err: true }
    }
}

/// Dispatch a byte read between tokens.
pub open spec fn dispatch(stack: Seq<Frame>, b: u8) -> StepRes {
    let stay = StepRes { m: MachineV { lex: Lex::Idle, stack }, emit: Emit::NoEmit, started: false, err: false };
    let bad = StepRes { m: MachineV { lex: Lex::Idle, stack }, emit: Emit::NoEmit, started: false, err: true };
    if is_ws(b) {
        stay
    } else if stack.len() == 0 {
        start_value(stack, b)
    } else {
        match stack.last() {
            Frame::ObjFirst => {
                if b == 0x22 {
                    StepRes { m: MachineV { lex: Lex::Str { escape: false, hex: 0, key: true }, stack }, emit: Emit::NoEmit, started: false, err: false }
                } else if b == 0x7d {  // '}'
                    close_value(stack.drop_last())
                } else {
                    bad
                }
            },
            Frame::ObjKey => {
                if b == 0x22 {
                    StepRes { m: MachineV { lex: Lex::Str { escape: false, hex: 0, key: true }, stack }, emit: Emit::NoEmit, started: false, err: false }
                } else {
                    bad
                }
            },
            Frame::ObjColon => {
                if b == 0x3a {  // ':'
                    StepRes { m: MachineV { lex: Lex::Idle, stack: stack.update(stack.len() - 1, Frame::ObjValue) }, emit: Emit::NoEmit, started: false, err: false }
                } else {
                    bad
                }
            },
            Frame::ObjComma => {
                if b == 0x2c {  // ','
                    StepRes { m: MachineV { lex: Lex::Idle, stack: stack.update(stack.len() - 1, Frame::ObjKey) }, emit: Emit::NoEmit, started: false, err: false }
                } else if b == 0x7d {
                    close_value(stack.drop_last())
                } else {
                    bad
                }
            },
            Frame::ObjValue => start_value(stack, b),
            Frame::ArrFirst => {
                if b == 0x5d {  // ']'
                    close_value(stack.drop_last())
                } else {
                    start_value(stack, b)
                }
            },
            Frame::ArrValue => start_value(stack, b),
            Frame::ArrComma => {
                if b == 0x2c {
                    StepRes { m: MachineV { lex: Lex::Idle, stack: stack.update(stack.len() - 1, Frame::ArrValue) }, emit: Emit::NoEmit, started: false, err: false }
                } else if b == 0x5d {
                    close_value(stack.drop_last())
                } else {
                    bad
                }
            },
        }
    }
}

/// Outcome of one byte against a number token.
pub enum NumRes {
    Cont(NumPhase),
    Ended,
    Bad,
}

pub open spec fn num_step(phase: NumPhase, b: u8) -> NumRes {
    match phase {
        NumPhase::Sign => {
            if b == 0x30 { NumRes::Cont(NumPhase::IntZero) }
            else if is_digit(b) { NumRes::Cont(NumPhase::IntDigits) }
            else { NumRes::Bad }
        },
        NumPhase::IntZero => {
            if b == 0x2e { NumRes::Cont(NumPhase::FracDot) }
            else if b == 0x65 || b == 0x45 { NumRes::Cont(NumPhase::ExpMark) }
            else if is_digit(b) { NumRes::Bad }
            else { NumRes::Ended }
        },
        NumPhase::IntDigits => {
            if is_digit(b) { NumRes::Cont(NumPhase::IntDigits) }
            else if b == 0x2e { NumRes::Cont(NumPhase::FracDot) }
            else if b == 0x65 || b == 0x45 { NumRes::Cont(NumPhase::ExpMark) }
            else { NumRes::Ended }
        },
        NumPhase::FracDot => {
            if is_digit(b) { NumRes::Cont(NumPhase::FracDigits) } else { NumRes::Bad }
        },
        NumPhase::FracDigits => {
            if is_digit(b) { NumRes::Cont(NumPhase::FracDigits) }
            else if b == 0x65 || b == 0x45 { NumRes::Cont(NumPhase::ExpMark) }
            else { NumRes::Ended }
        },
        NumPhase::ExpMark => {
            if b == 0x2b || b == 0x2d { NumRes::Cont(NumPhase::ExpSign) }
            else if is_digit(b) { NumRes::Cont(NumPhase::ExpDigits) }
            else { NumRes::Bad }
        },
        NumPhase::ExpSign => {
            if is_digit(b) { NumRes::Cont(NumPhase::ExpDigits) } else { NumRes::Bad }
        },
        NumPhase::ExpDigits => {
            if is_digit(b) { NumRes::Cont(NumPhase::ExpDigits) } else { NumRes::Ended }
        },
    }
}

/// A number token may legally end while in this phase.
pub open spec fn num_terminal(phase: NumPhase) -> bool {
    match phase {
        NumPhase::IntZero | NumPhase::IntDigits | NumPhase::FracDigits | NumPhase::ExpDigits => true,
        _ => false,
    }
}

/// One byte of input against the whole machine.
pub open spec fn spec_step(m: MachineV, b: u8) -> StepRes {
    let bad = StepRes { m, emit: Emit::NoEmit, started: false, err: true };
    match m.lex {
        Lex::Idle => dispatch(m.stack, b),
        Lex::Str { escape, hex, key } => {
            if hex > 0 {
                if is_hex_digit(b) {
                    StepRes { m: MachineV { lex: Lex::Str { escape: false, hex: (hex - 1) as u8, key }, stack: m.stack }, emit: Emit::NoEmit, started: false, err: false }
                } else {
                    bad
                }
            } else if escape {
                if b == 0x22 || b == 0x5c || b == 0x2f || b == 0x62 || b == 0x66 || b == 0x6e || b == 0x72 || b == 0x74 {
                    StepRes { m: MachineV { lex: Lex::Str { escape: false, hex: 0, key }, stack: m.stack }, emit: Emit::NoEmit, started: false, err: false }
                } else if b == 0x75 {  // 'u'
                    StepRes { m: MachineV { lex: Lex::Str { escape: false, hex: 4, key }, stack: m.stack }, emit: Emit::NoEmit, started: false, err: false }
                } else {
                    bad
                }
            } else if b == 0x22 {
                if key {
                    if m.stack.len() > 0 {
                        StepRes { m: MachineV { lex: Lex::Idle, stack: m.stack.update(m.stack.len() - 1, Frame::ObjColon) }, emit: Emit::NoEmit, started: false, err: false }
                    } else {
                        bad
                    }
                } else {
                    StepRes {
                        m: MachineV { lex: Lex::Idle, stack: end_value(m.stack) },
                        emit: if m.stack.len() == 0 { Emit::EndAt } else { Emit::NoEmit },
                        started: false,
                        err: false,
                    }
                }
            } else if b == 0x5c {
                StepRes { m: MachineV { lex: Lex::Str { escape: true, hex: 0, key }, stack: m.stack }, emit: Emit::NoEmit, started: false, err: false }
            } else if b < 0x20 {
                bad
            } else {
                StepRes { m, emit: Emit::NoEmit, started: false, err: false }
            }
        },
        Lex::Num { phase } => {
            match num_step(phase, b) {
                NumRes::Cont(p2) => StepRes { m: MachineV { lex: Lex::Num { phase: p2 }, stack: m.stack }, emit: Emit::NoEmit, started: false, err: false },
                NumRes::Bad => bad,
                NumRes::Ended => {
                    let top = m.stack.len() == 0;
                    let r2 = dispatch(end_value(m.stack), b);
                    StepRes {
                        m: r2.m,
                        emit: if top { Emit::EndBefore } else { r2.emit },
                        started: r2.started,
                        err: r2.err,
                    }
                },
            }
        },
        Lex::Lit { kind, pos } => {
            if b == lit_byte(kind, pos) {
                if pos + 1 == lit_len(kind) {
                    StepRes {
                        m: MachineV { lex: Lex::Idle, stack: end_value(m.stack) },
                        emit: if m.stack.len() == 0 { Emit::EndAt } else { Emit::NoEmit },
                        started: false,
                        err: false,
                    }
                } else {
                    StepRes { m: MachineV { lex: Lex::Lit { kind, pos: (pos + 1) as u8 }, stack: m.stack }, emit: Emit::NoEmit, started: false, err: false }
                }
            } else {
                bad
            }
        },
    }
}

/// State of a scan over a whole byte sequence: machine state, sticky error,
/// start offset of the value in progress, and the spans emitted so far.
pub struct ScanS {
    pub m: MachineV,
    pub err: bool,
    pub vstart: int,
    pub emits: Seq<(int, int)>,
}

pub open spec fn machine_init() -> MachineV {
    MachineV { lex: Lex::Idle, stack: Seq::empty() }
}

pub open spec fn scan_init() -> ScanS {
    ScanS { m: machine_init(), err: false, vstart: 0, emits: Seq::empty() }
}

/// Process the byte at absolute offset `i`.
pub open spec fn scan_step(st: ScanS, i: int, b: u8) -> ScanS {
    if st.err {
        st
    } else {
        let r = spec_step(st.m, b);
        if r.err {
            ScanS { m: r.m, err: true, vstart: st.vstart, emits: st.emits }
        } else {
            let vstart2 = if r.started { i } else { st.vstart };
            let emits2 = match r.emit {
                Emit::NoEmit => st.emits,
                Emit::EndAt => st.emits.push((st.vstart, i + 1)),
                Emit::EndBefore => st.emits.push((st.vstart, i)),
            };
            ScanS { m: r.m, err: false, vstart: vstart2, emits: emits2 }
        }
    }
}

/// Fold the machine over `s`, whose first byte sits at absolute offset `i0`.
pub open spec fn scan_from(st: ScanS, i0: int, s: Seq<u8>) -> ScanS
    decreases s.len(),
{
    if s.len() == 0 {
        st
    } else {
        scan_step(scan_from(st, i0, s.drop_last()), i0 + s.len() - 1, s.last())
    }
}

/// Scan a whole input from the initial state.
pub open spec fn scan(s: Seq<u8>) -> ScanS {
    scan_from(scan_init(), 0, s)
}

/// The machine is inside a top-level value.
pub open spec fn m_in_value(m: MachineV) -> bool {
    m.stack.len() > 0 || !(m.lex is Idle)
}

/// A top-level value is in progress.
pub open spec fn in_value(st: ScanS) -> bool {
    m_in_value(st.m)
}

/// At end of input, nothing is dangling: either the machine is clean, or a
/// number that is a complete value by itself is pending.
pub open spec fn finish_pending_ok(st: ScanS) -> bool {
    st.m.stack.len() == 0 && match st.m.lex {
        Lex::Idle => true,
        Lex::Num { phase } => num_terminal(phase),
        _ => false,
    }
}

/// A trailing number value is pending at end of input.
pub open spec fn has_pending_number(st: ScanS) -> bool {
    st.m.stack.len() == 0 && match st.m.lex {
        Lex::Num { phase } => num_terminal(phase),
        _ => false,
    }
}

/// The spans of all values in `s`, counting a trailing complete number.
pub open spec fn final_emits(s: Seq<u8>) -> Seq<(int, int)> {
    let st = scan(s);
    if has_pending_number(st) {
        st.emits.push((st.vstart, s.len() as int))
    } else {
        st.emits
    }
}

/// `s` is a well-formed concatenation of JSON values (possibly none),
/// with nothing dangling at the end.
pub open spec fn split_ok(s: Seq<u8>) -> bool {
    !scan(s).err && finish_pending_ok(scan(s))
}

/// The byte contents of each value of `s`, in order.
pub open spec fn split_values(s: Seq<u8>) -> Seq<Seq<u8>> {
    final_emits(s).map(|i: int, p: (int, int)| s.subrange(p.0, p.1))
}

/// `b` is exactly one well-formed JSON value: no leading or trailing bytes.
pub open spec fn valid_payload(b: Seq<u8>) -> bool {
    split_ok(b) && final_emits(b) == seq![(0int, b.len() as int)]
}

/// How one step can change whether a top-level value is in progress.
/// A clean machine only starts values (or skips whitespace); a value can
/// end only if one was in progress; whenever a value ends with nothing
/// started the machine is clean again.
#[verifier::rlimit(50)]
pub proof fn lemma_step_shape(m: MachineV, b: u8)
    ensures
        ({
            let r = spec_step(m, b);
            &&& (!r.err && !m_in_value(m) && !r.started ==> r.m == m && r.emit is NoEmit)
            &&& (!r.err && !(r.emit is NoEmit) ==> m_in_value(m))
            &&& (!r.err && r.started && m_in_value(m) ==> r.emit is EndBefore)
            &&& (!r.err && r.emit is EndAt ==> !m_in_value(r.m))
            &&& (!r.err && r.emit is EndBefore && !r.started ==> !m_in_value(r.m))
            &&& (!r.err && r.started ==> m_in_value(r.m))
        }),
{
    let r = spec_step(m, b);
    match m.lex {
        Lex::Idle => {
            if m.stack.len() == 0 {
                if !is_ws(b) {
                    assert(r == start_value(m.stack, b));
                }
            }
        },
        Lex::Str { escape, hex, key } => {},
        Lex::Num { phase } => {
            match num_step(phase, b) {
                NumRes::Ended => {
                    let st2 = end_value(m.stack);
                    assert(st2.len() == m.stack.len());
                    let r2 = dispatch(st2, b);
                    if m.stack.len() == 0 {
                        assert(st2.len() == 0);
                    }
                },
                _ => {},
            }
        },
        Lex::Lit { kind, pos } => {},
    }
}

/// Scanning a sequence extended by one byte is one more step.
pub proof fn lemma_scan_from_snoc(st: ScanS, i0: int, s: Seq<u8>, b: u8)
    ensures
        scan_from(st, i0, s.push(b)) == scan_step(scan_from(st, i0, s), i0 + s.len(), b),
{
    let s2 = s.push(b);
    assert(s2.drop_last() =~= s);
    assert(s2.last() == b);
    assert(scan_from(st, i0, s2) == scan_step(scan_from(st, i0, s2.drop_last()), i0 + s2.len() - 1, s2.last()));
}

/// Scanning a concatenation equals scanning the first part, then the second
/// from where the first left off.  This is why chunk boundaries cannot
/// matter: any chunking of the same bytes folds to the same state.
pub proof fn lemma_scan_from_append(st: ScanS, i0: int, a: Seq<u8>, b: Seq<u8>)
    ensures
        scan_from(st, i0, a + b) == scan_from(scan_from(st, i0, a), i0 + a.len(), b),
    decreases b.len(),
{
    if b.len() == 0 {
        assert(a + b =~= a);
    } else {
        let b1 = b.drop_last();
        lemma_scan_from_append(st, i0, a, b1);
        assert((a + b).drop_last() =~= a + b1);
        assert((a + b).last() == b.last());
        assert(scan_from(st, i0, a + b)
            == scan_step(scan_from(st, i0, (a + b).drop_last()), i0 + (a + b).len() - 1, (a + b).last()));
        assert(scan_from(scan_from(st, i0, a), i0 + a.len(), b)
            == scan_step(scan_from(scan_from(st, i0, a), i0 + a.len(), b1), i0 + a.len() + b.len() - 1, b.last()));
    }
}

/// Splitting the same payload cannot depend on how it is cut into chunks:
/// continuing a scan over the rest of the input gives exactly the scan of
/// the whole, so any two chunkings of the same bytes yield the same values.
pub proof fn lemma_chunking_invariance(a: Seq<u8>, b: Seq<u8>)
    ensures
        scan(a + b) == scan_from(scan(a), a.len() as int, b),
{
    lemma_scan_from_append(scan_init(), 0, a, b);
}

/// The segment of the value in progress, rescanned alone from a fresh
/// machine, reaches exactly the current machine state with nothing emitted
/// and its start at offset zero — and every span already emitted holds one
/// well-formed JSON value.  This is the inductive heart of
/// `lemma_values_are_payloads`.
#[verifier::rlimit(80)]
proof fn lemma_scan_segments(s: Seq<u8>)
    requires
        !scan(s).err,
    ensures
        forall|j: int| 0 <= j < scan(s).emits.len() ==> valid_payload(
            s.subrange(#[trigger] scan(s).emits[j].0, scan(s).emits[j].1),
        ),
        in_value(scan(s)) ==> scan(s.subrange(scan(s).vstart, s.len() as int)) == (ScanS {
            m: scan(s).m,
            err: false,
            vstart: 0,
            emits: Seq::<(int, int)>::empty(),
        }),
    decreases s.len(),
{
    if s.len() == 0 {
    } else {
        let s1 = s.drop_last();
        let b = s.last();
        let i = s.len() - 1;
        let st1 = scan(s1);
        let st2 = scan(s);
        assert(st2 == scan_step(st1, i, b)) by {
            assert(s1.push(b) =~= s);
            lemma_scan_from_snoc(scan_init(), 0, s1, b);
        }
        assert(!st1.err);
        lemma_scan_segments(s1);
        lemma_scan_wf(s1);
        lemma_scan_wf(s);
        let r = spec_step(st1.m, b);
        lemma_step_shape(st1.m, b);
        // old spans keep their bytes in the longer input
        assert forall|j: int| 0 <= j < st1.emits.len() implies s.subrange(
            #[trigger] st1.emits[j].0,
            st1.emits[j].1,
        ) == s1.subrange(st1.emits[j].0, st1.emits[j].1) by {
            assert(s.subrange(st1.emits[j].0, st1.emits[j].1) =~= s1.subrange(
                st1.emits[j].0,
                st1.emits[j].1,
            ));
        }
        if !m_in_value(st1.m) {
            // a clean machine is the initial machine
            assert(st1.m.stack =~= Seq::<Frame>::empty());
            assert(st1.m == machine_init());
            if r.started {
                let seg = s.subrange(st2.vstart, s.len() as int);
                assert(seg =~= seq![b]);
                assert(scan(seg) == scan_step(scan_init(), 0, b)) by {
                    assert(seg.drop_last() =~= Seq::<u8>::empty());
                    lemma_scan_from_snoc(scan_init(), 0, Seq::<u8>::empty(), b);
                    assert(Seq::<u8>::empty().push(b) =~= seg);
                }
            }
        } else {
            // the value in progress rescans to the same machine
            let seg1 = s1.subrange(st1.vstart, s1.len() as int);
            let segscan = ScanS { m: st1.m, err: false, vstart: 0, emits: Seq::<(int, int)>::empty() };
            assert(scan(seg1) == segscan);
            match r.emit {
                Emit::NoEmit => {
                    if m_in_value(st2.m) {
                        let seg2 = s.subrange(st2.vstart, s.len() as int);
                        assert(st2.vstart == st1.vstart);
                        assert(seg2 =~= seg1.push(b));
                        lemma_scan_from_snoc(scan_init(), 0, seg1, b);
                        assert(scan(seg2) == scan_step(segscan, seg1.len() as int, b));
                    }
                },
                Emit::EndAt => {
                    let seg2 = s.subrange(st1.vstart, i + 1);
                    assert(seg2 =~= seg1.push(b));
                    lemma_scan_from_snoc(scan_init(), 0, seg1, b);
                    assert(scan(seg2) == scan_step(segscan, seg1.len() as int, b));
                    assert(scan(seg2).emits =~= seq![(0int, seg2.len() as int)]);
                    assert(!m_in_value(scan(seg2).m));
                    assert(scan(seg2).m.stack.len() == 0);
                    assert(scan(seg2).m.lex is Idle);
                    assert(!has_pending_number(scan(seg2)));
                    assert(final_emits(seg2) == scan(seg2).emits);
                    assert(valid_payload(seg2));
                    assert(st2.emits == st1.emits.push((st1.vstart, i + 1)));
                },
                Emit::EndBefore => {
                    // only a finished number token ends before its delimiter
                    assert(st1.m.lex is Num);
                    let phase = st1.m.lex->Num_phase;
                    assert(num_step(phase, b) == NumRes::Ended);
                    assert(num_terminal(phase));
                    assert(st1.m.stack.len() == 0);
                    let seg2 = s.subrange(st1.vstart, i as int);
                    assert(seg2 =~= seg1);
                    assert(scan(seg2).m == st1.m);
                    assert(has_pending_number(scan(seg2)));
                    assert(finish_pending_ok(scan(seg2)));
                    assert(final_emits(seg2) =~= seq![(0int, seg2.len() as int)]);
                    assert(valid_payload(seg2));
                    if r.started {
                        let seg3 = s.subrange(st2.vstart, s.len() as int);
                        assert(seg3 =~= seq![b]);
                        assert(st1.m.stack =~= Seq::<Frame>::empty());
                        assert(end_value(st1.m.stack) == st1.m.stack);
                        assert(scan(seg3) == scan_step(scan_init(), 0, b)) by {
                            assert(seg3.drop_last() =~= Seq::<u8>::empty());
                            lemma_scan_from_snoc(scan_init(), 0, Seq::<u8>::empty(), b);
                            assert(Seq::<u8>::empty().push(b) =~= seg3);
                        }
                        assert(spec_step(machine_init(), b) == dispatch(Seq::<Frame>::empty(), b));
                        assert(dispatch(end_value(st1.m.stack), b) == dispatch(
                            Seq::<Frame>::empty(),
                            b,
                        ));
                    }
                },
            }
        }
    }
}

/// The spans of `e`, each moved `d` bytes to the right.
pub open spec fn shift_spans(e: Seq<(int, int)>, d: int) -> Seq<(int, int)> {
    e.map(|_i: int, p: (int, int)| (p.0 + d, p.1 + d))
}

/// Continuing a scan from a clean machine at offset `d` behaves exactly
/// like a fresh scan of the remaining bytes, with every span shifted by
/// `d` and appended to the spans already emitted.
proof fn lemma_scan_rebase(st: ScanS, d: int, s: Seq<u8>)
    requires
        !st.err,
        !m_in_value(st.m),
    ensures
        ({
            let r1 = scan_from(st, d, s);
            let r0 = scan(s);
            &&& r1.err == r0.err
            &&& (!r0.err ==> {
                &&& r1.m == r0.m
                &&& r1.emits == st.emits + shift_spans(r0.emits, d)
                &&& (m_in_value(r0.m) ==> r1.vstart == r0.vstart + d)
            })
        }),
    decreases s.len(),
{
    if s.len() == 0 {
        assert(st.m.stack =~= Seq::<Frame>::empty());
        assert(st.m == machine_init());
        assert(scan(s) == scan_init());
        assert(shift_spans(scan_init().emits, d) =~= Seq::<(int, int)>::empty());
        assert(st.emits + shift_spans(scan_init().emits, d) =~= st.emits);
    } else {
        let s1 = s.drop_last();
        let b = s.last();
        let i = s.len() - 1;
        lemma_scan_rebase(st, d, s1);
        let p1 = scan_from(st, d, s1);
        let p0 = scan(s1);
        assert(scan_from(st, d, s) == scan_step(p1, d + i, b));
        assert(scan(s) == scan_step(p0, i, b)) by {
            assert(s1.push(b) =~= s);
            lemma_scan_from_snoc(scan_init(), 0, s1, b);
        }
        if p0.err {
        } else {
            let r = spec_step(p0.m, b);
            lemma_step_shape(p0.m, b);
            if r.err {
            } else {
                match r.emit {
                    Emit::NoEmit => {},
                    Emit::EndAt => {
                        assert(m_in_value(p0.m));
                        assert(scan_step(p1, d + i, b).emits == p1.emits.push(
                            (p1.vstart, d + i + 1),
                        ));
                        assert(p1.emits.push((p0.vstart + d, i + 1 + d)) =~= st.emits
                            + shift_spans(p0.emits.push((p0.vstart, i + 1)), d));
                    },
                    Emit::EndBefore => {
                        assert(m_in_value(p0.m));
                        assert(p1.emits.push((p0.vstart + d, i + d)) =~= st.emits + shift_spans(
                            p0.emits.push((p0.vstart, i)),
                            d,
                        ));
                    },
                }
            }
        }
    }
}

/// Splitting distributes over concatenation at a clean boundary: when `a`
/// ends between values, the values of `a + b` are the values of `a`
/// followed by the values of `b`.  With `lemma_chunking_invariance` this
/// pins down the splitter on any concatenation of self-delimited values,
/// however the bytes are chunked.
pub proof fn lemma_split_append_clean(a: Seq<u8>, b: Seq<u8>)
    requires
        !scan(a).err,
        !in_value(scan(a)),
    ensures
        scan(a + b).err == scan(b).err,
        !scan(b).err ==> split_values(a + b) == split_values(a) + split_values(b),
{
    let sa = scan(a);
    let sb = scan(b);
    let sc = scan(a + b);
    lemma_scan_from_append(scan_init(), 0, a, b);
    lemma_scan_rebase(sa, a.len() as int, b);
    assert(sc == scan_from(sa, a.len() as int, b));
    if !sb.err {
        lemma_scan_wf(a);
        lemma_scan_wf(b);
        let d = a.len() as int;
        // the machines agree, so the pending-number test agrees
        assert(has_pending_number(sc) == has_pending_number(sb));
        assert(!has_pending_number(sa));
        assert(final_emits(a) == sa.emits);
        let fe = final_emits(a + b);
        assert(fe == sa.emits + shift_spans(final_emits(b), d)) by {
            if has_pending_number(sb) {
                assert(m_in_value(sb.m));
                assert(fe == sc.emits.push((sc.vstart, (a + b).len() as int)));
                assert(sc.emits.push((sb.vstart + d, b.len() + d)) =~= sa.emits + shift_spans(
                    sb.emits.push((sb.vstart, b.len() as int)),
                    d,
                ));
            } else {
                assert(fe =~= sa.emits + shift_spans(sb.emits, d));
            }
        }
        assert(split_values(a + b) =~= split_values(a) + split_values(b)) by {
            assert(fe.len() == sa.emits.len() + final_emits(b).len());
            assert forall|j: int| 0 <= j < fe.len() implies split_values(a + b)[j]
                == (split_values(a) + split_values(b))[j] by {
                if j < sa.emits.len() {
                    assert(fe[j] == sa.emits[j]);
                    assert((a + b).subrange(fe[j].0, fe[j].1) =~= a.subrange(
                        sa.emits[j].0,
                        sa.emits[j].1,
                    ));
                } else {
                    let k = j - sa.emits.len();
                    lemma_values_are_payloads(b);
                    assert(fe[j] == (final_emits(b)[k].0 + d, final_emits(b)[k].1 + d));
                    assert(0 <= final_emits(b)[k].0 <= final_emits(b)[k].1 <= b.len()) by {
                        if k < sb.emits.len() {
                        } else {
                            assert(final_emits(b)[k] == (sb.vstart, b.len() as int));
                        }
                    }
                    assert((a + b).subrange(fe[j].0, fe[j].1) =~= b.subrange(
                        final_emits(b)[k].0,
                        final_emits(b)[k].1,
                    ));
                }
            }
        }
    }
}

/// Every value the scan delimits — including a trailing complete number —
/// is itself exactly one well-formed JSON value.
pub proof fn lemma_values_are_payloads(s: Seq<u8>)
    requires
        !scan(s).err,
    ensures
        forall|j: int| 0 <= j < final_emits(s).len() ==> valid_payload(
            #[trigger] split_values(s)[j],
        ),
{
    lemma_scan_segments(s);
    lemma_scan_wf(s);
    let st = scan(s);
    assert forall|j: int| 0 <= j < final_emits(s).len() implies valid_payload(
        #[trigger] split_values(s)[j],
    ) by {
        if j < st.emits.len() {
            assert(final_emits(s)[j] == st.emits[j]);
            assert(split_values(s)[j] == s.subrange(st.emits[j].0, st.emits[j].1));
        } else {
            // the trailing pending number
            assert(has_pending_number(st));
            assert(in_value(st));
            let seg = s.subrange(st.vstart, s.len() as int);
            assert(final_emits(s)[j] == (st.vstart, s.len() as int));
            assert(split_values(s)[j] == seg);
            assert(scan(seg).m == st.m);
            assert(has_pending_number(scan(seg)));
            assert(final_emits(seg) =~= seq![(0int, seg.len() as int)]);
            assert(valid_payload(seg));
        }
    }
}

/// Scanning more bytes never forgets already-emitted spans, and the error
/// flag is sticky.
pub proof fn lemma_scan_from_extends(st: ScanS, i0: int, s: Seq<u8>)
    ensures
        scan_from(st, i0, s).emits.len() >= st.emits.len(),
        forall|j: int| 0 <= j < st.emits.len() ==> scan_from(st, i0, s).emits[j] == st.emits[j],
        st.err ==> scan_from(st, i0, s) == st,
    decreases s.len(),
{
    if s.len() > 0 {
        lemma_scan_from_extends(st, i0, s.drop_last());
    }
}

/// Bounds on the scan state: the pending-value start and every emitted span
/// lie within the bytes scanned so far.
pub proof fn lemma_scan_wf(s: Seq<u8>)
    ensures
        !scan(s).err ==> {
            &&& 0 <= scan(s).vstart <= s.len()
            &&& scan(s).emits.len() <= s.len()
            &&& forall|j: int| 0 <= j < scan(s).emits.len()
                ==> 0 <= #[trigger] scan(s).emits[j].0 && scan(s).emits[j].0 <= scan(s).emits[j].1 && scan(s).emits[j].1 <= s.len()
        },
    decreases s.len(),
{
    if s.len() == 0 {
    } else {
        let s1 = s.drop_last();
        lemma_scan_wf(s1);
        assert(scan(s) == scan_step(scan(s1), s.len() - 1, s.last())) by {
            assert(s1.push(s.last()) =~= s);
            lemma_scan_from_snoc(scan_init(), 0, s1, s.last());
        }
    }
}

} // verus!
