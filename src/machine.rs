//! The virtual machine that runs a flat program on a byte tape.

use vstd::prelude::*;

use crate::bytecode::SimOperation;

verus! {

/// Why a program stopped before its end.
#[derive(Copy, Clone, PartialEq, Eq, Debug, Structural)]
pub enum Fault {
    /// The cursor would leave the tape, or a cell outside it would be touched.
    TapeOutOfBounds,
    /// The instruction pointer is past the last instruction.
    NoInstruction,
}

/// What one step did, beyond changing the state.
#[derive(Copy, Clone, PartialEq, Eq, Debug, Structural)]
pub enum Effect {
    /// An instruction ran.
    Continue,
    /// `PutChar` ran and printed this byte.
    Output(u8),
    /// `GetChar` ran and stored the byte it was given.
    Read,
    /// `GetChar` is next and no byte was given: nothing changed.
    NeedInput,
    /// The program is over: nothing changed.
    Halt,
    /// The instruction cannot run: nothing changed.
    Fault(Fault),
}

/// The state of a running program: the tape, the cursor on it, the
/// instruction pointer and the return-address stack.
pub struct Machine {
    pub tape: Vec<u8>,
    pub cursor: usize,
    pub ip: usize,
    pub stack: Vec<usize>,
}

/// The mathematical value of a [`Machine`].
pub struct State {
    pub tape: Seq<u8>,
    pub cursor: usize,
    pub ip: usize,
    pub stack: Seq<usize>,
}

impl View for Machine {
    type V = State;

    open spec fn view(&self) -> State {
        State { tape: self.tape@, cursor: self.cursor, ip: self.ip, stack: self.stack@ }
    }
}

/// `a + b` modulo 256.
pub open spec fn wrap_add(a: u8, b: u8) -> u8 {
    ((a + b) % 256) as u8
}

/// `a - b` modulo 256.
pub open spec fn wrap_sub(a: u8, b: u8) -> u8 {
    ((a - b + 256) % 256) as u8
}

/// The first cell at or right of `i` that holds 0.
pub open spec fn zero_from(tape: Seq<u8>, i: int) -> Option<int>
    decreases tape.len() - i,
{
    if i < 0 || i >= tape.len() {
        None
    } else if tape[i] == 0 {
        Some(i)
    } else {
        zero_from(tape, i + 1)
    }
}

/// The first cell at or left of `i` that holds 0.
pub open spec fn zero_until(tape: Seq<u8>, i: int) -> Option<int>
    decreases i + 1,
{
    if i < 0 || i >= tape.len() {
        None
    } else if tape[i] == 0 {
        Some(i)
    } else {
        zero_until(tape, i - 1)
    }
}

/// `s` with the instruction pointer on the next instruction.
pub open spec fn advance(s: State) -> State {
    State { ip: (s.ip + 1) as usize, ..s }
}

/// `s` with cell `i` set to `v` and the instruction pointer advanced.
pub open spec fn store(s: State, i: int, v: u8) -> State {
    advance(State { tape: s.tape.update(i, v), ..s })
}

/// One step of `code` from `s`, with `input` the byte to give `GetChar`, if
/// any: the next state and what happened.
#[verifier::opaque]
pub open spec fn next(code: Seq<SimOperation>, s: State, input: Option<u8>) -> (State, Effect) {
    let fault = |f: Fault| (s, Effect::Fault(f));
    if s.ip >= code.len() {
        fault(Fault::NoInstruction)
    } else if s.cursor >= s.tape.len() {
        fault(Fault::TapeOutOfBounds)
    } else {
        let c = s.cursor as int;
        let v = s.tape[c];
        match code[s.ip as int] {
            SimOperation::Noop => (advance(s), Effect::Continue),
            SimOperation::Inc(n) => (store(s, c, wrap_add(v, n)), Effect::Continue),
            SimOperation::Dec(n) => (store(s, c, wrap_sub(v, n)), Effect::Continue),
            SimOperation::IncTapePos(n) => if c + n < s.tape.len() {
                (advance(State { cursor: (c + n) as usize, ..s }), Effect::Continue)
            } else {
                fault(Fault::TapeOutOfBounds)
            },
            SimOperation::DecTapePos(n) => if n <= c {
                (advance(State { cursor: (c - n) as usize, ..s }), Effect::Continue)
            } else {
                fault(Fault::TapeOutOfBounds)
            },
            SimOperation::IncTapePosUntilEmpty => match zero_from(s.tape, c) {
                Some(j) => (advance(State { cursor: j as usize, ..s }), Effect::Continue),
                None => fault(Fault::TapeOutOfBounds),
            },
            SimOperation::DecTapePosUntilEmpty => match zero_until(s.tape, c) {
                Some(j) => (advance(State { cursor: j as usize, ..s }), Effect::Continue),
                None => fault(Fault::TapeOutOfBounds),
            },
            SimOperation::PutChar => (advance(s), Effect::Output(v)),
            SimOperation::GetChar => match input {
                Some(b) => (store(s, c, b), Effect::Read),
                None => (s, Effect::NeedInput),
            },
            SimOperation::Clear => (store(s, c, 0), Effect::Continue),
            SimOperation::AddToTheRightAndClear(k) => if c + k < s.tape.len() {
                let t = s.tape.update(c + k, wrap_add(s.tape[c + k], v));
                (store(State { tape: t, ..s }, c, 0), Effect::Continue)
            } else {
                fault(Fault::TapeOutOfBounds)
            },
            SimOperation::DecFromTheRightAndClear(k) => if c + k < s.tape.len() {
                let t = s.tape.update(c + k, wrap_sub(s.tape[c + k], v));
                (store(State { tape: t, ..s }, c, 0), Effect::Continue)
            } else {
                fault(Fault::TapeOutOfBounds)
            },
            SimOperation::AddToTheLeftAndClear(k) => if v == 0 {
                (advance(s), Effect::Continue)
            } else if k <= c {
                let t = s.tape.update(c - k, wrap_add(s.tape[c - k], v));
                (store(State { tape: t, ..s }, c, 0), Effect::Continue)
            } else {
                fault(Fault::TapeOutOfBounds)
            },
            SimOperation::DecFromTheLeftAndClear(k) => if v == 0 {
                (advance(s), Effect::Continue)
            } else if k <= c {
                let t = s.tape.update(c - k, wrap_sub(s.tape[c - k], v));
                (store(State { tape: t, ..s }, c, 0), Effect::Continue)
            } else {
                fault(Fault::TapeOutOfBounds)
            },
            SimOperation::JnzSaveIP { target_ip } => if v != 0 {
                (
                    State { ip: target_ip as usize, stack: s.stack.push((s.ip + 1) as usize), ..s },
                    Effect::Continue,
                )
            } else {
                (advance(s), Effect::Continue)
            },
            SimOperation::JnzRestoreIP { target_ip } => if v != 0 {
                (State { ip: target_ip as usize, ..s }, Effect::Continue)
            } else if s.stack.len() > 0 {
                (State { ip: s.stack.last(), stack: s.stack.drop_last(), ..s }, Effect::Continue)
            } else {
                (s, Effect::Halt)
            },
            SimOperation::EndProgram => (s, Effect::Halt),
        }
    }
}

fn add_wrapping(a: u8, b: u8) -> (r: u8)
    ensures
        r == wrap_add(a, b),
{
    let r = a.wrapping_add(b);
    assert(r == wrap_add(a, b)) by (bit_vector)
        requires
            r == ((a + b) % 256) as u8,
    ;
    r
}

impl Machine {
    /// A machine at the start of a program, on a tape of `tape_len` zero cells.
    pub fn new(tape_len: usize) -> (r: Machine)
        ensures
            r@.tape == Seq::new(tape_len as nat, |i: int| 0u8),
            r@.cursor == 0,
            r@.ip == 0,
            r@.stack.len() == 0,
    {
        let mut tape: Vec<u8> = Vec::new();
        let mut i: usize = 0;
        while i < tape_len
            invariant
                i <= tape_len,
                tape@ =~= Seq::new(i as nat, |j: int| 0u8),
            decreases tape_len - i,
        {
            tape.push(0);
            i += 1;
        }
        Machine { tape, cursor: 0, ip: 0, stack: Vec::new() }
    }

    /// Runs the instruction at the instruction pointer. `input` is the byte
    /// for `GetChar`; without one, `GetChar` asks for it and waits.
    pub fn step(&mut self, code: &Vec<SimOperation>, input: Option<u8>) -> (r: Effect)
        ensures
            (final(self)@, r) == next(code@, old(self)@, input),
            r == Effect::Read ==> input is Some,
            r is Halt || r is NeedInput || r is Fault ==> final(self)@ == old(self)@,
    {
        reveal(next);
        if self.ip >= code.len() {
            return Effect::Fault(Fault::NoInstruction);
        }
        if self.cursor >= self.tape.len() {
            return Effect::Fault(Fault::TapeOutOfBounds);
        }
        let c = self.cursor;
        let v = self.tape[c];
        let len = self.tape.len();
        match code[self.ip] {
            SimOperation::Noop => {},
            SimOperation::Inc(n) => {
                self.tape.set(c, add_wrapping(v, n));
            },
            SimOperation::Dec(n) => {
                self.tape.set(c, sub_wrapping(v, n));
            },
            SimOperation::IncTapePos(n) => {
                if (n as usize) < len - c {
                    self.cursor = c + n as usize;
                } else {
                    return Effect::Fault(Fault::TapeOutOfBounds);
                }
            },
            SimOperation::DecTapePos(n) => {
                if (n as usize) <= c {
                    self.cursor = c - n as usize;
                } else {
                    return Effect::Fault(Fault::TapeOutOfBounds);
                }
            },
            SimOperation::IncTapePosUntilEmpty => {
                let mut j: usize = c;
                while j < len && self.tape[j] != 0
                    invariant
                        c <= j <= len,
                        len == self.tape@.len(),
                        self@ == old(self)@,
                        zero_from(self.tape@, j as int) == zero_from(self.tape@, c as int),
                    decreases len - j,
                {
                    j += 1;
                }
                if j < len {
                    self.cursor = j;
                } else {
                    return Effect::Fault(Fault::TapeOutOfBounds);
                }
            },
            SimOperation::DecTapePosUntilEmpty => {
                let mut j: usize = c;
                while self.tape[j] != 0
                    invariant
                        j <= c < len,
                        c == self.cursor,
                        self.ip < code.len(),
                        code@[self.ip as int] == SimOperation::DecTapePosUntilEmpty,
                        len == self.tape@.len(),
                        self@ == old(self)@,
                        zero_until(self.tape@, j as int) == zero_until(self.tape@, c as int),
                    decreases j,
                {
                    if j == 0 {
                        assert(zero_until(self.tape@, j as int) == zero_until(self.tape@, -1));
                        assert(zero_until(self.tape@, -1) is None);
                        reveal(next);
                        return Effect::Fault(Fault::TapeOutOfBounds);
                    }
                    j -= 1;
                }
                self.cursor = j;
            },
            SimOperation::PutChar => {
                self.ip = self.ip + 1;
                return Effect::Output(v);
            },
            SimOperation::GetChar => {
                match input {
                    Some(b) => {
                        self.tape.set(c, b);
                        self.ip = self.ip + 1;
                        return Effect::Read;
                    },
                    None => {
                        return Effect::NeedInput;
                    },
                }
            },
            SimOperation::Clear => {
                self.tape.set(c, 0);
            },
            SimOperation::AddToTheRightAndClear(k) => {
                if (k as usize) < len - c {
                    let t = c + k as usize;
                    let w = self.tape[t];
                    self.tape.set(t, add_wrapping(w, v));
                    self.tape.set(c, 0);
                } else {
                    return Effect::Fault(Fault::TapeOutOfBounds);
                }
            },
            SimOperation::DecFromTheRightAndClear(k) => {
                if (k as usize) < len - c {
                    let t = c + k as usize;
                    let w = self.tape[t];
                    self.tape.set(t, sub_wrapping(w, v));
                    self.tape.set(c, 0);
                } else {
                    return Effect::Fault(Fault::TapeOutOfBounds);
                }
            },
            SimOperation::AddToTheLeftAndClear(k) => {
                if v != 0 {
                    if (k as usize) <= c {
                        let t = c - k as usize;
                        let w = self.tape[t];
                        self.tape.set(t, add_wrapping(w, v));
                        self.tape.set(c, 0);
                    } else {
                        return Effect::Fault(Fault::TapeOutOfBounds);
                    }
                }
            },
            SimOperation::DecFromTheLeftAndClear(k) => {
                if v != 0 {
                    if (k as usize) <= c {
                        let t = c - k as usize;
                        let w = self.tape[t];
                        self.tape.set(t, sub_wrapping(w, v));
                        self.tape.set(c, 0);
                    } else {
                        return Effect::Fault(Fault::TapeOutOfBounds);
                    }
                }
            },
            SimOperation::JnzSaveIP { target_ip } => {
                if v != 0 {
                    self.stack.push(self.ip + 1);
                    self.ip = target_ip as usize;
                    return Effect::Continue;
                }
            },
            SimOperation::JnzRestoreIP { target_ip } => {
                if v != 0 {
                    self.ip = target_ip as usize;
                    return Effect::Continue;
                }
                match self.stack.pop() {
                    Some(r) => {
                        self.ip = r;
                        return Effect::Continue;
                    },
                    None => {
                        return Effect::Halt;
                    },
                }
            },
            SimOperation::EndProgram => {
                return Effect::Halt;
            },
        }
        self.ip = self.ip + 1;
        Effect::Continue
    }
}

fn sub_wrapping(a: u8, b: u8) -> (r: u8)
    ensures
        r == wrap_sub(a, b),
{
    let r = a.wrapping_sub(b);
    assert(r == wrap_sub(a, b)) by (bit_vector)
        requires
            r == ((a - b + 256) % 256) as u8,
    ;
    r
}

/// Why a run ended.
#[derive(Copy, Clone, PartialEq, Eq, Debug, Structural)]
pub enum Stop {
    /// The program reached its end.
    Halted,
    /// An instruction could not run.
    Faulted(Fault),
    /// `GetChar` ran out of input.
    InputExhausted,
    /// The step budget ran out.
    OutOfSteps,
}

/// A machine at the start of a program, on `tape_len` zero cells.
pub open spec fn start(tape_len: nat) -> State {
    State { tape: Seq::new(tape_len, |i: int| 0u8), cursor: 0, ip: 0, stack: Seq::empty() }
}

/// Runs `code` from `s` for at most `fuel` steps, feeding `GetChar` from
/// `input`: the last state, the bytes printed, and why it ended.
pub open spec fn run_from(code: Seq<SimOperation>, s: State, input: Seq<u8>, fuel: nat) -> (
    State,
    Seq<u8>,
    Stop,
)
    decreases fuel,
{
    if fuel == 0 {
        (s, Seq::empty(), Stop::OutOfSteps)
    } else {
        let given = if input.len() > 0 {
            Some(input[0])
        } else {
            None
        };
        let (s2, e) = next(code, s, given);
        match e {
            Effect::Continue => run_from(code, s2, input, (fuel - 1) as nat),
            Effect::Output(b) => {
                let (s3, out, stop) = run_from(code, s2, input, (fuel - 1) as nat);
                (s3, seq![b] + out, stop)
            },
            Effect::Read => run_from(code, s2, input.drop_first(), (fuel - 1) as nat),
            Effect::NeedInput => (s, Seq::empty(), Stop::InputExhausted),
            Effect::Halt => (s, Seq::empty(), Stop::Halted),
            Effect::Fault(f) => (s, Seq::empty(), Stop::Faulted(f)),
        }
    }
}

/// How a run ended: the machine, the bytes printed, and why it stopped.
pub struct Run {
    pub machine: Machine,
    pub output: Vec<u8>,
    pub stop: Stop,
}

/// Runs `code` on a fresh tape of `tape_len` cells for at most `max_steps`
/// steps, feeding `GetChar` from `input`.
pub fn run(code: &Vec<SimOperation>, input: &Vec<u8>, tape_len: usize, max_steps: usize) -> (r: Run)
    ensures
        (r.machine@, r.output@, r.stop) == run_from(code@, start(tape_len as nat), input@, max_steps as nat),
{
    let mut m = Machine::new(tape_len);
    assert(m@.tape =~= start(tape_len as nat).tape);
    assert(m@.stack =~= start(tape_len as nat).stack);
    assert(m@ == start(tape_len as nat));
    let ghost whole = run_from(code@, m@, input@, max_steps as nat);
    let mut output: Vec<u8> = Vec::new();
    let mut pos: usize = 0;
    let mut fuel: usize = max_steps;
    assert(input@.skip(0) =~= input@);
    loop
        invariant
            pos <= input.len(),
            whole == run_from(code@, start(tape_len as nat), input@, max_steps as nat),
            ({
                let (a, o, st) = run_from(code@, m@, input@.skip(pos as int), fuel as nat);
                (a, output@ + o, st)
            }) == whole,
        decreases fuel,
    {
        let ghost rest = input@.skip(pos as int);
        if fuel == 0 {
            assert(output@ + Seq::<u8>::empty() =~= output@);
            return Run { machine: m, output, stop: Stop::OutOfSteps };
        }
        let given = if pos < input.len() { Some(input[pos]) } else { None };
        let ghost before = m@;
        let e = m.step(code, given);
        assert(given == if rest.len() > 0 { Some(rest[0]) } else { None::<u8> });
        fuel = fuel - 1;
        match e {
            Effect::Continue => {},
            Effect::Output(b) => {
                let ghost tail = run_from(code@, m@, rest, fuel as nat).1;
                assert(output@.push(b) + tail =~= output@ + (seq![b] + tail));
                output.push(b);
            },
            Effect::Read => {
                assert(rest.drop_first() =~= input@.skip(pos + 1));
                pos = pos + 1;
            },
            Effect::NeedInput => {
                assert(output@ + Seq::<u8>::empty() =~= output@);
                return Run { machine: m, output, stop: Stop::InputExhausted };
            },
            Effect::Halt => {
                assert(output@ + Seq::<u8>::empty() =~= output@);
                return Run { machine: m, output, stop: Stop::Halted };
            },
            Effect::Fault(f) => {
                assert(output@ + Seq::<u8>::empty() =~= output@);
                return Run { machine: m, output, stop: Stop::Faulted(f) };
            },
        }
    }
}

proof fn lemma_wrap_add_assoc(v: u8, a: u8, b: u8)
    ensures
        wrap_add(wrap_add(v, a), b) == wrap_add(v, ((a + b) % 256) as u8),
        wrap_sub(wrap_sub(v, a), b) == wrap_sub(v, ((a + b) % 256) as u8),
{
    assert(wrap_add(wrap_add(v, a), b) == wrap_add(v, ((a + b) % 256) as u8)) by (nonlinear_arith);
    assert(wrap_sub(wrap_sub(v, a), b) == wrap_sub(v, ((a + b) % 256) as u8)) by (nonlinear_arith);
}

/// The one instruction that does what `x` then `y` do, where the series
/// pass merges such a pair.
pub open spec fn merge_of(x: SimOperation, y: SimOperation) -> Option<SimOperation> {
    match (x, y) {
        (SimOperation::Inc(a), SimOperation::Inc(b)) => Some(
            SimOperation::Inc(((a + b) % 256) as u8),
        ),
        (SimOperation::Dec(a), SimOperation::Dec(b)) => Some(
            SimOperation::Dec(((a + b) % 256) as u8),
        ),
        (SimOperation::IncTapePos(a), SimOperation::IncTapePos(b)) if a + b <= u32::MAX => Some(
            SimOperation::IncTapePos((a + b) as u32),
        ),
        (SimOperation::DecTapePos(a), SimOperation::DecTapePos(b)) if a + b <= u32::MAX => Some(
            SimOperation::DecTapePos((a + b) as u32),
        ),
        _ => None,
    }
}

proof fn lemma_next_cell(code: Seq<SimOperation>, s: State)
    requires
        s.ip < code.len(),
        s.cursor < s.tape.len(),
    ensures
        code[s.ip as int] matches SimOperation::Inc(a) ==> next(code, s, None) == (
            store(s, s.cursor as int, wrap_add(s.tape[s.cursor as int], a)),
            Effect::Continue,
        ),
        code[s.ip as int] matches SimOperation::Dec(a) ==> next(code, s, None) == (
            store(s, s.cursor as int, wrap_sub(s.tape[s.cursor as int], a)),
            Effect::Continue,
        ),
{
    reveal(next);
}

proof fn lemma_next_move(code: Seq<SimOperation>, s: State)
    requires
        s.ip < code.len(),
        s.cursor < s.tape.len(),
    ensures
        code[s.ip as int] matches SimOperation::IncTapePos(n) ==> next(code, s, None) == if s.cursor
            + n < s.tape.len() {
            (advance(State { cursor: (s.cursor + n) as usize, ..s }), Effect::Continue)
        } else {
            (s, Effect::Fault(Fault::TapeOutOfBounds))
        },
        code[s.ip as int] matches SimOperation::DecTapePos(n) ==> next(code, s, None) == if n
            <= s.cursor {
            (advance(State { cursor: (s.cursor - n) as usize, ..s }), Effect::Continue)
        } else {
            (s, Effect::Fault(Fault::TapeOutOfBounds))
        },
{
    reveal(next);
}

proof fn lemma_next_off_tape(code: Seq<SimOperation>, s: State)
    requires
        s.cursor >= s.tape.len(),
    ensures
        next(code, s, None).1 is Fault,
{
    reveal(next);
}

proof fn lemma_merged_cells(code: Seq<SimOperation>, merged: Seq<SimOperation>, s: State)
    requires
        code.len() <= usize::MAX,
        s.tape.len() <= usize::MAX,
        s.ip + 1 < code.len(),
        s.ip < merged.len(),
        s.cursor < s.tape.len(),
        code[s.ip as int] is Inc || code[s.ip as int] is Dec,
        merge_of(code[s.ip as int], code[s.ip + 1]) == Some(merged[s.ip as int]),
    ensures
        ({
            let (s1, e1) = next(code, s, None);
            let (s2, e2) = next(code, s1, None);
            let (m, em) = next(merged, s, None);
            e1 is Continue && e2 is Continue && em is Continue && s2.tape == m.tape && s2.cursor
                == m.cursor && s2.stack == m.stack
        }),
{
    let c = s.cursor as int;
    let v = s.tape[c];
    lemma_next_cell(code, s);
    lemma_next_cell(merged, s);
    let s1 = next(code, s, None).0;
    assert(s1.ip == s.ip + 1);
    assert(s1.tape.len() == s.tape.len());
    lemma_next_cell(code, s1);
    if let (SimOperation::Inc(a), SimOperation::Inc(b)) = (code[s.ip as int], code[s.ip + 1]) {
        lemma_wrap_add_assoc(v, a, b);
        assert(s.tape.update(c, wrap_add(v, a)).update(c, wrap_add(wrap_add(v, a), b))
            =~= s.tape.update(c, wrap_add(v, ((a + b) % 256) as u8)));
    }
    if let (SimOperation::Dec(a), SimOperation::Dec(b)) = (code[s.ip as int], code[s.ip + 1]) {
        lemma_wrap_add_assoc(v, a, b);
        assert(s.tape.update(c, wrap_sub(v, a)).update(c, wrap_sub(wrap_sub(v, a), b))
            =~= s.tape.update(c, wrap_sub(v, ((a + b) % 256) as u8)));
    }
}

proof fn lemma_merged_moves(code: Seq<SimOperation>, merged: Seq<SimOperation>, s: State)
    requires
        code.len() <= usize::MAX,
        s.tape.len() <= usize::MAX,
        s.ip + 1 < code.len(),
        s.ip < merged.len(),
        s.cursor < s.tape.len(),
        code[s.ip as int] is IncTapePos || code[s.ip as int] is DecTapePos,
        merge_of(code[s.ip as int], code[s.ip + 1]) == Some(merged[s.ip as int]),
    ensures
        ({
            let (s1, e1) = next(code, s, None);
            let (s2, e2) = next(code, s1, None);
            let (m, em) = next(merged, s, None);
            &&& em is Continue ==> e1 is Continue && e2 is Continue && s2.tape == m.tape
                && s2.cursor == m.cursor && s2.stack == m.stack
            &&& em is Fault ==> e1 is Fault || e2 is Fault
        }),
{
    lemma_next_move(code, s);
    lemma_next_move(merged, s);
    let s1 = next(code, s, None).0;
    if next(code, s, None).1 is Continue {
        assert(s1.ip == s.ip + 1);
        lemma_next_move(code, s1);
    }
}

/// Merging two like neighbours into one instruction keeps what they do: where
/// `code` has `x` then `y` at the instruction pointer and `merged` has their
/// merge there, two steps of `code` leave the same tape, cursor and stack as
/// one step of `merged`, and where the merged step faults, so does one of the
/// two.
pub proof fn lemma_merged_steps_agree(code: Seq<SimOperation>, merged: Seq<SimOperation>, s: State)
    requires
        code.len() <= usize::MAX,
        s.tape.len() <= usize::MAX,
        s.ip + 1 < code.len(),
        s.ip < merged.len(),
        merge_of(code[s.ip as int], code[s.ip + 1]) == Some(merged[s.ip as int]),
    ensures
        ({
            let (s1, e1) = next(code, s, None);
            let (s2, e2) = next(code, s1, None);
            let (m, em) = next(merged, s, None);
            &&& em is Continue ==> e1 is Continue && e2 is Continue && s2.tape == m.tape
                && s2.cursor == m.cursor && s2.stack == m.stack
            &&& em is Fault ==> e1 is Fault || e2 is Fault
        }),
{
    if s.cursor >= s.tape.len() {
        lemma_next_off_tape(code, s);
        lemma_next_off_tape(merged, s);
    } else if code[s.ip as int] is Inc || code[s.ip as int] is Dec {
        lemma_merged_cells(code, merged, s);
    } else {
        lemma_merged_moves(code, merged, s);
    }
}

} // verus!
