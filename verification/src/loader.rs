//! Whole-program entry points: compiling a source text to a program, and
//! driving the interpreter over a compiled or decoded program.
//!
//! The machine itself has no step limit — a looping program simply keeps
//! going — so the bounded [`run`] takes the number of steps it may spend,
//! and a host that wants to run without bound calls [`step`] in its own
//! loop.

use vstd::prelude::*;

verus! {

use crate::parser::{
    CompileError,
    Token,
    TokenType,
    compile_lines,
    resolve_words,
    split_ws,
    to_tokens,
};
use crate::bytecode::{
    DecodeError,
    encode_bytes,
    from_bytecode,
    lemma_encode_decode,
    prog_view,
    spec_decode,
    wf_program,
};
use crate::interpret::{
    AsmbiState,
    RuntimeError,
    StateView,
    execute,
    new_state,
    spec_eval,
    spec_execute,
};

/// Compiles source lines, line by line, against one growing register
/// table. Returns the table and the program, or the first line's fault.
pub fn compile_source(lines: &Vec<&str>) -> (r: Result<(Vec<String>, Vec<Vec<Token>>), CompileError>)
    requires
        lines@.len() < 0x7fff_ffff,
    ensures
        ({
            let c = compile_lines(lines.deep_view(), Seq::empty());
            match r {
                Ok((regs, prog)) => {
                    &&& c is Ok
                    &&& regs.deep_view() == c->Ok_0.0
                    &&& prog_view(prog@) == c->Ok_0.1
                },
                Err(e) => c == Err::<(Seq<Seq<char>>, Seq<Seq<Token>>), CompileError>(e),
            }
        }),
{
    let ghost lseq = lines.deep_view();
    let mut regs: Vec<String> = Vec::new();
    let mut prog: Vec<Vec<Token>> = Vec::new();
    let nlines = lines.len();
    let mut i: usize = 0;
    proof {
        assert(lseq.skip(0) =~= lseq);
        assert(regs.deep_view() =~= Seq::<Seq<char>>::empty());
        assert(prog_view(prog@) =~= Seq::<Seq<Token>>::empty());
    }
    while i < nlines
        invariant
            0 <= i <= nlines,
            nlines == lines@.len(),
            nlines < 0x7fff_ffff,
            lseq == lines.deep_view(),
            lseq.len() == nlines,
            forall|j: int| 0 <= j < nlines ==> (#[trigger] lines@[j])@ == lseq[j],
            regs@.len() == regs.deep_view().len(),
            regs@.len() <= i,
            compile_lines(lseq, Seq::empty()) == (match compile_lines(
                lseq.skip(i as int),
                regs.deep_view(),
            ) {
                Ok(t) => Ok::<(Seq<Seq<char>>, Seq<Seq<Token>>), CompileError>(
                    (t.0, prog_view(prog@) + t.1),
                ),
                Err(e) => Err::<(Seq<Seq<char>>, Seq<Seq<Token>>), CompileError>(e),
            }),
        decreases nlines - i,
    {
        let ghost regs_before = regs.deep_view();
        let ghost rest = lseq.skip(i as int);
        proof {
            assert(rest[0] == lseq[i as int]);
            assert(rest.drop_first() =~= lseq.skip(i + 1));
        }
        match to_tokens(lines[i], &mut regs) {
            Err(e) => {
                return Err(e);
            },
            Ok(opt) => {
                match opt {
                    None => {},
                    Some(tokens) => {
                        let ghost pv = prog_view(prog@);
                        prog.push(tokens);
                        proof {
                            assert(prog_view(prog@) =~= pv.push(prog@[prog@.len() - 1]@));
                            match compile_lines(lseq.skip(i + 1), regs.deep_view()) {
                                Ok(t) => {
                                    assert(pv + (seq![prog@[prog@.len() - 1]@] + t.1)
                                        =~= prog_view(prog@) + t.1);
                                },
                                Err(e) => {},
                            }
                        }
                    },
                }
            },
        }
        proof {
            let pr = resolve_words(split_ws(lseq[i as int]), regs_before);
            let ws = split_ws(lseq[i as int]);
            assert(pr.1 == regs_before || pr.1 == regs_before.push(ws[1]));
        }
        i += 1;
    }
    proof {
        assert(lseq.skip(nlines as int) =~= Seq::<Seq<char>>::empty());
        assert(prog_view(prog@) + Seq::<Seq<Token>>::empty() =~= prog_view(prog@));
    }
    Ok((regs, prog))
}


/// Deferred range checking: decoding never holds the body's register
/// indices against the header's register count. The image of any
/// well-formed program decodes, whatever count its header claims; a
/// register token that indexes outside the live store only faults, with
/// `RegisterOutOfRange`, when the instruction holding it is evaluated.
pub proof fn lemma_decode_defers_register_range(
    count: u32,
    prog: Seq<Seq<Token>>,
    s: StateView,
    t: Token,
)
    requires
        wf_program(prog),
        t.type_ == TokenType::REGISTER,
        !(0 <= t.val && (t.val as int) < s.regs.len()),
    ensures
        spec_decode(encode_bytes(count, prog)) == Ok::<(u32, Seq<Seq<Token>>), DecodeError>(
            (count, prog),
        ),
        spec_eval(s.regs, t) == Err::<i32, RuntimeError>(RuntimeError::RegisterOutOfRange),
{
    lemma_encode_decode(count, prog);
}

/// What one machine step yields to the host.
#[derive(Clone, Copy, Debug, PartialEq, Eq, Structural)]
pub enum StepOutcome {
    /// An instruction ran; the machine may take another step.
    Continue,
    /// The pointer lies past the last instruction: the program is done.
    Halted,
    /// The instruction at the pointer failed; the state is as it was when
    /// the failure struck, its pointer still naming the failing
    /// instruction.
    Failed(RuntimeError),
}

/// How the pointer moves after an instruction: one forward, saturating at
/// its maximum, which lies past the end of any supported program.
pub open spec fn advance_ip(ip: u32) -> u32 {
    if ip == u32::MAX {
        u32::MAX
    } else {
        (ip + 1) as u32
    }
}

/// What one step does to a state: fetch the instruction at the pointer
/// (none means the machine halts), execute it, and advance the pointer by
/// one unless the instruction failed.
pub open spec fn spec_step(prog: Seq<Seq<Token>>, s: StateView) -> Result<
    Option<StateView>,
    RuntimeError,
> {
    if s.ip as int >= prog.len() {
        Ok(None)
    } else {
        match spec_execute(s, prog[s.ip as int]) {
            Err(e) => Err(e),
            Ok(sv) => Ok(
                Some(StateView { regs: sv.regs, ip: advance_ip(sv.ip), output: sv.output }),
            ),
        }
    }
}

/// Takes one machine step.
pub fn step(state: &mut AsmbiState, program: &Vec<Vec<Token>>) -> (r: StepOutcome)
    ensures
        ({
            let st = spec_step(prog_view(program@), old(state)@);
            match r {
                StepOutcome::Continue => st matches Ok(Some(sv)) && final(state)@ == sv,
                StepOutcome::Halted => st == Ok::<Option<StateView>, RuntimeError>(None)
                    && final(state)@ == old(state)@,
                StepOutcome::Failed(e) => st == Err::<Option<StateView>, RuntimeError>(e)
                    && final(state)@ == old(state)@,
            }
        }),
{
    let ghost prog = prog_view(program@);
    if state.ip as usize >= program.len() {
        return StepOutcome::Halted;
    }
    let idx = state.ip as usize;
    proof {
        assert(prog[idx as int] == program@[idx as int]@);
    }
    match execute(state, &program[idx]) {
        Err(e) => StepOutcome::Failed(e),
        Ok(()) => {
            if state.ip != u32::MAX {
                state.ip = state.ip + 1;
            }
            StepOutcome::Continue
        },
    }
}

/// How a bounded run ended.
pub enum RunStatus {
    /// The step allowance ran out with the machine still going.
    Running,
    /// The machine halted on its own.
    Halted,
    /// The instruction at the given pointer failed.
    Failed(u32, RuntimeError),
}

/// The outcome of a bounded run: the state it reached, the number of
/// instructions it executed, and how it ended.
pub struct RunState {
    pub state: StateView,
    pub steps: nat,
    pub status: RunStatus,
}

/// What running the machine for at most `fuel` steps does: halting is
/// checked before the allowance, so a halted machine reports `Halted`
/// whatever the allowance.
pub open spec fn spec_run(prog: Seq<Seq<Token>>, s: StateView, fuel: nat) -> RunState
    decreases fuel,
{
    if s.ip as int >= prog.len() {
        RunState { state: s, steps: 0, status: RunStatus::Halted }
    } else if fuel == 0 {
        RunState { state: s, steps: 0, status: RunStatus::Running }
    } else {
        match spec_step(prog, s) {
            Err(e) => RunState { state: s, steps: 0, status: RunStatus::Failed(s.ip, e) },
            Ok(Some(sv)) => {
                let rec = spec_run(prog, sv, (fuel - 1) as nat);
                RunState { state: rec.state, steps: rec.steps + 1, status: rec.status }
            },
            Ok(None) => RunState { state: s, steps: 0, status: RunStatus::Halted },
        }
    }
}

/// How a bounded run reports its end to the host.
#[derive(Clone, Copy, Debug, PartialEq, Eq, Structural)]
pub enum RunOutcome {
    /// The program halted after executing this many instructions.
    Halted(u64),
    /// The instruction at this pointer failed with this error.
    Failed(u32, RuntimeError),
    /// The step allowance ran out first.
    OutOfFuel,
}

/// Runs a program on a fresh state with `reg_count` zeroed registers,
/// executing at most `fuel` instructions, and returns the final state with
/// the outcome: how many instructions ran before the machine halted, or
/// where and why it failed, or that the allowance ran out.
pub fn run(program: &Vec<Vec<Token>>, reg_count: usize, fuel: u64) -> (r: (
    AsmbiState,
    RunOutcome,
))
    ensures
        ({
            let init = StateView {
                regs: Seq::new(reg_count as nat, |i: int| 0i32),
                ip: 0,
                output: Seq::empty(),
            };
            let rr = spec_run(prog_view(program@), init, fuel as nat);
            &&& r.0@ == rr.state
            &&& match r.1 {
                RunOutcome::Halted(n) => rr.status is Halted && n == rr.steps,
                RunOutcome::Failed(at, e) => rr.status == RunStatus::Failed(at, e),
                RunOutcome::OutOfFuel => rr.status is Running && rr.steps == fuel,
            }
        }),
{
    let ghost prog = prog_view(program@);
    let ghost init = StateView {
        regs: Seq::new(reg_count as nat, |i: int| 0i32),
        ip: 0,
        output: Seq::empty(),
    };
    let mut state = new_state(reg_count);
    proof {
        assert(state@.regs =~= init.regs);
        assert(state@.output =~= init.output);
    }
    let mut used: u64 = 0;
    while used < fuel
        invariant
            0 <= used <= fuel,
            prog == prog_view(program@),
            init == (StateView {
                regs: Seq::new(reg_count as nat, |i: int| 0i32),
                ip: 0,
                output: Seq::empty(),
            }),
            ({
                let full = spec_run(prog, init, fuel as nat);
                let rec = spec_run(prog, state@, (fuel - used) as nat);
                full.state == rec.state && full.steps == used + rec.steps && full.status
                    == rec.status
            }),
        decreases fuel - used,
    {
        match step(&mut state, program) {
            StepOutcome::Halted => {
                return (state, RunOutcome::Halted(used));
            },
            StepOutcome::Failed(e) => {
                let at = state.ip;
                return (state, RunOutcome::Failed(at, e));
            },
            StepOutcome::Continue => {},
        }
        used += 1;
    }
    if state.ip as usize >= program.len() {
        return (state, RunOutcome::Halted(used));
    }
    (state, RunOutcome::OutOfFuel)
}

/// Decodes a bytecode image and runs it with at most `fuel` steps, on a
/// store sized to the register count the header claims.
pub fn run_bytecode(bytecode: &Vec<u8>, fuel: u64) -> (r: Result<
    (AsmbiState, RunOutcome),
    DecodeError,
>)
    ensures
        ({
            let d = spec_decode(bytecode@);
            match r {
                Err(e) => d == Err::<(u32, Seq<Seq<Token>>), DecodeError>(e),
                Ok((st, oc)) => {
                    &&& d is Ok
                    &&& ({
                        let (count, prog) = d->Ok_0;
                        let init = StateView {
                            regs: Seq::new(count as nat, |i: int| 0i32),
                            ip: 0,
                            output: Seq::empty(),
                        };
                        let rr = spec_run(prog, init, fuel as nat);
                        &&& st@ == rr.state
                        &&& match oc {
                            RunOutcome::Halted(n) => rr.status is Halted && n == rr.steps,
                            RunOutcome::Failed(at, e) => rr.status == RunStatus::Failed(at, e),
                            RunOutcome::OutOfFuel => rr.status is Running && rr.steps == fuel,
                        }
                    })
                },
            }
        }),
{
    let (reg_count, program) = match from_bytecode(bytecode) {
        Err(e) => {
            return Err(e);
        },
        Ok(p) => p,
    };
    Ok(run(&program, reg_count, fuel))
}

} // verus!
