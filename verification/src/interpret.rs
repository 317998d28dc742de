//! The interpreter: a register store, an instruction pointer, and an output
//! buffer, mutated one typed instruction at a time.
//!
//! Each register holds a signed 32-bit value; `inc`, `inct`, `dec`, `dect`
//! and `mul` wrap around on overflow (two's complement). `div` truncates
//! its quotient toward zero and faults on a zero divisor and on the one
//! overflowing quotient. Output is collected in the state rather than
//! written to a device, so the host decides where it goes.

use vstd::prelude::*;

verus! {

use crate::parser::{Token, TokenType, spec_arity};
use vstd::wrapping::i32_specs;

/// A reason one instruction fails at run time.
#[derive(Clone, Copy, Debug, PartialEq, Eq, Structural)]
pub enum RuntimeError {
    /// A register token indexes outside the live store.
    RegisterOutOfRange,
    /// The value handed to `outc` is no Unicode scalar value.
    InvalidCodepoint,
    /// A zero divisor, or the one quotient that overflows the store.
    DivisionError,
    /// A jump would move the instruction pointer below zero.
    PointerUnderflow,
    /// The instruction is not shaped like any instruction the resolver or
    /// the decoder can produce: a fatal inconsistency, not a user error.
    MalformedInstruction,
}

/// The outcome of one instruction.
pub type Response = Result<(), RuntimeError>;

/// The mathematical content of an interpreter state: the register values,
/// the instruction pointer, and everything written so far.
pub struct StateView {
    pub regs: Seq<i32>,
    pub ip: u32,
    pub output: Seq<char>,
}

/// This struct wraps the register Vec in order to reduce boilerplate on the
/// store operations and keep the handlers readable.
pub struct RegisterMap {
    pub vec: Vec<i32>,
}

/// Interpreter state: the register store, the instruction pointer, and the
/// output written so far.
pub struct AsmbiState {
    /// Register map (with its own type).
    pub regs: RegisterMap,
    /// Instruction pointer, declared as u32 so programs of up to about four
    /// billion lines can run.
    pub ip: u32,
    /// Everything the program has written, in order.
    pub output: Vec<char>,
}

impl View for AsmbiState {
    type V = StateView;

    open spec fn view(&self) -> StateView {
        StateView { regs: self.regs.vec@, ip: self.ip, output: self.output@ }
    }
}

/// What a token evaluates to against a register store: a literal is its
/// own value, a register token reads its slot, and a keyword token is a
/// fatal inconsistency.
pub open spec fn spec_eval(regs: Seq<i32>, tok: Token) -> Result<i32, RuntimeError> {
    match tok.type_ {
        TokenType::LITERAL => Ok(tok.val),
        TokenType::REGISTER => if 0 <= tok.val && (tok.val as int) < regs.len() {
            Ok(regs[tok.val as int])
        } else {
            Err(RuntimeError::RegisterOutOfRange)
        },
        TokenType::KEYWORD => Err(RuntimeError::MalformedInstruction),
    }
}

impl RegisterMap {
    /// Writes `val` into slot `regindex`; answers whether the slot exists.
    pub fn index_set(&mut self, regindex: usize, val: i32) -> (r: bool)
        ensures
            r == (regindex < old(self).vec@.len()),
            r ==> final(self).vec@ == old(self).vec@.update(regindex as int, val),
            !r ==> final(self).vec@ == old(self).vec@,
    {
        if self.vec.len() <= regindex {
            return false;
        }
        self.vec.set(regindex, val);
        true
    }

    /// Writes `newval` into the slot a register token names.
    pub fn set(&mut self, regtok: &Token, newval: i32) -> (r: bool)
        ensures
            r == (0 <= regtok.val && (regtok.val as int) < old(self).vec@.len()),
            r ==> final(self).vec@ == old(self).vec@.update(regtok.val as int, newval),
            !r ==> final(self).vec@ == old(self).vec@,
    {
        if regtok.val < 0 {
            return false;
        }
        self.index_set(regtok.val as usize, newval)
    }

    /// Reads the value in slot `index`, if the slot exists.
    pub fn get(&self, index: usize) -> (r: Option<i32>)
        ensures
            match r {
                Some(v) => index < self.vec@.len() && v == self.vec@[index as int],
                None => index >= self.vec@.len(),
            },
    {
        if self.vec.len() <= index {
            None
        } else {
            Some(self.vec[index])
        }
    }

    /// Rewrites slot `index` through `modifier`; answers whether the slot
    /// exists.
    pub fn index_modify<F: Fn(i32) -> i32>(&mut self, index: usize, modifier: F) -> (r: bool)
        requires
            forall|v: i32| call_requires(modifier, (v,)),
        ensures
            r == (index < old(self).vec@.len()),
            r ==> exists|w: i32|
                call_ensures(modifier, (old(self).vec@[index as int],), w) && final(self).vec@
                    == old(self).vec@.update(index as int, w),
            !r ==> final(self).vec@ == old(self).vec@,
    {
        let optval: i32 = match self.get(index) {
            Some(val) => val,
            None => {
                return false;
            },
        };
        self.index_set(index, modifier(optval))
    }

    /// Rewrites the slot a register token names through `modifier`.
    pub fn modify<F: Fn(i32) -> i32>(&mut self, regtok: &Token, modifier: F) -> (r: bool)
        requires
            forall|v: i32| call_requires(modifier, (v,)),
        ensures
            r == (0 <= regtok.val && (regtok.val as int) < old(self).vec@.len()),
            r ==> exists|w: i32|
                call_ensures(modifier, (old(self).vec@[regtok.val as int],), w) && final(self).vec@
                    == old(self).vec@.update(regtok.val as int, w),
            !r ==> final(self).vec@ == old(self).vec@,
    {
        if regtok.val < 0 {
            return false;
        }
        self.index_modify(regtok.val as usize, modifier)
    }

    /// Evaluates a literal or register token against this store.
    pub fn parse_token(&self, tok: &Token) -> (r: Result<i32, RuntimeError>)
        ensures
            r == spec_eval(self.vec@, *tok),
    {
        match tok.type_ {
            TokenType::LITERAL => Ok(tok.val),
            TokenType::REGISTER => {
                if tok.val < 0 {
                    return Err(RuntimeError::RegisterOutOfRange);
                }
                match self.get(tok.val as usize) {
                    Some(v) => Ok(v),
                    None => Err(RuntimeError::RegisterOutOfRange),
                }
            },
            TokenType::KEYWORD => Err(RuntimeError::MalformedInstruction),
        }
    }

    /// A store of `capacity` registers, all zero.
    pub fn new(capacity: usize) -> (r: RegisterMap)
        ensures
            r.vec@.len() == capacity,
            forall|i: int| 0 <= i < capacity ==> r.vec@[i] == 0i32,
    {
        let mut vec: Vec<i32> = Vec::new();
        let mut i: usize = 0;
        while i < capacity
            invariant
                0 <= i <= capacity,
                vec@.len() == i,
                forall|j: int| 0 <= j < i ==> vec@[j] == 0i32,
            decreases capacity - i,
        {
            vec.push(0);
            i += 1;
        }
        RegisterMap { vec }
    }
}

/// A fresh interpreter state: `capacity` zeroed registers, the instruction
/// pointer at zero, and nothing written.
pub fn new_state(capacity: usize) -> (r: AsmbiState)
    ensures
        r@.regs.len() == capacity,
        forall|i: int| 0 <= i < capacity ==> r@.regs[i] == 0i32,
        r@.ip == 0,
        r@.output == Seq::<char>::empty(),
{
    AsmbiState { regs: RegisterMap::new(capacity), ip: 0, output: Vec::new() }
}


/// The character of one decimal digit.
pub open spec fn digit_char(d: nat) -> char
    recommends
        d < 10,
{
    ((0x30 + d) as u8) as char
}

/// The decimal digits of an unsigned value, most significant first.
pub open spec fn dec_digits(n: nat) -> Seq<char>
    decreases n,
{
    if n < 10 {
        seq![digit_char(n)]
    } else {
        dec_digits(n / 10).push(digit_char(n % 10))
    }
}

/// The decimal writing of a signed value: a minus sign for a negative
/// value, then its magnitude's digits.
pub open spec fn dec_repr(v: int) -> Seq<char> {
    if v < 0 {
        seq!['-'] + dec_digits((-v) as nat)
    } else {
        dec_digits(v as nat)
    }
}

/// Appends the decimal digits of `m`.
fn push_u32_dec(out: &mut Vec<char>, m: u32)
    ensures
        final(out)@ == old(out)@ + dec_digits(m as nat),
    decreases m,
{
    if m < 10 {
        out.push(((0x30 + (m as u8)) as u8) as char);
        proof {
            assert(final(out)@ =~= old(out)@ + dec_digits(m as nat));
        }
    } else {
        push_u32_dec(out, m / 10);
        out.push(((0x30 + ((m % 10) as u8)) as u8) as char);
        proof {
            assert(final(out)@ =~= old(out)@ + dec_digits(m as nat));
        }
    }
}

/// Appends the decimal writing of `v`.
fn push_i32_dec(out: &mut Vec<char>, v: i32)
    ensures
        final(out)@ == old(out)@ + dec_repr(v as int),
{
    if v < 0 {
        out.push('-');
        let m: u32 = (-(v as i64)) as u32;
        push_u32_dec(out, m);
        proof {
            assert(final(out)@ =~= old(out)@ + dec_repr(v as int));
        }
    } else {
        push_u32_dec(out, v as u32);
    }
}

/// A Unicode scalar value: what a `char` may hold.
pub open spec fn valid_codepoint(u: u32) -> bool {
    u < 0xD800 || (0xE000 <= u && u <= 0x10FFFF)
}

/// Relies on char::from_u32: it answers Some exactly for Unicode scalar
/// values — all values below 0x110000 except the surrogate range — and
/// the char it returns carries the given value.
#[verifier::external_body]
fn char_from_u32(v: u32) -> (r: Option<char>)
    ensures
        r is Some <==> valid_codepoint(v),
        r matches Some(c) ==> c as u32 == v,
{
    char::from_u32(v)
}


/// Writes `v` into the slot token `t` names, leaving pointer and output
/// alone.
pub open spec fn set_reg(s: StateView, t: Token, v: i32) -> Result<StateView, RuntimeError> {
    if 0 <= t.val && (t.val as int) < s.regs.len() {
        Ok(StateView { regs: s.regs.update(t.val as int, v), ip: s.ip, output: s.output })
    } else {
        Err(RuntimeError::RegisterOutOfRange)
    }
}

/// The slot token `t` names exists in the store.
pub open spec fn reg_in_range(s: StateView, t: Token) -> bool {
    0 <= t.val && (t.val as int) < s.regs.len()
}

/// The value in the slot token `t` names.
pub open spec fn cur_val(s: StateView, t: Token) -> i32 {
    s.regs[t.val as int]
}

/// `def R V`: evaluate V, then store it in R's slot.
pub open spec fn spec_def(s: StateView, toks: Seq<Token>) -> Result<StateView, RuntimeError> {
    match spec_eval(s.regs, toks[2]) {
        Err(e) => Err(e),
        Ok(v) => set_reg(s, toks[1], v),
    }
}

/// `inc R`: add one to R's slot, wrapping on overflow.
pub open spec fn spec_inc(s: StateView, toks: Seq<Token>) -> Result<StateView, RuntimeError> {
    if reg_in_range(s, toks[1]) {
        set_reg(s, toks[1], i32_specs::wrapping_add(cur_val(s, toks[1]), 1))
    } else {
        Err(RuntimeError::RegisterOutOfRange)
    }
}

/// `inct R V`: evaluate V, then add it to R's slot, wrapping on overflow.
pub open spec fn spec_inct(s: StateView, toks: Seq<Token>) -> Result<StateView, RuntimeError> {
    match spec_eval(s.regs, toks[2]) {
        Err(e) => Err(e),
        Ok(v) => if reg_in_range(s, toks[1]) {
            set_reg(s, toks[1], i32_specs::wrapping_add(cur_val(s, toks[1]), v))
        } else {
            Err(RuntimeError::RegisterOutOfRange)
        },
    }
}

/// `dec R`: subtract one from R's slot, wrapping on overflow.
pub open spec fn spec_dec(s: StateView, toks: Seq<Token>) -> Result<StateView, RuntimeError> {
    if reg_in_range(s, toks[1]) {
        set_reg(s, toks[1], i32_specs::wrapping_sub(cur_val(s, toks[1]), 1))
    } else {
        Err(RuntimeError::RegisterOutOfRange)
    }
}

/// `dect R V`: evaluate V, then subtract it from R's slot, wrapping on
/// overflow.
pub open spec fn spec_dect(s: StateView, toks: Seq<Token>) -> Result<StateView, RuntimeError> {
    match spec_eval(s.regs, toks[2]) {
        Err(e) => Err(e),
        Ok(v) => if reg_in_range(s, toks[1]) {
            set_reg(s, toks[1], i32_specs::wrapping_sub(cur_val(s, toks[1]), v))
        } else {
            Err(RuntimeError::RegisterOutOfRange)
        },
    }
}

/// `mul R V`: evaluate V, then multiply R's slot by it, wrapping on
/// overflow.
pub open spec fn spec_mul(s: StateView, toks: Seq<Token>) -> Result<StateView, RuntimeError> {
    match spec_eval(s.regs, toks[2]) {
        Err(e) => Err(e),
        Ok(v) => if reg_in_range(s, toks[1]) {
            set_reg(s, toks[1], i32_specs::wrapping_mul(cur_val(s, toks[1]), v))
        } else {
            Err(RuntimeError::RegisterOutOfRange)
        },
    }
}

/// Integer division truncating toward zero, the division policy of this
/// interpreter: `52 div 5` is `10`, `-52 div 5` is `-10`.
pub open spec fn div_trunc(a: int, d: int) -> int
    recommends
        d != 0,
{
    if a == 0 {
        0
    } else if a > 0 && d > 0 {
        a / d
    } else if a < 0 && d < 0 {
        (a * -1) / (d * -1)
    } else if a < 0 {
        ((a * -1) / d) * -1
    } else {
        (a / (d * -1)) * -1
    }
}

/// `div R V`: evaluate V, then divide R's slot by it, truncating toward
/// zero. A zero divisor faults, and so does the one overflowing quotient,
/// the most negative value divided by minus one.
pub open spec fn spec_div(s: StateView, toks: Seq<Token>) -> Result<StateView, RuntimeError> {
    match spec_eval(s.regs, toks[2]) {
        Err(e) => Err(e),
        Ok(v) => if !reg_in_range(s, toks[1]) {
            Err(RuntimeError::RegisterOutOfRange)
        } else if v == 0 || (cur_val(s, toks[1]) == i32::MIN && v == -1) {
            Err(RuntimeError::DivisionError)
        } else {
            set_reg(s, toks[1], div_trunc(cur_val(s, toks[1]) as int, v as int) as i32)
        },
    }
}

/// `cpy V R`: evaluate V, then store it in R's slot.
pub open spec fn spec_cpy(s: StateView, toks: Seq<Token>) -> Result<StateView, RuntimeError> {
    match spec_eval(s.regs, toks[1]) {
        Err(e) => Err(e),
        Ok(v) => set_reg(s, toks[2], v),
    }
}

/// `jnz V1 V2`: when V1 is not zero, move the instruction pointer to
/// `ip + V2 - 1`, so that the unconditional advance after the instruction
/// lands the program exactly V2 away. A target below zero faults; a target
/// beyond the pointer's range is clamped to its maximum, past the end of
/// any program, so the machine halts.
pub open spec fn spec_jnz(s: StateView, toks: Seq<Token>) -> Result<StateView, RuntimeError> {
    match spec_eval(s.regs, toks[1]) {
        Err(e) => Err(e),
        Ok(v1) => if v1 == 0 {
            Ok(s)
        } else {
            match spec_eval(s.regs, toks[2]) {
                Err(e) => Err(e),
                Ok(v2) => {
                    let target = s.ip + v2 - 1;
                    if target < 0 {
                        Err(RuntimeError::PointerUnderflow)
                    } else if target > u32::MAX {
                        Ok(StateView { regs: s.regs, ip: u32::MAX, output: s.output })
                    } else {
                        Ok(StateView { regs: s.regs, ip: target as u32, output: s.output })
                    }
                },
            }
        },
    }
}

/// `out V`: evaluate V and write its decimal form and a trailing space.
pub open spec fn spec_out(s: StateView, toks: Seq<Token>) -> Result<StateView, RuntimeError> {
    match spec_eval(s.regs, toks[1]) {
        Err(e) => Err(e),
        Ok(v) => Ok(
            StateView { regs: s.regs, ip: s.ip, output: s.output + dec_repr(v as int).push(' ') },
        ),
    }
}

/// `outn V`: evaluate V and write its decimal form and a trailing newline.
pub open spec fn spec_outn(s: StateView, toks: Seq<Token>) -> Result<StateView, RuntimeError> {
    match spec_eval(s.regs, toks[1]) {
        Err(e) => Err(e),
        Ok(v) => Ok(
            StateView { regs: s.regs, ip: s.ip, output: s.output + dec_repr(v as int).push('\n') },
        ),
    }
}

/// `outc V`: evaluate V and write the character with that codepoint, with
/// no trailing separator. A negative value or one that is no Unicode
/// scalar value faults.
pub open spec fn spec_outc(s: StateView, toks: Seq<Token>) -> Result<StateView, RuntimeError> {
    match spec_eval(s.regs, toks[1]) {
        Err(e) => Err(e),
        Ok(v) => if v < 0 || !valid_codepoint(v as u32) {
            Err(RuntimeError::InvalidCodepoint)
        } else {
            Ok(
                StateView {
                    regs: s.regs,
                    ip: s.ip,
                    output: s.output.push((v as u32) as char),
                },
            )
        },
    }
}

/// What one instruction does to a state: dispatch on the keyword token to
/// the twelve handlers above. An instruction no resolver or decoder could
/// produce — an empty one, one not led by a keyword, an unknown opcode, a
/// wrong parameter count — is a fatal inconsistency.
pub open spec fn spec_execute(s: StateView, toks: Seq<Token>) -> Result<StateView, RuntimeError> {
    if toks.len() == 0 || toks[0].type_ != TokenType::KEYWORD {
        Err(RuntimeError::MalformedInstruction)
    } else {
        let k = toks[0].val;
        if !(0 <= k < 12) {
            Err(RuntimeError::MalformedInstruction)
        } else if toks.len() != spec_arity(k as int) + 1 {
            Err(RuntimeError::MalformedInstruction)
        } else if k == 0 {
            spec_def(s, toks)
        } else if k == 1 {
            spec_inc(s, toks)
        } else if k == 2 {
            spec_inct(s, toks)
        } else if k == 3 {
            spec_dec(s, toks)
        } else if k == 4 {
            spec_dect(s, toks)
        } else if k == 5 {
            spec_mul(s, toks)
        } else if k == 6 {
            spec_div(s, toks)
        } else if k == 7 {
            spec_cpy(s, toks)
        } else if k == 8 {
            spec_jnz(s, toks)
        } else if k == 9 {
            spec_out(s, toks)
        } else if k == 10 {
            spec_outn(s, toks)
        } else {
            spec_outc(s, toks)
        }
    }
}


/// How a handler's outcome must relate to its specification: on success the
/// state becomes exactly the specified one; on failure the error is the
/// specified one and the state is untouched.
pub open spec fn obeys_step(
    pre: StateView,
    post: StateView,
    r: Response,
    res: Result<StateView, RuntimeError>,
) -> bool {
    match res {
        Ok(sv) => r is Ok && post == sv,
        Err(e) => r == Err::<(), RuntimeError>(e) && post == pre,
    }
}

/// Executes `def R V`.
pub fn def(state: &mut AsmbiState, toks: &Vec<Token>) -> (r: Response)
    requires
        toks@.len() >= 3,
    ensures
        obeys_step(old(state)@, final(state)@, r, spec_def(old(state)@, toks@)),
{
    let newval = match state.regs.parse_token(&toks[2]) {
        Ok(v) => v,
        Err(e) => {
            return Err(e);
        },
    };
    if state.regs.set(&toks[1], newval) {
        Ok(())
    } else {
        Err(RuntimeError::RegisterOutOfRange)
    }
}

/// Executes `inc R`.
pub fn inc(state: &mut AsmbiState, toks: &Vec<Token>) -> (r: Response)
    requires
        toks@.len() >= 2,
    ensures
        obeys_step(old(state)@, final(state)@, r, spec_inc(old(state)@, toks@)),
{
    if toks[1].val < 0 {
        return Err(RuntimeError::RegisterOutOfRange);
    }
    let idx = toks[1].val as usize;
    let cur = match state.regs.get(idx) {
        Some(v) => v,
        None => {
            return Err(RuntimeError::RegisterOutOfRange);
        },
    };
    let _ = state.regs.index_set(idx, cur.wrapping_add(1));
    Ok(())
}

/// Executes `inct R V`.
pub fn inct(state: &mut AsmbiState, toks: &Vec<Token>) -> (r: Response)
    requires
        toks@.len() >= 3,
    ensures
        obeys_step(old(state)@, final(state)@, r, spec_inct(old(state)@, toks@)),
{
    let adder = match state.regs.parse_token(&toks[2]) {
        Ok(v) => v,
        Err(e) => {
            return Err(e);
        },
    };
    if toks[1].val < 0 {
        return Err(RuntimeError::RegisterOutOfRange);
    }
    let idx = toks[1].val as usize;
    let cur = match state.regs.get(idx) {
        Some(v) => v,
        None => {
            return Err(RuntimeError::RegisterOutOfRange);
        },
    };
    let _ = state.regs.index_set(idx, cur.wrapping_add(adder));
    Ok(())
}

/// Executes `dec R`.
pub fn dec(state: &mut AsmbiState, toks: &Vec<Token>) -> (r: Response)
    requires
        toks@.len() >= 2,
    ensures
        obeys_step(old(state)@, final(state)@, r, spec_dec(old(state)@, toks@)),
{
    if toks[1].val < 0 {
        return Err(RuntimeError::RegisterOutOfRange);
    }
    let idx = toks[1].val as usize;
    let cur = match state.regs.get(idx) {
        Some(v) => v,
        None => {
            return Err(RuntimeError::RegisterOutOfRange);
        },
    };
    let _ = state.regs.index_set(idx, cur.wrapping_sub(1));
    Ok(())
}

/// Executes `dect R V`.
pub fn dect(state: &mut AsmbiState, toks: &Vec<Token>) -> (r: Response)
    requires
        toks@.len() >= 3,
    ensures
        obeys_step(old(state)@, final(state)@, r, spec_dect(old(state)@, toks@)),
{
    let subtractor = match state.regs.parse_token(&toks[2]) {
        Ok(v) => v,
        Err(e) => {
            return Err(e);
        },
    };
    if toks[1].val < 0 {
        return Err(RuntimeError::RegisterOutOfRange);
    }
    let idx = toks[1].val as usize;
    let cur = match state.regs.get(idx) {
        Some(v) => v,
        None => {
            return Err(RuntimeError::RegisterOutOfRange);
        },
    };
    let _ = state.regs.index_set(idx, cur.wrapping_sub(subtractor));
    Ok(())
}

/// Executes `mul R V`.
pub fn mul(state: &mut AsmbiState, toks: &Vec<Token>) -> (r: Response)
    requires
        toks@.len() >= 3,
    ensures
        obeys_step(old(state)@, final(state)@, r, spec_mul(old(state)@, toks@)),
{
    let multiplier = match state.regs.parse_token(&toks[2]) {
        Ok(v) => v,
        Err(e) => {
            return Err(e);
        },
    };
    if toks[1].val < 0 {
        return Err(RuntimeError::RegisterOutOfRange);
    }
    let idx = toks[1].val as usize;
    let cur = match state.regs.get(idx) {
        Some(v) => v,
        None => {
            return Err(RuntimeError::RegisterOutOfRange);
        },
    };
    let _ = state.regs.index_set(idx, cur.wrapping_mul(multiplier));
    Ok(())
}

/// The truncating quotient stays in the store's range except for the most
/// negative value divided by minus one.
proof fn lemma_div_trunc_range(a: i32, d: i32)
    requires
        d != 0,
        !(a == i32::MIN && d == -1),
    ensures
        i32::MIN <= div_trunc(a as int, d as int) <= i32::MAX,
{
    let ai = a as int;
    let di = d as int;
    if ai == 0 {
    } else if ai > 0 && di > 0 {
        vstd::arithmetic::div_mod::lemma_div_pos_is_pos(ai, di);
        vstd::arithmetic::div_mod::lemma_div_nonincreasing(ai, di);
    } else if ai < 0 && di < 0 {
        vstd::arithmetic::div_mod::lemma_div_pos_is_pos(ai * -1, di * -1);
        vstd::arithmetic::div_mod::lemma_div_nonincreasing(ai * -1, di * -1);
        if ai == i32::MIN {
            vstd::arithmetic::div_mod::lemma_div_is_ordered_by_denominator(ai * -1, 2, di * -1);
        }
    } else if ai < 0 {
        vstd::arithmetic::div_mod::lemma_div_pos_is_pos(ai * -1, di);
        vstd::arithmetic::div_mod::lemma_div_nonincreasing(ai * -1, di);
    } else {
        vstd::arithmetic::div_mod::lemma_div_pos_is_pos(ai, di * -1);
        vstd::arithmetic::div_mod::lemma_div_nonincreasing(ai, di * -1);
    }
}

/// The one excluded quotient really does overflow the store.
proof fn lemma_div_trunc_min(a: i32, d: i32)
    requires
        a == i32::MIN,
        d == -1,
    ensures
        div_trunc(a as int, d as int) == 0x8000_0000,
{
    vstd::arithmetic::div_mod::lemma_div_basics(a as int * -1);
}

/// Executes `div R V`.
pub fn div(state: &mut AsmbiState, toks: &Vec<Token>) -> (r: Response)
    requires
        toks@.len() >= 3,
    ensures
        obeys_step(old(state)@, final(state)@, r, spec_div(old(state)@, toks@)),
{
    let quotient = match state.regs.parse_token(&toks[2]) {
        Ok(v) => v,
        Err(e) => {
            return Err(e);
        },
    };
    if toks[1].val < 0 {
        return Err(RuntimeError::RegisterOutOfRange);
    }
    let idx = toks[1].val as usize;
    let cur = match state.regs.get(idx) {
        Some(v) => v,
        None => {
            return Err(RuntimeError::RegisterOutOfRange);
        },
    };
    proof {
        if quotient != 0 {
            if cur == i32::MIN && quotient == -1 {
                lemma_div_trunc_min(cur, quotient);
            } else {
                lemma_div_trunc_range(cur, quotient);
            }
        }
    }
    match cur.checked_div(quotient) {
        None => Err(RuntimeError::DivisionError),
        Some(q) => {
            let _ = state.regs.index_set(idx, q);
            Ok(())
        },
    }
}

/// Executes `cpy V R`.
pub fn cpy(state: &mut AsmbiState, toks: &Vec<Token>) -> (r: Response)
    requires
        toks@.len() >= 3,
    ensures
        obeys_step(old(state)@, final(state)@, r, spec_cpy(old(state)@, toks@)),
{
    let newval = match state.regs.parse_token(&toks[1]) {
        Ok(v) => v,
        Err(e) => {
            return Err(e);
        },
    };
    if state.regs.set(&toks[2], newval) {
        Ok(())
    } else {
        Err(RuntimeError::RegisterOutOfRange)
    }
}

/// Executes `jnz V1 V2`.
pub fn jnz(state: &mut AsmbiState, toks: &Vec<Token>) -> (r: Response)
    requires
        toks@.len() >= 3,
    ensures
        obeys_step(old(state)@, final(state)@, r, spec_jnz(old(state)@, toks@)),
{
    let check = match state.regs.parse_token(&toks[1]) {
        Ok(v) => v,
        Err(e) => {
            return Err(e);
        },
    };
    if check != 0 {
        let offset = match state.regs.parse_token(&toks[2]) {
            Ok(v) => v,
            Err(e) => {
                return Err(e);
            },
        };
        let target: i64 = (state.ip as i64) + (offset as i64) - 1;
        if target < 0 {
            return Err(RuntimeError::PointerUnderflow);
        }
        if target > (u32::MAX as i64) {
            state.ip = u32::MAX;
        } else {
            state.ip = target as u32;
        }
    }
    Ok(())
}

/// Executes `out V`.
pub fn out(state: &mut AsmbiState, toks: &Vec<Token>) -> (r: Response)
    requires
        toks@.len() >= 2,
    ensures
        obeys_step(old(state)@, final(state)@, r, spec_out(old(state)@, toks@)),
{
    let val = match state.regs.parse_token(&toks[1]) {
        Ok(v) => v,
        Err(e) => {
            return Err(e);
        },
    };
    push_i32_dec(&mut state.output, val);
    state.output.push(' ');
    proof {
        assert(state.output@ =~= old(state)@.output + dec_repr(val as int).push(' '));
    }
    Ok(())
}

/// Executes `outn V`.
pub fn outn(state: &mut AsmbiState, toks: &Vec<Token>) -> (r: Response)
    requires
        toks@.len() >= 2,
    ensures
        obeys_step(old(state)@, final(state)@, r, spec_outn(old(state)@, toks@)),
{
    let val = match state.regs.parse_token(&toks[1]) {
        Ok(v) => v,
        Err(e) => {
            return Err(e);
        },
    };
    push_i32_dec(&mut state.output, val);
    state.output.push('\n');
    proof {
        assert(state.output@ =~= old(state)@.output + dec_repr(val as int).push('\n'));
    }
    Ok(())
}

/// Executes `outc V`.
pub fn outc(state: &mut AsmbiState, toks: &Vec<Token>) -> (r: Response)
    requires
        toks@.len() >= 2,
    ensures
        obeys_step(old(state)@, final(state)@, r, spec_outc(old(state)@, toks@)),
{
    let val = match state.regs.parse_token(&toks[1]) {
        Ok(v) => v,
        Err(e) => {
            return Err(e);
        },
    };
    if val < 0 {
        return Err(RuntimeError::InvalidCodepoint);
    }
    match char_from_u32(val as u32) {
        None => Err(RuntimeError::InvalidCodepoint),
        Some(c) => {
            state.output.push(c);
            proof {
                vstd::utf8::char_u32_cast(c, val as u32);
            }
            Ok(())
        },
    }
}

/// Executes one typed instruction against the state, dispatching on its
/// keyword token. The instruction pointer only moves for a taken `jnz`;
/// the caller advances it by one after every instruction.
pub fn execute(state: &mut AsmbiState, toks: &Vec<Token>) -> (r: Response)
    ensures
        obeys_step(old(state)@, final(state)@, r, spec_execute(old(state)@, toks@)),
{
    if toks.len() == 0 {
        return Err(RuntimeError::MalformedInstruction);
    }
    let t0 = toks[0];
    if t0.type_ != TokenType::KEYWORD {
        return Err(RuntimeError::MalformedInstruction);
    }
    if t0.val < 0 || t0.val >= 12 {
        return Err(RuntimeError::MalformedInstruction);
    }
    let k = t0.val as usize;
    let arity = crate::parser::arity_of(k);
    if toks.len() != arity + 1 {
        return Err(RuntimeError::MalformedInstruction);
    }
    match k {
        0 => crate::interpret::def(state, toks),
        1 => crate::interpret::inc(state, toks),
        2 => crate::interpret::inct(state, toks),
        3 => crate::interpret::dec(state, toks),
        4 => crate::interpret::dect(state, toks),
        5 => crate::interpret::mul(state, toks),
        6 => crate::interpret::div(state, toks),
        7 => crate::interpret::cpy(state, toks),
        8 => crate::interpret::jnz(state, toks),
        9 => crate::interpret::out(state, toks),
        10 => crate::interpret::outn(state, toks),
        _ => crate::interpret::outc(state, toks),
    }
}

/// Executes one instruction for interactive use, where registers appear one
/// at a time: a `def` instruction first grows the store by exactly one
/// zeroed slot, so the slot its register token names exists.
pub fn execute_one(state: &mut AsmbiState, toks: &Vec<Token>) -> (r: Response)
    ensures
        ({
            let grown = if toks@.len() > 0 && toks@[0].type_ == TokenType::KEYWORD
                && toks@[0].val == 0 {
                StateView {
                    regs: old(state)@.regs.push(0i32),
                    ip: old(state)@.ip,
                    output: old(state)@.output,
                }
            } else {
                old(state)@
            };
            obeys_step(grown, final(state)@, r, spec_execute(grown, toks@))
        }),
{
    if toks.len() > 0 {
        let t0 = toks[0];
        if t0.type_ == TokenType::KEYWORD && t0.val == 0 {
            state.regs.vec.push(0);
        }
    }
    execute(state, toks)
}

} // verus!
