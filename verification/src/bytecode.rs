//! The binary form of a compiled program.
//!
//! An image holds a 32-byte header — the register count as a big-endian
//! unsigned 32-bit integer, padded with 28 reserved zero bytes — followed by
//! one 5-byte record per token: a tag byte (0 for a keyword, 1 for a
//! register, 2 for a literal) and the token's value as a big-endian
//! two's-complement 32-bit integer. Instruction boundaries are implicit:
//! every keyword-tagged record starts a new instruction.

use vstd::prelude::*;

verus! {

use crate::parser::{
    CompileError,
    ResolveError,
    Token,
    TokenType,
    compile_lines,
    resolve_params,
    resolve_word,
    resolve_words,
    split_ws,
    to_tokens,
};

/// A reason a byte stream cannot be decoded.
#[derive(Clone, Copy, Debug, PartialEq, Eq, Structural)]
pub enum DecodeError {
    /// The stream holds fewer bytes than the fixed header.
    CorruptHeader,
    /// The body's byte count is not a whole number of records.
    TruncatedRecord,
    /// The first record of the body is not keyword-tagged, so there is no
    /// instruction to attach it to.
    OrphanToken,
    /// A record's tag byte names no token type.
    InvalidTag,
}

/// The unsigned 32-bit pattern that stands for `v` on the wire.
pub open spec fn u32_of_i32(v: i32) -> u32 {
    if v >= 0 {
        v as u32
    } else {
        (v + 0x1_0000_0000) as u32
    }
}

/// The signed reading of a 32-bit wire pattern.
pub open spec fn i32_of_u32(u: u32) -> i32 {
    if u < 0x8000_0000 {
        u as i32
    } else {
        (u - 0x1_0000_0000) as i32
    }
}

/// The two sign conversions undo each other.
pub proof fn lemma_sign_roundtrip(v: i32, u: u32)
    ensures
        i32_of_u32(u32_of_i32(v)) == v,
        u32_of_i32(i32_of_u32(u)) == u,
{
}

/// The four bytes of `x`, most significant first.
pub open spec fn be32_bytes(x: u32) -> Seq<u8> {
    seq![
        (x >> 24) as u8,
        ((x >> 16) & 0xff) as u8,
        ((x >> 8) & 0xff) as u8,
        (x & 0xff) as u8,
    ]
}

/// The unsigned value of four bytes, most significant first.
pub open spec fn be32_value(s: Seq<u8>) -> u32
    recommends
        s.len() == 4,
{
    ((s[0] as u32) << 24) | ((s[1] as u32) << 16) | ((s[2] as u32) << 8) | (s[3] as u32)
}

/// Reading back the four bytes of a value yields the value.
pub proof fn lemma_be32_roundtrip(x: u32)
    ensures
        be32_bytes(x).len() == 4,
        be32_value(be32_bytes(x)) == x,
{
    assert((((x >> 24) & 0xff) as u32) << 24 | (((x >> 16) & 0xff) as u32) << 16 | (((x >> 8)
        & 0xff) as u32) << 8 | ((x & 0xff) as u32) == x) by (bit_vector);
    assert(x >> 24 == (x >> 24) & 0xff) by (bit_vector);
    assert(((x >> 24) as u8) as u32 == (x >> 24) & 0xff) by (bit_vector);
    assert((((x >> 16) & 0xff) as u8) as u32 == (x >> 16) & 0xff) by (bit_vector);
    assert((((x >> 8) & 0xff) as u8) as u32 == (x >> 8) & 0xff) by (bit_vector);
    assert(((x & 0xff) as u8) as u32 == x & 0xff) by (bit_vector);
}

/// Appends the four big-endian bytes of `x`.
fn push_be32(out: &mut Vec<u8>, x: u32)
    ensures
        final(out)@ == old(out)@ + be32_bytes(x),
{
    proof {
        assert(x >> 24 < 256 && (x >> 16) & 0xff < 256 && (x >> 8) & 0xff < 256 && x & 0xff
            < 256) by (bit_vector);
    }
    out.push((x >> 24) as u8);
    out.push(((x >> 16) & 0xff) as u8);
    out.push(((x >> 8) & 0xff) as u8);
    out.push((x & 0xff) as u8);
    proof {
        assert(final(out)@ =~= old(out)@ + be32_bytes(x));
    }
}

/// Reads the four big-endian bytes at `at`.
fn be32_at(bytes: &Vec<u8>, at: usize) -> (x: u32)
    requires
        at + 4 <= bytes@.len(),
    ensures
        x == be32_value(bytes@.subrange(at as int, at + 4)),
{
    let n = bytes.len();
    let x = ((bytes[at] as u32) << 24u32) | ((bytes[at + 1] as u32) << 16u32) | ((bytes[at + 2]
        as u32) << 8u32) | (bytes[at + 3] as u32);
    proof {
        let s = bytes@.subrange(at as int, at + 4);
        assert(s[0] == bytes@[at as int] && s[1] == bytes@[at + 1] && s[2] == bytes@[at + 2]
            && s[3] == bytes@[at + 3]);
    }
    x
}

/// The tag byte that marks a token's type on the wire.
pub open spec fn tag_of(t: TokenType) -> u8 {
    match t {
        TokenType::KEYWORD => 0,
        TokenType::REGISTER => 1,
        TokenType::LITERAL => 2,
    }
}

/// The token type a tag byte stands for, if any.
pub open spec fn type_of_tag(b: u8) -> Option<TokenType> {
    if b == 0 {
        Some(TokenType::KEYWORD)
    } else if b == 1 {
        Some(TokenType::REGISTER)
    } else if b == 2 {
        Some(TokenType::LITERAL)
    } else {
        None
    }
}

/// Executable mirror of [`tag_of`].
pub fn tag_byte(t: TokenType) -> (r: u8)
    ensures
        r == tag_of(t),
{
    match t {
        TokenType::KEYWORD => 0,
        TokenType::REGISTER => 1,
        TokenType::LITERAL => 2,
    }
}

/// The 5-byte wire record of one token.
pub open spec fn token_bytes(t: Token) -> Seq<u8> {
    seq![tag_of(t.type_)] + be32_bytes(u32_of_i32(t.val))
}

/// The token a 5-byte record stands for, or the tag fault.
pub open spec fn token_of_record(rec: Seq<u8>) -> Result<Token, DecodeError>
    recommends
        rec.len() == 5,
{
    match type_of_tag(rec[0]) {
        Option::None => Err(DecodeError::InvalidTag),
        Option::Some(tt) => Ok(Token { type_: tt, val: i32_of_u32(be32_value(rec.skip(1))) }),
    }
}

/// A token's record always reads back as the token.
pub proof fn lemma_token_roundtrip(t: Token)
    ensures
        token_bytes(t).len() == 5,
        token_of_record(token_bytes(t)) == Ok::<Token, DecodeError>(t),
{
    lemma_be32_roundtrip(u32_of_i32(t.val));
    assert(token_bytes(t).skip(1) =~= be32_bytes(u32_of_i32(t.val)));
    lemma_sign_roundtrip(t.val, 0);
}

impl Token {
    /// The 5-byte wire record of this token: the tag byte, then the value
    /// in big-endian two's complement.
    pub fn to_bytearray(self) -> (r: Vec<u8>)
        ensures
            r@ == token_bytes(self),
            r@.len() == 5,
    {
        let mut output: Vec<u8> = Vec::new();
        output.push(tag_byte(self.type_));
        let u: u32 = if self.val >= 0 {
            self.val as u32
        } else {
            ((self.val as i64) + 0x1_0000_0000) as u32
        };
        push_be32(&mut output, u);
        proof {
            assert(output@ =~= token_bytes(self));
        }
        output
    }

    /// Reads one 5-byte wire record back into a token.
    pub fn from_bytearray(barray: &[u8]) -> (r: Result<Token, DecodeError>)
        ensures
            barray@.len() == 5 ==> r == token_of_record(barray@),
            barray@.len() != 5 ==> r == Err::<Token, DecodeError>(DecodeError::TruncatedRecord),
    {
        if barray.len() != 5 {
            return Err(DecodeError::TruncatedRecord);
        }
        let type_ = match barray[0] {
            0 => TokenType::KEYWORD,
            1 => TokenType::REGISTER,
            2 => TokenType::LITERAL,
            _ => {
                return Err(DecodeError::InvalidTag);
            },
        };
        let u: u32 = ((barray[1] as u32) << 24u32) | ((barray[2] as u32) << 16u32) | ((barray[3]
            as u32) << 8u32) | (barray[4] as u32);
        let val: i32 = if u < 0x8000_0000 {
            u as i32
        } else {
            ((u as i64) - 0x1_0000_0000) as i32
        };
        proof {
            let rec = barray@;
            assert(rec.skip(1)[0] == rec[1] && rec.skip(1)[1] == rec[2] && rec.skip(1)[2]
                == rec[3] && rec.skip(1)[3] == rec[4]);
        }
        Ok(Token { type_, val })
    }
}


/// The 32-byte header: the register count in big-endian, then 28 reserved
/// zero bytes.
pub open spec fn header_bytes(count: u32) -> Seq<u8> {
    be32_bytes(count) + Seq::new(28, |i: int| 0u8)
}

/// The wire records of one instruction's tokens, in order.
pub open spec fn tokens_bytes(toks: Seq<Token>) -> Seq<u8>
    decreases toks.len(),
{
    if toks.len() == 0 {
        Seq::empty()
    } else {
        token_bytes(toks.first()) + tokens_bytes(toks.drop_first())
    }
}

/// The wire records of a whole program, instruction by instruction.
pub open spec fn prog_bytes(prog: Seq<Seq<Token>>) -> Seq<u8>
    decreases prog.len(),
{
    if prog.len() == 0 {
        Seq::empty()
    } else {
        tokens_bytes(prog.first()) + prog_bytes(prog.drop_first())
    }
}

/// The full image of a program: header, then body.
pub open spec fn encode_bytes(count: u32, prog: Seq<Seq<Token>>) -> Seq<u8> {
    header_bytes(count) + prog_bytes(prog)
}

/// Prepends already-read tokens to the outcome of reading the rest.
pub open spec fn flat_append(pre: Seq<Token>, r: Result<Seq<Token>, DecodeError>) -> Result<
    Seq<Token>,
    DecodeError,
> {
    match r {
        Ok(rest) => Ok(pre + rest),
        Err(e) => Err(e),
    }
}

/// Reads a body as a flat token sequence, record by record; the first bad
/// tag wins.
pub open spec fn flat_tokens(body: Seq<u8>) -> Result<Seq<Token>, DecodeError>
    recommends
        body.len() % 5 == 0,
    decreases body.len(),
{
    if body.len() < 5 {
        Ok(Seq::empty())
    } else {
        match token_of_record(body.take(5)) {
            Err(e) => Err(e),
            Ok(t) => flat_append(seq![t], flat_tokens(body.skip(5))),
        }
    }
}

/// Groups a flat token sequence into instructions: a keyword token starts a
/// new instruction, any other token joins the latest one, and a token with
/// no instruction to join is an orphan.
pub open spec fn group_tokens(toks: Seq<Token>) -> Result<Seq<Seq<Token>>, DecodeError>
    decreases toks.len(),
{
    if toks.len() == 0 {
        Ok(Seq::empty())
    } else {
        let t = toks.last();
        match group_tokens(toks.drop_last()) {
            Err(e) => Err(e),
            Ok(gs) => {
                if t.type_ == TokenType::KEYWORD {
                    Ok(gs.push(seq![t]))
                } else if gs.len() == 0 {
                    Err(DecodeError::OrphanToken)
                } else {
                    Ok(gs.drop_last().push(gs.last().push(t)))
                }
            },
        }
    }
}

/// What decoding a byte stream yields: the register count from the header
/// and the regrouped program, or the first fault found — a short header,
/// a ragged body, a bad tag, then an orphan leading token, in that order.
pub open spec fn spec_decode(bytes: Seq<u8>) -> Result<(u32, Seq<Seq<Token>>), DecodeError> {
    if bytes.len() < 32 {
        Err(DecodeError::CorruptHeader)
    } else if (bytes.len() - 32) % 5 != 0 {
        Err(DecodeError::TruncatedRecord)
    } else {
        match flat_tokens(bytes.skip(32)) {
            Err(e) => Err(e),
            Ok(toks) => match group_tokens(toks) {
                Err(e) => Err(e),
                Ok(prog) => Ok((be32_value(bytes.subrange(0, 4)), prog)),
            },
        }
    }
}

/// The views of a program's instruction vectors.
pub open spec fn prog_view(p: Seq<Vec<Token>>) -> Seq<Seq<Token>> {
    p.map(|i: int, v: Vec<Token>| v@)
}

/// A grouping fault in a prefix dooms the whole sequence.
proof fn lemma_group_err_prefix(toks: Seq<Token>, i: int)
    requires
        0 <= i <= toks.len(),
        group_tokens(toks.take(i)) is Err,
    ensures
        group_tokens(toks) == group_tokens(toks.take(i)),
    decreases toks.len() - i,
{
    if i < toks.len() {
        assert(toks.take(i + 1).drop_last() =~= toks.take(i));
        lemma_group_err_prefix(toks, i + 1);
    } else {
        assert(toks.take(i) =~= toks);
    }
}


/// Converts a bytecode image back to its register count and its program.
/// The register count in the header is taken as is: it is not checked
/// against the register indices the body mentions, so an index beyond the
/// count only faults when the instruction holding it is executed.
pub fn from_bytecode(bytecode: &Vec<u8>) -> (r: Result<(usize, Vec<Vec<Token>>), DecodeError>)
    ensures
        ({
            let d = spec_decode(bytecode@);
            match r {
                Ok((c, p)) => {
                    &&& d is Ok
                    &&& c == d->Ok_0.0
                    &&& prog_view(p@) == d->Ok_0.1
                },
                Err(e) => d == Err::<(u32, Seq<Seq<Token>>), DecodeError>(e),
            }
        }),
{
    let n = bytecode.len();
    if n < 32 {
        return Err(DecodeError::CorruptHeader);
    }
    if (n - 32) % 5 != 0 {
        return Err(DecodeError::TruncatedRecord);
    }
    let reg_count = be32_at(bytecode, 0);
    let ghost body = bytecode@.skip(32);
    let mut flat: Vec<Token> = Vec::new();
    let mut off: usize = 32;
    proof {
        assert(flat_tokens(body) == flat_append(flat@, flat_tokens(bytecode@.skip(32))));
    }
    while off < n
        invariant
            32 <= off <= n,
            n == bytecode@.len(),
            (off - 32) % 5 == 0,
            (n - 32) % 5 == 0,
            body == bytecode@.skip(32),
            flat_tokens(body) == flat_append(flat@, flat_tokens(bytecode@.skip(off as int))),
        decreases n - off,
    {
        proof {
            assert((n - off) % 5 == 0) by (nonlinear_arith)
                requires
                    (off - 32) % 5 == 0,
                    (n - 32) % 5 == 0,
                    n >= 32,
                    off >= 32,
            ;
            assert(n - off >= 5);
        }
        let ghost rest = bytecode@.skip(off as int);
        let ghost pre = flat@;
        let tagb = bytecode[off];
        proof {
            assert(rest.take(5)[0] == bytecode@[off as int]);
        }
        let type_ = match tagb {
            0 => TokenType::KEYWORD,
            1 => TokenType::REGISTER,
            2 => TokenType::LITERAL,
            _ => {
                proof {
                    assert(flat_tokens(rest) == Err::<Seq<Token>, DecodeError>(
                        DecodeError::InvalidTag,
                    ));
                }
                return Err(DecodeError::InvalidTag);
            },
        };
        let u = be32_at(bytecode, off + 1);
        let val: i32 = if u < 0x8000_0000 {
            u as i32
        } else {
            ((u as i64) - 0x1_0000_0000) as i32
        };
        let t = Token { type_, val };
        flat.push(t);
        proof {
            assert(rest.take(5).skip(1) =~= bytecode@.subrange(off + 1, off + 5));
            assert(token_of_record(rest.take(5)) == Ok::<Token, DecodeError>(t));
            assert(rest.skip(5) =~= bytecode@.skip(off + 5));
            assert(flat_tokens(rest) == flat_append(
                seq![t],
                flat_tokens(bytecode@.skip(off + 5)),
            ));
            match flat_tokens(bytecode@.skip(off + 5)) {
                Ok(tail) => {
                    assert(pre + (seq![t] + tail) =~= pre.push(t) + tail);
                },
                Err(e) => {},
            }
        }
        off += 5;
    }
    proof {
        assert(bytecode@.skip(n as int) =~= Seq::<u8>::empty());
        assert(flat@ + Seq::<Token>::empty() =~= flat@);
        assert(flat_tokens(body) == Ok::<Seq<Token>, DecodeError>(flat@));
    }
    let flen = flat.len();
    let mut out: Vec<Vec<Token>> = Vec::new();
    let mut cur: Vec<Token> = Vec::new();
    let mut started = false;
    let mut idx: usize = 0;
    while idx < flen
        invariant
            0 <= idx <= flen,
            flen == flat@.len(),
            n == bytecode@.len(),
            n >= 32,
            (n - 32) % 5 == 0,
            body == bytecode@.skip(32),
            flat_tokens(body) == Ok::<Seq<Token>, DecodeError>(flat@),
            reg_count == be32_value(bytecode@.subrange(0, 4)),
            started ==> group_tokens(flat@.take(idx as int)) == Ok::<Seq<Seq<Token>>, DecodeError>(
                prog_view(out@).push(cur@),
            ),
            !started ==> idx == 0 && out@.len() == 0 && cur@.len() == 0,
        decreases flen - idx,
    {
        let t = flat[idx];
        proof {
            assert(flat@.take(idx + 1).drop_last() =~= flat@.take(idx as int));
            assert(flat@.take(idx + 1).last() == flat@[idx as int]);
        }
        if t.type_ == TokenType::KEYWORD {
            let ghost out_old = out@;
            let ghost cur_old = cur@;
            if started {
                out.push(cur);
                cur = Vec::new();
                proof {
                    assert(prog_view(out@) =~= prog_view(out_old).push(cur_old));
                }
            } else {
                proof {
                    assert(flat@.take(0) =~= Seq::<Token>::empty());
                    assert(prog_view(out@) =~= Seq::<Seq<Token>>::empty());
                }
            }
            cur.push(t);
            proof {
                assert(cur@ =~= seq![t]);
            }
            started = true;
        } else {
            if !started {
                proof {
                    assert(flat@.take(1).drop_last() =~= flat@.take(0));
                    assert(flat@.take(0) =~= Seq::<Token>::empty());
                    assert(group_tokens(flat@.take(1)) == Err::<Seq<Seq<Token>>, DecodeError>(
                        DecodeError::OrphanToken,
                    ));
                    lemma_group_err_prefix(flat@, 1);
                }
                return Err(DecodeError::OrphanToken);
            }
            let ghost gs = prog_view(out@).push(cur@);
            proof {
                assert(gs.drop_last() =~= prog_view(out@));
                assert(gs.last() == cur@);
            }
            cur.push(t);
        }
        idx += 1;
    }
    if started {
        let ghost out_old = out@;
        let ghost cur_old = cur@;
        out.push(cur);
        proof {
            assert(prog_view(out@) =~= prog_view(out_old).push(cur_old));
        }
    }
    proof {
        assert(flat@.take(flen as int) =~= flat@);
        if !started {
            assert(prog_view(out@) =~= Seq::<Seq<Token>>::empty());
        }
    }
    Ok((reg_count as usize, out))
}


/// Appending one token appends its record.
proof fn lemma_tokens_bytes_push(a: Seq<Token>, t: Token)
    ensures
        tokens_bytes(a.push(t)) == tokens_bytes(a) + token_bytes(t),
    decreases a.len(),
{
    if a.len() == 0 {
        assert(a.push(t).first() == t);
        assert(a.push(t).drop_first() =~= Seq::<Token>::empty());
        assert(tokens_bytes(a.push(t)) == token_bytes(t) + tokens_bytes(Seq::empty()));
        assert(token_bytes(t) + Seq::<u8>::empty() =~= Seq::<u8>::empty() + token_bytes(t));
    } else {
        assert(a.push(t).first() == a.first());
        assert(a.push(t).drop_first() =~= a.drop_first().push(t));
        lemma_tokens_bytes_push(a.drop_first(), t);
        assert(token_bytes(a.first()) + (tokens_bytes(a.drop_first()) + token_bytes(t)) =~= (
        token_bytes(a.first()) + tokens_bytes(a.drop_first())) + token_bytes(t));
    }
}

/// Appending one instruction appends its records.
proof fn lemma_prog_bytes_push(p: Seq<Seq<Token>>, insn: Seq<Token>)
    ensures
        prog_bytes(p.push(insn)) == prog_bytes(p) + tokens_bytes(insn),
    decreases p.len(),
{
    if p.len() == 0 {
        assert(p.push(insn).first() == insn);
        assert(p.push(insn).drop_first() =~= Seq::<Seq<Token>>::empty());
        assert(prog_bytes(p.push(insn)) == tokens_bytes(insn) + prog_bytes(Seq::empty()));
        assert(tokens_bytes(insn) + Seq::<u8>::empty() =~= Seq::<u8>::empty() + tokens_bytes(
        insn));
    } else {
        assert(p.push(insn).first() == p.first());
        assert(p.push(insn).drop_first() =~= p.drop_first().push(insn));
        lemma_prog_bytes_push(p.drop_first(), insn);
        assert(tokens_bytes(p.first()) + (prog_bytes(p.drop_first()) + tokens_bytes(insn)) =~= (
        tokens_bytes(p.first()) + prog_bytes(p.drop_first())) + tokens_bytes(insn));
    }
}

/// Converts source lines to a bytecode image: each line is compiled in
/// order against one growing register table, and the image carries the
/// table's final size in its header.
pub fn to_bytecode(asmbp: &Vec<&str>) -> (r: Result<Vec<u8>, CompileError>)
    requires
        asmbp@.len() < 0x7fff_ffff,
    ensures
        ({
            let c = compile_lines(asmbp.deep_view(), Seq::empty());
            match r {
                Ok(bytes) => c is Ok && bytes@ == encode_bytes(
                    c->Ok_0.0.len() as u32,
                    c->Ok_0.1,
                ),
                Err(e) => c == Err::<(Seq<Seq<char>>, Seq<Seq<Token>>), CompileError>(e),
            }
        }),
{
    let ghost lines = asmbp.deep_view();
    let mut segment2: Vec<u8> = Vec::new();
    let mut regs: Vec<String> = Vec::new();
    let ghost mut prog: Seq<Seq<Token>> = Seq::empty();
    let nlines = asmbp.len();
    let mut i: usize = 0;
    proof {
        assert(lines.skip(0) =~= lines);
        assert(regs.deep_view() =~= Seq::<Seq<char>>::empty());
    }
    while i < nlines
        invariant
            0 <= i <= nlines,
            nlines == asmbp@.len(),
            nlines < 0x7fff_ffff,
            lines == asmbp.deep_view(),
            lines.len() == nlines,
            forall|j: int| 0 <= j < nlines ==> (#[trigger] asmbp@[j])@ == lines[j],
            regs@.len() == regs.deep_view().len(),
            regs@.len() <= i,
            segment2@ == prog_bytes(prog),
            compile_lines(lines, Seq::empty()) == (match compile_lines(
                lines.skip(i as int),
                regs.deep_view(),
            ) {
                Ok(t) => Ok::<(Seq<Seq<char>>, Seq<Seq<Token>>), CompileError>((t.0, prog + t.1)),
                Err(e) => Err::<(Seq<Seq<char>>, Seq<Seq<Token>>), CompileError>(e),
            }),
        decreases nlines - i,
    {
        let ghost regs_before = regs.deep_view();
        let ghost rest = lines.skip(i as int);
        proof {
            assert(rest[0] == lines[i as int]);
            assert(rest.drop_first() =~= lines.skip(i + 1));
        }
        match to_tokens(asmbp[i], &mut regs) {
            Err(e) => {
                return Err(e);
            },
            Ok(opt) => {
                match opt {
                    None => {},
                    Some(tokens) => {
                        let ghost prog_before = prog;
                        let ghost seg_before = segment2@;
                        let ntoks = tokens.len();
                        let mut j: usize = 0;
                        while j < ntoks
                            invariant
                                0 <= j <= ntoks,
                                ntoks == tokens@.len(),
                                segment2@ == seg_before + tokens_bytes(tokens@.take(j as int)),
                            decreases ntoks - j,
                        {
                            let mut rec = tokens[j].to_bytearray();
                            segment2.append(&mut rec);
                            proof {
                                assert(tokens@.take(j + 1) =~= tokens@.take(j as int).push(
                                    tokens@[j as int],
                                ));
                                lemma_tokens_bytes_push(tokens@.take(j as int), tokens@[j as int]);
                            }
                            j += 1;
                        }
                        proof {
                            assert(tokens@.take(ntoks as int) =~= tokens@);
                            prog = prog_before.push(tokens@);
                            lemma_prog_bytes_push(prog_before, tokens@);
                            match compile_lines(lines.skip(i + 1), regs.deep_view()) {
                                Ok(t) => {
                                    assert(prog_before + (seq![tokens@] + t.1) =~= prog + t.1);
                                },
                                Err(e) => {},
                            }
                        }
                    },
                }
            },
        }
        proof {
            let pr = resolve_words(split_ws(lines[i as int]), regs_before);
            let ws = split_ws(lines[i as int]);
            assert(pr.1 == regs_before || pr.1 == regs_before.push(ws[1]));
        }
        i += 1;
    }
    proof {
        assert(lines.skip(nlines as int) =~= Seq::<Seq<char>>::empty());
        assert(prog + Seq::<Seq<Token>>::empty() =~= prog);
    }
    let mut segment1: Vec<u8> = Vec::new();
    push_be32(&mut segment1, regs.len() as u32);
    let mut z: usize = 0;
    while z < 28
        invariant
            0 <= z <= 28,
            regs@.len() < 0x8000_0000,
            segment1@ == be32_bytes((regs@.len() as u32)) + Seq::new(z as nat, |q: int| 0u8),
        decreases 28 - z,
    {
        segment1.push(0u8);
        proof {
            assert(Seq::new((z + 1) as nat, |q: int| 0u8) =~= Seq::new(z as nat, |q: int| 0u8)
                .push(0u8));
            assert(segment1@ =~= be32_bytes((regs@.len() as u32)) + Seq::new(
                (z + 1) as nat,
                |q: int| 0u8,
            ));
        }
        z += 1;
    }
    segment1.append(&mut segment2);
    proof {
        assert(regs@.len() == regs.deep_view().len());
        assert(segment1@ =~= encode_bytes(regs@.len() as u32, prog));
    }
    Ok(segment1)
}


/// A well-formed instruction: non-empty, opened by a keyword token, with no
/// keyword token after it.
pub open spec fn wf_instruction(insn: Seq<Token>) -> bool {
    &&& insn.len() > 0
    &&& insn[0].type_ == TokenType::KEYWORD
    &&& forall|i: int| 1 <= i < insn.len() ==> (#[trigger] insn[i]).type_ != TokenType::KEYWORD
}

/// A well-formed program: every instruction is well-formed.
pub open spec fn wf_program(prog: Seq<Seq<Token>>) -> bool {
    forall|i: int| 0 <= i < prog.len() ==> wf_instruction(#[trigger] prog[i])
}

/// The tokens of a program, in order, without instruction boundaries.
pub open spec fn flat_of(prog: Seq<Seq<Token>>) -> Seq<Token>
    decreases prog.len(),
{
    if prog.len() == 0 {
        Seq::empty()
    } else {
        prog.first() + flat_of(prog.drop_first())
    }
}

/// Appending one instruction appends its tokens.
proof fn lemma_flat_of_push(p: Seq<Seq<Token>>, insn: Seq<Token>)
    ensures
        flat_of(p.push(insn)) == flat_of(p) + insn,
    decreases p.len(),
{
    if p.len() == 0 {
        assert(p.push(insn).first() == insn);
        assert(p.push(insn).drop_first() =~= Seq::<Seq<Token>>::empty());
        assert(flat_of(Seq::<Seq<Token>>::empty()) == Seq::<Token>::empty());
        assert(flat_of(p.push(insn)) == insn + Seq::<Token>::empty());
        assert(insn + Seq::<Token>::empty() =~= Seq::<Token>::empty() + insn);
    } else {
        assert(p.push(insn).first() == p.first());
        assert(p.push(insn).drop_first() =~= p.drop_first().push(insn));
        lemma_flat_of_push(p.drop_first(), insn);
        assert(p.first() + (flat_of(p.drop_first()) + insn) =~= (p.first() + flat_of(
        p.drop_first())) + insn);
    }
    assert(flat_of(p.push(insn)) =~= flat_of(p) + insn);
}

/// A program's records hold a whole number of 5-byte records.
proof fn lemma_tokens_bytes_len(toks: Seq<Token>)
    ensures
        tokens_bytes(toks).len() == 5 * toks.len(),
    decreases toks.len(),
{
    if toks.len() > 0 {
        lemma_token_roundtrip(toks.first());
        lemma_tokens_bytes_len(toks.drop_first());
    }
}

/// Reading a token list's records followed by more body reads the tokens,
/// then the rest.
proof fn lemma_flat_tokens_concat(toks: Seq<Token>, extra: Seq<u8>)
    ensures
        flat_tokens(tokens_bytes(toks) + extra) == flat_append(toks, flat_tokens(extra)),
    decreases toks.len(),
{
    if toks.len() == 0 {
        assert(tokens_bytes(toks) + extra =~= extra);
        match flat_tokens(extra) {
            Ok(rest) => {
                assert(toks + rest =~= rest);
            },
            Err(e) => {},
        }
    } else {
        let t0 = toks.first();
        let whole = tokens_bytes(toks) + extra;
        lemma_token_roundtrip(t0);
        lemma_tokens_bytes_len(toks);
        assert(whole.take(5) =~= token_bytes(t0));
        assert(whole.skip(5) =~= tokens_bytes(toks.drop_first()) + extra);
        lemma_flat_tokens_concat(toks.drop_first(), extra);
        match flat_tokens(extra) {
            Ok(rest) => {
                assert(seq![t0] + (toks.drop_first() + rest) =~= toks + rest);
            },
            Err(e) => {},
        }
    }
}

/// Reading a program's body back yields its tokens in order.
proof fn lemma_flat_tokens_prog(prog: Seq<Seq<Token>>)
    ensures
        flat_tokens(prog_bytes(prog)) == Ok::<Seq<Token>, DecodeError>(flat_of(prog)),
        prog_bytes(prog).len() % 5 == 0,
    decreases prog.len(),
{
    if prog.len() == 0 {
    } else {
        lemma_flat_tokens_prog(prog.drop_first());
        lemma_flat_tokens_concat(prog.first(), prog_bytes(prog.drop_first()));
        lemma_tokens_bytes_len(prog.first());
        assert((5 * prog.first().len() + prog_bytes(prog.drop_first()).len()) % 5 == 0)
            by (nonlinear_arith)
            requires
                prog_bytes(prog.drop_first()).len() % 5 == 0,
        ;
    }
}

/// Tokens that open no instruction extend the latest one.
proof fn lemma_group_append_params(base: Seq<Token>, gs: Seq<Seq<Token>>, extra: Seq<Token>)
    requires
        group_tokens(base) == Ok::<Seq<Seq<Token>>, DecodeError>(gs),
        gs.len() > 0,
        forall|i: int| 0 <= i < extra.len() ==> (#[trigger] extra[i]).type_ != TokenType::KEYWORD,
    ensures
        group_tokens(base + extra) == Ok::<Seq<Seq<Token>>, DecodeError>(
            gs.drop_last().push(gs.last() + extra),
        ),
    decreases extra.len(),
{
    if extra.len() == 0 {
        assert(base + extra =~= base);
        assert(gs.drop_last().push(gs.last() + extra) =~= gs);
    } else {
        let e0 = extra.drop_last();
        lemma_group_append_params(base, gs, e0);
        let whole = base + extra;
        assert(whole.last() == extra.last());
        assert(whole.drop_last() =~= base + e0);
        let gs2 = gs.drop_last().push(gs.last() + e0);
        assert(gs2.last() == gs.last() + e0);
        assert(gs2.drop_last() =~= gs.drop_last());
        assert((gs.last() + e0).push(extra.last()) =~= gs.last() + extra);
        assert(group_tokens(whole) == Ok::<Seq<Seq<Token>>, DecodeError>(
            gs.drop_last().push(gs.last() + extra),
        ));
    }
}

/// A well-formed instruction appended to grouped tokens groups as one more
/// instruction.
proof fn lemma_group_append_insn(toks: Seq<Token>, gs: Seq<Seq<Token>>, insn: Seq<Token>)
    requires
        group_tokens(toks) == Ok::<Seq<Seq<Token>>, DecodeError>(gs),
        wf_instruction(insn),
    ensures
        group_tokens(toks + insn) == Ok::<Seq<Seq<Token>>, DecodeError>(gs.push(insn)),
{
    let kw = insn[0];
    let params = insn.drop_first();
    let base = toks.push(kw);
    assert(base.drop_last() =~= toks);
    assert(base.last() == kw);
    assert(group_tokens(base) == Ok::<Seq<Seq<Token>>, DecodeError>(gs.push(seq![kw])));
    assert(forall|i: int|
        0 <= i < params.len() ==> (#[trigger] params[i]).type_ != TokenType::KEYWORD);
    lemma_group_append_params(base, gs.push(seq![kw]), params);
    assert(base + params =~= toks + insn);
    assert(gs.push(seq![kw]).drop_last() =~= gs);
    assert(seq![kw] + params =~= insn);
}

/// The tokens of a well-formed program group back into its instructions.
proof fn lemma_group_flat(prog: Seq<Seq<Token>>)
    requires
        wf_program(prog),
    ensures
        group_tokens(flat_of(prog)) == Ok::<Seq<Seq<Token>>, DecodeError>(prog),
    decreases prog.len(),
{
    if prog.len() == 0 {
        assert(prog =~= Seq::<Seq<Token>>::empty());
        assert(flat_of(prog) == Seq::<Token>::empty());
    } else {
        let p0 = prog.drop_last();
        assert(forall|i: int| 0 <= i < p0.len() ==> p0[i] == prog[i]);
        lemma_group_flat(p0);
        lemma_flat_of_push(p0, prog.last());
        assert(p0.push(prog.last()) =~= prog);
        assert(flat_of(prog) == flat_of(p0) + prog.last());
        assert(prog.last() == prog[prog.len() - 1]);
        assert(wf_instruction(prog.last()));
        lemma_group_append_insn(flat_of(p0), p0, prog.last());
        assert(group_tokens(flat_of(prog)) == Ok::<Seq<Seq<Token>>, DecodeError>(
            p0.push(prog.last()),
        ));
    }
}

/// Round trip: decoding the image of any well-formed program yields exactly
/// the register count in the header and the program itself.
pub proof fn lemma_encode_decode(count: u32, prog: Seq<Seq<Token>>)
    requires
        wf_program(prog),
    ensures
        spec_decode(encode_bytes(count, prog)) == Ok::<(u32, Seq<Seq<Token>>), DecodeError>(
            (count, prog),
        ),
{
    let bytes = encode_bytes(count, prog);
    lemma_flat_tokens_prog(prog);
    assert(bytes.len() == 32 + prog_bytes(prog).len());
    assert((bytes.len() - 32) % 5 == 0);
    assert(bytes.skip(32) =~= prog_bytes(prog));
    lemma_group_flat(prog);
    lemma_be32_roundtrip(count);
    assert(bytes.subrange(0, 4) =~= be32_bytes(count));
}


/// Resolved parameters are never keyword tokens.
proof fn lemma_resolve_params_nonkw(words: Seq<Seq<char>>, j: int, regs: Seq<Seq<char>>)
    requires
        resolve_params(words, j, regs) is Ok,
    ensures
        forall|i: int|
            0 <= i < resolve_params(words, j, regs)->Ok_0.len() ==> (#[trigger] resolve_params(
                words,
                j,
                regs,
            )->Ok_0[i]).type_ != TokenType::KEYWORD,
    decreases words.len() - j,
{
    if 0 <= j < words.len() {
        lemma_resolve_params_nonkw(words, j + 1, regs);
        let t = resolve_word(words[j], regs)->Ok_0;
        let rest = resolve_params(words, j + 1, regs)->Ok_0;
        assert(forall|i: int|
            0 <= i < rest.len() ==> (seq![t] + rest)[i + 1] == #[trigger] rest[i]);
    }
}

/// Every instruction the resolver emits is well-formed.
proof fn lemma_resolve_wf(words: Seq<Seq<char>>, regs: Seq<Seq<char>>)
    requires
        resolve_words(words, regs).0 matches Ok(Some(_)),
    ensures
        wf_instruction(resolve_words(words, regs).0->Ok_0->Some_0),
{
    let k = crate::parser::kw_lookup(words[0])->Some_0;
    let regs2 = if k == 0 {
        regs.push(words[1])
    } else {
        regs
    };
    lemma_resolve_params_nonkw(words, 1, regs2);
    let params = resolve_params(words, 1, regs2)->Ok_0;
    let toks = resolve_words(words, regs).0->Ok_0->Some_0;
    assert(toks == seq![Token { type_: TokenType::KEYWORD, val: k as i32 }] + params);
    assert(forall|i: int| 0 <= i < params.len() ==> toks[i + 1] == #[trigger] params[i]);
}

/// Every program the compiler emits is well-formed.
proof fn lemma_compile_wf(lines: Seq<Seq<char>>, regs: Seq<Seq<char>>)
    requires
        compile_lines(lines, regs) is Ok,
    ensures
        wf_program(compile_lines(lines, regs)->Ok_0.1),
    decreases lines.len(),
{
    if lines.len() > 0 {
        let pr = resolve_words(split_ws(lines[0]), regs);
        lemma_compile_wf(lines.drop_first(), pr.1);
        let insns = compile_lines(lines.drop_first(), pr.1)->Ok_0.1;
        match pr.0 {
            Err(e) => {},
            Ok(opt) => match opt {
                Option::None => {},
                Option::Some(toks) => {
                    lemma_resolve_wf(split_ws(lines[0]), regs);
                    let whole = seq![toks] + insns;
                    assert(whole[0] == toks);
                    assert(forall|i: int|
                        0 <= i < insns.len() ==> whole[i + 1] == #[trigger] insns[i]);
                },
            },
        }
    }
}

/// Round trip, from the source up: for any sequence of source lines that
/// compiles, decoding the encoded image of the compiled program yields
/// exactly the register count and the program that compilation produced.
pub proof fn lemma_compile_encode_decode(lines: Seq<Seq<char>>)
    requires
        compile_lines(lines, Seq::empty()) is Ok,
        compile_lines(lines, Seq::empty())->Ok_0.0.len() <= 0xffff_ffff,
    ensures
        ({
            let (regs, prog) = compile_lines(lines, Seq::empty())->Ok_0;
            spec_decode(encode_bytes(regs.len() as u32, prog)) == Ok::<
                (u32, Seq<Seq<Token>>),
                DecodeError,
            >((regs.len() as u32, prog))
        }),
{
    let (regs, prog) = compile_lines(lines, Seq::empty())->Ok_0;
    lemma_compile_wf(lines, Seq::empty());
    lemma_encode_decode(regs.len() as u32, prog);
}

} // verus!
