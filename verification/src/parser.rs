//! Lexing, validation, and symbol resolution for source lines.
//!
//! A source line is split into whitespace-delimited words. A word list is
//! either non-executable (blank or comment), or one keyword followed by
//! parameter words. Validation checks the keyword, the arity, and the kind of
//! each parameter; resolution turns the words into typed [`Token`]s, mapping
//! register names to stable indices in a register table.

use vstd::prelude::*;

verus! {

use vstd::std_specs::cmp::PartialEqSpec;
use vstd::string::StrSliceExecFns;

/// A lexer word separator: the ASCII whitespace characters.
pub open spec fn is_space(c: char) -> bool {
    c == ' ' || c == '\t' || c == '\n' || c == '\r' || c == '\x0b' || c == '\x0c'
}

/// True when a word starting with `c` marks a comment line.
pub open spec fn is_comment_char(c: char) -> bool {
    c == '#' || c == '/' || c == ':' || c == ';' || c == '"' || c == '\''
}

/// Executable mirror of [`is_space`].
pub fn is_space_char(c: char) -> (r: bool)
    ensures
        r == is_space(c),
{
    c == ' ' || c == '\t' || c == '\n' || c == '\r' || c == '\x0b' || c == '\x0c'
}

/// Executable mirror of [`is_comment_char`].
pub fn is_comment_start(c: char) -> (r: bool)
    ensures
        r == is_comment_char(c),
{
    c == '#' || c == '/' || c == ':' || c == ';' || c == '"' || c == '\''
}

/// A decimal digit.
pub open spec fn is_digit(c: char) -> bool {
    '0' <= c && c <= '9'
}

/// The numeric value of a decimal digit.
pub open spec fn digit_val(c: char) -> int {
    c as int - '0' as int
}

/// A character legal in a register name: a letter, a digit, or an underscore.
pub open spec fn is_name_char(c: char) -> bool {
    is_digit(c) || ('a' <= c && c <= 'z') || ('A' <= c && c <= 'Z') || c == '_'
}

/// A legal register name: non-empty, made of letters, digits, and
/// underscores, not starting with a digit, and not starting with two
/// underscores (that prefix is reserved for generated code).
pub open spec fn valid_regname(s: Seq<char>) -> bool {
    &&& s.len() > 0
    &&& forall|i: int| 0 <= i < s.len() ==> is_name_char(#[trigger] s[i])
    &&& !is_digit(s[0])
    &&& !(s.len() >= 2 && s[0] == '_' && s[1] == '_')
}

/// Executable mirror of [`is_name_char`].
pub fn is_name_char_exec(c: char) -> (r: bool)
    ensures
        r == is_name_char(c),
{
    ('0' <= c && c <= '9') || ('a' <= c && c <= 'z') || ('A' <= c && c <= 'Z') || c == '_'
}

/// A reason a line fails validation.
#[derive(Clone, Copy, Debug, PartialEq, Eq, Structural)]
pub enum ValidationError {
    /// The first word is not one of the twelve keywords.
    UnknownKeyword,
    /// The number of parameter words does not match the keyword's arity.
    ArityMismatch,
    /// A parameter word has the wrong kind for its position.
    ParameterKindMismatch,
}

/// A reason a validated line fails symbol resolution.
#[derive(Clone, Copy, Debug, PartialEq, Eq, Structural)]
pub enum ResolveError {
    /// A newly declared register name is already in the table.
    DuplicateRegister,
    /// A non-literal parameter names a register that is not in the table.
    UnknownRegister,
    /// A newly declared register name breaks the naming rules.
    InvalidRegisterName,
}

/// A reason a line cannot be compiled: it fails validation or resolution.
#[derive(Clone, Copy, Debug, PartialEq, Eq, Structural)]
pub enum CompileError {
    Validation(ValidationError),
    Resolve(ResolveError),
}

/// Checks if the given register name is valid.
pub fn regname_valid(name: &str) -> (r: Result<(), ResolveError>)
    ensures
        r is Ok <==> valid_regname(name@),
        r is Err ==> r == Err::<(), ResolveError>(ResolveError::InvalidRegisterName),
{
    let len = name.unicode_len();
    if len == 0 {
        return Err(ResolveError::InvalidRegisterName);
    }
    let first = name.get_char(0);
    if '0' <= first && first <= '9' {
        return Err(ResolveError::InvalidRegisterName);
    }
    if len >= 2 && first == '_' && name.get_char(1) == '_' {
        return Err(ResolveError::InvalidRegisterName);
    }
    let mut i: usize = 0;
    while i < len
        invariant
            len == name@.len(),
            0 <= i <= len,
            forall|j: int| 0 <= j < i ==> is_name_char(#[trigger] name@[j]),
        decreases len - i,
    {
        if !is_name_char_exec(name.get_char(i)) {
            return Err(ResolveError::InvalidRegisterName);
        }
        i += 1;
    }
    Ok(())
}

/// True when the two string slices hold the same characters.
pub fn str_eq(a: &str, b: &str) -> (r: bool)
    ensures
        r == (a@ == b@),
{
    let alen = a.unicode_len();
    let blen = b.unicode_len();
    if alen != blen {
        return false;
    }
    let mut i: usize = 0;
    while i < alen
        invariant
            alen == a@.len(),
            alen == b@.len(),
            0 <= i <= alen,
            forall|j: int| 0 <= j < i ==> a@[j] == b@[j],
        decreases alen - i,
    {
        if a.get_char(i) != b.get_char(i) {
            return false;
        }
        i += 1;
    }
    proof {
        assert(a@ =~= b@);
    }
    true
}


/// Lower-cases an ASCII capital letter; leaves every other character alone.
pub open spec fn lower_char(c: char) -> char {
    if 'A' <= c && c <= 'Z' {
        ((c as u32) + 32) as char
    } else {
        c
    }
}

/// The character-wise ASCII lower-casing of a word.
pub open spec fn seq_lower(s: Seq<char>) -> Seq<char> {
    s.map(|i: int, c: char| lower_char(c))
}

/// Executable mirror of [`lower_char`].
pub fn lower_char_exec(c: char) -> (r: char)
    ensures
        r == lower_char(c),
{
    if 'A' <= c && c <= 'Z' {
        (((c as u32) + 32) as u8) as char
    } else {
        c
    }
}

/// The keyword at position `k` of the fixed twelve-entry opcode table.
pub open spec fn spec_keyword(k: int) -> Seq<char> {
    if k == 0 { "def"@ }
    else if k == 1 { "inc"@ }
    else if k == 2 { "inct"@ }
    else if k == 3 { "dec"@ }
    else if k == 4 { "dect"@ }
    else if k == 5 { "mul"@ }
    else if k == 6 { "div"@ }
    else if k == 7 { "cpy"@ }
    else if k == 8 { "jnz"@ }
    else if k == 9 { "out"@ }
    else if k == 10 { "outn"@ }
    else { "outc"@ }
}

/// Executable opcode table: the keyword at position `k`.
pub fn keyword_at(k: usize) -> (r: &'static str)
    requires
        k < 12,
    ensures
        r@ == spec_keyword(k as int),
{
    match k {
        0 => "def",
        1 => "inc",
        2 => "inct",
        3 => "dec",
        4 => "dect",
        5 => "mul",
        6 => "div",
        7 => "cpy",
        8 => "jnz",
        9 => "out",
        10 => "outn",
        _ => "outc",
    }
}

/// True when `a`, lower-cased, spells exactly `b`.
pub fn eq_lower(a: &str, b: &str) -> (r: bool)
    ensures
        r == (seq_lower(a@) == b@),
{
    let alen = a.unicode_len();
    let blen = b.unicode_len();
    if alen != blen {
        proof {
            assert(seq_lower(a@).len() == a@.len());
        }
        return false;
    }
    let mut i: usize = 0;
    while i < alen
        invariant
            alen == a@.len(),
            alen == b@.len(),
            0 <= i <= alen,
            forall|j: int| 0 <= j < i ==> lower_char(#[trigger] a@[j]) == b@[j],
        decreases alen - i,
    {
        if lower_char_exec(a.get_char(i)) != b.get_char(i) {
            proof {
                assert(seq_lower(a@)[i as int] == lower_char(a@[i as int]));
            }
            return false;
        }
        i += 1;
    }
    proof {
        assert(seq_lower(a@) =~= b@);
    }
    true
}

/// The position of `w` in the opcode table, matched case-insensitively.
pub open spec fn kw_lookup(w: Seq<char>) -> Option<int> {
    if seq_lower(w) == spec_keyword(0) { Some(0int) }
    else if seq_lower(w) == spec_keyword(1) { Some(1int) }
    else if seq_lower(w) == spec_keyword(2) { Some(2int) }
    else if seq_lower(w) == spec_keyword(3) { Some(3int) }
    else if seq_lower(w) == spec_keyword(4) { Some(4int) }
    else if seq_lower(w) == spec_keyword(5) { Some(5int) }
    else if seq_lower(w) == spec_keyword(6) { Some(6int) }
    else if seq_lower(w) == spec_keyword(7) { Some(7int) }
    else if seq_lower(w) == spec_keyword(8) { Some(8int) }
    else if seq_lower(w) == spec_keyword(9) { Some(9int) }
    else if seq_lower(w) == spec_keyword(10) { Some(10int) }
    else if seq_lower(w) == spec_keyword(11) { Some(11int) }
    else { None }
}

/// Finds the opcode-table position of `word`, matched case-insensitively.
pub fn keyword_index(word: &str) -> (r: Option<usize>)
    ensures
        match r {
            Some(k) => k < 12 && kw_lookup(word@) == Some(k as int),
            None => kw_lookup(word@) is None,
        },
{
    let mut k: usize = 0;
    while k < 12
        invariant
            0 <= k <= 12,
            forall|j: int| 0 <= j < k ==> seq_lower(word@) != spec_keyword(j),
        decreases 12 - k,
    {
        if eq_lower(word, keyword_at(k)) {
            return Some(k);
        }
        k += 1;
    }
    None
}


/// A non-empty run of decimal digits.
pub open spec fn digits_nonempty(s: Seq<char>) -> bool {
    s.len() > 0 && forall|i: int| 0 <= i < s.len() ==> is_digit(#[trigger] s[i])
}

/// The value of a run of decimal digits, most significant first.
pub open spec fn dec_value(s: Seq<char>) -> int
    decreases s.len(),
{
    if s.len() == 0 {
        0
    } else {
        dec_value(s.drop_last()) * 10 + digit_val(s.last())
    }
}

/// The word with a single leading sign, if any, removed.
pub open spec fn unsigned_part(s: Seq<char>) -> Seq<char> {
    if s.len() > 0 && (s[0] == '+' || s[0] == '-') {
        s.drop_first()
    } else {
        s
    }
}

/// True when the word carries a leading minus sign.
pub open spec fn lit_negative(s: Seq<char>) -> bool {
    s.len() > 0 && s[0] == '-'
}

/// The word is an integer literal: an optional sign followed by digits,
/// with a value that fits in a signed 32-bit integer.
pub open spec fn is_int_literal(s: Seq<char>) -> bool {
    &&& digits_nonempty(unsigned_part(s))
    &&& if lit_negative(s) {
        dec_value(unsigned_part(s)) <= 0x8000_0000
    } else {
        dec_value(unsigned_part(s)) <= 0x7fff_ffff
    }
}

/// The signed value of an integer literal.
pub open spec fn lit_value(s: Seq<char>) -> int {
    if lit_negative(s) {
        -dec_value(unsigned_part(s))
    } else {
        dec_value(unsigned_part(s))
    }
}

/// The value of a digit run is never negative.
proof fn lemma_dec_value_nonneg(s: Seq<char>)
    requires
        forall|i: int| 0 <= i < s.len() ==> is_digit(#[trigger] s[i]),
    ensures
        dec_value(s) >= 0,
    decreases s.len(),
{
    if s.len() > 0 {
        lemma_dec_value_nonneg(s.drop_last());
    }
}

/// Reading more digits never makes the value smaller.
proof fn lemma_dec_prefix_mono(s: Seq<char>, i: int, j: int)
    requires
        0 <= i <= j <= s.len(),
        forall|k: int| 0 <= k < s.len() ==> is_digit(#[trigger] s[k]),
    ensures
        dec_value(s.take(i)) <= dec_value(s.take(j)),
    decreases j - i,
{
    if i < j {
        lemma_dec_prefix_mono(s, i, j - 1);
        assert(s.take(j).drop_last() =~= s.take(j - 1));
        assert(forall|k: int| 0 <= k < j ==> is_digit(#[trigger] s.take(j)[k]));
        lemma_dec_value_nonneg(s.take(j - 1));
    }
}

/// Reads the digit run of `tok` that starts at `start`; fails unless the run
/// reaches the end of the word, is non-empty, and its value is at most
/// `bound`.
fn parse_digits(tok: &str, start: usize, bound: u32) -> (r: Result<u32, ()>)
    requires
        start <= tok@.len(),
    ensures
        match r {
            Ok(v) => {
                &&& digits_nonempty(tok@.skip(start as int))
                &&& dec_value(tok@.skip(start as int)) <= bound
                &&& v == dec_value(tok@.skip(start as int))
            },
            Err(()) => !(digits_nonempty(tok@.skip(start as int)) && dec_value(
                tok@.skip(start as int),
            ) <= bound),
        },
{
    let ghost s = tok@.skip(start as int);
    let len = tok.unicode_len();
    if start == len {
        return Err(());
    }
    let mut acc: u32 = 0;
    let mut i: usize = start;
    while i < len
        invariant
            start <= i <= len,
            len == tok@.len(),
            s == tok@.skip(start as int),
            forall|k: int| 0 <= k < i - start ==> is_digit(#[trigger] s[k]),
            acc == dec_value(s.take(i - start)),
            acc <= bound,
        decreases len - i,
    {
        let c = tok.get_char(i);
        proof {
            assert(s[i - start] == tok@[i as int]);
        }
        if !('0' <= c && c <= '9') {
            return Err(());
        }
        let d: u32 = (c as u32) - 48;
        proof {
            assert(s.take(i - start + 1).drop_last() =~= s.take(i - start));
            assert(s.take(i - start + 1).last() == s[i - start]);
            assert(digit_val(c) == d);
        }
        if acc > bound / 10 || (acc == bound / 10 && d > bound % 10) {
            proof {
                assert(dec_value(s.take(i - start + 1)) == acc * 10 + d);
                assert(acc * 10 + d > bound);
                if digits_nonempty(s) {
                    lemma_dec_prefix_mono(s, i - start + 1, s.len() as int);
                    assert(s.take(s.len() as int) =~= s);
                }
            }
            return Err(());
        }
        acc = acc * 10 + d;
        i += 1;
    }
    proof {
        assert(s.take(i - start) =~= s);
    }
    Ok(acc)
}

/// Checks whether the given word is an integer literal by reading it as a
/// signed 32-bit integer. Returns the value when it is one.
pub fn is_literal(tok: &str) -> (r: Result<i32, ()>)
    ensures
        r is Ok <==> is_int_literal(tok@),
        match r {
            Ok(v) => v == lit_value(tok@),
            Err(()) => true,
        },
{
    let len = tok.unicode_len();
    if len == 0 {
        return Err(());
    }
    let first = tok.get_char(0);
    let neg = first == '-';
    let start: usize = if first == '-' || first == '+' {
        1
    } else {
        0
    };
    proof {
        if start == 1 {
            assert(unsigned_part(tok@) =~= tok@.skip(1));
        } else {
            assert(unsigned_part(tok@) =~= tok@.skip(0));
        }
    }
    let bound: u32 = if neg {
        0x8000_0000
    } else {
        0x7fff_ffff
    };
    match parse_digits(tok, start, bound) {
        Ok(mag) => {
            if neg {
                if mag == 0x8000_0000 {
                    Ok(i32::MIN)
                } else {
                    Ok(-(mag as i32))
                }
            } else {
                Ok(mag as i32)
            }
        },
        Err(()) => Err(()),
    }
}


/// The maximal run of non-whitespace characters at the head of `s`.
pub open spec fn word_prefix(s: Seq<char>) -> Seq<char>
    decreases s.len(),
{
    if s.len() == 0 || is_space(s[0]) {
        Seq::empty()
    } else {
        seq![s[0]] + word_prefix(s.drop_first())
    }
}

/// A head word is never empty and never longer than the text.
proof fn lemma_word_prefix_len(s: Seq<char>)
    requires
        s.len() > 0,
        !is_space(s[0]),
    ensures
        1 <= word_prefix(s).len() <= s.len(),
    decreases s.len(),
{
    assert(s.drop_first()[0] == s[1] || s.len() == 1);
    if s.len() > 1 && !is_space(s[1]) {
        lemma_word_prefix_len(s.drop_first());
    } else {
        assert(word_prefix(s.drop_first()) =~= Seq::empty());
    }
}

/// The whitespace-delimited words of `s`, in order.
pub open spec fn split_ws(s: Seq<char>) -> Seq<Seq<char>>
    decreases s.len(),
    via split_ws_decreases
{
    if s.len() == 0 {
        Seq::empty()
    } else if is_space(s[0]) {
        split_ws(s.drop_first())
    } else {
        seq![word_prefix(s)] + split_ws(s.skip(word_prefix(s).len() as int))
    }
}

#[via_fn]
proof fn split_ws_decreases(s: Seq<char>) {
    if s.len() > 0 && !is_space(s[0]) {
        lemma_word_prefix_len(s);
    }
}

/// When `s` opens with `j` non-space characters followed by a space or the
/// end, the head word is exactly those `j` characters.
proof fn lemma_word_prefix_chars(s: Seq<char>, j: int)
    requires
        0 <= j <= s.len(),
        forall|k: int| 0 <= k < j ==> !is_space(#[trigger] s[k]),
        j == s.len() || is_space(s[j]),
    ensures
        word_prefix(s) =~= s.take(j),
    decreases j,
{
    if j == 0 {
        if s.len() > 0 {
            assert(is_space(s[0]));
        }
    } else {
        lemma_word_prefix_chars(s.drop_first(), j - 1);
        assert(word_prefix(s) == seq![s[0]] + word_prefix(s.drop_first()));
        assert(seq![s[0]] + s.drop_first().take(j - 1) =~= s.take(j));
    }
}

/// Tokenizes the given string by whitespace and returns the words in a Vec.
pub fn tokenize_line<'a>(line: &'a str) -> (r: Vec<&'a str>)
    ensures
        r.deep_view() == split_ws(line@),
        forall|k: int| 0 <= k < r@.len() ==> (#[trigger] r@[k])@ == r.deep_view()[k],
{
    let len = line.unicode_len();
    let mut out: Vec<&str> = Vec::new();
    let mut i: usize = 0;
    proof {
        assert(line@.skip(0) =~= line@);
        assert(out.deep_view() =~~= Seq::<Seq<char>>::empty());
    }
    while i < len
        invariant
            0 <= i <= len,
            len == line@.len(),
            split_ws(line@) =~~= out.deep_view() + split_ws(line@.skip(i as int)),
            forall|k: int| 0 <= k < out@.len() ==> (#[trigger] out@[k])@ == out.deep_view()[k],
        decreases len - i,
    {
        let c = line.get_char(i);
        if is_space_char(c) {
            proof {
                assert(line@.skip(i as int).drop_first() =~= line@.skip(i + 1));
            }
            i += 1;
        } else {
            let mut j: usize = i + 1;
            while j < len && !is_space_char(line.get_char(j))
                invariant
                    i < j <= len,
                    len == line@.len(),
                    forall|k: int| i <= k < j ==> !is_space(#[trigger] line@[k]),
                decreases len - j,
            {
                j += 1;
            }
            let word = line.substring_char(i, j);
            proof {
                let rest = line@.skip(i as int);
                assert(forall|k: int|
                    0 <= k < j - i ==> rest[k] == #[trigger] line@[k + i]
                        && !is_space(line@[k + i]));
                if (j as int) < len {
                    assert(is_space(rest[j - i]));
                }
                lemma_word_prefix_chars(rest, j - i);
                assert(word_prefix(rest) =~= word@);
                assert(rest.skip(j - i) =~= line@.skip(j as int));
                assert(split_ws(rest) =~~= seq![word@] + split_ws(line@.skip(j as int)));
                assert((out@.push(word)).map(|idx: int, w: &str| w.deep_view()) =~~=
                    out.deep_view().push(word@));
            }
            out.push(word);
            i = j;
        }
    }
    proof {
        assert(line@.skip(len as int) =~= Seq::<char>::empty());
        assert(out.deep_view() =~~= split_ws(line@));
    }
    out
}


/// Whether a parameter position accepts a register name, a literal, or both.
#[derive(Clone, Copy, Debug, PartialEq, Eq, Structural)]
pub enum ParamKind {
    /// Only a register name is accepted.
    Reg,
    /// A register name or an integer literal is accepted.
    Any,
    /// Only an integer literal is accepted.
    Lit,
}

/// The number of parameters the keyword at table position `k` takes.
pub open spec fn spec_arity(k: int) -> int {
    if k == 1 || k == 3 || k == 9 || k == 10 || k == 11 {
        1
    } else {
        2
    }
}

/// The kind of parameter `j` (counted from 1) of the keyword at position `k`.
pub open spec fn spec_rule(k: int, j: int) -> ParamKind {
    if 9 <= k <= 11 {
        ParamKind::Any
    } else if k == 7 {
        if j == 1 {
            ParamKind::Any
        } else {
            ParamKind::Reg
        }
    } else if k == 8 {
        if j == 1 {
            ParamKind::Any
        } else {
            ParamKind::Lit
        }
    } else {
        if j == 1 {
            ParamKind::Reg
        } else {
            ParamKind::Any
        }
    }
}

/// Executable mirror of [`spec_arity`].
pub fn arity_of(k: usize) -> (r: usize)
    requires
        k < 12,
    ensures
        r == spec_arity(k as int),
{
    if k == 1 || k == 3 || k == 9 || k == 10 || k == 11 {
        1
    } else {
        2
    }
}

/// Executable mirror of [`spec_rule`].
pub fn rule_of(k: usize, j: usize) -> (r: ParamKind)
    requires
        k < 12,
    ensures
        r == spec_rule(k as int, j as int),
{
    if 9 <= k && k <= 11 {
        ParamKind::Any
    } else if k == 7 {
        if j == 1 {
            ParamKind::Any
        } else {
            ParamKind::Reg
        }
    } else if k == 8 {
        if j == 1 {
            ParamKind::Any
        } else {
            ParamKind::Lit
        }
    } else {
        if j == 1 {
            ParamKind::Reg
        } else {
            ParamKind::Any
        }
    }
}

/// A word list worth executing: non-empty and not opening a comment.
pub open spec fn executable_words(words: Seq<Seq<char>>) -> bool {
    words.len() > 0 && !is_comment_char(words[0][0])
}

/// Word `w` at parameter position `j` of keyword `k` has the wrong kind.
pub open spec fn kind_mismatch(k: int, j: int, w: Seq<char>) -> bool {
    ||| spec_rule(k, j) == ParamKind::Reg && is_int_literal(w)
    ||| spec_rule(k, j) == ParamKind::Lit && !is_int_literal(w)
}

/// What validation returns for a word list: blank and comment lines pass;
/// an executable line must open with a known keyword, carry as many
/// parameters as that keyword's arity, and give each parameter the right
/// kind.
pub open spec fn validate_words(words: Seq<Seq<char>>) -> Result<(), ValidationError> {
    if !executable_words(words) {
        Ok(())
    } else {
        match kw_lookup(words[0]) {
            Option::None => Err(ValidationError::UnknownKeyword),
            Option::Some(k) => {
                if words.len() != spec_arity(k) + 1 {
                    Err(ValidationError::ArityMismatch)
                } else if exists|j: int|
                    1 <= j <= spec_arity(k) && kind_mismatch(k, j, #[trigger] words[j]) {
                    Err(ValidationError::ParameterKindMismatch)
                } else {
                    Ok(())
                }
            },
        }
    }
}

/// Checks if the given line of words is valid: the keyword, the parameter
/// count, and the parameter kinds (literal versus register name).
pub fn line_valid(toks: &Vec<&str>) -> (r: Result<(), ValidationError>)
    requires
        toks@.len() > 0 ==> toks@[0]@.len() > 0,
    ensures
        r == validate_words(toks.deep_view()),
{
    let ghost words = toks.deep_view();
    proof {
        assert(forall|j: int| 0 <= j < toks@.len() ==> (#[trigger] toks@[j])@ == words[j]);
    }
    if toks.len() == 0 {
        return Ok(());
    }
    let w0: &str = toks[0];
    if is_comment_start(w0.get_char(0)) {
        return Ok(());
    }
    match keyword_index(w0) {
        Option::None => Err(ValidationError::UnknownKeyword),
        Option::Some(k) => {
            let arity = arity_of(k);
            if toks.len() - 1 != arity {
                return Err(ValidationError::ArityMismatch);
            }
            let mut j: usize = 1;
            while j <= arity
                invariant
                    1 <= j <= arity + 1,
                    k < 12,
                    arity == spec_arity(k as int),
                    toks@.len() == arity + 1,
                    words == toks.deep_view(),
                    words.len() == arity + 1,
                    executable_words(words),
                    kw_lookup(words[0]) == Some(k as int),
                    forall|i: int| 0 <= i < toks@.len() ==> (#[trigger] toks@[i])@ == words[i],
                    forall|jj: int| 1 <= jj < j ==> !kind_mismatch(k as int, jj, #[trigger] words[jj]),
                decreases arity + 1 - j,
            {
                let is_lit = is_literal(toks[j]).is_ok();
                let rule = rule_of(k, j);
                if (is_lit && rule == ParamKind::Reg) || (!is_lit && rule == ParamKind::Lit) {
                    proof {
                        assert(kind_mismatch(k as int, j as int, words[j as int]));
                    }
                    return Err(ValidationError::ParameterKindMismatch);
                }
                j += 1;
            }
            Ok(())
        },
    }
}

/// Returns Ok if the line of given words is worth executing, and Err with
/// the reason if it is blank or a comment.
pub fn worth_execution(toks: &Vec<&str>) -> (r: Result<(), &'static str>)
    requires
        toks@.len() > 0 ==> toks@[0]@.len() > 0,
    ensures
        r is Ok <==> executable_words(toks.deep_view()),
{
    if toks.len() == 0 {
        return Err("Line is empty");
    }
    let w0: &str = toks[0];
    proof {
        assert(toks.deep_view()[0] == toks@[0]@);
    }
    if is_comment_start(w0.get_char(0)) {
        return Err("Line is a comment");
    }
    Ok(())
}


/// Describes the types a token can be (denoted by a `Token`'s `type_`
/// property).
#[derive(Clone, Copy, Debug, PartialEq, Eq, Structural)]
pub enum TokenType {
    KEYWORD,
    REGISTER,
    LITERAL,
}

/// A typed unit of a compiled line. `val` holds a literal's value, a
/// register's table index, or a keyword's opcode-table position, depending
/// on `type_`.
#[derive(Clone, Copy, Debug, PartialEq, Eq, Structural)]
pub struct Token {
    pub type_: TokenType,
    pub val: i32,
}

impl Token {
    /// Builds a token from its type and payload.
    pub fn new(type_: TokenType, val: i32) -> (r: Token)
        ensures
            r == (Token { type_, val }),
    {
        Token { type_, val }
    }
}

/// The lexer word at position `i` holds at least one character.
proof fn lemma_split_ws_word_nonempty(s: Seq<char>, i: int)
    requires
        0 <= i < split_ws(s).len(),
    ensures
        split_ws(s)[i].len() > 0,
    decreases s.len(),
{
    if s.len() == 0 {
    } else if is_space(s[0]) {
        lemma_split_ws_word_nonempty(s.drop_first(), i);
    } else {
        lemma_word_prefix_len(s);
        let rest = s.skip(word_prefix(s).len() as int);
        if i == 0 {
            assert(split_ws(s)[0] == word_prefix(s));
        } else {
            lemma_split_ws_word_nonempty(rest, i - 1);
            assert(split_ws(s)[i] == split_ws(rest)[i - 1]);
        }
    }
}

/// Every word the lexer produces holds at least one character.
pub proof fn lemma_split_ws_words_nonempty(s: Seq<char>)
    ensures
        forall|i: int| 0 <= i < split_ws(s).len() ==> (#[trigger] split_ws(s)[i]).len() > 0,
{
    assert forall|i: int| 0 <= i < split_ws(s).len() implies (#[trigger] split_ws(s)[i]).len()
        > 0 by {
        lemma_split_ws_word_nonempty(s, i);
    }
}

/// What one parameter word resolves to: an integer literal becomes a
/// `LITERAL` token; any other word must name a register already in the
/// table and becomes a `REGISTER` token carrying that register's first
/// index in the table.
pub open spec fn resolve_word(w: Seq<char>, regs: Seq<Seq<char>>) -> Result<Token, ResolveError> {
    if is_int_literal(w) {
        Ok(Token { type_: TokenType::LITERAL, val: lit_value(w) as i32 })
    } else {
        match regs.index_of_first(w) {
            Option::Some(i) => Ok(Token { type_: TokenType::REGISTER, val: i as i32 }),
            Option::None => Err(ResolveError::UnknownRegister),
        }
    }
}

/// What the parameter words from position `j` on resolve to, stopping at
/// the first failure.
pub open spec fn resolve_params(words: Seq<Seq<char>>, j: int, regs: Seq<Seq<char>>) -> Result<
    Seq<Token>,
    ResolveError,
>
    decreases words.len() - j,
{
    if j < 0 || j >= words.len() {
        Ok(Seq::empty())
    } else {
        match resolve_word(words[j], regs) {
            Err(e) => Err(e),
            Ok(t) => match resolve_params(words, j + 1, regs) {
                Err(e) => Err(e),
                Ok(rest) => Ok(seq![t] + rest),
            },
        }
    }
}

/// When every parameter word from `j` on resolves, the fold returns exactly
/// the pointwise resolutions.
proof fn lemma_resolve_params_ok(words: Seq<Seq<char>>, j: int, regs: Seq<Seq<char>>, toks: Seq<Token>)
    requires
        0 <= j <= words.len(),
        toks.len() == words.len() - j,
        forall|i: int| j <= i < words.len() ==> resolve_word(#[trigger] words[i], regs) == Ok::<
            Token,
            ResolveError,
        >(toks[i - j]),
    ensures
        resolve_params(words, j, regs) == Ok::<Seq<Token>, ResolveError>(toks),
    decreases words.len() - j,
{
    if j == words.len() {
        assert(toks =~= Seq::empty());
    } else {
        lemma_resolve_params_ok(words, j + 1, regs, toks.drop_first());
        assert(seq![toks[0]] + toks.drop_first() =~= toks);
    }
}

/// When the parameter word at `e` is the first that fails to resolve, the
/// fold reports that failure.
proof fn lemma_resolve_params_err(
    words: Seq<Seq<char>>,
    j: int,
    e: int,
    regs: Seq<Seq<char>>,
    err: ResolveError,
)
    requires
        0 <= j <= e < words.len(),
        forall|i: int| j <= i < e ==> (resolve_word(#[trigger] words[i], regs)) is Ok,
        resolve_word(words[e], regs) == Err::<Token, ResolveError>(err),
    ensures
        resolve_params(words, j, regs) == Err::<Seq<Token>, ResolveError>(err),
    decreases e - j,
{
    if j < e {
        lemma_resolve_params_err(words, j + 1, e, regs, err);
    }
}

/// What symbol resolution does to a validated word list and the register
/// table: the result of the line, paired with the table afterwards. A `def`
/// line first admits its (legal, fresh) register name to the table; every
/// parameter is then resolved against the updated table.
pub open spec fn resolve_words(words: Seq<Seq<char>>, regs: Seq<Seq<char>>) -> (Result<
    Option<Seq<Token>>,
    CompileError,
>, Seq<Seq<char>>) {
    if validate_words(words) is Err {
        (Err(CompileError::Validation(validate_words(words)->Err_0)), regs)
    } else if !executable_words(words) {
        (Ok(None), regs)
    } else {
        let k = kw_lookup(words[0])->Some_0;
        let regs2 = if k == 0 {
            regs.push(words[1])
        } else {
            regs
        };
        if k == 0 && !valid_regname(words[1]) {
            (Err(CompileError::Resolve(ResolveError::InvalidRegisterName)), regs)
        } else if k == 0 && regs.contains(words[1]) {
            (Err(CompileError::Resolve(ResolveError::DuplicateRegister)), regs)
        } else {
            match resolve_params(words, 1, regs2) {
                Err(e) => (Err(CompileError::Resolve(e)), regs2),
                Ok(params) => (
                    Ok(Some(seq![Token { type_: TokenType::KEYWORD, val: k as i32 }] + params)),
                    regs2,
                ),
            }
        }
    }
}

/// Finds the first position of `name` in the register table.
pub fn find_register(regs: &Vec<String>, name: &str) -> (r: Option<usize>)
    ensures
        match r {
            Some(i) => i < regs@.len() && regs.deep_view().index_of_first(name@) == Some(i as int),
            None => regs.deep_view().index_of_first(name@) is None,
        },
{
    let ghost rs = regs.deep_view();
    proof {
        assert(forall|j: int| 0 <= j < regs@.len() ==> (#[trigger] regs@[j])@ == rs[j]);
        rs.index_of_first_ensures(name@);
    }
    let mut i: usize = 0;
    while i < regs.len()
        invariant
            0 <= i <= regs@.len(),
            rs == regs.deep_view(),
            rs.len() == regs@.len(),
            forall|j: int| 0 <= j < regs@.len() ==> (#[trigger] regs@[j])@ == rs[j],
            forall|j: int| 0 <= j < i ==> rs[j] != name@,
        decreases regs@.len() - i,
    {
        if str_eq(regs[i].as_str(), name) {
            proof {
                rs.index_of_first_ensures(name@);
            }
            return Some(i);
        }
        i += 1;
    }
    proof {
        rs.index_of_first_ensures(name@);
    }
    None
}


/// Turns one source line into tokens. Comment and blank lines resolve to
/// `None`. A `def` line declares its register name, appending it to
/// `existing_regs`; the name stays in the table even when a later parameter
/// of the same line fails to resolve.
pub fn to_tokens(line: &str, existing_regs: &mut Vec<String>) -> (r: Result<
    Option<Vec<Token>>,
    CompileError,
>)
    requires
        old(existing_regs)@.len() < 0x7fff_ffff,
    ensures
        ({
            let pr = resolve_words(split_ws(line@), old(existing_regs).deep_view());
            &&& final(existing_regs).deep_view() == pr.1
            &&& match r {
                Ok(None) => pr.0 == Ok::<Option<Seq<Token>>, CompileError>(None),
                Ok(Some(v)) => pr.0 == Ok::<Option<Seq<Token>>, CompileError>(Some(v@)),
                Err(e) => pr.0 == Err::<Option<Seq<Token>>, CompileError>(e),
            }
        }),
{
    let ghost words = split_ws(line@);
    let ghost regs0 = old(existing_regs).deep_view();
    let str_toks = tokenize_line(line);
    proof {
        lemma_split_ws_words_nonempty(line@);
    }
    if let Err(problem) = line_valid(&str_toks) {
        return Err(CompileError::Validation(problem));
    }
    if worth_execution(&str_toks).is_err() {
        return Ok(None);
    }
    let k = match keyword_index(str_toks[0]) {
        Some(k) => k,
        None => {
            proof {
                assert(false);
            }
            return Ok(None);
        },
    };
    // A `def` line admits its register name to the table before any
    // parameter is resolved, so the new name may appear on the same line.
    if k == 0 {
        let name: &str = str_toks[1];
        if regname_valid(name).is_err() {
            return Err(CompileError::Resolve(ResolveError::InvalidRegisterName));
        }
        let dup = find_register(existing_regs, name);
        proof {
            regs0.index_of_first_ensures(words[1]);
        }
        if dup.is_some() {
            return Err(CompileError::Resolve(ResolveError::DuplicateRegister));
        }
        existing_regs.push(name.to_owned());
        proof {
            assert(existing_regs.deep_view() =~= regs0.push(words[1]));
        }
    }
    let ghost regs2 = existing_regs.deep_view();
    let mut output: Vec<Token> = Vec::new();
    output.push(Token::new(TokenType::KEYWORD, k as i32));
    let mut index: usize = 1;
    while index < str_toks.len()
        invariant
            1 <= index <= str_toks@.len(),
            k < 12,
            words == str_toks.deep_view(),
            words == split_ws(line@),
            forall|i: int| 0 <= i < str_toks@.len() ==> (#[trigger] str_toks@[i])@ == words[i],
            regs2 == existing_regs.deep_view(),
            regs2.len() < 0x8000_0000,
            regs0 == old(existing_regs).deep_view(),
            validate_words(words) is Ok,
            executable_words(words),
            kw_lookup(words[0]) == Some(k as int),
            k == 0 ==> valid_regname(words[1]) && !regs0.contains(words[1]) && regs2 == regs0.push(
                words[1],
            ),
            k != 0 ==> regs2 == regs0,
            output@.len() == index,
            output@[0] == (Token { type_: TokenType::KEYWORD, val: k as i32 }),
            forall|i: int| 1 <= i < index ==> resolve_word(#[trigger] words[i], regs2) == Ok::<
                Token,
                ResolveError,
            >(output@[i]),
        decreases str_toks@.len() - index,
    {
        let w: &str = str_toks[index];
        match is_literal(w) {
            Ok(val) => {
                output.push(Token::new(TokenType::LITERAL, val));
            },
            Err(()) => {
                match find_register(existing_regs, w) {
                    Some(regindex) => {
                        output.push(Token::new(TokenType::REGISTER, regindex as i32));
                    },
                    None => {
                        proof {
                            lemma_resolve_params_err(
                                words,
                                1,
                                index as int,
                                regs2,
                                ResolveError::UnknownRegister,
                            );
                        }
                        return Err(CompileError::Resolve(ResolveError::UnknownRegister));
                    },
                }
            },
        }
        index += 1;
    }
    proof {
        lemma_resolve_params_ok(words, 1, regs2, output@.skip(1));
        assert(seq![Token { type_: TokenType::KEYWORD, val: k as i32 }] + output@.skip(1)
            =~= output@);
    }
    Ok(Some(output))
}


/// Returns the first position in `slice` where `==` answers true against
/// `item`. When the element type's `==` follows its specification, the
/// position found is exactly the first specified match.
pub fn index_of<T: PartialEq>(slice: &[T], item: &T) -> (r: Option<usize>)
    ensures
        T::obeys_eq_spec() ==> match r {
            Some(i) => {
                &&& i < slice@.len()
                &&& T::eq_spec(&slice@[i as int], item)
                &&& forall|j: int| 0 <= j < i ==> !T::eq_spec(&slice@[j], item)
            },
            None => forall|j: int| 0 <= j < slice@.len() ==> !T::eq_spec(&slice@[j], item),
        },
{
    let mut i: usize = 0;
    while i < slice.len()
        invariant
            0 <= i <= slice@.len(),
            T::obeys_eq_spec() ==> forall|j: int| 0 <= j < i ==> !T::eq_spec(&slice@[j], item),
        decreases slice@.len() - i,
    {
        if slice[i] == *item {
            return Some(i);
        }
        i += 1;
    }
    None
}


/// Evaluates a raw word against a register table and its value store: an
/// integer literal evaluates to itself, and any other word must be a legal
/// name of a known register and evaluates to that register's value.
pub fn evaluate_val(tok: &str, names: &Vec<String>, store: &Vec<i32>) -> (r: Result<
    i32,
    ResolveError,
>)
    requires
        names@.len() == store@.len(),
    ensures
        is_int_literal(tok@) ==> r == Ok::<i32, ResolveError>(lit_value(tok@) as i32),
        !is_int_literal(tok@) && !valid_regname(tok@) ==> r == Err::<i32, ResolveError>(
            ResolveError::InvalidRegisterName,
        ),
        !is_int_literal(tok@) && valid_regname(tok@) ==> match names.deep_view().index_of_first(
            tok@,
        ) {
            Some(i) => r == Ok::<i32, ResolveError>(store@[i]),
            None => r == Err::<i32, ResolveError>(ResolveError::UnknownRegister),
        },
{
    match is_literal(tok) {
        Ok(val) => Ok(val),
        Err(()) => {
            if regname_valid(tok).is_err() {
                return Err(ResolveError::InvalidRegisterName);
            }
            match find_register(names, tok) {
                Some(i) => Ok(store[i]),
                None => Err(ResolveError::UnknownRegister),
            }
        },
    }
}


/// What compiling a sequence of source lines yields: the final register
/// table and the instructions of the executable lines, in order, stopping
/// at the first line that fails.
pub open spec fn compile_lines(lines: Seq<Seq<char>>, regs: Seq<Seq<char>>) -> Result<
    (Seq<Seq<char>>, Seq<Seq<Token>>),
    CompileError,
>
    decreases lines.len(),
{
    if lines.len() == 0 {
        Ok((regs, Seq::empty()))
    } else {
        let pr = resolve_words(split_ws(lines[0]), regs);
        match pr.0 {
            Err(e) => Err(e),
            Ok(opt) => match compile_lines(lines.drop_first(), pr.1) {
                Err(e) => Err(e),
                Ok((rf, insns)) => match opt {
                    Option::None => Ok((rf, insns)),
                    Option::Some(toks) => Ok((rf, seq![toks] + insns)),
                },
            },
        }
    }
}

} // verus!
