use assembunny_plus::bytecode::{from_bytecode, to_bytecode, DecodeError};
use assembunny_plus::parser::{CompileError, ResolveError, Token, TokenType};

fn record(tag: u8, val: i32) -> Vec<u8> {
    let mut rec = vec![tag];
    rec.extend_from_slice(&val.to_be_bytes());
    rec
}

#[test]
fn token_records_are_five_big_endian_bytes() {
    let t = Token { type_: TokenType::KEYWORD, val: 5 };
    assert_eq!(t.to_bytearray(), vec![0, 0, 0, 0, 5]);
    let t = Token { type_: TokenType::REGISTER, val: 258 };
    assert_eq!(t.to_bytearray(), vec![1, 0, 0, 1, 2]);
    let t = Token { type_: TokenType::LITERAL, val: -1 };
    assert_eq!(t.to_bytearray(), vec![2, 255, 255, 255, 255]);
    let t = Token { type_: TokenType::LITERAL, val: i32::MIN };
    assert_eq!(t.to_bytearray(), vec![2, 128, 0, 0, 0]);
}

#[test]
fn token_records_read_back() {
    for val in [0, 1, -1, 5, 258, i32::MAX, i32::MIN] {
        for type_ in [TokenType::KEYWORD, TokenType::REGISTER, TokenType::LITERAL] {
            let t = Token { type_, val };
            assert_eq!(Token::from_bytearray(&t.to_bytearray()), Ok(t));
        }
    }
}

#[test]
fn short_or_ragged_records_are_rejected() {
    assert_eq!(
        Token::from_bytearray(&[0, 0, 0]),
        Err(DecodeError::TruncatedRecord)
    );
    assert_eq!(
        Token::from_bytearray(&[7, 0, 0, 0, 1]),
        Err(DecodeError::InvalidTag)
    );
}

#[test]
fn images_carry_a_32_byte_header_then_records() {
    let bytes = to_bytecode(&vec!["def a 5", "inc a"]).unwrap();
    let mut expected: Vec<u8> = vec![0, 0, 0, 1];
    expected.extend_from_slice(&[0u8; 28]);
    expected.extend(record(0, 0)); // def
    expected.extend(record(1, 0)); // register a
    expected.extend(record(2, 5)); // literal 5
    expected.extend(record(0, 1)); // inc
    expected.extend(record(1, 0)); // register a
    assert_eq!(bytes, expected);
}

#[test]
fn comments_do_not_reach_the_image() {
    let with = to_bytecode(&vec!["# hello", "def a 5", "", "; done"]).unwrap();
    let without = to_bytecode(&vec!["def a 5"]).unwrap();
    assert_eq!(with, without);
}

#[test]
fn decode_undoes_encode() {
    let source = vec![
        "def a 5",
        "def b -3",
        "inct a b",
        "mul a 2",
        "cpy a b",
        "jnz b -2",
        "outn a",
    ];
    let bytes = to_bytecode(&source).unwrap();
    let (reg_count, prog) = from_bytecode(&bytes).unwrap();
    assert_eq!(reg_count, 2);
    assert_eq!(prog.len(), 7);
    assert_eq!(prog[0][0], Token { type_: TokenType::KEYWORD, val: 0 });
    assert_eq!(prog[2][2], Token { type_: TokenType::REGISTER, val: 1 });
    assert_eq!(prog[5][2], Token { type_: TokenType::LITERAL, val: -2 });
    // Encoding what was decoded gives the same image back.
    let lines_again = from_bytecode(&to_bytecode(&source).unwrap()).unwrap();
    assert_eq!(lines_again.1, prog);
}

#[test]
fn a_short_header_is_corrupt() {
    assert_eq!(from_bytecode(&vec![]), Err(DecodeError::CorruptHeader));
    assert_eq!(from_bytecode(&vec![0u8; 31]), Err(DecodeError::CorruptHeader));
}

#[test]
fn a_ragged_body_is_truncated() {
    // 32 header bytes plus a body that is not a whole number of records.
    for extra in [1usize, 2, 3, 4, 6, 7, 8, 9, 11] {
        let mut bytes = vec![0u8; 32];
        bytes.extend(std::iter::repeat(0u8).take(extra));
        assert_eq!(
            from_bytecode(&bytes),
            Err(DecodeError::TruncatedRecord),
            "body of {} bytes",
            extra
        );
    }
}

#[test]
fn an_empty_body_decodes_to_an_empty_program() {
    let mut bytes = vec![0, 0, 0, 7];
    bytes.extend_from_slice(&[0u8; 28]);
    let (reg_count, prog) = from_bytecode(&bytes).unwrap();
    assert_eq!(reg_count, 7);
    assert!(prog.is_empty());
}

#[test]
fn a_leading_non_keyword_record_is_an_orphan() {
    let mut bytes = vec![0, 0, 0, 1];
    bytes.extend_from_slice(&[0u8; 28]);
    bytes.extend(record(1, 0)); // a register record with no instruction
    assert_eq!(from_bytecode(&bytes), Err(DecodeError::OrphanToken));
}

#[test]
fn a_bad_tag_is_rejected_wherever_it_sits() {
    let mut bytes = vec![0, 0, 0, 1];
    bytes.extend_from_slice(&[0u8; 28]);
    bytes.extend(record(0, 1));
    bytes.extend(record(3, 0));
    assert_eq!(from_bytecode(&bytes), Err(DecodeError::InvalidTag));
}

#[test]
fn compile_failures_pass_through_to_bytecode() {
    assert_eq!(
        to_bytecode(&vec!["def a 0", "inc zz"]),
        Err(CompileError::Resolve(ResolveError::UnknownRegister))
    );
}
