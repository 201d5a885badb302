use nom::IResult;
use sembler::lexer::{is_id_char, scan_hex, scan_run, ByteClass};

const SAMPLES: [&[u8]; 14] = [
    b"",
    b" ",
    b" \t\r\n x",
    b"x  ",
    b"0",
    b"12345abc",
    b"abcdef0123456789abcdef",
    b"ABCDEF",
    b"00000000ff",
    b"deadbeef ",
    b"ffffffff",
    b"1234567",
    b"g",
    b"\n\n\n",
];

fn taken(input: &[u8], result: IResult<&[u8], &[u8]>) -> usize {
    match result {
        IResult::Done(rest, found) => {
            assert_eq!(rest.len() + found.len(), input.len());
            found.len()
        }
        _ => 0,
    }
}

#[test]
fn blank_runs_are_those_of_multispace() {
    for input in SAMPLES {
        assert_eq!(scan_run(input, 0, ByteClass::Blank), taken(input, nom::multispace(input)));
    }
}

#[test]
fn digit_runs_are_those_of_digit() {
    for input in SAMPLES {
        assert_eq!(scan_run(input, 0, ByteClass::Digit), taken(input, nom::digit(input)));
    }
}

#[test]
fn identifier_bytes_are_alphanumeric_or_underscore() {
    for byte in 0..=255u8 {
        assert_eq!(is_id_char(byte), nom::is_alphanumeric(byte) || byte == b'_');
    }
}

#[test]
fn hexadecimal_numbers_are_those_of_hex_u32() {
    for input in SAMPLES {
        let mut source = b"0x".to_vec();
        source.extend_from_slice(input);
        let expected = match nom::hex_u32(input) {
            IResult::Done(rest, value) if rest.len() < input.len() => {
                Some((value, 2 + input.len() - rest.len()))
            }
            _ => None,
        };
        assert_eq!(scan_hex(&source, 0), expected);
    }
}
