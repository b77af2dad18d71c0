// Bytes as base64 text and back.

use rustc_serialize::base64::{
    mime, standard, url_safe, CharacterSet, Config, FromBase64, FromBase64Error, Newline,
    ToBase64,
};

#[test]
fn test_to_base64_basic() {
    assert_eq!("".as_bytes().to_base64(standard()), "");
    assert_eq!("f".as_bytes().to_base64(standard()), "Zg==");
    assert_eq!("fo".as_bytes().to_base64(standard()), "Zm8=");
    assert_eq!("foo".as_bytes().to_base64(standard()), "Zm9v");
    assert_eq!("foob".as_bytes().to_base64(standard()), "Zm9vYg==");
    assert_eq!("fooba".as_bytes().to_base64(standard()), "Zm9vYmE=");
    assert_eq!("foobar".as_bytes().to_base64(standard()), "Zm9vYmFy");
}

#[test]
fn test_to_base64_crlf_line_break() {
    assert!(![0u8; 1000].to_base64(Config { line_length: None, ..standard() }).contains("\r\n"));
    assert_eq!(
        b"foobar".to_base64(Config { line_length: Some(4), ..standard() }),
        "Zm9v\r\nYmFy"
    );
}

#[test]
fn test_to_base64_lf_line_break() {
    assert!(![0u8; 1000]
        .to_base64(Config { line_length: None, newline: Newline::LF, ..standard() })
        .contains("\n"));
    assert_eq!(
        b"foobar".to_base64(Config { line_length: Some(4), newline: Newline::LF, ..standard() }),
        "Zm9v\nYmFy"
    );
}

#[test]
fn test_to_base64_line_break_before_tail() {
    assert_eq!(
        b"foobarb".to_base64(Config { line_length: Some(8), newline: Newline::LF, ..standard() }),
        "Zm9vYmFy\nYg=="
    );
    assert_eq!(
        b"foobarba".to_base64(Config { line_length: Some(5), newline: Newline::LF, ..standard() }),
        "Zm9vYmFy\nYmE="
    );
    assert_eq!(
        b"foobar".to_base64(Config { line_length: Some(0), newline: Newline::LF, ..standard() }),
        "\nZm9v\nYmFy"
    );
    let long = [0u8; 60].to_base64(mime());
    assert_eq!(long.len(), 80 + 2);
    assert_eq!(&long[76..78], "\r\n");
}

#[test]
fn test_to_base64_padding() {
    assert_eq!("f".as_bytes().to_base64(Config { pad: false, ..standard() }), "Zg");
    assert_eq!("fo".as_bytes().to_base64(Config { pad: false, ..standard() }), "Zm8");
}

#[test]
fn test_to_base64_url_safe() {
    assert_eq!([251, 255].to_base64(url_safe()), "-_8");
    assert_eq!([251, 255].to_base64(standard()), "+/8=");
}

#[test]
fn test_base64_configurations() {
    assert_eq!(standard().char_set, CharacterSet::Standard);
    assert_eq!(url_safe().char_set, CharacterSet::UrlSafe);
    assert_eq!(standard().line_length, None);
    assert_eq!(mime().line_length, Some(76));
    assert!(standard().pad && mime().pad && !url_safe().pad);
    assert_eq!(mime().newline, Newline::CRLF);
}

#[test]
fn test_from_base64_basic() {
    assert_eq!("".from_base64().unwrap(), b"");
    assert_eq!("Zg==".from_base64().unwrap(), b"f");
    assert_eq!("Zm8=".from_base64().unwrap(), b"fo");
    assert_eq!("Zm9v".from_base64().unwrap(), b"foo");
    assert_eq!("Zm9vYg==".from_base64().unwrap(), b"foob");
    assert_eq!("Zm9vYmE=".from_base64().unwrap(), b"fooba");
    assert_eq!("Zm9vYmFy".from_base64().unwrap(), b"foobar");
}

#[test]
fn test_from_base64_bytes() {
    assert_eq!(b"Zm9vYmFy".from_base64().unwrap(), b"foobar");
}

#[test]
fn test_from_base64_newlines() {
    assert_eq!("Zm9v\r\nYmFy".from_base64().unwrap(), b"foobar");
    assert_eq!("Zm9vYg==\r\n".from_base64().unwrap(), b"foob");
    assert_eq!("Zm9v\nYmFy".from_base64().unwrap(), b"foobar");
    assert_eq!("Zm9vYg==\n".from_base64().unwrap(), b"foob");
}

#[test]
fn test_from_base64_urlsafe() {
    assert_eq!("-_8".from_base64().unwrap(), "+/8=".from_base64().unwrap());
}

#[test]
fn test_from_base64_invalid_char() {
    assert!("Zm$=".from_base64().is_err());
    assert!("Zg==$".from_base64().is_err());
    assert_eq!("Zm$=".from_base64(), Err(FromBase64Error::InvalidBase64Byte(b'$', 2)));
    assert_eq!("Zg==$".from_base64(), Err(FromBase64Error::InvalidBase64Byte(b'$', 4)));
    assert_eq!("Zg=Z".from_base64(), Err(FromBase64Error::InvalidBase64Byte(b'Z', 3)));
    assert_eq!("Z$".from_base64(), Err(FromBase64Error::InvalidBase64Byte(b'$', 1)));
}

#[test]
fn test_from_base64_invalid_padding() {
    assert!("Z===".from_base64().is_err());
    assert_eq!("Z===".from_base64(), Err(FromBase64Error::InvalidBase64Length));
    assert_eq!("Zm9vY".from_base64(), Err(FromBase64Error::InvalidBase64Length));
    assert_eq!("Zm8".from_base64().unwrap(), b"fo");
    assert_eq!("Zg".from_base64().unwrap(), b"f");
}

#[test]
fn test_base64_random() {
    // A fixed sequence of bytes that looks random enough.
    let mut state: u32 = 12345;
    for round in 0..1000 {
        let times = 1 + (round % 99);
        let mut v = Vec::new();
        for _ in 0..times {
            state = state.wrapping_mul(1103515245).wrapping_add(12345);
            v.push((state >> 16) as u8);
        }
        assert_eq!(v.to_base64(standard()).from_base64().unwrap(), v);
        assert_eq!(v.to_base64(url_safe()).from_base64().unwrap(), v);
        assert_eq!(v.to_base64(mime()).from_base64().unwrap(), v);
    }
}
