use relly::tuple::{decode, encode, Pretty};
use std::fmt;

#[test]
fn tuple_roundtrip() {
    let elems: Vec<&[u8]> = vec![b"hello", b"", b"world!!!!", b"\x00\xff"];
    let mut bytes = vec![];
    encode(&elems, &mut bytes);
    let mut out = vec![];
    decode(&bytes, &mut out);
    let expected: Vec<Vec<u8>> = elems.iter().map(|e| e.to_vec()).collect();
    assert_eq!(out, expected);
}

#[test]
fn tuple_empty() {
    let elems: Vec<&[u8]> = vec![];
    let mut bytes = vec![];
    encode(&elems, &mut bytes);
    assert!(bytes.is_empty());
    let mut out: Vec<Vec<u8>> = vec![b"kept".to_vec()];
    decode(&bytes, &mut out);
    assert_eq!(out, vec![b"kept".to_vec()]);
}

#[test]
fn tuple_order_is_element_order() {
    let tuples: Vec<Vec<&[u8]>> = vec![
        vec![],
        vec![b""],
        vec![b"", b"a"],
        vec![b"a"],
        vec![b"a", b""],
        vec![b"a", b"b"],
        vec![b"ab"],
        vec![b"b"],
    ];
    for t in &tuples {
        for u in &tuples {
            let mut et = vec![];
            encode(t, &mut et);
            let mut eu = vec![];
            encode(u, &mut eu);
            assert_eq!(t.cmp(u), et.cmp(&eu));
        }
    }
}

/// Text shown as it is.
struct Raw(String);

impl fmt::Debug for Raw {
    fn fmt(&self, f: &mut fmt::Formatter<'_>) -> fmt::Result {
        f.write_str(&self.0)
    }
}

/// Bytes in brackets, each as two hexadecimal digits, separated by spaces.
fn hex(bytes: &[u8]) -> String {
    let digits: Vec<String> = bytes.iter().map(|b| format!("{:02x}", b)).collect();
    format!("[{}]", digits.join(" "))
}

/// The readable form written with std's formatter, field by field.
struct Reference<'a>(&'a [Vec<u8>]);

impl<'a> fmt::Debug for Reference<'a> {
    fn fmt(&self, f: &mut fmt::Formatter<'_>) -> fmt::Result {
        let mut d = f.debug_tuple("Tuple");
        for elem in self.0 {
            let bytes = elem.as_slice();
            match std::str::from_utf8(bytes) {
                Ok(s) => {
                    d.field(&Raw(format!("{:?} {}", s, hex(bytes))));
                }
                Err(_) => {
                    d.field(&Raw(hex(bytes)));
                }
            }
        }
        d.finish()
    }
}

#[test]
fn pretty_shows_strings_and_bytes() {
    let t = vec![b"hello".to_vec(), vec![0xff, 0xfe, 0xfd]];
    assert_eq!(
        Pretty(&t).to_string(),
        "Tuple(\"hello\" [68 65 6c 6c 6f], [ff fe fd])"
    );
}

#[test]
fn pretty_matches_std_formatting() {
    let cases: Vec<Vec<Vec<u8>>> = vec![
        vec![],
        vec![vec![]],
        vec![b"a\"b\\c\n".to_vec(), vec![0, 1, 0x10]],
        vec!["日本".as_bytes().to_vec(), vec![0xc3], b"x".to_vec()],
    ];
    for t in &cases {
        assert_eq!(Pretty(t).to_string(), format!("{:?}", Reference(t)));
    }
}
