//! Message digests.

use vp9dec::md5::{md5, to_hex};

fn hex_of(data: &[u8]) -> String {
    to_hex(&md5(data))
}

#[test]
fn empty_string() {
    assert_eq!(hex_of(b""), "d41d8cd98f00b204e9800998ecf8427e");
}

#[test]
fn abc() {
    assert_eq!(hex_of(b"abc"), "900150983cd24fb0d6963f7d28e17f72");
}

#[test]
fn message_digest() {
    assert_eq!(
        hex_of(b"message digest"),
        "f96b697d7cb7938d525a2f31aaf161d0"
    );
}

#[test]
fn alphabet() {
    assert_eq!(
        hex_of(b"abcdefghijklmnopqrstuvwxyz"),
        "c3fcd3d76192e4007dfb496cca67e13b"
    );
}

#[test]
fn alphanumeric() {
    assert_eq!(
        hex_of(b"ABCDEFGHIJKLMNOPQRSTUVWXYZabcdefghijklmnopqrstuvwxyz0123456789"),
        "d174ab98d277d9f5a5611c2c9f419d9f"
    );
}

#[test]
fn eighty_digits() {
    assert_eq!(
        hex_of(
            b"12345678901234567890123456789012345678901234567890123456789012345678901234567890"
        ),
        "57edf4a22be3c955ac49da2e2107b67a"
    );
}

#[test]
fn exactly_one_block() {
    let data = vec![b'a'; 64];
    let d1 = md5(&data);
    let d2 = md5(&data);
    assert_eq!(d1, d2);
}

#[test]
fn lengths_round_a_block() {
    assert_eq!(hex_of(&vec![b'a'; 55]), "ef1772b6dff9a122358552954ad0df65");
    assert_eq!(hex_of(&vec![b'a'; 56]), "3b0c8ac703f828b04c6c197006d17218");
    assert_eq!(hex_of(&vec![b'a'; 64]), "014842d480b571495a4a0363793f7367");
    assert_eq!(to_hex(&[0, 0x0f, 0xf0, 0xff, 1, 2, 3, 4, 5, 6, 7, 8, 9, 10, 11, 12]), "000ff0ff0102030405060708090a0b0c");
}
