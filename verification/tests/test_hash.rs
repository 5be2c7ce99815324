use cqdb::jhash;

#[test]
fn hash_of_nothing_is_the_seed() {
    assert_eq!(jhash(b"", 0, 0), 0xdeadbeef);
}

#[test]
fn hash_reference_values() {
    let text = b"Four score and seven years ago";
    assert_eq!(jhash(text, 30, 0), 0x17770551);
    assert_eq!(jhash(text, 30, 1), 0xcd628161);
}

#[test]
fn hash_depends_on_every_byte_and_on_the_length() {
    let a = jhash(b"0123456789ab", 12, 0);
    let b = jhash(b"0123456789ac", 12, 0);
    let c = jhash(b"0123456789ab\0", 13, 0);
    let d = jhash(b"0123456789ab", 13, 0);
    assert_ne!(a, b);
    assert_ne!(a, c);
    assert_ne!(c, d);
    assert_ne!(a, d);
}

#[test]
fn hash_of_terminated_keys() {
    // the empty key and a short one: a single last block
    assert_eq!(jhash(b"\0", 1, 0), 0x8ba9414b);
    assert_eq!(jhash(b"a\0", 2, 0), 0x42b17671);
    assert_eq!(jhash(b"00000000\0", 9, 0), 0x7624bf55);
    assert_eq!(jhash(b"00000042\0", 9, 0), 0x49482d83);
    // twelve bytes and the terminator: one block is mixed, and the
    // terminator alone is left for the last round
    assert_eq!(jhash(b"twelve bytes\0", 13, 0), 0x6c09e2c4);
    // twenty-four bytes and the terminator: two blocks are mixed
    assert_eq!(jhash(b"twenty-four bytes long..\0", 25, 0), 0xe8ea2acf);
}

#[test]
fn hash_at_the_block_boundary() {
    // exactly twelve bytes are a last block and are not mixed
    assert_eq!(jhash(b"0123456789ab", 12, 0), 0x1065e50a);
    // thirteen bytes are one mixed block and a last block of one byte
    assert_eq!(jhash(b"0123456789abc", 13, 0), 0x7351ce56);
}

#[test]
fn absorb_adds_little_endian_words() {
    let block = [1u8, 2, 3, 4, 5, 6, 7, 8, 9, 10, 11, 12, 0xff];
    assert_eq!(
        cqdb::hash::absorb(&block, 0, 0, 0),
        (0x0403_0201, 0x0807_0605, 0x0c0b_0a09)
    );
    // missing bytes count as zeros, and the additions wrap
    assert_eq!(cqdb::hash::absorb(&[0xff, 0xff, 0xff, 0xff, 1], 2, 10, 20), (1, 11, 20));
    assert_eq!(cqdb::hash::absorb(&[], 7, 8, 9), (7, 8, 9));
}

#[test]
fn hash_is_the_same_on_every_call() {
    for key in [&b"a"[..], b"0123456789abcdef", b"", b"\0"] {
        assert_eq!(jhash(key, key.len() as u32, 0), jhash(key, key.len() as u32, 0));
    }
}
