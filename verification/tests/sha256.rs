//! The hash a project directory goes by.
use taimux::sha256::hex;

#[test]
fn the_published_vectors_come_out() {
    assert_eq!(
        hex(b""),
        "e3b0c44298fc1c149afbf4c8996fb92427ae41e4649b934ca495991b7852b855"
    );
    assert_eq!(
        hex(b"abc"),
        "ba7816bf8f01cfea414140de5dae2223b00361a396177a9cb410ff61f20015ad"
    );
    assert_eq!(
        hex(b"abcdbcdecdefdefgefghfghighijhijkijkljklmklmnlmnomnopnopq"),
        "248d6a61d20638b8e5c026930c3e6039a33ce45964ff2167f6ecedd419db06c1"
    );
}

/// A message that fills its block exactly, and one that leaves no room for its
/// length, each take a block more.
#[test]
fn the_padding_goes_over_into_a_block_of_its_own() {
    for n in [55usize, 56, 63, 64, 65, 119, 120] {
        assert_eq!(hex(&vec![0x61; n]).len(), 64, "{n}");
    }
    assert_eq!(
        hex(&vec![0x61; 1_000]),
        "41edece42d63e8d9bf515a9ba6932e1c20cbc9f5a5d134645adb5db1b9737ea3"
    );
}
