use downloads_history::digest::{hash_preview, Sha256Stream};

#[test]
fn empty_input_digest() {
    let h = Sha256Stream::new();
    assert_eq!(
        h.finish_hex(),
        "e3b0c44298fc1c149afbf4c8996fb92427ae41e4649b934ca495991b7852b855"
    );
}

#[test]
fn abc_digest() {
    let mut h = Sha256Stream::new();
    h.update(b"abc");
    assert_eq!(
        h.finish_hex(),
        "ba7816bf8f01cfea414140de5dae2223b00361a396177a9cb410ff61f20015ad"
    );
}

#[test]
fn chunking_does_not_change_the_digest() {
    let data: Vec<u8> = (0..5000u32).map(|i| (i * 7 % 251) as u8).collect();
    let mut whole = Sha256Stream::new();
    whole.update(&data);
    let mut pieces = Sha256Stream::new();
    for chunk in data.chunks(333) {
        pieces.update(chunk);
    }
    pieces.update(&[]);
    let a = whole.finish_hex();
    let b = pieces.finish_hex();
    assert_eq!(a, b);
    assert_eq!(a.len(), 64);
    assert!(a.chars().all(|c| c.is_ascii_digit() || ('a'..='f').contains(&c)));
}

#[test]
fn preview_takes_sixteen_bytes() {
    let sha = "ba7816bf8f01cfea414140de5dae2223b00361a396177a9cb410ff61f20015ad";
    assert_eq!(hash_preview(sha), "ba7816bf8f01cfea");
    assert_eq!(hash_preview("0123456789abcdef"), "0123456789abcdef");
    assert_eq!(hash_preview("ééééééééxyz"), "éééééééé");
}
