use bunker::codec::{decode, encode};
use bunker::types::EncryptedValue;

fn value(nonce: &[u8], ciphertext: &[u8], salt: &[u8]) -> EncryptedValue {
    EncryptedValue { nonce: nonce.to_vec(), ciphertext: ciphertext.to_vec(), salt: salt.to_vec() }
}

#[test]
fn encode_writes_the_three_lists_without_white_space() {
    let v = value(&[1, 2, 3], &[0, 10, 255], &[99]);
    assert_eq!(
        encode(&v),
        br#"{"nonce":[1,2,3],"ciphertext":[0,10,255],"salt":[99]}"#.to_vec()
    );
}

#[test]
fn encode_of_empty_lists() {
    let v = value(&[], &[], &[]);
    assert_eq!(encode(&v), br#"{"nonce":[],"ciphertext":[],"salt":[]}"#.to_vec());
}

#[test]
fn decode_reads_what_encode_wrote() {
    let all: Vec<u8> = (0..=255).collect();
    for v in [
        value(&[], &[], &[]),
        value(&[0], &[100], &[255]),
        value(&[9; 12], &all, &[7; 32]),
    ] {
        assert_eq!(decode(&encode(&v)), Some(v));
    }
}

#[test]
fn decode_of_a_written_document() {
    assert_eq!(
        decode(br#"{"nonce":[12,0],"ciphertext":[],"salt":[200,1,20]}"#),
        Some(value(&[12, 0], &[], &[200, 1, 20]))
    );
}

#[test]
fn decode_refuses_what_is_no_document() {
    let bad: [&[u8]; 14] = [
        b"",
        b"{}",
        br#"{"nonce":[1],"ciphertext":[2],"salt":[3]"#,
        br#"{"nonce":[1],"ciphertext":[2],"salt":[3]} "#,
        br#"{"nonce":[1],"salt":[3],"ciphertext":[2]}"#,
        br#"{"nonce":[256],"ciphertext":[2],"salt":[3]}"#,
        br#"{"nonce":[01],"ciphertext":[2],"salt":[3]}"#,
        br#"{"nonce":[1,],"ciphertext":[2],"salt":[3]}"#,
        br#"{"nonce":[,1],"ciphertext":[2],"salt":[3]}"#,
        br#"{"nonce":[1 ,2],"ciphertext":[2],"salt":[3]}"#,
        br#"{"nonce":[-1],"ciphertext":[2],"salt":[3]}"#,
        br#"{"nonce":[1000],"ciphertext":[2],"salt":[3]}"#,
        br#"{"nonce":1,"ciphertext":[2],"salt":[3]}"#,
        br#"{"nonce":[1],"ciphertext":[2],"salt":[3"#,
    ];
    for text in bad {
        assert_eq!(decode(text), None);
    }
}

#[test]
fn decode_takes_the_largest_and_smallest_bytes() {
    assert_eq!(
        decode(br#"{"nonce":[0,255],"ciphertext":[9,10,99,100],"salt":[199,200,249,250]}"#),
        Some(value(&[0, 255], &[9, 10, 99, 100], &[199, 200, 249, 250]))
    );
}
