use solo_chess::kitty::{base64_encode, clear_placements, place_image, transmit_image};
use solo_chess::text::fmt_clock;

#[test]
fn base64_rfc4648_vectors() {
    assert_eq!(base64_encode(b""), "");
    assert_eq!(base64_encode(b"f"), "Zg==");
    assert_eq!(base64_encode(b"fo"), "Zm8=");
    assert_eq!(base64_encode(b"foo"), "Zm9v");
    assert_eq!(base64_encode(b"foob"), "Zm9vYg==");
    assert_eq!(base64_encode(b"fooba"), "Zm9vYmE=");
    assert_eq!(base64_encode(b"foobar"), "Zm9vYmFy");
}

#[test]
fn base64_high_bytes_and_length() {
    assert_eq!(base64_encode(&[0xff, 0xfe, 0xfd]), "//79");
    assert_eq!(base64_encode(&[0xfb, 0xff]), "+/8=");
    for n in 0..20usize {
        let data: Vec<u8> = (0..n as u8).collect();
        assert_eq!(base64_encode(&data).len(), 4 * ((n + 2) / 3));
    }
}

#[test]
fn place_image_command() {
    let mut buf = b"x".to_vec();
    place_image(&mut buf, 3, 6, 3);
    assert_eq!(buf, b"x\x1b_Ga=p,i=3,c=6,r=3,q=2\x1b\\".to_vec());
    let mut big = Vec::new();
    place_image(&mut big, 4294967295, 10, 0);
    assert_eq!(big, b"\x1b_Ga=p,i=4294967295,c=10,r=0,q=2\x1b\\".to_vec());
}

#[test]
fn clear_placements_command() {
    let mut buf = Vec::new();
    clear_placements(&mut buf);
    assert_eq!(buf, b"\x1b_Ga=d,d=a,q=2\x1b\\".to_vec());
}

#[test]
fn transmit_small_image_in_one_chunk() {
    let mut buf = Vec::new();
    transmit_image(&mut buf, 7, b"foo");
    assert_eq!(buf, b"\x1b_Gf=100,a=t,t=d,i=7,q=2,m=0;Zm9v\x1b\\".to_vec());
}

#[test]
fn transmit_empty_image_sends_nothing() {
    let mut buf = b"keep".to_vec();
    transmit_image(&mut buf, 1, b"");
    assert_eq!(buf, b"keep".to_vec());
}

#[test]
fn transmit_large_image_in_chunks() {
    // 3075 bytes give 4100 Base64 characters: a full chunk and a 4-byte one.
    let data = vec![0u8; 3075];
    let b64 = base64_encode(&data);
    assert_eq!(b64.len(), 4100);
    let mut buf = Vec::new();
    transmit_image(&mut buf, 2, &data);
    let mut expected = b"\x1b_Gf=100,a=t,t=d,i=2,q=2,m=1;".to_vec();
    expected.extend_from_slice(&b64.as_bytes()[..4096]);
    expected.extend_from_slice(b"\x1b\\\x1b_Gm=0;");
    expected.extend_from_slice(&b64.as_bytes()[4096..]);
    expected.extend_from_slice(b"\x1b\\");
    assert_eq!(buf, expected);
}

#[test]
fn transmit_exactly_one_full_chunk() {
    let data = vec![1u8; 3072];
    let mut buf = Vec::new();
    transmit_image(&mut buf, 9, &data);
    let b64 = base64_encode(&data);
    assert_eq!(b64.len(), 4096);
    let mut expected = b"\x1b_Gf=100,a=t,t=d,i=9,q=2,m=0;".to_vec();
    expected.extend_from_slice(b64.as_bytes());
    expected.extend_from_slice(b"\x1b\\");
    assert_eq!(buf, expected);
}

#[test]
fn clock_formatting() {
    assert_eq!(fmt_clock(0), "00:00");
    assert_eq!(fmt_clock(5), "00:05");
    assert_eq!(fmt_clock(65), "01:05");
    assert_eq!(fmt_clock(600), "10:00");
    assert_eq!(fmt_clock(6000), "100:00");
}
