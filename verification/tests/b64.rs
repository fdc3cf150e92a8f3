use cocoa_archive::b64::encoder::{encode as encode_masked, encode_bytes};
use cocoa_archive::b64::writer::Base64Writer;
use cocoa_archive::b64::{decode, encode};
use cocoa_archive::writer::Base64Writer as PackedBase64Writer;

const ALPHABET: &[u8; 64] = b"ABCDEFGHIJKLMNOPQRSTUVWXYZabcdefghijklmnopqrstuvwxyz0123456789+/";

#[test]
fn encode_maps_each_sextet_to_the_alphabet() {
    for v in 0u8..64 {
        assert_eq!(encode(v), ALPHABET[v as usize]);
    }
}

#[test]
fn decode_inverts_encode() {
    for v in 0u8..64 {
        assert_eq!(decode(encode(v)), Some(v));
    }
    assert_eq!(decode(b'A'), Some(0));
    assert_eq!(decode(b'/'), Some(63));
}

#[test]
fn decode_rejects_non_alphabet_bytes() {
    for c in [b'=', b' ', b'-', b'_', 0u8, 255u8, b'@', b'[', b'`', b'{'] {
        assert_eq!(decode(c), None);
    }
}

#[test]
fn masked_encode_uses_the_low_six_bits() {
    assert_eq!(encode_masked(0), b'A');
    assert_eq!(encode_masked(64), b'A');
    assert_eq!(encode_masked(255), b'/');
    assert_eq!(encode_masked(0b1100_0001), b'B');
}

#[test]
fn encode_bytes_rfc4648_vectors() {
    let cases: [(&[u8], &[u8]); 7] = [
        (b"", b""),
        (b"f", b"Zg=="),
        (b"fo", b"Zm8="),
        (b"foo", b"Zm9v"),
        (b"foob", b"Zm9vYg=="),
        (b"fooba", b"Zm9vYmE="),
        (b"foobar", b"Zm9vYmFy"),
    ];
    for (input, expected) in cases {
        assert_eq!(encode_bytes(input), expected.to_vec());
    }
}

#[test]
fn encode_bytes_high_bits() {
    assert_eq!(encode_bytes(&[0xff, 0xff, 0xff]), b"////".to_vec());
    assert_eq!(encode_bytes(&[0xfb, 0xff]), b"+/8=".to_vec());
    assert_eq!(encode_bytes(&[0x00]), b"AA==".to_vec());
}

#[test]
fn encoded_length_is_four_per_started_group() {
    for n in 0..20usize {
        let input = vec![7u8; n];
        assert_eq!(encode_bytes(&input).len(), 4 * ((n + 2) / 3));
    }
}

fn stream(writes: &[&[u8]]) -> Vec<u8> {
    let mut writer = Base64Writer::new();
    let mut out = Vec::new();
    for w in writes {
        out.extend(writer.write(w));
    }
    out.extend(writer.finish());
    out
}

fn stream_packed(writes: &[&[u8]]) -> Vec<u8> {
    let mut writer = PackedBase64Writer::new();
    let mut out = Vec::new();
    for w in writes {
        out.extend(writer.write(w));
    }
    out.extend(writer.finish());
    out
}

#[test]
fn streaming_matches_one_shot_encoding() {
    let data = b"any carnal pleasure.";
    let splits: [&[&[u8]]; 5] = [
        &[data],
        &[&data[..1], &data[1..]],
        &[&data[..2], &data[2..5], &data[5..]],
        &[&data[..3], &[], &data[3..19], &data[19..]],
        &[&data[..10], &data[10..11], &data[11..12], &data[12..]],
    ];
    for writes in splits {
        assert_eq!(stream(writes), encode_bytes(data));
        assert_eq!(stream_packed(writes), encode_bytes(data));
    }
}

#[test]
fn write_hands_out_complete_groups_only() {
    let mut writer = Base64Writer::new();
    assert_eq!(writer.write(b"ab"), Vec::<u8>::new());
    assert_eq!(writer.write(b"c"), b"YWJj".to_vec());
    assert_eq!(writer.write(b"de"), Vec::<u8>::new());
    assert_eq!(writer.finish(), b"ZGU=".to_vec());
    assert_eq!(writer.finish(), Vec::<u8>::new());
}

#[test]
fn packed_writer_flush_buffer_pads_partial_groups() {
    let mut writer = PackedBase64Writer::new();
    assert_eq!(writer.flush_buffer(), Vec::<u8>::new());
    assert_eq!(writer.write(b"M"), Vec::<u8>::new());
    assert_eq!(writer.flush_buffer(), b"TQ==".to_vec());
    assert_eq!(writer.write(b"Ma"), Vec::<u8>::new());
    assert_eq!(writer.flush_buffer(), b"TWE=".to_vec());
    assert_eq!(writer.write(b"Man"), b"TWFu".to_vec());
    assert_eq!(writer.finish(), Vec::<u8>::new());
}

#[test]
fn flush_buffer_of_empty_writer_is_empty() {
    let mut writer = Base64Writer::new();
    assert_eq!(writer.flush_buffer(), Vec::<u8>::new());
    assert_eq!(writer.write(b"\x00"), Vec::<u8>::new());
    assert_eq!(writer.flush_buffer(), b"AA==".to_vec());
}
