use bytes_plus::{expand, ByteOrder, Emitter, Primitive, SizeMismatch, Type};

fn sample() -> Vec<u8> {
    let mut v = Vec::new();
    for i in 0..64u32 {
        v.push((i * 37 + 11) as u8);
    }
    v
}

fn native_is_little() -> bool {
    u16::from_ne_bytes([1, 0]) == 1
}

fn wrap(items: String) -> String {
    format!("[{}]", items)
}

#[test]
fn should_include_u8_bytes() {
    let content = sample();
    let out = expand(Type::Primitive(Primitive::U8), &content, ByteOrder::native()).unwrap();
    let mut expected = String::new();
    for b in &content {
        expected.push_str(&format!("0x{:x}u8, ", b));
    }
    assert_eq!(out, wrap(expected), "included doesn't match expected file output");
}

#[test]
fn should_include_u16() {
    let content = sample();
    let out = expand(Type::Primitive(Primitive::U16), &content, ByteOrder::native()).unwrap();
    let mut expected = String::new();
    for c in content.chunks_exact(2) {
        expected.push_str(&format!("0x{:x}u16, ", u16::from_ne_bytes([c[0], c[1]])));
    }
    assert_eq!(out, wrap(expected), "included doesn't match expected file output");
}

#[test]
fn should_include_u32() {
    let content = sample();
    let out = expand(Type::Primitive(Primitive::U32), &content, ByteOrder::native()).unwrap();
    let mut expected = String::new();
    for c in content.chunks_exact(4) {
        let v = u32::from_ne_bytes([c[0], c[1], c[2], c[3]]);
        expected.push_str(&format!("0x{:x}u32, ", v));
    }
    assert_eq!(out, wrap(expected), "included doesn't match expected file output");
}

#[test]
fn should_include_u64() {
    let content = sample();
    let out = expand(Type::Primitive(Primitive::U64), &content, ByteOrder::native()).unwrap();
    let mut expected = String::new();
    for c in content.chunks_exact(8) {
        let mut a = [0u8; 8];
        a.copy_from_slice(c);
        expected.push_str(&format!("0x{:x}u64, ", u64::from_ne_bytes(a)));
    }
    assert_eq!(out, wrap(expected), "included doesn't match expected file output");
}

#[test]
fn should_include_u128() {
    let content = sample();
    let out = expand(Type::Primitive(Primitive::U128), &content, ByteOrder::native()).unwrap();
    let mut expected = String::new();
    for c in content.chunks_exact(16) {
        let mut a = [0u8; 16];
        a.copy_from_slice(c);
        expected.push_str(&format!("0x{:x}u128, ", u128::from_ne_bytes(a)));
    }
    assert_eq!(out, wrap(expected), "included doesn't match expected file output");
}

#[test]
fn native_order_matches_machine() {
    let expected = if native_is_little() { ByteOrder::Little } else { ByteOrder::Big };
    assert_eq!(ByteOrder::native(), expected);
}

#[test]
fn four_bytes_as_u16_little_endian() {
    let out = expand(Type::Primitive(Primitive::U16), &[1, 2, 3, 4], ByteOrder::Little).unwrap();
    assert_eq!(out, "[0x201u16, 0x403u16, ]");
}

#[test]
fn four_bytes_as_u16_big_endian() {
    let out = expand(Type::Primitive(Primitive::U16), &[1, 2, 3, 4], ByteOrder::Big).unwrap();
    assert_eq!(out, "[0x102u16, 0x304u16, ]");
}

#[test]
fn four_bytes_as_u16_native() {
    let out = expand(Type::Primitive(Primitive::U16), &[1, 2, 3, 4], ByteOrder::native()).unwrap();
    if native_is_little() {
        assert_eq!(out, "[0x201u16, 0x403u16, ]");
    } else {
        assert_eq!(out, "[0x102u16, 0x304u16, ]");
    }
}

#[test]
fn four_bytes_as_two_u8_pairs() {
    let out = expand(Type::Array(Primitive::U8, 2), &[1, 2, 3, 4], ByteOrder::native()).unwrap();
    assert_eq!(out, "[[0x1u8, 0x2u8, ],[0x3u8, 0x4u8, ],]");
}

#[test]
fn four_bytes_as_u64_is_size_mismatch() {
    let r = expand(Type::Primitive(Primitive::U64), &[1, 2, 3, 4], ByteOrder::native());
    assert_eq!(r, Err(SizeMismatch { file_len: 4, typ: Type::Primitive(Primitive::U64) }));
}

#[test]
fn array_not_filled_is_size_mismatch() {
    let r = expand(Type::Array(Primitive::U16, 3), &[0; 8], ByteOrder::Little);
    assert_eq!(r, Err(SizeMismatch { file_len: 8, typ: Type::Array(Primitive::U16, 3) }));
}

#[test]
fn empty_content_gives_empty_array() {
    let out = expand(Type::Primitive(Primitive::U8), &[], ByteOrder::native()).unwrap();
    assert_eq!(out, "[]");
}

#[test]
fn empty_content_as_array_gives_empty_array() {
    let out = expand(Type::Array(Primitive::U32, 5), &[], ByteOrder::native()).unwrap();
    assert_eq!(out, "[]");
}

#[test]
fn largest_width_all_ones() {
    let out = expand(Type::Primitive(Primitive::U128), &[0xff; 16], ByteOrder::Big).unwrap();
    assert_eq!(out, "[0xffffffffffffffffffffffffffffffffu128, ]");
}

#[test]
fn zero_bytes_render_as_zero() {
    let out = expand(Type::Primitive(Primitive::U32), &[0; 4], ByteOrder::Little).unwrap();
    assert_eq!(out, "[0x0u32, ]");
}

#[test]
fn u32_in_both_orders() {
    let bytes = [0x12, 0x34, 0x56, 0x78];
    let le = expand(Type::Primitive(Primitive::U32), &bytes, ByteOrder::Little).unwrap();
    let be = expand(Type::Primitive(Primitive::U32), &bytes, ByteOrder::Big).unwrap();
    assert_eq!(le, "[0x78563412u32, ]");
    assert_eq!(be, "[0x12345678u32, ]");
}

#[test]
fn u8_round_trip_reads_back() {
    let content = sample();
    let out = expand(Type::Primitive(Primitive::U8), &content, ByteOrder::Little).unwrap();
    let inner = &out[1..out.len() - 1];
    let back: Vec<u8> = inner
        .split(", ")
        .filter(|s| !s.is_empty())
        .map(|s| u8::from_str_radix(s.trim_start_matches("0x").trim_end_matches("u8"), 16).unwrap())
        .collect();
    assert_eq!(back, content);
}

#[test]
fn width_gives_floor_of_length() {
    let content = sample();
    for (p, w) in [(Primitive::U16, 2), (Primitive::U32, 4), (Primitive::U64, 8), (Primitive::U128, 16)] {
        let out = expand(Type::Primitive(p), &content, ByteOrder::Little).unwrap();
        assert_eq!(out.matches(", ").count(), content.len() / w);
    }
}

#[test]
fn array_shape_counts() {
    let content = sample();
    let out = expand(Type::Array(Primitive::U16, 4), &content, ByteOrder::Little).unwrap();
    assert_eq!(out.matches("],").count(), content.len() / 8);
    for group in out[1..out.len() - 1].split("],").filter(|s| !s.is_empty()) {
        assert_eq!(group.matches("u16, ").count(), 4);
    }
}

#[test]
fn streaming_matches_one_shot() {
    let content = sample();
    let typ = Type::Array(Primitive::U32, 3);
    let content = &content[..60];
    let mut e = Emitter::new(typ, ByteOrder::Little);
    e.feed(&content[..5]);
    e.feed(&content[5..6]);
    e.feed(&[]);
    e.feed(&content[6..31]);
    e.feed(&content[31..]);
    assert_eq!(e.file_len(), 60);
    let streamed = e.finish().unwrap();
    assert_eq!(streamed, expand(typ, content, ByteOrder::Little).unwrap());
}

#[test]
fn streaming_reports_leftover() {
    let mut e = Emitter::new(Type::Primitive(Primitive::U16), ByteOrder::Little);
    e.feed(&[1, 2]);
    e.feed(&[3]);
    assert_eq!(e.finish(), Err(SizeMismatch { file_len: 3, typ: Type::Primitive(Primitive::U16) }));
}

#[test]
fn sizes_of_primitives() {
    assert_eq!(Primitive::U8.size(), 1);
    assert_eq!(Primitive::U16.size(), 2);
    assert_eq!(Primitive::U32.size(), 4);
    assert_eq!(Primitive::U64.size(), 8);
    assert_eq!(Primitive::U128.size(), 16);
}

#[test]
fn type_text() {
    assert_eq!(Primitive::U128.name(), "u128");
    assert_eq!(Type::Primitive(Primitive::U32).to_text(), "u32");
    assert_eq!(Type::Array(Primitive::U16, 12).to_text(), "[u16; 12]");
    assert_eq!(Type::Array(Primitive::U8, 1).to_text(), "[u8; 1]");
}

#[test]
fn write_bytes_leaves_partial_tail() {
    let mut out = String::new();
    let n = Primitive::U32.write_bytes(&mut out, &[1, 0, 0, 0, 9, 9], ByteOrder::Little);
    assert_eq!(n, 4);
    assert_eq!(out, "0x1u32, ");
    let mut out = String::new();
    let n = Type::Array(Primitive::U8, 4).write_bytes(&mut out, &[1, 2, 3], ByteOrder::Little);
    assert_eq!(n, 0);
    assert_eq!(out, "");
}

#[test]
fn probe_decides_order() {
    assert_eq!(ByteOrder::from_probe(1), ByteOrder::Little);
    assert_eq!(ByteOrder::from_probe(256), ByteOrder::Big);
    let probe = u16::from_ne_bytes([1, 0]);
    assert_eq!(ByteOrder::native(), ByteOrder::from_probe(probe));
}
