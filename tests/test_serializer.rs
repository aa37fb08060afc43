use fury::buffer::{Reader, Writer};
use fury::error::Error;
use fury::map::Mapping;
use fury::serializer::Serializer;
use fury::structs::{read_field, read_struct_begin, write_field, write_struct_begin};
use fury::types::{FieldType, Mode, ReadContext, WriteContext};

fn encode<T: Serializer>(v: &T, mode: Mode) -> Vec<u8> {
    let mut ctx = WriteContext::new(mode);
    v.write(&mut ctx);
    ctx.writer.into_bytes()
}

fn decode<T: Serializer>(bytes: Vec<u8>, mode: Mode) -> Result<T, Error> {
    let mut ctx = ReadContext::new(bytes, mode);
    T::read(&mut ctx)
}

fn var_int_bytes(v: i32) -> Vec<u8> {
    let mut w = Writer::new();
    w.var_int32(v);
    w.into_bytes()
}

#[test]
fn var_int_boundaries_round_trip() {
    let values = [
        0, 1, -1, i32::MIN, i32::MAX, 63, 64, -64, -65, 127, 128, 8191, 8192, 16383, 16384,
        (1 << 20) - 1, 1 << 20, (1 << 21) - 1, 1 << 21, (1 << 27) - 1, 1 << 27, (1 << 28) - 1,
        1 << 28, -(1 << 28),
    ];
    for &v in values.iter() {
        let bytes = var_int_bytes(v);
        assert!(bytes.len() <= 5);
        let mut r = Reader::new(bytes.clone());
        assert_eq!(r.var_int32(), Ok(v));
        assert_eq!(r.cursor(), bytes.len());
    }
}

#[test]
fn var_int_exact_bytes() {
    assert_eq!(var_int_bytes(0), vec![0]);
    assert_eq!(var_int_bytes(1), vec![2]);
    assert_eq!(var_int_bytes(-1), vec![1]);
    assert_eq!(var_int_bytes(63), vec![126]);
    assert_eq!(var_int_bytes(64), vec![0x80, 0x01]);
    assert_eq!(var_int_bytes(300), vec![0xD8, 0x04]);
    assert_eq!(var_int_bytes(i32::MAX), vec![0xFE, 0xFF, 0xFF, 0xFF, 0x0F]);
    assert_eq!(var_int_bytes(i32::MIN), vec![0xFF, 0xFF, 0xFF, 0xFF, 0x0F]);
}

#[test]
fn var_int_malformed() {
    let mut r = Reader::new(vec![0x80, 0x80, 0x80, 0x80, 0x80]);
    assert_eq!(r.var_int32(), Err(Error::VarIntOverflow));
    assert_eq!(r.cursor(), 0);
    let mut r = Reader::new(vec![0xFF, 0xFF, 0xFF, 0xFF, 0x10]);
    assert_eq!(r.var_int32(), Err(Error::VarIntOverflow));
    let mut r = Reader::new(vec![0x80, 0x80]);
    assert_eq!(r.var_int32(), Err(Error::BufferUnderrun));
    let mut r = Reader::new(vec![]);
    assert_eq!(r.var_int32(), Err(Error::BufferUnderrun));
}

#[test]
fn reader_bytes_and_underrun() {
    let mut r = Reader::new(vec![1, 2, 3]);
    assert_eq!(r.u8(), Ok(1));
    assert_eq!(r.bytes(3), Err(Error::BufferUnderrun));
    assert_eq!(r.cursor(), 1);
    assert_eq!(r.bytes(-1), Err(Error::InvalidLength));
    assert_eq!(r.bytes(2), Ok(vec![2, 3]));
    assert_eq!(r.u8(), Err(Error::BufferUnderrun));
}

#[test]
fn writer_reserve_keeps_contents() {
    let mut w = Writer::new();
    w.bytes(&[9, 8]);
    w.reserve(1024);
    w.reserve(usize::MAX);
    assert_eq!(w.dump(), vec![9, 8]);
    assert_eq!(w.len(), 2);
}

#[test]
fn string_round_trip_both_modes() {
    for mode in [Mode::SchemaConsistent, Mode::Compatible] {
        for s in ["", "hello", "Hé€lo, 世界!😀"] {
            let value = s.to_string();
            let bytes = encode(&value, mode);
            let back: String = decode(bytes, mode).unwrap();
            assert_eq!(back, value);
        }
    }
}

#[test]
fn string_wire_layout() {
    let bytes = encode(&"hé".to_string(), Mode::SchemaConsistent);
    // three UTF-8 bytes, zig-zag length 6
    assert_eq!(bytes, vec![6, b'h', 0xC3, 0xA9]);
    assert_eq!(<String as Serializer>::ty(), FieldType::STRING);
    assert_eq!(<String as Serializer>::reserved_space(), 4);
}

#[test]
fn string_decode_errors() {
    let r: Result<String, Error> = decode(vec![4, 0xC3, 0x28], Mode::SchemaConsistent);
    assert_eq!(r, Err(Error::InvalidUtf8));
    let r: Result<String, Error> = decode(vec![10, b'a', b'b'], Mode::SchemaConsistent);
    assert_eq!(r, Err(Error::BufferUnderrun));
    let r: Result<String, Error> = decode(vec![1, b'a'], Mode::SchemaConsistent);
    assert_eq!(r, Err(Error::InvalidLength));
    let r: Result<String, Error> = decode(vec![], Mode::SchemaConsistent);
    assert_eq!(r, Err(Error::BufferUnderrun));
}

fn sample_map(order: &[(&str, &str)]) -> Mapping<String, String> {
    let mut m = Mapping::new();
    for (k, v) in order.iter() {
        m.insert(k.to_string(), v.to_string());
    }
    m
}

fn same_associations(a: &Mapping<String, String>, b: &Mapping<String, String>) -> bool {
    if a.len() != b.len() {
        return false;
    }
    for k in ["hello1", "hello2", "hello3", "other"] {
        let key = k.to_string();
        if a.get(&key) != b.get(&key) {
            return false;
        }
    }
    true
}

#[test]
fn map_round_trip() {
    let m = sample_map(&[("hello1", "hello2"), ("hello2", "hello3")]);
    for mode in [Mode::SchemaConsistent, Mode::Compatible] {
        let back: Mapping<String, String> = decode(encode(&m, mode), mode).unwrap();
        assert!(same_associations(&m, &back));
        assert_eq!(back.get(&"hello1".to_string()), Some(&"hello2".to_string()));
    }
    assert_eq!(<Mapping<String, String> as Serializer>::ty(), FieldType::MAP);
}

#[test]
fn map_wire_layout() {
    let mut m: Mapping<i32, String> = Mapping::new();
    m.insert(1, "a".to_string());
    assert_eq!(encode(&m, Mode::SchemaConsistent), vec![2, 2, 2, b'a']);
    let empty: Mapping<i32, i32> = Mapping::new();
    assert_eq!(encode(&empty, Mode::SchemaConsistent), vec![0]);
}

#[test]
fn map_order_independence() {
    let m1 = sample_map(&[("hello1", "a"), ("hello2", "b"), ("hello3", "c")]);
    let m2 = sample_map(&[("hello3", "c"), ("hello1", "a"), ("hello2", "b")]);
    let b1 = encode(&m1, Mode::SchemaConsistent);
    let b2 = encode(&m2, Mode::SchemaConsistent);
    assert_ne!(b1, b2);
    let r1: Mapping<String, String> = decode(b1, Mode::SchemaConsistent).unwrap();
    let r2: Mapping<String, String> = decode(b2, Mode::SchemaConsistent).unwrap();
    assert!(same_associations(&r1, &r2));
}

#[test]
fn map_insert_replaces_value() {
    let m = sample_map(&[("hello1", "a"), ("hello2", "b"), ("hello1", "z")]);
    assert_eq!(m.len(), 2);
    assert_eq!(m.get(&"hello1".to_string()), Some(&"z".to_string()));
    assert_eq!(m.get(&"other".to_string()), None);
}

#[test]
fn map_duplicate_keys_last_wins() {
    // two entries for key 1: 10 then 20
    let bytes = vec![4, 2, 20, 2, 40];
    let m: Mapping<i32, i32> = decode(bytes, Mode::SchemaConsistent).unwrap();
    assert_eq!(m.len(), 1);
    assert_eq!(m.get(&1), Some(&20));
}

#[test]
fn map_decode_errors() {
    let r: Result<Mapping<i32, i32>, Error> = decode(vec![1], Mode::SchemaConsistent);
    assert!(matches!(r, Err(Error::InvalidLength)));
    let r: Result<Mapping<String, String>, Error> =
        decode(vec![2, 2, b'a', 4, 0xC3, 0x28], Mode::SchemaConsistent);
    assert!(matches!(r, Err(Error::InvalidUtf8)));
}

#[test]
fn truncated_buffers_underrun() {
    let m = sample_map(&[("hello1", "hello2"), ("hello2", "hello3")]);
    let bytes = encode(&m, Mode::SchemaConsistent);
    for k in 0..bytes.len() {
        let r: Result<Mapping<String, String>, Error> =
            decode(bytes[..k].to_vec(), Mode::SchemaConsistent);
        assert!(matches!(r, Err(Error::BufferUnderrun)), "prefix {}", k);
    }
    let s = encode(&"Hé€lo".to_string(), Mode::SchemaConsistent);
    for k in 0..s.len() {
        let r: Result<String, Error> = decode(s[..k].to_vec(), Mode::SchemaConsistent);
        assert_eq!(r, Err(Error::BufferUnderrun));
    }
    let i = encode(&i32::MIN, Mode::SchemaConsistent);
    for k in 0..i.len() {
        let r: Result<i32, Error> = decode(i[..k].to_vec(), Mode::SchemaConsistent);
        assert_eq!(r, Err(Error::BufferUnderrun));
    }
}

/// Writes a struct with fields a: String (1), b: i32 (2), c: map (3).
fn write_abc(mode: Mode) -> Vec<u8> {
    let mut ctx = WriteContext::new(mode);
    write_struct_begin(&mut ctx, 3);
    write_field(&mut ctx, 1, &"hello".to_string());
    write_field(&mut ctx, 2, &12i32);
    write_field(&mut ctx, 3, &sample_map(&[("hello1", "hello2")]));
    ctx.writer.into_bytes()
}

#[test]
fn compatible_reader_skips_unknown_field() {
    let mut ctx = ReadContext::new(write_abc(Mode::Compatible), Mode::Compatible);
    let table = read_struct_begin(&mut ctx).unwrap();
    assert_eq!(table.entries.len(), 3);
    let a: String = read_field(&mut ctx, &table, 1).unwrap();
    let c: Mapping<String, String> = read_field(&mut ctx, &table, 3).unwrap();
    assert_eq!(a, "hello");
    assert_eq!(c.get(&"hello1".to_string()), Some(&"hello2".to_string()));
}

#[test]
fn compatible_reader_defaults_missing_field() {
    let mut ctx = ReadContext::new(write_abc(Mode::Compatible), Mode::Compatible);
    let table = read_struct_begin(&mut ctx).unwrap();
    let a: String = read_field(&mut ctx, &table, 1).unwrap();
    let b: i32 = read_field(&mut ctx, &table, 2).unwrap();
    let c: Mapping<String, String> = read_field(&mut ctx, &table, 3).unwrap();
    let d: String = read_field(&mut ctx, &table, 4).unwrap();
    let e: i32 = read_field(&mut ctx, &table, 5).unwrap();
    assert_eq!(a, "hello");
    assert_eq!(b, 12);
    assert_eq!(c.len(), 1);
    assert_eq!(d, "");
    assert_eq!(e, 0);
}

#[test]
fn compatible_type_mismatch() {
    let mut ctx = ReadContext::new(write_abc(Mode::Compatible), Mode::Compatible);
    let table = read_struct_begin(&mut ctx).unwrap();
    let r: Result<i32, Error> = read_field(&mut ctx, &table, 1);
    assert_eq!(r, Err(Error::TypeMismatch));
}

#[test]
fn compatible_field_layout() {
    let mut ctx = WriteContext::new(Mode::Compatible);
    write_struct_begin(&mut ctx, 1);
    write_field(&mut ctx, 7, &5i32);
    // count 1, id 7, INT32 tag, length 1, value 5
    assert_eq!(ctx.writer.into_bytes(), vec![2, 14, FieldType::INT32.code(), 2, 10]);
}

#[test]
fn compatible_truncated_table() {
    let bytes = write_abc(Mode::Compatible);
    for k in 0..bytes.len() {
        let mut ctx = ReadContext::new(bytes[..k].to_vec(), Mode::Compatible);
        assert!(matches!(read_struct_begin(&mut ctx), Err(Error::BufferUnderrun)));
    }
}

#[test]
fn schema_consistent_struct_round_trip() {
    let bytes = write_abc(Mode::SchemaConsistent);
    let mut ctx = ReadContext::new(bytes, Mode::SchemaConsistent);
    let table = read_struct_begin(&mut ctx).unwrap();
    assert_eq!(table.entries.len(), 0);
    let a: String = read_field(&mut ctx, &table, 1).unwrap();
    let b: i32 = read_field(&mut ctx, &table, 2).unwrap();
    let c: Mapping<String, String> = read_field(&mut ctx, &table, 3).unwrap();
    assert_eq!(a, "hello");
    assert_eq!(b, 12);
    assert_eq!(c.get(&"hello1".to_string()), Some(&"hello2".to_string()));
    assert_eq!(ctx.reader.cursor(), write_abc(Mode::SchemaConsistent).len());
}

#[test]
fn primitives_round_trip() {
    for mode in [Mode::SchemaConsistent, Mode::Compatible] {
        for v in [true, false] {
            assert_eq!(decode::<bool>(encode(&v, mode), mode), Ok(v));
        }
        for v in [0i8, 1, -1, i8::MIN, i8::MAX] {
            assert_eq!(decode::<i8>(encode(&v, mode), mode), Ok(v));
        }
        for v in [0i16, 1, -1, i16::MIN, i16::MAX, 255, 256, -256] {
            assert_eq!(decode::<i16>(encode(&v, mode), mode), Ok(v));
        }
    }
}

#[test]
fn primitives_wire_layout() {
    assert_eq!(encode(&true, Mode::SchemaConsistent), vec![1]);
    assert_eq!(encode(&-2i8, Mode::SchemaConsistent), vec![0xFE]);
    assert_eq!(encode(&0x1234i16, Mode::SchemaConsistent), vec![0x34, 0x12]);
    assert_eq!(encode(&-2i16, Mode::SchemaConsistent), vec![0xFE, 0xFF]);
    assert_eq!(decode::<i16>(vec![0x01], Mode::SchemaConsistent), Err(Error::BufferUnderrun));
    assert_eq!(decode::<bool>(vec![], Mode::SchemaConsistent), Err(Error::BufferUnderrun));
    assert_eq!(<i16 as Serializer>::ty(), FieldType::INT16);
    assert_eq!(<bool as Serializer>::reserved_space(), 1);
}
