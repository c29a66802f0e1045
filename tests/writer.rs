use crevice::{BoundedBuffer, ByteSink, SinkError, Std430, UVec2, UVec3, UVec4, WriteError, Writer};

fn point_light_bytes(position: UVec3, color: UVec3, brightness: u32) -> Vec<u8> {
    let mut w = Writer::new(Vec::new());
    assert_eq!(w.write(&position), Ok(0));
    assert_eq!(w.write(&color), Ok(16));
    assert_eq!(w.write(&brightness), Ok(28));
    assert_eq!(w.len(), 32);
    w.into_inner()
}

#[test]
fn count_then_point_light() {
    let light = point_light_bytes(
        UVec3 { x: 1, y: 2, z: 3 },
        UVec3 { x: 4, y: 5, z: 6 },
        7,
    );
    let mut w = Writer::new(Vec::new());
    assert_eq!(w.write(&2u32), Ok(0));
    assert_eq!(w.write_std430(16, &light), Ok(16));
    assert_eq!(w.len(), 48);
    let out = w.into_inner();
    assert_eq!(out.len(), 48);
    assert_eq!(&out[0..4], &2u32.to_ne_bytes());
    assert!(out[4..16].iter().all(|b| *b == 0));
    assert_eq!(&out[16..20], &1u32.to_ne_bytes());
    assert_eq!(&out[32..36], &4u32.to_ne_bytes());
    assert_eq!(&out[44..48], &7u32.to_ne_bytes());
}

#[test]
fn len_is_sum_of_padding_and_sizes() {
    let mut w = Writer::new(Vec::new());
    assert_eq!(w.write(&1u32), Ok(0));
    assert_eq!(w.len(), 4);
    assert_eq!(w.write(&UVec2 { x: 2, y: 3 }), Ok(8));
    assert_eq!(w.len(), 16);
    assert_eq!(w.write(&4i32), Ok(16));
    assert_eq!(w.len(), 20);
    assert_eq!(w.write(&UVec3 { x: 5, y: 6, z: 7 }), Ok(32));
    assert_eq!(w.len(), 44);
    assert_eq!(w.write(&UVec4 { x: 8, y: 9, z: 10, w: 11 }), Ok(48));
    assert_eq!(w.len(), 64);
    assert_eq!(w.sink().len(), 64);
}

#[test]
fn padding_bytes_are_zero() {
    let mut w = Writer::new(Vec::new());
    w.write(&u32::MAX).unwrap();
    w.write(&UVec4 { x: u32::MAX, y: u32::MAX, z: u32::MAX, w: u32::MAX }).unwrap();
    let out = w.into_inner();
    assert_eq!(out.len(), 32);
    assert_eq!(&out[4..16], &[0u8; 12]);
    assert!(out[16..32].iter().all(|b| *b == 0xff));
}

#[test]
fn write_iter_of_nothing_changes_nothing() {
    let mut w = Writer::new(Vec::new());
    w.write(&9u32).unwrap();
    let none: [UVec3; 0] = [];
    assert_eq!(w.write_iter(&none), Ok(4));
    assert_eq!(w.len(), 4);
    assert_eq!(w.sink().len(), 4);
}

#[test]
fn write_iter_on_fresh_writer_of_nothing() {
    let mut w = Writer::new(Vec::new());
    let none: Vec<u32> = Vec::new();
    assert_eq!(w.write_iter(&none), Ok(0));
    assert_eq!(w.len(), 0);
}

#[test]
fn write_iter_returns_first_offset() {
    let mut w = Writer::new(Vec::new());
    w.write(&2u32).unwrap();
    let items = [UVec3 { x: 1, y: 1, z: 1 }, UVec3 { x: 2, y: 2, z: 2 }];
    assert_eq!(w.write_iter(&items), Ok(16));
    assert_eq!(w.len(), 44);
    let out = w.into_inner();
    assert_eq!(&out[16..20], &1u32.to_ne_bytes());
    assert_eq!(&out[28..32], &[0u8; 4]);
    assert_eq!(&out[32..36], &2u32.to_ne_bytes());
}

#[test]
fn write_iter_of_scalars_packs_tightly() {
    let mut w = Writer::new(Vec::new());
    assert_eq!(w.write_iter(&[1u32, 2, 3]), Ok(0));
    assert_eq!(w.len(), 12);
}

#[test]
fn sink_refusing_padding_stops_the_write() {
    let mut w = Writer::new(BoundedBuffer::new(6));
    assert_eq!(w.write(&1u32), Ok(0));
    assert_eq!(
        w.write(&UVec2 { x: 5, y: 6 }),
        Err(WriteError::Sink(SinkError::Full))
    );
    let buf = w.into_inner();
    assert_eq!(buf.as_slice(), &1u32.to_ne_bytes());
}

#[test]
fn sink_refusing_value_after_padding() {
    let mut w = Writer::new(BoundedBuffer::new(10));
    assert_eq!(w.write(&1u32), Ok(0));
    assert_eq!(
        w.write(&UVec2 { x: 5, y: 6 }),
        Err(WriteError::Sink(SinkError::Full))
    );
    let buf = w.into_inner();
    assert_eq!(buf.capacity(), 10);
    let bytes = buf.into_bytes();
    assert_eq!(bytes.len(), 8);
    assert_eq!(&bytes[4..8], &[0u8; 4]);
}

#[test]
fn write_iter_stops_at_refusal() {
    let mut w = Writer::new(BoundedBuffer::new(8));
    assert_eq!(
        w.write_iter(&[1u32, 2, 3]),
        Err(WriteError::Sink(SinkError::Full))
    );
    assert_eq!(w.sink().as_slice().len(), 8);
}

#[test]
fn bounded_buffer_fits_exactly() {
    let mut w = Writer::new(BoundedBuffer::new(16));
    assert_eq!(w.write(&1u32), Ok(0));
    assert_eq!(w.write(&UVec2 { x: 5, y: 6 }), Ok(8));
    assert_eq!(w.len(), 16);
}

#[test]
fn offset_overflow_is_refused_before_writing() {
    let mut w = Writer::new(Vec::new());
    w.write(&1u32).unwrap();
    assert_eq!(w.write_std430(usize::MAX, &[1]), Err(WriteError::OffsetOverflow));
    assert_eq!(w.len(), 4);
    assert_eq!(w.sink().len(), 4);
}

#[test]
fn bounded_buffer_direct_writes() {
    let mut b = BoundedBuffer::new(3);
    assert_eq!(b.write_all(&[1, 2]), Ok(()));
    assert_eq!(b.write_all(&[3, 4]), Err(SinkError::Full));
    assert_eq!(b.write_all(&[3]), Ok(()));
    assert_eq!(b.as_slice(), &[1, 2, 3]);
}

#[test]
fn vec_sink_appends() {
    let mut v: Vec<u8> = vec![9];
    assert_eq!(v.write_all(&[1, 2, 3]), Ok(()));
    assert_eq!(v, vec![9, 1, 2, 3]);
}

#[test]
fn value_bytes_are_the_values_in_memory() {
    assert_eq!(0x0102_0304u32.to_bytes(), 0x0102_0304u32.to_ne_bytes().to_vec());
    assert_eq!((-2i32).to_bytes(), (-2i32).to_ne_bytes().to_vec());
    let v = UVec3 { x: 0xa, y: 0xb, z: 0xc };
    let mut expected = Vec::new();
    expected.extend_from_slice(&0xau32.to_ne_bytes());
    expected.extend_from_slice(&0xbu32.to_ne_bytes());
    expected.extend_from_slice(&0xcu32.to_ne_bytes());
    assert_eq!(v.to_bytes(), expected);
    assert_eq!(UVec2 { x: 1, y: 2 }.to_bytes().len(), 8);
    assert_eq!(UVec4 { x: 1, y: 2, z: 3, w: 4 }.to_bytes().len(), 16);
}

#[test]
fn value_layouts() {
    assert_eq!(<u32 as Std430>::layout().alignment, 4);
    assert_eq!(<UVec2 as Std430>::layout().alignment, 8);
    assert_eq!(<UVec3 as Std430>::layout().size, 12);
    assert_eq!(<UVec3 as Std430>::layout().alignment, 16);
    assert_eq!(<UVec4 as Std430>::layout().size, 16);
}

#[test]
fn count_then_two_lights_ends_at_80() {
    let first = point_light_bytes(
        UVec3 { x: 0, y: 1, z: 0 },
        UVec3 { x: 1, y: 0, z: 0 },
        6,
    );
    let second = point_light_bytes(
        UVec3 { x: 0, y: 4, z: 3 },
        UVec3 { x: 1, y: 1, z: 1 },
        10,
    );
    let mut w = Writer::new(Vec::new());
    assert_eq!(w.write(&2u32), Ok(0));
    assert_eq!(w.write_std430(16, &first), Ok(16));
    assert_eq!(w.write_std430(16, &second), Ok(48));
    assert_eq!(w.len(), 80);
    let out = w.into_inner();
    assert_eq!(&out[4..16], &[0u8; 12]);
    assert_eq!(&out[16..48], first.as_slice());
    assert_eq!(&out[48..80], second.as_slice());
}

#[test]
fn three_vec3_items_from_zero() {
    let mut w = Writer::new(Vec::new());
    let items = [
        UVec3 { x: 1, y: 1, z: 1 },
        UVec3 { x: 2, y: 2, z: 2 },
        UVec3 { x: 3, y: 3, z: 3 },
    ];
    assert_eq!(w.write_iter(&items), Ok(0));
    assert_eq!(w.len(), 44);
    let out = w.into_inner();
    assert_eq!(out.len(), 44);
    assert_eq!(&out[12..16], &[0u8; 4]);
    assert_eq!(&out[16..20], &2u32.to_ne_bytes());
    assert_eq!(&out[28..32], &[0u8; 4]);
    assert_eq!(&out[32..36], &3u32.to_ne_bytes());
}
