use dictlib::data_reader::DataReader;
use dictlib::data_writer::DataWriter;
use dictlib::vbyte::{encode_vbyte, read_vbyte, vbyte_len_code};

#[test]
fn write_read_vbyte() {
    let mut writer = DataWriter { write_len: 0, inner: Vec::new() };

    for i in 0..513 {
        writer.write_vbyte(i);
    }

    for _i in 0..2 {
        // Add padding
        writer.write_u32(0);
    }

    let mut reader = DataReader::new(&writer.inner);

    for i in 0..513 {
        let read = reader.read_vbyte();
        assert_eq!(i as u64, read)
    }
}

#[test]
fn vbyte_lengths_at_the_thresholds() {
    assert_eq!((1, 0), encode_vbyte(0));
    assert_eq!((1, (63 << 2) | 0), encode_vbyte(63));
    assert_eq!((2, (64 << 2) | 1), encode_vbyte(64));
    assert_eq!((2, (0x3fff << 2) | 1), encode_vbyte(0x3fff));
    assert_eq!((3, (0x4000 << 2) | 2), encode_vbyte(0x4000));
    assert_eq!((3, (0x3f_ffff << 2) | 2), encode_vbyte(0x3f_ffff));
    assert_eq!((5, (0x40_0000 << 2) | 3), encode_vbyte(0x40_0000));
    assert_eq!((5, (0x3f_ffff_ffffu64 << 2) | 3), encode_vbyte(0x3f_ffff_ffff));
    assert_eq!(3, vbyte_len_code(0x3f_ffff_ffff));
}

#[test]
fn vbyte_round_trip_of_large_values() {
    let values: [u64; 9] =
        [0, 1, 63, 64, 0x3fff, 0x4000, 0x3f_ffff, 0x40_0000, 0x3f_ffff_ffff];
    let mut writer = DataWriter::new();
    for v in values {
        writer.write_vbyte(v);
    }
    writer.write_u64(0);
    assert_eq!(writer.write_len, writer.inner.len());
    let mut at = 0;
    for v in values {
        let (value, len) = read_vbyte(&writer.inner, at);
        assert_eq!(v, value);
        at += len as usize;
    }
    assert_eq!(at + 8, writer.inner.len());
}
