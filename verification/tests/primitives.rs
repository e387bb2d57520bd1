use osu_collection_creator::error::DecodeError;
use osu_collection_creator::osu_reader::OsuReader;
use osu_collection_creator::osu_writer::OsuWriter;

fn written_i32(value: i32) -> Vec<u8> {
    let mut writer = OsuWriter::new();
    writer.write_i32(value);
    writer.buffer
}

fn written_uleb128(value: i32) -> Vec<u8> {
    let mut writer = OsuWriter::new();
    writer.write_uleb128(value);
    writer.buffer
}

fn written_string(text: &str) -> Vec<u8> {
    let mut writer = OsuWriter::new();
    writer.write_string(&text.to_string());
    writer.buffer
}

fn text_of_length(length: usize) -> String {
    let mut text = String::new();
    for i in 0..length {
        text.push((0x21 + (i % 0x5e) as u8) as char);
    }
    text
}

fn string_reads_back(text: &str) {
    let bytes = written_string(text);
    let length = bytes.len();
    let mut padded = bytes;
    padded.push(0xee);
    let mut reader = OsuReader::new(padded);
    assert_eq!(reader.read_string(), Ok(text.to_string()));
    assert_eq!(reader.read_u8(), Ok(0xee), "{} bytes were to be consumed", length);
    assert_eq!(reader.read_u8(), Err(DecodeError::OutOfBounds));
}

#[test]
fn new_writer_is_empty() {
    assert_eq!(OsuWriter::new().buffer, Vec::<u8>::new());
}

#[test]
fn write_u8_appends_in_order() {
    let mut writer = OsuWriter::new();
    writer.write_u8(3);
    writer.write_u8(0);
    writer.write_u8(255);
    assert_eq!(writer.buffer, vec![3, 0, 255]);
}

#[test]
fn read_u8_steps_through_the_buffer() {
    let mut reader = OsuReader::new(vec![7, 9]);
    assert_eq!(reader.read_u8(), Ok(7));
    assert_eq!(reader.read_u8(), Ok(9));
    assert_eq!(reader.read_u8(), Err(DecodeError::OutOfBounds));
}

#[test]
fn offset_follows_the_reads() {
    let mut reader = OsuReader::new(vec![9, 1, 0, 0, 0, 0x0b, 2, b'h', b'i', 0x00, 0x80, 0x01]);
    assert_eq!(reader.offset(), 0);
    assert_eq!(reader.read_u8(), Ok(9));
    assert_eq!(reader.offset(), 1);
    assert_eq!(reader.read_i32(), Ok(1));
    assert_eq!(reader.offset(), 5);
    assert_eq!(reader.read_string(), Ok("hi".to_string()));
    assert_eq!(reader.offset(), 9);
    assert_eq!(reader.read_string(), Ok(String::new()));
    assert_eq!(reader.offset(), 10);
    assert_eq!(reader.read_uleb128(), Ok(128));
    assert_eq!(reader.offset(), 12);
    assert_eq!(reader.read_u8(), Err(DecodeError::OutOfBounds));
    assert_eq!(reader.offset(), 12);
}

#[test]
fn read_u8_of_empty_buffer_is_out_of_bounds() {
    let mut reader = OsuReader::new(Vec::new());
    assert_eq!(reader.read_u8(), Err(DecodeError::OutOfBounds));
}

#[test]
fn i32_is_written_little_endian() {
    assert_eq!(written_i32(20211122), vec![0xb2, 0x65, 0x34, 0x01]);
    assert_eq!(written_i32(0x12345678), vec![0x78, 0x56, 0x34, 0x12]);
    assert_eq!(written_i32(0), vec![0, 0, 0, 0]);
    assert_eq!(written_i32(1), vec![1, 0, 0, 0]);
}

#[test]
fn negative_i32_is_written_in_twos_complement() {
    assert_eq!(written_i32(-1), vec![0xff, 0xff, 0xff, 0xff]);
    assert_eq!(written_i32(-2), vec![0xfe, 0xff, 0xff, 0xff]);
    assert_eq!(written_i32(i32::MIN), vec![0x00, 0x00, 0x00, 0x80]);
    assert_eq!(written_i32(i32::MAX), vec![0xff, 0xff, 0xff, 0x7f]);
}

#[test]
fn i32_is_read_little_endian() {
    let mut reader = OsuReader::new(vec![0xb2, 0x65, 0x34, 0x01, 0xfe, 0xff, 0xff, 0xff]);
    assert_eq!(reader.read_i32(), Ok(20211122));
    assert_eq!(reader.read_i32(), Ok(-2));
    assert_eq!(reader.read_i32(), Err(DecodeError::OutOfBounds));
}

#[test]
fn i32_round_trip() {
    let values = [
        0,
        1,
        -1,
        127,
        128,
        255,
        256,
        -128,
        -129,
        65535,
        65536,
        20211122,
        -20211122,
        0x7fff_ffff,
        -0x7fff_ffff,
        i32::MIN,
        i32::MAX,
    ];
    for value in values {
        let mut reader = OsuReader::new(written_i32(value));
        assert_eq!(reader.read_i32(), Ok(value));
        assert_eq!(reader.read_u8(), Err(DecodeError::OutOfBounds));
    }
}

#[test]
fn i32_with_fewer_than_four_bytes_is_out_of_bounds() {
    for length in 0..4 {
        let mut reader = OsuReader::new(vec![1; length]);
        assert_eq!(reader.read_i32(), Err(DecodeError::OutOfBounds));
    }
}

#[test]
fn failed_read_leaves_the_cursor() {
    let mut reader = OsuReader::new(vec![1, 2, 3]);
    assert_eq!(reader.read_i32(), Err(DecodeError::OutOfBounds));
    assert_eq!(reader.read_u8(), Ok(1));
    assert_eq!(reader.read_i32(), Err(DecodeError::OutOfBounds));
    assert_eq!(reader.read_u8(), Ok(2));

    let mut reader = OsuReader::new(vec![0x0b, 0x03, b'a', b'b']);
    assert_eq!(reader.read_string(), Err(DecodeError::OutOfBounds));
    assert_eq!(reader.offset(), 0);
    assert_eq!(reader.read_u8(), Ok(0x0b));

    let mut reader = OsuReader::new(vec![0x80, 0x80]);
    assert_eq!(reader.read_uleb128(), Err(DecodeError::OutOfBounds));
    assert_eq!(reader.offset(), 0);
    assert_eq!(reader.read_u8(), Ok(0x80));

    let mut reader = OsuReader::new(vec![0x07, 0x0b, 0xff, 0xff, 0xff, 0xff, 0xff, 0x01]);
    assert_eq!(reader.read_u8(), Ok(0x07));
    assert_eq!(reader.read_string(), Err(DecodeError::FormatError));
    assert_eq!(reader.offset(), 1);
}

#[test]
fn uleb128_boundaries() {
    assert_eq!(written_uleb128(127), vec![0x7f]);
    assert_eq!(written_uleb128(128), vec![0x80, 0x01]);
    assert_eq!(written_uleb128(0), vec![0x00]);
}

#[test]
fn uleb128_group_counts() {
    assert_eq!(written_uleb128(1), vec![0x01]);
    assert_eq!(written_uleb128(300), vec![0xac, 0x02]);
    assert_eq!(written_uleb128(16383), vec![0xff, 0x7f]);
    assert_eq!(written_uleb128(16384), vec![0x80, 0x80, 0x01]);
    assert_eq!(written_uleb128(2097151), vec![0xff, 0xff, 0x7f]);
    assert_eq!(written_uleb128(2097152), vec![0x80, 0x80, 0x80, 0x01]);
    assert_eq!(written_uleb128(268435455), vec![0xff, 0xff, 0xff, 0x7f]);
    assert_eq!(written_uleb128(268435456), vec![0x80, 0x80, 0x80, 0x80, 0x01]);
    assert_eq!(written_uleb128(i32::MAX), vec![0xff, 0xff, 0xff, 0xff, 0x07]);
}

#[test]
fn uleb128_round_trip() {
    let values = [
        0,
        1,
        127,
        128,
        300,
        16383,
        16384,
        2097151,
        2097152,
        268435455,
        268435456,
        i32::MAX,
    ];
    for value in values {
        let mut reader = OsuReader::new(written_uleb128(value));
        assert_eq!(reader.read_uleb128(), Ok(value));
        assert_eq!(reader.read_u8(), Err(DecodeError::OutOfBounds));
    }
}

#[test]
fn uleb128_stops_at_the_first_byte_without_high_bit() {
    let mut reader = OsuReader::new(vec![0xac, 0x02, 0x05]);
    assert_eq!(reader.read_uleb128(), Ok(300));
    assert_eq!(reader.read_u8(), Ok(0x05));
}

#[test]
fn uleb128_need_not_be_shortest() {
    let mut reader = OsuReader::new(vec![0x80, 0x00]);
    assert_eq!(reader.read_uleb128(), Ok(0));
    let mut reader = OsuReader::new(vec![0x81, 0x80, 0x80, 0x80, 0x00]);
    assert_eq!(reader.read_uleb128(), Ok(1));
}

#[test]
fn uleb128_cut_short_is_out_of_bounds() {
    let mut reader = OsuReader::new(Vec::new());
    assert_eq!(reader.read_uleb128(), Err(DecodeError::OutOfBounds));
    let mut reader = OsuReader::new(vec![0x80]);
    assert_eq!(reader.read_uleb128(), Err(DecodeError::OutOfBounds));
    let mut reader = OsuReader::new(vec![0xff, 0xff, 0xff, 0xff]);
    assert_eq!(reader.read_uleb128(), Err(DecodeError::OutOfBounds));
    let mut reader = OsuReader::new(vec![0xff, 0xff, 0xff, 0xff, 0xff]);
    assert_eq!(reader.read_uleb128(), Err(DecodeError::OutOfBounds));
}

#[test]
fn uleb128_sixth_group_is_a_format_error() {
    let mut reader = OsuReader::new(vec![0x80, 0x80, 0x80, 0x80, 0x80, 0x00]);
    assert_eq!(reader.read_uleb128(), Err(DecodeError::FormatError));
    let mut reader = OsuReader::new(vec![0xff, 0xff, 0xff, 0xff, 0xff, 0x7f]);
    assert_eq!(reader.read_uleb128(), Err(DecodeError::FormatError));
}

#[test]
fn uleb128_fifth_group_keeps_the_low_32_bits() {
    let mut reader = OsuReader::new(vec![0xff, 0xff, 0xff, 0xff, 0x0f]);
    assert_eq!(reader.read_uleb128(), Ok(-1));
    let mut reader = OsuReader::new(vec![0x80, 0x80, 0x80, 0x80, 0x08]);
    assert_eq!(reader.read_uleb128(), Ok(i32::MIN));
    let mut reader = OsuReader::new(vec![0x81, 0x80, 0x80, 0x80, 0x70]);
    assert_eq!(reader.read_uleb128(), Ok(1));
}

#[test]
fn empty_string_is_one_zero_byte() {
    assert_eq!(written_string(""), vec![0x00]);
    let mut reader = OsuReader::new(vec![0x00]);
    assert_eq!(reader.read_string(), Ok(String::new()));
    assert_eq!(reader.read_u8(), Err(DecodeError::OutOfBounds));
}

#[test]
fn empty_string_consumes_only_the_presence_byte() {
    let mut reader = OsuReader::new(vec![0x00, 0x02, b'h', b'i']);
    assert_eq!(reader.read_string(), Ok(String::new()));
    assert_eq!(reader.read_u8(), Ok(0x02));
}

#[test]
fn string_is_presence_length_and_characters() {
    assert_eq!(written_string("a"), vec![0x0b, 0x01, 0x61]);
    assert_eq!(
        written_string("My Collection"),
        vec![
            0x0b, 0x0d, b'M', b'y', b' ', b'C', b'o', b'l', b'l', b'e', b'c', b't', b'i', b'o',
            b'n'
        ]
    );
}

#[test]
fn string_length_counts_characters() {
    assert_eq!(written_string("\u{e9}t\u{e9}"), vec![0x0b, 0x03, 0xe9, b't', 0xe9]);
}

#[test]
fn string_characters_are_written_as_their_lowest_eight_bits() {
    assert_eq!(written_string("\u{20ac}"), vec![0x0b, 0x01, 0xac]);
    assert_eq!(written_string("\u{100}\u{1f600}"), vec![0x0b, 0x02, 0x00, 0x00]);
    let mut reader = OsuReader::new(written_string("\u{20ac}"));
    assert_eq!(reader.read_string(), Ok("\u{ac}".to_string()));
}

#[test]
fn string_bytes_are_read_as_one_character_each() {
    let mut reader = OsuReader::new(vec![0x0b, 0x04, 0x00, 0x7f, 0x80, 0xff]);
    assert_eq!(reader.read_string(), Ok("\u{0}\u{7f}\u{80}\u{ff}".to_string()));
}

#[test]
fn any_non_zero_presence_byte_means_present() {
    for presence in [0x01u8, 0x0a, 0x0b, 0x0c, 0x7f, 0x80, 0xff] {
        let mut reader = OsuReader::new(vec![presence, 0x02, b'o', b'k', 0x33]);
        assert_eq!(reader.read_string(), Ok("ok".to_string()));
        assert_eq!(reader.read_u8(), Ok(0x33));
    }
}

#[test]
fn present_string_of_length_zero_is_empty() {
    let mut reader = OsuReader::new(vec![0x0b, 0x00, 0x44]);
    assert_eq!(reader.read_string(), Ok(String::new()));
    assert_eq!(reader.read_u8(), Ok(0x44));
}

#[test]
fn string_round_trip_across_group_boundaries() {
    for length in [0, 1, 2, 126, 127, 128, 129, 16383, 16384, 16385] {
        let text = text_of_length(length);
        let bytes = written_string(&text);
        let groups = if length < 128 { 1 } else if length < 16384 { 2 } else { 3 };
        let expected = if length == 0 { 1 } else { 1 + groups + length };
        assert_eq!(bytes.len(), expected);
        string_reads_back(&text);
    }
}

#[test]
fn string_round_trip_of_every_single_byte_character() {
    let mut text = String::new();
    for code in 0..=255u8 {
        text.push(code as char);
    }
    string_reads_back(&text);
}

#[test]
fn string_cut_short_is_out_of_bounds() {
    let bytes = written_string("abcdef");
    for length in 0..bytes.len() {
        let mut reader = OsuReader::new(bytes[..length].to_vec());
        assert_eq!(reader.read_string(), Err(DecodeError::OutOfBounds));
    }
}

#[test]
fn string_with_negative_length_is_out_of_bounds() {
    let mut reader = OsuReader::new(vec![0x0b, 0xff, 0xff, 0xff, 0xff, 0x0f, b'a']);
    assert_eq!(reader.read_string(), Err(DecodeError::OutOfBounds));
}

#[test]
fn string_with_overlong_length_is_a_format_error() {
    let mut reader = OsuReader::new(vec![0x0b, 0x81, 0x80, 0x80, 0x80, 0x80, 0x00, b'a']);
    assert_eq!(reader.read_string(), Err(DecodeError::FormatError));
}
