use dts_to_uff_converter::dts::ChannelData;
use dts_to_uff_converter::uff::{
    format_data_line, truncate_to_width, write_scientific, write_uff58_ascii, write_uff58b_ordered,
    ByteOrder, ChannelText, Field, LineBuffer, ScientificComponents, UffError,
};

fn record(text: &str) -> Vec<u8> {
    let mut line = text.as_bytes().to_vec();
    while line.len() < 80 {
        line.push(b' ');
    }
    line.push(b'\n');
    line
}

fn field(value: f64, width: usize, precision: usize) -> String {
    let mut buffer = LineBuffer::with_capacity(80);
    let text = format!("{:.*e}", precision, value);
    write_scientific(&mut buffer, &text, width).expect("a number in scientific notation");
    buffer.as_str().to_string()
}

fn channel(samples: &[f32], rate: f64, units: &str) -> (ChannelData, ChannelText) {
    let data = ChannelData {
        time_series: samples.iter().map(|v| v.to_bits()).collect(),
        sample_rate: rate.to_bits(),
        units: units.to_string(),
    };
    let text = ChannelText {
        time_step: format!("{:.5e}", 1.0 / rate),
        samples: samples.iter().map(|v| format!("{:.11e}", *v as f64)).collect(),
    };
    (data, text)
}

#[test]
fn truncate_keeps_the_first_characters() {
    assert_eq!(truncate_to_width("abcdef", 3), "abc");
    assert_eq!(truncate_to_width("abc", 3), "abc");
    assert_eq!(truncate_to_width("ab", 3), "ab");
    assert_eq!(truncate_to_width("", 3), "");
    assert_eq!(truncate_to_width("äöüß", 2), "äö");
    assert_eq!(truncate_to_width("abc", 0), "");
}

#[test]
fn line_is_padded_to_eighty_columns() {
    let mut buffer = LineBuffer::with_capacity(0);
    buffer.push_str("    -1");
    let mut out = Vec::new();
    buffer.write_line(&mut out);
    assert_eq!(out.len(), 81);
    assert_eq!(out, record("    -1"));
    assert_eq!(buffer.as_str(), "    -1");
}

#[test]
fn long_line_is_written_whole() {
    let mut buffer = LineBuffer::with_capacity(256);
    let long = "x".repeat(95);
    buffer.push_str(&long);
    buffer.push_char('!');
    let mut out = vec![7u8];
    buffer.write_line(&mut out);
    let mut expected = vec![7u8];
    expected.extend_from_slice(long.as_bytes());
    expected.extend_from_slice(b"!\n");
    assert_eq!(out, expected);
}

#[test]
fn line_padding_counts_characters() {
    let mut buffer = LineBuffer::with_capacity(80);
    buffer.push_str("\u{b5}m");
    let mut out = Vec::new();
    buffer.write_line(&mut out);
    let text = String::from_utf8(out.clone()).expect("a record in UTF-8");
    assert_eq!(text.chars().count(), 81);
    assert_eq!(out.len(), 82);
    assert_eq!(&out[..3], "\u{b5}m".as_bytes());
    assert!(out[3..81].iter().all(|b| *b == b' '));
    assert_eq!(out[81], b'\n');
}

#[test]
fn every_record_of_a_dataset_has_eighty_characters() {
    let (data, text) = channel(&[0.5, -1.5e-30, 2.5e30, 1.0, 7.0], 51200.0, "m/s\u{b2}");
    let mut out = Vec::new();
    assert_eq!(write_uff58_ascii(&mut out, &data, &text, "Beschleunigung \u{fc}ber Zeit"), Ok(()));
    let written = String::from_utf8(out).expect("a dataset in UTF-8");
    let lines: Vec<&str> = written.split_terminator('\n').collect();
    assert_eq!(lines.len(), 13 + 2 + 1);
    for line in lines {
        assert_eq!(line.chars().count(), 80, "in {:?}", line);
    }
}

#[test]
fn scientific_field_width_counts_characters() {
    let mut buffer = LineBuffer::with_capacity(80);
    assert_eq!(write_scientific(&mut buffer, "\u{221e}e7", 8), Ok(()));
    assert_eq!(buffer.as_str(), "   \u{221e}e+07");
    assert_eq!(buffer.as_str().chars().count(), 8);
}

#[test]
fn buffer_clear_and_capacity_keep_the_contract() {
    let mut buffer = LineBuffer::with_capacity(10);
    buffer.push_str("abc");
    buffer.ensure_minimum_capacity(500);
    assert_eq!(buffer.as_str(), "abc");
    buffer.clear();
    assert_eq!(buffer.as_str(), "");
}

#[test]
fn scientific_field_of_representative_values() {
    assert_eq!(field(0.0, 20, 11), "   0.00000000000e+00");
    assert_eq!(field(1.0, 20, 11), "   1.00000000000e+00");
    assert_eq!(field(-1.0, 20, 11), "  -1.00000000000e+00");
    assert_eq!(field(1.5e-5, 20, 11), "   1.50000000000e-05");
    assert_eq!(field(-2.25e17, 20, 11), "  -2.25000000000e+17");
    assert_eq!(field(1.0e100, 20, 11), "  1.00000000000e+100");
    assert_eq!(field(1.0e-300, 20, 11), "  1.00000000000e-300");
    assert_eq!(field(5e-6, 11, 5), "5.00000e-06");
    assert_eq!(field(0.0, 11, 5), "0.00000e+00");
}

#[test]
fn scientific_field_has_the_width_and_reads_back() {
    let values = [0.0, 1.0, -1.0, 3.141592653589793, -2.5e-12, 6.02214076e23, 1e-310, 1.7e308];
    for value in values {
        let text = field(value, 20, 11);
        assert_eq!(text.len(), 20);
        let back: f64 = text.trim().parse().expect("a number");
        let tolerance = value.abs() * 1e-11;
        assert!((back - value).abs() <= tolerance, "{} read back as {}", value, back);
    }
}

#[test]
fn scientific_field_wider_than_requested_is_not_cut() {
    assert_eq!(field(-1.0e-200, 5, 11), "-1.00000000000e-200");
}

#[test]
fn scientific_text_without_exponent_gets_a_zero_exponent() {
    let mut buffer = LineBuffer::with_capacity(80);
    assert_eq!(write_scientific(&mut buffer, "NaN", 8), Ok(()));
    assert_eq!(buffer.as_str(), "  NaN+00");
}

#[test]
fn scientific_text_with_explicit_plus_and_minus_zero() {
    let mut buffer = LineBuffer::with_capacity(80);
    assert_eq!(write_scientific(&mut buffer, "1.5E+7", 0), Ok(()));
    assert_eq!(buffer.as_str(), "1.5E+07");
    buffer.clear();
    assert_eq!(write_scientific(&mut buffer, "1.5e-0", 0), Ok(()));
    assert_eq!(buffer.as_str(), "1.5e+00");
}

#[test]
fn scientific_text_that_cannot_be_read_is_an_error() {
    let mut buffer = LineBuffer::with_capacity(80);
    buffer.push_str("keep");
    assert_eq!(write_scientific(&mut buffer, "1.0ex", 20), Err(UffError::Format));
    assert_eq!(write_scientific(&mut buffer, "1.0e+-3", 20), Err(UffError::Format));
    assert_eq!(write_scientific(&mut buffer, "1.0e1000", 20), Err(UffError::Format));
    assert_eq!(write_scientific(&mut buffer, "1.0e5 ", 20), Err(UffError::Format));
    let long = "1".repeat(33);
    assert_eq!(write_scientific(&mut buffer, &long, 20), Err(UffError::Format));
    assert_eq!(buffer.as_str(), "keep");
    let fits = format!("{}e3", "1".repeat(31));
    assert_eq!(write_scientific(&mut buffer, &fits, 0), Ok(()));
}

#[test]
fn scientific_reader_takes_text_in_pieces() {
    let mut whole = ScientificComponents::new();
    assert_eq!(whole.write_str("-1.25e-12"), Ok(()));
    let mut pieces = ScientificComponents::new();
    assert_eq!(pieces.write_str("-1.2"), Ok(()));
    assert_eq!(pieces.write_str("5e"), Ok(()));
    assert_eq!(pieces.write_str("-1"), Ok(()));
    assert_eq!(pieces.write_str("2"), Ok(()));
    assert_eq!(pieces.write_str("x"), Err(UffError::Format));
}

#[test]
fn data_line_holds_up_to_four_fields() {
    let mut buffer = LineBuffer::with_capacity(80);
    buffer.push_str("old");
    let values: Vec<String> =
        [1.0f64, -2.0, 0.5].iter().map(|v| format!("{:.11e}", v)).collect();
    assert_eq!(format_data_line(&mut buffer, &values), Ok(()));
    assert_eq!(
        buffer.as_str(),
        "   1.00000000000e+00  -2.00000000000e+00   5.00000000000e-01"
    );
    let bad = vec!["1.0e0".to_string(), "1e+x".to_string()];
    assert_eq!(format_data_line(&mut buffer, &bad), Err(UffError::Format));
}

#[test]
fn ascii_dataset_matches_the_reference_layout() {
    let (data, text) = channel(&[0.0, 1.0, -1.0, 0.5, 2.0], 200000.0, "g");
    let mut out = Vec::new();
    assert_eq!(write_uff58_ascii(&mut out, &data, &text, "IEPE 100 mV/g"), Ok(()));
    let mut expected = Vec::new();
    for line in [
        "    -1",
        "    58",
        "",
        "Pt=IEPE 100 mV/g;",
        "",
        "NONE",
        "NONE",
        "    1         0    0         0 IEPE 100 mV/g      0   0 NONE               1   0",
        "         4         5         1  0.00000e+00  5.00000e-06  0.00000e+00",
        "        17    0    0    0 Time                 s",
        "         8    0    0    0 IEPE 100 mV/g        g",
        "         0    0    0    0 NONE                 NONE",
        "         0    0    0    0 NONE                 NONE",
        "   0.00000000000e+00   1.00000000000e+00  -1.00000000000e+00   5.00000000000e-01",
        "   2.00000000000e+00",
        "    -1",
    ] {
        expected.extend_from_slice(&record(line));
    }
    assert_eq!(String::from_utf8_lossy(&out), String::from_utf8_lossy(&expected));
    assert_eq!(out, expected);
}

#[test]
fn ascii_dataset_appends_to_what_is_there() {
    let (first, first_text) = channel(&[1.0; 8], 1000.0, "g");
    let (second, second_text) = channel(&[], 1000.0, "m/s^2");
    let mut out = Vec::new();
    assert_eq!(write_uff58_ascii(&mut out, &first, &first_text, "one"), Ok(()));
    let one = out.clone();
    assert_eq!(one.len(), 81 * (13 + 2 + 1));
    assert_eq!(write_uff58_ascii(&mut out, &second, &second_text, "two"), Ok(()));
    assert_eq!(&out[..one.len()], &one[..]);
    assert_eq!(out.len() - one.len(), 81 * 14);
}

#[test]
fn ascii_dataset_truncates_labels() {
    let name = "A very long channel label beyond nineteen characters and more than sixty-four of them";
    let units = "a unit whose name is longer than thirty-three characters";
    let (data, text) = channel(&[1.0], 10.0, units);
    let mut out = Vec::new();
    assert_eq!(write_uff58_ascii(&mut out, &data, &text, name), Ok(()));
    let lines: Vec<&[u8]> = out.split_inclusive(|b| *b == b'\n').collect();
    let label64: String = name.chars().take(64).collect();
    assert_eq!(lines[3], &record(&format!("Pt={};", label64))[..]);
    assert_eq!(
        lines[7],
        &record("    1         0    0         0 A very long channel0   0 NONE               1   0")[..]
    );
    assert_eq!(
        lines[10],
        &record("         8    0    0    0 A very long channel  a unit whose name is longer than ")[..]
    );
}

#[test]
fn ascii_dataset_with_unreadable_text_writes_nothing() {
    let (data, mut text) = channel(&[1.0, 2.0], 10.0, "g");
    text.samples[1] = "2.0e".to_string() + "x";
    let mut out = vec![1u8, 2, 3];
    assert_eq!(write_uff58_ascii(&mut out, &data, &text, "t"), Err(UffError::Format));
    assert_eq!(out, vec![1u8, 2, 3]);
    let (data, mut text) = channel(&[1.0, 2.0], 10.0, "g");
    text.time_step = "abc e!".to_string();
    assert_eq!(write_uff58_ascii(&mut out, &data, &text, "t"), Err(UffError::Format));
    let (data, mut text) = channel(&[1.0, 2.0], 10.0, "g");
    text.samples.pop();
    assert_eq!(write_uff58_ascii(&mut out, &data, &text, "t"), Err(UffError::SampleTextCount));
    assert_eq!(out, vec![1u8, 2, 3]);
}

#[test]
fn binary_dataset_holds_the_samples_bit_for_bit() {
    let samples = [0.0f32, 1.0, -1.0, 98.517_61];
    let (data, text) = channel(&samples, 200000.0, "g");
    let mut little = Vec::new();
    assert_eq!(
        write_uff58b_ordered(&mut little, &data, &text, "IEPE 100 mV/g", ByteOrder::LittleEndian),
        Ok(())
    );
    let mut expected = Vec::new();
    for line in [
        "    -1",
        "    58b     1     2          11          16     0     0           0           0",
        "",
        "Pt=IEPE 100 mV/g;",
        "",
        "NONE",
        "NONE",
        "    1         0    0         0 IEPE 100 mV/g      0   0 NONE               1   0",
        "         2         4         1  0.00000e+00  5.00000e-06  0.00000e+00",
        "        17    0    0    0 Time                 s",
        "         8    0    0    0 IEPE 100 mV/g        g",
        "         0    0    0    0 NONE                 NONE",
        "         0    0    0    0 NONE                 NONE",
    ] {
        expected.extend_from_slice(&record(line));
    }
    for value in samples {
        expected.extend_from_slice(&value.to_le_bytes());
    }
    expected.extend_from_slice(&record("    -1"));
    assert_eq!(little, expected);

    let mut big = Vec::new();
    assert_eq!(
        write_uff58b_ordered(&mut big, &data, &text, "IEPE 100 mV/g", ByteOrder::BigEndian),
        Ok(())
    );
    let start = 81 * 13;
    assert_eq!(&big[81..162], &record(
        "    58b     2     2          11          16     0     0           0           0"
    )[..]);
    for (i, value) in samples.iter().enumerate() {
        assert_eq!(&big[start + 4 * i..start + 4 * i + 4], &value.to_be_bytes()[..]);
    }
}

#[test]
fn fields_are_written_side_by_side() {
    let mut buffer = LineBuffer::with_capacity(80);
    buffer.push_str(">");
    buffer.write_fmt(&[
        Field::Number(17, 10),
        Field::Number(0, 5),
        Field::Text(" "),
        Field::Left("Time", 6),
        Field::Right("s", 3),
        Field::Left("too long", 3),
        Field::Right("too long", 0),
        Field::Number(1234567, 3),
    ]);
    assert_eq!(buffer.as_str(), ">        17    0 Time    stoo longtoo long1234567");
    buffer.write_fmt(&[]);
    assert_eq!(buffer.as_str(), ">        17    0 Time    stoo longtoo long1234567");
}
