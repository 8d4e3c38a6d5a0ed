use dts_to_uff_converter::conversion::{
    build_channel_plan, finish_report, load_track_names, parse_track_names,
    parse_track_selection, split_names, track_label, write_channels, ConversionError,
    ExtractedChannel, OutputFormat, SampleSlice,
};
use dts_to_uff_converter::dts::ChannelData;
use dts_to_uff_converter::text::{
    parse_number, sort_dedup, trim, ParseNumberError,
};
use dts_to_uff_converter::uff::{write_uff58_ascii, write_uff58b_ordered, ByteOrder, ChannelText, UffError};

fn strings(items: &[&str]) -> Vec<String> {
    items.iter().map(|s| s.to_string()).collect()
}

fn extracted(order: usize, name: &str, samples: &[f32]) -> ExtractedChannel {
    ExtractedChannel {
        order,
        track_name: name.to_string(),
        data: ChannelData {
            time_series: samples.iter().map(|v| v.to_bits()).collect(),
            sample_rate: 1000.0f64.to_bits(),
            units: "g".to_string(),
        },
        text: ChannelText {
            time_step: format!("{:.5e}", 1.0 / 1000.0),
            samples: samples.iter().map(|v| format!("{:.11e}", *v as f64)).collect(),
        },
    }
}

#[test]
fn output_format_has_a_name_and_is_read_from_it() {
    assert_eq!(OutputFormat::Ascii.as_str(), "ascii");
    assert_eq!(OutputFormat::Binary.as_str(), "binary");
    assert_eq!(OutputFormat::from_str("ascii"), Ok(OutputFormat::Ascii));
    assert_eq!(OutputFormat::from_str("  BiNaRy\n"), Ok(OutputFormat::Binary));
    assert_eq!(
        OutputFormat::from_str(" Text "),
        Err("Unsupported output format 'text'. Expected 'ascii' or 'binary'.".to_string())
    );
    assert_eq!(
        OutputFormat::from_str(""),
        Err("Unsupported output format ''. Expected 'ascii' or 'binary'.".to_string())
    );
}

#[test]
fn slice_is_read_from_start_and_end() {
    assert_eq!(SampleSlice::from_str("0:10"), Ok(SampleSlice { start: 0, end: 10 }));
    assert_eq!(SampleSlice::from_str(" 5 : +7 "), Ok(SampleSlice { start: 5, end: 7 }));
    assert_eq!(SampleSlice::from_str("9:3"), Ok(SampleSlice { start: 9, end: 3 }));
    assert_eq!(
        SampleSlice::from_str("12"),
        Err("Slice must be provided in the format start:end".to_string())
    );
    assert_eq!(
        SampleSlice::from_str(" a:3"),
        Err("Failed to parse slice start ' a': invalid digit found in string".to_string())
    );
    assert_eq!(
        SampleSlice::from_str("1: "),
        Err("Failed to parse slice end ' ': cannot parse integer from empty string".to_string())
    );
    assert_eq!(
        SampleSlice::from_str("1:2:3"),
        Err("Failed to parse slice end '2:3': invalid digit found in string".to_string())
    );
    assert_eq!(
        SampleSlice::from_str("-1:2"),
        Err("Failed to parse slice start '-1': invalid digit found in string".to_string())
    );
    assert_eq!(
        SampleSlice::from_str("1:99999999999999999999999999"),
        Err("Failed to parse slice end '99999999999999999999999999': number too large to fit in target type"
            .to_string())
    );
}

#[test]
fn slice_that_does_not_fit_is_an_error_and_never_cut() {
    let series: Vec<u32> = (0..10).collect();
    assert_eq!(SampleSlice { start: 2, end: 5 }.apply(&series), Ok(vec![2, 3, 4]));
    assert_eq!(SampleSlice { start: 0, end: 10 }.apply(&series), Ok(series.clone()));
    assert_eq!(SampleSlice { start: 9, end: 10 }.apply(&series), Ok(vec![9]));
    assert_eq!(
        SampleSlice { start: 5, end: 5 }.apply(&series),
        Err(ConversionError::SliceOrder { start: 5, end: 5 })
    );
    assert_eq!(
        SampleSlice { start: 7, end: 3 }.apply(&series),
        Err(ConversionError::SliceOrder { start: 7, end: 3 })
    );
    assert_eq!(
        SampleSlice { start: 3, end: 11 }.apply(&series),
        Err(ConversionError::SliceBeyondSamples { end: 11, available: 10 })
    );
    assert_eq!(
        SampleSlice { start: 20, end: 11 }.apply(&series),
        Err(ConversionError::SliceOrder { start: 20, end: 11 })
    );
    assert_eq!(SampleSlice { start: 2, end: 5 }.as_range(10), Ok(2..5));
    assert_eq!(
        SampleSlice { start: 0, end: 1 }.as_range(0),
        Err(ConversionError::SliceBeyondSamples { end: 1, available: 0 })
    );
    let floats = vec![0.5f32, 1.5, 2.5];
    assert_eq!(SampleSlice { start: 1, end: 3 }.apply(&floats), Ok(vec![1.5f32, 2.5]));
}

#[test]
fn track_names_are_split_trimmed_and_kept_in_order() {
    assert_eq!(
        parse_track_names("one, two\r\n three \n\n,,four\rfive"),
        strings(&["one", "two", "three", "four", "five"])
    );
    assert_eq!(parse_track_names(""), Vec::<String>::new());
    assert_eq!(parse_track_names(" \n , \r "), Vec::<String>::new());
    assert_eq!(parse_track_names("IEPE 100 mV/g"), strings(&["IEPE 100 mV/g"]));
    assert_eq!(split_names("a\nb,c", false), strings(&["a\nb", "c"]));
    assert_eq!(split_names("a\nb,c", true), strings(&["a", "b", "c"]));
    assert_eq!(load_track_names("x\ny"), Some(strings(&["x", "y"])));
    assert_eq!(load_track_names(" , "), None);
}

#[test]
fn track_selection_needs_a_name() {
    assert_eq!(parse_track_selection("a, b ,a"), Ok(strings(&["a", "b", "a"])));
    assert_eq!(parse_track_selection("a\nb"), Ok(strings(&["a\nb"])));
    assert_eq!(
        parse_track_selection(" ,, "),
        Err("At least one track name must be provided".to_string())
    );
    assert_eq!(
        parse_track_selection(""),
        Err("At least one track name must be provided".to_string())
    );
}

#[test]
fn plan_without_selection_takes_every_channel() {
    let plan = build_channel_plan(&strings(&["a"]), None, 3);
    assert_eq!(plan.entries, vec![(0, 0), (1, 1), (2, 2)]);
    assert!(plan.warnings.is_empty());
    let plan = build_channel_plan(&strings(&["a"]), None, 0);
    assert!(plan.entries.is_empty());
}

#[test]
fn plan_follows_the_requests_not_the_channels() {
    let names = strings(&["x", "y", "z", "y"]);
    let wanted = strings(&["z", "nope", "y", "x", "y", "y", "nope"]);
    let plan = build_channel_plan(&names, Some(&wanted), 4);
    assert_eq!(plan.entries, vec![(0, 2), (2, 1), (3, 0), (4, 3)]);
    assert_eq!(
        plan.warnings,
        strings(&[
            "Requested track 'nope' was not found in the provided track list.",
            "Requested track 'y' was not found in the provided track list.",
            "Requested track 'nope' was not found in the provided track list.",
        ])
    );
    let plan = build_channel_plan(&names, Some(&vec![]), 4);
    assert!(plan.entries.is_empty());
    assert!(plan.warnings.is_empty());
    let plan = build_channel_plan(&vec![], Some(&strings(&["a"])), 0);
    assert!(plan.entries.is_empty());
    assert_eq!(plan.warnings.len(), 1);
}

#[test]
fn label_is_the_track_name_or_the_channel_number() {
    let names = strings(&["first", "second"]);
    assert_eq!(track_label(&names, 0), "first");
    assert_eq!(track_label(&names, 1), "second");
    assert_eq!(track_label(&names, 2), "Channel_3");
    assert_eq!(track_label(&names, 99), "Channel_100");
    assert_eq!(track_label(&names, usize::MAX), format!("Channel_{}", usize::MAX as u128 + 1));
}

#[test]
fn channels_are_written_by_output_place() {
    let channels = vec![
        extracted(2, "c", &[3.0]),
        extracted(0, "a", &[1.0, 1.5]),
        extracted(1, "b", &[]),
    ];
    let mut out = vec![9u8];
    let names = write_channels(&mut out, &channels, OutputFormat::Ascii, ByteOrder::LittleEndian);
    assert_eq!(names, Ok(strings(&["a", "b", "c"])));
    let mut expected = vec![9u8];
    for i in [1usize, 2, 0] {
        let c = &channels[i];
        assert_eq!(write_uff58_ascii(&mut expected, &c.data, &c.text, &c.track_name), Ok(()));
    }
    assert_eq!(out, expected);

    let mut out = Vec::new();
    let names = write_channels(&mut out, &channels, OutputFormat::Binary, ByteOrder::BigEndian);
    assert_eq!(names, Ok(strings(&["a", "b", "c"])));
    let mut expected = Vec::new();
    for i in [1usize, 2, 0] {
        let c = &channels[i];
        assert_eq!(
            write_uff58b_ordered(&mut expected, &c.data, &c.text, &c.track_name, ByteOrder::BigEndian),
            Ok(())
        );
    }
    assert_eq!(out, expected);
}

#[test]
fn nothing_is_written_when_a_channel_fails() {
    let mut bad = extracted(1, "b", &[2.0]);
    bad.text.samples[0] = "2e+".to_string() + "?";
    let channels = vec![extracted(0, "a", &[1.0]), bad];
    let mut out = vec![1u8, 2];
    assert_eq!(
        write_channels(&mut out, &channels, OutputFormat::Ascii, ByteOrder::LittleEndian),
        Err(UffError::Format)
    );
    assert_eq!(out, vec![1u8, 2]);
    let mut out = Vec::new();
    assert_eq!(
        write_channels(&mut out, &channels, OutputFormat::Binary, ByteOrder::LittleEndian).map(|n| n.len()),
        Ok(2)
    );
}

#[test]
fn report_holds_counts_and_warnings_in_order_each_once() {
    let report = finish_report(
        3,
        2,
        strings(&["b", "a"]),
        strings(&[
            "Requested track 'z' was not found in the provided track list.",
            "Requested track 'a' was not found in the provided track list.",
            "Requested track 'z' was not found in the provided track list.",
        ]),
        true,
    );
    assert_eq!(report.channel_count, 2);
    assert_eq!(report.track_name_count, 3);
    assert_eq!(report.processed_track_names, strings(&["b", "a"]));
    assert_eq!(
        report.warnings,
        strings(&[
            "Number of track names (3) does not match number of channels (2)",
            "Requested track 'a' was not found in the provided track list.",
            "Requested track 'z' was not found in the provided track list.",
        ])
    );
    let report = finish_report(2, 2, strings(&["a"]), vec![], false);
    assert_eq!(
        report.warnings,
        strings(&["Channel count (2) did not match processed channel count (1)."])
    );
    let report = finish_report(2, 2, strings(&["a"]), vec![], true);
    assert!(report.warnings.is_empty());
    let report = finish_report(0, 0, vec![], vec![], false);
    assert!(report.warnings.is_empty());
    assert_eq!(report.channel_count, 0);
}

#[test]
fn texts_are_sorted_like_strings() {
    let mut items = strings(&["b", "", "ab", "a", "B", "é", "z", "a", "aa", "b"]);
    let sorted = sort_dedup(&items);
    items.sort();
    items.dedup();
    assert_eq!(sorted, items);
    assert_eq!(sort_dedup(&vec![]), Vec::<String>::new());
}

#[test]
fn numbers_are_read_as_the_standard_library_reads_them() {
    let max = u32::MAX as u64;
    for text in ["0", "7", "+7", "007", "4294967295", "4294967296", "", "+", "-", "-0", "1x", " 1", "1 ",
        "99999999999999999999999", "9999999999x", "x9999999999", "++1", "٣"] {
        let expected = match text.parse::<u32>() {
            Ok(v) => Ok(v as u64),
            Err(e) => Err(e.to_string()),
        };
        let found = parse_number(text, max).map_err(|e| {
            dts_to_uff_converter::text::parse_error_text(e).to_string()
        });
        assert_eq!(found, expected, "for {:?}", text);
    }
    assert_eq!(parse_number("10", 9), Err(ParseNumberError::Overflow));
    assert_eq!(parse_number("9", 9), Ok(9));
    assert_eq!(parse_number("18446744073709551615", u64::MAX), Ok(u64::MAX));
    assert_eq!(parse_number("18446744073709551616", u64::MAX), Err(ParseNumberError::Overflow));
}

#[test]
fn trim_takes_off_the_white_space_of_the_standard_library() {
    for text in ["", " ", "a", "  a b  ", "\t\r\n x \u{a0}\u{2003}", "\u{feff}x", "é ", " \u{3000}"] {
        assert_eq!(trim(text), text.trim(), "for {:?}", text);
    }
}

#[test]
fn slice_errors_say_what_went_wrong() {
    assert_eq!(
        ConversionError::SliceOrder { start: 7, end: 3 }.message(),
        "Invalid slice: start index (7) must be less than end index (3)."
    );
    assert_eq!(
        ConversionError::SliceBeyondSamples { end: 11, available: 10 }.message(),
        "Invalid slice: end index (11) exceeds available samples (10)."
    );
}
