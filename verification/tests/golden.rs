use dts_to_uff_converter::conversion::{
    build_channel_plan, finish_report, parse_track_names, track_label, write_channels,
    ExtractedChannel, OutputFormat, SampleSlice,
};
use dts_to_uff_converter::dts::{
    AnalogInputChannel, ChannelData, ChannelFile, ChnHeader, DtsReader, ZeroMethod,
};
use dts_to_uff_converter::uff::{
    native_byte_order, write_uff58_ascii, write_uff58_with_format, write_uff58b, ByteOrder,
    ChannelText, Uff58Format,
};

fn record(text: &str) -> Vec<u8> {
    let mut line = text.as_bytes().to_vec();
    while line.len() < 80 {
        line.push(b' ');
    }
    line.push(b'\n');
    line
}

fn chn_file(
    rate: f64,
    pre_zero: i32,
    data_zero: i32,
    scale_mv: f64,
    scale_eu: f64,
    samples: &[i16],
) -> Vec<u8> {
    let mut bytes = vec![0u8; 90];
    bytes[0..4].copy_from_slice(&0x2C36351Fu32.to_le_bytes());
    bytes[8..16].copy_from_slice(&90u64.to_le_bytes());
    bytes[16..24].copy_from_slice(&(samples.len() as u64).to_le_bytes());
    bytes[32..40].copy_from_slice(&rate.to_le_bytes());
    bytes[42..46].copy_from_slice(&pre_zero.to_le_bytes());
    bytes[70..74].copy_from_slice(&data_zero.to_le_bytes());
    bytes[74..82].copy_from_slice(&scale_mv.to_le_bytes());
    bytes[82..90].copy_from_slice(&scale_eu.to_le_bytes());
    for sample in samples {
        bytes.extend_from_slice(&sample.to_le_bytes());
    }
    bytes
}

fn number(text: &Option<String>, absent: f64) -> f64 {
    match text {
        Some(text) => text.trim().parse::<f64>().unwrap_or(f64::NAN),
        None => absent,
    }
}

fn calibrate(raw: &[i16], header: &ChnHeader, meta: &AnalogInputChannel) -> Vec<f32> {
    let scale_eu = f64::from_bits(header.scale_factor_eu);
    let mut scale_mv = f64::from_bits(header.scale_factor_mv);
    if meta.is_inverted {
        scale_mv = -scale_mv;
    }
    let factory = number(&meta.factory_excitation_voltage, f64::NAN);
    let measured = number(&meta.measured_excitation_voltage, f64::NAN);
    let initial_eu = number(&meta.initial_eu, 0.0);
    let excitation = if !meta.proportional_to_excitation {
        1.0
    } else if factory.is_nan() {
        measured
    } else {
        factory
    };
    let offset = match meta.zero_method {
        ZeroMethod::UsePreCalZero => {
            (-f64::from(header.pre_test_zero_level_adc) * scale_mv / scale_eu / excitation)
                + initial_eu
        }
        ZeroMethod::AverageOverTime => {
            (-f64::from(header.data_zero_level_adc) * scale_mv / scale_eu / excitation)
                + initial_eu
        }
        ZeroMethod::NoZero => initial_eu,
    };
    let scale = scale_mv / scale_eu / excitation;
    raw.iter().map(|adc| ((f64::from(*adc) * scale) + offset) as f32).collect()
}

fn recording() -> DtsReader {
    let xml = "<?xml version=\"1.0\" encoding=\"utf-8\"?>\
        <Test><Modules><Module StartRecordSampleNumber=\"0\"><AnalogInputChannels>\
        <AnalogInputChanel ProportionalToExcitation=\"False\" IsInverted=\"True\" \
        InitialEu=\"1\" ZeroMethod=\"AverageOverTime\" Eu=\"m/s^2\" AbsoluteDisplayOrder=\"2\" \
        Description=\"Second\" SerialNumber=\"S2\" Sensitivity=\"10\"/>\
        <AnalogInputChanel ProportionalToExcitation=\"True\" IsInverted=\"False\" \
        MeasuredExcitationVoltage=\"9\" FactoryExcitationVoltage=\"2\" InitialEu=\"0.25\" \
        ZeroMethod=\"UsePreCalZero\" Eu=\"g\" AbsoluteDisplayOrder=\"1\" \
        Description=\"IEPE 100 mV/g\" SerialNumber=\"PCB_B34_xx\" Sensitivity=\"98.5176059\"/>\
        </AnalogInputChannels></Module></Modules></Test>";
    let first = chn_file(200000.0, 4, 77, 0.5, 2.0, &[0, 2, -2, 8, 100]);
    let second = chn_file(200000.0, 55, -8, 1.0, 4.0, &[4, -4, 0, 1000]);
    DtsReader::new(
        xml.as_bytes(),
        vec![
            ChannelFile { path: "rec/track10.chn".to_string(), bytes: second },
            ChannelFile { path: "rec/track9.chn".to_string(), bytes: first },
        ],
    )
    .expect("a recording")
}

fn extract(reader: &DtsReader, index: usize) -> (ChannelData, Vec<f32>) {
    let raw = reader.read_track(index).expect("samples");
    let header = reader.header(index).expect("a header");
    let meta = reader.metadata(index).expect("metadata");
    let series = calibrate(&raw, &header, meta);
    let data = ChannelData {
        time_series: series.iter().map(|v| v.to_bits()).collect(),
        sample_rate: header.sample_rate,
        units: meta.eu.clone(),
    };
    (data, series)
}

fn text_of(series: &[f32], rate_bits: u64) -> ChannelText {
    ChannelText {
        time_step: format!("{:.5e}", 1.0 / f64::from_bits(rate_bits)),
        samples: series.iter().map(|v| format!("{:.11e}", f64::from(*v))).collect(),
    }
}

fn reference() -> Vec<u8> {
    let mut expected = Vec::new();
    for line in [
        "    -1",
        "    58",
        "",
        "Pt=IEPE 100 mV/g;",
        "",
        "NONE",
        "NONE",
        "    1         0    0         0 IEPE 100 mV/g      0   0 NONE               1   0",
        "         4         4         1  0.00000e+00  5.00000e-06  0.00000e+00",
        "        17    0    0    0 Time                 s",
        "         8    0    0    0 IEPE 100 mV/g        g",
        "         0    0    0    0 NONE                 NONE",
        "         0    0    0    0 NONE                 NONE",
        "  -2.50000000000e-01   0.00000000000e+00  -5.00000000000e-01   7.50000000000e-01",
        "    -1",
        "    -1",
        "    58",
        "",
        "Pt=Second;",
        "",
        "NONE",
        "NONE",
        "    1         0    0         0 Second             0   0 NONE               1   0",
        "         4         4         1  0.00000e+00  5.00000e-06  0.00000e+00",
        "        17    0    0    0 Time                 s",
        "         8    0    0    0 Second               m/s^2",
        "         0    0    0    0 NONE                 NONE",
        "         0    0    0    0 NONE                 NONE",
        "  -2.00000000000e+00   0.00000000000e+00  -1.00000000000e+00  -2.51000000000e+02",
        "    -1",
    ] {
        expected.extend_from_slice(&record(line));
    }
    expected
}

#[test]
fn rust_output_matches_matlab_reference() {
    let track_names = parse_track_names("IEPE 100 mV/g\r\nSecond\r\n");

    let reader = recording();
    assert_eq!(reader.channel_count(), track_names.len());

    let mut produced = Vec::new();
    let mut append_request = false;

    for (i, track_name) in track_names.iter().enumerate() {
        let (data, series) = extract(&reader, i);
        let text = text_of(&series, data.sample_rate);
        if !append_request {
            produced.clear();
        }
        write_uff58_with_format(&mut produced, &data, &text, track_name, Uff58Format::Ascii)
            .expect("a dataset");
        append_request = true;
    }

    let expected = reference();
    assert_eq!(String::from_utf8_lossy(&produced), String::from_utf8_lossy(&expected));
    assert_eq!(produced, expected);
}

#[test]
fn conversion_of_the_whole_recording_matches_the_reference() {
    let track_names = parse_track_names("IEPE 100 mV/g, Second");
    let reader = recording();
    let plan = build_channel_plan(&track_names, None, reader.channel_count());
    let extracted: Vec<ExtractedChannel> = plan
        .entries
        .iter()
        .map(|&(order, index)| {
            let (data, series) = extract(&reader, index);
            let text = text_of(&series, data.sample_rate);
            ExtractedChannel { order, track_name: track_label(&track_names, index), data, text }
        })
        .collect();
    let mut out = Vec::new();
    let names =
        write_channels(&mut out, &extracted, OutputFormat::Ascii, native_byte_order()).unwrap();
    assert_eq!(out, reference());
    let report = finish_report(track_names.len(), reader.channel_count(), names, plan.warnings, false);
    assert_eq!(report.channel_count, 2);
    assert_eq!(report.track_name_count, 2);
    assert_eq!(report.processed_track_names, track_names);
    assert!(report.warnings.is_empty());
}

#[test]
fn selected_and_sliced_conversion_writes_the_request() {
    let track_names = parse_track_names("IEPE 100 mV/g, Second");
    let reader = recording();
    let wanted = vec!["Second".to_string(), "Third".to_string(), "IEPE 100 mV/g".to_string()];
    let plan = build_channel_plan(&track_names, Some(&wanted), reader.channel_count());
    assert_eq!(plan.entries, vec![(0, 1), (2, 0)]);
    let slice = SampleSlice { start: 1, end: 3 };
    let mut extracted: Vec<ExtractedChannel> = plan
        .entries
        .iter()
        .map(|&(order, index)| {
            let (mut data, series) = extract(&reader, index);
            let series = slice.apply(&series).expect("a slice within the samples");
            data.time_series = slice.apply(&data.time_series).expect("the same slice");
            let text = text_of(&series, data.sample_rate);
            ExtractedChannel { order, track_name: track_label(&track_names, index), data, text }
        })
        .collect();
    extracted.reverse();
    let mut out = Vec::new();
    let names =
        write_channels(&mut out, &extracted, OutputFormat::Ascii, native_byte_order()).unwrap();
    assert_eq!(names, vec!["Second".to_string(), "IEPE 100 mV/g".to_string()]);
    let lines: Vec<&[u8]> = out.split_inclusive(|b| *b == b'\n').collect();
    assert_eq!(lines.len(), 30);
    assert_eq!(lines[3], &record("Pt=Second;")[..]);
    assert_eq!(
        lines[8],
        &record("         4         2         1  0.00000e+00  5.00000e-06  0.00000e+00")[..]
    );
    assert_eq!(lines[13], &record("   0.00000000000e+00  -1.00000000000e+00")[..]);
    assert_eq!(lines[18], &record("Pt=IEPE 100 mV/g;")[..]);
    assert_eq!(lines[28], &record("   0.00000000000e+00  -5.00000000000e-01")[..]);
    let report = finish_report(track_names.len(), reader.channel_count(), names, plan.warnings, true);
    assert_eq!(
        report.warnings,
        vec!["Requested track 'Third' was not found in the provided track list.".to_string()]
    );
    assert!(SampleSlice { start: 1, end: 5 }.apply(&extracted[0].data.time_series).is_err());
}

#[test]
fn binary_dataset_is_in_the_byte_order_of_the_machine() {
    let reader = recording();
    let (data, series) = extract(&reader, 0);
    let text = text_of(&series, data.sample_rate);
    let mut native = Vec::new();
    write_uff58b(&mut native, &data, &text, "IEPE 100 mV/g").expect("a dataset");
    let mut through_format = Vec::new();
    write_uff58_with_format(&mut through_format, &data, &text, "IEPE 100 mV/g", Uff58Format::Binary58b)
        .expect("a dataset");
    assert_eq!(native, through_format);
    let code = match native_byte_order() {
        ByteOrder::LittleEndian => '1',
        ByteOrder::BigEndian => '2',
    };
    assert_eq!(native[81 + 12] as char, code);
    let start = 81 * 13;
    for (i, value) in series.iter().enumerate() {
        assert_eq!(&native[start + 4 * i..start + 4 * i + 4], &value.to_ne_bytes()[..]);
    }
    assert_eq!(native.len(), start + 4 * series.len() + 81);
    let mut ascii = Vec::new();
    write_uff58_ascii(&mut ascii, &data, &text, "IEPE 100 mV/g").expect("a dataset");
    assert_eq!(&native[..81], &ascii[..81]);
}
