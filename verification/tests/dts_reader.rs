use dts_to_uff_converter::dts::{
    channel_file_entries, find_file_by_extension, read_chn_header, zero_level, ChannelFile,
    DirEntry, DtsError, DtsReader, ZeroMethod, MAX_HEADER_LEN,
};
use dts_to_uff_converter::ranking::{rank_by_key, rank_by_name};
use dts_to_uff_converter::xml::{
    parse_dts_metadata, read_dts_xml, read_nodes, sanitize_duplicate_xml_headers, sniff_bom,
    TextEncoding, XmlNode,
};

fn chn_bytes(
    triggers: u16,
    start: u64,
    npts: u64,
    rate: f64,
    pre_zero: i32,
    data_zero: i32,
    scale_mv: f64,
    scale_eu: f64,
    samples: &[i16],
) -> Vec<u8> {
    let shift = 8 * triggers as usize;
    let mut bytes = vec![0xAAu8; 90 + shift];
    bytes[0..4].copy_from_slice(&0x2C36351Fu32.to_le_bytes());
    bytes[8..16].copy_from_slice(&start.to_le_bytes());
    bytes[16..24].copy_from_slice(&npts.to_le_bytes());
    bytes[32..40].copy_from_slice(&rate.to_le_bytes());
    bytes[40..42].copy_from_slice(&triggers.to_le_bytes());
    bytes[42..50].copy_from_slice(&(-7i64).to_le_bytes());
    bytes[42 + shift..46 + shift].copy_from_slice(&pre_zero.to_le_bytes());
    bytes[70 + shift..74 + shift].copy_from_slice(&data_zero.to_le_bytes());
    bytes[74 + shift..82 + shift].copy_from_slice(&scale_mv.to_le_bytes());
    bytes[82 + shift..90 + shift].copy_from_slice(&scale_eu.to_le_bytes());
    while (bytes.len() as u64) < start {
        bytes.push(0x55);
    }
    for sample in samples {
        bytes.extend_from_slice(&sample.to_le_bytes());
    }
    bytes
}

fn fixture_xml() -> String {
    let mut xml = String::new();
    xml.push_str("<?xml version=\"1.0\" encoding=\"utf-8\"?>\n<Test Name=\"t\">\n <Modules>\n");
    xml.push_str("  <Module Number=\"0\" StartRecordSampleNumber=\"-2000\">\n   <AnalogInputChannels>\n");
    xml.push_str("    <AnalogInputChanel Number=\"1\" ProportionalToExcitation=\"False\" IsInverted=\"true\" ");
    xml.push_str("MeasuredExcitationVoltage=\"4.98\" InitialEu=\"0.5\" ZeroMethod=\"AverageOverTime\" Eu=\"m/s^2\" ");
    xml.push_str("AbsoluteDisplayOrder=\"2\" Description=\"Second &amp; last\" SerialNumber=\"SN-2\" Sensitivity=\"10.5\"/>\n");
    xml.push_str("    <AnalogInputChanel Number=\"0\" ProportionalToExcitation=\"True\" IsInverted=\"False\" ");
    xml.push_str("MeasuredExcitationVoltage=\"5.01\" FactoryExcitationVoltage=\"5\" InitialEu=\"0\" ZeroMethod=\"UsePreCalZero\" Eu=\"g\" ");
    xml.push_str("AbsoluteDisplayOrder=\"1\" Description=\"IEPE 100 mV/g\" SerialNumber=\"PCB_B34_xx\" Sensitivity=\"98.5176059\">");
    xml.push_str("</AnalogInputChanel>\n   </AnalogInputChannels>\n  </Module>\n </Modules>\n</Test>\n");
    xml
}

fn file(path: &str, bytes: Vec<u8>) -> ChannelFile {
    ChannelFile { path: path.to_string(), bytes }
}

fn fixture_reader() -> DtsReader {
    let first = chn_bytes(0, 96, 6, 200000.0, 3, 4, 0.25, 2.0, &[1, -2, 3, -4, 5, -6]);
    let second = chn_bytes(2, 128, 4, 200000.0, -3, 9, 0.5, 4.0, &[100, 200, -300, 32767]);
    DtsReader::new(
        fixture_xml().as_bytes(),
        vec![file("rec/ch10.chn", second), file("rec/ch2.chn", first)],
    )
    .expect("a well-formed recording")
}

#[test]
fn track_metadata_matches_dts_file() {
    let reader = fixture_reader();
    let metadata = reader.track_metadata();

    assert_eq!(metadata.len(), 2);

    let first = &metadata[0];
    assert_eq!(first.name, "IEPE 100 mV/g");
    assert_eq!(first.description, "IEPE 100 mV/g");
    assert!((f64::from_bits(first.sampling_rate) - 200_000.0).abs() < f64::EPSILON);
    let sensitivity: f64 = first.sensitivity.as_deref().expect("a sensitivity").parse().unwrap();
    assert!((sensitivity - 98.5176059).abs() < 1e-6);
    assert_eq!(first.serial_number, "PCB_B34_xx");
    assert_eq!(first.eu, "g");
}

#[test]
fn track_metadata_needs_no_samples() {
    let first = chn_bytes(0, 96, 6, 200000.0, 3, 4, 0.25, 2.0, &[]);
    let second = chn_bytes(2, 128, 4, 1000.0, -3, 9, 0.5, 4.0, &[]);
    let reader = DtsReader::new(
        fixture_xml().as_bytes(),
        vec![file("a1.chn", first), file("a2.chn", second)],
    )
    .expect("headers are enough");
    let metadata = reader.track_metadata();
    assert_eq!(metadata.len(), 2);
    assert_eq!(metadata[1].name, "Second & last");
    assert_eq!(metadata[1].eu, "m/s^2");
    assert_eq!(metadata[1].serial_number, "SN-2");
    assert_eq!(f64::from_bits(metadata[1].sampling_rate), 1000.0);
    assert_eq!(reader.read_track(0), Err(DtsError::Truncated));
}

#[test]
fn channels_are_ordered_by_display_order_and_files_by_natural_order() {
    let reader = fixture_reader();
    assert_eq!(reader.channel_count(), 2);
    assert_eq!(reader.file_path(0), Some("rec/ch2.chn"));
    assert_eq!(reader.file_path(1), Some("rec/ch10.chn"));
    assert_eq!(reader.file_path(2), None);
    let first = reader.metadata(0).expect("a channel");
    assert_eq!(first.display_order, 1);
    assert_eq!(first.zero_method, ZeroMethod::UsePreCalZero);
    assert!(first.proportional_to_excitation);
    assert!(!first.is_inverted);
    assert_eq!(first.factory_excitation_voltage.as_deref(), Some("5"));
    assert_eq!(first.measured_excitation_voltage.as_deref(), Some("5.01"));
    assert_eq!(first.initial_eu.as_deref(), Some("0"));
    assert_eq!(first.name, None);
    let second = reader.metadata(1).expect("a channel");
    assert_eq!(second.display_order, 2);
    assert_eq!(second.zero_method, ZeroMethod::AverageOverTime);
    assert!(second.is_inverted);
    assert!(!second.proportional_to_excitation);
    assert_eq!(second.factory_excitation_voltage, None);
    assert_eq!(second.description, "Second & last");
    assert!(reader.metadata(2).is_none());
    let header = reader.header(1).expect("a header");
    assert_eq!(header.trigger_count, 2);
    assert_eq!(header.pre_test_zero_level_adc, -3);
    assert_eq!(header.data_zero_level_adc, 9);
    assert_eq!(f64::from_bits(header.scale_factor_mv), 0.5);
    assert_eq!(f64::from_bits(header.scale_factor_eu), 4.0);
    assert_eq!(reader.header(2), None);
}

#[test]
fn every_track_has_the_smallest_sample_count() {
    let reader = fixture_reader();
    assert_eq!(reader.read_track(0), Ok(vec![1, -2, 3, -4]));
    assert_eq!(reader.read_track(1), Ok(vec![100, 200, -300, 32767]));
    assert_eq!(reader.read_track(2), Err(DtsError::OutOfBounds { index: 2 }));
}

#[test]
fn reader_fails_when_counts_differ() {
    let first = chn_bytes(0, 96, 6, 200000.0, 3, 4, 0.25, 2.0, &[1, 2, 3, 4, 5, 6]);
    let r = DtsReader::new(fixture_xml().as_bytes(), vec![file("only.chn", first)]);
    assert_eq!(r.err(), Some(DtsError::CountMismatch { channels: 2, files: 1 }));
    let r = DtsReader::new(fixture_xml().as_bytes(), vec![]);
    assert_eq!(r.err(), Some(DtsError::CountMismatch { channels: 2, files: 0 }));
    let empty = DtsReader::new(b"<Test/>", vec![]).expect("no channels, no files");
    assert_eq!(empty.channel_count(), 0);
    assert!(empty.track_metadata().is_empty());
}

#[test]
fn reader_fails_on_the_first_bad_header_in_natural_order() {
    let good = chn_bytes(0, 96, 1, 1.0, 0, 0, 1.0, 1.0, &[1]);
    let mut bad_magic = good.clone();
    bad_magic[0] = 0;
    let short = good[..60].to_vec();
    let r = DtsReader::new(
        fixture_xml().as_bytes(),
        vec![file("c10.chn", bad_magic.clone()), file("c9.chn", short.clone())],
    );
    assert_eq!(r.err(), Some(DtsError::Truncated));
    let r = DtsReader::new(
        fixture_xml().as_bytes(),
        vec![file("c9.chn", bad_magic), file("c10.chn", short)],
    );
    assert_eq!(r.err(), Some(DtsError::BadMagic));
}

#[test]
fn header_fields_stand_at_their_offsets() {
    let bytes = chn_bytes(3, 1234, 5678, 200000.0, -11, 12, 0.125, 8.0, &[]);
    let header = read_chn_header(&bytes).expect("a header");
    assert_eq!(header.channel_start, 1234);
    assert_eq!(header.npts, 5678);
    assert_eq!(header.sample_rate, 200000.0f64.to_bits());
    assert_eq!(header.trigger_count, 3);
    assert_eq!(header.trigger_sample_number, -7);
    assert_eq!(header.pre_test_zero_level_adc, -11);
    assert_eq!(header.data_zero_level_adc, 12);
    assert_eq!(header.scale_factor_mv, 0.125f64.to_bits());
    assert_eq!(header.scale_factor_eu, 8.0f64.to_bits());
}

#[test]
fn header_errors_name_their_cause() {
    let bytes = chn_bytes(1, 98, 1, 1.0, 0, 0, 1.0, 1.0, &[]);
    assert_eq!(bytes.len(), 98);
    assert!(read_chn_header(&bytes).is_ok());
    assert_eq!(read_chn_header(&bytes[..97]), Err(DtsError::Truncated));
    assert_eq!(read_chn_header(&bytes[..49]), Err(DtsError::Truncated));
    assert_eq!(read_chn_header(&bytes[..3]), Err(DtsError::Truncated));
    assert_eq!(read_chn_header(&[]), Err(DtsError::Truncated));
    let mut wrong = bytes.clone();
    wrong[3] ^= 0xFF;
    assert_eq!(read_chn_header(&wrong), Err(DtsError::BadMagic));
    assert_eq!(read_chn_header(&wrong[..4]), Err(DtsError::BadMagic));
    assert_eq!(read_chn_header(&bytes[..4]), Err(DtsError::Truncated));
}

#[test]
fn ranking_by_key_is_stable() {
    assert_eq!(rank_by_key(&vec![3, 1, 2, 1, 3, 0]), vec![5, 1, 3, 2, 0, 4]);
    assert_eq!(rank_by_key(&vec![]), Vec::<usize>::new());
    assert_eq!(rank_by_key(&vec![7, 7, 7]), vec![0, 1, 2]);
}

#[test]
fn ranking_by_name_counts_digit_runs_as_numbers() {
    let names: Vec<String> =
        ["ch10.chn", "ch2.chn", "ch1.chn", "ch20.chn", "ch3.chn"].iter().map(|s| s.to_string()).collect();
    assert_eq!(rank_by_name(&names), vec![2, 1, 4, 0, 3]);
    let names: Vec<String> = ["rfc2086.txt", "rfc822.txt", "rfc1.txt"].iter().map(|s| s.to_string()).collect();
    assert_eq!(rank_by_name(&names), vec![2, 1, 0]);
}

#[test]
fn directory_entries_are_selected_by_extension() {
    let entry = |path: &str, ext: Option<&str>, is_file: bool| DirEntry {
        path: path.to_string(),
        extension: ext.map(|e| e.to_string()),
        is_file,
    };
    let entries = vec![
        entry("d/tracks.txt", Some("txt"), true),
        entry("d/b.chn", Some("chn"), true),
        entry("d/test.dts", Some("dts"), true),
        entry("d/sub.chn", Some("chn"), false),
        entry("d/other.dts", Some("dts"), true),
        entry("d/a.chn", Some("chn"), true),
        entry("d/noext", None, true),
        entry("d/upper.CHN", Some("CHN"), true),
    ];
    assert_eq!(find_file_by_extension(&entries, "dts"), Ok(2));
    assert_eq!(find_file_by_extension(&entries, "uff"), Err(DtsError::NoMetadataFile));
    assert_eq!(find_file_by_extension(&vec![], "dts"), Err(DtsError::NoMetadataFile));
    assert_eq!(channel_file_entries(&entries), vec![1, 5]);
}

#[test]
fn metadata_is_decoded_from_its_encodings() {
    let text = "<a b=\"é\"/>";
    assert_eq!(read_dts_xml(text.as_bytes()), Ok(text.to_string()));
    assert_eq!(read_dts_xml(&[]), Ok(String::new()));
    let mut with_bom = vec![0xEF, 0xBB, 0xBF];
    with_bom.extend_from_slice(text.as_bytes());
    assert_eq!(read_dts_xml(&with_bom), Ok(text.to_string()));
    let units: Vec<u16> = text.encode_utf16().collect();
    let le: Vec<u8> = units.iter().flat_map(|u| u.to_le_bytes()).collect();
    let be: Vec<u8> = units.iter().flat_map(|u| u.to_be_bytes()).collect();
    assert_eq!(read_dts_xml(&le), Ok(text.to_string()));
    assert_eq!(read_dts_xml(&be), Ok(text.to_string()));
    let mut le_bom = vec![0xFF, 0xFE];
    le_bom.extend_from_slice(&le);
    let mut be_bom = vec![0xFE, 0xFF];
    be_bom.extend_from_slice(&be);
    assert_eq!(read_dts_xml(&le_bom), Ok(text.to_string()));
    assert_eq!(read_dts_xml(&be_bom), Ok(text.to_string()));
    assert_eq!(read_dts_xml(&[0xEF, 0xBB, 0xBF, 0xFF]), Err(DtsError::InvalidCharacters));
    assert_eq!(read_dts_xml(&[0xC3, 0x28, 0x41]), Err(DtsError::Encoding));
    assert_eq!(read_dts_xml(&[0xFF, 0xFE, 0x00, 0xD8]), Err(DtsError::InvalidCharacters));
}

#[test]
fn byte_order_marks_are_recognised() {
    assert_eq!(sniff_bom(&[0xEF, 0xBB, 0xBF, 0x41]), Some((TextEncoding::Utf8, 3)));
    assert_eq!(sniff_bom(&[0xFF, 0xFE]), Some((TextEncoding::Utf16Le, 2)));
    assert_eq!(sniff_bom(&[0xFE, 0xFF, 0x00]), Some((TextEncoding::Utf16Be, 2)));
    assert_eq!(sniff_bom(&[0xEF, 0xBB]), None);
    assert_eq!(sniff_bom(&[0xFF]), None);
    assert_eq!(sniff_bom(&[]), None);
    assert_eq!(sniff_bom(b"<?xml"), None);
}

#[test]
fn second_prolog_and_what_follows_is_dropped() {
    let mut xml = "<?xml version=\"1.0\"?><a/><?xml version=\"1.0\"?><b/>".to_string();
    sanitize_duplicate_xml_headers(&mut xml);
    assert_eq!(xml, "<?xml version=\"1.0\"?><a/>");
    let mut xml = "  <?xml?><a/>".to_string();
    sanitize_duplicate_xml_headers(&mut xml);
    assert_eq!(xml, "  <?xml?><a/>");
    let mut xml = "<a/>".to_string();
    sanitize_duplicate_xml_headers(&mut xml);
    assert_eq!(xml, "<a/>");
    let mut xml = "é<?xml?>é<?xml?>é<?xml?>".to_string();
    sanitize_duplicate_xml_headers(&mut xml);
    assert_eq!(xml, "é<?xml?>é");
    let mut xml = "<?xml<?xml".to_string();
    sanitize_duplicate_xml_headers(&mut xml);
    assert_eq!(xml, "<?xml");
    let mut xml = String::new();
    sanitize_duplicate_xml_headers(&mut xml);
    assert_eq!(xml, "");
}

#[test]
fn channels_are_flattened_out_of_nested_modules() {
    let xml = "<?xml version=\"1.0\"?><T><AnalogInputChanel Eu=\"V\" AbsoluteDisplayOrder=\"9\"/>\
        <Module StartRecordSampleNumber=\"10\"><AnalogInputChanel Eu=\"a\" Eu=\"b\" AbsoluteDisplayOrder=\"x\"/>\
        <Module><AnalogInputChanel ZeroMethod=\"Nonsense\" Name=\"n\"></AnalogInputChanel></Module>\
        <AnalogInputChanel AbsoluteDisplayOrder=\"+4\"/></Module>\
        <Other><AnalogInputChanel AbsoluteDisplayOrder=\"4294967296\"/></Other></T>\
        <?xml version=\"1.0\"?><T><AnalogInputChanel/></T>";
    let channels = parse_dts_metadata(xml.as_bytes()).expect("a document");
    assert_eq!(channels.len(), 5);
    assert_eq!(channels[0].0.eu, "V");
    assert_eq!(channels[0].0.display_order, 9);
    assert_eq!(channels[0].1, None);
    assert_eq!(channels[1].0.eu, "b");
    assert_eq!(channels[1].0.display_order, 0);
    assert_eq!(channels[1].1.as_deref(), Some("10"));
    assert_eq!(channels[2].0.zero_method, ZeroMethod::NoZero);
    assert_eq!(channels[2].0.name.as_deref(), Some("n"));
    assert_eq!(channels[2].1, None);
    assert_eq!(channels[3].0.display_order, 4);
    assert_eq!(channels[3].1.as_deref(), Some("10"));
    assert_eq!(channels[4].0.display_order, 0);
    assert_eq!(channels[4].1, None);
}

#[test]
fn metadata_that_cannot_be_read_is_an_error() {
    assert_eq!(parse_dts_metadata(b"<a><b></a>").err(), Some(DtsError::Xml));
    assert_eq!(
        parse_dts_metadata(b"<AnalogInputChanel Eu=\"&nosuch;\"/>").err(),
        Some(DtsError::Xml)
    );
    assert_eq!(parse_dts_metadata(b"<AnalogInputChanel Eu/>").err(), Some(DtsError::Xml));
    assert_eq!(parse_dts_metadata(&[0xFF, 0xFE, 0x00]).err(), Some(DtsError::InvalidCharacters));
    assert_eq!(parse_dts_metadata(b"<Other Eu=\"&nosuch;\"/>").map(|c| c.len()), Ok(0));
    assert_eq!(parse_dts_metadata(b"").map(|c| c.len()), Ok(0));
}

#[test]
fn errors_say_what_went_wrong() {
    assert_eq!(DtsError::BadMagic.message(), "Not a valid DTS .chn file (magic key mismatch)");
    assert_eq!(DtsError::Truncated.message(), "failed to fill whole buffer");
    assert_eq!(
        DtsError::CountMismatch { channels: 12, files: 3 }.message(),
        "Mismatch between channel count in .dts file (12) and number of .chn files (3)."
    );
    assert_eq!(DtsError::OutOfBounds { index: 40 }.message(), "Track index 40 is out of bounds.");
    assert_eq!(DtsError::NoMetadataFile.message(), "No '.dts' file found in directory");
    assert_eq!(
        DtsError::InvalidCharacters.message(),
        "Failed to decode DTS XML file due to invalid characters."
    );
    assert_eq!(DtsError::Encoding.message(), "Unable to determine encoding for DTS XML file");
    assert_eq!(DtsError::Xml.message(), "Failed to parse DTS XML metadata");
}

#[test]
fn document_is_read_node_by_node() {
    let nodes = read_nodes("<?xml version=\"1.0\"?>\n<a x=\"1\" y='&lt;' z>\n  text <b/> </a>")
        .expect("a document");
    assert_eq!(nodes.len(), 5);
    assert!(matches!(nodes[0], XmlNode::Other));
    match &nodes[1] {
        XmlNode::Start(element) => {
            assert_eq!(element.name, b"a".to_vec());
            assert_eq!(element.attributes.len(), 3);
            let first = element.attributes[0].as_ref().expect("an attribute");
            assert_eq!((first.key.as_slice(), first.value.as_slice()), (&b"x"[..], &b"1"[..]));
            let second = element.attributes[1].as_ref().expect("an attribute");
            assert_eq!((second.key.as_slice(), second.value.as_slice()), (&b"y"[..], &b"&lt;"[..]));
            assert!(element.attributes[2].is_none());
        }
        _ => panic!("an opening tag was expected"),
    }
    assert!(matches!(nodes[2], XmlNode::Other));
    match &nodes[3] {
        XmlNode::Empty(element) => {
            assert_eq!(element.name, b"b".to_vec());
            assert!(element.attributes.is_empty());
        }
        _ => panic!("an empty element was expected"),
    }
    match &nodes[4] {
        XmlNode::End(name) => assert_eq!(name, &b"a".to_vec()),
        _ => panic!("a closing tag was expected"),
    }
    assert_eq!(read_nodes("").map(|nodes| nodes.len()), Ok(0));
    assert_eq!(read_nodes("  \n ").map(|nodes| nodes.len()), Ok(0));
    assert_eq!(read_nodes("<a></b>").err(), Some(DtsError::Xml));
    assert_eq!(read_nodes("<a").err(), Some(DtsError::Xml));
}

#[test]
fn a_recording_without_samples_gives_empty_tracks() {
    let first = chn_bytes(0, 5000, 0, 1000.0, 0, 0, 1.0, 1.0, &[]);
    let first = first[..90].to_vec();
    let second = chn_bytes(0, 96, 3, 1000.0, 0, 0, 1.0, 1.0, &[1, 2, 3]);
    let reader = DtsReader::new(
        fixture_xml().as_bytes(),
        vec![file("a1.chn", first), file("a2.chn", second)],
    )
    .expect("a recording");
    assert_eq!(reader.read_track(0), Ok(vec![]));
    assert_eq!(reader.read_track(1), Ok(vec![]));
    assert_eq!(reader.read_track_from(0, &[]), Ok(vec![]));
    assert_eq!(reader.read_track(2), Err(DtsError::OutOfBounds { index: 2 }));
}

#[test]
fn samples_are_read_from_the_bytes_handed_in() {
    let whole = chn_bytes(1, 100, 3, 1000.0, 0, 0, 1.0, 1.0, &[7, -8, 9]);
    let other = chn_bytes(0, 90, 5, 1000.0, 0, 0, 1.0, 1.0, &[1, 2, 3, 4, 5]);
    let reader = DtsReader::new(
        fixture_xml().as_bytes(),
        vec![file("a1.chn", whole[..98].to_vec()), file("a2.chn", other[..90].to_vec())],
    )
    .expect("headers are enough");
    assert_eq!(reader.read_track(0), Err(DtsError::Truncated));
    assert_eq!(reader.read_track_from(0, &whole), Ok(vec![7, -8, 9]));
    assert_eq!(reader.read_track_from(1, &other), Ok(vec![1, 2, 3]));
    assert_eq!(reader.read_track_from(1, &other[..95]), Err(DtsError::Truncated));
    assert_eq!(reader.read_track_from(2, &other), Err(DtsError::OutOfBounds { index: 2 }));
}

#[test]
fn header_is_decoded_from_the_beginning_of_a_file() {
    let samples = vec![3i16; 300_000];
    let bytes = chn_bytes(65535, 0, 9, 1000.0, -5, 6, 1.0, 1.0, &samples);
    assert_eq!(90 + 8 * 65535, MAX_HEADER_LEN);
    assert!(bytes.len() > MAX_HEADER_LEN);
    let whole = read_chn_header(&bytes).expect("a header");
    assert_eq!(read_chn_header(&bytes[..MAX_HEADER_LEN]), Ok(whole));
    assert_eq!(whole.trigger_count, 65535);
    assert_eq!(whole.pre_test_zero_level_adc, -5);
    assert_eq!(whole.data_zero_level_adc, 6);
    assert_eq!(read_chn_header(&bytes[..MAX_HEADER_LEN - 1]), Err(DtsError::Truncated));
}

#[test]
fn zero_level_follows_the_zero_method() {
    let bytes = chn_bytes(0, 90, 0, 1.0, -11, 12, 1.0, 1.0, &[]);
    let header = read_chn_header(&bytes).expect("a header");
    assert_eq!(zero_level(&header, ZeroMethod::UsePreCalZero), Some(-11));
    assert_eq!(zero_level(&header, ZeroMethod::AverageOverTime), Some(12));
    assert_eq!(zero_level(&header, ZeroMethod::NoZero), None);
}
