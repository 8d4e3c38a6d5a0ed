use dts_to_uff_converter::conversion::{ConversionReport, OutputFormat, SampleSlice};
use dts_to_uff_converter::dts::TrackMetadata;
use dts_to_uff_converter::tools::{
    list_track, list_tracks, listing_summary_text, ConversionRequest, ConvertDtsToUff,
    ConverterServerHandler, ConverterTool, ListDtsTracks,
};

fn words(items: &[&str]) -> Vec<String> {
    items.iter().map(|s| s.to_string()).collect()
}

fn convert_request() -> ConvertDtsToUff {
    ConvertDtsToUff {
        input_dir: "/data/rec".to_string(),
        tracks_file: "/data/tracks.txt".to_string(),
        output_path: "  /out/file.uff ".to_string(),
        format: None,
        track_list_output: None,
        slice: None,
    }
}

fn track(name: &str, description: &str, serial: &str, eu: &str) -> TrackMetadata {
    TrackMetadata {
        name: name.to_string(),
        description: description.to_string(),
        sampling_rate: 200000.0f64.to_bits(),
        sensitivity: Some("98.5176059".to_string()),
        serial_number: serial.to_string(),
        eu: eu.to_string(),
    }
}

#[test]
fn convert_request_is_checked_and_read() {
    let request = convert_request().validate().expect("a request in order");
    assert_eq!(request.input_dir, "/data/rec");
    assert_eq!(request.tracks_file, "/data/tracks.txt");
    assert_eq!(request.output_path, "/out/file.uff");
    assert_eq!(request.format, OutputFormat::Ascii);
    assert_eq!(request.slice, None);
    assert_eq!(request.track_selection, None);

    let mut full = convert_request();
    full.format = Some(" Binary ".to_string());
    full.track_list_output = Some(" b , a ,".to_string());
    full.slice = Some("10:20".to_string());
    let request = full.validate().expect("a request in order");
    assert_eq!(request.format, OutputFormat::Binary);
    assert_eq!(request.slice, Some(SampleSlice { start: 10, end: 20 }));
    assert_eq!(request.track_selection, Some(words(&["b", "a"])));
}

#[test]
fn convert_request_names_its_first_fault() {
    let mut r = convert_request();
    r.input_dir = "  ".to_string();
    r.tracks_file = String::new();
    assert_eq!(r.validate().err(), Some("`input_dir` cannot be empty".to_string()));
    let mut r = convert_request();
    r.tracks_file = "\t".to_string();
    r.output_path = String::new();
    assert_eq!(r.validate().err(), Some("`tracks_file` cannot be empty".to_string()));
    let mut r = convert_request();
    r.output_path = " \n".to_string();
    r.slice = Some("x".to_string());
    assert_eq!(r.validate().err(), Some("`output_path` cannot be empty".to_string()));
    let mut r = convert_request();
    r.track_list_output = Some(" , ".to_string());
    r.slice = Some("x".to_string());
    assert_eq!(r.validate().err(), Some("At least one track name must be provided".to_string()));
    let mut r = convert_request();
    r.slice = Some("x".to_string());
    r.format = Some("pdf".to_string());
    assert_eq!(
        r.validate().err(),
        Some("Slice must be provided in the format start:end".to_string())
    );
    let mut r = convert_request();
    r.format = Some("pdf".to_string());
    assert_eq!(
        r.validate().err(),
        Some("Unsupported output format 'pdf'. Expected 'ascii' or 'binary'.".to_string())
    );
}

#[test]
fn conversion_summary_tells_what_was_done() {
    let request = ConversionRequest {
        input_dir: "in".to_string(),
        tracks_file: "tracks.txt".to_string(),
        output_path: "out.uff".to_string(),
        format: OutputFormat::Binary,
        slice: Some(SampleSlice { start: 5, end: 15 }),
        track_selection: Some(words(&["b", "zz"])),
    };
    let report = ConversionReport {
        channel_count: 1,
        track_name_count: 3,
        processed_track_names: words(&["b"]),
        warnings: words(&["Requested track 'zz' was not found in the provided track list."]),
    };
    let expected = "\u{2705} **DTS to UFF conversion succeeded**\n\n\
        - **Input directory:** `in`\n\
        - **Track names file:** `tracks.txt`\n\
        - **Output file:** `out.uff`\n\
        - **Format:** `binary`\n\
        - **Channels written:** 1\n\
        - **Track names provided:** 3\n\
        - **Requested tracks:** b, zz\n\
        - **Sample slice:** `5:15`\n\
        \n\u{26a0}\u{fe0f} Track name count (3) differed from channels processed (1).\n\
        \n**Warnings:**\n\
        - Requested track 'zz' was not found in the provided track list.\n\
        \n**Track preview:**\n\
        1. b\n";
    assert_eq!(request.summary(&report), expected);
}

#[test]
fn conversion_summary_previews_five_tracks() {
    let request = ConversionRequest {
        input_dir: "in".to_string(),
        tracks_file: "t".to_string(),
        output_path: "o".to_string(),
        format: OutputFormat::Ascii,
        slice: None,
        track_selection: None,
    };
    let names = words(&["a", "b", "c", "d", "e", "f", "g"]);
    let report = ConversionReport {
        channel_count: 7,
        track_name_count: 7,
        processed_track_names: names,
        warnings: vec![],
    };
    let expected = "\u{2705} **DTS to UFF conversion succeeded**\n\n\
        - **Input directory:** `in`\n\
        - **Track names file:** `t`\n\
        - **Output file:** `o`\n\
        - **Format:** `ascii`\n\
        - **Channels written:** 7\n\
        - **Track names provided:** 7\n\
        - **Requested tracks:** All\n\
        - **Sample slice:** full range\n\
        \n**Track preview:**\n\
        1. a\n2. b\n3. c\n4. d\n5. e\n\u{2026} and 2 more track(s).\n";
    assert_eq!(request.summary(&report), expected);
    let empty = ConversionReport {
        channel_count: 0,
        track_name_count: 0,
        processed_track_names: vec![],
        warnings: vec![],
    };
    assert!(request.summary(&empty).ends_with("- **Sample slice:** full range\n"));
}

#[test]
fn list_request_is_checked() {
    let ok = ListDtsTracks { input_dir: "d".to_string(), tracks_file: None };
    assert_eq!(ok.validate(), Ok(None));
    let ok = ListDtsTracks { input_dir: "d".to_string(), tracks_file: Some(" t.txt ".to_string()) };
    assert_eq!(ok.validate(), Ok(Some("t.txt".to_string())));
    let bad = ListDtsTracks { input_dir: " ".to_string(), tracks_file: Some(String::new()) };
    assert_eq!(bad.validate(), Err("`input_dir` cannot be empty".to_string()));
    let bad = ListDtsTracks { input_dir: "d".to_string(), tracks_file: Some("  ".to_string()) };
    assert_eq!(bad.validate(), Err("`tracks_file` cannot be empty when provided".to_string()));
}

#[test]
fn listed_track_is_named_and_reported_in_g() {
    let names = words(&[" first ", "  "]);
    let t = list_track(Some(&names), 0, &track("own", " IEPE 100 mV/g ", " PCB_B34_xx ", "g"));
    assert_eq!(t.channel, 1);
    assert_eq!(t.name, "first");
    assert_eq!(t.description, "IEPE 100 mV/g");
    assert_eq!(t.sampling_rate, 200000.0f64.to_bits());
    assert_eq!(t.sensitivity.as_deref(), Some("98.5176059"));
    assert_eq!(t.serial.as_deref(), Some("PCB_B34_xx"));
    assert_eq!(t.unit, "g");
    assert!(t.extras.is_none());

    let t = list_track(Some(&names), 1, &track(" own ", "", "", " m/s^2 "));
    assert_eq!(t.channel, 2);
    assert_eq!(t.name, "own");
    assert_eq!(t.description, "");
    assert_eq!(t.serial, None);
    assert_eq!(t.unit, "g");
    let extras = t.extras.expect("extras");
    assert_eq!(extras.raw_unit.as_deref(), Some("m/s^2"));
    assert!(extras.unit_defaulted_to_g);
    assert!(!extras.description_present);

    let t = list_track(Some(&names), 2, &track(" ", "d", "s", " "));
    assert_eq!(t.name, "Track 3");
    let extras = t.extras.expect("extras");
    assert_eq!(extras.raw_unit, None);
    assert!(extras.unit_defaulted_to_g);
    assert!(extras.description_present);

    let t = list_track(None, 6, &track("n", " ", "s", "G"));
    assert_eq!(t.name, "n");
    assert_eq!(t.channel, 7);
    let extras = t.extras.expect("extras");
    assert_eq!(extras.raw_unit, None);
    assert!(!extras.unit_defaulted_to_g);
    assert!(!extras.description_present);
}

#[test]
fn listing_gathers_its_warnings_in_order() {
    let metadata = vec![
        track("a", "d", "s", "g"),
        track("b", "", "s", "V"),
        track("c", "d", "s", ""),
        track("d", " ", "s", "mm"),
        track("e", "d", "s", " V "),
        track("f", "d", "s", "v"),
    ];
    let names = words(&["one"]);
    let listing = list_tracks(&metadata, Some(&names));
    assert_eq!(listing.tracks.len(), 6);
    assert_eq!(listing.tracks[0].name, "one");
    assert_eq!(listing.tracks[1].name, "b");
    assert_eq!(
        listing.warnings,
        words(&[
            "1 track missing units; defaulted to 'g'.",
            "2 tracks missing descriptions.",
            "4 tracks used unsupported units: 1\u{d7}mm, 1\u{d7}v, 2\u{d7}V (reported as 'g').",
            "Track name count (1) differs from metadata entries (6).",
        ])
    );
    let listing = list_tracks(&vec![track("a", "d", "s", "g")], None);
    assert!(listing.warnings.is_empty());
    let listing = list_tracks(&vec![], Some(&vec![]));
    assert!(listing.tracks.is_empty());
    assert!(listing.warnings.is_empty());
}

#[test]
fn listing_summary_is_one_line() {
    assert_eq!(
        listing_summary_text("dir", 2, None, &vec![]),
        "Track metadata for 'dir' \u{2014} 2 tracks."
    );
    assert_eq!(
        listing_summary_text("dir", 1, Some("t.txt"), &words(&["w1", "w2"])),
        "Track metadata for 'dir' \u{2014} 1 track. Track names loaded from 't.txt'. Warnings: w1; w2"
    );
    assert_eq!(
        listing_summary_text("", 0, None, &words(&["w"])),
        "Track metadata for '' \u{2014} 0 tracks. Warnings: w"
    );
}

#[test]
fn handler_knows_its_two_tools() {
    let handler = ConverterServerHandler;
    assert_eq!(handler.tool_named("convert_dts_to_uff"), Some(ConverterTool::ConvertDtsToUff));
    assert_eq!(handler.tool_named("list_dts_tracks"), Some(ConverterTool::ListDtsTracks));
    assert_eq!(handler.tool_named("list_dts_track"), None);
    assert_eq!(handler.tool_named(""), None);
    assert_eq!(handler.tool_name(ConverterTool::ConvertDtsToUff), "convert_dts_to_uff");
    assert_eq!(handler.tool_name(ConverterTool::ListDtsTracks), "list_dts_tracks");
    assert!(handler.describes_output(ConverterTool::ListDtsTracks));
    assert!(!handler.describes_output(ConverterTool::ConvertDtsToUff));
}
