//! The two operations that a tool server offers: converting a recording and
//! listing its tracks. Here stand their requests, the checks on them, and
//! the texts of their answers; reading and writing files is the caller's.

use crate::conversion::{
    names_in, output_format_of, parse_track_selection, sample_slice_of, ConversionReport,
    OutputFormat, SampleSlice, NO_TRACK_SELECTED,
};
use crate::dts::{optional_text, TrackMetadata, TrackView};
use crate::text::{
    decimal, eq_ignore_ascii_case, eq_ignoring_ascii_case, joined, push_decimal, push_joined,
    is_sorted_set, sort_dedup, sorted_set, str_equal, string_from, texts_of, trim, trimmed,
};
use vstd::prelude::*;

verus! {

// ---------------------------------------------------------------------------
// Converting
// ---------------------------------------------------------------------------

/// The request to convert a recording, as it arrives.
#[derive(Debug)]
pub struct ConvertDtsToUff {
    /// Directory of the recording.
    pub input_dir: String,
    /// File of track names.
    pub tracks_file: String,
    /// File to write.
    pub output_path: String,
    /// Output format, `ascii` where none is given.
    pub format: Option<String>,
    /// Names of the tracks to write, separated by commas; all where none is
    /// given.
    pub track_list_output: Option<String>,
    /// Samples to write, as `start:end`; all where none is given.
    pub slice: Option<String>,
}

/// A request to convert a recording that has passed its checks.
#[derive(Debug)]
pub struct ConversionRequest {
    /// Directory of the recording, as given.
    pub input_dir: String,
    /// File of track names, as given.
    pub tracks_file: String,
    /// File to write, without white space around it.
    pub output_path: String,
    /// Output format.
    pub format: OutputFormat,
    /// Samples to write.
    pub slice: Option<SampleSlice>,
    /// Names of the tracks to write.
    pub track_selection: Option<Vec<String>>,
}

/// Whether a text holds nothing but white space.
pub open spec fn is_blank(s: Seq<char>) -> bool {
    trimmed(s).len() == 0
}

/// The names that a selection holds, where one is given.
pub open spec fn selection_of(track_list_output: Option<String>) -> Option<Seq<Seq<char>>> {
    match track_list_output {
        Some(text) => Some(names_in(trimmed(text@), false)),
        None => None,
    }
}

/// The format that a request names; ASCII where it names none.
pub open spec fn format_of(format: Option<String>) -> Result<OutputFormat, Seq<char>> {
    match format {
        Some(text) => output_format_of(text@),
        None => Ok(OutputFormat::Ascii),
    }
}

/// The slice that a request names, where it names one.
pub open spec fn slice_of(slice: Option<String>) -> Result<Option<SampleSlice>, Seq<char>> {
    match slice {
        Some(text) => match sample_slice_of(text@) {
            Ok(slice) => Ok(Some(slice)),
            Err(message) => Err(message),
        },
        None => Ok(None),
    }
}

/// What is wrong with a request to convert, if anything: the first of an
/// empty directory, an empty track file, an empty output path, a selection
/// without a name, a slice that cannot be read, a format that is not known.
pub open spec fn convert_arguments_error(request: ConvertDtsToUff) -> Option<Seq<char>> {
    if is_blank(request.input_dir@) {
        Some("`input_dir` cannot be empty"@)
    } else if is_blank(request.tracks_file@) {
        Some("`tracks_file` cannot be empty"@)
    } else if is_blank(request.output_path@) {
        Some("`output_path` cannot be empty"@)
    } else if selection_of(request.track_list_output) == Some(Seq::<Seq<char>>::empty()) {
        Some(NO_TRACK_SELECTED@)
    } else if slice_of(request.slice) is Err {
        Some(slice_of(request.slice)->Err_0)
    } else if format_of(request.format) is Err {
        Some(format_of(request.format)->Err_0)
    } else {
        None
    }
}

/// Whether `text` holds nothing but white space.
pub fn blank(text: &str) -> (b: bool)
    ensures
        b == is_blank(text@),
{
    let t = trim(text);
    t.as_str().unicode_len() == 0
}

impl ConvertDtsToUff {
    /// Checks the request and reads its format, slice and selection.
    pub fn validate(&self) -> (r: Result<ConversionRequest, String>)
        ensures
            match r {
                Err(message) => convert_arguments_error(*self) == Some(message@),
                Ok(request) => {
                    &&& convert_arguments_error(*self) is None
                    &&& request.input_dir@ == self.input_dir@
                    &&& request.tracks_file@ == self.tracks_file@
                    &&& request.output_path@ == trimmed(self.output_path@)
                    &&& format_of(self.format) == Ok::<OutputFormat, Seq<char>>(request.format)
                    &&& slice_of(self.slice) == Ok::<Option<SampleSlice>, Seq<char>>(
                        request.slice,
                    )
                    &&& match request.track_selection {
                        Some(tracks) => selection_of(self.track_list_output) == Some(
                            texts_of(tracks@),
                        ),
                        None => self.track_list_output is None,
                    }
                },
            },
    {
        if blank(self.input_dir.as_str()) {
            return Err(string_from("`input_dir` cannot be empty"));
        }
        if blank(self.tracks_file.as_str()) {
            return Err(string_from("`tracks_file` cannot be empty"));
        }
        let output_path = trim(self.output_path.as_str());
        if output_path.as_str().unicode_len() == 0 {
            return Err(string_from("`output_path` cannot be empty"));
        }
        let track_selection = match &self.track_list_output {
            Some(text) => {
                let inner = trim(text.as_str());
                match parse_track_selection(inner.as_str()) {
                    Ok(tracks) => {
                        assert(texts_of(tracks@).len() > 0);
                        Some(tracks)
                    },
                    Err(message) => {
                        assert(names_in(trimmed(text@), false) =~= Seq::<Seq<char>>::empty());
                        return Err(message);
                    },
                }
            },
            None => None,
        };
        let slice = match &self.slice {
            Some(text) => match SampleSlice::from_str(text.as_str()) {
                Ok(slice) => Some(slice),
                Err(message) => {
                    return Err(message);
                },
            },
            None => None,
        };
        let format = match &self.format {
            Some(text) => match OutputFormat::from_str(text.as_str()) {
                Ok(format) => format,
                Err(message) => {
                    return Err(message);
                },
            },
            None => OutputFormat::Ascii,
        };
        Ok(
            ConversionRequest {
                input_dir: self.input_dir.clone(),
                tracks_file: self.tracks_file.clone(),
                output_path,
                format,
                slice,
                track_selection,
            },
        )
    }
}

/// Number of labels that the answer to a conversion shows.
pub const PREVIEW_LEN: usize = 5;

/// The first `upto` texts of `items`, each as an item of a list.
pub open spec fn bullet_lines(items: Seq<Seq<char>>, upto: int) -> Seq<char>
    decreases upto,
{
    if upto <= 0 {
        Seq::<char>::empty()
    } else {
        bullet_lines(items, upto - 1) + "- "@ + items[upto - 1] + "\n"@
    }
}

/// The first `upto` texts of `items`, each with its number, counted from
/// one.
pub open spec fn numbered_lines(items: Seq<Seq<char>>, upto: int) -> Seq<char>
    decreases upto,
{
    if upto <= 0 {
        Seq::<char>::empty()
    } else {
        numbered_lines(items, upto - 1) + decimal(upto as nat) + ". "@ + items[upto - 1] + "\n"@
    }
}

/// The lines of the answer that name the request.
pub open spec fn summary_head(
    input_dir: Seq<char>,
    tracks_file: Seq<char>,
    output_path: Seq<char>,
    format: OutputFormat,
) -> Seq<char> {
    "\u{2705} **DTS to UFF conversion succeeded**\n\n- **Input directory:** `"@ + input_dir
        + "`\n- **Track names file:** `"@ + tracks_file + "`\n- **Output file:** `"@ + output_path
        + "`\n- **Format:** `"@ + (match format {
        OutputFormat::Ascii => "ascii"@,
        OutputFormat::Binary => "binary"@,
    }) + "`\n"@
}

/// The lines of the answer that give the counts.
pub open spec fn summary_counts(channels: nat, names: nat) -> Seq<char> {
    "- **Channels written:** "@ + decimal(channels) + "\n- **Track names provided:** "@ + decimal(
        names,
    ) + "\n"@
}

/// The line of the answer that names the tracks asked for.
pub open spec fn summary_selection(selection: Option<Seq<Seq<char>>>) -> Seq<char> {
    match selection {
        Some(names) => if names.len() > 0 {
            "- **Requested tracks:** "@ + joined(names, ", "@, names.len() as int) + "\n"@
        } else {
            "- **Requested tracks:** All\n"@
        },
        None => "- **Requested tracks:** All\n"@,
    }
}

/// The line of the answer that names the slice.
pub open spec fn summary_slice(slice: Option<SampleSlice>) -> Seq<char> {
    match slice {
        Some(slice) => "- **Sample slice:** `"@ + decimal(slice.start as nat) + ":"@ + decimal(
            slice.end as nat,
        ) + "`\n"@,
        None => "- **Sample slice:** full range\n"@,
    }
}

/// The note of the answer on track names that are not as many as the
/// channels written.
pub open spec fn summary_mismatch(names: nat, channels: nat) -> Seq<char> {
    if names != channels {
        "\n\u{26a0}\u{fe0f} Track name count ("@ + decimal(names)
            + ") differed from channels processed ("@ + decimal(channels) + ").\n"@
    } else {
        Seq::<char>::empty()
    }
}

/// The warnings of the answer.
pub open spec fn summary_warnings(warnings: Seq<Seq<char>>) -> Seq<char> {
    if warnings.len() > 0 {
        "\n**Warnings:**\n"@ + bullet_lines(warnings, warnings.len() as int)
    } else {
        Seq::<char>::empty()
    }
}

/// The labels that the answer shows: the first five, and how many more
/// there are.
pub open spec fn summary_preview(names: Seq<Seq<char>>) -> Seq<char> {
    if names.len() == 0 {
        Seq::<char>::empty()
    } else if names.len() <= PREVIEW_LEN {
        "\n**Track preview:**\n"@ + numbered_lines(names, names.len() as int)
    } else {
        "\n**Track preview:**\n"@ + numbered_lines(names, PREVIEW_LEN as int) + "\u{2026} and "@
            + decimal((names.len() - PREVIEW_LEN) as nat) + " more track(s).\n"@
    }
}

/// The answer to a conversion that succeeded.
pub open spec fn conversion_summary(request: ConversionRequest, report: ConversionReport) -> Seq<
    char,
> {
    summary_head(
        request.input_dir@,
        request.tracks_file@,
        request.output_path@,
        request.format,
    ) + summary_counts(report.channel_count as nat, report.track_name_count as nat)
        + summary_selection(
        match request.track_selection {
            Some(tracks) => Some(texts_of(tracks@)),
            None => None,
        },
    ) + summary_slice(request.slice) + summary_mismatch(
        report.track_name_count as nat,
        report.channel_count as nat,
    ) + summary_warnings(texts_of(report.warnings@)) + summary_preview(
        texts_of(report.processed_track_names@),
    )
}

/// Appends the first `upto` texts of `items`, each as an item of a list.
fn push_bullet_lines(s: &mut String, items: &Vec<String>)
    ensures
        final(s)@ == old(s)@ + bullet_lines(texts_of(items@), items@.len() as int),
{
    let ghost texts = texts_of(items@);
    let mut i: usize = 0;
    assert(s@ == old(s)@ + bullet_lines(texts, 0));
    while i < items.len()
        invariant
            i <= items.len(),
            texts == texts_of(items@),
            s@ == old(s)@ + bullet_lines(texts, i as int),
        decreases items.len() - i,
    {
        s.append("- ");
        s.append(items[i].as_str());
        s.append("\n");
        i += 1;
        proof {
            assert(texts[i as int - 1] == items@[i as int - 1]@);
            assert(s@ == old(s)@ + (bullet_lines(texts, i as int - 1) + "- "@ + texts[i as int
                - 1] + "\n"@));
        }
    }
}

/// Appends the first `upto` texts of `items`, each with its number.
fn push_numbered_lines(s: &mut String, items: &Vec<String>, upto: usize)
    requires
        upto <= items@.len(),
    ensures
        final(s)@ == old(s)@ + numbered_lines(texts_of(items@), upto as int),
{
    let ghost texts = texts_of(items@);
    let mut i: usize = 0;
    assert(s@ == old(s)@ + numbered_lines(texts, 0));
    while i < upto
        invariant
            i <= upto <= items@.len(),
            texts == texts_of(items@),
            s@ == old(s)@ + numbered_lines(texts, i as int),
        decreases upto - i,
    {
        push_decimal(s, (i as u128) + 1);
        s.append(". ");
        s.append(items[i].as_str());
        s.append("\n");
        i += 1;
        proof {
            assert(texts[i as int - 1] == items@[i as int - 1]@);
            assert(s@ == old(s)@ + (numbered_lines(texts, i as int - 1) + decimal(i as nat)
                + ". "@ + texts[i as int - 1] + "\n"@));
        }
    }
}

/// The lines of the answer that name the request.
fn head_text(request: &ConversionRequest) -> (s: String)
    ensures
        s@ == summary_head(
            request.input_dir@,
            request.tracks_file@,
            request.output_path@,
            request.format,
        ),
{
    let mut s = String::new();
    s.append("\u{2705} **DTS to UFF conversion succeeded**\n\n- **Input directory:** `");
    assert(s@ == "\u{2705} **DTS to UFF conversion succeeded**\n\n- **Input directory:** `"@);
    s.append(request.input_dir.as_str());
    s.append("`\n- **Track names file:** `");
    s.append(request.tracks_file.as_str());
    s.append("`\n- **Output file:** `");
    s.append(request.output_path.as_str());
    s.append("`\n- **Format:** `");
    s.append(request.format.as_str());
    s.append("`\n");
    s
}

/// The lines of the answer that give the counts.
fn counts_text(channels: usize, names: usize) -> (s: String)
    ensures
        s@ == summary_counts(channels as nat, names as nat),
{
    let mut s = String::new();
    s.append("- **Channels written:** ");
    assert(s@ == "- **Channels written:** "@);
    push_decimal(&mut s, channels as u128);
    s.append("\n- **Track names provided:** ");
    push_decimal(&mut s, names as u128);
    s.append("\n");
    s
}

/// The line of the answer that names the tracks asked for.
fn selection_text(selection: &Option<Vec<String>>) -> (s: String)
    ensures
        s@ == summary_selection(
            match *selection {
                Some(tracks) => Some(texts_of(tracks@)),
                None => None,
            },
        ),
{
    let mut s = String::new();
    match selection {
        Some(tracks) => {
            assert(tracks@.len() == texts_of(tracks@).len());
            if tracks.len() > 0 {
                s.append("- **Requested tracks:** ");
                assert(s@ == "- **Requested tracks:** "@);
                push_joined(&mut s, tracks, ", ");
                s.append("\n");
            } else {
                s.append("- **Requested tracks:** All\n");
                assert(s@ == "- **Requested tracks:** All\n"@);
            }
        },
        None => {
            s.append("- **Requested tracks:** All\n");
            assert(s@ == "- **Requested tracks:** All\n"@);
        },
    }
    s
}

/// The line of the answer that names the slice.
fn slice_text(slice: &Option<SampleSlice>) -> (s: String)
    ensures
        s@ == summary_slice(*slice),
{
    let mut s = String::new();
    match slice {
        Some(slice) => {
            s.append("- **Sample slice:** `");
            assert(s@ == "- **Sample slice:** `"@);
            push_decimal(&mut s, slice.start as u128);
            s.append(":");
            push_decimal(&mut s, slice.end as u128);
            s.append("`\n");
        },
        None => {
            s.append("- **Sample slice:** full range\n");
            assert(s@ == "- **Sample slice:** full range\n"@);
        },
    }
    s
}

/// The note of the answer on counts that differ.
fn mismatch_text(names: usize, channels: usize) -> (s: String)
    ensures
        s@ == summary_mismatch(names as nat, channels as nat),
{
    let mut s = String::new();
    if names != channels {
        s.append("\n\u{26a0}\u{fe0f} Track name count (");
        assert(s@ == "\n\u{26a0}\u{fe0f} Track name count ("@);
        push_decimal(&mut s, names as u128);
        s.append(") differed from channels processed (");
        push_decimal(&mut s, channels as u128);
        s.append(").\n");
    }
    s
}

/// The warnings of the answer.
fn warnings_text(warnings: &Vec<String>) -> (s: String)
    ensures
        s@ == summary_warnings(texts_of(warnings@)),
{
    let mut s = String::new();
    assert(warnings@.len() == texts_of(warnings@).len());
    if warnings.len() > 0 {
        s.append("\n**Warnings:**\n");
        assert(s@ == "\n**Warnings:**\n"@);
        push_bullet_lines(&mut s, warnings);
    }
    s
}

/// The labels that the answer shows.
fn preview_text(names: &Vec<String>) -> (s: String)
    ensures
        s@ == summary_preview(texts_of(names@)),
{
    let mut s = String::new();
    assert(names@.len() == texts_of(names@).len());
    if names.len() > 0 {
        s.append("\n**Track preview:**\n");
        assert(s@ == "\n**Track preview:**\n"@);
        if names.len() <= PREVIEW_LEN {
            push_numbered_lines(&mut s, names, names.len());
        } else {
            push_numbered_lines(&mut s, names, PREVIEW_LEN);
            s.append("\u{2026} and ");
            push_decimal(&mut s, (names.len() - PREVIEW_LEN) as u128);
            s.append(" more track(s).\n");
        }
    }
    s
}

impl ConversionRequest {
    /// The answer to the request after a conversion that gave `report`.
    pub fn summary(&self, report: &ConversionReport) -> (text: String)
        ensures
            text@ == conversion_summary(*self, *report),
    {
        let mut text = head_text(self);
        text.append(counts_text(report.channel_count, report.track_name_count).as_str());
        text.append(selection_text(&self.track_selection).as_str());
        text.append(slice_text(&self.slice).as_str());
        text.append(mismatch_text(report.track_name_count, report.channel_count).as_str());
        text.append(warnings_text(&report.warnings).as_str());
        text.append(preview_text(&report.processed_track_names).as_str());
        text
    }
}

// ---------------------------------------------------------------------------
// Listing
// ---------------------------------------------------------------------------

/// The request to list the tracks of a recording, as it arrives.
#[derive(Debug)]
pub struct ListDtsTracks {
    /// Directory of the recording.
    pub input_dir: String,
    /// File of track names, where there is one.
    pub tracks_file: Option<String>,
}

/// What is wrong with a request to list, if anything: an empty directory,
/// or a track file that is given and empty.
pub open spec fn list_arguments_error(request: ListDtsTracks) -> Option<Seq<char>> {
    if is_blank(request.input_dir@) {
        Some("`input_dir` cannot be empty"@)
    } else if request.tracks_file matches Some(path) && is_blank(path@) {
        Some("`tracks_file` cannot be empty when provided"@)
    } else {
        None
    }
}

impl ListDtsTracks {
    /// Checks the request and gives the path of the track file, without
    /// white space around it, where one is given.
    pub fn validate(&self) -> (r: Result<Option<String>, String>)
        ensures
            match r {
                Err(message) => list_arguments_error(*self) == Some(message@),
                Ok(path) => list_arguments_error(*self) is None && optional_text(path) == (
                match self.tracks_file {
                    Some(given) => Some(trimmed(given@)),
                    None => None,
                }),
            },
    {
        if blank(self.input_dir.as_str()) {
            return Err(string_from("`input_dir` cannot be empty"));
        }
        match &self.tracks_file {
            Some(path) => {
                let inner = trim(path.as_str());
                if inner.as_str().unicode_len() == 0 {
                    return Err(string_from("`tracks_file` cannot be empty when provided"));
                }
                Ok(Some(inner))
            },
            None => Ok(None),
        }
    }
}

/// What is said of a track beyond its fields.
#[derive(Debug)]
pub struct TrackExtras {
    /// The unit of the recording, where it is not `g`.
    pub raw_unit: Option<String>,
    /// Whether `g` stands in for another unit or for none.
    pub unit_defaulted_to_g: bool,
    /// Whether the track has a description.
    pub description_present: bool,
}

/// One track as the listing shows it.
#[derive(Debug)]
pub struct ListDtsTrack {
    /// Number of the channel, counted from one.
    pub channel: u32,
    /// Name of the track.
    pub name: String,
    /// Description, without white space around it.
    pub description: String,
    /// Sampling rate in hertz, as the bit pattern of a double.
    pub sampling_rate: u64,
    /// Sensitivity of the sensor, as the metadata writes it.
    pub sensitivity: Option<String>,
    /// Serial number, where there is one.
    pub serial: Option<String>,
    /// Unit in which the track is reported.
    pub unit: String,
    /// What else is to be said, where there is anything.
    pub extras: Option<TrackExtras>,
}

/// A [`TrackExtras`] as plain values.
pub ghost struct ExtrasView {
    pub raw_unit: Option<Seq<char>>,
    pub unit_defaulted_to_g: bool,
    pub description_present: bool,
}

/// A [`ListDtsTrack`] as plain values.
pub ghost struct ListedView {
    pub channel: u32,
    pub name: Seq<char>,
    pub description: Seq<char>,
    pub sampling_rate: u64,
    pub sensitivity: Option<Seq<char>>,
    pub serial: Option<Seq<char>>,
    pub unit: Seq<char>,
    pub extras: Option<ExtrasView>,
}

impl View for ListDtsTrack {
    type V = ListedView;

    open spec fn view(&self) -> ListedView {
        ListedView {
            channel: self.channel,
            name: self.name@,
            description: self.description@,
            sampling_rate: self.sampling_rate,
            sensitivity: optional_text(self.sensitivity),
            serial: optional_text(self.serial),
            unit: self.unit@,
            extras: match self.extras {
                Some(extras) => Some(
                    ExtrasView {
                        raw_unit: optional_text(extras.raw_unit),
                        unit_defaulted_to_g: extras.unit_defaulted_to_g,
                        description_present: extras.description_present,
                    },
                ),
                None => None,
            },
        }
    }
}

/// The name under which the track at place `index` is listed: the track
/// name given for it, where one is given and is not blank; else the name
/// that the recording gives; else `Track` and its number. White space
/// around the name is left out.
pub open spec fn resolved_name(given: Option<Seq<Seq<char>>>, index: nat, own: Seq<char>) -> Seq<
    char,
> {
    if given is Some && index < given.unwrap().len() && !is_blank(given.unwrap()[index as int]) {
        trimmed(given.unwrap()[index as int])
    } else if !is_blank(own) {
        trimmed(own)
    } else {
        "Track "@ + decimal(index + 1)
    }
}

/// Whether the unit of a track is missing.
pub open spec fn unit_missing(eu: Seq<char>) -> bool {
    is_blank(eu)
}

/// Whether the unit of a track is one that the listing does not report.
pub open spec fn unit_unsupported(eu: Seq<char>) -> bool {
    !is_blank(eu) && !eq_ignoring_ascii_case(trimmed(eu), "g"@)
}

/// What is said of a track beyond its fields: nothing where its unit is `g`
/// and it has a description.
pub open spec fn extras_of(track: TrackView) -> Option<ExtrasView> {
    let described = !is_blank(track.description);
    if unit_missing(track.eu) {
        Some(ExtrasView { raw_unit: None, unit_defaulted_to_g: true, description_present: described })
    } else if unit_unsupported(track.eu) {
        Some(
            ExtrasView {
                raw_unit: Some(trimmed(track.eu)),
                unit_defaulted_to_g: true,
                description_present: described,
            },
        )
    } else if !described {
        Some(ExtrasView { raw_unit: None, unit_defaulted_to_g: false, description_present: false })
    } else {
        None
    }
}

/// The track at place `index` as the listing shows it: every track is
/// reported in `g`.
pub open spec fn listed(given: Option<Seq<Seq<char>>>, index: nat, track: TrackView) -> ListedView {
    ListedView {
        channel: ((index + 1) % 0x1_0000_0000) as u32,
        name: resolved_name(given, index, track.name),
        description: trimmed(track.description),
        sampling_rate: track.sampling_rate,
        sensitivity: track.sensitivity,
        serial: if is_blank(track.serial_number) {
            None
        } else {
            Some(trimmed(track.serial_number))
        },
        unit: "g"@,
        extras: extras_of(track),
    }
}

/// The texts of track names, where they are given.
pub open spec fn given_names(track_names: Option<&Vec<String>>) -> Option<Seq<Seq<char>>> {
    match track_names {
        Some(names) => Some(texts_of(names@)),
        None => None,
    }
}

/// The name under which the track at place `index` is listed.
fn resolve_name(track_names: Option<&Vec<String>>, index: usize, own: &str) -> (name: String)
    ensures
        name@ == resolved_name(given_names(track_names), index as nat, own@),
{
    match track_names {
        Some(names) => {
            assert(names@.len() == texts_of(names@).len());
            if index < names.len() {
                let candidate = trim(names[index].as_str());
                if candidate.as_str().unicode_len() > 0 {
                    return candidate;
                }
            }
        },
        None => {},
    }
    let fallback = trim(own);
    if fallback.as_str().unicode_len() > 0 {
        fallback
    } else {
        let mut name = String::new();
        name.append("Track ");
        assert(name@ == "Track "@);
        push_decimal(&mut name, (index as u128) + 1);
        name
    }
}

/// The track at place `index` as the listing shows it.
pub fn list_track(track_names: Option<&Vec<String>>, index: usize, track: &TrackMetadata) -> (out:
    ListDtsTrack)
    ensures
        out@ == listed(given_names(track_names), index as nat, track@),
{
    let name = resolve_name(track_names, index, track.name.as_str());
    let description = trim(track.description.as_str());
    let described = description.as_str().unicode_len() > 0;
    let serial_text = trim(track.serial_number.as_str());
    let serial = if serial_text.as_str().unicode_len() == 0 {
        None
    } else {
        Some(serial_text)
    };
    let raw_unit = trim(track.eu.as_str());
    let extras = if raw_unit.as_str().unicode_len() == 0 {
        Some(TrackExtras { raw_unit: None, unit_defaulted_to_g: true, description_present: described })
    } else if eq_ignore_ascii_case(raw_unit.as_str(), "g") {
        if described {
            None
        } else {
            Some(
                TrackExtras {
                    raw_unit: None,
                    unit_defaulted_to_g: false,
                    description_present: false,
                },
            )
        }
    } else {
        Some(
            TrackExtras {
                raw_unit: Some(raw_unit),
                unit_defaulted_to_g: true,
                description_present: described,
            },
        )
    };
    let channel: u32 = (((index as u128) + 1) % 0x1_0000_0000) as u32;
    ListDtsTrack {
        channel,
        name,
        description,
        sampling_rate: track.sampling_rate,
        sensitivity: crate::dts::clone_optional(&track.sensitivity),
        serial,
        unit: string_from("g"),
        extras,
    }
}

/// The tracks of a recording as plain values.
pub open spec fn track_views(metadata: Seq<TrackMetadata>) -> Seq<TrackView> {
    metadata.map_values(|t: TrackMetadata| t@)
}

/// Number of tracks among the first `upto` without a description.
pub open spec fn undescribed(tracks: Seq<TrackView>, upto: int) -> nat
    decreases upto,
{
    if upto <= 0 {
        0
    } else {
        undescribed(tracks, upto - 1) + (if is_blank(tracks[upto - 1].description) {
            1nat
        } else {
            0nat
        })
    }
}

/// Number of tracks among the first `upto` without a unit.
pub open spec fn without_unit(tracks: Seq<TrackView>, upto: int) -> nat
    decreases upto,
{
    if upto <= 0 {
        0
    } else {
        without_unit(tracks, upto - 1) + (if unit_missing(tracks[upto - 1].eu) {
            1nat
        } else {
            0nat
        })
    }
}

/// The units among the first `upto` tracks that the listing does not
/// report, one for each such track, in the order of the tracks.
pub open spec fn unsupported_units(tracks: Seq<TrackView>, upto: int) -> Seq<Seq<char>>
    decreases upto,
{
    if upto <= 0 {
        Seq::<Seq<char>>::empty()
    } else if unit_unsupported(tracks[upto - 1].eu) {
        unsupported_units(tracks, upto - 1).push(trimmed(tracks[upto - 1].eu))
    } else {
        unsupported_units(tracks, upto - 1)
    }
}

/// How often `unit` stands among the first `upto` of `units`.
pub open spec fn occurrences(units: Seq<Seq<char>>, unit: Seq<char>, upto: int) -> nat
    decreases upto,
{
    if upto <= 0 {
        0
    } else {
        occurrences(units, unit, upto - 1) + (if units[upto - 1] == unit {
            1nat
        } else {
            0nat
        })
    }
}

/// How a unit and the number of its tracks are shown.
pub open spec fn unit_detail(units: Seq<Seq<char>>, unit: Seq<char>) -> Seq<char> {
    decimal(occurrences(units, unit, units.len() as int)) + "\u{d7}"@ + unit
}

/// The details of the first `upto` of the different units `different`.
pub open spec fn details_of(units: Seq<Seq<char>>, different: Seq<Seq<char>>, upto: int) -> Seq<
    Seq<char>,
>
    decreases upto,
{
    if upto <= 0 {
        Seq::<Seq<char>>::empty()
    } else {
        details_of(units, different, upto - 1).push(unit_detail(units, different[upto - 1]))
    }
}

/// The details of `units`: one for each different unit, in the order of
/// strings.
pub open spec fn unit_details(units: Seq<Seq<char>>) -> Seq<Seq<char>> {
    let different = sorted_set(units);
    sorted_set(details_of(units, different, different.len() as int))
}

/// The ending of `track` for `n` of them.
pub open spec fn plural(n: nat) -> Seq<char> {
    if n == 1 {
        Seq::<char>::empty()
    } else {
        "s"@
    }
}

/// The warning for track names that are not as many as the tracks.
pub open spec fn name_count_message(names: nat, tracks: nat) -> Seq<char> {
    "Track name count ("@ + decimal(names) + ") differs from metadata entries ("@ + decimal(
        tracks,
    ) + ")."@
}

/// The warning for tracks without a description.
pub open spec fn undescribed_message(n: nat) -> Seq<char> {
    decimal(n) + " track"@ + plural(n) + " missing descriptions."@
}

/// The warning for tracks without a unit.
pub open spec fn without_unit_message(n: nat) -> Seq<char> {
    decimal(n) + " track"@ + plural(n) + " missing units; defaulted to 'g'."@
}

/// The warning for tracks with units that the listing does not report.
pub open spec fn unsupported_message(units: Seq<Seq<char>>) -> Seq<char> {
    decimal(units.len()) + " track"@ + plural(units.len()) + " used unsupported units: "@ + joined(
        unit_details(units),
        ", "@,
        unit_details(units).len() as int,
    ) + " (reported as 'g')."@
}

/// The warnings of a listing before they are put in order.
pub open spec fn gathered_list_warnings(given: Option<Seq<Seq<char>>>, tracks: Seq<TrackView>) -> Seq<
    Seq<char>,
> {
    let n = tracks.len() as int;
    (if given is Some && given.unwrap().len() != tracks.len() {
        seq![name_count_message(given.unwrap().len(), tracks.len())]
    } else {
        Seq::empty()
    }) + (if undescribed(tracks, n) > 0 {
        seq![undescribed_message(undescribed(tracks, n))]
    } else {
        Seq::empty()
    }) + (if without_unit(tracks, n) > 0 {
        seq![without_unit_message(without_unit(tracks, n))]
    } else {
        Seq::empty()
    }) + (if unsupported_units(tracks, n).len() > 0 {
        seq![unsupported_message(unsupported_units(tracks, n))]
    } else {
        Seq::empty()
    })
}

/// The tracks of a recording as the listing shows them, with the warnings
/// of the listing.
#[derive(Debug)]
pub struct TrackListing {
    /// The tracks, in the order of the recording.
    pub tracks: Vec<ListDtsTrack>,
    /// The warnings, in the order of strings, each once.
    pub warnings: Vec<String>,
}

/// Appends `track` or `tracks` for `n` of them, with the number before it.
fn push_track_count(s: &mut String, n: usize)
    ensures
        final(s)@ == old(s)@ + (decimal(n as nat) + " track"@ + plural(n as nat)),
{
    push_decimal(s, n as u128);
    s.append(" track");
    if n != 1 {
        s.append("s");
    } else {
        assert(s@ =~= old(s)@ + (decimal(n as nat) + " track"@ + Seq::<char>::empty()));
    }
}

/// How often `unit` stands among `units`.
fn count_occurrences(units: &Vec<String>, unit: &str) -> (n: usize)
    ensures
        n == occurrences(texts_of(units@), unit@, units@.len() as int),
{
    let mut n: usize = 0;
    let mut i: usize = 0;
    while i < units.len()
        invariant
            i <= units.len(),
            n <= i,
            n == occurrences(texts_of(units@), unit@, i as int),
        decreases units.len() - i,
    {
        if str_equal(units[i].as_str(), unit) {
            n += 1;
        }
        i += 1;
    }
    n
}

/// The details of `units`.
fn details_text(units: &Vec<String>) -> (details: Vec<String>)
    ensures
        texts_of(details@) == unit_details(texts_of(units@)),
{
    let different = sort_dedup(units);
    let ghost all = texts_of(units@);
    let ghost keys = texts_of(different@);
    let mut unsorted: Vec<String> = Vec::new();
    let mut i: usize = 0;
    assert(texts_of(unsorted@) =~= details_of(all, keys, 0));
    while i < different.len()
        invariant
            i <= different.len(),
            all == texts_of(units@),
            keys == texts_of(different@),
            texts_of(unsorted@) == details_of(all, keys, i as int),
        decreases different.len() - i,
    {
        let count = count_occurrences(units, different[i].as_str());
        let mut detail = String::new();
        push_decimal(&mut detail, count as u128);
        detail.append("\u{d7}");
        detail.append(different[i].as_str());
        let ghost before = texts_of(unsorted@);
        unsorted.push(detail);
        i += 1;
        proof {
            assert(keys[i as int - 1] == different@[i as int - 1]@);
            assert(detail@ =~= unit_detail(all, keys[i as int - 1]));
            assert(texts_of(unsorted@) =~= before.push(detail@));
        }
    }
    assert(different@.len() == keys.len());
    sort_dedup(&unsorted)
}

/// The warning for tracks with units that the listing does not report.
fn unsupported_warning(units: &Vec<String>) -> (message: String)
    ensures
        message@ == unsupported_message(texts_of(units@)),
{
    let details = details_text(units);
    let mut message = String::new();
    assert(units@.len() == texts_of(units@).len());
    assert(details@.len() == texts_of(details@).len());
    push_track_count(&mut message, units.len());
    message.append(" used unsupported units: ");
    push_joined(&mut message, &details, ", ");
    message.append(" (reported as 'g').");
    assert(message@ =~= unsupported_message(texts_of(units@)));
    message
}

/// Lists the tracks of a recording: each under its resolved name and in
/// `g`, with warnings for names that are not as many as the tracks, for
/// tracks without description or unit, and for units that are not
/// reported.
pub fn list_tracks(metadata: &Vec<TrackMetadata>, track_names: Option<&Vec<String>>) -> (listing:
    TrackListing)
    ensures
        listing.tracks@.len() == metadata@.len(),
        forall|i: int|
            0 <= i < metadata@.len() ==> (#[trigger] listing.tracks@[i])@ == listed(
                given_names(track_names),
                i as nat,
                metadata@[i]@,
            ),
        texts_of(listing.warnings@) == sorted_set(
            gathered_list_warnings(given_names(track_names), track_views(metadata@)),
        ),
        is_sorted_set(
            texts_of(listing.warnings@),
            gathered_list_warnings(given_names(track_names), track_views(metadata@)),
        ),
{
    let ghost views = track_views(metadata@);
    let mut tracks: Vec<ListDtsTrack> = Vec::new();
    let mut missing_descriptions: usize = 0;
    let mut missing_units: usize = 0;
    let mut units: Vec<String> = Vec::new();
    let mut i: usize = 0;
    assert(texts_of(units@) =~= unsupported_units(views, 0));
    while i < metadata.len()
        invariant
            i <= metadata.len(),
            views == track_views(metadata@),
            tracks@.len() == i,
            forall|k: int|
                0 <= k < i ==> (#[trigger] tracks@[k])@ == listed(
                    given_names(track_names),
                    k as nat,
                    metadata@[k]@,
                ),
            missing_descriptions <= i,
            missing_units <= i,
            missing_descriptions == undescribed(views, i as int),
            missing_units == without_unit(views, i as int),
            texts_of(units@) == unsupported_units(views, i as int),
        decreases metadata.len() - i,
    {
        let track = &metadata[i];
        assert(views[i as int] == track@);
        let listed_track = list_track(track_names, i, track);
        if !listed_track.extras.is_none() {
            let description_present = match &listed_track.extras {
                Some(extras) => extras.description_present,
                None => true,
            };
            if !description_present {
                missing_descriptions += 1;
            }
        }
        let raw_unit = trim(track.eu.as_str());
        if raw_unit.as_str().unicode_len() == 0 {
            missing_units += 1;
        } else if !eq_ignore_ascii_case(raw_unit.as_str(), "g") {
            let ghost before = texts_of(units@);
            units.push(raw_unit);
            assert(texts_of(units@) =~= before.push(raw_unit@));
        }
        tracks.push(listed_track);
        i += 1;
    }
    let mut warnings: Vec<String> = Vec::new();
    let ghost given = given_names(track_names);
    let ghost n = metadata@.len() as int;
    assert(views.len() == metadata@.len());
    assert(texts_of(warnings@) =~= Seq::<Seq<char>>::empty());
    match track_names {
        Some(names) => {
            assert(names@.len() == texts_of(names@).len());
            if names.len() != metadata.len() {
                let mut message = String::new();
                message.append("Track name count (");
                assert(message@ == "Track name count ("@);
                push_decimal(&mut message, names.len() as u128);
                message.append(") differs from metadata entries (");
                push_decimal(&mut message, metadata.len() as u128);
                message.append(").");
                warnings.push(message);
                assert(texts_of(warnings@) =~= seq![
                    name_count_message(names@.len(), metadata@.len()),
                ]);
            }
        },
        None => {},
    }
    let ghost first = texts_of(warnings@);
    if missing_descriptions > 0 {
        let mut message = String::new();
        push_track_count(&mut message, missing_descriptions);
        message.append(" missing descriptions.");
        assert(message@ =~= undescribed_message(missing_descriptions as nat));
        warnings.push(message);
        assert(texts_of(warnings@) =~= first + seq![undescribed_message(undescribed(views, n))]);
    } else {
        assert(texts_of(warnings@) =~= first + Seq::<Seq<char>>::empty());
    }
    let ghost second = texts_of(warnings@);
    if missing_units > 0 {
        let mut message = String::new();
        push_track_count(&mut message, missing_units);
        message.append(" missing units; defaulted to 'g'.");
        assert(message@ =~= without_unit_message(missing_units as nat));
        warnings.push(message);
        assert(texts_of(warnings@) =~= second + seq![
            without_unit_message(without_unit(views, n)),
        ]);
    } else {
        assert(texts_of(warnings@) =~= second + Seq::<Seq<char>>::empty());
    }
    let ghost third = texts_of(warnings@);
    assert(units@.len() == texts_of(units@).len());
    if units.len() > 0 {
        let message = unsupported_warning(&units);
        warnings.push(message);
        assert(texts_of(warnings@) =~= third + seq![
            unsupported_message(unsupported_units(views, n)),
        ]);
    } else {
        assert(texts_of(warnings@) =~= third + Seq::<Seq<char>>::empty());
    }
    assert(texts_of(warnings@) == gathered_list_warnings(given, views));
    let sorted = sort_dedup(&warnings);
    TrackListing { tracks, warnings: sorted }
}

/// The answer to a listing in one line.
pub open spec fn listing_summary(
    input: Seq<char>,
    count: nat,
    tracks_path: Option<Seq<char>>,
    warnings: Seq<Seq<char>>,
) -> Seq<char> {
    "Track metadata for '"@ + input + "' \u{2014} "@ + decimal(count) + " track"@ + plural(count)
        + "."@ + (match tracks_path {
        Some(path) => " Track names loaded from '"@ + path + "'."@,
        None => Seq::<char>::empty(),
    }) + (if warnings.len() > 0 {
        " Warnings: "@ + joined(warnings, "; "@, warnings.len() as int)
    } else {
        Seq::<char>::empty()
    })
}

/// The answer to a listing of `track_count` tracks in one line.
pub fn listing_summary_text(
    input: &str,
    track_count: usize,
    tracks_path: Option<&str>,
    warnings: &Vec<String>,
) -> (text: String)
    ensures
        text@ == listing_summary(
            input@,
            track_count as nat,
            match tracks_path {
                Some(path) => Some(path@),
                None => None,
            },
            texts_of(warnings@),
        ),
{
    let mut text = String::new();
    text.append("Track metadata for '");
    assert(text@ == "Track metadata for '"@);
    text.append(input);
    text.append("' \u{2014} ");
    push_track_count(&mut text, track_count);
    text.append(".");
    let ghost head = text@;
    match tracks_path {
        Some(path) => {
            text.append(" Track names loaded from '");
            text.append(path);
            text.append("'.");
            assert(text@ =~= head + (" Track names loaded from '"@ + path@ + "'."@));
        },
        None => {
            assert(text@ =~= head + Seq::<char>::empty());
        },
    }
    let ghost middle = text@;
    assert(warnings@.len() == texts_of(warnings@).len());
    if warnings.len() > 0 {
        text.append(" Warnings: ");
        push_joined(&mut text, warnings, "; ");
        assert(text@ =~= middle + (" Warnings: "@ + joined(
            texts_of(warnings@),
            "; "@,
            warnings@.len() as int,
        )));
    } else {
        assert(text@ =~= middle + Seq::<char>::empty());
    }
    text
}

// ---------------------------------------------------------------------------
// The handler
// ---------------------------------------------------------------------------

/// The name under which the server offers the conversion.
pub const CONVERT_TOOL_NAME: &'static str = "convert_dts_to_uff";

/// The name under which the server offers the listing.
pub const LIST_TOOL_NAME: &'static str = "list_dts_tracks";

/// The operations that the server offers.
#[derive(Clone, Copy, Debug, PartialEq, Eq, Structural)]
pub enum ConverterTool {
    /// Converting a recording.
    ConvertDtsToUff,
    /// Listing the tracks of a recording.
    ListDtsTracks,
}

/// The operation of the given name, if the server offers one.
pub open spec fn tool_of(name: Seq<char>) -> Option<ConverterTool> {
    if name == CONVERT_TOOL_NAME@ {
        Some(ConverterTool::ConvertDtsToUff)
    } else if name == LIST_TOOL_NAME@ {
        Some(ConverterTool::ListDtsTracks)
    } else {
        None
    }
}

/// What decides which operation answers a call.
#[derive(Clone, Copy, Debug)]
pub struct ConverterServerHandler;

impl ConverterServerHandler {
    /// The operation that answers a call of the given name.
    pub fn tool_named(&self, name: &str) -> (tool: Option<ConverterTool>)
        ensures
            tool == tool_of(name@),
    {
        if str_equal(name, CONVERT_TOOL_NAME) {
            Some(ConverterTool::ConvertDtsToUff)
        } else if str_equal(name, LIST_TOOL_NAME) {
            Some(ConverterTool::ListDtsTracks)
        } else {
            None
        }
    }

    /// The name under which an operation is offered.
    pub fn tool_name(&self, tool: ConverterTool) -> (name: &'static str)
        ensures
            name@ == (match tool {
                ConverterTool::ConvertDtsToUff => CONVERT_TOOL_NAME@,
                ConverterTool::ListDtsTracks => LIST_TOOL_NAME@,
            }),
    {
        match tool {
            ConverterTool::ConvertDtsToUff => CONVERT_TOOL_NAME,
            ConverterTool::ListDtsTracks => LIST_TOOL_NAME,
        }
    }

    /// Whether the list of tools describes the structure of an operation's
    /// answer: that of the listing only.
    pub fn describes_output(&self, tool: ConverterTool) -> (described: bool)
        ensures
            described == (tool == ConverterTool::ListDtsTracks),
    {
        match tool {
            ConverterTool::ConvertDtsToUff => false,
            ConverterTool::ListDtsTracks => true,
        }
    }
}

} // verus!
