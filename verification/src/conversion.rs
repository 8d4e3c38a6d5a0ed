//! The orchestration of a conversion: track names, the plan of channels,
//! the slice of samples, the order of writing and the report.

use crate::dts::ChannelData;
use crate::ranking::{is_arrangement, key_ranking, lemma_rising_keys_keep_place, rank_by_key};
use crate::text::{
    ascii_lowercase, chars_of, decimal, lowercase_chars, parse_error_message, parse_error_text,
    parse_number, parsed_number, push_decimal, sort_dedup, sorted_set, str_equal, string_of,
    is_sorted_set,
    string_of_range, texts_of, trim_range, trimmed, ParseNumberError,
};
use crate::uff::{
    append_bytes, uff58_ascii, uff58_binary, write_uff58_ascii, write_uff58b_ordered, ByteOrder,
    ChannelText, UffError,
};
use core::ops::Range;
use vstd::prelude::*;

verus! {

// ---------------------------------------------------------------------------
// The output format
// ---------------------------------------------------------------------------

/// The formats in which a conversion writes.
#[derive(Clone, Copy, Debug, PartialEq, Eq, Structural)]
pub enum OutputFormat {
    /// Text records throughout.
    Ascii,
    /// Text records before a binary payload.
    Binary,
}

/// What [`OutputFormat::from_str`] makes of a text: the format that the
/// text names when its white space is trimmed and its ASCII letters are made
/// small, or a message that quotes it.
pub open spec fn output_format_of(s: Seq<char>) -> Result<OutputFormat, Seq<char>> {
    let key = ascii_lowercase(trimmed(s));
    if key == "ascii"@ {
        Ok(OutputFormat::Ascii)
    } else if key == "binary"@ {
        Ok(OutputFormat::Binary)
    } else {
        Err("Unsupported output format '"@ + key + "'. Expected 'ascii' or 'binary'."@)
    }
}

impl OutputFormat {
    /// The name of the format.
    pub fn as_str(&self) -> (name: &'static str)
        ensures
            name@ == (match *self {
                OutputFormat::Ascii => "ascii"@,
                OutputFormat::Binary => "binary"@,
            }),
    {
        match self {
            OutputFormat::Ascii => "ascii",
            OutputFormat::Binary => "binary",
        }
    }

    /// The format that `s` names.
    pub fn from_str(s: &str) -> (r: Result<OutputFormat, String>)
        ensures
            match r {
                Ok(format) => output_format_of(s@) == Ok::<OutputFormat, Seq<char>>(format),
                Err(message) => output_format_of(s@) == Err::<OutputFormat, Seq<char>>(message@),
            },
    {
        let chars = chars_of(s);
        assert(chars@.subrange(0, chars.len() as int) == chars@);
        let (from, to) = trim_range(&chars, 0, chars.len());
        let piece = string_of_range(&chars, from, to);
        let key = lowercase_chars(piece.as_str());
        let ascii = chars_of("ascii");
        let binary = chars_of("binary");
        if crate::text::chars_equal(&key, &ascii) {
            Ok(OutputFormat::Ascii)
        } else if crate::text::chars_equal(&key, &binary) {
            Ok(OutputFormat::Binary)
        } else {
            let mut message = String::new();
            message.append("Unsupported output format '");
            assert(message@ == "Unsupported output format '"@);
            let shown = string_of(&key);
            message.append(shown.as_str());
            message.append("'. Expected 'ascii' or 'binary'.");
            Err(message)
        }
    }
}

// ---------------------------------------------------------------------------
// The slice of samples
// ---------------------------------------------------------------------------

/// Why a conversion fails before anything is written.
#[derive(Clone, Copy, Debug, PartialEq, Eq, Structural)]
pub enum ConversionError {
    /// The slice begins at or behind its end.
    SliceOrder { start: usize, end: usize },
    /// The slice ends behind the samples.
    SliceBeyondSamples { end: usize, available: usize },
}

/// What an error says to the user.
pub open spec fn conversion_error_message(e: ConversionError) -> Seq<char> {
    match e {
        ConversionError::SliceOrder { start, end } => "Invalid slice: start index ("@ + decimal(
            start as nat,
        ) + ") must be less than end index ("@ + decimal(end as nat) + ")."@,
        ConversionError::SliceBeyondSamples { end, available } =>
            "Invalid slice: end index ("@ + decimal(end as nat)
                + ") exceeds available samples ("@ + decimal(available as nat) + ")."@,
    }
}

impl ConversionError {
    /// What the error says to the user.
    pub fn message(&self) -> (text: String)
        ensures
            text@ == conversion_error_message(*self),
    {
        let mut text = String::new();
        match self {
            ConversionError::SliceOrder { start, end } => {
                text.append("Invalid slice: start index (");
                assert(text@ == "Invalid slice: start index ("@);
                push_decimal(&mut text, *start as u128);
                text.append(") must be less than end index (");
                push_decimal(&mut text, *end as u128);
                text.append(").");
            },
            ConversionError::SliceBeyondSamples { end, available } => {
                text.append("Invalid slice: end index (");
                assert(text@ == "Invalid slice: end index ("@);
                push_decimal(&mut text, *end as u128);
                text.append(") exceeds available samples (");
                push_decimal(&mut text, *available as u128);
                text.append(").");
            },
        }
        text
    }
}

/// The samples to write of every channel: from `start`, up to `end` and
/// without it.
#[derive(Clone, Copy, Debug, PartialEq, Eq, Structural)]
pub struct SampleSlice {
    /// First sample of the slice.
    pub start: usize,
    /// One behind the last sample of the slice.
    pub end: usize,
}

/// The position of the first `c` in `s`, or the length of `s` where there
/// is none.
pub open spec fn first_index(s: Seq<char>, c: char) -> int
    decreases s.len(),
{
    if s.len() == 0 || s[0] == c {
        0
    } else {
        1 + first_index(s.drop_first(), c)
    }
}

/// The message of a bound that is no number.
pub open spec fn slice_bound_message(which: Seq<char>, text: Seq<char>, e: ParseNumberError) -> Seq<
    char,
> {
    "Failed to parse slice "@ + which + " '"@ + text + "': "@ + parse_error_message(e)
}

/// What [`SampleSlice::from_str`] makes of a text: the two numbers around
/// its first colon, white space around each left out; or a message.
pub open spec fn sample_slice_of(s: Seq<char>) -> Result<SampleSlice, Seq<char>> {
    let at = first_index(s, ':');
    if at >= s.len() {
        Err("Slice must be provided in the format start:end"@)
    } else {
        let start = s.take(at);
        let end = s.skip(at + 1);
        match parsed_number(trimmed(start), usize::MAX as nat) {
            Err(e) => Err(slice_bound_message("start"@, start, e)),
            Ok(a) => match parsed_number(trimmed(end), usize::MAX as nat) {
                Err(e) => Err(slice_bound_message("end"@, end, e)),
                Ok(b) => Ok(SampleSlice { start: a as usize, end: b as usize }),
            },
        }
    }
}

/// The message of a bound that is no number.
fn bound_message(which: &str, chars: &Vec<char>, from: usize, to: usize, e: ParseNumberError) -> (m:
    String)
    requires
        from <= to <= chars.len(),
    ensures
        m@ == slice_bound_message(which@, chars@.subrange(from as int, to as int), e),
{
    let text = string_of_range(chars, from, to);
    let mut m = String::new();
    m.append("Failed to parse slice ");
    assert(m@ == "Failed to parse slice "@);
    m.append(which);
    m.append(" '");
    m.append(text.as_str());
    m.append("': ");
    m.append(parse_error_text(e));
    m
}

/// Reads the number in `chars[from..to]`, white space around it left out.
fn parse_bound(chars: &Vec<char>, from: usize, to: usize) -> (r: Result<usize, ParseNumberError>)
    requires
        from <= to <= chars.len(),
    ensures
        match r {
            Ok(value) => parsed_number(
                trimmed(chars@.subrange(from as int, to as int)),
                usize::MAX as nat,
            ) == Ok::<nat, ParseNumberError>(value as nat),
            Err(e) => parsed_number(
                trimmed(chars@.subrange(from as int, to as int)),
                usize::MAX as nat,
            ) == Err::<nat, ParseNumberError>(e),
        },
{
    let (a, b) = trim_range(chars, from, to);
    let text = string_of_range(chars, a, b);
    match parse_number(text.as_str(), usize::MAX as u64) {
        Ok(value) => Ok(value as usize),
        Err(e) => Err(e),
    }
}

impl SampleSlice {
    /// The slice as a range of a series of `len` samples. An error where
    /// the slice is empty or reversed, and where it ends behind the series:
    /// a slice is never cut to fit.
    pub fn as_range(&self, len: usize) -> (r: Result<Range<usize>, ConversionError>)
        ensures
            self.start >= self.end ==> r == Err::<Range<usize>, ConversionError>(
                ConversionError::SliceOrder { start: self.start, end: self.end },
            ),
            self.start < self.end && self.end > len ==> r == Err::<Range<usize>, ConversionError>(
                ConversionError::SliceBeyondSamples { end: self.end, available: len },
            ),
            self.start < self.end <= len ==> r == Ok::<Range<usize>, ConversionError>(
                Range { start: self.start, end: self.end },
            ),
    {
        if self.start >= self.end {
            return Err(ConversionError::SliceOrder { start: self.start, end: self.end });
        }
        if self.end > len {
            return Err(ConversionError::SliceBeyondSamples { end: self.end, available: len });
        }
        Ok(Range { start: self.start, end: self.end })
    }

    /// The slice that a text of the form `start:end` writes.
    pub fn from_str(s: &str) -> (r: Result<SampleSlice, String>)
        ensures
            match r {
                Ok(slice) => sample_slice_of(s@) == Ok::<SampleSlice, Seq<char>>(slice),
                Err(message) => sample_slice_of(s@) == Err::<SampleSlice, Seq<char>>(message@),
            },
    {
        let chars = chars_of(s);
        let mut at: usize = 0;
        assert(chars@.skip(0) == chars@);
        while at < chars.len() && chars[at] != ':'
            invariant
                at <= chars.len(),
                first_index(chars@, ':') == at + first_index(chars@.skip(at as int), ':'),
            decreases chars.len() - at,
        {
            assert(chars@.skip(at as int).drop_first() == chars@.skip(at as int + 1));
            at += 1;
        }
        if at >= chars.len() {
            let mut message = String::new();
            message.append("Slice must be provided in the format start:end");
            assert(message@ == "Slice must be provided in the format start:end"@);
            return Err(message);
        }
        assert(chars@.subrange(0, at as int) == s@.take(at as int));
        assert(chars@.subrange(at as int + 1, chars.len() as int) == s@.skip(at as int + 1));
        let start = match parse_bound(&chars, 0, at) {
            Ok(start) => start,
            Err(e) => {
                return Err(bound_message("start", &chars, 0, at, e));
            },
        };
        let end = match parse_bound(&chars, at + 1, chars.len()) {
            Ok(end) => end,
            Err(e) => {
                return Err(bound_message("end", &chars, at + 1, chars.len(), e));
            },
        };
        Ok(SampleSlice { start, end })
    }

    /// The samples of `series` that the slice names.
    pub fn apply<T: Copy>(&self, series: &Vec<T>) -> (r: Result<Vec<T>, ConversionError>)
        ensures
            self.start >= self.end ==> r == Err::<Vec<T>, ConversionError>(
                ConversionError::SliceOrder { start: self.start, end: self.end },
            ),
            self.start < self.end && self.end > series@.len() ==> r == Err::<
                Vec<T>,
                ConversionError,
            >(ConversionError::SliceBeyondSamples { end: self.end, available: series.len() }),
            self.start < self.end <= series@.len() ==> r is Ok && r.unwrap()@
                == series@.subrange(self.start as int, self.end as int),
    {
        let range = match self.as_range(series.len()) {
            Ok(range) => range,
            Err(e) => {
                return Err(e);
            },
        };
        let mut out: Vec<T> = Vec::new();
        let mut i: usize = range.start;
        while i < range.end
            invariant
                range.start <= i <= range.end <= series.len(),
                out@ == series@.subrange(range.start as int, i as int),
            decreases range.end - i,
        {
            out.push(series[i]);
            i += 1;
        }
        Ok(out)
    }
}

// ---------------------------------------------------------------------------
// Track names
// ---------------------------------------------------------------------------

/// Whether `c` parts two names: a comma, and in a text of lines a line feed
/// or a carriage return as well.
pub open spec fn is_separator(c: char, lines: bool) -> bool {
    c == ',' || (lines && (c == '\n' || c == '\r'))
}

/// The name that a piece of text holds: the piece without the white space
/// around it, and none where nothing is left.
pub open spec fn name_in(piece: Seq<char>) -> Seq<Seq<char>> {
    if trimmed(piece).len() == 0 {
        Seq::<Seq<char>>::empty()
    } else {
        seq![trimmed(piece)]
    }
}

/// The names in `rest`, read from the left, where `head` is what has been
/// read of the piece at hand.
pub open spec fn names_after(head: Seq<char>, rest: Seq<char>, lines: bool) -> Seq<Seq<char>>
    decreases rest.len(),
{
    if rest.len() == 0 {
        name_in(head)
    } else if is_separator(rest[0], lines) {
        name_in(head) + names_after(Seq::<char>::empty(), rest.drop_first(), lines)
    } else {
        names_after(head.push(rest[0]), rest.drop_first(), lines)
    }
}

/// The names in a text: the text split at each separator, each piece
/// without the white space around it, empty pieces left out, the order
/// kept.
pub open spec fn names_in(text: Seq<char>, lines: bool) -> Seq<Seq<char>> {
    names_after(Seq::<char>::empty(), text, lines)
}

/// The names in `text`; see [`names_in`].
pub fn split_names(text: &str, lines: bool) -> (names: Vec<String>)
    ensures
        texts_of(names@) == names_in(text@, lines),
{
    let chars = chars_of(text);
    let mut names: Vec<String> = Vec::new();
    let mut start: usize = 0;
    let mut i: usize = 0;
    assert(chars@.skip(0) == chars@);
    assert(chars@.subrange(0, 0) == Seq::<char>::empty());
    assert(texts_of(names@) + names_in(text@, lines) == names_in(text@, lines));
    while i < chars.len()
        invariant
            start <= i <= chars.len(),
            chars@ == text@,
            names_in(text@, lines) == texts_of(names@) + names_after(
                chars@.subrange(start as int, i as int),
                chars@.skip(i as int),
                lines,
            ),
        decreases chars.len() - i,
    {
        let c = chars[i];
        proof {
            assert(chars@.skip(i as int).drop_first() == chars@.skip(i as int + 1));
            assert(chars@.subrange(start as int, i as int).push(c) == chars@.subrange(
                start as int,
                i as int + 1,
            ));
            assert(chars@.subrange(i as int + 1, i as int + 1) == Seq::<char>::empty());
        }
        if c == ',' || (lines && (c == '\n' || c == '\r')) {
            let ghost before = texts_of(names@);
            let ghost rest = names_after(Seq::<char>::empty(), chars@.skip(i as int + 1), lines);
            push_name(&mut names, &chars, start, i);
            assert(texts_of(names@) + rest == before + (name_in(
                chars@.subrange(start as int, i as int),
            ) + rest));
            start = i + 1;
        }
        i += 1;
    }
    let ghost before = texts_of(names@);
    push_name(&mut names, &chars, start, i);
    names
}

/// Adds the name in `chars[from..to]` to `names`, where there is one.
fn push_name(names: &mut Vec<String>, chars: &Vec<char>, from: usize, to: usize)
    requires
        from <= to <= chars.len(),
    ensures
        texts_of(final(names)@) == texts_of(old(names)@) + name_in(
            chars@.subrange(from as int, to as int),
        ),
{
    let (a, b) = trim_range(chars, from, to);
    if a < b {
        let name = string_of_range(chars, a, b);
        names.push(name);
        assert(texts_of(names@) =~= texts_of(old(names)@) + seq![name@]);
    } else {
        assert(texts_of(names@) =~= texts_of(old(names)@) + Seq::<Seq<char>>::empty());
    }
}

/// The track names that the text of a track-name file holds: split at
/// commas and line ends.
pub fn parse_track_names(raw: &str) -> (names: Vec<String>)
    ensures
        texts_of(names@) == names_in(raw@, true),
{
    split_names(raw, true)
}

/// The message for a selection that names no track.
pub const NO_TRACK_SELECTED: &'static str = "At least one track name must be provided";

/// The tracks that a selection names: split at commas. A selection that
/// names none is an error.
pub fn parse_track_selection(value: &str) -> (r: Result<Vec<String>, String>)
    ensures
        match r {
            Ok(tracks) => texts_of(tracks@) == names_in(value@, false) && tracks@.len() > 0,
            Err(message) => names_in(value@, false).len() == 0 && message@ == NO_TRACK_SELECTED@,
        },
{
    let tracks = split_names(value, false);
    assert(tracks@.len() == texts_of(tracks@).len());
    if tracks.len() == 0 {
        let mut message = String::new();
        message.append(NO_TRACK_SELECTED);
        assert(message@ == NO_TRACK_SELECTED@);
        Err(message)
    } else {
        Ok(tracks)
    }
}

/// The track names that the text of a track-name file holds, none where it
/// holds no name.
pub fn load_track_names(contents: &str) -> (r: Option<Vec<String>>)
    ensures
        match r {
            Some(names) => texts_of(names@) == names_in(contents@, true) && names@.len() > 0,
            None => names_in(contents@, true).len() == 0,
        },
{
    let names = split_names(contents, true);
    assert(names@.len() == texts_of(names@).len());
    if names.len() == 0 {
        None
    } else {
        Some(names)
    }
}

// ---------------------------------------------------------------------------
// The plan of channels
// ---------------------------------------------------------------------------

/// The first place at or after `from` where `names` holds `wanted` and
/// `used` is not set; the length of `names` where there is none.
pub open spec fn first_free(names: Seq<Seq<char>>, used: Seq<bool>, wanted: Seq<char>, from: int) -> int
    decreases names.len() - from,
{
    if from >= names.len() {
        names.len() as int
    } else if !used[from] && names[from] == wanted {
        from
    } else {
        first_free(names, used, wanted, from + 1)
    }
}

/// How far a plan has come: the channels planned, as pairs of the request's
/// place and the name's place; the names taken; the places of the requests
/// that found no name.
pub ghost struct Planning {
    pub plan: Seq<(usize, usize)>,
    pub used: Seq<bool>,
    pub missing: Seq<usize>,
}

/// The plan after the request at place `order` for the name `wanted`: the
/// first name that is equal and not taken is planned and taken; where there
/// is none, the request is missing.
pub open spec fn after_request(
    names: Seq<Seq<char>>,
    before: Planning,
    order: int,
    wanted: Seq<char>,
) -> Planning {
    let at = first_free(names, before.used, wanted, 0);
    if at < names.len() {
        Planning {
            plan: before.plan.push((order as usize, at as usize)),
            used: before.used.update(at, true),
            ..before
        }
    } else {
        Planning { missing: before.missing.push(order as usize), ..before }
    }
}

/// The plan for `requests` over `names`: each request in turn.
pub open spec fn planning(names: Seq<Seq<char>>, requests: Seq<Seq<char>>) -> Planning
    decreases requests.len(),
{
    if requests.len() == 0 {
        Planning {
            plan: Seq::empty(),
            used: Seq::new(names.len(), |i: int| false),
            missing: Seq::empty(),
        }
    } else {
        after_request(
            names,
            planning(names, requests.drop_last()),
            requests.len() - 1,
            requests.last(),
        )
    }
}

/// The plan without a selection: every channel, in its own place.
pub open spec fn whole_plan(channels: nat) -> Seq<(usize, usize)> {
    Seq::new(channels, |i: int| (i as usize, i as usize))
}

/// The warning for a requested track that was not found.
pub open spec fn not_found_message(wanted: Seq<char>) -> Seq<char> {
    "Requested track '"@ + wanted + "' was not found in the provided track list."@
}

/// The warnings for the requests at the places `missing`.
pub open spec fn not_found_warnings(requests: Seq<Seq<char>>, missing: Seq<usize>) -> Seq<
    Seq<char>,
> {
    Seq::new(missing.len(), |i: int| not_found_message(requests[missing[i] as int]))
}

/// The channels to extract, each as the pair of its place in the output and
/// the place of its track name, with the warnings that planning gave.
pub struct ChannelPlan {
    /// The channels, in the order of the output.
    pub entries: Vec<(usize, usize)>,
    /// One warning for each requested track that was not found.
    pub warnings: Vec<String>,
}

/// The first place where `names` holds `wanted` and `used` is not set.
fn find_free(names: &Vec<String>, used: &Vec<bool>, wanted: &str) -> (at: usize)
    requires
        used@.len() == names@.len(),
    ensures
        at == first_free(texts_of(names@), used@, wanted@, 0),
        at <= names@.len(),
{
    let mut i: usize = 0;
    while i < names.len()
        invariant
            i <= names.len(),
            used@.len() == names@.len(),
            first_free(texts_of(names@), used@, wanted@, 0) == first_free(
                texts_of(names@),
                used@,
                wanted@,
                i as int,
            ),
        decreases names.len() - i,
    {
        if !used[i] && str_equal(names[i].as_str(), wanted) {
            return i;
        }
        i += 1;
    }
    i
}

/// The warning for a requested track that was not found.
fn not_found_warning(wanted: &str) -> (message: String)
    ensures
        message@ == not_found_message(wanted@),
{
    let mut message = String::new();
    message.append("Requested track '");
    assert(message@ == "Requested track '"@);
    message.append(wanted);
    message.append("' was not found in the provided track list.");
    message
}

/// Plans the channels of a conversion. With a selection, each requested
/// name takes the first track name that is equal to it and not yet taken,
/// in the order of the requests; a request that finds none gives a warning
/// and nothing else. Without a selection every channel is planned.
pub fn build_channel_plan(
    track_names: &Vec<String>,
    filter: Option<&Vec<String>>,
    num_channels: usize,
) -> (plan: ChannelPlan)
    ensures
        match filter {
            Some(requests) => {
                let planned = planning(texts_of(track_names@), texts_of(requests@));
                &&& plan.entries@ == planned.plan
                &&& texts_of(plan.warnings@) == not_found_warnings(
                    texts_of(requests@),
                    planned.missing,
                )
            },
            None => plan.entries@ == whole_plan(num_channels as nat) && plan.warnings@.len() == 0,
        },
{
    let mut entries: Vec<(usize, usize)> = Vec::new();
    let mut warnings: Vec<String> = Vec::new();
    match filter {
        Some(requests) => {
            let mut used: Vec<bool> = vec![false; track_names.len()];
            let ghost names = texts_of(track_names@);
            let ghost wanted = texts_of(requests@);
            let ghost mut missing: Seq<usize> = Seq::empty();
            assert(used@ =~= Seq::new(names.len(), |i: int| false));
            assert(texts_of(warnings@) =~= not_found_warnings(wanted, missing));
            let mut order: usize = 0;
            while order < requests.len()
                invariant
                    order <= requests.len(),
                    names == texts_of(track_names@),
                    wanted == texts_of(requests@),
                    used@.len() == track_names@.len(),
                    planning(names, wanted.take(order as int)) == (Planning {
                        plan: entries@,
                        used: used@,
                        missing,
                    }),
                    texts_of(warnings@) == not_found_warnings(wanted, missing),
                    forall|i: int| 0 <= i < missing.len() ==> (#[trigger] missing[i]) < order,
                decreases requests.len() - order,
            {
                proof {
                    assert(wanted.take(order as int + 1).drop_last() == wanted.take(order as int));
                    assert(wanted.take(order as int + 1).last() == requests@[order as int]@);
                }
                let at = find_free(track_names, &used, requests[order].as_str());
                if at < track_names.len() {
                    used.set(at, true);
                    entries.push((order, at));
                } else {
                    let ghost before = texts_of(warnings@);
                    let ghost earlier = missing;
                    let warning = not_found_warning(requests[order].as_str());
                    warnings.push(warning);
                    proof {
                        missing = missing.push(order);
                        assert(wanted[order as int] == requests@[order as int]@);
                        assert(texts_of(warnings@) =~= before.push(warning@));
                        assert forall|i: int| 0 <= i < missing.len() implies texts_of(
                            warnings@,
                        )[i] == not_found_warnings(wanted, missing)[i] by {
                            if i < earlier.len() {
                                assert(before[i] == not_found_warnings(wanted, earlier)[i]);
                                assert(missing[i] == earlier[i]);
                            }
                        }
                        assert(texts_of(warnings@) =~= not_found_warnings(wanted, missing));
                    }
                }
                order += 1;
            }
            assert(wanted.take(requests.len() as int) == wanted);
        },
        None => {
            let mut i: usize = 0;
            while i < num_channels
                invariant
                    i <= num_channels,
                    entries@ == whole_plan(i as nat),
                    warnings@.len() == 0,
                decreases num_channels - i,
            {
                entries.push((i, i));
                i += 1;
                assert(entries@ =~= whole_plan(i as nat));
            }
        },
    }
    ChannelPlan { entries, warnings }
}

/// What holds of a plan, however far it has come.
pub open spec fn plan_invariant(names: Seq<Seq<char>>, requests: Seq<Seq<char>>, p: Planning) -> bool {
    &&& p.used.len() == names.len()
    &&& p.plan.len() + p.missing.len() == requests.len()
    &&& forall|i: int|
        0 <= i < p.plan.len() ==> {
            let entry = #[trigger] p.plan[i];
            &&& entry.0 < requests.len()
            &&& entry.1 < names.len()
            &&& names[entry.1 as int] == requests[entry.0 as int]
            &&& p.used[entry.1 as int]
        }
    &&& forall|i: int, j: int|
        0 <= i < j < p.plan.len() ==> (#[trigger] p.plan[i]).0 < (#[trigger] p.plan[j]).0
    &&& forall|i: int, j: int|
        0 <= i < j < p.plan.len() ==> (#[trigger] p.plan[i]).1 != (#[trigger] p.plan[j]).1
    &&& forall|k: int|
        0 <= k < names.len() && #[trigger] p.used[k] ==> exists|i: int|
            0 <= i < p.plan.len() && (#[trigger] p.plan[i]).1 == k
    &&& forall|k: usize|
        k < requests.len() ==> #[trigger] p.missing.contains(k) || exists|i: int|
            0 <= i < p.plan.len() && (#[trigger] p.plan[i]).0 == k
    &&& forall|i: int| 0 <= i < p.missing.len() ==> (#[trigger] p.missing[i]) < requests.len()
    &&& forall|i: int, j: int|
        0 <= i < j < p.missing.len() ==> (#[trigger] p.missing[i]) < (#[trigger] p.missing[j])
    &&& forall|i: int, j: int|
        0 <= i < p.plan.len() && 0 <= j < p.missing.len() ==> (#[trigger] p.plan[i]).0 != (
        #[trigger] p.missing[j])
    &&& forall|i: int|
        0 <= i < p.missing.len() ==> !names.contains(requests[(#[trigger] p.missing[i]) as int]) || (
        forall|k: int|
            0 <= k < names.len() && names[k] == requests[p.missing[i] as int] ==> #[trigger] p.used[k])
}

/// Where no name is free, none that is equal is left untaken; where one is
/// free, it is the first.
pub proof fn lemma_first_free(names: Seq<Seq<char>>, used: Seq<bool>, wanted: Seq<char>, from: int)
    requires
        0 <= from,
        used.len() == names.len(),
    ensures
        from <= first_free(names, used, wanted, from) || first_free(names, used, wanted, from)
            == names.len(),
        first_free(names, used, wanted, from) <= names.len(),
        first_free(names, used, wanted, from) < names.len() ==> !used[first_free(
            names,
            used,
            wanted,
            from,
        )] && names[first_free(names, used, wanted, from)] == wanted,
        forall|k: int|
            from <= k < first_free(names, used, wanted, from) ==> #[trigger] used[k] || names[k]
                != wanted,
    decreases names.len() - from,
{
    if from < names.len() && !(!used[from] && names[from] == wanted) {
        lemma_first_free(names, used, wanted, from + 1);
    }
}

/// The selected channels come in the order of the requests, not of the
/// channels: the plan's request places rise, each planned name is the
/// requested one, no name is planned twice, and every request is either
/// planned or missing, never both. A request is missing only where every
/// track name equal to it has been taken by an earlier request; so a name
/// that the track list does not hold is missing each time it is requested.
pub proof fn lemma_plan_follows_requests(names: Seq<Seq<char>>, requests: Seq<Seq<char>>)
    requires
        names.len() <= usize::MAX,
        requests.len() <= usize::MAX,
    ensures
        plan_invariant(names, requests, planning(names, requests)),
    decreases requests.len(),
{
    if requests.len() > 0 {
        let earlier = requests.drop_last();
        lemma_plan_follows_requests(names, earlier);
        let before = planning(names, earlier);
        let order = requests.len() - 1;
        let wanted = requests.last();
        lemma_first_free(names, before.used, wanted, 0);
        let at = first_free(names, before.used, wanted, 0);
        let p = planning(names, requests);
        assert forall|i: int| 0 <= i < before.plan.len() implies requests[(
        #[trigger] before.plan[i]).0 as int] == earlier[before.plan[i].0 as int] by {}
        assert forall|i: int| 0 <= i < before.missing.len() implies requests[(
        #[trigger] before.missing[i]) as int] == earlier[before.missing[i] as int] by {}
        assert forall|k: usize| k < requests.len() implies #[trigger] p.missing.contains(k)
            || exists|i: int| 0 <= i < p.plan.len() && (#[trigger] p.plan[i]).0 == k by {
            if k == order {
                if at < names.len() {
                    assert(p.plan[before.plan.len() as int].0 == k);
                } else {
                    assert(p.missing[before.missing.len() as int] == k);
                }
            } else {
                assert(k < earlier.len());
                if before.missing.contains(k) {
                    let j = choose|j: int| 0 <= j < before.missing.len() && before.missing[j] == k;
                    assert(p.missing[j] == k);
                } else {
                    let i = choose|i: int|
                        0 <= i < before.plan.len() && (#[trigger] before.plan[i]).0 == k;
                    assert(p.plan[i].0 == k);
                }
            }
        }
        if at < names.len() {
            assert(p.plan == before.plan.push((order as usize, at as usize)));
            assert forall|k: int| 0 <= k < names.len() && #[trigger] p.used[k] implies exists|
                i: int,
            | 0 <= i < p.plan.len() && (#[trigger] p.plan[i]).1 == k by {
                if k == at {
                    assert(p.plan[before.plan.len() as int].1 == k);
                } else {
                    assert(before.used[k]);
                    let i = choose|i: int|
                        0 <= i < before.plan.len() && (#[trigger] before.plan[i]).1 == k;
                    assert(p.plan[i].1 == k);
                }
            }
            assert forall|i: int|
                0 <= i < p.missing.len() implies !names.contains(
                requests[(#[trigger] p.missing[i]) as int],
            ) || (forall|k: int|
                0 <= k < names.len() && names[k] == requests[p.missing[i] as int]
                    ==> #[trigger] p.used[k]) by {
                let m = before.missing[i] as int;
                if names.contains(requests[m]) {
                    assert(names.contains(earlier[m]));
                    assert forall|k: int|
                        0 <= k < names.len() && names[k] == requests[m] implies #[trigger] p.used[k] by {
                        assert(before.used[k]);
                    }
                }
            }
        } else {
            assert(p.missing == before.missing.push(order as usize));
            assert forall|i: int|
                0 <= i < p.missing.len() implies !names.contains(
                requests[(#[trigger] p.missing[i]) as int],
            ) || (forall|k: int|
                0 <= k < names.len() && names[k] == requests[p.missing[i] as int]
                    ==> #[trigger] p.used[k]) by {
                if i < before.missing.len() {
                    let m = before.missing[i] as int;
                    if names.contains(requests[m]) {
                        assert(names.contains(earlier[m]));
                    }
                }
            }
        }
    }
}

// ---------------------------------------------------------------------------
// Labels
// ---------------------------------------------------------------------------

/// The label of the channel whose track name stands at place `index`: that
/// name, or `Channel_` and the channel's number, counted from one, where
/// the names do not reach so far.
pub open spec fn label_of(names: Seq<Seq<char>>, index: nat) -> Seq<char> {
    if index < names.len() {
        names[index as int]
    } else {
        "Channel_"@ + decimal(index + 1)
    }
}

/// The label of the channel whose track name stands at place
/// `channel_index`.
pub fn track_label(track_names: &Vec<String>, channel_index: usize) -> (label: String)
    ensures
        label@ == label_of(texts_of(track_names@), channel_index as nat),
{
    if channel_index < track_names.len() {
        track_names[channel_index].clone()
    } else {
        let mut label = String::new();
        label.append("Channel_");
        assert(label@ == "Channel_"@);
        push_decimal(&mut label, (channel_index as u128) + 1);
        label
    }
}

// ---------------------------------------------------------------------------
// Writing in order
// ---------------------------------------------------------------------------

/// One channel as it comes out of extraction: its place in the output, its
/// label, its samples and their text.
pub struct ExtractedChannel {
    /// Place of the channel in the output.
    pub order: usize,
    /// Label of the channel.
    pub track_name: String,
    /// Calibrated samples.
    pub data: ChannelData,
    /// The channel's numbers as text.
    pub text: ChannelText,
}

/// The dataset of one channel in the given format.
pub open spec fn dataset_of(channel: ExtractedChannel, format: OutputFormat, order: ByteOrder) -> Result<
    Seq<u8>,
    UffError,
> {
    match format {
        OutputFormat::Ascii => uff58_ascii(
            channel.track_name@,
            channel.data.units@,
            channel.data.time_series@.len(),
            channel.text.time_step@,
            texts_of(channel.text.samples@),
        ),
        OutputFormat::Binary => uff58_binary(
            order,
            channel.track_name@,
            channel.data.units@,
            channel.data.time_series@,
            channel.text.time_step@,
        ),
    }
}

/// The output places of extracted channels.
pub open spec fn orders_of(channels: Seq<ExtractedChannel>) -> Seq<u64> {
    channels.map_values(|c: ExtractedChannel| c.order as u64)
}

/// The channel that is written at place `i`: the channels by rising output
/// place, those with the same place as they came.
pub open spec fn written_at(channels: Seq<ExtractedChannel>, i: int) -> ExtractedChannel {
    channels[key_ranking(orders_of(channels), channels.len())[i] as int]
}

/// The datasets of the first `upto` channels in the order of writing, one
/// behind the other; the error of the first that has one.
pub open spec fn datasets(
    channels: Seq<ExtractedChannel>,
    upto: int,
    format: OutputFormat,
    order: ByteOrder,
) -> Result<Seq<u8>, UffError>
    decreases upto,
{
    if upto <= 0 {
        Ok(Seq::<u8>::empty())
    } else {
        match datasets(channels, upto - 1, format, order) {
            Err(e) => Err(e),
            Ok(before) => match dataset_of(written_at(channels, upto - 1), format, order) {
                Err(e) => Err(e),
                Ok(bytes) => Ok(before + bytes),
            },
        }
    }
}

/// An error among the first datasets is the error of all.
pub proof fn lemma_dataset_error_stays(
    channels: Seq<ExtractedChannel>,
    upto: int,
    more: int,
    format: OutputFormat,
    order: ByteOrder,
)
    requires
        upto <= more,
        datasets(channels, upto, format, order) is Err,
    ensures
        datasets(channels, more, format, order) == datasets(channels, upto, format, order),
    decreases more - upto,
{
    if upto < more {
        lemma_dataset_error_stays(channels, upto, more - 1, format, order);
    }
}

/// Writes the extracted channels by rising output place, each as one
/// dataset in the given format, a binary payload in the given byte order.
/// Gives the labels in the order of writing. On an error nothing is
/// written.
pub fn write_channels(
    writer: &mut Vec<u8>,
    channels: &Vec<ExtractedChannel>,
    format: OutputFormat,
    order: ByteOrder,
) -> (r: Result<Vec<String>, UffError>)
    ensures
        match r {
            Ok(names) => {
                &&& datasets(channels@, channels@.len() as int, format, order) matches Ok(bytes)
                &&& final(writer)@ == old(writer)@ + bytes
                &&& names@.len() == channels@.len()
                &&& forall|i: int|
                    0 <= i < names@.len() ==> (#[trigger] names@[i])@ == written_at(
                        channels@,
                        i,
                    ).track_name@
            },
            Err(e) => datasets(channels@, channels@.len() as int, format, order) == Err::<
                Seq<u8>,
                UffError,
            >(e) && final(writer)@ == old(writer)@,
        },
{
    let mut keys: Vec<u64> = Vec::new();
    let mut k: usize = 0;
    while k < channels.len()
        invariant
            k <= channels.len(),
            keys@ == orders_of(channels@).take(k as int),
        decreases channels.len() - k,
    {
        keys.push(channels[k].order as u64);
        k += 1;
        assert(orders_of(channels@).take(k as int) == orders_of(channels@).take(k as int - 1).push(
            channels@[k as int - 1].order as u64,
        ));
    }
    assert(orders_of(channels@).take(channels.len() as int) == orders_of(channels@));
    let ranking = rank_by_key(&keys);
    let mut block: Vec<u8> = Vec::new();
    let mut names: Vec<String> = Vec::new();
    let mut i: usize = 0;
    while i < channels.len()
        invariant
            i <= channels.len(),
            writer@ == old(writer)@,
            ranking@ == key_ranking(orders_of(channels@), channels@.len()),
            is_arrangement(ranking@, channels@.len()),
            datasets(channels@, i as int, format, order) == Ok::<Seq<u8>, UffError>(block@),
            names@.len() == i,
            forall|j: int|
                0 <= j < i ==> (#[trigger] names@[j])@ == written_at(channels@, j).track_name@,
        decreases channels.len() - i,
    {
        let channel = &channels[ranking[i]];
        assert(*channel == written_at(channels@, i as int));
        let ghost before = block@;
        let written = match format {
            OutputFormat::Ascii => write_uff58_ascii(
                &mut block,
                &channel.data,
                &channel.text,
                channel.track_name.as_str(),
            ),
            OutputFormat::Binary => write_uff58b_ordered(
                &mut block,
                &channel.data,
                &channel.text,
                channel.track_name.as_str(),
                order,
            ),
        };
        match written {
            Ok(()) => {},
            Err(e) => {
                proof {
                    assert(datasets(channels@, i as int + 1, format, order) == Err::<
                        Seq<u8>,
                        UffError,
                    >(e));
                    lemma_dataset_error_stays(
                        channels@,
                        i as int + 1,
                        channels@.len() as int,
                        format,
                        order,
                    );
                }
                return Err(e);
            },
        }
        names.push(channel.track_name.clone());
        i += 1;
    }
    append_bytes(writer, block.as_slice());
    Ok(names)
}

// ---------------------------------------------------------------------------
// The report
// ---------------------------------------------------------------------------

/// What a conversion tells of its progress.
#[derive(Debug)]
pub enum ConversionProgress<'a> {
    /// The conversion begins.
    Started {
        /// Number of track names given.
        track_name_count: usize,
        /// Number of channels that will be written.
        channel_count: usize,
    },
    /// One more channel is written.
    Advanced {
        /// Channels written so far.
        completed: usize,
        /// Channels to write in all.
        total: usize,
        /// Label of the channel just written.
        track_name: &'a str,
    },
    /// The conversion is done.
    Finished,
}

/// What a conversion gives back.
#[derive(Debug)]
pub struct ConversionReport {
    /// Number of channels written.
    pub channel_count: usize,
    /// Number of track names given.
    pub track_name_count: usize,
    /// Labels of the channels written, in the order of writing.
    pub processed_track_names: Vec<String>,
    /// Warnings, in the order of strings, each once.
    pub warnings: Vec<String>,
}

/// The warning for track names that are not as many as the channels.
pub open spec fn count_mismatch_message(names: nat, channels: nat) -> Seq<char> {
    "Number of track names ("@ + decimal(names) + ") does not match number of channels ("@
        + decimal(channels) + ")"@
}

/// The warning for channels that were not all written.
pub open spec fn processed_mismatch_message(channels: nat, processed: nat) -> Seq<char> {
    "Channel count ("@ + decimal(channels) + ") did not match processed channel count ("@
        + decimal(processed) + ")."@
}

/// The warnings of a conversion before they are put in order: those of the
/// plan; one where the track names are not as many as the channels; one
/// where, without a selection, not every channel was written.
pub open spec fn gathered_warnings(
    plan_warnings: Seq<Seq<char>>,
    names: nat,
    channels: nat,
    processed: nat,
    filtered: bool,
) -> Seq<Seq<char>> {
    plan_warnings + (if names != channels {
        seq![count_mismatch_message(names, channels)]
    } else {
        Seq::empty()
    }) + (if !filtered && processed != channels {
        seq![processed_mismatch_message(channels, processed)]
    } else {
        Seq::empty()
    })
}

/// The warning for track names that are not as many as the channels.
fn count_mismatch_warning(names: usize, channels: usize) -> (message: String)
    ensures
        message@ == count_mismatch_message(names as nat, channels as nat),
{
    let mut message = String::new();
    message.append("Number of track names (");
    assert(message@ == "Number of track names ("@);
    push_decimal(&mut message, names as u128);
    message.append(") does not match number of channels (");
    push_decimal(&mut message, channels as u128);
    message.append(")");
    message
}

/// The warning for channels that were not all written.
fn processed_mismatch_warning(channels: usize, processed: usize) -> (message: String)
    ensures
        message@ == processed_mismatch_message(channels as nat, processed as nat),
{
    let mut message = String::new();
    message.append("Channel count (");
    assert(message@ == "Channel count ("@);
    push_decimal(&mut message, channels as u128);
    message.append(") did not match processed channel count (");
    push_decimal(&mut message, processed as u128);
    message.append(").");
    message
}

/// Makes the report of a conversion that wrote the channels labelled
/// `processed_names`: counts, labels, and the warnings of the conversion in
/// the order of strings, each once.
pub fn finish_report(
    track_name_count: usize,
    num_channels: usize,
    processed_names: Vec<String>,
    plan_warnings: Vec<String>,
    filtered: bool,
) -> (report: ConversionReport)
    ensures
        report.channel_count == processed_names@.len(),
        report.track_name_count == track_name_count,
        report.processed_track_names@ == processed_names@,
        texts_of(report.warnings@) == sorted_set(
            gathered_warnings(
                texts_of(plan_warnings@),
                track_name_count as nat,
                num_channels as nat,
                processed_names@.len(),
                filtered,
            ),
        ),
        is_sorted_set(
            texts_of(report.warnings@),
            gathered_warnings(
                texts_of(plan_warnings@),
                track_name_count as nat,
                num_channels as nat,
                processed_names@.len(),
                filtered,
            ),
        ),
{
    let mut warnings = plan_warnings;
    let processed = processed_names.len();
    let ghost first = texts_of(warnings@);
    if track_name_count != num_channels {
        let warning = count_mismatch_warning(track_name_count, num_channels);
        warnings.push(warning);
        assert(texts_of(warnings@) =~= first + seq![warning@]);
    } else {
        assert(texts_of(warnings@) =~= first + Seq::<Seq<char>>::empty());
    }
    let ghost second = texts_of(warnings@);
    if !filtered && processed != num_channels {
        let warning = processed_mismatch_warning(num_channels, processed);
        warnings.push(warning);
        assert(texts_of(warnings@) =~= second + seq![warning@]);
    } else {
        assert(texts_of(warnings@) =~= second + Seq::<Seq<char>>::empty());
    }
    let sorted = sort_dedup(&warnings);
    ConversionReport {
        channel_count: processed,
        track_name_count,
        processed_track_names: processed_names,
        warnings: sorted,
    }
}

/// A requested name that the track list does not hold is missing, once,
/// and is not planned: it gives one warning and nothing is written for it.
pub proof fn lemma_absent_request_is_missing(
    names: Seq<Seq<char>>,
    requests: Seq<Seq<char>>,
    k: usize,
)
    requires
        names.len() <= usize::MAX,
        requests.len() <= usize::MAX,
        k < requests.len(),
        !names.contains(requests[k as int]),
    ensures
        planning(names, requests).missing.contains(k),
        forall|i: int, j: int|
            0 <= i < j < planning(names, requests).missing.len() ==> !(planning(
                names,
                requests,
            ).missing[i] == k && planning(names, requests).missing[j] == k),
        forall|i: int|
            0 <= i < planning(names, requests).plan.len() ==> (#[trigger] planning(
                names,
                requests,
            ).plan[i]).0 != k,
{
    lemma_plan_follows_requests(names, requests);
    let p = planning(names, requests);
    assert forall|i: int| 0 <= i < p.plan.len() implies (#[trigger] p.plan[i]).0 != k by {
        if p.plan[i].0 == k {
            assert(names[p.plan[i].1 as int] == requests[k as int]);
            assert(names.contains(requests[k as int]));
        }
    }
    assert(p.missing.contains(k) || exists|i: int|
        0 <= i < p.plan.len() && (#[trigger] p.plan[i]).0 == k);
}

/// Without a selection every channel is written in its own place: where
/// the channels come with the output places of the whole plan, the dataset
/// at place `i` of the output is that of channel `i`, and so the output
/// holds as many datasets as there are channels, in the order of the
/// channels, each with the sample count of its series in its record of
/// form.
pub proof fn lemma_whole_plan_writes_in_place(channels: Seq<ExtractedChannel>)
    requires
        channels.len() <= usize::MAX,
        forall|i: int|
            0 <= i < channels.len() ==> (#[trigger] channels[i]).order == whole_plan(
                channels.len(),
            )[i].0,
    ensures
        forall|i: int| 0 <= i < channels.len() ==> #[trigger] written_at(channels, i) == channels[i],
{
    let keys = orders_of(channels);
    assert forall|i: int, j: int| 0 <= i < j < channels.len() implies #[trigger] keys[i]
        <= #[trigger] keys[j] by {
        assert(channels[i].order == i);
        assert(channels[j].order == j);
    }
    lemma_rising_keys_keep_place(keys, channels.len());
}

} // verus!
