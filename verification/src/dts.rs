//! The DTS side: channel metadata, binary channel headers and the reader that
//! pairs them.

use crate::ranking::{
    is_arrangement, key_ranking, name_ranking, rank_by_key, rank_by_name,
};
use crate::text::{decimal, push_decimal, str_equal, string_from, texts_of};
use crate::xml::{entries_view, metadata_text, parse_dts_metadata, parsed_metadata};
use vstd::prelude::*;

verus! {

/// How the zero level of a channel is found.
#[derive(Debug, Clone, Copy, PartialEq, Eq, Structural)]
pub enum ZeroMethod {
    /// The level measured before the test.
    UsePreCalZero,
    /// The level averaged over the recording.
    AverageOverTime,
    /// No zero level is taken off.
    NoZero,
}

/// What the metadata says of one channel. A number that the metadata gives
/// as text is kept as that text, `None` where the attribute is missing.
#[derive(Debug)]
pub struct AnalogInputChannel {
    /// Whether the sensor's output is proportional to its excitation.
    pub proportional_to_excitation: bool,
    /// Whether the signal is inverted.
    pub is_inverted: bool,
    /// Excitation voltage as measured, in volts.
    pub measured_excitation_voltage: Option<String>,
    /// Excitation voltage of the factory calibration, in volts.
    pub factory_excitation_voltage: Option<String>,
    /// Offset in engineering units.
    pub initial_eu: Option<String>,
    /// How the zero level is found.
    pub zero_method: ZeroMethod,
    /// Engineering unit.
    pub eu: String,
    /// Place of the channel among all channels of the recording.
    pub display_order: u32,
    /// Name of the channel, where it has one.
    pub name: Option<String>,
    /// Description of the channel.
    pub description: String,
    /// Serial number of the sensor.
    pub serial_number: String,
    /// Sensitivity of the sensor.
    pub sensitivity: Option<String>,
}

/// The text that an optional string holds.
pub open spec fn optional_text(s: Option<String>) -> Option<Seq<char>> {
    match s {
        Some(text) => Some(text@),
        None => None,
    }
}

/// An [`AnalogInputChannel`] as plain values.
pub ghost struct ChannelView {
    pub proportional_to_excitation: bool,
    pub is_inverted: bool,
    pub measured_excitation_voltage: Option<Seq<char>>,
    pub factory_excitation_voltage: Option<Seq<char>>,
    pub initial_eu: Option<Seq<char>>,
    pub zero_method: ZeroMethod,
    pub eu: Seq<char>,
    pub display_order: u32,
    pub name: Option<Seq<char>>,
    pub description: Seq<char>,
    pub serial_number: Seq<char>,
    pub sensitivity: Option<Seq<char>>,
}

impl View for AnalogInputChannel {
    type V = ChannelView;

    open spec fn view(&self) -> ChannelView {
        ChannelView {
            proportional_to_excitation: self.proportional_to_excitation,
            is_inverted: self.is_inverted,
            measured_excitation_voltage: optional_text(self.measured_excitation_voltage),
            factory_excitation_voltage: optional_text(self.factory_excitation_voltage),
            initial_eu: optional_text(self.initial_eu),
            zero_method: self.zero_method,
            eu: self.eu@,
            display_order: self.display_order,
            name: optional_text(self.name),
            description: self.description@,
            serial_number: self.serial_number@,
            sensitivity: optional_text(self.sensitivity),
        }
    }
}

/// A copy of an optional string.
pub fn clone_optional(s: &Option<String>) -> (out: Option<String>)
    ensures
        optional_text(out) == optional_text(*s),
{
    match s {
        Some(text) => Some(text.clone()),
        None => None,
    }
}

impl Clone for AnalogInputChannel {
    fn clone(&self) -> (out: Self)
        ensures
            out@ == self@,
    {
        AnalogInputChannel {
            proportional_to_excitation: self.proportional_to_excitation,
            is_inverted: self.is_inverted,
            measured_excitation_voltage: clone_optional(&self.measured_excitation_voltage),
            factory_excitation_voltage: clone_optional(&self.factory_excitation_voltage),
            initial_eu: clone_optional(&self.initial_eu),
            zero_method: self.zero_method,
            eu: self.eu.clone(),
            display_order: self.display_order,
            name: clone_optional(&self.name),
            description: self.description.clone(),
            serial_number: self.serial_number.clone(),
            sensitivity: clone_optional(&self.sensitivity),
        }
    }
}

/// One calibrated channel, ready for serialisation.
pub struct ChannelData {
    /// Samples in engineering units, each the bit pattern of an IEEE-754
    /// single-precision number.
    pub time_series: Vec<u32>,
    /// Sampling rate in hertz, as the bit pattern of an IEEE-754
    /// double-precision number.
    pub sample_rate: u64,
    /// Engineering unit of the samples.
    pub units: String,
}

/// Why a recording could not be read.
#[derive(Clone, Copy, Debug, PartialEq, Eq, Structural)]
pub enum DtsError {
    /// A channel file does not begin with the magic value.
    BadMagic,
    /// A channel file ends before its header or its samples do.
    Truncated,
    /// The metadata names another number of channels than there are
    /// channel files.
    CountMismatch { channels: usize, files: usize },
    /// No channel has this index.
    OutOfBounds { index: usize },
    /// The directory holds no metadata file.
    NoMetadataFile,
    /// The metadata file is not well-formed in the encoding that its
    /// byte-order mark names.
    InvalidCharacters,
    /// The metadata file is in no encoding that the reader knows.
    Encoding,
    /// The metadata file is not well-formed XML.
    Xml,
}

/// What an error says to the user.
pub open spec fn dts_error_message(e: DtsError) -> Seq<char> {
    match e {
        DtsError::BadMagic => "Not a valid DTS .chn file (magic key mismatch)"@,
        DtsError::Truncated => "failed to fill whole buffer"@,
        DtsError::CountMismatch { channels, files } =>
            "Mismatch between channel count in .dts file ("@ + decimal(channels as nat)
                + ") and number of .chn files ("@ + decimal(files as nat) + ")."@,
        DtsError::OutOfBounds { index } => "Track index "@ + decimal(index as nat)
            + " is out of bounds."@,
        DtsError::NoMetadataFile => "No '.dts' file found in directory"@,
        DtsError::InvalidCharacters => "Failed to decode DTS XML file due to invalid characters."@,
        DtsError::Encoding => "Unable to determine encoding for DTS XML file"@,
        DtsError::Xml => "Failed to parse DTS XML metadata"@,
    }
}

impl DtsError {
    /// What the error says to the user.
    pub fn message(&self) -> (text: String)
        ensures
            text@ == dts_error_message(*self),
    {
        match self {
            DtsError::BadMagic => string_from("Not a valid DTS .chn file (magic key mismatch)"),
            DtsError::Truncated => string_from("failed to fill whole buffer"),
            DtsError::CountMismatch { channels, files } => {
                let mut text = string_from("Mismatch between channel count in .dts file (");
                push_decimal(&mut text, *channels as u128);
                text.append(") and number of .chn files (");
                push_decimal(&mut text, *files as u128);
                text.append(").");
                text
            },
            DtsError::OutOfBounds { index } => {
                let mut text = string_from("Track index ");
                push_decimal(&mut text, *index as u128);
                text.append(" is out of bounds.");
                text
            },
            DtsError::NoMetadataFile => string_from("No '.dts' file found in directory"),
            DtsError::InvalidCharacters => string_from(
                "Failed to decode DTS XML file due to invalid characters.",
            ),
            DtsError::Encoding => string_from("Unable to determine encoding for DTS XML file"),
            DtsError::Xml => string_from("Failed to parse DTS XML metadata"),
        }
    }
}

// ---------------------------------------------------------------------------
// Layout of a channel file
// ---------------------------------------------------------------------------

/// The value that opens every channel file.
pub const MAGIC_KEY: u32 = 0x2C36351F;

/// Where the magic value stands.
pub const MAGIC_OFFSET: usize = 0;

/// Where the offset of the first sample stands.
pub const CHANNEL_START_OFFSET: usize = 8;

/// Where the number of samples stands.
pub const SAMPLE_COUNT_OFFSET: usize = 16;

/// Where the sampling rate stands.
pub const SAMPLE_RATE_OFFSET: usize = 32;

/// Where the number of triggers stands.
pub const TRIGGER_COUNT_OFFSET: usize = 40;

/// Where the sample number of the first trigger stands.
pub const TRIGGER_SAMPLE_OFFSET: usize = 42;

/// Bytes that each trigger adds before the fields given below.
pub const TRIGGER_ENTRY_SIZE: usize = 8;

/// Where the zero level before the test stands, in a file without triggers.
pub const PRE_TEST_ZERO_OFFSET: usize = 42;

/// Where the zero level of the data stands, in a file without triggers.
pub const DATA_ZERO_OFFSET: usize = 70;

/// Where the scale factor in millivolts stands, in a file without triggers.
pub const SCALE_MV_OFFSET: usize = 74;

/// Where the scale factor in engineering units stands, in a file without
/// triggers.
pub const SCALE_EU_OFFSET: usize = 82;

/// Bytes that the fixed part of the header takes up to the trigger count's
/// sample number.
pub const FIXED_PART_LEN: usize = 50;

/// Bytes that the header of a file without triggers takes.
pub const HEADER_LEN: usize = 90;

/// Bytes that the longest header takes: that of a file with as many
/// triggers as the trigger count can hold.
pub const MAX_HEADER_LEN: usize = 524370;

/// The header of one channel file.
#[derive(Clone, Copy, Debug, PartialEq, Eq, Structural)]
pub struct ChnHeader {
    /// Offset of the first sample in the file.
    pub channel_start: u64,
    /// Number of samples.
    pub npts: u64,
    /// Sampling rate in hertz, as the bit pattern of a double.
    pub sample_rate: u64,
    /// Number of triggers.
    pub trigger_count: u16,
    /// Sample number of the first trigger.
    pub trigger_sample_number: i64,
    /// Zero level measured before the test, in ADC counts.
    pub pre_test_zero_level_adc: i32,
    /// Zero level averaged over the data, in ADC counts.
    pub data_zero_level_adc: i32,
    /// Scale factor in millivolts, as the bit pattern of a double.
    pub scale_factor_mv: u64,
    /// Scale factor in engineering units, as the bit pattern of a double.
    pub scale_factor_eu: u64,
}

/// The number that the first two bytes of `b` hold, least significant first.
pub open spec fn le_u16(b: Seq<u8>) -> nat {
    b[0] as nat + 256 * (b[1] as nat)
}

/// The number that the first four bytes of `b` hold, least significant
/// first.
pub open spec fn le_u32(b: Seq<u8>) -> nat {
    le_u16(b) + 65536 * le_u16(b.skip(2))
}

/// The number that the first eight bytes of `b` hold, least significant
/// first.
pub open spec fn le_u64(b: Seq<u8>) -> nat {
    le_u32(b) + 4294967296 * le_u32(b.skip(4))
}

/// The two's-complement reading of a number of `bits` bits.
pub open spec fn twos_complement(value: nat, half: nat) -> int {
    if value < half {
        value as int
    } else {
        value - 2 * half
    }
}

/// Reads an unsigned 16-bit number.
///
/// Trusted: `byteorder::LittleEndian::read_u16` takes the first two bytes
/// of the buffer, the least significant first. It panics on a shorter
/// buffer, which `requires` rules out.
#[verifier::external_body]
fn read_u16_le(buf: &[u8]) -> (v: u16)
    requires
        buf@.len() >= 2,
    ensures
        v == le_u16(buf@),
{
    <byteorder::LittleEndian as byteorder::ByteOrder>::read_u16(buf)
}

/// Reads an unsigned 32-bit number.
///
/// Trusted: `byteorder::LittleEndian::read_u32` takes the first four bytes
/// of the buffer, the least significant first. It panics on a shorter
/// buffer, which `requires` rules out.
#[verifier::external_body]
fn read_u32_le(buf: &[u8]) -> (v: u32)
    requires
        buf@.len() >= 4,
    ensures
        v == le_u32(buf@),
{
    <byteorder::LittleEndian as byteorder::ByteOrder>::read_u32(buf)
}

/// Reads an unsigned 64-bit number.
///
/// Trusted: `byteorder::LittleEndian::read_u64` takes the first eight bytes
/// of the buffer, the least significant first. It panics on a shorter
/// buffer, which `requires` rules out.
#[verifier::external_body]
fn read_u64_le(buf: &[u8]) -> (v: u64)
    requires
        buf@.len() >= 8,
    ensures
        v == le_u64(buf@),
{
    <byteorder::LittleEndian as byteorder::ByteOrder>::read_u64(buf)
}

/// Reads a signed 32-bit number.
///
/// Trusted: `byteorder::LittleEndian::read_i32` reads the unsigned number
/// and takes it in two's complement. It panics on a buffer of less than four
/// bytes, which `requires` rules out.
#[verifier::external_body]
fn read_i32_le(buf: &[u8]) -> (v: i32)
    requires
        buf@.len() >= 4,
    ensures
        v == twos_complement(le_u32(buf@), 0x8000_0000),
{
    <byteorder::LittleEndian as byteorder::ByteOrder>::read_i32(buf)
}

/// Reads a signed 64-bit number.
///
/// Trusted: `byteorder::LittleEndian::read_i64` reads the unsigned number
/// and takes it in two's complement. It panics on a buffer of less than
/// eight bytes, which `requires` rules out.
#[verifier::external_body]
fn read_i64_le(buf: &[u8]) -> (v: i64)
    requires
        buf@.len() >= 8,
    ensures
        v == twos_complement(le_u64(buf@), 0x8000_0000_0000_0000),
{
    <byteorder::LittleEndian as byteorder::ByteOrder>::read_i64(buf)
}

/// The bytes of `bytes` from `at` on.
fn tail(bytes: &[u8], at: usize) -> (out: &[u8])
    requires
        at <= bytes@.len(),
    ensures
        out@ == bytes@.skip(at as int),
{
    vstd::slice::slice_subrange(bytes, at, bytes.len())
}

/// The header that the bytes of a long enough channel file hold.
pub open spec fn header_of(bytes: Seq<u8>) -> ChnHeader {
    let shift = TRIGGER_ENTRY_SIZE * le_u16(bytes.skip(TRIGGER_COUNT_OFFSET as int));
    ChnHeader {
        channel_start: le_u64(bytes.skip(CHANNEL_START_OFFSET as int)) as u64,
        npts: le_u64(bytes.skip(SAMPLE_COUNT_OFFSET as int)) as u64,
        sample_rate: le_u64(bytes.skip(SAMPLE_RATE_OFFSET as int)) as u64,
        trigger_count: le_u16(bytes.skip(TRIGGER_COUNT_OFFSET as int)) as u16,
        trigger_sample_number: twos_complement(
            le_u64(bytes.skip(TRIGGER_SAMPLE_OFFSET as int)),
            0x8000_0000_0000_0000,
        ) as i64,
        pre_test_zero_level_adc: twos_complement(
            le_u32(bytes.skip(PRE_TEST_ZERO_OFFSET + shift)),
            0x8000_0000,
        ) as i32,
        data_zero_level_adc: twos_complement(
            le_u32(bytes.skip(DATA_ZERO_OFFSET + shift)),
            0x8000_0000,
        ) as i32,
        scale_factor_mv: le_u64(bytes.skip(SCALE_MV_OFFSET + shift)) as u64,
        scale_factor_eu: le_u64(bytes.skip(SCALE_EU_OFFSET + shift)) as u64,
    }
}

/// Bytes that the header of `bytes` takes, given that the fixed part is
/// there: 90 and eight for each trigger.
pub open spec fn header_len(bytes: Seq<u8>) -> nat {
    HEADER_LEN as nat + TRIGGER_ENTRY_SIZE as nat * le_u16(bytes.skip(TRIGGER_COUNT_OFFSET as int))
}

/// What decoding the header of a channel file gives: an error where the
/// file is too short for the magic value, does not begin with it, or is too
/// short for the header; the header otherwise.
pub open spec fn decoded_header(bytes: Seq<u8>) -> Result<ChnHeader, DtsError> {
    if bytes.len() < 4 {
        Err(DtsError::Truncated)
    } else if le_u32(bytes) != MAGIC_KEY {
        Err(DtsError::BadMagic)
    } else if bytes.len() < FIXED_PART_LEN || bytes.len() < header_len(bytes) {
        Err(DtsError::Truncated)
    } else {
        Ok(header_of(bytes))
    }
}

/// Two runs of bytes that begin with the same eight bytes hold the same
/// numbers.
pub proof fn lemma_same_numbers(a: Seq<u8>, b: Seq<u8>)
    requires
        a.len() >= 8,
        b.len() >= 8,
        forall|j: int| 0 <= j < 8 ==> a[j] == b[j],
    ensures
        le_u16(a) == le_u16(b),
        le_u32(a) == le_u32(b),
        le_u64(a) == le_u64(b),
{
    assert(a.skip(2)[0] == a[2] && a.skip(2)[1] == a[3]);
    assert(b.skip(2)[0] == b[2] && b.skip(2)[1] == b[3]);
    assert(a.skip(4)[0] == a[4] && a.skip(4)[1] == a[5]);
    assert(b.skip(4)[0] == b[4] && b.skip(4)[1] == b[5]);
    assert(a.skip(4).skip(2)[0] == a[6] && a.skip(4).skip(2)[1] == a[7]);
    assert(b.skip(4).skip(2)[0] == b[6] && b.skip(4).skip(2)[1] == b[7]);
}

/// The header of a channel file is decoded from its beginning alone: the
/// first [`MAX_HEADER_LEN`] bytes, or more, give what the whole file gives.
pub proof fn lemma_header_from_prefix(bytes: Seq<u8>, n: int)
    requires
        MAX_HEADER_LEN <= n <= bytes.len(),
    ensures
        decoded_header(bytes.take(n)) == decoded_header(bytes),
{
    let prefix = bytes.take(n);
    let shift = TRIGGER_ENTRY_SIZE * le_u16(bytes.skip(TRIGGER_COUNT_OFFSET as int));
    assert forall|k: int| 0 <= k && k + 8 <= n implies le_u16(prefix.skip(k)) == le_u16(
        bytes.skip(k),
    ) && le_u32(prefix.skip(k)) == le_u32(bytes.skip(k)) && le_u64(prefix.skip(k)) == le_u64(
        bytes.skip(k),
    ) by {
        let a = prefix.skip(k);
        let b = bytes.skip(k);
        assert forall|j: int| 0 <= j < 8 implies a[j] == b[j] by {
            assert(a[j] == prefix[k + j]);
            assert(b[j] == bytes[k + j]);
        }
        lemma_same_numbers(a, b);
    }
    assert(le_u32(prefix.skip(0)) == le_u32(bytes.skip(0)));
    assert(prefix.skip(0) == prefix);
    assert(bytes.skip(0) == bytes);
    assert(le_u16(prefix.skip(TRIGGER_COUNT_OFFSET as int)) == le_u16(
        bytes.skip(TRIGGER_COUNT_OFFSET as int),
    ));
    assert(le_u16(bytes.skip(TRIGGER_COUNT_OFFSET as int)) <= 0xFFFF) by {
        let c = bytes.skip(TRIGGER_COUNT_OFFSET as int);
        assert(c[0] <= 255 && c[1] <= 255);
    }
    assert(SCALE_EU_OFFSET + shift + 8 <= n);
    assert(le_u64(prefix.skip(CHANNEL_START_OFFSET as int)) == le_u64(
        bytes.skip(CHANNEL_START_OFFSET as int),
    ));
    assert(le_u64(prefix.skip(SAMPLE_COUNT_OFFSET as int)) == le_u64(
        bytes.skip(SAMPLE_COUNT_OFFSET as int),
    ));
    assert(le_u64(prefix.skip(SAMPLE_RATE_OFFSET as int)) == le_u64(
        bytes.skip(SAMPLE_RATE_OFFSET as int),
    ));
    assert(le_u64(prefix.skip(TRIGGER_SAMPLE_OFFSET as int)) == le_u64(
        bytes.skip(TRIGGER_SAMPLE_OFFSET as int),
    ));
    assert(le_u32(prefix.skip(PRE_TEST_ZERO_OFFSET + shift)) == le_u32(
        bytes.skip(PRE_TEST_ZERO_OFFSET + shift),
    ));
    assert(le_u32(prefix.skip(DATA_ZERO_OFFSET + shift)) == le_u32(
        bytes.skip(DATA_ZERO_OFFSET + shift),
    ));
    assert(le_u64(prefix.skip(SCALE_MV_OFFSET + shift)) == le_u64(
        bytes.skip(SCALE_MV_OFFSET + shift),
    ));
    assert(le_u64(prefix.skip(SCALE_EU_OFFSET + shift)) == le_u64(
        bytes.skip(SCALE_EU_OFFSET + shift),
    ));
}

/// Decodes the header of a channel file from the file's bytes.
pub fn read_chn_header(bytes: &[u8]) -> (r: Result<ChnHeader, DtsError>)
    ensures
        r == decoded_header(bytes@),
{
    if bytes.len() < 4 {
        return Err(DtsError::Truncated);
    }
    let magic_key = read_u32_le(tail(bytes, MAGIC_OFFSET));
    assert(bytes@.skip(0) == bytes@);
    if magic_key != MAGIC_KEY {
        return Err(DtsError::BadMagic);
    }
    if bytes.len() < FIXED_PART_LEN {
        return Err(DtsError::Truncated);
    }
    let channel_start = read_u64_le(tail(bytes, CHANNEL_START_OFFSET));
    let npts = read_u64_le(tail(bytes, SAMPLE_COUNT_OFFSET));
    let sample_rate = read_u64_le(tail(bytes, SAMPLE_RATE_OFFSET));
    let trigger_count = read_u16_le(tail(bytes, TRIGGER_COUNT_OFFSET));
    let trigger_sample_number = read_i64_le(tail(bytes, TRIGGER_SAMPLE_OFFSET));
    let shift: usize = (trigger_count as usize) * TRIGGER_ENTRY_SIZE;
    if bytes.len() < HEADER_LEN + shift {
        return Err(DtsError::Truncated);
    }
    let pre_test_zero_level_adc = read_i32_le(tail(bytes, PRE_TEST_ZERO_OFFSET + shift));
    let data_zero_level_adc = read_i32_le(tail(bytes, DATA_ZERO_OFFSET + shift));
    let scale_factor_mv = read_u64_le(tail(bytes, SCALE_MV_OFFSET + shift));
    let scale_factor_eu = read_u64_le(tail(bytes, SCALE_EU_OFFSET + shift));
    Ok(
        ChnHeader {
            channel_start,
            npts,
            sample_rate,
            trigger_count,
            trigger_sample_number,
            pre_test_zero_level_adc,
            data_zero_level_adc,
            scale_factor_mv,
            scale_factor_eu,
        },
    )
}

// ---------------------------------------------------------------------------
// The reader
// ---------------------------------------------------------------------------

/// One channel file as it was found: its path and its bytes, the header at
/// least and the samples where they are to be read.
pub struct ChannelFile {
    /// Path of the file.
    pub path: String,
    /// Bytes of the file, from its beginning.
    pub bytes: Vec<u8>,
}

/// One channel of the metadata with the start sample of the module that
/// holds it, as the metadata writes it.
pub type ChannelEntry = (AnalogInputChannel, Option<String>);

/// What the reader tells of one channel without reading its samples.
#[derive(Debug)]
pub struct TrackMetadata {
    /// Name of the channel; its description where it has no name.
    pub name: String,
    /// Description of the channel.
    pub description: String,
    /// Sampling rate in hertz, as the bit pattern of a double.
    pub sampling_rate: u64,
    /// Sensitivity of the sensor, as the metadata writes it.
    pub sensitivity: Option<String>,
    /// Serial number of the sensor.
    pub serial_number: String,
    /// Engineering unit.
    pub eu: String,
}

/// A [`TrackMetadata`] as plain values.
pub ghost struct TrackView {
    pub name: Seq<char>,
    pub description: Seq<char>,
    pub sampling_rate: u64,
    pub sensitivity: Option<Seq<char>>,
    pub serial_number: Seq<char>,
    pub eu: Seq<char>,
}

impl View for TrackMetadata {
    type V = TrackView;

    open spec fn view(&self) -> TrackView {
        TrackView {
            name: self.name@,
            description: self.description@,
            sampling_rate: self.sampling_rate,
            sensitivity: optional_text(self.sensitivity),
            serial_number: self.serial_number@,
            eu: self.eu@,
        }
    }
}

/// What is told of a channel with the given metadata and header.
pub open spec fn track_view(channel: ChannelView, header: ChnHeader) -> TrackView {
    TrackView {
        name: match channel.name {
            Some(name) => name,
            None => channel.description,
        },
        description: channel.description,
        sampling_rate: header.sample_rate,
        sensitivity: channel.sensitivity,
        serial_number: channel.serial_number,
        eu: channel.eu,
    }
}

/// The paths of channel files.
pub open spec fn paths_of(files: Seq<ChannelFile>) -> Seq<Seq<char>> {
    files.map_values(|f: ChannelFile| f.path@)
}

/// The display orders of channels.
pub open spec fn display_orders(channels: Seq<ChannelEntry>) -> Seq<u64> {
    channels.map_values(|c: ChannelEntry| c.0.display_order as u64)
}

/// The channel file that stands at place `i` when the files are taken in the
/// natural order of their paths.
pub open spec fn file_at(files: Seq<ChannelFile>, i: int) -> ChannelFile {
    files[name_ranking(paths_of(files), files.len())[i] as int]
}

/// The channel that stands at place `i` when the channels are taken by
/// display order.
pub open spec fn channel_at(channels: Seq<ChannelEntry>, i: int) -> ChannelEntry {
    channels[key_ranking(display_orders(channels), channels.len())[i] as int]
}

/// The error of the first file, in natural order and among the first
/// `upto`, whose header cannot be decoded.
pub open spec fn header_failure(files: Seq<ChannelFile>, upto: int) -> Option<DtsError>
    decreases upto,
{
    if upto <= 0 {
        None
    } else {
        match header_failure(files, upto - 1) {
            Some(e) => Some(e),
            None => match decoded_header(file_at(files, upto - 1).bytes@) {
                Err(e) => Some(e),
                Ok(_) => None,
            },
        }
    }
}

/// The smallest sample count among `headers`; the largest number there is
/// where there is no header.
pub open spec fn min_count(headers: Seq<ChnHeader>) -> u64
    decreases headers.len(),
{
    if headers.len() == 0 {
        u64::MAX
    } else {
        let before = min_count(headers.drop_last());
        if headers.last().npts < before {
            headers.last().npts
        } else {
            before
        }
    }
}

/// The sample at place `k` of a channel whose samples begin at byte `start`
/// of `bytes`: sixteen bits, least significant byte first, in two's
/// complement.
pub open spec fn sample_at(bytes: Seq<u8>, start: int, k: int) -> i16 {
    twos_complement(le_u16(bytes.skip(start + 2 * k)), 0x8000) as i16
}

/// The `count` samples that begin at byte `start` of `bytes`. No sample is
/// an empty series, wherever it would begin; samples that the bytes do not
/// hold in full are an error.
pub open spec fn samples_in(bytes: Seq<u8>, start: int, count: int) -> Result<Seq<i16>, DtsError> {
    if count <= 0 {
        Ok(Seq::<i16>::empty())
    } else if start + 2 * count > bytes.len() {
        Err(DtsError::Truncated)
    } else {
        Ok(Seq::new(count as nat, |k: int| sample_at(bytes, start, k)))
    }
}

/// The zero level, in ADC counts, that a zero method takes off the samples
/// of a channel; none where it takes off nothing.
pub open spec fn zero_level_of(header: ChnHeader, method: ZeroMethod) -> Option<i32> {
    match method {
        ZeroMethod::UsePreCalZero => Some(header.pre_test_zero_level_adc),
        ZeroMethod::AverageOverTime => Some(header.data_zero_level_adc),
        ZeroMethod::NoZero => None,
    }
}

/// The zero level, in ADC counts, that a zero method takes off the samples
/// of a channel: the level measured before the test, the level averaged
/// over the recording, or none.
pub fn zero_level(header: &ChnHeader, method: ZeroMethod) -> (r: Option<i32>)
    ensures
        r == zero_level_of(*header, method),
        method is UsePreCalZero ==> r == Some(header.pre_test_zero_level_adc),
        method is AverageOverTime ==> r == Some(header.data_zero_level_adc),
        method is NoZero ==> r is None,
{
    match method {
        ZeroMethod::UsePreCalZero => Some(header.pre_test_zero_level_adc),
        ZeroMethod::AverageOverTime => Some(header.data_zero_level_adc),
        ZeroMethod::NoZero => None,
    }
}

/// Reads signed 16-bit numbers.
///
/// Trusted: `byteorder::LittleEndian::read_i16_into` fills `dst` with the
/// numbers that the pairs of bytes of `src` hold, the least significant
/// byte first, in two's complement. It panics unless `src` has two bytes
/// for each place of `dst`, which `requires` rules out.
#[verifier::external_body]
fn read_i16s_le(src: &[u8], dst: &mut Vec<i16>)
    requires
        src@.len() == 2 * old(dst)@.len(),
    ensures
        final(dst)@.len() == old(dst)@.len(),
        forall|k: int| 0 <= k < final(dst)@.len() ==> #[trigger] final(dst)@[k] == sample_at(src@, 0, k),
{
    <byteorder::LittleEndian as byteorder::ByteOrder>::read_i16_into(src, dst.as_mut_slice())
}

/// The channels of one recording: metadata and channel files paired, the
/// channels by display order, the files by the natural order of their
/// paths.
pub struct DtsReader {
    chn_files: Vec<ChannelFile>,
    file_order: Vec<usize>,
    xml_metadata: Vec<ChannelEntry>,
    metadata_order: Vec<usize>,
    chn_headers: Vec<ChnHeader>,
    min_npts: u64,
}

impl DtsReader {
    /// The channel files as they were given.
    pub closed spec fn files(&self) -> Seq<ChannelFile> {
        self.chn_files@
    }

    /// The channels of the metadata as they were given.
    pub closed spec fn channels(&self) -> Seq<ChannelEntry> {
        self.xml_metadata@
    }

    /// The decoded headers, in the order of the channels.
    pub closed spec fn headers(&self) -> Seq<ChnHeader> {
        self.chn_headers@
    }

    /// The number of samples that every channel gives.
    pub closed spec fn sample_count(&self) -> u64 {
        self.min_npts
    }

    /// The reader's invariant: as many channels as files, each file with a
    /// header that decodes, and the sample count the smallest of theirs.
    pub closed spec fn wf(&self) -> bool {
        &&& self.xml_metadata@.len() == self.chn_files@.len()
        &&& self.chn_headers@.len() == self.chn_files@.len()
        &&& self.file_order@ == name_ranking(paths_of(self.chn_files@), self.chn_files@.len())
        &&& self.metadata_order@ == key_ranking(
            display_orders(self.xml_metadata@),
            self.xml_metadata@.len(),
        )
        &&& is_arrangement(self.file_order@, self.chn_files@.len())
        &&& is_arrangement(self.metadata_order@, self.xml_metadata@.len())
        &&& forall|i: int|
            0 <= i < self.chn_headers@.len() ==> Ok::<ChnHeader, DtsError>(
                #[trigger] self.chn_headers@[i],
            ) == decoded_header(file_at(self.chn_files@, i).bytes@)
        &&& self.min_npts == min_count(self.chn_headers@)
    }

    /// What [`DtsReader::wf`] says, for those who see the reader from
    /// outside.
    pub proof fn lemma_wf(&self)
        requires
            self.wf(),
        ensures
            self.channels().len() == self.files().len(),
            self.headers().len() == self.files().len(),
            forall|i: int|
                0 <= i < self.headers().len() ==> Ok::<ChnHeader, DtsError>(
                    #[trigger] self.headers()[i],
                ) == decoded_header(file_at(self.files(), i).bytes@),
            self.sample_count() == min_count(self.headers()),
    {
    }

    /// Pairs the channels of the metadata with the channel files. Fails
    /// where their numbers differ, and where the header of a file cannot be
    /// decoded: with the error of the first such file in natural order.
    pub fn assemble(channels: Vec<ChannelEntry>, files: Vec<ChannelFile>) -> (r: Result<
        DtsReader,
        DtsError,
    >)
        ensures
            match r {
                Ok(reader) => {
                    &&& reader.wf()
                    &&& reader.channels() == channels@
                    &&& reader.files() == files@
                    &&& channels@.len() == files@.len()
                    &&& header_failure(files@, files@.len() as int) is None
                },
                Err(e) => if channels@.len() != files@.len() {
                    e == (DtsError::CountMismatch { channels: channels.len(), files: files.len() })
                } else {
                    header_failure(files@, files@.len() as int) == Some(e)
                },
            },
    {
        let mut keys: Vec<u64> = Vec::new();
        let mut i: usize = 0;
        while i < channels.len()
            invariant
                i <= channels.len(),
                keys@ == display_orders(channels@).take(i as int),
            decreases channels.len() - i,
        {
            keys.push(channels[i].0.display_order as u64);
            i += 1;
            assert(display_orders(channels@).take(i as int) == display_orders(channels@).take(
                i as int - 1,
            ).push(channels@[i as int - 1].0.display_order as u64));
        }
        assert(display_orders(channels@).take(channels.len() as int) == display_orders(
            channels@,
        ));
        let metadata_order = rank_by_key(&keys);

        let mut names: Vec<String> = Vec::new();
        let mut j: usize = 0;
        while j < files.len()
            invariant
                j <= files.len(),
                texts_of(names@) == paths_of(files@).take(j as int),
            decreases files.len() - j,
        {
            let ghost before = names@;
            names.push(files[j].path.clone());
            j += 1;
            assert(texts_of(names@) =~= texts_of(before).push(files@[j as int - 1].path@));
            assert(paths_of(files@).take(j as int) =~= paths_of(files@).take(j as int - 1).push(
                files@[j as int - 1].path@,
            ));
        }
        assert(paths_of(files@).take(files.len() as int) == paths_of(files@));
        let file_order = rank_by_name(&names);
        assert(names@.len() == texts_of(names@).len());

        if files.len() != channels.len() {
            return Err(DtsError::CountMismatch { channels: channels.len(), files: files.len() });
        }
        let mut chn_headers: Vec<ChnHeader> = Vec::new();
        let mut min_npts: u64 = u64::MAX;
        let mut k: usize = 0;
        while k < files.len()
            invariant
                k <= files.len(),
                channels@.len() == files@.len(),
                file_order@ == name_ranking(paths_of(files@), files@.len()),
                is_arrangement(file_order@, files@.len()),
                chn_headers@.len() == k,
                header_failure(files@, k as int) is None,
                forall|i: int|
                    0 <= i < k ==> Ok::<ChnHeader, DtsError>(#[trigger] chn_headers@[i])
                        == decoded_header(file_at(files@, i).bytes@),
                min_npts == min_count(chn_headers@),
            decreases files.len() - k,
        {
            let file = &files[file_order[k]];
            assert(*file == file_at(files@, k as int));
            let header = match read_chn_header(file.bytes.as_slice()) {
                Ok(header) => header,
                Err(e) => {
                    proof {
                        assert(header_failure(files@, k as int + 1) == Some(e));
                        lemma_header_failure_stays(files@, k as int + 1, files@.len() as int);
                    }
                    return Err(e);
                },
            };
            assert(header_failure(files@, k as int + 1) is None);
            if header.npts < min_npts {
                min_npts = header.npts;
            }
            let ghost before = chn_headers@;
            chn_headers.push(header);
            assert(chn_headers@.drop_last() == before);
            k += 1;
        }
        Ok(
            DtsReader {
                chn_files: files,
                file_order,
                xml_metadata: channels,
                metadata_order,
                chn_headers,
                min_npts,
            },
        )
    }

    /// Reads a recording from the bytes of its metadata file and its channel
    /// files. Fails where the metadata cannot be decoded or read, with the
    /// error of [`parsed_metadata`]; else where it names another number of
    /// channels than there are files; else where the header of a file
    /// cannot be decoded, with the error of the first such file in natural
    /// order.
    pub fn new(metadata_file: &[u8], files: Vec<ChannelFile>) -> (r: Result<DtsReader, DtsError>)
        ensures
            match parsed_metadata(metadata_file@) {
                Err(e) => r matches Err(f) && f == e,
                Ok(entries) => match r {
                    Ok(reader) => {
                        &&& reader.wf()
                        &&& reader.files() == files@
                        &&& entries_view(reader.channels()) == entries
                        &&& entries.len() == files@.len()
                        &&& header_failure(files@, files@.len() as int) is None
                    },
                    Err(e) => if entries.len() != files@.len() {
                        e == (DtsError::CountMismatch {
                            channels: entries.len() as usize,
                            files: files.len(),
                        })
                    } else {
                        header_failure(files@, files@.len() as int) == Some(e)
                    },
                },
            },
    {
        let channels = match parse_dts_metadata(metadata_file) {
            Ok(channels) => channels,
            Err(e) => {
                return Err(e);
            },
        };
        assert(entries_view(channels@).len() == channels@.len());
        DtsReader::assemble(channels, files)
    }

    /// Number of channels.
    pub fn channel_count(&self) -> (count: usize)
        requires
            self.wf(),
        ensures
            count == self.files().len(),
            count == self.channels().len(),
            count == self.headers().len(),
    {
        self.chn_files.len()
    }

    /// The metadata of the channel at place `i`.
    pub open spec fn channel(&self, i: int) -> ChannelView {
        channel_at(self.channels(), i).0@
    }

    /// The bytes of the file of the channel at place `i`.
    pub open spec fn file_bytes(&self, i: int) -> Seq<u8> {
        file_at(self.files(), i).bytes@
    }

    /// The samples of the channel at place `i` as they stand in a file of
    /// the given bytes, or why they cannot be had: no such channel, or a
    /// file that ends before the samples do.
    pub open spec fn track_samples_in(&self, i: int, bytes: Seq<u8>) -> Result<Seq<i16>, DtsError> {
        if i >= self.files().len() {
            Err(DtsError::OutOfBounds { index: i as usize })
        } else {
            samples_in(bytes, self.headers()[i].channel_start as int, self.sample_count() as int)
        }
    }

    /// The samples of the channel at place `i` as they stand in the bytes
    /// that the reader holds of its file.
    pub open spec fn track_samples(&self, i: int) -> Result<Seq<i16>, DtsError> {
        self.track_samples_in(i, self.file_bytes(i))
    }

    /// The header of the channel at place `track_index`.
    pub fn header(&self, track_index: usize) -> (r: Option<ChnHeader>)
        requires
            self.wf(),
        ensures
            track_index < self.headers().len() ==> r == Some(self.headers()[track_index as int]),
            track_index >= self.headers().len() ==> r is None,
    {
        if track_index < self.chn_headers.len() {
            Some(self.chn_headers[track_index])
        } else {
            None
        }
    }

    /// The metadata of the channel at place `track_index`.
    pub fn metadata(&self, track_index: usize) -> (r: Option<&AnalogInputChannel>)
        requires
            self.wf(),
        ensures
            track_index < self.channels().len() ==> r is Some && r.unwrap()@ == self.channel(
                track_index as int,
            ),
            track_index >= self.channels().len() ==> r is None,
    {
        if track_index < self.xml_metadata.len() {
            let entry = &self.xml_metadata[self.metadata_order[track_index]];
            Some(&entry.0)
        } else {
            None
        }
    }

    /// The path of the file of the channel at place `track_index`.
    pub fn file_path(&self, track_index: usize) -> (r: Option<&str>)
        requires
            self.wf(),
        ensures
            track_index < self.files().len() ==> r is Some && r.unwrap()@ == file_at(
                self.files(),
                track_index as int,
            ).path@,
            track_index >= self.files().len() ==> r is None,
    {
        if track_index < self.chn_files.len() {
            Some(self.chn_files[self.file_order[track_index]].path.as_str())
        } else {
            None
        }
    }

    /// What the reader tells of each channel, in the order of the channels.
    /// No sample is read for it.
    pub fn track_metadata(&self) -> (tracks: Vec<TrackMetadata>)
        requires
            self.wf(),
        ensures
            tracks@.len() == self.channels().len(),
            forall|i: int|
                0 <= i < tracks@.len() ==> (#[trigger] tracks@[i])@ == track_view(
                    self.channel(i),
                    self.headers()[i],
                ),
    {
        let mut tracks: Vec<TrackMetadata> = Vec::new();
        let mut i: usize = 0;
        while i < self.xml_metadata.len()
            invariant
                self.wf(),
                i <= self.xml_metadata@.len(),
                tracks@.len() == i,
                forall|k: int|
                    0 <= k < i ==> (#[trigger] tracks@[k])@ == track_view(
                        self.channel(k),
                        self.headers()[k],
                    ),
            decreases self.xml_metadata@.len() - i,
        {
            let channel = &self.xml_metadata[self.metadata_order[i]].0;
            let name = match &channel.name {
                Some(name) => name.clone(),
                None => channel.description.clone(),
            };
            tracks.push(
                TrackMetadata {
                    name,
                    description: channel.description.clone(),
                    sampling_rate: self.chn_headers[i].sample_rate,
                    sensitivity: clone_optional(&channel.sensitivity),
                    serial_number: channel.serial_number.clone(),
                    eu: channel.eu.clone(),
                },
            );
            i += 1;
        }
        tracks
    }

    /// Reads the samples of the channel at place `track_index` as they stand
    /// in the bytes that the reader holds of its file: as many as the
    /// shortest channel of the recording has, uncalibrated.
    pub fn read_track(&self, track_index: usize) -> (r: Result<Vec<i16>, DtsError>)
        requires
            self.wf(),
        ensures
            match r {
                Ok(samples) => self.track_samples(track_index as int) == Ok::<
                    Seq<i16>,
                    DtsError,
                >(samples@) && samples@.len() == self.sample_count(),
                Err(e) => self.track_samples(track_index as int) == Err::<Seq<i16>, DtsError>(e),
            },
    {
        if track_index >= self.channel_count() {
            return Err(DtsError::OutOfBounds { index: track_index });
        }
        let file = &self.chn_files[self.file_order[track_index]];
        self.read_track_from(track_index, file.bytes.as_slice())
    }

    /// Reads the samples of the channel at place `track_index` as they stand
    /// in `file`, the bytes of its file from the beginning: as many as the
    /// shortest channel of the recording has, uncalibrated.
    pub fn read_track_from(&self, track_index: usize, file: &[u8]) -> (r: Result<
        Vec<i16>,
        DtsError,
    >)
        requires
            self.wf(),
        ensures
            match r {
                Ok(samples) => self.track_samples_in(track_index as int, file@) == Ok::<
                    Seq<i16>,
                    DtsError,
                >(samples@) && samples@.len() == self.sample_count(),
                Err(e) => self.track_samples_in(track_index as int, file@) == Err::<
                    Seq<i16>,
                    DtsError,
                >(e),
            },
    {
        if track_index >= self.channel_count() {
            return Err(DtsError::OutOfBounds { index: track_index });
        }
        let header = self.chn_headers[track_index];
        if self.min_npts == 0 {
            return Ok(Vec::new());
        }
        let need: u128 = (header.channel_start as u128) + 2 * (self.min_npts as u128);
        if need > file.len() as u128 {
            return Err(DtsError::Truncated);
        }
        let start: usize = header.channel_start as usize;
        let count: usize = self.min_npts as usize;
        let window = vstd::slice::slice_subrange(file, start, start + 2 * count);
        let mut samples: Vec<i16> = vec![0i16; count];
        read_i16s_le(window, &mut samples);
        proof {
            let bytes = file@;
            let expected = Seq::new(count as nat, |k: int| sample_at(bytes, start as int, k));
            assert forall|k: int| 0 <= k < count implies samples@[k] == expected[k] by {
                assert(window@.skip(2 * k)[0] == bytes.skip(start + 2 * k)[0]);
                assert(window@.skip(2 * k)[1] == bytes.skip(start + 2 * k)[1]);
            }
            assert(samples@ =~= expected);
        }
        Ok(samples)
    }
}

/// The sample count of a recording is the smallest among its channels: no
/// header has fewer samples, and where there is a channel, one header has
/// exactly as many.
pub proof fn lemma_min_count_is_least(headers: Seq<ChnHeader>)
    ensures
        forall|i: int| 0 <= i < headers.len() ==> min_count(headers) <= (#[trigger] headers[i]).npts,
        headers.len() > 0 ==> exists|i: int|
            0 <= i < headers.len() && (#[trigger] headers[i]).npts == min_count(headers),
    decreases headers.len(),
{
    if headers.len() > 0 {
        let before = headers.drop_last();
        lemma_min_count_is_least(before);
        assert forall|i: int| 0 <= i < headers.len() implies min_count(headers) <= (
        #[trigger] headers[i]).npts by {
            if i < before.len() {
                assert(before[i] == headers[i]);
            }
        }
        if headers.last().npts < min_count(before) || before.len() == 0 {
            assert(headers[headers.len() - 1].npts == min_count(headers));
        } else {
            let i = choose|i: int|
                0 <= i < before.len() && (#[trigger] before[i]).npts == min_count(before);
            assert(headers[i].npts == min_count(headers));
        }
    }
}

/// Every track of a reader that can be read has the same number of
/// samples: the smallest sample count among the headers of the recording.
pub proof fn lemma_tracks_have_least_count(reader: &DtsReader, i: int)
    requires
        reader.wf(),
        0 <= i,
        reader.track_samples(i) is Ok,
    ensures
        reader.track_samples(i).unwrap().len() == min_count(reader.headers()),
        forall|k: int|
            0 <= k < reader.headers().len() ==> reader.track_samples(i).unwrap().len() <= (
            #[trigger] reader.headers()[k]).npts,
{
    reader.lemma_wf();
    lemma_min_count_is_least(reader.headers());
}

/// A failure among the first files is a failure among more of them.
pub proof fn lemma_header_failure_stays(files: Seq<ChannelFile>, upto: int, more: int)
    requires
        upto <= more,
        header_failure(files, upto) is Some,
    ensures
        header_failure(files, more) == header_failure(files, upto),
    decreases more - upto,
{
    if upto < more {
        lemma_header_failure_stays(files, upto, more - 1);
    }
}

/// A header fails to decode for want of the magic value or of bytes.
pub proof fn lemma_header_error_kind(files: Seq<ChannelFile>, upto: int)
    ensures
        header_failure(files, upto) matches Some(e) ==> e == DtsError::BadMagic || e
            == DtsError::Truncated,
    decreases upto,
{
    if upto > 0 {
        lemma_header_error_kind(files, upto - 1);
    }
}

/// A metadata file fails to decode for its encoding or its characters
/// only.
pub proof fn lemma_metadata_error(bytes: Seq<u8>)
    ensures
        metadata_text(bytes) matches Err(e) ==> e == DtsError::Encoding || e
            == DtsError::InvalidCharacters,
{
}

// ---------------------------------------------------------------------------
// The directory
// ---------------------------------------------------------------------------

/// The extension of metadata files.
pub const METADATA_EXTENSION: &'static str = "dts";

/// The extension of channel files.
pub const CHANNEL_EXTENSION: &'static str = "chn";

/// One entry of the directory of a recording, as its listing gives it.
pub struct DirEntry {
    /// Path of the entry.
    pub path: String,
    /// Extension of the entry's name, where it has one.
    pub extension: Option<String>,
    /// Whether the entry is a regular file.
    pub is_file: bool,
}

/// Whether the entry has the given extension.
pub open spec fn has_extension(entry: DirEntry, extension: Seq<char>) -> bool {
    optional_text(entry.extension) == Some(extension)
}

/// Whether the entry has the given extension.
fn entry_has_extension(entry: &DirEntry, extension: &str) -> (found: bool)
    ensures
        found == has_extension(*entry, extension@),
{
    match &entry.extension {
        Some(text) => str_equal(text.as_str(), extension),
        None => false,
    }
}

/// The place of the first entry with the given extension.
pub fn find_file_by_extension(entries: &Vec<DirEntry>, extension: &str) -> (r: Result<
    usize,
    DtsError,
>)
    ensures
        match r {
            Ok(at) => at < entries@.len() && has_extension(entries@[at as int], extension@)
                && forall|k: int| 0 <= k < at ==> !has_extension(#[trigger] entries@[k], extension@),
            Err(e) => e == DtsError::NoMetadataFile && forall|k: int|
                0 <= k < entries@.len() ==> !has_extension(#[trigger] entries@[k], extension@),
        },
{
    let mut i: usize = 0;
    while i < entries.len()
        invariant
            i <= entries.len(),
            forall|k: int| 0 <= k < i ==> !has_extension(#[trigger] entries@[k], extension@),
        decreases entries.len() - i,
    {
        if entry_has_extension(&entries[i], extension) {
            return Ok(i);
        }
        i += 1;
    }
    Err(DtsError::NoMetadataFile)
}

/// Whether the entry is a channel file: a regular file with the extension
/// of channel files.
pub open spec fn is_channel_file(entry: DirEntry) -> bool {
    entry.is_file && has_extension(entry, CHANNEL_EXTENSION@)
}

/// The places of the channel files among the first `upto` entries, in the
/// order of the listing.
pub open spec fn channel_places(entries: Seq<DirEntry>, upto: int) -> Seq<usize>
    decreases upto,
{
    if upto <= 0 {
        Seq::<usize>::empty()
    } else if is_channel_file(entries[upto - 1]) {
        channel_places(entries, upto - 1).push((upto - 1) as usize)
    } else {
        channel_places(entries, upto - 1)
    }
}

/// The places of the channel files among `entries`, in the order of the
/// listing.
pub fn channel_file_entries(entries: &Vec<DirEntry>) -> (places: Vec<usize>)
    ensures
        places@ == channel_places(entries@, entries@.len() as int),
{
    let mut places: Vec<usize> = Vec::new();
    let mut i: usize = 0;
    while i < entries.len()
        invariant
            i <= entries.len(),
            places@ == channel_places(entries@, i as int),
        decreases entries.len() - i,
    {
        if entries[i].is_file && entry_has_extension(&entries[i], CHANNEL_EXTENSION) {
            places.push(i);
        }
        i += 1;
    }
    places
}

} // verus!
