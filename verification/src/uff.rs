//! The UFF Type-58 codec: fixed 80-column records, the scientific-notation
//! fields of the legacy producer, and the ASCII and binary dataset layouts.

use crate::dts::ChannelData;
use crate::text::{
    all_digits, chars_of, decimal, digit_char, digit_value, digits_value, is_digit, pad_left,
    pad_right, push_char, push_decimal_right, push_padded_left, push_padded_right, push_spaces,
    spaces, take_chars, texts_of, truncated,
};
use vstd::prelude::*;
use vstd::utf8::*;

verus! {

/// The record that opens and closes every dataset.
pub const UFF_SEPARATOR: &'static str = "    -1";

/// Width of a record, in characters, before its line feed.
pub const RECORD_WIDTH: usize = 80;

/// Largest number of bytes that the mantissa of a scientific text may take,
/// its exponent marker included.
pub const MANTISSA_CAPACITY: usize = 32;

/// Largest exponent that a scientific field can show.
pub const EXPONENT_LIMIT: i32 = 999;

/// The first `width` characters of `text`.
pub fn truncate_to_width(text: &str, width: usize) -> (out: String)
    ensures
        out@ == truncated(text@, width as nat),
{
    take_chars(text, width)
}

/// The bytes of one record: the text with spaces up to column 80 when it
/// has fewer characters, in UTF-8, and a line feed.
#[verifier::opaque]
pub open spec fn line_bytes(text: Seq<char>) -> Seq<u8> {
    encode_utf8(pad_right(text, RECORD_WIDTH as nat)).push(0x0Au8)
}

/// Appends `bytes` to `out`.
pub fn append_bytes(out: &mut Vec<u8>, bytes: &[u8])
    ensures
        final(out)@ == old(out)@ + bytes@,
{
    let mut i: usize = 0;
    assert(out@ == old(out)@ + bytes@.take(0));
    while i < bytes.len()
        invariant
            i <= bytes.len(),
            out@ == old(out)@ + bytes@.take(i as int),
        decreases bytes.len() - i,
    {
        out.push(bytes[i]);
        i += 1;
        assert(bytes@.take(i as int) == bytes@.take(i as int - 1).push(bytes@[i as int - 1]));
        assert(out@ == old(out)@ + bytes@.take(i as int));
    }
    assert(bytes@.take(bytes.len() as int) == bytes@);
}

/// Reserves room in a string.
///
/// Trusted: `String::reserve` of the standard library changes the capacity
/// only, never the text. It panics when the new capacity would pass
/// `isize::MAX` bytes, which `requires` rules out.
#[verifier::external_body]
fn reserve_text(s: &mut String, additional: usize)
    requires
        encode_utf8(old(s)@).len() + additional <= isize::MAX,
    ensures
        final(s)@ == old(s)@,
{
    s.reserve(additional);
}

/// One field of a record.
#[derive(Clone, Copy, Debug)]
pub enum Field<'a> {
    /// A text as it is.
    Text(&'a str),
    /// A text at the left of so many columns.
    Left(&'a str, usize),
    /// A text at the right of so many columns.
    Right(&'a str, usize),
    /// A number in decimal at the right of so many columns.
    Number(u128, usize),
}

/// The characters that a field puts into a record. A field that is wider
/// than its columns is not cut.
pub open spec fn field_text(field: Field<'_>) -> Seq<char> {
    match field {
        Field::Text(text) => text@,
        Field::Left(text, width) => pad_right(text@, width as nat),
        Field::Right(text, width) => pad_left(text@, width as nat),
        Field::Number(value, width) => pad_left(decimal(value as nat), width as nat),
    }
}

/// The characters of the first `upto` fields.
pub open spec fn fields_text(fields: Seq<Field<'_>>, upto: int) -> Seq<char>
    decreases upto,
{
    if upto <= 0 {
        Seq::<char>::empty()
    } else {
        fields_text(fields, upto - 1) + field_text(fields[upto - 1])
    }
}

/// Empties a string.
///
/// Trusted: `String::clear` of the standard library removes all of the
/// text.
#[verifier::external_body]
fn clear_text(s: &mut String)
    ensures
        final(s)@ == Seq::<char>::empty(),
{
    s.clear();
}

/// The text of one record while it is being put together.
pub struct LineBuffer {
    text: String,
}

impl View for LineBuffer {
    type V = Seq<char>;

    closed spec fn view(&self) -> Seq<char> {
        self.text@
    }
}

impl LineBuffer {
    /// An empty buffer with room for `capacity` bytes, and for one record at
    /// least.
    pub fn with_capacity(capacity: usize) -> (buffer: LineBuffer)
        requires
            capacity <= isize::MAX,
        ensures
            buffer@ == Seq::<char>::empty(),
    {
        let mut text = String::new();
        let room = if capacity < RECORD_WIDTH { RECORD_WIDTH } else { capacity };
        reserve_text(&mut text, room);
        LineBuffer { text }
    }

    /// Empties the buffer and keeps its room.
    pub fn clear(&mut self)
        ensures
            final(self)@ == Seq::<char>::empty(),
    {
        clear_text(&mut self.text);
    }

    /// Appends `s`.
    pub fn push_str(&mut self, s: &str)
        ensures
            final(self)@ == old(self)@ + s@,
    {
        self.text.append(s);
    }

    /// Appends `ch`.
    pub fn push_char(&mut self, ch: char)
        ensures
            final(self)@ == old(self)@.push(ch),
    {
        push_char(&mut self.text, ch);
    }

    /// Makes room for `capacity` bytes in all; the text stays as it is.
    pub fn ensure_minimum_capacity(&mut self, capacity: usize)
        requires
            capacity <= isize::MAX,
        ensures
            final(self)@ == old(self)@,
    {
        let used = self.text.as_str().as_bytes().len();
        if used < capacity {
            reserve_text(&mut self.text, capacity - used);
        }
    }

    /// Appends the fields of `fields`, in order.
    pub fn write_fmt(&mut self, fields: &[Field<'_>])
        ensures
            final(self)@ == old(self)@ + fields_text(fields@, fields@.len() as int),
    {
        let mut i: usize = 0;
        assert(self@ == old(self)@ + fields_text(fields@, 0));
        while i < fields.len()
            invariant
                i <= fields.len(),
                self@ == old(self)@ + fields_text(fields@, i as int),
            decreases fields.len() - i,
        {
            let ghost before = self@;
            match &fields[i] {
                Field::Text(text) => {
                    self.text.append(text);
                },
                Field::Left(text, width) => {
                    push_padded_right(&mut self.text, text, *width);
                },
                Field::Right(text, width) => {
                    push_padded_left(&mut self.text, text, *width);
                },
                Field::Number(value, width) => {
                    push_decimal_right(&mut self.text, *value, *width);
                },
            }
            assert(self@ == before + field_text(fields@[i as int]));
            i += 1;
            assert(self@ == old(self)@ + (fields_text(fields@, i as int - 1) + field_text(
                fields@[i as int - 1],
            )));
        }
    }

    /// The text gathered so far.
    pub fn as_str(&self) -> (s: &str)
        ensures
            s@ == self@,
    {
        self.text.as_str()
    }

    /// Writes the buffer as one record and leaves it unchanged.
    pub fn write_line(&mut self, writer: &mut Vec<u8>)
        ensures
            final(self)@ == old(self)@,
            final(writer)@ == old(writer)@ + line_bytes(old(self)@),
    {
        let mut record = String::new();
        push_padded_right(&mut record, self.text.as_str(), RECORD_WIDTH);
        assert(record@ == pad_right(self@, RECORD_WIDTH as nat));
        append_bytes(writer, record.as_str().as_bytes());
        writer.push(0x0Au8);
        proof {
            reveal(line_bytes);
        }
        assert(writer@ == old(writer)@ + line_bytes(self@));
    }
}

/// Why a dataset could not be written.
#[derive(Clone, Copy, Debug, PartialEq, Eq, Structural)]
pub enum UffError {
    /// A number's text is not in scientific notation as the codec reads it.
    Format,
    /// The channel has another number of rendered samples than of samples.
    SampleTextCount,
}

/// What has been read of a number in scientific notation.
pub ghost struct ScientificState {
    /// The text up to and including the exponent marker.
    pub mantissa: Seq<char>,
    /// The exponent's magnitude, as far as its digits have been read.
    pub exponent_value: nat,
    /// Whether the exponent carries a minus sign.
    pub exponent_negative: bool,
    /// Whether the exponent marker has been read.
    pub after_exponent_marker: bool,
    /// Whether the place of the exponent's sign has been passed.
    pub exponent_sign_consumed: bool,
}

/// The state before anything has been read.
pub open spec fn scientific_start() -> ScientificState {
    ScientificState {
        mantissa: Seq::<char>::empty(),
        exponent_value: 0,
        exponent_negative: false,
        after_exponent_marker: false,
        exponent_sign_consumed: false,
    }
}

/// The state after one more character, or `None` where the character cannot
/// follow: the mantissa would pass its capacity, the exponent is no number,
/// or it would pass [`EXPONENT_LIMIT`].
pub open spec fn scientific_step(st: ScientificState, c: char) -> Option<ScientificState> {
    if !st.after_exponent_marker {
        let mantissa = st.mantissa.push(c);
        if encode_utf8(mantissa).len() > MANTISSA_CAPACITY {
            None
        } else {
            Some(ScientificState { mantissa, after_exponent_marker: c == 'e' || c == 'E', ..st })
        }
    } else if !st.exponent_sign_consumed {
        if c == '+' {
            Some(ScientificState { exponent_sign_consumed: true, ..st })
        } else if c == '-' {
            Some(ScientificState { exponent_negative: true, exponent_sign_consumed: true, ..st })
        } else if is_digit(c) {
            Some(
                ScientificState {
                    exponent_sign_consumed: true,
                    exponent_value: digit_value(c),
                    ..st
                },
            )
        } else {
            None
        }
    } else if is_digit(c) && 10 * st.exponent_value + digit_value(c) <= EXPONENT_LIMIT {
        Some(ScientificState { exponent_value: 10 * st.exponent_value + digit_value(c), ..st })
    } else {
        None
    }
}

/// The state after the characters of `text`, read in order from `st`.
pub open spec fn scientific_feed(st: ScientificState, text: Seq<char>) -> Option<ScientificState>
    decreases text.len(),
{
    if text.len() == 0 {
        Some(st)
    } else {
        match scientific_step(st, text[0]) {
            None => None,
            Some(next) => scientific_feed(next, text.drop_first()),
        }
    }
}

/// The digits of an exponent: two, or three from 100 on.
pub open spec fn exponent_digits(value: nat) -> Seq<char> {
    if value >= 100 {
        seq![digit_char(value / 100), digit_char(value / 10 % 10), digit_char(value % 10)]
    } else {
        seq![digit_char(value / 10), digit_char(value % 10)]
    }
}

/// The sign shown before an exponent: minus only for a negative exponent
/// other than zero.
pub open spec fn exponent_sign(st: ScientificState) -> char {
    if st.exponent_negative && st.exponent_value > 0 {
        '-'
    } else {
        '+'
    }
}

/// The number as the legacy producer writes it: mantissa with its marker,
/// the exponent's sign, the exponent's digits.
pub open spec fn scientific_body(st: ScientificState) -> Seq<char> {
    st.mantissa.push(exponent_sign(st)) + exponent_digits(st.exponent_value)
}

/// The field for a number whose scientific text is `text`: the number as the
/// legacy producer writes it, after the spaces that bring it to `width`
/// characters. `None` where `text` cannot be read.
pub open spec fn scientific_field(text: Seq<char>, width: nat) -> Option<Seq<char>> {
    match scientific_feed(scientific_start(), text) {
        None => None,
        Some(st) => Some(pad_left(scientific_body(st), width)),
    }
}

/// A reader of numbers in scientific notation, fed piece by piece.
pub struct ScientificComponents {
    mantissa: String,
    exponent_value: i32,
    exponent_negative: bool,
    after_exponent_marker: bool,
    exponent_sign_consumed: bool,
}

impl View for ScientificComponents {
    type V = ScientificState;

    closed spec fn view(&self) -> ScientificState {
        ScientificState {
            mantissa: self.mantissa@,
            exponent_value: self.exponent_value as nat,
            exponent_negative: self.exponent_negative,
            after_exponent_marker: self.after_exponent_marker,
            exponent_sign_consumed: self.exponent_sign_consumed,
        }
    }
}

impl ScientificComponents {
    /// The reader's invariant: the exponent within its limit, the mantissa
    /// within its capacity.
    pub closed spec fn wf(&self) -> bool {
        &&& 0 <= self.exponent_value <= EXPONENT_LIMIT
        &&& encode_utf8(self.mantissa@).len() <= MANTISSA_CAPACITY
    }

    /// A reader that has read nothing.
    pub fn new() -> (components: ScientificComponents)
        ensures
            components.wf(),
            components@ == scientific_start(),
    {
        ScientificComponents {
            mantissa: String::new(),
            exponent_value: 0,
            exponent_negative: false,
            after_exponent_marker: false,
            exponent_sign_consumed: false,
        }
    }

    /// Reads one character.
    fn write_char(&mut self, c: char) -> (r: Result<(), UffError>)
        requires
            old(self).wf(),
        ensures
            match scientific_step(old(self)@, c) {
                Some(next) => r is Ok && final(self)@ == next && final(self).wf(),
                None => r == Err::<(), UffError>(UffError::Format),
            },
    {
        if !self.after_exponent_marker {
            push_char(&mut self.mantissa, c);
            if self.mantissa.as_str().as_bytes().len() > MANTISSA_CAPACITY {
                return Err(UffError::Format);
            }
            if c == 'e' || c == 'E' {
                self.after_exponent_marker = true;
            }
            Ok(())
        } else if !self.exponent_sign_consumed {
            if c == '+' {
                self.exponent_sign_consumed = true;
                Ok(())
            } else if c == '-' {
                self.exponent_negative = true;
                self.exponent_sign_consumed = true;
                Ok(())
            } else if '0' <= c && c <= '9' {
                self.exponent_sign_consumed = true;
                self.exponent_value = ((c as u32) - ('0' as u32)) as i32;
                Ok(())
            } else {
                Err(UffError::Format)
            }
        } else if '0' <= c && c <= '9' {
            let next: i32 = self.exponent_value * 10 + ((c as u32) - ('0' as u32)) as i32;
            if next > EXPONENT_LIMIT {
                return Err(UffError::Format);
            }
            self.exponent_value = next;
            Ok(())
        } else {
            Err(UffError::Format)
        }
    }

    /// Reads the characters of `s`, in order. After an error the reader is
    /// of no further use.
    pub fn write_str(&mut self, s: &str) -> (r: Result<(), UffError>)
        requires
            old(self).wf(),
        ensures
            match scientific_feed(old(self)@, s@) {
                Some(state) => r is Ok && final(self)@ == state && final(self).wf(),
                None => r == Err::<(), UffError>(UffError::Format),
            },
    {
        let chars = chars_of(s);
        let mut i: usize = 0;
        assert(chars@.skip(0) == chars@);
        while i < chars.len()
            invariant
                i <= chars.len(),
                chars@ == s@,
                self.wf(),
                scientific_feed(old(self)@, s@) == scientific_feed(self@, chars@.skip(i as int)),
            decreases chars.len() - i,
        {
            assert(chars@.skip(i as int).drop_first() == chars@.skip(i as int + 1));
            match self.write_char(chars[i]) {
                Err(e) => {
                    return Err(e);
                },
                Ok(()) => {},
            }
            i += 1;
        }
        Ok(())
    }
}

/// Writes into `buffer` the field of a number whose scientific text (Rust's
/// `{:e}` notation, digits after the point as wanted) is `text`, right-aligned
/// in `width` characters. On an error the buffer is left as it was.
pub fn write_scientific(buffer: &mut LineBuffer, text: &str, width: usize) -> (r: Result<
    (),
    UffError,
>)
    ensures
        match scientific_field(text@, width as nat) {
            Some(field) => r is Ok && final(buffer)@ == old(buffer)@ + field,
            None => r == Err::<(), UffError>(UffError::Format) && final(buffer)@ == old(buffer)@,
        },
{
    let mut components = ScientificComponents::new();
    match components.write_str(text) {
        Err(e) => {
            return Err(e);
        },
        Ok(()) => {},
    }
    let value: i32 = components.exponent_value;
    let digit_count: usize = if value >= 100 { 3 } else { 2 };
    let mantissa_len: usize = components.mantissa.as_str().unicode_len();
    let ghost st = components@;
    let ghost body = scientific_body(st);
    assert(body.len() == mantissa_len + 1 + digit_count);
    if mantissa_len < width && width - mantissa_len > 1 + digit_count {
        push_spaces(&mut buffer.text, width - mantissa_len - 1 - digit_count);
    }
    let ghost pad = (if width > body.len() { width - body.len() } else { 0 }) as nat;
    assert(buffer@ == old(buffer)@ + spaces(pad));
    buffer.push_str(components.mantissa.as_str());
    buffer.push_char(if components.exponent_negative && value > 0 { '-' } else { '+' });
    push_exponent_digits(buffer, value);
    assert(buffer@ == old(buffer)@ + (spaces(pad) + body));
    assert(pad_left(body, width as nat) == spaces(pad) + body) by {
        if width <= body.len() {
            assert(spaces(pad) + body =~= body);
        }
    }
    Ok(())
}

/// Appends the digits of an exponent.
fn push_exponent_digits(buffer: &mut LineBuffer, value: i32)
    requires
        0 <= value <= EXPONENT_LIMIT,
    ensures
        final(buffer)@ == old(buffer)@ + exponent_digits(value as nat),
{
    if value >= 100 {
        buffer.push_char((48u8 + (value / 100) as u8) as char);
        buffer.push_char((48u8 + ((value / 10) % 10) as u8) as char);
        buffer.push_char((48u8 + (value % 10) as u8) as char);
    } else {
        buffer.push_char((48u8 + (value / 10) as u8) as char);
        buffer.push_char((48u8 + (value % 10) as u8) as char);
    }
    assert(buffer@ =~= old(buffer)@ + exponent_digits(value as nat));
}

/// The scientific text of zero with five digits after the point.
pub const ZERO_TEXT: &'static str = "0.00000e0";

/// Bytes of a scientific field in records of characteristics.
pub const SHORT_FIELD: usize = 11;

/// Bytes of a scientific field in data records.
pub const DATA_FIELD: usize = 20;

/// Samples in one data record.
pub const SAMPLES_PER_RECORD: usize = 4;

/// The numbers of a channel as text, for the records that show them.
pub struct ChannelText {
    /// Seconds between two samples, in scientific notation with five digits
    /// after the point.
    pub time_step: String,
    /// Each sample in scientific notation with eleven digits after the
    /// point.
    pub samples: Vec<String>,
}

/// Whether `text` can be read as a number in scientific notation.
pub open spec fn readable(text: Seq<char>) -> bool {
    scientific_feed(scientific_start(), text) is Some
}

/// Whether every text of `values` can be read.
pub open spec fn all_readable(values: Seq<Seq<char>>) -> bool {
    forall|i: int| 0 <= i < values.len() ==> readable(#[trigger] values[i])
}

/// The field of a readable text.
pub open spec fn field_of(text: Seq<char>, width: nat) -> Seq<char>
    recommends
        readable(text),
{
    scientific_field(text, width).unwrap()
}

/// The text of one data record: the fields of `values`, side by side.
pub open spec fn data_line(values: Seq<Seq<char>>) -> Seq<char>
    recommends
        all_readable(values),
    decreases values.len(),
{
    if values.len() == 0 {
        Seq::<char>::empty()
    } else {
        data_line(values.drop_last()) + field_of(values.last(), DATA_FIELD as nat)
    }
}

/// Number of samples in the last data record of `count` samples.
pub open spec fn last_record_len(count: nat) -> nat {
    if count % (SAMPLES_PER_RECORD as nat) == 0 {
        SAMPLES_PER_RECORD as nat
    } else {
        count % (SAMPLES_PER_RECORD as nat)
    }
}

/// The data records of an ASCII dataset: four samples to a record, the last
/// record with what is left.
pub open spec fn data_section(samples: Seq<Seq<char>>) -> Seq<u8>
    recommends
        all_readable(samples),
    decreases samples.len(),
{
    if samples.len() == 0 {
        Seq::<u8>::empty()
    } else {
        let head = samples.len() - last_record_len(samples.len());
        data_section(samples.take(head)) + line_bytes(
            data_line(samples.skip(head)),
        )
    }
}

/// The record that names the measured point.
pub open spec fn point_label(name: Seq<char>) -> Seq<char> {
    ("Pt="@ + truncated(name, 64)).push(';')
}

/// The record of the function's identity, with the channel label in 19
/// columns.
pub open spec fn record6(name: Seq<char>) -> Seq<char> {
    "    1         0    0         0 "@ + pad_right(truncated(name, 19), 19) + "0   0 "@ + pad_right(
        "NONE"@,
        19,
    ) + "1   0"@
}

/// The record of the data's form: ordinate type, number of points, even
/// spacing, then abscissa start, time step and z-axis value as fields.
pub open spec fn record7(ord_type: nat, count: nat, zero: Seq<char>, step: Seq<char>) -> Seq<
    char,
> {
    pad_left(decimal(ord_type), 10) + pad_left(decimal(count), 10) + pad_left(decimal(1), 10)
        + "  "@ + zero + "  "@ + step + "  "@ + zero
}

/// A record of axis characteristics: the kind of data, three zero
/// exponents, the axis label in 19 columns and the unit in `width` columns
/// after two spaces.
pub open spec fn axis_record(kind: nat, label: Seq<char>, units: Seq<char>, width: nat) -> Seq<
    char,
> {
    pad_left(decimal(kind), 10) + pad_left(decimal(0), 5) + pad_left(decimal(0), 5) + pad_left(
        decimal(0),
        5,
    ) + " "@ + pad_right(label, 19) + pad_right("  "@ + units, width)
}

/// The seven records that identify a dataset whose type record is
/// `type_line`.
pub open spec fn identity_records(type_line: Seq<char>, name: Seq<char>) -> Seq<u8> {
    line_bytes(UFF_SEPARATOR@) + line_bytes(type_line) + line_bytes(Seq::<char>::empty())
        + line_bytes(point_label(name)) + line_bytes(Seq::<char>::empty()) + line_bytes("NONE"@)
        + line_bytes("NONE"@)
}

/// The six records of characteristics: function identity, data form,
/// abscissa, ordinate, ordinate denominator and z-axis.
pub open spec fn characteristic_records(
    ord_type: nat,
    count: nat,
    name: Seq<char>,
    units: Seq<char>,
    time_step: Seq<char>,
) -> Seq<u8> {
    let zero = field_of(ZERO_TEXT@, SHORT_FIELD as nat);
    let step = field_of(time_step, SHORT_FIELD as nat);
    line_bytes(record6(name)) + line_bytes(record7(ord_type, count, zero, step)) + line_bytes(
        axis_record(17, "Time"@, "s"@, 35),
    ) + line_bytes(axis_record(8, truncated(name, 19), truncated(units, 33), 35)) + line_bytes(
        axis_record(0, "NONE"@, "NONE"@, 35),
    ) + line_bytes(axis_record(0, "NONE"@, "NONE"@, 35))
}

/// The records before the data, for a dataset whose type record is
/// `type_line`.
pub open spec fn leading_records(
    type_line: Seq<char>,
    ord_type: nat,
    count: nat,
    name: Seq<char>,
    units: Seq<char>,
    time_step: Seq<char>,
) -> Seq<u8> {
    identity_records(type_line, name) + characteristic_records(
        ord_type,
        count,
        name,
        units,
        time_step,
    )
}

/// One ASCII dataset: the leading records with ordinate type 4 (double
/// precision), the data records, the closing separator. An error where the
/// rendered samples are not as many as `count`, or a text cannot be read.
pub open spec fn uff58_ascii(
    name: Seq<char>,
    units: Seq<char>,
    count: nat,
    time_step: Seq<char>,
    samples: Seq<Seq<char>>,
) -> Result<Seq<u8>, UffError> {
    if samples.len() != count {
        Err(UffError::SampleTextCount)
    } else if !(readable(ZERO_TEXT@) && readable(time_step) && all_readable(samples)) {
        Err(UffError::Format)
    } else {
        Ok(
            leading_records("    58"@, 4, count, name, units, time_step) + data_section(samples)
                + line_bytes(UFF_SEPARATOR@),
        )
    }
}

/// Writes `text` as one record.
fn write_text_line(block: &mut Vec<u8>, buffer: &mut LineBuffer, text: &str)
    ensures
        final(block)@ == old(block)@ + line_bytes(text@),
{
    buffer.clear();
    buffer.push_str(text);
    assert(buffer@ == text@);
    buffer.write_line(block);
}

/// Puts the point label of `track_name` into `buffer`.
fn fill_point_label(buffer: &mut LineBuffer, track_name: &str)
    ensures
        final(buffer)@ == point_label(track_name@),
{
    let label = truncate_to_width(track_name, 64);
    buffer.clear();
    buffer.push_str("Pt=");
    assert(buffer@ == "Pt="@);
    buffer.push_str(label.as_str());
    buffer.push_char(';');
}

/// Puts the record of the function's identity into `buffer`.
fn fill_record6(buffer: &mut LineBuffer, track_name: &str)
    ensures
        final(buffer)@ == record6(track_name@),
{
    let label = truncate_to_width(track_name, 19);
    buffer.clear();
    let fields = vec![
        Field::Text("    1         0    0         0 "),
        Field::Left(label.as_str(), 19),
        Field::Text("0   0 "),
        Field::Left("NONE", 19),
        Field::Text("1   0"),
    ];
    buffer.write_fmt(fields.as_slice());
    proof {
        reveal_with_fuel(fields_text, 6);
        assert(buffer@ =~= record6(track_name@));
    }
}

/// Puts the record of the data's form into `buffer`.
fn fill_record7(buffer: &mut LineBuffer, ord_type: u128, count: u128, time_step: &str) -> (r:
    Result<(), UffError>)
    ensures
        readable(ZERO_TEXT@) && readable(time_step@) ==> r is Ok && final(buffer)@ == record7(
            ord_type as nat,
            count as nat,
            field_of(ZERO_TEXT@, SHORT_FIELD as nat),
            field_of(time_step@, SHORT_FIELD as nat),
        ),
        !(readable(ZERO_TEXT@) && readable(time_step@)) ==> r == Err::<(), UffError>(
            UffError::Format,
        ),
{
    buffer.clear();
    push_decimal_right(&mut buffer.text, ord_type, 10);
    assert(buffer@ == pad_left(decimal(ord_type as nat), 10));
    push_decimal_right(&mut buffer.text, count, 10);
    push_decimal_right(&mut buffer.text, 1, 10);
    buffer.push_str("  ");
    match write_scientific(buffer, ZERO_TEXT, SHORT_FIELD) {
        Err(e) => {
            return Err(e);
        },
        Ok(()) => {},
    }
    buffer.push_str("  ");
    match write_scientific(buffer, time_step, SHORT_FIELD) {
        Err(e) => {
            return Err(e);
        },
        Ok(()) => {},
    }
    buffer.push_str("  ");
    match write_scientific(buffer, ZERO_TEXT, SHORT_FIELD) {
        Err(e) => {
            return Err(e);
        },
        Ok(()) => {},
    }
    Ok(())
}

/// Puts a record of axis characteristics into `buffer`.
fn fill_axis_record(buffer: &mut LineBuffer, kind: u128, label: &str, units: &str, width: usize)
    ensures
        final(buffer)@ == axis_record(kind as nat, label@, units@, width as nat),
{
    let mut unit_field = String::new();
    unit_field.append("  ");
    assert(unit_field@ == "  "@);
    unit_field.append(units);
    buffer.clear();
    let fields = vec![
        Field::Number(kind, 10),
        Field::Number(0, 5),
        Field::Number(0, 5),
        Field::Number(0, 5),
        Field::Text(" "),
        Field::Left(label, 19),
        Field::Left(unit_field.as_str(), width),
    ];
    buffer.write_fmt(fields.as_slice());
    proof {
        reveal_with_fuel(fields_text, 8);
        assert(buffer@ =~= axis_record(kind as nat, label@, units@, width as nat));
    }
}

/// Writes the seven records that identify a dataset.
fn write_identity_records(
    block: &mut Vec<u8>,
    buffer: &mut LineBuffer,
    type_line: &str,
    track_name: &str,
)
    ensures
        final(block)@ == old(block)@ + identity_records(type_line@, track_name@),
{
    let ghost start = block@;
    write_text_line(block, buffer, UFF_SEPARATOR);
    write_text_line(block, buffer, type_line);
    write_text_line(block, buffer, "");
    fill_point_label(buffer, track_name);
    buffer.write_line(block);
    write_text_line(block, buffer, "");
    write_text_line(block, buffer, "NONE");
    write_text_line(block, buffer, "NONE");
    proof {
        reveal_strlit("");
        assert(""@ == Seq::<char>::empty());
        assert(block@ == start + identity_records(type_line@, track_name@));
    }
}

/// Writes the six records of characteristics.
fn write_characteristic_records(
    block: &mut Vec<u8>,
    buffer: &mut LineBuffer,
    ord_type: u128,
    count: u128,
    track_name: &str,
    units: &str,
    time_step: &str,
) -> (r: Result<(), UffError>)
    ensures
        readable(ZERO_TEXT@) && readable(time_step@) ==> r is Ok && final(block)@ == old(block)@
            + characteristic_records(
            ord_type as nat,
            count as nat,
            track_name@,
            units@,
            time_step@,
        ),
        !(readable(ZERO_TEXT@) && readable(time_step@)) ==> r == Err::<(), UffError>(
            UffError::Format,
        ),
{
    let ghost start = block@;
    fill_record6(buffer, track_name);
    buffer.write_line(block);
    match fill_record7(buffer, ord_type, count, time_step) {
        Err(e) => {
            return Err(e);
        },
        Ok(()) => {},
    }
    buffer.write_line(block);
    fill_axis_record(buffer, 17, "Time", "s", 35);
    buffer.write_line(block);
    let label = truncate_to_width(track_name, 19);
    let unit = truncate_to_width(units, 33);
    fill_axis_record(buffer, 8, label.as_str(), unit.as_str(), 35);
    buffer.write_line(block);
    fill_axis_record(buffer, 0, "NONE", "NONE", 35);
    buffer.write_line(block);
    buffer.write_line(block);
    assert(block@ == start + characteristic_records(
        ord_type as nat,
        count as nat,
        track_name@,
        units@,
        time_step@,
    ));
    Ok(())
}

/// Writes the records before the data.
fn write_leading_records(
    block: &mut Vec<u8>,
    buffer: &mut LineBuffer,
    type_line: &str,
    ord_type: u128,
    count: u128,
    track_name: &str,
    units: &str,
    time_step: &str,
) -> (r: Result<(), UffError>)
    ensures
        readable(ZERO_TEXT@) && readable(time_step@) ==> r is Ok && final(block)@ == old(block)@
            + leading_records(
            type_line@,
            ord_type as nat,
            count as nat,
            track_name@,
            units@,
            time_step@,
        ),
        !(readable(ZERO_TEXT@) && readable(time_step@)) ==> r == Err::<(), UffError>(
            UffError::Format,
        ),
{
    write_identity_records(block, buffer, type_line, track_name);
    let r = write_characteristic_records(
        block,
        buffer,
        ord_type,
        count,
        track_name,
        units,
        time_step,
    );
    if r.is_ok() {
        assert(block@ == old(block)@ + leading_records(
            type_line@,
            ord_type as nat,
            count as nat,
            track_name@,
            units@,
            time_step@,
        ));
    }
    r
}

/// Puts into `buffer` the data record of `values`, whatever it held before.
pub fn format_data_line(buffer: &mut LineBuffer, values: &[String]) -> (r: Result<(), UffError>)
    ensures
        all_readable(texts_of(values@)) ==> r is Ok && final(buffer)@ == data_line(
            texts_of(values@),
        ),
        !all_readable(texts_of(values@)) ==> r == Err::<(), UffError>(UffError::Format),
{
    buffer.clear();
    buffer.ensure_minimum_capacity(RECORD_WIDTH);
    let ghost texts = texts_of(values@);
    let mut i: usize = 0;
    while i < values.len()
        invariant
            i <= values.len(),
            texts == texts_of(values@),
            all_readable(texts.take(i as int)),
            buffer@ == data_line(texts.take(i as int)),
        decreases values.len() - i,
    {
        assert(texts.take(i as int + 1).drop_last() == texts.take(i as int));
        assert(texts.take(i as int + 1).last() == values@[i as int]@);
        match write_scientific(buffer, values[i].as_str(), DATA_FIELD) {
            Err(e) => {
                assert(!readable(texts[i as int]));
                return Err(e);
            },
            Ok(()) => {},
        }
        assert forall|k: int| 0 <= k < i + 1 implies readable(
            #[trigger] texts.take(i as int + 1)[k],
        ) by {
            if k < i {
                assert(texts.take(i as int + 1)[k] == texts.take(i as int)[k]);
            }
        }
        i += 1;
    }
    assert(texts.take(values.len() as int) == texts);
    Ok(())
}

/// The data records of the first `end` samples are those of the first `i`
/// and one record more, where `i` is a multiple of four and `end` the next
/// multiple or the end.
proof fn lemma_data_section_step(texts: Seq<Seq<char>>, i: int, end: int)
    requires
        0 <= i < end <= texts.len(),
        i % 4 == 0,
        end - i <= 4,
        end - i == 4 || end == texts.len(),
    ensures
        data_section(texts.take(end)) == data_section(texts.take(i)) + line_bytes(
            data_line(texts.subrange(i, end)),
        ),
{
    let done = texts.take(end);
    assert(last_record_len(done.len()) == end - i);
    assert(done.take(i) == texts.take(i));
    assert(done.skip(i) == texts.subrange(i, end));
}

/// Readable texts up to `i` and from `i` to `end` are readable texts up to
/// `end`.
proof fn lemma_readable_extend(texts: Seq<Seq<char>>, i: int, end: int)
    requires
        0 <= i <= end <= texts.len(),
        all_readable(texts.take(i)),
        all_readable(texts.subrange(i, end)),
    ensures
        all_readable(texts.take(end)),
{
    let done = texts.take(end);
    assert forall|k: int| 0 <= k < done.len() implies readable(#[trigger] done[k]) by {
        if k < i {
            assert(done[k] == texts.take(i)[k]);
        } else {
            assert(done[k] == texts.subrange(i, end)[k - i]);
        }
    }
}

/// A part that is not all readable makes the whole not all readable.
proof fn lemma_unreadable_part(texts: Seq<Seq<char>>, i: int, end: int)
    requires
        0 <= i <= end <= texts.len(),
        !all_readable(texts.subrange(i, end)),
    ensures
        !all_readable(texts),
{
    let piece = texts.subrange(i, end);
    let k = choose|k: int| 0 <= k < piece.len() && !readable(#[trigger] piece[k]);
    assert(!readable(texts[i + k]));
}

/// The texts of a part are the part of the texts.
proof fn lemma_texts_of_subrange(strings: Seq<String>, i: int, end: int)
    requires
        0 <= i <= end <= strings.len(),
    ensures
        texts_of(strings.subrange(i, end)) == texts_of(strings).subrange(i, end),
{
    assert(texts_of(strings.subrange(i, end)) =~= texts_of(strings).subrange(i, end));
}

/// Writes the data record of `samples[from..to]` to `block`.
fn write_data_record(
    block: &mut Vec<u8>,
    buffer: &mut LineBuffer,
    samples: &Vec<String>,
    from: usize,
    to: usize,
) -> (r: Result<(), UffError>)
    requires
        from <= to <= samples@.len(),
    ensures
        all_readable(texts_of(samples@).subrange(from as int, to as int)) ==> r is Ok
            && final(block)@ == old(block)@ + line_bytes(
            data_line(texts_of(samples@).subrange(from as int, to as int)),
        ),
        !all_readable(texts_of(samples@).subrange(from as int, to as int)) ==> r == Err::<
            (),
            UffError,
        >(UffError::Format),
{
    let chunk = vstd::slice::slice_subrange(samples.as_slice(), from, to);
    proof {
        lemma_texts_of_subrange(samples@, from as int, to as int);
    }
    match format_data_line(buffer, chunk) {
        Err(e) => {
            return Err(e);
        },
        Ok(()) => {},
    }
    buffer.write_line(block);
    Ok(())
}

/// Writes the data records of `samples` to `block`.
fn write_data_section(block: &mut Vec<u8>, buffer: &mut LineBuffer, samples: &Vec<String>) -> (r:
    Result<(), UffError>)
    ensures
        all_readable(texts_of(samples@)) ==> r is Ok && final(block)@ == old(block)@
            + data_section(texts_of(samples@)),
        !all_readable(texts_of(samples@)) ==> r == Err::<(), UffError>(UffError::Format),
{
    let ghost texts = texts_of(samples@);
    let ghost start = block@;
    let total = samples.len();
    let mut i: usize = 0;
    assert(block@ == start + data_section(texts.take(0)));
    while i < total
        invariant
            i <= total,
            total == samples@.len(),
            total == texts.len(),
            texts == texts_of(samples@),
            i % 4 == 0 || i == total,
            all_readable(texts.take(i as int)),
            block@ == start + data_section(texts.take(i as int)),
        decreases total - i,
    {
        let end = if total - i < SAMPLES_PER_RECORD { total } else { i + SAMPLES_PER_RECORD };
        let ghost before = block@;
        match write_data_record(block, buffer, samples, i, end) {
            Err(e) => {
                proof {
                    lemma_unreadable_part(texts, i as int, end as int);
                }
                return Err(e);
            },
            Ok(()) => {},
        }
        proof {
            lemma_data_section_step(texts, i as int, end as int);
            lemma_readable_extend(texts, i as int, end as int);
            assert(block@ == start + (data_section(texts.take(i as int)) + line_bytes(
                data_line(texts.subrange(i as int, end as int)),
            )));
        }
        i = end;
    }
    assert(texts.take(total as int) == texts);
    Ok(())
}

/// Writes one channel as an ASCII dataset. `text` holds the channel's
/// numbers as text; `track_name` labels the dataset. On an error nothing is
/// written.
pub fn write_uff58_impl(
    writer: &mut Vec<u8>,
    data: &ChannelData,
    text: &ChannelText,
    track_name: &str,
) -> (r: Result<(), UffError>)
    ensures
        match uff58_ascii(
            track_name@,
            data.units@,
            data.time_series@.len(),
            text.time_step@,
            texts_of(text.samples@),
        ) {
            Ok(bytes) => r is Ok && final(writer)@ == old(writer)@ + bytes,
            Err(e) => r == Err::<(), UffError>(e) && final(writer)@ == old(writer)@,
        },
{
    if text.samples.len() != data.time_series.len() {
        return Err(UffError::SampleTextCount);
    }
    let mut block: Vec<u8> = Vec::new();
    let mut buffer = LineBuffer::with_capacity(256);
    match write_leading_records(
        &mut block,
        &mut buffer,
        "    58",
        4,
        data.time_series.len() as u128,
        track_name,
        data.units.as_str(),
        text.time_step.as_str(),
    ) {
        Err(e) => {
            return Err(e);
        },
        Ok(()) => {},
    }
    match write_data_section(&mut block, &mut buffer, &text.samples) {
        Err(e) => {
            return Err(e);
        },
        Ok(()) => {},
    }
    write_text_line(&mut block, &mut buffer, UFF_SEPARATOR);
    append_bytes(writer, block.as_slice());
    Ok(())
}

/// Writes one channel as an ASCII dataset.
pub fn write_uff58(writer: &mut Vec<u8>, data: &ChannelData, text: &ChannelText, track_name: &str) -> (r:
    Result<(), UffError>)
    ensures
        match uff58_ascii(
            track_name@,
            data.units@,
            data.time_series@.len(),
            text.time_step@,
            texts_of(text.samples@),
        ) {
            Ok(bytes) => r is Ok && final(writer)@ == old(writer)@ + bytes,
            Err(e) => r == Err::<(), UffError>(e) && final(writer)@ == old(writer)@,
        },
{
    write_uff58_impl(writer, data, text, track_name)
}

/// The layouts of a dataset.
#[derive(Clone, Copy, Debug)]
pub enum Uff58Format {
    /// Text records throughout.
    Ascii,
    /// Text records before a payload of raw single-precision numbers.
    Binary58b,
}

/// Writes one channel as an ASCII dataset.
pub fn write_uff58_ascii(
    writer: &mut Vec<u8>,
    data: &ChannelData,
    text: &ChannelText,
    track_name: &str,
) -> (r: Result<(), UffError>)
    ensures
        match uff58_ascii(
            track_name@,
            data.units@,
            data.time_series@.len(),
            text.time_step@,
            texts_of(text.samples@),
        ) {
            Ok(bytes) => r is Ok && final(writer)@ == old(writer)@ + bytes,
            Err(e) => r == Err::<(), UffError>(e) && final(writer)@ == old(writer)@,
        },
{
    write_uff58_impl(writer, data, text, track_name)
}

/// The order in which the bytes of a number are stored.
#[derive(Clone, Copy, Debug, PartialEq, Eq, Structural)]
pub enum ByteOrder {
    /// Least significant byte first.
    LittleEndian,
    /// Most significant byte first.
    BigEndian,
}

/// The code by which a type record names a byte order.
pub open spec fn byte_order_code(order: ByteOrder) -> nat {
    match order {
        ByteOrder::LittleEndian => 1,
        ByteOrder::BigEndian => 2,
    }
}

/// The type record of a binary dataset: the tag, the byte order, the code of
/// IEEE floating point, the count of text records before the payload, the
/// payload's bytes, and four fields that are not used.
pub open spec fn type_line_58b(order: ByteOrder, count: nat) -> Seq<char> {
    "    58b"@ + pad_left(decimal(byte_order_code(order)), 6) + pad_left(decimal(2), 6) + pad_left(
        decimal(11),
        12,
    ) + pad_left(decimal(4 * count), 12) + pad_left(decimal(0), 6) + pad_left(decimal(0), 6)
        + pad_left(decimal(0), 12) + pad_left(decimal(0), 12)
}

/// The four bytes of a 32-bit pattern in the given order.
pub open spec fn sample_bytes(order: ByteOrder, bits: u32) -> Seq<u8> {
    let b0 = (bits % 256) as u8;
    let b1 = (bits / 256 % 256) as u8;
    let b2 = (bits / 65536 % 256) as u8;
    let b3 = (bits / 16777216) as u8;
    match order {
        ByteOrder::LittleEndian => seq![b0, b1, b2, b3],
        ByteOrder::BigEndian => seq![b3, b2, b1, b0],
    }
}

/// The payload of a binary dataset: the samples' bytes, one after another.
pub open spec fn payload(order: ByteOrder, samples: Seq<u32>) -> Seq<u8>
    decreases samples.len(),
{
    if samples.len() == 0 {
        Seq::<u8>::empty()
    } else {
        payload(order, samples.drop_last()) + sample_bytes(order, samples.last())
    }
}

/// One binary dataset: the leading records with the binary type record and
/// ordinate type 2 (single precision), the payload, the closing separator.
/// An error where the time step's text cannot be read.
pub open spec fn uff58_binary(
    order: ByteOrder,
    name: Seq<char>,
    units: Seq<char>,
    samples: Seq<u32>,
    time_step: Seq<char>,
) -> Result<Seq<u8>, UffError> {
    if !(readable(ZERO_TEXT@) && readable(time_step)) {
        Err(UffError::Format)
    } else {
        Ok(
            leading_records(
                type_line_58b(order, samples.len()),
                2,
                samples.len(),
                name,
                units,
                time_step,
            ) + payload(order, samples) + line_bytes(UFF_SEPARATOR@),
        )
    }
}

/// The type record of a binary dataset of `count` samples.
fn binary_type_line(order: ByteOrder, count: usize) -> (line: String)
    ensures
        line@ == type_line_58b(order, count as nat),
{
    let code: u128 = match order {
        ByteOrder::LittleEndian => 1,
        ByteOrder::BigEndian => 2,
    };
    let mut line = String::new();
    line.append("    58b");
    assert(line@ == "    58b"@);
    push_decimal_right(&mut line, code, 6);
    push_decimal_right(&mut line, 2, 6);
    push_decimal_right(&mut line, 11, 12);
    push_decimal_right(&mut line, 4 * (count as u128), 12);
    push_decimal_right(&mut line, 0, 6);
    push_decimal_right(&mut line, 0, 6);
    push_decimal_right(&mut line, 0, 12);
    push_decimal_right(&mut line, 0, 12);
    line
}

/// Writes the payload of `samples` to `block`.
fn write_payload(block: &mut Vec<u8>, order: ByteOrder, samples: &Vec<u32>)
    ensures
        final(block)@ == old(block)@ + payload(order, samples@),
{
    let mut i: usize = 0;
    assert(block@ == old(block)@ + payload(order, samples@.take(0)));
    while i < samples.len()
        invariant
            i <= samples.len(),
            block@ == old(block)@ + payload(order, samples@.take(i as int)),
        decreases samples.len() - i,
    {
        let bits: u32 = samples[i];
        let b0: u8 = (bits % 256) as u8;
        let b1: u8 = (bits / 256 % 256) as u8;
        let b2: u8 = (bits / 65536 % 256) as u8;
        let b3: u8 = (bits / 16777216) as u8;
        let ghost before = block@;
        match order {
            ByteOrder::LittleEndian => {
                block.push(b0);
                block.push(b1);
                block.push(b2);
                block.push(b3);
            },
            ByteOrder::BigEndian => {
                block.push(b3);
                block.push(b2);
                block.push(b1);
                block.push(b0);
            },
        }
        assert(block@ == before + sample_bytes(order, bits));
        assert(samples@.take(i as int + 1).drop_last() == samples@.take(i as int));
        i += 1;
    }
    assert(samples@.take(samples.len() as int) == samples@);
}

/// Writes one channel as a binary dataset whose payload is in the given byte
/// order. Of `text` only the time step is used. On an error nothing is
/// written.
pub fn write_uff58b_ordered(
    writer: &mut Vec<u8>,
    data: &ChannelData,
    text: &ChannelText,
    track_name: &str,
    order: ByteOrder,
) -> (r: Result<(), UffError>)
    ensures
        match uff58_binary(order, track_name@, data.units@, data.time_series@, text.time_step@) {
            Ok(bytes) => r is Ok && final(writer)@ == old(writer)@ + bytes,
            Err(e) => r == Err::<(), UffError>(e) && final(writer)@ == old(writer)@,
        },
{
    let mut block: Vec<u8> = Vec::new();
    let mut buffer = LineBuffer::with_capacity(256);
    let type_line = binary_type_line(order, data.time_series.len());
    match write_leading_records(
        &mut block,
        &mut buffer,
        type_line.as_str(),
        2,
        data.time_series.len() as u128,
        track_name,
        data.units.as_str(),
        text.time_step.as_str(),
    ) {
        Err(e) => {
            return Err(e);
        },
        Ok(()) => {},
    }
    write_payload(&mut block, order, &data.time_series);
    write_text_line(&mut block, &mut buffer, UFF_SEPARATOR);
    append_bytes(writer, block.as_slice());
    Ok(())
}

/// The bytes of a 16-bit number as this machine stores it.
///
/// Trusted: `u16::to_ne_bytes` of the standard library. What it returns
/// depends on the machine, so nothing is claimed of it.
#[verifier::external_body]
fn native_bytes(x: u16) -> [u8; 2] {
    x.to_ne_bytes()
}

/// The byte order of this machine.
pub fn native_byte_order() -> ByteOrder {
    let bytes = native_bytes(1);
    if bytes[0] == 1 {
        ByteOrder::LittleEndian
    } else {
        ByteOrder::BigEndian
    }
}

/// Whether `after` is `before` with the binary dataset in the given byte
/// order behind it.
pub open spec fn binary_appended(
    before: Seq<u8>,
    after: Seq<u8>,
    order: ByteOrder,
    name: Seq<char>,
    units: Seq<char>,
    samples: Seq<u32>,
    time_step: Seq<char>,
) -> bool {
    uff58_binary(order, name, units, samples, time_step) matches Ok(bytes) && after == before
        + bytes
}

/// Writes one channel as a binary dataset in this machine's byte order,
/// which the type record names. Of `text` only the time step is used. On an
/// error nothing is written.
pub fn write_uff58b(writer: &mut Vec<u8>, data: &ChannelData, text: &ChannelText, track_name: &str) -> (r:
    Result<(), UffError>)
    ensures
        readable(ZERO_TEXT@) && readable(text.time_step@) ==> r is Ok && (binary_appended(
            old(writer)@,
            final(writer)@,
            ByteOrder::LittleEndian,
            track_name@,
            data.units@,
            data.time_series@,
            text.time_step@,
        ) || binary_appended(
            old(writer)@,
            final(writer)@,
            ByteOrder::BigEndian,
            track_name@,
            data.units@,
            data.time_series@,
            text.time_step@,
        )),
        !(readable(ZERO_TEXT@) && readable(text.time_step@)) ==> r == Err::<(), UffError>(
            UffError::Format,
        ) && final(writer)@ == old(writer)@,
{
    let order = native_byte_order();
    write_uff58b_ordered(writer, data, text, track_name, order)
}

/// Writes one channel in the layout `fmt`; the binary layout in this
/// machine's byte order.
pub fn write_uff58_with_format(
    writer: &mut Vec<u8>,
    data: &ChannelData,
    text: &ChannelText,
    track_name: &str,
    fmt: Uff58Format,
) -> (r: Result<(), UffError>)
    ensures
        fmt is Ascii ==> match uff58_ascii(
            track_name@,
            data.units@,
            data.time_series@.len(),
            text.time_step@,
            texts_of(text.samples@),
        ) {
            Ok(bytes) => r is Ok && final(writer)@ == old(writer)@ + bytes,
            Err(e) => r == Err::<(), UffError>(e) && final(writer)@ == old(writer)@,
        },
        fmt is Binary58b && readable(ZERO_TEXT@) && readable(text.time_step@) ==> r is Ok && (
        binary_appended(
            old(writer)@,
            final(writer)@,
            ByteOrder::LittleEndian,
            track_name@,
            data.units@,
            data.time_series@,
            text.time_step@,
        ) || binary_appended(
            old(writer)@,
            final(writer)@,
            ByteOrder::BigEndian,
            track_name@,
            data.units@,
            data.time_series@,
            text.time_step@,
        )),
        fmt is Binary58b && !(readable(ZERO_TEXT@) && readable(text.time_step@)) ==> r == Err::<
            (),
            UffError,
        >(UffError::Format) && final(writer)@ == old(writer)@,
{
    match fmt {
        Uff58Format::Ascii => write_uff58_ascii(writer, data, text, track_name),
        Uff58Format::Binary58b => write_uff58b(writer, data, text, track_name),
    }
}

// ---------------------------------------------------------------------------
// The width of a field
// ---------------------------------------------------------------------------

/// The UTF-8 form of two texts, one behind the other, is the UTF-8 form of
/// the first and then that of the second.
pub proof fn lemma_encode_concat(a: Seq<char>, b: Seq<char>)
    ensures
        encode_utf8(a + b) == encode_utf8(a) + encode_utf8(b),
    decreases a.len(),
{
    if a.len() == 0 {
        assert(a + b == b);
        assert(encode_utf8(a) + encode_utf8(b) == encode_utf8(b));
    } else {
        assert((a + b).drop_first() == a.drop_first() + b);
        lemma_encode_concat(a.drop_first(), b);
        assert(encode_utf8(a + b) == encode_scalar((a + b)[0] as u32) + (encode_utf8(
            a.drop_first(),
        ) + encode_utf8(b)));
    }
}

/// Reading keeps the exponent within its limit.
pub proof fn lemma_feed_keeps_limit(st: ScientificState, text: Seq<char>)
    requires
        st.exponent_value <= EXPONENT_LIMIT,
    ensures
        scientific_feed(st, text) matches Some(end) ==> end.exponent_value <= EXPONENT_LIMIT,
    decreases text.len(),
{
    if text.len() > 0 {
        match scientific_step(st, text[0]) {
            Some(next) => {
                lemma_feed_keeps_limit(next, text.drop_first());
            },
            None => {},
        }
    }
}

/// A field has as many characters as the width asks for, or as many as the
/// number needs where that is more: it is padded on the left, never cut.
pub proof fn lemma_field_width(text: Seq<char>, width: nat)
    requires
        scientific_field(text, width) is Some,
    ensures
        ({
            let body = scientific_body(scientific_feed(scientific_start(), text).unwrap());
            let field = scientific_field(text, width).unwrap();
            &&& field.len() == if width > body.len() {
                width
            } else {
                body.len()
            }
            &&& field.skip(field.len() - body.len()) == body
            &&& forall|i: int| 0 <= i < field.len() - body.len() ==> field[i] == ' '
        }),
{
    let body = scientific_body(scientific_feed(scientific_start(), text).unwrap());
    let field = scientific_field(text, width).unwrap();
    if width > body.len() {
        assert(field == spaces((width - body.len()) as nat) + body);
        assert(field.skip(field.len() - body.len()) =~= body);
    } else {
        assert(field.skip(0) =~= body);
    }
}

// ---------------------------------------------------------------------------
// What a scientific text is
// ---------------------------------------------------------------------------

/// Whether `c` marks the exponent of a number.
pub open spec fn is_exponent_marker(c: char) -> bool {
    c == 'e' || c == 'E'
}

/// A number in scientific notation: the mantissa, the marker of the
/// exponent, the exponent's sign where it has one, the exponent's digits.
pub open spec fn scientific_text(
    mantissa: Seq<char>,
    marker: char,
    sign: Option<char>,
    digits: Seq<char>,
) -> Seq<char> {
    mantissa.push(marker) + (match sign {
        Some(c) => seq![c],
        None => Seq::<char>::empty(),
    }) + digits
}

/// Reading two texts, one behind the other, is reading the first and then
/// the second.
pub proof fn lemma_feed_concat(st: ScientificState, a: Seq<char>, b: Seq<char>)
    ensures
        scientific_feed(st, a + b) == (match scientific_feed(st, a) {
            Some(mid) => scientific_feed(mid, b),
            None => None,
        }),
    decreases a.len(),
{
    if a.len() == 0 {
        assert(a + b == b);
    } else {
        assert((a + b).drop_first() == a.drop_first() + b);
        match scientific_step(st, a[0]) {
            Some(next) => {
                lemma_feed_concat(next, a.drop_first(), b);
            },
            None => {},
        }
    }
}

/// Reading one character is one step.
pub proof fn lemma_feed_one(st: ScientificState, c: char)
    ensures
        scientific_feed(st, seq![c]) == scientific_step(st, c),
{
    let text = seq![c];
    assert(text.drop_first() =~= Seq::<char>::empty());
    match scientific_step(st, c) {
        Some(next) => {
            assert(scientific_feed(next, text.drop_first()) == Some(next));
        },
        None => {},
    }
}

/// Before the marker, characters that are no marker go to the mantissa, as
/// long as it has room.
pub proof fn lemma_feed_mantissa(st: ScientificState, mantissa: Seq<char>)
    requires
        !st.after_exponent_marker,
        forall|i: int| 0 <= i < mantissa.len() ==> !is_exponent_marker(#[trigger] mantissa[i]),
        encode_utf8(st.mantissa + mantissa).len() <= MANTISSA_CAPACITY,
    ensures
        scientific_feed(st, mantissa) == Some(
            ScientificState { mantissa: st.mantissa + mantissa, ..st },
        ),
    decreases mantissa.len(),
{
    if mantissa.len() == 0 {
        assert(st.mantissa + mantissa == st.mantissa);
    } else {
        let front = mantissa.drop_last();
        let last = mantissa.last();
        assert(mantissa == front + seq![last]);
        assert(st.mantissa + mantissa == (st.mantissa + front) + seq![last]);
        lemma_encode_concat(st.mantissa + front, seq![last]);
        assert forall|i: int| 0 <= i < front.len() implies !is_exponent_marker(
            #[trigger] front[i],
        ) by {
            assert(front[i] == mantissa[i]);
        }
        lemma_feed_mantissa(st, front);
        lemma_feed_concat(st, front, seq![last]);
        let mid = ScientificState { mantissa: st.mantissa + front, ..st };
        lemma_feed_one(mid, last);
        assert(mid.mantissa.push(last) == st.mantissa + mantissa);
        assert(!is_exponent_marker(mantissa[mantissa.len() - 1]));
    }
}

/// The digits of a number are no less than its first digits.
pub proof fn lemma_digits_value_grows(digits: Seq<char>)
    requires
        digits.len() > 0,
    ensures
        digits_value(digits.drop_last()) <= digits_value(digits),
{
}

/// Behind the marker, digits make the exponent, as long as it stays within
/// its limit.
pub proof fn lemma_feed_digits(st: ScientificState, digits: Seq<char>)
    requires
        st.after_exponent_marker,
        st.exponent_value == 0,
        digits.len() > 0,
        all_digits(digits),
        digits_value(digits) <= EXPONENT_LIMIT,
    ensures
        scientific_feed(st, digits) == Some(
            ScientificState {
                exponent_value: digits_value(digits),
                exponent_sign_consumed: true,
                ..st
            },
        ),
    decreases digits.len(),
{
    let front = digits.drop_last();
    let last = digits.last();
    assert(digits == front + seq![last]);
    assert(is_digit(digits[digits.len() - 1]));
    if front.len() == 0 {
        assert(digits =~= seq![last]);
        lemma_feed_one(st, last);
        assert(digits_value(front) == 0);
    } else {
        assert forall|i: int| 0 <= i < front.len() implies is_digit(#[trigger] front[i]) by {
            assert(front[i] == digits[i]);
        }
        lemma_digits_value_grows(digits);
        lemma_feed_digits(st, front);
        lemma_feed_concat(st, front, seq![last]);
        let mid = ScientificState {
            exponent_value: digits_value(front),
            exponent_sign_consumed: true,
            ..st
        };
        lemma_feed_one(mid, last);
    }
}

/// What the reader makes of a number in scientific notation: the mantissa
/// with its marker, the number that the exponent's digits write, and
/// whether the exponent's sign is a minus. This holds where the mantissa,
/// marker included, takes no more than its capacity and the exponent is
/// within its limit.
pub proof fn lemma_scientific_reading(
    mantissa: Seq<char>,
    marker: char,
    sign: Option<char>,
    digits: Seq<char>,
)
    requires
        forall|i: int| 0 <= i < mantissa.len() ==> !is_exponent_marker(#[trigger] mantissa[i]),
        is_exponent_marker(marker),
        encode_utf8(mantissa.push(marker)).len() <= MANTISSA_CAPACITY,
        sign matches Some(c) ==> c == '+' || c == '-',
        digits.len() > 0,
        all_digits(digits),
        digits_value(digits) <= EXPONENT_LIMIT,
    ensures
        scientific_feed(scientific_start(), scientific_text(mantissa, marker, sign, digits))
            == Some(
            ScientificState {
                mantissa: mantissa.push(marker),
                exponent_value: digits_value(digits),
                exponent_negative: sign == Some('-'),
                after_exponent_marker: true,
                exponent_sign_consumed: true,
            },
        ),
{
    let start = scientific_start();
    let head = mantissa.push(marker);
    let sign_text = match sign {
        Some(c) => seq![c],
        None => Seq::<char>::empty(),
    };
    assert(head == mantissa + seq![marker]);
    assert(start.mantissa + mantissa == mantissa);
    lemma_encode_concat(mantissa, seq![marker]);
    lemma_feed_mantissa(start, mantissa);
    let read_mantissa = ScientificState { mantissa: mantissa, ..start };
    lemma_feed_concat(start, mantissa, seq![marker]);
    lemma_feed_one(read_mantissa, marker);
    let marked = ScientificState {
        mantissa: head,
        after_exponent_marker: true,
        ..start
    };
    assert(scientific_feed(start, head) == Some(marked));
    lemma_feed_concat(start, head, sign_text);
    let signed = match sign {
        Some(c) => ScientificState {
            exponent_negative: c == '-',
            exponent_sign_consumed: true,
            ..marked
        },
        None => marked,
    };
    match sign {
        Some(c) => {
            lemma_feed_one(marked, c);
        },
        None => {
            assert(head + sign_text == head);
        },
    }
    assert(scientific_feed(start, head + sign_text) == Some(signed));
    lemma_feed_concat(start, head + sign_text, digits);
    lemma_feed_digits(signed, digits);
}

/// The field of a number in scientific notation: its mantissa and marker,
/// the sign of its exponent (a minus only for a negative exponent other
/// than zero), and the exponent in two digits, or three from 100 on; with
/// spaces before it up to `width` characters. Where the number needs no
/// more than `width` characters, the field has exactly `width`.
pub proof fn lemma_field_of_scientific_text(
    mantissa: Seq<char>,
    marker: char,
    sign: Option<char>,
    digits: Seq<char>,
    width: nat,
)
    requires
        forall|i: int| 0 <= i < mantissa.len() ==> !is_exponent_marker(#[trigger] mantissa[i]),
        is_exponent_marker(marker),
        encode_utf8(mantissa.push(marker)).len() <= MANTISSA_CAPACITY,
        sign matches Some(c) ==> c == '+' || c == '-',
        digits.len() > 0,
        all_digits(digits),
        digits_value(digits) <= EXPONENT_LIMIT,
    ensures
        ({
            let value = digits_value(digits);
            let shown = if sign == Some('-') && value > 0 {
                '-'
            } else {
                '+'
            };
            let body = mantissa.push(marker).push(shown) + exponent_digits(value);
            let field = scientific_field(scientific_text(mantissa, marker, sign, digits), width);
            &&& field == Some(pad_left(body, width))
            &&& body.len() == mantissa.len() + 2 + (if value >= 100 {
                3int
            } else {
                2int
            })
            &&& body.len() <= width ==> field.unwrap().len() == width
        }),
{
    lemma_scientific_reading(mantissa, marker, sign, digits);
}

} // verus!
