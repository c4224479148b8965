//! The nine-line text header of an `IBRraw.xdr` image file.
//!
//! The grammar is stated over byte sequences: [`split_header`] describes the
//! line structure, [`interpret`] turns the raw field bytes into numbers and
//! text, and [`parse_header_spec`] is their composition. The executable
//! [`parse_header`] is proved to compute exactly that function.
use vstd::prelude::*;
use vstd::string::*;
use vstd::utf8::*;

verus! {

/// What the header declares about the image that follows it.
#[derive(Debug)]
pub struct Header {
    pub file_name: String,
    pub dim: u8,
    pub size: (u32, u32),
    pub buffer_channels: u8,
    pub primtype: String,
    pub buffer_type: String,
}

/// The mathematical content of a [`Header`].
pub struct HeaderFields {
    pub file_name: Seq<char>,
    pub dim: u8,
    pub size: (u32, u32),
    pub buffer_channels: u8,
    pub primtype: Seq<char>,
    pub buffer_type: Seq<char>,
}

impl View for Header {
    type V = HeaderFields;

    open spec fn view(&self) -> HeaderFields {
        HeaderFields {
            file_name: self.file_name@,
            dim: self.dim,
            size: self.size,
            buffer_channels: self.buffer_channels,
            primtype: self.primtype@,
            buffer_type: self.buffer_type@,
        }
    }
}

/// The bytes of the seven fields as they stand in the file, before any of them
/// is read as a number or as text.
pub struct RawFields {
    pub file_name: Seq<u8>,
    pub dim: Seq<u8>,
    pub width: Seq<u8>,
    pub height: Seq<u8>,
    pub channels: Seq<u8>,
    pub primtype: Seq<u8>,
    pub buffer_type: Seq<u8>,
}

/// The line feed, which ends a line.
pub open spec fn newline() -> u8 {
    10
}

/// The space, which ends the width.
pub open spec fn space() -> u8 {
    32
}

/// The first line.
pub open spec fn magic_token() -> Seq<u8> {
    "IBRraw.xdr".spec_bytes()
}

/// What introduces the file name.
pub open spec fn file_name_key() -> Seq<u8> {
    "@@FileBaseName = ".spec_bytes()
}

/// The third line.
pub open spec fn file_id_token() -> Seq<u8> {
    "@@FileID = IBRraw".spec_bytes()
}

/// What introduces the number of dimensions.
pub open spec fn dim_key() -> Seq<u8> {
    "@@ImageDim = ".spec_bytes()
}

/// What introduces width and height, with the space before the width.
pub open spec fn size_key() -> Seq<u8> {
    "@@ImageSize = ".spec_bytes()
}

/// What introduces the number of channels.
pub open spec fn channels_key() -> Seq<u8> {
    "@@buffer-channels-0 = ".spec_bytes()
}

/// What introduces the name of the sample type.
pub open spec fn primtype_key() -> Seq<u8> {
    "@@buffer-primtype-0 = ".spec_bytes()
}

/// What introduces the name of the buffer type.
pub open spec fn buffer_type_key() -> Seq<u8> {
    "@@buffer-type-0 = ".spec_bytes()
}

/// The last line.
pub open spec fn end_token() -> Seq<u8> {
    "---end-of-header---".spec_bytes()
}

/// Space, tab, line feed and carriage return: what may surround a literal line.
pub open spec fn is_blank(b: u8) -> bool {
    b == 32 || b == 9 || b == 10 || b == 13
}

/// `s` without its leading blanks.
pub open spec fn trim_blank(s: Seq<u8>) -> Seq<u8>
    decreases s.len(),
{
    if s.len() > 0 && is_blank(s[0]) {
        trim_blank(s.skip(1))
    } else {
        s
    }
}

/// What follows `t` in `s`, where `s` begins with `t`.
pub open spec fn after_token(s: Seq<u8>, t: Seq<u8>) -> Option<Seq<u8>> {
    if t.is_prefix_of(s) {
        Some(s.skip(t.len() as int))
    } else {
        None
    }
}

/// What follows the literal `t` and the blanks around it.
pub open spec fn after_literal(s: Seq<u8>, t: Seq<u8>) -> Option<Seq<u8>> {
    match after_token(trim_blank(s), t) {
        Some(r) => Some(trim_blank(r)),
        None => None,
    }
}

/// The index of the first `stop` in `s`, or the length of `s` where there is none.
pub open spec fn first_index(s: Seq<u8>, stop: u8) -> int
    decreases s.len(),
{
    if s.len() == 0 || s[0] == stop {
        0
    } else {
        1 + first_index(s.skip(1), stop)
    }
}

/// The bytes before the first `stop` and the bytes after it.
pub open spec fn split_at_byte(s: Seq<u8>, stop: u8) -> Option<(Seq<u8>, Seq<u8>)> {
    let i = first_index(s, stop);
    if i < s.len() {
        Some((s.take(i), s.skip(i + 1)))
    } else {
        None
    }
}

/// A field introduced by `key`: at least one byte, ended by `stop`.
pub open spec fn keyed_field(s: Seq<u8>, key: Seq<u8>, stop: u8) -> Option<(Seq<u8>, Seq<u8>)> {
    match after_token(s, key) {
        Some(r) => match split_at_byte(r, stop) {
            Some((field, rest)) => if field.len() > 0 {
                Some((field, rest))
            } else {
                None
            },
            None => None,
        },
        None => None,
    }
}

/// The line structure of the header: nine lines in their fixed order.
pub open spec fn split_header(s: Seq<u8>) -> Option<RawFields> {
    match after_literal(s, magic_token()) {
        None => None,
        Some(s1) => match keyed_field(s1, file_name_key(), newline()) {
            None => None,
            Some((file_name, s2)) => match after_literal(s2, file_id_token()) {
                None => None,
                Some(s3) => match keyed_field(s3, dim_key(), newline()) {
                    None => None,
                    Some((dim, s4)) => match keyed_field(s4, size_key(), space()) {
                        None => None,
                        Some((width, s5)) => match split_at_byte(s5, newline()) {
                            None => None,
                            Some((height, s6)) => match keyed_field(
                                s6,
                                channels_key(),
                                newline(),
                            ) {
                                None => None,
                                Some((channels, s7)) => match keyed_field(
                                    s7,
                                    primtype_key(),
                                    newline(),
                                ) {
                                    None => None,
                                    Some((primtype, s8)) => match keyed_field(
                                        s8,
                                        buffer_type_key(),
                                        newline(),
                                    ) {
                                        None => None,
                                        Some((buffer_type, s9)) => match after_literal(
                                            s9,
                                            end_token(),
                                        ) {
                                            None => None,
                                            Some(_) => Some(
                                                RawFields {
                                                    file_name,
                                                    dim,
                                                    width,
                                                    height,
                                                    channels,
                                                    primtype,
                                                    buffer_type,
                                                },
                                            ),
                                        },
                                    },
                                },
                            },
                        },
                    },
                },
            },
        },
    }
}

/// Whether `b` is one of the ASCII digits.
pub open spec fn is_digit(b: u8) -> bool {
    48 <= b <= 57
}

/// Whether `d` holds ASCII digits only.
pub open spec fn all_digits(d: Seq<u8>) -> bool {
    forall|i: int| 0 <= i < d.len() ==> is_digit(#[trigger] d[i])
}

/// The number that the decimal digits `d` write, most significant digit first.
pub open spec fn digits_value(d: Seq<u8>) -> nat
    decreases d.len(),
{
    if d.len() == 0 {
        0
    } else {
        digits_value(d.drop_last()) * 10 + (d.last() - 48) as nat
    }
}

/// An unsigned decimal number of at most `max`: digits only, at least one.
pub open spec fn decimal(d: Seq<u8>, max: nat) -> Option<nat> {
    if d.len() > 0 && all_digits(d) && digits_value(d) <= max {
        Some(digits_value(d))
    } else {
        None
    }
}

/// The text that the bytes `f` encode.
pub open spec fn text(f: Seq<u8>) -> Option<Seq<char>> {
    if valid_utf8(f) {
        Some(decode_utf8(f))
    } else {
        None
    }
}

/// The values of the raw fields, where every number is a decimal number that
/// fits its type and every text field is UTF-8.
pub open spec fn interpret(raw: RawFields) -> Option<HeaderFields> {
    if text(raw.file_name) is Some && decimal(raw.dim, 0xff) is Some && decimal(
        raw.width,
        0xffff_ffff,
    ) is Some && decimal(raw.height, 0xffff_ffff) is Some && decimal(raw.channels, 0xff) is Some
        && text(raw.primtype) is Some && text(raw.buffer_type) is Some {
        Some(
            HeaderFields {
                file_name: text(raw.file_name)->0,
                dim: decimal(raw.dim, 0xff)->0 as u8,
                size: (
                    decimal(raw.width, 0xffff_ffff)->0 as u32,
                    decimal(raw.height, 0xffff_ffff)->0 as u32,
                ),
                buffer_channels: decimal(raw.channels, 0xff)->0 as u8,
                primtype: text(raw.primtype)->0,
                buffer_type: text(raw.buffer_type)->0,
            },
        )
    } else {
        None
    }
}

/// The header that the bytes `s` begin with, if they begin with one.
pub open spec fn parse_header_spec(s: Seq<u8>) -> Option<HeaderFields> {
    match split_header(s) {
        Some(raw) => interpret(raw),
        None => None,
    }
}

proof fn lemma_trim_blank(s: Seq<u8>, i: int)
    requires
        0 <= i <= s.len(),
        forall|j: int| 0 <= j < i ==> is_blank(#[trigger] s[j]),
        i < s.len() ==> !is_blank(s[i]),
    ensures
        trim_blank(s) == s.skip(i),
    decreases i,
{
    if i == 0 {
        assert(s.skip(0) =~= s);
    } else {
        let t = s.skip(1);
        assert forall|j: int| 0 <= j < i - 1 implies is_blank(#[trigger] t[j]) by {
            assert(t[j] == s[j + 1]);
        }
        lemma_trim_blank(t, i - 1);
        assert(t.skip(i - 1) =~= s.skip(i));
    }
}

proof fn lemma_first_index(s: Seq<u8>, stop: u8, i: int)
    requires
        0 <= i <= s.len(),
        forall|j: int| 0 <= j < i ==> #[trigger] s[j] != stop,
        i < s.len() ==> s[i] == stop,
    ensures
        first_index(s, stop) == i,
    decreases i,
{
    if i > 0 {
        let t = s.skip(1);
        assert forall|j: int| 0 <= j < i - 1 implies #[trigger] t[j] != stop by {
            assert(t[j] == s[j + 1]);
        }
        lemma_first_index(t, stop, i - 1);
    }
}

proof fn lemma_digits_prefix(d: Seq<u8>, i: int)
    requires
        0 <= i <= d.len(),
        all_digits(d),
    ensures
        digits_value(d.take(i)) <= digits_value(d),
    decreases d.len() - i,
{
    if i == d.len() {
        assert(d.take(i) =~= d);
    } else {
        lemma_digits_prefix(d, i + 1);
        let p = d.take(i + 1);
        assert(p.drop_last() =~= d.take(i));
        assert(is_digit(d[i]));
        assert(p.last() == d[i]);
    }
}

fn skip_blank(input: &[u8], pos: usize) -> (p: usize)
    requires
        pos <= input@.len(),
    ensures
        pos <= p <= input@.len(),
        input@.skip(p as int) == trim_blank(input@.skip(pos as int)),
{
    let mut p: usize = pos;
    while p < input.len() && (input[p] == 32 || input[p] == 9 || input[p] == 10 || input[p] == 13)
        invariant
            pos <= p <= input@.len(),
            forall|j: int| pos <= j < p ==> is_blank(#[trigger] input@[j]),
        decreases input@.len() - p,
    {
        p = p + 1;
    }
    proof {
        let s = input@.skip(pos as int);
        assert forall|j: int| 0 <= j < p - pos implies is_blank(#[trigger] s[j]) by {
            assert(s[j] == input@[pos + j]);
        }
        lemma_trim_blank(s, p - pos);
        assert(s.skip(p - pos) =~= input@.skip(p as int));
    }
    p
}

fn match_token(input: &[u8], pos: usize, token: &str) -> (r: Option<usize>)
    requires
        pos <= input@.len(),
    ensures
        match r {
            Some(p) => pos <= p <= input@.len() && after_token(
                input@.skip(pos as int),
                token.spec_bytes(),
            ) == Some(input@.skip(p as int)),
            None => after_token(input@.skip(pos as int), token.spec_bytes()) is None,
        },
{
    let t = token.as_bytes();
    let ghost s = input@.skip(pos as int);
    if t.len() > input.len() - pos {
        return None;
    }
    let mut i: usize = 0;
    while i < t.len()
        invariant
            i <= t@.len(),
            pos <= input@.len() <= usize::MAX,
            t@.len() <= input@.len() - pos,
            t@ == token.spec_bytes(),
            s == input@.skip(pos as int),
            forall|j: int| 0 <= j < i ==> #[trigger] t@[j] == s[j],
        decreases t@.len() - i,
    {
        if input[pos + i] != t[i] {
            proof {
                assert(s[i as int] == input@[pos + i]);
                if t@.is_prefix_of(s) {
                    assert(s.subrange(0, t@.len() as int)[i as int] == t@[i as int]);
                }
            }
            return None;
        }
        proof {
            assert(s[i as int] == input@[pos + i]);
        }
        i = i + 1;
    }
    proof {
        assert(s.subrange(0, t@.len() as int) =~= t@);
        assert(s.skip(t@.len() as int) =~= input@.skip(pos + t@.len()));
    }
    Some(pos + t.len())
}

fn match_literal(input: &[u8], pos: usize, token: &str) -> (r: Option<usize>)
    requires
        pos <= input@.len(),
    ensures
        match r {
            Some(p) => pos <= p <= input@.len() && after_literal(
                input@.skip(pos as int),
                token.spec_bytes(),
            ) == Some(input@.skip(p as int)),
            None => after_literal(input@.skip(pos as int), token.spec_bytes()) is None,
        },
{
    let start = skip_blank(input, pos);
    match match_token(input, start, token) {
        Some(p) => Some(skip_blank(input, p)),
        None => None,
    }
}

/// The index of the first `stop` at or after `pos`.
fn find_stop(input: &[u8], pos: usize, stop: u8) -> (r: Option<usize>)
    requires
        pos <= input@.len(),
    ensures
        match r {
            Some(e) => pos <= e < input@.len() && split_at_byte(input@.skip(pos as int), stop)
                == Some((input@.subrange(pos as int, e as int), input@.skip(e + 1))),
            None => split_at_byte(input@.skip(pos as int), stop) is None,
        },
{
    let mut e: usize = pos;
    while e < input.len() && input[e] != stop
        invariant
            pos <= e <= input@.len(),
            forall|j: int| pos <= j < e ==> #[trigger] input@[j] != stop,
        decreases input@.len() - e,
    {
        e = e + 1;
    }
    proof {
        let s = input@.skip(pos as int);
        assert forall|j: int| 0 <= j < e - pos implies #[trigger] s[j] != stop by {
            assert(s[j] == input@[pos + j]);
        }
        lemma_first_index(s, stop, e - pos);
        if e < input@.len() {
            assert(s.take(e - pos) =~= input@.subrange(pos as int, e as int));
            assert(s.skip(e - pos + 1) =~= input@.skip(e + 1));
        }
    }
    if e < input.len() {
        Some(e)
    } else {
        None
    }
}

/// The bounds of the field that `key` introduces at `pos`, and where the
/// bytes after its `stop` begin.
fn match_field(input: &[u8], pos: usize, token: &str, stop: u8) -> (r: Option<(usize, usize)>)
    requires
        pos <= input@.len(),
    ensures
        match r {
            Some((a, e)) => pos <= a < e < input@.len() && keyed_field(
                input@.skip(pos as int),
                token.spec_bytes(),
                stop,
            ) == Some((input@.subrange(a as int, e as int), input@.skip(e + 1))),
            None => keyed_field(input@.skip(pos as int), token.spec_bytes(), stop) is None,
        },
{
    match match_token(input, pos, token) {
        Some(a) => match find_stop(input, a, stop) {
            Some(e) => if a < e {
                Some((a, e))
            } else {
                None
            },
            None => None,
        },
        None => None,
    }
}

/// Reads `input[start..end]` as an unsigned decimal number of at most `max`.
fn read_decimal(input: &[u8], start: usize, end: usize, max: u32) -> (r: Option<u32>)
    requires
        start <= end <= input@.len(),
    ensures
        match r {
            Some(v) => decimal(input@.subrange(start as int, end as int), max as nat) == Some(
                v as nat,
            ),
            None => decimal(input@.subrange(start as int, end as int), max as nat) is None,
        },
{
    let ghost d = input@.subrange(start as int, end as int);
    if start == end {
        return None;
    }
    let mut acc: u64 = 0;
    let mut i: usize = start;
    while i < end
        invariant
            start <= i <= end <= input@.len(),
            d == input@.subrange(start as int, end as int),
            forall|j: int| 0 <= j < i - start ==> is_digit(#[trigger] d[j]),
            acc == digits_value(d.take(i - start)),
            acc <= max,
        decreases end - i,
    {
        let b = input[i];
        proof {
            assert(d[i - start] == b);
        }
        if b < 48 || b > 57 {
            return None;
        }
        let next: u64 = acc * 10 + (b - 48) as u64;
        proof {
            let p = d.take(i - start + 1);
            assert(p.drop_last() =~= d.take(i - start));
            assert(p.last() == b);
            assert(next == digits_value(p));
        }
        if next > max as u64 {
            proof {
                if all_digits(d) {
                    lemma_digits_prefix(d, i - start + 1);
                }
            }
            return None;
        }
        acc = next;
        i = i + 1;
    }
    proof {
        assert(d.take(end - start) =~= d);
    }
    Some(acc as u32)
}

/// Calls `core::str::from_utf8`, which checks that the bytes are well-formed
/// UTF-8 and, where they are, hands them back as a string slice over the same
/// bytes. The contract states exactly that: success on well-formed input and
/// on no other, and a result whose encoding is the input.
#[verifier::external_body]
fn utf8_str(bytes: &[u8]) -> (r: Option<&str>)
    ensures
        r is Some <==> valid_utf8(bytes@),
        r is Some ==> r->0.spec_bytes() == bytes@,
{
    core::str::from_utf8(bytes).ok()
}

/// Reads `input[start..end]` as UTF-8 text.
fn read_text(input: &[u8], start: usize, end: usize) -> (r: Option<String>)
    requires
        start <= end <= input@.len(),
    ensures
        match r {
            Some(t) => text(input@.subrange(start as int, end as int)) == Some(t@),
            None => text(input@.subrange(start as int, end as int)) is None,
        },
{
    let field = &input[start..end];
    match utf8_str(field) {
        Some(s) => {
            proof {
                encode_utf8_decode_utf8(s@);
            }
            Some(s.to_owned())
        },
        None => None,
    }
}

/// Parses the header that `input` begins with.
///
/// Returns the header exactly where the bytes follow the grammar of
/// [`parse_header_spec`]; what stands after the closing line is not looked at.
pub fn parse_header(input: &[u8]) -> (r: Option<Header>)
    ensures
        match r {
            Some(h) => parse_header_spec(input@) == Some(h@),
            None => parse_header_spec(input@) is None,
        },
{
    let len = input.len();
    proof {
        assert(input@.skip(0) =~= input@);
    }
    let after_magic = match match_literal(input, 0, "IBRraw.xdr") {
        Some(p) => p,
        None => { return None; },
    };
    let (name_a, name_e) = match match_field(input, after_magic, "@@FileBaseName = ", 10) {
        Some(f) => f,
        None => { return None; },
    };
    let after_file_id = match match_literal(input, name_e + 1, "@@FileID = IBRraw") {
        Some(p) => p,
        None => { return None; },
    };
    let (dim_a, dim_e) = match match_field(input, after_file_id, "@@ImageDim = ", 10) {
        Some(f) => f,
        None => { return None; },
    };
    let (width_a, width_e) = match match_field(input, dim_e + 1, "@@ImageSize = ", 32) {
        Some(f) => f,
        None => { return None; },
    };
    let height_a = width_e + 1;
    let height_e = match find_stop(input, height_a, 10) {
        Some(e) => e,
        None => { return None; },
    };
    let (chan_a, chan_e) = match match_field(input, height_e + 1, "@@buffer-channels-0 = ", 10) {
        Some(f) => f,
        None => { return None; },
    };
    let (prim_a, prim_e) = match match_field(input, chan_e + 1, "@@buffer-primtype-0 = ", 10) {
        Some(f) => f,
        None => { return None; },
    };
    let (type_a, type_e) = match match_field(input, prim_e + 1, "@@buffer-type-0 = ", 10) {
        Some(f) => f,
        None => { return None; },
    };
    match match_literal(input, type_e + 1, "---end-of-header---") {
        Some(_) => {},
        None => { return None; },
    }
    let ghost raw = RawFields {
        file_name: input@.subrange(name_a as int, name_e as int),
        dim: input@.subrange(dim_a as int, dim_e as int),
        width: input@.subrange(width_a as int, width_e as int),
        height: input@.subrange(height_a as int, height_e as int),
        channels: input@.subrange(chan_a as int, chan_e as int),
        primtype: input@.subrange(prim_a as int, prim_e as int),
        buffer_type: input@.subrange(type_a as int, type_e as int),
    };
    assert(split_header(input@) == Some(raw));
    let file_name = match read_text(input, name_a, name_e) {
        Some(t) => t,
        None => { return None; },
    };
    let dim = match read_decimal(input, dim_a, dim_e, 0xff) {
        Some(v) => v,
        None => { return None; },
    };
    let width = match read_decimal(input, width_a, width_e, 0xffff_ffff) {
        Some(v) => v,
        None => { return None; },
    };
    let height = match read_decimal(input, height_a, height_e, 0xffff_ffff) {
        Some(v) => v,
        None => { return None; },
    };
    let channels = match read_decimal(input, chan_a, chan_e, 0xff) {
        Some(v) => v,
        None => { return None; },
    };
    let primtype = match read_text(input, prim_a, prim_e) {
        Some(t) => t,
        None => { return None; },
    };
    let buffer_type = match read_text(input, type_a, type_e) {
        Some(t) => t,
        None => { return None; },
    };
    Some(
        Header {
            file_name,
            dim: dim as u8,
            size: (width, height),
            buffer_channels: channels as u8,
            primtype,
            buffer_type,
        },
    )
}

/// A literal line: the token and one line feed, then `rest`.
pub open spec fn literal_line(token: Seq<u8>, rest: Seq<u8>) -> Seq<u8> {
    token + (seq![10u8] + rest)
}

/// A line that holds one field: the key, the field and `stop`, then `rest`.
pub open spec fn field_line(key: Seq<u8>, field: Seq<u8>, stop: u8, rest: Seq<u8>) -> Seq<u8> {
    key + (field + (seq![stop] + rest))
}

/// The header that is written from the given fields, one line feed after
/// each line and nothing else around the tokens, followed by `rest`.
pub open spec fn written_header(raw: RawFields, rest: Seq<u8>) -> Seq<u8> {
    literal_line(
        magic_token(),
        field_line(
            file_name_key(),
            raw.file_name,
            newline(),
            literal_line(
                file_id_token(),
                field_line(
                    dim_key(),
                    raw.dim,
                    newline(),
                    field_line(
                        size_key(),
                        raw.width,
                        space(),
                        field_line(
                            Seq::empty(),
                            raw.height,
                            newline(),
                            field_line(
                                channels_key(),
                                raw.channels,
                                newline(),
                                field_line(
                                    primtype_key(),
                                    raw.primtype,
                                    newline(),
                                    field_line(
                                        buffer_type_key(),
                                        raw.buffer_type,
                                        newline(),
                                        literal_line(end_token(), rest),
                                    ),
                                ),
                            ),
                        ),
                    ),
                ),
            ),
        ),
    )
}

/// A field that can be written and found again: it holds at least one byte
/// and not the byte that ends it.
pub open spec fn writable(field: Seq<u8>, stop: u8) -> bool {
    field.len() > 0 && !field.contains(stop)
}

/// Fields of which each can be written and found again.
pub open spec fn writable_fields(raw: RawFields) -> bool {
    &&& writable(raw.file_name, newline())
    &&& writable(raw.dim, newline())
    &&& writable(raw.width, space())
    &&& writable(raw.height, newline())
    &&& writable(raw.channels, newline())
    &&& writable(raw.primtype, newline())
    &&& writable(raw.buffer_type, newline())
}

/// The decimal digits of `n`, without leading zeros.
pub open spec fn digits_of(n: nat) -> Seq<u8>
    decreases n,
{
    if n < 10 {
        seq![(48 + n) as u8]
    } else {
        digits_of(n / 10).push((48 + n % 10) as u8)
    }
}

/// A number that is written in decimal digits is read as that number.
pub proof fn lemma_digits_round_trip(n: nat, max: nat)
    requires
        n <= max,
    ensures
        decimal(digits_of(n), max) == Some(n),
        writable(digits_of(n), newline()),
        writable(digits_of(n), space()),
    decreases n,
{
    let d = digits_of(n);
    if n < 10 {
        assert(d.drop_last() =~= Seq::<u8>::empty());
        assert(digits_value(d.drop_last()) == 0);
        assert(d.last() == 48 + n);
    } else {
        lemma_digits_round_trip(n / 10, max);
        let init = digits_of(n / 10);
        assert(d.drop_last() =~= init);
        assert(d.last() == 48 + n % 10);
        assert forall|i: int| 0 <= i < d.len() implies is_digit(#[trigger] d[i]) by {
            if i < init.len() {
                assert(d[i] == init[i]);
                assert(is_digit(init[i]));
            }
        }
    }
    assert forall|i: int| 0 <= i < d.len() implies d[i] != 10 && d[i] != 32 by {
        assert(is_digit(d[i]));
    }
}

proof fn lemma_token_shapes()
    ensures
        magic_token().len() > 0 && !is_blank(magic_token()[0]),
        file_name_key().len() > 0 && !is_blank(file_name_key()[0]),
        file_id_token().len() > 0 && !is_blank(file_id_token()[0]),
        dim_key().len() > 0 && !is_blank(dim_key()[0]),
        end_token().len() > 0 && !is_blank(end_token()[0]),
{
    broadcast use is_ascii_spec_bytes;

    reveal_strlit("IBRraw.xdr");
    reveal_strlit("@@FileBaseName = ");
    reveal_strlit("@@FileID = IBRraw");
    reveal_strlit("@@ImageDim = ");
    reveal_strlit("---end-of-header---");
    assert(is_ascii("IBRraw.xdr"));
    assert(is_ascii("@@FileBaseName = "));
    assert(is_ascii("@@FileID = IBRraw"));
    assert(is_ascii("@@ImageDim = "));
    assert(is_ascii("---end-of-header---"));
    assert("IBRraw.xdr"@[0] == 'I');
    assert("@@FileBaseName = "@[0] == '@');
    assert("@@FileID = IBRraw"@[0] == '@');
    assert("@@ImageDim = "@[0] == '@');
    assert("---end-of-header---"@[0] == '-');
}

proof fn lemma_read_literal_line(token: Seq<u8>, rest: Seq<u8>)
    requires
        token.len() > 0,
        !is_blank(token[0]),
    ensures
        after_literal(literal_line(token, rest), token) == Some(trim_blank(rest)),
        rest.len() > 0 && !is_blank(rest[0]) ==> after_literal(literal_line(token, rest), token)
            == Some(rest),
{
    let tail = seq![10u8] + rest;
    let s = token + tail;
    assert(s[0] == token[0]);
    assert(trim_blank(s) == s);
    assert(s.subrange(0, token.len() as int) =~= token);
    assert(s.skip(token.len() as int) =~= tail);
    assert(tail[0] == 10);
    assert(tail.skip(1) =~= rest);
    assert(trim_blank(tail) == trim_blank(rest));
}

proof fn lemma_read_field_line(key: Seq<u8>, field: Seq<u8>, stop: u8, rest: Seq<u8>)
    requires
        writable(field, stop),
    ensures
        keyed_field(field_line(key, field, stop, rest), key, stop) == Some((field, rest)),
        key.len() == 0 ==> split_at_byte(field_line(key, field, stop, rest), stop) == Some(
            (field, rest),
        ),
{
    let tail = field + (seq![stop] + rest);
    let s = key + tail;
    assert(s.subrange(0, key.len() as int) =~= key);
    assert(s.skip(key.len() as int) =~= tail);
    assert forall|j: int| 0 <= j < field.len() implies #[trigger] tail[j] != stop by {
        assert(tail[j] == field[j]);
        assert(field.contains(field[j]));
    }
    assert(tail[field.len() as int] == stop);
    lemma_first_index(tail, stop, field.len() as int);
    assert(tail.take(field.len() as int) =~= field);
    assert(tail.skip(field.len() as int + 1) =~= rest);
    if key.len() == 0 {
        assert(s =~= tail);
    }
}

/// A header that is written from fields is split into those fields again,
/// whatever follows it.
pub proof fn lemma_written_header_splits(raw: RawFields, rest: Seq<u8>)
    requires
        writable_fields(raw),
    ensures
        split_header(written_header(raw, rest)) == Some(raw),
{
    lemma_token_shapes();
    let l9 = literal_line(end_token(), rest);
    let l8 = field_line(buffer_type_key(), raw.buffer_type, newline(), l9);
    let l7 = field_line(primtype_key(), raw.primtype, newline(), l8);
    let l6 = field_line(channels_key(), raw.channels, newline(), l7);
    let l5b = field_line(Seq::empty(), raw.height, newline(), l6);
    let l5 = field_line(size_key(), raw.width, space(), l5b);
    let l4 = field_line(dim_key(), raw.dim, newline(), l5);
    let l3 = literal_line(file_id_token(), l4);
    let l2 = field_line(file_name_key(), raw.file_name, newline(), l3);
    let l1 = literal_line(magic_token(), l2);
    assert(l2[0] == file_name_key()[0]);
    lemma_read_literal_line(magic_token(), l2);
    lemma_read_field_line(file_name_key(), raw.file_name, newline(), l3);
    assert(l4[0] == dim_key()[0]);
    lemma_read_literal_line(file_id_token(), l4);
    lemma_read_field_line(dim_key(), raw.dim, newline(), l5);
    lemma_read_field_line(size_key(), raw.width, space(), l5b);
    lemma_read_field_line(Seq::empty(), raw.height, newline(), l6);
    lemma_read_field_line(channels_key(), raw.channels, newline(), l7);
    lemma_read_field_line(primtype_key(), raw.primtype, newline(), l8);
    lemma_read_field_line(buffer_type_key(), raw.buffer_type, newline(), l9);
    lemma_read_literal_line(end_token(), rest);
    assert(after_literal(l1, magic_token()) == Some(l2));
    assert(keyed_field(l2, file_name_key(), newline()) == Some((raw.file_name, l3)));
    assert(after_literal(l3, file_id_token()) == Some(l4));
    assert(keyed_field(l4, dim_key(), newline()) == Some((raw.dim, l5)));
    assert(keyed_field(l5, size_key(), space()) == Some((raw.width, l5b)));
    assert(split_at_byte(l5b, newline()) == Some((raw.height, l6)));
    assert(keyed_field(l6, channels_key(), newline()) == Some((raw.channels, l7)));
    assert(keyed_field(l7, primtype_key(), newline()) == Some((raw.primtype, l8)));
    assert(keyed_field(l8, buffer_type_key(), newline()) == Some((raw.buffer_type, l9)));
    assert(after_literal(l9, end_token()) is Some);
}

/// Every header that is written after the grammar is read back as it was
/// written: each number as the value of its digits, each text as the text
/// that its bytes encode.
pub proof fn lemma_header_round_trip(raw: RawFields, rest: Seq<u8>)
    requires
        writable_fields(raw),
    ensures
        parse_header_spec(written_header(raw, rest)) == interpret(raw),
{
    lemma_written_header_splits(raw, rest);
}

/// No token or key holds a line feed: each stands on one line.
pub proof fn lemma_tokens_stand_on_one_line()
    ensures
        !magic_token().contains(newline()),
        !file_name_key().contains(newline()),
        !file_id_token().contains(newline()),
        !dim_key().contains(newline()),
        !size_key().contains(newline()),
        !channels_key().contains(newline()),
        !primtype_key().contains(newline()),
        !buffer_type_key().contains(newline()),
        !end_token().contains(newline()),
{
    broadcast use is_ascii_spec_bytes;

    reveal_strlit("IBRraw.xdr");
    reveal_strlit("@@FileBaseName = ");
    reveal_strlit("@@FileID = IBRraw");
    reveal_strlit("@@ImageDim = ");
    reveal_strlit("@@ImageSize = ");
    reveal_strlit("@@buffer-channels-0 = ");
    reveal_strlit("@@buffer-primtype-0 = ");
    reveal_strlit("@@buffer-type-0 = ");
    reveal_strlit("---end-of-header---");
    assert(is_ascii("IBRraw.xdr"));
    assert(is_ascii("@@FileBaseName = "));
    assert(is_ascii("@@FileID = IBRraw"));
    assert(is_ascii("@@ImageDim = "));
    assert(is_ascii("@@ImageSize = "));
    assert(is_ascii("@@buffer-channels-0 = "));
    assert(is_ascii("@@buffer-primtype-0 = "));
    assert(is_ascii("@@buffer-type-0 = "));
    assert(is_ascii("---end-of-header---"));
}

} // verus!
