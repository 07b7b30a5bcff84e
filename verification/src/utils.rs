//! Bech32 addresses: decoding an address into its human-readable part,
//! version and identifier, and building the seed bytes a plot is made from.

use vstd::prelude::*;
use crate::text::decimal;

verus! {

/// Why a bech32 string or conversion was refused.
#[derive(Clone, Copy, Debug, PartialEq, Eq, Structural)]
pub enum Bech32Error {
    /// The string holds no `1` separator.
    MissingSeparator,
    /// The checksum does not match the rest of the data.
    InvalidChecksum,
    /// A part is too long or too short.
    InvalidLength,
    /// A character is not allowed where it stands.
    InvalidChar(char),
    /// A value does not fit the bit size it is read with.
    InvalidData(u8),
    /// The padding bits of a conversion are wrong.
    InvalidPadding,
    /// The string mixes upper and lower case.
    MixedCase,
}

#[verifier::external_type_specification]
#[verifier::external_body]
pub struct ExBech32Error(bech32::Error);

/// A bech32 value: its human-readable part and its 5-bit data values.
#[derive(Debug)]
pub struct Bech32Address {
    pub hrp: String,
    pub data: Vec<u8>,
}

/// What `bech32::Bech32::from_str` makes of a string: the human-readable part
/// and the data values (checksum removed), or the error.
pub uninterp spec fn bech32_parse(text: Seq<char>) -> Result<(Seq<char>, Seq<u8>), Bech32Error>;

/// What `bech32::convert_bits` returns for these arguments.
pub uninterp spec fn bech32_convert_bits(data: Seq<u8>, from: u32, to: u32, pad: bool) -> Result<
    Seq<u8>,
    Bech32Error,
>;

/// What `Display` of `bech32::Bech32` writes for these parts: the
/// human-readable part, the separator `1`, the data characters and the checksum.
pub uninterp spec fn bech32_text(hrp: Seq<char>, data: Seq<u8>) -> Seq<char>;

/// A human-readable part that `Display` writes and parsing reads back as it is:
/// not empty, printable ASCII (codes 33 to 126), no upper-case letter.
pub open spec fn is_text_hrp(hrp: Seq<char>) -> bool {
    &&& hrp.len() >= 1
    &&& forall|i: int|
        0 <= i < hrp.len() ==> 33 <= #[trigger] (hrp[i] as int) <= 126 && !('A' <= hrp[i] && hrp[i]
            <= 'Z')
}

/// The upper-case ASCII letter of a lower-case one; any other character as it is.
pub open spec fn ascii_upper_char(c: char) -> char {
    if 'a' <= c && c <= 'z' {
        ((c as int) - 32) as char
    } else {
        c
    }
}

/// The lower-case ASCII letter of an upper-case one; any other character as it is.
pub open spec fn ascii_lower_char(c: char) -> char {
    if 'A' <= c && c <= 'Z' {
        ((c as int) + 32) as char
    } else {
        c
    }
}

/// A string with its ASCII letters in upper case.
pub open spec fn ascii_upper(s: Seq<char>) -> Seq<char> {
    s.map_values(|c: char| ascii_upper_char(c))
}

/// A string with its ASCII letters in lower case.
pub open spec fn ascii_lower(s: Seq<char>) -> Seq<char> {
    s.map_values(|c: char| ascii_lower_char(c))
}

/// The value of a success, or none.
pub open spec fn ok_part<A, E>(r: Result<A, E>) -> Option<A> {
    match r {
        Ok(a) => Some(a),
        Err(_) => None,
    }
}

/// The first value of `data` above 31, if any.
pub open spec fn first_non_u5(data: Seq<u8>) -> Option<u8>
    decreases data.len(),
{
    if data.len() == 0 {
        None
    } else if data[0] > 31 {
        Some(data[0])
    } else {
        first_non_u5(data.drop_first())
    }
}

/// What `bech32::Bech32::new_check_data` returns: the data values are checked
/// first, then the human-readable part must not be empty.
pub open spec fn bech32_new_check(hrp: Seq<char>, data: Seq<u8>) -> Result<
    (Seq<char>, Seq<u8>),
    Bech32Error,
> {
    match first_non_u5(data) {
        Some(v) => Err(Bech32Error::InvalidData(v)),
        None => if hrp.len() == 0 {
            Err(Bech32Error::InvalidLength)
        } else {
            Ok((hrp, data))
        },
    }
}

/// The text of an error, as `bech32::Error` displays it.
pub open spec fn bech32_error_text(e: Bech32Error) -> Seq<char> {
    match e {
        Bech32Error::MissingSeparator => "missing human-readable separator, \"1\""@,
        Bech32Error::InvalidChecksum => "invalid checksum"@,
        Bech32Error::InvalidLength => "invalid length"@,
        Bech32Error::InvalidChar(c) => "invalid character (code="@ + seq![c] + ")"@,
        Bech32Error::InvalidData(n) => "invalid data point ("@ + decimal(n as nat) + ")"@,
        Bech32Error::InvalidPadding => "invalid padding"@,
        Bech32Error::MixedCase => "mixed-case strings not allowed"@,
    }
}

/// Each variant of `bech32::Error` becomes the variant of the same name, with the same field.
#[verifier::external_body]
fn lift_error(e: bech32::Error) -> Bech32Error {
    match e {
        bech32::Error::MissingSeparator => Bech32Error::MissingSeparator,
        bech32::Error::InvalidChecksum => Bech32Error::InvalidChecksum,
        bech32::Error::InvalidLength => Bech32Error::InvalidLength,
        bech32::Error::InvalidChar(c) => Bech32Error::InvalidChar(c),
        bech32::Error::InvalidData(n) => Bech32Error::InvalidData(n),
        bech32::Error::InvalidPadding => Bech32Error::InvalidPadding,
        bech32::Error::MixedCase => Bech32Error::MixedCase,
    }
}

/// Calls `<bech32::Bech32 as FromStr>::from_str` and takes the parts apart.
/// Trusted, as the crate's source shows: the result is the named parse of
/// `text`; every data value is a 5-bit value (the parts are `u5`); a parsed
/// string has a non-empty human-readable part, and as the string is at most 90
/// bytes, holding the part, the separator, one ASCII character per data value
/// and 6 checksum characters, the part and the data hold at most 83 values
/// together; and a string without upper-case ASCII letters parses to the same
/// success as its upper-case spelling (the human-readable part is read in lower
/// case, upper- and lower-case data characters have the same values, and
/// neither spelling mixes cases), while both fail together.
#[verifier::external_body]
fn decode(text: &str) -> (r: Result<(String, Vec<u8>), Bech32Error>)
    ensures
        match r {
            Ok((hrp, data)) => bech32_parse(text@) == Ok::<(Seq<char>, Seq<u8>), Bech32Error>(
                (hrp@, data@),
            ) && (forall|i: int| 0 <= i < data@.len() ==> data@[i] < 32) && 1 <= hrp@.len()
                && hrp@.len() + data@.len() <= 83,
            Err(e) => bech32_parse(text@) == Err::<(Seq<char>, Seq<u8>), Bech32Error>(e),
        },
        text@ == ascii_lower(text@) ==> ok_part(bech32_parse(ascii_upper(text@))) == match r {
            Ok((hrp, data)) => Some((hrp@, data@)),
            Err(_) => None::<(Seq<char>, Seq<u8>)>,
        },
{
    match <bech32::Bech32 as std::str::FromStr>::from_str(text) {
        Ok(b) => {
            let (hrp, data) = b.into_parts();
            Ok((hrp, data.iter().map(|v| v.to_u8()).collect()))
        },
        Err(e) => Err(lift_error(e)),
    }
}

/// Calls `bech32::convert_bits`, which regroups the bits of `data` from
/// `from`-bit values into `to`-bit values. Trusted: the result is the named one;
/// every value of an `Ok` result fits in `to` bits (each is masked with
/// `(1 << to) - 1`); and with `from == 8` and `pad` no error can arise (no
/// byte exceeds 8 bits, and padding is only checked without `pad`). An `Ok`
/// result holds `data.len() * from / to` values, rounded up with `pad` (the
/// last partial group is padded) and down without it. Regrouping bytes into
/// 5-bit values with padding is undone by regrouping them back without
/// padding (the crate documents `FromBase32`, which does the latter, as the
/// reciprocal of `ToBase32`, which does the former).
#[verifier::external_body]
fn convert_bits(data: &[u8], from: u32, to: u32, pad: bool) -> (r: Result<Vec<u8>, Bech32Error>)
    requires
        1 <= from <= 8,
        1 <= to <= 8,
    ensures
        match r {
            Ok(v) => bech32_convert_bits(data@, from, to, pad) == Ok::<Seq<u8>, Bech32Error>(v@)
                && (to == 5 ==> forall|i: int| 0 <= i < v@.len() ==> v@[i] < 32)
                && v@.len() == (if pad {
                (data@.len() * from + to - 1) / (to as int)
            } else {
                data@.len() * from / (to as int)
            }) && (from == 8 && to == 5 && pad ==> bech32_convert_bits(v@, 5, 8, false) == Ok::<
                Seq<u8>,
                Bech32Error,
            >(data@)),
            Err(e) => bech32_convert_bits(data@, from, to, pad) == Err::<Seq<u8>, Bech32Error>(e),
        },
        from == 8 && pad ==> r is Ok,
{
    bech32::convert_bits(data, from, to, pad).map_err(lift_error)
}

/// Calls `bech32::Bech32::new_check_data` and takes the result apart. Trusted:
/// the result is `bech32_new_check` of the arguments, as the crate's source
/// shows; and the text that `Display` writes for an accepted value parses back
/// to the same parts when that text can be read (a human-readable part of
/// printable ASCII without upper case, and at most 90 characters in all), as the
/// crate's own example shows and as `Display` writes only lower-case data and
/// checksum characters, none of them the separator.
#[verifier::external_body]
fn new_check_data(hrp: String, data: Vec<u8>) -> (r: Result<Bech32Address, Bech32Error>)
    ensures
        match r {
            Ok(a) => bech32_new_check(hrp@, data@) == Ok::<(Seq<char>, Seq<u8>), Bech32Error>(
                (a.hrp@, a.data@),
            ),
            Err(e) => bech32_new_check(hrp@, data@) == Err::<(Seq<char>, Seq<u8>), Bech32Error>(e),
        },
        r matches Ok(a) ==> (is_text_hrp(a.hrp@) && a.hrp@.len() + a.data@.len() + 7 <= 90
            ==> bech32_parse(bech32_text(a.hrp@, a.data@)) == Ok::<(Seq<char>, Seq<u8>), Bech32Error>(
            (a.hrp@, a.data@),
        )),
{
    match bech32::Bech32::new_check_data(hrp, data) {
        Ok(b) => {
            let (hrp, data) = b.into_parts();
            Ok(Bech32Address { hrp, data: data.iter().map(|v| v.to_u8()).collect() })
        },
        Err(e) => Err(lift_error(e)),
    }
}

/// Rebuilds the `bech32::Bech32` of the parts with `Bech32::new_check_data` and
/// calls `ToString::to_string` on it. Trusted: the text is the named `Display`
/// text of the parts. The parts pass the check (a non-empty human-readable part,
/// 5-bit values), so rebuilding cannot fail.
#[verifier::external_body]
fn encode(hrp: &String, data: &Vec<u8>) -> (text: String)
    requires
        hrp@.len() > 0,
        forall|i: int| 0 <= i < data@.len() ==> data@[i] < 32,
    ensures
        text@ == bech32_text(hrp@, data@),
{
    bech32::Bech32::new_check_data(hrp.clone(), data.clone()).unwrap().to_string()
}

impl Bech32Address {
    /// The bech32 text of the value: human-readable part, `1`, data and checksum.
    pub fn to_text(&self) -> (text: String)
        requires
            self.hrp@.len() > 0,
            forall|i: int| 0 <= i < self.data@.len() ==> self.data@[i] < 32,
        ensures
            text@ == bech32_text(self.hrp@, self.data@),
    {
        encode(&self.hrp, &self.data)
    }
}

/// Calls `ToString::to_string` on the `bech32::Error` variant of the same name
/// and field. Trusted: the text is what that error's `Display` writes, as the
/// crate's source shows it.
#[verifier::external_body]
fn error_text(e: Bech32Error) -> (text: String)
    ensures
        text@ == bech32_error_text(e),
{
    let outside = match e {
        Bech32Error::MissingSeparator => bech32::Error::MissingSeparator,
        Bech32Error::InvalidChecksum => bech32::Error::InvalidChecksum,
        Bech32Error::InvalidLength => bech32::Error::InvalidLength,
        Bech32Error::InvalidChar(c) => bech32::Error::InvalidChar(c),
        Bech32Error::InvalidData(n) => bech32::Error::InvalidData(n),
        Bech32Error::InvalidPadding => bech32::Error::InvalidPadding,
        Bech32Error::MixedCase => bech32::Error::MixedCase,
    };
    outside.to_string()
}

/// The parameters of an address: its human-readable part, its version (the first
/// data value) and its identifier (the other data values read back as bytes).
pub open spec fn address_params(addr: Seq<char>) -> Result<(Seq<char>, u8, Seq<u8>), Bech32Error> {
    match bech32_parse(addr) {
        Err(e) => Err(e),
        Ok((hrp, data)) => parts_params(hrp, data),
    }
}

/// The parameters as values of the specification.
pub open spec fn params_view(r: Result<(String, u8, Vec<u8>), Bech32Error>) -> Result<
    (Seq<char>, u8, Seq<u8>),
    Bech32Error,
> {
    match r {
        Ok((hrp, ver, identifier)) => Ok((hrp@, ver, identifier@)),
        Err(e) => Err(e),
    }
}

/// The parameters of decoded parts: none for empty data, else the first value
/// as version and the others read back from 5-bit values into bytes.
pub open spec fn parts_params(hrp: Seq<char>, data: Seq<u8>) -> Result<(Seq<char>, u8, Seq<u8>), Bech32Error> {
    if data.len() == 0 {
        Err(Bech32Error::InvalidLength)
    } else {
        match bech32_convert_bits(data.drop_first(), 5, 8, false) {
            Err(e) => Err(e),
            Ok(identifier) => Ok((hrp, data[0], identifier)),
        }
    }
}

/// Splits decoded bech32 parts into (human-readable part, version, identifier).
pub fn params_from_parts(hrp: String, data: Vec<u8>) -> (r: Result<(String, u8, Vec<u8>), Bech32Error>)
    ensures
        params_view(r) == parts_params(hrp@, data@),
        r matches Ok((_, _, identifier)) ==> identifier@.len() == (data@.len() - 1) * 5 / 8,
{
    if data.len() == 0 {
        return Err(Bech32Error::InvalidLength);
    }
    let ver = data[0];
    let rest = &data.as_slice()[1..data.len()];
    assert(rest@ =~= data@.drop_first());
    let identifier = match convert_bits(rest, 5, 8, false) {
        Ok(v) => v,
        Err(e) => return Err(e),
    };
    Ok((hrp, ver, identifier))
}

/// Decodes a bech32 address into (human-readable part, version, identifier).
pub fn addr2params(addr: &str) -> (r: Result<(String, u8, Vec<u8>), Bech32Error>)
    ensures
        params_view(r) == address_params(addr@),
        r matches Ok((hrp, ver, identifier)) ==> 1 <= hrp@.len() && ver < 32 && identifier@.len() <= 50,
        addr@ == ascii_lower(addr@) ==> ok_part(address_params(ascii_upper(addr@))) == ok_part(
            params_view(r),
        ),
{
    match decode(addr) {
        Ok((hrp, data)) => {
            let ghost n = data@.len();
            let r = params_from_parts(hrp, data);
            assert(n <= 82 ==> (n - 1) * 5 / 8 <= 50) by (nonlinear_arith);
            r
        },
        Err(e) => Err(e),
    }
}

/// The seed prefix an address gives: its version followed by its identifier,
/// or the text of the error that refuses it.
pub open spec fn ver_identifier(addr: Seq<char>) -> Result<Seq<u8>, Seq<char>> {
    match address_params(addr) {
        Ok((_, ver, identifier)) => Ok(seq![ver] + identifier),
        Err(e) => Err(bech32_error_text(e)),
    }
}

/// Upper-casing a string is the same as upper-casing its lower-case spelling,
/// and the lower-case spelling is its own lower-case spelling.
pub proof fn lemma_ascii_case(s: Seq<char>)
    ensures
        ascii_upper(ascii_lower(s)) == ascii_upper(s),
        ascii_lower(ascii_lower(s)) == ascii_lower(s),
{
    assert forall|i: int| 0 <= i < s.len() implies #[trigger] ascii_upper(ascii_lower(s))[i]
        == ascii_upper(s)[i] && ascii_lower(ascii_lower(s))[i] == ascii_lower(s)[i] by {
        let c = s[i];
        if 'A' <= c && c <= 'Z' {
            assert((((c as int) + 32) as char) as int == (c as int) + 32);
        } else if 'a' <= c && c <= 'z' {
            assert((((c as int) - 32) as char) as int == (c as int) - 32);
        }
    }
    assert(ascii_upper(ascii_lower(s)) =~= ascii_upper(s));
    assert(ascii_lower(ascii_lower(s)) =~= ascii_lower(s));
}

/// The seed prefix of an address: its version followed by its identifier.
/// A refused address gives the text of its error.
pub fn addr2ver_identifier(address: &str) -> (r: Result<Vec<u8>, String>)
    ensures
        match ver_identifier(address@) {
            Ok(bytes) => r matches Ok(v) && v@ == bytes,
            Err(text) => r matches Err(t) && t@ == text,
        },
        r matches Ok(v) ==> 1 <= v@.len() <= 51 && v@[0] < 32,
        address@ == ascii_lower(address@) ==> (ver_identifier(ascii_upper(address@)) is Ok <==> r is Ok)
            && (r matches Ok(v) ==> ver_identifier(ascii_upper(address@)) == Ok::<Seq<u8>, Seq<char>>(
            v@,
        )),
{
    let (ver, mut identifier) = match addr2params(address) {
        Ok((_, ver, identifier)) => (ver, identifier),
        Err(err) => return Err(error_text(err)),
    };
    identifier.insert(0, ver);
    assert(identifier@ =~= seq![ver] + identifier@.drop_first());
    Ok(identifier)
}

/// Values below 32 hold no value above 31.
proof fn lemma_all_u5(data: Seq<u8>)
    requires
        forall|i: int| 0 <= i < data.len() ==> data[i] < 32,
    ensures
        first_non_u5(data) is None,
    decreases data.len(),
{
    if data.len() > 0 {
        lemma_all_u5(data.drop_first());
    }
}

/// Builds the bech32 value of (human-readable part, version, identifier): the
/// identifier's bytes are regrouped into 5-bit values and the version goes first.
pub fn params2bech(hrp: &str, ver: u8, identifier: &[u8]) -> (r: Result<Bech32Address, Bech32Error>)
    ensures
        bech32_convert_bits(identifier@, 8, 5, true) matches Ok(data) && ({
            let all = seq![ver] + data;
            &&& ver > 31 ==> r == Err::<Bech32Address, Bech32Error>(Bech32Error::InvalidData(ver))
            &&& ver <= 31 && hrp@.len() == 0 ==> r == Err::<Bech32Address, Bech32Error>(
                Bech32Error::InvalidLength,
            )
            &&& ver <= 31 && hrp@.len() > 0 ==> (r matches Ok(a) && a.hrp@ == hrp@ && a.data@ == all)
        }),
        r matches Ok(a) ==> a.data@.len() == 1 + (identifier@.len() * 8 + 4) / 5 && a.hrp@.len() > 0
            && forall|i: int| 0 <= i < a.data@.len() ==> a.data@[i] < 32,
        r matches Ok(a) ==> (is_text_hrp(hrp@) && hrp@.len() + a.data@.len() + 7 <= 90 ==> {
            &&& address_params(bech32_text(a.hrp@, a.data@)) == Ok::<
                (Seq<char>, u8, Seq<u8>),
                Bech32Error,
            >((hrp@, ver, identifier@))
            &&& ver_identifier(bech32_text(a.hrp@, a.data@)) == Ok::<Seq<u8>, Seq<char>>(
                seq![ver] + identifier@,
            )
        }),
{
    let mut data = match convert_bits(identifier, 8, 5, true) {
        Ok(v) => v,
        Err(e) => return Err(e),
    };
    let ghost converted = data@;
    data.insert(0, ver);
    assert(data@.drop_first() =~= converted);
    proof {
        lemma_all_u5(converted);
    }
    let hrp_string = hrp.to_string();
    proof {
        vstd::string::to_string_from_display_ensures_for_str(hrp, hrp_string);
    }
    let r = new_check_data(hrp_string, data);
    proof {
        if r is Ok {
            let a = r->Ok_0;
            assert(a.data@ == data@);
            assert(a.data@.drop_first() =~= converted);
            assert(a.data@[0] == ver);
        }
    }
    r
}

} // verus!
