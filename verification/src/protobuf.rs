//! The protobuf wire primitives that a membership envelope is written with.

use vstd::prelude::*;
use vstd::string::StrSliceExecFns;
use vstd::utf8::{encode_utf8, valid_utf8};

use crate::text::{concat, decimal, decimal_text};

verus! {

/// The base-128 variable-length form of `n`: seven bits a byte, least significant first, the high bit set on every
/// byte but the last.
pub open spec fn varint(n: nat) -> Seq<u8>
    decreases n,
{
    if n < 128 {
        seq![n as u8]
    } else {
        seq![(n % 128 + 128) as u8] + varint(n / 128)
    }
}

/// Reads a variable-length integer whose first `k` bytes were read before: its value and how many bytes it takes.
/// A sixty-four-bit integer takes ten bytes at most, and its tenth byte holds one bit.
pub open spec fn varint_read(b: Seq<u8>, k: nat) -> Option<(nat, nat)>
    decreases b.len(),
{
    if b.len() == 0 || k >= 10 {
        None
    } else if b[0] < 128 {
        if k == 9 && b[0] >= 2 {
            None
        } else {
            Some((b[0] as nat, 1))
        }
    } else {
        match varint_read(b.drop_first(), k + 1) {
            Some((v, used)) => Some(((b[0] - 128 + 128 * v) as nat, used + 1)),
            None => None,
        }
    }
}

/// What fits in the bytes that are left after `k` of them: the bound of the value they hold.
pub open spec fn room(k: nat) -> nat
    decreases 9 - k,
{
    if k >= 9 {
        2
    } else {
        128 * room(k + 1)
    }
}

proof fn varint_read_back_from(n: nat, rest: Seq<u8>, k: nat)
    requires
        k <= 9,
        n < room(k),
    ensures
        varint_read(varint(n) + rest, k) == Some((n, varint(n).len())),
    decreases n,
{
    let b = varint(n) + rest;
    if n < 128 {
        assert(b[0] == n as u8);
    } else {
        assert(k < 9);
        assert(b[0] == (n % 128 + 128) as u8);
        assert(b.drop_first() =~= varint(n / 128) + rest);
        assert(n / 128 < room(k + 1)) by (nonlinear_arith)
            requires
                n < 128 * room(k + 1),
        ;
        varint_read_back_from(n / 128, rest, k + 1);
        assert(n == n % 128 + 128 * (n / 128));
    }
}

/// Reading gives back the integer that was written.
pub proof fn varint_reads_back(n: u64, rest: Seq<u8>)
    ensures
        varint_read(varint(n as nat) + rest, 0) == Some((n as nat, varint(n as nat).len())),
{
    reveal_with_fuel(room, 11);
    assert(room(0) == 0x1_0000_0000_0000_0000);
    varint_read_back_from(n as nat, rest, 0);
}

/// A variable-length integer takes at least one byte and no more than there are, and its value fits sixty-four bits.
pub proof fn varint_read_bounds(b: Seq<u8>, k: nat)
    ensures
        varint_read(b, k) matches Some((v, used)) ==> 1 <= used <= b.len() && v < room(k),
    decreases b.len(),
{
    if b.len() > 0 && k < 10 && b[0] >= 128 {
        varint_read_bounds(b.drop_first(), k + 1);
        reveal_with_fuel(room, 3);
    } else if k < 9 {
        room_large(k);
    }
}

proof fn room_large(k: nat)
    requires
        k < 9,
    ensures
        room(k) >= 256,
    decreases 9 - k,
{
    if k < 8 {
        room_large(k + 1);
    } else {
        reveal_with_fuel(room, 3);
    }
}

/// Calls `prost::encoding::encode_varint`: it appends the base-128 form of `value`.
#[verifier::external_body]
pub(crate) fn put_varint(out: &mut Vec<u8>, value: u64)
    ensures
        final(out)@ == old(out)@ + varint(value as nat),
{
    prost::encoding::encode_varint(value, out);
}

/// Calls `prost::encoding::decode_varint` on the front of `bytes`: the value it reads and how many bytes that took,
/// or `None` where it reports an error.
#[verifier::external_body]
pub(crate) fn take_varint(bytes: &[u8]) -> (r: Option<(u64, usize)>)
    ensures
        match r {
            Some((v, used)) => varint_read(bytes@, 0) == Some((v as nat, used as nat)),
            None => varint_read(bytes@, 0) is None,
        },
{
    let mut buf: &[u8] = bytes;
    let value = prost::encoding::decode_varint(&mut buf).ok()?;
    Some((value, bytes.len() - buf.len()))
}

/// What stands at the head of every account of bytes that cannot be read.
pub const DECODE_FAILURE: &'static str = "failed to decode Protobuf message: ";

/// How many bytes an unknown group takes that was opened with a tag, its end included, or what is wrong with it.
pub uninterp spec fn group_skipped(tag: u32, bytes: Seq<u8>) -> Result<nat, Seq<char>>;

/// How many bytes the value of an unknown field takes, by its wire type, or what is wrong with it.
pub open spec fn plain_skipped(wire_type: nat, bytes: Seq<u8>) -> Result<nat, Seq<char>> {
    if wire_type == 0 {
        match varint_read(bytes, 0) {
            Some((_, used)) => Ok(used),
            None => Err("invalid varint"@),
        }
    } else if wire_type == 2 {
        match delimited_read(bytes) {
            Some((_, used)) => Ok(used),
            None => Err(delimited_words(bytes)),
        }
    } else if wire_type == 4 {
        Err("unexpected end group tag"@)
    } else {
        let width: nat = if wire_type == 1 {
            8
        } else {
            4
        };
        if bytes.len() < width {
            Err("buffer underflow"@)
        } else {
            Ok(width)
        }
    }
}

/// How many bytes the value of an unknown field takes, by its wire type and tag, or what is wrong with it.
pub open spec fn skipped(wire_type: nat, tag: nat, bytes: Seq<u8>) -> Result<nat, Seq<char>> {
    if wire_type == 3 {
        group_skipped(tag as u32, bytes)
    } else {
        plain_skipped(wire_type, bytes)
    }
}

/// An unknown group, one level down: opened with its tag, inside another group.
pub open spec fn one_level_down(tag: nat, bytes: Seq<u8>) -> Seq<u8> {
    varint(field_key(tag, 3)) + bytes
}

/// How many bytes an unknown group takes in a nested message, or what is wrong with it. Groups may lie within each other
/// only so deep, and in a nested message one level is used up: the group must do inside another one.
pub open spec fn group_skipped_within(tag: nat, bytes: Seq<u8>) -> Result<nat, Seq<char>> {
    match group_skipped(tag as u32, bytes) {
        Ok(n) => match group_skipped(1, one_level_down(tag, bytes.take(n as int)) + varint(field_key(1, 4))) {
            Ok(_) => Ok(n),
            Err(what) => Err(what),
        },
        Err(what) => match group_skipped(1, one_level_down(tag, bytes)) {
            Ok(_) => Err(what),
            Err(deeper) => Err(deeper),
        },
    }
}

/// How many bytes the value of an unknown field of a nested message takes, or what is wrong with it.
pub open spec fn skipped_within(wire_type: nat, tag: nat, bytes: Seq<u8>) -> Result<nat, Seq<char>> {
    if wire_type == 3 {
        group_skipped_within(tag, bytes)
    } else {
        plain_skipped(wire_type, bytes)
    }
}

/// What a skip says: how many bytes it passed over, or what is wrong, without the words that head every account.
pub open spec fn passed(r: Result<usize, String>) -> Result<nat, Seq<char>> {
    match r {
        Ok(n) => Ok(n as nat),
        Err(e) => Err(e@.skip(DECODE_FAILURE@.len() as int)),
    }
}

/// Calls `prost::encoding::skip_field` on the front of `bytes` at the outermost level: the number of bytes that it
/// passes over, no more than there are, or its error in words, which start as every account does. A group's length and
/// what may be wrong with a group are named, not stated.
#[verifier::external_body]
fn skip_field(wire_type: u64, tag: u32, bytes: &[u8]) -> (r: Result<usize, String>)
    requires
        wire_type <= 5,
    ensures
        r matches Ok(n) ==> n <= bytes@.len(),
        r matches Err(e) ==> DECODE_FAILURE@.is_prefix_of(e@),
        wire_type == 3 ==> passed(r) == group_skipped(tag, bytes@),
        wire_type != 3 ==> passed(r) == plain_skipped(wire_type as nat, bytes@),
{
    let wire = prost::encoding::WireType::try_from(wire_type).map_err(|e| e.to_string())?;
    let mut buf: &[u8] = bytes;
    let context = prost::encoding::DecodeContext::default();
    prost::encoding::skip_field(wire, tag, &mut buf, context).map_err(|e| e.to_string())?;
    Ok(bytes.len() - buf.len())
}

/// Passes over the value of an unknown field: how many bytes it takes, or what is wrong with it.
pub fn pass_over(wire_type: u64, tag: u32, bytes: &[u8]) -> (r: Result<usize, String>)
    requires
        wire_type <= 5,
    ensures
        match r {
            Ok(n) => skipped(wire_type as nat, tag as nat, bytes@) == Ok::<nat, Seq<char>>(n as nat) && n <= bytes@.len(),
            Err(e) => skipped(wire_type as nat, tag as nat, bytes@) == Err::<nat, Seq<char>>(e@),
        },
{
    match skip_field(wire_type, tag, bytes) {
        Ok(n) => Ok(n),
        Err(e) => {
            let head: usize = DECODE_FAILURE.unicode_len();
            let all: usize = e.as_str().unicode_len();
            let what = e.as_str().substring_char(head, all);
            assert(what@ =~= e@.skip(DECODE_FAILURE@.len() as int));
            Err(what.to_owned())
        },
    }
}

/// Passes over the value of an unknown field of a nested message.
pub fn pass_over_within(wire_type: u64, tag: u32, bytes: &[u8]) -> (r: Result<usize, String>)
    requires
        wire_type <= 5,
        tag < 0x2000_0000,
    ensures
        match r {
            Ok(n) => skipped_within(wire_type as nat, tag as nat, bytes@) == Ok::<nat, Seq<char>>(n as nat) && n <= bytes@.len(),
            Err(e) => skipped_within(wire_type as nat, tag as nat, bytes@) == Err::<nat, Seq<char>>(e@),
        },
{
    let first = pass_over(wire_type, tag, bytes);
    if wire_type != 3 {
        return first;
    }
    let mut framed: Vec<u8> = Vec::new();
    put_varint(&mut framed, tag as u64 * 8 + 3);
    assert(framed@ =~= varint(field_key(tag as nat, 3)));
    match first {
        Ok(n) => {
            let group = vstd::slice::slice_subrange(bytes, 0, n);
            assert(group@ =~= bytes@.take(n as int));
            crate::text::push_bytes(&mut framed, group);
            put_varint(&mut framed, 12);
            assert(framed@ =~= one_level_down(tag as nat, bytes@.take(n as int)) + varint(field_key(1, 4)));
            match pass_over(3, 1, framed.as_slice()) {
                Ok(_) => Ok(n),
                Err(e) => Err(e),
            }
        },
        Err(e) => {
            crate::text::push_bytes(&mut framed, bytes);
            assert(framed@ =~= one_level_down(tag as nat, bytes@));
            match pass_over(3, 1, framed.as_slice()) {
                Ok(_) => Err(e),
                Err(deeper) => Err(deeper),
            }
        },
    }
}

/// Calls `String::from_utf8`: the text whose UTF-8 form `bytes` is, or `None` where `bytes` is not well-formed UTF-8.
#[verifier::external_body]
pub(crate) fn text_of_utf8(bytes: Vec<u8>) -> (r: Option<String>)
    ensures
        match r {
            Some(s) => valid_utf8(bytes@) && encode_utf8(s@) == bytes@,
            None => !valid_utf8(bytes@),
        },
{
    String::from_utf8(bytes).ok()
}

/// The field key of a tag and wire type.
pub open spec fn field_key(tag: nat, wire_type: nat) -> nat {
    tag * 8 + wire_type
}

/// Reads a field key: tag, wire type, and how many bytes it takes. A key fits thirty-two bits, its wire type is one
/// of six, and its tag is not zero.
pub open spec fn field_key_read(b: Seq<u8>) -> Option<(nat, nat, nat)> {
    match varint_read(b, 0) {
        Some((key, used)) => if key > u32::MAX || key % 8 > 5 || key / 8 == 0 {
            None
        } else {
            Some((key / 8, key % 8, used))
        },
        None => None,
    }
}

/// Reads the field key at the front of `bytes`.
pub fn take_field_key(bytes: &[u8]) -> (r: Option<(u32, u64, usize)>)
    ensures
        match r {
            Some((tag, wire, used)) => field_key_read(bytes@) == Some((tag as nat, wire as nat, used as nat)),
            None => field_key_read(bytes@) is None,
        },
{
    match take_varint(bytes) {
        Some((key, used)) => {
            if key > u32::MAX as u64 || key % 8 > 5 || key / 8 == 0 {
                None
            } else {
                Some(((key / 8) as u32, key % 8, used))
            }
        },
        None => None,
    }
}

/// What is wrong with bytes that start with no field key.
pub open spec fn key_words(b: Seq<u8>) -> Seq<char> {
    match varint_read(b, 0) {
        Some((key, _)) => if key > u32::MAX {
            "invalid key value: "@ + decimal(key)
        } else if key % 8 > 5 {
            "invalid wire type value: "@ + decimal(key % 8)
        } else {
            "invalid tag value: 0"@
        },
        None => "invalid varint"@,
    }
}

/// Says what is wrong with bytes that start with no field key.
pub fn key_trouble(bytes: &[u8]) -> (r: String)
    ensures
        r@ == key_words(bytes@),
{
    match take_varint(bytes) {
        Some((key, _)) => {
            if key > u32::MAX as u64 {
                let n: String = decimal_text(key);
                concat("invalid key value: ", n.as_str())
            } else if key % 8 > 5 {
                let n: String = decimal_text(key % 8);
                concat("invalid wire type value: ", n.as_str())
            } else {
                "invalid tag value: 0".to_owned()
            }
        },
        None => "invalid varint".to_owned(),
    }
}

/// A wire type's name.
pub open spec fn wire_name(wire_type: nat) -> Seq<char> {
    if wire_type == 0 {
        "Varint"@
    } else if wire_type == 1 {
        "SixtyFourBit"@
    } else if wire_type == 2 {
        "LengthDelimited"@
    } else if wire_type == 3 {
        "StartGroup"@
    } else if wire_type == 4 {
        "EndGroup"@
    } else {
        "ThirtyTwoBit"@
    }
}

fn name_of_wire(wire_type: u64) -> (r: &'static str)
    ensures
        r@ == wire_name(wire_type as nat),
{
    if wire_type == 0 {
        "Varint"
    } else if wire_type == 1 {
        "SixtyFourBit"
    } else if wire_type == 2 {
        "LengthDelimited"
    } else if wire_type == 3 {
        "StartGroup"
    } else if wire_type == 4 {
        "EndGroup"
    } else {
        "ThirtyTwoBit"
    }
}

/// What is said of a field that has another wire type than it should.
pub open spec fn mismatch_words(actual: nat, expected: nat) -> Seq<char> {
    "invalid wire type: "@ + wire_name(actual) + " (expected "@ + wire_name(expected) + ")"@
}

/// Says that a field has another wire type than it should.
pub fn mismatch(actual: u64, expected: u64) -> (r: String)
    ensures
        r@ == mismatch_words(actual as nat, expected as nat),
{
    let mut s: String = "invalid wire type: ".to_owned();
    s.append(name_of_wire(actual));
    s.append(" (expected ");
    s.append(name_of_wire(expected));
    s.append(")");
    s
}

/// Reads a length-delimited value: its bytes and how many bytes it takes with its length.
pub open spec fn delimited_read(b: Seq<u8>) -> Option<(Seq<u8>, nat)> {
    match varint_read(b, 0) {
        Some((len, used)) => if len > b.len() - used {
            None
        } else {
            Some((b.subrange(used as int, (used + len) as int), used + len))
        },
        None => None,
    }
}

/// What is wrong with bytes that start with no length-delimited value.
pub open spec fn delimited_words(b: Seq<u8>) -> Seq<char> {
    if varint_read(b, 0) is None {
        "invalid varint"@
    } else {
        "buffer underflow"@
    }
}

/// Says what is wrong with bytes that start with no length-delimited value.
pub fn delimited_trouble(bytes: &[u8]) -> (r: String)
    ensures
        r@ == delimited_words(bytes@),
{
    match take_varint(bytes) {
        Some(_) => "buffer underflow".to_owned(),
        None => "invalid varint".to_owned(),
    }
}

/// Reads the length-delimited value at the front of `bytes`.
pub fn take_delimited(bytes: &[u8]) -> (r: Option<(Vec<u8>, usize)>)
    ensures
        match r {
            Some((v, used)) => delimited_read(bytes@) == Some((v@, used as nat)),
            None => delimited_read(bytes@) is None,
        },
{
    proof {
        varint_read_bounds(bytes@, 0);
    }
    match take_varint(bytes) {
        Some((len, used)) => {
            if len > (bytes.len() - used) as u64 {
                return None;
            }
            let end: usize = used + len as usize;
            let v: Vec<u8> = crate::text::copy_bytes(vstd::slice::slice_subrange(bytes, used, end));
            Some((v, end))
        },
        None => None,
    }
}

/// A length-delimited value as it is written: its length, then its bytes.
pub open spec fn delimited(b: Seq<u8>) -> Seq<u8> {
    varint(b.len()) + b
}

/// Reading gives back the length-delimited value that was written.
pub proof fn delimited_reads_back(b: Seq<u8>, rest: Seq<u8>)
    requires
        b.len() <= u64::MAX,
    ensures
        delimited_read(delimited(b) + rest) == Some((b, delimited(b).len())),
{
    let n = b.len() as u64;
    let all = delimited(b) + rest;
    assert(all =~= varint(n as nat) + (b + rest));
    varint_reads_back(n, b + rest);
    let used = varint(n as nat).len() as int;
    assert(all.subrange(used, used + b.len()) =~= b);
}

/// Appends a length-delimited value.
pub fn put_delimited(out: &mut Vec<u8>, value: &[u8])
    ensures
        final(out)@ == old(out)@ + delimited(value@),
{
    let ghost start = out@;
    put_varint(out, value.len() as u64);
    crate::text::push_bytes(out, value);
    assert(out@ =~= start + delimited(value@));
}

/// The value of a field, as far as its wire type tells: an integer, a length-delimited value, or something else.
pub enum FieldModel {
    Varint(nat),
    Bytes(Seq<u8>),
    Other,
}

/// A field's value in memory.
pub enum Field {
    Varint(u64),
    Bytes(Vec<u8>),
    Other,
}

impl Field {
    pub open spec fn model(self) -> FieldModel {
        match self {
            Field::Varint(v) => FieldModel::Varint(v as nat),
            Field::Bytes(b) => FieldModel::Bytes(b@),
            Field::Other => FieldModel::Other,
        }
    }
}

/// A message's fields, in the order in which they are written: tag and value.
pub open spec fn field_models(s: Seq<(u32, Field)>) -> Seq<(nat, FieldModel)> {
    Seq::new(s.len(), |i: int| (s[i].0 as nat, s[i].1.model()))
}

/// What a field holds.
#[derive(Clone, Copy, Debug, PartialEq, Eq, Structural)]
pub enum FieldKind {
    Varint,
    Bytes,
    Text,
}

/// Reads the value of a field of a kind: the value and how many bytes it takes, or what is wrong with it.
pub open spec fn value_read(kind: FieldKind, wire_type: nat, b: Seq<u8>) -> Result<(FieldModel, nat), Seq<char>> {
    match kind {
        FieldKind::Varint => if wire_type != 0 {
            Err(mismatch_words(wire_type, 0))
        } else {
            match varint_read(b, 0) {
                Some((v, used)) => Ok((FieldModel::Varint(v), used)),
                None => Err("invalid varint"@),
            }
        },
        _ => if wire_type != 2 {
            Err(mismatch_words(wire_type, 2))
        } else {
            match delimited_read(b) {
                Some((v, used)) => if kind is Text && !valid_utf8(v) {
                    Err("invalid string value: data is not UTF-8 encoded"@)
                } else {
                    Ok((FieldModel::Bytes(v), used))
                },
                None => Err(delimited_words(b)),
            }
        },
    }
}

/// Reads the value of a field of a kind.
pub(crate) fn take_value(kind: FieldKind, wire_type: u64, bytes: &[u8]) -> (r: Result<(Field, usize), String>)
    ensures
        match r {
            Ok((v, used)) => value_read(kind, wire_type as nat, bytes@) == Ok::<(FieldModel, nat), Seq<char>>(
                (v.model(), used as nat),
            ) && used <= bytes@.len(),
            Err(e) => value_read(kind, wire_type as nat, bytes@) == Err::<(FieldModel, nat), Seq<char>>(e@),
        },
{
    proof {
        varint_read_bounds(bytes@, 0);
    }
    match kind {
        FieldKind::Varint => {
            if wire_type != 0 {
                return Err(mismatch(wire_type, 0));
            }
            match take_varint(bytes) {
                Some((v, used)) => Ok((Field::Varint(v), used)),
                None => Err("invalid varint".to_owned()),
            }
        },
        _ => {
            if wire_type != 2 {
                return Err(mismatch(wire_type, 2));
            }
            match take_delimited(bytes) {
                Some((v, used)) => {
                    if matches!(kind, FieldKind::Text) {
                        let copy: Vec<u8> = crate::text::copy_bytes(v.as_slice());
                        if text_of_utf8(copy).is_none() {
                            return Err("invalid string value: data is not UTF-8 encoded".to_owned());
                        }
                    }
                    Ok((Field::Bytes(v), used))
                },
                None => Err(delimited_trouble(bytes)),
            }
        },
    }
}

/// Where and why a message cannot be read: the fields that lead there, the innermost first, and what is wrong.
pub struct Fault {
    pub path: Seq<char>,
    pub what: Seq<char>,
}

/// What is wrong with a message itself, and not with one of its fields.
pub open spec fn bare(what: Seq<char>) -> Fault {
    Fault { path: Seq::empty(), what }
}

/// The account of a fault.
pub open spec fn fault_text(f: Fault) -> Seq<char> {
    DECODE_FAILURE@ + f.path + f.what
}

/// Where and why a message cannot be read.
#[derive(Clone, Debug, PartialEq, Eq)]
pub struct Trouble {
    pub path: String,
    pub what: String,
}

impl View for Trouble {
    type V = Fault;

    open spec fn view(&self) -> Fault {
        Fault { path: self.path@, what: self.what@ }
    }
}

impl Trouble {
    /// A fault of the message itself.
    pub(crate) fn bare(what: String) -> (r: Trouble)
        ensures
            r@ == bare(what@),
    {
        let r = Trouble { path: String::new(), what };
        assert(r.path@ =~= Seq::<char>::empty());
        r
    }

    /// A fault of one field.
    pub(crate) fn at(place: &str, what: String) -> (r: Trouble)
        ensures
            r@ == (Fault { path: place@, what: what@ }),
    {
        Trouble { path: place.to_owned(), what }
    }

    /// The fault, in the field of a message around it.
    pub(crate) fn within(self, place: &str) -> (r: Trouble)
        ensures
            r@ == (Fault { path: self@.path + place@, what: self@.what }),
    {
        Trouble { path: concat(self.path.as_str(), place), what: self.what }
    }

    /// The account of the fault.
    pub fn message(&self) -> (r: String)
        ensures
            r@ == fault_text(self@),
    {
        let head: String = concat(DECODE_FAILURE, self.path.as_str());
        concat(head.as_str(), self.what.as_str())
    }
}

/// One field as it is written.
pub open spec fn field_bytes(tag: nat, v: FieldModel) -> Seq<u8> {
    match v {
        FieldModel::Varint(n) => varint(field_key(tag, 0)) + varint(n),
        FieldModel::Bytes(b) => varint(field_key(tag, 2)) + delimited(b),
        FieldModel::Other => Seq::empty(),
    }
}

/// A message's fields as they are written, one after the other.
pub open spec fn fields_bytes(fs: Seq<(nat, FieldModel)>) -> Seq<u8>
    decreases fs.len(),
{
    if fs.len() == 0 {
        Seq::empty()
    } else {
        field_bytes(fs[0].0, fs[0].1) + fields_bytes(fs.drop_first())
    }
}

/// A field that can be written: a tag in range, and a value that a machine can hold.
pub open spec fn field_fits(f: (nat, FieldModel)) -> bool {
    &&& 0 < f.0 < 0x2000_0000
    &&& match f.1 {
        FieldModel::Varint(n) => n <= u64::MAX,
        FieldModel::Bytes(b) => b.len() <= u64::MAX,
        FieldModel::Other => false,
    }
}

/// The wire type that a value is written with.
pub open spec fn wire_of(v: FieldModel) -> nat {
    if v is Varint {
        0
    } else {
        2
    }
}

/// A value that a field of a kind may hold.
pub open spec fn of_kind(kind: FieldKind, v: FieldModel) -> bool {
    match kind {
        FieldKind::Varint => v is Varint,
        FieldKind::Bytes => v is Bytes,
        FieldKind::Text => v matches FieldModel::Bytes(b) && valid_utf8(b),
    }
}

/// Reading gives back the field that was written: its key, then its value.
pub proof fn field_reads_back(tag: nat, v: FieldModel, rest: Seq<u8>)
    requires
        field_fits((tag, v)),
    ensures
        field_key_read(field_bytes(tag, v) + rest) matches Some((t, wire, used)) && t == tag && wire == wire_of(v) && 0 < used
            < field_bytes(tag, v).len() && (forall|kind: FieldKind| #[trigger]
            of_kind(kind, v) ==> value_read(kind, wire, (field_bytes(tag, v) + rest).skip(used as int)) == Ok::<
                (FieldModel, nat),
                Seq<char>,
            >((v, (field_bytes(tag, v).len() - used) as nat))) && (v matches FieldModel::Bytes(b) ==> delimited_read(
            (field_bytes(tag, v) + rest).skip(used as int),
        ) == Some((b, (field_bytes(tag, v).len() - used) as nat))),
{
    let all = field_bytes(tag, v) + rest;
    match v {
        FieldModel::Varint(n) => {
            let key = field_key(tag, 0);
            varint_reads_back(key as u64, varint(n) + rest);
            assert(all =~= varint(key) + (varint(n) + rest));
            let used = varint(key).len() as int;
            assert(all.skip(used) =~= varint(n) + rest);
            varint_reads_back(n as u64, rest);
            varint_read_bounds(varint(n) + rest, 0);
            varint_read_bounds(all, 0);
        },
        FieldModel::Bytes(b) => {
            let key = field_key(tag, 2);
            varint_reads_back(key as u64, delimited(b) + rest);
            assert(all =~= varint(key) + (delimited(b) + rest));
            let used = varint(key).len() as int;
            assert(all.skip(used) =~= delimited(b) + rest);
            delimited_reads_back(b, rest);
            varint_reads_back(b.len() as u64, b + rest);
            varint_read_bounds(varint(b.len()) + (b + rest), 0);
            varint_read_bounds(all, 0);
        },
        FieldModel::Other => {},
    }
}

pub proof fn fields_bytes_push(fs: Seq<(nat, FieldModel)>, f: (nat, FieldModel))
    ensures
        fields_bytes(fs.push(f)) == fields_bytes(fs) + field_bytes(f.0, f.1),
    decreases fs.len(),
{
    if fs.len() == 0 {
        assert(fs =~= Seq::<(nat, FieldModel)>::empty());
        assert(fs.push(f).drop_first() =~= Seq::<(nat, FieldModel)>::empty());
        assert(fields_bytes(fs.push(f)) =~= fields_bytes(fs) + field_bytes(f.0, f.1));
    } else {
        assert(fs.push(f).drop_first() =~= fs.drop_first().push(f));
        fields_bytes_push(fs.drop_first(), f);
        assert(fields_bytes(fs.push(f)) =~= fields_bytes(fs) + field_bytes(f.0, f.1));
    }
}

/// Appends an integer field.
pub fn put_varint_field(out: &mut Vec<u8>, tag: u32, v: u64)
    requires
        tag < 0x2000_0000,
    ensures
        final(out)@ == old(out)@ + field_bytes(tag as nat, FieldModel::Varint(v as nat)),
{
    let ghost start = out@;
    put_varint(out, tag as u64 * 8);
    put_varint(out, v);
    assert(out@ =~= start + field_bytes(tag as nat, FieldModel::Varint(v as nat)));
}

/// Appends a length-delimited field.
pub fn put_bytes_field(out: &mut Vec<u8>, tag: u32, v: &[u8])
    requires
        tag < 0x2000_0000,
    ensures
        final(out)@ == old(out)@ + field_bytes(tag as nat, FieldModel::Bytes(v@)),
{
    let ghost start = out@;
    put_varint(out, tag as u64 * 8 + 2);
    put_delimited(out, v);
    assert(out@ =~= start + field_bytes(tag as nat, FieldModel::Bytes(v@)));
}

/// The last integer with a tag; an absent field is zero.
pub open spec fn last_varint(fs: Seq<(nat, FieldModel)>, tag: nat) -> nat
    decreases fs.len(),
{
    if fs.len() == 0 {
        0
    } else {
        match fs.last() {
            (t, FieldModel::Varint(v)) => if t == tag {
                v
            } else {
                last_varint(fs.drop_last(), tag)
            },
            _ => last_varint(fs.drop_last(), tag),
        }
    }
}

/// The last length-delimited value with a tag; an absent field is empty.
pub open spec fn last_bytes(fs: Seq<(nat, FieldModel)>, tag: nat) -> Seq<u8>
    decreases fs.len(),
{
    if fs.len() == 0 {
        Seq::empty()
    } else {
        match fs.last() {
            (t, FieldModel::Bytes(v)) => if t == tag {
                v
            } else {
                last_bytes(fs.drop_last(), tag)
            },
            _ => last_bytes(fs.drop_last(), tag),
        }
    }
}

/// Every length-delimited value with a tag, in order.
pub open spec fn all_bytes(fs: Seq<(nat, FieldModel)>, tag: nat) -> Seq<Seq<u8>>
    decreases fs.len(),
{
    if fs.len() == 0 {
        Seq::empty()
    } else {
        let before = all_bytes(fs.drop_last(), tag);
        match fs.last() {
            (t, FieldModel::Bytes(v)) => if t == tag {
                before.push(v)
            } else {
                before
            },
            _ => before,
        }
    }
}

/// No field has the tag.
pub open spec fn lacks(fs: Seq<(nat, FieldModel)>, tag: nat) -> bool {
    forall|i: int| 0 <= i < fs.len() ==> (#[trigger] fs[i]).0 != tag
}

/// What a tag gives in a concatenation in which one part lacks it.
pub proof fn sums(a: Seq<(nat, FieldModel)>, b: Seq<(nat, FieldModel)>, tag: nat)
    ensures
        lacks(b, tag) ==> last_varint(a + b, tag) == last_varint(a, tag) && last_bytes(a + b, tag) == last_bytes(a, tag),
        lacks(a, tag) ==> last_varint(a + b, tag) == last_varint(b, tag) && last_bytes(a + b, tag) == last_bytes(b, tag),
        all_bytes(a + b, tag) == all_bytes(a, tag) + all_bytes(b, tag),
        lacks(a, tag) && lacks(b, tag) ==> lacks(a + b, tag),
        lacks(a, tag) ==> all_bytes(a, tag) == Seq::<Seq<u8>>::empty() && last_bytes(a, tag) == Seq::<u8>::empty()
            && last_varint(a, tag) == 0,
    decreases b.len(),
{
    if lacks(a, tag) {
        lacking(a, tag);
    }
    if b.len() == 0 {
        assert(a + b =~= a);
        assert(all_bytes(a, tag) + all_bytes(b, tag) =~= all_bytes(a, tag));
    } else {
        let b0 = b.drop_last();
        sums(a, b0, tag);
        assert((a + b).drop_last() =~= a + b0);
        assert((a + b).last() == b.last());
        assert(b.last() == b[b.len() - 1]);
        if lacks(b, tag) {
            assert forall|i: int| 0 <= i < b0.len() implies (#[trigger] b0[i]).0 != tag by {
                assert(b0[i] == b[i]);
            }
        }
        assert(all_bytes(a + b, tag) =~= all_bytes(a, tag) + all_bytes(b, tag));
        if lacks(a, tag) && lacks(b, tag) {
            assert forall|i: int| 0 <= i < (a + b).len() implies (#[trigger] (a + b)[i]).0 != tag by {
                if i < a.len() {
                    assert(a[i].0 != tag);
                } else {
                    assert(b[i - a.len()].0 != tag);
                }
            }
        }
    }
}

proof fn lacking(a: Seq<(nat, FieldModel)>, tag: nat)
    requires
        lacks(a, tag),
    ensures
        all_bytes(a, tag) == Seq::<Seq<u8>>::empty(),
        last_bytes(a, tag) == Seq::<u8>::empty(),
        last_varint(a, tag) == 0,
    decreases a.len(),
{
    if a.len() > 0 {
        let a0 = a.drop_last();
        assert(a.last() == a[a.len() - 1]);
        assert forall|i: int| 0 <= i < a0.len() implies (#[trigger] a0[i]).0 != tag by {
            assert(a0[i] == a[i]);
        }
        lacking(a0, tag);
    }
}

proof fn fields_bytes_concat(a: Seq<(nat, FieldModel)>, b: Seq<(nat, FieldModel)>)
    ensures
        fields_bytes(a + b) == fields_bytes(a) + fields_bytes(b),
    decreases b.len(),
{
    if b.len() == 0 {
        assert(a + b =~= a);
        assert(fields_bytes(a) + fields_bytes(b) =~= fields_bytes(a));
    } else {
        let b0 = b.drop_last();
        fields_bytes_concat(a, b0);
        assert(a + b =~= (a + b0).push(b.last()));
        assert(b =~= b0.push(b.last()));
        fields_bytes_push(a + b0, b.last());
        fields_bytes_push(b0, b.last());
        assert(fields_bytes(a + b) =~= fields_bytes(a) + fields_bytes(b));
    }
}

/// An integer field that is left out where it is zero.
pub open spec fn opt_varint(tag: nat, v: nat) -> Seq<(nat, FieldModel)> {
    if v == 0 {
        Seq::empty()
    } else {
        seq![(tag, FieldModel::Varint(v))]
    }
}

/// A length-delimited field that is left out where it is empty.
pub open spec fn opt_bytes(tag: nat, v: Seq<u8>) -> Seq<(nat, FieldModel)> {
    if v.len() == 0 {
        Seq::empty()
    } else {
        seq![(tag, FieldModel::Bytes(v))]
    }
}

/// A repeated length-delimited field.
pub open spec fn repeated(tag: nat, v: Seq<Seq<u8>>) -> Seq<(nat, FieldModel)> {
    Seq::new(v.len(), |i: int| (tag, FieldModel::Bytes(v[i])))
}

/// Appends an integer field, unless it is zero, to what holds `done`.
pub(crate) fn put_opt_varint(out: &mut Vec<u8>, tag: u32, v: u64, Ghost(done): Ghost<Seq<(nat, FieldModel)>>)
    requires
        tag < 0x2000_0000,
        old(out)@ == fields_bytes(done),
    ensures
        final(out)@ == fields_bytes(done + opt_varint(tag as nat, v as nat)),
{
    proof {
        fields_bytes_concat(done, opt_varint(tag as nat, v as nat));
        fields_bytes_push(Seq::empty(), (tag as nat, FieldModel::Varint(v as nat)));
        assert(Seq::empty().push((tag as nat, FieldModel::Varint(v as nat))) =~= seq![(tag as nat, FieldModel::Varint(v as nat))]);
        assert(Seq::<u8>::empty() + field_bytes(tag as nat, FieldModel::Varint(v as nat)) =~= field_bytes(
            tag as nat,
            FieldModel::Varint(v as nat),
        ));
    }
    if v != 0 {
        put_varint_field(out, tag, v);
    } else {
        assert(out@ + Seq::<u8>::empty() =~= out@);
    }
}

/// Appends a length-delimited field, unless it is empty, to what holds `done`.
pub(crate) fn put_opt_bytes(out: &mut Vec<u8>, tag: u32, v: &[u8], Ghost(done): Ghost<Seq<(nat, FieldModel)>>)
    requires
        tag < 0x2000_0000,
        old(out)@ == fields_bytes(done),
    ensures
        final(out)@ == fields_bytes(done + opt_bytes(tag as nat, v@)),
{
    if v.len() > 0 {
        put_repeated(out, tag, v, Ghost(done));
        assert(done + opt_bytes(tag as nat, v@) =~= done.push((tag as nat, FieldModel::Bytes(v@))));
    } else {
        assert(done + opt_bytes(tag as nat, v@) =~= done);
    }
}

/// Appends one value of a repeated length-delimited field to what holds `done`.
pub(crate) fn put_repeated(out: &mut Vec<u8>, tag: u32, v: &[u8], Ghost(done): Ghost<Seq<(nat, FieldModel)>>)
    requires
        tag < 0x2000_0000,
        old(out)@ == fields_bytes(done),
    ensures
        final(out)@ == fields_bytes(done.push((tag as nat, FieldModel::Bytes(v@)))),
{
    proof {
        fields_bytes_push(done, (tag as nat, FieldModel::Bytes(v@)));
    }
    put_bytes_field(out, tag, v);
}

/// What a single optional integer field gives.
pub proof fn opt_varint_gives(tag: nat, v: nat, other: nat)
    ensures
        last_varint(opt_varint(tag, v), tag) == v,
        other != tag ==> lacks(opt_varint(tag, v), other),
{
    reveal_with_fuel(last_varint, 2);
    if v != 0 {
        assert(opt_varint(tag, v).drop_last() =~= Seq::empty());
    }
}

/// What a single optional length-delimited field gives.
pub proof fn opt_bytes_gives(tag: nat, v: Seq<u8>, other: nat)
    ensures
        last_bytes(opt_bytes(tag, v), tag) == v,
        other != tag ==> lacks(opt_bytes(tag, v), other),
{
    reveal_with_fuel(last_bytes, 2);
    if v.len() != 0 {
        assert(opt_bytes(tag, v).drop_last() =~= Seq::empty());
    } else {
        assert(v =~= Seq::<u8>::empty());
    }
}

/// What a repeated length-delimited field gives.
pub proof fn repeated_gives(tag: nat, v: Seq<Seq<u8>>, other: nat)
    ensures
        all_bytes(repeated(tag, v), tag) == v,
        other != tag ==> lacks(repeated(tag, v), other),
    decreases v.len(),
{
    if v.len() > 0 {
        let v0 = v.drop_last();
        repeated_gives(tag, v0, other);
        assert(repeated(tag, v).drop_last() =~= repeated(tag, v0));
        assert(v0.push(v.last()) =~= v);
    } else {
        assert(all_bytes(repeated(tag, v), tag) =~= v);
    }
}

/// The value that a sixty-four-bit integer has as a thirty-two-bit field.
pub open spec fn low_32(n: nat) -> u32 {
    (n % 0x1_0000_0000) as u32
}

pub fn low_32_of(v: u64) -> (r: u32)
    ensures
        r == low_32(v as nat),
{
    (v % 0x1_0000_0000) as u32
}

/// Parts of a message, one for each tag: their fields in order.
pub open spec fn pieces(parts: Seq<(nat, Seq<(nat, FieldModel)>)>) -> Seq<(nat, FieldModel)>
    decreases parts.len(),
{
    if parts.len() == 0 {
        Seq::empty()
    } else {
        pieces(parts.drop_last()) + parts.last().1
    }
}

/// Every field has the tag.
pub open spec fn only(fs: Seq<(nat, FieldModel)>, tag: nat) -> bool {
    forall|i: int| 0 <= i < fs.len() ==> (#[trigger] fs[i]).0 == tag
}

pub open spec fn separate(parts: Seq<(nat, Seq<(nat, FieldModel)>)>) -> bool {
    &&& forall|i: int| 0 <= i < parts.len() ==> only((#[trigger] parts[i]).1, parts[i].0)
    &&& forall|i: int, j: int| 0 <= i < j < parts.len() ==> (#[trigger] parts[i]).0 != (#[trigger] parts[j]).0
}

pub proof fn pieces_step(parts: Seq<(nat, Seq<(nat, FieldModel)>)>, n: int)
    requires
        0 <= n < parts.len(),
    ensures
        pieces(parts.take(n + 1)) == pieces(parts.take(n)) + parts[n].1,
{
    assert(parts.take(n + 1).drop_last() =~= parts.take(n));
}

proof fn pieces_lack(parts: Seq<(nat, Seq<(nat, FieldModel)>)>, tag: nat)
    requires
        separate(parts),
        forall|i: int| 0 <= i < parts.len() ==> (#[trigger] parts[i]).0 != tag,
    ensures
        lacks(pieces(parts), tag),
    decreases parts.len(),
{
    if parts.len() > 0 {
        let p0 = parts.drop_last();
        assert forall|i: int| 0 <= i < p0.len() implies (#[trigger] p0[i]).0 != tag && only(p0[i].1, p0[i].0) by {
            assert(p0[i] == parts[i]);
        }
        assert(separate(p0));
        pieces_lack(p0, tag);
        assert(parts.last() == parts[parts.len() - 1]);
        assert(lacks(parts.last().1, tag));
        sums(pieces(p0), parts.last().1, tag);
    }
}

/// What a tag gives in a message is what its part gives.
pub proof fn pieces_give(parts: Seq<(nat, Seq<(nat, FieldModel)>)>, i: int)
    requires
        separate(parts),
        0 <= i < parts.len(),
    ensures
        last_varint(pieces(parts), parts[i].0) == last_varint(parts[i].1, parts[i].0),
        last_bytes(pieces(parts), parts[i].0) == last_bytes(parts[i].1, parts[i].0),
        all_bytes(pieces(parts), parts[i].0) == all_bytes(parts[i].1, parts[i].0),
    decreases parts.len(),
{
    let tag = parts[i].0;
    let p0 = parts.drop_last();
    assert forall|j: int| 0 <= j < p0.len() implies only((#[trigger] p0[j]).1, p0[j].0) by {
        assert(p0[j] == parts[j]);
    }
    assert(separate(p0));
    assert(parts.last() == parts[parts.len() - 1]);
    if i == parts.len() - 1 {
        pieces_lack(p0, tag);
        sums(pieces(p0), parts.last().1, tag);
        assert(all_bytes(pieces(parts), tag) =~= all_bytes(parts[i].1, tag));
    } else {
        assert(p0[i] == parts[i]);
        pieces_give(p0, i);
        assert(lacks(parts.last().1, tag));
        sums(pieces(p0), parts.last().1, tag);
        sums(parts.last().1, Seq::empty(), tag);
        assert(all_bytes(pieces(parts), tag) =~= all_bytes(parts[i].1, tag));
    }
}

/// What holds of every field of every part holds of every field of the message.
pub proof fn pieces_keep(parts: Seq<(nat, Seq<(nat, FieldModel)>)>, p: spec_fn((nat, FieldModel)) -> bool)
    requires
        forall|i: int, j: int| 0 <= i < parts.len() && 0 <= j < (#[trigger] parts[i]).1.len() ==> p(#[trigger] parts[i].1[j]),
    ensures
        forall|i: int| 0 <= i < pieces(parts).len() ==> p(#[trigger] pieces(parts)[i]),
    decreases parts.len(),
{
    if parts.len() > 0 {
        let p0 = parts.drop_last();
        assert forall|i: int, j: int| 0 <= i < p0.len() && 0 <= j < (#[trigger] p0[i]).1.len() implies p(#[trigger] p0[i].1[j]) by {
            assert(p0[i] == parts[i]);
            assert(p(parts[i].1[j]));
        }
        pieces_keep(p0, p);
        let all = pieces(parts);
        let n = pieces(p0).len();
        assert forall|i: int| 0 <= i < all.len() implies p(#[trigger] all[i]) by {
            if i < n {
                assert(all[i] == pieces(p0)[i]);
            } else {
                assert(all[i] == parts[parts.len() - 1].1[i - n]);
            }
        }
    }
}

/// What a varint is worth: seven bits a byte, the lowest first.
pub open spec fn septets(b: Seq<u8>) -> nat
    decreases b.len(),
{
    if b.len() == 0 {
        0
    } else {
        b[0] as nat % 128 + 128 * septets(b.drop_first())
    }
}

/// A varint is worth the number that was written; each byte but its last has the high bit set, and the last has not.
pub proof fn what_a_varint_is_worth(n: nat)
    ensures
        varint(n).len() > 0,
        septets(varint(n)) == n,
        varint(n).last() < 128,
        forall|i: int| 0 <= i < varint(n).len() - 1 ==> #[trigger] varint(n)[i] >= 128,
    decreases n,
{
    let b = varint(n);
    if n < 128 {
        assert(b.drop_first() =~= Seq::<u8>::empty());
        assert(septets(b.drop_first()) == 0);
    } else {
        what_a_varint_is_worth(n / 128);
        let rest = varint(n / 128);
        assert(b.drop_first() =~= rest);
        assert(b.last() == rest.last());
        assert forall|i: int| 0 <= i < b.len() - 1 implies #[trigger] b[i] >= 128 by {
            if i > 0 {
                assert(b[i] == rest[i - 1]);
            }
        }
    }
}

/// A field is written under its number, eight times which and its wire type make its key.
pub proof fn what_a_field_is_written_as(tag: nat, n: nat, b: Seq<u8>)
    ensures
        field_bytes(tag, FieldModel::Varint(n)) == varint(8 * tag) + varint(n),
        field_bytes(tag, FieldModel::Bytes(b)) == varint(8 * tag + 2) + (varint(b.len()) + b),
{
}

} // verus!
