//! Reading a keyring's message field by field: what its fields hold, or where and why it cannot be read.

use vstd::prelude::*;

use crate::protobuf::{
    all_bytes, bare, delimited_read, delimited_trouble, delimited_words, field_bytes, field_fits, field_key_read, field_models,
    field_reads_back, fields_bytes, key_trouble, key_words, mismatch, mismatch_words, of_kind, pass_over, pass_over_within,
    skipped, skipped_within, take_delimited, take_field_key, take_value, value_read, varint_read_bounds, Fault, Field, FieldKind, FieldModel,
    Trouble,
};

verus! {

/// The messages that a keyring holds within its own.
#[derive(Clone, Copy, Debug, PartialEq, Eq, Structural)]
pub enum Nested {
    Member,
    Signature,
    Recovery,
}

/// What a nested message's field holds, and how the field is called in an account.
pub open spec fn nested_field(m: Nested, tag: nat) -> Option<(FieldKind, Seq<char>)> {
    match m {
        Nested::Member => if tag == 1 {
            Some((FieldKind::Text, "Member.member_id: "@))
        } else if tag == 2 {
            Some((FieldKind::Varint, "Member.role: "@))
        } else if tag == 3 {
            Some((FieldKind::Bytes, "Member.author_public_key: "@))
        } else if tag == 4 {
            Some((FieldKind::Bytes, "Member.hpke_public_key: "@))
        } else {
            None
        },
        Nested::Signature => if tag == 1 {
            Some((FieldKind::Bytes, "KeyringSignature.signer_public_key: "@))
        } else if tag == 2 {
            Some((FieldKind::Bytes, "KeyringSignature.signature: "@))
        } else {
            None
        },
        Nested::Recovery => if tag == 1 {
            Some((FieldKind::Bytes, "RecoveryKey.public_key: "@))
        } else if tag == 2 {
            Some((FieldKind::Text, "RecoveryKey.member_id: "@))
        } else if tag == 3 {
            Some((FieldKind::Bytes, "RecoveryKey.wraps: "@))
        } else if tag == 4 {
            Some((FieldKind::Bytes, "RecoveryKey.recovery_verifying_key: "@))
        } else {
            None
        },
    }
}

fn field_of_nested(m: Nested, tag: u32) -> (r: Option<(FieldKind, &'static str)>)
    ensures
        match r {
            Some((kind, place)) => nested_field(m, tag as nat) == Some((kind, place@)),
            None => nested_field(m, tag as nat) is None,
        },
{
    match m {
        Nested::Member => {
            if tag == 1 {
                Some((FieldKind::Text, "Member.member_id: "))
            } else if tag == 2 {
                Some((FieldKind::Varint, "Member.role: "))
            } else if tag == 3 {
                Some((FieldKind::Bytes, "Member.author_public_key: "))
            } else if tag == 4 {
                Some((FieldKind::Bytes, "Member.hpke_public_key: "))
            } else {
                None
            }
        },
        Nested::Signature => {
            if tag == 1 {
                Some((FieldKind::Bytes, "KeyringSignature.signer_public_key: "))
            } else if tag == 2 {
                Some((FieldKind::Bytes, "KeyringSignature.signature: "))
            } else {
                None
            }
        },
        Nested::Recovery => {
            if tag == 1 {
                Some((FieldKind::Bytes, "RecoveryKey.public_key: "))
            } else if tag == 2 {
                Some((FieldKind::Text, "RecoveryKey.member_id: "))
            } else if tag == 3 {
                Some((FieldKind::Bytes, "RecoveryKey.wraps: "))
            } else if tag == 4 {
                Some((FieldKind::Bytes, "RecoveryKey.recovery_verifying_key: "))
            } else {
                None
            }
        },
    }
}

/// Reads the value of a field, known or not, of a nested message or of a keyring itself: the value and how many bytes it
/// takes, or what is wrong.
pub open spec fn any_value_read(
    known: Option<(FieldKind, Seq<char>)>,
    within: bool,
    tag: nat,
    wire_type: nat,
    b: Seq<u8>,
) -> Result<(FieldModel, nat), Fault> {
    match known {
        Some((kind, place)) => match value_read(kind, wire_type, b) {
            Ok(v) => Ok(v),
            Err(what) => Err(Fault { path: place, what }),
        },
        None => match (if within {
            skipped_within(wire_type, tag, b)
        } else {
            skipped(wire_type, tag, b)
        }) {
            Ok(used) => Ok((FieldModel::Other, used)),
            Err(what) => Err(bare(what)),
        },
    }
}

fn take_any_value(
    known: Option<(FieldKind, &'static str)>,
    within: bool,
    tag: u32,
    wire_type: u64,
    bytes: &[u8],
) -> (r: Result<(Field, usize), Trouble>)
    requires
        wire_type <= 5,
        tag < 0x2000_0000,
    ensures
        ({
            let k = match known {
                Some((kind, place)) => Some((kind, place@)),
                None => None,
            };
            match r {
                Ok((v, used)) => any_value_read(k, within, tag as nat, wire_type as nat, bytes@) == Ok::<(FieldModel, nat), Fault>(
                    (v.model(), used as nat),
                ) && used <= bytes@.len(),
                Err(e) => any_value_read(k, within, tag as nat, wire_type as nat, bytes@) == Err::<(FieldModel, nat), Fault>(e@),
            }
        }),
{
    match known {
        Some((kind, place)) => match take_value(kind, wire_type, bytes) {
            Ok(v) => Ok(v),
            Err(what) => Err(Trouble::at(place, what)),
        },
        None => {
            let passed = if within {
                pass_over_within(wire_type, tag, bytes)
            } else {
                pass_over(wire_type, tag, bytes)
            };
            match passed {
                Ok(used) => Ok((Field::Other, used)),
                Err(what) => Err(Trouble::bare(what)),
            }
        },
    }
}

/// Reads the fields of the message that stands at `at` in `b` and goes up to `end`, within a keyring or alone, in the order
/// in which they are written, or the first fault. A field is read from what is left of `b`; one that goes on past the end of its message is
/// a fault. None takes more bytes than are left.
pub open spec fn nested_read(m: Nested, within: bool, b: Seq<u8>, at: nat, end: nat) -> Result<Seq<(nat, FieldModel)>, Fault>
    decreases b.len() - at,
{
    if at == end {
        Ok(Seq::empty())
    } else if at > end {
        Err(bare("delimited length exceeded"@))
    } else {
        match field_key_read(b.skip(at as int)) {
            None => Err(bare(key_words(b.skip(at as int)))),
            Some((tag, wire_type, used)) => match any_value_read(
                nested_field(m, tag),
                within,
                tag,
                wire_type,
                b.skip((at + used) as int),
            ) {
                Err(f) => Err(f),
                Ok((v, n)) => if 0 < used + n <= b.len() - at {
                    match nested_read(m, within, b, at + used + n, end) {
                        Ok(rest) => Ok(seq![(tag, v)] + rest),
                        Err(f) => Err(f),
                    }
                } else {
                    Err(bare(Seq::empty()))
                },
            },
        }
    }
}

/// What has been read, followed by what is still to be read.
pub open spec fn read_on<T>(done: Seq<T>, rest: Result<Seq<T>, Fault>) -> Result<Seq<T>, Fault> {
    match rest {
        Ok(more) => Ok(done + more),
        Err(f) => Err(f),
    }
}

/// A field of a nested message whose value is of the field's kind.
pub open spec fn typed(m: Nested, f: (nat, FieldModel)) -> bool {
    nested_field(m, f.0) matches Some((kind, _)) ==> of_kind(kind, f.1)
}

/// Reads the fields of the message that stands at `start` and goes up to `end`.
pub(crate) fn take_nested(m: Nested, within: bool, bytes: &[u8], start: usize, end: usize) -> (r: Result<
    Vec<(u32, Field)>,
    Trouble,
>)
    requires
        start <= end <= bytes@.len(),
    ensures
        match r {
            Ok(v) => nested_read(m, within, bytes@, start as nat, end as nat) == Ok::<Seq<(nat, FieldModel)>, Fault>(field_models(v@))
                && forall|i: int| 0 <= i < v@.len() ==> typed(m, #[trigger] field_models(v@)[i]),
            Err(e) => nested_read(m, within, bytes@, start as nat, end as nat) == Err::<Seq<(nat, FieldModel)>, Fault>(e@),
        },
{
    let mut out: Vec<(u32, Field)> = Vec::new();
    let mut at: usize = start;
    let ghost b = bytes@;
    let ghost whole = nested_read(m, within, b, start as nat, end as nat);
    proof {
        if let Ok(rest) = whole {
            assert(field_models(out@) + rest =~= rest);
        }
    }
    while at < end
        invariant
            at <= bytes@.len(),
            end <= bytes@.len(),
            b == bytes@,
            whole == nested_read(m, within, b, start as nat, end as nat),
            whole == read_on(field_models(out@), nested_read(m, within, b, at as nat, end as nat)),
            forall|i: int| 0 <= i < out@.len() ==> typed(m, #[trigger] field_models(out@)[i]),
        decreases bytes.len() - at,
    {
        let here = vstd::slice::slice_subrange(bytes, at, bytes.len());
        assert(here@ =~= b.skip(at as int));
        let ghost done = field_models(out@);
        let (tag, wire_type, used) = match take_field_key(here) {
            Some(key) => key,
            None => {
                return Err(Trouble::bare(key_trouble(here)));
            },
        };
        proof {
            varint_read_bounds(here@, 0);
        }
        let rest = vstd::slice::slice_subrange(here, used, here.len());
        assert(rest@ =~= b.skip((at + used) as int));
        let known = field_of_nested(m, tag);
        match take_any_value(known, within, tag, wire_type, rest) {
            Err(e) => {
                return Err(e);
            },
            Ok((value, n)) => {
                let ghost f = (tag as nat, value.model());
                out.push((tag, value));
                proof {
                    assert(field_models(out@) =~= done.push(f));
                    let after = nested_read(m, within, b, (at + used + n) as nat, end as nat);
                    if let Ok(more) = after {
                        assert(done + (seq![f] + more) =~= done.push(f) + more);
                    }
                    assert(typed(m, f)) by {
                        if let Some((kind, _)) = nested_field(m, tag as nat) {
                            assert(value_read(kind, wire_type as nat, rest@) is Ok);
                        }
                    }
                    assert forall|i: int| 0 <= i < out@.len() implies typed(m, #[trigger] field_models(out@)[i]) by {
                        if i < done.len() {
                            assert(field_models(out@)[i] == done[i]);
                        }
                    }
                }
                at = at + used + n;
            },
        }
    }
    if at != end {
        return Err(Trouble::bare("delimited length exceeded".to_owned()));
    }
    assert(field_models(out@) + Seq::<(nat, FieldModel)>::empty() =~= field_models(out@));
    Ok(out)
}

/// What a plain field of a keyring holds, and how the field is called in an account.
pub open spec fn keyring_field(tag: nat) -> Option<(FieldKind, Seq<char>)> {
    if tag == 1 {
        Some((FieldKind::Bytes, "Keyring.tree_id: "@))
    } else if tag == 2 {
        Some((FieldKind::Bytes, "Keyring.epochs: "@))
    } else if tag == 3 {
        Some((FieldKind::Varint, "Keyring.revision: "@))
    } else if tag == 6 {
        Some((FieldKind::Varint, "Keyring.layout_version: "@))
    } else if tag == 7 {
        Some((FieldKind::Bytes, "Keyring.prev_keyring_hash: "@))
    } else if tag == 12 {
        Some((FieldKind::Varint, "Keyring.governance_kind: "@))
    } else if tag == 13 {
        Some((FieldKind::Varint, "Keyring.governance_threshold: "@))
    } else if tag == 14 {
        Some((FieldKind::Varint, "Keyring.first_shared_revision: "@))
    } else {
        None
    }
}

fn field_of_keyring(tag: u32) -> (r: Option<(FieldKind, &'static str)>)
    ensures
        match r {
            Some((kind, place)) => keyring_field(tag as nat) == Some((kind, place@)),
            None => keyring_field(tag as nat) is None,
        },
{
    if tag == 1 {
        Some((FieldKind::Bytes, "Keyring.tree_id: "))
    } else if tag == 2 {
        Some((FieldKind::Bytes, "Keyring.epochs: "))
    } else if tag == 3 {
        Some((FieldKind::Varint, "Keyring.revision: "))
    } else if tag == 6 {
        Some((FieldKind::Varint, "Keyring.layout_version: "))
    } else if tag == 7 {
        Some((FieldKind::Bytes, "Keyring.prev_keyring_hash: "))
    } else if tag == 12 {
        Some((FieldKind::Varint, "Keyring.governance_kind: "))
    } else if tag == 13 {
        Some((FieldKind::Varint, "Keyring.governance_threshold: "))
    } else if tag == 14 {
        Some((FieldKind::Varint, "Keyring.first_shared_revision: "))
    } else {
        None
    }
}

/// The message that a field of a keyring nests, and how the field is called in an account.
pub open spec fn keyring_nests(tag: nat) -> Option<(Nested, Seq<char>)> {
    if tag == 9 {
        Some((Nested::Member, "Keyring.members: "@))
    } else if tag == 10 {
        Some((Nested::Signature, "Keyring.signatures: "@))
    } else if tag == 11 {
        Some((Nested::Recovery, "Keyring.recovery_keys: "@))
    } else {
        None
    }
}

fn nested_in_keyring(tag: u32) -> (r: Option<(Nested, &'static str)>)
    ensures
        match r {
            Some((m, place)) => keyring_nests(tag as nat) == Some((m, place@)),
            None => keyring_nests(tag as nat) is None,
        },
{
    if tag == 9 {
        Some((Nested::Member, "Keyring.members: "))
    } else if tag == 10 {
        Some((Nested::Signature, "Keyring.signatures: "))
    } else if tag == 11 {
        Some((Nested::Recovery, "Keyring.recovery_keys: "))
    } else {
        None
    }
}

/// One field of a keyring: its tag, its value, and the fields of the message that it nests, if it nests one.
pub struct PartModel {
    pub tag: nat,
    pub value: FieldModel,
    pub inside: Seq<(nat, FieldModel)>,
}

/// One field of a keyring in memory.
pub struct Part {
    pub tag: u32,
    pub value: Field,
    pub inside: Vec<(u32, Field)>,
}

impl Part {
    pub open spec fn model(self) -> PartModel {
        PartModel { tag: self.tag as nat, value: self.value.model(), inside: field_models(self.inside@) }
    }

    /// What is nested is of the kinds that its fields have.
    pub open spec fn wf(self) -> bool {
        keyring_nests(self.tag as nat) matches Some((m, _)) ==> forall|i: int|
            0 <= i < self.inside@.len() ==> typed(m, #[trigger] field_models(self.inside@)[i])
    }
}

/// Reads the value of a keyring's field, which stands at `at`: the field and how many bytes its value takes, or the first
/// fault.
pub open spec fn part_read(tag: nat, wire_type: nat, b: Seq<u8>, at: nat) -> Result<(PartModel, nat), Fault> {
    let here = b.skip(at as int);
    match keyring_nests(tag) {
        Some((m, place)) => if wire_type != 2 {
            Err(Fault { path: place, what: mismatch_words(wire_type, 2) })
        } else {
            match delimited_read(here) {
                None => Err(Fault { path: place, what: delimited_words(here) }),
                Some((body, used)) => match nested_read(m, true, b, (at + used - body.len()) as nat, at + used) {
                    Ok(inside) => Ok((PartModel { tag, value: FieldModel::Bytes(body), inside }, used)),
                    Err(f) => Err(Fault { path: f.path + place, what: f.what }),
                },
            }
        },
        None => match any_value_read(keyring_field(tag), false, tag, wire_type, here) {
            Ok((value, used)) => Ok((PartModel { tag, value, inside: Seq::empty() }, used)),
            Err(f) => Err(f),
        },
    }
}

/// Reads the fields of a keyring from `at` on, in the order in which they are written, or the first fault.
pub open spec fn parts_read(b: Seq<u8>, at: nat) -> Result<Seq<PartModel>, Fault>
    decreases b.len() - at,
{
    if at >= b.len() {
        Ok(Seq::empty())
    } else {
        match field_key_read(b.skip(at as int)) {
            None => Err(bare(key_words(b.skip(at as int)))),
            Some((tag, wire_type, used)) => match part_read(tag, wire_type, b, at + used) {
                Err(f) => Err(f),
                Ok((part, n)) => if 0 < used + n <= b.len() - at {
                    read_on(seq![part], parts_read(b, at + used + n))
                } else {
                    Err(bare(Seq::empty()))
                },
            },
        }
    }
}

fn take_part(tag: u32, wire_type: u64, bytes: &[u8], at: usize) -> (r: Result<(Part, usize), Trouble>)
    requires
        wire_type <= 5,
        tag < 0x2000_0000,
        at <= bytes@.len(),
    ensures
        match r {
            Ok((part, used)) => part_read(tag as nat, wire_type as nat, bytes@, at as nat) == Ok::<(PartModel, nat), Fault>(
                (part.model(), used as nat),
            ) && used <= bytes@.len() - at && part.wf() && part.tag == tag,
            Err(e) => part_read(tag as nat, wire_type as nat, bytes@, at as nat) == Err::<(PartModel, nat), Fault>(e@),
        },
{
    let here = vstd::slice::slice_subrange(bytes, at, bytes.len());
    assert(here@ =~= bytes@.skip(at as int));
    match nested_in_keyring(tag) {
        Some((m, place)) => {
            if wire_type != 2 {
                return Err(Trouble::at(place, mismatch(wire_type, 2)));
            }
            proof {
                varint_read_bounds(here@, 0);
            }
            match take_delimited(here) {
                None => Err(Trouble::at(place, delimited_trouble(here))),
                Some((body, used)) => {
                    let end: usize = at + used;
                    match take_nested(m, true, bytes, end - body.len(), end) {
                        Ok(inside) => Ok((Part { tag, value: Field::Bytes(body), inside }, used)),
                        Err(e) => Err(e.within(place)),
                    }
                },
            }
        },
        None => match take_any_value(field_of_keyring(tag), false, tag, wire_type, here) {
            Ok((value, used)) => {
                let inside: Vec<(u32, Field)> = Vec::new();
                assert(field_models(inside@) =~= Seq::<(nat, FieldModel)>::empty());
                Ok((Part { tag, value, inside }, used))
            },
            Err(e) => Err(e),
        },
    }
}

/// The fields of a keyring.
pub open spec fn part_models(s: Seq<Part>) -> Seq<PartModel> {
    Seq::new(s.len(), |i: int| s[i].model())
}

/// Reads the fields of a keyring.
pub(crate) fn take_parts(bytes: &[u8]) -> (r: Result<Vec<Part>, Trouble>)
    ensures
        match r {
            Ok(v) => parts_read(bytes@, 0) == Ok::<Seq<PartModel>, Fault>(part_models(v@)) && forall|i: int|
                0 <= i < v@.len() ==> (#[trigger] v@[i]).wf(),
            Err(e) => parts_read(bytes@, 0) == Err::<Seq<PartModel>, Fault>(e@),
        },
{
    let mut out: Vec<Part> = Vec::new();
    let mut at: usize = 0;
    let ghost b = bytes@;
    proof {
        if let Ok(rest) = parts_read(b, 0) {
            assert(part_models(out@) + rest =~= rest);
        }
    }
    while at < bytes.len()
        invariant
            at <= bytes@.len(),
            b == bytes@,
            parts_read(b, 0) == read_on(part_models(out@), parts_read(b, at as nat)),
            forall|i: int| 0 <= i < out@.len() ==> (#[trigger] out@[i]).wf(),
        decreases bytes.len() - at,
    {
        let here = vstd::slice::slice_subrange(bytes, at, bytes.len());
        assert(here@ =~= b.skip(at as int));
        let ghost done = part_models(out@);
        let (tag, wire_type, used) = match take_field_key(here) {
            Some(key) => key,
            None => {
                return Err(Trouble::bare(key_trouble(here)));
            },
        };
        proof {
            varint_read_bounds(here@, 0);
        }
        match take_part(tag, wire_type, bytes, at + used) {
            Err(e) => {
                return Err(e);
            },
            Ok((part, n)) => {
                let ghost p = part.model();
                out.push(part);
                proof {
                    assert(part_models(out@) =~= done.push(p));
                    if let Ok(more) = parts_read(b, (at + used + n) as nat) {
                        assert(done + (seq![p] + more) =~= done.push(p) + more);
                    }
                }
                at = at + used + n;
            },
        }
    }
    assert(part_models(out@) + Seq::<PartModel>::empty() =~= part_models(out@));
    Ok(out)
}

/// The fields without what they nest.
pub open spec fn outer(parts: Seq<PartModel>) -> Seq<(nat, FieldModel)> {
    Seq::new(parts.len(), |i: int| (parts[i].tag, parts[i].value))
}

/// What every field with a tag nests, in order.
pub open spec fn insides(parts: Seq<PartModel>, tag: nat) -> Seq<Seq<(nat, FieldModel)>>
    decreases parts.len(),
{
    if parts.len() == 0 {
        Seq::empty()
    } else {
        let before = insides(parts.drop_last(), tag);
        if parts.last().tag == tag && parts.last().value is Bytes {
            before.push(parts.last().inside)
        } else {
            before
        }
    }
}

/// These are fields of a nested message that can be written.
pub open spec fn writable(m: Nested, fs: Seq<(nat, FieldModel)>) -> bool {
    forall|i: int| 0 <= i < fs.len() ==> field_fits(#[trigger] fs[i]) && nested_field(m, fs[i].0) is Some && typed(m, fs[i])
}

proof fn nested_field_reads_back(m: Nested, within: bool, f: (nat, FieldModel), before: Seq<u8>, tail: Seq<u8>)
    requires
        field_fits(f),
        nested_field(m, f.0) is Some,
        typed(m, f),
    ensures
        field_key_read((before + field_bytes(f.0, f.1) + tail).skip(before.len() as int)) matches Some((tag, wire_type, used))
            && tag == f.0 && 0 < used < field_bytes(f.0, f.1).len() && any_value_read(
            nested_field(m, tag),
            within,
            tag,
            wire_type,
            (before + field_bytes(f.0, f.1) + tail).skip((before.len() + used) as int),
        ) == Ok::<(FieldModel, nat), Fault>((f.1, (field_bytes(f.0, f.1).len() - used) as nat)),
{
    let one = field_bytes(f.0, f.1);
    let b = before + one + tail;
    assert(b.skip(before.len() as int) =~= one + tail);
    field_reads_back(f.0, f.1, tail);
    let (_, _, used) = field_key_read(one + tail)->0;
    assert(b.skip((before.len() + used) as int) =~= (one + tail).skip(used as int));
    let (kind, _) = nested_field(m, f.0)->0;
    assert(of_kind(kind, f.1));
}

/// Reading a message gives back the fields that were written, wherever it stands.
pub proof fn nested_reads_back(m: Nested, within: bool, fs: Seq<(nat, FieldModel)>, before: Seq<u8>, after: Seq<u8>)
    requires
        writable(m, fs),
    ensures
        nested_read(m, within, before + fields_bytes(fs) + after, before.len(), before.len() + fields_bytes(fs).len()) == Ok::<
            Seq<(nat, FieldModel)>,
            Fault,
        >(fs),
    decreases fs.len(),
{
    let b = before + fields_bytes(fs) + after;
    if fs.len() == 0 {
        assert(fs =~= Seq::<(nat, FieldModel)>::empty());
    } else {
        let f = fs[0];
        let rest = fs.drop_first();
        let one = field_bytes(f.0, f.1);
        assert forall|i: int| 0 <= i < rest.len() implies field_fits(#[trigger] rest[i]) && nested_field(m, rest[i].0) is Some
            && typed(m, rest[i]) by {
            assert(rest[i] == fs[i + 1]);
        }
        nested_reads_back(m, within, rest, before + one, after);
        assert(before + one + fields_bytes(rest) + after =~= b);
        nested_field_reads_back(m, within, f, before, fields_bytes(rest) + after);
        assert(before + one + (fields_bytes(rest) + after) =~= b);
        assert(seq![f] + rest =~= fs);
    }
}

/// These bytes are the message that these fields make.
pub open spec fn spells(m: Nested, body: Seq<u8>, fs: Seq<(nat, FieldModel)>) -> bool {
    body == fields_bytes(fs) && writable(m, fs)
}

/// A field of a keyring that can be written.
pub open spec fn keyring_writable(f: (nat, FieldModel)) -> bool {
    &&& field_fits(f)
    &&& match keyring_nests(f.0) {
        Some((m, _)) => f.1 matches FieldModel::Bytes(body) && exists|fs: Seq<(nat, FieldModel)>| #[trigger] spells(m, body, fs),
        None => keyring_field(f.0) matches Some((kind, _)) && of_kind(kind, f.1),
    }
}

/// The fields of a nested message, by its own bytes.
pub open spec fn alone(m: Nested, body: Seq<u8>) -> Seq<(nat, FieldModel)> {
    nested_read(m, true, body, 0, body.len())->Ok_0
}

/// The field with what it nests.
pub open spec fn part_of(f: (nat, FieldModel)) -> PartModel {
    PartModel {
        tag: f.0,
        value: f.1,
        inside: match (keyring_nests(f.0), f.1) {
            (Some((m, _)), FieldModel::Bytes(body)) => alone(m, body),
            _ => Seq::empty(),
        },
    }
}

/// The fields with what they nest.
pub open spec fn parts_of(fs: Seq<(nat, FieldModel)>) -> Seq<PartModel> {
    Seq::new(fs.len(), |i: int| part_of(fs[i]))
}

/// A message reads as its fields by its own bytes.
pub proof fn alone_reads_back(m: Nested, within: bool, fs: Seq<(nat, FieldModel)>)
    requires
        writable(m, fs),
    ensures
        nested_read(m, within, fields_bytes(fs), 0, fields_bytes(fs).len()) == Ok::<Seq<(nat, FieldModel)>, Fault>(fs),
{
    nested_reads_back(m, within, fs, Seq::empty(), Seq::empty());
    assert(Seq::<u8>::empty() + fields_bytes(fs) + Seq::<u8>::empty() =~= fields_bytes(fs));
}

proof fn nested_part_reads_back(m: Nested, tag: nat, body: Seq<u8>, before: Seq<u8>, tail: Seq<u8>, used: nat)
    requires
        keyring_writable((tag, FieldModel::Bytes(body))),
        keyring_nests(tag) matches Some((n, _)) && n == m,
        used <= field_bytes(tag, FieldModel::Bytes(body)).len(),
        delimited_read((field_bytes(tag, FieldModel::Bytes(body)) + tail).skip(used as int)) == Some(
            (body, (field_bytes(tag, FieldModel::Bytes(body)).len() - used) as nat),
        ),
    ensures
        part_read(tag, 2, before + field_bytes(tag, FieldModel::Bytes(body)) + tail, before.len() + used) == Ok::<
            (PartModel, nat),
            Fault,
        >((part_of((tag, FieldModel::Bytes(body))), (field_bytes(tag, FieldModel::Bytes(body)).len() - used) as nat)),
{
    let one = field_bytes(tag, FieldModel::Bytes(body));
    let b = before + one + tail;
    let inner = choose|inner: Seq<(nat, FieldModel)>| #[trigger] spells(m, body, inner);
    alone_reads_back(m, true, inner);
    assert(b.skip((before.len() + used) as int) =~= (one + tail).skip(used as int));
    let front = one.take(one.len() - body.len());
    assert(one =~= front + body);
    nested_reads_back(m, true, inner, before + front, tail);
    assert(before + front + body + tail =~= b);
}

proof fn part_reads_back(f: (nat, FieldModel), before: Seq<u8>, tail: Seq<u8>)
    requires
        keyring_writable(f),
    ensures
        field_key_read((before + field_bytes(f.0, f.1) + tail).skip(before.len() as int)) matches Some((tag, wire_type, used))
            && tag == f.0 && 0 < used < field_bytes(f.0, f.1).len() && part_read(
            tag,
            wire_type,
            before + field_bytes(f.0, f.1) + tail,
            before.len() + used,
        ) == Ok::<(PartModel, nat), Fault>((part_of(f), (field_bytes(f.0, f.1).len() - used) as nat)),
{
    let one = field_bytes(f.0, f.1);
    let b = before + one + tail;
    assert(b.skip(before.len() as int) =~= one + tail);
    field_reads_back(f.0, f.1, tail);
    let (_, wire_type, used) = field_key_read(one + tail)->0;
    match keyring_nests(f.0) {
        Some((m, _)) => {
            nested_part_reads_back(m, f.0, f.1->Bytes_0, before, tail, used);
        },
        None => {
            assert(b.skip((before.len() + used) as int) =~= (one + tail).skip(used as int));
            let (kind, _) = keyring_field(f.0)->0;
            assert(of_kind(kind, f.1));
        },
    }
}

/// Reading a keyring gives back the fields that were written.
pub proof fn parts_read_back(fs: Seq<(nat, FieldModel)>, before: Seq<u8>)
    requires
        forall|i: int| 0 <= i < fs.len() ==> keyring_writable(#[trigger] fs[i]),
    ensures
        parts_read(before + fields_bytes(fs), before.len()) == Ok::<Seq<PartModel>, Fault>(parts_of(fs)),
    decreases fs.len(),
{
    let b = before + fields_bytes(fs);
    if fs.len() == 0 {
        assert(parts_of(fs) =~= Seq::<PartModel>::empty());
    } else {
        let f = fs[0];
        let rest = fs.drop_first();
        let one = field_bytes(f.0, f.1);
        assert forall|i: int| 0 <= i < rest.len() implies keyring_writable(#[trigger] rest[i]) by {
            assert(rest[i] == fs[i + 1]);
        }
        parts_read_back(rest, before + one);
        assert(before + one + fields_bytes(rest) =~= b);
        part_reads_back(f, before, fields_bytes(rest));
        assert(seq![part_of(f)] + parts_of(rest) =~= parts_of(fs));
    }
}

/// What written fields nest is what their bodies read as.
pub proof fn insides_of_written(fs: Seq<(nat, FieldModel)>, tag: nat, m: Nested)
    requires
        keyring_nests(tag) matches Some((n, _)) && n == m,
    ensures
        outer(parts_of(fs)) == fs,
        insides(parts_of(fs), tag) == all_bytes(fs, tag).map_values(|body: Seq<u8>| alone(m, body)),
    decreases fs.len(),
{
    assert(outer(parts_of(fs)) =~= fs);
    let f = |body: Seq<u8>| alone(m, body);
    if fs.len() > 0 {
        insides_of_written(fs.drop_last(), tag, m);
        assert(parts_of(fs).drop_last() =~= parts_of(fs.drop_last()));
        assert(parts_of(fs).last() == part_of(fs.last()));
        match fs.last() {
            (t, FieldModel::Bytes(body)) => {
                if t == tag {
                    assert(all_bytes(fs.drop_last(), tag).push(body).map_values(f) =~= all_bytes(fs.drop_last(), tag).map_values(
                        f,
                    ).push(alone(m, body)));
                }
            },
            _ => {},
        }
    } else {
        assert(insides(parts_of(fs), tag) =~= all_bytes(fs, tag).map_values(f));
    }
}

} // verus!
