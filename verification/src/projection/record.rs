//! Records and claims, and what each kind of claim says.

use vstd::prelude::*;

use crate::clock::Hlc;
use crate::order::{text_before, text_equal, text_less, Key};
use crate::projection::value::{Json, Value};

verus! {

pub const TYPE_PERSON: &'static str = "openom.org/core/person/v1";
pub const TYPE_EVENT: &'static str = "openom.org/core/event/v1";
pub const P_NAME: &'static str = "openom.org/core/name/v1";
pub const P_EVENT_TYPE: &'static str = "openom.org/core/event_type/v1";
pub const P_DATE: &'static str = "openom.org/core/date/v1";
pub const P_EVENT_PLACE: &'static str = "openom.org/core/event_place/v1";
pub const P_PARTICIPANT: &'static str = "openom.org/core/participant/v1";
pub const P_SEX: &'static str = "openom.org/core/sex/v1";
pub const P_BIOGRAPHY: &'static str = "openom.org/core/biography/v1";
pub const P_SAME_AS: &'static str = "openom.org/core/same_as/v1";
pub const P_DIFFERENT_FROM: &'static str = "openom.org/core/different_from/v1";
pub const P_REATTRIBUTE: &'static str = "openom.org/core/reattribute_to/v1";
pub const P_PREFERRED: &'static str = "openom.org/core/preferred/v1";
pub const P_PARENT: &'static str = "openom.org/core/parent/v1";
pub const P_PARTNERSHIP: &'static str = "openom.org/core/partnership/v1";
/// A custom field's definition.
pub const P_CUSTOM_FIELD: &'static str = "openom.org/core/custom/field/v1";
/// A custom field's value on a person.
pub const P_CUSTOM_VALUE: &'static str = "openom.org/core/custom/value/v1";
pub const P_ATTEST: &'static str = "openom.org/core/attest/v1";
pub const P_SOURCE: &'static str = "openom.org/core/source/v1";
pub const P_PLACE_POINT: &'static str = "openom.org/core/place_point/v1";
pub const P_PLACE_NAME: &'static str = "openom.org/core/place_name/v1";
pub const P_PART_OF: &'static str = "openom.org/core/part_of/v1";
pub const P_MEDIA_LINK: &'static str = "openom.org/core/media_link/v1";
pub const P_EXISTENCE: &'static str = "openom.org/core/existence/v1";

/// An anchor: something that claims can be about.
#[derive(Debug, PartialEq, Eq)]
pub struct Anchor {
    pub id: String,
    pub type_uri: String,
    pub created_by: String,
    pub created_at: Hlc,
}

/// A claim: what somebody says about a target.
#[derive(Debug, PartialEq, Eq)]
pub struct Claim {
    pub id: String,
    pub predicate: String,
    pub target_id: String,
    pub value: Value,
    pub created_by: String,
    pub created_at: Hlc,
    /// The claim's citation, where it has a single one.
    pub citation: Option<Value>,
    /// The fingerprint of the fact that is claimed.
    pub fingerprint: Option<String>,
    /// The content reference of the name, where the claim is a name.
    pub name_ref: Option<String>,
    /// What else the claim carries.
    pub rest: Value,
}

/// A record of a kind that is not known, kept as it came.
#[derive(Debug, PartialEq, Eq)]
pub struct Opaque {
    pub id: String,
    pub created_by: String,
    pub created_at: Hlc,
    pub value: Value,
}

/// One record of a tree.
#[derive(Debug, PartialEq, Eq)]
pub enum Record {
    Anchor(Anchor),
    Claim(Claim),
    Unknown(Opaque),
}

/// What a claim holds.
pub struct ClaimModel {
    pub id: Seq<char>,
    pub predicate: Seq<char>,
    pub target_id: Seq<char>,
    pub value: Json,
    pub created_by: Seq<char>,
    pub created_at: Hlc,
    pub citation: Option<Json>,
    pub fingerprint: Option<Seq<char>>,
    pub name_ref: Option<Seq<char>>,
    pub rest: Json,
}

/// What a record holds.
pub enum RecordModel {
    Anchor { id: Seq<char>, type_uri: Seq<char>, created_by: Seq<char>, created_at: Hlc },
    Claim(ClaimModel),
    Unknown { id: Seq<char>, created_by: Seq<char>, created_at: Hlc, value: Json },
}

/// A text, where there is one.
pub open spec fn opt_text(s: Option<String>) -> Option<Seq<char>> {
    match s {
        Some(t) => Some(t@),
        None => None,
    }
}

/// A value, where there is one.
pub open spec fn opt_json(v: Option<Value>) -> Option<Json> {
    match v {
        Some(j) => Some(j@),
        None => None,
    }
}

impl View for Claim {
    type V = ClaimModel;

    open spec fn view(&self) -> ClaimModel {
        ClaimModel {
            id: self.id@,
            predicate: self.predicate@,
            target_id: self.target_id@,
            value: self.value@,
            created_by: self.created_by@,
            created_at: self.created_at,
            citation: opt_json(self.citation),
            fingerprint: opt_text(self.fingerprint),
            name_ref: opt_text(self.name_ref),
            rest: self.rest@,
        }
    }
}

impl View for Record {
    type V = RecordModel;

    open spec fn view(&self) -> RecordModel {
        match *self {
            Record::Anchor(a) => RecordModel::Anchor {
                id: a.id@,
                type_uri: a.type_uri@,
                created_by: a.created_by@,
                created_at: a.created_at,
            },
            Record::Claim(c) => RecordModel::Claim(c@),
            Record::Unknown(o) => RecordModel::Unknown {
                id: o.id@,
                created_by: o.created_by@,
                created_at: o.created_at,
                value: o.value@,
            },
        }
    }
}

impl RecordModel {
    pub open spec fn id(self) -> Seq<char> {
        match self {
            RecordModel::Anchor { id, .. } => id,
            RecordModel::Claim(c) => c.id,
            RecordModel::Unknown { id, .. } => id,
        }
    }

    pub open spec fn created_by(self) -> Seq<char> {
        match self {
            RecordModel::Anchor { created_by, .. } => created_by,
            RecordModel::Claim(c) => c.created_by,
            RecordModel::Unknown { created_by, .. } => created_by,
        }
    }

    pub open spec fn created_at(self) -> Hlc {
        match self {
            RecordModel::Anchor { created_at, .. } => created_at,
            RecordModel::Claim(c) => c.created_at,
            RecordModel::Unknown { created_at, .. } => created_at,
        }
    }
}

impl Record {
    /// The record's id.
    pub fn id(&self) -> (r: &String)
        ensures
            r@ == self@.id(),
    {
        match self {
            Record::Anchor(a) => &a.id,
            Record::Claim(c) => &c.id,
            Record::Unknown(o) => &o.id,
        }
    }

    /// The record's author.
    pub fn created_by(&self) -> (r: &String)
        ensures
            r@ == self@.created_by(),
    {
        match self {
            Record::Anchor(a) => &a.created_by,
            Record::Claim(c) => &c.created_by,
            Record::Unknown(o) => &o.created_by,
        }
    }

    /// The record's timestamp.
    pub fn created_at(&self) -> (r: Hlc)
        ensures
            r == self@.created_at(),
    {
        match self {
            Record::Anchor(a) => a.created_at,
            Record::Claim(c) => c.created_at,
            Record::Unknown(o) => o.created_at,
        }
    }

    /// A record that holds the same.
    pub fn duplicate(&self) -> (r: Record)
        ensures
            r@ == self@,
    {
        match self {
            Record::Anchor(a) => Record::Anchor(
                Anchor {
                    id: a.id.clone(),
                    type_uri: a.type_uri.clone(),
                    created_by: a.created_by.clone(),
                    created_at: a.created_at,
                },
            ),
            Record::Claim(c) => Record::Claim(c.duplicate()),
            Record::Unknown(o) => Record::Unknown(
                Opaque {
                    id: o.id.clone(),
                    created_by: o.created_by.clone(),
                    created_at: o.created_at,
                    value: o.value.duplicate(),
                },
            ),
        }
    }
}

fn copy_text(t: &Option<String>) -> (r: Option<String>)
    ensures
        opt_text(r) == opt_text(*t),
{
    match t {
        Some(s) => Some(s.clone()),
        None => None,
    }
}

impl Claim {
    /// A claim that holds the same.
    pub fn duplicate(&self) -> (r: Claim)
        ensures
            r@ == self@,
    {
        Claim {
            id: self.id.clone(),
            predicate: self.predicate.clone(),
            target_id: self.target_id.clone(),
            value: self.value.duplicate(),
            created_by: self.created_by.clone(),
            created_at: self.created_at,
            citation: match &self.citation {
                Some(v) => Some(v.duplicate()),
                None => None,
            },
            fingerprint: copy_text(&self.fingerprint),
            name_ref: copy_text(&self.name_ref),
            rest: self.rest.duplicate(),
        }
    }
}

/// The two texts in ascending order.
pub open spec fn ordered_pair(a: Seq<char>, b: Seq<char>) -> (Seq<char>, Seq<char>) {
    if text_before(b, a) {
        (b, a)
    } else {
        (a, b)
    }
}

/// The two texts in ascending order.
pub fn sorted_pair(a: &str, b: &str) -> (r: (String, String))
    ensures
        (r.0@, r.1@) == ordered_pair(a@, b@),
{
    if text_less(b, a) {
        (b.to_owned(), a.to_owned())
    } else {
        (a.to_owned(), b.to_owned())
    }
}

/// The pair that a value names: two distinct texts, in ascending order.
pub open spec fn pair_of(v: Json) -> Option<(Seq<char>, Seq<char>)> {
    match v.get("pair"@) {
        Some(Json::Array(s)) => if s.len() == 2 {
            match (s[0], s[1]) {
                (Json::Text(a), Json::Text(b)) => if a == b {
                    None
                } else {
                    Some(ordered_pair(a, b))
                },
                _ => None,
            }
        } else {
            None
        },
        _ => None,
    }
}

/// The pair that a value names: two distinct texts, in ascending order.
pub fn pair(v: &Value) -> (r: Option<(String, String)>)
    ensures
        pair_of(v@) == (match r {
            Some((a, b)) => Some((a@, b@)),
            None => None::<(Seq<char>, Seq<char>)>,
        }),
{
    match v.get("pair") {
        Some(Value::Array(s)) => {
            if s.len() != 2 {
                return None;
            }
            assert(crate::projection::value::jsons(s@)[0] == s@[0]@);
            assert(crate::projection::value::jsons(s@)[1] == s@[1]@);
            match (&s[0], &s[1]) {
                (Value::Text(a), Value::Text(b)) => {
                    if text_equal(a.as_str(), b.as_str()) {
                        None
                    } else {
                        Some(sorted_pair(a.as_str(), b.as_str()))
                    }
                },
                _ => None,
            }
        },
        _ => None,
    }
}

/// A claimed tie: its predicate, and the three texts that tell it apart from others.
pub type Tie = (String, (String, (String, String)));

/// The tie that a claim asserts: an identity pair, a preference, a parent, a partnership or a new home for a claim.
pub open spec fn tie_of(c: ClaimModel) -> Option<(Seq<char>, (Seq<char>, (Seq<char>, Seq<char>)))> {
    let none = Seq::<char>::empty();
    if c.predicate == P_SAME_AS@ || c.predicate == P_DIFFERENT_FROM@ {
        match pair_of(c.value) {
            Some((a, b)) => Some((c.predicate, (a, (b, none)))),
            None => None,
        }
    } else if c.predicate == P_PREFERRED@ {
        match (c.value.text_at("for"@), c.value.text_at("contentRef"@)) {
            (Some(f), Some(r)) => Some((c.predicate, (c.target_id, (f, r)))),
            _ => None,
        }
    } else if c.predicate == P_PARENT@ {
        match c.value.text_at("parentPersonId"@) {
            Some(p) => Some(
                (
                    c.predicate,
                    (
                        c.target_id,
                        (
                            p,
                            match c.value.text_at("kind"@) {
                                Some(k) => k,
                                None => "biological"@,
                            },
                        ),
                    ),
                ),
            ),
            None => None,
        }
    } else if c.predicate == P_PARTNERSHIP@ {
        match pair_of(c.value) {
            Some((a, b)) => Some(
                (
                    c.predicate,
                    (
                        a,
                        (
                            b,
                            match c.value.text_at("role"@) {
                                Some(r) => r,
                                None => "partner"@,
                            },
                        ),
                    ),
                ),
            ),
            None => None,
        }
    } else if c.predicate == P_REATTRIBUTE@ {
        match c.value.text_at("personId"@) {
            Some(p) => Some((c.predicate, (c.target_id, (p, none)))),
            None => None,
        }
    } else {
        None
    }
}

/// What a tie holds.
pub open spec fn opt_tie(t: Option<Tie>) -> Option<(Seq<char>, (Seq<char>, (Seq<char>, Seq<char>)))> {
    match t {
        Some(k) => Some(k.model()),
        None => None,
    }
}

fn reads_as(a: &String, b: &str) -> (r: bool)
    ensures
        r == (a@ == b@),
{
    text_equal(a.as_str(), b)
}

fn or_else(t: Option<String>, other: &str) -> (r: String)
    ensures
        r@ == (match t {
            Some(s) => s@,
            None => other@,
        }),
{
    match t {
        Some(s) => s,
        None => other.to_owned(),
    }
}

/// The tie that a claim asserts.
pub fn parse_tie(c: &Claim) -> (r: Option<Tie>)
    ensures
        opt_tie(r) == tie_of(c@),
{
    let p: String = c.predicate.clone();
    let t: String = c.target_id.clone();
    if reads_as(&p, P_SAME_AS) || reads_as(&p, P_DIFFERENT_FROM) {
        match pair(&c.value) {
            Some((a, b)) => {
                let e: String = String::new();
                assert(e@ =~= Seq::<char>::empty());
                Some((p, (a, (b, e))))
            },
            None => None,
        }
    } else if reads_as(&p, P_PREFERRED) {
        match (c.value.text_at("for"), c.value.text_at("contentRef")) {
            (Some(f), Some(r)) => Some((p, (t, (f, r)))),
            _ => None,
        }
    } else if reads_as(&p, P_PARENT) {
        match c.value.text_at("parentPersonId") {
            Some(parent) => Some((p, (t, (parent, or_else(c.value.text_at("kind"), "biological"))))),
            None => None,
        }
    } else if reads_as(&p, P_PARTNERSHIP) {
        match pair(&c.value) {
            Some((a, b)) => Some((p, (a, (b, or_else(c.value.text_at("role"), "partner"))))),
            None => None,
        }
    } else if reads_as(&p, P_REATTRIBUTE) {
        match c.value.text_at("personId") {
            Some(person) => {
                let e: String = String::new();
                assert(e@ =~= Seq::<char>::empty());
                Some((p, (t, (person, e))))
            },
            None => None,
        }
    } else {
        None
    }
}

/// A vote: what it is about, the value it is for, and who casts it.
pub type Vote = (String, (String, (String, String)));

/// The vote that a claim casts in its predicate's slot: a plain text on its target, a place's point, or a custom
/// field's label.
pub open spec fn vote_of(c: ClaimModel) -> Option<(Seq<char>, (Seq<char>, (Seq<char>, Seq<char>)))> {
    if c.predicate == P_PLACE_POINT@ {
        Some((c.predicate, (c.target_id, (c.value.compact(), c.created_by))))
    } else if c.predicate == P_CUSTOM_FIELD@ {
        match (c.value.text_at("fieldId"@), c.value.text_at("label"@)) {
            (Some(f), Some(l)) => Some((c.predicate, (f, (l, c.created_by)))),
            _ => None,
        }
    } else {
        let field = if c.predicate == P_PART_OF@ {
            "parentPlaceId"@
        } else if c.predicate == P_EVENT_TYPE@ {
            "type"@
        } else if c.predicate == P_DATE@ {
            "edtf"@
        } else {
            "placeId"@
        };
        if c.predicate == P_PART_OF@ || c.predicate == P_EVENT_TYPE@ || c.predicate == P_DATE@ || c.predicate == P_EVENT_PLACE@ {
            match c.value.text_at(field) {
                Some(v) => Some((c.predicate, (c.target_id, (v, c.created_by)))),
                None => None,
            }
        } else {
            None
        }
    }
}

fn tally(c: &Claim, field: &str) -> (r: Option<Vote>)
    ensures
        opt_tie(r) == (match c@.value.text_at(field@) {
            Some(v) => Some((c@.predicate, (c@.target_id, (v, c@.created_by)))),
            None => None,
        }),
{
    match c.value.text_at(field) {
        Some(v) => Some((c.predicate.clone(), (c.target_id.clone(), (v, c.created_by.clone())))),
        None => None,
    }
}

/// The vote that a claim casts in its predicate's slot.
pub fn parse_vote(c: &Claim) -> (r: Option<Vote>)
    ensures
        opt_tie(r) == vote_of(c@),
{
    let p = &c.predicate;
    if reads_as(p, P_PLACE_POINT) {
        Some((p.clone(), (c.target_id.clone(), (c.value.to_text(), c.created_by.clone()))))
    } else if reads_as(p, P_CUSTOM_FIELD) {
        match (c.value.text_at("fieldId"), c.value.text_at("label")) {
            (Some(f), Some(l)) => Some((p.clone(), (f, (l, c.created_by.clone())))),
            _ => None,
        }
    } else if reads_as(p, P_PART_OF) {
        tally(c, "parentPlaceId")
    } else if reads_as(p, P_EVENT_TYPE) {
        tally(c, "type")
    } else if reads_as(p, P_DATE) {
        tally(c, "edtf")
    } else if reads_as(p, P_EVENT_PLACE) {
        tally(c, "placeId")
    } else {
        None
    }
}

/// The vote that a claim casts for a custom field's type: the field, the type and the author.
pub open spec fn type_vote_of(c: ClaimModel) -> Option<(Seq<char>, (Seq<char>, Seq<char>))> {
    if c.predicate == P_CUSTOM_FIELD@ {
        match (c.value.text_at("fieldId"@), c.value.text_at("type"@)) {
            (Some(f), Some(t)) => Some((f, (t, c.created_by))),
            _ => None,
        }
    } else {
        None
    }
}

/// Three texts.
pub type Three = (String, (String, String));

pub open spec fn opt_three(t: Option<Three>) -> Option<(Seq<char>, (Seq<char>, Seq<char>))> {
    match t {
        Some(k) => Some(k.model()),
        None => None,
    }
}

/// The vote that a claim casts for a custom field's type.
pub fn parse_type_vote(c: &Claim) -> (r: Option<Three>)
    ensures
        opt_three(r) == type_vote_of(c@),
{
    if reads_as(&c.predicate, P_CUSTOM_FIELD) {
        match (c.value.text_at("fieldId"), c.value.text_at("type")) {
            (Some(f), Some(t)) => Some((f, (t, c.created_by.clone()))),
            _ => None,
        }
    } else {
        None
    }
}

/// The place, the range, the name and the author of a place-name claim.
pub open spec fn place_name_of(c: ClaimModel) -> Option<(Seq<char>, (Seq<char>, (Seq<char>, Seq<char>)))> {
    if c.predicate == P_PLACE_NAME@ {
        match c.value.text_at("name"@) {
            Some(n) => Some(
                (
                    c.target_id,
                    (
                        match c.value.text_at("validRange"@) {
                            Some(r) => r,
                            None => ""@,
                        },
                        (n, c.created_by),
                    ),
                ),
            ),
            None => None,
        }
    } else {
        None
    }
}

/// The place, the range, the name and the author of a place-name claim.
pub fn parse_place_name(c: &Claim) -> (r: Option<Vote>)
    ensures
        opt_tie(r) == place_name_of(c@),
{
    if reads_as(&c.predicate, P_PLACE_NAME) {
        match c.value.text_at("name") {
            Some(n) => Some(
                (c.target_id.clone(), (or_else(c.value.text_at("validRange"), ""), (n, c.created_by.clone()))),
            ),
            None => None,
        }
    } else {
        None
    }
}

/// The event, the person and the role of a participation.
pub open spec fn participant_of(c: ClaimModel) -> Option<(Seq<char>, (Seq<char>, Seq<char>))> {
    if c.predicate == P_PARTICIPANT@ {
        match (c.value.text_at("personId"@), c.value.text_at("role"@)) {
            (Some(p), Some(r)) => Some((c.target_id, (p, r))),
            _ => None,
        }
    } else {
        None
    }
}

/// The event, the person and the role of a participation.
pub fn parse_participant(c: &Claim) -> (r: Option<Three>)
    ensures
        opt_three(r) == participant_of(c@),
{
    if reads_as(&c.predicate, P_PARTICIPANT) {
        match (c.value.text_at("personId"), c.value.text_at("role")) {
            (Some(p), Some(r)) => Some((c.target_id.clone(), (p, r))),
            _ => None,
        }
    } else {
        None
    }
}

/// What an attestation attests, and who: where its verdict is this one.
pub open spec fn attest_of(c: ClaimModel, verdict: Seq<char>) -> Option<(Seq<char>, Seq<char>)> {
    if c.predicate == P_ATTEST@ && c.value.text_at("verdict"@) == Some(verdict) {
        Some((c.target_id, c.created_by))
    } else {
        None
    }
}

/// Two texts.
pub type Two = (String, String);

pub open spec fn opt_two(t: Option<Two>) -> Option<(Seq<char>, Seq<char>)> {
    match t {
        Some(k) => Some(k.model()),
        None => None,
    }
}

/// What an attestation attests, and who: where its verdict is this one.
pub fn parse_attest(c: &Claim, verdict: &str) -> (r: Option<Two>)
    ensures
        opt_two(r) == attest_of(c@, verdict@),
{
    if reads_as(&c.predicate, P_ATTEST) {
        match c.value.text_at("verdict") {
            Some(v) => {
                if reads_as(&v, verdict) {
                    Some((c.target_id.clone(), c.created_by.clone()))
                } else {
                    None
                }
            },
            None => None,
        }
    } else {
        None
    }
}

/// The custom field and the value that a claim gives it.
pub open spec fn custom_of(c: ClaimModel) -> Option<(Seq<char>, Json)> {
    if c.predicate == P_CUSTOM_VALUE@ {
        match (c.value.text_at("fieldId"@), c.value.get("value"@)) {
            (Some(f), Some(v)) => Some((f, v)),
            _ => None,
        }
    } else {
        None
    }
}

/// The custom field and the value that a claim gives it.
pub fn parse_custom_value(c: &Claim) -> (r: Option<(String, &Value)>)
    ensures
        custom_of(c@) == (match r {
            Some((f, v)) => Some((f@, v@)),
            None => None::<(Seq<char>, Json)>,
        }),
{
    if reads_as(&c.predicate, P_CUSTOM_VALUE) {
        match (c.value.text_at("fieldId"), c.value.get("value")) {
            (Some(f), Some(v)) => Some((f, v)),
            _ => None,
        }
    } else {
        None
    }
}

/// The text that a claim gives a person in this predicate's slot.
pub open spec fn trait_of(c: ClaimModel, predicate: Seq<char>) -> Option<Seq<char>> {
    if c.predicate != predicate {
        None
    } else if predicate == P_SEX@ {
        c.value.text_at("sex"@)
    } else if predicate == P_BIOGRAPHY@ {
        c.value.text_at("text"@)
    } else if predicate == P_MEDIA_LINK@ {
        c.value.text_at("mediaHash"@)
    } else {
        None
    }
}

/// The text that a claim gives a person in this predicate's slot.
pub fn parse_trait(c: &Claim, predicate: &str) -> (r: Option<String>)
    ensures
        opt_text(r) == trait_of(c@, predicate@),
{
    if !reads_as(&c.predicate, predicate) {
        None
    } else if text_equal(predicate, P_SEX) {
        c.value.text_at("sex")
    } else if text_equal(predicate, P_BIOGRAPHY) {
        c.value.text_at("text")
    } else if text_equal(predicate, P_MEDIA_LINK) {
        c.value.text_at("mediaHash")
    } else {
        None
    }
}

/// A claim that makes its target a person: a name, a sex, a biography, a custom value or a picture.
pub open spec fn is_personal(c: ClaimModel) -> bool {
    c.predicate == P_NAME@ || trait_of(c, P_SEX@) is Some || trait_of(c, P_BIOGRAPHY@) is Some || trait_of(c, P_MEDIA_LINK@) is Some
        || custom_of(c) is Some
}

/// Whether a claim makes its target a person.
pub fn personal(c: &Claim) -> (r: bool)
    ensures
        r == is_personal(c@),
{
    reads_as(&c.predicate, P_NAME) || parse_trait(c, P_SEX).is_some() || parse_trait(c, P_BIOGRAPHY).is_some() || parse_trait(
        c,
        P_MEDIA_LINK,
    ).is_some() || parse_custom_value(c).is_some()
}

/// A predicate with a meaning of its own.
pub open spec fn known(p: Seq<char>) -> bool {
    p == P_SOURCE@ || p == P_PLACE_POINT@ || p == P_PLACE_NAME@ || p == P_PART_OF@ || p == P_MEDIA_LINK@ || p == P_SAME_AS@ || p
        == P_DIFFERENT_FROM@ || p == P_ATTEST@ || p == P_PREFERRED@ || p == P_PARENT@ || p == P_PARTNERSHIP@ || p == P_EVENT_TYPE@
        || p == P_DATE@ || p == P_EVENT_PLACE@ || p == P_PARTICIPANT@ || p == P_NAME@ || p == P_SEX@ || p == P_BIOGRAPHY@ || p
        == P_CUSTOM_FIELD@ || p == P_CUSTOM_VALUE@ || p == P_REATTRIBUTE@ || p == P_EXISTENCE@
}

/// Whether a predicate has a meaning of its own.
pub fn is_known(p: &String) -> (r: bool)
    ensures
        r == known(p@),
{
    reads_as(p, P_SOURCE) || reads_as(p, P_PLACE_POINT) || reads_as(p, P_PLACE_NAME) || reads_as(p, P_PART_OF) || reads_as(p, P_MEDIA_LINK) || reads_as(
        p,
        P_SAME_AS,
    ) || reads_as(p, P_DIFFERENT_FROM) || reads_as(p, P_ATTEST) || reads_as(p, P_PREFERRED) || reads_as(p, P_PARENT) || reads_as(p, P_PARTNERSHIP) || reads_as(
        p,
        P_EVENT_TYPE,
    ) || reads_as(p, P_DATE) || reads_as(p, P_EVENT_PLACE) || reads_as(p, P_PARTICIPANT) || reads_as(p, P_NAME) || reads_as(p, P_SEX) || reads_as(p, P_BIOGRAPHY)
        || reads_as(p, P_CUSTOM_FIELD) || reads_as(p, P_CUSTOM_VALUE) || reads_as(p, P_REATTRIBUTE) || reads_as(p, P_EXISTENCE)
}

/// The object that a claim's fingerprint is taken of.
pub fn fingerprint_subject(c: &Claim) -> (r: Value)
    ensures
        r@ == Json::Object(
            seq![
                ("predicate"@, Json::Text(c@.predicate)),
                ("targetId"@, Json::Text(c@.target_id)),
                ("value"@, c@.value),
            ],
        ),
{
    let mut v: Vec<(String, Value)> = Vec::new();
    v.push(("predicate".to_owned(), Value::Text(c.predicate.clone())));
    v.push(("targetId".to_owned(), Value::Text(c.target_id.clone())));
    v.push(("value".to_owned(), c.value.duplicate()));
    assert(crate::projection::value::json_members(v@) =~= seq![
        ("predicate"@, Json::Text(c@.predicate)),
        ("targetId"@, Json::Text(c@.target_id)),
        ("value"@, c@.value),
    ]);
    Value::Object(v)
}

/// The member of that name alone, where there is one.
pub open spec fn only_member(v: Json, key: Seq<char>) -> Seq<(Seq<char>, Json)> {
    match v.get(key) {
        Some(j) => seq![(key, j)],
        None => Seq::empty(),
    }
}

/// The object that a name's content reference is taken of: its culture, parts and script.
pub fn name_intrinsic(v: &Value) -> (r: Value)
    ensures
        r@ == Json::Object(
            only_member(v@, "culture"@) + only_member(v@, "parts"@) + only_member(v@, "script"@),
        ),
{
    let mut out: Vec<(String, Value)> = Vec::new();
    let ghost a = only_member(v@, "culture"@);
    let ghost b = only_member(v@, "parts"@);
    let ghost c = only_member(v@, "script"@);
    if let Some(j) = v.get("culture") {
        out.push(("culture".to_owned(), j.duplicate()));
    }
    assert(crate::projection::value::json_members(out@) =~= a);
    if let Some(j) = v.get("parts") {
        out.push(("parts".to_owned(), j.duplicate()));
    }
    assert(crate::projection::value::json_members(out@) =~= a + b);
    if let Some(j) = v.get("script") {
        out.push(("script".to_owned(), j.duplicate()));
    }
    assert(crate::projection::value::json_members(out@) =~= a + b + c);
    Value::Object(out)
}

} // verus!
