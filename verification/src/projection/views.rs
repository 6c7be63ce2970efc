//! What the read model shows.

use vstd::prelude::*;

use crate::projection::record::{opt_json, opt_text};
use crate::projection::value::{json_members, Json, Value};

verus! {

/// One rendering of a person's name.
#[derive(Debug, PartialEq, Eq)]
pub struct NameView {
    pub claim_id: String,
    pub parts: Value,
    /// The least claim id among the names that are the same name, differently rendered.
    pub equiv_class: String,
}

/// A claim whose predicate has no meaning of its own here, shown as it is.
#[derive(Debug, PartialEq, Eq)]
pub struct GenericClaimView {
    pub claim_id: String,
    /// What the claim is about, once it has moved to the home that it was given.
    pub target_id: String,
    pub predicate: String,
    pub value: Value,
    pub created_by: String,
}

/// A blob that is linked to a person.
#[derive(Debug, PartialEq, Eq)]
pub struct MediaLink {
    pub claim_id: String,
    pub media_hash: String,
    /// The rest of what the link says.
    pub value: Vec<(String, Value)>,
}

/// A source that is cited. Its fields are empty where the source is not known.
#[derive(Debug, PartialEq, Eq)]
pub struct SourceRef {
    pub source_id: String,
    pub title: Option<String>,
    pub repository: Option<String>,
    pub uri: Option<String>,
    pub quality: Option<String>,
}

/// One citation: what it backs, and where in the source.
#[derive(Debug, PartialEq, Eq)]
pub struct Citation {
    pub claim_id: String,
    pub predicate: String,
    pub locator: Option<Value>,
    pub extract: Option<String>,
    pub source: SourceRef,
}

/// A custom field of a person.
#[derive(Debug, PartialEq, Eq)]
pub struct CustomField {
    pub field_id: String,
    pub label: String,
    pub field_type: String,
    pub value: Value,
}

/// A person, who may be assembled from several anchors.
#[derive(Debug, PartialEq, Eq)]
pub struct Person {
    /// The least anchor.
    pub id: String,
    /// The other anchors.
    pub also: Vec<String>,
    pub names: Vec<NameView>,
    /// The claim id of the preferred name.
    pub preferred_name: Option<String>,
    pub sex: Option<String>,
    pub biography: Option<String>,
    pub custom_fields: Vec<CustomField>,
    pub sources: Vec<Citation>,
    pub media: Vec<MediaLink>,
    pub other: Vec<GenericClaimView>,
}

/// An identity that was not applied because the two were kept apart.
#[derive(Debug, PartialEq, Eq)]
pub struct Conflict {
    pub cut_pair: (String, String),
}

/// A parent and a child.
#[derive(Debug, PartialEq, Eq)]
pub struct ParentChild {
    pub parent: String,
    pub child: String,
    pub kind: String,
}

/// Two partners.
#[derive(Debug, PartialEq, Eq)]
pub struct Partnership {
    pub pair: (String, String),
    pub role: String,
}

/// Someone who takes part in an event.
#[derive(Debug, PartialEq, Eq)]
pub struct Participant {
    pub person: String,
    pub role: String,
}

/// A place, as an event shows it.
#[derive(Debug, PartialEq, Eq)]
pub struct PlaceView {
    pub id: String,
    /// The name that the place had at the time of the event.
    pub name: Option<String>,
    pub point: Option<Value>,
    /// The place that it is part of.
    pub part_of: Option<String>,
}

/// An event.
#[derive(Debug, PartialEq, Eq)]
pub struct EventView {
    pub id: String,
    pub event_type: Option<String>,
    pub date_edtf: Option<String>,
    pub date_min_year: Option<i32>,
    pub date_max_year: Option<i32>,
    pub place_id: Option<String>,
    pub participants: Vec<Participant>,
    pub place: Option<PlaceView>,
}

/// A family: parents, and the children who have exactly these parents.
#[derive(Debug, PartialEq, Eq)]
pub struct Union {
    pub id: String,
    pub parents: Vec<String>,
    pub children: Vec<String>,
    /// The marriage or divorce of exactly these parents.
    pub marriage_event: Option<String>,
}

/// The read model.
#[derive(Debug, PartialEq, Eq)]
pub struct Projection {
    pub people: Vec<Person>,
    pub parent_child: Vec<ParentChild>,
    pub partnerships: Vec<Partnership>,
    pub unions: Vec<Union>,
    pub events: Vec<EventView>,
    pub conflicts: Vec<Conflict>,
    /// Claims without a meaning of their own here that are about no person.
    pub unclassified: Vec<GenericClaimView>,
}

#[verifier::ext_equal]
pub struct NameModel {
    pub claim_id: Seq<char>,
    pub parts: Json,
    pub equiv_class: Seq<char>,
}

#[verifier::ext_equal]
pub struct GenericModel {
    pub claim_id: Seq<char>,
    pub target_id: Seq<char>,
    pub predicate: Seq<char>,
    pub value: Json,
    pub created_by: Seq<char>,
}

#[verifier::ext_equal]
pub struct MediaModel {
    pub claim_id: Seq<char>,
    pub media_hash: Seq<char>,
    pub value: Seq<(Seq<char>, Json)>,
}

#[verifier::ext_equal]
pub struct SourceModel {
    pub source_id: Seq<char>,
    pub title: Option<Seq<char>>,
    pub repository: Option<Seq<char>>,
    pub uri: Option<Seq<char>>,
    pub quality: Option<Seq<char>>,
}

#[verifier::ext_equal]
pub struct CitationModel {
    pub claim_id: Seq<char>,
    pub predicate: Seq<char>,
    pub locator: Option<Json>,
    pub extract: Option<Seq<char>>,
    pub source: SourceModel,
}

#[verifier::ext_equal]
pub struct FieldModel {
    pub field_id: Seq<char>,
    pub label: Seq<char>,
    pub field_type: Seq<char>,
    pub value: Json,
}

#[verifier::ext_equal]
pub struct PersonModel {
    pub id: Seq<char>,
    pub also: Seq<Seq<char>>,
    pub names: Seq<NameModel>,
    pub preferred_name: Option<Seq<char>>,
    pub sex: Option<Seq<char>>,
    pub biography: Option<Seq<char>>,
    pub custom_fields: Seq<FieldModel>,
    pub sources: Seq<CitationModel>,
    pub media: Seq<MediaModel>,
    pub other: Seq<GenericModel>,
}

#[verifier::ext_equal]
pub struct PlaceModel {
    pub id: Seq<char>,
    pub name: Option<Seq<char>>,
    pub point: Option<Json>,
    pub part_of: Option<Seq<char>>,
}

#[verifier::ext_equal]
pub struct EventModel {
    pub id: Seq<char>,
    pub event_type: Option<Seq<char>>,
    pub date_edtf: Option<Seq<char>>,
    pub date_min_year: Option<i32>,
    pub date_max_year: Option<i32>,
    pub place_id: Option<Seq<char>>,
    /// Person and role.
    pub participants: Seq<(Seq<char>, Seq<char>)>,
    pub place: Option<PlaceModel>,
}

#[verifier::ext_equal]
pub struct UnionModel {
    pub id: Seq<char>,
    pub parents: Seq<Seq<char>>,
    pub children: Seq<Seq<char>>,
    pub marriage_event: Option<Seq<char>>,
}

#[verifier::ext_equal]
pub struct ProjectionModel {
    pub people: Seq<PersonModel>,
    /// Parent, child and kind.
    pub parent_child: Seq<(Seq<char>, (Seq<char>, Seq<char>))>,
    /// The pair and the role.
    pub partnerships: Seq<((Seq<char>, Seq<char>), Seq<char>)>,
    pub unions: Seq<UnionModel>,
    pub events: Seq<EventModel>,
    pub conflicts: Seq<(Seq<char>, Seq<char>)>,
    pub unclassified: Seq<GenericModel>,
}

impl View for NameView {
    type V = NameModel;

    open spec fn view(&self) -> NameModel {
        NameModel { claim_id: self.claim_id@, parts: self.parts@, equiv_class: self.equiv_class@ }
    }
}

impl View for GenericClaimView {
    type V = GenericModel;

    open spec fn view(&self) -> GenericModel {
        GenericModel {
            claim_id: self.claim_id@,
            target_id: self.target_id@,
            predicate: self.predicate@,
            value: self.value@,
            created_by: self.created_by@,
        }
    }
}

impl View for MediaLink {
    type V = MediaModel;

    open spec fn view(&self) -> MediaModel {
        MediaModel { claim_id: self.claim_id@, media_hash: self.media_hash@, value: json_members(self.value@) }
    }
}

impl View for SourceRef {
    type V = SourceModel;

    open spec fn view(&self) -> SourceModel {
        SourceModel {
            source_id: self.source_id@,
            title: opt_text(self.title),
            repository: opt_text(self.repository),
            uri: opt_text(self.uri),
            quality: opt_text(self.quality),
        }
    }
}

impl View for Citation {
    type V = CitationModel;

    open spec fn view(&self) -> CitationModel {
        CitationModel {
            claim_id: self.claim_id@,
            predicate: self.predicate@,
            locator: opt_json(self.locator),
            extract: opt_text(self.extract),
            source: self.source@,
        }
    }
}

impl View for CustomField {
    type V = FieldModel;

    open spec fn view(&self) -> FieldModel {
        FieldModel {
            field_id: self.field_id@,
            label: self.label@,
            field_type: self.field_type@,
            value: self.value@,
        }
    }
}

/// The views of a list.
pub open spec fn all_views<T: View>(s: Seq<T>) -> Seq<T::V> {
    Seq::new(s.len(), |i: int| s[i]@)
}

impl View for Person {
    type V = PersonModel;

    open spec fn view(&self) -> PersonModel {
        PersonModel {
            id: self.id@,
            also: all_views(self.also@),
            names: all_views(self.names@),
            preferred_name: opt_text(self.preferred_name),
            sex: opt_text(self.sex),
            biography: opt_text(self.biography),
            custom_fields: all_views(self.custom_fields@),
            sources: all_views(self.sources@),
            media: all_views(self.media@),
            other: all_views(self.other@),
        }
    }
}

impl View for Conflict {
    type V = (Seq<char>, Seq<char>);

    open spec fn view(&self) -> (Seq<char>, Seq<char>) {
        (self.cut_pair.0@, self.cut_pair.1@)
    }
}

impl View for ParentChild {
    type V = (Seq<char>, (Seq<char>, Seq<char>));

    open spec fn view(&self) -> (Seq<char>, (Seq<char>, Seq<char>)) {
        (self.parent@, (self.child@, self.kind@))
    }
}

impl View for Partnership {
    type V = ((Seq<char>, Seq<char>), Seq<char>);

    open spec fn view(&self) -> ((Seq<char>, Seq<char>), Seq<char>) {
        ((self.pair.0@, self.pair.1@), self.role@)
    }
}

impl View for Participant {
    type V = (Seq<char>, Seq<char>);

    open spec fn view(&self) -> (Seq<char>, Seq<char>) {
        (self.person@, self.role@)
    }
}

impl View for PlaceView {
    type V = PlaceModel;

    open spec fn view(&self) -> PlaceModel {
        PlaceModel {
            id: self.id@,
            name: opt_text(self.name),
            point: opt_json(self.point),
            part_of: opt_text(self.part_of),
        }
    }
}

/// A place, where there is one.
pub open spec fn opt_place(p: Option<PlaceView>) -> Option<PlaceModel> {
    match p {
        Some(v) => Some(v@),
        None => None,
    }
}

impl View for EventView {
    type V = EventModel;

    open spec fn view(&self) -> EventModel {
        EventModel {
            id: self.id@,
            event_type: opt_text(self.event_type),
            date_edtf: opt_text(self.date_edtf),
            date_min_year: self.date_min_year,
            date_max_year: self.date_max_year,
            place_id: opt_text(self.place_id),
            participants: all_views(self.participants@),
            place: opt_place(self.place),
        }
    }
}

impl View for Union {
    type V = UnionModel;

    open spec fn view(&self) -> UnionModel {
        UnionModel {
            id: self.id@,
            parents: all_views(self.parents@),
            children: all_views(self.children@),
            marriage_event: opt_text(self.marriage_event),
        }
    }
}

impl View for Projection {
    type V = ProjectionModel;

    open spec fn view(&self) -> ProjectionModel {
        ProjectionModel {
            people: all_views(self.people@),
            parent_child: all_views(self.parent_child@),
            partnerships: all_views(self.partnerships@),
            unions: all_views(self.unions@),
            events: all_views(self.events@),
            conflicts: all_views(self.conflicts@),
            unclassified: all_views(self.unclassified@),
        }
    }
}

} // verus!
