//! The claim tree: what a replica mints, what it takes in, and what it shows.

use vstd::prelude::*;

use crate::clock::{can_tick, later, ticked, Hlc, HlcClock};
use crate::order::{text_equal, Key};
use crate::projection::collect::record_models;
use crate::projection::events::{Calendar, YearBounds};
use crate::projection::laws::{ids_identify, order_independent, same_records};
use crate::projection::project::{project, projected};
use crate::projection::record::{opt_text, Anchor, Claim, ClaimModel, Record, RecordModel, Two, P_EXISTENCE};
use crate::projection::resolve::Policy;
use crate::projection::value::{Json, Value};
use crate::projection::views::{Person, PersonModel, Projection};
use crate::sorted::{in_order, SortedMap, SortedSet};
use crate::tables::{filter_map, imaged, keys_of, list_of, made, meets, opt_model, slice, slice_of};
use crate::text::concat;

verus! {

/// Why an edit or an ingest failed.
#[derive(Debug, PartialEq, Eq)]
pub enum TreeError {
    /// A claim could not be built or hashed.
    Claim(String),
    /// An operation could not be minted or taken in.
    Crdt(String),
    /// A batch could not be encoded or decoded.
    Codec(String),
}

impl TreeError {
    /// What the error reads.
    pub open spec fn text(self) -> Seq<char> {
        match self {
            TreeError::Claim(s) => s@,
            TreeError::Crdt(s) => s@,
            TreeError::Codec(s) => "codec: "@ + s@,
        }
    }

    /// What the error reads.
    pub fn message(&self) -> (r: String)
        ensures
            r@ == self.text(),
    {
        match self {
            TreeError::Claim(s) => s.clone(),
            TreeError::Crdt(s) => s.clone(),
            TreeError::Codec(s) => concat("codec: ", s.as_str()),
        }
    }
}

/// What an operation does.
#[derive(Debug, PartialEq, Eq)]
pub enum OpKind {
    Remove { target: String },
    Supersede { prior: String, replacement: Record },
    Revoke { removal: String },
}

/// What an operation does.
pub enum OpKindModel {
    Remove { target: Seq<char> },
    Supersede { prior: Seq<char>, replacement: RecordModel },
    Revoke { removal: Seq<char> },
}

impl View for OpKind {
    type V = OpKindModel;

    open spec fn view(&self) -> OpKindModel {
        match *self {
            OpKind::Remove { target } => OpKindModel::Remove { target: target@ },
            OpKind::Supersede { prior, replacement } => OpKindModel::Supersede { prior: prior@, replacement: replacement@ },
            OpKind::Revoke { removal } => OpKindModel::Revoke { removal: removal@ },
        }
    }
}

impl OpKindModel {
    /// The name of the kind.
    pub open spec fn label(self) -> Seq<char> {
        match self {
            OpKindModel::Remove { .. } => "remove"@,
            OpKindModel::Supersede { .. } => "supersede"@,
            OpKindModel::Revoke { .. } => "revoke"@,
        }
    }
}

/// The name of an operation's kind.
pub fn op_kind_label(kind: &OpKind) -> (r: &'static str)
    ensures
        r@ == kind@.label(),
{
    match kind {
        OpKind::Remove { .. } => "remove",
        OpKind::Supersede { .. } => "supersede",
        OpKind::Revoke { .. } => "revoke",
    }
}

impl OpKind {
    /// A kind that holds the same.
    pub fn duplicate(&self) -> (r: OpKind)
        ensures
            r@ == self@,
    {
        match self {
            OpKind::Remove { target } => OpKind::Remove { target: target.clone() },
            OpKind::Supersede { prior, replacement } => OpKind::Supersede {
                prior: prior.clone(),
                replacement: replacement.duplicate(),
            },
            OpKind::Revoke { removal } => OpKind::Revoke { removal: removal.clone() },
        }
    }
}

/// An operation.
#[derive(Debug, PartialEq, Eq)]
pub struct Op {
    pub id: String,
    pub created_by: String,
    pub created_at: Hlc,
    pub kind: OpKind,
}

/// One item of a batch: a record that is asserted, or an operation.
#[derive(Debug, PartialEq, Eq)]
pub enum ChannelItem {
    Assert(Record),
    Op(Op),
}

/// What an item holds.
pub enum ItemModel {
    Assert(RecordModel),
    Op { id: Seq<char>, created_by: Seq<char>, created_at: Hlc, kind: OpKindModel },
}

impl View for ChannelItem {
    type V = ItemModel;

    open spec fn view(&self) -> ItemModel {
        match *self {
            ChannelItem::Assert(r) => ItemModel::Assert(r@),
            ChannelItem::Op(o) => ItemModel::Op {
                id: o.id@,
                created_by: o.created_by@,
                created_at: o.created_at,
                kind: o.kind@,
            },
        }
    }
}

impl ItemModel {
    pub open spec fn id(self) -> Seq<char> {
        match self {
            ItemModel::Assert(r) => r.id(),
            ItemModel::Op { id, .. } => id,
        }
    }

    pub open spec fn created_by(self) -> Seq<char> {
        match self {
            ItemModel::Assert(r) => r.created_by(),
            ItemModel::Op { created_by, .. } => created_by,
        }
    }

    pub open spec fn created_at(self) -> Hlc {
        match self {
            ItemModel::Assert(r) => r.created_at(),
            ItemModel::Op { created_at, .. } => created_at,
        }
    }
}

impl ChannelItem {
    /// The item's id.
    pub fn id(&self) -> (r: &String)
        ensures
            r@ == self@.id(),
    {
        match self {
            ChannelItem::Assert(r) => r.id(),
            ChannelItem::Op(o) => &o.id,
        }
    }

    /// The item's author.
    pub fn created_by(&self) -> (r: &String)
        ensures
            r@ == self@.created_by(),
    {
        match self {
            ChannelItem::Assert(r) => r.created_by(),
            ChannelItem::Op(o) => &o.created_by,
        }
    }

    /// The item's timestamp.
    pub fn created_at(&self) -> (r: Hlc)
        ensures
            r == self@.created_at(),
    {
        match self {
            ChannelItem::Assert(r) => r.created_at(),
            ChannelItem::Op(o) => o.created_at,
        }
    }

    /// An item that holds the same.
    pub fn duplicate(&self) -> (r: ChannelItem)
        ensures
            r@ == self@,
    {
        match self {
            ChannelItem::Assert(r) => ChannelItem::Assert(r.duplicate()),
            ChannelItem::Op(o) => ChannelItem::Op(
                Op {
                    id: o.id.clone(),
                    created_by: o.created_by.clone(),
                    created_at: o.created_at,
                    kind: o.kind.duplicate(),
                },
            ),
        }
    }
}

/// What the items hold.
pub open spec fn item_models(s: Seq<ChannelItem>) -> Seq<ItemModel> {
    Seq::new(s.len(), |i: int| s[i]@)
}

/// What the items of a map hold.
pub open spec fn item_map(m: Map<Seq<char>, ChannelItem>) -> Map<Seq<char>, ItemModel> {
    m.map_values(|i: ChannelItem| i@)
}

/// What is about to be minted, and has no id yet.
pub enum Draft {
    Claim { target_id: String, predicate: String, value: Value, created_by: String, created_at: Hlc },
    Op { created_by: String, created_at: Hlc, kind: OpKind },
}

/// What a draft holds.
pub enum DraftModel {
    Claim { target_id: Seq<char>, predicate: Seq<char>, value: Json, created_by: Seq<char>, created_at: Hlc },
    Op { created_by: Seq<char>, created_at: Hlc, kind: OpKindModel },
}

impl View for Draft {
    type V = DraftModel;

    open spec fn view(&self) -> DraftModel {
        match *self {
            Draft::Claim { target_id, predicate, value, created_by, created_at } => DraftModel::Claim {
                target_id: target_id@,
                predicate: predicate@,
                value: value@,
                created_by: created_by@,
                created_at,
            },
            Draft::Op { created_by, created_at, kind } => DraftModel::Op { created_by: created_by@, created_at, kind: kind@ },
        }
    }
}

/// What a draft's content is hashed to: its id, and for a claim its fingerprint and the content reference of its name.
pub struct Marks {
    pub id: String,
    pub fingerprint: Option<String>,
    pub name_ref: Option<String>,
}

/// The claim that a draft becomes.
pub open spec fn claim_with(d: DraftModel, m: Marks) -> ClaimModel
    recommends
        d is Claim,
{
    ClaimModel {
        id: m.id@,
        predicate: d->Claim_predicate,
        target_id: d->target_id,
        value: d->value,
        created_by: d->Claim_created_by,
        created_at: d->Claim_created_at,
        citation: None,
        fingerprint: opt_text(m.fingerprint),
        name_ref: opt_text(m.name_ref),
        rest: Json::Null,
    }
}

/// The item that a draft becomes.
pub open spec fn item_with(d: DraftModel, m: Marks) -> ItemModel {
    match d {
        DraftModel::Claim { .. } => ItemModel::Assert(RecordModel::Claim(claim_with(d, m))),
        DraftModel::Op { created_by, created_at, kind } => ItemModel::Op { id: m.id@, created_by, created_at, kind },
    }
}

/// What a tree holds.
#[verifier::ext_equal]
pub struct TreeModel {
    pub created_by: Seq<char>,
    pub items: Map<Seq<char>, ItemModel>,
    pub moderators: Set<Seq<char>>,
    /// Each operation with each of those who committed it.
    pub committers: Set<(Seq<char>, Seq<char>)>,
    pub pending: Seq<ItemModel>,
    pub clock: Hlc,
}

impl TreeModel {
    /// Items stand under their ids, and none of them is later than the clock.
    pub open spec fn sound(self) -> bool {
        &&& forall|id: Seq<char>| #[trigger] self.items.contains_key(id) ==> self.items[id].id() == id
        &&& forall|id: Seq<char>| #[trigger]
            self.items.contains_key(id) ==> !self.clock.earlier(self.items[id].created_at())
    }

    /// The tree at a new time.
    pub open spec fn at(self, clock: Hlc) -> TreeModel {
        TreeModel { clock, ..self }
    }

    /// The tree once it minted an item, which it commits itself.
    pub open spec fn emitted(self, item: ItemModel) -> TreeModel {
        TreeModel {
            items: self.items.insert(item.id(), item),
            committers: if item is Op {
                self.committers.insert((item.id(), self.created_by))
            } else {
                self.committers
            },
            pending: self.pending.push(item),
            ..self
        }
    }
}

/// The items of a batch under their ids; of several with one id, the last.
pub open spec fn batch(s: Seq<ItemModel>) -> Map<Seq<char>, ItemModel>
    decreases s.len(),
{
    if s.len() == 0 {
        Map::empty()
    } else {
        batch(s.drop_last()).insert(s.last().id(), s.last())
    }
}

/// The operations of a batch, each with who committed it.
pub open spec fn committed(s: Seq<ItemModel>, committer: Seq<char>) -> Set<(Seq<char>, Seq<char>)> {
    Set::new(
        |x: (Seq<char>, Seq<char>)|
            x.1 == committer && exists|i: int| 0 <= i < s.len() && (#[trigger] s[i]) is Op && s[i].id() == x.0,
    )
}

/// The clock once it has seen a batch.
pub open spec fn advanced(clock: Hlc, s: Seq<ItemModel>) -> Hlc
    decreases s.len(),
{
    if s.len() == 0 {
        clock
    } else {
        later(advanced(clock, s.drop_last()), s.last().created_at())
    }
}

/// The tree once it took in a snapshot.
pub open spec fn restored(t: TreeModel, s: Seq<ItemModel>) -> TreeModel {
    TreeModel { items: t.items.union_prefer_right(batch(s)), clock: advanced(t.clock, s), ..t }
}

/// The tree once it took in a batch that someone committed.
pub open spec fn ingested(t: TreeModel, s: Seq<ItemModel>, committer: Seq<char>) -> TreeModel {
    TreeModel { committers: t.committers.union(committed(s, committer)), ..restored(t, s) }
}

/// The claim tree of one replica.
pub struct Tree {
    /// The author of everything that this replica mints.
    pub created_by: String,
    /// Everything that was minted or taken in, under its id.
    pub items: SortedMap<String, ChannelItem>,
    /// Whose operations are honored.
    pub moderators: SortedSet<String>,
    /// Each operation with each of those who committed it.
    pub committers: SortedSet<Two>,
    /// What was minted since the last flush.
    pub pending: Vec<ChannelItem>,
    pub clock: HlcClock,
}

impl View for Tree {
    type V = TreeModel;

    open spec fn view(&self) -> TreeModel {
        TreeModel {
            created_by: self.created_by@,
            items: item_map(self.items@),
            moderators: self.moderators@,
            committers: self.committers@,
            pending: item_models(self.pending@),
            clock: self.clock@,
        }
    }
}

/// What was said of a draft, and what became of it.
pub open spec fn minting<F: Fn(&Draft) -> Result<Marks, TreeError>>(
    identify: F,
    draft: DraftModel,
    said: Result<Marks, TreeError>,
) -> bool {
    exists|d: Draft| #[trigger] identify.ensures((&d,), said) && d@ == draft
}

impl Tree {
    pub open spec fn wf(&self) -> bool {
        &&& self.items.wf()
        &&& self.moderators.wf()
        &&& self.committers.wf()
        &&& self@.sound()
    }

    /// A fresh tree, moderated by its author.
    pub fn new(created_by: String) -> (r: Tree)
        ensures
            r.wf(),
            r@ == (TreeModel {
                created_by: created_by@,
                items: Map::empty(),
                moderators: Set::empty().insert(created_by@),
                committers: Set::empty(),
                pending: Seq::empty(),
                clock: Hlc { millis: 0, logical: 0 },
            }),
    {
        let mut moderators: SortedSet<String> = SortedSet::new();
        moderators.insert(created_by.clone());
        let r = Tree {
            created_by,
            items: SortedMap::new(),
            moderators,
            committers: SortedSet::new(),
            pending: Vec::new(),
            clock: HlcClock::default(),
        };
        assert(item_map(r.items@) =~= Map::<Seq<char>, ItemModel>::empty());
        assert(item_models(r.pending@) =~= Seq::<ItemModel>::empty());
        assert(r@.moderators =~= Set::empty().insert(created_by@));
        assert(r@.committers =~= Set::<(Seq<char>, Seq<char>)>::empty());
        r
    }

    /// The author of everything that this replica mints.
    pub fn author(&self) -> (r: &str)
        ensures
            r@ == self@.created_by,
    {
        self.created_by.as_str()
    }

    /// Sets whose operations are honored.
    pub fn set_moderators(&mut self, moderators: SortedSet<String>)
        requires
            old(self).wf(),
            moderators.wf(),
        ensures
            final(self).wf(),
            final(self)@ == (TreeModel { moderators: moderators@, ..old(self)@ }),
    {
        self.moderators = moderators;
    }

    /// Forgets everything that was minted or taken in. The clock and the author stay.
    pub fn clear(&mut self)
        requires
            old(self).wf(),
        ensures
            final(self).wf(),
            final(self)@ == (TreeModel {
                items: Map::empty(),
                committers: Set::empty(),
                pending: Seq::empty(),
                ..old(self)@
            }),
    {
        self.items = SortedMap::new();
        self.committers = SortedSet::new();
        self.pending = Vec::new();
        assert(item_map(self.items@) =~= Map::<Seq<char>, ItemModel>::empty());
        assert(item_models(self.pending@) =~= Seq::<ItemModel>::empty());
        assert(self.committers@ =~= Set::<(Seq<char>, Seq<char>)>::empty());
    }

    /// There is a timestamp left for something that is minted at this reading.
    pub fn can_mint(&self, now_millis: i64) -> (r: bool)
        ensures
            r == can_tick(self@.clock, now_millis),
    {
        self.clock.has_next(now_millis)
    }

    fn emit(&mut self, item: ChannelItem)
        requires
            old(self).wf(),
            !old(self)@.clock.earlier(item@.created_at()),
        ensures
            final(self).wf(),
            final(self)@ == old(self)@.emitted(item@),
    {
        let ghost before = self@;
        let ghost m = item@;
        if let ChannelItem::Op(_) = &item {
            let k: Two = (item.id().clone(), self.created_by.clone());
            assert(k.model() == (m.id(), before.created_by));
            self.committers.insert(k);
        }
        let id: String = item.id().clone();
        self.pending.push(item.duplicate());
        self.items.insert(id, item);
        proof {
            let now = before.emitted(m);
            assert(item_models(self.pending@) =~= now.pending);
            assert(item_map(self.items@) =~= now.items);
            assert(self@.committers =~= now.committers);
            assert(self@ =~= now);
        }
    }

    fn draft_claim(&self, target: &str, predicate: &str, value: Value, at: Hlc) -> (r: Draft)
        ensures
            r@ == (DraftModel::Claim {
                target_id: target@,
                predicate: predicate@,
                value: value@,
                created_by: self@.created_by,
                created_at: at,
            }),
    {
        Draft::Claim {
            target_id: target.to_owned(),
            predicate: predicate.to_owned(),
            value,
            created_by: self.created_by.clone(),
            created_at: at,
        }
    }

    /// Asserts a claim about the target.
    pub fn assert_claim<F: Fn(&Draft) -> Result<Marks, TreeError>>(
        &mut self,
        target: &str,
        predicate: &str,
        value: Value,
        now_millis: i64,
        identify: F,
    ) -> (r: Result<(), TreeError>)
        requires
            old(self).wf(),
            can_tick(old(self)@.clock, now_millis),
            forall|d: Draft| identify.requires((&d,)),
        ensures
            final(self).wf(),
            exists|said: Result<Marks, TreeError>| #[trigger]
                minting(
                    identify,
                    DraftModel::Claim {
                        target_id: target@,
                        predicate: predicate@,
                        value: value@,
                        created_by: old(self)@.created_by,
                        created_at: ticked(old(self)@.clock, now_millis),
                    },
                    said,
                ) && minted(
                    old(self)@.at(ticked(old(self)@.clock, now_millis)),
                    DraftModel::Claim {
                        target_id: target@,
                        predicate: predicate@,
                        value: value@,
                        created_by: old(self)@.created_by,
                        created_at: ticked(old(self)@.clock, now_millis),
                    },
                    said,
                    r,
                    final(self)@,
                ),
    {
        let ghost start = self@;
        let at: Hlc = self.clock.next(now_millis);
        proof {
            still_sound(start, at);
            assert(self@ =~= start.at(at));
        }
        let draft: Draft = self.draft_claim(target, predicate, value, at);
        let ghost d = draft@;
        let said: Result<Marks, TreeError> = identify(&draft);
        assert(minting(identify, d, said));
        match said {
            Ok(m) => {
                let ghost marks = m;
                let item = ChannelItem::Assert(Record::Claim(claim_from(draft, m)));
                assert(item@ == item_with(d, marks));
                self.emit(item);
                Ok(())
            },
            Err(e) => Err(e),
        }
    }

    /// Asserts an anchor, and with it that what it stands for is real.
    pub fn assert_anchor<F: Fn(&Draft) -> Result<Marks, TreeError>>(
        &mut self,
        id: &str,
        type_uri: &str,
        now_millis: i64,
        identify: F,
    ) -> (r: Result<(), TreeError>)
        requires
            old(self).wf(),
            can_tick(old(self)@.clock, now_millis),
            forall|d: Draft| identify.requires((&d,)),
        ensures
            final(self).wf(),
            exists|said: Result<Marks, TreeError>| #[trigger]
                minting(
                    identify,
                    existence_draft(id@, old(self)@.created_by, ticked(old(self)@.clock, now_millis)),
                    said,
                ) && anchored(
                    old(self)@.at(ticked(old(self)@.clock, now_millis)),
                    id@,
                    type_uri@,
                    said,
                    r,
                    final(self)@,
                ),
    {
        let ghost start = self@;
        let at: Hlc = self.clock.next(now_millis);
        let ghost now = start.at(at);
        proof {
            still_sound(start, at);
            assert(self@ =~= now);
        }
        let nothing: Vec<(String, Value)> = Vec::new();
        let empty = Value::Object(nothing);
        assert(empty@ == Json::Object(Seq::empty())) by {
            assert(crate::projection::value::json_members(nothing@) =~= Seq::empty());
        }
        let draft: Draft = self.draft_claim(id, P_EXISTENCE, empty, at);
        let ghost d = draft@;
        assert(d == existence_draft(id@, start.created_by, at));
        let said: Result<Marks, TreeError> = identify(&draft);
        assert(minting(identify, d, said));
        match said {
            Ok(m) => {
                let ghost marks = m;
                let anchor = ChannelItem::Assert(
                    Record::Anchor(
                        Anchor {
                            id: id.to_owned(),
                            type_uri: type_uri.to_owned(),
                            created_by: self.created_by.clone(),
                            created_at: at,
                        },
                    ),
                );
                let existence = ChannelItem::Assert(Record::Claim(claim_from(draft, m)));
                assert(existence@ == item_with(d, marks));
                assert(anchor@ == anchor_item(id@, type_uri@, start.created_by, at));
                self.emit(anchor);
                self.emit(existence);
                Ok(())
            },
            Err(e) => Err(e),
        }
    }

    fn mint_op<F: Fn(&Draft) -> Result<Marks, TreeError>>(&mut self, at: Hlc, kind: OpKind, identify: &F) -> (r: Result<
        String,
        TreeError,
    >)
        requires
            old(self).wf(),
            old(self)@.clock == at,
            forall|d: Draft| identify.requires((&d,)),
        ensures
            final(self).wf(),
            exists|said: Result<Marks, TreeError>| #[trigger]
                minting(*identify, op_draft(kind@, old(self)@.created_by, at), said) && op_minted(
                    old(self)@,
                    op_draft(kind@, old(self)@.created_by, at),
                    said,
                    r,
                    final(self)@,
                ),
    {
        let ghost start = self@;
        let draft = Draft::Op { created_by: self.created_by.clone(), created_at: at, kind };
        let ghost d = draft@;
        assert(d == op_draft(kind@, start.created_by, at));
        let said: Result<Marks, TreeError> = identify(&draft);
        assert(minting(*identify, d, said));
        match said {
            Ok(m) => {
                let ghost marks = m;
                let id: String = m.id.clone();
                if let Draft::Op { created_by, created_at, kind } = draft {
                    let item = ChannelItem::Op(Op { id: m.id, created_by, created_at, kind });
                    assert(item@ == item_with(d, marks));
                    self.emit(item);
                }
                Ok(id)
            },
            Err(e) => Err(e),
        }
    }

    /// Removes a record. Gives the id of the removal, by which it can be revoked.
    pub fn remove<F: Fn(&Draft) -> Result<Marks, TreeError>>(&mut self, target: &str, now_millis: i64, identify: F) -> (r: Result<
        String,
        TreeError,
    >)
        requires
            old(self).wf(),
            can_tick(old(self)@.clock, now_millis),
            forall|d: Draft| identify.requires((&d,)),
        ensures
            final(self).wf(),
            exists|said: Result<Marks, TreeError>| #[trigger]
                minting(
                    identify,
                    op_draft(
                        OpKindModel::Remove { target: target@ },
                        old(self)@.created_by,
                        ticked(old(self)@.clock, now_millis),
                    ),
                    said,
                ) && op_minted(
                    old(self)@.at(ticked(old(self)@.clock, now_millis)),
                    op_draft(
                        OpKindModel::Remove { target: target@ },
                        old(self)@.created_by,
                        ticked(old(self)@.clock, now_millis),
                    ),
                    said,
                    r,
                    final(self)@,
                ),
    {
        let ghost start = self@;
        let at: Hlc = self.clock.next(now_millis);
        proof {
            still_sound(start, at);
            assert(self@ =~= start.at(at));
        }
        self.mint_op(at, OpKind::Remove { target: target.to_owned() }, &identify)
    }

    /// Undoes a removal.
    pub fn revoke<F: Fn(&Draft) -> Result<Marks, TreeError>>(&mut self, removal_op_id: &str, now_millis: i64, identify: F) -> (r:
        Result<(), TreeError>)
        requires
            old(self).wf(),
            can_tick(old(self)@.clock, now_millis),
            forall|d: Draft| identify.requires((&d,)),
        ensures
            final(self).wf(),
            exists|said: Result<Marks, TreeError>| #[trigger]
                minting(
                    identify,
                    op_draft(
                        OpKindModel::Revoke { removal: removal_op_id@ },
                        old(self)@.created_by,
                        ticked(old(self)@.clock, now_millis),
                    ),
                    said,
                ) && minted(
                    old(self)@.at(ticked(old(self)@.clock, now_millis)),
                    op_draft(
                        OpKindModel::Revoke { removal: removal_op_id@ },
                        old(self)@.created_by,
                        ticked(old(self)@.clock, now_millis),
                    ),
                    said,
                    r,
                    final(self)@,
                ),
    {
        let ghost start = self@;
        let at: Hlc = self.clock.next(now_millis);
        proof {
            still_sound(start, at);
            assert(self@ =~= start.at(at));
        }
        match self.mint_op(at, OpKind::Revoke { removal: removal_op_id.to_owned() }, &identify) {
            Ok(_) => Ok(()),
            Err(e) => Err(e),
        }
    }

    /// Supersedes a record with a claim. The claim and the operation share one timestamp.
    pub fn supersede_claim<F: Fn(&Draft) -> Result<Marks, TreeError>>(
        &mut self,
        prior: &str,
        target: &str,
        predicate: &str,
        value: Value,
        now_millis: i64,
        identify: F,
    ) -> (r: Result<(), TreeError>)
        requires
            old(self).wf(),
            can_tick(old(self)@.clock, now_millis),
            forall|d: Draft| identify.requires((&d,)),
        ensures
            final(self).wf(),
            exists|said: Result<Marks, TreeError>| #[trigger]
                minting(
                    identify,
                    DraftModel::Claim {
                        target_id: target@,
                        predicate: predicate@,
                        value: value@,
                        created_by: old(self)@.created_by,
                        created_at: ticked(old(self)@.clock, now_millis),
                    },
                    said,
                ) && superseded(
                    identify,
                    old(self)@.at(ticked(old(self)@.clock, now_millis)),
                    prior@,
                    DraftModel::Claim {
                        target_id: target@,
                        predicate: predicate@,
                        value: value@,
                        created_by: old(self)@.created_by,
                        created_at: ticked(old(self)@.clock, now_millis),
                    },
                    said,
                    r,
                    final(self)@,
                ),
    {
        let ghost start = self@;
        let at: Hlc = self.clock.next(now_millis);
        proof {
            still_sound(start, at);
            assert(self@ =~= start.at(at));
        }
        let ghost now = self@;
        let draft: Draft = self.draft_claim(target, predicate, value, at);
        let ghost d = draft@;
        let said: Result<Marks, TreeError> = identify(&draft);
        assert(minting(identify, d, said));
        match said {
            Ok(m) => {
                let ghost marks = m;
                let claim: Claim = claim_from(draft, m);
                let kind = OpKind::Supersede { prior: prior.to_owned(), replacement: Record::Claim(claim) };
                let ghost k = kind@;
                assert(k == OpKindModel::Supersede {
                    prior: prior@,
                    replacement: RecordModel::Claim(claim_with(d, marks)),
                });
                let r: Result<String, TreeError> = self.mint_op(at, kind, &identify);
                let ghost answer = choose|x: Result<Marks, TreeError>| #[trigger]
                    minting(identify, op_draft(k, now.created_by, at), x) && op_minted(
                        now,
                        op_draft(k, now.created_by, at),
                        x,
                        r,
                        self@,
                    );
                match r {
                    Ok(_) => {
                        let out: Result<(), TreeError> = Ok(());
                        assert(minted(now, op_draft(k, now.created_by, at), answer, out, self@));
                        out
                    },
                    Err(e) => {
                        let out: Result<(), TreeError> = Err(e);
                        assert(minted(now, op_draft(k, now.created_by, at), answer, out, self@));
                        out
                    },
                }
            },
            Err(e) => Err(e),
        }
    }

    /// Encodes everything that was minted since the last flush as one batch; where nothing was, the batch is empty bytes.
    pub fn flush<E: Fn(&Vec<ChannelItem>) -> Result<Vec<u8>, TreeError>>(&mut self, encode: E) -> (r: Result<Vec<u8>, TreeError>)
        requires
            old(self).wf(),
            forall|b: Vec<ChannelItem>| encode.requires((&b,)),
        ensures
            final(self).wf(),
            old(self)@.pending.len() == 0 ==> (r matches Ok(b) && b@.len() == 0) && final(self)@ == old(self)@,
            old(self)@.pending.len() > 0 ==> encode.ensures((&old(self).pending,), r),
            old(self)@.pending.len() > 0 && r is Ok ==> final(self)@ == (TreeModel { pending: Seq::empty(), ..old(self)@ }),
            r is Err ==> final(self)@ == old(self)@,
    {
        if self.pending.len() == 0 {
            return Ok(Vec::new());
        }
        match encode(&self.pending) {
            Ok(b) => {
                self.pending = Vec::new();
                assert(item_models(self.pending@) =~= Seq::<ItemModel>::empty());
                Ok(b)
            },
            Err(e) => Err(e),
        }
    }

    /// Takes in items that someone committed.
    pub fn ingest(&mut self, items: &Vec<ChannelItem>, committer: &str)
        requires
            old(self).wf(),
        ensures
            final(self).wf(),
            final(self)@ == ingested(old(self)@, item_models(items@), committer@),
    {
        let ghost start = self@;
        let ghost s = item_models(items@);
        let mut i: usize = 0;
        assert(self@ =~= ingested(start, s.take(0), committer@));
        while i < items.len()
            invariant
                i <= items.len(),
                s == item_models(items@),
                self.wf(),
                self@ == ingested(start, s.take(i as int), committer@),
            decreases items.len() - i,
        {
            let ghost before = self@;
            let item: &ChannelItem = &items[i];
            let ghost m = item@;
            assert(s[i as int] == m);
            self.clock.observe(item.created_at());
            if let ChannelItem::Op(_) = item {
                let k: Two = (item.id().clone(), committer.to_owned());
                assert(k.model() == (m.id(), committer@));
                self.committers.insert(k);
            }
            let copy: ChannelItem = item.duplicate();
            let ghost held = self.items@;
            self.items.insert(item.id().clone(), copy);
            assert(item_map(self.items@) =~= item_map(held).insert(m.id(), m));
            proof {
                let p = s.take(i as int);
                let q = s.take(i + 1);
                assert(q.drop_last() =~= p);
                assert(q.last() == m);
                assert(batch(q) == batch(s.take(i as int)).insert(m.id(), m));
                assert(start.items.union_prefer_right(batch(q)) =~= start.items.union_prefer_right(
                    batch(s.take(i as int)),
                ).insert(m.id(), m));
                committed_step(p, m, committer@);
                assert(q =~= p.push(m));
                assert(self@.committers =~= start.committers.union(committed(q, committer@)));
                assert(self@ =~= ingested(start, q, committer@));
                sound_after(before, m, self@);
            }
            i = i + 1;
        }
        assert(s.take(i as int) =~= s);
    }

    /// Takes in a batch that someone committed. Gives how many items it held.
    pub fn merge<D: Fn(&Vec<u8>) -> Result<Vec<ChannelItem>, TreeError>>(
        &mut self,
        bytes: &Vec<u8>,
        committer: &str,
        decode: D,
    ) -> (r: Result<usize, TreeError>)
        requires
            old(self).wf(),
            decode.requires((bytes,)),
        ensures
            final(self).wf(),
            exists|said: Result<Vec<ChannelItem>, TreeError>| #[trigger]
                decode.ensures((bytes,), said) && match said {
                    Ok(items) => r == Ok::<usize, TreeError>(items.len()) && final(self)@ == ingested(
                        old(self)@,
                        item_models(items@),
                        committer@,
                    ),
                    Err(e) => r == Err::<usize, TreeError>(e) && final(self)@ == old(self)@,
                },
    {
        let said: Result<Vec<ChannelItem>, TreeError> = decode(bytes);
        match said {
            Ok(items) => {
                self.ingest(&items, committer);
                Ok(items.len())
            },
            Err(e) => Err(e),
        }
    }

    /// Takes in the items of a snapshot, which nobody has to have committed.
    pub fn restore(&mut self, items: &Vec<ChannelItem>)
        requires
            old(self).wf(),
        ensures
            final(self).wf(),
            final(self)@ == restored(old(self)@, item_models(items@)),
    {
        let ghost start = self@;
        let ghost s = item_models(items@);
        let mut i: usize = 0;
        assert(self@ =~= restored(start, s.take(0)));
        while i < items.len()
            invariant
                i <= items.len(),
                s == item_models(items@),
                self.wf(),
                self@ == restored(start, s.take(i as int)),
            decreases items.len() - i,
        {
            let ghost before = self@;
            let item: &ChannelItem = &items[i];
            let ghost m = item@;
            assert(s[i as int] == m);
            self.clock.observe(item.created_at());
            let copy: ChannelItem = item.duplicate();
            let ghost held = self.items@;
            self.items.insert(item.id().clone(), copy);
            assert(item_map(self.items@) =~= item_map(held).insert(m.id(), m));
            proof {
                let q = s.take(i + 1);
                assert(q.drop_last() =~= s.take(i as int));
                assert(q.last() == m);
                assert(batch(q) == batch(s.take(i as int)).insert(m.id(), m));
                assert(start.items.union_prefer_right(batch(q)) =~= start.items.union_prefer_right(
                    batch(s.take(i as int)),
                ).insert(m.id(), m));
                assert(self@ =~= restored(start, q));
                sound_after(before, m, self@);
            }
            i = i + 1;
        }
        assert(s.take(i as int) =~= s);
    }

    /// Takes in a snapshot.
    pub fn load_snapshot<D: Fn(&Vec<u8>) -> Result<Vec<ChannelItem>, TreeError>>(&mut self, bytes: &Vec<u8>, decode: D) -> (r:
        Result<(), TreeError>)
        requires
            old(self).wf(),
            decode.requires((bytes,)),
        ensures
            final(self).wf(),
            exists|said: Result<Vec<ChannelItem>, TreeError>| #[trigger]
                decode.ensures((bytes,), said) && match said {
                    Ok(items) => r is Ok && final(self)@ == restored(old(self)@, item_models(items@)),
                    Err(e) => r == Err::<(), TreeError>(e) && final(self)@ == old(self)@,
                },
    {
        let said: Result<Vec<ChannelItem>, TreeError> = decode(bytes);
        match said {
            Ok(items) => {
                self.restore(&items);
                Ok(())
            },
            Err(e) => Err(e),
        }
    }

    /// The live records: the fold of everything that is here, by those who committed it and those who moderate.
    pub fn live_records<L: Fn(&SortedMap<String, ChannelItem>, &SortedSet<Two>, &SortedSet<String>) -> Vec<Record>>(
        &self,
        fold: L,
    ) -> (r: Vec<Record>)
        requires
            fold.requires((&self.items, &self.committers, &self.moderators)),
        ensures
            fold.ensures((&self.items, &self.committers, &self.moderators), r),
    {
        fold(&self.items, &self.committers, &self.moderators)
    }

    /// The live records as a snapshot, in which each is asserted.
    pub fn snapshot<
        L: Fn(&SortedMap<String, ChannelItem>, &SortedSet<Two>, &SortedSet<String>) -> Vec<Record>,
        E: Fn(&Vec<ChannelItem>) -> Result<Vec<u8>, TreeError>,
    >(&self, fold: L, encode: E) -> (r: Result<Vec<u8>, TreeError>)
        requires
            fold.requires((&self.items, &self.committers, &self.moderators)),
            forall|b: Vec<ChannelItem>| encode.requires((&b,)),
        ensures
            exists|live: Vec<Record>, b: Vec<ChannelItem>| #[trigger]
                fold.ensures((&self.items, &self.committers, &self.moderators), live) && #[trigger] encode.ensures((&b,), r)
                    && item_models(b@) == asserted(record_models(live@)),
    {
        let live: Vec<Record> = fold(&self.items, &self.committers, &self.moderators);
        let b: Vec<ChannelItem> = assert_all(&live);
        let r: Result<Vec<u8>, TreeError> = encode(&b);
        assert(encode.ensures((&b,), r));
        r
    }

    /// The read model of the live records.
    pub fn project<L: Fn(&SortedMap<String, ChannelItem>, &SortedSet<Two>, &SortedSet<String>) -> Vec<Record>>(
        &self,
        fold: L,
        calendar: &Calendar,
    ) -> (r: Projection)
        requires
            calendar.wf(),
            fold.requires((&self.items, &self.committers, &self.moderators)),
        ensures
            showing(*self, fold, calendar@, r),
    {
        let live: Vec<Record> = fold(&self.items, &self.committers, &self.moderators);
        assert(folded(*self, fold, live));
        project(&live, &Policy::default(), calendar)
    }

    /// The live claims about the target, under this predicate.
    pub fn live_claims_of<L: Fn(&SortedMap<String, ChannelItem>, &SortedSet<Two>, &SortedSet<String>) -> Vec<Record>>(
        &self,
        target: &str,
        predicate: &str,
        fold: L,
    ) -> (r: Vec<Claim>)
        requires
            fold.requires((&self.items, &self.committers, &self.moderators)),
        ensures
            exists|live: Vec<Record>| #[trigger]
                fold.ensures((&self.items, &self.committers, &self.moderators), live) && claim_models(r@) == claims_about(
                    record_models(live@),
                    target@,
                    Some(predicate@),
                ),
    {
        let live: Vec<Record> = fold(&self.items, &self.committers, &self.moderators);
        select_claims(&live, target, Some(predicate))
    }

    /// The live claims about the target, whatever their predicate.
    pub fn live_claims_of_any<L: Fn(&SortedMap<String, ChannelItem>, &SortedSet<Two>, &SortedSet<String>) -> Vec<Record>>(
        &self,
        target: &str,
        fold: L,
    ) -> (r: Vec<Claim>)
        requires
            fold.requires((&self.items, &self.committers, &self.moderators)),
        ensures
            exists|live: Vec<Record>| #[trigger]
                fold.ensures((&self.items, &self.committers, &self.moderators), live) && claim_models(r@) == claims_about(
                    record_models(live@),
                    target@,
                    None,
                ),
    {
        let live: Vec<Record> = fold(&self.items, &self.committers, &self.moderators);
        select_claims(&live, target, None)
    }

    /// The person that an anchor belongs to.
    pub fn resolve_id<L: Fn(&SortedMap<String, ChannelItem>, &SortedSet<Two>, &SortedSet<String>) -> Vec<Record>>(
        &self,
        anchor: &str,
        fold: L,
        calendar: &Calendar,
    ) -> (r: Option<String>)
        requires
            calendar.wf(),
            fold.requires((&self.items, &self.committers, &self.moderators)),
        ensures
            exists|live: Vec<Record>| #[trigger]
                fold.ensures((&self.items, &self.committers, &self.moderators), live) && opt_text(r) == person_with(
                    projected(record_models(live@), default_policy(), calendar@).people,
                    anchor@,
                ),
    {
        let p: Projection = self.project(fold, calendar);
        find_person(&p.people, anchor)
    }

    /// Everything that was minted or taken in, by time and then by id, each with whether it is honored.
    pub fn oplog(&self) -> (r: Vec<OpView>)
        requires
            self.wf(),
        ensures
            op_models(r@) == log_of(self@),
    {
        let ids: SortedSet<String> = keys_of(&self.items);
        let ghost give = entry_key(self@);
        let key = |id: &String| -> (l: Option<(Hlc, String)>)
            requires
                ids@.contains(id.model()),
            ensures
                opt_model(l) == give(id.model()),
        {
            match self.items.get(id) {
                Some(item) => {
                    let k: (Hlc, String) = (item.created_at(), id.clone());
                    assert(self@.items[id@] == item@);
                    assert(k.model() == (item@.created_at(), id@));
                    Some(k)
                },
                None => None,
            }
        };
        let keys: SortedSet<(Hlc, String)> = filter_map(&ids, key, Ghost(give));
        proof {
            assert(ids@ =~= self@.items.dom());
            assert forall|x: (Hlc, Seq<char>)| #[trigger] keys@.contains(x) implies self@.items.contains_key(x.1) by {
                let id = choose|id: Seq<char>| #[trigger] ids@.contains(id) && give(id) == Some(x);
            }
        }
        let show = |x: &(Hlc, String)| -> (v: OpView)
            requires
                self@.items.contains_key(x.model().1),
            ensures
                v@ == entry_view(self@, self@.items[x.model().1]),
        {
            self.show_entry(&x.1)
        };
        let r: Vec<OpView> = list_of(&keys, show);
        proof {
            let want = log_of(self@);
            assert forall|i: int| 0 <= i < r@.len() implies op_models(r@)[i] == want[i] by {
                assert(made(show, in_order::<(Hlc, String)>(keys@)[i], r@[i]));
            }
            assert(op_models(r@) =~= want);
        }
        r
    }

    fn show_entry(&self, id: &String) -> (v: OpView)
        requires
            self.wf(),
            self@.items.contains_key(id@),
        ensures
            v@ == entry_view(self@, self@.items[id@]),
    {
        assert(self.items@.contains_key(id@));
        let i: usize = match self.items.position(id) {
            Some(i) => i,
            None => 0,
        };
        proof {
            self.items.facts();
        }
        let item: &ChannelItem = &self.items.values[i];
        assert(item@ == self@.items[id@]);
        let (kind, effective): (&'static str, bool) = match item {
            ChannelItem::Assert(_) => ("assert", true),
            ChannelItem::Op(op) => {
                let by: SortedSet<String> = slice_of(&self.committers, &op.id);
                (op_kind_label(&op.kind), meets(&by, &self.moderators))
            },
        };
        OpView {
            id: item.id().clone(),
            author: item.created_by().clone(),
            created_at: item.created_at(),
            kind,
            effective,
        }
    }
}

/// The policy that every tie takes effect once it is held on balance.
pub open spec fn default_policy() -> Policy {
    Policy {
        same_as_threshold: 1,
        different_from_threshold: 1,
        reattribute_threshold: 1,
        preferred_threshold: 1,
        relationship_threshold: 1,
    }
}

/// An operation that is about to be minted.
pub open spec fn op_draft(kind: OpKindModel, created_by: Seq<char>, at: Hlc) -> DraftModel {
    DraftModel::Op { created_by, created_at: at, kind }
}

/// The claim that what an anchor stands for is real.
pub open spec fn existence_draft(id: Seq<char>, created_by: Seq<char>, at: Hlc) -> DraftModel {
    DraftModel::Claim {
        target_id: id,
        predicate: P_EXISTENCE@,
        value: Json::Object(Seq::empty()),
        created_by,
        created_at: at,
    }
}

/// An anchor that is asserted.
pub open spec fn anchor_item(id: Seq<char>, type_uri: Seq<char>, created_by: Seq<char>, at: Hlc) -> ItemModel {
    ItemModel::Assert(RecordModel::Anchor { id, type_uri, created_by, created_at: at })
}

/// What came of a draft: where it was identified it was emitted, and otherwise only time has passed.
pub open spec fn minted(
    now: TreeModel,
    draft: DraftModel,
    said: Result<Marks, TreeError>,
    r: Result<(), TreeError>,
    t: TreeModel,
) -> bool {
    match said {
        Ok(m) => r is Ok && t == now.emitted(item_with(draft, m)),
        Err(e) => r == Err::<(), TreeError>(e) && t == now,
    }
}

/// What came of the draft of an operation, whose id is given back.
pub open spec fn op_minted(
    now: TreeModel,
    draft: DraftModel,
    said: Result<Marks, TreeError>,
    r: Result<String, TreeError>,
    t: TreeModel,
) -> bool {
    match said {
        Ok(m) => (r matches Ok(id) && id@ == m.id@) && t == now.emitted(item_with(draft, m)),
        Err(e) => r == Err::<String, TreeError>(e) && t == now,
    }
}

/// What came of an anchor: it was emitted, and then the claim that what it stands for is real.
pub open spec fn anchored(
    now: TreeModel,
    id: Seq<char>,
    type_uri: Seq<char>,
    said: Result<Marks, TreeError>,
    r: Result<(), TreeError>,
    t: TreeModel,
) -> bool {
    match said {
        Ok(m) => r is Ok && t == now.emitted(anchor_item(id, type_uri, now.created_by, now.clock)).emitted(
            item_with(existence_draft(id, now.created_by, now.clock), m),
        ),
        Err(e) => r == Err::<(), TreeError>(e) && t == now,
    }
}

/// What came of a replacement: the claim is identified, and then the operation that carries it is minted.
pub open spec fn superseded<F: Fn(&Draft) -> Result<Marks, TreeError>>(
    identify: F,
    now: TreeModel,
    prior: Seq<char>,
    draft: DraftModel,
    said: Result<Marks, TreeError>,
    r: Result<(), TreeError>,
    t: TreeModel,
) -> bool {
    match said {
        Ok(m) => {
            let op = op_draft(
                OpKindModel::Supersede { prior, replacement: RecordModel::Claim(claim_with(draft, m)) },
                now.created_by,
                now.clock,
            );
            exists|answer: Result<Marks, TreeError>| #[trigger] minting(identify, op, answer) && minted(now, op, answer, r, t)
        },
        Err(e) => r == Err::<(), TreeError>(e) && t == now,
    }
}

fn claim_from(draft: Draft, m: Marks) -> (r: Claim)
    requires
        draft is Claim,
    ensures
        r@ == claim_with(draft@, m),
{
    match draft {
        Draft::Claim { target_id, predicate, value, created_by, created_at } => Claim {
            id: m.id,
            predicate,
            target_id,
            value,
            created_by,
            created_at,
            citation: None,
            fingerprint: m.fingerprint,
            name_ref: m.name_ref,
            rest: Value::Null,
        },
        Draft::Op { created_by, created_at, kind: _ } => Claim {
            id: m.id,
            predicate: String::new(),
            target_id: String::new(),
            value: Value::Null,
            created_by,
            created_at,
            citation: None,
            fingerprint: m.fingerprint,
            name_ref: m.name_ref,
            rest: Value::Null,
        },
    }
}

/// Each record, asserted.
pub open spec fn asserted(s: Seq<RecordModel>) -> Seq<ItemModel> {
    s.map_values(|r: RecordModel| ItemModel::Assert(r))
}

fn assert_all(live: &Vec<Record>) -> (r: Vec<ChannelItem>)
    ensures
        item_models(r@) == asserted(record_models(live@)),
{
    let mut out: Vec<ChannelItem> = Vec::new();
    let mut i: usize = 0;
    while i < live.len()
        invariant
            i <= live.len(),
            out@.len() == i,
            forall|j: int| 0 <= j < i ==> (#[trigger] out@[j])@ == ItemModel::Assert(live@[j]@),
        decreases live.len() - i,
    {
        out.push(ChannelItem::Assert(live[i].duplicate()));
        i = i + 1;
    }
    assert(item_models(out@) =~= asserted(record_models(live@)));
    out
}

/// What the claims hold.
pub open spec fn claim_models(s: Seq<Claim>) -> Seq<ClaimModel> {
    Seq::new(s.len(), |i: int| s[i]@)
}

/// The record is a claim about the target, under this predicate where one is given.
pub open spec fn is_about(r: RecordModel, target: Seq<char>, predicate: Option<Seq<char>>) -> bool {
    r matches RecordModel::Claim(c) && c.target_id == target && (predicate is None || predicate == Some(c.predicate))
}

/// The claims about the target, in the order of the records.
pub open spec fn claims_about(d: Seq<RecordModel>, target: Seq<char>, predicate: Option<Seq<char>>) -> Seq<ClaimModel> {
    d.filter(|r: RecordModel| is_about(r, target, predicate)).map_values(|r: RecordModel| r->Claim_0)
}

fn select_claims(live: &Vec<Record>, target: &str, predicate: Option<&str>) -> (r: Vec<Claim>)
    ensures
        claim_models(r@) == claims_about(
            record_models(live@),
            target@,
            match predicate {
                Some(p) => Some(p@),
                None => None,
            },
        ),
{
    let ghost d = record_models(live@);
    let ghost wanted = match predicate {
        Some(p) => Some(p@),
        None => None,
    };
    let ghost fits = |r: RecordModel| is_about(r, target@, wanted);
    let ghost inner = |r: RecordModel| r->Claim_0;
    let mut out: Vec<Claim> = Vec::new();
    let mut i: usize = 0;
    proof {
        reveal(Seq::filter);
        assert(claim_models(out@) =~= d.take(0).filter(fits).map_values(inner));
    }
    while i < live.len()
        invariant
            i <= live.len(),
            d == record_models(live@),
            wanted == (match predicate {
                Some(p) => Some(p@),
                None => None,
            }),
            fits == (|r: RecordModel| is_about(r, target@, wanted)),
            inner == (|r: RecordModel| r->Claim_0),
            claim_models(out@) == d.take(i as int).filter(fits).map_values(inner),
        decreases live.len() - i,
    {
        let ghost x = live@[i as int]@;
        let ghost before = claim_models(out@);
        proof {
            assert(d[i as int] == x);
            assert(d.take(i + 1) =~= d.take(i as int).push(x));
            d.take(i as int).lemma_filter_push(x, fits);
        }
        if let Record::Claim(c) = &live[i] {
            let named = match predicate {
                Some(p) => text_equal(c.predicate.as_str(), p),
                None => true,
            };
            if text_equal(c.target_id.as_str(), target) && named {
                out.push(c.duplicate());
                proof {
                    assert(claim_models(out@) =~= before.push(c@));
                    let kept = d.take(i as int).filter(fits);
                    assert(kept.push(x).map_values(inner) =~= kept.map_values(inner).push(c@));
                }
            }
        }
        i = i + 1;
    }
    assert(d.take(i as int) =~= d);
    assert(claim_models(out@) == claims_about(d, target@, wanted));
    out
}

/// The anchor is one of this person's.
pub open spec fn stands_for(p: PersonModel, anchor: Seq<char>) -> bool {
    p.id == anchor || p.also.contains(anchor)
}

/// The first person that the anchor is one of.
pub open spec fn person_with(people: Seq<PersonModel>, anchor: Seq<char>) -> Option<Seq<char>>
    decreases people.len(),
{
    if people.len() == 0 {
        None
    } else if stands_for(people[0], anchor) {
        Some(people[0].id)
    } else {
        person_with(people.drop_first(), anchor)
    }
}

fn is_one_of(p: &Person, anchor: &str) -> (r: bool)
    ensures
        r == stands_for(p@, anchor@),
{
    if text_equal(p.id.as_str(), anchor) {
        return true;
    }
    let ghost also = p@.also;
    let mut i: usize = 0;
    while i < p.also.len()
        invariant
            i <= p.also.len(),
            also == p@.also,
            also.len() == p.also@.len(),
            forall|j: int| 0 <= j < i ==> also[j] != anchor@,
        decreases p.also.len() - i,
    {
        assert(also[i as int] == p.also@[i as int]@);
        if text_equal(p.also[i].as_str(), anchor) {
            assert(also.contains(anchor@));
            return true;
        }
        i = i + 1;
    }
    assert(!also.contains(anchor@));
    false
}

/// The first person that the anchor is one of.
pub fn find_person(people: &Vec<Person>, anchor: &str) -> (r: Option<String>)
    ensures
        opt_text(r) == person_with(crate::projection::views::all_views(people@), anchor@),
{
    let ghost all = crate::projection::views::all_views(people@);
    let mut i: usize = 0;
    assert(all.skip(0) =~= all);
    while i < people.len()
        invariant
            i <= people.len(),
            all == crate::projection::views::all_views(people@),
            person_with(all, anchor@) == person_with(all.skip(i as int), anchor@),
        decreases people.len() - i,
    {
        proof {
            assert(all.skip(i as int)[0] == people@[i as int]@);
            assert(all.skip(i as int).drop_first() =~= all.skip(i + 1));
        }
        if is_one_of(&people[i], anchor) {
            return Some(people[i].id.clone());
        }
        i = i + 1;
    }
    assert(all.skip(i as int).len() == 0);
    None
}

/// One entry of the op log.
#[derive(Debug, PartialEq, Eq)]
pub struct OpView {
    pub id: String,
    pub author: String,
    pub created_at: Hlc,
    /// `assert`, `remove`, `supersede` or `revoke`.
    pub kind: &'static str,
    /// Whether the entry is honored.
    pub effective: bool,
}

/// What an entry of the op log shows.
#[verifier::ext_equal]
pub struct OpViewModel {
    pub id: Seq<char>,
    pub author: Seq<char>,
    pub created_at: Hlc,
    pub kind: Seq<char>,
    pub effective: bool,
}

impl View for OpView {
    type V = OpViewModel;

    open spec fn view(&self) -> OpViewModel {
        OpViewModel {
            id: self.id@,
            author: self.author@,
            created_at: self.created_at,
            kind: self.kind@,
            effective: self.effective,
        }
    }
}

/// What the entries show.
pub open spec fn op_models(s: Seq<OpView>) -> Seq<OpViewModel> {
    Seq::new(s.len(), |i: int| s[i]@)
}

/// Someone who moderates has committed the operation.
pub open spec fn honored(t: TreeModel, id: Seq<char>) -> bool {
    !slice(t.committers, id).disjoint(t.moderators)
}

/// An entry of the op log: an assertion is always honored, an operation if someone who moderates has committed it.
pub open spec fn entry_view(t: TreeModel, item: ItemModel) -> OpViewModel {
    OpViewModel {
        id: item.id(),
        author: item.created_by(),
        created_at: item.created_at(),
        kind: match item {
            ItemModel::Assert(_) => "assert"@,
            ItemModel::Op { kind, .. } => kind.label(),
        },
        effective: item is Assert || honored(t, item.id()),
    }
}

/// An item, by its time and id.
pub open spec fn entry_key(t: TreeModel) -> spec_fn(Seq<char>) -> Option<(Hlc, Seq<char>)> {
    |id: Seq<char>| Some((t.items[id].created_at(), id))
}

/// The op log, by time and then by id.
pub open spec fn log_of(t: TreeModel) -> Seq<OpViewModel> {
    in_order::<(Hlc, String)>(imaged(t.items.dom(), entry_key(t))).map_values(
        |x: (Hlc, Seq<char>)| entry_view(t, t.items[x.1]),
    )
}

proof fn still_sound(t: TreeModel, at: Hlc)
    requires
        t.sound(),
        t.clock.earlier(at),
    ensures
        t.at(at).sound(),
{
}

proof fn sound_after(before: TreeModel, m: ItemModel, t: TreeModel)
    requires
        before.sound(),
        t.items == before.items.insert(m.id(), m),
        t.clock == later(before.clock, m.created_at()),
    ensures
        t.sound(),
{
}

proof fn committed_step(p: Seq<ItemModel>, m: ItemModel, committer: Seq<char>)
    ensures
        committed(p.push(m), committer) == if m is Op {
            committed(p, committer).insert((m.id(), committer))
        } else {
            committed(p, committer)
        },
{
    let q = p.push(m);
    let want = if m is Op {
        committed(p, committer).insert((m.id(), committer))
    } else {
        committed(p, committer)
    };
    assert forall|x: (Seq<char>, Seq<char>)| committed(q, committer).contains(x) == want.contains(x) by {
        if committed(q, committer).contains(x) {
            let i = choose|i: int| 0 <= i < q.len() && (#[trigger] q[i]) is Op && q[i].id() == x.0;
            if i < p.len() {
                assert(p[i] == q[i]);
            }
        }
        if committed(p, committer).contains(x) {
            let i = choose|i: int| 0 <= i < p.len() && (#[trigger] p[i]) is Op && p[i].id() == x.0;
            assert(q[i] == p[i]);
        }
        if m is Op && x == (m.id(), committer) {
            assert(q[p.len() as int] == m);
        }
    }
    assert(committed(q, committer) =~= want);
}

/// What is minted next is later than everything that is here, whatever the physical reading: it cannot reproduce the id
/// of anything that was seen, removed or not.
pub proof fn a_mint_is_past_everything(t: TreeModel, now_millis: i64, id: Seq<char>)
    requires
        t.sound(),
        can_tick(t.clock, now_millis),
        t.items.contains_key(id),
    ensures
        t.items[id].created_at().earlier(ticked(t.clock, now_millis)),
{
    crate::clock::next_is_strictly_monotonic(t.clock, now_millis);
}

proof fn the_clock_is_past_a_batch(clock: Hlc, s: Seq<ItemModel>)
    ensures
        !advanced(clock, s).earlier(clock),
        forall|i: int| 0 <= i < s.len() ==> !advanced(clock, s).earlier((#[trigger] s[i]).created_at()),
    decreases s.len(),
{
    if s.len() > 0 {
        the_clock_is_past_a_batch(clock, s.drop_last());
        assert forall|i: int| 0 <= i < s.len() implies !advanced(clock, s).earlier((#[trigger] s[i]).created_at()) by {
            if i < s.len() - 1 {
                assert(s.drop_last()[i] == s[i]);
            }
        }
    }
}

proof fn a_seen_batch_does_not_advance(clock: Hlc, s: Seq<ItemModel>)
    requires
        forall|i: int| 0 <= i < s.len() ==> !clock.earlier((#[trigger] s[i]).created_at()),
    ensures
        advanced(clock, s) == clock,
    decreases s.len(),
{
    if s.len() > 0 {
        assert forall|i: int| 0 <= i < s.drop_last().len() implies !clock.earlier((#[trigger] s.drop_last()[i]).created_at()) by {
            assert(s.drop_last()[i] == s[i]);
        }
        a_seen_batch_does_not_advance(clock, s.drop_last());
        assert(!clock.earlier(s[s.len() - 1].created_at()));
    }
}

/// Taking in a batch again changes nothing.
pub proof fn merge_is_idempotent(t: TreeModel, s: Seq<ItemModel>, committer: Seq<char>)
    ensures
        ingested(ingested(t, s, committer), s, committer) == ingested(t, s, committer),
{
    let once = ingested(t, s, committer);
    let twice = ingested(once, s, committer);
    the_clock_is_past_a_batch(t.clock, s);
    a_seen_batch_does_not_advance(once.clock, s);
    assert(twice.items =~= once.items);
    assert(twice.committers =~= once.committers);
    assert(twice =~= once);
}

/// Items with one id are one item.
pub open spec fn one_item_each(a: Seq<ItemModel>, b: Seq<ItemModel>) -> bool {
    forall|i: int, j: int| #![trigger a[i], b[j]]
        0 <= i < a.len() && 0 <= j < b.len() && a[i].id() == b[j].id() ==> a[i] == b[j]
}

proof fn batch_holds(s: Seq<ItemModel>)
    ensures
        forall|id: Seq<char>| #[trigger]
            batch(s).contains_key(id) ==> exists|i: int| 0 <= i < s.len() && (#[trigger] s[i]).id() == id && batch(s)[id] == s[i],
    decreases s.len(),
{
    if s.len() > 0 {
        let r = s.drop_last();
        batch_holds(r);
        assert forall|id: Seq<char>| #[trigger] batch(s).contains_key(id) implies exists|i: int|
            0 <= i < s.len() && (#[trigger] s[i]).id() == id && batch(s)[id] == s[i] by {
            if id == s.last().id() {
                assert(s[s.len() - 1].id() == id);
            } else {
                assert(batch(r).contains_key(id));
                let i = choose|i: int| 0 <= i < r.len() && (#[trigger] r[i]).id() == id && batch(r)[id] == r[i];
                assert(s[i] == r[i]);
            }
        }
    }
}

proof fn batch_covers(s: Seq<ItemModel>)
    ensures
        forall|i: int| 0 <= i < s.len() ==> batch(s).contains_key((#[trigger] s[i]).id()),
    decreases s.len(),
{
    if s.len() > 0 {
        let r = s.drop_last();
        batch_covers(r);
        assert forall|i: int| 0 <= i < s.len() implies batch(s).contains_key((#[trigger] s[i]).id()) by {
            if i < r.len() {
                assert(r[i] == s[i]);
            }
        }
    }
}

/// The batches bring this item.
pub open spec fn brings(log: Seq<(Seq<ItemModel>, Seq<char>)>, item: ItemModel) -> bool {
    exists|d: (Seq<ItemModel>, Seq<char>)| #[trigger] log.contains(d) && d.0.contains(item)
}

/// The batches bring an item with this id.
pub open spec fn brings_id(log: Seq<(Seq<ItemModel>, Seq<char>)>, id: Seq<char>) -> bool {
    exists|item: ItemModel| #[trigger] brings(log, item) && item.id() == id
}

/// Someone committed an operation in one of the batches.
pub open spec fn credits(log: Seq<(Seq<ItemModel>, Seq<char>)>, x: (Seq<char>, Seq<char>)) -> bool {
    exists|d: (Seq<ItemModel>, Seq<char>)| #[trigger] log.contains(d) && committed(d.0, d.1).contains(x)
}

/// Over all the batches, items with one id are one item.
pub open spec fn items_identify(log: Seq<(Seq<ItemModel>, Seq<char>)>) -> bool {
    forall|a: ItemModel, b: ItemModel| #[trigger] brings(log, a) && #[trigger] brings(log, b) && a.id() == b.id() ==> a == b
}

/// The tree once it took in the batches, each with who committed it, in this order.
pub open spec fn delivered(t: TreeModel, log: Seq<(Seq<ItemModel>, Seq<char>)>) -> TreeModel
    decreases log.len(),
{
    if log.len() == 0 {
        t
    } else {
        ingested(delivered(t, log.drop_last()), log.last().0, log.last().1)
    }
}

proof fn the_clock_is_one_it_saw(clock: Hlc, s: Seq<ItemModel>)
    ensures
        advanced(clock, s) == clock || exists|i: int| 0 <= i < s.len() && (#[trigger] s[i]).created_at() == advanced(clock, s),
    decreases s.len(),
{
    if s.len() > 0 {
        let r = s.drop_last();
        the_clock_is_one_it_saw(clock, r);
        if exists|i: int| 0 <= i < r.len() && (#[trigger] r[i]).created_at() == advanced(clock, r) {
            let i = choose|i: int| 0 <= i < r.len() && (#[trigger] r[i]).created_at() == advanced(clock, r);
            assert(s[i] == r[i]);
        }
        assert(s[s.len() - 1] == s.last());
    }
}

proof fn the_last_batch_adds(log: Seq<(Seq<ItemModel>, Seq<char>)>)
    requires
        log.len() > 0,
    ensures
        forall|item: ItemModel| #[trigger] brings(log, item) <==> brings(log.drop_last(), item) || log.last().0.contains(item),
        forall|id: Seq<char>| #[trigger]
            brings_id(log, id) <==> brings_id(log.drop_last(), id) || exists|i: int|
                0 <= i < log.last().0.len() && (#[trigger] log.last().0[i]).id() == id,
        forall|x: (Seq<char>, Seq<char>)| #[trigger]
            credits(log, x) <==> credits(log.drop_last(), x) || committed(log.last().0, log.last().1).contains(x),
{
    let r = log.drop_last();
    let d0 = log.last();
    assert(log[log.len() - 1] == d0);
    assert forall|d: (Seq<ItemModel>, Seq<char>)| #[trigger] log.contains(d) <==> r.contains(d) || d == d0 by {
        if log.contains(d) {
            let i = choose|i: int| 0 <= i < log.len() && log[i] == d;
            if i < r.len() {
                assert(r[i] == d);
            }
        }
        if r.contains(d) {
            let i = choose|i: int| 0 <= i < r.len() && r[i] == d;
            assert(log[i] == d);
        }
    }
    assert forall|item: ItemModel| #[trigger] brings(log, item) <==> brings(r, item) || d0.0.contains(item) by {
        if brings(log, item) {
            let d = choose|d: (Seq<ItemModel>, Seq<char>)| #[trigger] log.contains(d) && d.0.contains(item);
            assert(r.contains(d) || d == d0);
        }
        if brings(r, item) {
            let d = choose|d: (Seq<ItemModel>, Seq<char>)| #[trigger] r.contains(d) && d.0.contains(item);
            assert(log.contains(d));
        }
        if d0.0.contains(item) {
            assert(log.contains(d0));
        }
    }
    assert forall|id: Seq<char>| #[trigger] brings_id(log, id) <==> brings_id(r, id) || exists|i: int|
        0 <= i < d0.0.len() && (#[trigger] d0.0[i]).id() == id by {
        if brings_id(log, id) {
            let item = choose|item: ItemModel| #[trigger] brings(log, item) && item.id() == id;
            if !brings(r, item) {
                let i = choose|i: int| 0 <= i < d0.0.len() && d0.0[i] == item;
                assert(d0.0[i].id() == id);
            }
        }
        if brings_id(r, id) {
            let item = choose|item: ItemModel| #[trigger] brings(r, item) && item.id() == id;
            assert(brings(log, item));
        }
        if exists|i: int| 0 <= i < d0.0.len() && (#[trigger] d0.0[i]).id() == id {
            let i = choose|i: int| 0 <= i < d0.0.len() && (#[trigger] d0.0[i]).id() == id;
            assert(d0.0.contains(d0.0[i]));
            assert(brings(log, d0.0[i]));
        }
    }
    assert forall|x: (Seq<char>, Seq<char>)| #[trigger] credits(log, x) <==> credits(r, x) || committed(d0.0, d0.1).contains(x) by {
        if credits(log, x) {
            let d = choose|d: (Seq<ItemModel>, Seq<char>)| #[trigger] log.contains(d) && committed(d.0, d.1).contains(x);
            assert(r.contains(d) || d == d0);
        }
        if credits(r, x) {
            let d = choose|d: (Seq<ItemModel>, Seq<char>)| #[trigger] r.contains(d) && committed(d.0, d.1).contains(x);
            assert(log.contains(d));
        }
        if committed(d0.0, d0.1).contains(x) {
            assert(log.contains(d0));
        }
    }
}

/// What a tree holds once batches were delivered, whatever their order.
proof fn delivery_holds(t: TreeModel, log: Seq<(Seq<ItemModel>, Seq<char>)>)
    requires
        items_identify(log),
    ensures
        ({
            let r = delivered(t, log);
            &&& r.created_by == t.created_by && r.moderators == t.moderators && r.pending == t.pending
            &&& forall|id: Seq<char>| #[trigger] r.items.contains_key(id) <==> t.items.contains_key(id) || brings_id(log, id)
            &&& forall|item: ItemModel| #[trigger] brings(log, item) ==> r.items[item.id()] == item
            &&& forall|id: Seq<char>| #[trigger]
                r.items.contains_key(id) && !brings_id(log, id) ==> r.items[id] == t.items[id]
            &&& forall|x: (Seq<char>, Seq<char>)| #[trigger] r.committers.contains(x) <==> t.committers.contains(x) || credits(log, x)
            &&& !r.clock.earlier(t.clock)
            &&& forall|item: ItemModel| #[trigger] brings(log, item) ==> !r.clock.earlier(item.created_at())
            &&& r.clock == t.clock || exists|item: ItemModel| #[trigger] brings(log, item) && item.created_at() == r.clock
        }),
    decreases log.len(),
{
    if log.len() == 0 {
        assert forall|item: ItemModel| !(#[trigger] brings(log, item)) by {}
    } else {
        let before = log.drop_last();
        let (s, who) = log.last();
        the_last_batch_adds(log);
        assert forall|a: ItemModel, b: ItemModel|
            #[trigger] brings(before, a) && #[trigger] brings(before, b) && a.id() == b.id() implies a == b by {
            assert(brings(log, a) && brings(log, b));
        }
        delivery_holds(t, before);
        let was = delivered(t, before);
        let r = delivered(t, log);
        batch_holds(s);
        batch_covers(s);
        the_clock_is_past_a_batch(was.clock, s);
        the_clock_is_one_it_saw(was.clock, s);
        assert forall|id: Seq<char>| #[trigger] r.items.contains_key(id) <==> t.items.contains_key(id) || brings_id(log, id) by {
            assert(r.items.contains_key(id) == (was.items.contains_key(id) || batch(s).contains_key(id)));
        }
        assert forall|item: ItemModel| #[trigger] brings(log, item) implies r.items[item.id()] == item
            && !r.clock.earlier(item.created_at()) by {
            if batch(s).contains_key(item.id()) {
                let k = choose|k: int| 0 <= k < s.len() && (#[trigger] s[k]).id() == item.id() && batch(s)[item.id()] == s[k];
                assert(s.contains(s[k]));
                assert(brings(log, s[k]));
                assert(s[k] == item);
            } else {
                if s.contains(item) {
                    let k = choose|k: int| 0 <= k < s.len() && s[k] == item;
                    assert(batch(s).contains_key(s[k].id()));
                }
                assert(brings(before, item));
            }
        }
        assert forall|id: Seq<char>| #[trigger] r.items.contains_key(id) && !brings_id(log, id) implies r.items[id] == t.items[id] by {
            assert(!batch(s).contains_key(id));
            assert(was.items.contains_key(id));
        }
        if r.clock != was.clock {
            let i = choose|i: int| 0 <= i < s.len() && (#[trigger] s[i]).created_at() == r.clock;
            assert(s.contains(s[i]));
            assert(brings(log, s[i]));
        } else if r.clock != t.clock {
            let item = choose|item: ItemModel| #[trigger] brings(before, item) && item.created_at() == r.clock;
            assert(brings(log, item));
        }
    }
}

/// The two hold the same batches, each with who committed it.
pub open spec fn same_batches(a: Seq<(Seq<ItemModel>, Seq<char>)>, b: Seq<(Seq<ItemModel>, Seq<char>)>) -> bool {
    forall|d: (Seq<ItemModel>, Seq<char>)| #![trigger a.contains(d)] #![trigger b.contains(d)] a.contains(d) <==> b.contains(d)
}

/// The two hold the same items, committed by the same, under the same moderators: all that their readers see.
pub open spec fn hold_alike(t: TreeModel, u: TreeModel) -> bool {
    t.items == u.items && t.committers == u.committers && t.moderators == u.moderators
}

/// Replicas converge: whatever the order of the batches and however often each comes, trees that held alike hold alike
/// once they took them in, where items with one id are one item; and one tree ends up the same in all.
pub proof fn replicas_converge(
    t: TreeModel,
    a: Seq<(Seq<ItemModel>, Seq<char>)>,
    u: TreeModel,
    b: Seq<(Seq<ItemModel>, Seq<char>)>,
)
    requires
        hold_alike(t, u),
        same_batches(a, b),
        items_identify(a),
    ensures
        hold_alike(delivered(t, a), delivered(u, b)),
        t == u ==> delivered(t, a) == delivered(u, b),
{
    let (x, y) = (delivered(t, a), delivered(u, b));
    assert forall|item: ItemModel| #![trigger brings(a, item)] #![trigger brings(b, item)] brings(a, item) == brings(b, item) by {
        if brings(a, item) {
            let d = choose|d: (Seq<ItemModel>, Seq<char>)| #[trigger] a.contains(d) && d.0.contains(item);
            assert(b.contains(d));
        }
        if brings(b, item) {
            let d = choose|d: (Seq<ItemModel>, Seq<char>)| #[trigger] b.contains(d) && d.0.contains(item);
            assert(a.contains(d));
        }
    }
    assert forall|id: Seq<char>| #![trigger brings_id(a, id)] #![trigger brings_id(b, id)] brings_id(a, id) == brings_id(b, id) by {
        if brings_id(a, id) {
            let item = choose|item: ItemModel| #[trigger] brings(a, item) && item.id() == id;
            assert(brings(b, item));
        }
        if brings_id(b, id) {
            let item = choose|item: ItemModel| #[trigger] brings(b, item) && item.id() == id;
            assert(brings(a, item));
        }
    }
    assert forall|c: (Seq<char>, Seq<char>)| #![trigger credits(a, c)] #![trigger credits(b, c)] credits(a, c) == credits(b, c) by {
        if credits(a, c) {
            let d = choose|d: (Seq<ItemModel>, Seq<char>)| #[trigger] a.contains(d) && committed(d.0, d.1).contains(c);
            assert(b.contains(d));
        }
        if credits(b, c) {
            let d = choose|d: (Seq<ItemModel>, Seq<char>)| #[trigger] b.contains(d) && committed(d.0, d.1).contains(c);
            assert(a.contains(d));
        }
    }
    delivery_holds(t, a);
    delivery_holds(u, b);
    assert forall|id: Seq<char>| x.items.contains_key(id) == y.items.contains_key(id) && (x.items.contains_key(id)
        ==> x.items[id] == y.items[id]) by {
        if brings_id(a, id) {
            let item = choose|item: ItemModel| #[trigger] brings(a, item) && item.id() == id;
            assert(brings(b, item));
        }
    }
    assert(x.items =~= y.items);
    assert(x.committers =~= y.committers);
    if t == u {
        assert(x.clock == y.clock) by {
            if x.clock != t.clock {
                let item = choose|item: ItemModel| #[trigger] brings(a, item) && item.created_at() == x.clock;
                assert(brings(b, item));
            }
            if y.clock != t.clock {
                let item = choose|item: ItemModel| #[trigger] brings(b, item) && item.created_at() == y.clock;
                assert(brings(a, item));
            }
            assert(!x.clock.earlier(y.clock) && !y.clock.earlier(x.clock));
        }
        assert(x =~= y);
    }
}

/// The fold of what the tree holds gave these records.
pub open spec fn folded<L: Fn(&SortedMap<String, ChannelItem>, &SortedSet<Two>, &SortedSet<String>) -> Vec<Record>>(
    t: Tree,
    fold: L,
    live: Vec<Record>,
) -> bool {
    fold.ensures((&t.items, &t.committers, &t.moderators), live)
}

/// The read model of the live records.
pub open spec fn showing<L: Fn(&SortedMap<String, ChannelItem>, &SortedSet<Two>, &SortedSet<String>) -> Vec<Record>>(
    t: Tree,
    fold: L,
    calendar: Map<Seq<char>, YearBounds>,
    r: Projection,
) -> bool {
    exists|live: Vec<Record>| #[trigger]
        folded(t, fold, live) && r@ == projected(record_models(live@), default_policy(), calendar)
}

/// The fold goes by what is held: of trees that hold alike it gives the same records, in whatever order, and no two with
/// one id.
pub open spec fn goes_by_content<L: Fn(&SortedMap<String, ChannelItem>, &SortedSet<Two>, &SortedSet<String>) -> Vec<Record>>(
    fold: L,
) -> bool {
    forall|x: Tree, y: Tree, of_x: Vec<Record>, of_y: Vec<Record>|
        hold_alike(x@, y@) && #[trigger] folded(x, fold, of_x) && #[trigger] folded(y, fold, of_y) ==> same_records(
            record_models(of_x@),
            record_models(of_y@),
        ) && ids_identify(record_models(of_x@))
}

/// Trees that hold alike show the same, under a fold that goes by what is held, and have one log.
pub proof fn trees_that_hold_alike_show_alike<
    L: Fn(&SortedMap<String, ChannelItem>, &SortedSet<Two>, &SortedSet<String>) -> Vec<Record>,
>(x: Tree, y: Tree, fold: L, calendar: Map<Seq<char>, YearBounds>, of_x: Projection, of_y: Projection)
    requires
        goes_by_content(fold),
        hold_alike(x@, y@),
        showing(x, fold, calendar, of_x),
        showing(y, fold, calendar, of_y),
    ensures
        of_x@ == of_y@,
        log_of(x@) == log_of(y@),
        forall|a: Vec<Record>, b: Vec<Record>| #[trigger]
            folded(x, fold, a) && #[trigger] folded(y, fold, b) ==> same_records(record_models(a@), record_models(b@)),
{
    assert(entry_key(x@) =~= entry_key(y@));
    assert(log_of(x@) =~= log_of(y@));
    let a = choose|live: Vec<Record>| #[trigger]
        folded(x, fold, live) && of_x@ == projected(record_models(live@), default_policy(), calendar);
    let b = choose|live: Vec<Record>| #[trigger]
        folded(y, fold, live) && of_y@ == projected(record_models(live@), default_policy(), calendar);
    order_independent(record_models(a@), record_models(b@), default_policy(), calendar);
}

/// Replicas show alike: under a fold that goes by what is held, trees that held alike show the same read model, the same
/// live records and the same log once they took in the same batches, whatever the order and however often each came.
pub proof fn replicas_show_alike<
    L: Fn(&SortedMap<String, ChannelItem>, &SortedSet<Two>, &SortedSet<String>) -> Vec<Record>,
>(
    t: TreeModel,
    a: Seq<(Seq<ItemModel>, Seq<char>)>,
    u: TreeModel,
    b: Seq<(Seq<ItemModel>, Seq<char>)>,
    x: Tree,
    y: Tree,
    fold: L,
    calendar: Map<Seq<char>, YearBounds>,
    of_x: Projection,
    of_y: Projection,
)
    requires
        goes_by_content(fold),
        hold_alike(t, u),
        same_batches(a, b),
        items_identify(a),
        x@ == delivered(t, a),
        y@ == delivered(u, b),
        showing(x, fold, calendar, of_x),
        showing(y, fold, calendar, of_y),
    ensures
        of_x@ == of_y@,
        log_of(x@) == log_of(y@),
        forall|p: Vec<Record>, q: Vec<Record>| #[trigger]
            folded(x, fold, p) && #[trigger] folded(y, fold, q) ==> same_records(record_models(p@), record_models(q@)),
{
    replicas_converge(t, a, u, b);
    trees_that_hold_alike_show_alike(x, y, fold, calendar, of_x, of_y);
}

/// Taking in a batch again shows nothing new: the read model, the live records and the log stay as they were, under a fold
/// that goes by what is held.
pub proof fn a_batch_taken_in_again_shows_nothing_new<
    L: Fn(&SortedMap<String, ChannelItem>, &SortedSet<Two>, &SortedSet<String>) -> Vec<Record>,
>(
    t: TreeModel,
    s: Seq<ItemModel>,
    committer: Seq<char>,
    once: Tree,
    twice: Tree,
    fold: L,
    calendar: Map<Seq<char>, YearBounds>,
    before: Projection,
    after: Projection,
)
    requires
        goes_by_content(fold),
        once@ == ingested(t, s, committer),
        twice@ == ingested(once@, s, committer),
        showing(once, fold, calendar, before),
        showing(twice, fold, calendar, after),
    ensures
        before@ == after@,
        log_of(once@) == log_of(twice@),
        forall|p: Vec<Record>, q: Vec<Record>| #[trigger]
            folded(once, fold, p) && #[trigger] folded(twice, fold, q) ==> same_records(record_models(p@), record_models(q@)),
{
    merge_is_idempotent(t, s, committer);
    trees_that_hold_alike_show_alike(once, twice, fold, calendar, before, after);
}

proof fn advances_commute(clock: Hlc, a: Seq<ItemModel>, at: Hlc)
    ensures
        advanced(later(clock, at), a) == later(advanced(clock, a), at),
    decreases a.len(),
{
    if a.len() > 0 {
        advances_commute(clock, a.drop_last(), at);
    }
}

proof fn the_order_of_batches_is_nothing_to_the_clock(clock: Hlc, a: Seq<ItemModel>, b: Seq<ItemModel>)
    ensures
        advanced(advanced(clock, a), b) == advanced(advanced(clock, b), a),
    decreases b.len(),
{
    if b.len() > 0 {
        the_order_of_batches_is_nothing_to_the_clock(clock, a, b.drop_last());
        advances_commute(advanced(clock, b.drop_last()), a, b.last().created_at());
    }
}

/// Replicas converge: two batches leave the same tree in either order, where items with one id are one item.
pub proof fn merges_commute(t: TreeModel, a: Seq<ItemModel>, p: Seq<char>, b: Seq<ItemModel>, q: Seq<char>)
    requires
        one_item_each(a, b),
    ensures
        ingested(ingested(t, a, p), b, q) == ingested(ingested(t, b, q), a, p),
{
    let x = ingested(ingested(t, a, p), b, q);
    let y = ingested(ingested(t, b, q), a, p);
    batch_holds(a);
    batch_holds(b);
    assert forall|id: Seq<char>| x.items.contains_key(id) == y.items.contains_key(id) && (x.items.contains_key(id)
        ==> x.items[id] == y.items[id]) by {
        if batch(a).contains_key(id) && batch(b).contains_key(id) {
            let i = choose|i: int| 0 <= i < a.len() && (#[trigger] a[i]).id() == id && batch(a)[id] == a[i];
            let j = choose|j: int| 0 <= j < b.len() && (#[trigger] b[j]).id() == id && batch(b)[id] == b[j];
            assert(a[i] == b[j]);
        }
    }
    assert(x.items =~= y.items);
    assert(x.committers =~= y.committers);
    the_order_of_batches_is_nothing_to_the_clock(t.clock, a, b);
    assert(x =~= y);
}

proof fn batches_add_up(a: Seq<ItemModel>, b: Seq<ItemModel>, clock: Hlc)
    ensures
        batch(a + b) == batch(a).union_prefer_right(batch(b)),
        advanced(clock, a + b) == advanced(advanced(clock, a), b),
    decreases b.len(),
{
    if b.len() == 0 {
        assert(a + b =~= a);
        assert(batch(a).union_prefer_right(batch(b)) =~= batch(a));
    } else {
        batches_add_up(a, b.drop_last(), clock);
        assert((a + b).drop_last() =~= a + b.drop_last());
        assert((a + b).last() == b.last());
        assert(batch(a + b) =~= batch(a).union_prefer_right(batch(b)));
    }
}

/// A log is taken in by whatever parts: two batches of one committer, one after the other, leave what they leave as one.
pub proof fn a_log_is_replayed_in_any_parts(t: TreeModel, a: Seq<ItemModel>, b: Seq<ItemModel>, committer: Seq<char>)
    ensures
        ingested(ingested(t, a, committer), b, committer) == ingested(t, a + b, committer),
{
    let parts = ingested(ingested(t, a, committer), b, committer);
    let whole = ingested(t, a + b, committer);
    batches_add_up(a, b, t.clock);
    assert(parts.items =~= whole.items);
    assert forall|x: (Seq<char>, Seq<char>)| committed(a + b, committer).contains(x) == (committed(a, committer).contains(x)
        || committed(b, committer).contains(x)) by {
        if committed(a + b, committer).contains(x) {
            let i = choose|i: int| 0 <= i < (a + b).len() && (#[trigger] (a + b)[i]) is Op && (a + b)[i].id() == x.0;
            if i < a.len() {
                assert(a[i] is Op && a[i].id() == x.0);
            } else {
                assert(b[i - a.len()] is Op && b[i - a.len()].id() == x.0);
            }
        }
        if committed(a, committer).contains(x) {
            let i = choose|i: int| 0 <= i < a.len() && (#[trigger] a[i]) is Op && a[i].id() == x.0;
            assert((a + b)[i] is Op && (a + b)[i].id() == x.0);
        }
        if committed(b, committer).contains(x) {
            let i = choose|i: int| 0 <= i < b.len() && (#[trigger] b[i]) is Op && b[i].id() == x.0;
            assert((a + b)[a.len() + i] is Op && (a + b)[a.len() + i].id() == x.0);
        }
    }
    assert(parts.committers =~= whole.committers);
    assert(parts =~= whole);
}

/// Loading a snapshot again changes nothing.
pub proof fn loading_is_idempotent(t: TreeModel, s: Seq<ItemModel>)
    ensures
        restored(restored(t, s), s) == restored(t, s),
{
    let once = restored(t, s);
    let twice = restored(once, s);
    the_clock_is_past_a_batch(t.clock, s);
    a_seen_batch_does_not_advance(once.clock, s);
    assert(twice.items =~= once.items);
    assert(twice =~= once);
}

/// A snapshot stands for the live records: loaded into an empty tree, it leaves each of them asserted under its id, and
/// nothing else, where records with one id are one record.
pub proof fn a_snapshot_stands_for_its_records(t: TreeModel, live: Seq<RecordModel>)
    requires
        t.items == Map::<Seq<char>, ItemModel>::empty(),
        ids_identify(live),
    ensures
        ({
            let loaded = restored(t, asserted(live));
            &&& forall|i: int| 0 <= i < live.len() ==> loaded.items.contains_key((#[trigger] live[i]).id())
                && loaded.items[live[i].id()] == ItemModel::Assert(live[i])
            &&& forall|id: Seq<char>| #[trigger]
                loaded.items.contains_key(id) ==> exists|i: int| 0 <= i < live.len() && (#[trigger] live[i]).id() == id
            &&& loaded.committers == t.committers
            &&& loaded.pending == t.pending
        }),
{
    let s = asserted(live);
    let loaded = restored(t, s);
    batch_holds(s);
    batch_covers(s);
    assert(loaded.items =~= batch(s));
    assert forall|i: int| 0 <= i < live.len() implies loaded.items.contains_key((#[trigger] live[i]).id())
        && loaded.items[live[i].id()] == ItemModel::Assert(live[i]) by {
        assert(s[i] == ItemModel::Assert(live[i]));
        assert(batch(s).contains_key(s[i].id()));
        let k = choose|k: int| 0 <= k < s.len() && (#[trigger] s[k]).id() == live[i].id() && batch(s)[live[i].id()] == s[k];
        assert(s[k] == ItemModel::Assert(live[k]));
        assert(live[k] == live[i]);
    }
    assert forall|id: Seq<char>| #[trigger] loaded.items.contains_key(id) implies exists|i: int|
        0 <= i < live.len() && (#[trigger] live[i]).id() == id by {
        let k = choose|k: int| 0 <= k < s.len() && (#[trigger] s[k]).id() == id && batch(s)[id] == s[k];
        assert(s[k] == ItemModel::Assert(live[k]));
        assert(live[k].id() == id);
    }
}

/// What an author mints reaches others: taking in a flushed batch that the author committed leaves its items, its
/// committers and its time as they are at the author's.
pub proof fn a_mint_replays(t: TreeModel, item: ItemModel)
    requires
        !t.clock.earlier(item.created_at()),
    ensures
        ingested(t, seq![item], t.created_by).items == t.emitted(item).items,
        ingested(t, seq![item], t.created_by).committers == t.emitted(item).committers,
        ingested(t, seq![item], t.created_by).clock == t.emitted(item).clock,
{
    let s = seq![item];
    assert(s.drop_last() =~= Seq::empty());
    assert(s.last() == item);
    assert(batch(Seq::<ItemModel>::empty()) =~= Map::<Seq<char>, ItemModel>::empty());
    assert(batch(s) == Map::<Seq<char>, ItemModel>::empty().insert(item.id(), item));
    assert(Seq::<ItemModel>::empty().push(item) =~= s);
    committed_step(Seq::empty(), item, t.created_by);
    assert(committed(Seq::empty(), t.created_by) =~= Set::empty());
    assert(ingested(t, s, t.created_by).items =~= t.emitted(item).items);
    assert(ingested(t, s, t.created_by).committers =~= t.emitted(item).committers);
    assert(advanced(t.clock, Seq::empty()) == t.clock);
}

/// An assertion is honored whoever made it; an operation is honored as soon as someone who committed it moderates, and
/// no longer than that.
pub proof fn promotion_makes_an_operation_effective(t: TreeModel, item: ItemModel, who: Seq<char>)
    ensures
        item is Assert ==> entry_view(t, item).effective,
        item is Op && t.committers.contains((item.id(), who)) && t.moderators.contains(who) ==> entry_view(t, item).effective,
        item is Op && (forall|x: Seq<char>| #[trigger] t.committers.contains((item.id(), x)) ==> !t.moderators.contains(x))
            ==> !entry_view(t, item).effective,
{
    if t.committers.contains((item.id(), who)) && t.moderators.contains(who) {
        assert(slice(t.committers, item.id()).contains(who));
    }
    if forall|x: Seq<char>| #[trigger] t.committers.contains((item.id(), x)) ==> !t.moderators.contains(x) {
        assert forall|x: Seq<char>| !(slice(t.committers, item.id()).contains(x) && t.moderators.contains(x)) by {
            assert(slice(t.committers, item.id()).contains(x) == t.committers.contains((item.id(), x)));
        }
    }
}

} // verus!
