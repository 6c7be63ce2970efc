//! Resolving an anchor: what the engine is handed, and what its run amounts to.

use vstd::prelude::*;

use crate::keyring_api::{member_models, view_ignores_member_order, EverMemberInfo, MemberModel, MemberView, MembershipView};
use crate::keyring_dag::access::{KeyringAction, KeyringMemberInit, KeyringOp, KeyringState};
use crate::keyring_dag::anchor::{
    check_floor, has_id, honest, merge, merge_keeps_local_ops, merge_unites_ids, merged, satisfies, stored_models, ClientError,
    DagAnchor, DagPin, StoredModel, StoredOp,
};
use crate::keyring_dag::checkpoint::{
    all_bind, copy_sealing, entry_models, roster_of, sealing_models, EntryModel, GroupStateView, SealingEntry,
    SealingModel, SealingOrigin, SignedCheckpoint,
};
use crate::keyring_dag::codec::{
    dtos_to_minits, init_dto_models, init_models, minit_to_dto, ActionModel, InitModel, MemberInitDto, OpModel,
};
use crate::order::{bytes_equal, same_key, text_equal};
use crate::sorted::SortedMap;
use crate::sorting::{stable_sorting, Keyed};
use crate::text::copy_bytes;

verus! {

/// What a client error says.
pub enum ErrorModel {
    Malformed(Seq<char>),
    Engine(Seq<char>),
    RolledBack(Seq<char>),
    BadWatermark(Seq<char>),
}

impl ClientError {
    pub open spec fn model(self) -> ErrorModel {
        match self {
            ClientError::Malformed(m) => ErrorModel::Malformed(m@),
            ClientError::Engine(m) => ErrorModel::Engine(m@),
            ClientError::RolledBack(m) => ErrorModel::RolledBack(m@),
            ClientError::BadWatermark(m) => ErrorModel::BadWatermark(m@),
        }
    }
}

fn malformed(m: &str) -> (r: ClientError)
    ensures
        r.model() == ErrorModel::Malformed(m@),
{
    ClientError::Malformed(m.to_owned())
}

/// What an engine starts from: the pinned genesis, or an adopted checkpoint.
pub enum EngineBase {
    Genesis { group_id: Vec<u8>, members: Vec<KeyringMemberInit>, reset_authority: Option<[u8; 32]> },
    Adopted { state: KeyringState, frontier_depths: Vec<([u8; 32], usize)>, has_been_shared: bool },
}

/// What an engine reports after it was handed a base and the ops.
pub struct EngineRun {
    /// For each op in order, why the engine refused it, if it did; it stops at the first refusal.
    pub refusals: Vec<Option<String>>,
    /// Why the buffered ops could not be settled, if they could not.
    pub flush_error: Option<String>,
    /// The resolved members.
    pub members: GroupStateView,
    /// The ops that took effect, in resolved order.
    pub effective: Vec<[u8; 32]>,
    pub has_been_shared: bool,
    pub reset_authority: Option<[u8; 32]>,
    /// Each op's depth.
    pub depths: Vec<([u8; 32], u64)>,
}

/// A depth as a machine word; one that does not fit stays an upper bound.
pub open spec fn depth_word(d: u64) -> usize {
    if d <= usize::MAX {
        d as usize
    } else {
        usize::MAX
    }
}

/// The checkpoint's signer is the active owner of the checkpoint's own state, by key.
pub open spec fn signed_by_the_owner(cp: SignedCheckpoint) -> bool {
    let roster = roster_of(entry_models(cp.body.state.members@));
    let author = cp.body.author@;
    roster.contains_key(author) && roster[author].active() && roster[author].role.owner()
        && roster[author].author_public_key == cp.signer
}

/// Why an anchor gives no engine base, if it gives none.
pub open spec fn base_trouble(anchor: DagAnchor) -> Option<ErrorModel> {
    match anchor.checkpoint {
        None => None,
        Some(cp) => if !cp.verified {
            Some(ErrorModel::Malformed("checkpoint signature does not verify"@))
        } else if !all_bind(entry_models(cp.body.state.members@)) {
            Some(ErrorModel::Malformed("checkpoint member id does not certify its key"@))
        } else if !signed_by_the_owner(cp) {
            Some(
                ErrorModel::Malformed(
                    "checkpoint author is not the resolved Owner (or its signer is not that Owner's key)"@,
                ),
            )
        } else {
            None
        },
    }
}

/// `base` is what the anchor pins: its genesis, or the state, depths and shared marker of its checkpoint.
pub open spec fn base_of(anchor: DagAnchor, base: EngineBase) -> bool {
    match (anchor.checkpoint, base) {
        (None, EngineBase::Genesis { group_id, members, reset_authority }) => {
            &&& group_id@ == anchor.group_id@
            &&& init_models(members@) == init_dto_models(anchor.genesis@)
            &&& reset_authority == anchor.reset_authority
        },
        (Some(cp), EngineBase::Adopted { state, frontier_depths, has_been_shared }) => {
            &&& state.wf()
            &&& state.group_id@ == anchor.group_id@
            &&& state.roster() == roster_of(entry_models(cp.body.state.members@))
            &&& state.reset_authority == cp.body.reset_authority
            &&& frontier_depths@.len() == cp.body.frontier_depths@.len()
            &&& forall|i: int|
                0 <= i < frontier_depths@.len() ==> (#[trigger] frontier_depths@[i]).0 == cp.body.frontier_depths@[i].0
                    && frontier_depths@[i].1 == depth_word(cp.body.frontier_depths@[i].1)
            &&& has_been_shared == cp.body.has_been_shared
        },
        _ => false,
    }
}

/// What the engine is to start from.
pub fn engine_base(anchor: &DagAnchor) -> (r: Result<EngineBase, ClientError>)
    ensures
        match r {
            Ok(base) => base_trouble(*anchor) is None && base_of(*anchor, base),
            Err(e) => base_trouble(*anchor) == Some(e.model()),
        },
{
    match &anchor.checkpoint {
        None => Ok(
            EngineBase::Genesis {
                group_id: copy_bytes(anchor.group_id.as_slice()),
                members: dtos_to_minits(&anchor.genesis),
                reset_authority: anchor.reset_authority,
            },
        ),
        Some(cp) => {
            if !cp.verified {
                return Err(malformed("checkpoint signature does not verify"));
            }
            let view: GroupStateView = cp.body.state.duplicate();
            let state: KeyringState = match view.into_state(copy_bytes(anchor.group_id.as_slice()), cp.body.reset_authority) {
                Ok(s) => s,
                Err(_) => {
                    return Err(malformed("checkpoint member id does not certify its key"));
                },
            };
            let owned = match state.members.get(&cp.body.author) {
                Some(m) => m.is_active() && m.role.is_owner() && same_key(&m.author_public_key, &cp.signer),
                None => false,
            };
            proof {
                if state.roster().contains_key(cp.body.author@) {
                    let m = state.roster()[cp.body.author@];
                    if m.author_public_key@ == cp.signer@ {
                        assert(m.author_public_key =~= cp.signer);
                    }
                }
            }
            if !owned {
                return Err(
                    malformed("checkpoint author is not the resolved Owner (or its signer is not that Owner's key)"),
                );
            }
            let mut frontier_depths: Vec<([u8; 32], usize)> = Vec::new();
            let mut i: usize = 0;
            while i < cp.body.frontier_depths.len()
                invariant
                    i <= cp.body.frontier_depths.len(),
                    frontier_depths.len() == i,
                    forall|k: int|
                        0 <= k < i ==> (#[trigger] frontier_depths@[k]).0 == cp.body.frontier_depths@[k].0
                            && frontier_depths@[k].1 == depth_word(cp.body.frontier_depths@[k].1),
                decreases cp.body.frontier_depths.len() - i,
            {
                let d = cp.body.frontier_depths[i];
                let word: usize = if d.1 <= usize::MAX as u64 {
                    d.1 as usize
                } else {
                    usize::MAX
                };
                frontier_depths.push((d.0, word));
                i = i + 1;
            }
            Ok(EngineBase::Adopted { state, frontier_depths, has_been_shared: cp.body.has_been_shared })
        },
    }
}

/// The active members among these entries, in their order.
pub open spec fn active_models(s: Seq<EntryModel>) -> Seq<MemberModel>
    decreases s.len(),
{
    if s.len() == 0 {
        Seq::empty()
    } else {
        let e = s.last();
        let before = active_models(s.drop_last());
        if e.state.active() {
            before.push(
                MemberModel {
                    member_id: e.id,
                    role: e.state.role.0,
                    author_public_key: e.state.author_public_key@,
                    hpke_public_key: e.state.hpke_public_key@,
                },
            )
        } else {
            before
        }
    }
}

/// `view` shows the active members among these entries, sorted by id.
pub open spec fn shows(entries: Seq<EntryModel>, reset_boundary: bool, view: MembershipView) -> bool {
    &&& view.reset_boundary == reset_boundary
    &&& exists|list: Seq<MemberView>| #[trigger]
        stable_sorting(list, view.members@) && member_models(list) == active_models(entries)
}

/// The membership view of a resolved state.
pub fn view_of(state: &GroupStateView, reset_boundary: bool) -> (r: MembershipView)
    ensures
        shows(entry_models(state.members@), reset_boundary, r),
{
    let ghost all = entry_models(state.members@);
    let mut list: Vec<MemberView> = Vec::new();
    let mut i: usize = 0;
    assert(all.take(0) =~= Seq::<EntryModel>::empty());
    assert(member_models(list@) =~= active_models(all.take(0)));
    while i < state.members.len()
        invariant
            i <= state.members.len(),
            all == entry_models(state.members@),
            member_models(list@) == active_models(all.take(i as int)),
        decreases state.members.len() - i,
    {
        let m = &state.members[i];
        let ghost before = member_models(list@);
        proof {
            assert(all.take(i + 1).drop_last() =~= all.take(i as int));
            assert(all.take(i + 1).last() == m@);
        }
        if m.member_counter % 2 == 0 {
            let v = MemberView {
                member_id: m.id.clone(),
                role: m.role.0,
                author_public_key: copy_bytes(m.author_public_key.as_slice()),
                hpke_public_key: copy_bytes(m.hpke_public_key.as_slice()),
            };
            let ghost model = v@;
            list.push(v);
            assert(member_models(list@) =~= before.push(model));
        }
        i = i + 1;
    }
    assert(all.take(i as int) =~= all);
    MembershipView::new(list, reset_boundary)
}

/// The op with this id; of several, the last.
pub open spec fn op_with(ops: Seq<StoredModel>, id: [u8; 32]) -> Option<OpModel>
    decreases ops.len(),
{
    if ops.len() == 0 {
        None
    } else if ops.last().op.id == id {
        Some(ops.last().op)
    } else {
        op_with(ops.drop_last(), id)
    }
}

fn find_op<'a>(ops: &'a Vec<StoredOp>, id: &[u8; 32]) -> (r: Option<&'a KeyringOp>)
    ensures
        match r {
            Some(op) => op_with(stored_models(ops@), *id) == Some(op.model()),
            None => op_with(stored_models(ops@), *id) is None,
        },
{
    let ghost all = stored_models(ops@);
    let mut n: usize = ops.len();
    assert(all.take(n as int) =~= all);
    while n > 0
        invariant
            n <= ops.len(),
            all == stored_models(ops@),
            op_with(all, *id) == op_with(all.take(n as int), *id),
        decreases n,
    {
        let op = &ops[n - 1].op;
        assert(all.take(n as int).last() == ops@[n - 1].model());
        assert(all.take(n as int).drop_last() =~= all.take(n - 1));
        if same_key(&op.id, id) {
            assert(op.id =~= *id);
            return Some(op);
        }
        n = n - 1;
    }
    None
}

/// The coarse kind of an action, for its sealing.
pub open spec fn origin_model(a: ActionModel) -> SealingOrigin {
    match a {
        ActionModel::Remove { .. } => SealingOrigin::Remove,
        ActionModel::Reseal => SealingOrigin::Reseal,
        _ => SealingOrigin::Other,
    }
}

/// The coarse kind of an action, for its sealing.
pub fn origin_of(action: &KeyringAction) -> (r: SealingOrigin)
    ensures
        r == origin_model(action.model()),
{
    match action {
        KeyringAction::Remove { .. } => SealingOrigin::Remove,
        KeyringAction::Reseal => SealingOrigin::Reseal,
        _ => SealingOrigin::Other,
    }
}

/// The sealing that the pinned genesis op contributes, if it carries any.
pub open spec fn genesis_sealing(ops: Seq<StoredModel>, genesis_op_id: [u8; 32]) -> Seq<SealingModel> {
    match op_with(ops, genesis_op_id) {
        Some(op) => if op.sealing.len() > 0 {
            seq![
                SealingModel {
                    op_id: genesis_op_id,
                    origin: SealingOrigin::Genesis,
                    author: op.author,
                    bytes: op.sealing,
                },
            ]
        } else {
            Seq::empty()
        },
        None => Seq::empty(),
    }
}

/// The sealing that an effective op contributes: its own, where it has any; the genesis op contributes elsewhere.
pub open spec fn op_sealing(ops: Seq<StoredModel>, genesis_op_id: [u8; 32], id: [u8; 32]) -> Option<SealingModel> {
    if id == genesis_op_id {
        None
    } else {
        match op_with(ops, id) {
            Some(op) => if op.sealing.len() > 0 {
                Some(SealingModel { op_id: id, origin: origin_model(op.action), author: op.author, bytes: op.sealing })
            } else {
                None
            },
            None => None,
        }
    }
}

/// The sealing of the effective ops, in their order.
pub open spec fn effective_sealing(ops: Seq<StoredModel>, genesis_op_id: [u8; 32], effective: Seq<[u8; 32]>) -> Seq<SealingModel>
    decreases effective.len(),
{
    if effective.len() == 0 {
        Seq::empty()
    } else {
        let before = effective_sealing(ops, genesis_op_id, effective.drop_last());
        match op_sealing(ops, genesis_op_id, effective.last()) {
            Some(s) => before.push(s),
            None => before,
        }
    }
}

pub(crate) fn push_genesis_sealing(out: &mut Vec<SealingEntry>, ops: &Vec<StoredOp>, genesis_op_id: &[u8; 32])
    ensures
        sealing_models(final(out)@) == sealing_models(old(out)@) + genesis_sealing(stored_models(ops@), *genesis_op_id),
{
    let ghost before = sealing_models(out@);
    match find_op(ops, genesis_op_id) {
        Some(op) => {
            if op.sealing.len() > 0 {
                out.push(
                    SealingEntry {
                        op_id: *genesis_op_id,
                        origin: SealingOrigin::Genesis,
                        author: op.author.clone(),
                        bytes: copy_bytes(op.sealing.as_slice()),
                    },
                );
            }
        },
        None => {},
    }
    assert(sealing_models(out@) =~= before + genesis_sealing(stored_models(ops@), *genesis_op_id));
}

pub(crate) fn push_effective_sealing(
    out: &mut Vec<SealingEntry>,
    ops: &Vec<StoredOp>,
    genesis_op_id: &[u8; 32],
    effective: &Vec<[u8; 32]>,
)
    ensures
        sealing_models(final(out)@) == sealing_models(old(out)@) + effective_sealing(
            stored_models(ops@),
            *genesis_op_id,
            effective@,
        ),
{
    let ghost before = sealing_models(out@);
    let ghost all = stored_models(ops@);
    let mut i: usize = 0;
    assert(effective@.take(0) =~= Seq::<[u8; 32]>::empty());
    assert(sealing_models(out@) =~= before + effective_sealing(all, *genesis_op_id, effective@.take(0)));
    while i < effective.len()
        invariant
            i <= effective.len(),
            all == stored_models(ops@),
            sealing_models(out@) == before + effective_sealing(all, *genesis_op_id, effective@.take(i as int)),
        decreases effective.len() - i,
    {
        let id = effective[i];
        let ghost mid = sealing_models(out@);
        proof {
            assert(effective@.take(i + 1).drop_last() =~= effective@.take(i as int));
            assert(effective@.take(i + 1).last() == id);
            if id@ == genesis_op_id@ {
                assert(id =~= *genesis_op_id);
            }
        }
        if !same_key(&id, genesis_op_id) {
            match find_op(ops, &id) {
                Some(op) => {
                    if op.sealing.len() > 0 {
                        out.push(
                            SealingEntry {
                                op_id: id,
                                origin: origin_of(&op.action),
                                author: op.author.clone(),
                                bytes: copy_bytes(op.sealing.as_slice()),
                            },
                        );
                        assert(sealing_models(out@) =~= mid.push(op_sealing(all, *genesis_op_id, id)->Some_0));
                    }
                },
                None => {},
            }
        }
        i = i + 1;
        assert(sealing_models(out@) =~= before + effective_sealing(all, *genesis_op_id, effective@.take(i as int)));
    }
    assert(effective@.take(i as int) =~= effective@);
}

/// One thing learned of a member: a key they held, or a role.
pub enum Note {
    Key(Seq<char>, Seq<u8>),
    Role(Seq<char>, i16),
}

/// What the current members tell: each one's key and role.
pub open spec fn view_notes(s: Seq<MemberModel>) -> Seq<Note>
    decreases s.len(),
{
    if s.len() == 0 {
        Seq::empty()
    } else {
        let m = s.last();
        view_notes(s.drop_last()).push(Note::Key(m.member_id, m.author_public_key)).push(Note::Role(m.member_id, m.role))
    }
}

pub open spec fn init_notes(s: Seq<InitModel>) -> Seq<Note>
    decreases s.len(),
{
    if s.len() == 0 {
        Seq::empty()
    } else {
        let m = s.last();
        init_notes(s.drop_last()).push(Note::Key(m.id, m.author_public_key@)).push(Note::Role(m.id, m.role.0))
    }
}

/// What an effective action tells: the keys it installs and the roles it sets.
pub open spec fn action_notes(a: ActionModel) -> Seq<Note> {
    match a {
        ActionModel::Create { initial_members } => init_notes(initial_members),
        ActionModel::Add { member, role, author_public_key, .. } => seq![
            Note::Key(member, author_public_key@),
            Note::Role(member, role.0),
        ],
        ActionModel::ChangeRole { member, new_role } => seq![Note::Role(member, new_role.0)],
        ActionModel::ReFound { member, new_author_public_key, .. } => seq![Note::Key(member, new_author_public_key@)],
        ActionModel::Retarget { member, new_author_public_key, .. } => seq![Note::Key(member, new_author_public_key@)],
        _ => Seq::empty(),
    }
}

pub open spec fn op_notes(ops: Seq<StoredModel>, id: [u8; 32]) -> Seq<Note> {
    match op_with(ops, id) {
        Some(op) => action_notes(op.action),
        None => Seq::empty(),
    }
}

pub open spec fn effective_notes(ops: Seq<StoredModel>, effective: Seq<[u8; 32]>) -> Seq<Note>
    decreases effective.len(),
{
    if effective.len() == 0 {
        Seq::empty()
    } else {
        effective_notes(ops, effective.drop_last()) + op_notes(ops, effective.last())
    }
}

/// Something was noted of the member.
pub open spec fn noted(notes: Seq<Note>, id: Seq<char>) -> bool
    decreases notes.len(),
{
    notes.len() > 0 && (noted(notes.drop_last(), id) || about(notes.last(), id))
}

pub open spec fn about(n: Note, id: Seq<char>) -> bool {
    match n {
        Note::Key(m, _) => m == id,
        Note::Role(m, _) => m == id,
    }
}

/// The member's keys, each once, in the order in which they were first noted.
pub open spec fn keys_noted(notes: Seq<Note>, id: Seq<char>) -> Seq<Seq<u8>>
    decreases notes.len(),
{
    if notes.len() == 0 {
        Seq::empty()
    } else {
        let before = keys_noted(notes.drop_last(), id);
        match notes.last() {
            Note::Key(m, k) => if m == id && !before.contains(k) {
                before.push(k)
            } else {
                before
            },
            _ => before,
        }
    }
}

/// The strongest role noted of the member: the least number.
pub open spec fn role_noted(notes: Seq<Note>, id: Seq<char>) -> i16
    decreases notes.len(),
{
    if notes.len() == 0 {
        i16::MAX
    } else {
        let before = role_noted(notes.drop_last(), id);
        match notes.last() {
            Note::Role(m, r) => if m == id && r < before {
                r
            } else {
                before
            },
            _ => before,
        }
    }
}

pub open spec fn key_models(s: Seq<Vec<u8>>) -> Seq<Seq<u8>> {
    Seq::new(s.len(), |i: int| s[i]@)
}

/// The members who were ever admitted.
pub type EverMap = SortedMap<String, EverMemberInfo>;

/// `ever` records exactly what was noted.
pub open spec fn records(ever: SortedMap<String, EverMemberInfo>, notes: Seq<Note>) -> bool {
    &&& ever.wf()
    &&& forall|id: Seq<char>| #[trigger] ever@.contains_key(id) <==> noted(notes, id)
    &&& forall|id: Seq<char>| #[trigger]
        ever@.contains_key(id) ==> key_models(ever@[id].keys_ever_held@) == keys_noted(notes, id) && ever@[id].strongest_role
            == role_noted(notes, id)
}

proof fn unnoted_is_blank(notes: Seq<Note>, id: Seq<char>)
    requires
        !noted(notes, id),
    ensures
        keys_noted(notes, id) == Seq::<Seq<u8>>::empty(),
        role_noted(notes, id) == i16::MAX,
    decreases notes.len(),
{
    if notes.len() > 0 {
        unnoted_is_blank(notes.drop_last(), id);
    }
}

fn take_info(ever: &mut EverMap, id: &String) -> (r: EverMemberInfo)
    requires
        old(ever).wf(),
    ensures
        final(ever).wf(),
        final(ever)@ == old(ever)@.remove(id@),
        old(ever)@.contains_key(id@) ==> r == old(ever)@[id@],
        !old(ever)@.contains_key(id@) ==> r.keys_ever_held@.len() == 0 && r.strongest_role == i16::MAX,
{
    match ever.remove(id) {
        Some(e) => e,
        None => EverMemberInfo { keys_ever_held: Vec::new(), strongest_role: i16::MAX },
    }
}

fn holds_key(keys: &Vec<Vec<u8>>, key: &[u8]) -> (r: bool)
    ensures
        r == key_models(keys@).contains(key@),
{
    let mut i: usize = 0;
    while i < keys.len()
        invariant
            i <= keys.len(),
            forall|k: int| 0 <= k < i ==> (#[trigger] keys@[k])@ != key@,
        decreases keys.len() - i,
    {
        if bytes_equal(keys[i].as_slice(), key) {
            assert(key_models(keys@)[i as int] == key@);
            return true;
        }
        i = i + 1;
    }
    assert(!key_models(keys@).contains(key@)) by {
        if key_models(keys@).contains(key@) {
            let k = choose|k: int| 0 <= k < keys.len() && key_models(keys@)[k] == key@;
            assert(keys@[k]@ == key@);
        }
    }
    false
}

/// Adds a key to what a member ever held, once.
pub fn note_ever_key(ever: &mut EverMap, id: &String, key: &[u8])
    requires
        old(ever).wf(),
    ensures
        forall|notes: Seq<Note>| #[trigger] records(*old(ever), notes) ==> records(*final(ever), notes.push(Note::Key(id@, key@))),
        final(ever).wf(),
{
    let ghost before = *ever;
    let mut info: EverMemberInfo = take_info(ever, id);
    let ghost old_keys = key_models(info.keys_ever_held@);
    if !holds_key(&info.keys_ever_held, key) {
        info.keys_ever_held.push(copy_bytes(key));
        assert(key_models(info.keys_ever_held@) =~= old_keys.push(key@));
    }
    let ghost new_info = info;
    ever.insert(id.clone(), info);
    proof {
        assert forall|notes: Seq<Note>| #[trigger] records(before, notes) implies records(
            *ever,
            notes.push(Note::Key(id@, key@)),
        ) by {
            let more = notes.push(Note::Key(id@, key@));
            assert(more.drop_last() =~= notes);
            assert forall|m: Seq<char>| #[trigger] ever@.contains_key(m) <==> noted(more, m) by {
                assert(before@.contains_key(m) <==> noted(notes, m));
            }
            assert forall|m: Seq<char>| #[trigger] ever@.contains_key(m) implies key_models(ever@[m].keys_ever_held@)
                == keys_noted(more, m) && ever@[m].strongest_role == role_noted(more, m) by {
                if !before@.contains_key(m) {
                    unnoted_is_blank(notes, m);
                }
                if m == id@ && !before@.contains_key(m) {
                    assert(old_keys =~= Seq::<Seq<u8>>::empty());
                }
            }
        }
    }
}

/// Folds a role into a member's strongest one.
pub fn note_ever_role(ever: &mut EverMap, id: &String, role: i16)
    requires
        old(ever).wf(),
    ensures
        forall|notes: Seq<Note>| #[trigger] records(*old(ever), notes) ==> records(*final(ever), notes.push(Note::Role(id@, role))),
        final(ever).wf(),
{
    let ghost before = *ever;
    let mut info: EverMemberInfo = take_info(ever, id);
    if role < info.strongest_role {
        info.strongest_role = role;
    }
    let ghost new_info = info;
    ever.insert(id.clone(), info);
    proof {
        assert forall|notes: Seq<Note>| #[trigger] records(before, notes) implies records(
            *ever,
            notes.push(Note::Role(id@, role)),
        ) by {
            let more = notes.push(Note::Role(id@, role));
            assert(more.drop_last() =~= notes);
            assert forall|m: Seq<char>| #[trigger] ever@.contains_key(m) <==> noted(more, m) by {
                assert(before@.contains_key(m) <==> noted(notes, m));
            }
            assert forall|m: Seq<char>| #[trigger] ever@.contains_key(m) implies key_models(ever@[m].keys_ever_held@)
                == keys_noted(more, m) && ever@[m].strongest_role == role_noted(more, m) by {
                if !before@.contains_key(m) {
                    unnoted_is_blank(notes, m);
                    if m == id@ {
                        assert(key_models(new_info.keys_ever_held@) =~= Seq::<Seq<u8>>::empty());
                    }
                }
            }
        }
    }
}

fn note_members(ever: &mut EverMap, members: &Vec<MemberView>)
    requires
        old(ever).wf(),
        records(*old(ever), Seq::<Note>::empty()),
    ensures
        records(*final(ever), view_notes(member_models(members@))),
{
    let ghost all = member_models(members@);
    let mut i: usize = 0;
    assert(all.take(0) =~= Seq::<MemberModel>::empty());
    while i < members.len()
        invariant
            i <= members.len(),
            all == member_models(members@),
            records(*ever, view_notes(all.take(i as int))),
        decreases members.len() - i,
    {
        let m = &members[i];
        proof {
            assert(all.take(i + 1).drop_last() =~= all.take(i as int));
            assert(all.take(i + 1).last() == m@);
        }
        note_ever_key(ever, &m.member_id, m.author_public_key.as_slice());
        note_ever_role(ever, &m.member_id, m.role);
        i = i + 1;
    }
    assert(all.take(i as int) =~= all);
}

proof fn add_push<A>(a: Seq<A>, b: Seq<A>, x: A)
    ensures
        (a + b).push(x) == a + b.push(x),
{
    assert((a + b).push(x) =~= a + b.push(x));
}

fn note_inits(ever: &mut EverMap, inits: &Vec<KeyringMemberInit>, Ghost(notes): Ghost<Seq<Note>>)
    requires
        records(*old(ever), notes),
    ensures
        records(*final(ever), notes + init_notes(init_models(inits@))),
{
    let ghost all = init_models(inits@);
    let mut i: usize = 0;
    assert(all.take(0) =~= Seq::<InitModel>::empty());
    assert(notes + init_notes(all.take(0)) =~= notes);
    while i < inits.len()
        invariant
            i <= inits.len(),
            all == init_models(inits@),
            records(*ever, notes + init_notes(all.take(i as int))),
        decreases inits.len() - i,
    {
        let m = &inits[i];
        proof {
            assert(all.take(i + 1).drop_last() =~= all.take(i as int));
            assert(all.take(i + 1).last() == m.model());
            let so_far = init_notes(all.take(i as int));
            add_push(notes, so_far, Note::Key(m.id@, m.author_public_key@));
            add_push(notes, so_far.push(Note::Key(m.id@, m.author_public_key@)), Note::Role(m.id@, m.role.0));
        }
        note_ever_key(ever, &m.id, m.author_public_key.as_slice());
        note_ever_role(ever, &m.id, m.role.0);
        i = i + 1;
    }
    assert(all.take(i as int) =~= all);
}

fn note_action(ever: &mut EverMap, action: &KeyringAction, Ghost(notes): Ghost<Seq<Note>>)
    requires
        records(*old(ever), notes),
    ensures
        records(*final(ever), notes + action_notes(action.model())),
{
    match action {
        KeyringAction::Create { initial_members } => {
            note_inits(ever, initial_members, Ghost(notes));
        },
        KeyringAction::Add { member, role, author_public_key, .. } => {
            note_ever_key(ever, member, author_public_key.as_slice());
            note_ever_role(ever, member, role.0);
            proof {
                let k = Note::Key(member@, author_public_key@);
                let r = Note::Role(member@, role.0);
                assert(notes.push(k).push(r) =~= notes + seq![k, r]);
            }
        },
        KeyringAction::ChangeRole { member, new_role } => {
            note_ever_role(ever, member, new_role.0);
            assert(notes.push(Note::Role(member@, new_role.0)) =~= notes + seq![Note::Role(member@, new_role.0)]);
        },
        KeyringAction::ReFound { member, new_author_public_key, .. } => {
            note_ever_key(ever, member, new_author_public_key.as_slice());
            assert(notes.push(Note::Key(member@, new_author_public_key@)) =~= notes + seq![
                Note::Key(member@, new_author_public_key@),
            ]);
        },
        KeyringAction::Retarget { member, new_author_public_key, .. } => {
            note_ever_key(ever, member, new_author_public_key.as_slice());
            assert(notes.push(Note::Key(member@, new_author_public_key@)) =~= notes + seq![
                Note::Key(member@, new_author_public_key@),
            ]);
        },
        _ => {
            assert(notes + Seq::<Note>::empty() =~= notes);
        },
    }
}

/// The members who were ever admitted: the current ones, and those whom an effective op admitted, with every key and
/// the strongest role that an effective op gave them.
pub fn collect_ever_members(members: &Vec<MemberView>, effective: &Vec<[u8; 32]>, ops: &Vec<StoredOp>) -> (r: EverMap)
    ensures
        records(r, view_notes(member_models(members@)) + effective_notes(stored_models(ops@), effective@)),
{
    let mut ever: EverMap = SortedMap::new();
    let ghost all = stored_models(ops@);
    note_members(&mut ever, members);
    let ghost first = view_notes(member_models(members@));
    let mut i: usize = 0;
    assert(effective@.take(0) =~= Seq::<[u8; 32]>::empty());
    assert(first + effective_notes(all, effective@.take(0)) =~= first);
    while i < effective.len()
        invariant
            i <= effective.len(),
            all == stored_models(ops@),
            records(ever, first + effective_notes(all, effective@.take(i as int))),
        decreases effective.len() - i,
    {
        let id = effective[i];
        let ghost so_far = effective_notes(all, effective@.take(i as int));
        proof {
            assert(effective@.take(i + 1).drop_last() =~= effective@.take(i as int));
            assert(effective@.take(i + 1).last() == id);
            assert(first + so_far + op_notes(all, id) =~= first + (so_far + op_notes(all, id)));
        }
        match find_op(ops, &id) {
            Some(op) => {
                note_action(&mut ever, &op.action, Ghost(first + so_far));
            },
            None => {
                assert(so_far + Seq::<Note>::empty() =~= so_far);
            },
        }
        i = i + 1;
    }
    assert(effective@.take(i as int) =~= effective@);
    ever
}

proof fn noted_in_sum(a: Seq<Note>, b: Seq<Note>, id: Seq<char>)
    ensures
        noted(a + b, id) <==> noted(a, id) || noted(b, id),
        role_noted(a + b, id) <= role_noted(a, id),
        role_noted(a + b, id) <= role_noted(b, id),
        forall|k: Seq<u8>| #[trigger] keys_noted(a + b, id).contains(k) <==> keys_noted(a, id).contains(k) || keys_noted(b, id).contains(k),
    decreases b.len(),
{
    if b.len() == 0 {
        assert(a + b =~= a);
        assert forall|k: Seq<u8>| #[trigger] keys_noted(a + b, id).contains(k) <==> keys_noted(a, id).contains(k) || keys_noted(
            b,
            id,
        ).contains(k) by {}
    } else {
        let b0 = b.drop_last();
        noted_in_sum(a, b0, id);
        assert((a + b).drop_last() =~= a + b0);
        assert((a + b).last() == b.last());
        let l = keys_noted(a + b0, id);
        let r = keys_noted(b0, id);
        assert forall|k: Seq<u8>| #[trigger] keys_noted(a + b, id).contains(k) <==> keys_noted(a, id).contains(k) || keys_noted(
            b,
            id,
        ).contains(k) by {
            match b.last() {
                Note::Key(m, key) => {
                    if m == id {
                        push_contains(l, key, k);
                        push_contains(r, key, k);
                        assert(l.contains(k) <==> keys_noted(a, id).contains(k) || r.contains(k));
                        assert(l.contains(key) <==> keys_noted(a, id).contains(key) || r.contains(key));
                    }
                },
                _ => {},
            }
        }
    }
}

proof fn push_contains<A>(s: Seq<A>, x: A, y: A)
    ensures
        s.push(x).contains(y) <==> s.contains(y) || x == y,
{
    if s.contains(y) {
        let i = choose|i: int| 0 <= i < s.len() && s[i] == y;
        assert(s.push(x)[i] == y);
    }
    assert(s.push(x)[s.len() as int] == x);
    if s.push(x).contains(y) && x != y {
        let i = choose|i: int| 0 <= i < s.push(x).len() && s.push(x)[i] == y;
        assert(s[i] == y);
    }
}

/// Whoever an effective op added is remembered, with the key and at least the role it gave, though they were removed
/// since.
pub proof fn an_effective_add_is_remembered(first: Seq<Note>, ops: Seq<StoredModel>, effective: Seq<[u8; 32]>, i: int)
    requires
        0 <= i < effective.len(),
        op_with(ops, effective[i]) matches Some(op) && op.action is Add,
    ensures
        op_with(ops, effective[i]) matches Some(op) && op.action matches ActionModel::Add { member, role, author_public_key, .. }
            && noted(first + effective_notes(ops, effective), member) && keys_noted(
            first + effective_notes(ops, effective),
            member,
        ).contains(author_public_key@) && role_noted(first + effective_notes(ops, effective), member) <= role.0,
{
    let op = op_with(ops, effective[i])->Some_0;
    let member = op.action->Add_member;
    let key = op.action->Add_author_public_key@;
    let role = op.action->Add_role.0;
    let own = op_notes(ops, effective[i]);
    assert(own =~= seq![Note::Key(member, key), Note::Role(member, role)]);
    assert(own.drop_last() =~= seq![Note::Key(member, key)]);
    assert(own.drop_last().drop_last() =~= Seq::<Note>::empty());
    reveal_with_fuel(noted, 3);
    reveal_with_fuel(keys_noted, 3);
    reveal_with_fuel(role_noted, 3);
    assert(keys_noted(own, member) =~= seq![key]);
    assert(keys_noted(own, member)[0] == key);
    remembered_within(ops, effective, i, member, key);
    noted_in_sum(first, effective_notes(ops, effective), member);
}

proof fn remembered_within(ops: Seq<StoredModel>, effective: Seq<[u8; 32]>, i: int, id: Seq<char>, key: Seq<u8>)
    requires
        0 <= i < effective.len(),
        noted(op_notes(ops, effective[i]), id),
        keys_noted(op_notes(ops, effective[i]), id).contains(key),
    ensures
        noted(effective_notes(ops, effective), id),
        keys_noted(effective_notes(ops, effective), id).contains(key),
        role_noted(effective_notes(ops, effective), id) <= role_noted(op_notes(ops, effective[i]), id),
    decreases effective.len(),
{
    noted_in_sum(effective_notes(ops, effective.drop_last()), op_notes(ops, effective.last()), id);
    if i < effective.len() - 1 {
        assert(effective.drop_last()[i] == effective[i]);
        remembered_within(ops, effective.drop_last(), i, id, key);
    }
}

/// A resolved keyring.
pub struct Resolved {
    pub members: MembershipView,
    /// The effective ops' sealing, the genesis op's first.
    pub sealing: Vec<SealingEntry>,
    /// Whether the tree has ever been shared.
    pub has_been_shared: bool,
    /// A checkpoint's preserved sealing.
    pub checkpoint_sealing: Option<Vec<SealingEntry>>,
    pub minting_ops_baseline: u32,
    /// The members who were ever admitted.
    pub ever_members: EverMap,
    pub reset_authority: Option<[u8; 32]>,
}

/// Why the engine refused the `i`-th op, if it did.
pub open spec fn refusal(run: EngineRun, i: int) -> Option<Seq<char>> {
    if 0 <= i < run.refusals@.len() {
        match run.refusals@[i] {
            Some(e) => Some(e@),
            None => None,
        }
    } else {
        None
    }
}

/// What is wrong with the `i`-th op: it is relabeled, or the engine refused it.
pub open spec fn op_trouble(ops: Seq<StoredModel>, run: EngineRun, i: int) -> Option<ErrorModel> {
    if !honest(ops[i]) {
        Some(ErrorModel::Malformed("op id does not match its content (relabeled op)"@))
    } else {
        match refusal(run, i) {
            Some(e) => Some(ErrorModel::Engine(e)),
            None => None,
        }
    }
}

/// What is wrong with the first of the first `n` ops with which anything is.
pub open spec fn first_trouble(ops: Seq<StoredModel>, run: EngineRun, n: int) -> Option<ErrorModel>
    decreases n,
{
    if n <= 0 {
        None
    } else {
        match first_trouble(ops, run, n - 1) {
            Some(e) => Some(e),
            None => op_trouble(ops, run, n - 1),
        }
    }
}

/// Why a run does not resolve, if it does not: the first op with which something is wrong, then a failure to settle,
/// then a missing genesis op.
pub open spec fn run_trouble(anchor: DagAnchor, run: EngineRun) -> Option<ErrorModel> {
    match first_trouble(anchor.closure(), run, anchor.closure().len() as int) {
        Some(e) => Some(e),
        None => match run.flush_error {
            Some(e) => Some(ErrorModel::Engine(e@)),
            None => if anchor.checkpoint is None && !has_id(anchor.closure(), anchor.genesis_op_id) {
                Some(ErrorModel::Malformed("pinned genesis op not present in the closure"@))
            } else {
                None
            },
        },
    }
}

/// What a run resolves to.
pub open spec fn resolved_from(anchor: DagAnchor, run: EngineRun, r: Resolved) -> bool {
    let ops = anchor.closure();
    &&& shows(entry_models(run.members.members@), false, r.members)
    &&& sealing_models(r.sealing@) == (if anchor.checkpoint is None {
        genesis_sealing(ops, anchor.genesis_op_id)
    } else {
        Seq::empty()
    }) + effective_sealing(ops, anchor.genesis_op_id, run.effective@)
    &&& r.has_been_shared == run.has_been_shared
    &&& match anchor.checkpoint {
        None => r.checkpoint_sealing is None && r.minting_ops_baseline == 0,
        Some(cp) => (r.checkpoint_sealing matches Some(s) && sealing_models(s@) == sealing_models(cp.body.sealing@))
            && r.minting_ops_baseline == cp.body.minting_ops_baseline,
    }
    &&& records(r.ever_members, view_notes(member_models(r.members.members@)) + effective_notes(ops, run.effective@))
    &&& r.reset_authority == run.reset_authority
}

/// How a run of the engine over the anchor comes out.
pub open spec fn run_outcome(anchor: DagAnchor, run: EngineRun, r: Result<Resolved, ClientError>) -> bool {
    match run_trouble(anchor, run) {
        Some(e) => r matches Err(x) && x.model() == e,
        None => r matches Ok(v) && resolved_from(anchor, run, v),
    }
}

/// What a run of the engine over the anchor's ops resolves to.
pub fn resolve_run(anchor: &DagAnchor, run: &EngineRun) -> (r: Result<Resolved, ClientError>)
    ensures
        run_outcome(*anchor, *run, r),
{
    let ghost ops = anchor.closure();
    let mut i: usize = 0;
    while i < anchor.ops.len()
        invariant
            i <= anchor.ops.len(),
            ops == anchor.closure(),
            first_trouble(ops, *run, i as int) is None,
        decreases anchor.ops.len() - i,
    {
        let here: Option<ClientError> = if !anchor.ops[i].content_id_matches() {
            Some(malformed("op id does not match its content (relabeled op)"))
        } else if i < run.refusals.len() {
            match &run.refusals[i] {
                Some(e) => Some(ClientError::Engine(e.clone())),
                None => None,
            }
        } else {
            None
        };
        assert(ops[i as int] == anchor.ops@[i as int].model());
        match here {
            Some(e) => {
                proof {
                    assert(op_trouble(ops, *run, i as int) == Some(e.model()));
                    trouble_stays(ops, *run, i + 1, ops.len() as int);
                }
                return Err(e);
            },
            None => {},
        }
        i = i + 1;
    }
    match &run.flush_error {
        Some(e) => {
            return Err(ClientError::Engine(e.clone()));
        },
        None => {},
    }
    let members: MembershipView = view_of(&run.members, false);
    let mut sealing: Vec<SealingEntry> = Vec::new();
    assert(sealing_models(sealing@) =~= Seq::<SealingModel>::empty());
    let mut checkpoint_sealing: Option<Vec<SealingEntry>> = None;
    let mut minting_ops_baseline: u32 = 0;
    match &anchor.checkpoint {
        None => {
            proof {
                op_with_decides(ops, anchor.genesis_op_id);
            }
            if find_op(&anchor.ops, &anchor.genesis_op_id).is_none() {
                return Err(malformed("pinned genesis op not present in the closure"));
            }
            push_genesis_sealing(&mut sealing, &anchor.ops, &anchor.genesis_op_id);
        },
        Some(cp) => {
            checkpoint_sealing = Some(copy_sealing(&cp.body.sealing));
            minting_ops_baseline = cp.body.minting_ops_baseline;
        },
    }
    let ghost head = sealing_models(sealing@);
    assert(head =~= if anchor.checkpoint is None {
        genesis_sealing(ops, anchor.genesis_op_id)
    } else {
        Seq::empty()
    });
    push_effective_sealing(&mut sealing, &anchor.ops, &anchor.genesis_op_id, &run.effective);
    let ever_members: EverMap = collect_ever_members(&members.members, &run.effective, &anchor.ops);
    Ok(
        Resolved {
            members,
            sealing,
            has_been_shared: run.has_been_shared,
            checkpoint_sealing,
            minting_ops_baseline,
            ever_members,
            reset_authority: run.reset_authority,
        },
    )
}

proof fn trouble_stays(ops: Seq<StoredModel>, run: EngineRun, m: int, n: int)
    requires
        0 <= m <= n,
        first_trouble(ops, run, m) is Some,
    ensures
        first_trouble(ops, run, n) == first_trouble(ops, run, m),
    decreases n - m,
{
    if m < n {
        trouble_stays(ops, run, m, n - 1);
    }
}

proof fn op_with_decides(ops: Seq<StoredModel>, id: [u8; 32])
    ensures
        op_with(ops, id) is Some <==> has_id(ops, id),
    decreases ops.len(),
{
    if ops.len() > 0 {
        let o = ops.drop_last();
        op_with_decides(o, id);
        if has_id(o, id) {
            let i = choose|i: int| 0 <= i < o.len() && (#[trigger] o[i]).op.id == id;
            assert(ops[i].op.id == id);
        }
        if has_id(ops, id) && ops.last().op.id != id {
            let i = choose|i: int| 0 <= i < ops.len() && (#[trigger] ops[i]).op.id == id;
            assert(o[i].op.id == id);
        }
        if ops.last().op.id == id {
            assert(ops[ops.len() - 1].op.id == id);
        }
    }
}

/// The engine ran over the anchor: it was handed what the anchor pins, and every op in order.
pub open spec fn ran<F: Fn(&EngineBase, &Vec<StoredOp>) -> EngineRun>(engine: F, anchor: DagAnchor, base: EngineBase, run: EngineRun) -> bool {
    base_of(anchor, base) && engine.ensures((&base, &anchor.ops), run)
}

/// How resolving an anchor comes out.
pub open spec fn resolution<F: Fn(&EngineBase, &Vec<StoredOp>) -> EngineRun>(
    engine: F,
    anchor: DagAnchor,
    r: Result<Resolved, ClientError>,
) -> bool {
    match base_trouble(anchor) {
        Some(e) => r matches Err(x) && x.model() == e,
        None => exists|base: EngineBase, run: EngineRun| #[trigger] ran(engine, anchor, base, run) && run_outcome(anchor, run, r),
    }
}

/// Resolves an anchor. `engine` replays the ops over the base it is handed and reports its run.
pub fn resolve<F: Fn(&EngineBase, &Vec<StoredOp>) -> EngineRun>(anchor: &DagAnchor, engine: &F) -> (r: Result<Resolved, ClientError>)
    requires
        forall|b: EngineBase, o: Vec<StoredOp>| engine.requires((&b, &o)),
    ensures
        resolution(*engine, *anchor, r),
{
    let base: EngineBase = match engine_base(anchor) {
        Ok(b) => b,
        Err(e) => {
            return Err(e);
        },
    };
    let run: EngineRun = engine(&base, &anchor.ops);
    let r = resolve_run(anchor, &run);
    assert(ran(*engine, *anchor, base, run) && run_outcome(*anchor, run, r));
    r
}

/// Why an anchor does not match a pin, if it does not.
pub open spec fn pin_trouble(anchor: DagAnchor, group_id: Seq<u8>, pin: DagPin) -> Option<ErrorModel> {
    if anchor.checkpoint is Some {
        Some(ErrorModel::Malformed("a compacted (checkpoint) anchor is not accepted on an untrusted join/adopt"@))
    } else if anchor.group_id@ != group_id {
        Some(ErrorModel::Malformed("anchor group id does not match the tree"@))
    } else if anchor.genesis_op_id != pin.genesis_op_id {
        Some(ErrorModel::Malformed("anchor genesis op id does not match the pin"@))
    } else if anchor.reset_authority != pin.reset_authority {
        Some(ErrorModel::Malformed("anchor recovery authority does not match the pin"@))
    } else {
        None
    }
}

/// The first op of the closure with this id.
pub open spec fn first_with(ops: Seq<StoredModel>, id: [u8; 32]) -> Option<OpModel>
    decreases ops.len(),
{
    if ops.len() == 0 {
        None
    } else if ops[0].op.id == id {
        Some(ops[0].op)
    } else {
        first_with(ops.drop_first(), id)
    }
}

/// Why the pinned genesis members are not those of the genesis op, if they are not.
pub open spec fn genesis_trouble(anchor: DagAnchor) -> Option<ErrorModel> {
    match first_with(anchor.closure(), anchor.genesis_op_id) {
        None => Some(ErrorModel::Malformed("pinned genesis op absent from the closure"@)),
        Some(op) => match op.action {
            ActionModel::Create { initial_members } => if init_dto_models(anchor.genesis@) == initial_members {
                None
            } else {
                Some(ErrorModel::Malformed("anchor genesis membership does not match the pinned genesis op"@))
            },
            _ => Some(ErrorModel::Malformed("pinned genesis op is not a Create"@)),
        },
    }
}

fn same_authority(a: &Option<[u8; 32]>, b: &Option<[u8; 32]>) -> (r: bool)
    ensures
        r == (*a == *b),
{
    match (a, b) {
        (Some(x), Some(y)) => {
            let r = same_key(x, y);
            proof {
                if r {
                    assert(*x =~= *y);
                }
            }
            r
        },
        (None, None) => true,
        _ => false,
    }
}

fn same_members(a: &Vec<MemberInitDto>, b: &Vec<KeyringMemberInit>) -> (r: bool)
    ensures
        r == (init_dto_models(a@) == init_models(b@)),
{
    if a.len() != b.len() {
        assert(init_dto_models(a@).len() != init_models(b@).len());
        return false;
    }
    let mut i: usize = 0;
    while i < a.len()
        invariant
            i <= a.len(),
            a.len() == b.len(),
            forall|k: int| 0 <= k < i ==> (#[trigger] a@[k]).model() == b@[k].model(),
        decreases a.len() - i,
    {
        let x = &a[i];
        let y = minit_to_dto(&b[i]);
        let same = text_equal(x.id.as_str(), y.id.as_str()) && x.role == y.role && same_key(
            &x.author_public_key,
            &y.author_public_key,
        ) && same_key(&x.hpke_public_key, &y.hpke_public_key);
        proof {
            if same {
                assert(x.author_public_key =~= y.author_public_key);
                assert(x.hpke_public_key =~= y.hpke_public_key);
            } else {
                assert(x.model() != y.model());
                assert(init_dto_models(a@)[i as int] != init_models(b@)[i as int]);
            }
        }
        if !same {
            return false;
        }
        i = i + 1;
    }
    assert(init_dto_models(a@) =~= init_models(b@));
    true
}

fn find_first<'a>(ops: &'a Vec<StoredOp>, id: &[u8; 32]) -> (r: Option<&'a KeyringOp>)
    ensures
        match r {
            Some(op) => first_with(stored_models(ops@), *id) == Some(op.model()),
            None => first_with(stored_models(ops@), *id) is None,
        },
{
    let ghost all = stored_models(ops@);
    let mut i: usize = 0;
    assert(all.skip(0) =~= all);
    while i < ops.len()
        invariant
            i <= ops.len(),
            all == stored_models(ops@),
            first_with(all, *id) == first_with(all.skip(i as int), *id),
        decreases ops.len() - i,
    {
        let op = &ops[i].op;
        assert(all.skip(i as int)[0] == ops@[i as int].model());
        assert(all.skip(i as int).drop_first() =~= all.skip(i + 1));
        if same_key(&op.id, id) {
            assert(op.id =~= *id);
            return Some(op);
        }
        i = i + 1;
    }
    None
}

fn check_genesis(anchor: &DagAnchor) -> (r: Result<(), ClientError>)
    ensures
        match r {
            Ok(_) => genesis_trouble(*anchor) is None,
            Err(e) => genesis_trouble(*anchor) == Some(e.model()),
        },
{
    match find_first(&anchor.ops, &anchor.genesis_op_id) {
        None => Err(malformed("pinned genesis op absent from the closure")),
        Some(op) => match &op.action {
            KeyringAction::Create { initial_members } => {
                if same_members(&anchor.genesis, initial_members) {
                    Ok(())
                } else {
                    Err(malformed("anchor genesis membership does not match the pinned genesis op"))
                }
            },
            _ => Err(malformed("pinned genesis op is not a Create")),
        },
    }
}

/// How a run over an anchor that matches its pin comes out: the run must resolve, the genesis members must be those
/// of the genesis op, and the closure must satisfy the pin's watermark.
pub open spec fn verified_run(anchor: DagAnchor, pin: DagPin, run: EngineRun, r: Result<Resolved, ClientError>) -> bool {
    match run_trouble(anchor, run) {
        Some(e) => r matches Err(x) && x.model() == e,
        None => match genesis_trouble(anchor) {
            Some(e) => r matches Err(x) && x.model() == e,
            None => if satisfies(anchor.closure(), pin.watermark@) {
                r matches Ok(v) && resolved_from(anchor, run, v)
            } else {
                r matches Err(x) && crate::keyring_dag::anchor::floor_refusal(anchor.closure(), pin.watermark@, x)
            },
        },
    }
}

/// How verifying an anchor against a pin comes out.
pub open spec fn verification<F: Fn(&EngineBase, &Vec<StoredOp>) -> EngineRun>(
    engine: F,
    anchor: DagAnchor,
    group_id: Seq<u8>,
    pin: DagPin,
    r: Result<Resolved, ClientError>,
) -> bool {
    match pin_trouble(anchor, group_id, pin) {
        Some(e) => r matches Err(x) && x.model() == e,
        None => exists|base: EngineBase, run: EngineRun| #[trigger]
            ran(engine, anchor, base, run) && verified_run(anchor, pin, run, r),
    }
}

/// Verifies an anchor from an untrusted source against an out-of-band pin.
pub fn verify_anchor<F: Fn(&EngineBase, &Vec<StoredOp>) -> EngineRun>(
    anchor: &DagAnchor,
    group_id: &[u8],
    pin: &DagPin,
    engine: &F,
) -> (r: Result<Resolved, ClientError>)
    requires
        forall|b: EngineBase, o: Vec<StoredOp>| engine.requires((&b, &o)),
    ensures
        verification(*engine, *anchor, group_id@, *pin, r),
{
    if anchor.checkpoint.is_some() {
        return Err(malformed("a compacted (checkpoint) anchor is not accepted on an untrusted join/adopt"));
    }
    if !bytes_equal(anchor.group_id.as_slice(), group_id) {
        return Err(malformed("anchor group id does not match the tree"));
    }
    let same_genesis = same_key(&anchor.genesis_op_id, &pin.genesis_op_id);
    proof {
        if same_genesis {
            assert(anchor.genesis_op_id =~= pin.genesis_op_id);
        }
    }
    if !same_genesis {
        return Err(malformed("anchor genesis op id does not match the pin"));
    }
    if !same_authority(&anchor.reset_authority, &pin.reset_authority) {
        return Err(malformed("anchor recovery authority does not match the pin"));
    }
    let resolved = resolve(anchor, engine);
    let ghost (base, run): (EngineBase, EngineRun) = choose|base: EngineBase, run: EngineRun| #[trigger]
        ran(*engine, *anchor, base, run) && run_outcome(*anchor, run, resolved);
    assert(ran(*engine, *anchor, base, run) && run_outcome(*anchor, run, resolved));
    let value: Resolved = match resolved {
        Ok(v) => v,
        Err(e) => {
            return Err(e);
        },
    };
    match check_genesis(anchor) {
        Ok(_) => {},
        Err(e) => {
            return Err(e);
        },
    }
    match check_floor(anchor, pin.watermark.as_slice()) {
        Ok(_) => Ok(value),
        Err(e) => Err(e),
    }
}

/// The union of a local anchor with a remote one.
pub open spec fn united(local: DagAnchor, remote: DagAnchor, r: DagAnchor) -> bool {
    &&& r.closure() == merged(local.closure(), remote.closure())
    &&& r.group_id == local.group_id
    &&& r.genesis == local.genesis
    &&& r.reset_authority == local.reset_authority
    &&& r.genesis_op_id == local.genesis_op_id
    &&& r.checkpoint == local.checkpoint
}

/// How adopting a remote anchor comes out: verified against the pin with the caller's floor, then merged.
pub open spec fn adoption<F: Fn(&EngineBase, &Vec<StoredOp>) -> EngineRun>(
    engine: F,
    local: DagAnchor,
    remote: DagAnchor,
    group_id: Seq<u8>,
    pin: DagPin,
    floor: Seq<u8>,
    r: Result<DagAnchor, ClientError>,
) -> bool {
    exists|sync: DagPin, v: Result<Resolved, ClientError>|
        sync.genesis_op_id == pin.genesis_op_id && sync.reset_authority == pin.reset_authority && sync.watermark@ == floor
            && #[trigger] verification(engine, remote, group_id, sync, v) && match v {
            Ok(_) => r matches Ok(m) && united(local, remote, m),
            Err(e) => r matches Err(x) && x.model() == e.model(),
        }
}

/// Adopts a newer anchor from an untrusted source onto the local one: it is verified against the pin with the
/// caller's own floor, then merged.
pub fn accept_remote_anchor<F: Fn(&EngineBase, &Vec<StoredOp>) -> EngineRun>(
    local: DagAnchor,
    remote: &DagAnchor,
    group_id: &[u8],
    pin: &DagPin,
    floor: &[u8],
    engine: &F,
) -> (r: Result<DagAnchor, ClientError>)
    requires
        forall|b: EngineBase, o: Vec<StoredOp>| engine.requires((&b, &o)),
    ensures
        adoption(*engine, local, *remote, group_id@, *pin, floor@, r),
{
    let sync = DagPin {
        genesis_op_id: pin.genesis_op_id,
        reset_authority: pin.reset_authority,
        watermark: copy_bytes(floor),
    };
    let v = verify_anchor(remote, group_id, &sync, engine);
    let ghost outcome = v;
    let r = match v {
        Ok(_) => Ok(merge(local, remote)),
        Err(e) => Err(e),
    };
    assert(verification(*engine, *remote, group_id@, sync, outcome));
    r
}

/// An anchor that was verified satisfies the pin's watermark, carries no checkpoint, belongs to the tree, and was
/// founded by the members that its signed genesis op names.
pub proof fn a_verified_anchor_matches_its_pin<F: Fn(&EngineBase, &Vec<StoredOp>) -> EngineRun>(
    engine: F,
    anchor: DagAnchor,
    group_id: Seq<u8>,
    pin: DagPin,
    r: Result<Resolved, ClientError>,
)
    requires
        verification(engine, anchor, group_id, pin, r),
        r is Ok,
    ensures
        anchor.checkpoint is None,
        anchor.group_id@ == group_id,
        anchor.genesis_op_id == pin.genesis_op_id,
        anchor.reset_authority == pin.reset_authority,
        satisfies(anchor.closure(), pin.watermark@),
        first_with(anchor.closure(), pin.genesis_op_id) matches Some(op) && op.action matches ActionModel::Create {
            initial_members,
        } && init_dto_models(anchor.genesis@) == initial_members,
        forall|i: int| 0 <= i < anchor.closure().len() ==> honest(#[trigger] anchor.closure()[i]),
{
    let (base, run) = choose|base: EngineBase, run: EngineRun| #[trigger]
        ran(engine, anchor, base, run) && verified_run(anchor, pin, run, r);
    resolved_ops_are_honest(anchor.closure(), run);
}

/// No two entries have one id.
pub open spec fn ids_are_distinct(entries: Seq<EntryModel>) -> bool {
    forall|i: int, j: int| #![trigger entries[i], entries[j]] 0 <= i < j < entries.len() ==> entries[i].id != entries[j].id
}

/// Where no two entries have one id, no two active members have.
pub proof fn active_ids_are_distinct(entries: Seq<EntryModel>)
    requires
        ids_are_distinct(entries),
    ensures
        forall|i: int| 0 <= i < active_models(entries).len() ==> exists|k: int|
            0 <= k < entries.len() && (#[trigger] entries[k]).id == (#[trigger] active_models(entries)[i]).member_id,
        forall|i: int, j: int| #![trigger active_models(entries)[i], active_models(entries)[j]]
            0 <= i < j < active_models(entries).len() ==> active_models(entries)[i].member_id != active_models(entries)[j].member_id,
    decreases entries.len(),
{
    if entries.len() > 0 {
        let e0 = entries.drop_last();
        let n = entries.len() - 1;
        let was = active_models(e0);
        let now = active_models(entries);
        assert forall|i: int, j: int| #![trigger e0[i], e0[j]] 0 <= i < j < e0.len() implies e0[i].id != e0[j].id by {
            assert(e0[i] == entries[i] && e0[j] == entries[j]);
        }
        active_ids_are_distinct(e0);
        assert forall|i: int| 0 <= i < now.len() implies exists|k: int|
            0 <= k < entries.len() && (#[trigger] entries[k]).id == (#[trigger] now[i]).member_id by {
            if i < was.len() {
                assert(now[i] == was[i]);
                let k = choose|k: int| 0 <= k < e0.len() && (#[trigger] e0[k]).id == was[i].member_id;
                assert(entries[k].id == now[i].member_id);
            } else {
                assert(entries[n].id == now[i].member_id);
            }
        }
        assert forall|i: int, j: int| #![trigger now[i], now[j]] 0 <= i < j < now.len() implies now[i].member_id
            != now[j].member_id by {
            assert(now[i] == was[i]);
            if j < was.len() {
                assert(now[j] == was[j]);
            } else {
                let k = choose|k: int| 0 <= k < e0.len() && (#[trigger] e0[k]).id == was[i].member_id;
                assert(e0[k] == entries[k]);
                assert(entries[k].id != entries[n].id);
            }
        }
    }
}

/// A state whose ids are distinct shows in one way.
pub proof fn one_state_has_one_view(entries: Seq<EntryModel>, x: MembershipView, y: MembershipView)
    requires
        ids_are_distinct(entries),
        shows(entries, false, x),
        shows(entries, false, y),
    ensures
        member_models(x.members@) == member_models(y.members@),
{
    active_ids_are_distinct(entries);
    let of_x = choose|l: Seq<MemberView>| #[trigger]
        stable_sorting(l, x.members@) && member_models(l) == active_models(entries);
    let of_y = choose|l: Seq<MemberView>| #[trigger]
        stable_sorting(l, y.members@) && member_models(l) == active_models(entries);
    assert forall|i: int, j: int| #![trigger of_x[i], of_x[j]] 0 <= i < j < of_x.len() implies of_x[i].sort_key()
        != of_x[j].sort_key() by {
        assert(member_models(of_x)[i].member_id != member_models(of_x)[j].member_id);
    }
    assert forall|i: int, j: int| #![trigger of_y[i], of_y[j]] 0 <= i < j < of_y.len() implies of_y[i].sort_key()
        != of_y[j].sort_key() by {
        assert(member_models(of_y)[i].member_id != member_models(of_y)[j].member_id);
    }
    view_ignores_member_order(of_x, x.members@, of_y, y.members@);
}

/// The two closures hold the same ops.
pub open spec fn same_ops(a: Seq<StoredModel>, b: Seq<StoredModel>) -> bool {
    forall|op: StoredModel| #[trigger] a.contains(op) <==> b.contains(op)
}

/// An id stands for one op among these.
pub open spec fn ids_identify(ops: Seq<StoredModel>) -> bool {
    forall|i: int, j: int| #![trigger ops[i], ops[j]]
        0 <= i < ops.len() && 0 <= j < ops.len() && ops[i].op.id == ops[j].op.id ==> ops[i] == ops[j]
}

/// Two uncompacted anchors of one tree: they pin the same founding configuration.
pub open spec fn pinned_alike(a: DagAnchor, b: DagAnchor) -> bool {
    &&& a.group_id@ == b.group_id@
    &&& init_dto_models(a.genesis@) == init_dto_models(b.genesis@)
    &&& a.reset_authority == b.reset_authority
    &&& a.genesis_op_id == b.genesis_op_id
    &&& a.checkpoint is None
    &&& b.checkpoint is None
}

/// What the engine ends at is decided by the founding configuration and the set of ops, whatever their order, and it
/// reports no member twice.
pub open spec fn goes_by_the_set<F: Fn(&EngineBase, &Vec<StoredOp>) -> EngineRun>(engine: F) -> bool {
    &&& forall|x: DagAnchor, first: EngineBase, m: EngineRun, y: DagAnchor, second: EngineBase, n: EngineRun|
        #[trigger] ran(engine, x, first, m) && #[trigger] ran(engine, y, second, n) && pinned_alike(x, y) && same_ops(
            x.closure(),
            y.closure(),
        ) ==> entry_models(m.members.members@) == entry_models(n.members.members@) && m.has_been_shared == n.has_been_shared
            && m.reset_authority == n.reset_authority
    &&& forall|x: DagAnchor, base: EngineBase, m: EngineRun| #[trigger]
        ran(engine, x, base, m) ==> ids_are_distinct(entry_models(m.members.members@))
}

proof fn resolved_ops_are_honest(ops: Seq<StoredModel>, run: EngineRun)
    requires
        first_trouble(ops, run, ops.len() as int) is None,
    ensures
        forall|i: int| 0 <= i < ops.len() ==> honest(#[trigger] ops[i]),
{
    assert forall|i: int| 0 <= i < ops.len() implies honest(#[trigger] ops[i]) by {
        if !honest(ops[i]) {
            if first_trouble(ops, run, i) is Some {
                trouble_stays(ops, run, i, ops.len() as int);
            } else {
                assert(first_trouble(ops, run, i + 1) is Some);
                trouble_stays(ops, run, i + 1, ops.len() as int);
            }
        }
    }
}

proof fn a_union_has_nothing_else(a: Seq<StoredModel>, b: Seq<StoredModel>, op: StoredModel)
    requires
        merged(a, b).contains(op),
    ensures
        a.contains(op) || b.contains(op),
    decreases b.len(),
{
    if b.len() > 0 {
        let m = merged(a, b.drop_last());
        let k = choose|k: int| 0 <= k < merged(a, b).len() && merged(a, b)[k] == op;
        if k < m.len() {
            assert(m[k] == op);
            a_union_has_nothing_else(a, b.drop_last(), op);
            if b.drop_last().contains(op) {
                let i = choose|i: int| 0 <= i < b.drop_last().len() && b.drop_last()[i] == op;
                assert(b[i] == op);
            }
        } else {
            assert(b[b.len() - 1] == op);
        }
    }
}

/// A union of honest ops whose ids stand for one op each holds the ops of both sides.
proof fn a_union_holds_both(a: Seq<StoredModel>, b: Seq<StoredModel>, op: StoredModel)
    requires
        ids_identify(a + b),
        forall|i: int| 0 <= i < b.len() ==> honest(#[trigger] b[i]),
    ensures
        merged(a, b).contains(op) <==> a.contains(op) || b.contains(op),
{
    let m = merged(a, b);
    let all = a + b;
    if m.contains(op) {
        a_union_has_nothing_else(a, b, op);
    }
    if a.contains(op) {
        let i = choose|i: int| 0 <= i < a.len() && a[i] == op;
        merge_keeps_local_ops(a, b);
        assert(m.take(a.len() as int)[i] == m[i]);
    }
    if b.contains(op) {
        let i = choose|i: int| 0 <= i < b.len() && b[i] == op;
        assert(honest(b[i]) && b[i].op.id == op.op.id);
        merge_unites_ids(a, b, op.op.id);
        let k = choose|k: int| 0 <= k < m.len() && (#[trigger] m[k]).op.id == op.op.id;
        assert(m.contains(m[k]));
        a_union_has_nothing_else(a, b, m[k]);
        assert(all[a.len() + i] == op);
        if a.contains(m[k]) {
            let j = choose|j: int| 0 <= j < a.len() && a[j] == m[k];
            assert(all[j] == m[k]);
        } else {
            let j = choose|j: int| 0 <= j < b.len() && b[j] == m[k];
            assert(all[a.len() + j] == m[k]);
        }
        assert(m[k] == op);
    }
}

/// Both orders of a merge hold the same ops, where none is relabeled and an id stands for one op.
pub proof fn both_orders_of_a_merge_hold_the_same_ops(a: Seq<StoredModel>, b: Seq<StoredModel>)
    requires
        ids_identify(a + b),
        forall|i: int| 0 <= i < a.len() ==> honest(#[trigger] a[i]),
        forall|i: int| 0 <= i < b.len() ==> honest(#[trigger] b[i]),
    ensures
        same_ops(merged(a, b), merged(b, a)),
        forall|id: [u8; 32]| #[trigger] has_id(merged(a, b), id) <==> has_id(merged(b, a), id),
{
    let x = a + b;
    let y = b + a;
    assert forall|i: int, j: int| #![trigger y[i], y[j]]
        0 <= i < y.len() && 0 <= j < y.len() && y[i].op.id == y[j].op.id implies y[i] == y[j] by {
        let p = if i < b.len() {
            a.len() + i
        } else {
            i - b.len()
        };
        let q = if j < b.len() {
            a.len() + j
        } else {
            j - b.len()
        };
        assert(x[p] == y[i] && x[q] == y[j]);
    }
    assert forall|op: StoredModel| #[trigger] merged(a, b).contains(op) <==> merged(b, a).contains(op) by {
        a_union_holds_both(a, b, op);
        a_union_holds_both(b, a, op);
    }
    assert forall|id: [u8; 32]| #[trigger] has_id(merged(a, b), id) <==> has_id(merged(b, a), id) by {
        if has_id(merged(a, b), id) {
            let i = choose|i: int| 0 <= i < merged(a, b).len() && (#[trigger] merged(a, b)[i]).op.id == id;
            assert(merged(a, b).contains(merged(a, b)[i]));
            let j = choose|j: int| 0 <= j < merged(b, a).len() && merged(b, a)[j] == merged(a, b)[i];
            assert(merged(b, a)[j].op.id == id);
        }
        if has_id(merged(b, a), id) {
            let i = choose|i: int| 0 <= i < merged(b, a).len() && (#[trigger] merged(b, a)[i]).op.id == id;
            assert(merged(b, a).contains(merged(b, a)[i]));
            assert(merged(a, b).contains(merged(b, a)[i]));
            let j = choose|j: int| 0 <= j < merged(a, b).len() && merged(a, b)[j] == merged(b, a)[i];
            assert(merged(a, b)[j].op.id == id);
        }
    }
}

/// Both orders of a merge resolve alike: under an engine that goes by the set of ops, where both unions of two anchors of
/// one tree resolve and an id stands for one op, they show the same members, the same shared marker and the same recovery
/// authority.
pub proof fn both_orders_of_a_merge_resolve_alike<F: Fn(&EngineBase, &Vec<StoredOp>) -> EngineRun>(
    engine: F,
    a: DagAnchor,
    b: DagAnchor,
    ab: DagAnchor,
    ba: DagAnchor,
    x: Resolved,
    y: Resolved,
)
    requires
        goes_by_the_set(engine),
        pinned_alike(a, b),
        ids_identify(a.closure() + b.closure()),
        united(a, b, ab),
        united(b, a, ba),
        resolution(engine, ab, Ok(x)),
        resolution(engine, ba, Ok(y)),
    ensures
        same_ops(ab.closure(), ba.closure()),
        member_models(x.members.members@) == member_models(y.members.members@),
        x.has_been_shared == y.has_been_shared,
        x.reset_authority == y.reset_authority,
{
    let (first, m) = choose|base: EngineBase, run: EngineRun| #[trigger]
        ran(engine, ab, base, run) && run_outcome(ab, run, Ok(x));
    let (second, n) = choose|base: EngineBase, run: EngineRun| #[trigger]
        ran(engine, ba, base, run) && run_outcome(ba, run, Ok(y));
    resolved_ops_are_honest(ab.closure(), m);
    resolved_ops_are_honest(ba.closure(), n);
    merge_keeps_local_ops(a.closure(), b.closure());
    merge_keeps_local_ops(b.closure(), a.closure());
    assert forall|i: int| 0 <= i < a.closure().len() implies honest(#[trigger] a.closure()[i]) by {
        assert(ab.closure().take(a.closure().len() as int)[i] == ab.closure()[i]);
    }
    assert forall|i: int| 0 <= i < b.closure().len() implies honest(#[trigger] b.closure()[i]) by {
        assert(ba.closure().take(b.closure().len() as int)[i] == ba.closure()[i]);
    }
    both_orders_of_a_merge_hold_the_same_ops(a.closure(), b.closure());
    one_state_has_one_view(entry_models(m.members.members@), x.members, y.members);
}

} // verus!
