//! Compaction checkpoints: the members-only view of a resolved state, and the canonical bytes that a checkpoint's
//! signature covers.

use vstd::prelude::*;
use vstd::utf8::encode_utf8;

use crate::keyring_dag::access::{binds, member_id_binds_key, KeyringRole, KeyringState, MemberState, Roster};
use crate::layout::{
    byte_ranges, equal_split, layout_lengths, le_bytes, le_bytes_injective, put_i16_le, put_u32_le, put_u64_le,
    twos_complement_16,
};
use crate::order::{utf8_injective, Key};
use crate::sorted::SortedMap;
use crate::sorting::{sorted_of, stable_sort, Keyed};
use crate::text::{copy_bytes, push_bytes};

verus! {

/// The coarse kind of the op that minted a sealing payload.
#[derive(Clone, Copy, Debug, PartialEq, Eq, Structural)]
pub enum SealingOrigin {
    Genesis,
    Remove,
    Reseal,
    Other,
}

/// One effective op's opaque sealing payload, with the op's id, kind and author.
#[derive(Clone, Debug, PartialEq, Eq)]
pub struct SealingEntry {
    pub op_id: [u8; 32],
    pub origin: SealingOrigin,
    pub author: String,
    pub bytes: Vec<u8>,
}

/// What a sealing entry holds.
pub struct SealingModel {
    pub op_id: [u8; 32],
    pub origin: SealingOrigin,
    pub author: Seq<char>,
    pub bytes: Seq<u8>,
}

impl View for SealingEntry {
    type V = SealingModel;

    open spec fn view(&self) -> SealingModel {
        SealingModel { op_id: self.op_id, origin: self.origin, author: self.author@, bytes: self.bytes@ }
    }
}

pub open spec fn sealing_models(s: Seq<SealingEntry>) -> Seq<SealingModel> {
    Seq::new(s.len(), |i: int| s[i]@)
}

pub fn copy_sealing(v: &Vec<SealingEntry>) -> (r: Vec<SealingEntry>)
    ensures
        sealing_models(r@) == sealing_models(v@),
{
    let mut out: Vec<SealingEntry> = Vec::new();
    let mut i: usize = 0;
    while i < v.len()
        invariant
            i <= v.len(),
            out.len() == i,
            forall|k: int| 0 <= k < i ==> (#[trigger] out@[k])@ == v@[k]@,
        decreases v.len() - i,
    {
        let e = &v[i];
        out.push(
            SealingEntry {
                op_id: e.op_id,
                origin: e.origin,
                author: e.author.clone(),
                bytes: copy_bytes(e.bytes.as_slice()),
            },
        );
        i = i + 1;
    }
    assert(sealing_models(out@) =~= sealing_models(v@));
    out
}

/// A member's resolved state with its id.
#[derive(Clone, Debug, PartialEq, Eq)]
pub struct MemberStateDto {
    pub id: String,
    pub role: KeyringRole,
    pub member_counter: u64,
    pub access_counter: u64,
    pub author_public_key: [u8; 32],
    pub hpke_public_key: [u8; 32],
}

/// What a member's record holds: the id, and the state under it.
pub struct EntryModel {
    pub id: Seq<char>,
    pub state: MemberState,
}

impl View for MemberStateDto {
    type V = EntryModel;

    open spec fn view(&self) -> EntryModel {
        EntryModel {
            id: self.id@,
            state: MemberState {
                role: self.role,
                member_counter: self.member_counter,
                access_counter: self.access_counter,
                author_public_key: self.author_public_key,
                hpke_public_key: self.hpke_public_key,
            },
        }
    }
}

pub open spec fn entry_models(s: Seq<MemberStateDto>) -> Seq<EntryModel> {
    Seq::new(s.len(), |i: int| s[i]@)
}

/// The members of a resolved state, sorted by id.
#[derive(Clone, Debug, PartialEq, Eq)]
pub struct GroupStateView {
    pub members: Vec<MemberStateDto>,
}

/// The roster that a list of entries builds up; a later entry replaces an earlier one of the same id.
pub open spec fn roster_of(s: Seq<EntryModel>) -> Roster
    decreases s.len(),
{
    if s.len() == 0 {
        Map::empty()
    } else {
        roster_of(s.drop_last()).insert(s.last().id, s.last().state)
    }
}

/// The entries of a sorted map of members.
pub open spec fn entries_of(m: SortedMap<String, MemberState>) -> Seq<EntryModel> {
    Seq::new(m.keys@.len(), |i: int| EntryModel { id: m.keys@[i]@, state: m.values@[i] })
}

/// Every entry's id certifies its author key.
pub open spec fn all_bind(s: Seq<EntryModel>) -> bool {
    forall|i: int| 0 <= i < s.len() ==> entry_binds(#[trigger] s[i])
}

pub open spec fn entry_binds(e: EntryModel) -> bool {
    binds(e.id, e.state.author_public_key@)
}

impl GroupStateView {
    /// The members of a resolved state.
    pub fn of(state: &KeyringState) -> (r: GroupStateView)
        requires
            state.wf(),
        ensures
            entry_models(r.members@) == entries_of(state.members),
    {
        let mut members: Vec<MemberStateDto> = Vec::new();
        let mut i: usize = 0;
        while i < state.members.keys.len()
            invariant
                state.wf(),
                i <= state.members.keys.len(),
                members.len() == i,
                forall|k: int| 0 <= k < i ==> (#[trigger] members@[k])@ == entries_of(state.members)[k],
            decreases state.members.keys.len() - i,
        {
            let m = state.members.values[i];
            members.push(
                MemberStateDto {
                    id: state.members.keys[i].clone(),
                    role: m.role,
                    member_counter: m.member_counter,
                    access_counter: m.access_counter,
                    author_public_key: m.author_public_key,
                    hpke_public_key: m.hpke_public_key,
                },
            );
            i = i + 1;
        }
        assert(entry_models(members@) =~= entries_of(state.members));
        GroupStateView { members }
    }

    /// The state that these members make up, or the first member's id that does not certify its key.
    pub fn into_state(self, group_id: Vec<u8>, reset_authority: Option<[u8; 32]>) -> (r: Result<KeyringState, String>)
        ensures
            match r {
                Ok(state) => all_bind(entry_models(self.members@)) && state.wf() && state.group_id == group_id
                    && state.reset_authority == reset_authority && state.roster() == roster_of(entry_models(self.members@)),
                Err(id) => exists|i: int|
                    0 <= i < self.members.len() && !entry_binds(#[trigger] entry_models(self.members@)[i]) && id@
                        == self.members@[i].id@ && all_bind(entry_models(self.members@).take(i)),
            },
    {
        let mut state: KeyringState = KeyringState::empty(group_id, reset_authority);
        let ghost all = entry_models(self.members@);
        let mut i: usize = 0;
        assert(all.take(0) =~= Seq::<EntryModel>::empty());
        while i < self.members.len()
            invariant
                i <= self.members.len(),
                all == entry_models(self.members@),
                state.wf(),
                state.group_id == group_id,
                state.reset_authority == reset_authority,
                all_bind(all.take(i as int)),
                state.roster() == roster_of(all.take(i as int)),
            decreases self.members.len() - i,
        {
            let m = &self.members[i];
            assert(all[i as int] == m@);
            if !member_id_binds_key(m.id.as_str(), m.author_public_key.as_slice()) {
                return Err(m.id.clone());
            }
            proof {
                assert(all.take(i + 1).drop_last() =~= all.take(i as int));
                assert(all.take(i + 1).last() == m@);
                assert forall|k: int| 0 <= k < i + 1 implies entry_binds(#[trigger] all.take(i + 1)[k]) by {
                    if k < i {
                        assert(all.take(i as int)[k] == all.take(i + 1)[k]);
                    }
                }
            }
            state.members.insert(
                m.id.clone(),
                MemberState {
                    role: m.role,
                    member_counter: m.member_counter,
                    access_counter: m.access_counter,
                    author_public_key: m.author_public_key,
                    hpke_public_key: m.hpke_public_key,
                },
            );
            i = i + 1;
        }
        assert(all.take(i as int) =~= all);
        Ok(state)
    }

    pub fn duplicate(&self) -> (r: GroupStateView)
        ensures
            entry_models(r.members@) == entry_models(self.members@),
    {
        let mut members: Vec<MemberStateDto> = Vec::new();
        let mut i: usize = 0;
        while i < self.members.len()
            invariant
                i <= self.members.len(),
                members.len() == i,
                forall|k: int| 0 <= k < i ==> (#[trigger] members@[k])@ == self.members@[k]@,
            decreases self.members.len() - i,
        {
            let m = &self.members[i];
            members.push(
                MemberStateDto {
                    id: m.id.clone(),
                    role: m.role,
                    member_counter: m.member_counter,
                    access_counter: m.access_counter,
                    author_public_key: m.author_public_key,
                    hpke_public_key: m.hpke_public_key,
                },
            );
            i = i + 1;
        }
        assert(entry_models(members@) =~= entry_models(self.members@));
        GroupStateView { members }
    }
}

proof fn roster_of_entries(m: SortedMap<String, MemberState>, n: int)
    requires
        m.wf(),
        0 <= n <= m.keys.len(),
    ensures
        forall|id: Seq<char>| #[trigger] roster_of(entries_of(m).take(n)).contains_key(id) <==> exists|i: int|
            0 <= i < n && (#[trigger] m.keys@[i])@ == id,
        forall|i: int| 0 <= i < n ==> roster_of(entries_of(m).take(n))[(#[trigger] m.keys@[i])@] == m.values@[i],
    decreases n,
{
    let s = entries_of(m).take(n);
    if n > 0 {
        roster_of_entries(m, n - 1);
        assert(s.drop_last() =~= entries_of(m).take(n - 1));
        assert(s.last() == entries_of(m)[n - 1]);
        assert forall|id: Seq<char>| #[trigger] roster_of(s).contains_key(id) <==> exists|i: int|
            0 <= i < n && (#[trigger] m.keys@[i])@ == id by {
            if id == m.keys@[n - 1]@ {
                assert(roster_of(s).contains_key(id));
            } else {
                if roster_of(s).contains_key(id) {
                    assert(roster_of(s.drop_last()).contains_key(id));
                    let i = choose|i: int| 0 <= i < n - 1 && (#[trigger] m.keys@[i])@ == id;
                    assert(0 <= i < n);
                }
                if exists|i: int| 0 <= i < n && (#[trigger] m.keys@[i])@ == id {
                    let i = choose|i: int| 0 <= i < n && (#[trigger] m.keys@[i])@ == id;
                    assert(0 <= i < n - 1);
                    assert(roster_of(s.drop_last()).contains_key(id));
                }
            }
        }
        assert forall|i: int| 0 <= i < n implies roster_of(s)[(#[trigger] m.keys@[i])@] == m.values@[i] by {
            if i < n - 1 {
                if m.keys@[i].model() == m.keys@[n - 1].model() {
                    crate::sorted::sorted_unique(m.keys@, i, n - 1);
                }
            }
        }
    }
}

/// A captured state is restored without loss: the view of a state whose ids certify their keys rebuilds its roster.
pub proof fn state_view_round_trips(m: SortedMap<String, MemberState>)
    requires
        m.wf(),
    ensures
        roster_of(entries_of(m)) == m@,
        all_bind(entries_of(m)) <==> forall|id: Seq<char>| #[trigger]
            m@.contains_key(id) ==> binds(id, m@[id].author_public_key@),
{
    m.facts();
    roster_of_entries(m, m.keys.len() as int);
    let e = entries_of(m);
    assert(e.take(m.keys.len() as int) =~= e);
    let r = roster_of(e);
    assert forall|id: Seq<char>| r.contains_key(id) == m@.contains_key(id) by {
        if m@.contains_key(id) {
            let i = choose|i: int| 0 <= i < m.keys.len() && (#[trigger] m.keys@[i]).model() == id;
            assert(m.keys@[i]@ == id);
        }
        if r.contains_key(id) {
            let i = choose|i: int| 0 <= i < m.keys.len() && (#[trigger] m.keys@[i])@ == id;
            assert(m@.contains_key(m.keys@[i].model()));
        }
    }
    assert forall|id: Seq<char>| #[trigger] r.contains_key(id) implies r[id] == m@[id] by {
        let i = choose|i: int| 0 <= i < m.keys.len() && (#[trigger] m.keys@[i])@ == id;
        assert(m@[m.keys@[i].model()] == m.values@[i]);
    }
    assert(r =~= m@);
    if all_bind(e) {
        assert forall|id: Seq<char>| #[trigger] m@.contains_key(id) implies binds(id, m@[id].author_public_key@) by {
            let i = choose|i: int| 0 <= i < m.keys.len() && (#[trigger] m.keys@[i]).model() == id;
            assert(entry_binds(e[i]));
        }
    }
    if forall|id: Seq<char>| #[trigger] m@.contains_key(id) ==> binds(id, m@[id].author_public_key@) {
        assert forall|i: int| 0 <= i < e.len() implies entry_binds(#[trigger] e[i]) by {
            assert(m@.contains_key(m.keys@[i].model()));
        }
    }
}

/// The signed body of a checkpoint.
#[derive(Clone, Debug, PartialEq, Eq)]
pub struct Checkpoint {
    /// The cut: each frontier op with its depth.
    pub frontier_depths: Vec<([u8; 32], u64)>,
    /// The resolved membership at the cut.
    pub state: GroupStateView,
    /// The hash of the checkpoint before this one.
    pub prev_snapshot: Option<[u8; 32]>,
    pub has_been_shared: bool,
    /// The recovery authority at the cut.
    pub reset_authority: Option<[u8; 32]>,
    /// The preserved sealing, in fold order.
    pub sealing: Vec<SealingEntry>,
    /// How many epoch-minting ops lie below the cut.
    pub minting_ops_baseline: u32,
    pub author: String,
}

/// A checkpoint with the key that signed it; `verified` tells whether that key's signature over the canonical bytes
/// holds.
#[derive(Clone, Debug, PartialEq, Eq)]
pub struct SignedCheckpoint {
    pub body: Checkpoint,
    pub signer: [u8; 32],
    pub verified: bool,
}

impl Keyed for ([u8; 32], u64) {
    type By = ([u8; 32], u64);

    open spec fn sort_key(&self) -> (Seq<u8>, u64) {
        self.model()
    }

    fn goes_before(&self, other: &([u8; 32], u64)) -> (r: bool) {
        self.less(other)
    }
}

/// What a checkpoint holds; its cut is a collection without order, given here sorted.
pub struct CheckpointModel {
    pub frontier_depths: Seq<([u8; 32], u64)>,
    pub state: Seq<EntryModel>,
    pub prev_snapshot: Option<[u8; 32]>,
    pub has_been_shared: bool,
    pub reset_authority: Option<[u8; 32]>,
    pub sealing: Seq<SealingModel>,
    pub minting_ops_baseline: u32,
    pub author: Seq<char>,
}

impl View for Checkpoint {
    type V = CheckpointModel;

    open spec fn view(&self) -> CheckpointModel {
        CheckpointModel {
            frontier_depths: sorted_of(self.frontier_depths@),
            state: entry_models(self.state.members@),
            prev_snapshot: self.prev_snapshot,
            has_been_shared: self.has_been_shared,
            reset_authority: self.reset_authority,
            sealing: sealing_models(self.sealing@),
            minting_ops_baseline: self.minting_ops_baseline,
            author: self.author@,
        }
    }
}

/// A byte string behind its eight-byte length.
pub open spec fn counted(b: Seq<u8>) -> Seq<u8> {
    le_bytes(b.len(), 8) + b
}

/// The tagged form of an optional hash: a one and the bytes, or a lone zero.
pub open spec fn opt_bytes(h: Option<Seq<u8>>) -> Seq<u8> {
    match h {
        Some(k) => seq![1u8] + k,
        None => seq![0u8],
    }
}

pub open spec fn opt_hash(h: Option<[u8; 32]>) -> Seq<u8> {
    opt_bytes(
        match h {
            Some(k) => Some(k@),
            None => None,
        },
    )
}

pub open spec fn depth_bytes(d: ([u8; 32], u64)) -> Seq<u8> {
    d.0@ + le_bytes(d.1 as nat, 8)
}

pub open spec fn depths_bytes(s: Seq<([u8; 32], u64)>) -> Seq<u8>
    decreases s.len(),
{
    if s.len() == 0 {
        Seq::empty()
    } else {
        depth_bytes(s[0]) + depths_bytes(s.drop_first())
    }
}

pub open spec fn entry_bytes(e: EntryModel) -> Seq<u8> {
    counted(encode_utf8(e.id)) + (le_bytes(twos_complement_16(e.state.role.0), 2) + (le_bytes(
        e.state.member_counter as nat,
        8,
    ) + (le_bytes(e.state.access_counter as nat, 8) + (e.state.author_public_key@ + e.state.hpke_public_key@))))
}

pub open spec fn entries_bytes(s: Seq<EntryModel>) -> Seq<u8>
    decreases s.len(),
{
    if s.len() == 0 {
        Seq::empty()
    } else {
        entry_bytes(s[0]) + entries_bytes(s.drop_first())
    }
}

/// The canonical bytes of a membership view: how many members, then each in order.
pub open spec fn state_bytes(s: Seq<EntryModel>) -> Seq<u8> {
    le_bytes(s.len(), 8) + entries_bytes(s)
}

pub open spec fn origin_byte(o: SealingOrigin) -> u8 {
    match o {
        SealingOrigin::Genesis => 0,
        SealingOrigin::Remove => 1,
        SealingOrigin::Reseal => 2,
        SealingOrigin::Other => 3,
    }
}

pub open spec fn sealing_entry_bytes(e: SealingModel) -> Seq<u8> {
    e.op_id@ + (seq![origin_byte(e.origin)] + (counted(e.bytes) + counted(encode_utf8(e.author))))
}

pub open spec fn sealing_bytes(s: Seq<SealingModel>) -> Seq<u8>
    decreases s.len(),
{
    if s.len() == 0 {
        Seq::empty()
    } else {
        sealing_entry_bytes(s[0]) + sealing_bytes(s.drop_first())
    }
}

/// The domain tag of a checkpoint's signed bytes: `openom:checkpoint:v1`.
pub open spec fn checkpoint_tag() -> Seq<u8> {
    seq![111u8, 112, 101, 110, 111, 109, 58, 99, 104, 101, 99, 107, 112, 111, 105, 110, 116, 58, 118, 49]
}

/// The bytes that a checkpoint's signature covers.
pub open spec fn checkpoint_bytes(c: CheckpointModel) -> Seq<u8> {
    checkpoint_tag() + (le_bytes(c.frontier_depths.len(), 8) + (depths_bytes(c.frontier_depths) + (counted(
        state_bytes(c.state),
    ) + (opt_hash(c.prev_snapshot) + (seq![c.has_been_shared as u8] + (opt_hash(c.reset_authority) + (le_bytes(
        c.sealing.len(),
        8,
    ) + (sealing_bytes(c.sealing) + (le_bytes(c.minting_ops_baseline as nat, 4) + counted(encode_utf8(c.author)))))))))))
}

/// Appends the tagged form of an optional hash.
pub fn push_opt_hash<const N: usize>(out: &mut Vec<u8>, h: Option<&[u8; N]>)
    ensures
        final(out)@ == old(out)@ + opt_bytes(
            match h {
                Some(k) => Some(k@),
                None => None,
            },
        ),
{
    let ghost start = out@;
    match h {
        Some(k) => {
            out.push(1);
            push_bytes(out, k.as_slice());
            assert(out@ =~= start + (seq![1u8] + k@));
        },
        None => {
            out.push(0);
            assert(out@ =~= start + seq![0u8]);
        },
    }
}

fn push_counted(out: &mut Vec<u8>, b: &[u8])
    ensures
        final(out)@ == old(out)@ + counted(b@),
{
    let ghost start = out@;
    put_u64_le(out, b.len() as u64);
    push_bytes(out, b);
    assert(out@ =~= start + counted(b@));
}

impl MemberStateDto {
    /// Appends the member's canonical bytes.
    pub fn write_canonical(&self, out: &mut Vec<u8>)
        ensures
            final(out)@ == old(out)@ + entry_bytes(self@),
    {
        let ghost start = out@;
        push_counted(out, self.id.as_str().as_bytes());
        put_i16_le(out, self.role.0);
        put_u64_le(out, self.member_counter);
        put_u64_le(out, self.access_counter);
        push_bytes(out, self.author_public_key.as_slice());
        push_bytes(out, self.hpke_public_key.as_slice());
        assert(out@ =~= start + entry_bytes(self@));
    }
}

proof fn entries_push(s: Seq<EntryModel>, e: EntryModel)
    ensures
        entries_bytes(s.push(e)) == entries_bytes(s) + entry_bytes(e),
    decreases s.len(),
{
    if s.len() == 0 {
        assert(s =~= Seq::<EntryModel>::empty());
        assert(s.push(e).drop_first() =~= Seq::<EntryModel>::empty());
        assert(entries_bytes(s.push(e)) =~= entries_bytes(s) + entry_bytes(e));
    } else {
        assert(s.push(e).drop_first() =~= s.drop_first().push(e));
        entries_push(s.drop_first(), e);
        assert(entries_bytes(s.push(e)) =~= entries_bytes(s) + entry_bytes(e));
    }
}

proof fn depths_push(s: Seq<([u8; 32], u64)>, e: ([u8; 32], u64))
    ensures
        depths_bytes(s.push(e)) == depths_bytes(s) + depth_bytes(e),
    decreases s.len(),
{
    if s.len() == 0 {
        assert(s =~= Seq::<([u8; 32], u64)>::empty());
        assert(s.push(e).drop_first() =~= Seq::<([u8; 32], u64)>::empty());
        assert(depths_bytes(s.push(e)) =~= depths_bytes(s) + depth_bytes(e));
    } else {
        assert(s.push(e).drop_first() =~= s.drop_first().push(e));
        depths_push(s.drop_first(), e);
        assert(depths_bytes(s.push(e)) =~= depths_bytes(s) + depth_bytes(e));
    }
}

proof fn sealing_push(s: Seq<SealingModel>, e: SealingModel)
    ensures
        sealing_bytes(s.push(e)) == sealing_bytes(s) + sealing_entry_bytes(e),
    decreases s.len(),
{
    if s.len() == 0 {
        assert(s =~= Seq::<SealingModel>::empty());
        assert(s.push(e).drop_first() =~= Seq::<SealingModel>::empty());
        assert(sealing_bytes(s.push(e)) =~= sealing_bytes(s) + sealing_entry_bytes(e));
    } else {
        assert(s.push(e).drop_first() =~= s.drop_first().push(e));
        sealing_push(s.drop_first(), e);
        assert(sealing_bytes(s.push(e)) =~= sealing_bytes(s) + sealing_entry_bytes(e));
    }
}

impl GroupStateView {
    /// Appends the view's canonical bytes.
    pub fn write_canonical(&self, out: &mut Vec<u8>)
        ensures
            final(out)@ == old(out)@ + state_bytes(entry_models(self.members@)),
    {
        let ghost start = out@;
        let ghost all = entry_models(self.members@);
        put_u64_le(out, self.members.len() as u64);
        let ghost head = out@;
        let mut i: usize = 0;
        assert(all.take(0) =~= Seq::<EntryModel>::empty());
        assert(out@ =~= head + entries_bytes(all.take(0)));
        while i < self.members.len()
            invariant
                i <= self.members.len(),
                all == entry_models(self.members@),
                out@ == head + entries_bytes(all.take(i as int)),
            decreases self.members.len() - i,
        {
            self.members[i].write_canonical(out);
            proof {
                assert(all.take(i + 1) =~= all.take(i as int).push(self.members@[i as int]@));
                entries_push(all.take(i as int), self.members@[i as int]@);
            }
            i = i + 1;
            assert(out@ =~= head + entries_bytes(all.take(i as int)));
        }
        assert(all.take(i as int) =~= all);
        assert(out@ =~= start + state_bytes(all));
    }
}

impl SealingOrigin {
    pub fn tag(self) -> (r: u8)
        ensures
            r == origin_byte(self),
    {
        match self {
            SealingOrigin::Genesis => 0,
            SealingOrigin::Remove => 1,
            SealingOrigin::Reseal => 2,
            SealingOrigin::Other => 3,
        }
    }
}

fn write_depths(out: &mut Vec<u8>, fd: &Vec<([u8; 32], u64)>)
    ensures
        final(out)@ == old(out)@ + depths_bytes(fd@),
{
    let ghost head = out@;
    let mut i: usize = 0;
    assert(fd@.take(0) =~= Seq::<([u8; 32], u64)>::empty());
    assert(out@ =~= head + depths_bytes(fd@.take(0)));
    while i < fd.len()
        invariant
            i <= fd.len(),
            out@ == head + depths_bytes(fd@.take(i as int)),
        decreases fd.len() - i,
    {
        let d = fd[i];
        push_bytes(out, d.0.as_slice());
        put_u64_le(out, d.1);
        proof {
            assert(fd@.take(i + 1) =~= fd@.take(i as int).push(d));
            depths_push(fd@.take(i as int), d);
        }
        i = i + 1;
        assert(out@ =~= head + depths_bytes(fd@.take(i as int)));
    }
    assert(fd@.take(i as int) =~= fd@);
}

fn write_sealing(out: &mut Vec<u8>, sealing: &Vec<SealingEntry>)
    ensures
        final(out)@ == old(out)@ + sealing_bytes(sealing_models(sealing@)),
{
    let ghost head = out@;
    let ghost all = sealing_models(sealing@);
    let mut i: usize = 0;
    assert(all.take(0) =~= Seq::<SealingModel>::empty());
    assert(out@ =~= head + sealing_bytes(all.take(0)));
    while i < sealing.len()
        invariant
            i <= sealing.len(),
            all == sealing_models(sealing@),
            out@ == head + sealing_bytes(all.take(i as int)),
        decreases sealing.len() - i,
    {
        let e = &sealing[i];
        push_bytes(out, e.op_id.as_slice());
        out.push(e.origin.tag());
        push_counted(out, e.bytes.as_slice());
        push_counted(out, e.author.as_str().as_bytes());
        proof {
            assert(all.take(i + 1) =~= all.take(i as int).push(e@));
            sealing_push(all.take(i as int), e@);
        }
        i = i + 1;
        assert(out@ =~= head + sealing_bytes(all.take(i as int)));
    }
    assert(all.take(i as int) =~= all);
}

proof fn regroup(s: Seq<u8>, p: Seq<Seq<u8>>)
    requires
        p.len() == 11,
    ensures
        s + p[0] + p[1] + p[2] + p[3] + p[4] + p[5] + p[6] + p[7] + p[8] + p[9] + p[10] == s + (p[0] + (p[1] + (p[2] + (p[3] + (
        p[4] + (p[5] + (p[6] + (p[7] + (p[8] + (p[9] + p[10])))))))))),
{
    let a = p[7] + (p[8] + (p[9] + p[10]));
    let b = p[3] + (p[4] + (p[5] + (p[6] + a)));
    let l = s + p[0] + p[1] + p[2];
    let m = l + p[3] + p[4] + p[5] + p[6];
    assert(m + p[7] + p[8] + p[9] + p[10] =~= m + a);
    assert(m + a =~= l + b);
    assert(l + b =~= s + (p[0] + (p[1] + (p[2] + b))));
}

impl Checkpoint {
    /// Appends the checkpoint's canonical bytes, which its signature covers.
    pub fn write_canonical(&self, out: &mut Vec<u8>)
        ensures
            final(out)@ == old(out)@ + checkpoint_bytes(self@),
    {
        let ghost start = out@;
        let ghost m = self@;
        let tag: [u8; 20] = [111, 112, 101, 110, 111, 109, 58, 99, 104, 101, 99, 107, 112, 111, 105, 110, 116, 58, 118, 49];
        assert(tag@ =~= checkpoint_tag());
        push_bytes(out, tag.as_slice());
        let fd: Vec<([u8; 32], u64)> = stable_sort(copy_depths(&self.frontier_depths));
        put_u64_le(out, fd.len() as u64);
        write_depths(out, &fd);
        let mut members: Vec<u8> = Vec::new();
        self.state.write_canonical(&mut members);
        assert(members@ =~= state_bytes(m.state));
        push_counted(out, members.as_slice());
        push_opt_hash(out, self.prev_snapshot.as_ref());
        let ghost l5 = out@;
        out.push(if self.has_been_shared { 1 } else { 0 });
        let ghost shared = out@;
        assert(shared =~= l5 + seq![m.has_been_shared as u8]);
        push_opt_hash(out, self.reset_authority.as_ref());
        put_u64_le(out, self.sealing.len() as u64);
        write_sealing(out, &self.sealing);
        put_u32_le(out, self.minting_ops_baseline);
        push_counted(out, self.author.as_str().as_bytes());
        proof {
            let parts = seq![
                checkpoint_tag(),
                le_bytes(m.frontier_depths.len(), 8),
                depths_bytes(m.frontier_depths),
                counted(state_bytes(m.state)),
                opt_hash(m.prev_snapshot),
                seq![m.has_been_shared as u8],
                opt_hash(m.reset_authority),
                le_bytes(m.sealing.len(), 8),
                sealing_bytes(m.sealing),
                le_bytes(m.minting_ops_baseline as nat, 4),
                counted(encode_utf8(m.author)),
            ];
            regroup(start, parts);
            assert(shared == l5 + parts[5]);
        }
    }

    pub fn duplicate(&self) -> (r: Checkpoint)
        ensures
            r@ == self@,
            r.frontier_depths@ == self.frontier_depths@,
    {
        Checkpoint {
            frontier_depths: copy_depths(&self.frontier_depths),
            state: self.state.duplicate(),
            prev_snapshot: self.prev_snapshot,
            has_been_shared: self.has_been_shared,
            reset_authority: self.reset_authority,
            sealing: copy_sealing(&self.sealing),
            minting_ops_baseline: self.minting_ops_baseline,
            author: self.author.clone(),
        }
    }
}

pub fn copy_depths(v: &Vec<([u8; 32], u64)>) -> (r: Vec<([u8; 32], u64)>)
    ensures
        r@ == v@,
{
    let mut out: Vec<([u8; 32], u64)> = Vec::new();
    let mut i: usize = 0;
    while i < v.len()
        invariant
            i <= v.len(),
            out@ == v@.take(i as int),
        decreases v.len() - i,
    {
        let d = v[i];
        out.push(d);
        i = i + 1;
        assert(out@ =~= v@.take(i as int));
    }
    assert(v@.take(i as int) =~= v@);
    out
}

/// The tagged form tells optional hashes apart: distinct values have distinct bytes.
pub proof fn opt_bytes_injective(a: Option<Seq<u8>>, b: Option<Seq<u8>>)
    requires
        opt_bytes(a) == opt_bytes(b),
    ensures
        a == b,
{
    let x = opt_bytes(a);
    let y = opt_bytes(b);
    match (a, b) {
        (Some(k), Some(l)) => {
            assert(x.drop_first() =~= k);
            assert(y.drop_first() =~= l);
        },
        (Some(k), None) => {
            assert(x[0] == 1 && y[0] == 0);
        },
        (None, Some(l)) => {
            assert(x[0] == 0 && y[0] == 1);
        },
        (None, None) => {},
    }
}

proof fn opt_hash_splits(a: Option<[u8; 32]>, r: Seq<u8>, b: Option<[u8; 32]>, s: Seq<u8>)
    requires
        opt_hash(a) + r == opt_hash(b) + s,
    ensures
        a == b,
        r == s,
{
    let x = opt_hash(a) + r;
    let y = opt_hash(b) + s;
    match (a, b) {
        (Some(k), Some(l)) => {
            equal_split(opt_hash(a), r, opt_hash(b), s);
            opt_bytes_injective(Some(k@), Some(l@));
            assert(k =~= l);
        },
        (Some(k), None) => {
            assert(x[0] == 1 && y[0] == 0);
        },
        (None, Some(l)) => {
            assert(x[0] == 0 && y[0] == 1);
        },
        (None, None) => {
            equal_split(opt_hash(a), r, opt_hash(b), s);
        },
    }
}

proof fn number_splits(a: nat, r: Seq<u8>, b: nat, s: Seq<u8>, width: nat)
    requires
        le_bytes(a, width) + r == le_bytes(b, width) + s,
        a < crate::layout::byte_range(width),
        b < crate::layout::byte_range(width),
    ensures
        a == b,
        r == s,
{
    layout_lengths(a, width);
    layout_lengths(b, width);
    equal_split(le_bytes(a, width), r, le_bytes(b, width), s);
    le_bytes_injective(a, b, width);
}

proof fn counted_splits(a: Seq<u8>, r: Seq<u8>, b: Seq<u8>, s: Seq<u8>)
    requires
        counted(a) + r == counted(b) + s,
        a.len() <= u64::MAX,
        b.len() <= u64::MAX,
    ensures
        a == b,
        r == s,
{
    byte_ranges();
    assert(counted(a) + r =~= le_bytes(a.len(), 8) + (a + r));
    assert(counted(b) + s =~= le_bytes(b.len(), 8) + (b + s));
    number_splits(a.len(), a + r, b.len(), b + s, 8);
    equal_split(a, r, b, s);
}

proof fn depths_split(a: Seq<([u8; 32], u64)>, r: Seq<u8>, b: Seq<([u8; 32], u64)>, s: Seq<u8>)
    requires
        a.len() == b.len(),
        depths_bytes(a) + r == depths_bytes(b) + s,
    ensures
        a == b,
        r == s,
    decreases a.len(),
{
    if a.len() == 0 {
        assert(depths_bytes(a) + r =~= r);
        assert(depths_bytes(b) + s =~= s);
        assert(a =~= b);
    } else {
        let a1 = depths_bytes(a.drop_first()) + r;
        let b1 = depths_bytes(b.drop_first()) + s;
        assert(depths_bytes(a) + r =~= a[0].0@ + (le_bytes(a[0].1 as nat, 8) + a1));
        assert(depths_bytes(b) + s =~= b[0].0@ + (le_bytes(b[0].1 as nat, 8) + b1));
        equal_split(a[0].0@, le_bytes(a[0].1 as nat, 8) + a1, b[0].0@, le_bytes(b[0].1 as nat, 8) + b1);
        byte_ranges();
        number_splits(a[0].1 as nat, a1, b[0].1 as nat, b1, 8);
        assert(a[0].0 =~= b[0].0);
        depths_split(a.drop_first(), r, b.drop_first(), s);
        assert(a =~= seq![a[0]] + a.drop_first());
        assert(b =~= seq![b[0]] + b.drop_first());
    }
}

/// The ids are no longer than a machine can hold.
pub open spec fn entries_fit(s: Seq<EntryModel>) -> bool {
    &&& s.len() <= u64::MAX
    &&& forall|i: int| 0 <= i < s.len() ==> encode_utf8((#[trigger] s[i]).id).len() <= u64::MAX
}

proof fn entry_splits(a: EntryModel, r: Seq<u8>, b: EntryModel, s: Seq<u8>)
    requires
        entry_bytes(a) + r == entry_bytes(b) + s,
        encode_utf8(a.id).len() <= u64::MAX,
        encode_utf8(b.id).len() <= u64::MAX,
    ensures
        a == b,
        r == s,
{
    byte_ranges();
    let a5 = a.state.author_public_key@ + (a.state.hpke_public_key@ + r);
    let b5 = b.state.author_public_key@ + (b.state.hpke_public_key@ + s);
    let a4 = le_bytes(a.state.access_counter as nat, 8) + a5;
    let b4 = le_bytes(b.state.access_counter as nat, 8) + b5;
    let a3 = le_bytes(a.state.member_counter as nat, 8) + a4;
    let b3 = le_bytes(b.state.member_counter as nat, 8) + b4;
    let a2 = le_bytes(twos_complement_16(a.state.role.0), 2) + a3;
    let b2 = le_bytes(twos_complement_16(b.state.role.0), 2) + b3;
    assert(entry_bytes(a) + r =~= counted(encode_utf8(a.id)) + a2);
    assert(entry_bytes(b) + s =~= counted(encode_utf8(b.id)) + b2);
    counted_splits(encode_utf8(a.id), a2, encode_utf8(b.id), b2);
    utf8_injective(a.id, b.id);
    number_splits(twos_complement_16(a.state.role.0), a3, twos_complement_16(b.state.role.0), b3, 2);
    number_splits(a.state.member_counter as nat, a4, b.state.member_counter as nat, b4, 8);
    number_splits(a.state.access_counter as nat, a5, b.state.access_counter as nat, b5, 8);
    equal_split(a.state.author_public_key@, a.state.hpke_public_key@ + r, b.state.author_public_key@, b.state.hpke_public_key@ + s);
    equal_split(a.state.hpke_public_key@, r, b.state.hpke_public_key@, s);
    assert(a.state.author_public_key =~= b.state.author_public_key);
    assert(a.state.hpke_public_key =~= b.state.hpke_public_key);
}

proof fn entries_split(a: Seq<EntryModel>, r: Seq<u8>, b: Seq<EntryModel>, s: Seq<u8>)
    requires
        a.len() == b.len(),
        entries_fit(a),
        entries_fit(b),
        entries_bytes(a) + r == entries_bytes(b) + s,
    ensures
        a == b,
        r == s,
    decreases a.len(),
{
    if a.len() == 0 {
        assert(entries_bytes(a) + r =~= r);
        assert(entries_bytes(b) + s =~= s);
        assert(a =~= b);
    } else {
        let a1 = entries_bytes(a.drop_first()) + r;
        let b1 = entries_bytes(b.drop_first()) + s;
        assert(entries_bytes(a) + r =~= entry_bytes(a[0]) + a1);
        assert(entries_bytes(b) + s =~= entry_bytes(b[0]) + b1);
        entry_splits(a[0], a1, b[0], b1);
        entries_split(a.drop_first(), r, b.drop_first(), s);
        assert(a =~= seq![a[0]] + a.drop_first());
        assert(b =~= seq![b[0]] + b.drop_first());
    }
}

/// The texts and payloads are no longer than a machine can hold.
pub open spec fn sealing_fits(s: Seq<SealingModel>) -> bool {
    &&& s.len() <= u64::MAX
    &&& forall|i: int|
        0 <= i < s.len() ==> encode_utf8((#[trigger] s[i]).author).len() <= u64::MAX && s[i].bytes.len() <= u64::MAX
}

proof fn sealing_entry_splits(a: SealingModel, r: Seq<u8>, b: SealingModel, s: Seq<u8>)
    requires
        sealing_entry_bytes(a) + r == sealing_entry_bytes(b) + s,
        encode_utf8(a.author).len() <= u64::MAX,
        encode_utf8(b.author).len() <= u64::MAX,
        a.bytes.len() <= u64::MAX,
        b.bytes.len() <= u64::MAX,
    ensures
        a == b,
        r == s,
{
    let a3 = counted(encode_utf8(a.author)) + r;
    let b3 = counted(encode_utf8(b.author)) + s;
    let a2 = counted(a.bytes) + a3;
    let b2 = counted(b.bytes) + b3;
    let oa = seq![origin_byte(a.origin)];
    let ob = seq![origin_byte(b.origin)];
    assert(sealing_entry_bytes(a) + r =~= a.op_id@ + (oa + a2));
    assert(sealing_entry_bytes(b) + s =~= b.op_id@ + (ob + b2));
    equal_split(a.op_id@, oa + a2, b.op_id@, ob + b2);
    equal_split(oa, a2, ob, b2);
    assert(oa[0] == ob[0]);
    counted_splits(a.bytes, a3, b.bytes, b3);
    counted_splits(encode_utf8(a.author), r, encode_utf8(b.author), s);
    utf8_injective(a.author, b.author);
    assert(a.op_id =~= b.op_id);
}

proof fn sealing_splits(a: Seq<SealingModel>, r: Seq<u8>, b: Seq<SealingModel>, s: Seq<u8>)
    requires
        a.len() == b.len(),
        sealing_fits(a),
        sealing_fits(b),
        sealing_bytes(a) + r == sealing_bytes(b) + s,
    ensures
        a == b,
        r == s,
    decreases a.len(),
{
    if a.len() == 0 {
        assert(sealing_bytes(a) + r =~= r);
        assert(sealing_bytes(b) + s =~= s);
        assert(a =~= b);
    } else {
        let a1 = sealing_bytes(a.drop_first()) + r;
        let b1 = sealing_bytes(b.drop_first()) + s;
        assert(sealing_bytes(a) + r =~= sealing_entry_bytes(a[0]) + a1);
        assert(sealing_bytes(b) + s =~= sealing_entry_bytes(b[0]) + b1);
        sealing_entry_splits(a[0], a1, b[0], b1);
        sealing_splits(a.drop_first(), r, b.drop_first(), s);
        assert(a =~= seq![a[0]] + a.drop_first());
        assert(b =~= seq![b[0]] + b.drop_first());
    }
}

/// The parts of a checkpoint are no longer than a machine can hold.
pub open spec fn checkpoint_fits(c: CheckpointModel) -> bool {
    &&& c.frontier_depths.len() <= u64::MAX
    &&& entries_fit(c.state)
    &&& state_bytes(c.state).len() <= u64::MAX
    &&& sealing_fits(c.sealing)
    &&& encode_utf8(c.author).len() <= u64::MAX
}

/// Every field of a checkpoint is in the bytes that its signature covers: two checkpoints with the same canonical
/// bytes hold the same.
pub proof fn checkpoint_bytes_injective(a: CheckpointModel, b: CheckpointModel)
    requires
        checkpoint_bytes(a) == checkpoint_bytes(b),
        checkpoint_fits(a),
        checkpoint_fits(b),
    ensures
        a == b,
{
    byte_ranges();
    let e = Seq::<u8>::empty();
    let a10 = counted(encode_utf8(a.author)) + e;
    let b10 = counted(encode_utf8(b.author)) + e;
    assert(a10 =~= counted(encode_utf8(a.author)));
    assert(b10 =~= counted(encode_utf8(b.author)));
    let a9 = le_bytes(a.minting_ops_baseline as nat, 4) + a10;
    let b9 = le_bytes(b.minting_ops_baseline as nat, 4) + b10;
    let a8 = sealing_bytes(a.sealing) + a9;
    let b8 = sealing_bytes(b.sealing) + b9;
    let a7 = le_bytes(a.sealing.len(), 8) + a8;
    let b7 = le_bytes(b.sealing.len(), 8) + b8;
    let a6 = opt_hash(a.reset_authority) + a7;
    let b6 = opt_hash(b.reset_authority) + b7;
    let a5 = seq![a.has_been_shared as u8] + a6;
    let b5 = seq![b.has_been_shared as u8] + b6;
    let a4 = opt_hash(a.prev_snapshot) + a5;
    let b4 = opt_hash(b.prev_snapshot) + b5;
    let a3 = counted(state_bytes(a.state)) + a4;
    let b3 = counted(state_bytes(b.state)) + b4;
    let a2 = depths_bytes(a.frontier_depths) + a3;
    let b2 = depths_bytes(b.frontier_depths) + b3;
    let a1 = le_bytes(a.frontier_depths.len(), 8) + a2;
    let b1 = le_bytes(b.frontier_depths.len(), 8) + b2;
    equal_split(checkpoint_tag(), a1, checkpoint_tag(), b1);
    number_splits(a.frontier_depths.len(), a2, b.frontier_depths.len(), b2, 8);
    depths_split(a.frontier_depths, a3, b.frontier_depths, b3);
    counted_splits(state_bytes(a.state), a4, state_bytes(b.state), b4);
    number_splits(a.state.len(), entries_bytes(a.state), b.state.len(), entries_bytes(b.state), 8);
    assert(entries_bytes(a.state) + e =~= entries_bytes(a.state));
    assert(entries_bytes(b.state) + e =~= entries_bytes(b.state));
    entries_split(a.state, e, b.state, e);
    opt_hash_splits(a.prev_snapshot, a5, b.prev_snapshot, b5);
    equal_split(seq![a.has_been_shared as u8], a6, seq![b.has_been_shared as u8], b6);
    assert(seq![a.has_been_shared as u8][0] == seq![b.has_been_shared as u8][0]);
    opt_hash_splits(a.reset_authority, a7, b.reset_authority, b7);
    number_splits(a.sealing.len(), a8, b.sealing.len(), b8, 8);
    sealing_splits(a.sealing, a9, b.sealing, b9);
    number_splits(a.minting_ops_baseline as nat, a10, b.minting_ops_baseline as nat, b10, 4);
    counted_splits(encode_utf8(a.author), e, encode_utf8(b.author), e);
    utf8_injective(a.author, b.author);
}

} // verus!
