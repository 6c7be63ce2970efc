//! Who is who: how strongly each tie is held, which anchors are one person, and where a claim belongs.

use vstd::prelude::*;

use crate::order::{text_before, text_equal, Desc, Key};
use crate::projection::collect::{text_map, Collected, Facts, TieModel};
use crate::projection::record::{
    is_personal, ordered_pair, personal, sorted_pair, Claim, ClaimModel, Tie, Two, P_DIFFERENT_FROM, P_PARENT, P_PARTNERSHIP,
    P_REATTRIBUTE, P_SAME_AS,
};
use crate::projection::union_find::{apart, merged, Uf};
use crate::sorted::{in_order, least, models, SortedMap, SortedSet};
use crate::tables::{filter, filter_map, firsts, firsts_of, imaged, opt_model, passing, slice, slice_of};

verus! {

/// How strongly ties have to be held before they take effect.
#[derive(Clone, Copy, Debug, PartialEq, Eq, Structural)]
pub struct Policy {
    /// Before two anchors are merged.
    pub same_as_threshold: i64,
    /// Before two anchors are kept apart.
    pub different_from_threshold: i64,
    /// Before a claim moves to another anchor.
    pub reattribute_threshold: i64,
    /// Before a preference counts.
    pub preferred_threshold: i64,
    /// Before a parent or a partnership is shown.
    pub relationship_threshold: i64,
}

impl Default for Policy {
    /// Every tie takes effect once it is held on balance.
    fn default() -> (r: Policy)
        ensures
            r == (Policy {
                same_as_threshold: 1,
                different_from_threshold: 1,
                reattribute_threshold: 1,
                preferred_threshold: 1,
                relationship_threshold: 1,
            }),
    {
        Policy {
            same_as_threshold: 1,
            different_from_threshold: 1,
            reattribute_threshold: 1,
            preferred_threshold: 1,
            relationship_threshold: 1,
        }
    }
}

/// Who asserts a tie.
pub open spec fn tie_authors(f: Facts, t: TieModel) -> Set<Seq<char>> {
    firsts(slice(f.ties, t))
}

/// What an attestation of a tie may name: a claim that asserts it, or a fingerprint under which it is told.
pub open spec fn tie_targets(f: Facts, t: TieModel) -> Set<Seq<char>> {
    Set::new(
        |x: Seq<char>|
            (exists|a: Seq<char>| f.ties.contains((t, (a, x)))) || f.prints.contains((t, x)),
    )
}

/// Who attests one of the targets.
pub open spec fn attesters(votes: Set<(Seq<char>, Seq<char>)>, targets: Set<Seq<char>>) -> Set<Seq<char>> {
    Set::new(|a: Seq<char>| exists|x: Seq<char>| targets.contains(x) && #[trigger] votes.contains((x, a)))
}

/// How strongly a tie is held: its authors and the others who support it, less those who reject it.
pub open spec fn tie_score(f: Facts, t: TieModel) -> int {
    let targets = tie_targets(f, t);
    tie_authors(f, t).len() + attesters(f.support, targets).difference(tie_authors(f, t)).len() - attesters(
        f.reject,
        targets,
    ).len()
}

fn targets_of(c: &Collected, held: &SortedSet<Two>, t: &Tie) -> (r: SortedSet<String>)
    requires
        c.wf(),
        held.wf(),
        held@ == slice(c.facts().ties, t.model()),
    ensures
        r.wf(),
        r@ == tie_targets(c.facts(), t.model()),
{
    let ghost f = c.facts();
    let ghost m = t.model();
    let ghost give = |x: (Seq<char>, Seq<char>)| Some(x.1);
    let id_of = |x: &Two| -> (l: Option<String>)
        ensures
            opt_model(l) == give(x.model()),
    {
        Some(x.1.clone())
    };
    let mut r: SortedSet<String> = filter_map(held, id_of, Ghost(give));
    let ghost ids = r@;
    proof {
        assert forall|x: Seq<char>| #[trigger] ids.contains(x) <==> exists|a: Seq<char>| f.ties.contains((m, (a, x))) by {
            if ids.contains(x) {
                let p = choose|p: (Seq<char>, Seq<char>)| #[trigger] held@.contains(p) && give(p) == Some(x);
                assert(f.ties.contains((m, (p.0, x))));
            }
            if exists|a: Seq<char>| f.ties.contains((m, (a, x))) {
                let a = choose|a: Seq<char>| f.ties.contains((m, (a, x)));
                assert(held@.contains((a, x)) && give((a, x)) == Some(x));
            }
        }
    }
    let prints: SortedSet<String> = slice_of(&c.prints, t);
    r.extend(&prints);
    assert(r@ =~= tie_targets(f, m));
    r
}

fn attesters_of(votes: &SortedSet<Two>, targets: &SortedSet<String>) -> (r: SortedSet<String>)
    requires
        votes.wf(),
        targets.wf(),
    ensures
        r.wf(),
        r@ == attesters(votes@, targets@),
{
    let ghost give = |x: (Seq<char>, Seq<char>)|
        if targets@.contains(x.0) {
            Some(x.1)
        } else {
            None
        };
    let voter = |x: &Two| -> (l: Option<String>)
        ensures
            opt_model(l) == give(x.model()),
    {
        if targets.contains(&x.0) {
            Some(x.1.clone())
        } else {
            None
        }
    };
    let r = filter_map(votes, voter, Ghost(give));
    proof {
        assert(r@ =~= attesters(votes@, targets@)) by {
            assert forall|a: Seq<char>| r@.contains(a) == attesters(votes@, targets@).contains(a) by {
                if r@.contains(a) {
                    let p = choose|p: (Seq<char>, Seq<char>)| #[trigger] votes@.contains(p) && give(p) == Some(a);
                    assert(votes@.contains((p.0, a)));
                }
                if attesters(votes@, targets@).contains(a) {
                    let x = choose|x: Seq<char>| targets@.contains(x) && #[trigger] votes@.contains((x, a));
                    assert(give((x, a)) == Some(a));
                }
            }
        }
    }
    r
}

/// How strongly a tie is held.
pub fn score(c: &Collected, t: &Tie) -> (r: i128)
    requires
        c.wf(),
    ensures
        r == tie_score(c.facts(), t.model()),
{
    let ghost f = c.facts();
    let held: SortedSet<Two> = slice_of(&c.ties, t);
    let authors: SortedSet<String> = firsts_of(&held);
    let targets: SortedSet<String> = targets_of(c, &held, t);
    let support: SortedSet<String> = attesters_of(&c.support, &targets);
    let reject: SortedSet<String> = attesters_of(&c.reject, &targets);
    let other = |a: &String| -> (b: bool)
        ensures
            b == !authors@.contains(a.model()),
    {
        !authors.contains(a)
    };
    let ghost test = |a: Seq<char>| !authors@.contains(a);
    let independent: SortedSet<String> = filter(&support, other, Ghost(test));
    assert(independent@ =~= support@.difference(authors@));
    authors.len() as i128 + independent.len() as i128 - reject.len() as i128
}

/// The ties of a predicate that are held at least this strongly.
pub open spec fn strong(f: Facts, predicate: Seq<char>, threshold: i64) -> Set<TieModel> {
    passing(firsts(f.ties), |t: TieModel| t.0 == predicate && tie_score(f, t) >= threshold)
}

/// The ties of a predicate that are held at least this strongly.
pub fn strong_ties(c: &Collected, predicate: &str, threshold: i64) -> (r: SortedSet<Tie>)
    requires
        c.wf(),
    ensures
        r.wf(),
        r@ == strong(c.facts(), predicate@, threshold),
{
    let ghost f = c.facts();
    let all: SortedSet<Tie> = firsts_of(&c.ties);
    let ghost test = |t: TieModel| t.0 == predicate@ && tie_score(f, t) >= threshold;
    let holds = |t: &Tie| -> (b: bool)
        ensures
            b == test(t.model()),
    {
        text_equal(t.0.as_str(), predicate) && score(c, t) >= threshold as i128
    };
    let r = filter(&all, holds, Ghost(test));
    assert(r@ =~= strong(f, predicate@, threshold));
    r
}

/// The tie names `x` as a person.
pub open spec fn endpoint(t: TieModel, x: Seq<char>) -> bool {
    ||| (t.0 == P_SAME_AS@ || t.0 == P_DIFFERENT_FROM@ || t.0 == P_PARENT@ || t.0 == P_PARTNERSHIP@) && (t.1.0 == x || t.1.1.0
        == x)
    ||| t.0 == P_REATTRIBUTE@ && t.1.1.0 == x
}

/// Everything that takes part as a person: person anchors, the ends of ties, and the targets of personal claims.
pub open spec fn nodes(f: Facts) -> Set<Seq<char>> {
    Set::new(
        |x: Seq<char>|
            f.persons.contains(x) || (exists|t: TieModel| firsts(f.ties).contains(t) && #[trigger] endpoint(t, x)) || (exists|
                id: Seq<char>,
            | #[trigger]
                f.claims.contains_key(id) && is_personal(f.claims[id]) && f.claims[id].target_id == x),
    )
}

fn nodes_of(c: &Collected) -> (r: SortedSet<String>)
    requires
        c.wf(),
    ensures
        r.wf(),
        r@ == nodes(c.facts()),
{
    let ghost f = c.facts();
    let mut r: SortedSet<String> = c.anchors.duplicate();
    let ties: SortedSet<Tie> = firsts_of(&c.ties);
    proof {
        ties.facts();
    }
    let mut i: usize = 0;
    while i < ties.items.len()
        invariant
            i <= ties.items.len(),
            ties.wf(),
            r.wf(),
            f == c.facts(),
            forall|x: Seq<char>| #[trigger]
                r@.contains(x) <==> f.persons.contains(x) || exists|j: int|
                    0 <= j < i && endpoint((#[trigger] ties.items@[j]).model(), x),
        decreases ties.items.len() - i,
    {
        let t = &ties.items[i];
        let ghost before = r@;
        let ghost m = t.model();
        let both = text_equal(t.0.as_str(), P_SAME_AS) || text_equal(t.0.as_str(), P_DIFFERENT_FROM) || text_equal(
            t.0.as_str(),
            P_PARENT,
        ) || text_equal(t.0.as_str(), P_PARTNERSHIP);
        if both {
            r.insert(t.1.0.clone());
            r.insert(t.1.1.0.clone());
        } else if text_equal(t.0.as_str(), P_REATTRIBUTE) {
            r.insert(t.1.1.0.clone());
        }
        proof {
            assert forall|x: Seq<char>| #[trigger]
                r@.contains(x) <==> f.persons.contains(x) || exists|j: int|
                    0 <= j < i + 1 && endpoint((#[trigger] ties.items@[j]).model(), x) by {
                assert(r@.contains(x) == (before.contains(x) || endpoint(m, x)));
                if before.contains(x) && !f.persons.contains(x) {
                    let j = choose|j: int| 0 <= j < i && endpoint((#[trigger] ties.items@[j]).model(), x);
                    assert(0 <= j < i + 1);
                }
                if endpoint(m, x) {
                    assert(endpoint(ties.items@[i as int].model(), x));
                }
                if exists|j: int| 0 <= j < i + 1 && endpoint((#[trigger] ties.items@[j]).model(), x) {
                    let j = choose|j: int| 0 <= j < i + 1 && endpoint((#[trigger] ties.items@[j]).model(), x);
                    if j < i {
                        assert(before.contains(x));
                    }
                }
            }
        }
        i = i + 1;
    }
    let ghost tied = r@;
    proof {
        assert forall|x: Seq<char>| #[trigger] tied.contains(x) <==> f.persons.contains(x) || exists|t: TieModel|
            firsts(f.ties).contains(t) && #[trigger] endpoint(t, x) by {
            if exists|t: TieModel| firsts(f.ties).contains(t) && #[trigger] endpoint(t, x) {
                let t = choose|t: TieModel| firsts(f.ties).contains(t) && #[trigger] endpoint(t, x);
                assert(ties@.contains(t));
                let j = choose|j: int| 0 <= j < ties.items.len() && (#[trigger] ties.items@[j]).model() == t;
                assert(endpoint(ties.items@[j].model(), x));
            }
            if exists|j: int| 0 <= j < i && endpoint((#[trigger] ties.items@[j]).model(), x) {
                let j = choose|j: int| 0 <= j < i && endpoint((#[trigger] ties.items@[j]).model(), x);
                assert(ties@.contains(ties.items@[j].model()));
            }
        }
        c.claims.facts();
    }
    let mut n: usize = 0;
    while n < c.claims.keys.len()
        invariant
            n <= c.claims.keys.len(),
            c.wf(),
            f == c.facts(),
            r.wf(),
            forall|j: int|
                0 <= j < c.claims.keys.len() ==> c.claims@.contains_key((#[trigger] c.claims.keys@[j]).model()) && c.claims@[c.claims.keys@[j].model()]
                    == c.claims.values@[j],
            forall|x: Seq<char>| #[trigger]
                r@.contains(x) <==> tied.contains(x) || exists|j: int|
                    0 <= j < n && is_personal((#[trigger] c.claims.values@[j])@) && c.claims.values@[j]@.target_id == x,
        decreases c.claims.keys.len() - n,
    {
        let claim: &Claim = c.claims.values[n];
        let ghost before = r@;
        if personal(claim) {
            r.insert(claim.target_id.clone());
        }
        proof {
            assert forall|x: Seq<char>| #[trigger]
                r@.contains(x) <==> tied.contains(x) || exists|j: int|
                    0 <= j < n + 1 && is_personal((#[trigger] c.claims.values@[j])@) && c.claims.values@[j]@.target_id == x by {
                if before.contains(x) && !tied.contains(x) {
                    let j = choose|j: int|
                        0 <= j < n && is_personal((#[trigger] c.claims.values@[j])@) && c.claims.values@[j]@.target_id == x;
                    assert(0 <= j < n + 1);
                }
                if is_personal(claim@) && claim@.target_id == x {
                    assert(c.claims.values@[n as int]@ == claim@);
                }
                if exists|j: int|
                    0 <= j < n + 1 && is_personal((#[trigger] c.claims.values@[j])@) && c.claims.values@[j]@.target_id == x {
                    let j = choose|j: int|
                        0 <= j < n + 1 && is_personal((#[trigger] c.claims.values@[j])@) && c.claims.values@[j]@.target_id == x;
                    if j < n {
                        assert(before.contains(x));
                    }
                }
            }
        }
        n = n + 1;
    }
    proof {
        c.claims.facts();
        assert forall|x: Seq<char>| r@.contains(x) == nodes(f).contains(x) by {
            if exists|j: int| 0 <= j < n && is_personal((#[trigger] c.claims.values@[j])@) && c.claims.values@[j]@.target_id == x {
                let j = choose|j: int|
                    0 <= j < n && is_personal((#[trigger] c.claims.values@[j])@) && c.claims.values@[j]@.target_id == x;
                let id = c.claims.keys@[j].model();
                assert(c.claims@.contains_key(id));
                assert(f.claims.contains_key(id) && f.claims[id] == c.claims.values@[j]@);
            }
            if exists|id: Seq<char>| #[trigger]
                f.claims.contains_key(id) && is_personal(f.claims[id]) && f.claims[id].target_id == x {
                let id = choose|id: Seq<char>| #[trigger]
                    f.claims.contains_key(id) && is_personal(f.claims[id]) && f.claims[id].target_id == x;
                assert(c.claims@.contains_key(id));
                let j = choose|j: int| 0 <= j < c.claims.keys.len() && (#[trigger] c.claims.keys@[j]).model() == id;
                assert(c.claims.values@[j]@ == f.claims[id]);
            }
        }
        assert(r@ =~= nodes(f));
    }
    r
}

/// Nodes under their labels, and the pairs that were kept apart.
#[verifier::ext_equal]
pub struct Clusters {
    pub label: Map<Seq<char>, Seq<char>>,
    pub skipped: Set<(Seq<char>, Seq<char>)>,
}

/// Merging the clusters of these labels would bring the two ends of the cut together.
pub open spec fn joins(label: Map<Seq<char>, Seq<char>>, cut: (Seq<char>, Seq<char>), a: Seq<char>, b: Seq<char>) -> bool {
    (label[cut.0] == a && label[cut.1] == b) || (label[cut.0] == b && label[cut.1] == a)
}

/// The clusters after one more edge: its ends become one cluster, unless a cut forbids that.
pub open spec fn admit_edge(s: Clusters, cuts: Set<(Seq<char>, Seq<char>)>, e: (Seq<char>, Seq<char>)) -> Clusters {
    let a = s.label[e.0];
    let b = s.label[e.1];
    if a == b {
        s
    } else if exists|cut: (Seq<char>, Seq<char>)| cuts.contains(cut) && #[trigger] joins(s.label, cut, a, b) {
        Clusters { skipped: s.skipped.insert(ordered_pair(e.0, e.1)), ..s }
    } else {
        Clusters { label: merged(s.label, a, b), ..s }
    }
}

/// The clusters after the edges, in their order.
pub open spec fn clusters(
    nodes: Set<Seq<char>>,
    edges: Seq<(int, (Seq<char>, Seq<char>))>,
    cuts: Set<(Seq<char>, Seq<char>)>,
) -> Clusters
    decreases edges.len(),
{
    if edges.len() == 0 {
        Clusters { label: apart(nodes), skipped: Set::empty() }
    } else {
        admit_edge(clusters(nodes, edges.drop_last(), cuts), cuts, edges.last().1)
    }
}

/// Every edge and cut is between nodes.
pub open spec fn within(nodes: Set<Seq<char>>, edges: Set<(int, (Seq<char>, Seq<char>))>, cuts: Set<(Seq<char>, Seq<char>)>) -> bool {
    &&& forall|e: (int, (Seq<char>, Seq<char>))| #[trigger]
        edges.contains(e) ==> nodes.contains(e.1.0) && nodes.contains(e.1.1)
    &&& forall|c: (Seq<char>, Seq<char>)| #[trigger] cuts.contains(c) ==> nodes.contains(c.0) && nodes.contains(c.1)
}

/// Merging keeps the nodes.
pub proof fn clusters_keep_nodes(
    nodes: Set<Seq<char>>,
    edges: Seq<(int, (Seq<char>, Seq<char>))>,
    cuts: Set<(Seq<char>, Seq<char>)>,
)
    ensures
        clusters(nodes, edges, cuts).label.dom() == nodes,
    decreases edges.len(),
{
    if edges.len() == 0 {
        assert(apart(nodes).dom() =~= nodes);
    } else {
        let s = clusters(nodes, edges.drop_last(), cuts);
        clusters_keep_nodes(nodes, edges.drop_last(), cuts);
        let e = edges.last().1;
        assert(merged(s.label, s.label[e.0], s.label[e.1]).dom() =~= s.label.dom());
    }
}

/// No cut is ever crossed: the two ends of a cut stay in different clusters.
pub proof fn cuts_are_kept(
    nodes: Set<Seq<char>>,
    edges: Seq<(int, (Seq<char>, Seq<char>))>,
    cuts: Set<(Seq<char>, Seq<char>)>,
    cut: (Seq<char>, Seq<char>),
)
    requires
        cuts.contains(cut),
        cut.0 != cut.1,
        nodes.contains(cut.0),
        nodes.contains(cut.1),
    ensures
        clusters(nodes, edges, cuts).label[cut.0] != clusters(nodes, edges, cuts).label[cut.1],
    decreases edges.len(),
{
    if edges.len() > 0 {
        let s = clusters(nodes, edges.drop_last(), cuts);
        cuts_are_kept(nodes, edges.drop_last(), cuts, cut);
        clusters_keep_nodes(nodes, edges.drop_last(), cuts);
        let e = edges.last().1;
        let (a, b) = (s.label[e.0], s.label[e.1]);
        if a != b && !(exists|c: (Seq<char>, Seq<char>)| cuts.contains(c) && #[trigger] joins(s.label, c, a, b)) {
            assert(!joins(s.label, cut, a, b));
        }
    }
}

/// A cut stands between the clusters of these two nodes.
pub open spec fn cut_between(
    label: Map<Seq<char>, Seq<char>>,
    cuts: Set<(Seq<char>, Seq<char>)>,
    x: Seq<char>,
    y: Seq<char>,
) -> bool {
    exists|cut: (Seq<char>, Seq<char>)| cuts.contains(cut) && #[trigger] joins(label, cut, label[x], label[y])
}

/// Each edge is joined, or is skipped because of a cut; and nothing else is skipped.
pub proof fn each_edge_is_joined_or_cut(
    nodes: Set<Seq<char>>,
    edges: Seq<(int, (Seq<char>, Seq<char>))>,
    cuts: Set<(Seq<char>, Seq<char>)>,
)
    requires
        forall|i: int| 0 <= i < edges.len() ==> nodes.contains((#[trigger] edges[i]).1.0) && nodes.contains(edges[i].1.1),
        forall|c: (Seq<char>, Seq<char>)| #[trigger] cuts.contains(c) ==> nodes.contains(c.0) && nodes.contains(c.1),
    ensures
        ({
            let s = clusters(nodes, edges, cuts);
            &&& forall|i: int|
                0 <= i < edges.len() ==> s.label[(#[trigger] edges[i]).1.0] == s.label[edges[i].1.1] || (s.skipped.contains(
                    ordered_pair(edges[i].1.0, edges[i].1.1),
                ) && cut_between(s.label, cuts, edges[i].1.0, edges[i].1.1))
            &&& forall|p: (Seq<char>, Seq<char>)| #[trigger]
                s.skipped.contains(p) ==> exists|i: int|
                    0 <= i < edges.len() && ordered_pair((#[trigger] edges[i]).1.0, edges[i].1.1) == p
        }),
    decreases edges.len(),
{
    if edges.len() > 0 {
        let e0 = edges.drop_last();
        let was = clusters(nodes, e0, cuts);
        let s = clusters(nodes, edges, cuts);
        let n = edges.len() - 1;
        let e = edges.last().1;
        assert(edges[n].1 == e);
        assert forall|i: int| 0 <= i < e0.len() implies nodes.contains((#[trigger] e0[i]).1.0) && nodes.contains(e0[i].1.1) by {
            assert(e0[i] == edges[i]);
        }
        clusters_keep_nodes(nodes, e0, cuts);
        each_edge_is_joined_or_cut(nodes, e0, cuts);
        assert forall|x: Seq<char>, y: Seq<char>| nodes.contains(x) && nodes.contains(y) && was.label[x] == was.label[y] implies
            #[trigger] s.label[x] == #[trigger] s.label[y] by {}
        assert forall|i: int| 0 <= i < edges.len() implies s.label[(#[trigger] edges[i]).1.0] == s.label[edges[i].1.1] || (
        s.skipped.contains(ordered_pair(edges[i].1.0, edges[i].1.1)) && cut_between(s.label, cuts, edges[i].1.0, edges[i].1.1)) by {
            let (x, y) = edges[i].1;
            if i < n {
                assert(e0[i] == edges[i]);
                if was.label[x] != was.label[y] {
                    let cut = choose|cut: (Seq<char>, Seq<char>)|
                        cuts.contains(cut) && #[trigger] joins(was.label, cut, was.label[x], was.label[y]);
                    assert(joins(s.label, cut, s.label[x], s.label[y]));
                }
            } else if exists|cut: (Seq<char>, Seq<char>)| cuts.contains(cut) && #[trigger]
                joins(was.label, cut, was.label[x], was.label[y]) {
                let cut = choose|cut: (Seq<char>, Seq<char>)|
                    cuts.contains(cut) && #[trigger] joins(was.label, cut, was.label[x], was.label[y]);
                assert(joins(s.label, cut, s.label[x], s.label[y]));
            }
        }
        assert forall|p: (Seq<char>, Seq<char>)| #[trigger] s.skipped.contains(p) implies exists|i: int|
            0 <= i < edges.len() && ordered_pair((#[trigger] edges[i]).1.0, edges[i].1.1) == p by {
            if was.skipped.contains(p) {
                let i = choose|i: int| 0 <= i < e0.len() && ordered_pair((#[trigger] e0[i]).1.0, e0[i].1.1) == p;
                assert(edges[i] == e0[i]);
            } else {
                assert(ordered_pair(edges[n].1.0, edges[n].1.1) == p);
            }
        }
    }
}

/// The label of a node is the least node of its cluster.
pub proof fn labels_are_least(
    nodes: Set<Seq<char>>,
    edges: Seq<(int, (Seq<char>, Seq<char>))>,
    cuts: Set<(Seq<char>, Seq<char>)>,
    x: Seq<char>,
)
    requires
        nodes.contains(x),
        forall|i: int| 0 <= i < edges.len() ==> nodes.contains((#[trigger] edges[i]).1.0) && nodes.contains(edges[i].1.1),
    ensures
        nodes.contains(clusters(nodes, edges, cuts).label[x]),
        clusters(nodes, edges, cuts).label[clusters(nodes, edges, cuts).label[x]] == clusters(nodes, edges, cuts).label[x],
        clusters(nodes, edges, cuts).label[x] == x || text_before(clusters(nodes, edges, cuts).label[x], x),
    decreases edges.len(),
{
    if edges.len() > 0 {
        let e0 = edges.drop_last();
        let s = clusters(nodes, e0, cuts);
        let e = edges.last().1;
        assert forall|i: int| 0 <= i < e0.len() implies nodes.contains((#[trigger] e0[i]).1.0) && nodes.contains(e0[i].1.1) by {
            assert(e0[i] == edges[i]);
        }
        assert(edges[edges.len() - 1].1 == e);
        clusters_keep_nodes(nodes, e0, cuts);
        labels_are_least(nodes, e0, cuts, x);
        labels_are_least(nodes, e0, cuts, e.0);
        labels_are_least(nodes, e0, cuts, e.1);
        let (a, b) = (s.label[e.0], s.label[e.1]);
        <String as Key>::before_total(a, b);
        let m = merged(s.label, a, b);
        if s.label[x] != x {
            if text_before(a, b) && s.label[x] == b {
                <String as Key>::before_transitive(a, b, x);
            }
            if text_before(b, a) && s.label[x] == a {
                <String as Key>::before_transitive(b, a, x);
            }
        }
    }
}

/// The outcome of clustering.
pub struct Clustering {
    /// The least node of each node's cluster.
    pub rep: SortedMap<String, String>,
    /// The pairs that a cut kept apart.
    pub skipped: SortedSet<Two>,
}

/// Merges the edges, the strongest first and equal ones in ascending order, unless a cut forbids it.
pub fn cluster(nodes: &SortedSet<String>, edges: &SortedSet<(Desc, Two)>, cuts: &SortedSet<Two>) -> (r: Clustering)
    requires
        nodes.wf(),
        edges.wf(),
        cuts.wf(),
        within(nodes@, edges@, cuts@),
    ensures
        r.rep.wf(),
        r.skipped.wf(),
        text_map(r.rep@) == clusters(nodes@, in_order::<(Desc, Two)>(edges@), cuts@).label,
        r.skipped@ == clusters(nodes@, in_order::<(Desc, Two)>(edges@), cuts@).skipped,
{
    let ghost all = models(edges.items@);
    let mut uf: Uf = Uf::new(nodes);
    let mut skipped: SortedSet<Two> = SortedSet::new();
    let mut i: usize = 0;
    proof {
        edges.ordered();
        edges.facts();
        cuts.facts();
        assert(all.take(0) =~= Seq::empty());
    }
    while i < edges.items.len()
        invariant
            i <= edges.items.len(),
            nodes.wf(),
            edges.wf(),
            cuts.wf(),
            within(nodes@, edges@, cuts@),
            all == models(edges.items@),
            forall|j: int| 0 <= j < edges.items.len() ==> edges@.contains((#[trigger] edges.items@[j]).model()),
            uf.wf(),
            skipped.wf(),
            uf.label@ == clusters(nodes@, all.take(i as int), cuts@).label,
            skipped@ == clusters(nodes@, all.take(i as int), cuts@).skipped,
        decreases edges.items.len() - i,
    {
        let ghost here = all.take(i as int);
        let ghost s = clusters(nodes@, here, cuts@);
        let a = &edges.items[i].1.0;
        let b = &edges.items[i].1.1;
        let ghost e = (a@, b@);
        proof {
            assert(all.take(i + 1).drop_last() =~= here);
            assert(all.take(i + 1).last() == edges.items@[i as int].model());
            assert(all.take(i + 1).last().1 == e);
            clusters_keep_nodes(nodes@, here, cuts@);
            assert(edges@.contains(edges.items@[i as int].model()));
        }
        let ra: String = uf.find(a);
        let rb: String = uf.find(b);
        if !text_equal(ra.as_str(), rb.as_str()) {
            if forbidden(&mut uf, cuts, &ra, &rb) {
                let p: Two = sorted_pair(a.as_str(), b.as_str());
                assert(p.model() == ordered_pair(a@, b@));
                skipped.insert(p);
            } else {
                proof {
                    least_labels(uf.parent@, uf.label@, a@);
                    least_labels(uf.parent@, uf.label@, b@);
                }
                uf.union(&ra, &rb);
            }
        }
        assert(clusters(nodes@, all.take(i + 1), cuts@) == admit_edge(s, cuts@, e));
        i = i + 1;
    }
    proof {
        assert(all.take(i as int) =~= all);
        clusters_keep_nodes(nodes@, all, cuts@);
    }
    let rep: SortedMap<String, String> = labels_of(nodes, &mut uf);
    Clustering { rep, skipped }
}

proof fn least_labels(parent: Map<Seq<char>, String>, label: Map<Seq<char>, Seq<char>>, x: Seq<char>)
    requires
        crate::projection::union_find::leads(parent, label),
        label.dom().contains(x),
    ensures
        label.dom().contains(label[x]),
        label[label[x]] == label[x],
{
    assert(crate::projection::union_find::node_leads(parent, label, x));
    assert(crate::projection::union_find::node_leads(parent, label, label[x]));
}

fn forbidden(uf: &mut Uf, cuts: &SortedSet<Two>, ra: &String, rb: &String) -> (r: bool)
    requires
        old(uf).wf(),
        cuts.wf(),
        forall|c: (Seq<char>, Seq<char>)| #[trigger]
            cuts@.contains(c) ==> old(uf).label@.dom().contains(c.0) && old(uf).label@.dom().contains(c.1),
    ensures
        final(uf).wf(),
        final(uf).label@ == old(uf).label@,
        r == exists|cut: (Seq<char>, Seq<char>)| cuts@.contains(cut) && #[trigger] joins(old(uf).label@, cut, ra@, rb@),
{
    let ghost label = uf.label@;
    let mut i: usize = 0;
    proof {
        cuts.facts();
    }
    while i < cuts.items.len()
        invariant
            i <= cuts.items.len(),
            cuts.wf(),
            uf.wf(),
            label == old(uf).label@,
            uf.label@ == label,
            forall|c: (Seq<char>, Seq<char>)| #[trigger]
                cuts@.contains(c) ==> label.dom().contains(c.0) && label.dom().contains(c.1),
            forall|j: int| 0 <= j < cuts.items.len() ==> cuts@.contains((#[trigger] cuts.items@[j]).model()),
            forall|j: int| 0 <= j < i ==> !joins(label, (#[trigger] cuts.items@[j]).model(), ra@, rb@),
        decreases cuts.items.len() - i,
    {
        let ghost c = cuts.items@[i as int].model();
        assert(cuts@.contains(c));
        let rp: String = uf.find(&cuts.items[i].0);
        let rq: String = uf.find(&cuts.items[i].1);
        let along = text_equal(rp.as_str(), ra.as_str()) && text_equal(rq.as_str(), rb.as_str());
        let across = text_equal(rp.as_str(), rb.as_str()) && text_equal(rq.as_str(), ra.as_str());
        assert((along || across) == joins(label, c, ra@, rb@));
        if along || across {
            return true;
        }
        i = i + 1;
    }
    proof {
        cuts.facts();
        assert forall|cut: (Seq<char>, Seq<char>)| cuts@.contains(cut) implies !(#[trigger] joins(label, cut, ra@, rb@)) by {
            let j = choose|j: int| 0 <= j < cuts.items.len() && (#[trigger] cuts.items@[j]).model() == cut;
            assert(!joins(label, cuts.items@[j].model(), ra@, rb@));
        }
    }
    false
}

fn labels_of(nodes: &SortedSet<String>, uf: &mut Uf) -> (r: SortedMap<String, String>)
    requires
        nodes.wf(),
        old(uf).wf(),
        old(uf).label@.dom() == nodes@,
    ensures
        r.wf(),
        text_map(r@) == old(uf).label@,
{
    let ghost label = uf.label@;
    let mut rep: SortedMap<String, String> = SortedMap::new();
    let mut i: usize = 0;
    proof {
        nodes.facts();
    }
    while i < nodes.items.len()
        invariant
            i <= nodes.items.len(),
            nodes.wf(),
            uf.wf(),
            uf.label@ == label,
            label.dom() == nodes@,
            forall|j: int| 0 <= j < nodes.items.len() ==> nodes@.contains((#[trigger] nodes.items@[j]).model()),
            rep.wf(),
            forall|x: Seq<char>| #[trigger]
                rep@.contains_key(x) <==> exists|j: int| 0 <= j < i && (#[trigger] nodes.items@[j]).model() == x,
            forall|x: Seq<char>| #[trigger] rep@.contains_key(x) ==> rep@[x]@ == label[x],
        decreases nodes.items.len() - i,
    {
        let ghost before = rep@;
        let ghost x0 = nodes.items@[i as int].model();
        assert(nodes@.contains(x0));
        let l: String = uf.find(&nodes.items[i]);
        rep.insert(nodes.items[i].clone(), l);
        proof {
            assert forall|x: Seq<char>| #[trigger]
                rep@.contains_key(x) <==> exists|j: int| 0 <= j < i + 1 && (#[trigger] nodes.items@[j]).model() == x by {
                if before.contains_key(x) {
                    let j = choose|j: int| 0 <= j < i && (#[trigger] nodes.items@[j]).model() == x;
                    assert(0 <= j < i + 1);
                }
                if x == x0 {
                    assert(nodes.items@[i as int].model() == x);
                }
                if exists|j: int| 0 <= j < i + 1 && (#[trigger] nodes.items@[j]).model() == x {
                    let j = choose|j: int| 0 <= j < i + 1 && (#[trigger] nodes.items@[j]).model() == x;
                    if j < i {
                        assert(before.contains_key(x));
                    }
                }
            }
        }
        i = i + 1;
    }
    proof {
        nodes.facts();
        assert(text_map(rep@) =~= label) by {
            assert forall|x: Seq<char>| text_map(rep@).dom().contains(x) == label.dom().contains(x) by {
                if nodes@.contains(x) {
                    let j = choose|j: int| 0 <= j < nodes.items.len() && (#[trigger] nodes.items@[j]).model() == x;
                    assert(rep@.contains_key(x));
                }
                if rep@.contains_key(x) {
                    let j = choose|j: int| 0 <= j < i && (#[trigger] nodes.items@[j]).model() == x;
                    assert(nodes@.contains(nodes.items@[j].model()));
                }
            }
            assert forall|x: Seq<char>| text_map(rep@).dom().contains(x) implies text_map(rep@)[x] == label[x] by {
                assert(rep@.contains_key(x));
            }
        }
    }
    rep
}

/// The edge that an identity tie stands for: how strongly it is held, and its two ends.
pub open spec fn edge_of(f: Facts) -> spec_fn(TieModel) -> Option<(int, (Seq<char>, Seq<char>))> {
    |t: TieModel| Some((tie_score(f, t), (t.1.0, t.1.1.0)))
}

/// The two ends of an identity tie.
pub open spec fn ends_of() -> spec_fn(TieModel) -> Option<(Seq<char>, Seq<char>)> {
    |t: TieModel| Some((t.1.0, t.1.1.0))
}

/// A new home for a claim: the claim, how strongly the move is held, and the person.
pub open spec fn home_of(f: Facts) -> spec_fn(TieModel) -> Option<(Seq<char>, (int, Seq<char>))> {
    |t: TieModel| Some((t.1.0, (tie_score(f, t), t.1.1.0)))
}

/// The merges that are held strongly enough.
pub open spec fn edges(f: Facts, policy: Policy) -> Set<(int, (Seq<char>, Seq<char>))> {
    imaged(strong(f, P_SAME_AS@, policy.same_as_threshold), edge_of(f))
}

/// The pairs that are kept apart strongly enough.
pub open spec fn cuts(f: Facts, policy: Policy) -> Set<(Seq<char>, Seq<char>)> {
    imaged(strong(f, P_DIFFERENT_FROM@, policy.different_from_threshold), ends_of())
}

/// Who is who.
#[verifier::ext_equal]
pub struct Identity {
    /// The least node of each node's cluster.
    pub label: Map<Seq<char>, Seq<char>>,
    /// The pairs that a cut kept apart.
    pub skipped: Set<(Seq<char>, Seq<char>)>,
    /// The new homes that claims are given.
    pub homes: Set<(Seq<char>, (int, Seq<char>))>,
}

/// Who is who, by what the records say.
pub open spec fn identity(f: Facts, policy: Policy) -> Identity {
    let c = clusters(nodes(f), in_order::<(Desc, Two)>(edges(f, policy)), cuts(f, policy));
    Identity {
        label: c.label,
        skipped: c.skipped,
        homes: imaged(strong(f, P_REATTRIBUTE@, policy.reattribute_threshold), home_of(f)),
    }
}

/// The person anchors with this label.
pub open spec fn anchors_under(f: Facts, n: Identity, label: Seq<char>) -> Set<Seq<char>> {
    passing(f.persons, |a: Seq<char>| n.label.contains_key(a) && n.label[a] == label)
}

/// The person that `x` belongs to: the least anchor of its cluster, if it has one.
pub open spec fn canon(f: Facts, n: Identity, x: Seq<char>) -> Option<Seq<char>> {
    if n.label.contains_key(x) {
        least::<String>(anchors_under(f, n, n.label[x]))
    } else {
        None
    }
}

/// What a claim is about: its new home, where it was given one, or else its target. Of several homes the one that is
/// held most strongly counts, and the least of equals.
pub open spec fn subject(n: Identity, c: ClaimModel) -> Seq<char> {
    match least::<(Desc, String)>(slice(n.homes, c.id)) {
        Some((_, p)) => p,
        None => c.target_id,
    }
}

/// Who is who.
pub struct Resolved {
    pub rep: SortedMap<String, String>,
    /// The person of each label.
    pub canonical: SortedMap<String, String>,
    pub homes: SortedSet<(String, (Desc, String))>,
    pub skipped: SortedSet<Two>,
}

impl Resolved {
    pub open spec fn identity(&self) -> Identity {
        Identity { label: text_map(self.rep@), skipped: self.skipped@, homes: self.homes@ }
    }

    pub open spec fn wf(&self, f: Facts) -> bool {
        &&& self.rep.wf()
        &&& self.canonical.wf()
        &&& self.homes.wf()
        &&& self.skipped.wf()
        &&& forall|l: Seq<char>| #[trigger]
            self.canonical@.contains_key(l) <==> least::<String>(anchors_under(f, self.identity(), l)) is Some
        &&& forall|l: Seq<char>| #[trigger]
            self.canonical@.contains_key(l) ==> least::<String>(anchors_under(f, self.identity(), l)) == Some(
                self.canonical@[l]@,
            )
    }

    /// The person that `x` belongs to.
    pub fn canon_of(&self, x: &String, Ghost(f): Ghost<Facts>) -> (r: Option<String>)
        requires
            self.wf(f),
        ensures
            opt_model(r) == canon(f, self.identity(), x@),
    {
        match self.rep.get(x) {
            Some(l) => {
                let ghost label = l@;
                assert(self.identity().label.contains_key(x@) && self.identity().label[x@] == label);
                match self.canonical.get(l) {
                    Some(a) => {
                        assert(self.canonical@.contains_key(label));
                        Some(a.clone())
                    },
                    None => {
                        assert(!self.canonical@.contains_key(label));
                        None
                    },
                }
            },
            None => {
                assert(!self.identity().label.contains_key(x@));
                None
            },
        }
    }

    /// What a claim is about.
    pub fn eff_target(&self, c: &Claim, Ghost(f): Ghost<Facts>) -> (r: String)
        requires
            self.wf(f),
        ensures
            r@ == subject(self.identity(), c@),
    {
        let homes: SortedSet<(Desc, String)> = slice_of(&self.homes, &c.id);
        match homes.first() {
            Some(h) => h.1.clone(),
            None => c.target_id.clone(),
        }
    }
}

fn edges_of(c: &Collected, policy: &Policy) -> (r: SortedSet<(Desc, Two)>)
    requires
        c.wf(),
    ensures
        r.wf(),
        r@ == edges(c.facts(), *policy),
{
    let ghost f = c.facts();
    let ties: SortedSet<Tie> = strong_ties(c, P_SAME_AS, policy.same_as_threshold);
    let ghost give = edge_of(f);
    let edge = |t: &Tie| -> (l: Option<(Desc, Two)>)
        ensures
            opt_model(l) == give(t.model()),
    {
        let k: (Desc, Two) = (Desc(score(c, t)), (t.1.0.clone(), t.1.1.0.clone()));
        assert(k.model() == (tie_score(c.facts(), t.model()), (t.1.0@, t.1.1.0@)));
        Some(k)
    };
    filter_map(&ties, edge, Ghost(give))
}

fn cuts_of(c: &Collected, policy: &Policy) -> (r: SortedSet<Two>)
    requires
        c.wf(),
    ensures
        r.wf(),
        r@ == cuts(c.facts(), *policy),
{
    let ties: SortedSet<Tie> = strong_ties(c, P_DIFFERENT_FROM, policy.different_from_threshold);
    let ghost give = ends_of();
    let ends = |t: &Tie| -> (l: Option<Two>)
        ensures
            opt_model(l) == give(t.model()),
    {
        let k: Two = (t.1.0.clone(), t.1.1.0.clone());
        assert(k.model() == (t.1.0@, t.1.1.0@));
        Some(k)
    };
    filter_map(&ties, ends, Ghost(give))
}

fn homes_of(c: &Collected, policy: &Policy) -> (r: SortedSet<(String, (Desc, String))>)
    requires
        c.wf(),
    ensures
        r.wf(),
        r@ == identity(c.facts(), *policy).homes,
{
    let ghost f = c.facts();
    let ties: SortedSet<Tie> = strong_ties(c, P_REATTRIBUTE, policy.reattribute_threshold);
    let ghost give = home_of(f);
    let home = |t: &Tie| -> (l: Option<(String, (Desc, String))>)
        ensures
            opt_model(l) == give(t.model()),
    {
        let k: (String, (Desc, String)) = (t.1.0.clone(), (Desc(score(c, t)), t.1.1.0.clone()));
        assert(k.model() == (t.1.0@, (tie_score(c.facts(), t.model()), t.1.1.0@)));
        Some(k)
    };
    filter_map(&ties, home, Ghost(give))
}

/// The edges and cuts are between nodes.
pub proof fn ties_are_within(f: Facts, policy: Policy)
    ensures
        within(nodes(f), edges(f, policy), cuts(f, policy)),
{
    assert forall|e: (int, (Seq<char>, Seq<char>))| #[trigger] edges(f, policy).contains(e) implies nodes(f).contains(
        e.1.0,
    ) && nodes(f).contains(e.1.1) by {
        let s = strong(f, P_SAME_AS@, policy.same_as_threshold);
        let t = choose|t: TieModel| #[trigger] s.contains(t) && edge_of(f)(t) == Some(e);
        assert(endpoint(t, e.1.0) && endpoint(t, e.1.1));
    }
    assert forall|c: (Seq<char>, Seq<char>)| #[trigger] cuts(f, policy).contains(c) implies nodes(f).contains(c.0) && nodes(
        f,
    ).contains(c.1) by {
        let s = strong(f, P_DIFFERENT_FROM@, policy.different_from_threshold);
        let t = choose|t: TieModel| #[trigger] s.contains(t) && ends_of()(t) == Some(c);
        assert(endpoint(t, c.0) && endpoint(t, c.1));
    }
}

fn canonical_of(c: &Collected, rep: &SortedMap<String, String>, Ghost(n): Ghost<Identity>) -> (r: SortedMap<String, String>)
    requires
        c.wf(),
        rep.wf(),
        n.label == text_map(rep@),
    ensures
        r.wf(),
        forall|l: Seq<char>| #[trigger]
            r@.contains_key(l) <==> least::<String>(anchors_under(c.facts(), n, l)) is Some,
        forall|l: Seq<char>| #[trigger]
            r@.contains_key(l) ==> least::<String>(anchors_under(c.facts(), n, l)) == Some(r@[l]@),
{
    let ghost f = c.facts();
    let mut r: SortedMap<String, String> = SortedMap::new();
    let mut i: usize = 0;
    proof {
        c.anchors.facts();
    }
    while i < c.anchors.items.len()
        invariant
            i <= c.anchors.items.len(),
            c.wf(),
            rep.wf(),
            f == c.facts(),
            n.label == text_map(rep@),
            r.wf(),
            forall|l: Seq<char>| #[trigger]
                r@.contains_key(l) <==> exists|j: int| 0 <= j < i && under(n, (#[trigger] c.anchors.items@[j])@, l),
            forall|l: Seq<char>| #[trigger]
                r@.contains_key(l) ==> exists|j: int|
                    0 <= j < i && under(n, (#[trigger] c.anchors.items@[j])@, l) && r@[l]@ == c.anchors.items@[j]@ && forall|
                        k: int,
                    |
                        0 <= k < j ==> !under(n, (#[trigger] c.anchors.items@[k])@, l),
        decreases c.anchors.items.len() - i,
    {
        let a = &c.anchors.items[i];
        let ghost before = r@;
        match rep.get(a) {
            Some(l) => {
                let ghost label = l@;
                assert(under(n, a@, label));
                assert(forall|m: Seq<char>| under(n, a@, m) ==> m == label);
                if !r.contains_key(l) {
                    r.insert(l.clone(), a.clone());
                    proof {
                        assert forall|m: Seq<char>| #[trigger] r@.contains_key(m) implies exists|j: int|
                            0 <= j < i + 1 && under(n, (#[trigger] c.anchors.items@[j])@, m) && r@[m]@ == c.anchors.items@[j]@
                                && forall|k: int| 0 <= k < j ==> !under(n, (#[trigger] c.anchors.items@[k])@, m) by {
                            if m == label {
                                assert(under(n, c.anchors.items@[i as int]@, m));
                                assert(!before.contains_key(m));
                            } else {
                                assert(before.contains_key(m));
                                let j = choose|j: int|
                                    0 <= j < i && under(n, (#[trigger] c.anchors.items@[j])@, m) && before[m]@
                                        == c.anchors.items@[j]@ && forall|k: int|
                                        0 <= k < j ==> !under(n, (#[trigger] c.anchors.items@[k])@, m);
                                assert(0 <= j < i + 1);
                            }
                        }
                    }
                }
                proof {
                    assert forall|m: Seq<char>| #[trigger] r@.contains_key(m) <==> exists|j: int|
                        0 <= j < i + 1 && under(n, (#[trigger] c.anchors.items@[j])@, m) by {
                        if before.contains_key(m) {
                            let j = choose|j: int| 0 <= j < i && under(n, (#[trigger] c.anchors.items@[j])@, m);
                            assert(0 <= j < i + 1);
                        }
                        if m == label {
                            assert(under(n, c.anchors.items@[i as int]@, m));
                        }
                        if exists|j: int| 0 <= j < i + 1 && under(n, (#[trigger] c.anchors.items@[j])@, m) {
                            let j = choose|j: int| 0 <= j < i + 1 && under(n, (#[trigger] c.anchors.items@[j])@, m);
                            if j < i {
                                assert(before.contains_key(m));
                            }
                        }
                    }
                }
            },
            None => {
                assert(!n.label.contains_key(a@));
                proof {
                    assert forall|m: Seq<char>| #[trigger] r@.contains_key(m) <==> exists|j: int|
                        0 <= j < i + 1 && under(n, (#[trigger] c.anchors.items@[j])@, m) by {
                        if before.contains_key(m) {
                            let j = choose|j: int| 0 <= j < i && under(n, (#[trigger] c.anchors.items@[j])@, m);
                            assert(0 <= j < i + 1);
                        }
                        if exists|j: int| 0 <= j < i + 1 && under(n, (#[trigger] c.anchors.items@[j])@, m) {
                            let j = choose|j: int| 0 <= j < i + 1 && under(n, (#[trigger] c.anchors.items@[j])@, m);
                            assert(j < i);
                        }
                    }
                }
            },
        }
        i = i + 1;
    }
    proof {
        assert forall|l: Seq<char>|
            (#[trigger] r@.contains_key(l) <==> least::<String>(anchors_under(f, n, l)) is Some) && (r@.contains_key(l)
                ==> least::<String>(anchors_under(f, n, l)) == Some(r@[l]@)) by {
            first_is_least(&c.anchors, f, n, l);
            if r@.contains_key(l) {
                let j = choose|j: int|
                    0 <= j < i && under(n, (#[trigger] c.anchors.items@[j])@, l) && r@[l]@ == c.anchors.items@[j]@ && forall|
                        k: int,
                    |
                        0 <= k < j ==> !under(n, (#[trigger] c.anchors.items@[k])@, l);
                anchor_at(&c.anchors, f, n, l, j);
            }
        }
    }
    r
}

/// The anchor has this label.
pub open spec fn under(n: Identity, a: Seq<char>, l: Seq<char>) -> bool {
    n.label.contains_key(a) && n.label[a] == l
}

proof fn first_is_least(anchors: &SortedSet<String>, f: Facts, n: Identity, l: Seq<char>)
    requires
        anchors.wf(),
        anchors@ == f.persons,
    ensures
        least::<String>(anchors_under(f, n, l)) is Some <==> exists|j: int|
            0 <= j < anchors.items.len() && under(n, (#[trigger] anchors.items@[j])@, l),
{
    anchors.facts();
    let s = anchors_under(f, n, l);
    assert(s.subset_of(f.persons));
    vstd::set_lib::lemma_set_subset_finite(f.persons, s);
    crate::sorted::least_exists::<String>(s);
    if exists|j: int| 0 <= j < anchors.items.len() && under(n, (#[trigger] anchors.items@[j])@, l) {
        let j = choose|j: int| 0 <= j < anchors.items.len() && under(n, (#[trigger] anchors.items@[j])@, l);
        assert(f.persons.contains(anchors.items@[j].model()));
        assert(s.contains(anchors.items@[j]@));
    }
    if least::<String>(s) is Some {
        let a = least::<String>(s)->0;
        assert(s.contains(a));
        let j = choose|j: int| 0 <= j < anchors.items.len() && (#[trigger] anchors.items@[j]).model() == a;
        assert(under(n, anchors.items@[j]@, l));
    }
}

proof fn anchor_at(anchors: &SortedSet<String>, f: Facts, n: Identity, l: Seq<char>, j: int)
    requires
        anchors.wf(),
        anchors@ == f.persons,
        0 <= j < anchors.items.len(),
        under(n, anchors.items@[j]@, l),
        forall|k: int| 0 <= k < j ==> !under(n, (#[trigger] anchors.items@[k])@, l),
    ensures
        least::<String>(anchors_under(f, n, l)) == Some(anchors.items@[j]@),
{
    anchors.facts();
    let s = anchors_under(f, n, l);
    assert(s.subset_of(f.persons));
    vstd::set_lib::lemma_set_subset_finite(f.persons, s);
    let a = anchors.items@[j]@;
    assert(f.persons.contains(anchors.items@[j].model()));
    assert forall|m: Seq<char>| #[trigger] s.contains(m) implies a == m || <String as Key>::before(a, m) by {
        let k = choose|k: int| 0 <= k < anchors.items.len() && (#[trigger] anchors.items@[k]).model() == m;
        assert(under(n, anchors.items@[k]@, l));
        if k > j {
            assert(<String as Key>::before(anchors.items@[j].model(), anchors.items@[k].model()));
        }
    }
    crate::sorted::least_is::<String>(s, a);
}

/// Works out who is who.
pub fn resolve(c: &Collected, policy: &Policy) -> (r: Resolved)
    requires
        c.wf(),
    ensures
        r.wf(c.facts()),
        r.identity() == identity(c.facts(), *policy),
{
    let ghost f = c.facts();
    let all: SortedSet<String> = nodes_of(c);
    let e: SortedSet<(Desc, Two)> = edges_of(c, policy);
    let k: SortedSet<Two> = cuts_of(c, policy);
    proof {
        ties_are_within(f, *policy);
    }
    let Clustering { rep, skipped } = cluster(&all, &e, &k);
    let homes: SortedSet<(String, (Desc, String))> = homes_of(c, policy);
    let ghost n = identity(f, *policy);
    let canonical: SortedMap<String, String> = canonical_of(c, &rep, Ghost(n));
    let r = Resolved { rep, canonical, homes, skipped };
    assert(r.identity() =~= n);
    r
}

} // verus!
