//! What claims say, how strongly it is held, and who is taken to be whom.

use vstd::prelude::*;

use crate::order::{text_before, Desc, Key};
use crate::projection::collect::{
    attests_in, facts, first_of_each, firsts_are_distinct, gathered, has_record, prints_in, ties_in, Facts, TieModel,
};
use crate::projection::kinship::{firsts_is_finite, in_order_lists, slice_is_finite, strong_is_finite};
use crate::projection::laws::{gathered_is_finite, imaged_is_finite};
use crate::projection::record::{is_personal, ordered_pair, parse_tie, tie_of, Claim, ClaimModel, RecordModel, Tie, Two};
use crate::projection::resolve::{
    attesters, clusters, clusters_keep_nodes, cuts, each_edge_is_joined_or_cut, edges, endpoint, identity, nodes, strong, tie_authors,
    tie_score, tie_targets, ties_are_within, Policy,
};
use crate::projection::union_find::merged;
use crate::projection::value::Json;
use crate::sorted::{in_order, least, least_exists};
use crate::tables::{firsts, imaged, slice, tallies, winner};

verus! {

/// The claim is about these two, in whichever order its value names them: `a` is the lesser.
pub open spec fn pairs(v: Json, a: Seq<char>, b: Seq<char>) -> bool {
    text_before(a, b) && (v.get("pair"@) == Some(Json::Array(seq![Json::Text(a), Json::Text(b)])) || v.get("pair"@) == Some(
        Json::Array(seq![Json::Text(b), Json::Text(a)]),
    ))
}

/// The text under this key, or this one where there is none.
pub open spec fn text_or(v: Json, key: Seq<char>, other: Seq<char>) -> Seq<char> {
    match v.get(key) {
        Some(Json::Text(t)) => t,
        _ => other,
    }
}

/// The value has this text under this key.
pub open spec fn has_text(v: Json, key: Seq<char>, t: Seq<char>) -> bool {
    v.get(key) == Some(Json::Text(t))
}

/// The claim says that two anchors are one person.
pub open spec fn says_same(c: ClaimModel, a: Seq<char>, b: Seq<char>) -> bool {
    c.predicate == "openom.org/core/same_as/v1"@ && pairs(c.value, a, b)
}

/// The claim says that two anchors are not one person.
pub open spec fn says_different(c: ClaimModel, a: Seq<char>, b: Seq<char>) -> bool {
    c.predicate == "openom.org/core/different_from/v1"@ && pairs(c.value, a, b)
}

/// The claim says that the one is the other's parent, of this kind; where it names no kind, a biological one.
pub open spec fn says_parent(c: ClaimModel, child: Seq<char>, parent: Seq<char>, kind: Seq<char>) -> bool {
    c.predicate == "openom.org/core/parent/v1"@ && c.target_id == child && has_text(c.value, "parentPersonId"@, parent) && kind
        == text_or(c.value, "kind"@, "biological"@)
}

/// The claim says that the two are partners, in this role; where it names no role, as partners.
pub open spec fn says_partners(c: ClaimModel, a: Seq<char>, b: Seq<char>, role: Seq<char>) -> bool {
    c.predicate == "openom.org/core/partnership/v1"@ && pairs(c.value, a, b) && role == text_or(c.value, "role"@, "partner"@)
}

/// The claim prefers, for what it is about, the content with this reference for this predicate.
pub open spec fn says_preferred(c: ClaimModel, about: Seq<char>, predicate: Seq<char>, content: Seq<char>) -> bool {
    c.predicate == "openom.org/core/preferred/v1"@ && c.target_id == about && has_text(c.value, "for"@, predicate) && has_text(
        c.value,
        "contentRef"@,
        content,
    )
}

/// The claim moves another claim to this person.
pub open spec fn says_moved(c: ClaimModel, claim: Seq<char>, person: Seq<char>) -> bool {
    c.predicate == "openom.org/core/reattribute_to/v1"@ && c.target_id == claim && has_text(c.value, "personId"@, person)
}

/// The claim is an attestation of this claim or fact, with this verdict.
pub open spec fn attests(c: ClaimModel, of: Seq<char>, verdict: Seq<char>) -> bool {
    c.predicate == "openom.org/core/attest/v1"@ && c.target_id == of && has_text(c.value, "verdict"@, verdict)
}

/// The claim ties the first to the second, with this note, under this predicate.
pub open spec fn says(c: ClaimModel, t: TieModel) -> bool {
    let (predicate, (a, (b, note))) = t;
    &&& c.predicate == predicate
    &&& {
        ||| says_same(c, a, b) && note.len() == 0
        ||| says_different(c, a, b) && note.len() == 0
        ||| says_parent(c, a, b, note)
        ||| says_partners(c, a, b, note)
        ||| says_preferred(c, a, b, note)
        ||| says_moved(c, a, b) && note.len() == 0
    }
}

proof fn pairs_are_ordered(v: Json)
    ensures
        forall|a: Seq<char>, b: Seq<char>| #[trigger]
            pairs(v, a, b) <==> crate::projection::record::pair_of(v) == Some((a, b)),
{
    assert forall|a: Seq<char>, b: Seq<char>| #[trigger] pairs(v, a, b) <==> crate::projection::record::pair_of(v) == Some(
        (a, b),
    ) by {
        <String as Key>::before_irreflexive(a);
        if pairs(v, a, b) {
            if text_before(b, a) {
                <String as Key>::before_transitive(a, b, a);
            }
        }
        if crate::projection::record::pair_of(v) == Some((a, b)) {
            let s = v.get("pair"@)->0->Array_0;
            let (x, y) = (s[0]->Text_0, s[1]->Text_0);
            <String as Key>::before_total(x, y);
            assert(s =~= seq![Json::Text(x), Json::Text(y)]);
        }
    }
}

/// The predicates of ties are all different.
pub proof fn predicates_are_apart()
    ensures
        "openom.org/core/same_as/v1"@ != "openom.org/core/different_from/v1"@,
        "openom.org/core/same_as/v1"@ != "openom.org/core/parent/v1"@,
        "openom.org/core/same_as/v1"@ != "openom.org/core/partnership/v1"@,
        "openom.org/core/same_as/v1"@ != "openom.org/core/preferred/v1"@,
        "openom.org/core/same_as/v1"@ != "openom.org/core/reattribute_to/v1"@,
        "openom.org/core/different_from/v1"@ != "openom.org/core/parent/v1"@,
        "openom.org/core/different_from/v1"@ != "openom.org/core/partnership/v1"@,
        "openom.org/core/different_from/v1"@ != "openom.org/core/preferred/v1"@,
        "openom.org/core/different_from/v1"@ != "openom.org/core/reattribute_to/v1"@,
        "openom.org/core/parent/v1"@ != "openom.org/core/partnership/v1"@,
        "openom.org/core/parent/v1"@ != "openom.org/core/preferred/v1"@,
        "openom.org/core/parent/v1"@ != "openom.org/core/reattribute_to/v1"@,
        "openom.org/core/partnership/v1"@ != "openom.org/core/preferred/v1"@,
        "openom.org/core/partnership/v1"@ != "openom.org/core/reattribute_to/v1"@,
        "openom.org/core/preferred/v1"@ != "openom.org/core/reattribute_to/v1"@,
{
    reveal_strlit("openom.org/core/same_as/v1");
    reveal_strlit("openom.org/core/different_from/v1");
    reveal_strlit("openom.org/core/parent/v1");
    reveal_strlit("openom.org/core/partnership/v1");
    reveal_strlit("openom.org/core/preferred/v1");
    reveal_strlit("openom.org/core/reattribute_to/v1");
    let (s, d, p, n, f, r) = (
        "openom.org/core/same_as/v1"@,
        "openom.org/core/different_from/v1"@,
        "openom.org/core/parent/v1"@,
        "openom.org/core/partnership/v1"@,
        "openom.org/core/preferred/v1"@,
        "openom.org/core/reattribute_to/v1"@,
    );
    assert(s[16] == 's' && d[16] == 'd' && p[16] == 'p' && n[16] == 'p' && f[16] == 'p' && r[16] == 'r');
    assert(p[17] == 'a' && n[17] == 'a' && f[17] == 'r');
    assert(p[19] == 'e' && n[19] == 't');
}

/// A claim ties two things exactly as its predicate and its value say, and one that says nothing of the kind ties none.
pub proof fn what_a_claim_ties(c: ClaimModel)
    ensures
        forall|t: TieModel| #[trigger] says(c, t) <==> tie_of(c) == Some(t),
{
    pairs_are_ordered(c.value);
    predicates_are_apart();
    assert forall|t: TieModel| #[trigger] says(c, t) <==> tie_of(c) == Some(t) by {
        let (predicate, (a, (b, note))) = t;
        if note.len() == 0 {
            assert(note =~= Seq::<char>::empty());
        }
        assert(pairs(c.value, a, b) <==> crate::projection::record::pair_of(c.value) == Some((a, b)));
    }
}

/// `parse_tie` reads the tie that a claim says.
pub proof fn a_tie_is_read_as_said(c: Claim, r: Option<Tie>)
    requires
        call_ensures(parse_tie, (&c,), r),
    ensures
        forall|t: TieModel| #[trigger] says(c@, t) <==> (r matches Some(k) && k.model() == t),
{
    what_a_claim_ties(c@);
}

/// The claim is among the records.
pub open spec fn told(d: Seq<RecordModel>, c: ClaimModel) -> bool {
    exists|i: int| 0 <= i < d.len() && #[trigger] d[i] == RecordModel::Claim(c)
}

/// Someone who tells this tie.
pub open spec fn teller(d: Seq<RecordModel>, t: TieModel, who: Seq<char>) -> bool {
    exists|c: ClaimModel| #[trigger] told(d, c) && says(c, t) && c.created_by == who
}

/// This is the id or the fingerprint of a claim that tells this tie.
pub open spec fn refers(d: Seq<RecordModel>, t: TieModel, x: Seq<char>) -> bool {
    exists|c: ClaimModel| #[trigger] told(d, c) && says(c, t) && (c.id == x || c.fingerprint == Some(x))
}

/// Someone who attests this tie with this verdict, by the id or by the fingerprint of a claim that tells it.
pub open spec fn voter(d: Seq<RecordModel>, t: TieModel, verdict: Seq<char>, who: Seq<char>) -> bool {
    exists|c: ClaimModel| #[trigger]
        told(d, c) && attests(c, c.target_id, verdict) && refers(d, t, c.target_id) && c.created_by == who
}

/// Those who tell this tie or support it.
pub open spec fn backers(d: Seq<RecordModel>, t: TieModel) -> Set<Seq<char>> {
    Set::new(|who: Seq<char>| teller(d, t, who) || voter(d, t, "support"@, who))
}

/// Those who reject this tie.
pub open spec fn deniers(d: Seq<RecordModel>, t: TieModel) -> Set<Seq<char>> {
    Set::new(|who: Seq<char>| voter(d, t, "reject"@, who))
}

/// What the claims among the records give.
pub proof fn claims_give<M>(d: Seq<RecordModel>, give: spec_fn(RecordModel) -> Option<M>, m: M)
    requires
        forall|r: RecordModel| r !is Claim ==> #[trigger] give(r) is None,
    ensures
        gathered(d, give).contains(m) <==> exists|c: ClaimModel| #[trigger] told(d, c) && give(RecordModel::Claim(c)) == Some(m),
{
    if gathered(d, give).contains(m) {
        let i = choose|i: int| 0 <= i < d.len() && give(#[trigger] d[i]) == Some(m);
        let c = d[i]->Claim_0;
        assert(d[i] is Claim);
        assert(d[i] == RecordModel::Claim(c));
        assert(told(d, c));
    }
    if exists|c: ClaimModel| #[trigger] told(d, c) && give(RecordModel::Claim(c)) == Some(m) {
        let c = choose|c: ClaimModel| #[trigger] told(d, c) && give(RecordModel::Claim(c)) == Some(m);
        let i = choose|i: int| 0 <= i < d.len() && #[trigger] d[i] == RecordModel::Claim(c);
        assert(give(d[i]) == Some(m));
    }
}

proof fn ties_are_told(d: Seq<RecordModel>, t: TieModel, who: Seq<char>, id: Seq<char>)
    ensures
        facts(d).ties.contains((t, (who, id))) <==> exists|c: ClaimModel| #[trigger]
            told(d, c) && says(c, t) && c.created_by == who && c.id == id,
{
    claims_give(d, ties_in(), (t, (who, id)));
    assert forall|c: ClaimModel| #[trigger] told(d, c) implies ((says(c, t) && c.created_by == who && c.id == id)
        <==> ties_in()(RecordModel::Claim(c)) == Some((t, (who, id)))) by {
        what_a_claim_ties(c);
    }
}

proof fn prints_are_told(d: Seq<RecordModel>, t: TieModel, x: Seq<char>)
    ensures
        facts(d).prints.contains((t, x)) <==> exists|c: ClaimModel| #[trigger]
            told(d, c) && says(c, t) && c.fingerprint == Some(x),
{
    claims_give(d, prints_in(), (t, x));
    assert forall|c: ClaimModel| #[trigger] told(d, c) implies ((says(c, t) && c.fingerprint == Some(x))
        <==> prints_in()(RecordModel::Claim(c)) == Some((t, x))) by {
        what_a_claim_ties(c);
    }
}

proof fn attestations_are_told(d: Seq<RecordModel>, verdict: Seq<char>, of: Seq<char>, who: Seq<char>)
    ensures
        gathered(d, attests_in(verdict)).contains((of, who)) <==> exists|c: ClaimModel| #[trigger]
            told(d, c) && attests(c, of, verdict) && c.created_by == who,
{
    claims_give(d, attests_in(verdict), (of, who));
    assert forall|c: ClaimModel| #[trigger] told(d, c) implies ((attests(c, of, verdict) && c.created_by == who)
        <==> attests_in(verdict)(RecordModel::Claim(c)) == Some((of, who))) by {}
}

proof fn authors_are_tellers(d: Seq<RecordModel>, t: TieModel)
    ensures
        forall|who: Seq<char>| #[trigger] tie_authors(facts(d), t).contains(who) <==> teller(d, t, who),
        tie_authors(facts(d), t).finite(),
        forall|x: Seq<char>| #[trigger] tie_targets(facts(d), t).contains(x) <==> refers(d, t, x),
{
    let f = facts(d);
    assert forall|who: Seq<char>| #[trigger] tie_authors(f, t).contains(who) <==> teller(d, t, who) by {
        if tie_authors(f, t).contains(who) {
            let id = choose|id: Seq<char>| slice(f.ties, t).contains((who, id));
            assert(f.ties.contains((t, (who, id))));
            ties_are_told(d, t, who, id);
        }
        if teller(d, t, who) {
            let c = choose|c: ClaimModel| #[trigger] told(d, c) && says(c, t) && c.created_by == who;
            ties_are_told(d, t, who, c.id);
            assert(slice(f.ties, t).contains((who, c.id)));
        }
    }
    gathered_is_finite(d, ties_in());
    slice_is_finite(f.ties, t);
    firsts_is_finite(slice(f.ties, t));
    assert forall|x: Seq<char>| #[trigger] tie_targets(f, t).contains(x) <==> refers(d, t, x) by {
        prints_are_told(d, t, x);
        if exists|a: Seq<char>| f.ties.contains((t, (a, x))) {
            let a = choose|a: Seq<char>| f.ties.contains((t, (a, x)));
            ties_are_told(d, t, a, x);
        }
        if refers(d, t, x) {
            let c = choose|c: ClaimModel| #[trigger] told(d, c) && says(c, t) && (c.id == x || c.fingerprint == Some(x));
            if c.id == x {
                ties_are_told(d, t, c.created_by, x);
                assert(f.ties.contains((t, (c.created_by, x))));
            }
        }
    }
}

proof fn attesters_are_voters(d: Seq<RecordModel>, t: TieModel, verdict: Seq<char>)
    ensures
        forall|who: Seq<char>| #[trigger]
            attesters(gathered(d, attests_in(verdict)), tie_targets(facts(d), t)).contains(who) <==> voter(d, t, verdict, who),
        attesters(gathered(d, attests_in(verdict)), tie_targets(facts(d), t)).finite(),
{
    let votes = gathered(d, attests_in(verdict));
    let targets = tie_targets(facts(d), t);
    authors_are_tellers(d, t);
    assert forall|who: Seq<char>| #[trigger] attesters(votes, targets).contains(who) <==> voter(d, t, verdict, who) by {
        if attesters(votes, targets).contains(who) {
            let x = choose|x: Seq<char>| targets.contains(x) && #[trigger] votes.contains((x, who));
            attestations_are_told(d, verdict, x, who);
            let c = choose|c: ClaimModel| #[trigger] told(d, c) && attests(c, x, verdict) && c.created_by == who;
            assert(told(d, c) && attests(c, c.target_id, verdict) && refers(d, t, c.target_id));
        }
        if voter(d, t, verdict, who) {
            let c = choose|c: ClaimModel| #[trigger]
                told(d, c) && attests(c, c.target_id, verdict) && refers(d, t, c.target_id) && c.created_by == who;
            attestations_are_told(d, verdict, c.target_id, who);
            assert(targets.contains(c.target_id) && votes.contains((c.target_id, who)));
        }
    }
    gathered_is_finite(d, attests_in(verdict));
    let give = |x: (Seq<char>, Seq<char>)| Some(x.1);
    imaged_is_finite(votes, give);
    assert forall|who: Seq<char>| #[trigger] attesters(votes, targets).contains(who) implies imaged(votes, give).contains(who) by {
        let x = choose|x: Seq<char>| targets.contains(x) && #[trigger] votes.contains((x, who));
        assert(give((x, who)) == Some(who));
    }
    vstd::set_lib::lemma_set_subset_finite(imaged(votes, give), attesters(votes, targets));
}

/// How strongly a tie is held: by as many as tell it or support it, each counted once, less as many as reject it.
pub proof fn how_strongly_a_tie_is_held(d: Seq<RecordModel>, t: TieModel)
    ensures
        backers(d, t).finite(),
        deniers(d, t).finite(),
        tie_score(facts(d), t) == backers(d, t).len() - deniers(d, t).len(),
{
    let f = facts(d);
    authors_are_tellers(d, t);
    attesters_are_voters(d, t, "support"@);
    attesters_are_voters(d, t, "reject"@);
    let a = tie_authors(f, t);
    let s = attesters(f.support, tie_targets(f, t));
    let r = attesters(f.reject, tie_targets(f, t));
    assert(deniers(d, t) =~= r);
    assert(backers(d, t) =~= a.union(s.difference(a)));
    vstd::set_lib::lemma_set_disjoint_lens(a, s.difference(a));
}

/// A tie is held strongly enough where someone tells it and it is held at least as strongly as is asked.
pub proof fn which_ties_are_strong(d: Seq<RecordModel>, predicate: Seq<char>, threshold: i64, t: TieModel)
    ensures
        strong(facts(d), predicate, threshold).contains(t) <==> t.0 == predicate && (exists|who: Seq<char>| teller(d, t, who))
            && backers(d, t).len() - deniers(d, t).len() >= threshold,
{
    let f = facts(d);
    how_strongly_a_tie_is_held(d, t);
    authors_are_tellers(d, t);
    if firsts(f.ties).contains(t) {
        let x = choose|x: (Seq<char>, Seq<char>)| f.ties.contains((t, x));
        assert(f.ties.contains((t, (x.0, x.1))));
        ties_are_told(d, t, x.0, x.1);
        let c = choose|c: ClaimModel| #[trigger] told(d, c) && says(c, t) && c.created_by == x.0 && c.id == x.1;
        assert(teller(d, t, x.0));
    }
    if exists|who: Seq<char>| teller(d, t, who) {
        let who = choose|who: Seq<char>| teller(d, t, who);
        let c = choose|c: ClaimModel| #[trigger] told(d, c) && says(c, t) && c.created_by == who;
        ties_are_told(d, t, who, c.id);
        assert(f.ties.contains((t, (who, c.id))));
        assert(firsts(f.ties).contains(t));
    }
}

/// Of the values that a set pairs with something, the winner is the one that is paired with most things; of several, the
/// least; and there is one wherever the set is not empty.
pub proof fn the_most_paired_wins<B>(s: Set<(Seq<char>, B)>)
    requires
        s.finite(),
    ensures
        match winner::<String, B>(s) {
            Some(a) => (exists|b: B| s.contains((a, b))) && forall|o: Seq<char>, b: B| #[trigger]
                s.contains((o, b)) ==> o == a || slice(s, o).len() < slice(s, a).len() || slice(s, o).len() == slice(s, a).len()
                    && text_before(a, o),
            None => forall|o: Seq<char>, b: B| !#[trigger] s.contains((o, b)),
        },
{
    let heads = firsts(s);
    firsts_is_finite(s);
    let give = |a: Seq<char>| Some((slice(s, a).len() as int, a));
    assert(tallies(s) =~= imaged(heads, give));
    imaged_is_finite(heads, give);
    least_exists::<(Desc, String)>(tallies(s));
    match winner::<String, B>(s) {
        Some(a) => {
            let l = least::<(Desc, String)>(tallies(s))->0;
            assert(tallies(s).contains(l));
            let x = choose|x: Seq<char>| #[trigger] heads.contains(x) && give(x) == Some(l);
            assert(heads.contains(a));
            assert forall|o: Seq<char>, b: B| #[trigger] s.contains((o, b)) implies o == a || slice(s, o).len() < slice(s, a).len()
                || slice(s, o).len() == slice(s, a).len() && text_before(a, o) by {
                assert(heads.contains(o));
                let y = (slice(s, o).len() as int, o);
                assert(give(o) == Some(y));
                assert(tallies(s).contains(y));
                assert(l == y || <(Desc, String)>::before(l, y));
            }
        },
        None => {
            assert forall|o: Seq<char>, b: B| !#[trigger] s.contains((o, b)) by {
                if s.contains((o, b)) {
                    assert(heads.contains(o));
                    let y = (slice(s, o).len() as int, o);
                    assert(give(o) == Some(y));
                    assert(tallies(s).contains(y));
                }
            }
        },
    }
}

/// The two are told to be one person, strongly enough.
pub open spec fn held_same(d: Seq<RecordModel>, policy: Policy, a: Seq<char>, b: Seq<char>) -> bool {
    let t = ("openom.org/core/same_as/v1"@, (a, (b, Seq::<char>::empty())));
    (exists|who: Seq<char>| teller(d, t, who)) && backers(d, t).len() - deniers(d, t).len() >= policy.same_as_threshold
}

/// The two are told not to be one person, strongly enough.
pub open spec fn held_different(d: Seq<RecordModel>, policy: Policy, a: Seq<char>, b: Seq<char>) -> bool {
    let t = ("openom.org/core/different_from/v1"@, (a, (b, Seq::<char>::empty())));
    (exists|who: Seq<char>| teller(d, t, who)) && backers(d, t).len() - deniers(d, t).len() >= policy.different_from_threshold
}

/// A set that holds both or neither of any two that are held to be one person.
pub open spec fn closed(d: Seq<RecordModel>, policy: Policy, s: Set<Seq<char>>) -> bool {
    forall|a: Seq<char>, b: Seq<char>| #[trigger] held_same(d, policy, a, b) ==> (s.contains(a) <==> s.contains(b))
}

/// The identities and the cuts that are applied are those that are held.
pub proof fn edges_are_held(d: Seq<RecordModel>, policy: Policy)
    ensures
        edges(facts(d), policy).finite(),
        forall|a: Seq<char>, b: Seq<char>| #[trigger]
            held_same(d, policy, a, b) <==> exists|n: int| #[trigger] edges(facts(d), policy).contains((n, (a, b))),
        forall|a: Seq<char>, b: Seq<char>| #[trigger]
            held_different(d, policy, a, b) <==> cuts(facts(d), policy).contains((a, b)),
{
    let f = facts(d);
    let same = "openom.org/core/same_as/v1"@;
    let different = "openom.org/core/different_from/v1"@;
    let none = Seq::<char>::empty();
    strong_is_finite(d, same, policy.same_as_threshold);
    imaged_is_finite(strong(f, same, policy.same_as_threshold), crate::projection::resolve::edge_of(f));
    assert forall|a: Seq<char>, b: Seq<char>| #[trigger] held_same(d, policy, a, b) <==> exists|n: int| #[trigger]
        edges(f, policy).contains((n, (a, b))) by {
        let t = (same, (a, (b, none)));
        which_ties_are_strong(d, same, policy.same_as_threshold, t);
        if held_same(d, policy, a, b) {
            assert(crate::projection::resolve::edge_of(f)(t) == Some((tie_score(f, t), (a, b))));
            assert(edges(f, policy).contains((tie_score(f, t), (a, b))));
        }
        if exists|n: int| #[trigger] edges(f, policy).contains((n, (a, b))) {
            let n = choose|n: int| #[trigger] edges(f, policy).contains((n, (a, b)));
            let u = choose|u: TieModel| #[trigger]
                strong(f, same, policy.same_as_threshold).contains(u) && crate::projection::resolve::edge_of(f)(u) == Some(
                    (n, (a, b)),
                );
            which_ties_are_strong(d, same, policy.same_as_threshold, u);
            bare_note(d, u);
            assert(u == t);
        }
    }
    assert forall|a: Seq<char>, b: Seq<char>| #[trigger] held_different(d, policy, a, b) <==> cuts(f, policy).contains((a, b)) by {
        let t = (different, (a, (b, none)));
        which_ties_are_strong(d, different, policy.different_from_threshold, t);
        if held_different(d, policy, a, b) {
            assert(crate::projection::resolve::ends_of()(t) == Some((a, b)));
        }
        if cuts(f, policy).contains((a, b)) {
            let u = choose|u: TieModel| #[trigger]
                strong(f, different, policy.different_from_threshold).contains(u) && crate::projection::resolve::ends_of()(u)
                    == Some((a, b));
            which_ties_are_strong(d, different, policy.different_from_threshold, u);
            bare_note(d, u);
            assert(u == t);
        }
    }
}

proof fn bare_note(d: Seq<RecordModel>, t: TieModel)
    requires
        exists|who: Seq<char>| teller(d, t, who),
        t.0 == "openom.org/core/same_as/v1"@ || t.0 == "openom.org/core/different_from/v1"@,
    ensures
        t == (t.0, (t.1.0, (t.1.1.0, Seq::<char>::empty()))),
{
    predicates_are_apart();
    let who = choose|who: Seq<char>| teller(d, t, who);
    let c = choose|c: ClaimModel| #[trigger] told(d, c) && says(c, t) && c.created_by == who;
    assert(t.1.1.1 =~= Seq::<char>::empty());
}

proof fn clusters_stay_within(
    ns: Set<Seq<char>>,
    es: Seq<(int, (Seq<char>, Seq<char>))>,
    cs: Set<(Seq<char>, Seq<char>)>,
    s: Set<Seq<char>>,
    x: Seq<char>,
    y: Seq<char>,
)
    requires
        forall|i: int| 0 <= i < es.len() ==> ns.contains((#[trigger] es[i]).1.0) && ns.contains(es[i].1.1),
        forall|i: int| 0 <= i < es.len() ==> (s.contains((#[trigger] es[i]).1.0) <==> s.contains(es[i].1.1)),
        ns.contains(x),
        ns.contains(y),
        s.contains(x),
        clusters(ns, es, cs).label[x] == clusters(ns, es, cs).label[y],
    ensures
        s.contains(y),
    decreases es.len(),
{
    if es.len() > 0 {
        let e0 = es.drop_last();
        let was = clusters(ns, e0, cs);
        let e = es.last().1;
        assert(es[es.len() - 1].1 == e);
        assert forall|i: int| 0 <= i < e0.len() implies ns.contains((#[trigger] e0[i]).1.0) && ns.contains(e0[i].1.1) && (
        s.contains(e0[i].1.0) <==> s.contains(e0[i].1.1)) by {
            assert(e0[i] == es[i]);
        }
        clusters_keep_nodes(ns, e0, cs);
        if was.label[x] == was.label[y] {
            clusters_stay_within(ns, e0, cs, s, x, y);
        } else if was.label[x] == was.label[e.0] {
            clusters_stay_within(ns, e0, cs, s, x, e.0);
            clusters_stay_within(ns, e0, cs, s, e.1, y);
        } else {
            clusters_stay_within(ns, e0, cs, s, x, e.1);
            clusters_stay_within(ns, e0, cs, s, e.0, y);
        }
    }
}

/// Who is taken to be whom. Two that are held to be one person are joined, or shown as a conflict because two that are
/// held not to be one person would be joined with them; two that are held not to be one person are not joined; none are
/// joined but such as are held to be one person, directly or through others; and the conflicts shown are of no others.
pub proof fn who_is_taken_to_be_whom(d: Seq<RecordModel>, policy: Policy)
    ensures
        ({
            let n = identity(facts(d), policy);
            &&& n.label.dom() == nodes(facts(d))
            &&& forall|a: Seq<char>, b: Seq<char>| #[trigger]
                held_same(d, policy, a, b) ==> n.label.contains_key(a) && n.label.contains_key(b) && (n.label[a] == n.label[b]
                    || n.skipped.contains((a, b)) && exists|x: Seq<char>, y: Seq<char>| #[trigger]
                    held_different(d, policy, x, y) && ((n.label[x] == n.label[a] && n.label[y] == n.label[b]) || (n.label[x]
                        == n.label[b] && n.label[y] == n.label[a])))
            &&& forall|a: Seq<char>, b: Seq<char>| #[trigger]
                held_different(d, policy, a, b) ==> n.label.contains_key(a) && n.label.contains_key(b) && n.label[a] != n.label[b]
            &&& forall|s: Set<Seq<char>>, x: Seq<char>, y: Seq<char>| #[trigger]
                closed(d, policy, s) && s.contains(x) && n.label.contains_key(x) && n.label.contains_key(y) && #[trigger] n.label[x]
                    == #[trigger] n.label[y] ==> s.contains(y)
            &&& forall|p: (Seq<char>, Seq<char>)| #[trigger] n.skipped.contains(p) ==> held_same(d, policy, p.0, p.1)
        }),
{
    let f = facts(d);
    let n = identity(f, policy);
    let ns = nodes(f);
    let es = in_order::<(Desc, Two)>(edges(f, policy));
    let cs = cuts(f, policy);
    edges_are_held(d, policy);
    in_order_lists::<(Desc, Two)>(edges(f, policy));
    ties_are_within(f, policy);
    clusters_keep_nodes(ns, es, cs);
    assert forall|i: int| 0 <= i < es.len() implies ns.contains((#[trigger] es[i]).1.0) && ns.contains(es[i].1.1) && held_same(
        d,
        policy,
        es[i].1.0,
        es[i].1.1,
    ) by {
        assert(edges(f, policy).contains((es[i].0, (es[i].1.0, es[i].1.1))));
    }
    each_edge_is_joined_or_cut(ns, es, cs);
    assert forall|a: Seq<char>, b: Seq<char>| #[trigger] held_same(d, policy, a, b) implies ordered_pair(a, b) == (a, b) by {
        same_is_ordered(d, policy, a, b);
    }
    assert forall|a: Seq<char>, b: Seq<char>| #[trigger] held_same(d, policy, a, b) implies n.label.contains_key(a)
        && n.label.contains_key(b) && (n.label[a] == n.label[b] || n.skipped.contains((a, b)) && exists|
        x: Seq<char>,
        y: Seq<char>,
    | #[trigger]
        held_different(d, policy, x, y) && ((n.label[x] == n.label[a] && n.label[y] == n.label[b]) || (n.label[x] == n.label[b]
            && n.label[y] == n.label[a]))) by {
        let k = choose|k: int| #[trigger] edges(f, policy).contains((k, (a, b)));
        assert(es.contains((k, (a, b))));
        let i = choose|i: int| 0 <= i < es.len() && es[i] == (k, (a, b));
        assert(es[i].1 == (a, b));
        if n.label[a] != n.label[b] {
            let cut = choose|cut: (Seq<char>, Seq<char>)|
                cs.contains(cut) && #[trigger] crate::projection::resolve::joins(n.label, cut, n.label[a], n.label[b]);
            assert(held_different(d, policy, cut.0, cut.1));
        }
    }
    assert forall|a: Seq<char>, b: Seq<char>| #[trigger] held_different(d, policy, a, b) implies n.label.contains_key(a)
        && n.label.contains_key(b) && n.label[a] != n.label[b] by {
        assert(cs.contains((a, b)));
        different_is_apart(d, policy, a, b);
        crate::projection::resolve::cuts_are_kept(ns, es, cs, (a, b));
    }
    assert forall|s: Set<Seq<char>>, x: Seq<char>, y: Seq<char>| #[trigger]
        closed(d, policy, s) && s.contains(x) && n.label.contains_key(x) && n.label.contains_key(y) && #[trigger] n.label[x]
            == #[trigger] n.label[y] implies s.contains(y) by {
        assert forall|i: int| 0 <= i < es.len() implies (s.contains((#[trigger] es[i]).1.0) <==> s.contains(es[i].1.1)) by {
            assert(held_same(d, policy, es[i].1.0, es[i].1.1));
        }
        clusters_stay_within(ns, es, cs, s, x, y);
    }
    assert forall|p: (Seq<char>, Seq<char>)| #[trigger] n.skipped.contains(p) implies held_same(d, policy, p.0, p.1) by {
        let i = choose|i: int| 0 <= i < es.len() && ordered_pair((#[trigger] es[i]).1.0, es[i].1.1) == p;
        assert(held_same(d, policy, es[i].1.0, es[i].1.1));
    }
}

proof fn same_is_ordered(d: Seq<RecordModel>, policy: Policy, a: Seq<char>, b: Seq<char>)
    requires
        held_same(d, policy, a, b),
    ensures
        ordered_pair(a, b) == (a, b),
{
    predicates_are_apart();
    let t = ("openom.org/core/same_as/v1"@, (a, (b, Seq::<char>::empty())));
    let who = choose|who: Seq<char>| teller(d, t, who);
    let c = choose|c: ClaimModel| #[trigger] told(d, c) && says(c, t) && c.created_by == who;
    assert(text_before(a, b));
    if text_before(b, a) {
        <String as Key>::before_transitive(a, b, a);
        <String as Key>::before_irreflexive(a);
    }
}

proof fn different_is_apart(d: Seq<RecordModel>, policy: Policy, a: Seq<char>, b: Seq<char>)
    requires
        held_different(d, policy, a, b),
    ensures
        a != b,
{
    predicates_are_apart();
    let t = ("openom.org/core/different_from/v1"@, (a, (b, Seq::<char>::empty())));
    let who = choose|who: Seq<char>| teller(d, t, who);
    let c = choose|c: ClaimModel| #[trigger] told(d, c) && says(c, t) && c.created_by == who;
    assert(text_before(a, b));
    <String as Key>::before_irreflexive(a);
}

/// Of the records with one id the first counts, and the records that count stand in their order.
pub proof fn which_records_count(s: Seq<RecordModel>, r: RecordModel)
    ensures
        first_of_each(Seq::empty()).len() == 0,
        first_of_each(s.push(r)) == (if exists|i: int| 0 <= i < s.len() && (#[trigger] s[i]).id() == r.id() {
            first_of_each(s)
        } else {
            first_of_each(s).push(r)
        }),
{
    let t = s.push(r);
    assert(t.drop_last() =~= s);
    firsts_are_distinct(s);
    assert(has_record(first_of_each(s), r.id()) <==> has_record(s, r.id()));
}

/// By the default policy, what one tells and no one rejects is held strongly enough for everything, and what as many
/// reject as tell or support it is held strongly enough for nothing.
pub proof fn one_voice_is_enough(policy: Policy, d: Seq<RecordModel>, t: TieModel)
    requires
        call_ensures(Policy::default, (), policy),
        exists|who: Seq<char>| teller(d, t, who),
    ensures
        deniers(d, t).len() == 0 ==> strong_for_all(policy, d, t),
        deniers(d, t).len() >= backers(d, t).len() ==> strong_for_none(policy, d, t),
{
    how_strongly_a_tie_is_held(d, t);
    let who = choose|who: Seq<char>| teller(d, t, who);
    assert(backers(d, t).contains(who));
    if backers(d, t).len() == 0 {
        assert(backers(d, t) =~= Set::<Seq<char>>::empty());
    }
    which_ties_are_strong(d, t.0, policy.same_as_threshold, t);
    which_ties_are_strong(d, t.0, policy.different_from_threshold, t);
    which_ties_are_strong(d, t.0, policy.reattribute_threshold, t);
    which_ties_are_strong(d, t.0, policy.preferred_threshold, t);
    which_ties_are_strong(d, t.0, policy.relationship_threshold, t);
}

/// The tie is held strongly enough for everything that the policy asks.
pub open spec fn strong_for_all(policy: Policy, d: Seq<RecordModel>, t: TieModel) -> bool {
    let f = facts(d);
    strong(f, t.0, policy.same_as_threshold).contains(t) && strong(f, t.0, policy.different_from_threshold).contains(t) && strong(
        f,
        t.0,
        policy.reattribute_threshold,
    ).contains(t) && strong(f, t.0, policy.preferred_threshold).contains(t) && strong(f, t.0, policy.relationship_threshold).contains(t)
}

/// The tie is held strongly enough for nothing that the policy asks.
pub open spec fn strong_for_none(policy: Policy, d: Seq<RecordModel>, t: TieModel) -> bool {
    let f = facts(d);
    !strong(f, t.0, policy.same_as_threshold).contains(t) && !strong(f, t.0, policy.different_from_threshold).contains(t) && !strong(
        f,
        t.0,
        policy.reattribute_threshold,
    ).contains(t) && !strong(f, t.0, policy.preferred_threshold).contains(t) && !strong(
        f,
        t.0,
        policy.relationship_threshold,
    ).contains(t)
}

/// The identity that is held most strongly is applied, unless it is between two that are themselves held to be different.
pub proof fn the_strongest_identity_is_applied(d: Seq<RecordModel>, policy: Policy, a: Seq<char>, b: Seq<char>)
    requires
        held_same(d, policy, a, b),
        !held_different(d, policy, a, b),
        !held_different(d, policy, b, a),
        forall|x: Seq<char>, y: Seq<char>| #[trigger]
            held_same(d, policy, x, y) ==> (x, y) == (a, b) || same_by(d, x, y) < same_by(d, a, b) || same_by(d, x, y) == same_by(
                d,
                a,
                b,
            ) && (text_before(a, x) || a == x && text_before(b, y)),
    ensures
        identity(facts(d), policy).label[a] == identity(facts(d), policy).label[b],
{
    let f = facts(d);
    let n = identity(f, policy);
    let ns = nodes(f);
    let es = in_order::<(Desc, Two)>(edges(f, policy));
    let cs = cuts(f, policy);
    edges_are_held(d, policy);
    in_order_lists::<(Desc, Two)>(edges(f, policy));
    ties_are_within(f, policy);
    let k = choose|k: int| #[trigger] edges(f, policy).contains((k, (a, b)));
    assert(es.contains((k, (a, b))));
    let e = es[0];
    assert(edges(f, policy).contains((e.0, (e.1.0, e.1.1))));
    assert(held_same(d, policy, e.1.0, e.1.1));
    scores_are_counted(d, policy, k, a, b);
    scores_are_counted(d, policy, e.0, e.1.0, e.1.1);
    let i = choose|i: int| 0 <= i < es.len() && es[i] == (k, (a, b));
    if i > 0 {
        assert(<(Desc, Two)>::before(es[0], es[i]));
        <String as Key>::before_irreflexive(a);
        <String as Key>::before_irreflexive(b);
        if text_before(a, e.1.0) && text_before(e.1.0, a) {
            <String as Key>::before_transitive(a, e.1.0, a);
        }
        if text_before(b, e.1.1) && text_before(e.1.1, b) {
            <String as Key>::before_transitive(b, e.1.1, b);
        }
    }
    assert(es[0].1 == (a, b));
    assert forall|j: int| 0 <= j < es.len() implies ns.contains((#[trigger] es[j]).1.0) && ns.contains(es[j].1.1) by {
        assert(edges(f, policy).contains(es[j]));
    }
    the_first_is_joined(ns, es, cs, a, b);
}

/// How strongly the two are held to be one person.
pub open spec fn same_by(d: Seq<RecordModel>, a: Seq<char>, b: Seq<char>) -> int {
    let t = ("openom.org/core/same_as/v1"@, (a, (b, Seq::<char>::empty())));
    backers(d, t).len() - deniers(d, t).len()
}

proof fn scores_are_counted(d: Seq<RecordModel>, policy: Policy, k: int, a: Seq<char>, b: Seq<char>)
    requires
        edges(facts(d), policy).contains((k, (a, b))),
    ensures
        k == same_by(d, a, b),
{
    let f = facts(d);
    let same = "openom.org/core/same_as/v1"@;
    let u = choose|u: TieModel| #[trigger]
        strong(f, same, policy.same_as_threshold).contains(u) && crate::projection::resolve::edge_of(f)(u) == Some((k, (a, b)));
    which_ties_are_strong(d, same, policy.same_as_threshold, u);
    bare_note(d, u);
    how_strongly_a_tie_is_held(d, u);
}

proof fn the_first_is_joined(
    ns: Set<Seq<char>>,
    es: Seq<(int, (Seq<char>, Seq<char>))>,
    cs: Set<(Seq<char>, Seq<char>)>,
    a: Seq<char>,
    b: Seq<char>,
)
    requires
        es.len() > 0,
        es[0].1 == (a, b),
        ns.contains(a),
        ns.contains(b),
        !cs.contains((a, b)),
        !cs.contains((b, a)),
        forall|c: (Seq<char>, Seq<char>)| #[trigger] cs.contains(c) ==> ns.contains(c.0) && ns.contains(c.1),
        forall|j: int| 0 <= j < es.len() ==> ns.contains((#[trigger] es[j]).1.0) && ns.contains(es[j].1.1),
    ensures
        clusters(ns, es, cs).label[a] == clusters(ns, es, cs).label[b],
    decreases es.len(),
{
    let e0 = es.drop_last();
    let was = clusters(ns, e0, cs);
    clusters_keep_nodes(ns, e0, cs);
    if es.len() == 1 {
        assert(e0 =~= Seq::empty());
        assert(was.label[a] == a && was.label[b] == b);
        assert(es.last().1 == (a, b));
        if a != b {
            assert forall|cut: (Seq<char>, Seq<char>)| cs.contains(cut) implies !#[trigger] crate::projection::resolve::joins(
                was.label,
                cut,
                a,
                b,
            ) by {
                assert(was.label[cut.0] == cut.0 && was.label[cut.1] == cut.1);
                assert(cut == (cut.0, cut.1));
            }
            assert(clusters(ns, es, cs).label == merged(was.label, a, b));
        }
    } else {
        assert(e0[0] == es[0]);
        assert forall|j: int| 0 <= j < e0.len() implies ns.contains((#[trigger] e0[j]).1.0) && ns.contains(e0[j].1.1) by {
            assert(e0[j] == es[j]);
        }
        the_first_is_joined(ns, e0, cs, a, b);
    }
}

/// The tie has this anchor as one of its ends: either of two that are the same, different, parent and child, or partners;
/// and the new home of what is moved.
pub open spec fn ends_at(t: TieModel, x: Seq<char>) -> bool {
    ||| (t.0 == "openom.org/core/same_as/v1"@ || t.0 == "openom.org/core/different_from/v1"@ || t.0 == "openom.org/core/parent/v1"@ || t.0
        == "openom.org/core/partnership/v1"@) && (t.1.0 == x || t.1.1.0 == x)
    ||| t.0 == "openom.org/core/reattribute_to/v1"@ && t.1.1.0 == x
}

/// The claim is of the kind that only a person has: a name, or a sex, a biography, a medium or a field's value that says
/// which.
pub open spec fn is_of_a_person(c: ClaimModel) -> bool {
    ||| c.predicate == "openom.org/core/name/v1"@
    ||| c.predicate == "openom.org/core/sex/v1"@ && exists|t: Seq<char>| #[trigger] has_text(c.value, "sex"@, t)
    ||| c.predicate == "openom.org/core/biography/v1"@ && exists|t: Seq<char>| #[trigger] has_text(c.value, "text"@, t)
    ||| c.predicate == "openom.org/core/media_link/v1"@ && exists|t: Seq<char>| #[trigger] has_text(c.value, "mediaHash"@, t)
    ||| c.predicate == "openom.org/core/custom/value/v1"@ && c.value.get("value"@) is Some && exists|t: Seq<char>| #[trigger]
        has_text(c.value, "fieldId"@, t)
}

proof fn persons_have_these(c: ClaimModel)
    ensures
        is_personal(c) <==> is_of_a_person(c),
{
    predicates_are_apart();
    reveal_strlit("openom.org/core/sex/v1");
    reveal_strlit("openom.org/core/biography/v1");
    reveal_strlit("openom.org/core/media_link/v1");
    assert("openom.org/core/sex/v1"@.len() != "openom.org/core/biography/v1"@.len());
    assert("openom.org/core/sex/v1"@.len() != "openom.org/core/media_link/v1"@.len());
    assert("openom.org/core/biography/v1"@.len() == 28 && "openom.org/core/media_link/v1"@.len() == 29);
    assert forall|key: Seq<char>, t: Seq<char>| #[trigger] has_text(c.value, key, t) <==> c.value.text_at(key) == Some(t) by {}
    if let Some(t) = c.value.text_at("sex"@) {
        assert(has_text(c.value, "sex"@, t));
    }
    if let Some(t) = c.value.text_at("text"@) {
        assert(has_text(c.value, "text"@, t));
    }
    if let Some(t) = c.value.text_at("mediaHash"@) {
        assert(has_text(c.value, "mediaHash"@, t));
    }
    if let Some(t) = c.value.text_at("fieldId"@) {
        assert(has_text(c.value, "fieldId"@, t));
    }
}

/// Who has a cluster: every person, every anchor at the end of a tie, and everything that is told of as of a person.
pub proof fn who_has_a_cluster(f: Facts, policy: Policy, x: Seq<char>)
    ensures
        identity(f, policy).label.contains_key(x) <==> f.persons.contains(x) || (exists|t: TieModel|
            firsts(f.ties).contains(t) && #[trigger] ends_at(t, x)) || (exists|id: Seq<char>| #[trigger]
            f.claims.contains_key(id) && is_of_a_person(f.claims[id]) && f.claims[id].target_id == x),
{
    ties_are_within(f, policy);
    clusters_keep_nodes(nodes(f), in_order::<(Desc, Two)>(edges(f, policy)), cuts(f, policy));
    assert forall|t: TieModel| #[trigger] ends_at(t, x) <==> endpoint(t, x) by {}
    assert forall|id: Seq<char>| #[trigger] f.claims.contains_key(id) implies (is_personal(f.claims[id]) <==> is_of_a_person(f.claims[id])) by {
        persons_have_these(f.claims[id]);
    }
    if exists|t: TieModel| firsts(f.ties).contains(t) && #[trigger] endpoint(t, x) {
        let t = choose|t: TieModel| firsts(f.ties).contains(t) && #[trigger] endpoint(t, x);
        assert(ends_at(t, x));
    }
    if exists|t: TieModel| firsts(f.ties).contains(t) && #[trigger] ends_at(t, x) {
        let t = choose|t: TieModel| firsts(f.ties).contains(t) && #[trigger] ends_at(t, x);
        assert(endpoint(t, x));
    }
}

} // verus!
