//! Names: which of a person's names are the same name, and which is preferred.

use vstd::prelude::*;

use crate::order::{text_equal, Key};
use crate::projection::record::{opt_text, Claim, ClaimModel};
use crate::projection::union_find::{apart, merged, Uf};
use crate::projection::value::{jsons, Json, Value};
use crate::sorted::{least, SortedSet};

verus! {

/// What the claims that are pointed at hold.
pub open spec fn claims_seen(s: Seq<&Claim>) -> Seq<ClaimModel> {
    Seq::new(s.len(), |i: int| s[i]@)
}

/// The texts in a list, in order.
pub open spec fn texts_in(s: Seq<Json>) -> Seq<Seq<char>>
    decreases s.len(),
{
    if s.len() == 0 {
        Seq::empty()
    } else {
        match s.last() {
            Json::Text(t) => texts_in(s.drop_last()).push(t),
            _ => texts_in(s.drop_last()),
        }
    }
}

/// The content references that a name says it is equivalent to.
pub open spec fn equivalents(v: Json) -> Seq<Seq<char>> {
    match v.get("equivalent_to"@) {
        Some(Json::Array(s)) => texts_in(s),
        _ => Seq::empty(),
    }
}

/// The content references that the names have.
pub open spec fn refs(ns: Seq<ClaimModel>) -> Set<Seq<char>> {
    Set::new(|r: Seq<char>| exists|i: int| 0 <= i < ns.len() && (#[trigger] ns[i]).name_ref == Some(r))
}

/// The labels once `own` was joined with each of the others that is a node.
pub open spec fn join_each(label: Map<Seq<char>, Seq<char>>, own: Seq<char>, others: Seq<Seq<char>>) -> Map<Seq<char>, Seq<char>>
    decreases others.len(),
{
    if others.len() == 0 {
        label
    } else {
        let before = join_each(label, own, others.drop_last());
        let e = others.last();
        if label.contains_key(e) && before[own] != before[e] {
            merged(before, before[own], before[e])
        } else {
            before
        }
    }
}

/// The labels of the content references once every name was joined with its equivalents.
pub open spec fn ref_labels(nodes: Set<Seq<char>>, ns: Seq<ClaimModel>) -> Map<Seq<char>, Seq<char>>
    decreases ns.len(),
{
    if ns.len() == 0 {
        apart(nodes)
    } else {
        let before = ref_labels(nodes, ns.drop_last());
        match ns.last().name_ref {
            Some(own) => join_each(before, own, equivalents(ns.last().value)),
            None => before,
        }
    }
}

/// The ids of the names whose content reference has this label.
pub open spec fn ids_labelled(label: Map<Seq<char>, Seq<char>>, ns: Seq<ClaimModel>, l: Seq<char>) -> Set<Seq<char>> {
    Set::new(
        |id: Seq<char>|
            exists|i: int|
                0 <= i < ns.len() && (#[trigger] ns[i]).id == id && ns[i].name_ref is Some && label[ns[i].name_ref->0] == l,
    )
}

/// The class of a name among the names of a person: the least id of those that are the same name.
pub open spec fn class_of(ns: Seq<ClaimModel>, i: int) -> Seq<char> {
    match ns[i].name_ref {
        Some(r) => {
            let label = ref_labels(refs(ns), ns);
            match least::<String>(ids_labelled(label, ns, label[r])) {
                Some(id) => id,
                None => ns[i].id,
            }
        },
        None => ns[i].id,
    }
}

proof fn joins_keep_nodes(label: Map<Seq<char>, Seq<char>>, own: Seq<char>, others: Seq<Seq<char>>)
    ensures
        join_each(label, own, others).dom() == label.dom(),
    decreases others.len(),
{
    if others.len() > 0 {
        joins_keep_nodes(label, own, others.drop_last());
        let before = join_each(label, own, others.drop_last());
        assert(merged(before, before[own], before[others.last()]).dom() =~= before.dom());
    }
}

/// Joining keeps the nodes.
pub proof fn labels_keep_nodes(nodes: Set<Seq<char>>, ns: Seq<ClaimModel>)
    ensures
        ref_labels(nodes, ns).dom() == nodes,
    decreases ns.len(),
{
    if ns.len() == 0 {
        assert(apart(nodes).dom() =~= nodes);
    } else {
        labels_keep_nodes(nodes, ns.drop_last());
        if let Some(own) = ns.last().name_ref {
            joins_keep_nodes(ref_labels(nodes, ns.drop_last()), own, equivalents(ns.last().value));
        }
    }
}

pub fn refs_of(names: &Vec<&Claim>) -> (r: SortedSet<String>)
    ensures
        r.wf(),
        r@ == refs(claims_seen(names@)),
{
    let ghost ns = claims_seen(names@);
    let mut out: SortedSet<String> = SortedSet::new();
    let mut i: usize = 0;
    assert(out@ =~= refs(ns.take(0)));
    while i < names.len()
        invariant
            i <= names.len(),
            ns == claims_seen(names@),
            out.wf(),
            out@ == refs(ns.take(i as int)),
        decreases names.len() - i,
    {
        let ghost before = out@;
        let ghost x = ns[i as int];
        if let Some(r) = &names[i].name_ref {
            out.insert(r.clone());
        }
        proof {
            let now = refs(ns.take(i + 1));
            assert forall|r: Seq<char>| out@.contains(r) == now.contains(r) by {
                if before.contains(r) {
                    let j = choose|j: int| 0 <= j < ns.take(i as int).len() && (#[trigger] ns.take(i as int)[j]).name_ref == Some(r);
                    assert(ns.take(i + 1)[j].name_ref == Some(r));
                }
                if x.name_ref == Some(r) {
                    assert(ns.take(i + 1)[i as int].name_ref == Some(r));
                }
                if now.contains(r) {
                    let j = choose|j: int| 0 <= j < ns.take(i + 1).len() && (#[trigger] ns.take(i + 1)[j]).name_ref == Some(r);
                    if j < i {
                        assert(ns.take(i as int)[j].name_ref == Some(r));
                        assert(before.contains(r));
                    }
                }
            }
            assert(out@ =~= now);
        }
        i = i + 1;
    }
    assert(ns.take(i as int) =~= ns);
    out
}

fn join_all(uf: &mut Uf, nodes: &SortedSet<String>, own: &String, others: &Vec<Value>)
    requires
        old(uf).wf(),
        nodes.wf(),
        old(uf).label@.dom() == nodes@,
        nodes@.contains(own@),
    ensures
        final(uf).wf(),
        final(uf).label@ == join_each(old(uf).label@, own@, texts_in(jsons(others@))),
{
    let ghost label = uf.label@;
    let ghost all = jsons(others@);
    let mut i: usize = 0;
    assert(all.take(0) =~= Seq::<Json>::empty());
    while i < others.len()
        invariant
            i <= others.len(),
            all == jsons(others@),
            nodes.wf(),
            uf.wf(),
            label.dom() == nodes@,
            label == old(uf).label@,
            nodes@.contains(own@),
            uf.label@ == join_each(label, own@, texts_in(all.take(i as int))),
        decreases others.len() - i,
    {
        let ghost done = texts_in(all.take(i as int));
        proof {
            assert(all.take(i + 1).drop_last() =~= all.take(i as int));
            assert(all.take(i + 1).last() == others@[i as int]@);
            joins_keep_nodes(label, own@, done);
        }
        if let Value::Text(e) = &others[i] {
            assert(texts_in(all.take(i + 1)) == done.push(e@));
            assert(done.push(e@).drop_last() =~= done);
            if nodes.contains(e) {
                uf.union(own, e);
            }
        }
        i = i + 1;
    }
    assert(all.take(i as int) =~= all);
}

fn join_names(names: &Vec<&Claim>, nodes: &SortedSet<String>) -> (r: Uf)
    requires
        nodes.wf(),
        nodes@ == refs(claims_seen(names@)),
    ensures
        r.wf(),
        r.label@ == ref_labels(nodes@, claims_seen(names@)),
{
    let ghost ns = claims_seen(names@);
    let mut uf: Uf = Uf::new(nodes);
    let mut i: usize = 0;
    assert(ns.take(0) =~= Seq::<ClaimModel>::empty());
    while i < names.len()
        invariant
            i <= names.len(),
            ns == claims_seen(names@),
            nodes.wf(),
            nodes@ == refs(ns),
            uf.wf(),
            uf.label@ == ref_labels(nodes@, ns.take(i as int)),
        decreases names.len() - i,
    {
        let n: &Claim = names[i];
        proof {
            assert(ns.take(i + 1).drop_last() =~= ns.take(i as int));
            assert(ns.take(i + 1).last() == n@);
            labels_keep_nodes(nodes@, ns.take(i as int));
        }
        if let Some(own) = &n.name_ref {
            assert(ns[i as int].name_ref == Some(own@));
            match n.value.get("equivalent_to") {
                Some(Value::Array(s)) => {
                    join_all(&mut uf, nodes, own, s);
                },
                _ => {
                    assert(equivalents(n@.value) =~= Seq::<Seq<char>>::empty());
                },
            }
        }
        i = i + 1;
    }
    assert(ns.take(i as int) =~= ns);
    uf
}

fn ids_under(names: &Vec<&Claim>, nodes: &SortedSet<String>, uf: &mut Uf, l: &String) -> (r: SortedSet<String>)
    requires
        old(uf).wf(),
        nodes.wf(),
        nodes@ == refs(claims_seen(names@)),
        old(uf).label@.dom() == nodes@,
    ensures
        final(uf).wf(),
        final(uf).label@ == old(uf).label@,
        r.wf(),
        r@ == ids_labelled(old(uf).label@, claims_seen(names@), l@),
{
    let ghost ns = claims_seen(names@);
    let ghost label = uf.label@;
    let mut out: SortedSet<String> = SortedSet::new();
    let mut i: usize = 0;
    assert(out@ =~= ids_labelled(label, ns.take(0), l@));
    while i < names.len()
        invariant
            i <= names.len(),
            ns == claims_seen(names@),
            nodes.wf(),
            nodes@ == refs(ns),
            label == old(uf).label@,
            label.dom() == nodes@,
            uf.wf(),
            uf.label@ == label,
            out.wf(),
            out@ == ids_labelled(label, ns.take(i as int), l@),
        decreases names.len() - i,
    {
        let ghost before = out@;
        let ghost x = ns[i as int];
        let n: &Claim = names[i];
        if let Some(r) = &n.name_ref {
            assert(ns[i as int].name_ref == Some(r@));
            let own: String = uf.find(r);
            if text_equal(own.as_str(), l.as_str()) {
                out.insert(n.id.clone());
            }
        }
        proof {
            let now = ids_labelled(label, ns.take(i + 1), l@);
            assert forall|id: Seq<char>| out@.contains(id) == now.contains(id) by {
                if before.contains(id) {
                    let j = choose|j: int|
                        0 <= j < ns.take(i as int).len() && (#[trigger] ns.take(i as int)[j]).id == id && ns.take(
                            i as int,
                        )[j].name_ref is Some && label[ns.take(i as int)[j].name_ref->0] == l@;
                    assert(ns.take(i + 1)[j] == ns[j]);
                }
                if x.id == id && x.name_ref is Some && label[x.name_ref->0] == l@ {
                    assert(ns.take(i + 1)[i as int] == x);
                }
                if now.contains(id) {
                    let j = choose|j: int|
                        0 <= j < ns.take(i + 1).len() && (#[trigger] ns.take(i + 1)[j]).id == id && ns.take(i + 1)[j].name_ref is Some
                            && label[ns.take(i + 1)[j].name_ref->0] == l@;
                    if j < i {
                        assert(ns.take(i as int)[j] == ns[j]);
                        assert(before.contains(id));
                    }
                }
            }
            assert(out@ =~= now);
        }
        i = i + 1;
    }
    assert(ns.take(i as int) =~= ns);
    out
}

/// The class of each name.
pub fn equiv_classes(names: &Vec<&Claim>) -> (r: Vec<String>)
    ensures
        r@.len() == names@.len(),
        forall|i: int| 0 <= i < r@.len() ==> (#[trigger] r@[i])@ == class_of(claims_seen(names@), i),
{
    let ghost ns = claims_seen(names@);
    let nodes: SortedSet<String> = refs_of(names);
    let mut uf: Uf = join_names(names, &nodes);
    let ghost label = uf.label@;
    proof {
        labels_keep_nodes(nodes@, ns);
    }
    let mut out: Vec<String> = Vec::new();
    let mut i: usize = 0;
    while i < names.len()
        invariant
            i <= names.len(),
            ns == claims_seen(names@),
            nodes.wf(),
            nodes@ == refs(ns),
            label == ref_labels(nodes@, ns),
            label.dom() == nodes@,
            uf.wf(),
            uf.label@ == label,
            out@.len() == i,
            forall|j: int| 0 <= j < i ==> (#[trigger] out@[j])@ == class_of(ns, j),
        decreases names.len() - i,
    {
        let n: &Claim = names[i];
        assert(ns[i as int] == n@);
        match &n.name_ref {
            Some(r) => {
                let own: String = uf.find(r);
                let ids: SortedSet<String> = ids_under(names, &nodes, &mut uf, &own);
                match ids.first() {
                    Some(id) => {
                        out.push(id.clone());
                    },
                    None => {
                        out.push(n.id.clone());
                    },
                }
            },
            None => {
                out.push(n.id.clone());
            },
        }
        i = i + 1;
    }
    out
}

/// The last name that has this content reference.
pub open spec fn named(ns: Seq<ClaimModel>, r: Seq<char>) -> Option<Seq<char>>
    decreases ns.len(),
{
    if ns.len() == 0 {
        None
    } else if ns.last().name_ref == Some(r) {
        Some(ns.last().id)
    } else {
        named(ns.drop_last(), r)
    }
}

/// The last name that has this content reference.
pub fn name_with_ref(names: &Vec<&Claim>, r: &String) -> (id: Option<String>)
    ensures
        opt_text(id) == named(claims_seen(names@), r@),
{
    let ghost ns = claims_seen(names@);
    let mut i: usize = names.len();
    assert(ns.take(i as int) =~= ns);
    while i > 0
        invariant
            i <= names.len(),
            ns == claims_seen(names@),
            named(ns, r@) == named(ns.take(i as int), r@),
        decreases i,
    {
        i = i - 1;
        assert(ns.take(i + 1).drop_last() =~= ns.take(i as int));
        assert(ns.take(i + 1).last() == names@[i as int]@);
        if let Some(own) = &names[i].name_ref {
            if text_equal(own.as_str(), r.as_str()) {
                return Some(names[i].id.clone());
            }
        }
    }
    None
}

} // verus!
