//! Union-find over texts: which node stands for its cluster.

use vstd::prelude::*;

use crate::order::{text_before, text_equal, text_less, Key};
use crate::sorted::{SortedMap, SortedSet};

verus! {

/// How many nodes come before `x`.
spec fn rank(dom: Set<Seq<char>>, x: Seq<char>) -> nat {
    dom.filter(|y: Seq<char>| text_before(y, x)).len()
}

proof fn rank_falls(dom: Set<Seq<char>>, p: Seq<char>, x: Seq<char>)
    requires
        dom.finite(),
        dom.contains(p),
        text_before(p, x),
    ensures
        rank(dom, p) < rank(dom, x),
{
    let a = dom.filter(|y: Seq<char>| text_before(y, p));
    let b = dom.filter(|y: Seq<char>| text_before(y, x));
    <String as Key>::before_irreflexive(p);
    assert(a.insert(p).subset_of(b)) by {
        assert forall|y: Seq<char>| a.insert(p).contains(y) implies b.contains(y) by {
            if y != p {
                <String as Key>::before_transitive(y, p, x);
            }
        }
    }
    vstd::set_lib::lemma_len_subset(a.insert(p), b);
}

/// A forest in which each node points at another of its cluster, the root at itself. The root of a cluster is its
/// least node.
pub struct Uf {
    pub parent: SortedMap<String, String>,
    /// The root of each node.
    pub label: Ghost<Map<Seq<char>, Seq<char>>>,
}

/// What one node's pointer promises: it stays in the cluster, and goes down unless the node is the root.
pub open spec fn node_leads(parent: Map<Seq<char>, String>, label: Map<Seq<char>, Seq<char>>, x: Seq<char>) -> bool {
    &&& label.dom().contains(parent[x]@)
    &&& label[parent[x]@] == label[x]
    &&& parent[x]@ == x || text_before(parent[x]@, x)
    &&& parent[x]@ == x ==> label[x] == x
    &&& label.dom().contains(label[x])
    &&& parent[label[x]]@ == label[x]
    &&& label[x] == x || text_before(label[x], x)
}

/// What the pointers promise: they lead to the labels.
pub open spec fn leads(parent: Map<Seq<char>, String>, label: Map<Seq<char>, Seq<char>>) -> bool {
    &&& label.dom() == parent.dom()
    &&& label.dom().finite()
    &&& forall|x: Seq<char>| label.dom().contains(x) ==> #[trigger] node_leads(parent, label, x)
}

/// The labels once the clusters of two labels are one: the lesser label stands for both.
pub open spec fn merged(label: Map<Seq<char>, Seq<char>>, a: Seq<char>, b: Seq<char>) -> Map<Seq<char>, Seq<char>> {
    let (root, child) = if text_before(a, b) {
        (a, b)
    } else {
        (b, a)
    };
    label.map_values(
        |l: Seq<char>|
            if l == child {
                root
            } else {
                l
            },
    )
}

/// Every node on its own.
pub open spec fn apart(nodes: Set<Seq<char>>) -> Map<Seq<char>, Seq<char>> {
    Map::new(|x: Seq<char>| nodes.contains(x), |x: Seq<char>| x)
}

impl Uf {
    pub open spec fn wf(&self) -> bool {
        self.parent.wf() && leads(self.parent@, self.label@)
    }

    /// Every node on its own.
    pub fn new(nodes: &SortedSet<String>) -> (r: Uf)
        requires
            nodes.wf(),
        ensures
            r.wf(),
            r.label@ == apart(nodes@),
    {
        let mut parent: SortedMap<String, String> = SortedMap::new();
        let mut i: usize = 0;
        proof {
            nodes.facts();
        }
        while i < nodes.items.len()
            invariant
                i <= nodes.items.len(),
                nodes.wf(),
                parent.wf(),
                forall|x: Seq<char>| #[trigger]
                    parent@.contains_key(x) <==> exists|j: int| 0 <= j < i && (#[trigger] nodes.items@[j])@ == x,
                forall|x: Seq<char>| #[trigger] parent@.contains_key(x) ==> parent@[x]@ == x,
            decreases nodes.items.len() - i,
        {
            let ghost before = parent@;
            let ghost n = nodes.items@[i as int]@;
            parent.insert(nodes.items[i].clone(), nodes.items[i].clone());
            proof {
                assert forall|x: Seq<char>| #[trigger]
                    parent@.contains_key(x) <==> exists|j: int| 0 <= j < i + 1 && (#[trigger] nodes.items@[j])@ == x by {
                    if parent@.contains_key(x) {
                        if x == n {
                            assert(nodes.items@[i as int]@ == x);
                        } else {
                            assert(before.contains_key(x));
                            let j = choose|j: int| 0 <= j < i && (#[trigger] nodes.items@[j])@ == x;
                            assert(0 <= j < i + 1);
                        }
                    }
                    if exists|j: int| 0 <= j < i + 1 && (#[trigger] nodes.items@[j])@ == x {
                        let j = choose|j: int| 0 <= j < i + 1 && (#[trigger] nodes.items@[j])@ == x;
                        if j < i {
                            assert(before.contains_key(x));
                        }
                    }
                }
            }
            i = i + 1;
        }
        let ghost label = apart(nodes@);
        proof {
            assert forall|x: Seq<char>| #[trigger] nodes@.contains(x) == parent@.contains_key(x) by {
                if nodes@.contains(x) {
                    let j = choose|j: int| 0 <= j < nodes.items.len() && (#[trigger] nodes.items@[j]).model() == x;
                    assert(nodes.items@[j]@ == x);
                }
                if parent@.contains_key(x) {
                    let j = choose|j: int| 0 <= j < i && (#[trigger] nodes.items@[j])@ == x;
                    assert(nodes@.contains(nodes.items@[j].model()));
                }
            }
            assert(label.dom() =~= nodes@);
            assert(label.dom() =~= parent@.dom());
            assert forall|x: Seq<char>| label.dom().contains(x) implies #[trigger] node_leads(parent@, label, x) by {
                assert(parent@.contains_key(x));
            }
        }
        Uf { parent, label: Ghost(label) }
    }

    /// The root of `x`'s cluster; the nodes on the way then point at it.
    pub fn find(&mut self, x: &String) -> (r: String)
        requires
            old(self).wf(),
            old(self).label@.dom().contains(x@),
        ensures
            final(self).wf(),
            final(self).label@ == old(self).label@,
            r@ == old(self).label@[x@],
    {
        let ghost label = self.label@;
        let ghost dom = label.dom();
        let mut root: String = x.clone();
        loop
            invariant
                self.wf(),
                self.label@ == label,
                dom == label.dom(),
                dom.contains(root@),
                label[root@] == label[x@],
            ensures
                self.wf(),
                self.label@ == label,
                root@ == label[x@],
            decreases rank(dom, root@),
        {
            assert(node_leads(self.parent@, label, root@));
            assert(self.parent@.dom().contains(root@));
            let p: String = match self.parent.get(&root) {
                Some(p) => p.clone(),
                None => {
                    break;
                },
            };
            if text_equal(p.as_str(), root.as_str()) {
                break;
            }
            proof {
                rank_falls(dom, p@, root@);
            }
            root = p;
        }
        let mut cur: String = x.clone();
        while !text_equal(cur.as_str(), root.as_str())
            invariant
                self.wf(),
                self.label@ == label,
                dom == label.dom(),
                dom.contains(x@),
                dom.contains(cur@),
                root@ == label[x@],
                label[cur@] == root@,
            decreases rank(dom, cur@),
        {
            assert(node_leads(self.parent@, label, cur@));
            assert(self.parent@.dom().contains(cur@));
            let next: String = match self.parent.get(&cur) {
                Some(p) => p.clone(),
                None => root.clone(),
            };
            let ghost before = self.parent@;
            let ghost c = cur@;
            proof {
                rank_falls(dom, next@, c);
            }
            self.parent.insert(cur, root.clone());
            proof {
                assert(node_leads(before, label, x@));
                assert(node_leads(before, label, c));
                assert(self.parent@.dom() =~= before.dom());
                assert forall|y: Seq<char>| label.dom().contains(y) implies #[trigger] node_leads(self.parent@, label, y) by {
                    assert(node_leads(before, label, y));
                    assert(node_leads(before, label, label[y]));
                    assert(node_leads(before, label, root@));
                }
            }
            cur = next;
        }
        root
    }

    /// Makes the clusters of `a` and `b` one.
    pub fn union(&mut self, a: &String, b: &String)
        requires
            old(self).wf(),
            old(self).label@.dom().contains(a@),
            old(self).label@.dom().contains(b@),
        ensures
            final(self).wf(),
            final(self).label@ == (if old(self).label@[a@] == old(self).label@[b@] {
                old(self).label@
            } else {
                merged(old(self).label@, old(self).label@[a@], old(self).label@[b@])
            }),
    {
        let ra: String = self.find(a);
        let rb: String = self.find(b);
        if text_equal(ra.as_str(), rb.as_str()) {
            return;
        }
        let ghost label = self.label@;
        let ghost next = merged(label, ra@, rb@);
        let ghost before = self.parent@;
        proof {
            <String as Key>::before_total(ra@, rb@);
            assert(node_leads(before, label, a@));
            assert(node_leads(before, label, b@));
        }
        let (root, child) = if text_less(ra.as_str(), rb.as_str()) {
            (ra, rb)
        } else {
            (rb, ra)
        };
        let ghost (ro, ch) = (root@, child@);
        self.parent.insert(child, root);
        proof {
            assert(self.parent@.dom() =~= before.dom());
            assert(next.dom() =~= label.dom());
            assert(text_before(ro, ch));
            assert forall|y: Seq<char>| next.dom().contains(y) implies #[trigger] node_leads(self.parent@, next, y) by {
                assert(node_leads(before, label, y));
                assert(node_leads(before, label, label[y]));
                assert(node_leads(before, label, ro));
                assert(node_leads(before, label, ch));
                if label[y] == ch && ch != y {
                    <String as Key>::before_transitive(ro, ch, y);
                }
            }
        }
        self.label = Ghost(next);
    }
}

} // verus!
