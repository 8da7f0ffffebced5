//! The zone tree: known zones indexed as a labeled tree.
//!
//! Nodes live in an arena vector; node 0 is the root and carries the empty
//! label. Every other node's parent index is strictly smaller than its own,
//! so the structure is acyclic by construction. A parent has at most one
//! child per distinct label, so inserting a domain twice leaves exactly one
//! path. Lookup follows child links label by label; the deepest node reached
//! before the first unmatched label is the delegation boundary.

use vstd::prelude::*;
use crate::domain::{strings_view, Domain};

verus! {

/// One node of the zone tree.
pub struct ZoneNode {
    /// This node's own label; empty only at the root.
    pub label: String,
    /// The index of the parent node; the root is its own parent.
    pub parent: usize,
    /// Indices of the children, in insertion order.
    pub children: Vec<usize>,
}

/// The zone tree itself: an arena of nodes rooted at index 0.
pub struct ZoneTree {
    pub nodes: Vec<ZoneNode>,
}

/// Whether `t2` grew out of `t1` by appending nodes and child links only:
/// every old node keeps its label, parent and child prefix.
pub open spec fn tree_extends(t2: ZoneTree, t1: ZoneTree) -> bool {
    &&& t1.nodes@.len() <= t2.nodes@.len()
    &&& forall|i: int|
        0 <= i < t1.nodes@.len() ==> {
            let a = #[trigger] t1.nodes@[i];
            let b = t2.nodes@[i];
            b.label == a.label && b.parent == a.parent && a.children@.len() <= b.children@.len()
                && b.children@.subrange(0, a.children@.len() as int) == a.children@
        }
}

impl ZoneTree {
    /// The arena invariant: the root exists with an empty label, every
    /// parent link points strictly downward in the arena, every child link
    /// is consistent with its parent, and no two children of one node share
    /// a label.
    pub open spec fn wf(self) -> bool {
        &&& self.nodes@.len() >= 1
        &&& self.nodes@[0].label@ == Seq::<char>::empty()
        &&& self.nodes@[0].parent == 0
        &&& forall|i: int| 1 <= i < self.nodes@.len() ==> (#[trigger] self.nodes@[i].parent) < i
        &&& forall|i: int, j: int|
            #![trigger self.nodes@[i].children@[j]]
            0 <= i < self.nodes@.len() && 0 <= j < self.nodes@[i].children@.len() ==> {
                let c = self.nodes@[i].children@[j] as int;
                0 < c < self.nodes@.len() && self.nodes@[c].parent as int == i
            }
        &&& forall|i: int, j1: int, j2: int|
            #![trigger self.nodes@[i].children@[j1], self.nodes@[i].children@[j2]]
            0 <= i < self.nodes@.len() && 0 <= j1 < self.nodes@[i].children@.len() && 0 <= j2
                < self.nodes@[i].children@.len() && j1 != j2
                ==> self.nodes@[self.nodes@[i].children@[j1] as int].label@
                != self.nodes@[self.nodes@[i].children@[j2] as int].label@
    }

    /// Whether a chain of child links spelling `labels` exists below node `n`.
    pub open spec fn has_path_from(self, n: int, labels: Seq<Seq<char>>) -> bool
        decreases labels.len(),
    {
        labels.len() == 0 || exists|j: int|
            #![trigger self.nodes@[n].children@[j]]
            0 <= j < self.nodes@[n].children@.len() && {
                let c = self.nodes@[n].children@[j] as int;
                self.nodes@[c].label@ == labels[0] && self.has_path_from(c, labels.drop_first())
            }
    }

    /// Whether following child links spelling `labels` from `a` ends at `b`.
    pub open spec fn path_reaches(self, a: int, labels: Seq<Seq<char>>, b: int) -> bool
        decreases labels.len(),
    {
        if labels.len() == 0 {
            a == b
        } else {
            exists|j: int|
                #![trigger self.nodes@[a].children@[j]]
                0 <= j < self.nodes@[a].children@.len() && {
                    let c = self.nodes@[a].children@[j] as int;
                    self.nodes@[c].label@ == labels[0] && self.path_reaches(
                        c,
                        labels.drop_first(),
                        b,
                    )
                }
        }
    }

    /// The first child of `n` at or after position `j` carrying `label`.
    pub open spec fn spec_child_search(self, n: int, label: Seq<char>, j: int) -> Option<int>
        decreases self.nodes@[n].children@.len() - j,
    {
        if j < 0 || j >= self.nodes@[n].children@.len() {
            None
        } else if self.nodes@[self.nodes@[n].children@[j] as int].label@ == label {
            Some(self.nodes@[n].children@[j] as int)
        } else {
            self.spec_child_search(n, label, j + 1)
        }
    }

    /// The child of `n` carrying `label`, if one exists.
    pub open spec fn spec_child_with(self, n: int, label: Seq<char>) -> Option<int> {
        self.spec_child_search(n, label, 0)
    }

    /// The node reached by following `labels` from `n` while matches exist:
    /// the delegation boundary.
    pub open spec fn spec_descend(self, n: int, labels: Seq<Seq<char>>) -> int
        decreases labels.len(),
    {
        if labels.len() == 0 {
            n
        } else {
            match self.spec_child_with(n, labels[0]) {
                Some(c) => self.spec_descend(c, labels.drop_first()),
                None => n,
            }
        }
    }

    /// An empty tree: just the root.
    pub fn new() -> (r: ZoneTree)
        ensures
            r.wf(),
            r.nodes@.len() == 1,
    {
        let mut nodes: Vec<ZoneNode> = Vec::new();
        nodes.push(ZoneNode { label: String::new(), parent: 0, children: Vec::new() });
        ZoneTree { nodes }
    }

    /// How many nodes the tree holds, the root included.
    pub fn node_count(&self) -> (r: usize)
        ensures
            r == self.nodes@.len(),
    {
        self.nodes.len()
    }

    /// The index of the child of `n` whose label equals `label`, if any.
    fn find_child(&self, n: usize, label: &String) -> (r: Option<usize>)
        requires
            self.wf(),
            n < self.nodes@.len(),
        ensures
            match r {
                Some(c) => self.spec_child_with(n as int, label@) == Some(c as int) && 0 < c
                    < self.nodes@.len(),
                None => self.spec_child_with(n as int, label@) is None,
            },
    {
        let node = &self.nodes[n];
        let mut j: usize = 0;
        while j < node.children.len()
            invariant
                self.wf(),
                n < self.nodes@.len(),
                node == self.nodes@[n as int],
                0 <= j <= node.children@.len(),
                self.spec_child_with(n as int, label@) == self.spec_child_search(
                    n as int,
                    label@,
                    j as int,
                ),
            decreases node.children@.len() - j,
        {
            let c = node.children[j];
            if self.nodes[c].label.eq(label) {
                return Some(c);
            }
            j += 1;
        }
        None
    }
}


/// What a found or missing child means from position `j` on: `Some` names
/// an actual child link with the label, `None` says no such child follows.
proof fn lemma_child_search_props(t: ZoneTree, n: int, label: Seq<char>, j: int)
    requires
        0 <= j,
    ensures
        match t.spec_child_search(n, label, j) {
            Some(c) => exists|jj: int|
                #![trigger t.nodes@[n].children@[jj]]
                j <= jj < t.nodes@[n].children@.len() && t.nodes@[n].children@[jj] as int == c
                    && t.nodes@[t.nodes@[n].children@[jj] as int].label@ == label,
            None => forall|jj: int|
                #![trigger t.nodes@[n].children@[jj]]
                j <= jj < t.nodes@[n].children@.len()
                    ==> t.nodes@[t.nodes@[n].children@[jj] as int].label@ != label,
        },
    decreases t.nodes@[n].children@.len() - j,
{
    if j < t.nodes@[n].children@.len()
        && t.nodes@[t.nodes@[n].children@[j] as int].label@ != label {
        lemma_child_search_props(t, n, label, j + 1);
    }
}

/// As [`lemma_child_search_props`], for the whole child list.
proof fn lemma_child_with_props(t: ZoneTree, n: int, label: Seq<char>)
    ensures
        match t.spec_child_with(n, label) {
            Some(c) => exists|jj: int|
                #![trigger t.nodes@[n].children@[jj]]
                0 <= jj < t.nodes@[n].children@.len() && t.nodes@[n].children@[jj] as int == c
                    && t.nodes@[t.nodes@[n].children@[jj] as int].label@ == label,
            None => forall|jj: int|
                #![trigger t.nodes@[n].children@[jj]]
                0 <= jj < t.nodes@[n].children@.len()
                    ==> t.nodes@[t.nodes@[n].children@[jj] as int].label@ != label,
        },
{
    lemma_child_search_props(t, n, label, 0);
}

/// Reaching `b` through `p` and having a path `rest` below `b` gives a path
/// `p + rest` from the start.
proof fn lemma_reaches_then_path(t: ZoneTree, a: int, p: Seq<Seq<char>>, b: int, rest: Seq<
    Seq<char>,
>)
    requires
        t.path_reaches(a, p, b),
        t.has_path_from(b, rest),
    ensures
        t.has_path_from(a, p + rest),
    decreases p.len(),
{
    if p.len() == 0 {
        assert(p + rest =~= rest);
    } else {
        let j = choose|j: int|
            #![trigger t.nodes@[a].children@[j]]
            0 <= j < t.nodes@[a].children@.len() && {
                let c = t.nodes@[a].children@[j] as int;
                t.nodes@[c].label@ == p[0] && t.path_reaches(c, p.drop_first(), b)
            };
        let c = t.nodes@[a].children@[j] as int;
        lemma_reaches_then_path(t, c, p.drop_first(), b, rest);
        assert((p + rest).drop_first() =~= p.drop_first() + rest);
        assert(t.nodes@[a].children@[j] == t.nodes@[a].children@[j]);
        assert(t.has_path_from(a, p + rest));
    }
}

/// One more matched child extends a reach by one label.
proof fn lemma_reaches_snoc(t: ZoneTree, a: int, p: Seq<Seq<char>>, b: int, label: Seq<char>, c: int)
    requires
        t.path_reaches(a, p, b),
        t.spec_child_with(b, label) == Some(c),
    ensures
        t.path_reaches(a, p.push(label), c),
    decreases p.len(),
{
    if p.len() == 0 {
        lemma_child_with_props(t, b, label);
        let j = choose|jj: int|
            #![trigger t.nodes@[b].children@[jj]]
            0 <= jj < t.nodes@[b].children@.len() && t.nodes@[b].children@[jj] as int == c
                && t.nodes@[t.nodes@[b].children@[jj] as int].label@ == label;
        assert(p.push(label)[0] == label);
        assert(p.push(label).drop_first() =~= Seq::<Seq<char>>::empty());
        assert(t.path_reaches(c, p.push(label).drop_first(), c));
        assert(t.nodes@[b].children@[j] == t.nodes@[b].children@[j]);
        assert(t.path_reaches(a, p.push(label), c));
    } else {
        let j = choose|j: int|
            #![trigger t.nodes@[a].children@[j]]
            0 <= j < t.nodes@[a].children@.len() && {
                let d = t.nodes@[a].children@[j] as int;
                t.nodes@[d].label@ == p[0] && t.path_reaches(d, p.drop_first(), b)
            };
        let d = t.nodes@[a].children@[j] as int;
        lemma_reaches_snoc(t, d, p.drop_first(), b, label, c);
        assert(p.push(label).drop_first() =~= p.drop_first().push(label));
        assert(p.push(label)[0] == p[0]);
        assert(t.nodes@[a].children@[j] == t.nodes@[a].children@[j]);
        assert(t.path_reaches(a, p.push(label), c));
    }
}

/// Growing a tree never breaks an existing reach.
proof fn lemma_extends_reaches(t1: ZoneTree, t2: ZoneTree, a: int, p: Seq<Seq<char>>, b: int)
    requires
        t1.wf(),
        tree_extends(t2, t1),
        0 <= a < t1.nodes@.len(),
        t1.path_reaches(a, p, b),
    ensures
        t2.path_reaches(a, p, b),
    decreases p.len(),
{
    if p.len() > 0 {
        let j = choose|j: int|
            #![trigger t1.nodes@[a].children@[j]]
            0 <= j < t1.nodes@[a].children@.len() && {
                let c = t1.nodes@[a].children@[j] as int;
                t1.nodes@[c].label@ == p[0] && t1.path_reaches(c, p.drop_first(), b)
            };
        let c = t1.nodes@[a].children@[j] as int;
        assert(0 < c < t1.nodes@.len());
        lemma_extends_reaches(t1, t2, c, p.drop_first(), b);
        assert(t2.nodes@[a].children@.subrange(0, t1.nodes@[a].children@.len() as int)
            == t1.nodes@[a].children@);
        assert(t2.nodes@[a].children@[j] == t1.nodes@[a].children@[j]);
        assert(t2.nodes@[c].label == t1.nodes@[c].label);
        assert(t2.path_reaches(a, p, b));
    }
}

impl ZoneTree {
    /// Inserts a domain's zones, creating missing nodes top-down. Inserting
    /// a domain whose path already exists leaves the tree unchanged, so
    /// insertion is idempotent and a domain inserted twice still has exactly
    /// one path.
    #[verifier::loop_isolation(false)]
    pub fn insert(&mut self, domain: &Domain)
        requires
            old(self).wf(),
        ensures
            final(self).wf(),
            final(self).has_path_from(0, strings_view(domain.zones)),
            old(self).has_path_from(0, strings_view(domain.zones)) ==> *final(self) == *old(self),
    {
        let ghost zs = strings_view(domain.zones);
        let mut cur: usize = 0;
        let mut k: usize = 0;
        proof {
            assert(zs.take(0) =~= Seq::<Seq<char>>::empty());
            assert(zs.skip(0) =~= zs);
        }
        while k < domain.zones.len()
            invariant
                self.wf(),
                0 <= k <= domain.zones@.len(),
                zs.len() == domain.zones@.len(),
                cur < self.nodes@.len(),
                self.path_reaches(0, zs.take(k as int), cur as int),
                old(self).has_path_from(0, zs) ==> (*self == *old(self) && self.has_path_from(
                    cur as int,
                    zs.skip(k as int),
                )),
            decreases domain.zones@.len() - k,
        {
            let label = &domain.zones[k];
            proof {
                assert(label@ == zs[k as int]);
            }
            match self.find_child(cur, label) {
                Some(c) => {
                    proof {
                        lemma_reaches_snoc(
                            *self,
                            0,
                            zs.take(k as int),
                            cur as int,
                            zs[k as int],
                            c as int,
                        );
                        assert(zs.take(k as int).push(zs[k as int]) =~= zs.take(k + 1));
                        if old(self).has_path_from(0, zs) {
                            let rest = zs.skip(k as int);
                            assert(rest[0] == zs[k as int]);
                            let j = choose|j: int|
                                #![trigger self.nodes@[cur as int].children@[j]]
                                0 <= j < self.nodes@[cur as int].children@.len() && {
                                    let d = self.nodes@[cur as int].children@[j] as int;
                                    self.nodes@[d].label@ == rest[0] && self.has_path_from(
                                        d,
                                        rest.drop_first(),
                                    )
                                };
                            let d = self.nodes@[cur as int].children@[j] as int;
                            lemma_child_with_props(*self, cur as int, zs[k as int]);
                            let j2 = choose|jj: int|
                                #![trigger self.nodes@[cur as int].children@[jj]]
                                0 <= jj < self.nodes@[cur as int].children@.len()
                                    && self.nodes@[cur as int].children@[jj] as int == c as int
                                    && self.nodes@[self.nodes@[cur as int].children@[jj] as int].label@
                                    == zs[k as int];
                            if j2 != j {
                                assert(self.nodes@[self.nodes@[cur as int].children@[j2] as int].label@
                                    != self.nodes@[self.nodes@[cur as int].children@[j] as int].label@);
                            }
                            assert(d == c as int);
                            assert(rest.drop_first() =~= zs.skip(k + 1));
                        }
                    }
                    cur = c;
                },
                None => {
                    proof {
                        if old(self).has_path_from(0, zs) {
                            let rest = zs.skip(k as int);
                            assert(rest[0] == zs[k as int]);
                            let j = choose|j: int|
                                #![trigger self.nodes@[cur as int].children@[j]]
                                0 <= j < self.nodes@[cur as int].children@.len() && {
                                    let d = self.nodes@[cur as int].children@[j] as int;
                                    self.nodes@[d].label@ == rest[0] && self.has_path_from(
                                        d,
                                        rest.drop_first(),
                                    )
                                };
                            assert(self.nodes@[self.nodes@[cur as int].children@[j] as int].label@
                                == zs[k as int]);
                            lemma_child_with_props(*self, cur as int, zs[k as int]);
                            assert(false);
                        }
                    }
                    let ghost pre = *self;
                    let new_idx = self.nodes.len();
                    self.nodes.push(
                        ZoneNode { label: label.clone(), parent: cur, children: Vec::new() },
                    );
                    let node = &mut self.nodes[cur];
                    node.children.push(new_idx);
                    proof {
                        let t = *self;
                        let m = pre.nodes@.len() as int;
                        let oldch = pre.nodes@[cur as int].children@;
                        assert(t.nodes@.len() == m + 1);
                        assert(t.nodes@[cur as int].children@ =~= oldch.push(new_idx));
                        assert forall|i: int| 0 <= i < m && i != cur implies t.nodes@[i]
                            == pre.nodes@[i] by {}
                        assert(t.nodes@[m].label@ == zs[k as int]);
                        assert(t.nodes@[m].parent == cur);
                        // The grown tree keeps the invariant.
                        assert forall|i: int, j: int|
                            #![trigger t.nodes@[i].children@[j]]
                            0 <= i < t.nodes@.len() && 0 <= j < t.nodes@[i].children@.len()
                            implies {
                            let cc = t.nodes@[i].children@[j] as int;
                            0 < cc < t.nodes@.len() && t.nodes@[cc].parent as int == i
                        } by {
                            if i == cur as int && j == oldch.len() as int {
                            } else if i < m {
                                assert(t.nodes@[i].children@[j] == pre.nodes@[i].children@[j]);
                                let cc = pre.nodes@[i].children@[j] as int;
                                assert(0 < cc < m && pre.nodes@[cc].parent as int == i);
                                assert(cc != m);
                                if cc != cur as int {
                                    assert(t.nodes@[cc] == pre.nodes@[cc]);
                                }
                            }
                        }
                        assert forall|i: int, j1: int, j2: int|
                            #![trigger t.nodes@[i].children@[j1], t.nodes@[i].children@[j2]]
                            0 <= i < t.nodes@.len() && 0 <= j1 < t.nodes@[i].children@.len() && 0
                                <= j2 < t.nodes@[i].children@.len() && j1 != j2
                            implies t.nodes@[t.nodes@[i].children@[j1] as int].label@
                            != t.nodes@[t.nodes@[i].children@[j2] as int].label@ by {
                            if i < m {
                                let isnew1 = i == cur as int && j1 == oldch.len() as int;
                                let isnew2 = i == cur as int && j2 == oldch.len() as int;
                                if isnew1 || isnew2 {
                                    let jo: int = if isnew1 {
                                        j2
                                    } else {
                                        j1
                                    };
                                    assert(t.nodes@[i].children@[jo] == pre.nodes@[i].children@[jo]);
                                    let co = pre.nodes@[i].children@[jo] as int;
                                    assert(0 < co < m && pre.nodes@[co].parent as int == i);
                                    // The old child kept its label, which the
                                    // failed search showed differs from the
                                    // new label.
                                    assert(pre.spec_child_with(cur as int, zs[k as int]) is None);
                                    lemma_child_with_props(pre, cur as int, zs[k as int]);
                                    assert(pre.nodes@[co].label@ != zs[k as int]);
                                    if co != cur as int {
                                        assert(t.nodes@[co] == pre.nodes@[co]);
                                    }
                                } else {
                                    assert(t.nodes@[i].children@[j1] == pre.nodes@[i].children@[j1]);
                                    assert(t.nodes@[i].children@[j2] == pre.nodes@[i].children@[j2]);
                                    let c1 = pre.nodes@[i].children@[j1] as int;
                                    let c2 = pre.nodes@[i].children@[j2] as int;
                                    assert(0 < c1 < m && 0 < c2 < m);
                                    assert(pre.nodes@[c1].label@ != pre.nodes@[c2].label@);
                                    if c1 != cur as int {
                                        assert(t.nodes@[c1] == pre.nodes@[c1]);
                                    }
                                    if c2 != cur as int {
                                        assert(t.nodes@[c2] == pre.nodes@[c2]);
                                    }
                                }
                            }
                        }
                        assert(t.wf());
                        // The old reach survives the growth.
                        assert forall|i: int| 0 <= i < m implies {
                            let a = #[trigger] pre.nodes@[i];
                            let b = t.nodes@[i];
                            b.label == a.label && b.parent == a.parent && a.children@.len()
                                <= b.children@.len() && b.children@.subrange(
                                0,
                                a.children@.len() as int,
                            ) == a.children@
                        } by {
                            if i == cur as int {
                                assert(t.nodes@[i].children@.subrange(0, oldch.len() as int)
                                    =~= oldch);
                            } else {
                                assert(t.nodes@[i] == pre.nodes@[i]);
                                assert(t.nodes@[i].children@.subrange(
                                    0,
                                    pre.nodes@[i].children@.len() as int,
                                ) =~= pre.nodes@[i].children@);
                            }
                        }
                        assert(tree_extends(t, pre));
                        lemma_extends_reaches(pre, t, 0, zs.take(k as int), cur as int);
                        // The fresh node is now the unique child for this label.
                        let jn = oldch.len() as int;
                        assert(t.nodes@[cur as int].children@[jn] == new_idx);
                        assert(t.nodes@[new_idx as int].label@ == zs[k as int]);
                        lemma_child_with_props(t, cur as int, zs[k as int]);
                        match t.spec_child_with(cur as int, zs[k as int]) {
                            None => {
                                assert(t.nodes@[t.nodes@[cur as int].children@[jn] as int].label@
                                    != zs[k as int]);
                                assert(false);
                            },
                            Some(cw) => {
                                let j2 = choose|jj: int|
                                    #![trigger t.nodes@[cur as int].children@[jj]]
                                    0 <= jj < t.nodes@[cur as int].children@.len()
                                        && t.nodes@[cur as int].children@[jj] as int == cw
                                        && t.nodes@[t.nodes@[cur as int].children@[jj] as int].label@
                                        == zs[k as int];
                                if j2 != jn {
                                    assert(t.nodes@[t.nodes@[cur as int].children@[j2] as int].label@
                                        != t.nodes@[t.nodes@[cur as int].children@[jn] as int].label@);
                                }
                                assert(cw == new_idx as int);
                            },
                        }
                        assert(t.spec_child_with(cur as int, zs[k as int]) == Some(
                            new_idx as int,
                        ));
                        lemma_reaches_snoc(
                            t,
                            0,
                            zs.take(k as int),
                            cur as int,
                            zs[k as int],
                            new_idx as int,
                        );
                        assert(zs.take(k as int).push(zs[k as int]) =~= zs.take(k + 1));
                    }
                    cur = new_idx;
                },
            }
            k += 1;
        }
        proof {
            assert(zs.take(zs.len() as int) =~= zs);
            assert(self.has_path_from(cur as int, Seq::<Seq<char>>::empty()));
            lemma_reaches_then_path(
                *self,
                0,
                zs,
                cur as int,
                Seq::<Seq<char>>::empty(),
            );
            assert(zs + Seq::<Seq<char>>::empty() =~= zs);
        }
    }

    /// The delegation boundary for a domain: the index of the deepest node
    /// reached by matching the domain's zones from the root, top-down. The
    /// root itself means no zone matched at all.
    #[verifier::loop_isolation(false)]
    pub fn lookup_authority(&self, domain: &Domain) -> (r: usize)
        requires
            self.wf(),
        ensures
            r < self.nodes@.len(),
            r as int == self.spec_descend(0, strings_view(domain.zones)),
    {
        let ghost zs = strings_view(domain.zones);
        let mut cur: usize = 0;
        let mut k: usize = 0;
        proof {
            assert(zs.skip(0) =~= zs);
        }
        while k < domain.zones.len()
            invariant
                self.wf(),
                0 <= k <= domain.zones@.len(),
                zs.len() == domain.zones@.len(),
                cur < self.nodes@.len(),
                self.spec_descend(0, zs) == self.spec_descend(cur as int, zs.skip(k as int)),
            decreases domain.zones@.len() - k,
        {
            let label = &domain.zones[k];
            proof {
                assert(label@ == zs[k as int]);
                assert(zs.skip(k as int)[0] == zs[k as int]);
            }
            match self.find_child(cur, label) {
                Some(c) => {
                    proof {
                        assert(zs.skip(k as int).drop_first() =~= zs.skip(k + 1));
                    }
                    cur = c;
                },
                None => {
                    proof {
                        assert(self.spec_descend(cur as int, zs.skip(k as int)) == cur as int);
                        assert(zs.skip(zs.len() as int) =~= Seq::<Seq<char>>::empty());
                    }
                    return cur;
                },
            }
            k += 1;
        }
        proof {
            assert(zs.skip(zs.len() as int) =~= Seq::<Seq<char>>::empty());
        }
        cur
    }
}

/// The labels on the path from the root down to node `n`, in that order.
/// The root's own empty label is not included.
pub open spec fn spec_node_labels(t: ZoneTree, n: int) -> Seq<Seq<char>>
    decreases n,
{
    if n <= 0 || n >= t.nodes@.len() || t.nodes@[n].parent as int >= n {
        Seq::<Seq<char>>::empty()
    } else {
        spec_node_labels(t, t.nodes@[n].parent as int) + seq![t.nodes@[n].label@]
    }
}

/// Labels joined by `'.'`.
pub open spec fn spec_dotted_chars(labels: Seq<Seq<char>>) -> Seq<char>
    decreases labels.len(),
{
    if labels.len() == 0 {
        Seq::<char>::empty()
    } else if labels.len() == 1 {
        labels[0]
    } else {
        labels[0] + seq!['.'] + spec_dotted_chars(labels.drop_first())
    }
}

/// One more label extends the dotted form by a dot and the label.
proof fn lemma_dotted_chars_push(labels: Seq<Seq<char>>, label: Seq<char>)
    ensures
        spec_dotted_chars(labels.push(label)) == if labels.len() == 0 {
            label
        } else {
            spec_dotted_chars(labels) + seq!['.'] + label
        },
    decreases labels.len(),
{
    if labels.len() == 0 {
        assert(spec_dotted_chars(labels.push(label)) == labels.push(label)[0]);
    } else {
        assert(labels.push(label).drop_first() =~= labels.drop_first().push(label));
        lemma_dotted_chars_push(labels.drop_first(), label);
        assert(spec_dotted_chars(labels.push(label)) =~= spec_dotted_chars(labels) + seq!['.']
            + label);
    }
}

impl ZoneTree {
    /// The full name of a node: the labels from the root down to it, in that
    /// order, joined by dots. The root itself has the empty name.
    #[verifier::loop_isolation(false)]
    pub fn to_dotted_string(&self, node: usize) -> (r: String)
        requires
            self.wf(),
            node < self.nodes@.len(),
        ensures
            r@ == spec_dotted_chars(spec_node_labels(*self, node as int)),
    {
        // Walk the parent links up to the root, collecting the node indices.
        let mut path: Vec<usize> = Vec::new();
        let mut cur = node;
        proof {
            assert(Seq::new(0, |i: int| self.nodes@[path@[path@.len() - 1 - i] as int].label@)
                =~= Seq::<Seq<char>>::empty());
            assert(spec_node_labels(*self, node as int) =~= spec_node_labels(*self, cur as int)
                + Seq::new(
                path@.len(),
                |i: int| self.nodes@[path@[path@.len() - 1 - i] as int].label@,
            ));
        }
        while cur != 0
            invariant
                self.wf(),
                cur < self.nodes@.len(),
                forall|i: int| 0 <= i < path@.len() ==> path@[i] < self.nodes@.len(),
                spec_node_labels(*self, node as int) == spec_node_labels(*self, cur as int)
                    + Seq::new(
                    path@.len(),
                    |i: int| self.nodes@[path@[path@.len() - 1 - i] as int].label@,
                ),
            decreases cur,
        {
            let ghost old_path = path;
            path.push(cur);
            let parent = self.nodes[cur].parent;
            proof {
                assert(spec_node_labels(*self, cur as int) == spec_node_labels(
                    *self,
                    parent as int,
                ) + seq![self.nodes@[cur as int].label@]);
                assert(spec_node_labels(*self, parent as int) + Seq::new(
                    path@.len(),
                    |i: int| self.nodes@[path@[path@.len() - 1 - i] as int].label@,
                ) =~= spec_node_labels(*self, cur as int) + Seq::new(
                    old_path@.len(),
                    |i: int| self.nodes@[old_path@[old_path@.len() - 1 - i] as int].label@,
                ));
            }
            cur = parent;
        }
        let ghost downward = Seq::new(
            path@.len(),
            |i: int| self.nodes@[path@[path@.len() - 1 - i] as int].label@,
        );
        proof {
            assert(spec_node_labels(*self, 0) =~= Seq::<Seq<char>>::empty());
            assert(spec_node_labels(*self, node as int) =~= downward);
        }
        // Join the labels root-first.
        let mut out = String::new();
        let n = path.len();
        let mut k: usize = 0;
        proof {
            assert(downward.take(0) =~= Seq::<Seq<char>>::empty());
        }
        while k < n
            invariant
                n == path@.len(),
                0 <= k <= n,
                downward == Seq::new(
                    path@.len(),
                    |i: int| self.nodes@[path@[path@.len() - 1 - i] as int].label@,
                ),
                forall|i: int| 0 <= i < n ==> path@[i] < self.nodes@.len(),
                out@ == spec_dotted_chars(downward.take(k as int)),
            decreases n - k,
        {
            if k > 0 {
                out.append(".");
            }
            let idx = path[n - 1 - k];
            out.append(self.nodes[idx].label.as_str());
            proof {
                reveal_strlit(".");
                assert("."@ =~= seq!['.']);
                assert(downward[k as int] == self.nodes@[idx as int].label@);
                lemma_dotted_chars_push(downward.take(k as int), downward[k as int]);
                assert(downward.take(k as int).push(downward[k as int]) =~= downward.take(k + 1));
                if k == 0 {
                    assert(out@ =~= spec_dotted_chars(downward.take(k + 1)));
                } else {
                    assert(out@ =~= spec_dotted_chars(downward.take(k as int)) + seq!['.']
                        + downward[k as int]);
                }
            }
            k += 1;
        }
        proof {
            assert(downward.take(downward.len() as int) =~= downward);
        }
        out
    }
}

} // verus!
