//! Routing partitions: a union-find structure over targets. Every target is
//! registered exactly once as a singleton class; merging splices one class's
//! member list into the other's. Two registered targets end up in the same
//! class exactly when a chain of recorded merges joins them.

use vstd::prelude::*;

verus! {

use crate::target::{Target, Wire};

/// The class-id mapping described by the association list of index entries.
pub closed spec fn idx_map(s: Seq<(Target, usize)>) -> Map<Target, int>
    decreases s.len(),
{
    if s.len() == 0 {
        Map::empty()
    } else {
        idx_map(s.drop_last()).insert(s.last().0, s.last().1 as int)
    }
}

spec fn idx_wf(s: Seq<(Target, usize)>) -> bool {
    forall|i: int, j: int| 0 <= i < j < s.len() ==> (#[trigger] s[i]).0 != (#[trigger] s[j]).0
}

proof fn lemma_idx_absent(s: Seq<(Target, usize)>, t: Target)
    requires
        forall|i: int| 0 <= i < s.len() ==> (#[trigger] s[i]).0 != t,
    ensures
        !idx_map(s).contains_key(t),
    decreases s.len(),
{
    if s.len() > 0 {
        lemma_idx_absent(s.drop_last(), t);
    }
}

proof fn lemma_idx_lookup(s: Seq<(Target, usize)>, j: int)
    requires
        idx_wf(s),
        0 <= j < s.len(),
    ensures
        idx_map(s).contains_key(s[j].0),
        idx_map(s)[s[j].0] == s[j].1 as int,
    decreases s.len(),
{
    if j < s.len() - 1 {
        lemma_idx_lookup(s.drop_last(), j);
    }
}

proof fn lemma_idx_dom(s: Seq<(Target, usize)>, t: Target)
    requires
        idx_map(s).contains_key(t),
    ensures
        exists|i: int| 0 <= i < s.len() && (#[trigger] s[i]).0 == t,
    decreases s.len(),
{
    if s.len() > 0 && s.last().0 != t {
        lemma_idx_dom(s.drop_last(), t);
        let i = choose|i: int|
            0 <= i < s.drop_last().len() && (#[trigger] s.drop_last()[i]).0 == t;
        assert(s[i].0 == t);
    }
}

proof fn lemma_idx_update(s: Seq<(Target, usize)>, j: int, v: usize)
    requires
        idx_wf(s),
        0 <= j < s.len(),
    ensures
        idx_wf(s.update(j, (s[j].0, v))),
        idx_map(s.update(j, (s[j].0, v))) == idx_map(s).insert(s[j].0, v as int),
    decreases s.len(),
{
    let su = s.update(j, (s[j].0, v));
    if j == s.len() - 1 {
        assert(su.drop_last() =~= s.drop_last());
        assert(idx_map(su) =~= idx_map(s).insert(s[j].0, v as int));
    } else {
        lemma_idx_update(s.drop_last(), j, v);
        assert(su.drop_last() =~= s.drop_last().update(j, (s[j].0, v)));
        assert(su.last() == s.last());
        assert(idx_map(su) =~= idx_map(s).insert(s[j].0, v as int));
    }
}

/// Two targets are linked when some recorded merge joins them directly,
/// in either order.
pub open spec fn linked(edges: Seq<(Target, Target)>, x: Target, y: Target) -> bool {
    exists|k: int|
        0 <= k < edges.len() && {
            let e = #[trigger] edges[k];
            (e.0 == x && e.1 == y) || (e.0 == y && e.1 == x)
        }
}

/// `path` is a walk from `x` to `y` along recorded merges.
pub open spec fn is_chain(
    edges: Seq<(Target, Target)>,
    path: Seq<Target>,
    x: Target,
    y: Target,
) -> bool {
    &&& path.len() >= 1
    &&& path.first() == x
    &&& path.last() == y
    &&& forall|k: int| 0 <= k < path.len() - 1 ==> linked(edges, #[trigger] path[k], path[k + 1])
}

/// The reflexive-transitive closure of the recorded merges.
pub open spec fn connected(edges: Seq<(Target, Target)>, x: Target, y: Target) -> bool {
    exists|path: Seq<Target>| is_chain(edges, path, x, y)
}

pub proof fn lemma_connected_refl(edges: Seq<(Target, Target)>, x: Target)
    ensures
        connected(edges, x, x),
{
    assert(is_chain(edges, seq![x], x, x));
}

pub proof fn lemma_connected_step(edges: Seq<(Target, Target)>, x: Target, y: Target)
    requires
        linked(edges, x, y),
    ensures
        connected(edges, x, y),
{
    let path = seq![x, y];
    assert(path[0] == x && path[1] == y);
    assert(is_chain(edges, path, x, y));
}

pub proof fn lemma_connected_sym(edges: Seq<(Target, Target)>, x: Target, y: Target)
    requires
        connected(edges, x, y),
    ensures
        connected(edges, y, x),
{
    let path = choose|path: Seq<Target>| is_chain(edges, path, x, y);
    let n = path.len();
    let rev = Seq::new(n, |i: int| path[n - 1 - i]);
    assert forall|k: int| 0 <= k < rev.len() - 1 implies linked(
        edges,
        #[trigger] rev[k],
        rev[k + 1],
    ) by {
        assert(linked(edges, path[n - 2 - k], path[n - 1 - k]));
    }
    assert(rev.first() == y && rev.last() == x);
    assert(is_chain(edges, rev, y, x));
}

pub proof fn lemma_connected_trans(
    edges: Seq<(Target, Target)>,
    x: Target,
    y: Target,
    z: Target,
)
    requires
        connected(edges, x, y),
        connected(edges, y, z),
    ensures
        connected(edges, x, z),
{
    let p1 = choose|p: Seq<Target>| is_chain(edges, p, x, y);
    let p2 = choose|p: Seq<Target>| is_chain(edges, p, y, z);
    let joined = p1 + p2.subrange(1, p2.len() as int);
    if p2.len() == 1 {
        assert(joined =~= p1);
        assert(is_chain(edges, joined, x, z));
    } else {
        assert(joined.first() == x);
        assert(joined.last() == p2.last());
        assert forall|k: int| 0 <= k < joined.len() - 1 implies linked(
            edges,
            #[trigger] joined[k],
            joined[k + 1],
        ) by {
            if k < p1.len() - 1 {
                assert(linked(edges, p1[k], p1[k + 1]));
            } else if k == p1.len() - 1 {
                assert(joined[k] == y);
                assert(joined[k + 1] == p2[1]);
                assert(linked(edges, p2[0], p2[1]));
            } else {
                let m = k - p1.len() + 1;
                assert(joined[k] == p2[m]);
                assert(joined[k + 1] == p2[m + 1]);
                assert(linked(edges, p2[m], p2[m + 1]));
            }
        }
        assert(is_chain(edges, joined, x, z));
    }
}

/// A chain over a prefix of the merges is a chain over all of them.
pub proof fn lemma_connected_mono(
    e1: Seq<(Target, Target)>,
    e2: Seq<(Target, Target)>,
    x: Target,
    y: Target,
)
    requires
        e1.is_prefix_of(e2),
        connected(e1, x, y),
    ensures
        connected(e2, x, y),
{
    let path = choose|p: Seq<Target>| is_chain(e1, p, x, y);
    assert forall|k: int| 0 <= k < path.len() - 1 implies linked(
        e2,
        #[trigger] path[k],
        path[k + 1],
    ) by {
        let j = choose|j: int|
            0 <= j < e1.len() && {
                let e = #[trigger] e1[j];
                (e.0 == path[k] && e.1 == path[k + 1]) || (e.0 == path[k + 1] && e.1 == path[k])
            };
        assert(e2[j] == e1[j]);
    }
    assert(is_chain(e2, path, x, y));
}

fn entry_pos(indices: &Vec<(Target, usize)>, t: Target) -> (r: usize)
    requires
        idx_map(indices@).contains_key(t),
    ensures
        r < indices@.len(),
        indices@[r as int].0 == t,
{
    proof {
        lemma_idx_dom(indices@, t);
    }
    let n = indices.len();
    let mut i: usize = 0;
    while i < n
        invariant
            n == indices@.len(),
            i <= n,
            exists|k: int| i <= k < n && (#[trigger] indices@[k]).0 == t,
        decreases n - i,
    {
        if indices[i].0 == t {
            return i;
        }
        i = i + 1;
    }
    proof {
        assert(false);
    }
    0
}

/// The routing partition structure: member lists per class, a class index
/// per target, and (for specification purposes) the merges recorded so far.
pub struct RoutingTargetPartitions {
    partitions: Vec<Vec<Target>>,
    indices: Vec<(Target, usize)>,
    edges: Ghost<Seq<(Target, Target)>>,
}

/// Routing partitions restricted to concrete wires, for consumption by the
/// polynomial-constraint layer.
pub struct GateInputPartitions {
    pub partitions: Vec<Vec<Wire>>,
    pub indices: Vec<(Wire, usize)>,
}

/// The wires of a member list, virtual targets dropped, order kept.
pub open spec fn wires_of(s: Seq<Target>) -> Seq<Wire>
    decreases s.len(),
{
    if s.len() == 0 {
        Seq::empty()
    } else {
        match s.last() {
            Target::Wire(w) => wires_of(s.drop_last()).push(w),
            Target::VirtualTarget(_) => wires_of(s.drop_last()),
        }
    }
}

/// The wire entries of the class index, virtual targets dropped, order kept.
pub open spec fn wire_entries(s: Seq<(Target, usize)>) -> Seq<(Wire, usize)>
    decreases s.len(),
{
    if s.len() == 0 {
        Seq::empty()
    } else {
        match s.last().0 {
            Target::Wire(w) => wire_entries(s.drop_last()).push((w, s.last().1)),
            Target::VirtualTarget(_) => wire_entries(s.drop_last()),
        }
    }
}

impl RoutingTargetPartitions {
    /// Class id of each registered target.
    pub closed spec fn class_map(&self) -> Map<Target, int> {
        idx_map(self.indices@)
    }

    /// The member list of each class.
    pub closed spec fn classes(&self) -> Seq<Seq<Target>> {
        self.partitions@.map(|i: int, v: Vec<Target>| v@)
    }

    /// The merges recorded so far, in order.
    pub closed spec fn edges(&self) -> Seq<(Target, Target)> {
        self.edges@
    }

    /// Whether a target has been registered by `add_partition`.
    pub open spec fn registered(&self, t: Target) -> bool {
        self.class_map().contains_key(t)
    }

    /// Whether two targets lie in the same class.
    pub open spec fn same_class(&self, t: Target, u: Target) -> bool {
        &&& self.registered(t)
        &&& self.registered(u)
        &&& self.class_map()[t] == self.class_map()[u]
    }

    /// Structural consistency: the index map and the member lists agree,
    /// classes are in the same-class relation exactly when a chain of
    /// recorded merges joins them.
    pub closed spec fn wf(&self) -> bool {
        &&& idx_wf(self.indices@)
        &&& forall|t: Target|
            self.class_map().contains_key(t) ==> 0 <= #[trigger] self.class_map()[t]
                < self.classes().len() && self.classes()[self.class_map()[t]].contains(t)
        &&& forall|i: int, k: int|
            0 <= i < self.classes().len() && 0 <= k < (#[trigger] self.classes()[i]).len()
                ==> self.class_map().contains_key(#[trigger] self.classes()[i][k])
                && self.class_map()[self.classes()[i][k]] == i
        &&& forall|t: Target, u: Target|
            #[trigger] self.same_class(t, u) ==> connected(self.edges@, t, u)
        &&& forall|k: int|
            0 <= k < self.edges@.len() ==> self.same_class(
                (#[trigger] self.edges@[k]).0,
                self.edges@[k].1,
            )
    }

    /// The empty structure.
    pub fn new() -> (r: RoutingTargetPartitions)
        ensures
            r.wf(),
            r.class_map() == Map::<Target, int>::empty(),
            r.classes() == Seq::<Seq<Target>>::empty(),
            r.edges() == Seq::<(Target, Target)>::empty(),
    {
        let r = RoutingTargetPartitions {
            partitions: Vec::new(),
            indices: Vec::new(),
            edges: Ghost(Seq::empty()),
        };
        proof {
            assert(r.classes() =~= Seq::<Seq<Target>>::empty());
        }
        r
    }

    /// The class id of a registered target. Looking up a target never
    /// registered is a programming error, ruled out by the precondition.
    fn index_of(&self, t: Target) -> (r: usize)
        requires
            self.wf(),
            self.registered(t),
        ensures
            r as int == self.class_map()[t],
    {
        let n = self.indices.len();
        let mut i: usize = 0;
        proof {
            lemma_idx_dom(self.indices@, t);
        }
        while i < n
            invariant
                self.wf(),
                self.registered(t),
                n == self.indices@.len(),
                i <= n,
                exists|k: int| i <= k < n && (#[trigger] self.indices@[k]).0 == t,
            decreases n - i,
        {
            if self.indices[i].0 == t {
                proof {
                    lemma_idx_lookup(self.indices@, i as int);
                }
                return self.indices[i].1;
            }
            i = i + 1;
        }
        proof {
            assert(false);
        }
        0
    }

    /// Register a fresh target as a new singleton class. Registering a
    /// target twice is a programming error, ruled out by the precondition.
    pub fn add_partition(&mut self, target: Target)
        requires
            old(self).wf(),
            !old(self).registered(target),
        ensures
            final(self).wf(),
            final(self).class_map() == old(self).class_map().insert(
                target,
                old(self).classes().len() as int,
            ),
            final(self).classes() == old(self).classes().push(seq![target]),
            final(self).edges() == old(self).edges(),
    {
        let index = self.partitions.len();
        let mut singleton: Vec<Target> = Vec::new();
        singleton.push(target);
        self.partitions.push(singleton);
        proof {
            let s = self.indices@;
            if exists|i: int| 0 <= i < s.len() && (#[trigger] s[i]).0 == target {
                let i = choose|i: int| 0 <= i < s.len() && (#[trigger] s[i]).0 == target;
                lemma_idx_lookup(s, i);
                assert(false);
            }
            assert(s.push((target, index)).drop_last() =~= s);
        }
        self.indices.push((target, index));
        proof {
            let post = *self;
            assert(post.classes() =~= old(self).classes().push(seq![target]));
            assert(post.class_map() =~= old(self).class_map().insert(
                target,
                old(self).classes().len() as int,
            ));
            assert(seq![target][0] == target);
            assert(post.classes()[index as int].contains(target));
            assert forall|t: Target, u: Target| #[trigger] post.same_class(t, u) implies connected(
                post.edges@,
                t,
                u,
            ) by {
                if t == target || u == target {
                    assert(t == u);
                    lemma_connected_refl(post.edges@, t);
                } else {
                    assert(old(self).same_class(t, u));
                }
            }
            assert forall|k: int| 0 <= k < post.edges@.len() implies post.same_class(
                (#[trigger] post.edges@[k]).0,
                post.edges@[k].1,
            ) by {
                assert(old(self).same_class(old(self).edges@[k].0, old(self).edges@[k].1));
            }
            assert(post.wf());
        }
    }

    /// Record a merge of the classes containing `a` and `b`: `a`'s member
    /// list is spliced into `b`'s and every migrated member's class id is
    /// updated. A no-op (beyond recording) when they already share a class.
    /// Merging unregistered targets is a programming error, ruled out by the
    /// precondition.
    pub fn merge(&mut self, a: Target, b: Target)
        requires
            old(self).wf(),
            old(self).registered(a),
            old(self).registered(b),
        ensures
            final(self).wf(),
            final(self).edges() == old(self).edges().push((a, b)),
            forall|t: Target| final(self).registered(t) == old(self).registered(t),
            forall|t: Target, u: Target|
                #[trigger] final(self).same_class(t, u) <==> (old(self).same_class(t, u) || (old(self).same_class(t, a) && old(self).same_class(u, b)) || (old(self).same_class(t, b)
                    && old(self).same_class(u, a))),
            old(self).same_class(a, b) ==> final(self).classes() == old(self).classes() && final(self).class_map() == old(self).class_map() && final(self).idx_entries() == old(self).idx_entries(),
    {
        let ia = self.index_of(a);
        let ib = self.index_of(b);
        let ghost pre = *self;
        if ia != ib {
            // Copy out a's member list.
            let na = self.partitions[ia].len();
            let mut a_members: Vec<Target> = Vec::new();
            let mut i: usize = 0;
            while i < na
                invariant
                    i <= na,
                    ia < self.partitions@.len(),
                    na == self.partitions@[ia as int]@.len(),
                    a_members@ =~= self.partitions@[ia as int]@.subrange(0, i as int),
                    *self == pre,
                decreases na - i,
            {
                a_members.push(self.partitions[ia][i]);
                proof {
                    assert(a_members@ =~= self.partitions@[ia as int]@.subrange(0, i + 1));
                }
                i = i + 1;
            }
            proof {
                assert(a_members@ =~= pre.classes()[ia as int]);
            }
            // Update every migrated member's class id.
            let mut j: usize = 0;
            while j < na
                invariant
                    j <= na,
                    na == a_members@.len(),
                    a_members@ == pre.classes()[ia as int],
                    pre.wf(),
                    ia < pre.classes().len(),
                    ib < pre.classes().len(),
                    ia as int == pre.class_map()[a],
                    ib as int == pre.class_map()[b],
                    self.partitions == pre.partitions,
                    self.edges == pre.edges,
                    idx_wf(self.indices@),
                    forall|t: Target|
                        self.class_map().contains_key(t) == pre.class_map().contains_key(t),
                    forall|t: Target|
                        pre.class_map().contains_key(t) ==> #[trigger] self.class_map()[t] == (
                        if exists|k: int| 0 <= k < j && (#[trigger] a_members@[k]) == t {
                            ib as int
                        } else {
                            pre.class_map()[t]
                        }),
                decreases na - j,
            {
                let m = a_members[j];
                proof {
                    assert(pre.class_map().contains_key(m));
                    lemma_idx_dom(self.indices@, m);
                }
                let ghost before = self.indices@;
                // Find m's entry and point it at b's class.
                let pos = entry_pos(&self.indices, m);
                proof {
                    lemma_idx_lookup(before, pos as int);
                    lemma_idx_update(before, pos as int, ib);
                }
                self.indices[pos] = (m, ib);
                proof {
                    assert(self.indices@ =~= before.update(pos as int, (m, ib)));
                    assert(idx_map(self.indices@) =~= idx_map(before).insert(m, ib as int));
                    assert forall|t: Target| pre.class_map().contains_key(t) implies
                        #[trigger] self.class_map()[t] == (
                        if exists|k2: int| 0 <= k2 < j + 1 && (#[trigger] a_members@[k2]) == t {
                            ib as int
                        } else {
                            pre.class_map()[t]
                        }) by {
                        if t == m {
                            assert(a_members@[j as int] == t);
                        } else {
                            if exists|k2: int|
                                0 <= k2 < j && (#[trigger] a_members@[k2]) == t {
                            }
                        }
                    }
                }
                j = j + 1;
            }
            proof {
                // The migrated keys are exactly the members of a's class.
                assert forall|t: Target| pre.class_map().contains_key(t) implies
                    #[trigger] self.class_map()[t] == (
                    if pre.class_map()[t] == ia as int {
                        ib as int
                    } else {
                        pre.class_map()[t]
                    }) by {
                    if pre.class_map()[t] == ia as int {
                        assert(pre.classes()[ia as int].contains(t));
                        let k = choose|k: int|
                            0 <= k < pre.classes()[ia as int].len() && pre.classes()[ia as int][k]
                                == t;
                        assert(a_members@[k] == t);
                    } else {
                        if exists|k: int| 0 <= k < na && (#[trigger] a_members@[k]) == t {
                            let k = choose|k: int|
                                0 <= k < na && (#[trigger] a_members@[k]) == t;
                            assert(pre.class_map()[pre.classes()[ia as int][k]] == ia as int);
                            assert(false);
                        }
                    }
                }
            }
            // Splice a's member list into b's and leave a's class empty.
            proof {
                assert(ib < self.partitions@.len());
                assert(ia < self.partitions@.len());
            }
            let ghost members_a = a_members@;
            self.partitions[ib].append(&mut a_members);
            self.partitions[ia].clear();
            proof {
                self.edges@ = pre.edges@.push((a, b));
            }
            proof {
                assert(self.classes().len() == pre.classes().len());
                assert(self.classes()[ib as int] =~= pre.classes()[ib as int] + pre.classes()[
                    ia as int
                ]);
                assert(self.classes()[ia as int] =~= Seq::<Target>::empty());
                assert forall|q: int|
                    0 <= q < pre.classes().len() && q != ia as int && q != ib as int implies
                    #[trigger] self.classes()[q] == pre.classes()[q] by {
                    assert(self.partitions@[q] == pre.partitions@[q]);
                }
                lemma_merge_wf(pre, *self, a, b, ia, ib);
            }
        } else {
            proof {
                self.edges@ = pre.edges@.push((a, b));
            }
            proof {
                assert(self.classes() =~= pre.classes());
                assert forall|t: Target, u: Target| #[trigger] self.same_class(t, u) implies
                    connected(self.edges@, t, u) by {
                    assert(pre.same_class(t, u));
                    lemma_connected_mono(pre.edges@, self.edges@, t, u);
                }
                assert forall|k: int| 0 <= k < self.edges@.len() implies self.same_class(
                    (#[trigger] self.edges@[k]).0,
                    self.edges@[k].1,
                ) by {
                    if k < pre.edges@.len() {
                        assert(pre.same_class(pre.edges@[k].0, pre.edges@[k].1));
                    } else {
                        assert(self.edges@[k] == (a, b));
                    }
                }
                assert(self.wf());
            }
        }
    }

    /// Two registered targets lie in the same class exactly when they are
    /// joined by a chain of recorded merges: the reflexive-transitive
    /// closure of the declared equalities.
    pub proof fn lemma_same_class_iff_connected(&self, t: Target, u: Target)
        requires
            self.wf(),
            self.registered(t),
            self.registered(u),
        ensures
            self.same_class(t, u) <==> connected(self.edges(), t, u),
    {
        if self.same_class(t, u) {
        }
        if connected(self.edges(), t, u) {
            let path = choose|p: Seq<Target>| is_chain(self.edges@, p, t, u);
            self.lemma_chain_same_class(path, t, u);
        }
    }

    proof fn lemma_chain_same_class(&self, path: Seq<Target>, x: Target, y: Target)
        requires
            self.wf(),
            self.registered(x),
            is_chain(self.edges@, path, x, y),
        ensures
            self.same_class(x, y),
        decreases path.len(),
    {
        if path.len() == 1 {
        } else {
            let z = path[1];
            assert(linked(self.edges@, path[0], path[1]));
            let k = choose|k: int|
                0 <= k < self.edges@.len() && {
                    let e = #[trigger] self.edges@[k];
                    (e.0 == x && e.1 == z) || (e.0 == z && e.1 == x)
                };
            assert(self.same_class(self.edges@[k].0, self.edges@[k].1));
            let rest = path.subrange(1, path.len() as int);
            assert(rest.first() == z && rest.last() == y);
            assert forall|m: int| 0 <= m < rest.len() - 1 implies linked(
                self.edges@,
                #[trigger] rest[m],
                rest[m + 1],
            ) by {
                assert(linked(self.edges@, path[m + 1], path[m + 2]));
            }
            self.lemma_chain_same_class(rest, z, y);
        }
    }

    /// Every registered target belongs to exactly one class: the one its
    /// class id names.
    pub proof fn lemma_one_class(&self, t: Target, i: int)
        requires
            self.wf(),
            self.registered(t),
        ensures
            0 <= self.class_map()[t] < self.classes().len(),
            self.classes()[self.class_map()[t]].contains(t),
            0 <= i < self.classes().len() && self.classes()[i].contains(t) ==> i
                == self.class_map()[t],
    {
        if 0 <= i < self.classes().len() && self.classes()[i].contains(t) {
            let k = choose|k: int| 0 <= k < self.classes()[i].len() && self.classes()[i][k] == t;
            assert(self.class_map()[self.classes()[i][k]] == i);
        }
    }

    /// Drop all virtual targets, leaving partitions over concrete wires
    /// only.
    pub fn to_gate_inputs(&self) -> (r: GateInputPartitions)
        requires
            self.wf(),
        ensures
            r.partitions@.len() == self.classes().len(),
            forall|i: int|
                0 <= i < self.classes().len() ==> (#[trigger] r.partitions@[i])@ == wires_of(
                    self.classes()[i],
                ),
            r.indices@ == wire_entries(self.idx_entries()),
    {
        let mut partitions: Vec<Vec<Wire>> = Vec::new();
        let n = self.partitions.len();
        let mut i: usize = 0;
        while i < n
            invariant
                self.wf(),
                i <= n,
                n == self.partitions@.len(),
                partitions@.len() == i as int,
                forall|q: int|
                    0 <= q < i as int ==> (#[trigger] partitions@[q])@ == wires_of(
                        self.classes()[q],
                    ),
            decreases n - i,
        {
            let old_partition = &self.partitions[i];
            let mut new_partition: Vec<Wire> = Vec::new();
            let m = old_partition.len();
            let mut k: usize = 0;
            while k < m
                invariant
                    k <= m,
                    i < self.partitions@.len(),
                    m == self.partitions@[i as int]@.len(),
                    new_partition@ == wires_of(self.partitions@[i as int]@.subrange(0, k as int)),
                decreases m - k,
            {
                let ghost sub = self.partitions@[i as int]@.subrange(0, k as int);
                let ghost sub1 = self.partitions@[i as int]@.subrange(0, k + 1);
                proof {
                    assert(sub1.drop_last() =~= sub);
                }
                match self.partitions[i][k] {
                    Target::Wire(w) => {
                        new_partition.push(w);
                    },
                    Target::VirtualTarget(_) => {},
                }
                k = k + 1;
            }
            proof {
                assert(self.partitions@[i as int]@.subrange(
                    0,
                    self.partitions@[i as int]@.len() as int,
                ) =~= self.partitions@[i as int]@);
                assert(self.classes()[i as int] == self.partitions@[i as int]@);
            }
            partitions.push(new_partition);
            i = i + 1;
        }
        let mut indices: Vec<(Wire, usize)> = Vec::new();
        let nn = self.indices.len();
        let mut k: usize = 0;
        while k < nn
            invariant
                k <= nn,
                nn == self.indices@.len(),
                indices@ == wire_entries(self.indices@.subrange(0, k as int)),
            decreases nn - k,
        {
            let ghost sub = self.indices@.subrange(0, k as int);
            let ghost sub1 = self.indices@.subrange(0, k + 1);
            proof {
                assert(sub1.drop_last() =~= sub);
            }
            match self.indices[k].0 {
                Target::Wire(w) => {
                    indices.push((w, self.indices[k].1));
                },
                Target::VirtualTarget(_) => {},
            }
            k = k + 1;
        }
        proof {
            assert(self.indices@.subrange(0, self.indices@.len() as int) =~= self.indices@);
        }
        GateInputPartitions { partitions, indices }
    }

    /// The raw class-index entries, for stating what `to_gate_inputs` keeps.
    pub closed spec fn idx_entries(&self) -> Seq<(Target, usize)> {
        self.indices@
    }

    /// Number of classes (some may have become empty through merging).
    pub fn num_classes(&self) -> (r: usize)
        ensures
            r as int == self.classes().len(),
    {
        self.partitions.len()
    }

    /// Number of members of one class.
    pub fn class_len(&self, i: usize) -> (r: usize)
        requires
            i < self.classes().len(),
        ensures
            r as int == self.classes()[i as int].len(),
    {
        self.partitions[i].len()
    }

    /// One member of one class.
    pub fn class_member(&self, i: usize, j: usize) -> (r: Target)
        requires
            i < self.classes().len(),
            j < self.classes()[i as int].len(),
        ensures
            r == self.classes()[i as int][j as int],
    {
        self.partitions[i][j]
    }

    /// Number of registered targets.
    pub fn num_targets(&self) -> (r: usize)
        ensures
            r as int == self.idx_entries().len(),
    {
        self.indices.len()
    }
}

proof fn lemma_merge_wf(
    pre: RoutingTargetPartitions,
    post: RoutingTargetPartitions,
    a: Target,
    b: Target,
    ia: usize,
    ib: usize,
)
    requires
        pre.wf(),
        pre.registered(a),
        pre.registered(b),
        ia as int == pre.class_map()[a],
        ib as int == pre.class_map()[b],
        ia != ib,
        post.edges@ == pre.edges@.push((a, b)),
        post.classes().len() == pre.classes().len(),
        post.classes()[ib as int] == pre.classes()[ib as int] + pre.classes()[ia as int],
        post.classes()[ia as int] == Seq::<Target>::empty(),
        forall|q: int|
            0 <= q < pre.classes().len() && q != ia as int && q != ib as int
                ==> #[trigger] post.classes()[q] == pre.classes()[q],
        idx_wf(post.idx_entries()),
        forall|t: Target| post.class_map().contains_key(t) == pre.class_map().contains_key(t),
        forall|t: Target|
            pre.class_map().contains_key(t) ==> #[trigger] post.class_map()[t] == (
            if pre.class_map()[t] == ia as int {
                ib as int
            } else {
                pre.class_map()[t]
            }),
    ensures
        post.wf(),
        forall|t: Target, u: Target|
            #[trigger] post.same_class(t, u) <==> (pre.same_class(t, u) || (pre.same_class(t, a)
                && pre.same_class(u, b)) || (pre.same_class(t, b) && pre.same_class(u, a))),
{
    // Characterise the final same-class relation.
    assert forall|t: Target, u: Target| #[trigger] post.same_class(t, u) <==> (pre.same_class(
        t,
        u,
    ) || (pre.same_class(t, a) && pre.same_class(u, b)) || (pre.same_class(t, b) && pre.same_class(
        u,
        a,
    ))) by {}
    // Index map sends every target into a live class whose list holds it.
    assert forall|t: Target| post.class_map().contains_key(t) implies 0 <= #[trigger] post
        .class_map()[t] < post.classes().len() && post.classes()[post.class_map()[t]].contains(
        t,
    ) by {
        if pre.class_map()[t] == ia as int {
            assert(pre.classes()[ia as int].contains(t));
            let k = choose|k: int|
                0 <= k < pre.classes()[ia as int].len() && pre.classes()[ia as int][k] == t;
            assert(post.classes()[ib as int][pre.classes()[ib as int].len() + k] == t);
        } else {
            assert(pre.classes()[pre.class_map()[t]].contains(t));
            let q = pre.class_map()[t];
            if q == ib as int {
                let k = choose|k: int|
                    0 <= k < pre.classes()[ib as int].len() && pre.classes()[ib as int][k] == t;
                assert(post.classes()[ib as int][k] == t);
            }
        }
    }
    // Every listed member points back at its class.
    assert forall|i: int, k: int|
        0 <= i < post.classes().len() && 0 <= k < (#[trigger] post.classes()[i]).len() implies post
        .class_map().contains_key(#[trigger] post.classes()[i][k]) && post.class_map()[post
        .classes()[i][k]] == i by {
        if i == ib as int {
            if k < pre.classes()[ib as int].len() {
                assert(post.classes()[i][k] == pre.classes()[ib as int][k]);
                assert(pre.class_map()[pre.classes()[ib as int][k]] == ib as int);
            } else {
                let k2 = k - pre.classes()[ib as int].len();
                assert(post.classes()[i][k] == pre.classes()[ia as int][k2]);
                assert(pre.class_map()[pre.classes()[ia as int][k2]] == ia as int);
            }
        } else {
            assert(post.classes()[i] == pre.classes()[i]);
            assert(pre.class_map()[pre.classes()[i][k]] == i);
        }
    }
    // Same class still means joined by recorded merges.
    assert forall|t: Target, u: Target| #[trigger] post.same_class(t, u) implies connected(
        post.edges@,
        t,
        u,
    ) by {
        assert(linked(post.edges@, a, b)) by {
            let k = pre.edges@.len() as int;
            assert(post.edges@[k] == (a, b));
        }
        if pre.same_class(t, u) {
            lemma_connected_mono(pre.edges@, post.edges@, t, u);
        } else if pre.same_class(t, a) && pre.same_class(u, b) {
            lemma_connected_mono(pre.edges@, post.edges@, t, a);
            assert(pre.same_class(u, b));
            lemma_connected_sym(pre.edges@, u, b);
            lemma_connected_mono(pre.edges@, post.edges@, b, u);
            lemma_connected_step(post.edges@, a, b);
            lemma_connected_trans(post.edges@, t, a, b);
            lemma_connected_trans(post.edges@, t, b, u);
        } else {
            lemma_connected_mono(pre.edges@, post.edges@, t, b);
            assert(pre.same_class(u, a));
            lemma_connected_sym(pre.edges@, u, a);
            lemma_connected_mono(pre.edges@, post.edges@, a, u);
            lemma_connected_step(post.edges@, b, a);
            lemma_connected_trans(post.edges@, t, b, a);
            lemma_connected_trans(post.edges@, t, a, u);
        }
    }
    // Every recorded merge joins two targets of one class.
    assert forall|k: int| 0 <= k < post.edges@.len() implies post.same_class(
        (#[trigger] post.edges@[k]).0,
        post.edges@[k].1,
    ) by {
        if k < pre.edges@.len() {
            assert(post.edges@[k] == pre.edges@[k]);
            assert(pre.same_class(pre.edges@[k].0, pre.edges@[k].1));
        } else {
            assert(post.edges@[k] == (a, b));
        }
    }
}

} // verus!
