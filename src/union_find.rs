use vstd::prelude::*;
use vstd::set_lib::{lemma_int_range, lemma_len_subset, lemma_set_disjoint_lens, set_int_range};

verus! {

/// The elements `0..roots.len()` whose representative is `r`.
pub open spec fn class_of(roots: Seq<int>, r: int) -> Set<int> {
    set_int_range(0, roots.len() as int).filter(|i: int| roots[i] == r)
}

/// The elements that are their own representative.
pub open spec fn root_set(roots: Seq<int>) -> Set<int> {
    set_int_range(0, roots.len() as int).filter(|i: int| roots[i] == i)
}

/// Every element whose representative is `from` gets the representative `into`.
pub open spec fn merged_roots(roots: Seq<int>, from: int, into: int) -> Seq<int> {
    Seq::new(roots.len(), |i: int| if roots[i] == from { into } else { roots[i] })
}

/// Disjoint sets over `0..n` with path compression and union by size.
pub struct UnionFind {
    sizes: Vec<usize>,
    ids: Vec<usize>,
    pub components: usize,
    roots: Ghost<Seq<int>>,
    ranks: Ghost<Seq<nat>>,
}

impl UnionFind {
    /// Number of elements.
    pub closed spec fn len(&self) -> nat {
        self.ids@.len()
    }

    /// The representative of `i`: the root that parent pointers lead to.
    pub open spec fn root(&self, i: int) -> int {
        self.roots()[i]
    }

    /// The representative of every element, in order.
    pub closed spec fn roots(&self) -> Seq<int> {
        self.roots@
    }

    /// The number of disjoint sets.
    pub closed spec fn count(&self) -> nat {
        self.components as nat
    }

    /// The size counters.
    pub closed spec fn sizes(&self) -> Seq<usize> {
        self.sizes@
    }

    /// The size counter stored for `i` (the class size while `i` is a root).
    pub open spec fn size_of(&self, i: int) -> nat {
        self.sizes()[i] as nat
    }

    /// The stored parent pointer of `i`.
    pub closed spec fn parent_of(&self, i: int) -> int {
        self.ids@[i] as int
    }

    /// The node reached from `p` by following `k` parent pointers.
    pub open spec fn ancestor(&self, p: int, k: nat) -> int
        decreases k,
    {
        if k == 0 {
            p
        } else {
            self.parent_of(self.ancestor(p, (k - 1) as nat))
        }
    }

    pub closed spec fn wf(&self) -> bool {
        let n = self.ids@.len();
        &&& self.sizes@.len() == n
        &&& self.roots@.len() == n
        &&& self.ranks@.len() == n
        &&& self.components <= n
        &&& self.links_wf()
    }

    /// Parent pointers lead to the representatives, ranks grow towards the roots, and the
    /// size counters and the count agree with the partition.
    #[verifier::opaque]
    closed spec fn links_wf(&self) -> bool {
        let n = self.ids@.len();
        let roots = self.roots@;
        &&& forall|i: int| 0 <= i < n ==> 0 <= #[trigger] roots[i] < n
        &&& forall|i: int| 0 <= i < n ==> (#[trigger] self.ids@[i] as int) < n
        &&& forall|i: int| 0 <= i < n ==> roots[self.ids@[i] as int] == #[trigger] roots[i]
        &&& forall|i: int| 0 <= i < n ==> self.ids@[#[trigger] roots[i]] as int == roots[i]
        &&& forall|i: int| 0 <= i < n && #[trigger] self.ids@[i] as int == i ==> roots[i] == i
        &&& forall|i: int|
            0 <= i < n && #[trigger] self.ids@[i] as int != i ==> self.ranks@[i]
                < self.ranks@[self.ids@[i] as int]
        &&& forall|i: int|
            0 <= i < n && #[trigger] roots[i] != i ==> self.ranks@[i] < self.ranks@[roots[i]]
        &&& forall|i: int| 0 <= i < n ==> #[trigger] self.ranks@[i] + self.components <= n
        &&& forall|r: int|
            0 <= r < n && #[trigger] roots[r] == r ==> self.sizes@[r] as nat == class_of(
                roots,
                r,
            ).len()
        &&& root_set(roots).len() == self.components
    }

    /// What `unify(p, q)` does to the partition, the size counters and the count.
    pub open spec fn unified(old_uf: UnionFind, new_uf: UnionFind, p: int, q: int) -> bool {
        let rp = old_uf.root(p);
        let rq = old_uf.root(q);
        let sp = old_uf.sizes()[rp];
        let sq = old_uf.sizes()[rq];
        &&& new_uf.len() == old_uf.len()
        &&& if rp == rq {
            &&& new_uf.roots() == old_uf.roots()
            &&& new_uf.sizes() == old_uf.sizes()
            &&& new_uf.count() == old_uf.count()
        } else if sp < sq {
            &&& new_uf.roots() == merged_roots(old_uf.roots(), rp, rq)
            &&& new_uf.sizes() == old_uf.sizes().update(rq, (sp + sq) as usize)
            &&& new_uf.parent_of(rp) == rq
            &&& new_uf.count() == old_uf.count() - 1
        } else {
            &&& new_uf.roots() == merged_roots(old_uf.roots(), rq, rp)
            &&& new_uf.sizes() == old_uf.sizes().update(rp, (sp + sq) as usize)
            &&& new_uf.parent_of(rq) == rp
            &&& new_uf.count() == old_uf.count() - 1
        }
    }

    /// `node_count` singleton sets.
    pub fn from(node_count: usize) -> (r: UnionFind)
        ensures
            r.wf(),
            r.len() == node_count,
            r.roots().len() == node_count,
            r.count() == node_count,
            r.sizes().len() == node_count,
            forall|i: int| 0 <= i < node_count ==> #[trigger] r.root(i) == i,
            forall|i: int| 0 <= i < node_count ==> #[trigger] r.size_of(i) == 1,
            forall|i: int| 0 <= i < node_count ==> #[trigger] r.parent_of(i) == i,
    {
        let sizes = vec![1usize; node_count];
        let mut ids: Vec<usize> = Vec::with_capacity(node_count);
        let components = node_count;

        let mut i: usize = 0;
        while i < node_count
            invariant
                i <= node_count,
                ids@.len() == i,
                forall|j: int| 0 <= j < i ==> ids@[j] as int == j,
            decreases node_count - i,
        {
            ids.push(i);
            i = i + 1;
        }
        let ghost roots = Seq::new(node_count as nat, |j: int| j);
        let ghost ranks = Seq::new(node_count as nat, |j: int| 0nat);
        proof {
            reveal(UnionFind::links_wf);
            assert forall|r: int| 0 <= r < node_count implies #[trigger] class_of(roots, r).len()
                == 1 by {
                assert(class_of(roots, r) =~= set![r]);
            }
            assert(root_set(roots) =~= set_int_range(0, node_count as int));
            lemma_int_range(0, node_count as int);
        }
        UnionFind { sizes, ids, components, roots: Ghost(roots), ranks: Ghost(ranks) }
    }

    /// The representative of `p`; every node on the way is repointed to it.
    pub fn find(&mut self, p: usize) -> (r: usize)
        requires
            old(self).wf(),
            p < old(self).len(),
        ensures
            final(self).wf(),
            r as int == old(self).root(p as int),
            final(self).roots() == old(self).roots(),
            final(self).sizes() == old(self).sizes(),
            final(self).count() == old(self).count(),
            final(self).len() == old(self).len(),
            forall|i: int|
                0 <= i < old(self).len() ==> #[trigger] final(self).parent_of(i)
                    == old(self).parent_of(i) || final(self).parent_of(i) == old(self).root(i),
            final(self).parent_of(r as int) == r,
            forall|k: nat| #[trigger] final(self).parent_of(old(self).ancestor(p as int, k)) == r,
    {
        proof {
            reveal(UnionFind::links_wf);
        }
        let ghost n = self.ids@.len();
        let mut root = p;
        while root != self.ids[root]
            invariant
                self.wf(),
                n == self.ids@.len(),
                root < n,
                self.roots@[root as int] == self.roots@[p as int],
            decreases n - self.ranks@[root as int],
        {
            proof {
                reveal(UnionFind::links_wf);
            }
            root = self.ids[root];
        }
        proof {
            reveal(UnionFind::links_wf);
        }
        let ghost old_self = *self;
        let ghost p0 = p as int;
        let ghost mut k: nat = 0;
        let mut p = p;
        while p != root
            invariant
                self.wf(),
                old_self.wf(),
                n == self.ids@.len(),
                n == old_self.ids@.len(),
                p < n,
                root < n,
                root as int == self.roots@[p as int],
                p as int == old_self.ancestor(p0, k),
                forall|j: nat| j < k ==> #[trigger] self.ids@[old_self.ancestor(p0, j)] == root,
                forall|j: nat|
                    j < k ==> 0 <= #[trigger] old_self.ancestor(p0, j) < n && old_self.ranks@[old_self.ancestor(p0, j)]
                        < old_self.ranks@[p as int],
                forall|i: int|
                    0 <= i < n && #[trigger] self.ids@[i] != old_self.ids@[i] ==> exists|j: nat|
                        j < k && #[trigger] old_self.ancestor(p0, j) == i,
                self.roots@ == old_self.roots@,
                self.sizes@ == old_self.sizes@,
                self.ranks@ == old_self.ranks@,
                self.components == old_self.components,
                forall|i: int|
                    0 <= i < n ==> #[trigger] self.ids@[i] == old_self.ids@[i] || self.ids@[i] as int
                        == old_self.roots@[i],
            decreases n - self.ranks@[p as int],
        {
            proof {
                reveal(UnionFind::links_wf);
            }
            proof {
                if self.ids@[p as int] != old_self.ids@[p as int] {
                    let j = choose|j: nat| j < k && #[trigger] old_self.ancestor(p0, j) == p as int;
                    assert(old_self.ranks@[old_self.ancestor(p0, j)] < old_self.ranks@[p as int]);
                }
            }
            let next = self.ids[p];
            proof {
                assert(old_self.ancestor(p0, k + 1) == next as int);
                assert(old_self.ranks@[p as int] < old_self.ranks@[next as int]);
            }
            self.ids.set(p, root);
            p = next;
            proof {
                reveal(UnionFind::links_wf);
                k = k + 1;
                assert forall|j: nat| j < k implies #[trigger] self.ids@[old_self.ancestor(p0, j)] == root by {
                    if j + 1 < k {
                        assert(old_self.ancestor(p0, j) != old_self.ancestor(p0, (k - 1) as nat));
                    }
                }
                assert forall|i: int|
                    0 <= i < n && #[trigger] self.ids@[i] != old_self.ids@[i] implies exists|j: nat|
                        j < k && #[trigger] old_self.ancestor(p0, j) == i by {
                    if i == old_self.ancestor(p0, (k - 1) as nat) {
                        assert(old_self.ancestor(p0, (k - 1) as nat) == i);
                    }
                }
            }
        }
        proof {
            reveal(UnionFind::links_wf);
            assert(self.ids@[root as int] == root);
            assert forall|j: nat| #[trigger] self.ids@[old_self.ancestor(p0, j)] == root by {
                if j >= k {
                    lemma_ancestor_stays(old_self, p0, k, j);
                }
            }
        }
        root
    }

    /// Whether `p` and `q` are in one set.
    pub fn connected(&mut self, p: usize, q: usize) -> (r: bool)
        requires
            old(self).wf(),
            p < old(self).len(),
            q < old(self).len(),
        ensures
            final(self).wf(),
            r == (old(self).root(p as int) == old(self).root(q as int)),
            final(self).roots() == old(self).roots(),
            final(self).sizes() == old(self).sizes(),
            final(self).count() == old(self).count(),
            final(self).len() == old(self).len(),
    {
        let a = self.find(p);
        let b = self.find(q);
        a == b
    }

    /// Attaches the root `child` under the root `parent`.
    fn link(&mut self, child: usize, parent: usize)
        requires
            old(self).wf(),
            child < old(self).len(),
            parent < old(self).len(),
            child != parent,
            old(self).roots@[child as int] == child,
            old(self).roots@[parent as int] == parent,
        ensures
            final(self).wf(),
            final(self).ids@.len() == old(self).ids@.len(),
            final(self).roots@ == merged_roots(old(self).roots@, child as int, parent as int),
            final(self).sizes@ == old(self).sizes@.update(
                parent as int,
                (old(self).sizes@[parent as int] + old(self).sizes@[child as int]) as usize,
            ),
            final(self).ids@[child as int] == parent,
            final(self).components == old(self).components - 1,
            old(self).sizes@[parent as int] + old(self).sizes@[child as int] <= old(self).ids@.len(),
            old(self).sizes@[parent as int] + old(self).sizes@[child as int] <= usize::MAX,
    {
        proof {
            reveal(UnionFind::links_wf);
        }
        let ghost n = self.ids@.len() as int;
        let ghost roots = self.roots@;
        let ghost new_roots = merged_roots(roots, child as int, parent as int);
        let ghost c = child as int;
        let ghost r = parent as int;
        proof {
            lemma_int_range(0, n);
            let cc = class_of(roots, c);
            let cr = class_of(roots, r);
            assert(cc.disjoint(cr));
            lemma_set_disjoint_lens(cc, cr);
            lemma_len_subset(cc + cr, set_int_range(0, n));
            assert(root_set(roots).contains(c));
            assert(root_set(roots).contains(r));
            assert(root_set(roots).remove(c).contains(r));
            assert(root_set(roots).remove(c).len() >= 1);
            assert(new_roots =~= merged_roots(roots, c, r));
            assert(class_of(new_roots, r) =~= cc + cr);
            assert(root_set(new_roots) =~= root_set(roots).remove(c));
            assert forall|x: int| 0 <= x < n && x != r && #[trigger] new_roots[x] == x implies class_of(
                new_roots,
                x,
            ) == class_of(roots, x) by {
                assert(class_of(new_roots, x) =~= class_of(roots, x));
            }
        }
        let count = self.ids.len();
        proof {
            let cc = class_of(roots, c);
            let cr = class_of(roots, r);
            assert(self.sizes@[c] as nat == cc.len());
            assert(self.sizes@[r] as nat == cr.len());
            assert(cc.len() + cr.len() <= count);
        }
        let total = self.sizes[parent] + self.sizes[child];
        self.sizes.set(parent, total);
        let grand = self.ids[parent];
        self.ids.set(child, grand);
        self.components = self.components - 1;
        let ghost old_rank_parent = self.ranks@[r];
        let ghost new_rank = if self.ranks@[c] + 1 > old_rank_parent {
            self.ranks@[c] + 1
        } else {
            old_rank_parent
        };
        self.roots = Ghost(new_roots);
        self.ranks = Ghost(self.ranks@.update(r, new_rank));
    }

    /// Merges the sets of `p` and `q`: the root of the smaller set goes under the other root,
    /// and on equal sizes the root of `q` goes under the root of `p`.
    #[verifier::rlimit(50)]
    pub fn unify(&mut self, p: usize, q: usize)
        requires
            old(self).wf(),
            p < old(self).len(),
            q < old(self).len(),
        ensures
            final(self).wf(),
            UnionFind::unified(*old(self), *final(self), p as int, q as int),
            final(self).len() == old(self).len(),
            old(self).root(p as int) == old(self).root(q as int) ==> final(self).roots()
                == old(self).roots(),
            old(self).root(p as int) != old(self).root(q as int) ==> old(self).size_of(
                old(self).root(p as int),
            ) + old(self).size_of(old(self).root(q as int)) <= old(self).len(),
            old(self).root(p as int) != old(self).root(q as int) ==> old(self).size_of(
                old(self).root(p as int),
            ) + old(self).size_of(old(self).root(q as int)) <= usize::MAX,
            old(self).root(p as int) != old(self).root(q as int) ==> final(self).roots()
                == merged_roots(old(self).roots(), old(self).root(p as int), old(self).root(q as int))
                || final(self).roots() == merged_roots(
                old(self).roots(),
                old(self).root(q as int),
                old(self).root(p as int),
            ),
    {
        let ghost start = *self;
        let p_root = self.find(p);
        let q_root = self.find(q);
        assert(self.roots@ == start.roots@);
        assert(self.sizes@ == start.sizes@);

        if p_root == q_root {
            return;
        }
        proof {
            reveal(UnionFind::links_wf);
            assert(self.roots@[p_root as int] == p_root);
            assert(self.roots@[q_root as int] == q_root);
        }
        if self.sizes[p_root] < self.sizes[q_root] {
            self.link(p_root, q_root);
        } else {
            self.link(q_root, p_root);
        }
    }

    /// The size counter stored for `id`.
    pub fn size(&self, id: usize) -> (r: usize)
        requires
            self.wf(),
            id < self.len(),
        ensures
            r == self.size_of(id as int),
    {
        self.sizes[id]
    }

    /// The parent pointer stored for `id`.
    pub fn parent(&self, id: usize) -> (r: usize)
        requires
            self.wf(),
            id < self.len(),
        ensures
            r == self.parent_of(id as int),
    {
        self.ids[id]
    }
}

/// A well-formed structure has one representative per element.
pub proof fn lemma_roots_len(uf: UnionFind)
    requires
        uf.wf(),
    ensures
        uf.roots().len() == uf.len(),
        uf.sizes().len() == uf.len(),
{
}

/// A representative is its own representative and its own parent; an element is its own
/// parent exactly when it is a representative.
pub proof fn lemma_root_facts(uf: UnionFind, i: int)
    requires
        uf.wf(),
        0 <= i < uf.len(),
    ensures
        0 <= uf.root(i) < uf.len(),
        uf.root(uf.root(i)) == uf.root(i),
        uf.parent_of(uf.root(i)) == uf.root(i),
        uf.parent_of(i) == i <==> uf.root(i) == i,
{
    reveal(UnionFind::links_wf);
}

proof fn lemma_ancestor_stays(uf: UnionFind, p: int, k: nat, j: nat)
    requires
        uf.parent_of(uf.ancestor(p, k)) == uf.ancestor(p, k),
        k <= j,
    ensures
        uf.ancestor(p, j) == uf.ancestor(p, k),
    decreases j,
{
    if j > k {
        lemma_ancestor_stays(uf, p, k, (j - 1) as nat);
    }
}

/// How many of the first `k` calls joined two different sets.
pub open spec fn joining_calls(states: Seq<UnionFind>, pairs: Seq<(int, int)>, k: int) -> nat
    decreases k,
{
    if k <= 0 {
        0
    } else {
        let (p, q) = pairs[k - 1];
        joining_calls(states, pairs, k - 1) + if states[k - 1].root(p) != states[k - 1].root(q) {
            1nat
        } else {
            0nat
        }
    }
}

/// Starting from `n` singleton sets, after `k` calls of `unify` of which `j` joined two
/// different sets, exactly `n - j` sets are left.
#[verifier::rlimit(50)]
pub proof fn lemma_count_after_unions(states: Seq<UnionFind>, pairs: Seq<(int, int)>)
    requires
        states.len() == pairs.len() + 1,
        states[0].count() == states[0].len(),
        forall|i: int|
            0 <= i < pairs.len() ==> {
                &&& 0 <= pairs[i].0 < states[i].len()
                &&& 0 <= pairs[i].1 < states[i].len()
                &&& UnionFind::unified(#[trigger] states[i], states[i + 1], pairs[i].0, pairs[i].1)
            },
    ensures
        states.last().count() + joining_calls(states, pairs, pairs.len() as int)
            == states[0].len(),
{
    lemma_count_prefix(states, pairs, pairs.len() as int);
}

proof fn lemma_count_prefix(states: Seq<UnionFind>, pairs: Seq<(int, int)>, k: int)
    requires
        states.len() == pairs.len() + 1,
        0 <= k <= pairs.len(),
        states[0].count() == states[0].len(),
        forall|i: int|
            0 <= i < pairs.len() ==> {
                &&& 0 <= pairs[i].0 < states[i].len()
                &&& 0 <= pairs[i].1 < states[i].len()
                &&& UnionFind::unified(#[trigger] states[i], states[i + 1], pairs[i].0, pairs[i].1)
            },
    ensures
        states[k].count() + joining_calls(states, pairs, k) == states[0].len(),
        states[k].len() == states[0].len(),
    decreases k,
{
    if k > 0 {
        lemma_count_prefix(states, pairs, k - 1);
        let i = k - 1;
        assert(UnionFind::unified(states[i], states[i + 1], pairs[i].0, pairs[i].1));
        lemma_unified_count(states[i], states[k], pairs[i].0, pairs[i].1);
    }
}

proof fn lemma_unified_count(a: UnionFind, b: UnionFind, p: int, q: int)
    requires
        UnionFind::unified(a, b, p, q),
    ensures
        b.count() + (if a.root(p) != a.root(q) {
            1nat
        } else {
            0nat
        }) == a.count(),
        b.len() == a.len(),
{
}

/// Being in one set is reflexive, symmetric and transitive.
pub proof fn lemma_connected_is_equivalence(uf: UnionFind, p: int, q: int, s: int)
    ensures
        uf.root(p) == uf.root(p),
        uf.root(p) == uf.root(q) ==> uf.root(q) == uf.root(p),
        uf.root(p) == uf.root(q) && uf.root(q) == uf.root(s) ==> uf.root(p) == uf.root(s),
{
}

} // verus!
