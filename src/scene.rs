use vstd::prelude::*;

use crate::refraction::holds;

verus! {

/// Following parent links from node `i` reaches a node without a parent in at
/// most `fuel` steps.
pub open spec fn reaches_root(parents: Seq<Option<usize>>, i: usize, fuel: nat) -> bool
    decreases fuel,
{
    &&& i < parents.len()
    &&& match parents[i as int] {
        None => true,
        Some(p) => fuel > 0 && reaches_root(parents, p, (fuel - 1) as nat),
    }
}

/// Following parent links from node `i` reaches a root.
pub open spec fn rooted(parents: Seq<Option<usize>>, i: usize) -> bool {
    exists|f: nat| reaches_root(parents, i, f)
}

/// The nodes met following parent links from `i`, `i` first, for at most
/// `fuel` steps.
pub open spec fn chain(parents: Seq<Option<usize>>, i: usize, fuel: nat) -> Seq<usize>
    decreases fuel,
{
    match parents[i as int] {
        Some(p) if fuel > 0 => seq![i] + chain(parents, p, (fuel - 1) as nat),
        _ => seq![i],
    }
}

/// More fuel than needed changes nothing.
pub proof fn lemma_more_fuel(parents: Seq<Option<usize>>, i: usize, f: nat, g: nat)
    requires
        reaches_root(parents, i, f),
        f <= g,
    ensures
        reaches_root(parents, i, g),
        chain(parents, i, f) == chain(parents, i, g),
    decreases f,
{
    if let Some(p) = parents[i as int] {
        lemma_more_fuel(parents, p, (f - 1) as nat, (g - 1) as nat);
    }
}

/// A chain that reaches a root starts at `i`, steps from each node to its
/// parent, and ends at a node without a parent.
pub proof fn lemma_chain_shape(parents: Seq<Option<usize>>, i: usize, f: nat)
    requires
        reaches_root(parents, i, f),
    ensures
        chain(parents, i, f).len() >= 1,
        chain(parents, i, f)[0] == i,
        parents[chain(parents, i, f).last() as int] is None,
        forall|k: int|
            0 <= k < chain(parents, i, f).len() ==> #[trigger] chain(parents, i, f)[k]
                < parents.len(),
        forall|k: int|
            0 <= k < chain(parents, i, f).len() - 1 ==> parents[chain(parents, i, f)[k] as int]
                == Some(#[trigger] chain(parents, i, f)[k + 1]),
    decreases f,
{
    if let Some(p) = parents[i as int] {
        lemma_chain_shape(parents, p, (f - 1) as nat);
        let rest = chain(parents, p, (f - 1) as nat);
        assert(chain(parents, i, f) == seq![i] + rest);
        assert forall|k: int| 0 <= k < chain(parents, i, f).len() - 1 implies parents[chain(
            parents,
            i,
            f,
        )[k] as int] == Some(#[trigger] chain(parents, i, f)[k + 1]) by {
            assert(chain(parents, i, f)[k + 1] == rest[k]);
            if k > 0 {
                assert(chain(parents, i, f)[k] == rest[k - 1]);
                assert(parents[rest[k - 1] as int] == Some(rest[(k - 1) + 1]));
            } else {
                assert(rest[0] == p);
            }
        }
        assert forall|k: int| 0 <= k < chain(parents, i, f).len() implies #[trigger] chain(
            parents,
            i,
            f,
        )[k] < parents.len() by {
            if k > 0 {
                assert(chain(parents, i, f)[k] == rest[k - 1]);
            }
        }
    }
}

/// Giving the root `c` the parent `p`, where `c` is not met from `p`: the nodes
/// met from `p` keep their chains.
proof fn lemma_attach_keeps(
    parents: Seq<Option<usize>>,
    c: usize,
    p: usize,
    x: usize,
    f: nat,
)
    requires
        c < parents.len(),
        reaches_root(parents, x, f),
        !chain(parents, x, f).contains(c),
    ensures
        reaches_root(parents.update(c as int, Some(p)), x, f),
        chain(parents.update(c as int, Some(p)), x, f) == chain(parents, x, f),
    decreases f,
{
    let q = parents.update(c as int, Some(p));
    assert(chain(parents, x, f)[0] == x);
    if let Some(y) = parents[x as int] {
        let rest = chain(parents, y, (f - 1) as nat);
        assert(chain(parents, x, f) == seq![x] + rest);
        assert forall|k: int| 0 <= k < rest.len() implies rest[k] != c by {
            assert(chain(parents, x, f)[k + 1] == rest[k]);
        }
        lemma_attach_keeps(parents, c, p, y, (f - 1) as nat);
    }
}

/// Giving the root `c` the parent `p`, where `p` reaches a root afterwards in
/// `fp` steps: every node that reached a root before still does.
proof fn lemma_attach_reaches(
    parents: Seq<Option<usize>>,
    c: usize,
    p: usize,
    fp: nat,
    x: usize,
    f: nat,
)
    requires
        c < parents.len(),
        parents[c as int] is None,
        reaches_root(parents.update(c as int, Some(p)), p, fp),
        reaches_root(parents, x, f),
    ensures
        reaches_root(parents.update(c as int, Some(p)), x, f + fp + 1),
    decreases f,
{
    let q = parents.update(c as int, Some(p));
    if x == c {
        lemma_more_fuel(q, p, fp, f + fp);
    } else if let Some(y) = parents[x as int] {
        lemma_attach_reaches(parents, c, p, fp, y, (f - 1) as nat);
    }
}

/// Why a node could not be attached to a parent.
#[derive(Debug, Clone, Copy, PartialEq, Eq, Structural)]
pub enum AttachError {
    /// One of the two identifiers names no node.
    NoSuchNode,
    /// The child already has a parent.
    AlreadyAttached,
    /// The child is the parent itself or one of its ancestors.
    WouldCycle,
}

/// A forest of nodes, each holding an item, addressed by the identifiers that
/// `add` hands out. A node knows its parent, without owning it, and lists its
/// children in the order they were attached. Every parent link leads, after
/// finitely many steps, to a root.
pub struct SceneGraph<T> {
    items: Vec<T>,
    parent_links: Vec<Option<usize>>,
    child_lists: Vec<Vec<usize>>,
}

impl<T> SceneGraph<T> {
    pub closed spec fn count(&self) -> nat {
        self.items@.len()
    }

    pub closed spec fn item(&self, i: int) -> T {
        self.items@[i]
    }

    pub closed spec fn parents(&self) -> Seq<Option<usize>> {
        self.parent_links@
    }

    pub closed spec fn children(&self, i: int) -> Seq<usize> {
        self.child_lists@[i]@
    }

    /// The nodes from `i` up to its root, `i` first.
    pub open spec fn lineage(&self, i: usize) -> Seq<usize> {
        chain(self.parents(), i, choose|f: nat| reaches_root(self.parents(), i, f))
    }

    pub closed spec fn wf(&self) -> bool {
        let n = self.items@.len();
        &&& self.parent_links@.len() == n
        &&& self.child_lists@.len() == n
        &&& forall|i: int|
            0 <= i < n ==> match #[trigger] self.parent_links@[i] {
                None => true,
                Some(p) => p < n && self.child_lists@[p as int]@.contains(i as usize),
            }
        &&& forall|i: int, k: int|
            0 <= i < n && 0 <= k < self.child_lists@[i]@.len() ==> {
                let c = #[trigger] self.child_lists@[i]@[k];
                c < n && self.parent_links@[c as int] == Some(i as usize)
            }
        &&& forall|i: int| 0 <= i < n ==> (#[trigger] self.child_lists@[i])@.no_duplicates()
        &&& forall|i: usize| i < n ==> #[trigger] rooted(self.parent_links@, i)
    }

    /// In a well-formed graph every node has a parent link, and its lineage
    /// starts at the node, steps from each node to its parent and ends at a
    /// root.
    pub proof fn lemma_lineage_shape(&self, i: usize)
        requires
            self.wf(),
            i < self.count(),
        ensures
            self.parents().len() == self.count(),
            reaches_root(self.parents(), i, choose|f: nat| reaches_root(self.parents(), i, f)),
            self.lineage(i).len() >= 1,
            self.lineage(i)[0] == i,
            self.parents()[self.lineage(i).last() as int] is None,
            forall|k: int| 0 <= k < self.lineage(i).len() ==> #[trigger] self.lineage(i)[k] < self.count(),
            forall|k: int|
                0 <= k < self.lineage(i).len() - 1 ==> self.parents()[self.lineage(i)[k] as int]
                    == Some(#[trigger] self.lineage(i)[k + 1]),
    {
        assert(rooted(self.parent_links@, i));
        lemma_chain_shape(
            self.parents(),
            i,
            choose|f: nat| reaches_root(self.parents(), i, f),
        );
    }

    /// An empty graph.
    pub fn new() -> (r: SceneGraph<T>)
        ensures
            r.wf(),
            r.count() == 0,
            r.parents() == Seq::<Option<usize>>::empty(),
    {
        SceneGraph { items: Vec::new(), parent_links: Vec::new(), child_lists: Vec::new() }
    }

    /// The number of nodes.
    pub fn len(&self) -> (r: usize)
        requires
            self.wf(),
        ensures
            r == self.count(),
    {
        self.items.len()
    }

    /// Adds `item` as a new root without children and returns its identifier.
    pub fn add(&mut self, item: T) -> (r: usize)
        requires
            old(self).wf(),
        ensures
            final(self).wf(),
            r == old(self).count(),
            final(self).count() == old(self).count() + 1,
            final(self).item(r as int) == item,
            final(self).parents() == old(self).parents().push(None),
            final(self).children(r as int).len() == 0,
            forall|i: int|
                0 <= i < old(self).count() ==> #[trigger] final(self).item(i) == old(self).item(i)
                    && final(self).children(i) == old(self).children(i),
    {
        let r = self.items.len();
        self.items.push(item);
        self.parent_links.push(None);
        self.child_lists.push(Vec::new());
        proof {
            let n = self.items@.len();
            let ps = self.parent_links@;
            let olds = old(self).parent_links@;
            assert forall|i: usize| i < n implies #[trigger] rooted(ps, i) by {
                if i == r {
                    assert(reaches_root(ps, i, 0));
                } else {
                    assert(rooted(olds, i));
                    let f = choose|f: nat| reaches_root(olds, i, f);
                    lemma_push_keeps(olds, i, f);
                }
            }
            assert forall|i: int| 0 <= i < n implies (#[trigger] self.child_lists@[i])@.no_duplicates() by {
                if i == r {
                    assert(self.child_lists@[i]@.len() == 0);
                }
            }
        }
        r
    }

    /// The item of node `id`.
    pub fn get(&self, id: usize) -> (r: &T)
        requires
            self.wf(),
            id < self.count(),
        ensures
            *r == self.item(id as int),
    {
        &self.items[id]
    }

    /// Replaces the item of node `id`; the links stay as they were, so the
    /// descendants of `id` see the new item when they walk their lineage.
    pub fn set(&mut self, id: usize, item: T)
        requires
            old(self).wf(),
            id < old(self).count(),
        ensures
            final(self).wf(),
            final(self).count() == old(self).count(),
            final(self).item(id as int) == item,
            final(self).parents() == old(self).parents(),
            forall|i: int|
                0 <= i < old(self).count() ==> #[trigger] final(self).children(i) == old(self).children(i),
            forall|i: int|
                0 <= i < old(self).count() && i != id ==> #[trigger] final(self).item(i) == old(self).item(i),
    {
        self.items.set(id, item);
    }

    /// The parent of node `id`, if it has one.
    pub fn parent_of(&self, id: usize) -> (r: Option<usize>)
        requires
            self.wf(),
            id < self.count(),
        ensures
            r == self.parents()[id as int],
    {
        self.parent_links[id]
    }

    /// The children of node `id`, in the order they were attached.
    pub fn children_of(&self, id: usize) -> (r: &Vec<usize>)
        requires
            self.wf(),
            id < self.count(),
        ensures
            r@ == self.children(id as int),
    {
        &self.child_lists[id]
    }

    /// The nodes from `id` up to its root, `id` first: each is the parent of
    /// the one before it, and the last has no parent. Points go from world
    /// space to a node's space through this list backwards, normals the other
    /// way through it forwards.
    pub fn lineage_of(&self, id: usize) -> (r: Vec<usize>)
        requires
            self.wf(),
            id < self.count(),
        ensures
            r@ == self.lineage(id),
            r@.len() >= 1,
            r@[0] == id,
            self.parents()[r@.last() as int] is None,
            forall|k: int| 0 <= k < r@.len() ==> #[trigger] r@[k] < self.count(),
            forall|k: int|
                0 <= k < r@.len() - 1 ==> self.parents()[r@[k] as int] == Some(#[trigger] r@[k + 1]),
    {
        let ghost ps = self.parent_links@;
        assert(rooted(ps, id));
        let ghost f0 = choose|f: nat| reaches_root(ps, id, f);
        proof {
            lemma_chain_shape(ps, id, f0);
        }
        let mut r: Vec<usize> = Vec::new();
        let mut cur = id;
        let ghost mut fuel = f0;
        r.push(cur);
        while self.parent_links[cur].is_some()
            invariant
                self.wf(),
                ps == self.parent_links@,
                reaches_root(ps, cur, fuel),
                r@.len() >= 1,
                r@.last() == cur,
                r@.drop_last() + chain(ps, cur, fuel) == chain(ps, id, f0),
            decreases fuel,
        {
            let p = self.parent_links[cur].unwrap();
            proof {
                assert(chain(ps, cur, fuel) == seq![cur] + chain(ps, p, (fuel - 1) as nat));
                assert(r@ + chain(ps, p, (fuel - 1) as nat) == r@.drop_last() + chain(
                    ps,
                    cur,
                    fuel,
                ));
                fuel = (fuel - 1) as nat;
            }
            let ghost before = r@;
            r.push(p);
            cur = p;
            proof {
                assert(r@.drop_last() == before);
            }
        }
        proof {
            assert(chain(ps, cur, fuel) == seq![cur]);
            assert(r@.drop_last() + seq![cur] == r@);
        }
        r
    }

    /// Attaches the root `child` below `parent`, as its last child.
    pub fn add_child(&mut self, parent: usize, child: usize) -> (r: Result<(), AttachError>)
        requires
            old(self).wf(),
        ensures
            final(self).wf(),
            final(self).count() == old(self).count(),
            (parent >= old(self).count() || child >= old(self).count()) <==> r == Err::<
                (),
                AttachError,
            >(AttachError::NoSuchNode),
            (parent < old(self).count() && child < old(self).count() && old(self).parents()[child as int] is Some)
                <==> r == Err::<(), AttachError>(AttachError::AlreadyAttached),
            (parent < old(self).count() && child < old(self).count() && old(self).parents()[child as int] is None
                && old(self).lineage(parent).contains(child)) <==> r == Err::<(), AttachError>(
                AttachError::WouldCycle,
            ),
            r is Ok <==> (parent < old(self).count() && child < old(self).count()
                && old(self).parents()[child as int] is None && !old(self).lineage(parent).contains(
                child,
            )),
            r is Err ==> final(self).parents() == old(self).parents(),
            r is Ok ==> final(self).parents() == old(self).parents().update(
                child as int,
                Some(parent),
            ),
            r is Ok ==> final(self).children(parent as int) == old(self).children(
                parent as int,
            ).push(child),
            forall|i: int|
                0 <= i < old(self).count() ==> #[trigger] final(self).item(i) == old(self).item(i),
            forall|i: int|
                0 <= i < old(self).count() && (r is Err || i != parent) ==> #[trigger] final(self).children(i) == old(self).children(i),
    {
        let n = self.items.len();
        if parent >= n || child >= n {
            return Err(AttachError::NoSuchNode);
        }
        if self.parent_links[child].is_some() {
            return Err(AttachError::AlreadyAttached);
        }
        let up = self.lineage_of(parent);
        if holds(&up, child) {
            return Err(AttachError::WouldCycle);
        }
        let ghost olds = self.parent_links@;
        assert(rooted(olds, parent));
        let ghost fp = choose|f: nat| reaches_root(olds, parent, f);
        let mut list = self.child_lists[parent].clone();
        list.push(child);
        self.child_lists.set(parent, list);
        self.parent_links.set(child, Some(parent));
        proof {
            let ps = self.parent_links@;
            assert(ps == olds.update(child as int, Some(parent)));
            lemma_attach_keeps(olds, child, parent, parent, fp);
            assert forall|i: usize| i < n implies #[trigger] rooted(ps, i) by {
                assert(rooted(olds, i));
                let f = choose|f: nat| reaches_root(olds, i, f);
                lemma_attach_reaches(olds, child, parent, fp, i, f);
            }
            assert forall|i: int| 0 <= i < n implies match #[trigger] self.parent_links@[i] {
                None => true,
                Some(p) => p < n && self.child_lists@[p as int]@.contains(i as usize),
            } by {
                if i == child {
                    assert(self.child_lists@[parent as int]@.last() == child);
                } else if let Some(p) = olds[i] {
                    let k = choose|k: int|
                        0 <= k < old(self).child_lists@[p as int]@.len()
                            && old(self).child_lists@[p as int]@[k] == i as usize;
                    assert(self.child_lists@[p as int]@[k] == i as usize);
                }
            }
            assert forall|i: int, k: int|
                0 <= i < n && 0 <= k < self.child_lists@[i]@.len() implies {
                let c = #[trigger] self.child_lists@[i]@[k];
                c < n && self.parent_links@[c as int] == Some(i as usize)
            } by {
                if i == parent && k == self.child_lists@[i]@.len() - 1 {
                } else {
                    assert(self.child_lists@[i]@[k] == old(self).child_lists@[i]@[k]);
                    assert(old(self).child_lists@[i]@[k] != child);
                }
            }
            assert forall|i: int| 0 <= i < n implies (#[trigger] self.child_lists@[i])@.no_duplicates() by {
                if i == parent {
                    let s = self.child_lists@[i]@;
                    let o = old(self).child_lists@[i]@;
                    assert(!o.contains(child)) by {
                        if o.contains(child) {
                            let k = choose|k: int| 0 <= k < o.len() && o[k] == child;
                            assert(old(self).child_lists@[i]@[k] == child);
                        }
                    }
                    assert forall|a: int, b: int| 0 <= a < s.len() && 0 <= b < s.len() && a != b implies s[a] != s[b] by {
                        if a < o.len() && b < o.len() {
                            assert(o[a] != o[b]);
                        } else if a < o.len() {
                            assert(o[a] != child);
                        } else if b < o.len() {
                            assert(o[b] != child);
                        }
                    }
                }
            }
        }
        Ok(())
    }
}

/// Adding a root leaves every other node's way to its root as it was.
proof fn lemma_push_keeps(parents: Seq<Option<usize>>, i: usize, f: nat)
    requires
        reaches_root(parents, i, f),
    ensures
        reaches_root(parents.push(None), i, f),
    decreases f,
{
    if let Some(p) = parents[i as int] {
        lemma_push_keeps(parents, p, (f - 1) as nat);
    }
}

} // verus!
