//! The contraction resolver: a mapping from node ids to representatives,
//! followed to a fixed point with path compression.
use crate::graph::GfaError;
use std::collections::HashMap;
use vstd::prelude::*;

verus! {

broadcast use vstd::std_specs::hash::group_hash_axioms;

/// Every id maps to an id that is present and not larger: following the map
/// always ends at a fixed point.
pub open spec fn descending(m: Map<u32, u32>) -> bool {
    forall|y: u32| m.contains_key(y) ==> m.contains_key(#[trigger] m[y]) && m[y] <= y
}

/// The fixed point reached from `x` by following the map while ids decrease.
#[verifier::opaque]
pub open spec fn find(m: Map<u32, u32>, x: u32) -> u32
    decreases x,
{
    if m.contains_key(x) && m[x] < x {
        find(m, m[x])
    } else {
        x
    }
}

/// `y` is met on the way from `x` to its fixed point.
#[verifier::opaque]
pub open spec fn on_chain(m: Map<u32, u32>, x: u32, y: u32) -> bool
    decreases x,
{
    x == y || (m.contains_key(x) && m[x] < x && on_chain(m, m[x], y))
}

/// The outcome of following a map from `x` for at most `fuel` hops: the fixed
/// point, the first id that the map does not hold, or the id at which the hops
/// ran out without a fixed point.
pub open spec fn resolve_within(m: Map<u32, u32>, x: u32, fuel: nat) -> Result<u32, GfaError>
    decreases fuel,
{
    if !m.contains_key(x) {
        Err(GfaError::NotFound { node: x })
    } else if m[x] == x {
        Ok(x)
    } else if fuel == 0 {
        Err(GfaError::Cycle { node: x })
    } else {
        resolve_within(m, m[x], (fuel - 1) as nat)
    }
}

pub proof fn lemma_find_root(m: Map<u32, u32>, x: u32)
    requires
        descending(m),
        m.contains_key(x),
    ensures
        m.contains_key(find(m, x)),
        m[find(m, x)] == find(m, x),
        find(m, x) <= x,
        on_chain(m, x, find(m, x)),
    decreases x,
{
    reveal(find);
    reveal(on_chain);
    if m[x] < x {
        lemma_find_root(m, m[x]);
    }
}

pub proof fn lemma_chain(m: Map<u32, u32>, x: u32, y: u32)
    requires
        descending(m),
        m.contains_key(x),
        on_chain(m, x, y),
    ensures
        m.contains_key(y),
        y <= x,
        find(m, y) == find(m, x),
    decreases x,
{
    reveal(find);
    reveal(on_chain);
    if x != y {
        lemma_chain(m, m[x], y);
    }
}

/// Two ids met on the way from `x` are met one from the other.
pub proof fn lemma_chain_total(m: Map<u32, u32>, x: u32, a: u32, b: u32)
    requires
        on_chain(m, x, a),
        on_chain(m, x, b),
    ensures
        on_chain(m, a, b) || on_chain(m, b, a),
    decreases x,
{
    reveal(find);
    reveal(on_chain);
    if x != a && x != b {
        lemma_chain_total(m, m[x], a, b);
    }
}

/// `y` is met on the way from `x` to a fixed point within `fuel` hops, the
/// fixed point included.
pub open spec fn met_within(m: Map<u32, u32>, x: u32, fuel: nat, y: u32) -> bool
    decreases fuel,
{
    m.contains_key(x) && (x == y || (m[x] != x && fuel > 0 && met_within(
        m,
        m[x],
        (fuel - 1) as nat,
        y,
    )))
}

/// Follows the map from `start` for at most as many hops as it has ids. When a
/// fixed point is reached, every id met on the way is redirected to it; on an
/// error the map is left as it is.
pub fn resolve_dep(mapping: &mut HashMap<u32, u32>, start: u32) -> (r: Result<u32, GfaError>)
    ensures
        r == resolve_within(old(mapping)@, start, old(mapping)@.len()),
        final(mapping)@.dom() == old(mapping)@.dom(),
        match r {
            Ok(x) => forall|y: u32| #[trigger]
                old(mapping)@.contains_key(y) ==> final(mapping)@[y] == if met_within(
                    old(mapping)@,
                    start,
                    old(mapping)@.len(),
                    y,
                ) {
                    x
                } else {
                    old(mapping)@[y]
                },
            Err(_) => final(mapping)@ == old(mapping)@,
        },
{
    let ghost m = mapping@;
    let mut id = start;
    let mut fuel: usize = mapping.len();
    let mut seen: Vec<u32> = Vec::new();
    loop
        invariant
            mapping@ == m,
            resolve_within(m, id, fuel as nat) == resolve_within(m, start, m.len()),
            forall|y: u32|
                #![trigger met_within(m, start, m.len(), y)]
                #![trigger met_within(m, id, fuel as nat, y)]
                met_within(m, start, m.len(), y) <==> (seen@.contains(y) || met_within(
                    m,
                    id,
                    fuel as nat,
                    y,
                )),
            forall|i: int| 0 <= i < seen@.len() ==> m.contains_key(#[trigger] seen@[i]),
        ensures
            mapping@ == m,
            m.contains_key(id),
            m[id] == id,
            resolve_within(m, start, m.len()) == Ok::<u32, GfaError>(id),
            forall|y: u32| met_within(m, start, m.len(), y) <==> (seen@.contains(y) || y == id),
            forall|i: int| 0 <= i < seen@.len() ==> m.contains_key(#[trigger] seen@[i]),
        decreases fuel,
    {
        match mapping.get(&id) {
            None => return Err(GfaError::NotFound { node: id }),
            Some(next) => {
                let next = *next;
                if next == id {
                    assert forall|y: u32| met_within(m, start, m.len(), y) <==> (seen@.contains(y) || y
                        == id) by {
                        assert(met_within(m, id, fuel as nat, y) <==> y == id);
                    }
                    break;
                }
                if fuel == 0 {
                    return Err(GfaError::Cycle { node: id });
                }
                let ghost prev = seen@;
                let ghost old_id = id;
                let ghost old_fuel = fuel as nat;
                proof {
                    assert forall|y: u32| #[trigger] met_within(m, id, fuel as nat, y) <==> (y == id
                        || met_within(m, next, (fuel - 1) as nat, y)) by {}
                }
                seen.push(id);
                proof {
                    assert forall|y: u32| seen@.contains(y) <==> (prev.contains(y) || y == id) by {
                        if seen@.contains(y) {
                            let k = choose|k: int| 0 <= k < seen@.len() && seen@[k] == y;
                            if k < prev.len() {
                                assert(prev[k] == y);
                            }
                        }
                        if y == id {
                            assert(seen@[prev.len() as int] == y);
                        }
                        if prev.contains(y) {
                            let k = choose|k: int| 0 <= k < prev.len() && prev[k] == y;
                            assert(seen@[k] == y);
                        }
                    }
                }
                id = next;
                fuel -= 1;
                proof {
                    assert forall|y: u32|
                        #![trigger met_within(m, start, m.len(), y)]
                        #![trigger met_within(m, id, fuel as nat, y)]
                        met_within(m, start, m.len(), y) <==> (seen@.contains(y)
                            || met_within(m, id, fuel as nat, y)) by {
                        assert(seen@.contains(y) <==> (prev.contains(y) || y == old_id));
                        assert(met_within(m, start, m.len(), y) <==> (prev.contains(y) || met_within(
                            m,
                            old_id,
                            old_fuel,
                            y,
                        )));
                        assert(met_within(m, old_id, old_fuel, y) <==> (y == old_id || met_within(
                            m,
                            id,
                            fuel as nat,
                            y,
                        )));
                    }
                }
            },
        }
    }
    // redirect every id met on the way
    let mut i: usize = 0;
    while i < seen.len()
        invariant
            i <= seen.len(),
            m.contains_key(id),
            m[id] == id,
            mapping@.dom() == m.dom(),
            forall|k: int| 0 <= k < seen@.len() ==> m.contains_key(#[trigger] seen@[k]),
            forall|y: u32| #[trigger]
                m.contains_key(y) ==> mapping@[y] == if seen@.subrange(0, i as int).contains(y) {
                    id
                } else {
                    m[y]
                },
        decreases seen.len() - i,
    {
        let ghost before = mapping@;
        let x = seen[i];
        mapping.insert(x, id);
        proof {
            assert(mapping@.dom() =~= m.dom());
            assert forall|y: u32| #[trigger] m.contains_key(y) implies mapping@[y] == if seen@.subrange(
                0,
                i + 1,
            ).contains(y) {
                id
            } else {
                m[y]
            } by {
                let p = seen@.subrange(0, i as int);
                assert(seen@.subrange(0, i + 1) =~= p.push(x));
                if p.contains(y) {
                    let k = choose|k: int| 0 <= k < p.len() && p[k] == y;
                    assert(p.push(x)[k] == y);
                }
                if p.push(x).contains(y) && y != x {
                    let k = choose|k: int| 0 <= k < p.len() + 1 && p.push(x)[k] == y;
                    assert(p[k] == y);
                }
                if y == x {
                    assert(p.push(x)[p.len() as int] == y);
                }
            }
        }
        i += 1;
    }
    proof {
        assert(seen@.subrange(0, seen@.len() as int) =~= seen@);
    }
    Ok(id)
}

/// The id reached from `x` after `k` hops.
pub open spec fn hop(m: Map<u32, u32>, x: u32, k: nat) -> u32
    decreases k,
{
    if k == 0 {
        x
    } else {
        m[hop(m, x, (k - 1) as nat)]
    }
}

proof fn lemma_reach(m: Map<u32, u32>, start: u32, k: nat, i: nat, fuel: nat)
    requires
        i <= k,
        fuel >= k - i,
        forall|j: nat| j <= k ==> m.contains_key(#[trigger] hop(m, start, j)),
        m[hop(m, start, k)] == hop(m, start, k),
        forall|a: nat, b: nat| a < b <= k ==> hop(m, start, a) != hop(m, start, b),
    ensures
        resolve_within(m, hop(m, start, i), fuel) == Ok::<u32, GfaError>(hop(m, start, k)),
    decreases k - i,
{
    if i < k {
        assert(hop(m, start, i + 1) == m[hop(m, start, i)]);
        assert(hop(m, start, i) != hop(m, start, (i + 1) as nat));
        assert(m.contains_key(hop(m, start, i)));
        lemma_reach(m, start, k, i + 1, (fuel - 1) as nat);
    } else {
        assert(m.contains_key(hop(m, start, k)));
    }
}

/// A chain that reaches a fixed point without meeting any id twice is at most
/// as long as the map has ids, so resolution ends at that fixed point rather
/// than reporting a cycle.
pub proof fn law_resolve_reaches(m: Map<u32, u32>, start: u32, k: nat)
    requires
        m.dom().finite(),
        forall|j: nat| j <= k ==> m.contains_key(#[trigger] hop(m, start, j)),
        m[hop(m, start, k)] == hop(m, start, k),
        forall|a: nat, b: nat| a < b <= k ==> hop(m, start, a) != hop(m, start, b),
    ensures
        k < m.len(),
        resolve_within(m, start, m.len()) == Ok::<u32, GfaError>(hop(m, start, k)),
{
    let s = Seq::new(k + 1, |i: int| hop(m, start, i as nat));
    assert forall|a: int, b: int| 0 <= a < s.len() && 0 <= b < s.len() && a != b implies s[a]
        != s[b] by {
        if a < b {
            assert(hop(m, start, a as nat) != hop(m, start, b as nat));
        } else {
            assert(hop(m, start, b as nat) != hop(m, start, a as nat));
        }
    }
    assert(s.no_duplicates());
    s.unique_seq_to_set();
    assert forall|x: u32| s.to_set().contains(x) implies m.dom().contains(x) by {
        let i = choose|i: int| 0 <= i < s.len() && s[i] == x;
        assert(m.contains_key(hop(m, start, i as nat)));
    }
    vstd::set_lib::lemma_len_subset(s.to_set(), m.dom());
    lemma_reach(m, start, k, 0, m.len());
}

/// Node ids and their representatives, kept descending so that resolution
/// always ends.
pub struct Mapping {
    pub parent: HashMap<u32, u32>,
}

impl Mapping {
    pub open spec fn wf(&self) -> bool {
        descending(self.parent@)
    }

    /// The representative of `x`.
    #[verifier::opaque]
    pub open spec fn rep(&self, x: u32) -> u32 {
        find(self.parent@, x)
    }

    pub fn new() -> (m: Mapping)
        ensures
            m.wf(),
            m.parent@ == Map::<u32, u32>::empty(),
    {
        Mapping { parent: HashMap::new() }
    }

    /// Adds `x` as its own representative; an id already held is left as it is.
    pub fn observe(&mut self, x: u32)
        requires
            old(self).wf(),
        ensures
            final(self).wf(),
            final(self).parent@.dom() == old(self).parent@.dom().insert(x),
            forall|y: u32| #[trigger]
                old(self).parent@.contains_key(y) ==> final(self).rep(y) == old(self).rep(y),
            final(self).rep(x) == if old(self).parent@.contains_key(x) {
                old(self).rep(x)
            } else {
                x
            },
    {
        reveal(Mapping::rep);
        reveal(find);
        reveal(on_chain);
        if !self.parent.contains_key(&x) {
            let ghost m = self.parent@;
            self.parent.insert(x, x);
            let ghost m2 = self.parent@;
            assert forall|y: u32| #[trigger] m.contains_key(y) implies find(m2, y) == find(m, y) by {
                lemma_find_same_on_old(m, m2, x, y);
            }
            assert(self.parent@.dom() =~= m.dom().insert(x));
        }
    }

    /// The representative of `x`; every id met on the way is redirected to it.
    pub fn resolve(&mut self, x: u32) -> (r: u32)
        requires
            old(self).wf(),
            old(self).parent@.contains_key(x),
        ensures
            r == old(self).rep(x),
            final(self).wf(),
            final(self).parent@.dom() == old(self).parent@.dom(),
            forall|y: u32|
                final(self).parent@.contains_key(y) ==> #[trigger] final(self).parent@[y] == if on_chain(
                    old(self).parent@,
                    x,
                    y,
                ) {
                    r
                } else {
                    old(self).parent@[y]
                },
            forall|y: u32| #[trigger]
                final(self).parent@.contains_key(y) ==> final(self).rep(y) == old(self).rep(y),
            final(self).parent@.contains_key(r),
            final(self).parent@[r] == r,
            final(self).rep(r) == r,
            forall|y: u32|
                old(self).parent@.contains_key(y) && #[trigger] old(self).parent@[y] == y
                    ==> final(self).parent@[y] == y,
    {
        reveal(Mapping::rep);
        reveal(find);
        reveal(on_chain);
        let ghost m = self.parent@;
        // find the fixed point
        let mut root = x;
        loop
            invariant
                self.parent@ == m,
                descending(m),
                m.contains_key(x),
                m.contains_key(root),
                on_chain(m, x, root),
                find(m, root) == find(m, x),
            ensures
                self.parent@ == m,
                m.contains_key(root),
                m[root] == root,
                find(m, root) == find(m, x),
            decreases root,
        {
            let next = *self.parent.get(&root).unwrap();
            if next == root {
                break;
            }
            proof {
                lemma_chain_extend(m, x, root);
            }
            root = next;
        }
        proof {
            lemma_find_root(m, x);
            lemma_compress_start(m, x);
        }
        // redirect the ids met on the way
        let mut cur = x;
        while cur != root
            invariant
                descending(m),
                m.contains_key(x),
                m.contains_key(cur),
                on_chain(m, x, cur),
                find(m, cur) == root,
                root == find(m, x),
                self.parent@ == compressed(m, x, root, cur),
            decreases cur,
        {
            let next = *self.parent.get(&cur).unwrap();
            proof {
                lemma_compress_step(m, x, root, cur);
            }
            self.parent.insert(cur, root);
            cur = next;
        }
        proof {
            lemma_compress_done(m, x);
            assert forall|y: u32| m.contains_key(y) && #[trigger] m[y] == y implies self.parent@[y]
                == y by {
                if on_chain(m, x, y) {
                    lemma_chain(m, x, y);
                }
            }
        }
        root
    }

    /// Makes `s` the representative of every id that `t` represents.
    pub fn union_roots(&mut self, s: u32, t: u32)
        requires
            old(self).wf(),
            s < t,
            old(self).parent@.contains_key(s),
            old(self).parent@.contains_key(t),
            old(self).parent@[s] == s,
            old(self).parent@[t] == t,
        ensures
            final(self).wf(),
            final(self).parent@.dom() == old(self).parent@.dom(),
            forall|y: u32| #[trigger]
                final(self).parent@.contains_key(y) ==> final(self).rep(y) == if old(self).rep(y)
                    == t {
                    s
                } else {
                    old(self).rep(y)
                },
    {
        reveal(Mapping::rep);
        reveal(find);
        reveal(on_chain);
        let ghost m = self.parent@;
        self.parent.insert(t, s);
        proof {
            lemma_union(m, self.parent@, s, t);
        }
    }
}

/// `m` after the ids met on the way from `x` and larger than `cur` have been
/// redirected to `root`.
pub open spec fn compressed(m: Map<u32, u32>, x: u32, root: u32, cur: u32) -> Map<u32, u32> {
    Map::new(
        |y: u32| m.contains_key(y),
        |y: u32|
            if on_chain(m, x, y) && y > cur {
                root
            } else {
                m[y]
            },
    )
}

proof fn lemma_compress_start(m: Map<u32, u32>, x: u32)
    requires
        descending(m),
        m.contains_key(x),
    ensures
        m == compressed(m, x, find(m, x), x),
{
    reveal(find);
    reveal(on_chain);
    assert forall|y: u32| #[trigger] m.contains_key(y) && on_chain(m, x, y) implies y <= x by {
        lemma_chain(m, x, y);
    }
    assert(m =~= compressed(m, x, find(m, x), x));
}

proof fn lemma_compress_step(m: Map<u32, u32>, x: u32, root: u32, cur: u32)
    requires
        descending(m),
        m.contains_key(x),
        m.contains_key(cur),
        on_chain(m, x, cur),
        find(m, cur) == root,
        root == find(m, x),
        cur != root,
    ensures
        m[cur] < cur,
        m.contains_key(m[cur]),
        on_chain(m, x, m[cur]),
        find(m, m[cur]) == root,
        compressed(m, x, root, cur).insert(cur, root) == compressed(m, x, root, m[cur]),
        compressed(m, x, root, cur)[cur] == m[cur],
{
    reveal(find);
    reveal(on_chain);
    let next = m[cur];
    lemma_find_root(m, cur);
    assert(next < cur);
    lemma_chain_extend(m, x, cur);
    assert forall|y: u32| on_chain(m, x, y) && y > next implies (on_chain(m, x, y) && y > cur) || y
        == cur by {
        lemma_chain_total(m, x, cur, y);
        if on_chain(m, cur, y) && y != cur {
            assert(on_chain(m, next, y));
            lemma_chain(m, next, y);
        }
        if on_chain(m, y, cur) {
            lemma_chain(m, y, cur);
        }
    }
    assert(compressed(m, x, root, cur).insert(cur, root) =~= compressed(m, x, root, next));
}

proof fn lemma_compress_done(m: Map<u32, u32>, x: u32)
    requires
        descending(m),
        m.contains_key(x),
    ensures
        descending(compressed(m, x, find(m, x), find(m, x))),
        forall|y: u32| #[trigger]
            m.contains_key(y) ==> compressed(m, x, find(m, x), find(m, x))[y] == if on_chain(
                m,
                x,
                y,
            ) {
                find(m, x)
            } else {
                m[y]
            },
        forall|y: u32| #[trigger]
            m.contains_key(y) ==> find(compressed(m, x, find(m, x), find(m, x)), y) == find(m, y),
{
    reveal(find);
    reveal(on_chain);
    let root = find(m, x);
    let m2 = compressed(m, x, root, root);
    lemma_find_root(m, x);
    assert(m2.dom() =~= m.dom());
    assert forall|y: u32| #[trigger] m.contains_key(y) implies m2[y] == if on_chain(m, x, y) {
        root
    } else {
        m[y]
    } by {
        if on_chain(m, x, y) && y <= root {
            lemma_chain(m, x, y);
            lemma_find_root(m, y);
        }
    }
    assert forall|y: u32| #[trigger] m2.contains_key(y) implies m2.contains_key(m2[y]) && m2[y]
        <= y by {
        if on_chain(m, x, y) {
            lemma_chain(m, x, y);
            lemma_find_root(m, y);
        }
    }
    assert forall|y: u32| #[trigger] m.contains_key(y) implies find(m2, y) == find(m, y) by {
        lemma_compressed_find(m, m2, x, root, y);
    }
}

proof fn lemma_chain_extend(m: Map<u32, u32>, x: u32, y: u32)
    requires
        descending(m),
        m.contains_key(x),
        on_chain(m, x, y),
        m[y] < y,
    ensures
        on_chain(m, x, m[y]),
        find(m, m[y]) == find(m, y),
    decreases x,
{
    reveal(find);
    reveal(on_chain);
    if x != y {
        lemma_chain_extend(m, m[x], y);
        assert(on_chain(m, m[x], m[y]));
    } else {
        assert(on_chain(m, m[y], m[y]));
    }
}

proof fn lemma_find_same_on_old(m: Map<u32, u32>, m2: Map<u32, u32>, x: u32, y: u32)
    requires
        descending(m),
        !m.contains_key(x),
        m2 == m.insert(x, x),
        m.contains_key(y),
    ensures
        find(m2, y) == find(m, y),
    decreases y,
{
    reveal(find);
    reveal(on_chain);
    if m[y] < y {
        lemma_find_same_on_old(m, m2, x, m[y]);
    }
}

proof fn lemma_compressed_find(m: Map<u32, u32>, m2: Map<u32, u32>, x: u32, root: u32, y: u32)
    requires
        descending(m),
        m.contains_key(x),
        root == find(m, x),
        m2.dom() == m.dom(),
        forall|z: u32| #[trigger]
            m2.contains_key(z) ==> m2[z] == if on_chain(m, x, z) {
                root
            } else {
                m[z]
            },
        m.contains_key(y),
    ensures
        find(m2, y) == find(m, y),
    decreases y,
{
    reveal(find);
    reveal(on_chain);
    lemma_find_root(m, x);
    assert(m2.contains_key(y));
    assert(m2.contains_key(root));
    assert(m2[root] == root);
    assert(find(m2, root) == root);
    if on_chain(m, x, y) {
        lemma_chain(m, x, y);
        lemma_find_root(m, y);
        assert(find(m, y) == root);
        assert(m2[y] == root);
        if root < y {
            assert(find(m2, y) == find(m2, root));
        } else {
            assert(find(m2, y) == y);
        }
    } else {
        assert(m2[y] == m[y]);
        if m[y] < y {
            assert(m.contains_key(m[y]));
            lemma_compressed_find(m, m2, x, root, m[y]);
            assert(find(m2, y) == find(m2, m[y]));
        } else {
            assert(find(m2, y) == y);
        }
    }
}

proof fn lemma_union(m: Map<u32, u32>, m2: Map<u32, u32>, s: u32, t: u32)
    requires
        descending(m),
        s < t,
        m.contains_key(s),
        m.contains_key(t),
        m[s] == s,
        m[t] == t,
        m2 == m.insert(t, s),
    ensures
        descending(m2),
        m2.dom() == m.dom(),
        forall|y: u32| #[trigger]
            m2.contains_key(y) ==> find(m2, y) == if find(m, y) == t {
                s
            } else {
                find(m, y)
            },
{
    reveal(find);
    reveal(on_chain);
    assert(m2.dom() =~= m.dom());
    assert forall|y: u32| #[trigger] m2.contains_key(y) implies m2.contains_key(m2[y]) && m2[y]
        <= y by {
        if y != t {
            assert(m.contains_key(y));
        }
    }
    assert forall|y: u32| #[trigger] m2.contains_key(y) implies find(m2, y) == if find(m, y) == t {
        s
    } else {
        find(m, y)
    } by {
        lemma_union_find(m, m2, s, t, y);
    }
}

proof fn lemma_union_find(m: Map<u32, u32>, m2: Map<u32, u32>, s: u32, t: u32, y: u32)
    requires
        descending(m),
        s < t,
        m.contains_key(s),
        m.contains_key(t),
        m[s] == s,
        m[t] == t,
        m2 == m.insert(t, s),
        m.contains_key(y),
    ensures
        find(m2, y) == if find(m, y) == t {
            s
        } else {
            find(m, y)
        },
    decreases y,
{
    reveal(find);
    reveal(on_chain);
    if y == t {
        assert(find(m2, s) == s);
    } else if m[y] < y {
        lemma_union_find(m, m2, s, t, m[y]);
    } else {
        assert(y != t);
    }
}

} // verus!
