//! Detection of one dependency cycle by depth-first search.
use vstd::prelude::*;

verus! {

/// Whether some entry has key `k`.
pub open spec fn has_key(deps: Seq<(u64, Vec<u64>)>, k: u64) -> bool {
    exists|i: int| 0 <= i < deps.len() && #[trigger] deps[i].0 == k
}

/// Whether entry `i` is the first entry with key `k`; the first entry is the one that counts.
pub open spec fn is_first_entry(deps: Seq<(u64, Vec<u64>)>, k: u64, i: int) -> bool {
    &&& 0 <= i < deps.len()
    &&& deps[i].0 == k
    &&& forall|j: int| 0 <= j < i ==> #[trigger] deps[j].0 != k
}

/// The place of the first entry with key `k`.
pub open spec fn key_index(deps: Seq<(u64, Vec<u64>)>, k: u64) -> int {
    choose|i: int| is_first_entry(deps, k, i)
}

/// Whether `a` is a key whose (first) entry lists `b` among its dependencies.
pub open spec fn depends_on(deps: Seq<(u64, Vec<u64>)>, a: u64, b: u64) -> bool {
    has_key(deps, a) && deps[key_index(deps, a)].1@.contains(b)
}

/// Whether `c` is a closed walk along dependencies: at least two long, ending where it starts,
/// each element depending on the next.
pub open spec fn is_closed_cycle(deps: Seq<(u64, Vec<u64>)>, c: Seq<u64>) -> bool {
    &&& c.len() >= 2
    &&& c[0] == c[c.len() - 1]
    &&& forall|k: int| 0 <= k < c.len() - 1 ==> depends_on(deps, #[trigger] c[k], c[k + 1])
}

/// Whether the dependencies between keys admit a ranking that strictly decreases along every
/// dependency, which rules out every cycle.
pub open spec fn acyclic(deps: Seq<(u64, Vec<u64>)>) -> bool {
    exists|rank: spec_fn(u64) -> nat| #[trigger] ranked_by(deps, rank)
}

/// Whether `rank` strictly decreases along every dependency between keys.
pub open spec fn ranked_by(deps: Seq<(u64, Vec<u64>)>, rank: spec_fn(u64) -> nat) -> bool {
    forall|a: u64, b: u64| #[trigger] depends_on(deps, a, b) && has_key(deps, b) ==> rank(b) < rank(a)
}

/// The first entry of a key that exists.
pub proof fn lemma_key_index(deps: Seq<(u64, Vec<u64>)>, k: u64)
    requires
        has_key(deps, k),
    ensures
        is_first_entry(deps, k, key_index(deps, k)),
{
    let i = choose|i: int| 0 <= i < deps.len() && #[trigger] deps[i].0 == k;
    lemma_first_below(deps, k, i);
}

proof fn lemma_first_below(deps: Seq<(u64, Vec<u64>)>, k: u64, i: int)
    requires
        0 <= i < deps.len(),
        deps[i].0 == k,
    ensures
        exists|j: int| is_first_entry(deps, k, j),
    decreases i,
{
    if exists|j: int| 0 <= j < i && #[trigger] deps[j].0 == k {
        let j = choose|j: int| 0 <= j < i && #[trigger] deps[j].0 == k;
        lemma_first_below(deps, k, j);
    } else {
        assert(is_first_entry(deps, k, i));
    }
}

pub(crate) proof fn lemma_first_unique(deps: Seq<(u64, Vec<u64>)>, k: u64, i: int, j: int)
    requires
        is_first_entry(deps, k, i),
        is_first_entry(deps, k, j),
    ensures
        i == j,
{
    if i < j {
        assert(deps[i].0 != k);
    } else if j < i {
        assert(deps[j].0 != k);
    }
}

/// An acyclic dependency graph holds no closed cycle.
pub proof fn lemma_acyclic_has_no_cycle(deps: Seq<(u64, Vec<u64>)>, c: Seq<u64>)
    requires
        acyclic(deps),
    ensures
        !is_closed_cycle(deps, c),
{
    if is_closed_cycle(deps, c) {
        let rank = choose|rank: spec_fn(u64) -> nat| #[trigger] ranked_by(deps, rank);
        let last = c.len() - 1;
        assert forall|k: int| 0 <= k <= last implies rank(#[trigger] c[k]) + k <= rank(c[0]) by {
            lemma_rank_descends(deps, c, rank, k);
        }
        assert(depends_on(deps, c[0], c[1]));
        assert(has_key(deps, c[0]));
        assert(rank(c[last]) + last <= rank(c[0]));
    }
}

proof fn lemma_rank_descends(deps: Seq<(u64, Vec<u64>)>, c: Seq<u64>, rank: spec_fn(u64) -> nat, k: int)
    requires
        is_closed_cycle(deps, c),
        ranked_by(deps, rank),
        0 <= k <= c.len() - 1,
    ensures
        rank(c[k]) + k <= rank(c[0]),
    decreases k,
{
    if k > 0 {
        lemma_rank_descends(deps, c, rank, k - 1);
        assert(depends_on(deps, c[k - 1], c[k]));
        if k < c.len() - 1 {
            assert(depends_on(deps, c[k], c[k + 1]));
        } else {
            assert(depends_on(deps, c[0], c[1]));
        }
        assert(has_key(deps, c[k]));
    }
}

/// Whether entry `j` is the first entry of a key that the first entry `i` depends on.
pub open spec fn edge(deps: Seq<(u64, Vec<u64>)>, i: int, j: int) -> bool {
    &&& is_first_entry(deps, deps[i].0, i)
    &&& exists|t: int|
        0 <= t < deps[i].1@.len() && #[trigger] is_first_entry(deps, deps[i].1@[t], j)
}

/// The place of entry `j` on a search path.
pub open spec fn place_of(path: Seq<int>, j: int) -> int {
    choose|m: int| 0 <= m < path.len() && path[m] == j
}

/// The depth-first search from entry `u`, which is marked visited and put on the path; `fuel`
/// bounds the depth. Returns the visited marks afterwards and the cycle found, as entries with
/// the first repeated at the end, if any.
pub open spec fn search_from(
    deps: Seq<(u64, Vec<u64>)>,
    visited: Seq<bool>,
    path: Seq<int>,
    u: int,
    fuel: nat,
) -> (Seq<bool>, Option<Seq<int>>)
    decreases fuel, 1int, 0int,
{
    scan_from(deps, visited.update(u, true), path.push(u), u, 0, fuel)
}

/// The search from the dependencies of entry `u`, from its `t`-th on, in order: a dependency
/// that is no key is passed over; an unvisited one is searched in turn; one on the path closes
/// a cycle, from its place on the path to `u` and back to it.
pub open spec fn scan_from(
    deps: Seq<(u64, Vec<u64>)>,
    visited: Seq<bool>,
    path: Seq<int>,
    u: int,
    t: int,
    fuel: nat,
) -> (Seq<bool>, Option<Seq<int>>)
    decreases fuel, 0int, deps[u].1@.len() - t,
{
    if !(0 <= u < deps.len()) || t < 0 || t >= deps[u].1@.len() {
        (visited, None)
    } else {
        let b = deps[u].1@[t];
        if !has_key(deps, b) {
            scan_from(deps, visited, path, u, t + 1, fuel)
        } else {
            let j = key_index(deps, b);
            if !visited[j] {
                if fuel == 0 {
                    (visited, None)
                } else {
                    let (after, found) = search_from(deps, visited, path, j, (fuel - 1) as nat);
                    if found is Some {
                        (after, found)
                    } else {
                        scan_from(deps, after, path, u, t + 1, fuel)
                    }
                }
            } else if path.contains(j) {
                (visited, Some(path.subrange(place_of(path, j), path.len() as int).push(j)))
            } else {
                scan_from(deps, visited, path, u, t + 1, fuel)
            }
        }
    }
}

/// Whether `x` is the unvisited first entry with the smallest key.
pub open spec fn smallest_unvisited(deps: Seq<(u64, Vec<u64>)>, visited: Seq<bool>, x: int) -> bool {
    &&& is_first_entry(deps, deps[x].0, x)
    &&& !visited[x]
    &&& forall|y: int|
        0 <= y < deps.len() && is_first_entry(deps, deps[y].0, y) && !visited[y] ==> deps[x].0
            <= #[trigger] deps[y].0
}

/// Searches from the unvisited key that is smallest, again and again, until a cycle is found or
/// every key is visited; `fuel` bounds the number of searches.
pub open spec fn search_all(deps: Seq<(u64, Vec<u64>)>, visited: Seq<bool>, fuel: nat) -> Option<Seq<int>>
    decreases fuel,
{
    if exists|x: int| smallest_unvisited(deps, visited, x) {
        let x = choose|x: int| smallest_unvisited(deps, visited, x);
        let (after, found) = search_from(deps, visited, Seq::empty(), x, unvisited(visited));
        if found is Some {
            found
        } else if fuel == 0 {
            None
        } else {
            search_all(deps, after, (fuel - 1) as nat)
        }
    } else {
        None
    }
}

/// The cycle that the depth-first search finds, as keys with the first repeated at the end; empty
/// when it finds none.
pub open spec fn dfs_cycle(deps: Seq<(u64, Vec<u64>)>) -> Seq<u64> {
    match search_all(deps, Seq::new(deps.len(), |i: int| false), deps.len()) {
        Some(c) => c.map_values(|i: int| deps[i].0),
        None => Seq::empty(),
    }
}

/// The number of entries not yet visited.
pub open spec fn unvisited(v: Seq<bool>) -> nat
    decreases v.len(),
{
    if v.len() == 0 {
        0
    } else {
        unvisited(v.drop_last()) + if v.last() {
            0nat
        } else {
            1nat
        }
    }
}

proof fn lemma_unvisited_mono(a: Seq<bool>, b: Seq<bool>)
    requires
        a.len() == b.len(),
        forall|i: int| 0 <= i < a.len() && a[i] ==> b[i],
    ensures
        unvisited(b) <= unvisited(a),
        (exists|i: int| 0 <= i < a.len() && !a[i] && b[i]) ==> unvisited(b) < unvisited(a),
    decreases a.len(),
{
    if a.len() > 0 {
        let (a1, b1) = (a.drop_last(), b.drop_last());
        lemma_unvisited_mono(a1, b1);
        if exists|i: int| 0 <= i < a.len() && !a[i] && b[i] {
            let i = choose|i: int| 0 <= i < a.len() && !a[i] && b[i];
            if i < a.len() - 1 {
                assert(!a1[i] && b1[i]);
            }
        }
    }
}

/// The state of the search.
struct Search {
    visited: Vec<bool>,
    on_path: Vec<bool>,
    parent: Vec<usize>,
    path: Ghost<Seq<int>>,
    rank: Ghost<Seq<nat>>,
    clock: Ghost<nat>,
}

impl Search {
    spec fn closed(&self, x: int) -> bool {
        self.visited@[x] && !self.on_path@[x]
    }

    /// The invariant of the search: the current path follows dependencies and parent links, and
    /// every finished entry depends only on finished entries of lower rank.
    spec fn inv(&self, deps: Seq<(u64, Vec<u64>)>) -> bool {
        let n = deps.len();
        let path = self.path@;
        &&& self.visited@.len() == n
        &&& self.on_path@.len() == n
        &&& self.parent@.len() == n
        &&& self.rank@.len() == n
        &&& forall|x: int| 0 <= x < n && #[trigger] self.on_path@[x] ==> self.visited@[x]
        &&& forall|x: int| 0 <= x < n ==> (#[trigger] self.on_path@[x] <==> path.contains(x))
        &&& forall|k: int| 0 <= k < path.len() ==> 0 <= #[trigger] path[k] < n
        &&& forall|a: int, b: int| 0 <= a < b < path.len() ==> path[a] != path[b]
        &&& forall|k: int|
            0 <= k < path.len() ==> is_first_entry(deps, deps[#[trigger] path[k]].0, path[k])
        &&& forall|k: int|
            1 <= k < path.len() ==> self.parent@[#[trigger] path[k]] == path[k - 1] && edge(
                deps,
                path[k - 1],
                path[k],
            )
        &&& forall|x: int| 0 <= x < n && #[trigger] self.closed(x) ==> self.rank@[x] < self.clock@
        &&& forall|x: int, j: int|
            0 <= x < n && #[trigger] self.closed(x) && #[trigger] edge(deps, x, j) ==> self.closed(j)
                && self.rank@[j] < self.rank@[x]
    }
}

/// Whether `p` follows parent links and dependencies from its first entry to its last.
spec fn chain(deps: Seq<(u64, Vec<u64>)>, parent: Seq<usize>, p: Seq<int>) -> bool {
    &&& p.len() >= 1
    &&& forall|k: int| 0 <= k < p.len() ==> 0 <= #[trigger] p[k] < deps.len()
    &&& forall|a: int, b: int| 0 <= a < b < p.len() ==> p[a] != p[b]
    &&& forall|k: int|
        1 <= k < p.len() ==> parent[#[trigger] p[k]] == p[k - 1] && edge(deps, p[k - 1], p[k])
}

/// Finds the first entry with a key.
pub(crate) fn find_key(deps: &Vec<(u64, Vec<u64>)>, k: u64) -> (r: Option<usize>)
    ensures
        match r {
            Some(i) => is_first_entry(deps@, k, i as int),
            None => !has_key(deps@, k),
        },
{
    let mut i: usize = 0;
    while i < deps.len()
        invariant
            0 <= i <= deps@.len(),
            forall|j: int| 0 <= j < i ==> #[trigger] deps@[j].0 != k,
        decreases deps.len() - i,
    {
        if deps[i].0 == k {
            return Some(i);
        }
        i += 1;
    }
    None
}

fn dfs(deps: &Vec<(u64, Vec<u64>)>, u: usize, st: &mut Search, Ghost(budget): Ghost<nat>) -> (r: Option<(usize, usize)>)
    requires
        old(st).inv(deps@),
        unvisited(old(st).visited@) <= budget,
        u < deps@.len(),
        !old(st).visited@[u as int],
        is_first_entry(deps@, deps@[u as int].0, u as int),
        old(st).path@.len() > 0 ==> old(st).parent@[u as int] == old(st).path@.last() && edge(
            deps@,
            old(st).path@.last(),
            u as int,
        ),
    ensures
        final(st).visited@.len() == deps@.len(),
        final(st).parent@.len() == deps@.len(),
        match r {
            None => {
                &&& final(st).inv(deps@)
                &&& final(st).path@ == old(st).path@
                &&& final(st).on_path@ == old(st).on_path@
                &&& final(st).closed(u as int)
                &&& final(st).clock@ >= old(st).clock@
                &&& forall|x: int|
                    0 <= x < deps@.len() && #[trigger] old(st).visited@[x] ==> final(st).visited@[x]
                        && final(st).parent@[x] == old(st).parent@[x]
                &&& forall|x: int|
                    0 <= x < deps@.len() && #[trigger] old(st).closed(x) ==> final(st).closed(x)
                        && final(st).rank@[x] == old(st).rank@[x]
            },
            Some((v, w)) => exists|p: Seq<int>|
                #[trigger] chain(deps@, final(st).parent@, p) && p[0] == v && p.last() == w && edge(
                    deps@,
                    w as int,
                    v as int,
                ) && search_from(deps@, old(st).visited@, old(st).path@, u as int, budget).1 == Some(
                    p.push(v as int),
                ),
        },
        (r is Some) == (search_from(deps@, old(st).visited@, old(st).path@, u as int, budget).1 is Some),
        r is None ==> final(st).visited@ == search_from(deps@, old(st).visited@, old(st).path@, u as int, budget).0,
    decreases budget,
{
    let ghost st0 = *st;
    st.visited.set(u, true);
    st.on_path.set(u, true);
    st.path = Ghost(st.path@.push(u as int));
    proof {
        assert forall|x: int| 0 <= x < deps@.len() implies (#[trigger] st.on_path@[x]
            <==> st.path@.contains(x)) by {
            if x == u {
                assert(st.path@[st.path@.len() - 1] == x);
            } else {
                if st0.path@.contains(x) {
                    let k = choose|k: int| 0 <= k < st0.path@.len() && st0.path@[k] == x;
                    assert(st.path@[k] == x);
                }
                if st.path@.contains(x) {
                    let k = choose|k: int| 0 <= k < st.path@.len() && st.path@[k] == x;
                    assert(st0.path@[k] == x);
                }
            }
        }
        assert forall|a: int, b: int| 0 <= a < b < st.path@.len() implies st.path@[a] != st.path@[b] by {
            if b == st.path@.len() - 1 && st0.path@[a] == u {
                assert(st0.on_path@[u as int]);
            }
        }
        assert forall|x: int, j: int|
            0 <= x < deps@.len() && #[trigger] st.closed(x) && #[trigger] edge(deps@, x, j) implies st.closed(j)
                && st.rank@[j] < st.rank@[x] by {
            assert(st0.closed(x));
        }
        lemma_unvisited_mono(st0.visited@, st.visited@);
        assert forall|k: int|
            1 <= k < st.path@.len() implies st.parent@[#[trigger] st.path@[k]] == st.path@[k - 1]
                && edge(deps@, st.path@[k - 1], st.path@[k]) by {
            if k < st.path@.len() - 1 {
                assert(st.path@[k] == st0.path@[k]);
                assert(st.path@[k - 1] == st0.path@[k - 1]);
            }
        }
        assert forall|k: int|
            0 <= k < st.path@.len() implies is_first_entry(deps@, deps@[#[trigger] st.path@[k]].0, st.path@[k]) by {
            if k < st.path@.len() - 1 {
                assert(st.path@[k] == st0.path@[k]);
            }
        }
        assert forall|x: int| 0 <= x < deps@.len() && #[trigger] st.closed(x) implies st.rank@[x] < st.clock@ by {
            assert(st0.closed(x));
        }
        assert(st.inv(deps@));
    }
    let neighbors = &deps[u].1;
    let mut t: usize = 0;
    while t < neighbors.len()
        invariant
            st.inv(deps@),
            st0.inv(deps@),
            deps@[u as int].1 == *neighbors,
            u < deps@.len(),
            is_first_entry(deps@, deps@[u as int].0, u as int),
            st.path@ == st0.path@.push(u as int),
            st.on_path@ == st0.on_path@.update(u as int, true),
            st0 == *old(st),
            st.visited@[u as int],
            st.clock@ >= st0.clock@,
            unvisited(st.visited@) < unvisited(st0.visited@),
            unvisited(st0.visited@) <= budget,
            st0.visited@.len() == deps@.len(),
            forall|x: int|
                0 <= x < deps@.len() && #[trigger] st0.visited@[x] ==> st.visited@[x]
                    && st.parent@[x] == st0.parent@[x],
            forall|x: int|
                0 <= x < deps@.len() && #[trigger] st0.closed(x) ==> st.closed(x) && st.rank@[x]
                    == st0.rank@[x],
            forall|s: int, j: int|
                0 <= s < t && #[trigger] is_first_entry(deps@, neighbors@[s], j) ==> st.closed(j),
            scan_from(deps@, st.visited@, st.path@, u as int, t as int, budget) == search_from(
                deps@,
                st0.visited@,
                st0.path@,
                u as int,
                budget,
            ),
        decreases neighbors.len() - t,
    {
        if let Some(j) = find_key(deps, neighbors[t]) {
            assert(edge(deps@, u as int, j as int));
            proof {
                assert(has_key(deps@, neighbors@[t as int]));
                lemma_key_index(deps@, neighbors@[t as int]);
                lemma_first_unique(deps@, neighbors@[t as int], j as int, key_index(deps@, neighbors@[t as int]));
            }
            if !st.visited[j] {
                let ghost st1 = *st;
                st.parent.set(j, u);
                proof {
                    assert forall|k: int| 1 <= k < st.path@.len() implies st.parent@[#[trigger] st.path@[k]]
                        == st.path@[k - 1] && edge(deps@, st.path@[k - 1], st.path@[k]) by {
                        assert(st1.on_path@[st.path@[k]]);
                    }
                    let n = deps@.len();
                    assert(forall|x: int| 0 <= x < n && #[trigger] st.on_path@[x] ==> st.visited@[x]);
                    assert(forall|x: int| 0 <= x < n ==> (#[trigger] st.on_path@[x] <==> st.path@.contains(x)));
                    assert(forall|x: int| 0 <= x < n && #[trigger] st.closed(x) ==> st.rank@[x] < st.clock@) by {
                        assert(forall|x: int| 0 <= x < n && #[trigger] st.closed(x) ==> st1.closed(x));
                    }
                    assert(forall|x: int, y: int|
                        0 <= x < n && #[trigger] st.closed(x) && #[trigger] edge(deps@, x, y) ==> st.closed(y)
                            && st.rank@[y] < st.rank@[x]) by {
                        assert(forall|x: int| 0 <= x < n && #[trigger] st.closed(x) ==> st1.closed(x));
                        assert(forall|x: int| 0 <= x < n && #[trigger] st1.closed(x) ==> st.closed(x));
                    }
                    assert(st.inv(deps@));
                    assert(st.path@.last() == u);
                    assert(unvisited(st.visited@) < unvisited(st0.visited@));
                }
                let ghost st_call = *st;
                let sub = dfs(deps, j, st, Ghost((budget - 1) as nat));
                if sub.is_some() {
                    proof {
                        assert(budget > 0);
                        let inner = search_from(deps@, st_call.visited@, st_call.path@, j as int, (budget - 1) as nat);
                        assert(inner.1 is Some);
                        assert(scan_from(deps@, st1.visited@, st1.path@, u as int, t as int, budget) == inner);
                    }
                    return sub;
                }
                proof {
                    let inner = search_from(deps@, st_call.visited@, st_call.path@, j as int, (budget - 1) as nat);
                    assert(inner.1 is None);
                    assert(st.visited@ == inner.0);
                    assert(scan_from(deps@, st1.visited@, st1.path@, u as int, t as int, budget)
                        == scan_from(deps@, st.visited@, st.path@, u as int, t + 1, budget));
                }
                proof {
                    assert(st_call.visited@[u as int]);
                    assert forall|x: int|
                        0 <= x < deps@.len() && #[trigger] st0.visited@[x] implies st.visited@[x]
                            && st.parent@[x] == st0.parent@[x] by {
                        assert(st1.visited@[x]);
                        assert(st_call.visited@[x]);
                    }
                    assert forall|x: int|
                        0 <= x < deps@.len() && #[trigger] st0.closed(x) implies st.closed(x)
                            && st.rank@[x] == st0.rank@[x] by {
                        assert(st1.closed(x));
                        assert(st_call.closed(x));
                    }
                    lemma_unvisited_mono(st_call.visited@, st.visited@);
                }
            } else if st.on_path[j] {
                proof {
                    let path = st.path@;
                    assert(path.contains(j as int));
                    let m = place_of(path, j as int);
                    let p = path.subrange(m, path.len() as int);
                    assert(p.last() == u as int);
                    assert(chain(deps@, st.parent@, p)) by {
                        assert forall|k: int| 1 <= k < p.len() implies st.parent@[#[trigger] p[k]]
                            == p[k - 1] && edge(deps@, p[k - 1], p[k]) by {
                            assert(p[k] == path[m + k]);
                        }
                    }
                    assert(scan_from(deps@, st.visited@, st.path@, u as int, t as int, budget).1 == Some(
                        p.push(j as int),
                    ));
                }
                return Some((j, u));
            }
            assert(st.closed(j as int));
            proof {
                assert forall|s: int, i: int|
                    0 <= s < t + 1 && #[trigger] is_first_entry(deps@, neighbors@[s], i) implies st.closed(i) by {
                    if s == t {
                        lemma_first_unique(deps@, neighbors@[s], i, j as int);
                    }
                }
            }
        } else {
            proof {
                assert forall|s: int, i: int|
                    0 <= s < t + 1 && #[trigger] is_first_entry(deps@, neighbors@[s], i) implies st.closed(i) by {
                    if s == t {
                        assert(deps@[i].0 == neighbors@[s]);
                    }
                }
            }
        }
        t += 1;
    }
    let ghost st2 = *st;
    st.on_path.set(u, false);
    st.path = Ghost(st0.path@);
    st.rank = Ghost(st.rank@.update(u as int, st.clock@));
    st.clock = Ghost(st.clock@ + 1);
    proof {
        assert(st.on_path@ =~= st0.on_path@);
        assert(st.closed(u as int));
        let n = deps@.len();
        assert(forall|x: int| 0 <= x < n && #[trigger] st.on_path@[x] ==> st.visited@[x]) by {
            assert(forall|x: int| 0 <= x < n && #[trigger] st0.on_path@[x] ==> st0.visited@[x]);
            assert(forall|x: int| 0 <= x < n && #[trigger] st0.visited@[x] ==> st2.visited@[x]);
        }
        assert(forall|k: int|
            1 <= k < st.path@.len() ==> st.parent@[#[trigger] st.path@[k]] == st.path@[k - 1]) by {
            assert forall|k: int| 1 <= k < st.path@.len() implies st.parent@[#[trigger] st.path@[k]]
                == st.path@[k - 1] by {
                assert(st0.path@.contains(st0.path@[k]));
                assert(st0.on_path@[st0.path@[k]]);
                assert(st0.visited@[st0.path@[k]]);
            }
        }
        assert(forall|x: int| 0 <= x < n && #[trigger] st.closed(x) ==> st.rank@[x] < st.clock@) by {
            assert forall|x: int| 0 <= x < n && #[trigger] st.closed(x) implies st.rank@[x] < st.clock@ by {
                if x != u {
                    assert(st2.closed(x));
                }
            }
        }
        assert(forall|k: int|
            1 <= k < st.path@.len() ==> st.parent@[#[trigger] st.path@[k]] == st.path@[k - 1] && edge(
                deps@,
                st.path@[k - 1],
                st.path@[k],
            ));
        assert(forall|x: int|
            0 <= x < deps@.len() && #[trigger] st0.visited@[x] ==> st.visited@[x]
                && st.parent@[x] == st0.parent@[x]);
        assert(forall|x: int|
            0 <= x < deps@.len() && #[trigger] st0.closed(x) ==> st.closed(x)
                && st.rank@[x] == st0.rank@[x]);
        assert forall|x: int, j: int|
            0 <= x < deps@.len() && #[trigger] st.closed(x) && #[trigger] edge(deps@, x, j) implies st.closed(j)
                && st.rank@[j] < st.rank@[x] by {
            if x == u {
                let s = choose|s: int|
                    0 <= s < deps@[x].1@.len() && #[trigger] is_first_entry(deps@, deps@[x].1@[s], j);
                assert(st2.closed(j));
            } else {
                assert(st2.closed(x));
                assert(st2.closed(j));
            }
        }
    }
    None
}

/// Finds one dependency cycle, searching depth first from the unvisited key that is smallest,
/// again and again, and following dependencies in the order listed. The result runs in dependency order and repeats its first
/// key at the end; it is empty only if no cycle exists.
pub fn detect_minimal_cycle(deps: &Vec<(u64, Vec<u64>)>) -> (r: Vec<u64>)
    ensures
        r@ == dfs_cycle(deps@),
        r@.len() == 0 ==> acyclic(deps@),
        r@.len() > 0 ==> is_closed_cycle(deps@, r@) && r@.drop_last().no_duplicates(),
{
    let n = deps.len();
    let mut st = Search {
        visited: vec![false; n],
        on_path: vec![false; n],
        parent: vec![0; n],
        path: Ghost(Seq::empty()),
        rank: Ghost(Seq::new(n as nat, |i: int| 0nat)),
        clock: Ghost(0),
    };
    let ghost start = Seq::new(n as nat, |i: int| false);
    let ghost mut fuel: nat = n as nat;
    proof {
        assert(st.visited@ =~= start);
        lemma_unvisited_at_most_len(start);
    }
    loop
        invariant
            n == deps@.len(),
            st.inv(deps@),
            st.path@.len() == 0,
            start == Seq::new(n as nat, |i: int| false),
            search_all(deps@, start, n as nat) == search_all(deps@, st.visited@, fuel),
            unvisited(st.visited@) <= fuel,
        ensures
            forall|x: int| 0 <= x < n && is_first_entry(deps@, deps@[x].0, x) ==> #[trigger] st.visited@[x],
            search_all(deps@, start, n as nat) is None,
        decreases unvisited(st.visited@),
    {
        // The unvisited first entry with the smallest key, if any.
        let mut best: Option<usize> = None;
        let mut i: usize = 0;
        while i < n
            invariant
                n == deps@.len(),
                st.visited@.len() == n,
                0 <= i <= n,
                best matches Some(b) ==> b < n && !st.visited@[b as int] && is_first_entry(
                    deps@,
                    deps@[b as int].0,
                    b as int,
                ) && forall|x: int|
                    0 <= x < i && is_first_entry(deps@, deps@[x].0, x) && !st.visited@[x] ==> deps@[b as int].0
                        <= #[trigger] deps@[x].0,
                forall|x: int|
                    0 <= x < i && is_first_entry(deps@, deps@[x].0, x) && !(#[trigger] st.visited@[x])
                        ==> best is Some,
            decreases n - i,
        {
            if !st.visited[i] {
                if let Some(f) = find_key(deps, deps[i].0) {
                    if f == i {
                        best = match best {
                            None => Some(i),
                            Some(b) => if deps[i].0 < deps[b].0 {
                                Some(i)
                            } else {
                                Some(b)
                            },
                        };
                    }
                }
            }
            proof {
                if is_first_entry(deps@, deps@[i as int].0, i as int) && !st.visited@[i as int] {
                    let f = choose|f: int| is_first_entry(deps@, deps@[i as int].0, f);
                    lemma_first_unique(deps@, deps@[i as int].0, f, i as int);
                }
            }
            i += 1;
        }
        match best {
            None => {
                proof {
                    if exists|y: int| smallest_unvisited(deps@, st.visited@, y) {
                        let y = choose|y: int| smallest_unvisited(deps@, st.visited@, y);
                        assert(st.visited@[y] == false);
                    }
                }
                break;
            },
            Some(x) => {
                let ghost before = st.visited@;
                let ghost budget = unvisited(st.visited@);
                proof {
                    assert(smallest_unvisited(deps@, before, x as int));
                    let y = choose|y: int| smallest_unvisited(deps@, before, y);
                    assert(deps@[y].0 <= deps@[x as int].0);
                    assert(deps@[x as int].0 <= deps@[y].0);
                    lemma_first_unique(deps@, deps@[x as int].0, x as int, y);
                }
                assert(st.path@ =~= Seq::<int>::empty());
                match dfs(deps, x, &mut st, Ghost(budget)) {
                    Some((v, w)) => {
                        let ghost p = choose|p: Seq<int>|
                            #[trigger] chain(deps@, st.parent@, p) && p[0] == v && p.last() == w && edge(
                                deps@,
                                w as int,
                                v as int,
                            ) && search_from(deps@, before, Seq::empty(), x as int, budget).1 == Some(p.push(v as int));
                        let c = cycle_from(deps, &st.parent, v, w, Ghost(p));
                        assert(is_closed_cycle(deps@, c@));
                        return c;
                    },
                    None => {
                        proof {
                            assert(st.visited@[x as int]);
                            lemma_unvisited_mono(before, st.visited@);
                            assert(fuel > 0);
                            assert(search_all(deps@, before, fuel) == search_all(deps@, st.visited@, (fuel - 1) as nat));
                            fuel = (fuel - 1) as nat;
                        }
                    },
                }
            },
        }
    }
    proof {
        let rank = st.rank@;
        let f = |a: u64| if has_key(deps@, a) { rank[key_index(deps@, a)] } else { 0nat };
        assert forall|a: u64, b: u64|
            #[trigger] depends_on(deps@, a, b) && has_key(deps@, b) implies f(b) < f(a) by {
            lemma_key_index(deps@, a);
            lemma_key_index(deps@, b);
            let ia = key_index(deps@, a);
            let ib = key_index(deps@, b);
            let t = choose|t: int| 0 <= t < deps@[ia].1@.len() && deps@[ia].1@[t] == b;
            assert(is_first_entry(deps@, deps@[ia].1@[t], ib));
            assert(edge(deps@, ia, ib));
            assert(deps@[ia].0 == a);
            assert(st.visited@[ia]);
            assert(!st.on_path@[ia]);
            assert(st.closed(ia));
        }
        assert(ranked_by(deps@, f));
        assert(acyclic(deps@));
    }
    Vec::new()
}

/// Reads a cycle off the parent links: from `w` back to `v`, then reversed and closed.
fn cycle_from(deps: &Vec<(u64, Vec<u64>)>, parent: &Vec<usize>, v: usize, w: usize, Ghost(p): Ghost<Seq<int>>) -> (r: Vec<u64>)
    requires
        parent@.len() == deps@.len(),
        chain(deps@, parent@, p),
        p[0] == v,
        p.last() == w,
        edge(deps@, w as int, v as int),
    ensures
        is_closed_cycle(deps@, r@),
        r@ == p.push(v as int).map_values(|i: int| deps@[i].0),
        r@.drop_last().no_duplicates(),
{
    let mut back: Vec<usize> = Vec::new();
    let mut current = w;
    let ghost mut m: int = p.len() - 1;
    while current != v
        invariant
            chain(deps@, parent@, p),
            parent@.len() == deps@.len(),
            p[0] == v,
            0 <= m < p.len(),
            current == p[m],
            back@.len() == p.len() - 1 - m,
            forall|k: int| 0 <= k < back@.len() ==> #[trigger] back@[k] == p[p.len() - 1 - k],
        decreases m,
    {
        assert(m > 0);
        back.push(current);
        current = parent[current];
        proof {
            m = m - 1;
        }
    }
    proof {
        if m > 0 {
            assert(p[0] != p[m]);
        }
    }
    let mut out: Vec<u64> = Vec::new();
    out.push(deps[v].0);
    let mut k = back.len();
    while k > 0
        invariant
            chain(deps@, parent@, p),
            p[0] == v,
            back@.len() == p.len() - 1,
            forall|j: int| 0 <= j < back@.len() ==> #[trigger] back@[j] == p[p.len() - 1 - j],
            0 <= k <= back@.len(),
            out@.len() == back@.len() - k + 1,
            forall|j: int| 0 <= j < out@.len() ==> #[trigger] out@[j] == deps@[p[j]].0,
        decreases k,
    {
        k -= 1;
        out.push(deps[back[k]].0);
    }
    out.push(deps[v].0);
    proof {
        let c = out@;
        assert forall|j: int| 0 <= j < c.len() - 1 implies depends_on(deps@, #[trigger] c[j], c[j + 1]) by {
            let (x, y) = if j + 1 < p.len() {
                (p[j], p[j + 1])
            } else {
                (w as int, v as int)
            };
            assert(edge(deps@, x, y));
            let t = choose|t: int|
                0 <= t < deps@[x].1@.len() && #[trigger] is_first_entry(deps@, deps@[x].1@[t], y);
            assert(has_key(deps@, deps@[x].0));
            lemma_key_index(deps@, deps@[x].0);
            lemma_first_unique(deps@, deps@[x].0, x, key_index(deps@, deps@[x].0));
            assert(deps@[x].1@.contains(deps@[y].0));
        }
        assert(c =~= p.push(v as int).map_values(|i: int| deps@[i].0));
        assert forall|a: int, b: int|
            0 <= a < c.len() - 1 && 0 <= b < c.len() - 1 && a != b implies c.drop_last()[a] != c.drop_last()[b] by {
            assert(is_first_entry(deps@, deps@[p[a]].0, p[a])) by {
                if a + 1 < p.len() {
                    assert(edge(deps@, p[a], p[a + 1]));
                } else {
                    assert(edge(deps@, w as int, v as int));
                }
            }
            assert(is_first_entry(deps@, deps@[p[b]].0, p[b])) by {
                if b + 1 < p.len() {
                    assert(edge(deps@, p[b], p[b + 1]));
                } else {
                    assert(edge(deps@, w as int, v as int));
                }
            }
            if deps@[p[a]].0 == deps@[p[b]].0 {
                lemma_first_unique(deps@, deps@[p[a]].0, p[a], p[b]);
            }
        }
    }
    out
}

proof fn lemma_unvisited_at_most_len(v: Seq<bool>)
    ensures
        unvisited(v) <= v.len(),
    decreases v.len(),
{
    if v.len() > 0 {
        lemma_unvisited_at_most_len(v.drop_last());
    }
}

} // verus!
