use vstd::prelude::*;
use crate::order::{
    id_less, id_lt, is_permutation, lemma_id_lt_irreflexive, lemma_id_lt_total,
    lemma_id_lt_transitive, lemma_permutation_covers, lemma_short_misses, placed_before,
};
use crate::types::{dep_ids, same_service, Service};

verus! {

/// Why no start order exists.
#[derive(Debug)]
pub enum SortError {
    /// The dependency graph has a cycle.
    CycleDetected,
    /// A service names a dependency that no service has as its id.
    UnknownDependency { service: String, dependency: String },
}

/// No two services share an id.
pub open spec fn unique_ids(s: Seq<Service>) -> bool {
    forall|i: int, j: int| 0 <= i < j < s.len() ==> s[i].id@ != s[j].id@
}

/// Some service has `id` as its id.
pub open spec fn known_id(s: Seq<Service>, id: Seq<char>) -> bool {
    exists|d: int| 0 <= d < s.len() && #[trigger] s[d].id@ == id
}

/// Every dependency names a service of `s`.
pub open spec fn deps_resolve(s: Seq<Service>) -> bool {
    forall|v: int, k: int|
        0 <= v < s.len() && 0 <= k < s[v].dependencies@.len() ==> known_id(
            s,
            #[trigger] s[v].dependencies@[k]@,
        )
}

/// Service `v` depends on service `d`.
pub open spec fn depends_on(s: Seq<Service>, v: int, d: int) -> bool {
    0 <= d < s.len() && dep_ids(s[v]).contains(s[d].id@)
}

/// Every dependency of `v` stands among the first `k` places of `o`.
pub open spec fn ready_at(s: Seq<Service>, o: Seq<usize>, k: int, v: int) -> bool {
    forall|d: int| #[trigger] depends_on(s, v, d) ==> placed_before(o, k, d)
}

/// Every service stands after all of its dependencies.
pub open spec fn is_topological(s: Seq<Service>, o: Seq<usize>) -> bool {
    &&& is_permutation(s.len() as int, o)
    &&& forall|i: int| 0 <= i < o.len() ==> ready_at(s, o, i, #[trigger] o[i] as int)
}

pub open spec fn has_topological_order(s: Seq<Service>) -> bool {
    exists|o: Seq<usize>| is_topological(s, o)
}

/// Within the first `i` places, `u` was freed no later than `v`, and when both
/// were freed at the same step, `u`'s id does not come after `v`'s.
pub open spec fn key_le(s: Seq<Service>, o: Seq<usize>, i: int, u: int, v: int) -> bool {
    &&& forall|k: int| 0 <= k <= i && #[trigger] ready_at(s, o, k, v) ==> ready_at(s, o, k, u)
    &&& (forall|k: int| 0 <= k <= i && #[trigger] ready_at(s, o, k, u) ==> ready_at(s, o, k, v))
        ==> !id_lt(s[v].id@, s[u].id@)
}

/// Place `i` of `o` holds what a first-in first-out Kahn sort takes next:
/// of the services freed so far and not yet placed, the earliest freed,
/// alphabetical among those freed by the same step.
pub open spec fn kahn_step(s: Seq<Service>, o: Seq<usize>, i: int) -> bool {
    &&& ready_at(s, o, i, o[i] as int)
    &&& forall|v: int|
        0 <= v < s.len() && !placed_before(o, i, v) && #[trigger] ready_at(s, o, i, v) ==> key_le(
            s,
            o,
            i,
            o[i] as int,
            v,
        )
}

/// `o` is the order in which the sort takes the services.
pub open spec fn is_kahn_order(s: Seq<Service>, o: Seq<usize>) -> bool {
    &&& is_permutation(s.len() as int, o)
    &&& forall|i: int| 0 <= i < o.len() ==> #[trigger] kahn_step(s, o, i)
}

/// `out` holds the services of `s` in the order `o`.
pub open spec fn arranged(s: Seq<Service>, o: Seq<usize>, out: Seq<Service>) -> bool {
    &&& out.len() == o.len()
    &&& forall|i: int| 0 <= i < o.len() ==> same_service(s[#[trigger] o[i] as int], out[i])
}

proof fn lemma_prefix_placed(o: Seq<usize>, x: usize)
    ensures
        forall|d: int|
            #[trigger] placed_before(o.push(x), o.len() as int + 1, d) == (placed_before(o, o.len() as int, d)
                || d == x as int),
        forall|k: int, d: int|
            0 <= k <= o.len() ==> #[trigger] placed_before(o.push(x), k, d) == placed_before(
                o,
                k,
                d,
            ),
{
    assert forall|d: int|
        #[trigger] placed_before(o.push(x), o.len() as int + 1, d) == (placed_before(o, o.len() as int, d)
            || d == x as int) by {
        if placed_before(o.push(x), o.len() as int + 1, d) && d != x as int {
            let j = choose|j: int| 0 <= j < o.len() as int + 1 && #[trigger] o.push(x)[j] as int == d;
            assert(o[j] as int == d);
        }
        if placed_before(o, o.len() as int, d) {
            let j = choose|j: int| 0 <= j < o.len() && #[trigger] o[j] as int == d;
            assert(o.push(x)[j] as int == d);
        }
        if d == x as int {
            assert(o.push(x)[o.len() as int] as int == d);
        }
    }
    assert forall|k: int, d: int| 0 <= k <= o.len() implies #[trigger] placed_before(
        o.push(x),
        k,
        d,
    ) == placed_before(o, k, d) by {
        if placed_before(o.push(x), k, d) {
            let j = choose|j: int| 0 <= j < k && #[trigger] o.push(x)[j] as int == d;
            assert(o[j] as int == d);
        }
        if placed_before(o, k, d) {
            let j = choose|j: int| 0 <= j < k && #[trigger] o[j] as int == d;
            assert(o.push(x)[j] as int == d);
        }
    }
}

proof fn lemma_prefix_ready(s: Seq<Service>, o: Seq<usize>, x: usize)
    ensures
        forall|k: int, v: int|
            0 <= k <= o.len() ==> #[trigger] ready_at(s, o.push(x), k, v) == ready_at(s, o, k, v),
{
    lemma_prefix_placed(o, x);
}

proof fn lemma_key_prefix(s: Seq<Service>, o: Seq<usize>, x: usize, i: int, u: int, v: int)
    requires
        0 <= i <= o.len(),
        key_le(s, o, i, u, v),
    ensures
        key_le(s, o.push(x), i, u, v),
{
    lemma_prefix_ready(s, o, x);
    let p = o.push(x);
    assert forall|k: int| 0 <= k <= i && #[trigger] ready_at(s, p, k, v) implies ready_at(
        s,
        p,
        k,
        u,
    ) by {
        assert(ready_at(s, o, k, v));
    }
    if forall|k: int| 0 <= k <= i && #[trigger] ready_at(s, p, k, u) ==> ready_at(s, p, k, v) {
        assert forall|k: int| 0 <= k <= i && #[trigger] ready_at(s, o, k, u) implies ready_at(
            s,
            o,
            k,
            v,
        ) by {
            assert(ready_at(s, p, k, u));
        }
    }
}

proof fn lemma_ready_monotone(s: Seq<Service>, o: Seq<usize>)
    ensures
        forall|k1: int, k2: int, v: int|
            0 <= k1 <= k2 && #[trigger] ready_at(s, o, k1, v) ==> #[trigger] ready_at(s, o, k2, v),
{
    assert forall|k1: int, k2: int, v: int|
        0 <= k1 <= k2 && #[trigger] ready_at(s, o, k1, v) implies #[trigger] ready_at(
        s,
        o,
        k2,
        v,
    ) by {
        assert forall|d: int| #[trigger] depends_on(s, v, d) implies placed_before(o, k2, d) by {
            assert(placed_before(o, k1, d));
            let j = choose|j: int| 0 <= j < k1 && #[trigger] o[j] as int == d;
        }
    }
}

/// Some index in `f` points at a service with id `id`.
spec fn listed(s: Seq<Service>, f: Seq<usize>, id: Seq<char>) -> bool {
    exists|j: int| 0 <= j < f.len() && s[#[trigger] f[j] as int].id@ == id
}

/// Index of the service with the given id.
fn find_id(s: &[Service], id: &String) -> (r: Option<usize>)
    ensures
        match r {
            Some(j) => j < s@.len() && s@[j as int].id@ == id@,
            None => !known_id(s@, id@),
        },
{
    let mut j: usize = 0;
    while j < s.len()
        invariant
            j <= s@.len(),
            forall|i: int| 0 <= i < j ==> s@[i].id@ != id@,
        decreases s@.len() - j,
    {
        if s[j].id == *id {
            return Some(j);
        }
        j = j + 1;
    }
    None
}

/// For each service, the indices of the services it depends on.
fn resolve_dependencies(s: &[Service]) -> (r: Result<Vec<Vec<usize>>, SortError>)
    requires
        unique_ids(s@),
    ensures
        match r {
            Ok(d) => {
                &&& deps_resolve(s@)
                &&& d@.len() == s@.len()
                &&& forall|v: int, j: int|
                    0 <= v < d@.len() && 0 <= j < d@[v]@.len() ==> depends_on(
                        s@,
                        v,
                        #[trigger] d@[v]@[j] as int,
                    )
                &&& forall|v: int, x: int|
                    0 <= v < d@.len() && #[trigger] depends_on(s@, v, x) ==> d@[v]@.contains(
                        x as usize,
                    )
            },
            Err(SortError::UnknownDependency { service, dependency }) => {
                &&& !deps_resolve(s@)
                &&& exists|v: int|
                    0 <= v < s@.len() && #[trigger] s@[v].id@ == service@ && dep_ids(
                        s@[v],
                    ).contains(dependency@)
                &&& !known_id(s@, dependency@)
            },
            Err(SortError::CycleDetected) => false,
        },
{
    let n = s.len();
    let mut all: Vec<Vec<usize>> = Vec::new();
    let mut v: usize = 0;
    while v < n
        invariant
            n == s@.len(),
            v <= n,
            unique_ids(s@),
            all@.len() == v,
            forall|w: int, k: int|
                0 <= w < v && 0 <= k < s@[w].dependencies@.len() ==> known_id(
                    s@,
                    #[trigger] s@[w].dependencies@[k]@,
                ),
            forall|w: int, j: int|
                0 <= w < v && 0 <= j < all@[w]@.len() ==> depends_on(
                    s@,
                    w,
                    #[trigger] all@[w]@[j] as int,
                ),
            forall|w: int, x: int|
                0 <= w < v && #[trigger] depends_on(s@, w, x) ==> all@[w]@.contains(x as usize),
        decreases n - v,
    {
        let deps = &s[v].dependencies;
        let mut found: Vec<usize> = Vec::new();
        let mut k: usize = 0;
        while k < deps.len()
            invariant
                n == s@.len(),
                v < n,
                deps == s@[v as int].dependencies,
                k <= deps@.len(),
                forall|j: int| 0 <= j < found@.len() ==> (#[trigger] found@[j] as int) < n,
                forall|j: int|
                    0 <= j < found@.len() ==> depends_on(s@, v as int, #[trigger] found@[j] as int),
                forall|i: int| 0 <= i < k ==> #[trigger] listed(s@, found@, deps@[i]@),
                forall|i: int| 0 <= i < k ==> known_id(s@, #[trigger] deps@[i]@),
            decreases deps@.len() - k,
        {
            match find_id(s, &deps[k]) {
                Some(j) => {
                    proof {
                        assert(dep_ids(s@[v as int])[k as int] == s@[j as int].id@);
                    }
                    let ghost prev = found@;
                    found.push(j);
                    proof {
                        assert forall|i: int| 0 <= i < k + 1 implies #[trigger] listed(
                            s@,
                            found@,
                            deps@[i]@,
                        ) by {
                            if i == k {
                                assert(found@[found@.len() - 1] == j);
                            } else {
                                assert(listed(s@, prev, deps@[i]@));
                                let jj = choose|jj: int|
                                    0 <= jj < prev.len() && s@[#[trigger] prev[jj] as int].id@
                                        == deps@[i]@;
                                assert(found@[jj] == prev[jj]);
                            }
                        }
                    }
                },
                None => {
                    proof {
                        assert(dep_ids(s@[v as int])[k as int] == deps@[k as int]@);
                        assert(!deps_resolve(s@)) by {
                            assert(!known_id(s@, s@[v as int].dependencies@[k as int]@));
                        }
                    }
                    let service = s[v].id.clone();
                    let dependency = deps[k].clone();
                    proof {
                        assert(dep_ids(s@[v as int]).contains(dependency@));
                        assert(s@[v as int].id@ == service@);
                    }
                    return Err(SortError::UnknownDependency { service, dependency });
                },
            }
            k = k + 1;
        }
        proof {
            assert forall|x: int| #[trigger] depends_on(s@, v as int, x) implies found@.contains(
                x as usize,
            ) by {
                let i = choose|i: int| 0 <= i < deps@.len() && dep_ids(s@[v as int])[i] == s@[x].id@;
                assert(dep_ids(s@[v as int])[i] == deps@[i]@);
                assert(listed(s@, found@, deps@[i]@));
                let j = choose|j: int|
                    0 <= j < found@.len() && s@[#[trigger] found@[j] as int].id@ == deps@[i]@;
                let y = found@[j] as int;
                if y != x {
                    if y < x {
                        assert(s@[y].id@ != s@[x].id@);
                    } else {
                        assert(s@[x].id@ != s@[y].id@);
                    }
                }
                assert(found@[j] == x as usize);
            }
        }
        all.push(found);
        proof {
            assert forall|w: int, j: int|
                0 <= w < v + 1 && 0 <= j < all@[w]@.len() implies depends_on(
                s@,
                w,
                #[trigger] all@[w]@[j] as int,
            ) by {
                if w < v {
                    assert(all@[w] == all@.drop_last()[w]);
                }
            }
            assert forall|w: int, x: int|
                0 <= w < v + 1 && #[trigger] depends_on(s@, w, x) implies all@[w]@.contains(
                x as usize,
            ) by {
                if w < v {
                    assert(all@[w] == all@.drop_last()[w]);
                }
            }
        }
        v = v + 1;
    }
    Ok(all)
}

/// The lists in `d` hold exactly the dependencies of each service.
pub open spec fn lists_dependencies(s: Seq<Service>, d: Seq<Vec<usize>>) -> bool {
    &&& d.len() == s.len()
    &&& forall|v: int, j: int|
        0 <= v < d.len() && 0 <= j < d[v]@.len() ==> depends_on(s, v, #[trigger] d[v]@[j] as int)
    &&& forall|v: int, x: int|
        0 <= v < d.len() && #[trigger] depends_on(s, v, x) ==> d[v]@.contains(x as usize)
}

proof fn lemma_ready_by_list(
    s: Seq<Service>,
    d: Seq<Vec<usize>>,
    o: Seq<usize>,
    placed: Seq<bool>,
    v: int,
)
    requires
        lists_dependencies(s, d),
        s.len() <= usize::MAX,
        placed.len() == s.len(),
        forall|x: int| 0 <= x < s.len() ==> placed[x] == placed_before(o, o.len() as int, x),
        0 <= v < s.len(),
    ensures
        ready_at(s, o, o.len() as int, v) == (forall|j: int|
            0 <= j < d[v]@.len() ==> #[trigger] placed[d[v]@[j] as int]),
{
    if ready_at(s, o, o.len() as int, v) {
        assert forall|j: int| 0 <= j < d[v]@.len() implies #[trigger] placed[d[v]@[j] as int] by {
            assert(depends_on(s, v, d[v]@[j] as int));
        }
    }
    if forall|j: int| 0 <= j < d[v]@.len() ==> #[trigger] placed[d[v]@[j] as int] {
        assert forall|x: int| #[trigger] depends_on(s, v, x) implies placed_before(
            o,
            o.len() as int,
            x,
        ) by {
            assert(d[v]@.contains(x as usize));
            let j = choose|j: int| 0 <= j < d[v]@.len() && d[v]@[j] == x as usize;
            assert(placed[d[v]@[j] as int]);
            assert(d[v]@[j] as int == x);
            assert(placed[x]);
        }
    }
}

proof fn lemma_key(
    s: Seq<Service>,
    o: Seq<usize>,
    m: int,
    u: int,
    fu: int,
    v: int,
    fv: int,
)
    requires
        0 <= fu <= fv <= m,
        ready_at(s, o, fu, u),
        fu > 0 ==> !ready_at(s, o, fu - 1, u),
        ready_at(s, o, fv, v),
        fv > 0 ==> !ready_at(s, o, fv - 1, v),
        fu == fv ==> !id_lt(s[v].id@, s[u].id@),
    ensures
        key_le(s, o, m, u, v),
{
    lemma_ready_monotone(s, o);
    assert forall|k: int| 0 <= k <= m && #[trigger] ready_at(s, o, k, v) implies ready_at(
        s,
        o,
        k,
        u,
    ) by {
        if k < fv {
            assert(ready_at(s, o, fv - 1, v));
        }
        assert(ready_at(s, o, k, u));
    }
    if forall|k: int| 0 <= k <= m && #[trigger] ready_at(s, o, k, u) ==> ready_at(s, o, k, v) {
        assert(ready_at(s, o, fu, v));
        if fu < fv {
            assert(ready_at(s, o, fv - 1, v));
        }
    }
}

proof fn lemma_first_unplaced(o: Seq<usize>, o2: Seq<usize>, j: int) -> (idx: int)
    requires
        0 <= j <= o2.len(),
        forall|i: int| 0 <= i < j ==> placed_before(o, o.len() as int, #[trigger] o2[i] as int),
        exists|i: int| j <= i < o2.len() && !placed_before(o, o.len() as int, #[trigger] o2[i] as int),
    ensures
        j <= idx < o2.len(),
        !placed_before(o, o.len() as int, o2[idx] as int),
        forall|i: int| 0 <= i < idx ==> placed_before(o, o.len() as int, #[trigger] o2[i] as int),
    decreases o2.len() - j,
{
    if !placed_before(o, o.len() as int, o2[j] as int) {
        j
    } else {
        lemma_first_unplaced(o, o2, j + 1)
    }
}

/// A place that is stuck, with no freed service left, rules out any order.
proof fn lemma_stuck(s: Seq<Service>, o: Seq<usize>)
    requires
        o.len() < s.len(),
        forall|j: int| 0 <= j < o.len() ==> (#[trigger] o[j] as int) < s.len(),
        forall|i: int, j: int| 0 <= i < j < o.len() ==> o[i] != o[j],
        forall|v: int|
            0 <= v < s.len() && !placed_before(o, o.len() as int, v) ==> !#[trigger] ready_at(
                s,
                o,
                o.len() as int,
                v,
            ),
    ensures
        !has_topological_order(s),
{
    if has_topological_order(s) {
        let o2 = choose|o2: Seq<usize>| is_topological(s, o2);
        let n = s.len() as int;
        lemma_short_misses(n, o);
        let v = choose|v: int| 0 <= v < n && !placed_before(o, o.len() as int, v);
        lemma_permutation_covers(n, o2);
        assert(placed_before(o2, n, v));
        let iv = choose|iv: int| 0 <= iv < n && #[trigger] o2[iv] as int == v;
        assert(!placed_before(o, o.len() as int, o2[iv] as int));
        let idx = lemma_first_unplaced(o, o2, 0);
        let u = o2[idx] as int;
        assert(ready_at(s, o2, idx, u));
        assert forall|d: int| #[trigger] depends_on(s, u, d) implies placed_before(
            o,
            o.len() as int,
            d,
        ) by {
            assert(placed_before(o2, idx, d));
            let jd = choose|jd: int| 0 <= jd < idx && #[trigger] o2[jd] as int == d;
            assert(placed_before(o, o.len() as int, o2[jd] as int));
        }
        assert(ready_at(s, o, o.len() as int, u));
    }
}

/// `v` comes before `b` in the sort: freed earlier, or freed together and
/// alphabetically first.
spec fn better(s: Seq<Service>, freed: Seq<usize>, v: int, b: int) -> bool {
    freed[v] < freed[b] || (freed[v] == freed[b] && id_lt(s[v].id@, s[b].id@))
}

/// Every index of `ds` is marked in `placed`.
fn all_placed(ds: &Vec<usize>, placed: &Vec<bool>) -> (r: bool)
    requires
        forall|j: int| 0 <= j < ds@.len() ==> (#[trigger] ds@[j] as int) < placed@.len(),
    ensures
        r == (forall|j: int| 0 <= j < ds@.len() ==> #[trigger] placed@[ds@[j] as int]),
{
    let mut j: usize = 0;
    while j < ds.len()
        invariant
            j <= ds@.len(),
            forall|i: int| 0 <= i < ds@.len() ==> (#[trigger] ds@[i] as int) < placed@.len(),
            forall|i: int| 0 <= i < j ==> #[trigger] placed@[ds@[i] as int],
        decreases ds@.len() - j,
    {
        if !placed[ds[j]] {
            return false;
        }
        j = j + 1;
    }
    true
}

/// The order in which a first-in first-out Kahn sort, alphabetical among
/// services freed by the same step, takes the services.
fn kahn_order(s: &[Service], deps: &Vec<Vec<usize>>) -> (r: Option<Vec<usize>>)
    requires
        lists_dependencies(s@, deps@),
    ensures
        match r {
            Some(o) => is_kahn_order(s@, o@),
            None => !has_topological_order(s@),
        },
{
    let n = s.len();
    let mut placed: Vec<bool> = Vec::new();
    let mut rdy: Vec<bool> = Vec::new();
    let mut freed: Vec<usize> = Vec::new();
    let mut ord: Vec<usize> = Vec::new();
    let mut w: usize = 0;
    while w < n
        invariant
            n == s@.len(),
            lists_dependencies(s@, deps@),
            w <= n,
            ord@.len() == 0,
            placed@.len() == w,
            rdy@.len() == w,
            freed@.len() == w,
            forall|x: int| 0 <= x < w ==> !#[trigger] placed@[x],
            forall|x: int| 0 <= x < w ==> #[trigger] freed@[x] == 0,
            forall|x: int| 0 <= x < w ==> #[trigger] rdy@[x] == ready_at(s@, ord@, 0, x),
        decreases n - w,
    {
        placed.push(false);
        let ghost none: Seq<bool> = Seq::new(n as nat, |x: int| false);
        proof {
            assert forall|x: int| 0 <= x < n implies none[x] == placed_before(ord@, 0, x) by {}
            lemma_ready_by_list(s@, deps@, ord@, none, w as int);
            if deps@[w as int]@.len() > 0 {
                assert(!none[deps@[w as int]@[0] as int]);
            }
        }
        rdy.push(deps[w].len() == 0);
        freed.push(0);
        w = w + 1;
    }
    while ord.len() < n
        invariant
            n == s@.len(),
            lists_dependencies(s@, deps@),
            placed@.len() == n,
            rdy@.len() == n,
            freed@.len() == n,
            ord@.len() <= n,
            forall|j: int| 0 <= j < ord@.len() ==> (#[trigger] ord@[j] as int) < n,
            forall|i: int, j: int| 0 <= i < j < ord@.len() ==> ord@[i] != ord@[j],
            forall|x: int|
                0 <= x < n ==> #[trigger] placed@[x] == placed_before(ord@, ord@.len() as int, x),
            forall|x: int|
                0 <= x < n ==> #[trigger] rdy@[x] == ready_at(s@, ord@, ord@.len() as int, x),
            forall|x: int|
                0 <= x < n && #[trigger] rdy@[x] ==> {
                    &&& freed@[x] <= ord@.len()
                    &&& ready_at(s@, ord@, freed@[x] as int, x)
                    &&& freed@[x] > 0 ==> !ready_at(s@, ord@, freed@[x] - 1, x)
                },
            forall|i: int| 0 <= i < ord@.len() ==> #[trigger] kahn_step(s@, ord@, i),
        decreases n - ord@.len(),
    {
        let mut best: Option<usize> = None;
        let mut v: usize = 0;
        while v < n
            invariant
                n == s@.len(),
                placed@.len() == n,
                rdy@.len() == n,
                freed@.len() == n,
                v <= n,
                match best {
                    Some(b) => {
                        &&& b < n
                        &&& !placed@[b as int]
                        &&& rdy@[b as int]
                        &&& forall|x: int|
                            0 <= x < v && !placed@[x] && #[trigger] rdy@[x] ==> !better(
                                s@,
                                freed@,
                                x,
                                b as int,
                            )
                    },
                    None => forall|x: int| 0 <= x < v ==> !placed@[x] ==> !#[trigger] rdy@[x],
                },
            decreases n - v,
        {
            if !placed[v] && rdy[v] {
                match best {
                    None => {
                        proof {
                            lemma_id_lt_irreflexive(s@[v as int].id@);
                        }
                        best = Some(v);
                    },
                    Some(b) => {
                        if freed[v] < freed[b] || (freed[v] == freed[b] && id_less(
                            s[v].id.as_str(),
                            s[b].id.as_str(),
                        )) {
                            proof {
                                lemma_id_lt_irreflexive(s@[v as int].id@);
                                assert forall|x: int|
                                    0 <= x < v + 1 && !placed@[x] && #[trigger] rdy@[x] implies !better(
                                    s@,
                                    freed@,
                                    x,
                                    v as int,
                                ) by {
                                    if x < v && id_lt(s@[x].id@, s@[v as int].id@) && freed@[x]
                                        == freed@[v as int] {
                                        lemma_id_lt_transitive(
                                            s@[x].id@,
                                            s@[v as int].id@,
                                            s@[b as int].id@,
                                        );
                                    }
                                }
                            }
                            best = Some(v);
                        }
                    },
                }
            }
            v = v + 1;
        }
        match best {
            None => {
                proof {
                    assert forall|x: int|
                        0 <= x < n && !placed_before(ord@, ord@.len() as int, x) implies !#[trigger] ready_at(
                        s@,
                        ord@,
                        ord@.len() as int,
                        x,
                    ) by {
                        assert(!placed@[x]);
                        assert(!rdy@[x]);
                    }
                    lemma_stuck(s@, ord@);
                }
                return None;
            },
            Some(b) => {
                let ghost prev = ord@;
                let ghost prev_rdy = rdy@;
                let ghost prev_freed = freed@;
                let m = ord.len();
                ord.push(b);
                placed.set(b, true);
                proof {
                    lemma_prefix_placed(prev, b);
                    lemma_prefix_ready(s@, prev, b);
                    lemma_ready_monotone(s@, ord@);
                    lemma_ready_monotone(s@, prev);
                    assert forall|x: int| 0 <= x < n implies #[trigger] placed@[x] == placed_before(
                        ord@,
                        ord@.len() as int,
                        x,
                    ) by {}
                }
                proof {
                    assert forall|i: int| 0 <= i < ord@.len() implies #[trigger] kahn_step(
                        s@,
                        ord@,
                        i,
                    ) by {
                        if i < m {
                            assert(kahn_step(s@, prev, i));
                            assert forall|x: int|
                                0 <= x < n && !placed_before(ord@, i, x) && #[trigger] ready_at(
                                    s@,
                                    ord@,
                                    i,
                                    x,
                                ) implies key_le(s@, ord@, i, ord@[i] as int, x) by {
                                assert(ord@[i] == prev[i]);
                                assert(!placed_before(prev, i, x));
                                assert(ready_at(s@, prev, i, x));
                                assert(key_le(s@, prev, i, prev[i] as int, x));
                                lemma_key_prefix(s@, prev, b, i, prev[i] as int, x);
                            }
                        } else {
                            assert forall|x: int|
                                0 <= x < n && !placed_before(ord@, i, x) && #[trigger] ready_at(
                                    s@,
                                    ord@,
                                    i,
                                    x,
                                ) implies key_le(s@, ord@, i, ord@[i] as int, x) by {
                                assert(prev_rdy[x]);
                                assert(!better(s@, prev_freed, x, b as int));
                                lemma_key(
                                    s@,
                                    ord@,
                                    m as int,
                                    b as int,
                                    prev_freed[b as int] as int,
                                    x,
                                    prev_freed[x] as int,
                                );
                            }
                        }
                    }
                }
                let mut u: usize = 0;
                while u < n
                    invariant
                        n == s@.len(),
                        lists_dependencies(s@, deps@),
                        m == prev.len(),
                        ord@ == prev.push(b),
                        placed@.len() == n,
                        rdy@.len() == n,
                        freed@.len() == n,
                        m < n,
                        u <= n,
                        forall|x: int|
                            0 <= x < n ==> #[trigger] placed@[x] == placed_before(
                                ord@,
                                ord@.len() as int,
                                x,
                            ),
                        forall|x: int| u <= x < n ==> #[trigger] rdy@[x] == prev_rdy[x],
                        forall|x: int| u <= x < n ==> #[trigger] freed@[x] == prev_freed[x],
                        forall|x: int|
                            0 <= x < u ==> #[trigger] rdy@[x] == ready_at(
                                s@,
                                ord@,
                                ord@.len() as int,
                                x,
                            ),
                        forall|x: int|
                            0 <= x < u && #[trigger] rdy@[x] ==> {
                                &&& freed@[x] <= ord@.len()
                                &&& ready_at(s@, ord@, freed@[x] as int, x)
                                &&& freed@[x] > 0 ==> !ready_at(s@, ord@, freed@[x] - 1, x)
                            },
                        forall|x: int|
                            0 <= x < n ==> #[trigger] prev_rdy[x] == ready_at(s@, prev, m as int, x),
                        forall|x: int|
                            0 <= x < n && #[trigger] prev_rdy[x] ==> {
                                &&& prev_freed[x] <= m
                                &&& ready_at(s@, prev, prev_freed[x] as int, x)
                                &&& prev_freed[x] > 0 ==> !ready_at(
                                    s@,
                                    prev,
                                    prev_freed[x] - 1,
                                    x,
                                )
                            },
                        forall|k: int, x: int|
                            0 <= k <= m ==> #[trigger] ready_at(s@, ord@, k, x) == ready_at(
                                s@,
                                prev,
                                k,
                                x,
                            ),
                        forall|k1: int, k2: int, x: int|
                            0 <= k1 <= k2 && #[trigger] ready_at(s@, ord@, k1, x)
                                ==> #[trigger] ready_at(s@, ord@, k2, x),
                        forall|i: int| 0 <= i < ord@.len() ==> #[trigger] kahn_step(s@, ord@, i),
                    decreases n - u,
                {
                    if !rdy[u] {
                        proof {
                            lemma_ready_by_list(s@, deps@, ord@, placed@, u as int);
                        }
                        if all_placed(&deps[u], &placed) {
                            rdy.set(u, true);
                            freed.set(u, m + 1);
                        }
                    } else {
                        proof {
                            let x = u as int;
                            assert(ready_at(s@, prev, m as int, x));
                            assert(ready_at(s@, ord@, m as int, x));
                            assert(ready_at(s@, ord@, m as int + 1, x));
                            let f = prev_freed[x] as int;
                            assert(ready_at(s@, ord@, f, x));
                            if f > 0 {
                                assert(!ready_at(s@, prev, f - 1, x));
                                assert(!ready_at(s@, ord@, f - 1, x));
                            }
                        }
                    }
                    u = u + 1;
                }
            },
        }
    }
    Some(ord)
}

/// Sorts services into a start order: each after all of its dependencies,
/// ties going to the service freed first and then to the alphabetically first
/// id.
pub fn sort_services(services: &[Service]) -> (r: Result<Vec<Service>, SortError>)
    requires
        unique_ids(services@),
    ensures
        match r {
            Ok(out) => exists|o: Seq<usize>| is_kahn_order(services@, o) && arranged(services@, o, out@),
            Err(SortError::UnknownDependency { service, dependency }) => {
                &&& exists|v: int|
                    0 <= v < services@.len() && #[trigger] services@[v].id@ == service@
                        && dep_ids(services@[v]).contains(dependency@)
                &&& !known_id(services@, dependency@)
            },
            Err(SortError::CycleDetected) => true,
        },
        (r is Err && r->Err_0 is UnknownDependency) <==> !deps_resolve(services@),
        (r is Err && r->Err_0 is CycleDetected) <==> (deps_resolve(services@)
            && !has_topological_order(services@)),
{
    let deps = match resolve_dependencies(services) {
        Ok(d) => d,
        Err(e) => {
            return Err(e);
        },
    };
    match kahn_order(services, &deps) {
        None => Err(SortError::CycleDetected),
        Some(o) => {
            let mut out: Vec<Service> = Vec::new();
            let mut i: usize = 0;
            while i < o.len()
                invariant
                    is_kahn_order(services@, o@),
                    i <= o@.len(),
                    out@.len() == i,
                    forall|j: int|
                        0 <= j < i ==> same_service(services@[#[trigger] o@[j] as int], out@[j]),
                decreases o@.len() - i,
            {
                out.push(services[o[i]].duplicate());
                i = i + 1;
            }
            proof {
                lemma_kahn_is_topological(services@, o@);
            }
            Ok(out)
        },
    }
}

/// The sort's order places every service after each of its dependencies.
pub proof fn lemma_kahn_is_topological(s: Seq<Service>, o: Seq<usize>)
    requires
        is_kahn_order(s, o),
    ensures
        is_topological(s, o),
        has_topological_order(s),
{
    assert forall|i: int| 0 <= i < o.len() implies ready_at(s, o, i, #[trigger] o[i] as int) by {
        assert(kahn_step(s, o, i));
    }
    assert(is_topological(s, o));
}

/// In the sorted services, each service stands strictly after every service
/// that it depends on.
pub proof fn lemma_sorted_after_dependencies(s: Seq<Service>, o: Seq<usize>, out: Seq<Service>)
    requires
        is_kahn_order(s, o),
        arranged(s, o, out),
    ensures
        forall|i: int, j: int|
            0 <= i < out.len() && 0 <= j < out.len() && #[trigger] dep_ids(out[i]).contains(
                #[trigger] out[j].id@,
            ) ==> j < i,
{
    lemma_kahn_is_topological(s, o);
    assert forall|i: int, j: int|
        0 <= i < out.len() && 0 <= j < out.len() && #[trigger] dep_ids(out[i]).contains(
            #[trigger] out[j].id@,
        ) implies j < i by {
        assert(same_service(s[o[i] as int], out[i]));
        assert(same_service(s[o[j] as int], out[j]));
        assert(depends_on(s, o[i] as int, o[j] as int));
        assert(ready_at(s, o, i, o[i] as int));
        assert(placed_before(o, i, o[j] as int));
        let jj = choose|jj: int| 0 <= jj < i && #[trigger] o[jj] as int == o[j] as int;
        if jj != j {
            if jj < j {
                assert(o[jj] != o[j]);
            } else {
                assert(o[j] != o[jj]);
            }
        }
    }
}

proof fn lemma_same_prefix_ready(s: Seq<Service>, o1: Seq<usize>, o2: Seq<usize>, i: int)
    requires
        0 <= i <= o1.len(),
        i <= o2.len(),
        o1.subrange(0, i) == o2.subrange(0, i),
    ensures
        forall|k: int, v: int|
            0 <= k <= i ==> #[trigger] ready_at(s, o1, k, v) == ready_at(s, o2, k, v),
        forall|k: int, v: int|
            0 <= k <= i ==> #[trigger] placed_before(o1, k, v) == placed_before(o2, k, v),
{
    assert forall|k: int, v: int| 0 <= k <= i implies #[trigger] placed_before(o1, k, v)
        == placed_before(o2, k, v) by {
        if placed_before(o1, k, v) {
            let j = choose|j: int| 0 <= j < k && #[trigger] o1[j] as int == v;
            assert(o1.subrange(0, i)[j] == o2.subrange(0, i)[j]);
            assert(o1.subrange(0, i)[j] == o1[j]);
            assert(o2.subrange(0, i)[j] == o2[j]);
            assert(o2[j] as int == v);
        }
        if placed_before(o2, k, v) {
            let j = choose|j: int| 0 <= j < k && #[trigger] o2[j] as int == v;
            assert(o1.subrange(0, i)[j] == o2.subrange(0, i)[j]);
            assert(o1.subrange(0, i)[j] == o1[j]);
            assert(o2.subrange(0, i)[j] == o2[j]);
            assert(o1[j] as int == v);
        }
    }
}

proof fn lemma_same_prefix_key(s: Seq<Service>, o1: Seq<usize>, o2: Seq<usize>, i: int, u: int, v: int)
    requires
        0 <= i <= o1.len(),
        i <= o2.len(),
        o1.subrange(0, i) == o2.subrange(0, i),
        key_le(s, o1, i, u, v),
    ensures
        key_le(s, o2, i, u, v),
{
    lemma_same_prefix_ready(s, o1, o2, i);
    assert forall|k: int| 0 <= k <= i && #[trigger] ready_at(s, o2, k, v) implies ready_at(
        s,
        o2,
        k,
        u,
    ) by {
        assert(ready_at(s, o1, k, v));
    }
    if forall|k: int| 0 <= k <= i && #[trigger] ready_at(s, o2, k, u) ==> ready_at(s, o2, k, v) {
        assert forall|k: int| 0 <= k <= i && #[trigger] ready_at(s, o1, k, u) implies ready_at(
            s,
            o1,
            k,
            v,
        ) by {
            assert(ready_at(s, o2, k, u));
        }
    }
}

proof fn lemma_not_placed_at(o: Seq<usize>, i: int)
    requires
        0 <= i < o.len(),
        forall|a: int, b: int| 0 <= a < b < o.len() ==> o[a] != o[b],
    ensures
        !placed_before(o, i, o[i] as int),
{
    if placed_before(o, i, o[i] as int) {
        let j = choose|j: int| 0 <= j < i && #[trigger] o[j] as int == o[i] as int;
        assert(o[j] != o[i]);
    }
}

proof fn lemma_same_from(s: Seq<Service>, o1: Seq<usize>, o2: Seq<usize>, i: int)
    requires
        unique_ids(s),
        is_kahn_order(s, o1),
        is_kahn_order(s, o2),
        0 <= i <= s.len(),
        o1.subrange(0, i) == o2.subrange(0, i),
    ensures
        o1 == o2,
    decreases s.len() - i,
{
    let n = s.len() as int;
    if i == n {
        assert(o1 =~= o1.subrange(0, n));
        assert(o2 =~= o2.subrange(0, n));
    } else {
        let u = o1[i] as int;
        let v = o2[i] as int;
        assert(kahn_step(s, o1, i));
        assert(kahn_step(s, o2, i));
        lemma_same_prefix_ready(s, o1, o2, i);
        lemma_not_placed_at(o1, i);
        lemma_not_placed_at(o2, i);
        assert(ready_at(s, o2, i, u));
        assert(!placed_before(o2, i, u));
        assert(key_le(s, o2, i, v, u));
        assert(ready_at(s, o1, i, v));
        assert(!placed_before(o1, i, v));
        assert(key_le(s, o1, i, u, v));
        lemma_same_prefix_key(s, o2, o1, i, v, u);
        lemma_id_lt_total(s[u].id@, s[v].id@);
        if u != v {
            if u < v {
                assert(s[u].id@ != s[v].id@);
            } else {
                assert(s[v].id@ != s[u].id@);
            }
        }
        assert(o1.subrange(0, i + 1) =~= o1.subrange(0, i).push(o1[i]));
        assert(o2.subrange(0, i + 1) =~= o2.subrange(0, i).push(o2[i]));
        lemma_same_from(s, o1, o2, i + 1);
    }
}

/// The sort's order is determined by the services alone: any two orders
/// that both follow its rule, alphabetical tie-break included, are the same.
pub proof fn lemma_sort_deterministic(s: Seq<Service>, o1: Seq<usize>, o2: Seq<usize>)
    requires
        unique_ids(s),
        is_kahn_order(s, o1),
        is_kahn_order(s, o2),
    ensures
        o1 == o2,
{
    assert(o1.subrange(0, 0) =~= o2.subrange(0, 0));
    lemma_same_from(s, o1, o2, 0);
}

} // verus!
