//! Startup discovery: selecting the region, the routes and the stops to
//! track, and recording each route's direction name.
//!
//! Discovery runs once. The fetches themselves live outside the crate;
//! these functions hold the selection rules they feed: exact name matches
//! for regions and routes, an exact RTPI code or display name for stops,
//! and first-seen order with duplicates dropped for the stop worklist.

use vstd::prelude::*;
use crate::model::{Direction, Region, Route, Stop};

verus! {

/// The ids of the regions whose name is exactly `target`, in input order.
pub open spec fn region_ids_matching(rs: Seq<Region>, target: Seq<char>) -> Seq<i64>
    decreases rs.len(),
{
    if rs.len() == 0 {
        Seq::empty()
    } else {
        region_ids_matching(rs.drop_last(), target) + (if rs.last().name@ == target {
            seq![rs.last().id]
        } else {
            Seq::empty()
        })
    }
}

/// The ids of the regions whose name is exactly `target`.
pub fn matching_region_ids(regions: &Vec<Region>, target: &String) -> (r: Vec<i64>)
    ensures
        r@ == region_ids_matching(regions@, target@),
{
    let mut r: Vec<i64> = Vec::new();
    let mut i: usize = 0;
    while i < regions.len()
        invariant
            i <= regions@.len(),
            r@ == region_ids_matching(regions@.take(i as int), target@),
        decreases regions@.len() - i,
    {
        let ghost pre = r@;
        if regions[i].name == *target {
            r.push(regions[i].id);
            assert(r@ =~= pre + seq![regions@[i as int].id]);
        } else {
            assert(r@ =~= pre + Seq::<i64>::empty());
        }
        proof {
            assert(regions@.take(i + 1 as int).drop_last() =~= regions@.take(i as int));
            assert(regions@.take(i + 1 as int).last() == regions@[i as int]);
        }
        i = i + 1;
    }
    assert(regions@.take(regions@.len() as int) =~= regions@);
    r
}

/// The ids of the routes whose name is exactly `a` or exactly `b`, in
/// input order.
pub open spec fn route_ids_matching(rs: Seq<Route>, a: Seq<char>, b: Seq<char>) -> Seq<i64>
    decreases rs.len(),
{
    if rs.len() == 0 {
        Seq::empty()
    } else {
        route_ids_matching(rs.drop_last(), a, b) + (if rs.last().name@ == a || rs.last().name@
            == b {
            seq![rs.last().id]
        } else {
            Seq::empty()
        })
    }
}

/// The ids of the routes whose name is exactly `name_a` or `name_b`.
pub fn matching_route_ids(routes: &Vec<Route>, name_a: &String, name_b: &String) -> (r: Vec<i64>)
    ensures
        r@ == route_ids_matching(routes@, name_a@, name_b@),
{
    let mut r: Vec<i64> = Vec::new();
    let mut i: usize = 0;
    while i < routes.len()
        invariant
            i <= routes@.len(),
            r@ == route_ids_matching(routes@.take(i as int), name_a@, name_b@),
        decreases routes@.len() - i,
    {
        let ghost pre = r@;
        if routes[i].name == *name_a || routes[i].name == *name_b {
            r.push(routes[i].id);
            assert(r@ =~= pre + seq![routes@[i as int].id]);
        } else {
            assert(r@ =~= pre + Seq::<i64>::empty());
        }
        proof {
            assert(routes@.take(i + 1 as int).drop_last() =~= routes@.take(i as int));
            assert(routes@.take(i + 1 as int).last() == routes@[i as int]);
        }
        i = i + 1;
    }
    assert(routes@.take(routes@.len() as int) =~= routes@);
    r
}

/// Whether a stop is selected: its RTPI code or its display name matches
/// the configured selector exactly.
pub open spec fn stop_selected(s: Stop, rtpi: i64, name: Seq<char>) -> bool {
    s.rtpi_number == rtpi || s.name@ == name
}

/// `id` appended unless it is already present.
pub open spec fn dedup_push(acc: Seq<i64>, id: i64) -> Seq<i64> {
    if acc.contains(id) {
        acc
    } else {
        acc.push(id)
    }
}

/// The selected stop ids of one stop list folded onto `acc`, first-seen
/// order kept, duplicates dropped.
pub open spec fn collect_stop_ids(acc: Seq<i64>, stops: Seq<Stop>, rtpi: i64, name: Seq<char>) -> Seq<
    i64,
>
    decreases stops.len(),
{
    if stops.len() == 0 {
        acc
    } else {
        let prev = collect_stop_ids(acc, stops.drop_last(), rtpi, name);
        if stop_selected(stops.last(), rtpi, name) {
            dedup_push(prev, stops.last().id)
        } else {
            prev
        }
    }
}

/// The selected stop ids of every direction's stop list, directions in
/// input order.
pub open spec fn collect_direction_stop_ids(
    acc: Seq<i64>,
    dirs: Seq<Direction>,
    rtpi: i64,
    name: Seq<char>,
) -> Seq<i64>
    decreases dirs.len(),
{
    if dirs.len() == 0 {
        acc
    } else {
        collect_stop_ids(
            collect_direction_stop_ids(acc, dirs.drop_last(), rtpi, name),
            dirs.last().stops@,
            rtpi,
            name,
        )
    }
}

/// No id occurs twice.
pub open spec fn distinct_ids(s: Seq<i64>) -> bool {
    forall|i: int, j: int| 0 <= i < j < s.len() ==> s[i] != s[j]
}

/// Whether `id` stands in `v`.
pub fn contains_id(v: &Vec<i64>, id: i64) -> (r: bool)
    ensures
        r == v@.contains(id),
{
    let mut i: usize = 0;
    while i < v.len()
        invariant
            i <= v@.len(),
            forall|k: int| 0 <= k < i as int ==> v@[k] != id,
        decreases v@.len() - i,
    {
        if v[i] == id {
            assert(v@.contains(id));
            return true;
        }
        i = i + 1;
    }
    assert(!v@.contains(id));
    false
}

/// The deduplicated worklist of selected stop ids, walking every
/// direction's stops in input order.
pub fn select_stops(dirs: &Vec<Direction>, rtpi: i64, stop_name: &String) -> (r: Vec<i64>)
    ensures
        r@ == collect_direction_stop_ids(Seq::empty(), dirs@, rtpi, stop_name@),
        distinct_ids(r@),
{
    let mut r: Vec<i64> = Vec::new();
    let mut di: usize = 0;
    while di < dirs.len()
        invariant
            di <= dirs@.len(),
            r@ == collect_direction_stop_ids(Seq::empty(), dirs@.take(di as int), rtpi, stop_name@),
            distinct_ids(r@),
        decreases dirs@.len() - di,
    {
        let slen: usize = dirs[di].stops.len();
        let mut si: usize = 0;
        while si < slen
            invariant
                di < dirs@.len(),
                slen == dirs@[di as int].stops@.len(),
                si <= slen,
                r@ == collect_stop_ids(
                    collect_direction_stop_ids(
                        Seq::empty(),
                        dirs@.take(di as int),
                        rtpi,
                        stop_name@,
                    ),
                    dirs@[di as int].stops@.take(si as int),
                    rtpi,
                    stop_name@,
                ),
                distinct_ids(r@),
            decreases slen - si,
        {
            proof {
                assert(dirs@[di as int].stops@.take(si + 1 as int).drop_last() =~= dirs@[
                    di as int].stops@.take(si as int));
                assert(dirs@[di as int].stops@.take(si + 1 as int).last() == dirs@[
                    di as int].stops@[si as int]);
            }
            let ghost pre = r@;
            let selected = dirs[di].stops[si].rtpi_number == rtpi || dirs[di].stops[si].name
                == *stop_name;
            if selected {
                let id: i64 = dirs[di].stops[si].id;
                if !contains_id(&r, id) {
                    r.push(id);
                    assert forall|a: int, b: int| 0 <= a < b < r@.len() implies r@[a]
                        != r@[b] by {
                        if b == r@.len() - 1 {
                            if r@[a] == id {
                                assert(pre.contains(id));
                            }
                        }
                    }
                }
            }
            si = si + 1;
        }
        proof {
            assert(dirs@.take(di + 1 as int).drop_last() =~= dirs@.take(di as int));
            assert(dirs@.take(di + 1 as int).last() == dirs@[di as int]);
            assert(dirs@[di as int].stops@.take(slen as int) =~= dirs@[di as int].stops@);
        }
        di = di + 1;
    }
    assert(dirs@.take(dirs@.len() as int) =~= dirs@);
    r
}

/// The route-name map after walking `dirs`: each direction's name keyed
/// by its route id, a later direction replacing an earlier one.
pub open spec fn route_names_of(dirs: Seq<Direction>) -> Map<i64, Seq<char>>
    decreases dirs.len(),
{
    if dirs.len() == 0 {
        Map::empty()
    } else {
        route_names_of(dirs.drop_last()).insert(dirs.last().route_id, dirs.last().name@)
    }
}

/// The map an association list holds: a later pair shadows an earlier one
/// with the same key.
pub open spec fn assoc_map(s: Seq<(i64, String)>) -> Map<i64, Seq<char>>
    decreases s.len(),
{
    if s.len() == 0 {
        Map::empty()
    } else {
        assoc_map(s.drop_last()).insert(s.last().0, s.last().1@)
    }
}

/// No key occurs twice.
pub open spec fn distinct_keys(s: Seq<(i64, String)>) -> bool {
    forall|i: int, j: int| 0 <= i < j < s.len() ==> s[i].0 != s[j].0
}

/// Replacing the pair at `k` by one with the same key and a new value
/// turns the association map into an insert over that key.
proof fn lemma_assoc_update(s: Seq<(i64, String)>, k: int, v: String)
    requires
        0 <= k < s.len(),
        distinct_keys(s),
    ensures
        assoc_map(s.update(k, (s[k].0, v))) == assoc_map(s).insert(s[k].0, v@),
    decreases s.len(),
{
    let key = s[k].0;
    let s2 = s.update(k, (key, v));
    if k == s.len() - 1 {
        assert(s2.drop_last() =~= s.drop_last());
        assert(s2.last() == (key, v));
        assert(assoc_map(s.drop_last()).insert(key, v@) =~= assoc_map(s.drop_last()).insert(
            key,
            s.last().1@,
        ).insert(key, v@));
    } else {
        assert(s2.drop_last() =~= s.drop_last().update(k, (key, v)));
        assert(distinct_keys(s.drop_last()));
        assert(s.drop_last()[k] == s[k]);
        lemma_assoc_update(s.drop_last(), k, v);
        assert(s[k].0 != s[s.len() - 1].0);
        assert(s2.last() == s.last());
        assert(assoc_map(s.drop_last()).insert(key, v@).insert(s.last().0, s.last().1@)
            =~= assoc_map(s.drop_last()).insert(s.last().0, s.last().1@).insert(key, v@));
    }
}

/// The index of the pair whose key is `key`, if one stands in `v`.
fn find_key(v: &Vec<(i64, String)>, key: i64) -> (r: Option<usize>)
    ensures
        match r {
            Some(k) => k < v@.len() && v@[k as int].0 == key,
            None => forall|i: int| 0 <= i < v@.len() ==> (#[trigger] v@[i]).0 != key,
        },
{
    let mut i: usize = 0;
    while i < v.len()
        invariant
            i <= v@.len(),
            forall|k: int| 0 <= k < i as int ==> (#[trigger] v@[k]).0 != key,
        decreases v@.len() - i,
    {
        if v[i].0 == key {
            return Some(i);
        }
        i = i + 1;
    }
    None
}

/// The route-name map discovery builds: each direction's name keyed by
/// its route id, a later direction replacing an earlier one, keys unique.
pub fn route_name_map(dirs: &Vec<Direction>) -> (r: Vec<(i64, String)>)
    ensures
        assoc_map(r@) == route_names_of(dirs@),
        distinct_keys(r@),
{
    let mut r: Vec<(i64, String)> = Vec::new();
    let mut di: usize = 0;
    while di < dirs.len()
        invariant
            di <= dirs@.len(),
            assoc_map(r@) == route_names_of(dirs@.take(di as int)),
            distinct_keys(r@),
        decreases dirs@.len() - di,
    {
        let key: i64 = dirs[di].route_id;
        let name = dirs[di].name.clone();
        let ghost pre = r@;
        match find_key(&r, key) {
            Some(k) => {
                r[k] = (key, name);
                proof {
                    assert((pre[k as int].0, name) == (key, name));
                    lemma_assoc_update(pre, k as int, name);
                    assert forall|a: int, b: int| 0 <= a < b < r@.len() implies r@[a].0
                        != r@[b].0 by {
                        assert(r@[a].0 == pre[a].0 && r@[b].0 == pre[b].0);
                    }
                }
            },
            None => {
                r.push((key, name));
                proof {
                    assert(r@.drop_last() =~= pre);
                    assert forall|a: int, b: int| 0 <= a < b < r@.len() implies r@[a].0
                        != r@[b].0 by {
                        if b == r@.len() - 1 {
                            assert(r@[a] == pre[a]);
                        }
                    }
                }
            },
        }
        proof {
            assert(dirs@.take(di + 1 as int).drop_last() =~= dirs@.take(di as int));
            assert(dirs@.take(di + 1 as int).last() == dirs@[di as int]);
        }
        di = di + 1;
    }
    assert(dirs@.take(dirs@.len() as int) =~= dirs@);
    r
}

} // verus!
