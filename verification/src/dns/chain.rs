//! Following aliases through records.

use vstd::prelude::*;
use vstd::seq_lib::*;
use vstd::set_lib::*;
use crate::dns::rr::{views, RData, RDataView, Record, RecordView};
use crate::name::{fold, Fqdn};

verus! {

/// The data under a name, with that of the names it is an alias of, as far as so many aliases lead.
/// There is none where they lead further.
pub open spec fn resolved(all: Seq<RecordView>, name: Seq<Seq<u8>>, depth: nat) -> Option<
    Seq<RDataView>,
>
    decreases depth, 0nat,
{
    if depth == 0 {
        None
    } else {
        gathered(all, all, name, (depth - 1) as nat)
    }
}

/// The data that some of the records give for a name.
pub open spec fn gathered(
    all: Seq<RecordView>,
    part: Seq<RecordView>,
    name: Seq<Seq<u8>>,
    depth: nat,
) -> Option<Seq<RDataView>>
    decreases depth, part.len() + 1,
{
    if part.len() == 0 {
        Some(Seq::empty())
    } else {
        match gathered(all, part.drop_last(), name, depth) {
            None => None,
            Some(rest) => if fold(part.last().name) != fold(name) {
                Some(rest)
            } else {
                match part.last().data {
                    None => Some(rest),
                    Some(RDataView::Cname(target)) => match resolved(all, target, depth) {
                        None => None,
                        Some(more) => Some(rest + more),
                    },
                    Some(data) => Some(rest.push(data)),
                }
            },
        }
    }
}

/// The data under a name. There is none where aliases lead round in a circle.
pub open spec fn resolution(all: Seq<RecordView>, name: Seq<Seq<u8>>) -> Option<Seq<RDataView>> {
    resolved(all, name, all.len() + 1)
}

/// Whether a record makes a name an alias.
spec fn leads(all: Seq<RecordView>, e: int, name: Seq<Seq<u8>>) -> bool {
    0 <= e < all.len() && fold(all[e].name) == fold(name) && all[e].data is Some
        && all[e].data->0 is Cname
}

/// The name that a record leads to.
spec fn target(all: Seq<RecordView>, e: int) -> Seq<Seq<u8>> {
    all[e].data->0->Cname_0
}

/// Whether records lead from a name on, each from where the one before it led to.
spec fn is_path(all: Seq<RecordView>, name: Seq<Seq<u8>>, path: Seq<int>) -> bool
    decreases path.len(),
{
    path.len() == 0 || leads(all, path[0], name) && is_path(
        all,
        target(all, path[0]),
        path.drop_first(),
    )
}

/// Where records lead to from a name.
spec fn path_end(all: Seq<RecordView>, name: Seq<Seq<u8>>, path: Seq<int>) -> Seq<Seq<u8>>
    decreases path.len(),
{
    if path.len() == 0 {
        name
    } else {
        path_end(all, target(all, path[0]), path.drop_first())
    }
}

/// More depth does not change what is found.
proof fn lemma_deeper(
    all: Seq<RecordView>,
    part: Seq<RecordView>,
    name: Seq<Seq<u8>>,
    depth: nat,
)
    requires
        gathered(all, part, name, depth) is Some,
    ensures
        gathered(all, part, name, depth + 1) == gathered(all, part, name, depth),
    decreases depth, part.len(),
{
    if part.len() > 0 {
        lemma_deeper(all, part.drop_last(), name, depth);
        if fold(part.last().name) == fold(name) {
            if let Some(RDataView::Cname(t)) = part.last().data {
                assert(resolved(all, t, depth) is Some);
                lemma_deeper(all, all, t, (depth - 1) as nat);
                assert(resolved(all, t, depth + 1) == gathered(all, all, t, depth));
            }
        }
    }
}

/// More depth does not change what is found.
proof fn lemma_deeper_by(all: Seq<RecordView>, name: Seq<Seq<u8>>, a: nat, b: nat)
    requires
        a <= b,
        resolved(all, name, a) is Some,
    ensures
        resolved(all, name, b) == resolved(all, name, a),
    decreases b - a,
{
    if a < b {
        lemma_deeper(all, all, name, (a - 1) as nat);
        assert(resolved(all, name, a + 1) == gathered(all, all, name, a));
        lemma_deeper_by(all, name, a + 1, b);
    }
}

/// Where nothing is found, some alias led further.
proof fn lemma_lost_at(
    all: Seq<RecordView>,
    part: Seq<RecordView>,
    name: Seq<Seq<u8>>,
    depth: nat,
) -> (e: int)
    requires
        gathered(all, part, name, depth) is None,
        part == all.take(part.len() as int),
        part.len() <= all.len(),
    ensures
        leads(all, e, name),
        resolved(all, target(all, e), depth) is None,
    decreases part.len(),
{
    let front = part.drop_last();
    if gathered(all, front, name, depth) is None {
        assert(front =~= all.take(front.len() as int));
        lemma_lost_at(all, front, name, depth)
    } else {
        let e = part.len() - 1;
        assert(part.last() == all[e]);
        e
    }
}

/// Where an alias leads further, nothing is found.
proof fn lemma_lost_before(
    all: Seq<RecordView>,
    part: Seq<RecordView>,
    name: Seq<Seq<u8>>,
    depth: nat,
    e: int,
)
    requires
        leads(all, e, name),
        resolved(all, target(all, e), depth) is None,
        e < part.len() <= all.len(),
        part == all.take(part.len() as int),
    ensures
        gathered(all, part, name, depth) is None,
    decreases part.len(),
{
    let front = part.drop_last();
    assert(front =~= all.take(front.len() as int));
    if e < front.len() {
        lemma_lost_before(all, front, name, depth, e);
    } else {
        assert(part.last() == all[e]);
    }
}

/// The records that lead on from a name for which nothing is found.
proof fn lemma_long_path(all: Seq<RecordView>, name: Seq<Seq<u8>>, depth: nat) -> (path: Seq<int>)
    requires
        resolved(all, name, depth) is None,
    ensures
        path.len() == depth,
        is_path(all, name, path),
    decreases depth,
{
    if depth == 0 {
        Seq::empty()
    } else {
        assert(all =~= all.take(all.len() as int));
        let e = lemma_lost_at(all, all, name, (depth - 1) as nat);
        let rest = lemma_long_path(all, target(all, e), (depth - 1) as nat);
        let path = seq![e] + rest;
        assert(path.drop_first() =~= rest);
        path
    }
}

/// Nothing is found where a path is longer than the depth, or ends where nothing is found.
proof fn lemma_path_lost(
    all: Seq<RecordView>,
    name: Seq<Seq<u8>>,
    path: Seq<int>,
    depth: nat,
)
    requires
        is_path(all, name, path),
        depth <= path.len() || resolved(
            all,
            path_end(all, name, path),
            (depth - path.len()) as nat,
        ) is None,
    ensures
        resolved(all, name, depth) is None,
    decreases path.len(),
{
    if depth > 0 && path.len() > 0 {
        let e = path[0];
        lemma_path_lost(all, target(all, e), path.drop_first(), (depth - 1) as nat);
        assert(all =~= all.take(all.len() as int));
        lemma_lost_before(all, all, name, (depth - 1) as nat, e);
    }
}

/// Nothing is found, at any depth, under a name that a path leads back to.
proof fn lemma_circle_lost(all: Seq<RecordView>, name: Seq<Seq<u8>>, path: Seq<int>, depth: nat)
    requires
        is_path(all, name, path),
        path.len() > 0,
        path_end(all, name, path) == name,
    ensures
        resolved(all, name, depth) is None,
    decreases depth,
{
    if depth > path.len() {
        lemma_circle_lost(all, name, path, (depth - path.len()) as nat);
    }
    lemma_path_lost(all, name, path, depth);
}

/// A path taken apart.
proof fn lemma_path_parts(all: Seq<RecordView>, name: Seq<Seq<u8>>, path: Seq<int>, k: int)
    requires
        is_path(all, name, path),
        0 <= k <= path.len(),
    ensures
        is_path(all, name, path.take(k)),
        is_path(all, path_end(all, name, path.take(k)), path.skip(k)),
        k > 0 ==> path_end(all, name, path.take(k)) == target(all, path[k - 1]),
    decreases path.len(),
{
    if k == 0 {
        assert(path.skip(0) =~= path);
    } else {
        let rest = path.drop_first();
        lemma_path_parts(all, target(all, path[0]), rest, k - 1);
        assert(path.take(k).drop_first() =~= rest.take(k - 1));
        assert(path.skip(k) =~= rest.skip(k - 1));
        if k == 1 {
            assert(rest.take(0).len() == 0);
        }
    }
}

/// The records on a path are records.
proof fn lemma_path_in_range(all: Seq<RecordView>, name: Seq<Seq<u8>>, path: Seq<int>)
    requires
        is_path(all, name, path),
    ensures
        forall|i: int| 0 <= i < path.len() ==> 0 <= #[trigger] path[i] < all.len(),
    decreases path.len(),
{
    if path.len() > 0 {
        let rest = path.drop_first();
        lemma_path_in_range(all, target(all, path[0]), rest);
        assert forall|i: int| 0 <= i < path.len() implies 0 <= #[trigger] path[i] < all.len() by {
            if i > 0 {
                assert(path[i] == rest[i - 1]);
            }
        }
    }
}

/// More numbers than there are to choose from hold one of them twice.
proof fn lemma_pigeonhole(s: Seq<int>, n: nat)
    requires
        s.len() > n,
        forall|i: int| 0 <= i < s.len() ==> 0 <= #[trigger] s[i] < n,
    ensures
        exists|i: int, j: int| 0 <= i < j < s.len() && #[trigger] s[i] == #[trigger] s[j],
{
    if forall|i: int, j: int| 0 <= i < j < s.len() ==> #[trigger] s[i] != #[trigger] s[j] {
        assert(s.no_duplicates());
        s.unique_seq_to_set();
        let range = set_int_range(0, n as int);
        lemma_int_range(0, n as int);
        assert(s.to_set().subset_of(range)) by {
            assert forall|x: int| s.to_set().contains(x) implies range.contains(x) by {
                assert(s.contains(x));
            }
        }
        lemma_len_subset(s.to_set(), range);
    }
}

/// The data under a name is found wherever aliases do not lead round in a circle: what any depth
/// finds is found.
pub proof fn law_only_circles_are_lost(all: Seq<RecordView>, name: Seq<Seq<u8>>, depth: nat)
    requires
        resolved(all, name, depth) is Some,
    ensures
        resolution(all, name) == resolved(all, name, depth),
{
    let limit = all.len() + 1;
    if resolved(all, name, limit) is None {
        let path = lemma_long_path(all, name, limit);
        lemma_path_in_range(all, name, path);
        lemma_pigeonhole(path, all.len());
        let (i, j) = choose|i: int, j: int|
            0 <= i < j < path.len() && #[trigger] path[i] == #[trigger] path[j];
        lemma_repeat_lost(all, name, path, i, j, depth);
    } else if depth <= limit {
        lemma_deeper_by(all, name, depth, limit);
    } else {
        lemma_deeper_by(all, name, limit, depth);
    }
}

/// Whether records lead from a name on: the first is under the name, each is an alias, and each but the
/// first is under the name that the one before it leads to.
pub open spec fn aliases_lead(all: Seq<RecordView>, name: Seq<Seq<u8>>, route: Seq<int>) -> bool {
    &&& forall|k: int|
        0 <= k < route.len() ==> 0 <= #[trigger] route[k] < all.len() && (
        all[route[k]].data matches Some(RDataView::Cname(_)))
    &&& route.len() > 0 ==> fold(all[route[0]].name) == fold(name)
    &&& forall|k: int|
        0 < k < route.len() ==> fold(all[#[trigger] route[k]].name) == fold(
            all[route[k - 1]].data->0->Cname_0,
        )
}

/// Whether records lead from a name to data: aliases lead to a name, and the last record is under that
/// name, is no alias and holds the data.
pub open spec fn route_to(
    all: Seq<RecordView>,
    name: Seq<Seq<u8>>,
    route: Seq<int>,
    data: RDataView,
) -> bool {
    &&& route.len() > 0
    &&& aliases_lead(all, name, route.drop_last())
    &&& 0 <= route.last() < all.len()
    &&& fold(all[route.last()].name) == fold(
        if route.len() == 1 {
            name
        } else {
            all[route[route.len() - 2]].data->0->Cname_0
        },
    )
    &&& all[route.last()].data == Some(data)
    &&& !(data is Cname)
}

/// Aliases that lead on from an alias lead on from where it leads.
proof fn lemma_aliases_lead(all: Seq<RecordView>, name: Seq<Seq<u8>>, route: Seq<int>)
    requires
        route.len() > 0,
    ensures
        aliases_lead(all, name, route) <==> leads(all, route[0], name) && aliases_lead(
            all,
            target(all, route[0]),
            route.drop_first(),
        ),
{
    let rest = route.drop_first();
    if aliases_lead(all, name, route) {
        assert(0 <= route[0] < all.len());
        assert forall|k: int| 0 <= k < rest.len() implies 0 <= #[trigger] rest[k] < all.len() && (
        all[rest[k]].data matches Some(RDataView::Cname(_))) by {
            assert(rest[k] == route[k + 1]);
        }
        assert forall|k: int| 0 < k < rest.len() implies fold(all[#[trigger] rest[k]].name) == fold(
            all[rest[k - 1]].data->0->Cname_0,
        ) by {
            assert(rest[k] == route[k + 1]);
            assert(rest[k - 1] == route[k]);
        }
        if rest.len() > 0 {
            assert(rest[0] == route[1]);
        }
    }
    if leads(all, route[0], name) && aliases_lead(all, target(all, route[0]), rest) {
        assert forall|k: int| 0 <= k < route.len() implies 0 <= #[trigger] route[k] < all.len() && (
        all[route[k]].data matches Some(RDataView::Cname(_))) by {
            if k > 0 {
                assert(route[k] == rest[k - 1]);
            }
        }
        assert forall|k: int| 0 < k < route.len() implies fold(all[#[trigger] route[k]].name)
            == fold(all[route[k - 1]].data->0->Cname_0) by {
            assert(route[k] == rest[k - 1]);
            if k > 1 {
                assert(route[k - 1] == rest[k - 2]);
            }
        }
    }
}

/// A route through an alias is a route on from where it leads.
proof fn lemma_route_on(
    all: Seq<RecordView>,
    name: Seq<Seq<u8>>,
    route: Seq<int>,
    data: RDataView,
)
    requires
        route.len() > 1,
    ensures
        route_to(all, name, route, data) <==> leads(all, route[0], name) && route_to(
            all,
            target(all, route[0]),
            route.drop_first(),
            data,
        ),
{
    let front = route.drop_last();
    let rest = route.drop_first();
    lemma_aliases_lead(all, name, front);
    assert(front.drop_first() =~= rest.drop_last());
    assert(rest.last() == route.last());
    if route.len() > 2 {
        assert(rest[rest.len() - 2] == route[route.len() - 2]);
    }
}

/// What some of the records give for a name is what routes that start among them lead to.
proof fn lemma_gathered_routes(
    all: Seq<RecordView>,
    part: Seq<RecordView>,
    name: Seq<Seq<u8>>,
    depth: nat,
    data: RDataView,
)
    requires
        part.len() <= all.len(),
        part == all.take(part.len() as int),
        gathered(all, part, name, depth) is Some,
    ensures
        gathered(all, part, name, depth)->0.contains(data) <==> exists|route: Seq<int>|
            #[trigger] route_to(all, name, route, data) && route[0] < part.len(),
    decreases depth, part.len(),
{
    let given = gathered(all, part, name, depth)->0;
    if part.len() == 0 {
        assert forall|route: Seq<int>| #[trigger] route_to(all, name, route, data) implies route[0]
            >= 0 by {
            lemma_route_start(all, name, route, data);
        }
    } else {
        let front = part.drop_last();
        let n = part.len() - 1;
        assert(front =~= all.take(front.len() as int));
        assert(part.last() == all[n]);
        lemma_gathered_routes(all, front, name, depth, data);
        let rest = gathered(all, front, name, depth)->0;
        let here = fold(all[n].name) == fold(name);
        if here {
            match all[n].data {
                None => {},
                Some(RDataView::Cname(t)) => {
                    assert(all =~= all.take(all.len() as int));
                    assert(resolved(all, t, depth) is Some);
                    lemma_gathered_routes(all, all, t, (depth - 1) as nat, data);
                    let more = resolved(all, t, depth)->0;
                    assert(given == rest + more);
                    if more.contains(data) {
                        let route = choose|route: Seq<int>|
                            #[trigger] route_to(all, t, route, data) && route[0] < all.len();
                        let longer = seq![n] + route;
                        assert(longer.drop_first() =~= route);
                        lemma_route_on(all, name, longer, data);
                        let i = choose|i: int| 0 <= i < more.len() && more[i] == data;
                        assert(given[rest.len() + i] == data);
                    }
                },
                Some(other) => {
                    assert(given == rest.push(other));
                    if other == data {
                        let route = seq![n];
                        assert(route.drop_last() =~= Seq::<int>::empty());
                        assert(route_to(all, name, route, data));
                        assert(given[rest.len() as int] == data);
                    }
                },
            }
        }
        if rest.contains(data) {
            let i = choose|i: int| 0 <= i < rest.len() && rest[i] == data;
            assert(given[i] == data);
        }
        if given.contains(data) {
            let i = choose|i: int| 0 <= i < given.len() && given[i] == data;
            if i < rest.len() {
                assert(rest[i] == data);
            } else if let Some(RDataView::Cname(t)) = all[n].data {
                assert(resolved(all, t, depth)->0[i - rest.len()] == data);
            }
        }
        assert forall|route: Seq<int>| #[trigger]
            route_to(all, name, route, data) && route[0] < part.len() implies given.contains(
            data,
        ) by {
            lemma_route_start(all, name, route, data);
            if route[0] == n {
                if route.len() > 1 {
                    lemma_route_on(all, name, route, data);
                    lemma_route_start(all, target(all, n), route.drop_first(), data);
                } else {
                    assert(route.last() == n);
                }
            }
        }
    }
}

/// A route starts at a record under its name.
proof fn lemma_route_start(
    all: Seq<RecordView>,
    name: Seq<Seq<u8>>,
    route: Seq<int>,
    data: RDataView,
)
    requires
        route_to(all, name, route, data),
    ensures
        0 <= route[0] < all.len(),
        fold(all[route[0]].name) == fold(name),
{
    if route.len() > 1 {
        lemma_route_on(all, name, route, data);
    }
}

/// Where data is found under a name, it is all data that records lead to from the name, by aliases or
/// directly, and no other.
pub proof fn law_all_routes_are_followed(
    all: Seq<RecordView>,
    name: Seq<Seq<u8>>,
    data: RDataView,
)
    requires
        resolution(all, name) is Some,
    ensures
        resolution(all, name)->0.contains(data) <==> exists|route: Seq<int>| #[trigger]
            route_to(all, name, route, data),
{
    assert(all =~= all.take(all.len() as int));
    lemma_gathered_routes(all, all, name, all.len(), data);
    assert forall|route: Seq<int>| #[trigger] route_to(all, name, route, data) implies route[0]
        < all.len() by {
        lemma_route_start(all, name, route, data);
    }
}

/// Aliases that lead on are a path.
proof fn lemma_aliases_are_a_path(all: Seq<RecordView>, name: Seq<Seq<u8>>, route: Seq<int>)
    ensures
        aliases_lead(all, name, route) <==> is_path(all, name, route),
    decreases route.len(),
{
    if route.len() > 0 {
        lemma_aliases_lead(all, name, route);
        lemma_aliases_are_a_path(all, target(all, route[0]), route.drop_first());
    }
}

/// Nothing is found under a name exactly where aliases lead on from it that come to a record twice.
pub proof fn law_circles_have_no_data(all: Seq<RecordView>, name: Seq<Seq<u8>>)
    ensures
        resolution(all, name) is None <==> exists|route: Seq<int>, i: int, j: int|
            aliases_lead(all, name, route) && 0 <= i < j < route.len() && #[trigger] route[i]
                == #[trigger] route[j],
{
    let limit = all.len() + 1;
    if resolution(all, name) is None {
        let path = lemma_long_path(all, name, limit);
        lemma_path_in_range(all, name, path);
        lemma_pigeonhole(path, all.len());
        lemma_aliases_are_a_path(all, name, path);
    }
    if exists|route: Seq<int>, i: int, j: int|
        aliases_lead(all, name, route) && 0 <= i < j < route.len() && #[trigger] route[i]
            == #[trigger] route[j] {
        let (path, i, j) = choose|route: Seq<int>, i: int, j: int|
            aliases_lead(all, name, route) && 0 <= i < j < route.len() && #[trigger] route[i]
                == #[trigger] route[j];
        lemma_aliases_are_a_path(all, name, path);
        lemma_repeat_lost(all, name, path, i, j, limit);
    }
}

/// Nothing is found, at any depth, under a name from which a path comes to a record twice.
proof fn lemma_repeat_lost(
    all: Seq<RecordView>,
    name: Seq<Seq<u8>>,
    path: Seq<int>,
    i: int,
    j: int,
    depth: nat,
)
    requires
        is_path(all, name, path),
        0 <= i < j < path.len(),
        path[i] == path[j],
    ensures
        resolved(all, name, depth) is None,
{
    let start = path.take(i + 1);
    lemma_path_parts(all, name, path, i + 1);
    let t = path_end(all, name, start);
    assert(t == target(all, path[i]));
    let rest = path.skip(i + 1);
    let circle = rest.take(j - i);
    lemma_path_parts(all, t, rest, j - i);
    assert(rest[j - i - 1] == path[j]);
    assert(path_end(all, t, circle) == t);
    if depth > start.len() {
        lemma_circle_lost(all, t, circle, (depth - start.len()) as nat);
    }
    lemma_path_lost(all, name, start, depth);
}

/// A name that one of its aliases leads back to has no data at any depth.
pub proof fn law_own_alias_is_lost(all: Seq<RecordView>, name: Seq<Seq<u8>>, e: int, depth: nat)
    requires
        0 <= e < all.len(),
        fold(all[e].name) == fold(name),
        all[e].data == Some(RDataView::Cname(name)),
    ensures
        resolved(all, name, depth) is None,
{
    let path = seq![e];
    assert(path.drop_first() =~= Seq::<int>::empty());
    assert(path_end(all, name, path) == path_end(all, target(all, e), path.drop_first()));
    assert(is_path(all, name, path.drop_first()));
    assert(path[0] == e);
    lemma_circle_lost(all, name, path, depth);
}

/// Adds the data under a name. The result says whether aliases led no further than the depth.
fn gather(
    first: &Vec<Record>,
    second: &Vec<Record>,
    name: &Fqdn,
    depth: u128,
    out: &mut Vec<RData>,
) -> (r: bool)
    ensures
        match resolved(views(first@) + views(second@), name@, depth as nat) {
            Some(found) => r && data_views(final(out)@) == data_views(old(out)@) + found,
            None => !r,
        },
    decreases depth,
{
    if depth == 0 {
        return false;
    }
    let ghost all = views(first@) + views(second@);
    let ghost start = data_views(out@);
    let ghost below = (depth - 1) as nat;
    let mut i: usize = 0;
    let mut k: usize = 0;
    assert(all.take(0) =~= Seq::empty());
    assert(data_views(out@) =~= start + Seq::empty());
    while i < first.len() || k < second.len()
        invariant
            i <= first.len(),
            k <= second.len(),
            k > 0 ==> i == first.len(),
            all == views(first@) + views(second@),
            depth > 0,
            below == depth - 1,
            gathered(all, all.take(i + k), name@, below) is Some,
            data_views(out@) == start + gathered(all, all.take(i + k), name@, below)->0,
        decreases first.len() - i + second.len() - k,
    {
        let ghost part = all.take(i + k);
        let ghost next = all.take(i + k + 1);
        let ghost so_far = gathered(all, part, name@, below)->0;
        assert(next.drop_last() =~= part);
        assert(next.last() == all[i + k]);
        let record = if i < first.len() {
            &first[i]
        } else {
            &second[k]
        };
        assert(record@ == all[i + k]);
        if record.name.same(name) {
            match &record.data {
                None => {},
                Some(RData::Cname(target)) => {
                    if !gather(first, second, target, depth - 1, out) {
                        proof {
                            lemma_lost_after(all, next, name@, below);
                        }
                        return false;
                    }
                    assert(data_views(out@) =~= start + (so_far + resolved(
                        all,
                        target@,
                        below,
                    )->0));
                },
                Some(data) => {
                    let ghost before = data_views(out@);
                    let copy = data.clone();
                    out.push(copy);
                    assert(data_views(out@) =~= before.push(data@));
                    assert(data_views(out@) =~= start + so_far.push(data@));
                },
            }
        }
        if i < first.len() {
            i += 1;
        } else {
            k += 1;
        }
    }
    assert(all.take(i + k) =~= all);
    true
}

/// What some of the records do not give, all of them do not give.
proof fn lemma_lost_after(
    all: Seq<RecordView>,
    part: Seq<RecordView>,
    name: Seq<Seq<u8>>,
    depth: nat,
)
    requires
        gathered(all, part, name, depth) is None,
        part.len() <= all.len(),
        part == all.take(part.len() as int),
    ensures
        gathered(all, all, name, depth) is None,
{
    let e = lemma_lost_at(all, part, name, depth);
    assert(all =~= all.take(all.len() as int));
    lemma_lost_before(all, all, name, depth, e);
}

/// The data of a list.
pub open spec fn data_views(data: Seq<RData>) -> Seq<RDataView> {
    Seq::new(data.len(), |i: int| data[i]@)
}

/// The data that records give for a name, where aliases do not lead round in a circle.
pub fn resolve_chain(first: &Vec<Record>, second: &Vec<Record>, name: &Fqdn) -> (r: Option<
    Vec<RData>,
>)
    ensures
        match r {
            Some(data) => resolution(views(first@) + views(second@), name@) == Some(
                data_views(data@),
            ),
            None => resolution(views(first@) + views(second@), name@) is None,
        },
{
    let mut out: Vec<RData> = Vec::new();
    let depth: u128 = first.len() as u128 + second.len() as u128 + 1;
    if gather(first, second, name, depth, &mut out) {
        assert(data_views(out@) =~= resolution(views(first@) + views(second@), name@)->0);
        Some(out)
    } else {
        None
    }
}

} // verus!
