use vstd::prelude::*;

use crate::calendar::{
    base64_of, compact_timetable, compacted, first_use_order, period_from, same_but_period,
    uses_period,
};
use crate::error::CompileError;
use crate::parser::{NetexData, ScheduledStopPoint, ServiceJourney};
use crate::resolve::{
    all_periods, check_journeys, check_pattern_stops, day_type_period, find_line_and_authority,
    line_and_authority, point_node, reference_fails, references_resolve, window_count, Resolver,
};

verus! {

/// A physical stop, one per distinct short name over all datasets.
/// Coordinates are IEEE-754 `f32` bit patterns.
pub struct Node {
    pub short_name: String,
    pub long_bits: u32,
    pub lat_bits: u32,
}

/// One scheduled trip between two adjacent stops.
pub struct Journey {
    pub departure: u16,
    pub arrival: u16,
    pub transport_mode: String,
    /// Index into the owning edge's `periods`.
    pub operating_period: usize,
    pub line: String,
    pub controller: String,
}

/// An edge-local calendar; `valid_day_bits` is the base64 text of `valid_day`.
pub struct OperatingPeriod {
    pub from: u32,
    pub to: u32,
    pub valid_day_bits: String,
    pub valid_day: Vec<u8>,
}

pub struct Timetable {
    pub journeys: Vec<Journey>,
    pub periods: Vec<OperatingPeriod>,
}

pub struct Edge {
    pub start_node: usize,
    pub end_node: usize,
    pub timetable: Timetable,
}

pub struct Graph {
    pub nodes: Vec<Node>,
    pub edges: Vec<Edge>,
}

// ---- the datasets, concatenated in dataset order ----

pub open spec fn all_stops(data: Seq<NetexData>) -> Seq<ScheduledStopPoint>
    decreases data.len(),
{
    if data.len() == 0 {
        Seq::empty()
    } else {
        all_stops(data.drop_last()) + data.last().scheduled_stop_points@
    }
}

/// The ids of all stops, in the order of `all_stops`.
pub open spec fn stop_id_seq(data: Seq<NetexData>) -> Seq<u64> {
    Seq::new(all_stops(data).len(), |k: int| all_stops(data)[k].id)
}

pub open spec fn node_names(nodes: Seq<Node>) -> Seq<Seq<char>> {
    Seq::new(nodes.len(), |n: int| nodes[n].short_name@)
}

// ---- last match of a key ----

pub open spec fn is_last(keys: Seq<u64>, k: u64, i: int) -> bool {
    &&& 0 <= i < keys.len()
    &&& keys[i] == k
    &&& forall|j: int| i < j < keys.len() ==> keys[j] != k
}

/// Position of the last occurrence of `k` in `keys`.
pub fn find_last(keys: &Vec<u64>, k: u64) -> (r: Option<usize>)
    ensures
        r matches Some(i) ==> is_last(keys@, k, i as int),
        r is None ==> !keys@.contains(k),
{
    let mut i: usize = keys.len();
    while i > 0
        invariant
            0 <= i <= keys@.len(),
            forall|j: int| i <= j < keys@.len() ==> keys@[j] != k,
        decreases i,
    {
        if keys[i - 1] == k {
            return Some(i - 1);
        }
        i = i - 1;
    }
    None
}

// ---- node deduplication ----

/// No stop before position `k` has the short name of stop `k`.
pub open spec fn first_named(stops: Seq<ScheduledStopPoint>, k: int) -> bool {
    &&& 0 <= k < stops.len()
    &&& forall|j: int| 0 <= j < k ==> stops[j].short_name@ != stops[k].short_name@
}

/// The nodes of a stop sequence as (short name, longitude bits, latitude
/// bits), in first-seen order: a stop adds a node unless its short name is
/// already taken.
pub open spec fn canonical_nodes(stops: Seq<ScheduledStopPoint>) -> Seq<(Seq<char>, u32, u32)>
    decreases stops.len(),
{
    if stops.len() == 0 {
        Seq::empty()
    } else {
        let prev = canonical_nodes(stops.drop_last());
        let s = stops.last();
        if exists|n: int| 0 <= n < prev.len() && prev[n].0 == s.short_name@ {
            prev
        } else {
            prev.push((s.short_name@, s.long_bits, s.lat_bits))
        }
    }
}

pub open spec fn node_views(nodes: Seq<Node>) -> Seq<(Seq<char>, u32, u32)> {
    Seq::new(nodes.len(), |n: int| (nodes[n].short_name@, nodes[n].long_bits, nodes[n].lat_bits))
}

/// The names of the canonical nodes of all datasets, by node index.
pub open spec fn canonical_names(data: Seq<NetexData>) -> Seq<Seq<char>> {
    Seq::new(
        canonical_nodes(all_stops(data)).len(),
        |n: int| canonical_nodes(all_stops(data))[n].0,
    )
}

pub open spec fn node_of_stop(n: Node, s: ScheduledStopPoint) -> bool {
    &&& n.short_name@ == s.short_name@
    &&& n.long_bits == s.long_bits
    &&& n.lat_bits == s.lat_bits
}

pub open spec fn names_distinct(nodes: Seq<Node>) -> bool {
    forall|a: int, b: int|
        0 <= a < nodes.len() && 0 <= b < nodes.len() && a != b ==> nodes[a].short_name@
            != nodes[b].short_name@
}

/// The canonical nodes of `stops` and, for each stop, the index of its node:
/// one node per distinct short name, taken from the first stop that has it,
/// numbered in order of first appearance.
pub open spec fn dedup_nodes(
    stops: Seq<ScheduledStopPoint>,
    nodes: Seq<Node>,
    stop_nodes: Seq<usize>,
) -> bool {
    &&& names_distinct(nodes)
    &&& stop_nodes.len() == stops.len()
    &&& forall|k: int|
        0 <= k < stops.len() ==> {
            &&& #[trigger] stop_nodes[k] < nodes.len()
            &&& nodes[stop_nodes[k] as int].short_name@ == stops[k].short_name@
        }
    &&& forall|n: int| 0 <= n < nodes.len() ==> #[trigger] introduced_by(stops, nodes, stop_nodes, n)
    &&& forall|n1: int, n2: int, k: int|
        #![trigger stops[k], nodes[n1], nodes[n2]]
        0 <= n1 < n2 < nodes.len() && 0 <= k < stops.len() && stops[k].short_name@
            == nodes[n2].short_name@ ==> named_before(stops, nodes[n1].short_name@, k)
}

/// Some stop before position `k` has short name `name`.
pub open spec fn named_before(stops: Seq<ScheduledStopPoint>, name: Seq<char>, k: int) -> bool {
    exists|k2: int| 0 <= k2 < k && stops[k2].short_name@ == name
}

/// Node `n` was created by a stop that is the first of its short name, and
/// that stop resolves to `n`.
pub open spec fn introduced_by(
    stops: Seq<ScheduledStopPoint>,
    nodes: Seq<Node>,
    stop_nodes: Seq<usize>,
    n: int,
) -> bool {
    exists|k: int|
        first_named(stops, k) && stop_nodes[k] == n && node_of_stop(nodes[n], #[trigger] stops[k])
}

fn find_node(nodes: &Vec<Node>, name: &String) -> (r: Option<usize>)
    ensures
        r matches Some(n) ==> n < nodes@.len() && nodes@[n as int].short_name@ == name@,
        r is None ==> forall|n: int| 0 <= n < nodes@.len() ==> nodes@[n].short_name@ != name@,
{
    let mut i: usize = 0;
    while i < nodes.len()
        invariant
            0 <= i <= nodes@.len(),
            forall|n: int| 0 <= n < i ==> nodes@[n].short_name@ != name@,
        decreases nodes@.len() - i,
    {
        if nodes[i].short_name == *name {
            return Some(i);
        }
        i = i + 1;
    }
    None
}

/// Assigns every stop of every dataset its canonical node: the first stop
/// (in dataset order, then record order) with a given short name creates the
/// node and gives it its coordinates; later stops of that name alias it.
/// Also returns the stop ids, in the same order as the stops.
pub fn resolve_nodes(data: &[NetexData]) -> (r: (Vec<Node>, Vec<u64>, Vec<usize>))
    ensures
        dedup_nodes(all_stops(data@), r.0@, r.2@),
        node_views(r.0@) == canonical_nodes(all_stops(data@)),
        r.1@ == stop_id_seq(data@),
{
    let mut nodes: Vec<Node> = Vec::new();
    let mut stop_ids: Vec<u64> = Vec::new();
    let mut stop_nodes: Vec<usize> = Vec::new();
    let ghost mut seen: Seq<ScheduledStopPoint> = Seq::empty();
    let ghost mut origin: Seq<int> = Seq::empty();
    let mut d: usize = 0;
    while d < data.len()
        invariant
            0 <= d <= data@.len(),
            seen == all_stops(data@.subrange(0, d as int)),
            node_views(nodes@) == canonical_nodes(seen),
            names_distinct(nodes@),
            stop_nodes@.len() == seen.len(),
            stop_ids@.len() == seen.len(),
            forall|k: int| 0 <= k < seen.len() ==> #[trigger] stop_ids@[k] == seen[k].id,
            forall|k: int|
                0 <= k < seen.len() ==> {
                    &&& #[trigger] stop_nodes@[k] < nodes@.len()
                    &&& nodes@[stop_nodes@[k] as int].short_name@ == seen[k].short_name@
                },
            origin.len() == nodes@.len(),
            forall|n1: int, n2: int|
                0 <= n1 < n2 < nodes@.len() ==> #[trigger] origin[n1] < #[trigger] origin[n2],
            forall|n: int|
                0 <= n < nodes@.len() ==> {
                    &&& first_named(seen, #[trigger] origin[n])
                    &&& stop_nodes@[origin[n]] == n
                    &&& node_of_stop(nodes@[n], seen[origin[n]])
                },
        decreases data@.len() - d,
    {
        let stops = &data[d].scheduled_stop_points;
        let mut i: usize = 0;
        while i < stops.len()
            invariant
                0 <= d < data@.len(),
                *stops == data@[d as int].scheduled_stop_points,
                0 <= i <= stops@.len(),
                seen == all_stops(data@.subrange(0, d as int)) + stops@.subrange(0, i as int),
                node_views(nodes@) == canonical_nodes(seen),
                names_distinct(nodes@),
                stop_nodes@.len() == seen.len(),
                stop_ids@.len() == seen.len(),
                forall|k: int| 0 <= k < seen.len() ==> #[trigger] stop_ids@[k] == seen[k].id,
                forall|k: int|
                    0 <= k < seen.len() ==> {
                        &&& #[trigger] stop_nodes@[k] < nodes@.len()
                        &&& nodes@[stop_nodes@[k] as int].short_name@ == seen[k].short_name@
                    },
                origin.len() == nodes@.len(),
                forall|n1: int, n2: int|
                    0 <= n1 < n2 < nodes@.len() ==> #[trigger] origin[n1] < #[trigger] origin[n2],
                forall|n: int|
                    0 <= n < nodes@.len() ==> {
                        &&& first_named(seen, #[trigger] origin[n])
                        &&& stop_nodes@[origin[n]] == n
                        &&& node_of_stop(nodes@[n], seen[origin[n]])
                    },
            decreases stops@.len() - i,
        {
            let stop = &stops[i];
            let ghost old_seen = seen;
            let ghost old_nodes = nodes@;
            proof {
                assert(old_seen.push(*stop).drop_last() =~= old_seen);
            }
            match find_node(&nodes, &stop.short_name) {
                Some(n) => {
                    stop_nodes.push(n);
                    assert(node_views(old_nodes)[n as int].0 == stop.short_name@);
                },
                None => {
                    let node = Node {
                        short_name: stop.short_name.clone(),
                        long_bits: stop.long_bits,
                        lat_bits: stop.lat_bits,
                    };
                    nodes.push(node);
                    stop_nodes.push(nodes.len() - 1);
                    proof {
                        let prev = canonical_nodes(old_seen);
                        assert(!exists|m: int| 0 <= m < prev.len() && prev[m].0 == stop.short_name@) by {
                            assert forall|m: int| 0 <= m < prev.len() implies prev[m].0 != stop.short_name@ by {
                                assert(prev[m] == node_views(old_nodes)[m]);
                            }
                        }
                        assert(node_views(nodes@) =~= node_views(old_nodes).push(
                            (stop.short_name@, stop.long_bits, stop.lat_bits),
                        ));
                        origin = origin.push(old_seen.len() as int);
                        assert forall|j: int| 0 <= j < old_seen.len() implies old_seen[j].short_name@
                            != stop.short_name@ by {
                            assert(old_nodes[stop_nodes@[j] as int].short_name@ == old_seen[j].short_name@);
                        }
                    }
                },
            }
            stop_ids.push(stop.id);
            proof {
                seen = seen.push(*stop);
                assert(seen =~= all_stops(data@.subrange(0, d as int)) + stops@.subrange(
                    0,
                    i + 1,
                ));
                assert forall|n: int| 0 <= n < nodes@.len() implies {
                    &&& first_named(seen, #[trigger] origin[n])
                    &&& stop_nodes@[origin[n]] == n
                    &&& node_of_stop(nodes@[n], seen[origin[n]])
                } by {
                    if n < old_nodes.len() {
                        assert(first_named(old_seen, origin[n]));
                    }
                }
                assert forall|k: int| 0 <= k < seen.len() implies {
                    &&& #[trigger] stop_nodes@[k] < nodes@.len()
                    &&& nodes@[stop_nodes@[k] as int].short_name@ == seen[k].short_name@
                } by {
                    if k < old_seen.len() {
                        assert(old_nodes[stop_nodes@[k] as int].short_name@ == old_seen[k].short_name@);
                    }
                }
            }
            i = i + 1;
        }
        proof {
            assert(data@.subrange(0, d + 1).drop_last() =~= data@.subrange(0, d as int));
            assert(stops@.subrange(0, i as int) =~= stops@);
        }
        d = d + 1;
    }
    proof {
        assert(data@.subrange(0, d as int) =~= data@);
        assert(seen == all_stops(data@));
        assert forall|n: int| 0 <= n < nodes@.len() implies #[trigger] introduced_by(
            seen,
            nodes@,
            stop_nodes@,
            n,
        ) by {
            let k = origin[n];
            assert(first_named(seen, k) && stop_nodes@[k] == n && node_of_stop(nodes@[n], seen[k]));
        }
        assert forall|n1: int, n2: int, k: int|
            #![trigger seen[k], nodes@[n1], nodes@[n2]]
            0 <= n1 < n2 < nodes@.len() && 0 <= k < seen.len() && seen[k].short_name@
                == nodes@[n2].short_name@ implies named_before(seen, nodes@[n1].short_name@, k) by {
            assert(first_named(seen, origin[n1]));
            assert(first_named(seen, origin[n2]));
            assert(origin[n1] < origin[n2]);
            if k < origin[n2] {
                assert(seen[k].short_name@ != seen[origin[n2]].short_name@);
            }
            assert(seen[origin[n1]].short_name@ == nodes@[n1].short_name@);
        }
    }
    assert(stop_ids@ =~= stop_id_seq(data@));
    (nodes, stop_ids, stop_nodes)
}

// ---- edge building ----

/// Window `w` of journey `j` (passing times `w` and `w + 1`): its start node,
/// end node and global operating-period index, or the first reference that
/// does not resolve (start stop, end stop, calendar, line).
pub open spec fn window_result(
    names: Seq<Seq<char>>,
    data: Seq<NetexData>,
    j: ServiceJourney,
    w: int,
) -> Result<(usize, usize, usize), CompileError> {
    let pre = j.passing_times@[w].stop_point_in_journey_pattern;
    let cur = j.passing_times@[w + 1].stop_point_in_journey_pattern;
    match point_node(names, data, pre) {
        None => Err(CompileError::UnresolvedStopReference(pre)),
        Some(a) => match point_node(names, data, cur) {
            None => Err(CompileError::UnresolvedStopReference(cur)),
            Some(b) => match day_type_period(data, j.day_type) {
                Err(e) => Err(e),
                Ok(g) => match line_and_authority(data, j.pattern_ref) {
                    Err(e) => Err(e),
                    Ok(_) => Ok((a, b, g)),
                },
            },
        },
    }
}

/// The journey record of window `w` carries the departure at its first
/// stop, the arrival at its second, the journey's mode, and the names of its
/// line and of that line's authority.
pub open spec fn record_fields(jr: Journey, data: Seq<NetexData>, j: ServiceJourney, w: int) -> bool {
    &&& jr.departure == j.passing_times@[w].departure
    &&& jr.arrival == j.passing_times@[w + 1].arrival
    &&& jr.transport_mode@ == j.transport_mode@
    &&& line_and_authority(data, j.pattern_ref) matches Ok((l, a)) && jr.line@ == l.short_name@
        && jr.controller@ == a.short_name@
}

pub fn window_journey(r: &Resolver, data: &[NetexData], j: &ServiceJourney, w: usize) -> (res:
    Result<(usize, usize, Journey), CompileError>)
    requires
        r.wf(data@),
        w + 1 < j.passing_times.len(),
    ensures
        res matches Ok((a, b, jr)) ==> window_result(node_names(r.nodes@), data@, *j, w as int) == Ok::<
            (usize, usize, usize),
            CompileError,
        >((a, b, jr.operating_period)) && record_fields(jr, data@, *j, w as int)
            && a < r.nodes@.len() && b < r.nodes@.len() && jr.operating_period < all_periods(
            data@,
        ).len(),
        res matches Err(e) ==> window_result(node_names(r.nodes@), data@, *j, w as int) == Err::<
            (usize, usize, usize),
            CompileError,
        >(e),
{
    let pre = &j.passing_times[w];
    let cur = &j.passing_times[w + 1];
    let a = match r.node_of_point(data, pre.stop_point_in_journey_pattern) {
        Ok(a) => a,
        Err(e) => {
            return Err(e);
        },
    };
    let b = match r.node_of_point(data, cur.stop_point_in_journey_pattern) {
        Ok(b) => b,
        Err(e) => {
            return Err(e);
        },
    };
    let g = match r.period_of_day_type(data, j.day_type) {
        Ok(g) => g,
        Err(e) => {
            return Err(e);
        },
    };
    let (line, authority) = match find_line_and_authority(data, j.pattern_ref) {
        Ok(la) => la,
        Err(e) => {
            return Err(e);
        },
    };
    let jr = Journey {
        departure: pre.departure,
        arrival: cur.arrival,
        transport_mode: j.transport_mode.clone(),
        operating_period: g,
        line: line.short_name.clone(),
        controller: authority.short_name.clone(),
    };
    Ok((a, b, jr))
}

pub open spec fn edge_key(e: Edge) -> (usize, usize) {
    (e.start_node, e.end_node)
}

pub open spec fn edge_keys(edges: Seq<Edge>) -> Seq<(usize, usize)> {
    Seq::new(edges.len(), |a: int| edge_key(edges[a]))
}

/// The number of journey records over all edges.
pub open spec fn total_journeys(edges: Seq<Edge>) -> nat
    decreases edges.len(),
{
    if edges.len() == 0 {
        0
    } else {
        total_journeys(edges.drop_last()) + edges.last().timetable.journeys@.len()
    }
}

proof fn lemma_total_update(s: Seq<Edge>, a: int, e: Edge)
    requires
        0 <= a < s.len(),
    ensures
        total_journeys(s.update(a, e)) + s[a].timetable.journeys@.len() == total_journeys(s)
            + e.timetable.journeys@.len(),
    decreases s.len(),
{
    if a == s.len() - 1 {
        assert(s.update(a, e).drop_last() =~= s.drop_last());
    } else {
        lemma_total_update(s.drop_last(), a, e);
        assert(s.update(a, e).drop_last() =~= s.drop_last().update(a, e));
    }
}

/// Every edge joins two nodes below `n_nodes`, has no period table yet, and
/// each of its journeys names a global period below `n_periods`.
pub open spec fn edges_bounded(edges: Seq<Edge>, n_nodes: nat, n_periods: nat) -> bool {
    forall|a: int|
        0 <= a < edges.len() ==> {
            &&& #[trigger] edges[a].start_node < n_nodes
            &&& edges[a].end_node < n_nodes
            &&& edges[a].timetable.periods@.len() == 0
            &&& forall|i: int|
                0 <= i < edges[a].timetable.journeys@.len()
                    ==> #[trigger] edges[a].timetable.journeys@[i].operating_period < n_periods
        }
}

/// Appends `jr` to the edge `(start, end)`, creating that edge if it is new.
fn add_journey(edges: &mut Vec<Edge>, start: usize, end: usize, jr: Journey)
    requires
        edge_keys(old(edges)@).no_duplicates(),
    ensures
        edge_keys(old(edges)@).contains((start, end)) ==> edge_keys(final(edges)@) == edge_keys(
            old(edges)@,
        ),
        !edge_keys(old(edges)@).contains((start, end)) ==> edge_keys(final(edges)@) == edge_keys(
            old(edges)@,
        ).push((start, end)),
        total_journeys(final(edges)@) == total_journeys(old(edges)@) + 1,
        final(edges)@.len() >= old(edges)@.len(),
        final(edges)@.len() <= old(edges)@.len() + 1,
        final(edges)@.len() > old(edges)@.len() ==> !edge_keys(old(edges)@).contains((start, end)),
        forall|a: int|
            0 <= a < old(edges)@.len() ==> (#[trigger] final(edges)@[a]).timetable.journeys@.len()
                == old(edges)@[a].timetable.journeys@.len() + (if edge_key(old(edges)@[a]) == (
                start,
                end,
            ) {
                1int
            } else {
                0int
            }),
        final(edges)@.len() > old(edges)@.len() ==> final(edges)@[old(
            edges,
        )@.len() as int].timetable.journeys@.len() == 1,
        forall|a: int|
            0 <= a < old(edges)@.len() ==> (#[trigger] final(edges)@[a]).timetable.journeys@ == (
            if edge_key(old(edges)@[a]) == (start, end) {
                old(edges)@[a].timetable.journeys@.push(jr)
            } else {
                old(edges)@[a].timetable.journeys@
            }) && edge_key(final(edges)@[a]) == edge_key(old(edges)@[a]),
        final(edges)@.len() > old(edges)@.len() ==> final(edges)@[old(
            edges,
        )@.len() as int].timetable.journeys@ == seq![jr] && edge_key(
            final(edges)@[old(edges)@.len() as int],
        ) == (start, end),
        forall|n_nodes: nat, n_periods: nat|
            edges_bounded(old(edges)@, n_nodes, n_periods) && start < n_nodes && end < n_nodes
                && jr.operating_period < n_periods ==> #[trigger] edges_bounded(
                final(edges)@,
                n_nodes,
                n_periods,
            ),
{
    let mut a: usize = 0;
    while a < edges.len()
        invariant
            0 <= a <= edges@.len(),
            edges@ == old(edges)@,
            edge_keys(old(edges)@).no_duplicates(),
            forall|b: int| 0 <= b < a ==> edge_key(#[trigger] edges@[b]) != (start, end),
        decreases edges@.len() - a,
    {
        if edges[a].start_node == start && edges[a].end_node == end {
            let ghost before = edges@;
            edges[a].timetable.journeys.push(jr);
            proof {
                lemma_total_update(before, a as int, edges@[a as int]);
                assert(edges@ == before.update(a as int, edges@[a as int]));
                assert(edge_keys(edges@) =~= edge_keys(before));
                assert(edge_keys(before)[a as int] == (start, end));
                assert forall|b: int| 0 <= b < before.len() && b != a implies edge_key(before[b]) != (start, end) by {
                    assert(edge_keys(before)[b] != edge_keys(before)[a as int]);
                }
            }
            return;
        }
        a = a + 1;
    }
    proof {
        assert forall|b: int| 0 <= b < edges@.len() implies edge_keys(edges@)[b] != (start, end) by {
            assert(edge_key(edges@[b]) != (start, end));
        }
    }
    let mut journeys: Vec<Journey> = Vec::new();
    journeys.push(jr);
    let ghost before = edges@;
    edges.push(Edge { start_node: start, end_node: end, timetable: Timetable { journeys, periods: Vec::new() } });
    proof {
        assert(edges@.drop_last() =~= before);
        assert(edge_keys(edges@) =~= edge_keys(before).push((start, end)));
    }
}

/// The `(start, end)` keys of a journey's windows, in order.
pub open spec fn journey_keys(names: Seq<Seq<char>>, data: Seq<NetexData>, j: ServiceJourney) -> Seq<
    (usize, usize),
> {
    Seq::new(
        window_count(j),
        |w: int|
            match window_result(names, data, j, w) {
                Ok((a, b, _)) => (a, b),
                Err(_) => (0, 0),
            },
    )
}

pub open spec fn journeys_keys(
    names: Seq<Seq<char>>,
    data: Seq<NetexData>,
    js: Seq<ServiceJourney>,
) -> Seq<(usize, usize)>
    decreases js.len(),
{
    if js.len() == 0 {
        Seq::empty()
    } else {
        journeys_keys(names, data, js.drop_last()) + journey_keys(names, data, js.last())
    }
}

/// The window keys of every journey of the datasets `ds`, in order.
pub open spec fn datasets_keys(names: Seq<Seq<char>>, data: Seq<NetexData>, ds: Seq<NetexData>) -> Seq<
    (usize, usize),
>
    decreases ds.len(),
{
    if ds.len() == 0 {
        Seq::empty()
    } else {
        datasets_keys(names, data, ds.drop_last()) + journeys_keys(names, data, ds.last().service_journeys@)
    }
}

/// The number of adjacent-stop windows over all journeys of `js`.
pub open spec fn journeys_window_total(js: Seq<ServiceJourney>) -> nat
    decreases js.len(),
{
    if js.len() == 0 {
        0
    } else {
        journeys_window_total(js.drop_last()) + window_count(js.last())
    }
}

/// The number of adjacent-stop windows over all journeys of all datasets.
pub open spec fn window_total(ds: Seq<NetexData>) -> nat
    decreases ds.len(),
{
    if ds.len() == 0 {
        0
    } else {
        window_total(ds.drop_last()) + journeys_window_total(ds.last().service_journeys@)
    }
}

proof fn lemma_journeys_keys_len(names: Seq<Seq<char>>, data: Seq<NetexData>, js: Seq<ServiceJourney>)
    ensures
        journeys_keys(names, data, js).len() == journeys_window_total(js),
    decreases js.len(),
{
    if js.len() > 0 {
        lemma_journeys_keys_len(names, data, js.drop_last());
    }
}

proof fn lemma_datasets_keys_len(names: Seq<Seq<char>>, data: Seq<NetexData>, ds: Seq<NetexData>)
    ensures
        datasets_keys(names, data, ds).len() == window_total(ds),
    decreases ds.len(),
{
    if ds.len() > 0 {
        lemma_datasets_keys_len(names, data, ds.drop_last());
        lemma_journeys_keys_len(names, data, ds.last().service_journeys@);
    }
}

pub open spec fn journey_ok(names: Seq<Seq<char>>, data: Seq<NetexData>, j: ServiceJourney) -> bool {
    forall|w: int| 0 <= w < window_count(j) ==> (#[trigger] window_result(names, data, j, w)) is Ok
}

/// Every window of every journey resolves.
pub open spec fn all_windows_ok(names: Seq<Seq<char>>, data: Seq<NetexData>) -> bool {
    forall|d: int, i: int|
        0 <= d < data.len() && 0 <= i < data[d].service_journeys@.len() ==> journey_ok(
            names,
            data,
            #[trigger] data[d].service_journeys@[i],
        )
}

/// `e` is the failure of some window of some journey.
pub open spec fn window_fails(names: Seq<Seq<char>>, data: Seq<NetexData>, e: CompileError) -> bool {
    exists|d: int, i: int, w: int|
        0 <= d < data.len() && 0 <= i < data[d].service_journeys@.len() && 0 <= w < window_count(
            data[d].service_journeys@[i],
        ) && #[trigger] window_result(names, data, data[d].service_journeys@[i], w) == Err::<
            (usize, usize, usize),
            CompileError,
        >(e)
}

/// The identity `(dataset, journey, window)` of every window of the journeys
/// `js` of dataset `d`, in order.
pub open spec fn journeys_windows(d: int, js: Seq<ServiceJourney>) -> Seq<(int, int, int)>
    decreases js.len(),
{
    if js.len() == 0 {
        Seq::empty()
    } else {
        journeys_windows(d, js.drop_last()) + Seq::new(
            window_count(js.last()),
            |w: int| (d, js.len() - 1, w),
        )
    }
}

/// The identity of every window of every journey of the datasets `ds`, in
/// the order of `datasets_keys`.
pub open spec fn datasets_windows(ds: Seq<NetexData>) -> Seq<(int, int, int)>
    decreases ds.len(),
{
    if ds.len() == 0 {
        Seq::empty()
    } else {
        datasets_windows(ds.drop_last()) + journeys_windows(
            ds.len() - 1,
            ds.last().service_journeys@,
        )
    }
}

/// The windows (of `ws`, in order) whose key (in `keys`) is `x`.
pub open spec fn select(keys: Seq<(usize, usize)>, ws: Seq<(int, int, int)>, x: (usize, usize)) -> Seq<
    (int, int, int),
>
    decreases keys.len(),
{
    if keys.len() == 0 || ws.len() == 0 {
        Seq::empty()
    } else if keys.last() == x {
        select(keys.drop_last(), ws.drop_last(), x).push(ws.last())
    } else {
        select(keys.drop_last(), ws.drop_last(), x)
    }
}

proof fn lemma_select_absent(keys: Seq<(usize, usize)>, ws: Seq<(int, int, int)>, x: (usize, usize))
    requires
        !keys.contains(x),
    ensures
        select(keys, ws, x).len() == 0,
    decreases keys.len(),
{
    if keys.len() > 0 && ws.len() > 0 {
        assert(keys[keys.len() - 1] == keys.last());
        assert forall|i: int| 0 <= i < keys.drop_last().len() implies keys.drop_last()[i] != x by {
            assert(keys[i] == keys.drop_last()[i]);
        }
        lemma_select_absent(keys.drop_last(), ws.drop_last(), x);
    }
}

/// `jr` is the record, on the edge from `s` to `e`, of window `win`, and
/// names that window's global period.
pub open spec fn record_of_window(
    names: Seq<Seq<char>>,
    data: Seq<NetexData>,
    s: usize,
    e: usize,
    jr: Journey,
    win: (int, int, int),
) -> bool {
    let (d, i, w) = win;
    &&& 0 <= d < data.len()
    &&& 0 <= i < data[d].service_journeys@.len()
    &&& 0 <= w < window_count(data[d].service_journeys@[i])
    &&& window_result(names, data, data[d].service_journeys@[i], w) == Ok::<
        (usize, usize, usize),
        CompileError,
    >((s, e, jr.operating_period))
    &&& record_fields(jr, data, data[d].service_journeys@[i], w)
}

/// The journeys of `e` are the records of the windows `ws`, one to one and
/// in order.
pub open spec fn edge_records(
    names: Seq<Seq<char>>,
    data: Seq<NetexData>,
    e: Edge,
    ws: Seq<(int, int, int)>,
) -> bool {
    &&& e.timetable.journeys@.len() == ws.len()
    &&& forall|k: int|
        0 <= k < ws.len() ==> record_of_window(
            names,
            data,
            e.start_node,
            e.end_node,
            #[trigger] e.timetable.journeys@[k],
            ws[k],
        )
}

/// Every edge holds exactly the records of the windows with its key.
pub open spec fn edges_records(
    names: Seq<Seq<char>>,
    data: Seq<NetexData>,
    edges: Seq<Edge>,
    keys: Seq<(usize, usize)>,
    ws: Seq<(int, int, int)>,
) -> bool {
    forall|a: int|
        0 <= a < edges.len() ==> edge_records(
            names,
            data,
            #[trigger] edges[a],
            select(keys, ws, edge_key(edges[a])),
        )
}

proof fn lemma_records_push(
    names: Seq<Seq<char>>,
    data: Seq<NetexData>,
    before: Seq<Edge>,
    after: Seq<Edge>,
    keys: Seq<(usize, usize)>,
    ws: Seq<(int, int, int)>,
    k: (usize, usize),
    jr: Journey,
    win: (int, int, int),
)
    requires
        keys.len() == ws.len(),
        edges_match(before, keys),
        edges_records(names, data, before, keys, ws),
        record_of_window(names, data, k.0, k.1, jr, win),
        after.len() >= before.len(),
        after.len() <= before.len() + 1,
        forall|a: int|
            0 <= a < before.len() ==> (#[trigger] after[a]).timetable.journeys@ == (if edge_key(
                before[a],
            ) == k {
                before[a].timetable.journeys@.push(jr)
            } else {
                before[a].timetable.journeys@
            }) && edge_key(after[a]) == edge_key(before[a]),
        after.len() > before.len() ==> after[before.len() as int].timetable.journeys@ == seq![jr]
            && edge_key(after[before.len() as int]) == k && !keys.contains(k),
    ensures
        edges_records(names, data, after, keys.push(k), ws.push(win)),
{
    assert(keys.push(k).drop_last() =~= keys);
    assert(ws.push(win).drop_last() =~= ws);
    assert forall|a: int| 0 <= a < after.len() implies edge_records(
        names,
        data,
        #[trigger] after[a],
        select(keys.push(k), ws.push(win), edge_key(after[a])),
    ) by {
        let x = edge_key(after[a]);
        let sel = select(keys.push(k), ws.push(win), x);
        let js = after[a].timetable.journeys@;
        if a < before.len() {
            assert(edge_records(names, data, before[a], select(keys, ws, x)));
            assert forall|t: int| 0 <= t < sel.len() implies record_of_window(
                names,
                data,
                after[a].start_node,
                after[a].end_node,
                #[trigger] js[t],
                sel[t],
            ) by {
                if t < select(keys, ws, x).len() {
                    assert(js[t] == before[a].timetable.journeys@[t]);
                }
            }
        } else {
            lemma_select_absent(keys, ws, k);
            assert(sel =~= seq![win]);
            assert(js[0] == jr);
        }
    }
}

/// One edge per distinct key of `keys`, no other edge, and one journey
/// record per key occurrence.
pub open spec fn edges_match(edges: Seq<Edge>, keys: Seq<(usize, usize)>) -> bool {
    &&& edge_keys(edges).no_duplicates()
    &&& forall|x: (usize, usize)| keys.contains(x) <==> edge_keys(edges).contains(x)
    &&& total_journeys(edges) == keys.len()
    &&& forall|a: int|
        0 <= a < edges.len() ==> (#[trigger] edges[a]).timetable.journeys@.len() == key_count(
            keys,
            edge_key(edges[a]),
        )
}

/// How often `x` occurs in `keys`.
pub open spec fn key_count(keys: Seq<(usize, usize)>, x: (usize, usize)) -> nat
    decreases keys.len(),
{
    if keys.len() == 0 {
        0
    } else {
        key_count(keys.drop_last(), x) + (if keys.last() == x { 1nat } else { 0nat })
    }
}

proof fn lemma_count_absent(keys: Seq<(usize, usize)>, x: (usize, usize))
    requires
        !keys.contains(x),
    ensures
        key_count(keys, x) == 0,
    decreases keys.len(),
{
    if keys.len() > 0 {
        assert(keys[keys.len() - 1] == keys.last());
        assert forall|i: int| 0 <= i < keys.drop_last().len() implies keys.drop_last()[i] != x by {
            assert(keys[i] == keys.drop_last()[i]);
        }
        lemma_count_absent(keys.drop_last(), x);
    }
}

proof fn lemma_match_push(
    before: Seq<Edge>,
    after: Seq<Edge>,
    keys: Seq<(usize, usize)>,
    k: (usize, usize),
)
    requires
        edges_match(before, keys),
        edge_keys(before).contains(k) ==> edge_keys(after) == edge_keys(before),
        !edge_keys(before).contains(k) ==> edge_keys(after) == edge_keys(before).push(k),
        total_journeys(after) == total_journeys(before) + 1,
        after.len() >= before.len(),
        forall|a: int|
            0 <= a < before.len() ==> (#[trigger] after[a]).timetable.journeys@.len()
                == before[a].timetable.journeys@.len() + (if edge_key(before[a]) == k {
                1int
            } else {
                0int
            }),
        after.len() > before.len() ==> after[before.len() as int].timetable.journeys@.len() == 1,
    ensures
        edges_match(after, keys.push(k)),
{
    assert(keys.push(k).drop_last() =~= keys);
    assert forall|a: int| 0 <= a < after.len() implies (#[trigger] after[a]).timetable.journeys@.len()
        == key_count(keys.push(k), edge_key(after[a])) by {
        assert(edge_keys(after).len() == after.len());
        assert(edge_keys(after)[a] == edge_key(after[a]));
        if a < before.len() {
            assert(edge_keys(before)[a] == edge_key(before[a]));
            if edge_keys(before).contains(k) {
                assert(edge_keys(after)[a] == edge_keys(before)[a]);
            } else {
                assert(edge_keys(after)[a] == edge_keys(before).push(k)[a]);
            }
            assert(edge_key(after[a]) == edge_key(before[a]));
            assert(before[a].timetable.journeys@.len() == key_count(keys, edge_key(before[a])));
        } else {
            assert(!edge_keys(before).contains(k));
            assert(a == before.len());
            assert(edge_keys(after)[a] == edge_keys(before).push(k)[a]);
            assert(edge_key(after[a]) == k);
            if keys.contains(k) {
                assert(edge_keys(before).contains(k));
            }
            lemma_count_absent(keys, k);
        }
    }
    assert forall|x: (usize, usize)| keys.push(k).contains(x) <==> edge_keys(after).contains(x) by {
        if keys.push(k).contains(x) && x != k {
            let i = choose|i: int| 0 <= i < keys.push(k).len() && keys.push(k)[i] == x;
            assert(keys[i] == x);
        }
        if keys.contains(x) {
            let i = choose|i: int| 0 <= i < keys.len() && keys[i] == x;
            assert(keys.push(k)[i] == x);
        }
        assert(keys.push(k)[keys.len() as int] == k);
        if !edge_keys(before).contains(k) {
            if edge_keys(after).contains(x) && x != k {
                let i = choose|i: int| 0 <= i < edge_keys(after).len() && edge_keys(after)[i] == x;
                assert(edge_keys(before)[i] == x);
            }
            if edge_keys(before).contains(x) {
                let i = choose|i: int| 0 <= i < edge_keys(before).len() && edge_keys(before)[i] == x;
                assert(edge_keys(after)[i] == x);
            }
            assert(edge_keys(after)[edge_keys(before).len() as int] == k);
        }
    }
    if !edge_keys(before).contains(k) {
        let eb = edge_keys(before);
        assert forall|i: int, j: int|
            0 <= i < eb.push(k).len() && 0 <= j < eb.push(k).len() && i != j implies eb.push(k)[i]
            != eb.push(k)[j] by {
            if i < eb.len() && j < eb.len() {
            } else if i < eb.len() {
                assert(eb.contains(eb[i]));
            } else {
                assert(eb.contains(eb[j]));
            }
        }
    }
}

/// Builds one edge per ordered pair of adjacent stops over every journey of
/// every dataset, each edge holding one journey record per window on it;
/// operating periods are still global indices.
pub fn build_edges(r: &Resolver, data: &[NetexData]) -> (res: Result<Vec<Edge>, CompileError>)
    requires
        r.wf(data@),
    ensures
        res is Ok <==> all_windows_ok(node_names(r.nodes@), data@),
        res matches Ok(edges) ==> {
            &&& edges_match(edges@, datasets_keys(node_names(r.nodes@), data@, data@))
            &&& total_journeys(edges@) == window_total(data@)
            &&& edges_bounded(edges@, r.nodes@.len(), all_periods(data@).len())
            &&& edges_records(
                node_names(r.nodes@),
                data@,
                edges@,
                datasets_keys(node_names(r.nodes@), data@, data@),
                datasets_windows(data@),
            )
        },
        res matches Err(e) ==> window_fails(node_names(r.nodes@), data@, e),
{
    let ghost nn = r.nodes@.len();
    let ghost np = all_periods(data@).len();
    let mut edges: Vec<Edge> = Vec::new();
    let ghost mut keys: Seq<(usize, usize)> = Seq::empty();
    let ghost mut wins: Seq<(int, int, int)> = Seq::empty();
    assert(edge_keys(edges@) =~= Seq::<(usize, usize)>::empty());
    let mut d: usize = 0;
    while d < data.len()
        invariant
            r.wf(data@),
            nn == r.nodes@.len(),
            np == all_periods(data@).len(),
            0 <= d <= data@.len(),
            keys == datasets_keys(node_names(r.nodes@), data@, data@.subrange(0, d as int)),
            wins == datasets_windows(data@.subrange(0, d as int)),
            keys.len() == wins.len(),
            edges_records(node_names(r.nodes@), data@, edges@, keys, wins),
            edges_match(edges@, keys),
            edges_bounded(edges@, nn, np),
            forall|d2: int, i: int|
                0 <= d2 < d && 0 <= i < data@[d2].service_journeys@.len() ==> journey_ok(
                    node_names(r.nodes@),
                    data@,
                    #[trigger] data@[d2].service_journeys@[i],
                ),
        decreases data@.len() - d,
    {
        let js = &data[d].service_journeys;
        let ghost base = keys;
        let ghost wbase = wins;
        let mut i: usize = 0;
        while i < js.len()
            invariant
                r.wf(data@),
                nn == r.nodes@.len(),
                np == all_periods(data@).len(),
                0 <= d < data@.len(),
                *js == data@[d as int].service_journeys,
                0 <= i <= js@.len(),
                base == datasets_keys(node_names(r.nodes@), data@, data@.subrange(0, d as int)),
                keys == base + journeys_keys(node_names(r.nodes@), data@, js@.subrange(0, i as int)),
                wbase == datasets_windows(data@.subrange(0, d as int)),
                wins == wbase + journeys_windows(d as int, js@.subrange(0, i as int)),
                keys.len() == wins.len(),
                edges_records(node_names(r.nodes@), data@, edges@, keys, wins),
                edges_match(edges@, keys),
                edges_bounded(edges@, nn, np),
                    forall|d2: int, i2: int|
                    0 <= d2 < d && 0 <= i2 < data@[d2].service_journeys@.len() ==> journey_ok(
                        node_names(r.nodes@),
                        data@,
                        #[trigger] data@[d2].service_journeys@[i2],
                    ),
                forall|i2: int| 0 <= i2 < i ==> journey_ok(node_names(r.nodes@), data@, #[trigger] js@[i2]),
            decreases js@.len() - i,
        {
            let j = &js[i];
            let ghost base2 = keys;
            let ghost wbase2 = wins;
            let n = j.passing_times.len();
            let mut w: usize = 0;
            while w + 1 < n
                invariant
                    r.wf(data@),
                    nn == r.nodes@.len(),
                    np == all_periods(data@).len(),
                    0 <= d < data@.len(),
                    *js == data@[d as int].service_journeys,
                    0 <= i < js@.len(),
                    *j == js@[i as int],
                    n == j.passing_times@.len(),
                    0 <= w <= window_count(*j),
                    keys == base2 + journey_keys(node_names(r.nodes@), data@, *j).subrange(0, w as int),
                    wins == wbase2 + Seq::new(w as nat, |w2: int| (d as int, i as int, w2)),
                    keys.len() == wins.len(),
                    edges_records(node_names(r.nodes@), data@, edges@, keys, wins),
                    edges_match(edges@, keys),
                    edges_bounded(edges@, nn, np),
                            forall|w2: int|
                        0 <= w2 < w ==> (#[trigger] window_result(node_names(r.nodes@), data@, *j, w2)) is Ok,
                decreases n - w,
            {
                match window_journey(r, data, j, w) {
                    Err(e) => {
                        assert(data@[d as int].service_journeys@[i as int] == *j);
                        assert(window_result(node_names(r.nodes@), data@, data@[d as int].service_journeys@[i as int], w as int) == Err::<(usize, usize, usize), CompileError>(e));
                        assert(!journey_ok(node_names(r.nodes@), data@, data@[d as int].service_journeys@[i as int]));
                        return Err(e);
                    },
                    Ok((a, b, jr)) => {
                        let ghost before = edges@;
                        add_journey(&mut edges, a, b, jr);
                        proof {
                            let names = node_names(r.nodes@);
                            assert(data@[d as int].service_journeys@[i as int] == *j);
                            lemma_match_push(before, edges@, keys, (a, b));
                            assert(record_of_window(names, data@, a, b, jr, (d as int, i as int, w as int)));
                            lemma_records_push(names, data@, before, edges@, keys, wins, (a, b), jr, (d as int, i as int, w as int));
                            keys = keys.push((a, b));
                            wins = wins.push((d as int, i as int, w as int));
                            assert(wins =~= wbase2 + Seq::new((w + 1) as nat, |w2: int| (d as int, i as int, w2)));
                            assert(keys =~= base2 + journey_keys(node_names(r.nodes@), data@, *j).subrange(0, w + 1));
                        }
                    },
                }
                w = w + 1;
            }
            proof {
                assert(w == window_count(*j));
                assert(journey_keys(node_names(r.nodes@), data@, *j).subrange(0, w as int) =~= journey_keys(node_names(r.nodes@), data@, *j));
                assert(js@.subrange(0, i + 1).drop_last() =~= js@.subrange(0, i as int));
                assert(keys =~= base + journeys_keys(node_names(r.nodes@), data@, js@.subrange(0, i + 1)));
                assert(journeys_windows(d as int, js@.subrange(0, i + 1)) =~= journeys_windows(
                    d as int,
                    js@.subrange(0, i as int),
                ) + Seq::new(window_count(*j), |w2: int| (d as int, i as int, w2)));
                assert(wins =~= wbase + journeys_windows(d as int, js@.subrange(0, i + 1)));
            }
            i = i + 1;
        }
        proof {
            assert(js@.subrange(0, i as int) =~= js@);
            assert(data@.subrange(0, d + 1).drop_last() =~= data@.subrange(0, d as int));
            assert(keys =~= datasets_keys(node_names(r.nodes@), data@, data@.subrange(0, d + 1)));
            assert(wins =~= datasets_windows(data@.subrange(0, d + 1)));
        }
        d = d + 1;
    }
    proof {
        assert(data@.subrange(0, d as int) =~= data@);
        lemma_datasets_keys_len(node_names(r.nodes@), data@, data@);
    }
    Ok(edges)
}

// ---- the compiler ----

/// Each journey of `e` names a local period of `e`, and each local period is
/// named by some journey: the local numbering is `0 .. periods.len()`, in
/// order of first use.
pub open spec fn periods_dense(e: Edge) -> bool {
    &&& first_use_order(e.timetable.journeys@)
    &&& forall|k: int|
        0 <= k < e.timetable.journeys@.len()
            ==> (#[trigger] e.timetable.journeys@[k]).operating_period
            < e.timetable.periods@.len()
    &&& forall|l: int|
        0 <= l < e.timetable.periods@.len() ==> #[trigger] uses_period(e.timetable.journeys@, l)
}

/// The stop points of `stops` collapse into `nodes`, one per short name.
pub open spec fn deduplicates(stops: Seq<ScheduledStopPoint>, nodes: Seq<Node>) -> bool {
    exists|stop_nodes: Seq<usize>| dedup_nodes(stops, nodes, stop_nodes)
}

/// What compiling `data` yields: a graph exactly when every reference of
/// the input resolves and every window of every journey resolves, else the
/// failure of some reference or window.
pub open spec fn compile_result(data: Seq<NetexData>, res: Result<Graph, CompileError>) -> bool {
    let names = canonical_names(data);
    &&& res is Ok <==> references_resolve(data) && all_windows_ok(names, data)
    &&& res matches Err(e) ==> reference_fails(data, e) || window_fails(names, data, e)
    &&& res matches Ok(g) ==> {
        &&& node_views(g.nodes@) == canonical_nodes(all_stops(data))
        &&& deduplicates(all_stops(data), g.nodes@)
        &&& edge_keys(g.edges@).no_duplicates()
        &&& forall|x: (usize, usize)|
            datasets_keys(names, data, data).contains(x) <==> edge_keys(g.edges@).contains(x)
        &&& total_journeys(g.edges@) == window_total(data)
        &&& forall|a: int|
            0 <= a < g.edges@.len() ==> {
                &&& (#[trigger] g.edges@[a]).start_node < g.nodes@.len()
                &&& g.edges@[a].end_node < g.nodes@.len()
                &&& periods_dense(g.edges@[a])
                &&& periods_encoded(g.edges@[a])
                &&& g.edges@[a].timetable.journeys@.len() == key_count(
                    datasets_keys(names, data, data),
                    edge_key(g.edges@[a]),
                )
            }
        &&& forall|a: int|
            0 <= a < g.edges@.len() ==> compiled_records(
                names,
                data,
                #[trigger] g.edges@[a],
                select(datasets_keys(names, data, data), datasets_windows(data), edge_key(g.edges@[a])),
            )
    }
}

/// `jr`, a journey record of the compiled edge `e`, is the record of window
/// `win`, which runs from `e`'s start node to its end node, and its local
/// period is built from the operating period of that window's journey.
pub open spec fn compiled_record(
    names: Seq<Seq<char>>,
    data: Seq<NetexData>,
    e: Edge,
    jr: Journey,
    win: (int, int, int),
) -> bool {
    let (d, i, w) = win;
    &&& 0 <= d < data.len()
    &&& 0 <= i < data[d].service_journeys@.len()
    &&& 0 <= w < window_count(data[d].service_journeys@[i])
    &&& record_fields(jr, data, data[d].service_journeys@[i], w)
    &&& match window_result(names, data, data[d].service_journeys@[i], w) {
        Ok((s, t, g)) => s == e.start_node && t == e.end_node && jr.operating_period
            < e.timetable.periods@.len() && period_from(
            e.timetable.periods@[jr.operating_period as int],
            all_periods(data)[g as int],
        ),
        Err(_) => false,
    }
}

/// The journeys of the compiled edge `e` are the records of the windows
/// `ws`, one to one and in order.
pub open spec fn compiled_records(
    names: Seq<Seq<char>>,
    data: Seq<NetexData>,
    e: Edge,
    ws: Seq<(int, int, int)>,
) -> bool {
    &&& e.timetable.journeys@.len() == ws.len()
    &&& forall|k: int|
        0 <= k < ws.len() ==> compiled_record(
            names,
            data,
            e,
            #[trigger] e.timetable.journeys@[k],
            ws[k],
        )
}

/// Every local period's text form is the base64 of its raw day bits.
pub open spec fn periods_encoded(e: Edge) -> bool {
    forall|l: int|
        0 <= l < e.timetable.periods@.len() ==> (#[trigger] e.timetable.periods@[l]).valid_day_bits@
            == base64_of(e.timetable.periods@[l].valid_day@)
}

impl Graph {
    /// Compiles datasets into one graph: nodes deduplicated by short name,
    /// one edge per ordered pair of adjacent stops, each edge with its own
    /// compacted calendar table. Fails when a pattern stop, a passing time's
    /// pattern point or a journey's calendar does not resolve, whether or not
    /// a window uses it, or when a window's line does not resolve.
    pub fn from_data(data: &[NetexData]) -> (res: Result<Graph, CompileError>)
        ensures
            compile_result(data@, res),
    {
        let resolver = Resolver::new(data);
        let ghost names = node_names(resolver.nodes@);
        proof {
            assert forall|n: int| 0 <= n < names.len() implies names[n] == canonical_names(data@)[n] by {
                assert(node_views(resolver.nodes@)[n].0 == names[n]);
            }
            assert(names =~= canonical_names(data@));
        }
        match check_pattern_stops(&resolver, data) {
            Ok(()) => {},
            Err(e) => {
                return Err(e);
            },
        }
        match check_journeys(data) {
            Ok(()) => {},
            Err(e) => {
                return Err(e);
            },
        }
        let mut edges = match build_edges(&resolver, data) {
            Ok(edges) => edges,
            Err(e) => {
                return Err(e);
            },
        };
        let ghost built = edges@;
        let mut a: usize = 0;
        while a < edges.len()
            invariant
                0 <= a <= edges@.len(),
                edges@.len() == built.len(),
                edges_bounded(built, resolver.nodes@.len(), all_periods(data@).len()),
                edge_keys(edges@) == edge_keys(built),
                total_journeys(edges@) == total_journeys(built),
                forall|b: int| 0 <= b < a ==> compacted(built[b], #[trigger] edges@[b], data@),
                forall|b: int| a <= b < edges@.len() ==> #[trigger] edges@[b] == built[b],
            decreases edges@.len() - a,
        {
            let mut e = Edge {
                start_node: 0,
                end_node: 0,
                timetable: Timetable { journeys: Vec::new(), periods: Vec::new() },
            };
            let ghost pre = edges@;
            std::mem::swap(&mut edges[a], &mut e);
            assert(e == built[a as int]);
            assert(edges_bounded(built, resolver.nodes@.len(), all_periods(data@).len()));
            assert(built[a as int].start_node < resolver.nodes@.len());
            let c = match compact_timetable(e, data) {
                Ok(c) => c,
                Err(err) => {
                    return Err(err);
                },
            };
            proof {
                lemma_total_update(pre, a as int, c);
            }
            edges.set(a, c);
            proof {
                assert(edges@ =~= pre.update(a as int, c));
                assert(edge_keys(edges@) =~= edge_keys(pre));
            }
            a = a + 1;
        }
        proof {
            assert forall|b: int| 0 <= b < edges@.len() implies periods_encoded(
                #[trigger] edges@[b],
            ) by {
                let e = edges@[b];
                assert(compacted(built[b], e, data@));
                assert forall|l: int| 0 <= l < e.timetable.periods@.len() implies (
                #[trigger] e.timetable.periods@[l]).valid_day_bits@ == base64_of(
                    e.timetable.periods@[l].valid_day@,
                ) by {
                    assert(uses_period(e.timetable.journeys@, l));
                    let k = choose|k: int|
                        0 <= k < e.timetable.journeys@.len()
                            && e.timetable.journeys@[k].operating_period == l;
                    assert(period_from(
                        e.timetable.periods@[e.timetable.journeys@[k].operating_period as int],
                        all_periods(data@)[built[b].timetable.journeys@[k].operating_period as int],
                    ));
                }
            }
            let keys = datasets_keys(canonical_names(data@), data@, data@);
            assert forall|b: int| 0 <= b < edges@.len() implies {
                &&& (#[trigger] edges@[b]).start_node < resolver.nodes@.len()
                &&& edges@[b].end_node < resolver.nodes@.len()
                &&& periods_dense(edges@[b])
                &&& periods_encoded(edges@[b])
                &&& edges@[b].timetable.journeys@.len() == key_count(keys, edge_key(edges@[b]))
            } by {
                assert(compacted(built[b], edges@[b], data@));
                assert(built[b].start_node < resolver.nodes@.len());
                assert(built[b].timetable.journeys@.len() == key_count(keys, edge_key(built[b])));
            }
        }
        proof {
            let names = canonical_names(data@);
            let keys = datasets_keys(names, data@, data@);
            let wins = datasets_windows(data@);
            assert forall|b: int| 0 <= b < edges@.len() implies compiled_records(
                names,
                data@,
                #[trigger] edges@[b],
                select(keys, wins, edge_key(edges@[b])),
            ) by {
                assert(compacted(built[b], edges@[b], data@));
                assert(edge_records(names, data@, built[b], select(keys, wins, edge_key(built[b]))));
                let ws = select(keys, wins, edge_key(edges@[b]));
                assert forall|k: int| 0 <= k < ws.len() implies compiled_record(
                    names,
                    data@,
                    edges@[b],
                    #[trigger] edges@[b].timetable.journeys@[k],
                    ws[k],
                ) by {
                    let old_jr = built[b].timetable.journeys@[k];
                    assert(record_of_window(names, data@, built[b].start_node, built[b].end_node, old_jr, ws[k]));
                    assert(same_but_period(edges@[b].timetable.journeys@[k], old_jr));
                }
            }
        }
        Ok(Graph { nodes: resolver.nodes, edges })
    }
}

} // verus!
