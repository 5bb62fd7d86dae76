//! Properties of compilation as a whole, proved from the compiler's contract.
use vstd::prelude::*;

use crate::calendar::same_but_period;
use crate::error::CompileError;
use crate::graph::{
    all_stops, canonical_names, compile_result, compiled_record, compiled_records,
    datasets_keys, datasets_windows, dedup_nodes, deduplicates, edge_key, edge_keys, first_named,
    introduced_by, named_before, names_distinct, node_of_stop, node_views, periods_dense, select,
    total_journeys, window_total, Edge, Graph, Journey,
};
use crate::parser::NetexData;
use crate::resolve::{
    assignment_of, journey_resolves, journeys_resolve, pattern_stops_resolve, point_of,
};

verus! {

/// Stop points with equal short names, from any datasets, resolve to
/// exactly one node; each node carries the coordinates of the first stop
/// (dataset order, then record order) that has its name; nodes are
/// numbered in the order their names first appear.
pub proof fn lemma_node_dedup(data: Seq<NetexData>, g: Graph)
    requires
        compile_result(data, Ok(g)),
    ensures
        names_distinct(g.nodes@),
        forall|k: int|
            0 <= k < all_stops(data).len() ==> exists|n: int|
                0 <= n < g.nodes@.len() && g.nodes@[n].short_name@ == (
                #[trigger] all_stops(data)[k]).short_name@,
        forall|n: int|
            0 <= n < g.nodes@.len() ==> exists|k: int|
                first_named(all_stops(data), k) && node_of_stop(
                    #[trigger] g.nodes@[n],
                    all_stops(data)[k],
                ),
        forall|n1: int, n2: int, k: int|
            #![trigger all_stops(data)[k], g.nodes@[n1], g.nodes@[n2]]
            0 <= n1 < n2 < g.nodes@.len() && 0 <= k < all_stops(data).len() && all_stops(
                data,
            )[k].short_name@ == g.nodes@[n2].short_name@ ==> named_before(
                all_stops(data),
                g.nodes@[n1].short_name@,
                k,
            ),
{
    let stops = all_stops(data);
    assert(deduplicates(stops, g.nodes@));
    let sn = choose|sn: Seq<usize>| dedup_nodes(stops, g.nodes@, sn);
    assert forall|k: int| 0 <= k < stops.len() implies exists|n: int|
        0 <= n < g.nodes@.len() && g.nodes@[n].short_name@ == (#[trigger] stops[k]).short_name@ by {
        assert(sn[k] < g.nodes@.len());
        let n = sn[k] as int;
        assert(g.nodes@[n].short_name@ == stops[k].short_name@);
    }
    assert forall|n: int| 0 <= n < g.nodes@.len() implies exists|k: int|
        first_named(stops, k) && node_of_stop(#[trigger] g.nodes@[n], stops[k]) by {
        assert(introduced_by(stops, g.nodes@, sn, n));
    }
}

/// Each ordered pair of stops that are adjacent in some journey has exactly
/// one edge, and no other pair has one.
pub proof fn lemma_edge_cardinality(data: Seq<NetexData>, g: Graph)
    requires
        compile_result(data, Ok(g)),
    ensures
        forall|a: int, b: int|
            0 <= a < g.edges@.len() && 0 <= b < g.edges@.len() && a != b ==> (
            #[trigger] g.edges@[a]).start_node != (#[trigger] g.edges@[b]).start_node
                || g.edges@[a].end_node != g.edges@[b].end_node,
        forall|x: (usize, usize)|
            datasets_keys(canonical_names(data), data, data).contains(x) <==> edge_keys(
                g.edges@,
            ).contains(x),
{
    assert forall|a: int, b: int|
        0 <= a < g.edges@.len() && 0 <= b < g.edges@.len() && a != b implies (
        #[trigger] g.edges@[a]).start_node != (#[trigger] g.edges@[b]).start_node
            || g.edges@[a].end_node != g.edges@[b].end_node by {
        assert(edge_keys(g.edges@)[a] != edge_keys(g.edges@)[b]);
    }
}

/// The journey records over all edges number exactly the adjacent-stop
/// windows over all journeys of all datasets.
pub proof fn lemma_journey_completeness(data: Seq<NetexData>, g: Graph)
    requires
        compile_result(data, Ok(g)),
    ensures
        total_journeys(g.edges@) == window_total(data),
{
}

/// On every edge the local periods used by its journeys are exactly
/// `0 .. periods.len()`, numbered in order of first use.
pub proof fn lemma_local_period_compaction(data: Seq<NetexData>, g: Graph)
    requires
        compile_result(data, Ok(g)),
    ensures
        forall|a: int| 0 <= a < g.edges@.len() ==> periods_dense(#[trigger] g.edges@[a]),
{
}

/// Two journey records agree: same times, mode, line and authority, and
/// local periods with the same dates and day bits.
pub open spec fn same_record(e1: Edge, j1: Journey, e2: Edge, j2: Journey) -> bool {
    let p1 = e1.timetable.periods@[j1.operating_period as int];
    let p2 = e2.timetable.periods@[j2.operating_period as int];
    &&& same_but_period(j1, j2)
    &&& p1.from == p2.from
    &&& p1.to == p2.to
    &&& p1.valid_day@ == p2.valid_day@
    &&& p1.valid_day_bits@ == p2.valid_day_bits@
}

/// Two edges hold the same journey records, in the same order.
pub open spec fn same_journeys(e1: Edge, e2: Edge) -> bool {
    &&& e1.timetable.journeys@.len() == e2.timetable.journeys@.len()
    &&& forall|k: int|
        0 <= k < e1.timetable.journeys@.len() ==> same_record(
            e1,
            #[trigger] e1.timetable.journeys@[k],
            e2,
            e2.timetable.journeys@[k],
        )
}

/// Compiling the same datasets twice gives the same outcome: the same nodes
/// in the same order, the same set of edge keys, and on edges with the same
/// key the same journey records.
pub proof fn lemma_idempotence(
    data: Seq<NetexData>,
    r1: Result<Graph, CompileError>,
    r2: Result<Graph, CompileError>,
)
    requires
        compile_result(data, r1),
        compile_result(data, r2),
    ensures
        r1 is Ok <==> r2 is Ok,
        r1 matches Ok(g1) ==> r2 matches Ok(g2) && node_views(g1.nodes@) == node_views(g2.nodes@)
            && (forall|x: (usize, usize)|
            edge_keys(g1.edges@).contains(x) <==> edge_keys(g2.edges@).contains(x))
            && total_journeys(g1.edges@) == total_journeys(g2.edges@) && (forall|a: int, b: int|
            0 <= a < g1.edges@.len() && 0 <= b < g2.edges@.len() && edge_key(
                #[trigger] g1.edges@[a],
            ) == edge_key(#[trigger] g2.edges@[b]) ==> g1.edges@[a].timetable.journeys@.len()
                == g2.edges@[b].timetable.journeys@.len()) && (forall|a: int, b: int|
            0 <= a < g1.edges@.len() && 0 <= b < g2.edges@.len() && edge_key(
                #[trigger] g1.edges@[a],
            ) == edge_key(#[trigger] g2.edges@[b]) ==> same_journeys(g1.edges@[a], g2.edges@[b])),
{
    if r1 is Ok {
        let g1 = r1->Ok_0;
        let g2 = r2->Ok_0;
        let names = canonical_names(data);
        let keys = datasets_keys(names, data, data);
        let wins = datasets_windows(data);
        assert forall|a: int, b: int|
            0 <= a < g1.edges@.len() && 0 <= b < g2.edges@.len() && edge_key(
                #[trigger] g1.edges@[a],
            ) == edge_key(#[trigger] g2.edges@[b]) implies same_journeys(
            g1.edges@[a],
            g2.edges@[b],
        ) by {
            let e1 = g1.edges@[a];
            let e2 = g2.edges@[b];
            let ws = select(keys, wins, edge_key(e1));
            assert(compiled_records(names, data, e1, ws));
            assert(compiled_records(names, data, e2, ws));
            assert forall|k: int| 0 <= k < e1.timetable.journeys@.len() implies same_record(
                e1,
                #[trigger] e1.timetable.journeys@[k],
                e2,
                e2.timetable.journeys@[k],
            ) by {
                assert(compiled_record(names, data, e1, e1.timetable.journeys@[k], ws[k]));
                assert(compiled_record(names, data, e2, e2.timetable.journeys@[k], ws[k]));
            }
        }
    }
}

/// A journey whose day type has no operating-period assignment makes
/// compilation fail: no graph is produced.
pub proof fn lemma_missing_calendar_aborts(
    data: Seq<NetexData>,
    res: Result<Graph, CompileError>,
    d: int,
    i: int,
)
    requires
        compile_result(data, res),
        0 <= d < data.len(),
        0 <= i < data[d].service_journeys@.len(),
        assignment_of(data, data[d].service_journeys@[i].day_type) is None,
    ensures
        res is Err,
{
    assert(!journey_resolves(data, data[d].service_journeys@[i]));
    assert(!journeys_resolve(data));
}

/// Compilation succeeds only if every stop reference of every journey
/// pattern and every pattern point of every passing time resolves.
pub proof fn lemma_unresolved_stop_aborts(data: Seq<NetexData>, g: Graph)
    requires
        compile_result(data, Ok(g)),
    ensures
        pattern_stops_resolve(data),
        forall|d: int, i: int, t: int|
            0 <= d < data.len() && 0 <= i < data[d].service_journeys@.len() && 0 <= t
                < data[d].service_journeys@[i].passing_times@.len() ==> point_of(
                data,
                (#[trigger] data[d].service_journeys@[i].passing_times@[t]).stop_point_in_journey_pattern,
            ) is Some,
{
    assert forall|d: int, i: int, t: int|
        0 <= d < data.len() && 0 <= i < data[d].service_journeys@.len() && 0 <= t
            < data[d].service_journeys@[i].passing_times@.len() implies point_of(
            data,
            (#[trigger] data[d].service_journeys@[i].passing_times@[t]).stop_point_in_journey_pattern,
        ) is Some by {
        assert(journey_resolves(data, data[d].service_journeys@[i]));
    }
}

} // verus!
