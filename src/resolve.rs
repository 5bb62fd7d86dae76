use vstd::prelude::*;

use crate::error::CompileError;
use crate::graph::{
    all_stops, canonical_nodes, dedup_nodes, node_views, find_last, is_last, names_distinct, node_names, resolve_nodes,
    stop_id_seq, Node,
};
use crate::parser::{
    Authority, DayTypeAssignment, Line, NetexData, PointsInSequence, StopPointInJourneyPattern,
    ServiceJourney, UicOperatingPeriod,
};

verus! {

/// A record looked up by a dataset-local identifier.
pub trait Keyed {
    spec fn key(&self) -> u64;

    fn get_key(&self) -> (r: u64)
        ensures
            r == self.key(),
    ;
}

impl Keyed for Line {
    open spec fn key(&self) -> u64 {
        self.id
    }

    fn get_key(&self) -> (r: u64) {
        self.id
    }
}

impl Keyed for Authority {
    open spec fn key(&self) -> u64 {
        self.id
    }

    fn get_key(&self) -> (r: u64) {
        self.id
    }
}

impl Keyed for PointsInSequence {
    open spec fn key(&self) -> u64 {
        self.id
    }

    fn get_key(&self) -> (r: u64) {
        self.id
    }
}

impl Keyed for StopPointInJourneyPattern {
    open spec fn key(&self) -> u64 {
        self.id
    }

    fn get_key(&self) -> (r: u64) {
        self.id
    }
}

/// Day-type assignments are looked up by their day type.
impl Keyed for DayTypeAssignment {
    open spec fn key(&self) -> u64 {
        self.day_type
    }

    fn get_key(&self) -> (r: u64) {
        self.day_type
    }
}

/// The last record of `s` with key `k` (a later record overrides an earlier one).
pub open spec fn last_with<T: Keyed>(s: Seq<T>, k: u64) -> Option<T>
    decreases s.len(),
{
    if s.len() == 0 {
        None
    } else if s.last().key() == k {
        Some(s.last())
    } else {
        last_with(s.drop_last(), k)
    }
}

/// The first record of `s` with key `k` (an earlier record wins).
pub open spec fn first_with<T: Keyed>(s: Seq<T>, k: u64) -> Option<T>
    decreases s.len(),
{
    if s.len() == 0 {
        None
    } else if s.first().key() == k {
        Some(s.first())
    } else {
        first_with(s.drop_first(), k)
    }
}

pub fn find_last_with<'a, T: Keyed>(s: &'a Vec<T>, k: u64) -> (r: Option<&'a T>)
    ensures
        r matches Some(x) ==> last_with(s@, k) == Some(*x),
        r is None ==> last_with(s@, k) is None,
{
    let mut i: usize = s.len();
    assert(s@.subrange(0, i as int) =~= s@);
    while i > 0
        invariant
            0 <= i <= s@.len(),
            last_with(s@, k) == last_with(s@.subrange(0, i as int), k),
        decreases i,
    {
        assert(s@.subrange(0, i as int).drop_last() =~= s@.subrange(0, i - 1));
        if s[i - 1].get_key() == k {
            return Some(&s[i - 1]);
        }
        i = i - 1;
    }
    None
}

pub fn find_first_with<'a, T: Keyed>(s: &'a Vec<T>, k: u64) -> (r: Option<&'a T>)
    ensures
        r matches Some(x) ==> first_with(s@, k) == Some(*x),
        r is None ==> first_with(s@, k) is None,
{
    let mut i: usize = 0;
    assert(s@.subrange(0, s@.len() as int) =~= s@);
    while i < s.len()
        invariant
            0 <= i <= s@.len(),
            first_with(s@, k) == first_with(s@.subrange(i as int, s@.len() as int), k),
        decreases s@.len() - i,
    {
        assert(s@.subrange(i as int, s@.len() as int).drop_first() =~= s@.subrange(
            i + 1,
            s@.len() as int,
        ));
        if s[i].get_key() == k {
            return Some(&s[i]);
        }
        i = i + 1;
    }
    None
}

// ---- lookups across datasets ----

/// The line with id `k` of the last dataset that has one.
pub open spec fn line_of(data: Seq<NetexData>, k: u64) -> Option<Line>
    decreases data.len(),
{
    if data.len() == 0 {
        None
    } else {
        match last_with(data.last().lines@, k) {
            Some(x) => Some(x),
            None => line_of(data.drop_last(), k),
        }
    }
}

pub fn find_line<'a>(data: &'a [NetexData], k: u64) -> (r: Option<&'a Line>)
    ensures
        r matches Some(x) ==> line_of(data@, k) == Some(*x),
        r is None ==> line_of(data@, k) is None,
{
    let mut d: usize = data.len();
    assert(data@.subrange(0, d as int) =~= data@);
    while d > 0
        invariant
            0 <= d <= data@.len(),
            line_of(data@, k) == line_of(data@.subrange(0, d as int), k),
        decreases d,
    {
        assert(data@.subrange(0, d as int).drop_last() =~= data@.subrange(0, d - 1));
        match find_last_with(&data[d - 1].lines, k) {
            Some(x) => {
                return Some(x);
            },
            None => {},
        }
        d = d - 1;
    }
    None
}

/// The authority with id `k` of the last dataset that has one.
pub open spec fn authority_of(data: Seq<NetexData>, k: u64) -> Option<Authority>
    decreases data.len(),
{
    if data.len() == 0 {
        None
    } else {
        match last_with(data.last().authorities@, k) {
            Some(x) => Some(x),
            None => authority_of(data.drop_last(), k),
        }
    }
}

pub fn find_authority<'a>(data: &'a [NetexData], k: u64) -> (r: Option<&'a Authority>)
    ensures
        r matches Some(x) ==> authority_of(data@, k) == Some(*x),
        r is None ==> authority_of(data@, k) is None,
{
    let mut d: usize = data.len();
    assert(data@.subrange(0, d as int) =~= data@);
    while d > 0
        invariant
            0 <= d <= data@.len(),
            authority_of(data@, k) == authority_of(data@.subrange(0, d as int), k),
        decreases d,
    {
        assert(data@.subrange(0, d as int).drop_last() =~= data@.subrange(0, d - 1));
        match find_last_with(&data[d - 1].authorities, k) {
            Some(x) => {
                return Some(x);
            },
            None => {},
        }
        d = d - 1;
    }
    None
}

/// The journey pattern with id `k` of the last dataset that has one.
pub open spec fn pattern_of(data: Seq<NetexData>, k: u64) -> Option<PointsInSequence>
    decreases data.len(),
{
    if data.len() == 0 {
        None
    } else {
        match last_with(data.last().service_journey_patterns@, k) {
            Some(x) => Some(x),
            None => pattern_of(data.drop_last(), k),
        }
    }
}

pub fn find_pattern<'a>(data: &'a [NetexData], k: u64) -> (r: Option<&'a PointsInSequence>)
    ensures
        r matches Some(x) ==> pattern_of(data@, k) == Some(*x),
        r is None ==> pattern_of(data@, k) is None,
{
    let mut d: usize = data.len();
    assert(data@.subrange(0, d as int) =~= data@);
    while d > 0
        invariant
            0 <= d <= data@.len(),
            pattern_of(data@, k) == pattern_of(data@.subrange(0, d as int), k),
        decreases d,
    {
        assert(data@.subrange(0, d as int).drop_last() =~= data@.subrange(0, d - 1));
        match find_last_with(&data[d - 1].service_journey_patterns, k) {
            Some(x) => {
                return Some(x);
            },
            None => {},
        }
        d = d - 1;
    }
    None
}

/// The assignment of day type `k` of the last dataset that has one.
pub open spec fn assignment_of(data: Seq<NetexData>, k: u64) -> Option<DayTypeAssignment>
    decreases data.len(),
{
    if data.len() == 0 {
        None
    } else {
        match last_with(data.last().day_type_assignments@, k) {
            Some(x) => Some(x),
            None => assignment_of(data.drop_last(), k),
        }
    }
}

pub fn find_assignment<'a>(data: &'a [NetexData], k: u64) -> (r: Option<&'a DayTypeAssignment>)
    ensures
        r matches Some(x) ==> assignment_of(data@, k) == Some(*x),
        r is None ==> assignment_of(data@, k) is None,
{
    let mut d: usize = data.len();
    assert(data@.subrange(0, d as int) =~= data@);
    while d > 0
        invariant
            0 <= d <= data@.len(),
            assignment_of(data@, k) == assignment_of(data@.subrange(0, d as int), k),
        decreases d,
    {
        assert(data@.subrange(0, d as int).drop_last() =~= data@.subrange(0, d - 1));
        match find_last_with(&data[d - 1].day_type_assignments, k) {
            Some(x) => {
                return Some(x);
            },
            None => {},
        }
        d = d - 1;
    }
    None
}

/// The first pattern point with id `k` in a sequence of journey patterns.
pub open spec fn point_in_patterns(ps: Seq<PointsInSequence>, k: u64) -> Option<
    StopPointInJourneyPattern,
>
    decreases ps.len(),
{
    if ps.len() == 0 {
        None
    } else {
        match first_with(ps.first().stops@, k) {
            Some(x) => Some(x),
            None => point_in_patterns(ps.drop_first(), k),
        }
    }
}

/// The pattern point with id `k` of the first dataset that has one.
pub open spec fn point_of(data: Seq<NetexData>, k: u64) -> Option<StopPointInJourneyPattern>
    decreases data.len(),
{
    if data.len() == 0 {
        None
    } else {
        match point_in_patterns(data.first().service_journey_patterns@, k) {
            Some(x) => Some(x),
            None => point_of(data.drop_first(), k),
        }
    }
}

fn find_point_in_patterns<'a>(ps: &'a Vec<PointsInSequence>, k: u64) -> (r: Option<
    &'a StopPointInJourneyPattern,
>)
    ensures
        r matches Some(x) ==> point_in_patterns(ps@, k) == Some(*x),
        r is None ==> point_in_patterns(ps@, k) is None,
{
    let mut i: usize = 0;
    assert(ps@.subrange(0, ps@.len() as int) =~= ps@);
    while i < ps.len()
        invariant
            0 <= i <= ps@.len(),
            point_in_patterns(ps@, k) == point_in_patterns(
                ps@.subrange(i as int, ps@.len() as int),
                k,
            ),
        decreases ps@.len() - i,
    {
        assert(ps@.subrange(i as int, ps@.len() as int).drop_first() =~= ps@.subrange(
            i + 1,
            ps@.len() as int,
        ));
        match find_first_with(&ps[i].stops, k) {
            Some(x) => {
                return Some(x);
            },
            None => {},
        }
        i = i + 1;
    }
    None
}

pub fn find_point<'a>(data: &'a [NetexData], k: u64) -> (r: Option<&'a StopPointInJourneyPattern>)
    ensures
        r matches Some(x) ==> point_of(data@, k) == Some(*x),
        r is None ==> point_of(data@, k) is None,
{
    let mut d: usize = 0;
    assert(data@.subrange(0, data@.len() as int) =~= data@);
    while d < data.len()
        invariant
            0 <= d <= data@.len(),
            point_of(data@, k) == point_of(data@.subrange(d as int, data@.len() as int), k),
        decreases data@.len() - d,
    {
        assert(data@.subrange(d as int, data@.len() as int).drop_first() =~= data@.subrange(
            d + 1,
            data@.len() as int,
        ));
        match find_point_in_patterns(&data[d].service_journey_patterns, k) {
            Some(x) => {
                return Some(x);
            },
            None => {},
        }
        d = d + 1;
    }
    None
}

// ---- operating periods: one dense global numbering ----

/// All operating periods, in dataset order then record order; a period's
/// global index is its position here.
pub open spec fn all_periods(data: Seq<NetexData>) -> Seq<UicOperatingPeriod>
    decreases data.len(),
{
    if data.len() == 0 {
        Seq::empty()
    } else {
        all_periods(data.drop_last()) + data.last().operating_periods@
    }
}

proof fn lemma_periods_prefix(data: Seq<NetexData>, m: int, n: int)
    requires
        0 <= m <= n <= data.len(),
    ensures
        all_periods(data.subrange(0, m)).len() <= all_periods(data.subrange(0, n)).len(),
        all_periods(data.subrange(0, m)) =~= all_periods(data.subrange(0, n)).subrange(
            0,
            all_periods(data.subrange(0, m)).len() as int,
        ),
    decreases n - m,
{
    if m < n {
        lemma_periods_prefix(data, m, n - 1);
        assert(data.subrange(0, n).drop_last() =~= data.subrange(0, n - 1));
    }
}

/// The ids of all operating periods, in global-index order.
pub fn period_ids(data: &[NetexData]) -> (r: Vec<u64>)
    ensures
        r@ == period_id_seq(data@),
{
    let mut r: Vec<u64> = Vec::new();
    let mut d: usize = 0;
    while d < data.len()
        invariant
            0 <= d <= data@.len(),
            r@.len() == all_periods(data@.subrange(0, d as int)).len(),
            forall|g: int|
                0 <= g < r@.len() ==> #[trigger] r@[g] == all_periods(
                    data@.subrange(0, d as int),
                )[g].id,
        decreases data@.len() - d,
    {
        let ps = &data[d].operating_periods;
        let ghost before = all_periods(data@.subrange(0, d as int));
        let mut i: usize = 0;
        while i < ps.len()
            invariant
                0 <= d < data@.len(),
                *ps == data@[d as int].operating_periods,
                0 <= i <= ps@.len(),
                before == all_periods(data@.subrange(0, d as int)),
                r@.len() == before.len() + i,
                forall|g: int| 0 <= g < before.len() ==> #[trigger] r@[g] == before[g].id,
                forall|g: int| 0 <= g < i ==> #[trigger] r@[before.len() + g] == ps@[g].id,
            decreases ps@.len() - i,
        {
            r.push(ps[i].id);
            i = i + 1;
        }
        assert(data@.subrange(0, d + 1).drop_last() =~= data@.subrange(0, d as int));
        assert forall|g: int| 0 <= g < r@.len() implies #[trigger] r@[g] == all_periods(
            data@.subrange(0, d + 1),
        )[g].id by {
            if g >= before.len() {
                assert(r@[before.len() + (g - before.len())] == ps@[g - before.len()].id);
            }
        }
        d = d + 1;
    }
    assert(data@.subrange(0, d as int) =~= data@);
    assert(r@ =~= period_id_seq(data@));
    r
}

/// The operating period with global index `global_index`: datasets' periods
/// are skipped in dataset order until the index falls inside one of them.
pub fn lookup_operating_period(data: &[NetexData], global_index: usize) -> (r: Option<
    &UicOperatingPeriod,
>)
    ensures
        global_index < all_periods(data@).len() ==> (r matches Some(p) && *p == all_periods(
            data@,
        )[global_index as int]),
        global_index >= all_periods(data@).len() ==> r is None,
{
    let mut g: usize = global_index;
    let mut d: usize = 0;
    while d < data.len()
        invariant
            0 <= d <= data@.len(),
            all_periods(data@.subrange(0, d as int)).len() + g == global_index,
        decreases data@.len() - d,
    {
        proof {
            assert(data@.subrange(0, d + 1).drop_last() =~= data@.subrange(0, d as int));
        }
        let ps = &data[d].operating_periods;
        if g < ps.len() {
            proof {
                lemma_periods_prefix(data@, d + 1, data@.len() as int);
                assert(data@.subrange(0, data@.len() as int) =~= data@);
                let pre = all_periods(data@.subrange(0, d + 1));
                assert(pre == all_periods(data@.subrange(0, d as int)) + ps@);
                assert(pre[global_index as int] == ps@[g as int]);
                assert(all_periods(data@)[global_index as int] == pre[global_index as int]);
            }
            return Some(&ps[g]);
        }
        g = g - ps.len();
        d = d + 1;
    }
    assert(data@.subrange(0, d as int) =~= data@);
    None
}

// ---- the identity resolver ----

/// The position of the last occurrence of `k` in `keys`.
pub open spec fn last_pos(keys: Seq<u64>, k: u64) -> int {
    choose|i: int| is_last(keys, k, i)
}

proof fn lemma_last_pos(keys: Seq<u64>, k: u64, i: int)
    requires
        is_last(keys, k, i),
    ensures
        last_pos(keys, k) == i,
{
    let j = last_pos(keys, k);
    assert(is_last(keys, k, j));
    if j < i {
        assert(keys[i] != k);
    } else if i < j {
        assert(keys[j] != k);
    }
}

/// The ids of all operating periods, by global index.
pub open spec fn period_id_seq(data: Seq<NetexData>) -> Seq<u64> {
    Seq::new(all_periods(data).len(), |g: int| all_periods(data)[g].id)
}

/// The index of the node called `name`.
pub open spec fn node_named(names: Seq<Seq<char>>, name: Seq<char>) -> int {
    choose|n: int| 0 <= n < names.len() && names[n] == name
}

/// The canonical node of pattern point `p`, given the node names: the
/// pattern point, then the last stop with the id it references, then the
/// node named like that stop.
pub open spec fn point_node(names: Seq<Seq<char>>, data: Seq<NetexData>, p: u64) -> Option<usize> {
    match point_of(data, p) {
        None => None,
        Some(sp) => if stop_id_seq(data).contains(sp.scheduled_stop_point) {
            let stop = all_stops(data)[last_pos(stop_id_seq(data), sp.scheduled_stop_point)];
            if names.contains(stop.short_name@) {
                Some(node_named(names, stop.short_name@) as usize)
            } else {
                None
            }
        } else {
            None
        },
    }
}

/// The global operating-period index of day type `dt`: its last assignment,
/// then the last operating period with the assigned id.
pub open spec fn day_type_period(data: Seq<NetexData>, dt: u64) -> Result<usize, CompileError> {
    match assignment_of(data, dt) {
        None => Err(CompileError::MissingCalendarAssignment(dt)),
        Some(a) => if period_id_seq(data).contains(a.operating_period) {
            Ok(last_pos(period_id_seq(data), a.operating_period) as usize)
        } else {
            Err(CompileError::MissingOperatingPeriod(a.operating_period))
        },
    }
}

/// Lookup tables built once from all datasets: canonical nodes, the node of
/// every stop (by flat stop position), and the ids of all operating periods
/// by global index.
pub struct Resolver {
    pub nodes: Vec<Node>,
    pub stop_ids: Vec<u64>,
    pub stop_nodes: Vec<usize>,
    pub period_ids: Vec<u64>,
}

/// The number of adjacent-stop windows of a journey.
pub open spec fn window_count(j: ServiceJourney) -> nat {
    if j.passing_times@.len() == 0 {
        0
    } else {
        (j.passing_times@.len() - 1) as nat
    }
}

impl Resolver {
    pub open spec fn wf(&self, data: Seq<NetexData>) -> bool {
        &&& dedup_nodes(all_stops(data), self.nodes@, self.stop_nodes@)
        &&& self.stop_ids@ == stop_id_seq(data)
        &&& self.period_ids@ == period_id_seq(data)
    }

    /// Builds the tables: node deduplication by short name, stop aliases and
    /// the global operating-period numbering.
    pub fn new(data: &[NetexData]) -> (r: Resolver)
        ensures
            r.wf(data@),
            node_views(r.nodes@) == canonical_nodes(all_stops(data@)),
    {
        let (nodes, stop_ids, stop_nodes) = resolve_nodes(data);
        let period_ids = period_ids(data);
        Resolver { nodes, stop_ids, stop_nodes, period_ids }
    }

    pub fn node_of_point(&self, data: &[NetexData], p: u64) -> (r: Result<usize, CompileError>)
        requires
            self.wf(data@),
        ensures
            r matches Ok(n) ==> point_node(node_names(self.nodes@), data@, p) == Some(n) && n
                < self.nodes@.len(),
            r matches Err(e) ==> point_node(node_names(self.nodes@), data@, p) is None
                && e == CompileError::UnresolvedStopReference(p),
    {
        match find_point(data, p) {
            None => Err(CompileError::UnresolvedStopReference(p)),
            Some(sp) => match find_last(&self.stop_ids, sp.scheduled_stop_point) {
                None => Err(CompileError::UnresolvedStopReference(p)),
                Some(k) => {
                    proof {
                        lemma_last_pos(self.stop_ids@, sp.scheduled_stop_point, k as int);
                        assert(self.stop_ids@[k as int] == sp.scheduled_stop_point);
                        let names = node_names(self.nodes@);
                        let n0 = self.stop_nodes@[k as int] as int;
                        assert(n0 < self.nodes@.len());
                        let name = all_stops(data@)[k as int].short_name@;
                        assert(names[n0] == name);
                        assert(names.contains(name));
                        let n = node_named(names, name);
                        assert(names[n] == name);
                        assert(names_distinct(self.nodes@));
                        assert(self.nodes@[n].short_name@ == self.nodes@[n0].short_name@);
                        assert(n == n0);
                    }
                    Ok(self.stop_nodes[k])
                },
            },
        }
    }

    pub fn period_of_day_type(&self, data: &[NetexData], dt: u64) -> (r: Result<
        usize,
        CompileError,
    >)
        requires
            self.wf(data@),
        ensures
            r == day_type_period(data@, dt),
            r matches Ok(g) ==> g < all_periods(data@).len(),
    {
        match find_assignment(data, dt) {
            None => Err(CompileError::MissingCalendarAssignment(dt)),
            Some(a) => match find_last(&self.period_ids, a.operating_period) {
                None => Err(CompileError::MissingOperatingPeriod(a.operating_period)),
                Some(g) => {
                    proof {
                        lemma_last_pos(self.period_ids@, a.operating_period, g as int);
                        assert(self.period_ids@[g as int] == a.operating_period);
                    }
                    Ok(g)
                },
            },
        }
    }
}

/// The line of journey pattern `pattern` and that line's authority.
pub open spec fn line_and_authority(data: Seq<NetexData>, pattern: u64) -> Result<
    (Line, Authority),
    CompileError,
> {
    match pattern_of(data, pattern) {
        None => Err(CompileError::UnresolvedLineReference(pattern)),
        Some(p) => match line_of(data, p.line) {
            None => Err(CompileError::UnresolvedLineReference(p.line)),
            Some(l) => match authority_of(data, l.authority) {
                None => Err(CompileError::UnresolvedLineReference(l.authority)),
                Some(a) => Ok((l, a)),
            },
        },
    }
}

pub fn find_line_and_authority<'a>(data: &'a [NetexData], pattern: u64) -> (r: Result<
    (&'a Line, &'a Authority),
    CompileError,
>)
    ensures
        r matches Ok((l, a)) ==> line_and_authority(data@, pattern) == Ok::<
            (Line, Authority),
            CompileError,
        >((*l, *a)),
        r matches Err(e) ==> line_and_authority(data@, pattern) == Err::<
            (Line, Authority),
            CompileError,
        >(e),
{
    match find_pattern(data, pattern) {
        None => Err(CompileError::UnresolvedLineReference(pattern)),
        Some(p) => match find_line(data, p.line) {
            None => Err(CompileError::UnresolvedLineReference(p.line)),
            Some(l) => match find_authority(data, l.authority) {
                None => Err(CompileError::UnresolvedLineReference(l.authority)),
                Some(a) => Ok((l, a)),
            },
        },
    }
}

// ---- every reference of the input resolves ----

/// Every stop of every journey pattern refers to an existing stop point.
pub open spec fn pattern_stops_resolve(data: Seq<NetexData>) -> bool {
    forall|d: int, p: int, k: int|
        0 <= d < data.len() && 0 <= p < data[d].service_journey_patterns@.len() && 0 <= k
            < data[d].service_journey_patterns@[p].stops@.len() ==> stop_id_seq(data).contains(
            (#[trigger] data[d].service_journey_patterns@[p].stops@[k]).scheduled_stop_point,
        )
}

/// A journey's day type has an assignment and each of its passing times
/// names an existing pattern point.
pub open spec fn journey_resolves(data: Seq<NetexData>, j: ServiceJourney) -> bool {
    &&& assignment_of(data, j.day_type) is Some
    &&& forall|t: int|
        0 <= t < j.passing_times@.len() ==> point_of(
            data,
            (#[trigger] j.passing_times@[t]).stop_point_in_journey_pattern,
        ) is Some
}

pub open spec fn journeys_resolve(data: Seq<NetexData>) -> bool {
    forall|d: int, i: int|
        0 <= d < data.len() && 0 <= i < data[d].service_journeys@.len() ==> journey_resolves(
            data,
            #[trigger] data[d].service_journeys@[i],
        )
}

/// Every stop reference of the patterns, and every calendar and pattern
/// point reference of the journeys, resolves.
pub open spec fn references_resolve(data: Seq<NetexData>) -> bool {
    pattern_stops_resolve(data) && journeys_resolve(data)
}

/// `e` names a reference of the input that does not resolve.
pub open spec fn reference_fails(data: Seq<NetexData>, e: CompileError) -> bool {
    ||| exists|d: int, p: int, k: int|
        0 <= d < data.len() && 0 <= p < data[d].service_journey_patterns@.len() && 0 <= k
            < data[d].service_journey_patterns@[p].stops@.len() && !stop_id_seq(data).contains(
            (#[trigger] data[d].service_journey_patterns@[p].stops@[k]).scheduled_stop_point,
        ) && e == CompileError::UnresolvedStopReference(
            data[d].service_journey_patterns@[p].stops@[k].scheduled_stop_point,
        )
    ||| exists|d: int, i: int|
        0 <= d < data.len() && 0 <= i < data[d].service_journeys@.len() && assignment_of(
            data,
            (#[trigger] data[d].service_journeys@[i]).day_type,
        ) is None && e == CompileError::MissingCalendarAssignment(
            data[d].service_journeys@[i].day_type,
        )
    ||| exists|d: int, i: int, t: int|
        0 <= d < data.len() && 0 <= i < data[d].service_journeys@.len() && 0 <= t
            < data[d].service_journeys@[i].passing_times@.len() && point_of(
            data,
            (#[trigger] data[d].service_journeys@[i].passing_times@[t]).stop_point_in_journey_pattern,
        ) is None && e == CompileError::UnresolvedStopReference(
            data[d].service_journeys@[i].passing_times@[t].stop_point_in_journey_pattern,
        )
}

/// Checks every stop reference of every journey pattern.
pub fn check_pattern_stops(r: &Resolver, data: &[NetexData]) -> (res: Result<(), CompileError>)
    requires
        r.wf(data@),
    ensures
        res is Ok <==> pattern_stops_resolve(data@),
        res matches Err(e) ==> reference_fails(data@, e),
{
    let mut d: usize = 0;
    while d < data.len()
        invariant
            r.wf(data@),
            0 <= d <= data@.len(),
            forall|d2: int, p: int, k: int|
                0 <= d2 < d && 0 <= p < data@[d2].service_journey_patterns@.len() && 0 <= k
                    < data@[d2].service_journey_patterns@[p].stops@.len()
                    ==> stop_id_seq(data@).contains(
                    (#[trigger] data@[d2].service_journey_patterns@[p].stops@[k]).scheduled_stop_point,
                ),
        decreases data@.len() - d,
    {
        let ps = &data[d].service_journey_patterns;
        let mut p: usize = 0;
        while p < ps.len()
            invariant
                r.wf(data@),
                0 <= d < data@.len(),
                *ps == data@[d as int].service_journey_patterns,
                0 <= p <= ps@.len(),
                forall|d2: int, p2: int, k: int|
                    0 <= d2 < d && 0 <= p2 < data@[d2].service_journey_patterns@.len() && 0 <= k
                        < data@[d2].service_journey_patterns@[p2].stops@.len()
                        ==> stop_id_seq(data@).contains(
                        (#[trigger] data@[d2].service_journey_patterns@[p2].stops@[k]).scheduled_stop_point,
                    ),
                forall|p2: int, k: int|
                    0 <= p2 < p && 0 <= k < ps@[p2].stops@.len() ==> stop_id_seq(data@).contains(
                        (#[trigger] ps@[p2].stops@[k]).scheduled_stop_point,
                    ),
            decreases ps@.len() - p,
        {
            let stops = &ps[p].stops;
            let mut k: usize = 0;
            while k < stops.len()
                invariant
                    r.wf(data@),
                    0 <= d < data@.len(),
                    *ps == data@[d as int].service_journey_patterns,
                    0 <= p < ps@.len(),
                    *stops == ps@[p as int].stops,
                    0 <= k <= stops@.len(),
                    forall|k2: int|
                        0 <= k2 < k ==> stop_id_seq(data@).contains(
                            (#[trigger] stops@[k2]).scheduled_stop_point,
                        ),
                decreases stops@.len() - k,
            {
                let target = stops[k].scheduled_stop_point;
                if find_last(&r.stop_ids, target).is_none() {
                    proof {
                        assert(data@[d as int].service_journey_patterns@[p as int].stops@[k as int]
                            == stops@[k as int]);
                    }
                    return Err(CompileError::UnresolvedStopReference(target));
                }
                k = k + 1;
            }
            p = p + 1;
        }
        d = d + 1;
    }
    Ok(())
}

/// Checks the calendar and the passing times of every journey.
pub fn check_journeys(data: &[NetexData]) -> (res: Result<(), CompileError>)
    ensures
        res is Ok <==> journeys_resolve(data@),
        res matches Err(e) ==> reference_fails(data@, e),
{
    let mut d: usize = 0;
    while d < data.len()
        invariant
            0 <= d <= data@.len(),
            forall|d2: int, i: int|
                0 <= d2 < d && 0 <= i < data@[d2].service_journeys@.len() ==> journey_resolves(
                    data@,
                    #[trigger] data@[d2].service_journeys@[i],
                ),
        decreases data@.len() - d,
    {
        let js = &data[d].service_journeys;
        let mut i: usize = 0;
        while i < js.len()
            invariant
                0 <= d < data@.len(),
                *js == data@[d as int].service_journeys,
                0 <= i <= js@.len(),
                forall|d2: int, i2: int|
                    0 <= d2 < d && 0 <= i2 < data@[d2].service_journeys@.len() ==> journey_resolves(
                        data@,
                        #[trigger] data@[d2].service_journeys@[i2],
                    ),
                forall|i2: int| 0 <= i2 < i ==> journey_resolves(data@, #[trigger] js@[i2]),
            decreases js@.len() - i,
        {
            let j = &js[i];
            assert(data@[d as int].service_journeys@[i as int] == *j);
            if find_assignment(data, j.day_type).is_none() {
                return Err(CompileError::MissingCalendarAssignment(j.day_type));
            }
            let pts = &j.passing_times;
            let mut t: usize = 0;
            while t < pts.len()
                invariant
                    0 <= d < data@.len(),
                    *js == data@[d as int].service_journeys,
                    0 <= i < js@.len(),
                    *j == js@[i as int],
                    *pts == j.passing_times,
                    0 <= t <= pts@.len(),
                    forall|t2: int|
                        0 <= t2 < t ==> point_of(
                            data@,
                            (#[trigger] pts@[t2]).stop_point_in_journey_pattern,
                        ) is Some,
                decreases pts@.len() - t,
            {
                let point = pts[t].stop_point_in_journey_pattern;
                if find_point(data, point).is_none() {
                    proof {
                        assert(data@[d as int].service_journeys@[i as int].passing_times@[t as int]
                            == pts@[t as int]);
                    }
                    return Err(CompileError::UnresolvedStopReference(point));
                }
                t = t + 1;
            }
            i = i + 1;
        }
        d = d + 1;
    }
    Ok(())
}

} // verus!
