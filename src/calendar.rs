use vstd::prelude::*;

use crate::error::CompileError;
use crate::graph::{Edge, Journey, OperatingPeriod, Timetable};
use crate::parser::{NetexData, UicOperatingPeriod};
use crate::resolve::{all_periods, lookup_operating_period};

verus! {

/// The standard, padded base64 text of a byte sequence.
pub uninterp spec fn base64_of(b: Seq<u8>) -> Seq<char>;

/// Relies on `base64::encode` (standard alphabet, with padding): the result
/// depends on the bytes alone, and is four ASCII characters per started
/// group of three bytes (`encoded_size` with padding). It panics only when
/// the encoded length overflows `usize`, which no byte vector in memory can
/// reach.
#[verifier::external_body]
fn encode_base64(b: &Vec<u8>) -> (r: String)
    ensures
        r@ == base64_of(b@),
        r@.len() == 4 * ((b@.len() + 2) / 3),
{
    base64::encode(b)
}

fn copy_bytes(b: &Vec<u8>) -> (r: Vec<u8>)
    ensures
        r@ == b@,
{
    let mut r: Vec<u8> = Vec::new();
    let mut i: usize = 0;
    while i < b.len()
        invariant
            0 <= i <= b@.len(),
            r@ == b@.subrange(0, i as int),
        decreases b@.len() - i,
    {
        r.push(b[i]);
        assert(r@ =~= b@.subrange(0, i + 1));
        i = i + 1;
    }
    assert(b@.subrange(0, i as int) =~= b@);
    r
}

/// An edge-local period made from a global one: dates and raw day bits
/// copied, plus the base64 text of the day bits.
pub open spec fn period_from(p: OperatingPeriod, u: UicOperatingPeriod) -> bool {
    &&& p.from == u.from
    &&& p.to == u.to
    &&& p.valid_day@ == u.valid_day_bits@
    &&& p.valid_day_bits@ == base64_of(u.valid_day_bits@)
    &&& p.valid_day_bits@.len() == 4 * ((u.valid_day_bits@.len() + 2) / 3)
}

pub fn local_period(u: &UicOperatingPeriod) -> (p: OperatingPeriod)
    ensures
        period_from(p, *u),
{
    OperatingPeriod {
        from: u.from,
        to: u.to,
        valid_day_bits: encode_base64(&u.valid_day_bits),
        valid_day: copy_bytes(&u.valid_day_bits),
    }
}

fn position(v: &Vec<usize>, x: usize) -> (r: Option<usize>)
    ensures
        r matches Some(i) ==> i < v@.len() && v@[i as int] == x,
        r is None ==> !v@.contains(x),
{
    let mut i: usize = 0;
    while i < v.len()
        invariant
            0 <= i <= v@.len(),
            forall|k: int| 0 <= k < i ==> v@[k] != x,
        decreases v@.len() - i,
    {
        if v[i] == x {
            return Some(i);
        }
        i = i + 1;
    }
    None
}

/// The compacted timetable of an edge: the same journeys in the same order,
/// each now naming a local period; local periods are exactly those used,
/// numbered from 0 without gaps, each built from the global period that the
/// journey named before.
pub open spec fn compacted(before: Edge, after: Edge, data: Seq<NetexData>) -> bool {
    let js0 = before.timetable.journeys@;
    let js = after.timetable.journeys@;
    let ps = after.timetable.periods@;
    &&& after.start_node == before.start_node
    &&& after.end_node == before.end_node
    &&& js.len() == js0.len()
    &&& forall|k: int|
        0 <= k < js.len() ==> {
            &&& (#[trigger] js[k]).operating_period < ps.len()
            &&& same_but_period(js[k], js0[k])
            &&& period_from(ps[js[k].operating_period as int], all_periods(data)[js0[k].operating_period as int])
        }
    &&& forall|l: int| 0 <= l < ps.len() ==> #[trigger] uses_period(js, l)
    &&& forall|k: int, k2: int|
        0 <= k < js.len() && 0 <= k2 < js.len() ==> ((#[trigger] js[k]).operating_period == (
        #[trigger] js[k2]).operating_period <==> js0[k].operating_period
            == js0[k2].operating_period)
    &&& first_use_order(js)
}

/// Local periods are numbered in order of first use: a journey naming
/// period `l > 0` comes after some journey naming `l - 1`.
pub open spec fn first_use_order(js: Seq<Journey>) -> bool {
    forall|k: int|
        0 <= k < js.len() && js[k].operating_period > 0 ==> #[trigger] used_before(js, k)
}

pub open spec fn used_before(js: Seq<Journey>, k: int) -> bool {
    exists|k2: int| 0 <= k2 < k && js[k2].operating_period + 1 == js[k].operating_period
}

pub open spec fn same_but_period(a: Journey, b: Journey) -> bool {
    &&& a.departure == b.departure
    &&& a.arrival == b.arrival
    &&& a.transport_mode@ == b.transport_mode@
    &&& a.line@ == b.line@
    &&& a.controller@ == b.controller@
}

/// Some journey of `js` names local period `l`.
pub open spec fn uses_period(js: Seq<Journey>, l: int) -> bool {
    exists|k: int| 0 <= k < js.len() && js[k].operating_period == l
}

/// One of the first `n` journeys of `js` names global period `g`.
pub open spec fn named_by(js: Seq<Journey>, n: int, g: usize) -> bool {
    exists|k: int| 0 <= k < n && js[k].operating_period == g
}

/// Replaces an edge's global period indices by local ones, numbered from 0
/// in order of first use, and builds the edge's period table. Fails with
/// `MissingOperatingPeriod` exactly when a journey names a global index that
/// no operating period has.
pub fn compact_timetable(edge: Edge, data: &[NetexData]) -> (res: Result<Edge, CompileError>)
    ensures
        res is Ok <==> forall|k: int|
            0 <= k < edge.timetable.journeys@.len()
                ==> (#[trigger] edge.timetable.journeys@[k]).operating_period < all_periods(
                data@,
            ).len(),
        res matches Ok(e) ==> compacted(edge, e, data@),
        res matches Err(err) ==> exists|k: int|
            0 <= k < edge.timetable.journeys@.len() && (#[trigger] edge.timetable.journeys@[k]).operating_period
                >= all_periods(data@).len() && err == CompileError::MissingOperatingPeriod(
                edge.timetable.journeys@[k].operating_period as u64,
            ),
{
    let Edge { start_node, end_node, timetable } = edge;
    let Timetable { journeys, periods: _ } = timetable;
    let ghost js0 = journeys@;
    let ghost np = all_periods(data@).len();
    let mut journeys = journeys;
    let mut globals: Vec<usize> = Vec::new();
    let ghost mut firsts: Seq<int> = Seq::empty();
    let mut k: usize = 0;
    while k < journeys.len()
        invariant
            journeys@ == js0,
            js0 == edge.timetable.journeys@,
            0 <= k <= js0.len(),
            globals@.no_duplicates(),
            forall|k2: int| 0 <= k2 < k ==> globals@.contains(#[trigger] js0[k2].operating_period),
            forall|l: int| 0 <= l < globals@.len() ==> #[trigger] named_by(js0, k as int, globals@[l]),
            firsts.len() == globals@.len(),
            forall|l: int|
                0 <= l < globals@.len() ==> 0 <= #[trigger] firsts[l] < k && js0[firsts[l]].operating_period
                    == globals@[l] && forall|k3: int|
                    0 <= k3 < firsts[l] ==> js0[k3].operating_period != globals@[l],
            forall|l: int| 0 < l < globals@.len() ==> firsts[l - 1] < #[trigger] firsts[l],
        decreases js0.len() - k,
    {
        let g = journeys[k].operating_period;
        let ghost before = globals@;
        if position(&globals, g).is_none() {
            globals.push(g);
            proof {
                assert forall|k3: int| 0 <= k3 < k implies js0[k3].operating_period != g by {
                    if js0[k3].operating_period == g {
                        assert(before.contains(js0[k3].operating_period));
                    }
                }
                firsts = firsts.push(k as int);
            }
            assert(globals@[before.len() as int] == g);
            assert forall|a: int, b: int|
                0 <= a < globals@.len() && 0 <= b < globals@.len() && a != b implies globals@[a]
                != globals@[b] by {
                if a < before.len() && b < before.len() {
                } else if a < before.len() {
                    assert(before.contains(before[a]));
                } else {
                    assert(before.contains(before[b]));
                }
            }
        } else {
            assert(globals@.contains(g));
        }
        assert forall|k2: int| 0 <= k2 < k + 1 implies globals@.contains(
            #[trigger] js0[k2].operating_period,
        ) by {
            if k2 < k {
                let i = choose|i: int| 0 <= i < before.len() && before[i] == js0[k2].operating_period;
                assert(globals@[i] == js0[k2].operating_period);
            }
        }
        assert forall|l: int| 0 <= l < globals@.len() implies #[trigger] named_by(
            js0,
            k + 1,
            globals@[l],
        ) by {
            if l < before.len() {
                assert(named_by(js0, k as int, before[l]));
                let k2 = choose|k2: int| 0 <= k2 < k && js0[k2].operating_period == before[l];
                assert(js0[k2].operating_period == globals@[l]);
            } else {
                assert(js0[k as int].operating_period == globals@[l]);
            }
        }
        k = k + 1;
    }
    let mut periods: Vec<OperatingPeriod> = Vec::new();
    let mut l: usize = 0;
    while l < globals.len()
        invariant
            0 <= l <= globals@.len(),
            journeys@ == js0,
            js0 == edge.timetable.journeys@,
            k == js0.len(),
            np == all_periods(data@).len(),
            globals@.no_duplicates(),
            forall|k2: int| 0 <= k2 < k ==> globals@.contains(#[trigger] js0[k2].operating_period),
            forall|l2: int| 0 <= l2 < globals@.len() ==> #[trigger] named_by(js0, k as int, globals@[l2]),
            periods@.len() == l,
            firsts.len() == globals@.len(),
            forall|l: int|
                0 <= l < globals@.len() ==> 0 <= #[trigger] firsts[l] < k && js0[firsts[l]].operating_period
                    == globals@[l] && forall|k3: int|
                    0 <= k3 < firsts[l] ==> js0[k3].operating_period != globals@[l],
            forall|l: int| 0 < l < globals@.len() ==> firsts[l - 1] < #[trigger] firsts[l],
            forall|l2: int| 0 <= l2 < l ==> #[trigger] globals@[l2] < np,
            forall|l2: int|
                0 <= l2 < l ==> period_from(
                    #[trigger] periods@[l2],
                    all_periods(data@)[globals@[l2] as int],
                ),
        decreases globals@.len() - l,
    {
        match lookup_operating_period(data, globals[l]) {
            None => {
                assert(globals@[l as int] >= all_periods(data@).len());
                assert(named_by(js0, k as int, globals@[l as int]));
                let ghost k2 = choose|k2: int|
                    0 <= k2 < k && js0[k2].operating_period == globals@[l as int];
                assert(edge.timetable.journeys@[k2].operating_period >= np);
                return Err(CompileError::MissingOperatingPeriod(globals[l] as u64));
            },
            Some(u) => {
                let p = local_period(u);
                assert(globals@[l as int] < np);
                assert(*u == all_periods(data@)[globals@[l as int] as int]);
                let ghost before = periods@;
                periods.push(p);
                assert forall|l2: int|
                    0 <= l2 < l + 1 implies period_from(
                        #[trigger] periods@[l2],
                        all_periods(data@)[globals@[l2] as int],
                    ) by {
                    if l2 < l {
                        assert(periods@[l2] == before[l2]);
                    }
                }
            },
        }
        l = l + 1;
    }
    assert(l == globals@.len());
    let mut i: usize = 0;
    while i < journeys.len()
        invariant
            0 <= i <= js0.len(),
            journeys@.len() == js0.len(),
            js0 == edge.timetable.journeys@,
            k == js0.len(),
            np == all_periods(data@).len(),
            globals@.no_duplicates(),
            forall|k2: int| 0 <= k2 < k ==> globals@.contains(#[trigger] js0[k2].operating_period),
            forall|l2: int| 0 <= l2 < globals@.len() ==> #[trigger] named_by(js0, k as int, globals@[l2]),
            periods@.len() == globals@.len(),
            firsts.len() == globals@.len(),
            forall|l: int|
                0 <= l < globals@.len() ==> 0 <= #[trigger] firsts[l] < k && js0[firsts[l]].operating_period
                    == globals@[l] && forall|k3: int|
                    0 <= k3 < firsts[l] ==> js0[k3].operating_period != globals@[l],
            forall|l: int| 0 < l < globals@.len() ==> firsts[l - 1] < #[trigger] firsts[l],
            forall|l2: int| 0 <= l2 < globals@.len() ==> #[trigger] globals@[l2] < np,
            forall|l2: int|
                0 <= l2 < globals@.len() ==> period_from(
                    #[trigger] periods@[l2],
                    all_periods(data@)[globals@[l2] as int],
                ),
            forall|k2: int|
                0 <= k2 < i ==> {
                    &&& (#[trigger] journeys@[k2]).operating_period < globals@.len()
                    &&& globals@[journeys@[k2].operating_period as int] == js0[k2].operating_period
                    &&& same_but_period(journeys@[k2], js0[k2])
                },
            forall|k2: int| i <= k2 < js0.len() ==> #[trigger] journeys@[k2] == js0[k2],
        decreases js0.len() - i,
    {
        let g = journeys[i].operating_period;
        assert(globals@.contains(js0[i as int].operating_period));
        let local = match position(&globals, g) {
            Some(p) => p,
            None => 0,
        };
        journeys[i].operating_period = local;
        i = i + 1;
    }
    let result = Edge { start_node, end_node, timetable: Timetable { journeys, periods } };
    proof {
        let js = result.timetable.journeys@;
        assert forall|k1: int, k2: int| 0 <= k1 < js.len() && 0 <= k2 < js.len() implies ((
        #[trigger] js[k1]).operating_period == (#[trigger] js[k2]).operating_period
            <==> js0[k1].operating_period == js0[k2].operating_period) by {
            assert(globals@[js[k1].operating_period as int] == js0[k1].operating_period);
            assert(globals@[js[k2].operating_period as int] == js0[k2].operating_period);
        }
        assert forall|k1: int|
            0 <= k1 < js.len() && js[k1].operating_period > 0 implies #[trigger] used_before(
            js,
            k1,
        ) by {
            let l = js[k1].operating_period as int;
            assert(globals@[l] == js0[k1].operating_period);
            assert(firsts[l - 1] < firsts[l]);
            assert(firsts[l] <= k1);
            let k2 = firsts[l - 1];
            assert(globals@[js[k2].operating_period as int] == js0[k2].operating_period);
            assert(js0[k2].operating_period == globals@[l - 1]);
            assert(js[k2].operating_period == l - 1);
        }
        assert forall|l2: int| 0 <= l2 < periods@.len() implies #[trigger] uses_period(js, l2) by {
            assert(named_by(js0, k as int, globals@[l2]));
            let k2 = choose|k2: int| 0 <= k2 < k && js0[k2].operating_period == globals@[l2];
            assert(globals@[js[k2].operating_period as int] == globals@[l2]);
            assert(js[k2].operating_period == l2);
        }
        assert forall|k2: int| 0 <= k2 < js0.len() implies (#[trigger] js0[k2]).operating_period
            < np by {
            assert(globals@.contains(js0[k2].operating_period));
            let l2 = choose|l2: int| 0 <= l2 < globals@.len() && globals@[l2] == js0[k2].operating_period;
            assert(globals@[l2] < np);
        }
    }
    Ok(result)
}

} // verus!
