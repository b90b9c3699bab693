//! Temperature readings and the report computation over a batch of them:
//! given recordings sorted by time, find the largest temperature difference
//! between two readings that lie within the comparison window.

use vstd::prelude::*;
use rand::RngExt;

verus! {

pub const ONE_MINUTE_MS: u64 = 60000;

/// Every simulated minute is compressed by this factor.
pub const SPEEDUP_FACTOR: u64 = 250;

/// Two recordings are compared only if they lie within ten (scaled)
/// minutes of one another.
pub const COMPARE_INTERVAL_MS: u64 = (ONE_MINUTE_MS * 10) / SPEEDUP_FACTOR;

/// The coldest reading a sensor can produce.
pub const MIN_SENSOR_TEMP: i64 = -100;

/// The hottest reading a sensor can produce.
pub const MAX_SENSOR_TEMP: i64 = 70;

/// One sensor reading: a temperature and the (millisecond) instant it was
/// taken.
#[derive(Clone, Copy, Debug)]
pub struct Recording {
    pub temperature: i64,
    pub timestamp: u64,
}

/// A reading's temperature lies within what a sensor can produce.
pub open spec fn sensor_range(r: Recording) -> bool {
    MIN_SENSOR_TEMP <= r.temperature <= MAX_SENSOR_TEMP
}

/// Relies on rand's `RngExt::random_range` over a non-empty inclusive range
/// (it asserts the range is non-empty, then samples uniformly from it): the
/// result lies within the bounds.
#[verifier::external_body]
fn random_in_range(lo: i64, hi: i64) -> (r: i64)
    requires
        lo <= hi,
    ensures
        lo <= r <= hi,
{
    rand::rng().random_range(lo..=hi)
}

/// Relies on `std::time::SystemTime::now`, converted to milliseconds since
/// the Unix epoch via `duration_since`; nothing is assumed of the value.
#[verifier::external_body]
fn now_millis() -> u64 {
    std::time::SystemTime::now()
        .duration_since(std::time::UNIX_EPOCH)
        .map(|d| d.as_millis() as u64)
        .unwrap_or(0)
}

impl Recording {
    /// A fresh reading: a uniformly random sensor temperature, stamped with
    /// the current time.
    pub fn new() -> (r: Recording)
        ensures
            sensor_range(r),
    {
        Recording { temperature: random_in_range(MIN_SENSOR_TEMP, MAX_SENSOR_TEMP), timestamp: now_millis() }
    }
}

/// The recordings are in (non-strictly) ascending timestamp order.
pub open spec fn by_timestamp(rs: Seq<Recording>) -> bool {
    forall|i: int, j: int| 0 <= i < j < rs.len() ==> rs[i].timestamp <= rs[j].timestamp
}

/// The pair `(i, j)` is compared: `j` comes after `i` and within the
/// comparison window.
pub open spec fn comparable(rs: Seq<Recording>, i: int, j: int) -> bool {
    &&& 0 <= i < j < rs.len()
    &&& rs[j].timestamp - rs[i].timestamp <= COMPARE_INTERVAL_MS
}

/// The absolute temperature difference between the two recordings of a pair.
pub open spec fn temp_gap(rs: Seq<Recording>, i: int, j: int) -> int {
    vstd::math::abs(rs[j].temperature - rs[i].temperature) as int
}

/// `(a, b)` is examined before `(i, j)` in the scan order: outer index
/// first, then inner index.
pub open spec fn scanned_before(a: int, b: int, i: int, j: int) -> bool {
    a < i || (a == i && b < j)
}

/// The pair the scan reports: comparable, of maximal temperature gap, and
/// the first pair in scan order to attain that gap.
pub open spec fn reported_pair(rs: Seq<Recording>, i: int, j: int) -> bool {
    &&& comparable(rs, i, j)
    &&& forall|a: int, b: int| comparable(rs, a, b) ==> temp_gap(rs, a, b) <= temp_gap(rs, i, j)
    &&& forall|a: int, b: int|
        comparable(rs, a, b) && scanned_before(a, b, i, j) ==> temp_gap(rs, a, b) < temp_gap(
            rs,
            i,
            j,
        )
}

/// Compare every recording against each later recording within the
/// comparison window, and report the pair with the largest absolute
/// temperature difference: its two timestamps and the difference. The first
/// such pair in scan order wins; none is reported when no two recordings lie
/// within the window.
pub fn find_largest_temp_difference(recordings: &Vec<Recording>) -> (result: Option<
    (u64, u64, i64),
>)
    requires
        by_timestamp(recordings@),
        forall|k: int| 0 <= k < recordings@.len() ==> sensor_range(#[trigger] recordings@[k]),
    ensures
        (result is Some) == exists|i: int, j: int| comparable(recordings@, i, j),
        result matches Some((start, end, diff)) ==> exists|i: int, j: int|
            {
                &&& #[trigger] reported_pair(recordings@, i, j)
                &&& recordings@[i].timestamp == start
                &&& recordings@[j].timestamp == end
                &&& temp_gap(recordings@, i, j) == diff
            },
{
    let ghost rs = recordings@;
    let mut result: Option<(u64, u64, i64)> = None;
    let ghost mut best_i: int = 0;
    let ghost mut best_j: int = 0;
    let mut index: usize = 0;
    while index < recordings.len()
        invariant
            by_timestamp(rs),
            forall|k: int| 0 <= k < rs.len() ==> sensor_range(#[trigger] rs[k]),
            rs == recordings@,
            0 <= index <= rs.len(),
            (result is None) ==> forall|a: int, b: int|
                #[trigger] comparable(rs, a, b) ==> a >= index,
            result matches Some((start, end, diff)) ==> {
                &&& comparable(rs, best_i, best_j)
                &&& best_i < index
                &&& rs[best_i].timestamp == start
                &&& rs[best_j].timestamp == end
                &&& temp_gap(rs, best_i, best_j) == diff
                &&& MIN_SENSOR_TEMP - MAX_SENSOR_TEMP <= diff <= MAX_SENSOR_TEMP
                    - MIN_SENSOR_TEMP
                &&& forall|a: int, b: int|
                    #[trigger] comparable(rs, a, b) && a < index ==> temp_gap(rs, a, b)
                        <= temp_gap(rs, best_i, best_j)
                &&& forall|a: int, b: int|
                    #[trigger] comparable(rs, a, b) && scanned_before(a, b, best_i, best_j)
                        ==> temp_gap(rs, a, b) < temp_gap(rs, best_i, best_j)
            },
        decreases rs.len() - index,
    {
        let start_time = recordings[index].timestamp;
        let start_temp = recordings[index].temperature;
        let mut j: usize = index + 1;
        while j < recordings.len()
            invariant
                by_timestamp(rs),
                forall|k: int| 0 <= k < rs.len() ==> sensor_range(#[trigger] rs[k]),
                rs == recordings@,
                0 <= index < rs.len(),
                index < j <= rs.len(),
                start_time == rs[index as int].timestamp,
                start_temp == rs[index as int].temperature,
                (result is None) ==> forall|a: int, b: int|
                    #[trigger] comparable(rs, a, b) ==> a > index || (a == index && b >= j),
                result matches Some((start, end, diff)) ==> {
                    &&& comparable(rs, best_i, best_j)
                    &&& scanned_before(best_i, best_j, index as int, j as int)
                    &&& rs[best_i].timestamp == start
                    &&& rs[best_j].timestamp == end
                    &&& temp_gap(rs, best_i, best_j) == diff
                    &&& MIN_SENSOR_TEMP - MAX_SENSOR_TEMP <= diff <= MAX_SENSOR_TEMP
                        - MIN_SENSOR_TEMP
                    &&& forall|a: int, b: int|
                        #[trigger] comparable(rs, a, b) && scanned_before(a, b, index as int, j as int)
                            ==> temp_gap(rs, a, b) <= temp_gap(rs, best_i, best_j)
                    &&& forall|a: int, b: int|
                        #[trigger] comparable(rs, a, b) && scanned_before(a, b, best_i, best_j)
                            ==> temp_gap(rs, a, b) < temp_gap(rs, best_i, best_j)
                },
            ensures
                rs == recordings@,
                index < j <= rs.len(),
                forall|b: int| j <= b < rs.len() ==> !comparable(rs, index as int, b),
                (result is None) ==> forall|a: int, b: int|
                    #[trigger] comparable(rs, a, b) ==> a > index,
                result matches Some((start, end, diff)) ==> {
                    &&& comparable(rs, best_i, best_j)
                    &&& best_i <= index
                    &&& rs[best_i].timestamp == start
                    &&& rs[best_j].timestamp == end
                    &&& temp_gap(rs, best_i, best_j) == diff
                    &&& MIN_SENSOR_TEMP - MAX_SENSOR_TEMP <= diff <= MAX_SENSOR_TEMP
                        - MIN_SENSOR_TEMP
                    &&& forall|a: int, b: int|
                        #[trigger] comparable(rs, a, b) && a <= index ==> temp_gap(rs, a, b)
                            <= temp_gap(rs, best_i, best_j)
                    &&& forall|a: int, b: int|
                        #[trigger] comparable(rs, a, b) && scanned_before(a, b, best_i, best_j)
                            ==> temp_gap(rs, a, b) < temp_gap(rs, best_i, best_j)
                },
            decreases rs.len() - j,
        {
            let end_time = recordings[j].timestamp;
            if end_time - start_time > COMPARE_INTERVAL_MS {
                proof {
                    assert forall|b: int| j <= b < rs.len() implies !comparable(
                        rs,
                        index as int,
                        b,
                    ) by {
                        if b > j {
                            assert(rs[j as int].timestamp <= rs[b].timestamp);
                        }
                    }
                }
                break;
            }
            let end_temp = recordings[j].temperature;
            let signed_gap = end_temp - start_temp;
            let current_diff = if signed_gap >= 0 {
                signed_gap
            } else {
                -signed_gap
            };
            proof {
                assert(comparable(rs, index as int, j as int));
                assert(current_diff == temp_gap(rs, index as int, j as int));
            }
            match result {
                Some((_, _, previous_diff)) => {
                    if current_diff > previous_diff {
                        result = Some((start_time, end_time, current_diff));
                        proof {
                            best_i = index as int;
                            best_j = j as int;
                        }
                    }
                },
                None => {
                    result = Some((start_time, end_time, current_diff));
                    proof {
                        best_i = index as int;
                        best_j = j as int;
                    }
                },
            }
            j += 1;
        }
        index += 1;
    }
    proof {
        if result is Some {
            assert(comparable(rs, best_i, best_j));
            assert(reported_pair(rs, best_i, best_j));
        }
    }
    result
}

} // verus!
