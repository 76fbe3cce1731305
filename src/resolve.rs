//! Resolution of an invocation to one wake instant: the earliest of its
//! candidates.
use vstd::prelude::*;
use crate::clock::{local_midnight_ms, now_ms};
use crate::clock_time::{clock_time_of, parse_clock_time, ClockTimeError, DAY_MS};
use crate::duration::saturate;
use crate::switches::Invocation;

verus! {

/// The texts of the `--at` entries.
pub open spec fn at_views(at: Seq<String>) -> Seq<Seq<char>> {
    at.map_values(|s: String| s@)
}

/// Every entry reads as a time of day.
pub open spec fn all_valid(at: Seq<Seq<char>>) -> bool {
    forall|i: int| 0 <= i < at.len() ==> (#[trigger] clock_time_of(at[i])) is Ok
}

/// Index of the first entry that does not read as a time of day, or the length.
pub open spec fn first_invalid(at: Seq<Seq<char>>) -> nat
    decreases at.len(),
{
    if at.len() == 0 || clock_time_of(at[0]) is Err {
        0
    } else {
        1 + first_invalid(at.drop_first())
    }
}

/// The instant of a time of day: today's, or tomorrow's where today's is
/// not later than `now`.
pub open spec fn day_candidate(ms_of_day: nat, now: nat, midnight: nat) -> nat {
    if midnight + ms_of_day <= now {
        (midnight + ms_of_day + DAY_MS) as nat
    } else {
        midnight + ms_of_day
    }
}

/// The candidate instant of one `--at` entry.
pub open spec fn time_candidate(s: Seq<char>, now: nat, midnight: nat) -> nat {
    day_candidate(clock_time_of(s)->Ok_0.spec_ms_of_day(), now, midnight)
}

/// Every candidate wake instant, in order: the duration's, the next
/// midnight's, then one for each `--at` entry. Days are taken as 24 hours
/// from the start of the current local day, so on a day on which the local
/// offset changes, "next midnight" and the rolled times are off by that change.
pub open spec fn candidates(
    duration: Option<u64>,
    midnight_flag: bool,
    at: Seq<Seq<char>>,
    now: nat,
    midnight: nat,
) -> Seq<nat> {
    let d = match duration {
        Some(d) => seq![(now + d) as nat],
        None => Seq::empty(),
    };
    let m = if midnight_flag {
        seq![(midnight + DAY_MS) as nat]
    } else {
        Seq::empty()
    };
    d + m + at.map_values(|s: Seq<char>| time_candidate(s, now, midnight))
}

/// The least element; 0 for an empty sequence.
pub open spec fn min_of(s: Seq<nat>) -> nat
    decreases s.len(),
{
    if s.len() == 0 {
        0
    } else if s.len() == 1 {
        s[0]
    } else if s.last() < min_of(s.drop_last()) {
        s.last()
    } else {
        min_of(s.drop_last())
    }
}

/// The wake instant of an invocation at `now`, with `midnight` the start of
/// the current local day.
pub open spec fn target_of(inv: &Invocation, now: u64, midnight: u64) -> nat {
    min_of(
        candidates(
            inv.duration_ms,
            inv.midnight,
            at_views(inv.at_times@),
            now as nat,
            midnight as nat,
        ),
    )
}

/// An `--at` entry that does not read as a time of day.
#[derive(Debug)]
pub struct TimeError {
    /// The entry as written.
    pub token: String,
    /// Why it was rejected.
    pub kind: ClockTimeError,
}

/// Why an invocation could not be resolved.
#[derive(Debug)]
pub enum ResolveError {
    /// An `--at` entry does not read.
    Time(TimeError),
    /// The local zone has no midnight to start the current day from.
    NoLocalMidnight,
}

proof fn lemma_min_of_push(s: Seq<nat>, x: nat)
    ensures
        min_of(s.push(x)) == if s.len() == 0 {
            x
        } else if x < min_of(s) {
            x
        } else {
            min_of(s)
        },
{
    assert(s.push(x).drop_last() =~= s);
}

proof fn lemma_first_invalid(at: Seq<Seq<char>>, i: int)
    requires
        0 <= i <= at.len(),
        forall|j: int| 0 <= j < i ==> (#[trigger] clock_time_of(at[j])) is Ok,
        i == at.len() || clock_time_of(at[i]) is Err,
    ensures
        first_invalid(at) == i,
    decreases i,
{
    if i > 0 {
        let w = at.drop_first();
        assert forall|j: int| 0 <= j < i - 1 implies (#[trigger] clock_time_of(w[j])) is Ok by {
            assert(w[j] == at[j + 1]);
            assert(clock_time_of(at[j + 1]) is Ok);
        }
        assert(clock_time_of(at[0]) is Ok);
        lemma_first_invalid(w, i - 1);
    }
}

/// The earliest of `best` and `x`.
fn earlier(best: Option<u128>, x: u128) -> (r: Option<u128>)
    ensures
        r == Some(
            match best {
                Some(b) => if x < b {
                    x
                } else {
                    b
                },
                None => x,
            },
        ),
{
    match best {
        Some(b) => if x < b {
            Some(x)
        } else {
            Some(b)
        },
        None => Some(x),
    }
}

/// Resolves an invocation to its wake instant, given the current instant
/// `now` and the start `midnight_today` of the current local day: the
/// earliest of `now + duration`, the next midnight, and each `--at` time
/// (rolled to tomorrow where today's is not later than `now`). Fails on the
/// first `--at` entry that does not read.
pub fn resolve_target(inv: &Invocation, now: u64, midnight_today: u64) -> (r: Result<
    u64,
    TimeError,
>)
    ensures
        ({
            let at = at_views(inv.at_times@);
            match r {
                Ok(t) => all_valid(at) && t == saturate(target_of(inv, now, midnight_today)),
                Err(e) => {
                    &&& first_invalid(at) < at.len()
                    &&& e.token@ == at[first_invalid(at) as int]
                    &&& clock_time_of(at[first_invalid(at) as int]) == Err::<
                        crate::clock_time::ClockTime,
                        ClockTimeError,
                    >(e.kind)
                },
            }
        }),
{
    let ghost at = at_views(inv.at_times@);
    let ghost mut seen: Seq<nat> = Seq::empty();
    let mut best: Option<u128> = None;
    if let Some(d) = inv.duration_ms {
        let x = now as u128 + d as u128;
        proof {
            lemma_min_of_push(seen, x as nat);
            seen = seen.push(x as nat);
        }
        best = earlier(best, x);
    }
    if inv.midnight {
        let x = midnight_today as u128 + DAY_MS as u128;
        proof {
            lemma_min_of_push(seen, x as nat);
            seen = seen.push(x as nat);
        }
        best = earlier(best, x);
    }
    let ghost head = seen;
    let n = inv.at_times.len();
    let mut i: usize = 0;
    while i < n
        invariant
            n == inv.at_times@.len() == at.len(),
            at == at_views(inv.at_times@),
            i <= n,
            forall|j: int| 0 <= j < i ==> (#[trigger] clock_time_of(at[j])) is Ok,
            seen =~= head + at.subrange(0, i as int).map_values(
                |s: Seq<char>| time_candidate(s, now as nat, midnight_today as nat),
            ),
            head.len() == 0 ==> best.is_none() == (i == 0),
            head.len() > 0 ==> best.is_some(),
            best matches Some(b) ==> b == min_of(seen),
            head == (match inv.duration_ms {
                Some(d) => seq![(now + d) as nat],
                None => Seq::<nat>::empty(),
            }) + (if inv.midnight {
                seq![(midnight_today + DAY_MS) as nat]
            } else {
                Seq::<nat>::empty()
            }),
        decreases n - i,
    {
        let entry = &inv.at_times[i];
        assert(at[i as int] == entry@);
        match parse_clock_time(entry.as_str()) {
            Err(kind) => {
                proof {
                    lemma_first_invalid(at, i as int);
                }
                return Err(TimeError { token: entry.clone(), kind });
            },
            Ok(ct) => {
                let today = midnight_today as u128 + ct.ms_of_day() as u128;
                let x = if today <= now as u128 {
                    today + DAY_MS as u128
                } else {
                    today
                };
                proof {
                    assert(x == time_candidate(at[i as int], now as nat, midnight_today as nat));
                    lemma_min_of_push(seen, x as nat);
                    seen = seen.push(x as nat);
                    assert(at.subrange(0, i + 1) =~= at.subrange(0, i as int).push(at[i as int]));
                }
                best = earlier(best, x);
                i = i + 1;
            },
        }
    }
    proof {
        lemma_first_invalid(at, n as int);
        assert(at.subrange(0, n as int) =~= at);
        assert(seen =~= candidates(
            inv.duration_ms,
            inv.midnight,
            at,
            now as nat,
            midnight_today as nat,
        ));
    }
    match best {
        None => Ok(0),
        Some(b) => if b > u64::MAX as u128 {
            Ok(u64::MAX)
        } else {
            Ok(b as u64)
        },
    }
}

/// Resolves an invocation against the wall clock: samples the current
/// instant once, finds where the current local day began, and resolves.
/// Where only a duration is given the result is always `Ok`.
pub fn process_time(inv: &Invocation) -> (r: Result<u64, ResolveError>)
    ensures
        ({
            let at = at_views(inv.at_times@);
            &&& !inv.midnight && at.len() == 0 ==> r is Ok
            &&& match r {
                Ok(t) => all_valid(at) && exists|now: u64, midnight: u64|
                    t == saturate(#[trigger] target_of(inv, now, midnight)),
                Err(ResolveError::Time(e)) => {
                    &&& first_invalid(at) < at.len()
                    &&& e.token@ == at[first_invalid(at) as int]
                    &&& clock_time_of(at[first_invalid(at) as int]) == Err::<
                        crate::clock_time::ClockTime,
                        ClockTimeError,
                    >(e.kind)
                },
                Err(ResolveError::NoLocalMidnight) => inv.midnight || at.len() > 0,
            }
        }),
{
    let now = now_ms();
    let midnight_today = if !inv.midnight && inv.at_times.len() == 0 {
        0
    } else {
        match local_midnight_ms(now) {
            Some(m) => m,
            None => {
                return Err(ResolveError::NoLocalMidnight);
            },
        }
    };
    match resolve_target(inv, now, midnight_today) {
        Ok(t) => {
            assert(t == saturate(target_of(inv, now, midnight_today)));
            Ok(t)
        },
        Err(e) => Err(ResolveError::Time(e)),
    }
}

/// The least element of a non-empty sequence is one of its elements and no
/// greater than any of them.
pub proof fn lemma_min_of(s: Seq<nat>)
    requires
        s.len() > 0,
    ensures
        s.contains(min_of(s)),
        forall|i: int| 0 <= i < s.len() ==> min_of(s) <= #[trigger] s[i],
    decreases s.len(),
{
    if s.len() == 1 {
        assert(s[0] == min_of(s));
    } else {
        let t = s.drop_last();
        lemma_min_of(t);
        let j = choose|j: int| 0 <= j < t.len() && t[j] == min_of(t);
        if s.last() < min_of(t) {
            assert(s[s.len() - 1] == min_of(s));
        } else {
            assert(s[j] == min_of(s));
        }
        assert forall|i: int| 0 <= i < s.len() implies min_of(s) <= #[trigger] s[i] by {
            if i < s.len() - 1 {
                assert(s[i] == t[i]);
            }
        }
    }
}

/// Earliest wins: for an invocation with something to wait for, the wake
/// instant is one of its candidates (the duration's end, the next midnight,
/// each `--at` time rolled past `now`) and no later than any of them.
pub proof fn lemma_earliest_wins(inv: &Invocation, now: u64, midnight: u64)
    requires
        inv.wf(),
    ensures
        ({
            let c = candidates(
                inv.duration_ms,
                inv.midnight,
                at_views(inv.at_times@),
                now as nat,
                midnight as nat,
            );
            &&& c.contains(target_of(inv, now, midnight))
            &&& forall|i: int| 0 <= i < c.len() ==> target_of(inv, now, midnight) <= #[trigger] c[i]
        }),
{
    let c = candidates(
        inv.duration_ms,
        inv.midnight,
        at_views(inv.at_times@),
        now as nat,
        midnight as nat,
    );
    assert(c.len() > 0);
    lemma_min_of(c);
}

/// Roll past now: a time of day whose instant today is not later than `now`
/// stands for the same time tomorrow.
pub proof fn lemma_roll_past_now(s: Seq<char>, now: nat, midnight: nat)
    requires
        clock_time_of(s) is Ok,
        midnight + clock_time_of(s)->Ok_0.spec_ms_of_day() <= now,
    ensures
        time_candidate(s, now, midnight) == midnight + clock_time_of(s)->Ok_0.spec_ms_of_day()
            + DAY_MS,
{
}

/// Every element of `a` occurs in `b`, where the two hold the same entries.
proof fn lemma_same_entries(a: Seq<String>, b: Seq<String>, i: int)
    requires
        a.to_multiset() == b.to_multiset(),
        0 <= i < a.len(),
    ensures
        exists|j: int| 0 <= j < b.len() && #[trigger] at_views(b)[j] == at_views(a)[i],
{
    a.to_multiset_ensures();
    b.to_multiset_ensures();
    assert(a.contains(a[i]));
    assert(a.to_multiset().count(a[i]) > 0);
    assert(b.to_multiset().count(a[i]) > 0);
    assert(b.contains(a[i]));
    let j = choose|j: int| 0 <= j < b.len() && b[j] == a[i];
    assert(at_views(b)[j] == at_views(a)[i]);
}

/// Each candidate of the first list is a candidate of the second.
proof fn lemma_candidates_included(
    d: Option<u64>,
    m: bool,
    a: Seq<String>,
    b: Seq<String>,
    now: nat,
    midnight: nat,
)
    requires
        a.to_multiset() == b.to_multiset(),
    ensures
        forall|i: int|
            0 <= i < candidates(d, m, at_views(a), now, midnight).len() ==> candidates(
                d,
                m,
                at_views(b),
                now,
                midnight,
            ).contains(#[trigger] candidates(d, m, at_views(a), now, midnight)[i]),
        all_valid(at_views(a)) ==> all_valid(at_views(b)),
{
    a.to_multiset_ensures();
    b.to_multiset_ensures();
    let ca = candidates(d, m, at_views(a), now, midnight);
    let cb = candidates(d, m, at_views(b), now, midnight);
    let h = ca.len() - a.len();
    assert(cb.len() - b.len() == h);
    assert forall|i: int| 0 <= i < ca.len() implies cb.contains(#[trigger] ca[i]) by {
        if i < h {
            assert(cb[i] == ca[i]);
        } else {
            lemma_same_entries(a, b, i - h);
            let j = choose|j: int| 0 <= j < b.len() && #[trigger] at_views(b)[j] == at_views(a)[i
                - h];
            assert(cb[h + j] == ca[i]);
        }
    }
    if all_valid(at_views(a)) {
        assert forall|j: int| 0 <= j < at_views(b).len() implies (#[trigger] clock_time_of(
            at_views(b)[j],
        )) is Ok by {
            lemma_same_entries(b, a, j);
            let i = choose|i: int| 0 <= i < a.len() && #[trigger] at_views(a)[i] == at_views(b)[j];
            assert(clock_time_of(at_views(a)[i]) is Ok);
        }
    }
}

/// Order does not matter: two invocations that differ only in the order of
/// their `--at` entries resolve alike, to the same instant, and either both
/// or neither have an entry that does not read.
pub proof fn lemma_order_irrelevant(a: &Invocation, b: &Invocation, now: u64, midnight: u64)
    requires
        a.duration_ms == b.duration_ms,
        a.midnight == b.midnight,
        a.at_times@.to_multiset() == b.at_times@.to_multiset(),
    ensures
        all_valid(at_views(a.at_times@)) == all_valid(at_views(b.at_times@)),
        target_of(a, now, midnight) == target_of(b, now, midnight),
{
    let (d, m) = (a.duration_ms, a.midnight);
    let (sa, sb) = (a.at_times@, b.at_times@);
    lemma_candidates_included(d, m, sa, sb, now as nat, midnight as nat);
    lemma_candidates_included(d, m, sb, sa, now as nat, midnight as nat);
    let ca = candidates(d, m, at_views(sa), now as nat, midnight as nat);
    let cb = candidates(d, m, at_views(sb), now as nat, midnight as nat);
    sa.to_multiset_ensures();
    sb.to_multiset_ensures();
    assert(ca.len() == cb.len());
    if ca.len() > 0 {
        lemma_min_of(ca);
        lemma_min_of(cb);
        let i = choose|i: int| 0 <= i < ca.len() && ca[i] == min_of(ca);
        let j = choose|j: int| 0 <= j < cb.len() && cb[j] == min_of(cb);
        assert(cb.contains(ca[i]));
        assert(ca.contains(cb[j]));
    }
}

/// With a duration alone, the wake instant is the end of the duration.
pub proof fn lemma_duration_alone(inv: &Invocation, now: u64, midnight: u64)
    requires
        inv.duration_ms is Some,
        !inv.midnight,
        inv.at_times@.len() == 0,
    ensures
        target_of(inv, now, midnight) == now + inv.duration_ms->Some_0,
{
    let c = candidates(
        inv.duration_ms,
        inv.midnight,
        at_views(inv.at_times@),
        now as nat,
        midnight as nat,
    );
    assert(c =~= seq![(now + inv.duration_ms->Some_0) as nat]);
}

} // verus!
