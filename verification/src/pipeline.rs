//! Detection scheduling for multi-marker sessions.
//!
//! Each frame, every marker that still has tracking state is followed by the
//! cheap tracker; the markers that are lost afterwards compete for a small
//! per-frame budget of full detection attempts. Recently lost markers are
//! attempted first, every frame (fast re-acquire of the target the user is
//! pointing at); long-lost ("cold") markers take round-robin turns, and only
//! on cadence frames while something is tracked. A cap on simultaneously
//! tracked markers shrinks the budget to the free slots.
//!
//! The scheduler decides; the caller performs the tracking and detection
//! work and reports back.

use vstd::prelude::*;

verus! {

/// Per-marker outcome of one frame.
#[derive(Clone, Copy, Debug, PartialEq, Eq, Structural)]
pub enum MarkerStatus {
    NotFound,
    /// Acquired by full detection this frame.
    Detected,
    /// Followed by the sub-pixel tracker this frame.
    Tracking,
}

/// Per-frame detection budget for multi-marker sessions.
#[derive(Clone, Copy, Debug)]
pub struct DetectSchedule {
    /// Max full detection attempts per frame across all lost markers.
    pub max_per_frame: usize,
    /// A marker lost at most this many frames ago keeps priority: it is
    /// attempted every frame (within budget) instead of waiting its turn.
    pub priority_frames: u32,
    /// While anything is tracked, long-lost markers are only scanned every
    /// N-th frame (0 acts as 1). With nothing tracked, or when all lost
    /// markers fit the per-frame budget, every frame scans.
    pub cold_scan_interval: u64,
    /// Cap on simultaneously tracked markers; with the slots full no
    /// detection runs at all.
    pub max_tracked: usize,
}

impl Default for DetectSchedule {
    fn default() -> (s: Self)
        ensures
            s.max_per_frame == 2,
            s.priority_frames == 30,
            s.cold_scan_interval == 10,
            s.max_tracked == usize::MAX,
    {
        DetectSchedule {
            max_per_frame: 2,
            priority_frames: 30,
            cold_scan_interval: 10,
            max_tracked: usize::MAX,
        }
    }
}

/// Lost age of a marker never found, or lost for good: always outside the
/// priority window.
pub const LOST_AGE_COLD: u32 = 0xFFFF_FFFF;

// ------------------------------------------------------------- the model

/// Number of `true` entries among the first `k`.
pub open spec fn tracked_upto(t: Seq<bool>, k: int) -> nat
    decreases k,
{
    if k <= 0 {
        0
    } else {
        tracked_upto(t, k - 1) + if t[k - 1] {
            1nat
        } else {
            0nat
        }
    }
}

/// Markers followed by the tracker this frame.
pub open spec fn tracked_count(t: Seq<bool>) -> nat {
    tracked_upto(t, t.len() as int)
}

/// Markers lost after the tracking pass.
pub open spec fn lost_count(t: Seq<bool>) -> int {
    t.len() - tracked_count(t)
}

/// A marker's lost age after a frame: reset when tracked, else one more
/// (saturating at `LOST_AGE_COLD`).
pub open spec fn next_age(age: u32, kept: bool) -> u32 {
    if kept {
        0
    } else if age == LOST_AGE_COLD {
        LOST_AGE_COLD
    } else {
        (age + 1) as u32
    }
}

pub open spec fn aged(ages: Seq<u32>, t: Seq<bool>) -> Seq<u32> {
    Seq::new(ages.len(), |i: int| next_age(ages[i], t[i]))
}

/// Free tracking slots.
pub open spec fn free_slots(s: DetectSchedule, t: Seq<bool>) -> nat {
    if tracked_count(t) >= s.max_tracked {
        0
    } else {
        (s.max_tracked - tracked_count(t)) as nat
    }
}

/// Detection attempts allowed this frame.
pub open spec fn frame_budget(s: DetectSchedule, t: Seq<bool>) -> nat {
    if s.max_per_frame <= free_slots(s, t) {
        s.max_per_frame as nat
    } else {
        free_slots(s, t)
    }
}

pub open spec fn scan_interval(s: DetectSchedule) -> nat {
    if s.cold_scan_interval == 0 {
        1
    } else {
        s.cold_scan_interval as nat
    }
}

/// Whether cold markers may be scanned on frame number `frame`.
pub open spec fn scans_cold(s: DetectSchedule, t: Seq<bool>, frame: nat) -> bool {
    ||| tracked_count(t) == 0
    ||| lost_count(t) <= s.max_per_frame
    ||| frame % scan_interval(s) == 0
}

/// Lost and inside the priority window (`ages` already updated).
pub open spec fn is_priority(pf: u32, ages: Seq<u32>, t: Seq<bool>, i: int) -> bool {
    !t[i] && ages[i] <= pf
}

/// Lost and outside the priority window (`ages` already updated).
pub open spec fn is_cold(pf: u32, ages: Seq<u32>, t: Seq<bool>, i: int) -> bool {
    !t[i] && ages[i] > pf
}

/// The priority markers among the first `k`, in index order.
pub open spec fn priority_upto(pf: u32, ages: Seq<u32>, t: Seq<bool>, k: int) -> Seq<int>
    decreases k,
{
    if k <= 0 {
        seq![]
    } else {
        let p = priority_upto(pf, ages, t, k - 1);
        if is_priority(pf, ages, t, k - 1) {
            p.push(k - 1)
        } else {
            p
        }
    }
}

/// Position `j` steps after `c` in a rotation over `n` markers.
pub open spec fn rot(c: int, j: int, n: int) -> int {
    (c + j) % n
}

/// Offsets `j < k` whose marker `rot(c, j, n)` is cold, in rotation order.
pub open spec fn cold_upto(pf: u32, ages: Seq<u32>, t: Seq<bool>, c: int, k: int) -> Seq<int>
    decreases k,
{
    if k <= 0 {
        seq![]
    } else {
        let p = cold_upto(pf, ages, t, c, k - 1);
        if is_cold(pf, ages, t, rot(c, k - 1, ages.len() as int)) {
            p.push(k - 1)
        } else {
            p
        }
    }
}

/// The first `b` entries of `s` (all of them when there are fewer).
pub open spec fn at_most<A>(s: Seq<A>, b: nat) -> Seq<A> {
    if s.len() <= b {
        s
    } else {
        s.take(b as int)
    }
}

/// The priority attempts of a frame.
pub open spec fn priority_attempts(
    s: DetectSchedule,
    ages: Seq<u32>,
    t: Seq<bool>,
) -> Seq<int> {
    at_most(
        priority_upto(s.priority_frames, aged(ages, t), t, ages.len() as int),
        frame_budget(s, t),
    )
}

/// The rotation offsets of a frame's cold attempts.
pub open spec fn cold_offsets(
    s: DetectSchedule,
    ages: Seq<u32>,
    t: Seq<bool>,
    c: nat,
    frame: nat,
) -> Seq<int> {
    let n = ages.len() as int;
    if n > 0 && scans_cold(s, t, frame) {
        at_most(
            cold_upto(s.priority_frames, aged(ages, t), t, c as int, n),
            (frame_budget(s, t) - priority_attempts(s, ages, t).len()) as nat,
        )
    } else {
        seq![]
    }
}

/// The markers that attempt detection on a frame, in order.
pub open spec fn planned_attempts(
    s: DetectSchedule,
    ages: Seq<u32>,
    t: Seq<bool>,
    c: nat,
    frame: nat,
) -> Seq<int> {
    let n = ages.len() as int;
    priority_attempts(s, ages, t) + cold_offsets(s, ages, t, c, frame).map_values(
        |j: int| rot(c as int, j, n),
    )
}

/// The rotation cursor after a frame: just past the last cold attempt.
pub open spec fn next_cursor(
    s: DetectSchedule,
    ages: Seq<u32>,
    t: Seq<bool>,
    c: nat,
    frame: nat,
) -> nat {
    let offs = cold_offsets(s, ages, t, c, frame);
    if offs.len() == 0 {
        c
    } else {
        rot(c as int, offs.last() + 1, ages.len() as int) as nat
    }
}

pub open spec fn next_frame(frame: nat) -> nat {
    if frame == u64::MAX {
        0
    } else {
        frame + 1
    }
}

// ------------------------------------------------------------- the state

/// Scheduling state kept across frames, one lost age per marker.
pub struct DetectScheduler {
    lost_age: Vec<u32>,
    detect_cursor: usize,
    frame_index: u64,
}

impl DetectScheduler {
    /// Frames since each marker was last tracked or detected
    /// (`LOST_AGE_COLD`: never, or long ago).
    pub closed spec fn ages(&self) -> Seq<u32> {
        self.lost_age@
    }

    /// Where the next round-robin turn over cold markers starts.
    pub closed spec fn cursor(&self) -> nat {
        self.detect_cursor as nat
    }

    /// Frames planned so far (wrapping at `u64::MAX`).
    pub closed spec fn frame(&self) -> nat {
        self.frame_index as nat
    }

    /// The cursor points at a marker (or is 0 with no markers).
    pub closed spec fn wf(&self) -> bool {
        if self.lost_age@.len() == 0 {
            self.detect_cursor == 0
        } else {
            self.detect_cursor < self.lost_age@.len()
        }
    }

    pub fn new() -> (r: DetectScheduler)
        ensures
            r.wf(),
            r.ages() == Seq::<u32>::empty(),
            r.cursor() == 0,
            r.frame() == 0,
    {
        DetectScheduler { lost_age: Vec::new(), detect_cursor: 0, frame_index: 0 }
    }

    /// Registers one more marker (never found yet) and returns its index.
    pub fn add_marker(&mut self) -> (index: usize)
        requires
            old(self).wf(),
            old(self).ages().len() < usize::MAX,
        ensures
            final(self).wf(),
            final(self).ages() == old(self).ages().push(LOST_AGE_COLD),
            final(self).cursor() == old(self).cursor(),
            final(self).frame() == old(self).frame(),
            index == old(self).ages().len(),
    {
        self.lost_age.push(LOST_AGE_COLD);
        self.lost_age.len() - 1
    }

    pub fn marker_count(&self) -> (n: usize)
        ensures
            n == self.ages().len(),
    {
        self.lost_age.len()
    }

    /// Forgets all tracking history: every marker is cold again and the
    /// rotation and cadence restart.
    pub fn reset(&mut self)
        ensures
            final(self).wf(),
            final(self).ages() == fresh_ages(old(self).ages().len()),
            final(self).cursor() == 0,
            final(self).frame() == 0,
    {
        let n = self.lost_age.len();
        let mut ages: Vec<u32> = Vec::new();
        let mut i: usize = 0;
        while i < n
            invariant
                i <= n,
                ages@ == Seq::new(i as nat, |k: int| LOST_AGE_COLD),
            decreases n - i,
        {
            ages.push(LOST_AGE_COLD);
            i = i + 1;
        }
        self.detect_cursor = 0;
        self.lost_age = ages;
        self.frame_index = 0;
    }

    /// Marker `index` was just acquired by detection.
    pub fn mark_detected(&mut self, index: usize)
        requires
            old(self).wf(),
            index < old(self).ages().len(),
        ensures
            final(self).wf(),
            final(self).ages() == old(self).ages().update(index as int, 0),
            final(self).cursor() == old(self).cursor(),
            final(self).frame() == old(self).frame(),
    {
        self.lost_age.set(index, 0);
    }

    /// Plans one frame. `kept[i]` says whether marker `i` was followed by
    /// the tracker this frame; the result lists the lost markers that
    /// attempt full detection, recently lost ones first (index order), then
    /// cold ones in round-robin order from the cursor.
    #[verifier::spinoff_prover]
    pub fn plan(&mut self, schedule: &DetectSchedule, kept: &[bool]) -> (attempts: Vec<usize>)
        requires
            old(self).wf(),
            kept@.len() == old(self).ages().len(),
        ensures
            final(self).wf(),
            final(self).ages() == aged(old(self).ages(), kept@),
            final(self).cursor() == next_cursor(
                *schedule,
                old(self).ages(),
                kept@,
                old(self).cursor(),
                old(self).frame(),
            ),
            final(self).frame() == next_frame(old(self).frame()),
            attempts@.map_values(|i: usize| i as int) == planned_attempts(
                *schedule,
                old(self).ages(),
                kept@,
                old(self).cursor(),
                old(self).frame(),
            ),
            attempts.len() <= frame_budget(*schedule, kept@),
            forall|k: int|
                0 <= k < attempts.len() ==> #[trigger] attempts[k] < kept@.len() && !kept@[attempts[k] as int],
            forall|k: int, l: int| 0 <= k < l < attempts.len() ==> attempts[k] != attempts[l],
    {
        let ghost t = kept@;
        let ghost old_ages = self.lost_age@;
        let ghost c0 = self.detect_cursor as int;
        let n = self.lost_age.len();
        // Pass 1: ages, and how many markers the tracker kept.
        let mut ages: Vec<u32> = Vec::new();
        let mut kept_count: usize = 0;
        let mut i: usize = 0;
        while i < n
            invariant
                n == old_ages.len(),
                n == t.len(),
                t == kept@,
                old_ages == self.lost_age@,
                i <= n,
                ages@ == aged(old_ages, t).take(i as int),
                kept_count == tracked_upto(t, i as int),
                kept_count <= i,
            decreases n - i,
        {
            let a = self.lost_age[i];
            if kept[i] {
                ages.push(0);
                kept_count = kept_count + 1;
            } else if a == LOST_AGE_COLD {
                ages.push(a);
            } else {
                ages.push(a + 1);
            }
            assert(ages@ =~= aged(old_ages, t).take(i + 1));
            i = i + 1;
        }
        assert(ages@ =~= aged(old_ages, t));
        let ghost ag = ages@;
        let lost = n - kept_count;
        let free = if kept_count >= schedule.max_tracked {
            0
        } else {
            schedule.max_tracked - kept_count
        };
        let budget = if schedule.max_per_frame <= free {
            schedule.max_per_frame
        } else {
            free
        };
        let interval = if schedule.cold_scan_interval == 0 {
            1
        } else {
            schedule.cold_scan_interval
        };
        let cold_scan = kept_count == 0 || lost <= schedule.max_per_frame || self.frame_index
            % interval == 0;
        let pf = schedule.priority_frames;
        // Pass 2: recently lost markers, in index order.
        let mut attempts: Vec<usize> = Vec::new();
        let mut i: usize = 0;
        while i < n
            invariant
                n == ag.len(),
                n == t.len(),
                t == kept@,
                ag == ages@,
                i <= n,
                attempts@.map_values(|x: usize| x as int) == at_most(
                    priority_upto(pf, ag, t, i as int),
                    budget as nat,
                ),
            decreases n - i,
        {
            let ghost p = priority_upto(pf, ag, t, i as int);
            let ghost before = attempts@;
            proof {
                assert(at_most(p, budget as nat).len() == before.len());
            }
            if !kept[i] && ages[i] <= pf && attempts.len() < budget {
                attempts.push(i);
                assert(attempts@.map_values(|x: usize| x as int) =~= before.map_values(
                    |x: usize| x as int,
                ).push(i as int));
                assert(at_most(p.push(i as int), budget as nat) =~= p.push(i as int));
            } else if !kept[i] && ages[i] <= pf {
                assert(at_most(p.push(i as int), budget as nat) =~= at_most(p, budget as nat));
            }
            i = i + 1;
        }
        let ghost prio = attempts@.map_values(|x: usize| x as int);
        // Pass 3: cold markers, round robin from the cursor.
        let mut cursor = self.detect_cursor;
        if n > 0 && cold_scan {
            let rest = budget - attempts.len();
            let mut taken: usize = 0;
            let mut advanced: usize = 0;
            let ghost mut offs: Seq<int> = seq![];
            let mut k: usize = 0;
            while k < n
                invariant
                    n == ag.len(),
                    n == t.len(),
                    t == kept@,
                    ag == ages@,
                    0 <= c0 < n,
                    cursor == c0,
                    k <= n,
                    offs == at_most(cold_upto(pf, ag, t, c0, k as int), rest as nat),
                    taken == offs.len(),
                    attempts@.map_values(|x: usize| x as int) == prio + offs.map_values(
                        |j: int| rot(c0, j, n as int),
                    ),
                    advanced == (if offs.len() == 0 {
                        0
                    } else {
                        offs.last() + 1
                    }),
                    advanced <= k,
                decreases n - k,
            {
                let r = if k < n - cursor {
                    cursor + k
                } else {
                    k - (n - cursor)
                };
                proof {
                    if k < n - cursor {
                        vstd::arithmetic::div_mod::lemma_small_mod((c0 + k) as nat, n as nat);
                    } else {
                        vstd::arithmetic::div_mod::lemma_mod_sub_multiples_vanish(
                            (c0 + k) as int,
                            n as int,
                        );
                        vstd::arithmetic::div_mod::lemma_small_mod((c0 + k - n) as nat, n as nat);
                    }
                    assert(r == rot(c0, k as int, n as int));
                }
                let ghost cu = cold_upto(pf, ag, t, c0, k as int);
                let ghost before = attempts@;
                if !kept[r] && ages[r] > pf && taken < rest {
                    attempts.push(r);
                    proof {
                        assert(at_most(cu.push(k as int), rest as nat) =~= cu.push(k as int));
                        let old_offs = offs;
                        offs = offs.push(k as int);
                        assert(attempts@.map_values(|x: usize| x as int) =~= before.map_values(
                            |x: usize| x as int,
                        ).push(r as int));
                        assert(offs.map_values(|j: int| rot(c0, j, n as int)) =~= old_offs.map_values(
                            |j: int| rot(c0, j, n as int),
                        ).push(rot(c0, k as int, n as int)));
                        assert(attempts@.map_values(|x: usize| x as int) =~= prio + offs.map_values(
                            |j: int| rot(c0, j, n as int),
                        ));
                    }
                    taken = taken + 1;
                    advanced = k + 1;
                } else if !kept[r] && ages[r] > pf {
                    assert(at_most(cu.push(k as int), rest as nat) =~= at_most(cu, rest as nat));
                }
                k = k + 1;
            }
            cursor = if advanced < n - cursor {
                cursor + advanced
            } else {
                advanced - (n - cursor)
            };
            proof {
                if offs.len() > 0 {
                    if advanced < n - c0 {
                        vstd::arithmetic::div_mod::lemma_small_mod((c0 + advanced) as nat, n as nat);
                    } else {
                        vstd::arithmetic::div_mod::lemma_mod_sub_multiples_vanish(
                            (c0 + advanced) as int,
                            n as int,
                        );
                        vstd::arithmetic::div_mod::lemma_small_mod(
                            (c0 + advanced - n) as nat,
                            n as nat,
                        );
                    }
                }
            }
        } else {
            assert(attempts@.map_values(|x: usize| x as int) =~= prio + Seq::<int>::empty().map_values(
                |j: int| rot(c0, j, n as int),
            ));
        }
        proof {
            lemma_plan_laws(*schedule, old_ages, t, c0 as nat, self.frame_index as nat);
            let pa = planned_attempts(*schedule, old_ages, t, c0 as nat, self.frame_index as nat);
            assert forall|k: int| 0 <= k < attempts.len() implies #[trigger] attempts[k] < kept@.len()
                && !kept@[attempts[k] as int] by {
                assert(attempts@.map_values(|i: usize| i as int)[k] == pa[k]);
            }
            assert forall|k: int, l: int| 0 <= k < l < attempts.len() implies attempts[k]
                != attempts[l] by {
                assert(attempts@.map_values(|i: usize| i as int)[k] == pa[k]);
                assert(attempts@.map_values(|i: usize| i as int)[l] == pa[l]);
            }
        }
        self.lost_age = ages;
        self.detect_cursor = cursor;
        self.frame_index = if self.frame_index == u64::MAX {
            0
        } else {
            self.frame_index + 1
        };
        attempts
    }
}

// ------------------------------------------------------------- the laws

/// Number of `i` in `lo .. hi` with `f(i)`.
pub open spec fn count_in(f: spec_fn(int) -> bool, lo: int, hi: int) -> nat
    decreases hi - lo,
{
    if hi <= lo {
        0
    } else {
        count_in(f, lo, hi - 1) + if f(hi - 1) {
            1nat
        } else {
            0nat
        }
    }
}

proof fn lemma_count_split(f: spec_fn(int) -> bool, lo: int, mid: int, hi: int)
    requires
        lo <= mid <= hi,
    ensures
        count_in(f, lo, hi) == count_in(f, lo, mid) + count_in(f, mid, hi),
    decreases hi - mid,
{
    if hi > mid {
        lemma_count_split(f, lo, mid, hi - 1);
    }
}

proof fn lemma_count_le(f: spec_fn(int) -> bool, lo: int, hi: int)
    requires
        lo <= hi,
    ensures
        count_in(f, lo, hi) <= hi - lo,
    decreases hi - lo,
{
    if hi > lo {
        lemma_count_le(f, lo, hi - 1);
    }
}

/// Counting a disjoint union.
proof fn lemma_count_union(
    f: spec_fn(int) -> bool,
    g: spec_fn(int) -> bool,
    h: spec_fn(int) -> bool,
    lo: int,
    hi: int,
)
    requires
        forall|i: int| lo <= i < hi ==> (#[trigger] h(i) == (f(i) || g(i))) && !(f(i) && g(i)),
    ensures
        count_in(h, lo, hi) == count_in(f, lo, hi) + count_in(g, lo, hi),
    decreases hi - lo,
{
    if hi > lo {
        lemma_count_union(f, g, h, lo, hi - 1);
    }
}

/// Counting along a rotation that starts at `c` counts every position once.
proof fn lemma_count_rot(f: spec_fn(int) -> bool, g: spec_fn(int) -> bool, c: int, n: int, k: int)
    requires
        0 <= c < n,
        0 <= k <= n,
        forall|j: int| 0 <= j < n ==> #[trigger] g(j) == f(rot(c, j, n)),
    ensures
        k <= n - c ==> count_in(g, 0, k) == count_in(f, c, c + k),
        k > n - c ==> count_in(g, 0, k) == count_in(f, c, n) + count_in(f, 0, k - (n - c)),
    decreases k,
{
    if k > 0 {
        lemma_count_rot(f, g, c, n, k - 1);
        assert(g(k - 1) == f(rot(c, k - 1, n)));
        if k <= n - c {
            vstd::arithmetic::div_mod::lemma_small_mod((c + k - 1) as nat, n as nat);
        } else {
            vstd::arithmetic::div_mod::lemma_mod_sub_multiples_vanish(c + k - 1, n);
            vstd::arithmetic::div_mod::lemma_small_mod((c + k - 1 - n) as nat, n as nat);
            if k - 1 == n - c {
                assert(count_in(f, 0, 0) == 0);
            }
        }
    }
}

proof fn lemma_tracked_upto(t: Seq<bool>, f: spec_fn(int) -> bool, k: int)
    requires
        0 <= k <= t.len(),
        forall|i: int| 0 <= i < t.len() ==> #[trigger] f(i) == !t[i],
    ensures
        tracked_upto(t, k) + count_in(f, 0, k) == k,
    decreases k,
{
    if k > 0 {
        lemma_tracked_upto(t, f, k - 1);
    }
}

proof fn lemma_priority_upto(pf: u32, ag: Seq<u32>, t: Seq<bool>, f: spec_fn(int) -> bool, k: int)
    requires
        0 <= k <= t.len(),
        ag.len() == t.len(),
        forall|i: int| 0 <= i < t.len() ==> #[trigger] f(i) == is_priority(pf, ag, t, i),
    ensures
        ({
            let p = priority_upto(pf, ag, t, k);
            &&& p.len() == count_in(f, 0, k)
            &&& forall|a: int| 0 <= a < p.len() ==> 0 <= #[trigger] p[a] < k && is_priority(pf, ag, t, p[a])
            &&& forall|a: int, b: int| 0 <= a < b < p.len() ==> p[a] < p[b]
            &&& forall|i: int| 0 <= i < k && is_priority(pf, ag, t, i) ==> p.contains(i)
        }),
    decreases k,
{
    if k > 0 {
        lemma_priority_upto(pf, ag, t, f, k - 1);
        let p = priority_upto(pf, ag, t, k - 1);
        if is_priority(pf, ag, t, k - 1) {
            assert(p.push(k - 1)[p.len() as int] == k - 1);
            assert forall|i: int| 0 <= i < k && is_priority(pf, ag, t, i) implies p.push(k - 1).contains(i) by {
                if i < k - 1 {
                    assert(p.contains(i));
                    let a = choose|a: int| 0 <= a < p.len() && p[a] == i;
                    assert(p.push(k - 1)[a] == i);
                }
            }
        }
    }
}

proof fn lemma_cold_upto(
    pf: u32,
    ag: Seq<u32>,
    t: Seq<bool>,
    c: int,
    g: spec_fn(int) -> bool,
    k: int,
)
    requires
        0 <= k <= t.len(),
        ag.len() == t.len(),
        0 <= c < t.len(),
        forall|j: int| 0 <= j < t.len() ==> #[trigger] g(j) == is_cold(pf, ag, t, rot(c, j, t.len() as int)),
    ensures
        ({
            let p = cold_upto(pf, ag, t, c, k);
            &&& p.len() == count_in(g, 0, k)
            &&& forall|a: int| 0 <= a < p.len() ==> 0 <= #[trigger] p[a] < k && is_cold(
                pf,
                ag,
                t,
                rot(c, p[a], t.len() as int),
            )
            &&& forall|a: int, b: int| 0 <= a < b < p.len() ==> p[a] < p[b]
            &&& forall|j: int| 0 <= j < k && is_cold(pf, ag, t, rot(c, j, t.len() as int)) ==> p.contains(j)
        }),
    decreases k,
{
    if k > 0 {
        lemma_cold_upto(pf, ag, t, c, g, k - 1);
        let p = cold_upto(pf, ag, t, c, k - 1);
        assert(g(k - 1) == is_cold(pf, ag, t, rot(c, k - 1, t.len() as int)));
        if is_cold(pf, ag, t, rot(c, k - 1, t.len() as int)) {
            assert(p.push(k - 1)[p.len() as int] == k - 1);
            assert forall|j: int| 0 <= j < k && is_cold(pf, ag, t, rot(c, j, t.len() as int)) implies p.push(
                k - 1,
            ).contains(j) by {
                if j < k - 1 {
                    assert(p.contains(j));
                    let a = choose|a: int| 0 <= a < p.len() && p[a] == j;
                    assert(p.push(k - 1)[a] == j);
                }
            }
        }
    }
}

proof fn lemma_rot_range(c: int, j: int, n: int)
    requires
        n > 0,
        0 <= c,
        0 <= j,
    ensures
        0 <= rot(c, j, n) < n,
{
}

/// Distinct offsets within one turn reach distinct markers.
proof fn lemma_rot_injective(c: int, n: int, j1: int, j2: int)
    requires
        0 <= c,
        0 <= j1 < j2 < n,
    ensures
        rot(c, j1, n) != rot(c, j2, n),
{
    let q1 = (c + j1) / n;
    let q2 = (c + j2) / n;
    vstd::arithmetic::div_mod::lemma_fundamental_div_mod(c + j1, n);
    vstd::arithmetic::div_mod::lemma_fundamental_div_mod(c + j2, n);
    if rot(c, j1, n) == rot(c, j2, n) {
        assert(j2 - j1 == n * (q2 - q1)) by (nonlinear_arith)
            requires
                c + j1 == n * q1 + rot(c, j1, n),
                c + j2 == n * q2 + rot(c, j2, n),
                rot(c, j1, n) == rot(c, j2, n),
        ;
        assert(false) by (nonlinear_arith)
            requires
                j2 - j1 == n * (q2 - q1),
                0 < j2 - j1 < n,
        ;
    }
}

/// What every planned frame satisfies: the budget and the free slots cap
/// the attempts; only lost markers are attempted, each at most once; with
/// the slots full nothing is attempted; recently lost markers are all
/// attempted whenever they fit the budget; off-cadence frames attempt only
/// recently lost markers; and a scanning frame spends its whole budget, or
/// attempts every lost marker when they are fewer.
#[verifier::spinoff_prover]
pub proof fn lemma_plan_laws(s: DetectSchedule, ages: Seq<u32>, t: Seq<bool>, c: nat, frame: nat)
    requires
        t.len() == ages.len(),
        ages.len() == 0 ==> c == 0,
        ages.len() > 0 ==> c < ages.len(),
    ensures
        ({
            let a = planned_attempts(s, ages, t, c, frame);
            let n = ages.len() as int;
            let ag = aged(ages, t);
            let pf = s.priority_frames;
            let b = frame_budget(s, t);
            &&& a.len() <= b
            &&& b <= s.max_per_frame
            &&& b <= free_slots(s, t)
            &&& forall|k: int| 0 <= k < a.len() ==> 0 <= #[trigger] a[k] < n && !t[a[k]]
            &&& forall|k: int, l: int| 0 <= k < l < a.len() ==> a[k] != a[l]
            &&& tracked_count(t) >= s.max_tracked ==> a.len() == 0
            &&& priority_upto(pf, ag, t, n).len() <= b ==> forall|i: int|
                0 <= i < n && is_priority(pf, ag, t, i) ==> a.contains(i)
            &&& !scans_cold(s, t, frame) ==> forall|k: int|
                0 <= k < a.len() ==> is_priority(pf, ag, t, #[trigger] a[k])
            &&& n > 0 && scans_cold(s, t, frame) ==> a.len() == (if b <= lost_count(t) {
                b as int
            } else {
                lost_count(t)
            })
            &&& (n == 0 ==> next_cursor(s, ages, t, c, frame) == 0)
            &&& (n > 0 ==> next_cursor(s, ages, t, c, frame) < n)
        }),
{
    let a = planned_attempts(s, ages, t, c, frame);
    let n = ages.len() as int;
    let ag = aged(ages, t);
    let pf = s.priority_frames;
    let b = frame_budget(s, t);
    let fp = |i: int| is_priority(pf, ag, t, i);
    let fc = |i: int| is_cold(pf, ag, t, i);
    let fl = |i: int| !t[i];
    let pr = priority_upto(pf, ag, t, n);
    let pa = priority_attempts(s, ages, t);
    let offs = cold_offsets(s, ages, t, c, frame);
    let cm = offs.map_values(|j: int| rot(c as int, j, n));
    assert(a == pa + cm);
    lemma_priority_upto(pf, ag, t, fp, n);
    // the priority part is a prefix of the priority list
    assert(forall|k: int| 0 <= k < pa.len() ==> pa[k] == pr[k]);
    assert(pa.len() <= b);
    if n > 0 {
        let g = |j: int| is_cold(pf, ag, t, rot(c as int, j, n));
        lemma_cold_upto(pf, ag, t, c as int, g, n);
        let cu = cold_upto(pf, ag, t, c as int, n);
        assert(forall|k: int| 0 <= k < offs.len() ==> offs[k] == cu[k]);
        assert forall|k: int| 0 <= k < cm.len() implies 0 <= #[trigger] cm[k] < n && is_cold(
            pf,
            ag,
            t,
            cm[k],
        ) by {
            lemma_rot_range(c as int, offs[k], n);
        }
        assert forall|k: int, l: int| 0 <= k < l < cm.len() implies cm[k] != cm[l] by {
            lemma_rot_injective(c as int, n, offs[k], offs[l]);
        }
        if scans_cold(s, t, frame) {
            lemma_count_rot(fc, g, c as int, n, n);
            if c > 0 {
                lemma_count_split(fc, 0, c as int, n);
            }
            lemma_count_union(fp, fc, fl, 0, n);
            lemma_tracked_upto(t, fl, n);
        }
        if offs.len() > 0 {
            lemma_rot_range(c as int, offs.last() + 1, n);
        }
    } else {
        assert(offs.len() == 0);
    }
    assert forall|k: int| 0 <= k < a.len() implies 0 <= #[trigger] a[k] < n && !t[a[k]] by {
        if k < pa.len() {
            assert(a[k] == pa[k]);
        } else {
            assert(a[k] == cm[k - pa.len()]);
        }
    }
    assert forall|k: int, l: int| 0 <= k < l < a.len() implies a[k] != a[l] by {
        if l < pa.len() {
            assert(a[k] == pa[k] && a[l] == pa[l]);
        } else if k >= pa.len() {
            assert(a[k] == cm[k - pa.len()] && a[l] == cm[l - pa.len()]);
        } else {
            assert(a[k] == pa[k] && a[l] == cm[l - pa.len()]);
            assert(is_priority(pf, ag, t, a[k]));
        }
    }
    if pr.len() <= b {
        assert forall|i: int| 0 <= i < n && is_priority(pf, ag, t, i) implies a.contains(i) by {
            assert(pr.contains(i));
            let k = choose|k: int| 0 <= k < pr.len() && pr[k] == i;
            assert(a[k] == i);
        }
    }
    if !scans_cold(s, t, frame) {
        assert(a =~= pa);
    }
}

/// No marker followed by the tracker this frame.
pub open spec fn none_kept(n: nat) -> Seq<bool> {
    Seq::new(n, |i: int| false)
}

/// Every marker outside the priority window.
pub open spec fn all_cold(pf: u32, ages: Seq<u32>) -> bool {
    forall|i: int| 0 <= i < ages.len() ==> #[trigger] ages[i] > pf
}

/// The markers attempted over `f` idle frames (nothing followed by the
/// tracker, nothing found), in order.
pub open spec fn idle_run(s: DetectSchedule, ages: Seq<u32>, c: nat, frame: nat, f: nat) -> Seq<
    int,
>
    decreases f,
{
    if f == 0 {
        seq![]
    } else {
        let t = none_kept(ages.len());
        planned_attempts(s, ages, t, c, frame) + idle_run(
            s,
            aged(ages, t),
            next_cursor(s, ages, t, c, frame),
            next_frame(frame),
            (f - 1) as nat,
        )
    }
}

proof fn lemma_none_kept_count(n: nat, k: int)
    requires
        0 <= k <= n,
    ensures
        tracked_upto(none_kept(n), k) == 0,
    decreases k,
{
    if k > 0 {
        lemma_none_kept_count(n, k - 1);
    }
}

proof fn lemma_cold_upto_all(pf: u32, ag: Seq<u32>, t: Seq<bool>, c: int, k: int)
    requires
        0 <= k <= t.len(),
        ag.len() == t.len(),
        t.len() > 0,
        0 <= c,
        forall|i: int| 0 <= i < t.len() ==> #[trigger] is_cold(pf, ag, t, i),
    ensures
        cold_upto(pf, ag, t, c, k) == Seq::new(k as nat, |j: int| j),
    decreases k,
{
    if k > 0 {
        lemma_cold_upto_all(pf, ag, t, c, k - 1);
        lemma_rot_range(c, k - 1, t.len() as int);
        assert(is_cold(pf, ag, t, rot(c, k - 1, t.len() as int)));
        assert(Seq::new((k - 1) as nat, |j: int| j).push(k - 1) =~= Seq::new(k as nat, |j: int| j));
    }
}

/// One idle frame with every marker cold attempts the next `min(budget,
/// n)` markers in rotation order and moves the cursor past them; the
/// markers stay cold.
pub proof fn lemma_idle_frame(s: DetectSchedule, ages: Seq<u32>, c: nat, frame: nat)
    requires
        ages.len() > 0,
        c < ages.len(),
        all_cold(s.priority_frames, ages),
    ensures
        ({
            let n = ages.len();
            let t = none_kept(n);
            let b = frame_budget(s, t);
            let m = if b <= n {
                b
            } else {
                n
            };
            &&& planned_attempts(s, ages, t, c, frame) == Seq::new(m, |j: int| rot(c as int, j, n as int))
            &&& next_cursor(s, ages, t, c, frame) == rot(c as int, m as int, n as int)
            &&& all_cold(s.priority_frames, aged(ages, t))
            &&& b == (if s.max_per_frame <= s.max_tracked {
                s.max_per_frame as nat
            } else {
                s.max_tracked as nat
            })
        }),
{
    let n = ages.len();
    let t = none_kept(n);
    let pf = s.priority_frames;
    let ag = aged(ages, t);
    let b = frame_budget(s, t);
    let m = if b <= n {
        b
    } else {
        n
    };
    lemma_none_kept_count(n, n as int);
    assert(forall|i: int| 0 <= i < n ==> #[trigger] ag[i] > pf);
    assert forall|i: int| 0 <= i < n implies #[trigger] is_cold(pf, ag, t, i) by {
        assert(ag[i] > pf);
    }
    let fp = |i: int| is_priority(pf, ag, t, i);
    lemma_priority_upto(pf, ag, t, fp, n as int);
    let pr = priority_upto(pf, ag, t, n as int);
    if pr.len() > 0 {
        assert(is_priority(pf, ag, t, pr[0]));
        assert(is_cold(pf, ag, t, pr[0]));
    }
    assert(pr.len() == 0);
    assert(priority_attempts(s, ages, t) =~= seq![]);
    lemma_cold_upto_all(pf, ag, t, c as int, n as int);
    let offs = cold_offsets(s, ages, t, c, frame);
    assert(scans_cold(s, t, frame));
    assert(offs =~= Seq::new(m, |j: int| j));
    assert(planned_attempts(s, ages, t, c, frame) =~= Seq::new(m, |j: int| rot(c as int, j, n as int)));
    if m == 0 {
        vstd::arithmetic::div_mod::lemma_small_mod(c, n);
    }
}

/// After `f` idle frames with every marker cold, the cursor has moved
/// `f * min(budget, n)` places, and every offset below that was attempted.
#[verifier::spinoff_prover]
proof fn lemma_idle_run(s: DetectSchedule, ages: Seq<u32>, c: nat, frame: nat, f: nat)
    requires
        ages.len() > 0,
        c < ages.len(),
        all_cold(s.priority_frames, ages),
    ensures
        ({
            let n = ages.len();
            let b = frame_budget(s, none_kept(n));
            let m = if b <= n {
                b
            } else {
                n
            };
            forall|j: int| 0 <= j < f * m ==> idle_run(s, ages, c, frame, f).contains(
                #[trigger] rot(c as int, j, n as int),
            )
        }),
    decreases f,
{
    if f > 0 {
        let n = ages.len();
        let t = none_kept(n);
        let b = frame_budget(s, t);
        let m = if b <= n {
            b
        } else {
            n
        };
        lemma_idle_frame(s, ages, c, frame);
        let c2 = next_cursor(s, ages, t, c, frame);
        let ag = aged(ages, t);
        lemma_rot_range(c as int, m as int, n as int);
        lemma_idle_frame(s, ag, c2, next_frame(frame));
        lemma_idle_run(s, ag, c2, next_frame(frame), (f - 1) as nat);
        let first = planned_attempts(s, ages, t, c, frame);
        let rest = idle_run(s, ag, c2, next_frame(frame), (f - 1) as nat);
        assert(idle_run(s, ages, c, frame, f) == first + rest);
        assert(f * m == m + (f - 1) * m) by (nonlinear_arith);
        assert forall|j: int| 0 <= j < f * m implies idle_run(s, ages, c, frame, f).contains(
            #[trigger] rot(c as int, j, n as int),
        ) by {
            if j < m {
                assert((first + rest)[j] == first[j]);
            } else {
                let j2 = j - m;
                let cm: int = (c + m) as int;
                let nn: int = n as int;
                assert(rest.contains(rot(c2 as int, j2, nn)));
                assert(rot(c2 as int, j2, nn) == rot(c as int, j, nn)) by {
                    assert(c2 == cm % nn);
                    vstd::arithmetic::div_mod::lemma_add_mod_noop(cm, j2, nn);
                    vstd::arithmetic::div_mod::lemma_add_mod_noop(cm % nn, j2, nn);
                    vstd::arithmetic::div_mod::lemma_mod_twice(cm, nn);
                }
                let k = choose|k: int| 0 <= k < rest.len() && rest[k] == rot(c2 as int, j2, n as int);
                assert((first + rest)[first.len() + k] == rest[k]);
            }
        }
    } else {
        let n = ages.len();
        let b = frame_budget(s, none_kept(n));
        let m = if b <= n {
            b
        } else {
            n
        };
        assert(f * m == 0) by (nonlinear_arith)
            requires
                f == 0,
        ;
    }
}

/// Round-robin coverage: in an idle session where every marker is cold,
/// `f` frames with `f * budget >= n` attempt every marker at least once.
pub proof fn lemma_idle_rotation_covers(s: DetectSchedule, ages: Seq<u32>, c: nat, frame: nat, f: nat)
    requires
        ages.len() > 0,
        c < ages.len(),
        all_cold(s.priority_frames, ages),
        f * frame_budget(s, none_kept(ages.len())) >= ages.len(),
    ensures
        forall|i: int| 0 <= i < ages.len() ==> idle_run(s, ages, c, frame, f).contains(i),
{
    let n = ages.len();
    let b = frame_budget(s, none_kept(n));
    let m = if b <= n {
        b
    } else {
        n
    };
    lemma_idle_run(s, ages, c, frame, f);
    assert(f * m >= n) by (nonlinear_arith)
        requires
            f * b >= n,
            m == (if b <= n {
                b
            } else {
                n
            }),
            n > 0,
    ;
    assert forall|i: int| 0 <= i < n implies idle_run(s, ages, c, frame, f).contains(i) by {
        let j = if i >= c {
            i - c
        } else {
            i + n - c
        };
        if i >= c {
            vstd::arithmetic::div_mod::lemma_small_mod(i as nat, n);
        } else {
            vstd::arithmetic::div_mod::lemma_mod_add_multiples_vanish(i, n as int);
            vstd::arithmetic::div_mod::lemma_small_mod(i as nat, n);
        }
        assert(rot(c as int, j, n as int) == i);
    }
}

// ------------------------------------------------------ laws across frames

/// Marker `i` is found after a frame: followed by the tracker, or detected.
pub open spec fn found_after(t: Seq<bool>, detected: Set<int>) -> Seq<bool> {
    Seq::new(t.len(), |i: int| t[i] || detected.contains(i))
}

proof fn lemma_count_set(g: spec_fn(int) -> bool, k: int)
    requires
        0 <= k,
    ensures
        Set::new(|i: int| 0 <= i < k && g(i)).finite(),
        Set::new(|i: int| 0 <= i < k && g(i)).len() == count_in(g, 0, k),
    decreases k,
{
    let sk = Set::new(|i: int| 0 <= i < k && g(i));
    if k == 0 {
        assert(sk =~= Set::<int>::empty());
    } else {
        lemma_count_set(g, k - 1);
        let sp = Set::new(|i: int| 0 <= i < k - 1 && g(i));
        if g(k - 1) {
            assert(sk =~= sp.insert(k - 1));
        } else {
            assert(sk =~= sp);
        }
    }
}

proof fn lemma_found_count(t: Seq<bool>, detected: Set<int>, g: spec_fn(int) -> bool, k: int)
    requires
        0 <= k <= t.len(),
        forall|i: int| 0 <= i < t.len() ==> #[trigger] g(i) == (!t[i] && detected.contains(i)),
    ensures
        tracked_upto(found_after(t, detected), k) == tracked_upto(t, k) + count_in(g, 0, k),
    decreases k,
{
    if k > 0 {
        lemma_found_count(t, detected, g, k - 1);
        assert(g(k - 1) == (!t[k - 1] && detected.contains(k - 1)));
    }
}

/// The cap on followed markers holds from frame to frame: if no more than
/// `max_tracked` markers were followed by the tracker, then after the
/// planned detections (any of which may succeed) no more than `max_tracked`
/// markers are found. A tracker only follows markers found the frame
/// before (`lemma_kept_within_found`), so the cap carries over.
pub proof fn lemma_slots_hold(
    s: DetectSchedule,
    ages: Seq<u32>,
    t: Seq<bool>,
    c: nat,
    frame: nat,
    detected: Set<int>,
)
    requires
        t.len() == ages.len(),
        ages.len() == 0 ==> c == 0,
        ages.len() > 0 ==> c < ages.len(),
        tracked_count(t) <= s.max_tracked,
        forall|i: int| #[trigger] detected.contains(i) ==> planned_attempts(s, ages, t, c, frame).contains(i),
    ensures
        tracked_count(t) + planned_attempts(s, ages, t, c, frame).len() <= s.max_tracked,
        tracked_count(found_after(t, detected)) <= s.max_tracked,
{
    lemma_plan_laws(s, ages, t, c, frame);
    let a = planned_attempts(s, ages, t, c, frame);
    let n = t.len() as int;
    let g = |i: int| !t[i] && detected.contains(i);
    lemma_found_count(t, detected, g, n);
    lemma_count_set(g, n);
    let sg = Set::new(|i: int| 0 <= i < n && g(i));
    assert(sg.subset_of(a.to_set())) by {
        assert forall|i: int| sg.contains(i) implies a.to_set().contains(i) by {
            assert(a.contains(i));
        }
    }
    assert(a.no_duplicates());
    a.unique_seq_to_set();
    vstd::set_lib::lemma_len_subset(sg, a.to_set());
}

/// The markers followed by the tracker are among those found the frame
/// before, so there are no more of them.
pub proof fn lemma_kept_within_found(prev_found: Seq<bool>, t: Seq<bool>, k: int)
    requires
        t.len() == prev_found.len(),
        0 <= k <= t.len(),
        forall|i: int| 0 <= i < t.len() && #[trigger] t[i] ==> prev_found[i],
    ensures
        tracked_upto(t, k) <= tracked_upto(prev_found, k),
    decreases k,
{
    if k > 0 {
        lemma_kept_within_found(prev_found, t, k - 1);
    }
}

/// The ages after one frame: a marker followed by the tracker or detected
/// is at 0, any other one frame older (saturating).
pub open spec fn frame_ages(ages: Seq<u32>, t: Seq<bool>, detected: Set<int>) -> Seq<u32> {
    Seq::new(
        ages.len(),
        |i: int|
            if detected.contains(i) {
                0u32
            } else {
                next_age(ages[i], t[i])
            },
    )
}

/// `plan` followed by `mark_detected` for each detected marker gives the
/// ages of `frame_ages`.
pub proof fn lemma_frame_ages_steps(ages: Seq<u32>, t: Seq<bool>, detected: Set<int>, j: int)
    requires
        t.len() == ages.len(),
        0 <= j < ages.len(),
    ensures
        frame_ages(ages, t, Set::empty()) == aged(ages, t),
        frame_ages(ages, t, detected.insert(j)) == frame_ages(ages, t, detected).update(j, 0),
{
    assert(frame_ages(ages, t, Set::empty()) =~= aged(ages, t));
    assert(frame_ages(ages, t, detected.insert(j)) =~= frame_ages(ages, t, detected).update(j, 0));
}

/// The ages after the frames of `h`, each frame given as (followed by the
/// tracker, detected).
pub open spec fn ages_after(ages: Seq<u32>, h: Seq<(Seq<bool>, Set<int>)>) -> Seq<u32>
    decreases h.len(),
{
    if h.len() == 0 {
        ages
    } else {
        frame_ages(ages_after(ages, h.drop_last()), h.last().0, h.last().1)
    }
}

/// Marker `i` was found in some frame of `h`.
pub open spec fn found_ever(h: Seq<(Seq<bool>, Set<int>)>, i: int) -> bool
    decreases h.len(),
{
    if h.len() == 0 {
        false
    } else {
        h.last().0[i] || h.last().1.contains(i) || found_ever(h.drop_last(), i)
    }
}

/// Frames of `h` since marker `i` was last found (all of them if never).
pub open spec fn frames_since_found(h: Seq<(Seq<bool>, Set<int>)>, i: int) -> nat
    decreases h.len(),
{
    if h.len() == 0 {
        0
    } else if h.last().0[i] || h.last().1.contains(i) {
        0
    } else {
        frames_since_found(h.drop_last(), i) + 1
    }
}

/// `x` saturated at `LOST_AGE_COLD`.
pub open spec fn saturated(x: int) -> u32 {
    if x >= LOST_AGE_COLD {
        LOST_AGE_COLD
    } else {
        x as u32
    }
}

/// A marker's age is the number of frames since it was last followed by
/// the tracker or detected, saturating at `LOST_AGE_COLD`; a marker never
/// found since its starting age has aged by every frame. (So a lost marker
/// is recently lost, and attempted first, exactly when it was found at most
/// `priority_frames` frames ago.)
pub proof fn lemma_age_is_frames_since_found(ages: Seq<u32>, h: Seq<(Seq<bool>, Set<int>)>, i: int)
    requires
        0 <= i < ages.len(),
        forall|f: int| 0 <= f < h.len() ==> (#[trigger] h[f]).0.len() == ages.len(),
    ensures
        ages_after(ages, h).len() == ages.len(),
        ages_after(ages, h)[i] == if found_ever(h, i) {
            saturated(frames_since_found(h, i) as int)
        } else {
            saturated(ages[i] + h.len())
        },
    decreases h.len(),
{
    if h.len() > 0 {
        let hp = h.drop_last();
        assert forall|f: int| 0 <= f < hp.len() implies (#[trigger] hp[f]).0.len() == ages.len() by {
            assert(hp[f] == h[f]);
        }
        lemma_age_is_frames_since_found(ages, hp, i);
        assert(h.last() == h[h.len() - 1]);
    }
}

/// A freshly created scheduler with `n` markers: all cold.
pub open spec fn fresh_ages(n: nat) -> Seq<u32> {
    Seq::new(n, |i: int| LOST_AGE_COLD)
}

/// The ages after `n` calls of `add_marker` on a new scheduler.
pub open spec fn added_ages(n: nat) -> Seq<u32>
    decreases n,
{
    if n == 0 {
        seq![]
    } else {
        added_ages((n - 1) as nat).push(LOST_AGE_COLD)
    }
}

proof fn lemma_added_is_fresh(n: nat)
    ensures
        added_ages(n) == fresh_ages(n),
    decreases n,
{
    if n > 0 {
        lemma_added_is_fresh((n - 1) as nat);
        assert(fresh_ages((n - 1) as nat).push(LOST_AGE_COLD) =~= fresh_ages(n));
    }
}

// ------------------------------------------------------------ laws over a run

/// The scheduler state (ages, cursor, frames planned) after one frame:
/// `plan` with the markers followed by the tracker `t`, then `mark_detected`
/// for each marker in `d` (`lemma_frame_ages_steps`).
pub open spec fn step_state(
    s: DetectSchedule,
    st: (Seq<u32>, nat, nat),
    t: Seq<bool>,
    d: Set<int>,
) -> (Seq<u32>, nat, nat) {
    (frame_ages(st.0, t, d), next_cursor(s, st.0, t, st.1, st.2), next_frame(st.2))
}

/// The scheduler state after the frames of `h`, each given as (followed by
/// the tracker, detected).
pub open spec fn run_state(
    s: DetectSchedule,
    st: (Seq<u32>, nat, nat),
    h: Seq<(Seq<bool>, Set<int>)>,
) -> (Seq<u32>, nat, nat)
    decreases h.len(),
{
    if h.len() == 0 {
        st
    } else {
        step_state(s, run_state(s, st, h.drop_last()), h.last().0, h.last().1)
    }
}

/// The state of a reset scheduler with `n` markers.
pub open spec fn start_state(n: nat) -> (Seq<u32>, nat, nat) {
    (fresh_ages(n), 0, 0)
}

/// The markers planned on frame `f` of the run `h` from the state `st`.
pub open spec fn run_plan(
    s: DetectSchedule,
    st: (Seq<u32>, nat, nat),
    h: Seq<(Seq<bool>, Set<int>)>,
    f: int,
) -> Seq<int> {
    let p = run_state(s, st, h.take(f));
    planned_attempts(s, p.0, h[f].0, p.1, p.2)
}

/// The markers found before frame `f` of `h` (none before the first).
pub open spec fn found_before(n: nat, h: Seq<(Seq<bool>, Set<int>)>, f: int) -> Seq<bool> {
    if f <= 0 {
        none_kept(n)
    } else {
        found_after(h[f - 1].0, h[f - 1].1)
    }
}

/// A run of the frame loop over `n` markers from a new or reset scheduler:
/// every frame the tracker follows only markers found the frame before, and
/// detection acquires only markers planned for that frame.
pub open spec fn loop_run(s: DetectSchedule, n: nat, h: Seq<(Seq<bool>, Set<int>)>) -> bool {
    forall|f: int|
        0 <= f < h.len() ==> {
            &&& (#[trigger] h[f]).0.len() == n
            &&& forall|i: int| 0 <= i < n && h[f].0[i] ==> found_before(n, h, f)[i]
            &&& forall|i: int| h[f].1.contains(i) ==> run_plan(s, start_state(n), h, f).contains(i)
        }
}

/// The scheduler state fits `n` markers.
pub open spec fn state_wf(st: (Seq<u32>, nat, nat), n: nat) -> bool {
    &&& st.0.len() == n
    &&& n == 0 ==> st.1 == 0
    &&& n > 0 ==> st.1 < n
}

proof fn lemma_run_state_wf(s: DetectSchedule, st: (Seq<u32>, nat, nat), h: Seq<(Seq<bool>, Set<int>)>, n: nat)
    requires
        state_wf(st, n),
        forall|g: int| 0 <= g < h.len() ==> (#[trigger] h[g]).0.len() == n,
    ensures
        state_wf(run_state(s, st, h), n),
        run_state(s, st, h).0 == ages_after(st.0, h),
    decreases h.len(),
{
    if h.len() > 0 {
        let hp = h.drop_last();
        assert forall|g: int| 0 <= g < hp.len() implies (#[trigger] hp[g]).0.len() == n by {
            assert(hp[g] == h[g]);
        }
        lemma_run_state_wf(s, st, hp, n);
        let p = run_state(s, st, hp);
        assert(h.last() == h[h.len() - 1]);
        lemma_plan_laws(s, p.0, h.last().0, p.1, p.2);
    }
}

proof fn lemma_run_prefix(s: DetectSchedule, st: (Seq<u32>, nat, nat), h: Seq<(Seq<bool>, Set<int>)>, f: int, n: nat)
    requires
        0 <= f < h.len(),
        state_wf(st, n),
        forall|g: int| 0 <= g < h.len() ==> (#[trigger] h[g]).0.len() == n,
    ensures
        run_state(s, st, h.take(f + 1)) == step_state(s, run_state(s, st, h.take(f)), h[f].0, h[f].1),
        state_wf(run_state(s, st, h.take(f)), n),
        run_state(s, st, h.take(f)).0 == ages_after(st.0, h.take(f)),
        forall|g: int| 0 <= g < h.take(f).len() ==> (#[trigger] h.take(f)[g]).0.len() == n,
{
    assert(h.take(f + 1).drop_last() =~= h.take(f));
    assert(h.take(f + 1).last() == h[f]);
    assert forall|g: int| 0 <= g < h.take(f).len() implies (#[trigger] h.take(f)[g]).0.len() == n by {
        assert(h.take(f)[g] == h[g]);
    }
    lemma_run_state_wf(s, st, h.take(f), n);
}

/// What every frame of a loop run plans: within the budget and the free
/// slots, distinct markers, each in range and not followed by the tracker;
/// the detected markers are among them; the markers found after the frame
/// are those followed or detected, and those followed were found the frame
/// before.
pub proof fn lemma_run_attempts(s: DetectSchedule, n: nat, h: Seq<(Seq<bool>, Set<int>)>, f: int)
    requires
        loop_run(s, n, h),
        0 <= f < h.len(),
    ensures
        ({
            let t = h[f].0;
            let d = h[f].1;
            let a = run_plan(s, start_state(n), h, f);
            &&& a.len() <= frame_budget(s, t)
            &&& frame_budget(s, t) <= s.max_per_frame
            &&& frame_budget(s, t) <= free_slots(s, t)
            &&& forall|k: int| 0 <= k < a.len() ==> 0 <= #[trigger] a[k] < n && !t[a[k]]
            &&& forall|k: int, l: int| 0 <= k < l < a.len() ==> a[k] != a[l]
            &&& forall|i: int| #[trigger] d.contains(i) ==> a.contains(i) && 0 <= i < n && !t[i]
            &&& forall|i: int| 0 <= i < n ==> (#[trigger] found_before(n, h, f + 1)[i] <==> t[i] || d.contains(i))
            &&& forall|i: int| 0 <= i < n && #[trigger] t[i] ==> found_before(n, h, f)[i]
        }),
{
    assert forall|g: int| 0 <= g < h.len() implies (#[trigger] h[g]).0.len() == n by {}
    lemma_run_prefix(s, start_state(n), h, f, n);
    let p = run_state(s, start_state(n), h.take(f));
    let t = h[f].0;
    let d = h[f].1;
    let a = run_plan(s, start_state(n), h, f);
    lemma_plan_laws(s, p.0, t, p.1, p.2);
    assert(h[f] == h[f]);
    assert forall|i: int| #[trigger] d.contains(i) implies a.contains(i) && 0 <= i < n && !t[i] by {
        assert(a.contains(i));
        let k = choose|k: int| 0 <= k < a.len() && a[k] == i;
        assert(0 <= a[k] < n && !t[a[k]]);
    }
}

/// The cap on found markers holds over the whole run.
proof fn lemma_run_within_cap(s: DetectSchedule, n: nat, h: Seq<(Seq<bool>, Set<int>)>, f: int)
    requires
        loop_run(s, n, h),
        0 <= f <= h.len(),
    ensures
        found_before(n, h, f).len() == n,
        tracked_count(found_before(n, h, f)) <= s.max_tracked,
    decreases f,
{
    if f == 0 {
        lemma_none_kept_count(n, n as int);
    } else {
        let g = f - 1;
        lemma_run_within_cap(s, n, h, g);
        assert forall|x: int| 0 <= x < h.len() implies (#[trigger] h[x]).0.len() == n by {}
        lemma_run_prefix(s, start_state(n), h, g, n);
        let p = run_state(s, start_state(n), h.take(g));
        let t = h[g].0;
        let d = h[g].1;
        assert(h[g] == h[g]);
        lemma_kept_within_found(found_before(n, h, g), t, n as int);
        assert forall|i: int| #[trigger] d.contains(i) implies planned_attempts(s, p.0, t, p.1, p.2).contains(i) by {
            assert(run_plan(s, start_state(n), h, g).contains(i));
        }
        lemma_slots_hold(s, p.0, t, p.1, p.2, d);
    }
}

/// Exclusive sessions: over any loop run from a new or reset scheduler, the
/// markers followed plus those attempted never exceed `max_tracked`, nor do
/// the markers found after any frame; with every slot followed, the frame
/// attempts no detection at all.
pub proof fn lemma_exclusive_session(s: DetectSchedule, n: nat, h: Seq<(Seq<bool>, Set<int>)>, f: int)
    requires
        loop_run(s, n, h),
        0 <= f < h.len(),
    ensures
        tracked_count(h[f].0) + run_plan(s, start_state(n), h, f).len() <= s.max_tracked,
        tracked_count(found_before(n, h, f + 1)) <= s.max_tracked,
        tracked_count(h[f].0) >= s.max_tracked ==> run_plan(s, start_state(n), h, f).len() == 0,
{
    lemma_run_within_cap(s, n, h, f);
    lemma_run_within_cap(s, n, h, f + 1);
    assert forall|x: int| 0 <= x < h.len() implies (#[trigger] h[x]).0.len() == n by {}
    lemma_run_prefix(s, start_state(n), h, f, n);
    let p = run_state(s, start_state(n), h.take(f));
    let t = h[f].0;
    let d = h[f].1;
    assert(h[f] == h[f]);
    lemma_kept_within_found(found_before(n, h, f), t, n as int);
    assert forall|i: int| #[trigger] d.contains(i) implies planned_attempts(s, p.0, t, p.1, p.2).contains(i) by {
        assert(run_plan(s, start_state(n), h, f).contains(i));
    }
    lemma_slots_hold(s, p.0, t, p.1, p.2, d);
}

/// Marker `i` is lost on frame `f` of `h` and was found at most
/// `priority_frames` frames ago, counting frame `f`.
pub open spec fn recently_lost(s: DetectSchedule, h: Seq<(Seq<bool>, Set<int>)>, f: int, i: int) -> bool {
    &&& !h[f].0[i]
    &&& found_ever(h.take(f), i)
    &&& frames_since_found(h.take(f), i) + 1 <= s.priority_frames
}

/// The recently lost markers among the first `k` on frame `f`, ascending.
pub open spec fn recent_upto(s: DetectSchedule, h: Seq<(Seq<bool>, Set<int>)>, f: int, k: int) -> Seq<int>
    decreases k,
{
    if k <= 0 {
        seq![]
    } else {
        let p = recent_upto(s, h, f, k - 1);
        if recently_lost(s, h, f, k - 1) {
            p.push(k - 1)
        } else {
            p
        }
    }
}

proof fn lemma_recent_is_priority(
    s: DetectSchedule,
    h: Seq<(Seq<bool>, Set<int>)>,
    f: int,
    ag: Seq<u32>,
    k: int,
)
    requires
        0 <= k <= ag.len(),
        ag.len() == h[f].0.len(),
        forall|i: int| 0 <= i < ag.len() ==> #[trigger] recently_lost(s, h, f, i) == is_priority(s.priority_frames, ag, h[f].0, i),
    ensures
        recent_upto(s, h, f, k) == priority_upto(s.priority_frames, ag, h[f].0, k),
    decreases k,
{
    if k > 0 {
        lemma_recent_is_priority(s, h, f, ag, k - 1);
        assert(recently_lost(s, h, f, k - 1) == is_priority(s.priority_frames, ag, h[f].0, k - 1));
    }
}

/// Recently lost markers come first: on any frame of a run from a new or
/// reset scheduler, the first `min(|P|, budget)` attempts are exactly the
/// first entries of `P`, the markers lost that frame and found at most
/// `priority_frames` frames ago (this frame counted), in ascending order.
/// The budget is `max_per_frame` unless fewer tracking slots are free.
pub proof fn lemma_run_priority_first(s: DetectSchedule, n: nat, h: Seq<(Seq<bool>, Set<int>)>, f: int)
    requires
        forall|g: int| 0 <= g < h.len() ==> (#[trigger] h[g]).0.len() == n,
        0 <= f < h.len(),
        s.priority_frames < LOST_AGE_COLD,
    ensures
        ({
            let pl = recent_upto(s, h, f, n as int);
            let b = frame_budget(s, h[f].0);
            let m = if pl.len() <= b {
                pl.len() as int
            } else {
                b as int
            };
            let a = run_plan(s, start_state(n), h, f);
            &&& m <= a.len()
            &&& a.take(m) == pl.take(m)
            &&& forall|x: int, y: int| 0 <= x < y < pl.len() ==> pl[x] < pl[y]
            &&& forall|i: int| 0 <= i < n ==> (pl.contains(i) <==> #[trigger] recently_lost(s, h, f, i))
            &&& free_slots(s, h[f].0) >= s.max_per_frame ==> b == s.max_per_frame
        }),
{
    lemma_run_prefix(s, start_state(n), h, f, n);
    let hf = h.take(f);
    let p = run_state(s, start_state(n), hf);
    let t = h[f].0;
    let pf = s.priority_frames;
    let ag = aged(p.0, t);
    assert(h[f] == h[f]);
    assert forall|i: int| 0 <= i < ag.len() implies #[trigger] recently_lost(s, h, f, i) == is_priority(pf, ag, t, i) by {
        lemma_age_is_frames_since_found(fresh_ages(n), hf, i);
    }
    lemma_recent_is_priority(s, h, f, ag, n as int);
    let fp = |i: int| is_priority(pf, ag, t, i);
    lemma_priority_upto(pf, ag, t, fp, n as int);
    let pl = recent_upto(s, h, f, n as int);
    let b = frame_budget(s, t);
    let pa = priority_attempts(s, p.0, t);
    let a = run_plan(s, start_state(n), h, f);
    let m = if pl.len() <= b {
        pl.len() as int
    } else {
        b as int
    };
    assert(pa =~= pl.take(m));
    let cm = cold_offsets(s, p.0, t, p.1, p.2).map_values(|j: int| rot(p.1 as int, j, n as int));
    assert(a == pa + cm);
    assert(a.take(m) =~= pa);
    assert forall|i: int| 0 <= i < n implies (pl.contains(i) <==> #[trigger] recently_lost(s, h, f, i)) by {
        if pl.contains(i) {
            let x = choose|x: int| 0 <= x < pl.len() && pl[x] == i;
            assert(is_priority(pf, ag, t, pl[x]));
        }
    }
}

/// Reset forgets everything: from a reset scheduler with `n` markers and
/// from a new one given the same `n` markers, every sequence of frames
/// leads to the same state (ages, cursor and frame count) and plans every
/// frame alike.
pub proof fn lemma_reset_runs_like_new(s: DetectSchedule, n: nat, h: Seq<(Seq<bool>, Set<int>)>)
    ensures
        run_state(s, start_state(n), h) == run_state(s, (added_ages(n), 0nat, 0nat), h),
        forall|f: int|
            0 <= f < h.len() ==> #[trigger] run_plan(s, start_state(n), h, f) == run_plan(
                s,
                (added_ages(n), 0nat, 0nat),
                h,
                f,
            ),
{
    lemma_added_is_fresh(n);
    assert(start_state(n) == (added_ages(n), 0nat, 0nat));
}

/// The round robin resumes just past the last cold marker attempted: after
/// a frame whose last attempt is a cold marker `m`, the cursor is
/// `(m + 1) mod n`, whatever followed markers lay between the attempts;
/// after any other frame the cursor stays where it was.
pub proof fn lemma_cursor_follows_last_attempt(s: DetectSchedule, ages: Seq<u32>, t: Seq<bool>, c: nat, frame: nat)
    requires
        t.len() == ages.len(),
        ages.len() == 0 ==> c == 0,
        ages.len() > 0 ==> c < ages.len(),
    ensures
        ({
            let a = planned_attempts(s, ages, t, c, frame);
            let n = ages.len() as int;
            if a.len() > 0 && is_cold(s.priority_frames, aged(ages, t), t, a.last()) {
                next_cursor(s, ages, t, c, frame) == (a.last() + 1) % n
            } else {
                next_cursor(s, ages, t, c, frame) == c
            }
        }),
{
    let a = planned_attempts(s, ages, t, c, frame);
    let n = ages.len() as int;
    let ag = aged(ages, t);
    let pf = s.priority_frames;
    let pr = priority_upto(pf, ag, t, n);
    let pa = priority_attempts(s, ages, t);
    let offs = cold_offsets(s, ages, t, c, frame);
    let cm = offs.map_values(|j: int| rot(c as int, j, n));
    assert(a == pa + cm);
    let fp = |i: int| is_priority(pf, ag, t, i);
    lemma_priority_upto(pf, ag, t, fp, n);
    assert(forall|k: int| 0 <= k < pa.len() ==> pa[k] == pr[k]);
    if offs.len() > 0 {
        let g = |j: int| is_cold(pf, ag, t, rot(c as int, j, n));
        lemma_cold_upto(pf, ag, t, c as int, g, n);
        let cu = cold_upto(pf, ag, t, c as int, n);
        let j = offs.last();
        assert(j == cu[offs.len() - 1]);
        assert(a.last() == cm[cm.len() - 1]);
        assert(a.last() == rot(c as int, j, n));
        assert(is_cold(pf, ag, t, rot(c as int, j, n)));
        vstd::arithmetic::div_mod::lemma_add_mod_noop(c + j, 1, n);
        if n > 1 {
            vstd::arithmetic::div_mod::lemma_small_mod(1nat, n as nat);
        } else {
            assert(((c + j) % n + 1) % n == 0);
            assert((c + j + 1) % n == 0);
        }
    } else {
        assert(a =~= pa);
        if a.len() > 0 {
            assert(a.last() == pr[a.len() - 1]);
            assert(is_priority(pf, ag, t, a.last()));
        }
    }
}

} // verus!
