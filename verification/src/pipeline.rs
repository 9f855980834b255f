//! Sequence-number deduplication with a bounded reorder window.
use std::collections::HashSet;

use vstd::prelude::*;

use crate::types::SensorReading;

verus! {

/// Classification of a reading after the dedup/ordering gate.
/// Every lossy behavior is observable and counted, never silent.
#[derive(Debug, Clone, Copy, PartialEq, Eq, Structural)]
pub enum Verdict {
    Delivered,
    Duplicate,
    Late,
}

/// `a.saturating_sub(b)` on the integers.
pub open spec fn sat_sub(a: u64, b: u64) -> int {
    if a >= b {
        a - b
    } else {
        0
    }
}

/// The mathematical state of a [`Deduplicator`]: the tracked sequence
/// numbers, the highest sequence number delivered so far, and the window.
pub struct DedupView {
    pub seen: Set<u64>,
    pub high_water: u64,
    pub window: u64,
}

impl DedupView {
    /// The state of a fresh deduplicator.
    pub open spec fn initial(window: u64) -> DedupView {
        DedupView { seen: Set::empty(), high_water: 0, window }
    }

    /// The lowest sequence number still worth tracking.
    pub open spec fn floor(self) -> int {
        sat_sub(self.high_water, self.window)
    }

    /// Well-formedness: a nonzero window, and a finite tracked set that lies
    /// between the floor and the high-water mark.
    pub open spec fn wf(self) -> bool {
        &&& self.window > 0
        &&& self.seen.finite()
        &&& forall|s: u64| #[trigger]
            self.seen.contains(s) ==> self.floor() <= s <= self.high_water
    }

    /// The verdict for a reading with sequence number `seq`.
    pub open spec fn verdict(self, seq: u64) -> Verdict {
        if self.seen.contains(seq) {
            Verdict::Duplicate
        } else if sat_sub(self.high_water, seq) > self.window {
            Verdict::Late
        } else {
            Verdict::Delivered
        }
    }

    /// The state after classifying a reading with sequence number `seq`.
    /// Only a delivery changes it: the sequence number is tracked, and when
    /// it raises the high-water mark, entries that fell below the new floor
    /// are forgotten.
    pub open spec fn step(self, seq: u64) -> DedupView {
        if self.verdict(seq) != Verdict::Delivered {
            self
        } else if seq > self.high_water {
            DedupView {
                seen: self.seen.insert(seq).filter(|s: u64| s >= sat_sub(seq, self.window)),
                high_water: seq,
                window: self.window,
            }
        } else {
            DedupView { seen: self.seen.insert(seq), high_water: self.high_water, window: self.window }
        }
    }
}

/// Sequence-number deduplication with a bounded reorder window.
///
/// - A `seq` seen before (within the tracked set) is a `Duplicate`.
/// - A first-seen `seq` more than `window` behind the high-water mark
///   is `Late`.
/// - Everything else is `Delivered`.
pub struct Deduplicator {
    seen: HashSet<u64>,
    high_water: u64,
    window: u64,
}

impl View for Deduplicator {
    type V = DedupView;

    closed spec fn view(&self) -> DedupView {
        DedupView { seen: self.seen@, high_water: self.high_water, window: self.window }
    }
}

impl Deduplicator {
    #[verifier::type_invariant]
    pub(crate) open spec fn inv(self) -> bool {
        self@.wf()
    }

    /// Keep the seen-set bounded: the tracked sequence numbers of `seen`
    /// that are at least `floor`.
    fn prune(seen: &HashSet<u64>, floor: u64) -> (kept: HashSet<u64>)
        ensures
            kept@ == seen@.filter(|s: u64| s >= floor),
    {
        let mut kept: HashSet<u64> = HashSet::new();
        for s in it: seen.iter()
            invariant
                forall|x: u64| #[trigger] kept@.contains(x) ==> seen@.contains(x) && x >= floor,
                forall|i: int|
                    0 <= i < it.index() ==> *it.seq()[i] >= floor ==> kept@.contains(*it.seq()[i]),
        {
            if *s >= floor {
                kept.insert(*s);
            }
        }
        assert(kept@ =~= seen@.filter(|s: u64| s >= floor));
        kept
    }

    /// A deduplicator with an empty tracked set, high-water mark 0 and the
    /// given window, which must be nonzero.
    pub fn new(window: u64) -> (dd: Self)
        requires
            window > 0,
        ensures
            dd@ == DedupView::initial(window),
            dd@.wf(),
    {
        Deduplicator { seen: HashSet::new(), high_water: 0, window }
    }

    /// Classify one reading, and track it when it is delivered.
    pub fn admit_reading<V>(&mut self, reading: &SensorReading<V>) -> (verdict: Verdict)
        ensures
            verdict == old(self)@.verdict(reading.seq),
            final(self)@ == old(self)@.step(reading.seq),
            final(self)@.wf(),
    {
        proof {
            use_type_invariant(&*self);
        }
        let seq = reading.seq;
        if self.seen.contains(&seq) {
            return Verdict::Duplicate;
        }
        if self.high_water.saturating_sub(seq) > self.window {
            return Verdict::Late;
        }
        // Take the state out whole and rebuild it in one piece, so that the
        // invariant is never observed half-updated.
        let mut taken = Deduplicator { seen: HashSet::new(), high_water: 0, window: self.window };
        std::mem::swap(self, &mut taken);
        let Deduplicator { mut seen, high_water, window } = taken;
        let ghost before = DedupView { seen: seen@, high_water, window };
        if seq > high_water {
            // The frontier moves: entries below the new floor can no longer
            // produce a verdict that distinguishes them from `Late`.
            let floor = seq.saturating_sub(window);
            seen = Self::prune(&seen, floor);
            seen.insert(seq);
            proof {
                assert(seen@ =~= before.seen.insert(seq).filter(|s: u64| s >= floor));
                lemma_step_wf(before, seq);
            }
            *self = Deduplicator { seen, high_water: seq, window };
        } else {
            seen.insert(seq);
            proof {
                lemma_step_wf(before, seq);
            }
            *self = Deduplicator { seen, high_water, window };
        }
        Verdict::Delivered
    }

    /// The highest sequence number delivered so far (0 before any).
    pub fn high_water(&self) -> (hw: u64)
        ensures
            hw == self@.high_water,
            self@.wf(),
    {
        proof {
            use_type_invariant(self);
        }
        self.high_water
    }
}

/// The state after classifying each of `seqs` in turn, starting from `v`.
pub open spec fn run(v: DedupView, seqs: Seq<u64>) -> DedupView
    decreases seqs.len(),
{
    if seqs.len() == 0 {
        v
    } else {
        run(v, seqs.drop_last()).step(seqs.last())
    }
}

/// The verdict given to `seqs[i]` when `seqs` is classified in turn from `v`.
pub open spec fn verdict_at(v: DedupView, seqs: Seq<u64>, i: int) -> Verdict {
    run(v, seqs.take(i)).verdict(seqs[i])
}

/// `seq` can no longer be delivered: it is tracked, or it lags too far.
pub open spec fn settled(v: DedupView, seq: u64) -> bool {
    v.seen.contains(seq) || sat_sub(v.high_water, seq) > v.window
}

/// Classifying a reading keeps a well-formed state well-formed, and never
/// changes the window.
pub proof fn lemma_step_wf(v: DedupView, seq: u64)
    requires
        v.wf(),
    ensures
        v.step(seq).wf(),
        v.step(seq).window == v.window,
{
    if v.verdict(seq) == Verdict::Delivered && seq > v.high_water {
        let n = v.step(seq);
        assert(n.seen.subset_of(v.seen.insert(seq)));
        vstd::set_lib::lemma_len_subset(n.seen, v.seen.insert(seq));
    }
}

/// Runs from a well-formed state stay well-formed and keep the window.
pub proof fn lemma_run_wf(v: DedupView, seqs: Seq<u64>)
    requires
        v.wf(),
    ensures
        run(v, seqs).wf(),
        run(v, seqs).window == v.window,
    decreases seqs.len(),
{
    if seqs.len() > 0 {
        lemma_run_wf(v, seqs.drop_last());
        lemma_step_wf(run(v, seqs.drop_last()), seqs.last());
    }
}

/// A settled sequence number stays settled whatever is classified next.
proof fn lemma_settled_stable(v: DedupView, seq: u64, x: u64)
    requires
        v.wf(),
        settled(v, seq),
    ensures
        settled(v.step(x), seq),
{
}

/// A delivered sequence number is settled right after its delivery.
proof fn lemma_settled_after_delivery(v: DedupView, seq: u64)
    requires
        v.wf(),
        v.verdict(seq) == Verdict::Delivered,
    ensures
        settled(v.step(seq), seq),
{
}

/// Pruning is unobservable: in a well-formed state, a sequence number more
/// than `window` behind the high-water mark is `Late` whether or not it was
/// delivered before, and one within the window is `Duplicate` exactly when
/// it is tracked.
pub proof fn lemma_stale_is_late(v: DedupView, seq: u64)
    requires
        v.wf(),
    ensures
        sat_sub(v.high_water, seq) > v.window ==> v.verdict(seq) == Verdict::Late,
        sat_sub(v.high_water, seq) <= v.window ==> (v.verdict(seq) == Verdict::Duplicate
            <==> v.seen.contains(seq)),
{
}

/// The high-water mark never decreases.
pub proof fn lemma_high_water_monotone(v: DedupView, seq: u64)
    ensures
        v.high_water <= v.step(seq).high_water,
        v.verdict(seq) == Verdict::Delivered ==> seq <= v.step(seq).high_water,
{
}

proof fn lemma_run_prefix(v: DedupView, seqs: Seq<u64>, i: int)
    requires
        0 <= i < seqs.len(),
    ensures
        run(v, seqs.take(i + 1)) == run(v, seqs.take(i)).step(seqs[i]),
{
    assert(seqs.take(i + 1).drop_last() =~= seqs.take(i));
}

/// Once `seqs[i]` is settled, it stays settled for the rest of the run.
proof fn lemma_settled_through(v: DedupView, seqs: Seq<u64>, i: int, j: int)
    requires
        v.wf(),
        0 <= i <= j <= seqs.len(),
        i < seqs.len(),
        settled(run(v, seqs.take(i)), seqs[i]) || verdict_at(v, seqs, i) == Verdict::Delivered,
        j > i,
    ensures
        settled(run(v, seqs.take(j)), seqs[i]),
    decreases j - i,
{
    lemma_run_wf(v, seqs.take(i));
    if j == i + 1 {
        lemma_run_prefix(v, seqs, i);
        let w = run(v, seqs.take(i));
        if settled(w, seqs[i]) {
            lemma_settled_stable(w, seqs[i], seqs[i]);
        } else {
            lemma_settled_after_delivery(w, seqs[i]);
        }
    } else {
        lemma_settled_through(v, seqs, i, j - 1);
        lemma_run_prefix(v, seqs, j - 1);
        lemma_run_wf(v, seqs.take(j - 1));
        lemma_settled_stable(run(v, seqs.take(j - 1)), seqs[i], seqs[j - 1]);
    }
}

/// Each sequence number is delivered at most once: if `seqs[i]` is
/// delivered, a later occurrence of the same number is never delivered.
pub proof fn lemma_delivered_at_most_once(v: DedupView, seqs: Seq<u64>, i: int, j: int)
    requires
        v.wf(),
        0 <= i < j < seqs.len(),
        seqs[i] == seqs[j],
        verdict_at(v, seqs, i) == Verdict::Delivered,
    ensures
        verdict_at(v, seqs, j) != Verdict::Delivered,
{
    lemma_settled_through(v, seqs, i, j);
}

/// The tracked set never holds more than `window + 1` sequence numbers.
pub proof fn lemma_seen_bounded(v: DedupView)
    requires
        v.wf(),
    ensures
        v.seen.len() <= v.window + 1,
{
    let f = |s: u64| s as int;
    let range = vstd::set_lib::set_int_range(v.floor(), v.high_water + 1);
    vstd::set_lib::lemma_int_range(v.floor(), v.high_water + 1);
    let img = v.seen.map(f);
    assert(vstd::relations::injective_on(f, v.seen));
    vstd::set_lib::lemma_map_size(v.seen, img, f);
    assert(img.subset_of(range));
    vstd::set_lib::lemma_len_subset(img, range);
}

/// Every tracked sequence number was delivered earlier in the run.
proof fn lemma_seen_were_delivered(window: u64, seqs: Seq<u64>, k: int)
    requires
        0 <= k <= seqs.len(),
    ensures
        forall|s: u64| #[trigger]
            run(DedupView::initial(window), seqs.take(k)).seen.contains(s) ==> exists|i: int|
                0 <= i < k && seqs[i] == s && verdict_at(DedupView::initial(window), seqs, i)
                    == Verdict::Delivered,
    decreases k,
{
    let v = DedupView::initial(window);
    if k == 0 {
        assert(seqs.take(0) =~= Seq::<u64>::empty());
    } else {
        lemma_seen_were_delivered(window, seqs, k - 1);
        lemma_run_prefix(v, seqs, k - 1);
        let w = run(v, seqs.take(k - 1));
        assert forall|s: u64| #[trigger] run(v, seqs.take(k)).seen.contains(s) implies exists|i: int|
            0 <= i < k && seqs[i] == s && verdict_at(v, seqs, i) == Verdict::Delivered by {
            if w.seen.contains(s) {
                let i = choose|i: int|
                    0 <= i < k - 1 && seqs[i] == s && verdict_at(v, seqs, i) == Verdict::Delivered;
                assert(0 <= i < k);
            } else {
                assert(s == seqs[k - 1]);
                assert(verdict_at(v, seqs, k - 1) == Verdict::Delivered);
            }
        }
    }
}

/// From a fresh deduplicator, a `Duplicate` verdict is only ever given to
/// a sequence number that was delivered earlier in the run.
pub proof fn lemma_duplicate_was_delivered(window: u64, seqs: Seq<u64>, j: int)
    requires
        0 <= j < seqs.len(),
        verdict_at(DedupView::initial(window), seqs, j) == Verdict::Duplicate,
    ensures
        exists|i: int|
            0 <= i < j && seqs[i] == seqs[j] && verdict_at(DedupView::initial(window), seqs, i)
                == Verdict::Delivered,
{
    lemma_seen_were_delivered(window, seqs, j);
    assert(run(DedupView::initial(window), seqs.take(j)).seen.contains(seqs[j]));
}

/// The high-water mark never decreases along a run, and it is at least
/// every sequence number delivered so far.
pub proof fn lemma_high_water_bounds_deliveries(v: DedupView, seqs: Seq<u64>, i: int, k: int)
    requires
        0 <= i < k <= seqs.len(),
    ensures
        run(v, seqs.take(i)).high_water <= run(v, seqs.take(k)).high_water,
        verdict_at(v, seqs, i) == Verdict::Delivered ==> seqs[i] <= run(v, seqs.take(k)).high_water,
    decreases k - i,
{
    lemma_run_prefix(v, seqs, k - 1);
    lemma_high_water_monotone(run(v, seqs.take(k - 1)), seqs[k - 1]);
    if i < k - 1 {
        lemma_high_water_bounds_deliveries(v, seqs, i, k - 1);
    }
}

/// The sequence numbers delivered when `seqs` is classified in turn from `v`.
pub open spec fn delivered(v: DedupView, seqs: Seq<u64>) -> Set<u64>
    decreases seqs.len(),
{
    if seqs.len() == 0 {
        Set::empty()
    } else {
        let prev = seqs.drop_last();
        if run(v, prev).verdict(seqs.last()) == Verdict::Delivered {
            delivered(v, prev).insert(seqs.last())
        } else {
            delivered(v, prev)
        }
    }
}

/// After any run from a fresh deduplicator, the state is determined by the
/// delivery history: the high-water mark is the largest delivered sequence
/// number (0 if none), and the tracked set is exactly the deliveries at or
/// above the floor.
proof fn lemma_state_from_history(window: u64, seqs: Seq<u64>)
    requires
        window > 0,
    ensures
        ({
            let v = run(DedupView::initial(window), seqs);
            let d = delivered(DedupView::initial(window), seqs);
            &&& forall|s: u64| #[trigger] d.contains(s) ==> s <= v.high_water
            &&& v.high_water == 0 || d.contains(v.high_water)
            &&& v.seen == d.filter(|s: u64| s >= v.floor())
            &&& v.window == window
        }),
    decreases seqs.len(),
{
    let init = DedupView::initial(window);
    if seqs.len() == 0 {
        assert(run(init, seqs).seen =~= delivered(init, seqs).filter(
            |s: u64| s >= run(init, seqs).floor(),
        ));
    } else {
        let prev = seqs.drop_last();
        let x = seqs.last();
        lemma_state_from_history(window, prev);
        let v = run(init, seqs);
        let d = delivered(init, seqs);
        if run(init, prev).verdict(x) == Verdict::Delivered {
            assert(v.seen =~= d.filter(|s: u64| s >= v.floor()));
        }
    }
}

/// The classification follows from the delivery history alone: with `D`
/// the sequence numbers delivered so far by a fresh deduplicator, `hw` the
/// largest of them (0 if none) and `floor = hw.saturating_sub(window)`,
/// the next reading is `Late` below the floor, `Duplicate` at or above it
/// when already delivered, and `Delivered` otherwise.
pub proof fn lemma_verdict_from_history(window: u64, seqs: Seq<u64>, seq: u64)
    requires
        window > 0,
    ensures
        ({
            let v = run(DedupView::initial(window), seqs);
            let d = delivered(DedupView::initial(window), seqs);
            &&& forall|s: u64| #[trigger] d.contains(s) ==> s <= v.high_water
            &&& v.high_water == 0 || d.contains(v.high_water)
            &&& v.verdict(seq) == if seq < v.floor() {
                Verdict::Late
            } else if d.contains(seq) {
                Verdict::Duplicate
            } else {
                Verdict::Delivered
            }
        }),
{
    lemma_state_from_history(window, seqs);
    let v = run(DedupView::initial(window), seqs);
    assert(v.seen.contains(seq) <==> delivered(DedupView::initial(window), seqs).filter(
        |s: u64| s >= v.floor(),
    ).contains(seq));
}

} // verus!
