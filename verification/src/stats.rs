//! Delivery-semantics counters. Every branch the pipeline can take has a
//! number here.
use vstd::prelude::*;

use crate::pipeline::{DedupView, Deduplicator, Verdict};
use crate::types::SourceEvent;

verus! {

#[derive(Debug, Clone, Copy, PartialEq, Eq, Structural)]
pub struct Totals {
    pub delivered: u64,
    pub duplicate: u64,
    pub late: u64,
    pub dropped: u64,
    pub disconnected: u64,
}

impl Totals {
    /// All counters at zero.
    pub open spec fn zero() -> Totals {
        Totals { delivered: 0, duplicate: 0, late: 0, dropped: 0, disconnected: 0 }
    }

    /// The counter that a verdict bumps.
    pub open spec fn count_of(self, verdict: Verdict) -> u64 {
        match verdict {
            Verdict::Delivered => self.delivered,
            Verdict::Duplicate => self.duplicate,
            Verdict::Late => self.late,
        }
    }

    /// The totals after recording one verdict.
    pub open spec fn with_verdict(self, verdict: Verdict) -> Totals {
        match verdict {
            Verdict::Delivered => Totals { delivered: (self.delivered + 1) as u64, ..self },
            Verdict::Duplicate => Totals { duplicate: (self.duplicate + 1) as u64, ..self },
            Verdict::Late => Totals { late: (self.late + 1) as u64, ..self },
        }
    }

    /// Readings the deduplicator adjudicated.
    pub open spec fn adjudicated(self) -> int {
        self.delivered + self.duplicate + self.late
    }
}

impl Default for Totals {
    fn default() -> (t: Totals)
        ensures
            t == Totals::zero(),
    {
        Totals { delivered: 0, duplicate: 0, late: 0, dropped: 0, disconnected: 0 }
    }
}

#[derive(Debug, Clone, PartialEq)]
pub struct Stats {
    totals: Totals,
}

impl View for Stats {
    type V = Totals;

    closed spec fn view(&self) -> Totals {
        self.totals
    }
}

impl Default for Stats {
    fn default() -> (s: Stats)
        ensures
            s@ == Totals::zero(),
    {
        Stats { totals: Totals::default() }
    }
}

impl Stats {
    /// Count one verdict in its own branch.
    pub fn record(&mut self, verdict: Verdict)
        requires
            old(self)@.count_of(verdict) < u64::MAX,
        ensures
            final(self)@ == old(self)@.with_verdict(verdict),
    {
        match verdict {
            Verdict::Delivered => self.totals.delivered = self.totals.delivered + 1,
            Verdict::Duplicate => self.totals.duplicate = self.totals.duplicate + 1,
            Verdict::Late => self.totals.late = self.totals.late + 1,
        }
    }

    /// Count one buffer-level drop. Kept distinct from source-level drops
    /// in the API even though both land in the same counter.
    pub fn record_drop(&mut self)
        requires
            old(self)@.dropped < u64::MAX,
        ensures
            final(self)@ == (Totals { dropped: (old(self)@.dropped + 1) as u64, ..old(self)@ }),
    {
        self.totals.dropped = self.totals.dropped + 1;
    }

    /// Count one disconnect.
    pub fn record_disconnect(&mut self)
        requires
            old(self)@.disconnected < u64::MAX,
        ensures
            final(self)@ == (Totals {
                disconnected: (old(self)@.disconnected + 1) as u64,
                ..old(self)@
            }),
    {
        self.totals.disconnected = self.totals.disconnected + 1;
    }

    pub fn totals(&self) -> (t: Totals)
        ensures
            t == self@,
    {
        self.totals
    }

    /// Readings the deduplicator actually adjudicated (excludes the ones
    /// the source never emitted).
    pub fn total_adjudicated(&self) -> (n: u64)
        requires
            self@.adjudicated() <= u64::MAX,
        ensures
            n == self@.adjudicated(),
    {
        let t = self.totals;
        t.delivered + t.duplicate + t.late
    }
}

/// The totals after recording each of `verdicts` in turn, starting from `t`.
pub open spec fn tally(t: Totals, verdicts: Seq<Verdict>) -> Totals
    decreases verdicts.len(),
{
    if verdicts.len() == 0 {
        t
    } else {
        tally(t, verdicts.drop_last()).with_verdict(verdicts.last())
    }
}

/// How many of `verdicts` equal `v`.
pub open spec fn occurrences(verdicts: Seq<Verdict>, v: Verdict) -> nat
    decreases verdicts.len(),
{
    if verdicts.len() == 0 {
        0
    } else {
        occurrences(verdicts.drop_last(), v) + if verdicts.last() == v {
            1nat
        } else {
            0nat
        }
    }
}

/// Counted, never silent: starting from zero, each counter holds exactly
/// the number of verdicts of its kind, so the adjudicated total is the
/// number of verdicts recorded, and the other counters are untouched.
pub proof fn lemma_tally_counts_every_verdict(verdicts: Seq<Verdict>)
    requires
        verdicts.len() < u64::MAX,
    ensures
        tally(Totals::zero(), verdicts).delivered == occurrences(verdicts, Verdict::Delivered),
        tally(Totals::zero(), verdicts).duplicate == occurrences(verdicts, Verdict::Duplicate),
        tally(Totals::zero(), verdicts).late == occurrences(verdicts, Verdict::Late),
        tally(Totals::zero(), verdicts).adjudicated() == verdicts.len(),
        tally(Totals::zero(), verdicts).dropped == 0,
        tally(Totals::zero(), verdicts).disconnected == 0,
    decreases verdicts.len(),
{
    if verdicts.len() > 0 {
        lemma_tally_counts_every_verdict(verdicts.drop_last());
    }
}

/// Each counter is the number of verdicts of its kind, however they are
/// ordered: `occurrences` is the multiplicity in the multiset of verdicts.
proof fn lemma_occurrences_is_count(verdicts: Seq<Verdict>, v: Verdict)
    ensures
        occurrences(verdicts, v) == verdicts.to_multiset().count(v),
    decreases verdicts.len(),
{
    broadcast use vstd::seq_lib::group_to_multiset_ensures;

    if verdicts.len() > 0 {
        lemma_occurrences_is_count(verdicts.drop_last(), v);
        assert(verdicts.drop_last().push(verdicts.last()) =~= verdicts);
    } else {
        assert(verdicts.to_multiset() =~= vstd::multiset::Multiset::empty());
    }
}

/// The totals do not depend on the order in which verdicts are recorded:
/// starting from zero, recording any rearrangement of the same verdicts
/// gives the same totals.
pub proof fn lemma_tally_order_independent(verdicts: Seq<Verdict>, reordered: Seq<Verdict>)
    requires
        verdicts.len() < u64::MAX,
        reordered.to_multiset() == verdicts.to_multiset(),
    ensures
        tally(Totals::zero(), reordered) == tally(Totals::zero(), verdicts),
{
    broadcast use vstd::seq_lib::group_to_multiset_ensures;

    assert(reordered.len() == verdicts.len()) by {
        verdicts.to_multiset_ensures();
        reordered.to_multiset_ensures();
    }
    lemma_tally_counts_every_verdict(verdicts);
    lemma_tally_counts_every_verdict(reordered);
    lemma_occurrences_is_count(verdicts, Verdict::Delivered);
    lemma_occurrences_is_count(verdicts, Verdict::Duplicate);
    lemma_occurrences_is_count(verdicts, Verdict::Late);
    lemma_occurrences_is_count(reordered, Verdict::Delivered);
    lemma_occurrences_is_count(reordered, Verdict::Duplicate);
    lemma_occurrences_is_count(reordered, Verdict::Late);
}

/// The deduplicator state and totals after feeding one event through the
/// pipeline.
pub open spec fn ingest_step<V>(dd: DedupView, t: Totals, event: SourceEvent<V>) -> (DedupView, Totals) {
    match event {
        SourceEvent::Reading(r) => (dd.step(r.seq), t.with_verdict(dd.verdict(r.seq))),
        SourceEvent::Disconnected => (
            dd,
            Totals { disconnected: (t.disconnected + 1) as u64, ..t },
        ),
    }
}

/// The deduplicator state and totals after feeding each of `events` in turn.
pub open spec fn ingest_run<V>(dd: DedupView, t: Totals, events: Seq<SourceEvent<V>>) -> (
    DedupView,
    Totals,
)
    decreases events.len(),
{
    if events.len() == 0 {
        (dd, t)
    } else {
        let prev = ingest_run(dd, t, events.drop_last());
        ingest_step(prev.0, prev.1, events.last())
    }
}

/// How many of `events` are readings.
pub open spec fn readings_in<V>(events: Seq<SourceEvent<V>>) -> nat
    decreases events.len(),
{
    if events.len() == 0 {
        0
    } else {
        readings_in(events.drop_last()) + if events.last() is Reading {
            1nat
        } else {
            0nat
        }
    }
}

/// Every event is counted exactly once: from a fresh deduplicator and zero
/// totals, each reading lands in exactly one verdict counter and each
/// disconnect in the disconnect counter; nothing else is counted.
pub proof fn lemma_every_event_counted_once<V>(window: u64, events: Seq<SourceEvent<V>>)
    requires
        events.len() < u64::MAX,
    ensures
        ingest_run(DedupView::initial(window), Totals::zero(), events).1.adjudicated()
            == readings_in(events),
        ingest_run(DedupView::initial(window), Totals::zero(), events).1.disconnected
            == events.len() - readings_in(events),
        ingest_run(DedupView::initial(window), Totals::zero(), events).1.dropped == 0,
    decreases events.len(),
{
    if events.len() > 0 {
        lemma_every_event_counted_once(window, events.drop_last());
    }
}

/// Feed one source event through the pipeline: a reading is adjudicated by
/// the deduplicator and its verdict counted; a disconnect is counted.
pub fn ingest<V>(dd: &mut Deduplicator, stats: &mut Stats, event: &SourceEvent<V>)
    requires
        match *event {
            SourceEvent::Reading(r) => old(stats)@.count_of(old(dd)@.verdict(r.seq)) < u64::MAX,
            SourceEvent::Disconnected => old(stats)@.disconnected < u64::MAX,
        },
    ensures
        (final(dd)@, final(stats)@) == ingest_step(old(dd)@, old(stats)@, *event),
{
    match event {
        SourceEvent::Reading(r) => {
            let verdict = dd.admit_reading(r);
            stats.record(verdict);
        },
        SourceEvent::Disconnected => stats.record_disconnect(),
    }
}

} // verus!
