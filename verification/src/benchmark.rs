//! The decisions of the latency benchmark.
//!
//! The benchmark measures, for each requested number of matches in turn, a
//! fixed number of searches, and reports the mean of their durations. Running
//! a search and reading a clock are the caller's part. The driver below says
//! which search is due, takes each measured duration, and hands out a report
//! whenever a round is complete.

use vstd::prelude::*;

verus! {

/// The parameters of a benchmark run.
pub struct BenchmarkConfig {
    /// The number of vectors in the corpus.
    pub corpus_size: usize,
    /// The number of components of each vector.
    pub dimension: usize,
    /// Components are drawn from `-component_bound` up to, but not including,
    /// `component_bound`.
    pub component_bound: u32,
    /// The numbers of matches to search for, one round each.
    pub top_ks: Vec<usize>,
    /// The number of searches measured in each round.
    pub repeats: usize,
}

impl BenchmarkConfig {
    /// The standard run: 16384 vectors of 512 components within ±100000,
    /// searched for 1, 2, 5 and 25 matches, ten times each.
    pub fn standard() -> (config: BenchmarkConfig)
        ensures
            config.corpus_size == 16384,
            config.dimension == 512,
            config.component_bound == 100000,
            config.top_ks@ == seq![1usize, 2usize, 5usize, 25usize],
            config.repeats == 10,
    {
        let mut top_ks: Vec<usize> = Vec::new();
        top_ks.push(1);
        top_ks.push(2);
        top_ks.push(5);
        top_ks.push(25);
        BenchmarkConfig { corpus_size: 16384, dimension: 512, component_bound: 100000, top_ks, repeats: 10 }
    }
}

/// The sum of the durations.
pub open spec fn total(durations: Seq<u64>) -> int
    decreases durations.len(),
{
    if durations.len() == 0 {
        0
    } else {
        total(durations.drop_last()) + durations.last()
    }
}

/// The arithmetic mean of the durations, rounded down.
pub open spec fn mean(durations: Seq<u64>) -> int
    recommends
        durations.len() > 0,
{
    total(durations) / (durations.len() as int)
}

/// The sum of `n` durations is at most `n` times the largest duration there is.
proof fn lemma_total_is_bounded(durations: Seq<u64>)
    ensures
        0 <= total(durations) <= durations.len() * u64::MAX,
    decreases durations.len(),
{
    if durations.len() > 0 {
        lemma_total_is_bounded(durations.drop_last());
        assert((durations.len() - 1) * u64::MAX + u64::MAX == durations.len() * u64::MAX)
            by (nonlinear_arith);
    }
}

/// The arithmetic mean of the durations, rounded down, or `None` where there
/// is no duration.
pub fn mean_duration(durations: &Vec<u64>) -> (result: Option<u64>)
    ensures
        durations.len() == 0 <==> result is None,
        result matches Some(m) ==> m == mean(durations@),
{
    let count: usize = durations.len();
    if count == 0 {
        return None;
    }
    let mut sum: u128 = 0;
    let mut at: usize = 0;
    while at < count
        invariant
            count == durations.len(),
            at <= count,
            sum == total(durations@.take(at as int)),
        decreases count - at,
    {
        proof {
            let upto = durations@.take(at + 1);
            assert(upto.drop_last() =~= durations@.take(at as int));
            lemma_total_is_bounded(upto);
            assert(upto.len() * u64::MAX <= 0x1_0000_0000_0000_0000 * u64::MAX) by (nonlinear_arith)
                requires
                    upto.len() <= 0x1_0000_0000_0000_0000,
            ;
        }
        sum = sum + durations[at] as u128;
        at += 1;
    }
    proof {
        assert(durations@.take(count as int) =~= durations@);
        lemma_total_is_bounded(durations@);
        let n = count as int;
        let t = total(durations@);
        assert(t / n <= u64::MAX) by (nonlinear_arith)
            requires
                n > 0,
                0 <= t <= n * u64::MAX,
        ;
        assert(0 <= t / n) by (nonlinear_arith)
            requires
                n > 0,
                0 <= t,
        ;
    }
    Some((sum / (count as u128)) as u64)
}

/// The outcome of one round: the mean duration, in nanoseconds, of the
/// searches for `top_k`.
#[derive(Clone, Copy, Debug, PartialEq, Eq)]
pub struct Report {
    pub top_k: usize,
    pub mean_ns: u64,
}

/// Where a benchmark stands.
pub struct Progress {
    /// The numbers of matches to search for, one round each.
    pub top_ks: Seq<usize>,
    /// The number of searches measured in each round.
    pub repeats: nat,
    /// The number of complete rounds.
    pub round: nat,
    /// The durations measured in the current round so far.
    pub elapsed: Seq<u64>,
}

impl Progress {
    /// The state is one that a benchmark can be in.
    pub open spec fn well_formed(self) -> bool {
        &&& self.repeats > 0
        &&& self.round <= self.top_ks.len()
        &&& self.elapsed.len() < self.repeats
        &&& self.round == self.top_ks.len() ==> self.elapsed.len() == 0
    }

    /// Every round is complete.
    pub open spec fn is_finished(self) -> bool {
        self.round >= self.top_ks.len()
    }

    /// The state before the first search.
    pub open spec fn start(top_ks: Seq<usize>, repeats: nat) -> Progress {
        Progress { top_ks, repeats, round: 0, elapsed: Seq::empty() }
    }

    /// The number of matches that the next search is for, if one is due.
    pub open spec fn due(self) -> Option<usize> {
        if self.is_finished() {
            None
        } else {
            Some(self.top_ks[self.round as int])
        }
    }

    /// The current round is complete once one more duration is measured.
    pub open spec fn completes_round(self) -> bool {
        !self.is_finished() && self.elapsed.len() + 1 >= self.repeats
    }

    /// The state after the search that was due took `elapsed_ns`. A finished
    /// benchmark stays as it is.
    pub open spec fn after(self, elapsed_ns: u64) -> Progress {
        if self.is_finished() {
            self
        } else if self.completes_round() {
            Progress { round: self.round + 1, elapsed: Seq::empty(), ..self }
        } else {
            Progress { elapsed: self.elapsed.push(elapsed_ns), ..self }
        }
    }

    /// The report that is due after the search that was due took
    /// `elapsed_ns`: that of the round which this search completes.
    pub open spec fn report_after(self, elapsed_ns: u64) -> Option<Report> {
        if self.completes_round() {
            Some(
                Report {
                    top_k: self.top_ks[self.round as int],
                    mean_ns: mean(self.elapsed.push(elapsed_ns)) as u64,
                },
            )
        } else {
            None
        }
    }

    /// The state after the searches that were due, one after another, took
    /// `timings`.
    pub open spec fn after_all(self, timings: Seq<u64>) -> Progress
        decreases timings.len(),
    {
        if timings.len() == 0 {
            self
        } else {
            self.after_all(timings.drop_last()).after(timings.last())
        }
    }

    /// The reports handed out, in order, while the searches that were due
    /// took `timings`.
    pub open spec fn reports_during(self, timings: Seq<u64>) -> Seq<Report>
        decreases timings.len(),
    {
        if timings.len() == 0 {
            Seq::empty()
        } else {
            let earlier = self.reports_during(timings.drop_last());
            match self.after_all(timings.drop_last()).report_after(timings.last()) {
                Some(report) => earlier.push(report),
                None => earlier,
            }
        }
    }
}

/// The driver of a benchmark run.
pub struct Benchmark {
    top_ks: Vec<usize>,
    repeats: usize,
    round: usize,
    elapsed: Vec<u64>,
}

impl View for Benchmark {
    type V = Progress;

    closed spec fn view(&self) -> Progress {
        Progress {
            top_ks: self.top_ks@,
            repeats: self.repeats as nat,
            round: self.round as nat,
            elapsed: self.elapsed@,
        }
    }
}

impl Benchmark {
    #[verifier::type_invariant]
    spec fn holds_progress(self) -> bool {
        self@.well_formed()
    }

    /// A benchmark of one round for each of `top_ks`, each of `repeats`
    /// searches, or `None` where `repeats` is zero and no mean exists.
    pub fn new(top_ks: Vec<usize>, repeats: usize) -> (created: Option<Benchmark>)
        ensures
            repeats == 0 <==> created is None,
            created matches Some(benchmark) ==> benchmark@ == Progress::start(top_ks@, repeats as nat),
    {
        if repeats == 0 {
            None
        } else {
            Some(Benchmark { top_ks, repeats, round: 0, elapsed: Vec::new() })
        }
    }

    /// The number of matches to search for next, or `None` when every round
    /// is complete.
    pub fn next_search(&self) -> (due: Option<usize>)
        ensures
            self@.well_formed(),
            due == self@.due(),
    {
        proof {
            use_type_invariant(self);
        }
        if self.round < self.top_ks.len() {
            Some(self.top_ks[self.round])
        } else {
            None
        }
    }

    /// Takes the duration of the search that was due. Where that search
    /// completes a round, the round's report is returned and the next round
    /// begins. A finished benchmark takes nothing and reports nothing.
    pub fn record(&mut self, elapsed_ns: u64) -> (report: Option<Report>)
        ensures
            final(self)@.well_formed(),
            final(self)@ == old(self)@.after(elapsed_ns),
            report == old(self)@.report_after(elapsed_ns),
    {
        proof {
            use_type_invariant(&*self);
        }
        if self.round >= self.top_ks.len() {
            return None;
        }
        let mut elapsed: Vec<u64> = Vec::new();
        std::mem::swap(&mut elapsed, &mut self.elapsed);
        elapsed.push(elapsed_ns);
        if elapsed.len() < self.repeats {
            self.elapsed = elapsed;
            return None;
        }
        let mean_ns = match mean_duration(&elapsed) {
            Some(m) => m,
            None => 0,
        };
        let report = Report { top_k: self.top_ks[self.round], mean_ns };
        self.round = self.round + 1;
        Some(report)
    }
}

/// The timings of round `k` where every round takes `repeats` of them.
pub open spec fn round_timings(timings: Seq<u64>, repeats: nat, k: int) -> Seq<u64> {
    timings.subrange(k * repeats, (k + 1) * repeats)
}

/// The reports of the first `rounds` rounds: for each, its number of matches
/// and the mean of its own timings.
pub open spec fn round_reports(top_ks: Seq<usize>, repeats: nat, timings: Seq<u64>, rounds: nat) -> Seq<
    Report,
> {
    Seq::new(
        rounds,
        |k: int| Report { top_k: top_ks[k], mean_ns: mean(round_timings(timings, repeats, k)) as u64 },
    )
}

/// Where a benchmark stands after `rounds` complete rounds and `extra`
/// searches of the next one, and what it has reported by then.
proof fn lemma_progress_within_run(top_ks: Seq<usize>, repeats: nat, timings: Seq<u64>, rounds: int, extra: int)
    requires
        repeats > 0,
        0 <= extra < repeats,
        0 <= rounds <= top_ks.len(),
        rounds == top_ks.len() ==> extra == 0,
        rounds * repeats + extra <= timings.len(),
    ensures
        Progress::start(top_ks, repeats).after_all(timings.take(rounds * repeats + extra)) == (Progress {
            top_ks,
            repeats,
            round: rounds as nat,
            elapsed: timings.subrange(rounds * repeats, rounds * repeats + extra),
        }),
        Progress::start(top_ks, repeats).reports_during(timings.take(rounds * repeats + extra))
            == round_reports(top_ks, repeats, timings, rounds as nat),
    decreases rounds, extra,
{
    let begin = Progress::start(top_ks, repeats);
    let n = rounds * repeats + extra;
    let taken = timings.take(n);
    assert(rounds * repeats >= 0) by (nonlinear_arith)
        requires
            rounds >= 0,
            repeats >= 0,
    ;
    if rounds == 0 && extra == 0 {
        assert(0 * repeats == 0) by (nonlinear_arith);
        assert(timings.subrange(0, 0) =~= Seq::<u64>::empty());
    } else {
        assert(n >= 1) by (nonlinear_arith)
            requires
                n == rounds * repeats + extra,
                rounds >= 0,
                extra >= 0,
                repeats > 0,
                rounds > 0 || extra > 0,
        ;
        assert(taken.drop_last() =~= timings.take(n - 1));
        if extra > 0 {
            lemma_progress_within_run(top_ks, repeats, timings, rounds, extra - 1);
            let before = begin.after_all(timings.take(n - 1));
            assert(before.elapsed.push(timings[n - 1]) =~= timings.subrange(rounds * repeats, n));
        } else {
            let full = rounds - 1;
            assert(full * repeats + repeats == rounds * repeats) by (nonlinear_arith)
                requires
                    full + 1 == rounds,
            ;
            assert(full * repeats >= 0) by (nonlinear_arith)
                requires
                    full >= 0,
                    repeats >= 0,
            ;
            lemma_progress_within_run(top_ks, repeats, timings, full, repeats - 1);
            let before = begin.after_all(timings.take(n - 1));
            assert(before.elapsed.push(timings[n - 1]) =~= round_timings(timings, repeats, full)) by {
                assert((full + 1) * repeats == rounds * repeats) by (nonlinear_arith)
                    requires
                        full + 1 == rounds,
                ;
            }
            assert(timings.subrange(n, n) =~= Seq::<u64>::empty());
            assert(round_reports(top_ks, repeats, timings, full as nat).push(
                Report {
                    top_k: top_ks[full],
                    mean_ns: mean(round_timings(timings, repeats, full)) as u64,
                },
            ) =~= round_reports(top_ks, repeats, timings, rounds as nat));
        }
    }
}

/// A benchmark that is given one timing for each search it asks for, `repeats`
/// for each of `top_ks`, ends finished, and has by then handed out one report
/// for each of `top_ks`, in their order, each with the mean of the timings of
/// its own round.
pub proof fn lemma_run_reports_each_round(top_ks: Seq<usize>, repeats: nat, timings: Seq<u64>)
    requires
        repeats > 0,
        timings.len() == top_ks.len() * repeats,
    ensures
        Progress::start(top_ks, repeats).after_all(timings).is_finished(),
        Progress::start(top_ks, repeats).after_all(timings).well_formed(),
        Progress::start(top_ks, repeats).reports_during(timings) == round_reports(
            top_ks,
            repeats,
            timings,
            top_ks.len(),
        ),
{
    let rounds = top_ks.len() as int;
    lemma_progress_within_run(top_ks, repeats, timings, rounds, 0);
    assert(timings.take(rounds * repeats + 0) =~= timings);
}

/// A benchmark is not finished before it has a timing for every search: after
/// fewer timings than `repeats` for each of `top_ks`, a search is still due.
pub proof fn lemma_run_is_not_finished_early(top_ks: Seq<usize>, repeats: nat, timings: Seq<u64>, rounds: nat, extra: nat)
    requires
        repeats > 0,
        extra < repeats,
        rounds < top_ks.len(),
        timings.len() == rounds * repeats + extra,
    ensures
        Progress::start(top_ks, repeats).after_all(timings).due() == Some(top_ks[rounds as int]),
{
    lemma_progress_within_run(top_ks, repeats, timings, rounds as int, extra as int);
    assert(timings.take(rounds as int * repeats + extra) =~= timings);
}

/// The mean of durations fits the type of a duration.
pub proof fn lemma_mean_is_a_duration(durations: Seq<u64>)
    requires
        durations.len() > 0,
    ensures
        0 <= mean(durations) <= u64::MAX,
{
    lemma_total_is_bounded(durations);
    let n = durations.len() as int;
    let t = total(durations);
    assert(0 <= t / n <= u64::MAX) by (nonlinear_arith)
        requires
            n > 0,
            0 <= t <= n * u64::MAX,
    ;
}

} // verus!
