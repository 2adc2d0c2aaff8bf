use std::collections::VecDeque;
use vstd::prelude::*;

use crate::measurement::{is_sorted, Measurement};

verus! {

/// A sample is inside the window that ends at `latest` when it lies at most
/// `window` position units before it.
pub open spec fn in_window(m: Measurement, latest: int, window: int) -> bool {
    m.x >= latest - window
}

/// The samples of `s` inside the window that ends at `latest`, in their order.
pub open spec fn retained(s: Seq<Measurement>, latest: int, window: int) -> Seq<Measurement> {
    s.filter(|m: Measurement| in_window(m, latest, window))
}

/// What a store holding `s` holds after `m` is appended.
///
/// A position below the last stored one marks a restarted stream: everything
/// stored is dropped and `m` stands alone. Otherwise `m` joins the end and
/// only the window ending at `m` is kept.
pub open spec fn after_add(s: Seq<Measurement>, window: int, m: Measurement) -> Seq<Measurement> {
    if s.len() > 0 && m.x < s.last().x {
        seq![m]
    } else {
        retained(s.push(m), m.x as int, window)
    }
}

/// The window, in position units, for a sample rate and a history length:
/// their product, held at `u64::MAX` where it would not fit.
pub open spec fn window_for(fs: nat, history_seconds: nat) -> nat {
    if fs * history_seconds <= u64::MAX {
        fs * history_seconds
    } else {
        u64::MAX as nat
    }
}

/// Every sample fails the window test: nothing is retained.
proof fn lemma_retained_none(s: Seq<Measurement>, latest: int, window: int)
    requires
        forall|i: int| 0 <= i < s.len() ==> !in_window(#[trigger] s[i], latest, window),
    ensures
        retained(s, latest, window) == Seq::<Measurement>::empty(),
    decreases s.len(),
{
    reveal(Seq::filter);
    if s.len() > 0 {
        lemma_retained_none(s.drop_last(), latest, window);
    }
}

/// Every sample passes the window test: all are retained.
proof fn lemma_retained_all(s: Seq<Measurement>, latest: int, window: int)
    requires
        forall|i: int| 0 <= i < s.len() ==> in_window(#[trigger] s[i], latest, window),
    ensures
        retained(s, latest, window) == s,
    decreases s.len(),
{
    reveal(Seq::filter);
    if s.len() > 0 {
        lemma_retained_all(s.drop_last(), latest, window);
    }
}

/// Where the samples before index `k` are outside the window and those from
/// `k` on are inside, the retained samples are the suffix from `k`.
proof fn lemma_retained_is_suffix(s: Seq<Measurement>, latest: int, window: int, k: int)
    requires
        0 <= k <= s.len(),
        forall|i: int| 0 <= i < k ==> !in_window(#[trigger] s[i], latest, window),
        forall|i: int| k <= i < s.len() ==> in_window(#[trigger] s[i], latest, window),
    ensures
        retained(s, latest, window) == s.skip(k),
{
    let pred = |m: Measurement| in_window(m, latest, window);
    assert(s =~= s.take(k) + s.skip(k));
    Seq::filter_distributes_over_add(s.take(k), s.skip(k), pred);
    lemma_retained_none(s.take(k), latest, window);
    lemma_retained_all(s.skip(k), latest, window);
}

/// Filtering a sorted run by a window keeps it sorted, and no retained
/// position exceeds the last position of the run.
proof fn lemma_retained_sorted(s: Seq<Measurement>, latest: int, window: int)
    requires
        is_sorted(s),
    ensures
        is_sorted(retained(s, latest, window)),
        forall|i: int|
            0 <= i < retained(s, latest, window).len() ==> s.len() > 0 && (#[trigger] retained(
                s,
                latest,
                window,
            )[i]).x <= s.last().x,
    decreases s.len(),
{
    reveal(Seq::filter);
    if s.len() > 0 {
        let init = s.drop_last();
        lemma_retained_sorted(init, latest, window);
        let kept = retained(init, latest, window);
        assert forall|i: int| 0 <= i < kept.len() implies (#[trigger] kept[i]).x <= s.last().x by {}
    }
}

/// A window that ends later keeps nothing that an earlier window of the
/// same width dropped.
proof fn lemma_retained_twice(s: Seq<Measurement>, earlier: int, later: int, window: int)
    requires
        earlier <= later,
    ensures
        retained(retained(s, earlier, window), later, window) == retained(s, later, window),
    decreases s.len(),
{
    reveal(Seq::filter);
    if s.len() > 0 {
        let init = s.drop_last();
        lemma_retained_twice(init, earlier, later, window);
        if in_window(s.last(), earlier, window) {
            let kept = retained(init, earlier, window);
            assert(kept.push(s.last()).drop_last() =~= kept);
        }
    }
}

/// What a store that starts empty holds after `samples` are appended one by
/// one, in order, under one window.
pub open spec fn replay(samples: Seq<Measurement>, window: int) -> Seq<Measurement>
    decreases samples.len(),
{
    if samples.len() == 0 {
        Seq::empty()
    } else {
        after_add(replay(samples.drop_last(), window), window, samples.last())
    }
}

/// Appended in non-decreasing position order under one window, the store
/// holds exactly the appended samples that lie inside the window ending at
/// the latest one, in ascending position order.
pub proof fn lemma_replay_keeps_window(samples: Seq<Measurement>, window: nat)
    requires
        is_sorted(samples),
        samples.len() > 0,
    ensures
        replay(samples, window as int) == retained(
            samples,
            samples.last().x as int,
            window as int,
        ),
        is_sorted(replay(samples, window as int)),
        replay(samples, window as int).len() > 0,
        replay(samples, window as int).last() == samples.last(),
    decreases samples.len(),
{
    reveal(Seq::filter);
    let w = window as int;
    let m = samples.last();
    let init = samples.drop_last();
    lemma_retained_sorted(samples, m.x as int, w);
    if init.len() == 0 {
        assert(replay(init, w).push(m) =~= samples);
    } else {
        lemma_replay_keeps_window(init, window);
        let p = init.last();
        let kept = replay(init, w);
        lemma_retained_twice(init, p.x as int, m.x as int, w);
        Seq::lemma_filter_push(kept, m, |s: Measurement| in_window(s, m.x as int, w));
        Seq::lemma_filter_push(init, m, |s: Measurement| in_window(s, m.x as int, w));
    }
}

/// A bounded, position-ordered run of samples: the sliding window of a
/// time series.
///
/// The samples are kept in ascending position order. Appending keeps only
/// those at most `window_size()` position units before the newest one.
pub struct TimeSeriesPlot {
    values: VecDeque<Measurement>,
    max_points: u64,
    fs: u64,
}

impl View for TimeSeriesPlot {
    type V = Seq<Measurement>;

    /// The stored samples, oldest first.
    closed spec fn view(&self) -> Seq<Measurement> {
        self.values@
    }
}

impl TimeSeriesPlot {
    #[verifier::type_invariant]
    spec fn ordered(&self) -> bool {
        is_sorted(self.values@)
    }

    /// How many position units behind the newest sample are kept.
    pub closed spec fn window_size(&self) -> nat {
        self.max_points as nat
    }

    /// The sample rate the store was made with.
    pub closed spec fn sample_rate(&self) -> nat {
        self.fs as nat
    }

    /// An empty store whose window is `fs * history_seconds` position units.
    pub fn new(fs: u64, history_seconds: u64) -> (plot: Self)
        ensures
            plot@ == Seq::<Measurement>::empty(),
            plot.sample_rate() == fs,
            plot.window_size() == window_for(fs as nat, history_seconds as nat),
    {
        let max_points = match fs.checked_mul(history_seconds) {
            Some(points) => points,
            None => u64::MAX,
        };
        TimeSeriesPlot { values: VecDeque::new(), max_points, fs }
    }

    /// Set the number of seconds of history that later appends keep.
    ///
    /// What is stored stays as it is: a sample already evicted does not come
    /// back, and none is evicted before the next append.
    pub fn update_history_s(&mut self, num_seconds: u64)
        ensures
            final(self)@ == old(self)@,
            final(self).sample_rate() == old(self).sample_rate(),
            final(self).window_size() == window_for(old(self).sample_rate(), num_seconds as nat),
    {
        proof {
            use_type_invariant(&*self);
        }
        self.max_points = match self.fs.checked_mul(num_seconds) {
            Some(points) => points,
            None => u64::MAX,
        };
    }

    /// Append the sample `(t, val)` and evict what has left the window.
    pub fn add(&mut self, t: u64, val: u64)
        ensures
            final(self)@ == after_add(
                old(self)@,
                old(self).window_size() as int,
                Measurement { x: t, y: val },
            ),
            old(self)@.len() > 0 && t < old(self)@.last().x ==> final(self)@ == seq![
                Measurement { x: t, y: val },
            ],
            is_sorted(final(self)@),
            final(self)@.len() > 0,
            final(self)@.last() == (Measurement { x: t, y: val }),
            final(self).window_size() == old(self).window_size(),
            final(self).sample_rate() == old(self).sample_rate(),
    {
        proof {
            use_type_invariant(&*self);
        }
        let m = Measurement { x: t, y: val };
        let max_points = self.max_points;
        let mut values: VecDeque<Measurement> = VecDeque::new();
        std::mem::swap(&mut values, &mut self.values);
        let len = values.len();
        let restarted = len > 0 && t < values[len - 1].x;
        if restarted {
            values.clear();
        }
        values.push_back(m);
        let ghost pushed = values@;
        let ghost mut k: int = 0;
        while values.len() > 0 && t - values[0].x > max_points
            invariant
                0 <= k < pushed.len(),
                is_sorted(pushed),
                pushed.last() == m,
                m.x == t,
                values@ == pushed.skip(k),
                forall|i: int|
                    0 <= i < k ==> !in_window(#[trigger] pushed[i], t as int, max_points as int),
            decreases values@.len(),
        {
            values.pop_front();
            proof {
                k = k + 1;
            }
        }
        proof {
            assert forall|i: int| k <= i < pushed.len() implies in_window(
                #[trigger] pushed[i],
                t as int,
                max_points as int,
            ) by {
                assert(pushed[k].x <= pushed[i].x);
            }
            lemma_retained_is_suffix(pushed, t as int, max_points as int, k);
        }
        self.values = values;
    }

    /// Append `val` at the position that `counter` holds, and move the
    /// counter on by one. A counter at `u64::MAX` stays there.
    pub fn add_next(&mut self, counter: &mut u64, val: u64)
        ensures
            final(self)@ == after_add(
                old(self)@,
                old(self).window_size() as int,
                Measurement { x: *old(counter), y: val },
            ),
            *final(counter) == if *old(counter) < u64::MAX {
                *old(counter) + 1
            } else {
                u64::MAX as int
            },
            is_sorted(final(self)@),
            final(self).window_size() == old(self).window_size(),
            final(self).sample_rate() == old(self).sample_rate(),
    {
        self.add(*counter, val);
        if *counter < u64::MAX {
            *counter = *counter + 1;
        }
    }

    /// A copy of the stored samples, oldest first.
    pub fn plot_values(&self) -> (points: Vec<Measurement>)
        ensures
            points@ == self@,
            is_sorted(points@),
    {
        proof {
            use_type_invariant(&*self);
        }
        let mut points: Vec<Measurement> = Vec::new();
        let n = self.values.len();
        let mut i: usize = 0;
        while i < n
            invariant
                n == self.values@.len(),
                0 <= i <= n,
                points@ == self.values@.take(i as int),
            decreases n - i,
        {
            points.push(self.values[i]);
            i = i + 1;
        }
        points
    }

    /// The window in position units.
    pub fn max_points(&self) -> (points: u64)
        ensures
            points == self.window_size(),
    {
        self.max_points
    }

    /// The sample rate the store was made with.
    pub fn fs(&self) -> (rate: u64)
        ensures
            rate == self.sample_rate(),
    {
        self.fs
    }
}

} // verus!
