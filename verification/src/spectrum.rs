use vstd::arithmetic::div_mod::lemma_div_is_ordered;
use vstd::prelude::*;

use crate::measurement::{is_sorted, Measurement};

verus! {

/// Where bin `i` of `n` lies on an axis that runs from 0 up to `max_freq`:
/// `i * max_freq / n`, in whole position units, rounded down.
pub open spec fn bin_position(i: int, n: int, max_freq: int) -> int {
    (i * max_freq) / n
}

/// The snapshot made of one spectrum: one sample per value, value `i` of `n`
/// at `bin_position(i, n, max_freq)`.
pub open spec fn spectrum(values: Seq<u64>, max_freq: u64) -> Seq<Measurement> {
    Seq::new(
        values.len(),
        |i: int|
            Measurement {
                x: bin_position(i, values.len() as int, max_freq as int) as u64,
                y: values[i],
            },
    )
}

/// A bin's position is a whole number between 0 and `max_freq`.
proof fn lemma_bin_in_range(i: int, n: int, max_freq: int)
    requires
        0 <= i < n,
        0 <= max_freq,
    ensures
        0 <= bin_position(i, n, max_freq) <= max_freq,
{
    assert(0 <= i * max_freq <= n * max_freq) by (nonlinear_arith)
        requires
            0 <= i < n,
            0 <= max_freq,
    ;
    assert(0 <= (i * max_freq) / n <= max_freq) by (nonlinear_arith)
        requires
            0 <= i * max_freq <= n * max_freq,
            0 < n,
    ;
}

/// Bins further along lie no lower on the axis.
proof fn lemma_bins_ascend(i: int, j: int, n: int, max_freq: int)
    requires
        0 <= i <= j < n,
        0 <= max_freq,
    ensures
        bin_position(i, n, max_freq) <= bin_position(j, n, max_freq),
{
    assert(i * max_freq <= j * max_freq) by (nonlinear_arith)
        requires
            0 <= i <= j,
            0 <= max_freq,
    ;
    lemma_div_is_ordered(i * max_freq, j * max_freq, n);
}

/// The frequency axis of a spectrum runs upwards.
pub proof fn lemma_spectrum_sorted(values: Seq<u64>, max_freq: u64)
    ensures
        is_sorted(spectrum(values, max_freq)),
{
    let s = spectrum(values, max_freq);
    let n = values.len() as int;
    assert forall|i: int, j: int| 0 <= i <= j < s.len() implies s[i].x <= s[j].x by {
        lemma_bin_in_range(i, n, max_freq as int);
        lemma_bin_in_range(j, n, max_freq as int);
        lemma_bins_ascend(i, j, n, max_freq as int);
    }
}

/// The position of bin `i` of `n`, computed without overflow.
fn bin_at(i: usize, n: usize, max_freq: u64) -> (x: u64)
    requires
        i < n,
    ensures
        x == bin_position(i as int, n as int, max_freq as int),
{
    proof {
        lemma_bin_in_range(i as int, n as int, max_freq as int);
        assert(i * max_freq <= 0xffff_ffff_ffff_ffff * 0xffff_ffff_ffff_ffff) by (nonlinear_arith)
            requires
                0 <= i <= 0xffff_ffff_ffff_ffff,
                0 <= max_freq <= 0xffff_ffff_ffff_ffff,
        ;
    }
    let scaled: u128 = (i as u128) * (max_freq as u128);
    (scaled / (n as u128)) as u64
}

/// The latest spectrum: each append replaces the one before.
///
/// The samples stand on a frequency axis made anew at each append, from
/// the number of values and the maximum frequency of that moment.
pub struct FFTPlot {
    values: Vec<Measurement>,
    max_freq: u64,
}

impl View for FFTPlot {
    type V = Seq<Measurement>;

    /// The stored snapshot, lowest bin first.
    closed spec fn view(&self) -> Seq<Measurement> {
        self.values@
    }
}

impl FFTPlot {
    /// The position at which the axis of the next spectrum ends.
    pub closed spec fn max_frequency(&self) -> u64 {
        self.max_freq
    }

    /// An empty store whose axis ends at `max_freq`.
    pub fn new(max_freq: u64) -> (plot: Self)
        ensures
            plot@ == Seq::<Measurement>::empty(),
            plot.max_frequency() == max_freq,
    {
        FFTPlot { values: Vec::new(), max_freq }
    }

    /// Set where the axis of later spectra ends. The stored snapshot stays.
    pub fn set_f_max(&mut self, max_freq: u64)
        ensures
            final(self)@ == old(self)@,
            final(self).max_frequency() == max_freq,
    {
        self.max_freq = max_freq;
    }

    /// Replace the snapshot by the spectrum `values`.
    pub fn add(&mut self, values: Vec<u64>)
        ensures
            final(self)@ == spectrum(values@, old(self).max_frequency()),
            final(self)@.len() == values@.len(),
            is_sorted(final(self)@),
            final(self).max_frequency() == old(self).max_frequency(),
    {
        let n = values.len();
        let max_freq = self.max_freq;
        let ghost target = spectrum(values@, max_freq);
        let mut bins: Vec<Measurement> = Vec::with_capacity(n);
        let mut i: usize = 0;
        while i < n
            invariant
                n == values@.len(),
                0 <= i <= n,
                target == spectrum(values@, max_freq),
                bins@ == target.take(i as int),
            decreases n - i,
        {
            let x = bin_at(i, n, max_freq);
            bins.push(Measurement { x, y: values[i] });
            i = i + 1;
        }
        proof {
            lemma_spectrum_sorted(values@, max_freq);
        }
        self.values = bins;
    }

    /// A copy of the stored snapshot, lowest bin first.
    pub fn plot_values(&self) -> (points: Vec<Measurement>)
        ensures
            points@ == self@,
    {
        self.values.clone()
    }

    /// The position at which the axis of the next spectrum ends.
    pub fn max_freq(&self) -> (freq: u64)
        ensures
            freq == self.max_frequency(),
    {
        self.max_freq
    }
}

} // verus!
