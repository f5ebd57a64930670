use vstd::prelude::*;
use crate::magnitude::{exceeds, greater, largest, lemma_max_level_bounds, level, max_level, PEAK_FLOOR, UNIT};

verus! {

/// The Z-transform of discrete agent signals.
pub struct ZTransform;

/// Agent frequency analysis: dominant oscillations and stability of agent signals.
pub struct AgentFrequencyAnalysis {
    pub n_frequency_bins: usize,
}

impl AgentFrequencyAnalysis {
    /// An analysis that samples the spectrum at `n_frequency_bins` frequencies.
    pub fn new(n_frequency_bins: usize) -> (r: Self)
        ensures
            r.n_frequency_bins == n_frequency_bins,
    {
        AgentFrequencyAnalysis { n_frequency_bins }
    }
}

impl Default for AgentFrequencyAnalysis {
    fn default() -> (r: Self)
        ensures
            r.n_frequency_bins == 256,
    {
        AgentFrequencyAnalysis { n_frequency_bins: 256 }
    }
}

/// Bin `i` of the spectrum is a peak: an interior bin whose magnitude exceeds
/// both neighbours and the peak floor.
pub open spec fn is_peak(spectrum: Seq<Option<u64>>, i: int) -> bool {
    &&& 1 <= i < spectrum.len() - 1
    &&& exceeds(spectrum[i], spectrum[i - 1])
    &&& exceeds(spectrum[i], spectrum[i + 1])
    &&& exceeds(spectrum[i], Some(PEAK_FLOOR))
}

/// The peaks of a magnitude spectrum, in increasing bin order.
pub fn find_peaks(spectrum: &Vec<Option<u64>>) -> (peaks: Vec<usize>)
    requires
        spectrum.len() >= 1,
    ensures
        forall|k: int| 0 <= k < peaks.len() ==> is_peak(spectrum@, #[trigger] peaks@[k] as int),
        forall|i: int| is_peak(spectrum@, i) ==> peaks@.contains(i as usize),
        forall|j: int, k: int| 0 <= j < k < peaks.len() ==> peaks@[j] < peaks@[k],
        forall|i: usize| #![trigger peaks@.contains(i)]
            peaks@.contains(i) == (0 < i < spectrum@.len() - 1 && spectrum@[i as int] is Some && spectrum@[i as int - 1] is Some && spectrum@[i as int + 1] is Some && spectrum@[i as int]->0 > spectrum@[i as int - 1]->0 && spectrum@[i as int]->0 > spectrum@[i as int + 1]->0 && spectrum@[i as int]->0 > 0x3F84_7AE1_47AE_147Bu64),
{
    let mut peaks: Vec<usize> = Vec::new();
    let last = spectrum.len() - 1;
    let mut i: usize = 1;
    while i < last
        invariant
            last == spectrum.len() - 1,
            1 <= i,
            forall|k: int| 0 <= k < peaks.len() ==> is_peak(spectrum@, #[trigger] peaks@[k] as int),
            forall|k: int| 0 <= k < peaks.len() ==> #[trigger] peaks@[k] < i,
            forall|x: int| 1 <= x < i && is_peak(spectrum@, x) ==> peaks@.contains(x as usize),
            forall|j: int, k: int| 0 <= j < k < peaks.len() ==> peaks@[j] < peaks@[k],
        decreases last - i,
    {
        let here = spectrum[i];
        let ghost before = peaks@;
        if greater(here, spectrum[i - 1]) && greater(here, spectrum[i + 1]) && greater(here, Some(PEAK_FLOOR)) {
            peaks.push(i);
            assert(peaks@[peaks.len() - 1] == i);
        }
        assert forall|x: int| 1 <= x < i + 1 && is_peak(spectrum@, x) implies peaks@.contains(x as usize) by {
            if x == i {
                assert(peaks@[peaks.len() - 1] == i);
            } else {
                let k = choose|k: int| 0 <= k < before.len() && before[k] == x as usize;
                assert(peaks@[k] == before[k]);
            }
        }
        i = i + 1;
    }
    proof {
        assert forall|i: usize| #![trigger peaks@.contains(i)]
            peaks@.contains(i) == (0 < i < spectrum@.len() - 1 && spectrum@[i as int] is Some && spectrum@[i as int - 1] is Some && spectrum@[i as int + 1] is Some && spectrum@[i as int]->0 > spectrum@[i as int - 1]->0 && spectrum@[i as int]->0 > spectrum@[i as int + 1]->0 && spectrum@[i as int]->0 > 0x3F84_7AE1_47AE_147Bu64) by {
            lemma_peak_is_literal(spectrum@, i as int);
            if peaks@.contains(i) {
                let k = choose|k: int| 0 <= k < peaks.len() && peaks@[k] == i;
                assert(is_peak(spectrum@, peaks@[k] as int));
            }
        }
    }
    peaks
}

/// A peak is an interior bin whose magnitude exceeds both neighbours and one
/// hundredth, all of them numbers.
pub proof fn lemma_peak_is_literal(spectrum: Seq<Option<u64>>, i: int)
    ensures
        is_peak(spectrum, i) <==> (0 < i < spectrum.len() - 1 && spectrum[i] is Some && spectrum[i - 1] is Some && spectrum[i + 1] is Some && spectrum[i]->0 > spectrum[i - 1]->0 && spectrum[i]->0 > spectrum[i + 1]->0 && spectrum[i]->0 > 0x3F84_7AE1_47AE_147Bu64),
{
}

/// Bin `a` ranks above bin `b`: a larger magnitude, or an equal magnitude and an
/// earlier bin (ranking is stable).
pub open spec fn ranks_above(spectrum: Seq<Option<u64>>, a: int, b: int) -> bool {
    ||| level(spectrum[a]) > level(spectrum[b])
    ||| (level(spectrum[a]) == level(spectrum[b]) && a < b)
}

/// Bins ranked by `ranks_above` come strongest first: along the ranking the
/// magnitude (its key, zero for one that is not a number) never increases, a
/// strictly stronger bin always comes earlier, and bins of equal magnitude come
/// in increasing bin order.
pub proof fn lemma_ranked_strongest_first(spectrum: Seq<Option<u64>>, ranked: Seq<usize>)
    requires
        forall|j: int, k: int|
            0 <= j < k < ranked.len() ==> ranks_above(spectrum, ranked[j] as int, ranked[k] as int),
    ensures
        forall|j: int, k: int| #![trigger ranked[j], ranked[k]]
            0 <= j < k < ranked.len() ==> {
                &&& (if spectrum[ranked[j] as int] is Some { spectrum[ranked[j] as int]->0 } else { 0u64 }) >= (if spectrum[ranked[k] as int] is Some { spectrum[ranked[k] as int]->0 } else { 0u64 })
                &&& (if spectrum[ranked[j] as int] is Some { spectrum[ranked[j] as int]->0 } else { 0u64 }) == (if spectrum[ranked[k] as int] is Some { spectrum[ranked[k] as int]->0 } else { 0u64 }) ==> ranked[j] < ranked[k]
            },
        forall|j: int, k: int| #![trigger ranked[j], ranked[k]]
            0 <= j < ranked.len() && 0 <= k < ranked.len() && (if spectrum[ranked[j] as int] is Some { spectrum[ranked[j] as int]->0 } else { 0u64 }) > (if spectrum[ranked[k] as int] is Some { spectrum[ranked[k] as int]->0 } else { 0u64 }) ==> j < k,
{
    assert forall|j: int, k: int| #![trigger ranked[j], ranked[k]]
        0 <= j < k < ranked.len() implies {
            &&& (if spectrum[ranked[j] as int] is Some { spectrum[ranked[j] as int]->0 } else { 0u64 }) >= (if spectrum[ranked[k] as int] is Some { spectrum[ranked[k] as int]->0 } else { 0u64 })
            &&& (if spectrum[ranked[j] as int] is Some { spectrum[ranked[j] as int]->0 } else { 0u64 }) == (if spectrum[ranked[k] as int] is Some { spectrum[ranked[k] as int]->0 } else { 0u64 }) ==> ranked[j] < ranked[k]
        } by {
        assert(ranks_above(spectrum, ranked[j] as int, ranked[k] as int));
    }
    assert forall|j: int, k: int| #![trigger ranked[j], ranked[k]]
        0 <= j < ranked.len() && 0 <= k < ranked.len() && (if spectrum[ranked[j] as int] is Some { spectrum[ranked[j] as int]->0 } else { 0u64 }) > (if spectrum[ranked[k] as int] is Some { spectrum[ranked[k] as int]->0 } else { 0u64 }) implies j < k by {
        if k < j {
            assert(ranks_above(spectrum, ranked[k] as int, ranked[j] as int));
        }
    }
}

fn ranks_above_exec(spectrum: &Vec<Option<u64>>, a: usize, b: usize) -> (r: bool)
    requires
        a < spectrum.len(),
        b < spectrum.len(),
    ensures
        r == ranks_above(spectrum@, a as int, b as int),
{
    let la = match spectrum[a] {
        Some(x) => x,
        None => 0,
    };
    let lb = match spectrum[b] {
        Some(x) => x,
        None => 0,
    };
    la > lb || (la == lb && a < b)
}

/// Orders distinct bins by descending magnitude, bins of equal magnitude by
/// increasing bin (as a stable sort of bins given in increasing order does).
pub fn rank_peaks(spectrum: &Vec<Option<u64>>, peaks: &Vec<usize>) -> (ranked: Vec<usize>)
    requires
        forall|k: int| 0 <= k < peaks.len() ==> #[trigger] peaks@[k] < spectrum.len(),
        forall|j: int, k: int| 0 <= j < k < peaks.len() ==> peaks@[j] != peaks@[k],
    ensures
        ranked.len() == peaks.len(),
        forall|x: usize| ranked@.contains(x) <==> peaks@.contains(x),
        forall|j: int, k: int|
            0 <= j < k < ranked.len() ==> ranks_above(
                spectrum@,
                ranked@[j] as int,
                ranked@[k] as int,
            ),
        forall|j: int, k: int| #![trigger ranked@[j], ranked@[k]]
            0 <= j < k < ranked.len() ==> {
                &&& (if spectrum@[ranked@[j] as int] is Some { spectrum@[ranked@[j] as int]->0 } else { 0u64 }) >= (if spectrum@[ranked@[k] as int] is Some { spectrum@[ranked@[k] as int]->0 } else { 0u64 })
                &&& (if spectrum@[ranked@[j] as int] is Some { spectrum@[ranked@[j] as int]->0 } else { 0u64 }) == (if spectrum@[ranked@[k] as int] is Some { spectrum@[ranked@[k] as int]->0 } else { 0u64 }) ==> ranked@[j] < ranked@[k]
            },
{
    let mut ranked: Vec<usize> = Vec::new();
    let n = peaks.len();
    let mut m: usize = 0;
    while m < n
        invariant
            n == peaks.len(),
            m <= n,
            ranked.len() == m,
            forall|k: int| 0 <= k < peaks.len() ==> #[trigger] peaks@[k] < spectrum.len(),
            forall|j: int, k: int| 0 <= j < k < peaks.len() ==> peaks@[j] != peaks@[k],
            forall|x: usize| ranked@.contains(x) <==> peaks@.subrange(0, m as int).contains(x),
            forall|k: int| 0 <= k < ranked.len() ==> #[trigger] ranked@[k] < spectrum.len(),
            forall|j: int, k: int|
                0 <= j < k < ranked.len() ==> ranks_above(
                    spectrum@,
                    ranked@[j] as int,
                    ranked@[k] as int,
                ),
        decreases n - m,
    {
        let p = peaks[m];
        let mut pos: usize = 0;
        while pos < ranked.len() && ranks_above_exec(spectrum, ranked[pos], p)
            invariant
                pos <= ranked.len(),
                p < spectrum.len(),
                forall|k: int| 0 <= k < ranked.len() ==> #[trigger] ranked@[k] < spectrum.len(),
                forall|k: int| 0 <= k < pos ==> ranks_above(spectrum@, #[trigger] ranked@[k] as int, p as int),
            decreases ranked.len() - pos,
        {
            pos = pos + 1;
        }
        let ghost before = ranked@;
        proof {
            // p is new: it differs from every earlier peak
            if before.contains(p) {
                let k = choose|k: int| 0 <= k < m && peaks@.subrange(0, m as int)[k] == p;
                assert(peaks@[k] == peaks@[m as int]);
            }
            if pos < before.len() {
                assert(before.contains(before[pos as int]));
                assert(!ranks_above(spectrum@, before[pos as int] as int, p as int));
            }
            before.insert_ensures(pos as int, p);
        }
        ranked.insert(pos, p);
        proof {
            let after = ranked@;
            let grown = peaks@.subrange(0, m + 1);
            let prior = peaks@.subrange(0, m as int);
            assert forall|j: int, k: int| 0 <= j < k < after.len() implies ranks_above(
                spectrum@,
                after[j] as int,
                after[k] as int,
            ) by {
                if k < pos {
                } else if k == pos {
                } else if j < pos {
                    assert(after[k] == before[k - 1]);
                } else if j == pos {
                    assert(after[k] == before[k - 1]);
                    if k - 1 > pos {
                        assert(ranks_above(spectrum@, before[pos as int] as int, before[k - 1] as int));
                    }
                } else {
                    assert(after[j] == before[j - 1]);
                    assert(after[k] == before[k - 1]);
                }
            }
            assert forall|x: usize| after.contains(x) <==> grown.contains(x) by {
                if after.contains(x) {
                    let k = choose|k: int| 0 <= k < after.len() && after[k] == x;
                    if k < pos {
                        assert(before[k] == x);
                        assert(before.contains(x));
                    } else if k > pos {
                        assert(before[k - 1] == x);
                        assert(before.contains(x));
                    }
                    if x != p {
                        let i = choose|i: int| 0 <= i < m && prior[i] == x;
                        assert(grown[i] == x);
                    } else {
                        assert(grown[m as int] == x);
                    }
                }
                if grown.contains(x) {
                    let i = choose|i: int| 0 <= i < grown.len() && grown[i] == x;
                    if i == m {
                        assert(after[pos as int] == x);
                    } else {
                        assert(prior[i] == x);
                        assert(before.contains(x));
                        let k = choose|k: int| 0 <= k < before.len() && before[k] == x;
                        if k < pos {
                            assert(after[k] == x);
                        } else {
                            assert(after[k + 1] == x);
                        }
                    }
                }
            }
        }
        m = m + 1;
    }
    proof {
        assert(peaks@.subrange(0, n as int) =~= peaks@);
        lemma_ranked_strongest_first(spectrum@, ranked@);
    }
    ranked
}

/// How many dominant frequencies an analysis reports at most.
pub const MAX_REPORTED_PEAKS: usize = 10;

/// What the dominant peaks are, written out over the magnitude keys: a list of
/// peaks ranked strongest first, cut at ten, holds only interior bins whose
/// magnitude exceeds both neighbours and one hundredth; its magnitudes never
/// increase, a strictly stronger peak always comes earlier, equal magnitudes
/// come in bin order; and a peak left out means ten were kept, each stronger
/// than it or as strong and earlier.
pub proof fn lemma_top_peaks_written_out(spectrum: Seq<Option<u64>>, top: Seq<usize>)
    requires
        top.len() <= MAX_REPORTED_PEAKS,
        forall|k: int| 0 <= k < top.len() ==> is_peak(spectrum, #[trigger] top[k] as int),
        forall|j: int, k: int|
            0 <= j < k < top.len() ==> ranks_above(spectrum, top[j] as int, top[k] as int),
        forall|i: int|
            is_peak(spectrum, i) && !top.contains(i as usize) ==> {
                &&& top.len() == MAX_REPORTED_PEAKS
                &&& forall|k: int| 0 <= k < top.len() ==> ranks_above(spectrum, #[trigger] top[k] as int, i)
            },
    ensures
        forall|k: int| #![trigger top[k]] 0 <= k < top.len() ==> (0 < (top[k] as int) < spectrum.len() - 1 && spectrum[(top[k] as int)] is Some && spectrum[(top[k] as int) - 1] is Some && spectrum[(top[k] as int) + 1] is Some && spectrum[(top[k] as int)]->0 > spectrum[(top[k] as int) - 1]->0 && spectrum[(top[k] as int)]->0 > spectrum[(top[k] as int) + 1]->0 && spectrum[(top[k] as int)]->0 > 0x3F84_7AE1_47AE_147Bu64),
        forall|j: int, k: int| #![trigger top[j], top[k]]
            0 <= j < k < top.len() ==> {
                &&& (if spectrum[top[j] as int] is Some { spectrum[top[j] as int]->0 } else { 0u64 }) >= (if spectrum[top[k] as int] is Some { spectrum[top[k] as int]->0 } else { 0u64 })
                &&& (if spectrum[top[j] as int] is Some { spectrum[top[j] as int]->0 } else { 0u64 }) == (if spectrum[top[k] as int] is Some { spectrum[top[k] as int]->0 } else { 0u64 }) ==> top[j] < top[k]
            },
        forall|i: usize| #![trigger top.contains(i)]
            (0 < i < spectrum.len() - 1 && spectrum[i as int] is Some && spectrum[i as int - 1] is Some && spectrum[i as int + 1] is Some && spectrum[i as int]->0 > spectrum[i as int - 1]->0 && spectrum[i as int]->0 > spectrum[i as int + 1]->0 && spectrum[i as int]->0 > 0x3F84_7AE1_47AE_147Bu64) && !top.contains(i) ==> {
                &&& top.len() == 10
                &&& forall|k: int| 0 <= k < top.len() ==> {
                    ||| (if spectrum[#[trigger] top[k] as int] is Some { spectrum[top[k] as int]->0 } else { 0u64 }) > (if spectrum[i as int] is Some { spectrum[i as int]->0 } else { 0u64 })
                    ||| ((if spectrum[top[k] as int] is Some { spectrum[top[k] as int]->0 } else { 0u64 }) == (if spectrum[i as int] is Some { spectrum[i as int]->0 } else { 0u64 }) && top[k] < i)
                }
            },
{
    assert forall|k: int| #![trigger top[k]] 0 <= k < top.len() implies (0 < (top[k] as int) < spectrum.len() - 1 && spectrum[(top[k] as int)] is Some && spectrum[(top[k] as int) - 1] is Some && spectrum[(top[k] as int) + 1] is Some && spectrum[(top[k] as int)]->0 > spectrum[(top[k] as int) - 1]->0 && spectrum[(top[k] as int)]->0 > spectrum[(top[k] as int) + 1]->0 && spectrum[(top[k] as int)]->0 > 0x3F84_7AE1_47AE_147Bu64) by {
        lemma_peak_is_literal(spectrum, top[k] as int);
    }
    assert forall|i: usize| #![trigger top.contains(i)]
        (0 < i < spectrum.len() - 1 && spectrum[i as int] is Some && spectrum[i as int - 1] is Some && spectrum[i as int + 1] is Some && spectrum[i as int]->0 > spectrum[i as int - 1]->0 && spectrum[i as int]->0 > spectrum[i as int + 1]->0 && spectrum[i as int]->0 > 0x3F84_7AE1_47AE_147Bu64) && !top.contains(i) implies {
            &&& top.len() == 10
            &&& forall|k: int| 0 <= k < top.len() ==> {
                ||| (if spectrum[#[trigger] top[k] as int] is Some { spectrum[top[k] as int]->0 } else { 0u64 }) > (if spectrum[i as int] is Some { spectrum[i as int]->0 } else { 0u64 })
                ||| ((if spectrum[top[k] as int] is Some { spectrum[top[k] as int]->0 } else { 0u64 }) == (if spectrum[i as int] is Some { spectrum[i as int]->0 } else { 0u64 }) && top[k] < i)
            }
        } by {
        lemma_peak_is_literal(spectrum, i as int);
        assert(is_peak(spectrum, i as int));
        assert forall|k: int| 0 <= k < top.len() implies {
                ||| (if spectrum[#[trigger] top[k] as int] is Some { spectrum[top[k] as int]->0 } else { 0u64 }) > (if spectrum[i as int] is Some { spectrum[i as int]->0 } else { 0u64 })
                ||| ((if spectrum[top[k] as int] is Some { spectrum[top[k] as int]->0 } else { 0u64 }) == (if spectrum[i as int] is Some { spectrum[i as int]->0 } else { 0u64 }) && top[k] < i)
            } by {
            assert(ranks_above(spectrum, top[k] as int, i as int));
        }
    }
    lemma_ranked_strongest_first(spectrum, top);
}

/// The dominant peaks of a magnitude spectrum: its peaks by descending
/// magnitude (equal magnitudes in bin order), at most `MAX_REPORTED_PEAKS` of them.
pub fn dominant_peaks(spectrum: &Vec<Option<u64>>) -> (top: Vec<usize>)
    requires
        spectrum.len() >= 1,
    ensures
        top.len() <= MAX_REPORTED_PEAKS,
        forall|k: int| 0 <= k < top.len() ==> is_peak(spectrum@, #[trigger] top@[k] as int),
        forall|j: int, k: int|
            0 <= j < k < top.len() ==> ranks_above(spectrum@, top@[j] as int, top@[k] as int),
        forall|i: int|
            is_peak(spectrum@, i) && !top@.contains(i as usize) ==> {
                &&& top.len() == MAX_REPORTED_PEAKS
                &&& forall|k: int| 0 <= k < top.len() ==> ranks_above(spectrum@, #[trigger] top@[k] as int, i)
            },
        forall|k: int| #![trigger top@[k]] 0 <= k < top.len() ==> (0 < (top@[k] as int) < spectrum@.len() - 1 && spectrum@[(top@[k] as int)] is Some && spectrum@[(top@[k] as int) - 1] is Some && spectrum@[(top@[k] as int) + 1] is Some && spectrum@[(top@[k] as int)]->0 > spectrum@[(top@[k] as int) - 1]->0 && spectrum@[(top@[k] as int)]->0 > spectrum@[(top@[k] as int) + 1]->0 && spectrum@[(top@[k] as int)]->0 > 0x3F84_7AE1_47AE_147Bu64),
        forall|j: int, k: int| #![trigger top@[j], top@[k]]
            0 <= j < k < top.len() ==> {
                &&& (if spectrum@[top@[j] as int] is Some { spectrum@[top@[j] as int]->0 } else { 0u64 }) >= (if spectrum@[top@[k] as int] is Some { spectrum@[top@[k] as int]->0 } else { 0u64 })
                &&& (if spectrum@[top@[j] as int] is Some { spectrum@[top@[j] as int]->0 } else { 0u64 }) == (if spectrum@[top@[k] as int] is Some { spectrum@[top@[k] as int]->0 } else { 0u64 }) ==> top@[j] < top@[k]
            },
        forall|i: usize| #![trigger top@.contains(i)]
            (0 < i < spectrum@.len() - 1 && spectrum@[i as int] is Some && spectrum@[i as int - 1] is Some && spectrum@[i as int + 1] is Some && spectrum@[i as int]->0 > spectrum@[i as int - 1]->0 && spectrum@[i as int]->0 > spectrum@[i as int + 1]->0 && spectrum@[i as int]->0 > 0x3F84_7AE1_47AE_147Bu64) && !top@.contains(i) ==> {
                &&& top.len() == 10
                &&& forall|k: int| 0 <= k < top.len() ==> {
                    ||| (if spectrum@[#[trigger] top@[k] as int] is Some { spectrum@[top@[k] as int]->0 } else { 0u64 }) > (if spectrum@[i as int] is Some { spectrum@[i as int]->0 } else { 0u64 })
                    ||| ((if spectrum@[top@[k] as int] is Some { spectrum@[top@[k] as int]->0 } else { 0u64 }) == (if spectrum@[i as int] is Some { spectrum@[i as int]->0 } else { 0u64 }) && top@[k] < i)
                }
            },
{
    let peaks = find_peaks(spectrum);
    proof {
        assert forall|k: int| 0 <= k < peaks.len() implies #[trigger] peaks@[k] < spectrum.len() by {
            assert(is_peak(spectrum@, peaks@[k] as int));
        }
    }
    let mut top = rank_peaks(spectrum, &peaks);
    let ghost ranked = top@;
    top.truncate(MAX_REPORTED_PEAKS);
    proof {
        assert forall|k: int| 0 <= k < top.len() implies is_peak(spectrum@, #[trigger] top@[k] as int) by {
            assert(ranked[k] == top@[k]);
            assert(ranked.contains(top@[k]));
            let j = choose|j: int| 0 <= j < peaks.len() && peaks@[j] == top@[k];
            assert(is_peak(spectrum@, peaks@[j] as int));
        }
        assert forall|i: int| is_peak(spectrum@, i) && !top@.contains(i as usize) implies {
            &&& top.len() == MAX_REPORTED_PEAKS
            &&& forall|k: int| 0 <= k < top.len() ==> ranks_above(spectrum@, #[trigger] top@[k] as int, i)
        } by {
            assert(peaks@.contains(i as usize));
            assert(ranked.contains(i as usize));
            let r = choose|r: int| 0 <= r < ranked.len() && ranked[r] == i as usize;
            if r < MAX_REPORTED_PEAKS {
                assert(top@[r] == i as usize);
            }
            assert forall|k: int| 0 <= k < top.len() implies ranks_above(spectrum@, #[trigger] top@[k] as int, i) by {
                assert(top@[k] == ranked[k]);
            }
        }
        lemma_top_peaks_written_out(spectrum@, top@);
    }
    top
}

/// Bin `i` lies strictly inside the spectrum (neither the first nor the last bin).
pub open spec fn interior(spectrum: Seq<Option<u64>>, i: int) -> bool {
    0 < i < spectrum.len() - 1
}

/// The interior bins are all bins but the first and the last, at any index.
pub proof fn lemma_interior_is_all_but_the_ends(spectrum: Seq<Option<u64>>, i: int)
    ensures
        interior(spectrum, i) <==> 0 < i < spectrum.len() - 1,
{
}

/// The bin that periodicity detection reads: the first interior bin of largest
/// magnitude, provided that magnitude reaches the peak floor.
pub fn dominant_bin(spectrum: &Vec<Option<u64>>) -> (best: Option<usize>)
    ensures
        best is None <==> forall|i: int|
            interior(spectrum@, i) ==> level(#[trigger] spectrum@[i]) < PEAK_FLOOR,
        best matches Some(b) ==> {
            &&& interior(spectrum@, b as int)
            &&& level(spectrum@[b as int]) >= PEAK_FLOOR
            &&& forall|i: int|
                interior(spectrum@, i) ==> level(#[trigger] spectrum@[i]) <= level(spectrum@[b as int])
            &&& forall|i: int|
                interior(spectrum@, i) && i < b ==> level(#[trigger] spectrum@[i]) < level(spectrum@[b as int])
        },
        best is None <==> forall|i: int| #![trigger spectrum@[i]]
            0 < i < spectrum.len() - 1 ==> (if spectrum@[i] is Some { spectrum@[i]->0 } else { 0u64 }) < 0x3F84_7AE1_47AE_147Bu64,
        best matches Some(b) ==> {
            &&& 0 < b < spectrum.len() - 1
            &&& spectrum@[b as int] is Some
            &&& spectrum@[b as int]->0 >= 0x3F84_7AE1_47AE_147Bu64
            &&& forall|i: int| #![trigger spectrum@[i]]
                0 < i < spectrum.len() - 1 ==> (if spectrum@[i] is Some { spectrum@[i]->0 } else { 0u64 }) <= spectrum@[b as int]->0
            &&& forall|i: int| #![trigger spectrum@[i]]
                0 < i < b ==> (if spectrum@[i] is Some { spectrum@[i]->0 } else { 0u64 }) < spectrum@[b as int]->0
        },
{
    let mut best_idx: usize = 0;
    let mut best_mag: u64 = 0;
    let n = spectrum.len();
    let mut i: usize = 0;
    while i < n
        invariant
            n == spectrum.len(),
            i <= n,
            best_mag == 0 ==> best_idx == 0,
            best_mag > 0 ==> interior(spectrum@, best_idx as int) && best_idx < i && level(spectrum@[best_idx as int]) == best_mag,
            forall|j: int| 0 <= j < i && interior(spectrum@, j) ==> level(#[trigger] spectrum@[j]) <= best_mag,
            forall|j: int|
                0 <= j < i && interior(spectrum@, j) && j < best_idx ==> level(#[trigger] spectrum@[j]) < best_mag,
        decreases n - i,
    {
        if i > 0 && i < n - 1 {
            if let Some(mag) = spectrum[i] {
                if mag > best_mag {
                    best_mag = mag;
                    best_idx = i;
                }
            }
        }
        i = i + 1;
    }
    if best_mag < PEAK_FLOOR {
        None
    } else {
        Some(best_idx)
    }
}

/// A period read off the spectrum is reported when it is positive and shorter
/// than the signal.
pub fn admissible_period(period: usize, signal_len: usize) -> (r: Option<usize>)
    ensures
        r == (if 0 < period < signal_len {
            Some(period)
        } else {
            None
        }),
{
    if period > 0 && period < signal_len {
        Some(period)
    } else {
        None
    }
}

/// Pole `i` (given by the key of its modulus) lies on or outside the unit circle.
pub open spec fn is_unstable(moduli: Seq<Option<u64>>, i: int) -> bool {
    level(moduli[i]) >= UNIT
}

/// A pole is unstable exactly when its modulus is a number of at least one.
pub proof fn lemma_unstable_means_modulus_at_least_one(moduli: Seq<Option<u64>>, i: int)
    ensures
        is_unstable(moduli, i) <==> (moduli[i] is Some && moduli[i]->0 >= 0x3FF0_0000_0000_0000u64),
{
}

/// The poles on or outside the unit circle, in their given order.
pub fn unstable_poles(moduli: &Vec<Option<u64>>) -> (unstable: Vec<usize>)
    ensures
        forall|k: int|
            0 <= k < unstable.len() ==> #[trigger] unstable@[k] < moduli.len() && is_unstable(
                moduli@,
                unstable@[k] as int,
            ),
        forall|i: int| 0 <= i < moduli.len() && is_unstable(moduli@, i) ==> unstable@.contains(i as usize),
        forall|j: int, k: int| 0 <= j < k < unstable.len() ==> unstable@[j] < unstable@[k],
        forall|k: int| #![trigger unstable@[k]]
            0 <= k < unstable.len() ==> moduli@[unstable@[k] as int] is Some
                && moduli@[unstable@[k] as int]->0 >= 0x3FF0_0000_0000_0000u64,
        forall|i: usize| #![trigger unstable@.contains(i)]
            i < moduli.len() ==> (unstable@.contains(i) <==> (moduli@[i as int] is Some
                && moduli@[i as int]->0 >= 0x3FF0_0000_0000_0000u64)),
{
    let mut unstable: Vec<usize> = Vec::new();
    let n = moduli.len();
    let mut i: usize = 0;
    while i < n
        invariant
            n == moduli.len(),
            i <= n,
            forall|k: int|
                0 <= k < unstable.len() ==> #[trigger] unstable@[k] < i && is_unstable(
                    moduli@,
                    unstable@[k] as int,
                ),
            forall|x: int| 0 <= x < i && is_unstable(moduli@, x) ==> unstable@.contains(x as usize),
            forall|j: int, k: int| 0 <= j < k < unstable.len() ==> unstable@[j] < unstable@[k],
        decreases n - i,
    {
        let ghost before = unstable@;
        let m = match moduli[i] {
            Some(k) => k,
            None => 0,
        };
        if m >= UNIT {
            unstable.push(i);
        }
        assert forall|x: int| 0 <= x < i + 1 && is_unstable(moduli@, x) implies unstable@.contains(x as usize) by {
            if x == i {
                assert(unstable@[unstable.len() - 1] == i);
            } else {
                let k = choose|k: int| 0 <= k < before.len() && before[k] == x as usize;
                assert(unstable@[k] == before[k]);
            }
        }
        i = i + 1;
    }
    proof {
        assert forall|k: int| #![trigger unstable@[k]]
            0 <= k < unstable.len() implies moduli@[unstable@[k] as int] is Some
                && moduli@[unstable@[k] as int]->0 >= 0x3FF0_0000_0000_0000u64 by {
            lemma_unstable_means_modulus_at_least_one(moduli@, unstable@[k] as int);
        }
        assert forall|i: usize| #![trigger unstable@.contains(i)]
            i < moduli.len() implies (unstable@.contains(i) <==> (moduli@[i as int] is Some
                && moduli@[i as int]->0 >= 0x3FF0_0000_0000_0000u64)) by {
            lemma_unstable_means_modulus_at_least_one(moduli@, i as int);
            if unstable@.contains(i) {
                let k = choose|k: int| 0 <= k < unstable.len() && unstable@[k] == i;
                assert(is_unstable(moduli@, unstable@[k] as int));
            }
        }
    }
    unstable
}

/// The spectral radius of a set of poles, as a key: the largest modulus, and
/// zero when there are no poles.
pub fn spectral_radius(moduli: &Vec<Option<u64>>) -> (r: u64)
    ensures
        r == max_level(moduli@),
        forall|i: int| #![trigger moduli@[i]] 0 <= i < moduli.len() ==> (if moduli@[i] is Some { moduli@[i]->0 } else { 0u64 }) <= r,
        r == 0 || exists|i: int| #![trigger moduli@[i]] 0 <= i < moduli.len() && moduli@[i] == Some(r),
{
    largest(moduli)
}

/// A set of poles is stable (no pole on or outside the unit circle) exactly
/// when its spectral radius is below one.
pub proof fn lemma_stable_iff_radius_below_one(moduli: Seq<Option<u64>>)
    ensures
        (forall|i: int| 0 <= i < moduli.len() ==> !is_unstable(moduli, i)) <==> max_level(moduli) < UNIT,
{
    lemma_max_level_bounds(moduli);
    if max_level(moduli) >= UNIT {
        let i = choose|i: int| 0 <= i < moduli.len() && level(#[trigger] moduli[i]) == max_level(moduli);
        assert(is_unstable(moduli, i));
    }
    if exists|i: int| 0 <= i < moduli.len() && is_unstable(moduli, i) {
        let i = choose|i: int| 0 <= i < moduli.len() && is_unstable(moduli, i);
        assert(level(moduli[i]) <= max_level(moduli));
    }
}

} // verus!
