//! Note-density analysis over a normalized (ascending) beat sequence:
//! the note span's duration, the overall notes-per-second rate, and the
//! maximum sliding-window density over a ten-second window.

use vstd::prelude::*;
use crate::order::sorted_asc;
use crate::ratio::Ratio;
use crate::BEAT_LIMIT;
use crate::BPM_LIMIT;

verus! {

/// Note `k` lies within ten seconds after note `i`: ten seconds at tempo
/// `bpm` span `bpm / 6` beats, so the test is `s[k] <= s[i] + bpm / 6`,
/// cleared of its division.
pub open spec fn in_window(s: Seq<u64>, bpm: u64, i: int, k: int) -> bool {
    6 * s[k] <= 6 * s[i] + bpm
}

/// How many notes at positions `k` and later lie within the ten-second
/// window opened at note `i`.
pub open spec fn count_in_window(s: Seq<u64>, bpm: u64, i: int, k: int) -> int
    decreases s.len() - k,
{
    if k < 0 || k >= s.len() {
        0
    } else {
        (if in_window(s, bpm, i, k) {
            1int
        } else {
            0int
        }) + count_in_window(s, bpm, i, k + 1)
    }
}

/// The size of the ten-second window opened at note `i`.
pub open spec fn window_size(s: Seq<u64>, bpm: u64, i: int) -> int {
    count_in_window(s, bpm, i, i)
}

/// The largest window size over all window starts at position `i` or later.
pub open spec fn max_window_from(s: Seq<u64>, bpm: u64, i: int) -> int
    decreases s.len() - i,
{
    if i < 0 || i >= s.len() {
        0
    } else {
        let here = window_size(s, bpm, i);
        let rest = max_window_from(s, bpm, i + 1);
        if here >= rest {
            here
        } else {
            rest
        }
    }
}

/// The largest ten-second window size anywhere in the sequence.
pub open spec fn max_window(s: Seq<u64>, bpm: u64) -> int {
    max_window_from(s, bpm, 0)
}

/// Window counts are never negative.
proof fn lemma_count_nonneg(s: Seq<u64>, bpm: u64, i: int, k: int)
    ensures
        count_in_window(s, bpm, i, k) >= 0,
    decreases s.len() - k,
{
    if 0 <= k < s.len() {
        lemma_count_nonneg(s, bpm, i, k + 1);
    }
}

/// A window that is a full in-window prefix followed only by out-of-window
/// notes has exactly the prefix's length as its count.
proof fn lemma_count_prefix(s: Seq<u64>, bpm: u64, i: int, k: int, j: int)
    requires
        0 <= i <= k <= j + 1,
        j < s.len(),
        forall|m: int| k <= m <= j ==> in_window(s, bpm, i, m),
        forall|m: int| j < m < s.len() ==> !in_window(s, bpm, i, m),
    ensures
        count_in_window(s, bpm, i, k) == j + 1 - k,
    decreases s.len() - k,
{
    if k == j + 1 {
        lemma_count_zero(s, bpm, i, k);
    } else {
        lemma_count_prefix(s, bpm, i, k + 1, j);
    }
}

/// A window start whose remaining notes all fall outside it counts nothing.
proof fn lemma_count_zero(s: Seq<u64>, bpm: u64, i: int, k: int)
    requires
        forall|m: int| k <= m < s.len() ==> !in_window(s, bpm, i, m),
    ensures
        count_in_window(s, bpm, i, k) == 0,
    decreases s.len() - k,
{
    if 0 <= k < s.len() {
        lemma_count_zero(s, bpm, i, k + 1);
    }
}

/// Window maxima are never negative.
proof fn lemma_max_nonneg(s: Seq<u64>, bpm: u64, i: int)
    ensures
        max_window_from(s, bpm, i) >= 0,
    decreases s.len() - i,
{
    if 0 <= i < s.len() {
        lemma_count_nonneg(s, bpm, i, i);
        lemma_max_nonneg(s, bpm, i + 1);
    }
}

/// No window is larger than the maximum over all starts.
proof fn lemma_window_le_max(s: Seq<u64>, bpm: u64, from: int, i: int)
    requires
        0 <= from <= i < s.len(),
    ensures
        window_size(s, bpm, i) <= max_window_from(s, bpm, from),
    decreases i - from,
{
    if from < i {
        lemma_window_le_max(s, bpm, from + 1, i);
    }
}

/// The maximum window size is attained by some window start.
proof fn lemma_max_attained(s: Seq<u64>, bpm: u64, from: int)
    requires
        0 <= from < s.len(),
    ensures
        exists|i: int|
            from <= i < s.len() && window_size(s, bpm, i) == max_window_from(s, bpm, from),
    decreases s.len() - from,
{
    lemma_count_nonneg(s, bpm, from, from);
    if from + 1 < s.len() {
        lemma_max_attained(s, bpm, from + 1);
        if window_size(s, bpm, from) >= max_window_from(s, bpm, from + 1) {
            assert(window_size(s, bpm, from) == max_window_from(s, bpm, from));
        }
    } else {
        assert(max_window_from(s, bpm, from + 1) == 0);
        assert(window_size(s, bpm, from) == max_window_from(s, bpm, from));
    }
}

/// The largest ten-second window size over an ascending beat sequence,
/// found with a two-pointer scan.
pub fn max_window_size(notes: &Vec<u64>, bpm: u64) -> (w: usize)
    requires
        sorted_asc(notes@),
        notes@.len() >= 1,
        forall|k: int| 0 <= k < notes@.len() ==> notes@[k] <= BEAT_LIMIT,
        bpm <= BPM_LIMIT,
    ensures
        w == max_window(notes@, bpm),
{
    let n = notes.len();
    let mut best: usize = 0;
    let mut i: usize = 0;
    proof {
        lemma_max_nonneg(notes@, bpm, 0);
    }
    while i < n
        invariant
            0 <= i <= n,
            n == notes@.len(),
            sorted_asc(notes@),
            forall|k: int| 0 <= k < notes@.len() ==> notes@[k] <= BEAT_LIMIT,
            bpm <= BPM_LIMIT,
            best <= n,
            max_window(notes@, bpm) == if best >= max_window_from(notes@, bpm, i as int) {
                best as int
            } else {
                max_window_from(notes@, bpm, i as int)
            },
        decreases n - i,
    {
        let mut j: usize = i;
        while j + 1 < n && 6 * notes[j + 1] <= 6 * notes[i] + bpm
            invariant
                i <= j < n,
                n == notes@.len(),
                sorted_asc(notes@),
                forall|k: int| 0 <= k < notes@.len() ==> notes@[k] <= BEAT_LIMIT,
                bpm <= BPM_LIMIT,
                forall|m: int| i <= m <= j ==> in_window(notes@, bpm, i as int, m),
            decreases n - j,
        {
            j += 1;
        }
        proof {
            assert forall|m: int| j < m < notes@.len() implies !in_window(
                notes@,
                bpm,
                i as int,
                m,
            ) by {
                assert(notes@[j as int + 1] <= notes@[m]);
            }
            lemma_count_prefix(notes@, bpm, i as int, i as int, j as int);
        }
        let win = j - i + 1;
        proof {
            assert(window_size(notes@, bpm, i as int) == win);
            lemma_max_nonneg(notes@, bpm, i as int + 1);
            assert(max_window_from(notes@, bpm, i as int) == if window_size(notes@, bpm, i as int)
                >= max_window_from(notes@, bpm, i as int + 1) {
                window_size(notes@, bpm, i as int)
            } else {
                max_window_from(notes@, bpm, i as int + 1)
            });
        }
        if win > best {
            best = win;
        }
        i += 1;
    }
    best
}

/// The density figures of one difficulty's note sequence.
#[derive(Clone, Copy, Debug, PartialEq, Eq, Structural)]
pub struct DensityStats {
    /// How many notes the difficulty holds.
    pub note_count: u32,
    /// The note span's length in seconds: `(last - first) / bpm * 60`.
    pub duration: Ratio,
    /// Notes per second over the whole span: `note_count / duration`.
    pub nps: Ratio,
    /// The window-density figure: the raw maximum window size scaled by
    /// one tenth, not rescaled to a true per-ten-seconds rate.
    pub np10s: Ratio,
}

/// The seconds spanned by the notes, as an exact quotient over `bpm`.
pub open spec fn duration_num(s: Seq<u64>, bpm: u64) -> int {
    (s.last() - s.first()) * 60
}

/// The notes-per-second numerator; the rate is `len * bpm / span / 60`.
pub open spec fn nps_num(s: Seq<u64>, bpm: u64) -> int {
    s.len() * bpm
}

/// Derives the density figures of an ascending beat sequence, or nothing
/// for an empty one: an empty difficulty's figures stay unset so that it
/// can be told from a measured one.
pub fn analyze_density(notes: &Vec<u64>, bpm: u64) -> (r: Option<DensityStats>)
    requires
        sorted_asc(notes@),
        forall|k: int| 0 <= k < notes@.len() ==> notes@[k] <= BEAT_LIMIT,
        1 <= bpm <= BPM_LIMIT,
        notes@.len() <= u32::MAX,
    ensures
        r is Some <==> notes@.len() > 0,
        r matches Some(d) ==> {
            &&& d.note_count == notes@.len()
            &&& d.duration.num == duration_num(notes@, bpm)
            &&& d.duration.den == bpm
            &&& d.nps.num == nps_num(notes@, bpm)
            &&& d.nps.den == duration_num(notes@, bpm)
            &&& d.np10s.num == max_window(notes@, bpm) * 10
            &&& d.np10s.den == 100
        },
{
    if notes.len() == 0 {
        return None;
    }
    let first = notes[0];
    let last = notes[notes.len() - 1];
    assert(first == notes@.first() && last == notes@.last());
    assert(first <= last);
    let span = last - first;
    let duration = Ratio { num: span * 60, den: bpm };
    let count = notes.len() as u64;
    proof {
        vstd::arithmetic::mul::lemma_mul_upper_bound(
            count as int,
            u32::MAX as int,
            bpm as int,
            BPM_LIMIT as int,
        );
    }
    let nps = Ratio { num: count * bpm, den: span * 60 };
    let max_win = max_window_size(notes, bpm);
    proof {
        lemma_window_le_max(notes@, bpm, 0, 0);
        lemma_count_prefix_len_bound(notes@, bpm);
    }
    let np10s = Ratio { num: (max_win as u64) * 10, den: 100 };
    Some(
        DensityStats {
            note_count: notes.len() as u32,
            duration,
            nps,
            np10s,
        },
    )
}

/// For every non-empty note sequence with a positive note span, the
/// notes-per-second figure equals the note count divided by the duration
/// contribution, exactly, as a cross-multiplied identity of quotients; and
/// the duration contribution is non-negative. (A non-empty sequence whose
/// notes all share one beat has a zero span, and no finite quotient names
/// its rate: such inputs are left out.)
pub proof fn lemma_nps_exact(d: DensityStats, notes: Seq<u64>, bpm: u64)
    requires
        sorted_asc(notes),
        notes.len() > 0,
        notes.last() > notes.first(),
        1 <= bpm,
        d.note_count == notes.len(),
        d.nps.num == nps_num(notes, bpm),
        d.nps.den == duration_num(notes, bpm),
        d.duration.num == duration_num(notes, bpm),
        d.duration.den == bpm,
    ensures
        d.duration.num >= 0,
        d.nps.num * d.duration.num == d.note_count * d.duration.den * d.nps.den,
{
    assert(d.nps.num * d.duration.num == d.note_count * d.duration.den * d.nps.den) by (nonlinear_arith)
        requires
            d.nps.num == notes.len() * bpm,
            d.nps.den == d.duration.num,
            d.duration.den == bpm,
            d.note_count == notes.len(),
    ;
}

/// The sequence with every note's timestamp duplicated in place.
pub open spec fn duplicated(s: Seq<u64>) -> Seq<u64>
    decreases s.len(),
{
    if s.len() == 0 {
        Seq::empty()
    } else {
        duplicated(s.drop_last()).push(s.last()).push(s.last())
    }
}

/// Duplication doubles the length and repeats each element twice.
proof fn lemma_duplicated_index(s: Seq<u64>)
    ensures
        duplicated(s).len() == 2 * s.len(),
        forall|k: int| 0 <= k < 2 * s.len() ==> #[trigger] duplicated(s)[k] == s[k / 2],
    decreases s.len(),
{
    if s.len() > 0 {
        lemma_duplicated_index(s.drop_last());
        assert forall|k: int| 0 <= k < 2 * s.len() implies #[trigger] duplicated(s)[k] == s[k
            / 2] by {
            if k < 2 * s.len() - 2 {
                assert(duplicated(s)[k] == duplicated(s.drop_last())[k]);
                assert(s.drop_last()[k / 2] == s[k / 2]);
            } else {
                assert(duplicated(s)[k] == s.last());
                assert(k / 2 == s.len() - 1);
            }
        }
    }
}

/// A window of the duplicated sequence counts each original note twice.
proof fn lemma_count_duplicated(s: Seq<u64>, bpm: u64, i: int, k: int)
    requires
        0 <= i < s.len(),
        0 <= k <= s.len(),
    ensures
        count_in_window(duplicated(s), bpm, 2 * i, 2 * k) == 2 * count_in_window(s, bpm, i, k),
    decreases s.len() - k,
{
    lemma_duplicated_index(s);
    let d = duplicated(s);
    if k == s.len() {
        assert(count_in_window(d, bpm, 2 * i, 2 * k) == 0);
        assert(count_in_window(s, bpm, i, k) == 0);
    } else {
        lemma_count_duplicated(s, bpm, i, k + 1);
        assert(d[2 * k] == s[k] && d[2 * k + 1] == s[k] && d[2 * i] == s[i]);
        assert(in_window(d, bpm, 2 * i, 2 * k) == in_window(s, bpm, i, k));
        assert(in_window(d, bpm, 2 * i, 2 * k + 1) == in_window(s, bpm, i, k));
        assert(count_in_window(d, bpm, 2 * i, 2 * k) == (if in_window(d, bpm, 2 * i, 2 * k) {
            1int
        } else {
            0int
        }) + count_in_window(d, bpm, 2 * i, 2 * k + 1));
        assert(count_in_window(d, bpm, 2 * i, 2 * k + 1) == (if in_window(d, bpm, 2 * i, 2 * k + 1) {
            1int
        } else {
            0int
        }) + count_in_window(d, bpm, 2 * i, 2 * k + 2));
    }
}

/// Duplicating every note's timestamp cannot decrease the maximum window
/// size, and so cannot decrease the window-density figure.
pub proof fn lemma_duplication_does_not_decrease_density(s: Seq<u64>, bpm: u64)
    ensures
        max_window(duplicated(s), bpm) >= max_window(s, bpm),
{
    if s.len() == 0 {
        lemma_max_nonneg(duplicated(s), bpm, 0);
    } else {
        lemma_max_attained(s, bpm, 0);
        let i = choose|i: int|
            0 <= i < s.len() && window_size(s, bpm, i) == max_window_from(s, bpm, 0);
        lemma_count_duplicated(s, bpm, i, i);
        lemma_duplicated_index(s);
        let d = duplicated(s);
        assert(count_in_window(d, bpm, 2 * i, 2 * i) == 2 * count_in_window(s, bpm, i, i));
        lemma_count_nonneg(s, bpm, i, i);
        assert(count_in_window(d, bpm, 2 * i, 2 * i + 1) >= 0) by {
            lemma_count_nonneg(d, bpm, 2 * i, 2 * i + 1);
        }
        assert(window_size(d, bpm, 2 * i) >= window_size(s, bpm, i));
        lemma_window_le_max(d, bpm, 0, 2 * i);
    }
}

/// Duplicating every note's timestamp cannot decrease the window-density
/// figure itself: the quotient derived from the duplicated sequence is at
/// least the original one.
pub proof fn lemma_duplication_does_not_decrease_np10s(s: Seq<u64>, bpm: u64)
    requires
        s.len() <= u32::MAX,
    ensures
        crate::ratio::ratio_le(
            Ratio { num: (max_window(s, bpm) * 10) as u64, den: 100 },
            Ratio { num: (max_window(duplicated(s), bpm) * 10) as u64, den: 100 },
        ),
{
    lemma_duplication_does_not_decrease_density(s, bpm);
    lemma_count_prefix_len_bound(s, bpm);
    lemma_count_prefix_len_bound(duplicated(s), bpm);
    lemma_max_nonneg(s, bpm, 0);
    lemma_duplicated_index(s);
    let m1 = max_window(s, bpm);
    let m2 = max_window(duplicated(s), bpm);
    assert(((m1 * 10) as u64) * 100 <= ((m2 * 10) as u64) * 100) by (nonlinear_arith)
        requires
            0 <= m1 <= m2,
            m2 <= 0x2_0000_0000,
    ;
}

/// The maximum window size never exceeds the sequence's length.
proof fn lemma_count_prefix_len_bound(s: Seq<u64>, bpm: u64)
    ensures
        max_window(s, bpm) <= s.len(),
{
    lemma_max_le_len(s, bpm, 0);
}

/// Helper induction: every suffix maximum is bounded by the length.
proof fn lemma_max_le_len(s: Seq<u64>, bpm: u64, i: int)
    ensures
        max_window_from(s, bpm, i) <= s.len(),
    decreases s.len() - i,
{
    if 0 <= i < s.len() {
        lemma_count_le_len(s, bpm, i, i);
        lemma_max_le_len(s, bpm, i + 1);
    }
}

/// A window count is bounded by the number of notes it can range over.
proof fn lemma_count_le_len(s: Seq<u64>, bpm: u64, i: int, k: int)
    requires
        0 <= k <= s.len(),
    ensures
        count_in_window(s, bpm, i, k) <= s.len() - k,
    decreases s.len() - k,
{
    if k < s.len() {
        lemma_count_le_len(s, bpm, i, k + 1);
    } else {
        lemma_count_nonneg(s, bpm, i, k);
    }
}

} // verus!
