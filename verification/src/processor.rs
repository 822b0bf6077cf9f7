//! The beatmap processor: builds one beatmap's record from its decoded
//! manifest, normalizing and measuring every difficulty, deriving the
//! content identity from the bytes read, and merging the player's
//! matching score records into the difficulty slots.

use vstd::prelude::*;
use crate::density::{analyze_density, max_window};
use crate::identity::{id_of, ContentHasher};
use crate::normalize::{
    gather_ok, gathered_beats, normalize_notes, normalized_beats, schema_of, version_of,
    RawDifficulty, Schema,
};
use crate::ratio::Ratio;
use crate::records::{
    characteristic_wf, find_characteristic, record_wf, score_wf, stats_carries_score,
    BeatmapRecord, Characteristic, DifficultyStats, ScoreRecord,
};
use crate::{StatsError, BEAT_LIMIT, BPM_LIMIT};

verus! {

/// One difficulty entry of a manifest: its declared rank (even values zero
/// through eight name the five difficulties via halving), the referenced
/// file's raw bytes, and the file's decoded note categories.
pub struct DifficultyInput {
    pub rank: u64,
    pub bytes: Vec<u8>,
    pub raw: RawDifficulty,
}

/// One characteristic block of a manifest.
pub struct CharacteristicInput {
    pub name: String,
    pub difficulties: Vec<DifficultyInput>,
}

/// One beatmap directory's decoded manifest, with the raw bytes of every
/// file it made the pipeline read.
pub struct ManifestInput {
    pub song: String,
    pub artist: String,
    pub mapper: String,
    /// Tempo, thousandths of a beat per minute.
    pub bpm: u64,
    pub environment: String,
    /// The manifest file's raw bytes.
    pub bytes: Vec<u8>,
    pub sets: Vec<CharacteristicInput>,
}

/// The bytes of a run of difficulty files, in open order.
pub open spec fn diffs_bytes(ds: Seq<DifficultyInput>) -> Seq<u8>
    decreases ds.len(),
{
    if ds.len() == 0 {
        Seq::empty()
    } else {
        diffs_bytes(ds.drop_last()) + ds.last().bytes@
    }
}

/// The bytes of a run of characteristic blocks, in open order.
pub open spec fn sets_bytes(ss: Seq<CharacteristicInput>) -> Seq<u8>
    decreases ss.len(),
{
    if ss.len() == 0 {
        Seq::empty()
    } else {
        sets_bytes(ss.drop_last()) + diffs_bytes(ss.last().difficulties@)
    }
}

/// Every byte the processor reads for this beatmap: the manifest, then
/// each difficulty file, in open order.
pub open spec fn stream_of(m: ManifestInput) -> Seq<u8> {
    m.bytes@ + sets_bytes(m.sets@)
}

/// The slot a freshly measured difficulty gets, before any score merge.
pub open spec fn expected_slot(raw: RawDifficulty, bpm: u64) -> DifficultyStats {
    let s = normalized_beats(raw);
    if s.len() == 0 {
        DifficultyStats::unmeasured_spec()
    } else {
        DifficultyStats::from_density_spec(
            crate::density::DensityStats {
                note_count: s.len() as u32,
                duration: Ratio { num: ((s.last() - s.first()) * 60) as u64, den: bpm },
                nps: Ratio {
                    num: (s.len() * bpm) as u64,
                    den: ((s.last() - s.first()) * 60) as u64,
                },
                np10s: Ratio { num: (max_window(s, bpm) * 10) as u64, den: 100 },
            },
        )
    }
}

/// The duration numerator one difficulty contributes: sixty times its
/// note span, zero for an empty difficulty.
pub open spec fn contribution_num(raw: RawDifficulty) -> int {
    let s = normalized_beats(raw);
    if s.len() == 0 {
        0
    } else {
        (s.last() - s.first()) * 60
    }
}

/// The largest contribution among a run of difficulties.
pub open spec fn max_contrib_diffs(ds: Seq<DifficultyInput>) -> int
    decreases ds.len(),
{
    if ds.len() == 0 {
        0
    } else {
        let rest = max_contrib_diffs(ds.drop_last());
        let here = contribution_num(ds.last().raw);
        if here >= rest {
            here
        } else {
            rest
        }
    }
}

/// The largest contribution among a run of characteristic blocks.
pub open spec fn max_contrib_sets(ss: Seq<CharacteristicInput>) -> int
    decreases ss.len(),
{
    if ss.len() == 0 {
        0
    } else {
        let rest = max_contrib_sets(ss.drop_last());
        let here = max_contrib_diffs(ss.last().difficulties@);
        if here >= rest {
            here
        } else {
            rest
        }
    }
}

/// The pair of indices names a difficulty entry of the manifest.
pub open spec fn valid_pair(m: ManifestInput, i: int, j: int) -> bool {
    0 <= i < m.sets@.len() && 0 <= j < m.sets@[i].difficulties@.len()
}

/// Every difficulty entry's file is of a supported schema and carries
/// everything the schema requires.
pub open spec fn manifest_gather_ok(m: ManifestInput) -> bool {
    forall|i: int, j: int|
        valid_pair(m, i, j) ==> schema_of(
            version_of(#[trigger] m.sets@[i].difficulties@[j].raw),
        ) != Schema::Unsupported && gather_ok(m.sets@[i].difficulties@[j].raw)
}

/// No two difficulty entries of the manifest address the same
/// (characteristic name, difficulty) slot.
pub open spec fn dup_free(m: ManifestInput) -> bool {
    forall|i1: int, j1: int, i2: int, j2: int|
        valid_pair(m, i1, j1) && valid_pair(m, i2, j2) && !(i1 == i2 && j1 == j2) && (
        #[trigger] m.sets@[i1].name@) == (#[trigger] m.sets@[i2].name@)
            ==> #[trigger] m.sets@[i1].difficulties@[j1].rank / 2
            != #[trigger] m.sets@[i2].difficulties@[j2].rank / 2
}

/// Every beat is small enough for the window arithmetic.
pub open spec fn beats_bounded(s: Seq<u64>) -> bool {
    forall|k: int| 0 <= k < s.len() ==> s[k] <= BEAT_LIMIT
}

/// The machine bounds the processor needs of every difficulty that can be
/// normalized: bounded beats, and few enough of them to count.
pub open spec fn manifest_bounded(m: ManifestInput) -> bool {
    forall|i: int, j: int|
        valid_pair(m, i, j) && gather_ok(#[trigger] m.sets@[i].difficulties@[j].raw)
            ==> beats_bounded(gathered_beats(m.sets@[i].difficulties@[j].raw)) && gathered_beats(
            m.sets@[i].difficulties@[j].raw,
        ).len() <= u32::MAX
}

/// Every rank value halves into the difficulty-name table.
pub open spec fn ranks_in_range(m: ManifestInput) -> bool {
    forall|i: int, j: int|
        valid_pair(m, i, j) ==> (#[trigger] m.sets@[i].difficulties@[j].rank) < 10
}

/// The slot stored for a characteristic name and difficulty index, looked
/// up across a record's characteristics.
pub open spec fn slot_in(chars: Seq<Characteristic>, name: Seq<char>, d: int) -> Option<
    DifficultyStats,
> {
    if exists|ci: int| 0 <= ci < chars.len() && chars[ci].name@ == name {
        let ci = choose|ci: int| 0 <= ci < chars.len() && chars[ci].name@ == name;
        chars[ci].slots@[d]
    } else {
        None
    }
}

/// A sequence drawn from the same multiset as a bounded one is bounded.
proof fn lemma_bounded_by_multiset(a: Seq<u64>, b: Seq<u64>)
    requires
        a.to_multiset() == b.to_multiset(),
        beats_bounded(b),
    ensures
        beats_bounded(a),
{
    broadcast use vstd::seq_lib::group_to_multiset_ensures;

    assert forall|k: int| 0 <= k < a.len() implies a[k] <= BEAT_LIMIT by {
        assert(a.contains(a[k]));
        assert(a.to_multiset().count(a[k]) > 0);
        assert(b.contains(a[k]));
    }
}

/// With unique characteristic names, the stored slot looked up under a
/// characteristic's own name is that characteristic's slot.
pub proof fn lemma_slot_in_unique(chars: Seq<Characteristic>, ci: int, d: int)
    requires
        forall|c1: int, c2: int| 0 <= c1 < c2 < chars.len() ==> chars[c1].name@ != chars[c2].name@,
        0 <= ci < chars.len(),
    ensures
        slot_in(chars, chars[ci].name@, d) == chars[ci].slots@[d],
{
    let name = chars[ci].name@;
    assert(exists|c: int| 0 <= c < chars.len() && chars[c].name@ == name);
    let c0 = choose|c: int| 0 <= c < chars.len() && chars[c].name@ == name;
    assert(c0 == ci);
}

/// Builds the record of one beatmap: measures every difficulty, derives
/// the duration and the content identity. No score is merged yet: every
/// slot's score half still holds its defaults.
#[verifier::rlimit(100)]
pub fn build_record(m: &ManifestInput) -> (r: Result<BeatmapRecord, StatsError>)
    requires
        1 <= m.bpm <= BPM_LIMIT,
        manifest_bounded(*m),
        ranks_in_range(*m),
    ensures
        r is Ok <==> manifest_gather_ok(*m) && dup_free(*m),
        r matches Ok(rec) ==> {
            &&& rec.song == m.song
            &&& rec.artist == m.artist
            &&& rec.mapper == m.mapper
            &&& rec.bpm == m.bpm
            &&& rec.environment == m.environment
            &&& rec.id@ == id_of(stream_of(*m))
            &&& record_wf(rec)
            &&& rec.duration.den == m.bpm
            &&& rec.duration.num == max_contrib_sets(m.sets@)
            &&& forall|ci: int|
                0 <= ci < rec.characteristics@.len() ==> exists|i: int|
                    0 <= i < m.sets@.len() && (#[trigger] rec.characteristics@[ci].name@)
                        == m.sets@[i].name@
            &&& forall|i: int, j: int|
                valid_pair(*m, i, j) ==> slot_in(
                    rec.characteristics@,
                    m.sets@[i].name@,
                    (#[trigger] m.sets@[i].difficulties@[j].rank) as int / 2,
                ) == Some(expected_slot(m.sets@[i].difficulties@[j].raw, m.bpm))
            &&& forall|ci: int, d: int|
                0 <= ci < rec.characteristics@.len() && 0 <= d < 5 && (
                #[trigger] rec.characteristics@[ci].slots@[d]) is Some ==> exists|i: int, j: int|
                    valid_pair(*m, i, j) && m.sets@[i].name@ == rec.characteristics@[ci].name@
                        && m.sets@[i].difficulties@[j].rank as int / 2 == d
        },
        r matches Err(e) ==> {
            &&& (e == StatsError::UnsupportedSchema ==> exists|i: int, j: int|
                valid_pair(*m, i, j) && schema_of(
                    version_of(#[trigger] m.sets@[i].difficulties@[j].raw),
                ) == Schema::Unsupported)
            &&& (e == StatsError::MissingRequiredField ==> exists|i: int, j: int|
                valid_pair(*m, i, j) && !gather_ok(#[trigger] m.sets@[i].difficulties@[j].raw))
            &&& (e == StatsError::DuplicateDifficulty ==> !dup_free(*m))
            &&& e != StatsError::MissingOrMalformedFile
        },
{
    let mut hasher = ContentHasher::new();
    hasher.update(&m.bytes);
    let mut chars: Vec<Characteristic> = Vec::new();
    let mut duration_num: u64 = 0;
    let ghost msets = m.sets@;
    let mut i: usize = 0;
    proof {
        assert(msets.subrange(0, 0) =~= Seq::<CharacteristicInput>::empty());
        assert(hasher@ =~= m.bytes@ + sets_bytes(msets.subrange(0, 0)));
    }
    while i < m.sets.len()
        invariant
            1 <= m.bpm <= BPM_LIMIT,
            manifest_bounded(*m),
            ranks_in_range(*m),
            i <= msets.len(),
            msets == m.sets@,
            hasher@ == m.bytes@ + sets_bytes(msets.subrange(0, i as int)),
            duration_num == max_contrib_sets(msets.subrange(0, i as int)),
            duration_num <= 60 * BEAT_LIMIT,
            forall|ci: int|
                0 <= ci < chars@.len() ==> characteristic_wf(#[trigger] chars@[ci]),
            forall|c1: int, c2: int|
                0 <= c1 < c2 < chars@.len() ==> chars@[c1].name@ != chars@[c2].name@,
            forall|ci: int|
                0 <= ci < chars@.len() ==> exists|i0: int|
                    0 <= i0 < i && (#[trigger] chars@[ci].name@) == msets[i0].name@,
            forall|i0: int, j0: int|
                valid_pair(*m, i0, j0) && i0 < i ==> slot_in(
                    chars@,
                    msets[i0].name@,
                    (#[trigger] msets[i0].difficulties@[j0].rank) as int / 2,
                ) == Some(expected_slot(msets[i0].difficulties@[j0].raw, m.bpm)),
            forall|ci: int, d: int|
                0 <= ci < chars@.len() && 0 <= d < 5 && (
                #[trigger] chars@[ci].slots@[d]) is Some ==> exists|i0: int, j0: int|
                    valid_pair(*m, i0, j0) && i0 < i && msets[i0].name@ == chars@[ci].name@
                        && msets[i0].difficulties@[j0].rank as int / 2 == d,
            forall|i0: int, j0: int|
                valid_pair(*m, i0, j0) && i0 < i ==> schema_of(
                    version_of(#[trigger] m.sets@[i0].difficulties@[j0].raw),
                ) != Schema::Unsupported && gather_ok(m.sets@[i0].difficulties@[j0].raw),
            forall|i1: int, j1: int, i2: int, j2: int|
                valid_pair(*m, i1, j1) && valid_pair(*m, i2, j2) && i1 < i && i2 < i && !(i1 == i2
                    && j1 == j2) && (#[trigger] msets[i1].name@) == (#[trigger] msets[i2].name@)
                    ==> #[trigger] msets[i1].difficulties@[j1].rank / 2
                    != #[trigger] msets[i2].difficulties@[j2].rank / 2,
        decreases msets.len() - i,
    {
        let set_name = &m.sets[i].name;
        let ghost diffs = msets[i as int].difficulties@;
        let mut j: usize = 0;
        proof {
            assert(diffs.subrange(0, 0) =~= Seq::<DifficultyInput>::empty());
            assert(hasher@ =~= m.bytes@ + sets_bytes(msets.subrange(0, i as int)) + diffs_bytes(
                diffs.subrange(0, 0),
            ));
        }
        while j < m.sets[i].difficulties.len()
            invariant
                1 <= m.bpm <= BPM_LIMIT,
                manifest_bounded(*m),
                ranks_in_range(*m),
                i < msets.len(),
                j <= diffs.len(),
                msets == m.sets@,
                diffs == msets[i as int].difficulties@,
                set_name@ == msets[i as int].name@,
                hasher@ == m.bytes@ + sets_bytes(msets.subrange(0, i as int)) + diffs_bytes(
                    diffs.subrange(0, j as int),
                ),
                duration_num as int == if max_contrib_sets(msets.subrange(0, i as int))
                    >= max_contrib_diffs(diffs.subrange(0, j as int)) {
                    max_contrib_sets(msets.subrange(0, i as int))
                } else {
                    max_contrib_diffs(diffs.subrange(0, j as int))
                },
                duration_num <= 60 * BEAT_LIMIT,
                forall|ci: int|
                    0 <= ci < chars@.len() ==> characteristic_wf(#[trigger] chars@[ci]),
                forall|c1: int, c2: int|
                    0 <= c1 < c2 < chars@.len() ==> chars@[c1].name@ != chars@[c2].name@,
                forall|ci: int|
                    0 <= ci < chars@.len() ==> (exists|i0: int|
                        0 <= i0 < i && (#[trigger] chars@[ci].name@) == msets[i0].name@) || (
                    chars@[ci].name@ == msets[i as int].name@ && j > 0),
                forall|i0: int, j0: int|
                    valid_pair(*m, i0, j0) && (i0 < i || (i0 == i && j0 < j)) ==> slot_in(
                        chars@,
                        msets[i0].name@,
                        (#[trigger] msets[i0].difficulties@[j0].rank) as int / 2,
                    ) == Some(expected_slot(msets[i0].difficulties@[j0].raw, m.bpm)),
                forall|ci: int, d: int|
                    0 <= ci < chars@.len() && 0 <= d < 5 && (
                    #[trigger] chars@[ci].slots@[d]) is Some ==> exists|i0: int, j0: int|
                        valid_pair(*m, i0, j0) && (i0 < i || (i0 == i && j0 < j))
                            && msets[i0].name@ == chars@[ci].name@
                            && msets[i0].difficulties@[j0].rank as int / 2 == d,
                forall|i0: int, j0: int|
                    valid_pair(*m, i0, j0) && (i0 < i || (i0 == i && j0 < j)) ==> schema_of(
                        version_of(#[trigger] m.sets@[i0].difficulties@[j0].raw),
                    ) != Schema::Unsupported && gather_ok(m.sets@[i0].difficulties@[j0].raw),
                forall|i1: int, j1: int, i2: int, j2: int|
                    valid_pair(*m, i1, j1) && valid_pair(*m, i2, j2) && (i1 < i || (i1 == i && j1
                        < j)) && (i2 < i || (i2 == i && j2 < j)) && !(i1 == i2 && j1 == j2) && (
                    #[trigger] msets[i1].name@) == (#[trigger] msets[i2].name@)
                        ==> #[trigger] msets[i1].difficulties@[j1].rank / 2
                        != #[trigger] msets[i2].difficulties@[j2].rank / 2,
            decreases diffs.len() - j,
        {
            let ghost chars_top = chars@;
            let d_input = &m.sets[i].difficulties[j];
            hasher.update(&d_input.bytes);
            proof {
                assert(diffs.subrange(0, j as int + 1).drop_last() =~= diffs.subrange(
                    0,
                    j as int,
                ));
                assert(diffs.subrange(0, j as int + 1).last() == diffs[j as int]);
                assert(hasher@ =~= m.bytes@ + sets_bytes(msets.subrange(0, i as int))
                    + diffs_bytes(diffs.subrange(0, j as int + 1)));
            }
            let notes = match normalize_notes(&d_input.raw) {
                Ok(v) => v,
                Err(e) => {
                    return Err(e);
                },
            };
            proof {
                lemma_bounded_by_multiset(notes@, gathered_beats(d_input.raw));
            }
            let density = analyze_density(&notes, m.bpm);
            let stats = match density {
                Some(ds) => {
                    if ds.duration.num > duration_num {
                        duration_num = ds.duration.num;
                    }
                    DifficultyStats::from_density(&ds)
                },
                None => DifficultyStats::unmeasured(),
            };
            proof {
                assert(stats == expected_slot(d_input.raw, m.bpm));
            }
            let di = (d_input.rank / 2) as usize;
            let ci = match find_characteristic(&chars, set_name) {
                Some(ci) => ci,
                None => {
                    chars.push(Characteristic::empty(set_name.clone()));
                    chars.len() - 1
                },
            };
            let ghost chars_mid = chars@;
            if chars[ci].slots[di].is_some() {
                proof {
                    let (i0, j0) = choose|i0: int, j0: int|
                        valid_pair(*m, i0, j0) && (i0 < i || (i0 == i && j0 < j))
                            && msets[i0].name@ == chars_mid[ci as int].name@
                            && msets[i0].difficulties@[j0].rank as int / 2 == di as int;
                    assert(msets[i0].name@ == msets[i as int].name@);
                    assert(!dup_free(*m));
                }
                return Err(StatsError::DuplicateDifficulty);
            }
            let mut c = chars.remove(ci);
            c.slots.set(di, Some(stats));
            let ghost c_new = c;
            chars.insert(ci, c);
            proof {
                assert(chars@ =~= chars_mid.update(ci as int, c_new));
                assert(chars@[ci as int].name@ == msets[i as int].name@);
                assert(forall|k: int|
                    0 <= k < chars_top.len() ==> chars_mid[k] == chars_top[k]);
                assert(forall|k: int, d: int|
                    chars_top.len() <= k < chars_mid.len() && 0 <= d < 5
                        ==> chars_mid[k].slots@[d] is None);
                assert forall|ci2: int, d: int|
                    0 <= ci2 < chars@.len() && 0 <= d < 5 && (
                #[trigger] chars@[ci2].slots@[d]) is Some implies exists|i0: int, j0: int|
                    valid_pair(*m, i0, j0) && (i0 < i || (i0 == i && j0 < j + 1))
                        && msets[i0].name@ == chars@[ci2].name@
                        && msets[i0].difficulties@[j0].rank as int / 2 == d by {
                    if ci2 == ci as int && d == di as int {
                        assert(valid_pair(*m, i as int, j as int) && msets[i as int].name@
                            == chars@[ci2].name@ && msets[i as int].difficulties@[j as int].rank
                            as int / 2 == d);
                    } else {
                        assert(chars@[ci2].slots@[d] == chars_mid[ci2].slots@[d]);
                        assert(ci2 < chars_top.len());
                        assert(chars_top[ci2].slots@[d] is Some);
                    }
                }
                assert forall|i0: int, j0: int|
                    valid_pair(*m, i0, j0) && (i0 < i || (i0 == i && j0 < j + 1)) implies slot_in(
                    chars@,
                    msets[i0].name@,
                    (msets[i0].difficulties@[j0].rank) as int / 2,
                ) == Some(expected_slot(msets[i0].difficulties@[j0].raw, m.bpm)) by {
                    let d0 = msets[i0].difficulties@[j0].rank as int / 2;
                    if i0 == i && j0 == j {
                        lemma_slot_in_unique(chars@, ci as int, d0);
                    } else {
                        if msets[i0].name@ == msets[i as int].name@ {
                            lemma_slot_in_unique(chars_mid, ci as int, d0);
                            lemma_slot_in_unique(chars@, ci as int, d0);
                            assert(chars_mid[ci as int].slots@[di as int] is None);
                            assert(d0 != di as int);
                        } else {
                            let cw = choose|c: int|
                                0 <= c < chars_mid.len() && chars_mid[c].name@ == msets[i0].name@;
                            if exists|c: int|
                                0 <= c < chars_mid.len() && chars_mid[c].name@
                                    == msets[i0].name@ {
                                lemma_slot_in_unique(chars_mid, cw, d0);
                                lemma_slot_in_unique(chars@, cw, d0);
                            }
                        }
                    }
                }
            }
            j += 1;
        }
        proof {
            assert(diffs.subrange(0, diffs.len() as int) =~= diffs);
            assert(msets.subrange(0, i as int + 1).drop_last() =~= msets.subrange(0, i as int));
            assert(msets.subrange(0, i as int + 1).last() == msets[i as int]);
            assert(hasher@ =~= m.bytes@ + sets_bytes(msets.subrange(0, i as int + 1)));
        }
        i += 1;
    }
    proof {
        assert(msets.subrange(0, msets.len() as int) =~= msets);
    }
    let id = hasher.finalize();
    let rec = BeatmapRecord {
        song: m.song.clone(),
        artist: m.artist.clone(),
        mapper: m.mapper.clone(),
        bpm: m.bpm,
        environment: m.environment.clone(),
        duration: Ratio { num: duration_num, den: m.bpm },
        characteristics: chars,
        id,
    };
    Ok(rec)
}

/// The density halves of two slots agree.
pub open spec fn density_half_eq(a: DifficultyStats, b: DifficultyStats) -> bool {
    a.np10s == b.np10s && a.nps == b.nps && a.note_count == b.note_count
}

/// The score half of a slot still holds its defaults.
pub open spec fn score_half_default(d: DifficultyStats) -> bool {
    d.valid == false && d.plays == 0 && d.rank is None && d.combo
        == crate::records::Combo::Unset && d.score == 0
}

/// The two characteristic runs have the same names, the same filled slots,
/// and the same density figures; only score halves may differ.
pub open spec fn same_shape(a: Seq<Characteristic>, b: Seq<Characteristic>) -> bool {
    &&& a.len() == b.len()
    &&& forall|ci: int|
        0 <= ci < a.len() ==> (#[trigger] a[ci]).name@ == b[ci].name@ && a[ci].slots@.len()
            == b[ci].slots@.len()
    &&& forall|ci: int, d: int|
        0 <= ci < a.len() && 0 <= d < a[ci].slots@.len() ==> ((#[trigger] a[ci].slots@[d]) is Some
            <==> b[ci].slots@[d] is Some) && (a[ci].slots@[d] is Some ==> density_half_eq(
            a[ci].slots@[d].unwrap(),
            b[ci].slots@[d].unwrap(),
        ))
}

/// The score record addresses this identity, characteristic and difficulty.
pub open spec fn score_targets(s: ScoreRecord, id: Seq<char>, name: Seq<char>, d: int) -> bool {
    s.level_id@ == id && s.characteristic@ == name && s.difficulty as int == d
}

/// Some score among the first `upto` addresses this slot.
pub open spec fn some_score_targets(
    scores: Seq<ScoreRecord>,
    upto: int,
    id: Seq<char>,
    name: Seq<char>,
    d: int,
) -> bool {
    exists|k: int| 0 <= k < upto && score_targets(#[trigger] scores[k], id, name, d)
}

/// No two score records address the same (identity, characteristic,
/// difficulty) slot.
pub open spec fn distinct_score_targets(scores: Seq<ScoreRecord>) -> bool {
    forall|k1: int, k2: int|
        0 <= k1 < k2 < scores.len() ==> !((#[trigger] scores[k1]).level_id@ == (
        #[trigger] scores[k2]).level_id@ && scores[k1].characteristic@ == scores[k2].characteristic@
            && scores[k1].difficulty == scores[k2].difficulty)
}

/// Merges the player's matching score records into a record's slots: a
/// score whose identity equals the record's, whose characteristic the
/// record carries, and whose difficulty slot is filled overwrites that
/// slot's score half. Any other score leaves the record unchanged (a score
/// against a slot the beatmap no longer defines is skipped).
#[verifier::rlimit(100)]
pub fn merge_scores(rec: &mut BeatmapRecord, scores: &Vec<ScoreRecord>)
    requires
        record_wf(*old(rec)),
        forall|k: int| 0 <= k < scores@.len() ==> score_wf(#[trigger] scores@[k]),
        distinct_score_targets(scores@),
    ensures
        record_wf(*final(rec)),
        final(rec).song == old(rec).song,
        final(rec).artist == old(rec).artist,
        final(rec).mapper == old(rec).mapper,
        final(rec).bpm == old(rec).bpm,
        final(rec).environment == old(rec).environment,
        final(rec).duration == old(rec).duration,
        final(rec).id == old(rec).id,
        same_shape(final(rec).characteristics@, old(rec).characteristics@),
        forall|k: int|
            0 <= k < scores@.len() && (#[trigger] scores@[k]).level_id@ == old(rec).id@ && slot_in(
                old(rec).characteristics@,
                scores@[k].characteristic@,
                scores@[k].difficulty as int,
            ) is Some ==> (slot_in(
                final(rec).characteristics@,
                scores@[k].characteristic@,
                scores@[k].difficulty as int,
            ) matches Some(st) && stats_carries_score(st, scores@[k])),
        forall|ci: int, d: int|
            0 <= ci < old(rec).characteristics@.len() && 0 <= d < 5 && (#[trigger] old(
                rec,
            ).characteristics@[ci].slots@[d]) is Some && !some_score_targets(
                scores@,
                scores@.len() as int,
                old(rec).id@,
                old(rec).characteristics@[ci].name@,
                d,
            ) ==> final(rec).characteristics@[ci].slots@[d] == old(rec).characteristics@[ci].slots@[d],
{
    let ghost orig = *old(rec);
    let mut k: usize = 0;
    while k < scores.len()
        invariant
            record_wf(orig),
            forall|k0: int| 0 <= k0 < scores@.len() ==> score_wf(#[trigger] scores@[k0]),
            distinct_score_targets(scores@),
            k <= scores@.len(),
            rec.song == orig.song,
            rec.artist == orig.artist,
            rec.mapper == orig.mapper,
            rec.bpm == orig.bpm,
            rec.environment == orig.environment,
            rec.duration == orig.duration,
            rec.id == orig.id,
            record_wf(*rec),
            same_shape(rec.characteristics@, orig.characteristics@),
            forall|k0: int|
                0 <= k0 < k && (#[trigger] scores@[k0]).level_id@ == orig.id@ && slot_in(
                    orig.characteristics@,
                    scores@[k0].characteristic@,
                    scores@[k0].difficulty as int,
                ) is Some ==> (slot_in(
                    rec.characteristics@,
                    scores@[k0].characteristic@,
                    scores@[k0].difficulty as int,
                ) matches Some(st) && stats_carries_score(st, scores@[k0])),
            forall|ci: int, d: int|
                0 <= ci < orig.characteristics@.len() && 0 <= d < 5 && (
                #[trigger] orig.characteristics@[ci].slots@[d]) is Some && !some_score_targets(
                    scores@,
                    k as int,
                    orig.id@,
                    orig.characteristics@[ci].name@,
                    d,
                ) ==> rec.characteristics@[ci].slots@[d] == orig.characteristics@[ci].slots@[d],
        decreases scores@.len() - k,
    {
        let ghost chars_top = rec.characteristics@;
        let score = &scores[k];
        if score.level_id.eq(&rec.id) {
            match find_characteristic(&rec.characteristics, &score.characteristic) {
                Some(ci) => {
                    let di = score.difficulty as usize;
                    match rec.characteristics[ci].slots[di] {
                        Some(mut st) => {
                            st.merge_score(score);
                            let mut c = rec.characteristics.remove(ci);
                            c.slots.set(di, Some(st));
                            let ghost c_new = c;
                            rec.characteristics.insert(ci, c);
                            proof {
                                assert(rec.characteristics@ =~= chars_top.update(
                                    ci as int,
                                    c_new,
                                ));
                                lemma_slot_in_unique(chars_top, ci as int, di as int);
                                lemma_slot_in_unique(rec.characteristics@, ci as int, di as int);
                                assert forall|k0: int|
                                    0 <= k0 < k + 1 && (#[trigger] scores@[k0]).level_id@
                                        == orig.id@ && slot_in(
                                        orig.characteristics@,
                                        scores@[k0].characteristic@,
                                        scores@[k0].difficulty as int,
                                    ) is Some implies (slot_in(
                                    rec.characteristics@,
                                    scores@[k0].characteristic@,
                                    scores@[k0].difficulty as int,
                                ) matches Some(st0) && stats_carries_score(st0, scores@[k0])) by {
                                    if k0 < k {
                                        if scores@[k0].characteristic@ == chars_top[
                                        ci as int].name@ {
                                            lemma_slot_in_unique(
                                                chars_top,
                                                ci as int,
                                                scores@[k0].difficulty as int,
                                            );
                                            lemma_slot_in_unique(
                                                rec.characteristics@,
                                                ci as int,
                                                scores@[k0].difficulty as int,
                                            );
                                        } else {
                                            let cw = choose|c0: int|
                                                0 <= c0 < chars_top.len() && chars_top[c0].name@
                                                    == scores@[k0].characteristic@;
                                            if exists|c0: int|
                                                0 <= c0 < chars_top.len() && chars_top[c0].name@
                                                    == scores@[k0].characteristic@ {
                                                lemma_slot_in_unique(
                                                    chars_top,
                                                    cw,
                                                    scores@[k0].difficulty as int,
                                                );
                                                lemma_slot_in_unique(
                                                    rec.characteristics@,
                                                    cw,
                                                    scores@[k0].difficulty as int,
                                                );
                                            }
                                        }
                                    }
                                }
                            }
                        },
                        None => {},
                    }
                },
                None => {},
            }
        }
        k += 1;
    }
}

/// Processes one beatmap: builds its record and merges the matching
/// scores. A score whose (characteristic, difficulty) slot the beatmap
/// does not define is skipped; every other score whose identity matches
/// lands in its slot.
pub fn process_beatmap(m: &ManifestInput, scores: &Vec<ScoreRecord>) -> (r: Result<
    BeatmapRecord,
    StatsError,
>)
    requires
        1 <= m.bpm <= BPM_LIMIT,
        manifest_bounded(*m),
        ranks_in_range(*m),
        forall|k: int| 0 <= k < scores@.len() ==> score_wf(#[trigger] scores@[k]),
        distinct_score_targets(scores@),
    ensures
        r is Ok <==> manifest_gather_ok(*m) && dup_free(*m),
        r matches Ok(rec) ==> {
            &&& rec.song == m.song
            &&& rec.artist == m.artist
            &&& rec.mapper == m.mapper
            &&& rec.bpm == m.bpm
            &&& rec.environment == m.environment
            &&& rec.id@ == id_of(stream_of(*m))
            &&& record_wf(rec)
            &&& rec.duration.den == m.bpm
            &&& rec.duration.num == max_contrib_sets(m.sets@)
            &&& forall|i: int, j: int|
                valid_pair(*m, i, j) ==> (slot_in(
                    rec.characteristics@,
                    m.sets@[i].name@,
                    (#[trigger] m.sets@[i].difficulties@[j].rank) as int / 2,
                ) matches Some(st) && density_half_eq(
                    st,
                    expected_slot(m.sets@[i].difficulties@[j].raw, m.bpm),
                ))
            &&& forall|i: int, j: int|
                valid_pair(*m, i, j) && !some_score_targets(
                    scores@,
                    scores@.len() as int,
                    id_of(stream_of(*m)),
                    m.sets@[i].name@,
                    m.sets@[i].difficulties@[j].rank as int / 2,
                ) ==> slot_in(
                    rec.characteristics@,
                    m.sets@[i].name@,
                    (#[trigger] m.sets@[i].difficulties@[j].rank) as int / 2,
                ) == Some(expected_slot(m.sets@[i].difficulties@[j].raw, m.bpm))
            &&& forall|k: int|
                0 <= k < scores@.len() && (#[trigger] scores@[k]).level_id@ == rec.id@ && slot_in(
                    rec.characteristics@,
                    scores@[k].characteristic@,
                    scores@[k].difficulty as int,
                ) is Some ==> (slot_in(
                    rec.characteristics@,
                    scores@[k].characteristic@,
                    scores@[k].difficulty as int,
                ) matches Some(st) && stats_carries_score(st, scores@[k]))
        },
        r matches Err(e) ==> {
            &&& (e == StatsError::UnsupportedSchema ==> exists|i: int, j: int|
                valid_pair(*m, i, j) && schema_of(
                    version_of(#[trigger] m.sets@[i].difficulties@[j].raw),
                ) == Schema::Unsupported)
            &&& (e == StatsError::MissingRequiredField ==> exists|i: int, j: int|
                valid_pair(*m, i, j) && !gather_ok(#[trigger] m.sets@[i].difficulties@[j].raw))
            &&& (e == StatsError::DuplicateDifficulty ==> !dup_free(*m))
            &&& e != StatsError::MissingOrMalformedFile
        },
{
    let mut rec = match build_record(m) {
        Ok(rec) => rec,
        Err(e) => {
            return Err(e);
        },
    };
    let ghost built = rec;
    merge_scores(&mut rec, scores);
    proof {
        lemma_same_shape_slot_in(rec.characteristics@, built.characteristics@);
    }
    Ok(rec)
}

/// Two same-shape characteristic runs with unique names agree on slot
/// presence and density halves under every lookup.
proof fn lemma_same_shape_slot_in(a: Seq<Characteristic>, b: Seq<Characteristic>)
    requires
        same_shape(a, b),
        forall|c1: int, c2: int| 0 <= c1 < c2 < a.len() ==> a[c1].name@ != a[c2].name@,
        forall|ci: int| 0 <= ci < a.len() ==> characteristic_wf(#[trigger] a[ci]),
    ensures
        forall|name: Seq<char>, d: int|
            0 <= d < 5 ==> ((#[trigger] slot_in(a, name, d)) is Some <==> slot_in(b, name, d)
                is Some) && (slot_in(a, name, d) is Some ==> density_half_eq(
                slot_in(a, name, d).unwrap(),
                slot_in(b, name, d).unwrap(),
            )),
{
    assert forall|name: Seq<char>, d: int| 0 <= d < 5 implies ((#[trigger] slot_in(a, name, d))
        is Some <==> slot_in(b, name, d) is Some) && (slot_in(a, name, d) is Some
        ==> density_half_eq(slot_in(a, name, d).unwrap(), slot_in(b, name, d).unwrap())) by {
        if exists|ci: int| 0 <= ci < a.len() && a[ci].name@ == name {
            let ca = choose|ci: int| 0 <= ci < a.len() && a[ci].name@ == name;
            assert(b[ca].name@ == name);
            assert(exists|ci: int| 0 <= ci < b.len() && b[ci].name@ == name);
            let cb = choose|ci: int| 0 <= ci < b.len() && b[ci].name@ == name;
            assert(a[cb].name@ == name);
            assert(ca == cb);
            assert(0 <= d < a[ca].slots@.len());
        } else {
            assert forall|ci: int| 0 <= ci < b.len() implies (#[trigger] b[ci].name@) != name by {
                assert(a[ci].name@ != name);
            }
        }
    }
}

} // verus!
