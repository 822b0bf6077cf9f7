//! The reconciliation engine: once every local beatmap is processed, the
//! score records whose identities were not seen are grouped by identity and
//! resolved, first against the optional external reference table, then as
//! orphans built from the scores alone.

use vstd::prelude::*;
use crate::processor::{distinct_score_targets, lemma_slot_in_unique, slot_in};
use crate::ratio::Ratio;
use crate::records::{
    characteristic_wf, find_characteristic, record_wf, score_wf, stats_carries_score,
    BeatmapRecord, Characteristic, DifficultyStats, ScoreRecord,
};

verus! {

/// One decoded row of the reference table: song metadata and the
/// precomputed per-difficulty density figures of a beatmap that is not
/// locally available.
pub struct ReferenceEntry {
    pub level_id: String,
    pub song: String,
    pub artist: String,
    pub mapper: String,
    /// Tempo, thousandths of a beat per minute.
    pub bpm: u64,
    pub environment: String,
    /// The row's declared duration, in seconds.
    pub duration: Ratio,
    /// Precomputed notes-per-second figures, one per difficulty.
    pub nps: Vec<Ratio>,
    /// Precomputed note counts, one per difficulty.
    pub notes: Vec<u32>,
}

/// The entry carries one figure per difficulty name.
pub open spec fn entry_wf(e: ReferenceEntry) -> bool {
    e.nps@.len() == 5 && e.notes@.len() == 5 && e.duration.den > 0
}

/// The pending scores of one unresolved identity.
pub struct ScoreGroup {
    pub level_id: String,
    pub scores: Vec<ScoreRecord>,
}

/// Some group holds this score.
pub open spec fn in_some_group(groups: Seq<ScoreGroup>, s: ScoreRecord) -> bool {
    exists|g: int| 0 <= g < groups.len() && (#[trigger] groups[g]).scores@.contains(s)
}

/// Some score of the run names this characteristic.
pub open spec fn some_score_names(scores: Seq<ScoreRecord>, name: Seq<char>) -> bool {
    exists|k: int| 0 <= k < scores.len() && (#[trigger] scores[k]).characteristic@ == name
}

/// All of a group's scores bear the group's identity.
pub open spec fn group_wf(g: ScoreGroup) -> bool {
    &&& g.scores@.len() > 0
    &&& forall|k: int|
        0 <= k < g.scores@.len() ==> (#[trigger] g.scores@[k]).level_id@ == g.level_id@
}

/// Pushing onto a sequence keeps everything it contains.
proof fn lemma_push_keeps_contains<T>(s: Seq<T>, x: T)
    ensures
        forall|y: T| s.contains(y) ==> #[trigger] s.push(x).contains(y),
        s.push(x).contains(x),
{
    assert(s.push(x)[s.len() as int] == x);
    assert forall|y: T| s.contains(y) implies #[trigger] s.push(x).contains(y) by {
        let i = choose|i: int| 0 <= i < s.len() && s[i] == y;
        assert(s.push(x)[i] == y);
    }
}

/// Groups the pending scores by identity, keeping first-appearance order.
pub fn group_by_level(pending: &Vec<ScoreRecord>) -> (groups: Vec<ScoreGroup>)
    requires
        distinct_score_targets(pending@),
    ensures
        forall|g: int| 0 <= g < groups@.len() ==> group_wf(#[trigger] groups@[g]),
        forall|g: int|
            0 <= g < groups@.len() ==> distinct_score_targets((#[trigger] groups@[g]).scores@),
        forall|g1: int, g2: int|
            0 <= g1 < g2 < groups@.len() ==> groups@[g1].level_id@ != groups@[g2].level_id@,
        forall|k: int|
            0 <= k < pending@.len() ==> in_some_group(groups@, #[trigger] pending@[k]),
        forall|g: int, k: int|
            0 <= g < groups@.len() && 0 <= k < groups@[g].scores@.len() ==> pending@.contains(
                #[trigger] groups@[g].scores@[k],
            ),
{
    let mut groups: Vec<ScoreGroup> = Vec::new();
    let mut k: usize = 0;
    while k < pending.len()
        invariant
            k <= pending@.len(),
            distinct_score_targets(pending@),
            forall|g: int| 0 <= g < groups@.len() ==> group_wf(#[trigger] groups@[g]),
            forall|g1: int, g2: int|
                0 <= g1 < g2 < groups@.len() ==> groups@[g1].level_id@ != groups@[g2].level_id@,
            forall|k0: int|
                0 <= k0 < k ==> in_some_group(groups@, #[trigger] pending@[k0]),
            forall|g: int, k0: int|
                0 <= g < groups@.len() && 0 <= k0 < groups@[g].scores@.len()
                    ==> pending@.subrange(0, k as int).contains(
                    #[trigger] groups@[g].scores@[k0],
                ),
            forall|g: int|
                0 <= g < groups@.len() ==> distinct_score_targets(
                    (#[trigger] groups@[g]).scores@,
                ),
        decreases pending@.len() - k,
    {
        let score = &pending[k];
        let ghost groups_top = groups@;
        let mut g: usize = 0;
        let mut found = false;
        while g < groups.len() && !found
            invariant
                g <= groups@.len(),
                groups@ == groups_top,
                found ==> g < groups@.len() && groups@[g as int].level_id@ == score.level_id@,
                !found ==> forall|g0: int|
                    0 <= g0 < g ==> (#[trigger] groups@[g0]).level_id@ != score.level_id@,
            decreases groups@.len() - g + (if found {
                0int
            } else {
                1int
            }),
        {
            if groups[g].level_id.eq(&score.level_id) {
                found = true;
            } else {
                g += 1;
            }
        }
        proof {
            assert(pending@.subrange(0, k as int + 1)[k as int] == pending@[k as int]);
            assert(pending@.subrange(0, k as int + 1).contains(pending@[k as int]));
            assert forall|y: ScoreRecord|
                pending@.subrange(0, k as int).contains(y) implies pending@.subrange(
                0,
                k as int + 1,
            ).contains(y) by {
                let i0 = choose|i0: int|
                    0 <= i0 < k && pending@.subrange(0, k as int)[i0] == y;
                assert(pending@.subrange(0, k as int + 1)[i0] == y);
            }
        }
        if found {
            let mut grp = groups.remove(g);
            grp.scores.push(score.duplicate());
            let ghost grp_new = grp;
            groups.insert(g, grp);
            proof {
                assert(groups@ =~= groups_top.update(g as int, grp_new));
                lemma_push_keeps_contains(
                    groups_top[g as int].scores@,
                    pending@[k as int],
                );
                assert(grp_new.scores@ == groups_top[g as int].scores@.push(pending@[k as int]));
                assert(group_wf(grp_new));
                assert forall|k1: int, k2: int|
                    0 <= k1 < k2 < grp_new.scores@.len() implies !((
                #[trigger] grp_new.scores@[k1]).level_id@ == (
                #[trigger] grp_new.scores@[k2]).level_id@ && grp_new.scores@[k1].characteristic@
                    == grp_new.scores@[k2].characteristic@ && grp_new.scores@[k1].difficulty
                    == grp_new.scores@[k2].difficulty) by {
                    if k2 == grp_new.scores@.len() - 1 {
                        let e = grp_new.scores@[k1];
                        assert(grp_new.scores@[k2] == pending@[k as int]);
                        assert(groups_top[g as int].scores@.contains(e));
                        let ke = choose|ke: int|
                            0 <= ke < k && pending@.subrange(0, k as int)[ke] == e;
                        assert(pending@[ke] == e);
                        assert(!(pending@[ke].level_id@ == pending@[k as int].level_id@
                            && pending@[ke].characteristic@ == pending@[k as int].characteristic@
                            && pending@[ke].difficulty == pending@[k as int].difficulty));
                    } else {
                        assert(grp_new.scores@[k1] == groups_top[g as int].scores@[k1]);
                        assert(grp_new.scores@[k2] == groups_top[g as int].scores@[k2]);
                    }
                }
                assert(groups@[g as int].scores@.contains(pending@[k as int]));
                assert forall|k0: int| 0 <= k0 < k + 1 implies in_some_group(
                    groups@,
                    #[trigger] pending@[k0],
                ) by {
                    if k0 < k {
                        let g2 = choose|g2: int|
                            0 <= g2 < groups_top.len() && (#[trigger] groups_top[
                            g2]).scores@.contains(pending@[k0]);
                        assert(groups@[g2].scores@.contains(pending@[k0]));
                    } else {
                        assert(groups@[g as int].scores@.contains(pending@[k0]));
                    }
                }
            }
        } else {
            let mut scores: Vec<ScoreRecord> = Vec::new();
            scores.push(score.duplicate());
            groups.push(ScoreGroup { level_id: score.level_id.clone(), scores });
            proof {
                let gl = groups@.len() - 1;
                assert(groups@[gl].scores@[0] == pending@[k as int]);
                assert(groups@[gl].scores@.contains(pending@[k as int]));
                assert(group_wf(groups@[gl]));
                assert(distinct_score_targets(groups@[gl].scores@));
                assert forall|k0: int| 0 <= k0 < k + 1 implies in_some_group(
                    groups@,
                    #[trigger] pending@[k0],
                ) by {
                    if k0 < k {
                        let g2 = choose|g2: int|
                            0 <= g2 < groups_top.len() && (#[trigger] groups_top[
                            g2]).scores@.contains(pending@[k0]);
                        assert(groups@[g2].scores@.contains(pending@[k0]));
                    } else {
                        assert(groups@[gl].scores@.contains(pending@[k0]));
                    }
                }
            }
        }
        k += 1;
    }
    proof {
        assert(pending@.subrange(0, pending@.len() as int) =~= pending@);
    }
    groups
}

/// Splits a group's scores into those of the "Standard" characteristic
/// and the rest.
pub fn split_standard(scores: &Vec<ScoreRecord>) -> (r: (Vec<ScoreRecord>, Vec<ScoreRecord>))
    requires
        distinct_score_targets(scores@),
    ensures
        distinct_score_targets(r.0@),
        distinct_score_targets(r.1@),
        forall|k: int|
            0 <= k < r.0@.len() ==> (#[trigger] r.0@[k]).characteristic@ == "Standard"@
                && scores@.contains(r.0@[k]),
        forall|k: int|
            0 <= k < r.1@.len() ==> (#[trigger] r.1@[k]).characteristic@ != "Standard"@
                && scores@.contains(r.1@[k]),
        forall|k: int|
            0 <= k < scores@.len() ==> (if (#[trigger] scores@[k]).characteristic@ == "Standard"@ {
                r.0@.contains(scores@[k])
            } else {
                r.1@.contains(scores@[k])
            }),
        r.0@.len() + r.1@.len() == scores@.len(),
{
    let standard_name = String::from_str("Standard");
    let mut std_part: Vec<ScoreRecord> = Vec::new();
    let mut rest: Vec<ScoreRecord> = Vec::new();
    let mut k: usize = 0;
    while k < scores.len()
        invariant
            k <= scores@.len(),
            distinct_score_targets(scores@),
            distinct_score_targets(std_part@),
            distinct_score_targets(rest@),
            standard_name@ == "Standard"@,
            forall|k0: int|
                0 <= k0 < std_part@.len() ==> scores@.subrange(0, k as int).contains(
                    #[trigger] std_part@[k0],
                ),
            forall|k0: int|
                0 <= k0 < rest@.len() ==> scores@.subrange(0, k as int).contains(
                    #[trigger] rest@[k0],
                ),
            forall|k0: int|
                0 <= k0 < std_part@.len() ==> (#[trigger] std_part@[k0]).characteristic@
                    == "Standard"@ && scores@.contains(std_part@[k0]),
            forall|k0: int|
                0 <= k0 < rest@.len() ==> (#[trigger] rest@[k0]).characteristic@ != "Standard"@
                    && scores@.contains(rest@[k0]),
            forall|k0: int|
                0 <= k0 < k ==> (if (#[trigger] scores@[k0]).characteristic@ == "Standard"@ {
                    std_part@.contains(scores@[k0])
                } else {
                    rest@.contains(scores@[k0])
                }),
            std_part@.len() + rest@.len() == k,
        decreases scores@.len() - k,
    {
        proof {
            assert(scores@.contains(scores@[k as int]));
            assert(scores@.subrange(0, k as int + 1)[k as int] == scores@[k as int]);
            assert(scores@.subrange(0, k as int + 1).contains(scores@[k as int]));
            assert forall|y: ScoreRecord|
                scores@.subrange(0, k as int).contains(y) implies scores@.subrange(
                0,
                k as int + 1,
            ).contains(y) by {
                let i0 = choose|i0: int| 0 <= i0 < k && scores@.subrange(0, k as int)[i0] == y;
                assert(scores@.subrange(0, k as int + 1)[i0] == y);
            }
        }
        let ghost std_top = std_part@;
        let ghost rest_top = rest@;
        if scores[k].characteristic.eq(&standard_name) {
            std_part.push(scores[k].duplicate());
            proof {
                lemma_push_keeps_contains(std_top, scores@[k as int]);
                assert(std_part@.contains(scores@[k as int]));
                lemma_distinct_after_push(std_top, scores@, k as int);
            }
        } else {
            rest.push(scores[k].duplicate());
            proof {
                lemma_push_keeps_contains(rest_top, scores@[k as int]);
                assert(rest@.contains(scores@[k as int]));
                lemma_distinct_after_push(rest_top, scores@, k as int);
            }
        }
        k += 1;
    }
    (std_part, rest)
}

/// Pushing a score not yet drawn from the source keeps a drawn-from-source
/// run free of repeated targets.
proof fn lemma_distinct_after_push(part: Seq<ScoreRecord>, source: Seq<ScoreRecord>, k: int)
    requires
        0 <= k < source.len(),
        distinct_score_targets(source),
        distinct_score_targets(part),
        forall|k0: int|
            0 <= k0 < part.len() ==> source.subrange(0, k).contains(#[trigger] part[k0]),
    ensures
        distinct_score_targets(part.push(source[k])),
{
    let t = part.push(source[k]);
    assert forall|k1: int, k2: int| 0 <= k1 < k2 < t.len() implies !((
    #[trigger] t[k1]).level_id@ == (#[trigger] t[k2]).level_id@ && t[k1].characteristic@
        == t[k2].characteristic@ && t[k1].difficulty == t[k2].difficulty) by {
        if k2 == t.len() - 1 {
            let e = t[k1];
            assert(part[k1] == e);
            assert(t[k2] == source[k]);
            let ke = choose|ke: int| 0 <= ke < k && source.subrange(0, k)[ke] == e;
            assert(source[ke] == e);
            assert(!(source[ke].level_id@ == source[k].level_id@ && source[ke].characteristic@
                == source[k].characteristic@ && source[ke].difficulty == source[k].difficulty));
        } else {
            assert(t[k1] == part[k1]);
            assert(t[k2] == part[k2]);
        }
    }
}

/// Some pending score bears this identity.
pub open spec fn id_pending(pending: Seq<ScoreRecord>, id: Seq<char>) -> bool {
    exists|k: int| 0 <= k < pending.len() && (#[trigger] pending[k]).level_id@ == id
}

/// The reference table has a row for this identity.
pub open spec fn table_knows(table: Seq<ReferenceEntry>, id: Seq<char>) -> bool {
    exists|t: int| 0 <= t < table.len() && (#[trigger] table[t]).level_id@ == id
}

/// Every characteristic of the record is the "Standard" one.
pub open spec fn all_standard_chars(r: BeatmapRecord) -> bool {
    forall|ci: int|
        0 <= ci < r.characteristics@.len() ==> (#[trigger] r.characteristics@[ci].name@)
            == "Standard"@
}

/// No characteristic of the record is the "Standard" one.
pub open spec fn no_standard_char(r: BeatmapRecord) -> bool {
    forall|ci: int|
        0 <= ci < r.characteristics@.len() ==> (#[trigger] r.characteristics@[ci].name@)
            != "Standard"@
}

/// The record carries a reference-table row's metadata for its identity:
/// the shape the reference path builds.
pub open spec fn reference_shaped(r: BeatmapRecord, table: Seq<ReferenceEntry>) -> bool {
    exists|t: int|
        0 <= t < table.len() && (#[trigger] table[t]).level_id@ == r.id@ && r.song == table[t].song
            && r.artist == table[t].artist && r.mapper == table[t].mapper && r.bpm == table[t].bpm
            && r.environment == table[t].environment && r.duration == table[t].duration
}

/// The record carries the orphan path's empty metadata.
pub open spec fn orphan_shaped(r: BeatmapRecord) -> bool {
    &&& r.song@ == Seq::<char>::empty()
    &&& r.artist@ == Seq::<char>::empty()
    &&& r.mapper@ == Seq::<char>::empty()
    &&& r.environment@ == Seq::<char>::empty()
    &&& r.bpm == 0
    &&& r.duration.num == 0
}

/// The record resolves this score: it bears the score's identity and has
/// the score's (characteristic, difficulty) slot filled with its fields.
pub open spec fn record_resolves(r: BeatmapRecord, s: ScoreRecord) -> bool {
    r.id@ == s.level_id@ && (slot_in(
        r.characteristics@,
        s.characteristic@,
        s.difficulty as int,
    ) matches Some(st) && stats_carries_score(st, s))
}

/// The record bears the score's identity and has its slot filled, with
/// whatever fields.
pub open spec fn record_holds_slot(r: BeatmapRecord, s: ScoreRecord) -> bool {
    r.id@ == s.level_id@ && slot_in(
        r.characteristics@,
        s.characteristic@,
        s.difficulty as int,
    ) is Some
}

/// Some output record resolves this score.
pub open spec fn some_record_resolves(out: Seq<BeatmapRecord>, s: ScoreRecord) -> bool {
    exists|ri: int| 0 <= ri < out.len() && record_resolves(#[trigger] out[ri], s)
}

/// The score sits in exactly one slot of the output: some record resolves
/// it, and only one record has its slot filled at all.
pub open spec fn unique_slot_holder(out: Seq<BeatmapRecord>, s: ScoreRecord) -> bool {
    &&& some_record_resolves(out, s)
    &&& forall|r1: int, r2: int|
        0 <= r1 < out.len() && 0 <= r2 < out.len() && record_holds_slot(#[trigger] out[r1], s)
            && record_holds_slot(#[trigger] out[r2], s) ==> r1 == r2
}

/// No record of the output has the score's slot filled.
pub open spec fn held_nowhere(out: Seq<BeatmapRecord>, s: ScoreRecord) -> bool {
    forall|ri: int| 0 <= ri < out.len() ==> !record_holds_slot(#[trigger] out[ri], s)
}

/// How the pipeline accounts for one score, where the first `locals_len`
/// records of the output are the locally processed beatmaps: a score whose
/// identity a local record bears sits in exactly one slot when that record
/// defines its (characteristic, difficulty) slot, and nowhere at all when
/// it does not (the skip for a score against an edited beatmap); every
/// other score sits in exactly one slot of the reconciliation's records.
pub open spec fn accounted_exactly_once(
    out: Seq<BeatmapRecord>,
    locals_len: int,
    s: ScoreRecord,
) -> bool {
    if id_processed(out.subrange(0, locals_len), s.level_id@) {
        if exists|ri: int|
            0 <= ri < locals_len && (#[trigger] out[ri]).id@ == s.level_id@ && slot_in(
                out[ri].characteristics@,
                s.characteristic@,
                s.difficulty as int,
            ) is Some {
            unique_slot_holder(out, s)
        } else {
            held_nowhere(out, s)
        }
    } else {
        unique_slot_holder(out, s)
    }
}

/// Some processed record already bears this identity.
pub open spec fn id_processed(records: Seq<BeatmapRecord>, id: Seq<char>) -> bool {
    exists|ri: int| 0 <= ri < records.len() && (#[trigger] records[ri]).id@ == id
}

/// Keeps the scores whose identity no processed record bears: the scores
/// the reconciliation engine still has to resolve.
pub fn partition_pending(scores: &Vec<ScoreRecord>, records: &Vec<BeatmapRecord>) -> (pending: Vec<
    ScoreRecord,
>)
    requires
        distinct_score_targets(scores@),
    ensures
        distinct_score_targets(pending@),
        forall|k: int|
            0 <= k < pending@.len() ==> scores@.contains(#[trigger] pending@[k]) && !id_processed(
                records@,
                pending@[k].level_id@,
            ),
        forall|k: int|
            0 <= k < scores@.len() && !id_processed(records@, (#[trigger] scores@[k]).level_id@)
                ==> pending@.contains(scores@[k]),
{
    let mut pending: Vec<ScoreRecord> = Vec::new();
    let mut k: usize = 0;
    while k < scores.len()
        invariant
            k <= scores@.len(),
            distinct_score_targets(scores@),
            distinct_score_targets(pending@),
            forall|k0: int|
                0 <= k0 < pending@.len() ==> scores@.subrange(0, k as int).contains(
                    #[trigger] pending@[k0],
                ) && !id_processed(records@, pending@[k0].level_id@),
            forall|k0: int|
                0 <= k0 < k && !id_processed(records@, (#[trigger] scores@[k0]).level_id@)
                    ==> pending@.contains(scores@[k0]),
        decreases scores@.len() - k,
    {
        proof {
            assert(scores@.subrange(0, k as int + 1)[k as int] == scores@[k as int]);
            assert(scores@.subrange(0, k as int + 1).contains(scores@[k as int]));
            assert forall|y: ScoreRecord|
                scores@.subrange(0, k as int).contains(y) implies scores@.subrange(
                0,
                k as int + 1,
            ).contains(y) by {
                let i0 = choose|i0: int| 0 <= i0 < k && scores@.subrange(0, k as int)[i0] == y;
                assert(scores@.subrange(0, k as int + 1)[i0] == y);
            }
        }
        let score = &scores[k];
        let mut seen = false;
        let mut ri: usize = 0;
        while ri < records.len() && !seen
            invariant
                ri <= records@.len(),
                seen ==> ri < records@.len() && records@[ri as int].id@ == score.level_id@,
                !seen ==> forall|r0: int|
                    0 <= r0 < ri ==> (#[trigger] records@[r0]).id@ != score.level_id@,
            decreases records@.len() - ri + (if seen {
                0int
            } else {
                1int
            }),
        {
            if records[ri].id.eq(&score.level_id) {
                seen = true;
            } else {
                ri += 1;
            }
        }
        if !seen {
            let ghost pending_top = pending@;
            pending.push(score.duplicate());
            proof {
                lemma_push_keeps_contains(pending_top, scores@[k as int]);
                lemma_distinct_after_push(pending_top, scores@, k as int);
                assert(pending@.contains(scores@[k as int]));
            }
        }
        k += 1;
    }
    proof {
        assert(scores@.subrange(0, scores@.len() as int) =~= scores@);
    }
    pending
}

/// Finds the reference entry with this identity, if the table has one.
pub fn find_reference<'a>(table: &'a Vec<ReferenceEntry>, id: &String) -> (r: Option<
    &'a ReferenceEntry,
>)
    ensures
        match r {
            Some(e) => table@.contains(*e) && e.level_id@ == id@,
            None => forall|t: int| 0 <= t < table@.len() ==> (#[trigger] table@[t]).level_id@
                != id@,
        },
{
    let mut t: usize = 0;
    while t < table.len()
        invariant
            t <= table@.len(),
            forall|t0: int| 0 <= t0 < t ==> (#[trigger] table@[t0]).level_id@ != id@,
        decreases table@.len() - t,
    {
        if table[t].level_id.eq(id) {
            proof {
                assert(table@.contains(table@[t as int]));
            }
            return Some(&table[t]);
        }
        t += 1;
    }
    None
}

/// Builds the slots of a record purely from score records, creating the
/// characteristics they name. `density` supplies per-difficulty figures
/// for the "reference" path and nothing for the orphan path.
fn fill_from_scores(
    chars: &mut Vec<Characteristic>,
    scores: &Vec<ScoreRecord>,
    entry: Option<&ReferenceEntry>,
)
    requires
        old(chars)@.len() == 0,
        forall|k: int| 0 <= k < scores@.len() ==> score_wf(#[trigger] scores@[k]),
        forall|k1: int, k2: int|
            0 <= k1 < k2 < scores@.len() ==> !((#[trigger] scores@[k1]).characteristic@ == (
            #[trigger] scores@[k2]).characteristic@ && scores@[k1].difficulty
                == scores@[k2].difficulty),
        entry matches Some(e) ==> entry_wf(*e),
    ensures
        forall|ci: int|
            0 <= ci < final(chars)@.len() ==> characteristic_wf(#[trigger] final(chars)@[ci]),
        forall|c1: int, c2: int|
            0 <= c1 < c2 < final(chars)@.len() ==> final(chars)@[c1].name@
                != final(chars)@[c2].name@,
        forall|ci: int|
            0 <= ci < final(chars)@.len() ==> some_score_names(
                scores@,
                #[trigger] final(chars)@[ci].name@,
            ),
        forall|k: int|
            0 <= k < scores@.len() ==> (slot_in(
                final(chars)@,
                (#[trigger] scores@[k]).characteristic@,
                scores@[k].difficulty as int,
            ) matches Some(st) && stats_carries_score(st, scores@[k]) && st.np10s is None && (match entry {
                Some(e) => st.nps == Some(e.nps@[scores@[k].difficulty as int]) && st.note_count
                    == Some(e.notes@[scores@[k].difficulty as int]),
                None => st.nps is None && st.note_count is None,
            })),
        forall|ci: int, d: int|
            0 <= ci < final(chars)@.len() && 0 <= d < 5 && (
            #[trigger] final(chars)@[ci].slots@[d]) is Some ==> exists|k: int|
                0 <= k < scores@.len() && (#[trigger] scores@[k]).characteristic@ == final(chars)@[ci].name@ && scores@[k].difficulty as int == d,
{
    let mut k: usize = 0;
    while k < scores.len()
        invariant
            k <= scores@.len(),
            forall|k0: int| 0 <= k0 < scores@.len() ==> score_wf(#[trigger] scores@[k0]),
            forall|k1: int, k2: int|
                0 <= k1 < k2 < scores@.len() ==> !((#[trigger] scores@[k1]).characteristic@ == (
                #[trigger] scores@[k2]).characteristic@ && scores@[k1].difficulty
                    == scores@[k2].difficulty),
            entry matches Some(e) ==> entry_wf(*e),
            forall|ci: int| 0 <= ci < chars@.len() ==> characteristic_wf(#[trigger] chars@[ci]),
            forall|c1: int, c2: int|
                0 <= c1 < c2 < chars@.len() ==> chars@[c1].name@ != chars@[c2].name@,
            forall|ci: int|
                0 <= ci < chars@.len() ==> some_score_names(scores@, #[trigger] chars@[ci].name@),
            forall|k0: int|
                0 <= k0 < k ==> (slot_in(
                    chars@,
                    (#[trigger] scores@[k0]).characteristic@,
                    scores@[k0].difficulty as int,
                ) matches Some(st) && stats_carries_score(st, scores@[k0]) && st.np10s is None && (
                match entry {
                    Some(e) => st.nps == Some(e.nps@[scores@[k0].difficulty as int])
                        && st.note_count == Some(e.notes@[scores@[k0].difficulty as int]),
                    None => st.nps is None && st.note_count is None,
                })),
            forall|ci: int, d: int|
                0 <= ci < chars@.len() && 0 <= d < 5 && (
                #[trigger] chars@[ci].slots@[d]) is Some ==> exists|k0: int|
                    0 <= k0 < k && (#[trigger] scores@[k0]).characteristic@ == chars@[ci].name@
                        && scores@[k0].difficulty as int == d,
        decreases scores@.len() - k,
    {
        let ghost chars_top = chars@;
        let score = &scores[k];
        let mut st = DifficultyStats::unmeasured();
        st.merge_score(score);
        match entry {
            Some(e) => {
                st.nps = Some(e.nps[score.difficulty as usize]);
                st.note_count = Some(e.notes[score.difficulty as usize]);
            },
            None => {},
        }
        let di = score.difficulty as usize;
        let ci = match find_characteristic(chars, &score.characteristic) {
            Some(ci) => ci,
            None => {
                chars.push(Characteristic::empty(score.characteristic.clone()));
                chars.len() - 1
            },
        };
        let ghost chars_mid = chars@;
        let mut c = chars.remove(ci);
        c.slots.set(di, Some(st));
        let ghost c_new = c;
        chars.insert(ci, c);
        proof {
            assert(chars@ =~= chars_mid.update(ci as int, c_new));
            assert(chars@[ci as int].name@ == score.characteristic@);
            assert(forall|x: int| 0 <= x < chars_top.len() ==> chars_mid[x] == chars_top[x]);
            assert(forall|x: int, d: int|
                chars_top.len() <= x < chars_mid.len() && 0 <= d < 5 ==> chars_mid[x].slots@[d]
                    is None);
            assert forall|k0: int| 0 <= k0 < k + 1 implies (slot_in(
                chars@,
                (#[trigger] scores@[k0]).characteristic@,
                scores@[k0].difficulty as int,
            ) matches Some(st0) && stats_carries_score(st0, scores@[k0]) && st0.np10s is None && (
            match entry {
                Some(e) => st0.nps == Some(e.nps@[scores@[k0].difficulty as int]) && st0.note_count
                    == Some(e.notes@[scores@[k0].difficulty as int]),
                None => st0.nps is None && st0.note_count is None,
            })) by {
                if k0 == k {
                    lemma_slot_in_unique(chars@, ci as int, di as int);
                } else {
                    if scores@[k0].characteristic@ == score.characteristic@ {
                        lemma_slot_in_unique(chars_mid, ci as int, scores@[k0].difficulty as int);
                        lemma_slot_in_unique(chars@, ci as int, scores@[k0].difficulty as int);
                        assert(scores@[k0].difficulty as int != di as int);
                    } else {
                        let cw = choose|c0: int|
                            0 <= c0 < chars_mid.len() && chars_mid[c0].name@
                                == scores@[k0].characteristic@;
                        if exists|c0: int|
                            0 <= c0 < chars_mid.len() && chars_mid[c0].name@
                                == scores@[k0].characteristic@ {
                            lemma_slot_in_unique(chars_mid, cw, scores@[k0].difficulty as int);
                            lemma_slot_in_unique(chars@, cw, scores@[k0].difficulty as int);
                        }
                    }
                }
            }
            assert forall|ci2: int, d: int|
                0 <= ci2 < chars@.len() && 0 <= d < 5 && (
            #[trigger] chars@[ci2].slots@[d]) is Some implies exists|k0: int|
                0 <= k0 < k + 1 && (#[trigger] scores@[k0]).characteristic@ == chars@[ci2].name@
                    && scores@[k0].difficulty as int == d by {
                if ci2 == ci as int && d == di as int {
                    assert(scores@[k as int].characteristic@ == chars@[ci2].name@
                        && scores@[k as int].difficulty as int == d);
                } else {
                    assert(chars@[ci2].slots@[d] == chars_mid[ci2].slots@[d]);
                    assert(ci2 < chars_top.len());
                    assert(chars_top[ci2].slots@[d] is Some);
                }
            }
        }
        k += 1;
    }
}

/// Builds the reference-table record for one pending identity: the table
/// row's song metadata and precomputed density figures, carrying the
/// group's "Standard" scores.
pub fn reference_record(entry: &ReferenceEntry, std_scores: &Vec<ScoreRecord>) -> (r: BeatmapRecord)
    requires
        entry_wf(*entry),
        forall|k: int| 0 <= k < std_scores@.len() ==> score_wf(#[trigger] std_scores@[k]),
        forall|k: int|
            0 <= k < std_scores@.len() ==> (#[trigger] std_scores@[k]).characteristic@
                == "Standard"@,
        forall|k: int|
            0 <= k < std_scores@.len() ==> (#[trigger] std_scores@[k]).level_id@
                == entry.level_id@,
        distinct_score_targets(std_scores@),
    ensures
        record_wf(r),
        r.id@ == entry.level_id@,
        r.song == entry.song,
        r.artist == entry.artist,
        r.mapper == entry.mapper,
        r.bpm == entry.bpm,
        r.environment == entry.environment,
        r.duration == entry.duration,
        forall|ci: int|
            0 <= ci < r.characteristics@.len() ==> (#[trigger] r.characteristics@[ci].name@)
                == "Standard"@,
        forall|k: int|
            0 <= k < std_scores@.len() ==> (slot_in(
                r.characteristics@,
                (#[trigger] std_scores@[k]).characteristic@,
                std_scores@[k].difficulty as int,
            ) matches Some(st) && stats_carries_score(st, std_scores@[k]) && st.np10s is None
                && st.nps == Some(entry.nps@[std_scores@[k].difficulty as int]) && st.note_count
                == Some(entry.notes@[std_scores@[k].difficulty as int])),
{
    let mut chars: Vec<Characteristic> = Vec::new();
    proof {
        assert forall|k1: int, k2: int| 0 <= k1 < k2 < std_scores@.len() implies !((
        #[trigger] std_scores@[k1]).characteristic@ == (#[trigger] std_scores@[k2]).characteristic@
            && std_scores@[k1].difficulty == std_scores@[k2].difficulty) by {
            assert(std_scores@[k1].characteristic@ == "Standard"@);
            assert(std_scores@[k1].level_id@ == entry.level_id@);
            assert(std_scores@[k2].level_id@ == entry.level_id@);
        }
    }
    fill_from_scores(&mut chars, std_scores, Some(entry));
    BeatmapRecord {
        song: entry.song.clone(),
        artist: entry.artist.clone(),
        mapper: entry.mapper.clone(),
        bpm: entry.bpm,
        environment: entry.environment.clone(),
        duration: entry.duration,
        characteristics: chars,
        id: entry.level_id.clone(),
    }
}

/// Builds the orphan record for one pending identity: empty metadata,
/// zeroed tempo and duration, slots populated purely from the scores.
pub fn orphan_record(level_id: &String, scores: &Vec<ScoreRecord>) -> (r: BeatmapRecord)
    requires
        forall|k: int| 0 <= k < scores@.len() ==> score_wf(#[trigger] scores@[k]),
        forall|k: int|
            0 <= k < scores@.len() ==> (#[trigger] scores@[k]).level_id@ == level_id@,
        distinct_score_targets(scores@),
    ensures
        record_wf(r),
        r.id@ == level_id@,
        r.song@ == Seq::<char>::empty(),
        r.artist@ == Seq::<char>::empty(),
        r.mapper@ == Seq::<char>::empty(),
        r.environment@ == Seq::<char>::empty(),
        r.bpm == 0,
        r.duration.num == 0,
        forall|ci: int|
            0 <= ci < r.characteristics@.len() ==> some_score_names(
                scores@,
                #[trigger] r.characteristics@[ci].name@,
            ),
        forall|k: int|
            0 <= k < scores@.len() ==> (slot_in(
                r.characteristics@,
                (#[trigger] scores@[k]).characteristic@,
                scores@[k].difficulty as int,
            ) matches Some(st) && stats_carries_score(st, scores@[k]) && st.np10s is None && st.nps
                is None && st.note_count is None),
{
    let mut chars: Vec<Characteristic> = Vec::new();
    proof {
        assert forall|k1: int, k2: int| 0 <= k1 < k2 < scores@.len() implies !((
        #[trigger] scores@[k1]).characteristic@ == (#[trigger] scores@[k2]).characteristic@
            && scores@[k1].difficulty == scores@[k2].difficulty) by {
            assert(scores@[k1].level_id@ == level_id@);
        }
    }
    fill_from_scores(&mut chars, scores, None);
    BeatmapRecord {
        song: String::new(),
        artist: String::new(),
        mapper: String::new(),
        bpm: 0,
        environment: String::new(),
        duration: crate::ratio::Ratio { num: 0, den: 1 },
        characteristics: chars,
        id: level_id.clone(),
    }
}

/// Resolves every pending score: scores are grouped by identity; a group
/// whose identity the reference table knows yields a table-derived record
/// carrying its "Standard" scores, and, if other characteristics remain,
/// an orphan record besides, so two records may share one identity; a
/// group the table does not know yields one orphan record. Every pending score lands in exactly one slot of the
/// output.
#[verifier::rlimit(100)]
pub fn reconcile(pending: &Vec<ScoreRecord>, table: &Vec<ReferenceEntry>) -> (out: Vec<
    BeatmapRecord,
>)
    requires
        forall|k: int| 0 <= k < pending@.len() ==> score_wf(#[trigger] pending@[k]),
        distinct_score_targets(pending@),
        forall|t: int| 0 <= t < table@.len() ==> entry_wf(#[trigger] table@[t]),
    ensures
        forall|ri: int| 0 <= ri < out@.len() ==> record_wf(#[trigger] out@[ri]),
        forall|k: int|
            0 <= k < pending@.len() ==> some_record_resolves(out@, #[trigger] pending@[k]),
        forall|k: int, r1: int, r2: int|
            0 <= k < pending@.len() && 0 <= r1 < out@.len() && 0 <= r2 < out@.len()
                && record_holds_slot(#[trigger] out@[r1], #[trigger] pending@[k])
                && record_holds_slot(#[trigger] out@[r2], pending@[k]) ==> r1 == r2,
        forall|ri: int| 0 <= ri < out@.len() ==> id_pending(pending@, (#[trigger] out@[ri]).id@),
        forall|ri: int|
            0 <= ri < out@.len() ==> (reference_shaped(#[trigger] out@[ri], table@)
                && all_standard_chars(out@[ri]) && table_knows(table@, out@[ri].id@))
                || orphan_shaped(out@[ri]),
        forall|r1: int, r2: int|
            0 <= r1 < r2 < out@.len() && (#[trigger] out@[r1]).id@ == (#[trigger] out@[r2]).id@
                ==> reference_shaped(out@[r1], table@) && all_standard_chars(out@[r1])
                && orphan_shaped(out@[r2]) && no_standard_char(out@[r2]),
        forall|ri: int|
            0 <= ri < out@.len() && orphan_shaped(#[trigger] out@[ri]) && no_standard_char(
                out@[ri],
            ) && table_knows(table@, out@[ri].id@) ==> exists|k: int|
                0 <= k < pending@.len() && (#[trigger] pending@[k]).level_id@ == out@[ri].id@
                    && pending@[k].characteristic@ != "Standard"@,
        forall|k: int|
            0 <= k < pending@.len() && (#[trigger] pending@[k]).characteristic@ == "Standard"@
                && table_knows(table@, pending@[k].level_id@) ==> exists|ri: int|
                0 <= ri < out@.len() && record_resolves(#[trigger] out@[ri], pending@[k])
                    && reference_shaped(out@[ri], table@) && all_standard_chars(out@[ri]),
{
    let groups = group_by_level(pending);
    let mut out: Vec<BeatmapRecord> = Vec::new();
    let mut g: usize = 0;
    while g < groups.len()
        invariant
            g <= groups@.len(),
            forall|g0: int| 0 <= g0 < groups@.len() ==> group_wf(#[trigger] groups@[g0]),
            forall|g0: int|
                0 <= g0 < groups@.len() ==> distinct_score_targets(
                    (#[trigger] groups@[g0]).scores@,
                ),
            forall|g1: int, g2: int|
                0 <= g1 < g2 < groups@.len() ==> groups@[g1].level_id@ != groups@[g2].level_id@,
            forall|g0: int, k0: int|
                0 <= g0 < groups@.len() && 0 <= k0 < groups@[g0].scores@.len()
                    ==> score_wf(#[trigger] groups@[g0].scores@[k0]),
            forall|t: int| 0 <= t < table@.len() ==> entry_wf(#[trigger] table@[t]),
            forall|ri: int| 0 <= ri < out@.len() ==> record_wf(#[trigger] out@[ri]),
            forall|ri: int|
                0 <= ri < out@.len() ==> exists|g0: int|
                    0 <= g0 < g && (#[trigger] out@[ri].id@) == groups@[g0].level_id@,
            forall|g0: int, k0: int|
                0 <= g0 < groups@.len() && 0 <= k0 < groups@[g0].scores@.len()
                    ==> pending@.contains(#[trigger] groups@[g0].scores@[k0]),
            forall|r1: int, r2: int|
                0 <= r1 < r2 < out@.len() && (#[trigger] out@[r1]).id@ == (
                #[trigger] out@[r2]).id@ ==> reference_shaped(out@[r1], table@)
                    && all_standard_chars(out@[r1]) && orphan_shaped(out@[r2]) && no_standard_char(
                    out@[r2],
                ),
            forall|ri: int|
                0 <= ri < out@.len() ==> (reference_shaped(#[trigger] out@[ri], table@)
                    && all_standard_chars(out@[ri]) && table_knows(table@, out@[ri].id@))
                    || orphan_shaped(out@[ri]),
            forall|ri: int|
                0 <= ri < out@.len() && orphan_shaped(#[trigger] out@[ri]) && no_standard_char(
                    out@[ri],
                ) && table_knows(table@, out@[ri].id@) ==> exists|k: int|
                    0 <= k < pending@.len() && (#[trigger] pending@[k]).level_id@ == out@[ri].id@
                        && pending@[k].characteristic@ != "Standard"@,
            forall|g0: int, k0: int|
                0 <= g0 < g && 0 <= k0 < groups@[g0].scores@.len() ==> some_record_resolves(
                    out@,
                    #[trigger] groups@[g0].scores@[k0],
                ),
            forall|g0: int, k0: int|
                0 <= g0 < g && 0 <= k0 < groups@[g0].scores@.len() && (
                #[trigger] groups@[g0].scores@[k0]).characteristic@ == "Standard"@ && table_knows(
                    table@,
                    groups@[g0].level_id@,
                ) ==> exists|ri: int|
                    0 <= ri < out@.len() && record_resolves(
                        #[trigger] out@[ri],
                        groups@[g0].scores@[k0],
                    ) && reference_shaped(out@[ri], table@) && all_standard_chars(out@[ri]),
        decreases groups@.len() - g,
    {
        let group = &groups[g];
        let ghost out_top = out@;
        match find_reference(table, &group.level_id) {
            Some(entry) => {
                let (std_part, rest) = split_standard(&group.scores);
                proof {
                    assert forall|k0: int|
                        0 <= k0 < std_part@.len() implies score_wf(#[trigger] std_part@[k0])
                            && std_part@[k0].level_id@ == group.level_id@ by {
                        assert(group.scores@.contains(std_part@[k0]));
                        let i0 = choose|i0: int|
                            0 <= i0 < group.scores@.len() && group.scores@[i0] == std_part@[k0];
                        assert(score_wf(group.scores@[i0]));
                    }
                    assert forall|k0: int|
                        0 <= k0 < rest@.len() implies score_wf(#[trigger] rest@[k0])
                            && rest@[k0].level_id@ == group.level_id@ by {
                        assert(group.scores@.contains(rest@[k0]));
                        let i0 = choose|i0: int|
                            0 <= i0 < group.scores@.len() && group.scores@[i0] == rest@[k0];
                        assert(score_wf(group.scores@[i0]));
                    }
                }
                let rec = reference_record(entry, &std_part);
                out.push(rec);
                if rest.len() > 0 {
                    let orec = orphan_record(&group.level_id, &rest);
                    out.push(orec);
                }
                proof {
                    let rec_idx = out_top.len() as int;
                    assert(table@.contains(*entry));
                    let t0 = choose|t0: int| 0 <= t0 < table@.len() && table@[t0] == *entry;
                    assert(table@[t0].level_id@ == out@[rec_idx].id@);
                    assert(reference_shaped(out@[rec_idx], table@));
                    assert(all_standard_chars(out@[rec_idx]));
                    assert(table_knows(table@, out@[rec_idx].id@));
                    if rest@.len() > 0 {
                        assert(orphan_shaped(out@[rec_idx + 1]));
                        assert forall|ci: int|
                            0 <= ci < out@[rec_idx + 1].characteristics@.len() implies (
                        #[trigger] out@[rec_idx + 1].characteristics@[ci].name@)
                            != "Standard"@ by {
                            let kw = choose|kw: int|
                                0 <= kw < rest@.len() && (#[trigger] rest@[kw]).characteristic@
                                    == out@[rec_idx + 1].characteristics@[ci].name@;
                            assert(rest@[kw].characteristic@ != "Standard"@);
                        }
                        assert(no_standard_char(out@[rec_idx + 1]));
                        assert(group.scores@.contains(rest@[0]));
                        let gi = choose|gi: int|
                            0 <= gi < group.scores@.len() && group.scores@[gi] == rest@[0];
                        assert(pending@.contains(groups@[g as int].scores@[gi]));
                        assert(pending@.contains(rest@[0]));
                        let kw0 = choose|kw0: int|
                            0 <= kw0 < pending@.len() && pending@[kw0] == rest@[0];
                        assert(pending@[kw0].level_id@ == out@[rec_idx + 1].id@
                            && pending@[kw0].characteristic@ != "Standard"@);
                    }
                    if std_part.len() > 0 {
                        assert(slot_in(
                            out@[rec_idx].characteristics@,
                            std_part@[0].characteristic@,
                            std_part@[0].difficulty as int,
                        ) is Some);
                        assert(!no_standard_char(out@[rec_idx]));
                    } else {
                        assert(group.scores@[0].characteristic@ != "Standard"@);
                        assert(pending@.contains(group.scores@[0]));
                        let kw1 = choose|kw1: int|
                            0 <= kw1 < pending@.len() && pending@[kw1] == group.scores@[0];
                        assert(pending@[kw1].level_id@ == out@[rec_idx].id@
                            && pending@[kw1].characteristic@ != "Standard"@);
                    }
                    assert forall|g0: int, k0: int|
                        0 <= g0 < g + 1 && 0 <= k0 < groups@[g0].scores@.len()
                            implies some_record_resolves(
                        out@,
                        #[trigger] groups@[g0].scores@[k0],
                    ) by {
                        if g0 == g {
                            let s = groups@[g0].scores@[k0];
                            if s.characteristic@ == "Standard"@ {
                                assert(std_part@.contains(s));
                                let i0 = choose|i0: int|
                                    0 <= i0 < std_part@.len() && std_part@[i0] == s;
                                assert(record_resolves(out@[rec_idx], s));
                            } else {
                                assert(rest@.contains(s));
                                let i0 = choose|i0: int| 0 <= i0 < rest@.len() && rest@[i0] == s;
                                assert(record_resolves(out@[rec_idx + 1], s));
                            }
                        } else {
                            let s = groups@[g0].scores@[k0];
                            let ri = choose|ri: int|
                                0 <= ri < out_top.len() && record_resolves(
                                    #[trigger] out_top[ri],
                                    s,
                                );
                            assert(record_resolves(out@[ri], s));
                        }
                    }
                    assert forall|g0: int, k0: int|
                        0 <= g0 < g + 1 && 0 <= k0 < groups@[g0].scores@.len() && (
                    #[trigger] groups@[g0].scores@[k0]).characteristic@ == "Standard"@
                        && table_knows(table@, groups@[g0].level_id@) implies exists|ri: int|
                        0 <= ri < out@.len() && record_resolves(
                            #[trigger] out@[ri],
                            groups@[g0].scores@[k0],
                        ) && reference_shaped(out@[ri], table@) && all_standard_chars(
                        out@[ri],
                    ) by {
                        let s = groups@[g0].scores@[k0];
                        if g0 == g {
                            assert(std_part@.contains(s));
                            let i0 = choose|i0: int|
                                0 <= i0 < std_part@.len() && std_part@[i0] == s;
                            assert(record_resolves(out@[rec_idx], s));
                        } else {
                            let ri = choose|ri: int|
                                0 <= ri < out_top.len() && record_resolves(
                                    #[trigger] out_top[ri],
                                    s,
                                ) && reference_shaped(out_top[ri], table@) && all_standard_chars(
                                    out_top[ri],
                                );
                            assert(record_resolves(out@[ri], s));
                            assert(reference_shaped(out@[ri], table@));
                        }
                    }
                }
            },
            None => {
                let orec = orphan_record(&group.level_id, &group.scores);
                out.push(orec);
                proof {
                    let rec_idx = out_top.len() as int;
                    assert(orphan_shaped(out@[rec_idx]));
                    assert(!table_knows(table@, out@[rec_idx].id@));
                    assert forall|g0: int, k0: int|
                        0 <= g0 < g + 1 && 0 <= k0 < groups@[g0].scores@.len()
                            implies some_record_resolves(
                        out@,
                        #[trigger] groups@[g0].scores@[k0],
                    ) by {
                        if g0 == g {
                            let s = groups@[g0].scores@[k0];
                            assert(record_resolves(out@[rec_idx], s));
                        } else {
                            let s = groups@[g0].scores@[k0];
                            let ri = choose|ri: int|
                                0 <= ri < out_top.len() && record_resolves(
                                    #[trigger] out_top[ri],
                                    s,
                                );
                            assert(record_resolves(out@[ri], s));
                        }
                    }
                    assert forall|g0: int, k0: int|
                        0 <= g0 < g + 1 && 0 <= k0 < groups@[g0].scores@.len() && (
                    #[trigger] groups@[g0].scores@[k0]).characteristic@ == "Standard"@
                        && table_knows(table@, groups@[g0].level_id@) implies exists|ri: int|
                        0 <= ri < out@.len() && record_resolves(
                            #[trigger] out@[ri],
                            groups@[g0].scores@[k0],
                        ) && reference_shaped(out@[ri], table@) && all_standard_chars(
                        out@[ri],
                    ) by {
                        let s = groups@[g0].scores@[k0];
                        if g0 < g {
                            let ri = choose|ri: int|
                                0 <= ri < out_top.len() && record_resolves(
                                    #[trigger] out_top[ri],
                                    s,
                                ) && reference_shaped(out_top[ri], table@) && all_standard_chars(
                                    out_top[ri],
                                );
                            assert(record_resolves(out@[ri], s));
                            assert(reference_shaped(out@[ri], table@));
                        }
                    }
                }
            },
        }
        g += 1;
    }
    proof {
        assert forall|ri: int| 0 <= ri < out@.len() implies id_pending(
            pending@,
            (#[trigger] out@[ri]).id@,
        ) by {
            let g0 = choose|g0: int|
                0 <= g0 < groups@.len() && (#[trigger] out@[ri].id@) == groups@[g0].level_id@;
            assert(pending@.contains(groups@[g0].scores@[0]));
            let kw = choose|kw: int|
                0 <= kw < pending@.len() && pending@[kw] == groups@[g0].scores@[0];
            assert(pending@[kw].level_id@ == out@[ri].id@);
        }
        assert forall|k: int|
            0 <= k < pending@.len() && (#[trigger] pending@[k]).characteristic@ == "Standard"@
                && table_knows(table@, pending@[k].level_id@) implies exists|ri: int|
            0 <= ri < out@.len() && record_resolves(#[trigger] out@[ri], pending@[k])
                && reference_shaped(out@[ri], table@) && all_standard_chars(out@[ri]) by {
            let g0 = choose|g0: int|
                0 <= g0 < groups@.len() && (#[trigger] groups@[g0]).scores@.contains(pending@[k]);
            let k0 = choose|k0: int|
                0 <= k0 < groups@[g0].scores@.len() && groups@[g0].scores@[k0] == pending@[k];
            assert(groups@[g0].level_id@ == pending@[k].level_id@);
            assert(groups@[g0].scores@[k0].characteristic@ == "Standard"@);
        }
        assert forall|k: int| 0 <= k < pending@.len() implies some_record_resolves(
            out@,
            #[trigger] pending@[k],
        ) by {
            let g0 = choose|g0: int|
                0 <= g0 < groups@.len() && (#[trigger] groups@[g0]).scores@.contains(pending@[k]);
            let k0 = choose|k0: int|
                0 <= k0 < groups@[g0].scores@.len() && groups@[g0].scores@[k0] == pending@[k];
            assert(some_record_resolves(out@, groups@[g0].scores@[k0]));
        }
        assert forall|k: int, r1: int, r2: int|
            0 <= k < pending@.len() && 0 <= r1 < out@.len() && 0 <= r2 < out@.len()
                && record_holds_slot(#[trigger] out@[r1], #[trigger] pending@[k])
                && record_holds_slot(#[trigger] out@[r2], pending@[k]) implies r1 == r2 by {
            if r1 != r2 {
                let s = pending@[k];
                if out@[r1].id@ == out@[r2].id@ {
                    if r1 < r2 {
                        assert(slot_in(
                            out@[r1].characteristics@,
                            s.characteristic@,
                            s.difficulty as int,
                        ) is Some);
                        if s.characteristic@ == "Standard"@ {
                            lemma_no_name_no_slot(out@[r2].characteristics@, s);
                        } else {
                            lemma_only_standard_no_slot(out@[r1].characteristics@, s);
                        }
                    } else {
                        if s.characteristic@ == "Standard"@ {
                            lemma_no_name_no_slot(out@[r1].characteristics@, s);
                        } else {
                            lemma_only_standard_no_slot(out@[r2].characteristics@, s);
                        }
                    }
                }
            }
        }
    }
    out
}

/// Resolution by some record survives appending records in front.
proof fn lemma_resolves_after_extend(a: Seq<BeatmapRecord>, b: Seq<BeatmapRecord>, s: ScoreRecord)
    requires
        some_record_resolves(b, s),
    ensures
        some_record_resolves(a + b, s),
{
    let ri = choose|ri: int| 0 <= ri < b.len() && record_resolves(#[trigger] b[ri], s);
    assert((a + b)[a.len() + ri] == b[ri]);
    assert(record_resolves((a + b)[a.len() + ri], s));
}

/// Runs the whole pipeline sequentially: every beatmap is processed into
/// its record, the scores no local record accounts for are partitioned
/// off, and the reconciliation engine resolves them against the reference
/// table. The first records of the output are the local ones, in input
/// order; the reconciliation records follow. Every score record is
/// accounted for in exactly one difficulty slot of the output — locally,
/// via the reference table, or as an orphan — except a score against a
/// (characteristic, difficulty) slot its local beatmap no longer defines,
/// which appears nowhere.
pub fn run_pipeline(
    manifests: &Vec<crate::processor::ManifestInput>,
    scores: &Vec<ScoreRecord>,
    table: &Vec<ReferenceEntry>,
) -> (r: Result<Vec<BeatmapRecord>, crate::StatsError>)
    requires
        forall|i: int|
            0 <= i < manifests@.len() ==> 1 <= (#[trigger] manifests@[i]).bpm <= crate::BPM_LIMIT
                && crate::processor::manifest_bounded(manifests@[i])
                && crate::processor::ranks_in_range(manifests@[i]),
        forall|k: int| 0 <= k < scores@.len() ==> score_wf(#[trigger] scores@[k]),
        distinct_score_targets(scores@),
        forall|t: int| 0 <= t < table@.len() ==> entry_wf(#[trigger] table@[t]),
        forall|i1: int, i2: int|
            0 <= i1 < i2 < manifests@.len() ==> crate::identity::id_of(
                crate::processor::stream_of(#[trigger] manifests@[i1]),
            ) != crate::identity::id_of(crate::processor::stream_of(#[trigger] manifests@[i2])),
    ensures
        r is Ok <==> forall|i: int|
            0 <= i < manifests@.len() ==> crate::processor::manifest_gather_ok(
                #[trigger] manifests@[i],
            ) && crate::processor::dup_free(manifests@[i]),
        r matches Ok(out) ==> {
            &&& out@.len() >= manifests@.len()
            &&& forall|ri: int| 0 <= ri < out@.len() ==> record_wf(#[trigger] out@[ri])
            &&& forall|i: int|
                0 <= i < manifests@.len() ==> (#[trigger] out@[i]).id@ == crate::identity::id_of(
                    crate::processor::stream_of(manifests@[i]),
                ) && out@[i].song == manifests@[i].song && out@[i].bpm == manifests@[i].bpm
            &&& forall|k: int|
                0 <= k < scores@.len() && !id_processed(
                    out@.subrange(0, manifests@.len() as int),
                    (#[trigger] scores@[k]).level_id@,
                ) ==> some_record_resolves(out@, scores@[k])
            &&& forall|k: int|
                0 <= k < scores@.len() ==> accounted_exactly_once(
                    out@,
                    manifests@.len() as int,
                    #[trigger] scores@[k],
                )
        },
{
    let mut locals: Vec<BeatmapRecord> = Vec::new();
    let mut i: usize = 0;
    while i < manifests.len()
        invariant
            i <= manifests@.len(),
            forall|i0: int|
                0 <= i0 < manifests@.len() ==> 1 <= (#[trigger] manifests@[i0]).bpm
                    <= crate::BPM_LIMIT && crate::processor::manifest_bounded(manifests@[i0])
                    && crate::processor::ranks_in_range(manifests@[i0]),
            forall|k: int| 0 <= k < scores@.len() ==> score_wf(#[trigger] scores@[k]),
            distinct_score_targets(scores@),
            locals@.len() == i,
            forall|ri: int| 0 <= ri < locals@.len() ==> record_wf(#[trigger] locals@[ri]),
            forall|i0: int|
                0 <= i0 < i ==> (#[trigger] locals@[i0]).id@ == crate::identity::id_of(
                    crate::processor::stream_of(manifests@[i0]),
                ) && locals@[i0].song == manifests@[i0].song && locals@[i0].bpm
                    == manifests@[i0].bpm,
            forall|i0: int|
                0 <= i0 < i ==> crate::processor::manifest_gather_ok(#[trigger] manifests@[i0])
                    && crate::processor::dup_free(manifests@[i0]),
            forall|i1: int, i2: int|
                0 <= i1 < i2 < manifests@.len() ==> crate::identity::id_of(
                    crate::processor::stream_of(#[trigger] manifests@[i1]),
                ) != crate::identity::id_of(
                    crate::processor::stream_of(#[trigger] manifests@[i2]),
                ),
            forall|i1: int, i2: int|
                0 <= i1 < i2 < i ==> (#[trigger] locals@[i1]).id@ != (#[trigger] locals@[i2]).id@,
            forall|i0: int, k: int|
                0 <= i0 < i && 0 <= k < scores@.len() && (#[trigger] scores@[k]).level_id@ == (
                #[trigger] locals@[i0]).id@ && slot_in(
                    locals@[i0].characteristics@,
                    scores@[k].characteristic@,
                    scores@[k].difficulty as int,
                ) is Some ==> (slot_in(
                    locals@[i0].characteristics@,
                    scores@[k].characteristic@,
                    scores@[k].difficulty as int,
                ) matches Some(st) && stats_carries_score(st, scores@[k])),
        decreases manifests@.len() - i,
    {
        match crate::processor::process_beatmap(&manifests[i], scores) {
            Ok(rec) => {
                locals.push(rec);
            },
            Err(e) => {
                return Err(e);
            },
        }
        i += 1;
    }
    let pending = partition_pending(scores, &locals);
    let reconciled = reconcile(&pending, table);
    let ghost locals_seq = locals@;
    let ghost reconciled_seq = reconciled@;
    let mut out = locals;
    let mut extra = reconciled;
    out.append(&mut extra);
    proof {
        assert(out@ == locals_seq + reconciled_seq);
        assert forall|k: int|
            0 <= k < scores@.len() && !id_processed(
                out@.subrange(0, manifests@.len() as int),
                (#[trigger] scores@[k]).level_id@,
            ) implies some_record_resolves(out@, scores@[k]) by {
            assert(out@.subrange(0, manifests@.len() as int) =~= locals_seq);
            assert(pending@.contains(scores@[k]));
            let kp = choose|kp: int| 0 <= kp < pending@.len() && pending@[kp] == scores@[k];
            assert(some_record_resolves(reconciled_seq, pending@[kp]));
            lemma_resolves_after_extend(locals_seq, reconciled_seq, scores@[k]);
        }
        assert forall|ri: int| 0 <= ri < out@.len() implies record_wf(#[trigger] out@[ri]) by {
            if ri < locals_seq.len() {
                assert(out@[ri] == locals_seq[ri]);
            } else {
                assert(out@[ri] == reconciled_seq[ri - locals_seq.len()]);
            }
        }
        let n = manifests@.len() as int;
        assert forall|rj: int| 0 <= rj < reconciled_seq.len() implies !id_processed(
            locals_seq,
            (#[trigger] reconciled_seq[rj]).id@,
        ) by {
            assert(id_pending(pending@, reconciled_seq[rj].id@));
            let kp = choose|kp: int|
                0 <= kp < pending@.len() && (#[trigger] pending@[kp]).level_id@
                    == reconciled_seq[rj].id@;
            assert(!id_processed(locals_seq, pending@[kp].level_id@));
        }
        assert forall|k: int| 0 <= k < scores@.len() implies accounted_exactly_once(
            out@,
            n,
            #[trigger] scores@[k],
        ) by {
            let s = scores@[k];
            assert(out@.subrange(0, n) =~= locals_seq);
            if id_processed(locals_seq, s.level_id@) {
                let ri0 = choose|ri0: int|
                    0 <= ri0 < locals_seq.len() && (#[trigger] locals_seq[ri0]).id@ == s.level_id@;
                if exists|ri: int|
                    0 <= ri < n && (#[trigger] out@[ri]).id@ == s.level_id@ && slot_in(
                        out@[ri].characteristics@,
                        s.characteristic@,
                        s.difficulty as int,
                    ) is Some {
                    let ri = choose|ri: int|
                        0 <= ri < n && (#[trigger] out@[ri]).id@ == s.level_id@ && slot_in(
                            out@[ri].characteristics@,
                            s.characteristic@,
                            s.difficulty as int,
                        ) is Some;
                    assert(out@[ri] == locals_seq[ri]);
                    assert(record_resolves(out@[ri], s));
                    assert(some_record_resolves(out@, s));
                    assert forall|r1: int, r2: int|
                        0 <= r1 < out@.len() && 0 <= r2 < out@.len() && record_holds_slot(
                            #[trigger] out@[r1],
                            s,
                        ) && record_holds_slot(#[trigger] out@[r2], s) implies r1 == r2 by {
                        if r1 >= n {
                            assert(out@[r1] == reconciled_seq[r1 - n]);
                            assert(!id_processed(locals_seq, reconciled_seq[r1 - n].id@));
                        }
                        if r2 >= n {
                            assert(out@[r2] == reconciled_seq[r2 - n]);
                            assert(!id_processed(locals_seq, reconciled_seq[r2 - n].id@));
                        }
                        assert(r1 < n && r2 < n);
                        assert(out@[r1] == locals_seq[r1] && out@[r2] == locals_seq[r2]);
                    }
                    assert(unique_slot_holder(out@, s));
                } else {
                    assert forall|ri: int| 0 <= ri < out@.len() implies !record_holds_slot(
                        #[trigger] out@[ri],
                        s,
                    ) by {
                        if record_holds_slot(out@[ri], s) {
                            if ri < n {
                                assert(out@[ri] == locals_seq[ri]);
                                assert(out@[ri].id@ == s.level_id@ && slot_in(
                                    out@[ri].characteristics@,
                                    s.characteristic@,
                                    s.difficulty as int,
                                ) is Some);
                            } else {
                                assert(out@[ri] == reconciled_seq[ri - n]);
                                assert(!id_processed(locals_seq, reconciled_seq[ri - n].id@));
                            }
                        }
                    }
                    assert(held_nowhere(out@, s));
                }
            } else {
                assert(pending@.contains(s));
                let kp = choose|kp: int| 0 <= kp < pending@.len() && pending@[kp] == s;
                assert(some_record_resolves(reconciled_seq, pending@[kp]));
                lemma_resolves_after_extend(locals_seq, reconciled_seq, s);
                assert forall|r1: int, r2: int|
                    0 <= r1 < out@.len() && 0 <= r2 < out@.len() && record_holds_slot(
                        #[trigger] out@[r1],
                        s,
                    ) && record_holds_slot(#[trigger] out@[r2], s) implies r1 == r2 by {
                    if r1 < n {
                        assert(out@[r1] == locals_seq[r1]);
                        assert(id_processed(locals_seq, s.level_id@));
                    }
                    if r2 < n {
                        assert(out@[r2] == locals_seq[r2]);
                        assert(id_processed(locals_seq, s.level_id@));
                    }
                    assert(r1 >= n && r2 >= n);
                    assert(out@[r1] == reconciled_seq[r1 - n]);
                    assert(out@[r2] == reconciled_seq[r2 - n]);
                    assert(record_holds_slot(reconciled_seq[r1 - n], pending@[kp]));
                    assert(record_holds_slot(reconciled_seq[r2 - n], pending@[kp]));
                }
                assert(unique_slot_holder(out@, s));
            }
        }
    }
    Ok(out)
}

/// A record none of whose characteristics is named "Standard" has no slot
/// under a "Standard" lookup.
proof fn lemma_no_name_no_slot(chars: Seq<Characteristic>, s: ScoreRecord)
    requires
        forall|ci: int| 0 <= ci < chars.len() ==> (#[trigger] chars[ci].name@) != "Standard"@,
        s.characteristic@ == "Standard"@,
    ensures
        slot_in(chars, s.characteristic@, s.difficulty as int) is None,
{
}

/// A record all of whose characteristics are named "Standard" has no slot
/// under any other lookup.
proof fn lemma_only_standard_no_slot(chars: Seq<Characteristic>, s: ScoreRecord)
    requires
        forall|ci: int| 0 <= ci < chars.len() ==> (#[trigger] chars[ci].name@) == "Standard"@,
        s.characteristic@ != "Standard"@,
    ensures
        slot_in(chars, s.characteristic@, s.difficulty as int) is None,
{
}

} // verus!
