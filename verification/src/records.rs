//! The data model of the report: per-difficulty statistics, characteristics,
//! beatmap records, and the player's score records.

use vstd::prelude::*;
use crate::ratio::Ratio;
use crate::density::DensityStats;

verus! {

/// How many difficulty slots a characteristic has.
pub const DIFFICULTY_COUNT: usize = 5;

/// How many grade labels the source game uses.
pub const RANK_COUNT: usize = 8;

/// The difficulty name at an index of the fixed five-name table.
pub open spec fn difficulty_name_spec(i: int) -> Seq<char> {
    if i == 0 {
        "Easy"@
    } else if i == 1 {
        "Normal"@
    } else if i == 2 {
        "Hard"@
    } else if i == 3 {
        "Expert"@
    } else {
        "Expert+"@
    }
}

/// The difficulty name at an index of the fixed five-name table.
pub fn difficulty_name(i: usize) -> (s: String)
    requires
        i < DIFFICULTY_COUNT,
    ensures
        s@ == difficulty_name_spec(i as int),
{
    match i {
        0 => String::from_str("Easy"),
        1 => String::from_str("Normal"),
        2 => String::from_str("Hard"),
        3 => String::from_str("Expert"),
        _ => String::from_str("Expert+"),
    }
}

/// The grade label at an index of the fixed eight-label table.
pub open spec fn rank_name_spec(i: int) -> Seq<char> {
    if i == 0 {
        "E"@
    } else if i == 1 {
        "D"@
    } else if i == 2 {
        "C"@
    } else if i == 3 {
        "B"@
    } else if i == 4 {
        "A"@
    } else if i == 5 {
        "S"@
    } else if i == 6 {
        "SS"@
    } else {
        "SSS"@
    }
}

/// The grade label at an index of the fixed eight-label table.
pub fn rank_name(i: usize) -> (s: String)
    requires
        i < RANK_COUNT,
    ensures
        s@ == rank_name_spec(i as int),
{
    match i {
        0 => String::from_str("E"),
        1 => String::from_str("D"),
        2 => String::from_str("C"),
        3 => String::from_str("B"),
        4 => String::from_str("A"),
        5 => String::from_str("S"),
        6 => String::from_str("SS"),
        _ => String::from_str("SSS"),
    }
}

/// The max-combo column of a slot: unset before any score is merged, the
/// full-combo marker, or a numeric best combo.
#[derive(Clone, Copy, Debug, PartialEq, Eq)]
pub enum Combo {
    Unset,
    FullCombo,
    Count(u64),
}

/// One score record from the player's history. Read-only input, shared by
/// the whole run; never mutated.
#[derive(Clone, Debug, PartialEq, Eq)]
pub struct ScoreRecord {
    pub level_id: String,
    pub characteristic: String,
    /// Difficulty index, `0` to `4`.
    pub difficulty: u8,
    pub play_count: u32,
    /// Grade index, `0` to `7`.
    pub max_rank: u8,
    pub full_combo: bool,
    pub max_combo: u64,
    pub high_score: u32,
    pub valid_score: bool,
}

impl ScoreRecord {
    /// An equal copy of the record.
    pub fn duplicate(&self) -> (r: ScoreRecord)
        ensures
            r == *self,
    {
        ScoreRecord {
            level_id: self.level_id.clone(),
            characteristic: self.characteristic.clone(),
            difficulty: self.difficulty,
            play_count: self.play_count,
            max_rank: self.max_rank,
            full_combo: self.full_combo,
            max_combo: self.max_combo,
            high_score: self.high_score,
            valid_score: self.valid_score,
        }
    }
}

/// The score's indices address real slots of the fixed tables.
pub open spec fn score_wf(s: ScoreRecord) -> bool {
    s.difficulty < 5 && s.max_rank < 8
}

/// The statistics of one (characteristic, difficulty) slot. Created once
/// per slot; its score half is overwritten at most once, when a matching
/// score record is merged.
#[derive(Clone, Copy, Debug, PartialEq, Eq)]
pub struct DifficultyStats {
    /// Whether the source game considers the merged score valid.
    pub valid: bool,
    pub plays: u32,
    /// Grade index into the fixed label table; unset before a merge.
    pub rank: Option<u8>,
    pub combo: Combo,
    pub score: u32,
    /// Window-density figure; set only when notes were parsed locally.
    pub np10s: Option<Ratio>,
    pub nps: Option<Ratio>,
    pub note_count: Option<u32>,
}

impl DifficultyStats {
    /// A slot with no merged score and no measured density.
    pub fn unmeasured() -> (d: DifficultyStats)
        ensures
            d == DifficultyStats::unmeasured_spec(),
    {
        DifficultyStats {
            valid: false,
            plays: 0,
            rank: None,
            combo: Combo::Unset,
            score: 0,
            np10s: None,
            nps: None,
            note_count: None,
        }
    }

    /// The value `unmeasured` returns.
    pub open spec fn unmeasured_spec() -> DifficultyStats {
        DifficultyStats {
            valid: false,
            plays: 0,
            rank: None,
            combo: Combo::Unset,
            score: 0,
            np10s: None,
            nps: None,
            note_count: None,
        }
    }

    /// A slot holding locally measured density figures and no score yet.
    pub fn from_density(d: &DensityStats) -> (r: DifficultyStats)
        ensures
            r == DifficultyStats::from_density_spec(*d),
    {
        DifficultyStats {
            valid: false,
            plays: 0,
            rank: None,
            combo: Combo::Unset,
            score: 0,
            np10s: Some(d.np10s),
            nps: Some(d.nps),
            note_count: Some(d.note_count),
        }
    }

    /// The value `from_density` returns.
    pub open spec fn from_density_spec(d: DensityStats) -> DifficultyStats {
        DifficultyStats {
            valid: false,
            plays: 0,
            rank: None,
            combo: Combo::Unset,
            score: 0,
            np10s: Some(d.np10s),
            nps: Some(d.nps),
            note_count: Some(d.note_count),
        }
    }

    /// Overwrites the slot's score half with the record's fields; the
    /// density half keeps its values.
    pub fn merge_score(&mut self, s: &ScoreRecord)
        ensures
            stats_carries_score(*final(self), *s),
            final(self).np10s == old(self).np10s,
            final(self).nps == old(self).nps,
            final(self).note_count == old(self).note_count,
    {
        self.valid = s.valid_score;
        self.plays = s.play_count;
        self.rank = Some(s.max_rank);
        self.combo = if s.full_combo {
            Combo::FullCombo
        } else {
            Combo::Count(s.max_combo)
        };
        self.score = s.high_score;
    }
}

/// The slot's score half holds exactly this record's fields.
pub open spec fn stats_carries_score(d: DifficultyStats, s: ScoreRecord) -> bool {
    &&& d.valid == s.valid_score
    &&& d.plays == s.play_count
    &&& d.rank == Some(s.max_rank)
    &&& d.combo == (if s.full_combo {
        Combo::FullCombo
    } else {
        Combo::Count(s.max_combo)
    })
    &&& d.score == s.high_score
}

/// A characteristic: a gameplay mode of one beatmap, mapping each of the
/// five difficulty names to at most one slot. Difficulties are addressed
/// by index into the fixed name table, so keys cannot repeat.
#[derive(Clone, Debug, PartialEq, Eq)]
pub struct Characteristic {
    pub name: String,
    /// Exactly five entries, one per difficulty name.
    pub slots: Vec<Option<DifficultyStats>>,
}

/// The characteristic carries one entry per difficulty name.
pub open spec fn characteristic_wf(c: Characteristic) -> bool {
    c.slots@.len() == 5
}

impl Characteristic {
    /// An empty characteristic of the given name.
    pub fn empty(name: String) -> (c: Characteristic)
        ensures
            characteristic_wf(c),
            c.name == name,
            forall|k: int| 0 <= k < 5 ==> c.slots@[k] is None,
    {
        let mut slots: Vec<Option<DifficultyStats>> = Vec::new();
        slots.push(None);
        slots.push(None);
        slots.push(None);
        slots.push(None);
        slots.push(None);
        Characteristic { name, slots }
    }
}

/// One beatmap of the final report: song metadata, the derived duration,
/// the characteristic map, and the content-addressed identifier.
#[derive(Clone, Debug, PartialEq, Eq)]
pub struct BeatmapRecord {
    pub song: String,
    pub artist: String,
    pub mapper: String,
    /// Tempo in thousandths of a beat per minute; zero for synthetic entries.
    pub bpm: u64,
    pub environment: String,
    /// Longest note span across the beatmap's difficulties, in seconds.
    pub duration: Ratio,
    pub characteristics: Vec<Characteristic>,
    pub id: String,
}

/// Characteristics are well formed and their names are unique.
pub open spec fn record_wf(r: BeatmapRecord) -> bool {
    &&& r.duration.den > 0
    &&& forall|i: int|
        0 <= i < r.characteristics@.len() ==> characteristic_wf(#[trigger] r.characteristics@[i])
    &&& forall|i: int, j: int|
        0 <= i < j < r.characteristics@.len() ==> r.characteristics@[i].name@
            != r.characteristics@[j].name@
}

/// The index of the characteristic with this name, if the record has one.
pub open spec fn characteristic_index(r: BeatmapRecord, name: Seq<char>) -> Option<int> {
    if exists|i: int| 0 <= i < r.characteristics@.len() && r.characteristics@[i].name@ == name {
        Some(
            choose|i: int|
                0 <= i < r.characteristics@.len() && r.characteristics@[i].name@ == name,
        )
    } else {
        None
    }
}

/// Finds the position of the named characteristic in the record.
pub fn find_characteristic(chars: &Vec<Characteristic>, name: &String) -> (r: Option<usize>)
    ensures
        match r {
            Some(i) => i < chars@.len() && chars@[i as int].name@ == name@,
            None => forall|i: int| 0 <= i < chars@.len() ==> chars@[i].name@ != name@,
        },
{
    let mut i: usize = 0;
    while i < chars.len()
        invariant
            i <= chars@.len(),
            forall|k: int| 0 <= k < i ==> chars@[k].name@ != name@,
        decreases chars@.len() - i,
    {
        if chars[i].name == *name {
            return Some(i);
        }
        i += 1;
    }
    None
}

} // verus!
