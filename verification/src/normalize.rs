//! The note normalizer: turns one difficulty's raw schema-specific note
//! records into a single ascending sequence of beat positions.

use vstd::prelude::*;
use crate::order::{sort_beats, sorted_asc};
use crate::StatsError;

verus! {

/// One raw note record, holding whichever time fields its file carried:
/// `b` (head beat), `tb` (tail beat, sliders only) and `_time` (the flat
/// legacy time field).
#[derive(Clone, Copy, Debug, PartialEq, Eq)]
pub struct RawNote {
    pub b: Option<u64>,
    pub tb: Option<u64>,
    pub time: Option<u64>,
}

/// One named note category of a difficulty file, in file order.
#[derive(Clone, Debug, PartialEq, Eq)]
pub struct NoteSection {
    pub name: String,
    pub notes: Vec<RawNote>,
}

/// One difficulty file, decoded to its note categories: the declared
/// schema version (absent in the oldest files) and the categories.
#[derive(Clone, Debug, PartialEq, Eq)]
pub struct RawDifficulty {
    pub version: Option<String>,
    pub sections: Vec<NoteSection>,
}

/// The schema families the normalizer understands.
#[derive(Clone, Copy, Debug, PartialEq, Eq, Structural)]
pub enum Schema {
    /// Version prefix "3": four note categories, sliders twice.
    V3,
    /// Version prefix "2", minor version "6": notes and sliders.
    V26,
    /// Any other "2" minor: one flat note list with a `_time` field.
    V2Flat,
    /// Anything else is rejected.
    Unsupported,
}

/// The version string that the dispatch examines: a missing declaration
/// means the oldest flat schema.
pub open spec fn version_of(raw: RawDifficulty) -> Seq<char> {
    match raw.version {
        Some(v) => v@,
        None => "2.0.0"@,
    }
}

/// Schema dispatch by version prefix.
pub open spec fn schema_of(v: Seq<char>) -> Schema {
    if v.len() >= 1 && v[0] == '3' {
        Schema::V3
    } else if v.len() >= 3 && v[0] == '2' && v[2] == '6' {
        Schema::V26
    } else if v.len() >= 3 && v[0] == '2' {
        Schema::V2Flat
    } else {
        Schema::Unsupported
    }
}

/// The first category of this name, if the file has one.
pub open spec fn lookup_section(sections: Seq<NoteSection>, name: Seq<char>) -> Option<
    Seq<RawNote>,
>
    decreases sections.len(),
{
    if sections.len() == 0 {
        None
    } else if sections.first().name@ == name {
        Some(sections.first().notes@)
    } else {
        lookup_section(sections.drop_first(), name)
    }
}

/// Every note of the category carries a head beat.
pub open spec fn all_have_b(notes: Seq<RawNote>) -> bool {
    forall|i: int| 0 <= i < notes.len() ==> (#[trigger] notes[i]).b is Some
}

/// Every note of the category carries a head and a tail beat.
pub open spec fn all_have_b_tb(notes: Seq<RawNote>) -> bool {
    forall|i: int| 0 <= i < notes.len() ==> (#[trigger] notes[i]).b is Some && notes[i].tb is Some
}

/// Every note of the category carries the flat time field.
pub open spec fn all_have_time(notes: Seq<RawNote>) -> bool {
    forall|i: int| 0 <= i < notes.len() ==> (#[trigger] notes[i]).time is Some
}

/// The head beats of a category, in file order.
pub open spec fn beats_of(notes: Seq<RawNote>) -> Seq<u64>
    decreases notes.len(),
{
    if notes.len() == 0 {
        Seq::empty()
    } else {
        beats_of(notes.drop_last()) + seq![notes.last().b.unwrap()]
    }
}

/// The beats a slider category contributes: each slider's head beat and
/// tail beat, in file order.
pub open spec fn slider_beats_of(notes: Seq<RawNote>) -> Seq<u64>
    decreases notes.len(),
{
    if notes.len() == 0 {
        Seq::empty()
    } else {
        slider_beats_of(notes.drop_last()) + seq![
            notes.last().b.unwrap(),
            notes.last().tb.unwrap(),
        ]
    }
}

/// The flat time fields of a category, in file order.
pub open spec fn times_of(notes: Seq<RawNote>) -> Seq<u64>
    decreases notes.len(),
{
    if notes.len() == 0 {
        Seq::empty()
    } else {
        times_of(notes.drop_last()) + seq![notes.last().time.unwrap()]
    }
}

/// Whether the file carries everything its schema requires of it.
pub open spec fn gather_ok(raw: RawDifficulty) -> bool {
    match schema_of(version_of(raw)) {
        Schema::V3 => {
            &&& lookup_section(raw.sections@, "colorNotes"@) matches Some(c) && all_have_b(c)
            &&& lookup_section(raw.sections@, "bombNotes"@) matches Some(c) && all_have_b(c)
            &&& lookup_section(raw.sections@, "burstSliders"@) matches Some(c) && all_have_b(c)
            &&& lookup_section(raw.sections@, "sliders"@) matches Some(c) && all_have_b_tb(c)
        },
        Schema::V26 => {
            &&& lookup_section(raw.sections@, "_notes"@) matches Some(c) && all_have_b(c)
            &&& lookup_section(raw.sections@, "_sliders"@) matches Some(c) && all_have_b_tb(c)
        },
        Schema::V2Flat => {
            lookup_section(raw.sections@, "_notes"@) matches Some(c) && all_have_time(c)
        },
        Schema::Unsupported => false,
    }
}

/// Every beat the difficulty contributes, before sorting.
pub open spec fn gathered_beats(raw: RawDifficulty) -> Seq<u64> {
    match schema_of(version_of(raw)) {
        Schema::V3 => beats_of(lookup_section(raw.sections@, "colorNotes"@).unwrap()) + beats_of(
            lookup_section(raw.sections@, "bombNotes"@).unwrap(),
        ) + beats_of(lookup_section(raw.sections@, "burstSliders"@).unwrap()) + slider_beats_of(
            lookup_section(raw.sections@, "sliders"@).unwrap(),
        ),
        Schema::V26 => beats_of(lookup_section(raw.sections@, "_notes"@).unwrap())
            + slider_beats_of(lookup_section(raw.sections@, "_sliders"@).unwrap()),
        Schema::V2Flat => times_of(lookup_section(raw.sections@, "_notes"@).unwrap()),
        Schema::Unsupported => Seq::empty(),
    }
}

/// The normalizer's output: the gathered beats, ascending.
pub open spec fn normalized_beats(raw: RawDifficulty) -> Seq<u64> {
    crate::order::sort_spec(gathered_beats(raw))
}

/// Finds the first category of this name.
fn find_section<'a>(sections: &'a Vec<NoteSection>, name: &String) -> (r: Option<&'a Vec<RawNote>>)
    ensures
        match r {
            Some(notes) => lookup_section(sections@, name@) == Some(notes@),
            None => lookup_section(sections@, name@) is None,
        },
{
    let mut i: usize = 0;
    proof {
        assert(sections@.skip(0) =~= sections@);
    }
    while i < sections.len()
        invariant
            i <= sections@.len(),
            lookup_section(sections@, name@) == lookup_section(
                sections@.skip(i as int),
                name@,
            ),
        decreases sections@.len() - i,
    {
        proof {
            assert(sections@.skip(i as int).first() == sections@[i as int]);
            assert(sections@.skip(i as int).drop_first() =~= sections@.skip(i as int + 1));
        }
        if sections[i].name.eq(name) {
            return Some(&sections[i].notes);
        }
        i += 1;
    }
    proof {
        assert(sections@.skip(sections@.len() as int).len() == 0);
    }
    None
}

/// Appends each note's head beat; reports whether every note had one.
fn push_head_beats(acc: &mut Vec<u64>, notes: &Vec<RawNote>) -> (ok: bool)
    ensures
        ok == all_have_b(notes@),
        ok ==> final(acc)@ == old(acc)@ + beats_of(notes@),
{
    let mut k: usize = 0;
    while k < notes.len()
        invariant
            k <= notes@.len(),
            forall|m: int| 0 <= m < k ==> (#[trigger] notes@[m]).b is Some,
            acc@ == old(acc)@ + beats_of(notes@.subrange(0, k as int)),
        decreases notes@.len() - k,
    {
        match notes[k].b {
            Some(beat) => {
                acc.push(beat);
                proof {
                    assert(notes@.subrange(0, k as int + 1).drop_last() =~= notes@.subrange(
                        0,
                        k as int,
                    ));
                    assert(notes@.subrange(0, k as int + 1).last() == notes@[k as int]);
                }
            },
            None => {
                return false;
            },
        }
        k += 1;
    }
    proof {
        assert(notes@.subrange(0, notes@.len() as int) =~= notes@);
    }
    true
}

/// Appends each slider's head and tail beats; reports whether every
/// slider had both.
fn push_slider_beats(acc: &mut Vec<u64>, notes: &Vec<RawNote>) -> (ok: bool)
    ensures
        ok == all_have_b_tb(notes@),
        ok ==> final(acc)@ == old(acc)@ + slider_beats_of(notes@),
{
    let mut k: usize = 0;
    while k < notes.len()
        invariant
            k <= notes@.len(),
            forall|m: int|
                0 <= m < k ==> (#[trigger] notes@[m]).b is Some && notes@[m].tb is Some,
            acc@ == old(acc)@ + slider_beats_of(notes@.subrange(0, k as int)),
        decreases notes@.len() - k,
    {
        match (notes[k].b, notes[k].tb) {
            (Some(head), Some(tail)) => {
                acc.push(head);
                acc.push(tail);
                proof {
                    assert(notes@.subrange(0, k as int + 1).drop_last() =~= notes@.subrange(
                        0,
                        k as int,
                    ));
                    assert(notes@.subrange(0, k as int + 1).last() == notes@[k as int]);
                    assert(acc@ =~= old(acc)@ + slider_beats_of(notes@.subrange(0, k as int + 1)));
                }
            },
            _ => {
                return false;
            },
        }
        k += 1;
    }
    proof {
        assert(notes@.subrange(0, notes@.len() as int) =~= notes@);
    }
    true
}

/// Appends each note's flat time field; reports whether every note had one.
fn push_flat_times(acc: &mut Vec<u64>, notes: &Vec<RawNote>) -> (ok: bool)
    ensures
        ok == all_have_time(notes@),
        ok ==> final(acc)@ == old(acc)@ + times_of(notes@),
{
    let mut k: usize = 0;
    while k < notes.len()
        invariant
            k <= notes@.len(),
            forall|m: int| 0 <= m < k ==> (#[trigger] notes@[m]).time is Some,
            acc@ == old(acc)@ + times_of(notes@.subrange(0, k as int)),
        decreases notes@.len() - k,
    {
        match notes[k].time {
            Some(t) => {
                acc.push(t);
                proof {
                    assert(notes@.subrange(0, k as int + 1).drop_last() =~= notes@.subrange(
                        0,
                        k as int,
                    ));
                    assert(notes@.subrange(0, k as int + 1).last() == notes@[k as int]);
                }
            },
            None => {
                return false;
            },
        }
        k += 1;
    }
    proof {
        assert(notes@.subrange(0, notes@.len() as int) =~= notes@);
    }
    true
}

/// The schema dispatch, on the declared version string.
fn classify_version(raw: &RawDifficulty) -> (s: Schema)
    ensures
        s == schema_of(version_of(*raw)),
{
    proof {
        reveal_strlit("2.0.0");
    }
    match &raw.version {
        None => Schema::V2Flat,
        Some(v) => {
            let n = v.as_str().unicode_len();
            if n >= 1 && v.as_str().get_char(0) == '3' {
                Schema::V3
            } else if n >= 3 && v.as_str().get_char(0) == '2' {
                if v.as_str().get_char(2) == '6' {
                    Schema::V26
                } else {
                    Schema::V2Flat
                }
            } else {
                Schema::Unsupported
            }
        },
    }
}

/// Normalizes one difficulty's raw note records into an ascending beat
/// sequence. The result holds exactly the beats the schema gathers: the
/// four categories of schema "3" (sliders contributing head and tail),
/// notes and sliders of schema "2.6", or the flat list of any other "2"
/// minor. An unrecognized version prefix or a missing category or field
/// is a hard error.
pub fn normalize_notes(raw: &RawDifficulty) -> (r: Result<Vec<u64>, StatsError>)
    ensures
        r is Ok <==> schema_of(version_of(*raw)) != Schema::Unsupported && gather_ok(*raw),
        r matches Ok(v) ==> sorted_asc(v@) && v@.to_multiset() == gathered_beats(
            *raw,
        ).to_multiset() && v@.len() == gathered_beats(*raw).len() && v@ == normalized_beats(*raw),
        r matches Err(e) ==> (e == StatsError::UnsupportedSchema <==> schema_of(version_of(*raw))
            == Schema::Unsupported),
        r matches Err(e) ==> (e == StatsError::MissingRequiredField <==> schema_of(
            version_of(*raw),
        ) != Schema::Unsupported && !gather_ok(*raw)),
{
    let schema = classify_version(raw);
    let mut acc: Vec<u64> = Vec::new();
    match schema {
        Schema::V3 => {
            let color = match find_section(&raw.sections, &String::from_str("colorNotes")) {
                Some(s) => s,
                None => {
                    return Err(StatsError::MissingRequiredField);
                },
            };
            let bombs = match find_section(&raw.sections, &String::from_str("bombNotes")) {
                Some(s) => s,
                None => {
                    return Err(StatsError::MissingRequiredField);
                },
            };
            let bursts = match find_section(&raw.sections, &String::from_str("burstSliders")) {
                Some(s) => s,
                None => {
                    return Err(StatsError::MissingRequiredField);
                },
            };
            let sliders = match find_section(&raw.sections, &String::from_str("sliders")) {
                Some(s) => s,
                None => {
                    return Err(StatsError::MissingRequiredField);
                },
            };
            if !push_head_beats(&mut acc, color) {
                return Err(StatsError::MissingRequiredField);
            }
            if !push_head_beats(&mut acc, bombs) {
                return Err(StatsError::MissingRequiredField);
            }
            if !push_head_beats(&mut acc, bursts) {
                return Err(StatsError::MissingRequiredField);
            }
            if !push_slider_beats(&mut acc, sliders) {
                return Err(StatsError::MissingRequiredField);
            }
            proof {
                assert(acc@ =~= gathered_beats(*raw));
            }
        },
        Schema::V26 => {
            let notes = match find_section(&raw.sections, &String::from_str("_notes")) {
                Some(s) => s,
                None => {
                    return Err(StatsError::MissingRequiredField);
                },
            };
            let sliders = match find_section(&raw.sections, &String::from_str("_sliders")) {
                Some(s) => s,
                None => {
                    return Err(StatsError::MissingRequiredField);
                },
            };
            if !push_head_beats(&mut acc, notes) {
                return Err(StatsError::MissingRequiredField);
            }
            if !push_slider_beats(&mut acc, sliders) {
                return Err(StatsError::MissingRequiredField);
            }
            proof {
                assert(acc@ =~= gathered_beats(*raw));
            }
        },
        Schema::V2Flat => {
            let notes = match find_section(&raw.sections, &String::from_str("_notes")) {
                Some(s) => s,
                None => {
                    return Err(StatsError::MissingRequiredField);
                },
            };
            if !push_flat_times(&mut acc, notes) {
                return Err(StatsError::MissingRequiredField);
            }
            proof {
                assert(acc@ =~= gathered_beats(*raw));
            }
        },
        Schema::Unsupported => {
            return Err(StatsError::UnsupportedSchema);
        },
    }
    let sorted = sort_beats(&acc);
    Ok(sorted)
}

} // verus!
