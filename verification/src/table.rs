//! The reference table's row layout and the integer fields parsed from it.
//! A row is a run of text cells: the level identity sits at a fixed column,
//! song metadata occupies the leading columns, and each difficulty owns a
//! block of eight columns whose last two carry the precomputed density
//! figures.

use vstd::prelude::*;

verus! {

/// The column holding the level identity.
pub const ID_COLUMN: usize = 46;

/// A decimal digit.
pub open spec fn is_digit(c: char) -> bool {
    '0' <= c && c <= '9'
}

/// Every character of the text is a decimal digit.
pub open spec fn all_digits(s: Seq<char>) -> bool {
    forall|i: int| 0 <= i < s.len() ==> is_digit(#[trigger] s[i])
}

/// The number the digit string denotes.
pub open spec fn digits_val(s: Seq<char>) -> int
    decreases s.len(),
{
    if s.len() == 0 {
        0
    } else {
        10 * digits_val(s.drop_last()) + (s.last() as int - 48)
    }
}

/// Digit values are non-negative.
proof fn lemma_digits_val_nonneg(s: Seq<char>)
    requires
        all_digits(s),
    ensures
        digits_val(s) >= 0,
    decreases s.len(),
{
    if s.len() > 0 {
        assert(all_digits(s.drop_last())) by {
            assert(forall|i: int|
                0 <= i < s.len() - 1 ==> s.drop_last()[i] == #[trigger] s[i]);
        }
        lemma_digits_val_nonneg(s.drop_last());
    }
}

/// A longer digit prefix denotes at least as large a number.
proof fn lemma_digits_val_grows(s: Seq<char>, k: int)
    requires
        all_digits(s),
        0 <= k <= s.len(),
    ensures
        digits_val(s.subrange(0, k)) <= digits_val(s),
    decreases s.len() - k,
{
    if k == s.len() {
        assert(s.subrange(0, k) =~= s);
    } else {
        lemma_digits_val_grows(s, k + 1);
        let p = s.subrange(0, k + 1);
        assert(all_digits(p)) by {
            assert(forall|i: int| 0 <= i < k + 1 ==> p[i] == #[trigger] s[i]);
        }
        assert(p.drop_last() =~= s.subrange(0, k));
        lemma_digits_val_nonneg(p.drop_last());
        assert(is_digit(p.last()));
        assert(digits_val(p) == 10 * digits_val(s.subrange(0, k)) + (p.last() as int - 48));
        assert(digits_val(s.subrange(0, k)) <= digits_val(p));
    }
}

/// Parses a non-empty run of decimal digits. Anything else, and a value
/// beyond the machine's range, is rejected.
pub fn parse_decimal(s: &str) -> (r: Option<u64>)
    ensures
        r matches Some(v) ==> s@.len() > 0 && all_digits(s@) && v == digits_val(s@),
        r is None ==> s@.len() == 0 || !all_digits(s@) || digits_val(s@) > u64::MAX,
{
    let n = s.unicode_len();
    if n == 0 {
        return None;
    }
    let mut value: u64 = 0;
    let mut i: usize = 0;
    while i < n
        invariant
            i <= n,
            n == s@.len(),
            all_digits(s@.subrange(0, i as int)),
            value == digits_val(s@.subrange(0, i as int)),
        decreases n - i,
    {
        let c = s.get_char(i);
        let cv = c as u32;
        if cv < 48 || cv > 57 {
            return None;
        }
        let digit = (cv - 48) as u64;
        proof {
            assert(s@.subrange(0, i as int + 1).drop_last() =~= s@.subrange(0, i as int));
            assert(s@.subrange(0, i as int + 1).last() == s@[i as int]);
            assert(forall|x: int|
                0 <= x < i + 1 ==> s@.subrange(0, i as int + 1)[x] == #[trigger] s@[x]);
        }
        if value > (u64::MAX - digit) / 10 {
            let rest_digits = all_digits_check(s, i + 1, n);
            proof {
                if rest_digits {
                    assert(all_digits(s@));
                    lemma_digits_val_grows(s@, i as int + 1);
                    assert(digits_val(s@.subrange(0, i as int + 1)) == 10 * value + digit);
                }
            }
            return None;
        }
        value = value * 10 + digit;
        i += 1;
    }
    proof {
        assert(s@.subrange(0, n as int) =~= s@);
    }
    Some(value)
}

/// Whether every character of the slice's given range is a digit.
fn all_digits_check(text: &str, from: usize, to: usize) -> (r: bool)
    requires
        from <= to <= text@.len(),
    ensures
        r == forall|i: int| from <= i < to ==> is_digit(#[trigger] text@[i]),
{
    let mut i: usize = from;
    while i < to
        invariant
            from <= i <= to,
            to <= text@.len(),
            forall|x: int| from <= x < i ==> is_digit(#[trigger] text@[x]),
        decreases to - i,
    {
        let c = text.get_char(i);
        let cv = c as u32;
        if cv < 48 || cv > 57 {
            return false;
        }
        i += 1;
    }
    true
}

/// The first colon of the text, if it has one.
pub open spec fn first_colon(s: Seq<char>) -> Option<int>
    decreases s.len(),
{
    if s.len() == 0 {
        None
    } else if s.first() == ':' {
        Some(0)
    } else {
        match first_colon(s.drop_first()) {
            Some(i) => Some(i + 1),
            None => None,
        }
    }
}

/// Finding a colon by scanning forward agrees with `first_colon`.
proof fn lemma_first_colon_scan(s: Seq<char>, i: int)
    requires
        0 <= i <= s.len(),
        forall|x: int| 0 <= x < i ==> s[x] != ':',
    ensures
        i < s.len() && s[i] == ':' ==> first_colon(s) == Some(i),
        i == s.len() ==> first_colon(s) is None,
    decreases i,
{
    if i > 0 {
        lemma_first_colon_scan(s.drop_first(), i - 1);
        assert(forall|x: int| 0 <= x < i - 1 ==> s.drop_first()[x] == #[trigger] s[x + 1]);
        assert(forall|x: int| 0 <= x < i - 1 ==> s.drop_first()[x] != ':');
        if i < s.len() && s[i] == ':' {
            assert(s.drop_first()[i - 1] == ':');
            assert(first_colon(s.drop_first()) == Some(i - 1));
        } else if i == s.len() {
            assert(first_colon(s.drop_first()) is None);
        }
    }
}

/// Parses a `"MM:SS"` duration into whole seconds: the digits before the
/// first colon are minutes, those after it seconds. Rejects text without a
/// colon, with non-digits around it, or beyond the machine's range.
pub fn parse_mmss(s: &String) -> (r: Option<u64>)
    ensures
        r matches Some(v) ==> (first_colon(s@) matches Some(ci) && {
            let mm = digits_val(s@.subrange(0, ci));
            let ss = digits_val(s@.subrange(ci + 1, s@.len() as int));
            &&& all_digits(s@.subrange(0, ci))
            &&& all_digits(s@.subrange(ci + 1, s@.len() as int))
            &&& 0 < ci
            &&& ci + 1 < s@.len()
            &&& v == 60 * mm + ss
        }),
        r is None ==> first_colon(s@) is None || (first_colon(s@) matches Some(ci) && {
            let mm = digits_val(s@.subrange(0, ci));
            let ss = digits_val(s@.subrange(ci + 1, s@.len() as int));
            ||| ci == 0
            ||| ci + 1 >= s@.len()
            ||| !all_digits(s@.subrange(0, ci))
            ||| !all_digits(s@.subrange(ci + 1, s@.len() as int))
            ||| 60 * mm + ss > u64::MAX
        }),
{
    let text = s.as_str();
    let n = text.unicode_len();
    let mut ci: usize = 0;
    while ci < n && text.get_char(ci) != ':'
        invariant
            ci <= n,
            n == s@.len(),
            text@ == s@,
            forall|x: int| 0 <= x < ci ==> s@[x] != ':',
        decreases n - ci,
    {
        ci += 1;
    }
    proof {
        lemma_first_colon_scan(s@, ci as int);
    }
    if ci == n {
        return None;
    }
    if ci == 0 || ci + 1 >= n {
        return None;
    }
    let ghost mm_part = s@.subrange(0, ci as int);
    let ghost ss_part = s@.subrange(ci as int + 1, s@.len() as int);
    let mm_text = text.substring_char(0, ci);
    let ss_text = text.substring_char(ci + 1, n);
    let mm = match parse_decimal(mm_text) {
        Some(v) => v,
        None => {
            proof {
                if digits_val(mm_part) > u64::MAX && all_digits(ss_part) {
                    lemma_digits_val_nonneg(ss_part);
                }
            }
            return None;
        },
    };
    let ss = match parse_decimal(ss_text) {
        Some(v) => v,
        None => {
            proof {
                if digits_val(ss_part) > u64::MAX && all_digits(mm_part) {
                    lemma_digits_val_nonneg(mm_part);
                }
            }
            return None;
        },
    };
    if mm > (u64::MAX - ss) / 60 {
        proof {
            assert(60 * (mm as int) + ss > u64::MAX);
        }
        return None;
    }
    Some(60 * mm + ss)
}

/// The text cells one difficulty block contributes: the notes-per-second
/// and note-count columns of the block.
pub struct DifficultyCells {
    pub nps_text: String,
    pub notes_text: String,
}

/// The text cells of one reference-table row, pulled from their fixed
/// columns: the five metadata columns, the duration column, the identity
/// column, and one block of two density cells per difficulty.
pub struct RowCells {
    pub song: String,
    pub artist: String,
    pub mapper: String,
    pub bpm_text: String,
    pub environment: String,
    pub duration_text: String,
    pub level_id: String,
    pub blocks: Vec<DifficultyCells>,
}

/// Pulls a row's cells from their documented columns: metadata in columns
/// zero through five, the identity in its fixed column, and, for each
/// difficulty index, a block of eight columns starting at `8 * d + 5`
/// whose seventh and eighth cells are the density figures.
pub fn extract_row_cells(cells: &Vec<String>) -> (r: Option<RowCells>)
    ensures
        r is Some <==> cells@.len() > 46,
        r matches Some(row) ==> {
            &&& row.song@ == cells@[0]@
            &&& row.artist@ == cells@[1]@
            &&& row.mapper@ == cells@[2]@
            &&& row.bpm_text@ == cells@[3]@
            &&& row.environment@ == cells@[4]@
            &&& row.duration_text@ == cells@[5]@
            &&& row.level_id@ == cells@[46]@
            &&& row.blocks@.len() == 5
            &&& forall|d: int|
                0 <= d < 5 ==> (#[trigger] row.blocks@[d]).nps_text@ == cells@[8 * d + 12]@
                    && row.blocks@[d].notes_text@ == cells@[8 * d + 13]@
        },
{
    if cells.len() <= ID_COLUMN {
        return None;
    }
    let mut blocks: Vec<DifficultyCells> = Vec::new();
    let mut d: usize = 0;
    while d < 5
        invariant
            d <= 5,
            cells@.len() > 46,
            blocks@.len() == d,
            forall|x: int|
                0 <= x < d ==> (#[trigger] blocks@[x]).nps_text@ == cells@[8 * x + 12]@
                    && blocks@[x].notes_text@ == cells@[8 * x + 13]@,
        decreases 5 - d,
    {
        let base = 8 * d + 5;
        blocks.push(
            DifficultyCells {
                nps_text: cells[base + 7].clone(),
                notes_text: cells[base + 8].clone(),
            },
        );
        d += 1;
    }
    Some(
        RowCells {
            song: cells[0].clone(),
            artist: cells[1].clone(),
            mapper: cells[2].clone(),
            bpm_text: cells[3].clone(),
            environment: cells[4].clone(),
            duration_text: cells[5].clone(),
            level_id: cells[ID_COLUMN].clone(),
            blocks,
        },
    )
}

} // verus!
