//! The ballot model: choice identifiers and voters.
//!
//! A raw ballot field encodes one ranked choice.  The identifier is the last
//! (rightmost) decimal digit of the field's text; a field without a digit is
//! malformed.  A voter is the ordered sequence of identifiers parsed from one
//! row of fields, first field first.

use vstd::prelude::*;

use crate::ElectionError;

verus! {

/// Choice identifiers are single decimal digits, so fewer than this many
/// distinct values exist.
pub const NUM_CHOICES: usize = 10;

pub open spec fn is_digit_char(c: char) -> bool {
    '0' <= c && c <= '9'
}

pub open spec fn digit_val(c: char) -> int {
    c as int - '0' as int
}

/// The identifier encoded by a raw ballot field: the value of the last
/// decimal digit of the text, or `None` when the text holds no digit.
pub open spec fn last_digit(s: Seq<char>) -> Option<int>
    decreases s.len(),
{
    if s.len() == 0 {
        None
    } else if is_digit_char(s.last()) {
        Some(digit_val(s.last()))
    } else {
        last_digit(s.drop_last())
    }
}

/// One candidate/option in the election, identified by a small number.
#[derive(PartialEq, Eq, Structural, Clone, Copy, Debug)]
pub struct CandidateId(pub usize);

impl CandidateId {
    /// Identifiers derived from ballot fields are single digits.
    pub open spec fn wf(&self) -> bool {
        self.0 < NUM_CHOICES
    }

    /// Derive an identifier from a raw ballot field by scanning its
    /// characters in reverse and taking the first decimal digit found.
    pub fn from_str(input: &str) -> (r: Result<CandidateId, ElectionError>)
        ensures
            match r {
                Ok(c) => last_digit(input@) == Some(c.0 as int) && c.wf(),
                Err(e) => last_digit(input@) is None && (e matches
                    ElectionError::MalformedBallotField(f) && f@ == input@),
            },
    {
        let n = input.unicode_len();
        let mut i = n;
        proof {
            assert(input@.take(n as int) =~= input@);
        }
        while i > 0
            invariant
                i <= n,
                n == input@.len(),
                last_digit(input@) == last_digit(input@.take(i as int)),
            decreases i,
        {
            i = i - 1;
            let c = input.get_char(i);
            proof {
                assert(input@.take(i + 1).last() == input@[i as int]);
                assert(input@.take(i + 1).drop_last() =~= input@.take(i as int));
            }
            if '0' <= c && c <= '9' {
                let v = (c as u32 - '0' as u32) as usize;
                return Ok(CandidateId(v));
            }
        }
        proof {
            assert(input@.take(0).len() == 0);
        }
        Err(ElectionError::MalformedBallotField(input.to_owned()))
    }

    /// The fixed, process-wide table from known identifier values to
    /// human-readable names, with an explicit fallback for unmapped values;
    /// unmapped values are not errors.
    pub fn name(&self) -> (r: &'static str)
        ensures
            r@ == spec_name(self.0 as int),
    {
        match self.0 {
            1 => "Medieval Fantasy",
            2 => "Alternate Universe",
            3 => "Steampunk",
            4 => "Vestiges",
            5 => "Invasion",
            _ => "Unknown",
        }
    }
}

/// What `CandidateId::name` returns for each identifier value.
pub open spec fn spec_name(id: int) -> Seq<char> {
    if id == 1 {
        "Medieval Fantasy"@
    } else if id == 2 {
        "Alternate Universe"@
    } else if id == 3 {
        "Steampunk"@
    } else if id == 4 {
        "Vestiges"@
    } else if id == 5 {
        "Invasion"@
    } else {
        "Unknown"@
    }
}

/// Valid preference sequences name single-digit identifiers only.
pub open spec fn prefs_wf(prefs: Seq<int>) -> bool {
    forall|i: int| 0 <= i < prefs.len() ==> 0 <= #[trigger] prefs[i] < NUM_CHOICES
}

/// Every field of the row encodes an identifier.
pub open spec fn row_ok(row: Seq<String>) -> bool {
    forall|j: int| 0 <= j < row.len() ==> last_digit(#[trigger] row[j]@) is Some
}

/// One respondent's ordered preferences, most preferred first.  Duplicates
/// from the raw input are kept as they are.  During tabulation, leading
/// entries naming eliminated choices are stripped until the front entry is a
/// standing choice or the sequence is empty (an exhausted ballot).
#[derive(Debug)]
pub struct Voter {
    pub choices: Vec<CandidateId>,
}

impl View for Voter {
    type V = Seq<int>;

    open spec fn view(&self) -> Seq<int> {
        self.choices@.map_values(|c: CandidateId| c.0 as int)
    }
}

impl Voter {
    pub open spec fn wf(&self) -> bool {
        prefs_wf(self@)
    }

    /// Parse one raw row of ranked-choice fields into a voter, preserving
    /// field order exactly.  A single malformed field fails the whole ballot
    /// and reports that field.
    pub fn try_parse_from_row(fields: &Vec<String>) -> (r: Result<Voter, ElectionError>)
        ensures
            match r {
                Ok(v) => {
                    &&& v@.len() == fields@.len()
                    &&& forall|i: int|
                        0 <= i < fields@.len() ==> last_digit(
                            (#[trigger] fields@[i])@,
                        ) == Some(v@[i])
                    &&& v.wf()
                },
                Err(e) => exists|i: int|
                    {
                        &&& 0 <= i < fields@.len()
                        &&& last_digit((#[trigger] fields@[i])@) is None
                        &&& forall|j: int|
                            0 <= j < i ==> last_digit((#[trigger] fields@[j])@) is Some
                        &&& (e matches ElectionError::MalformedBallotField(f) && f@ == fields@[i]@)
                    },
            },
    {
        let mut choices: Vec<CandidateId> = Vec::new();
        let mut k: usize = 0;
        while k < fields.len()
            invariant
                k <= fields@.len(),
                choices@.len() == k,
                forall|i: int|
                    0 <= i < k ==> last_digit((#[trigger] fields@[i])@) == Some(
                        choices@[i].0 as int,
                    ),
                forall|i: int| 0 <= i < k ==> (#[trigger] choices@[i]).0 < NUM_CHOICES,
            decreases fields@.len() - k,
        {
            match CandidateId::from_str(fields[k].as_str()) {
                Ok(c) => {
                    choices.push(c);
                },
                Err(e) => {
                    return Err(e);
                },
            }
            k += 1;
        }
        let v = Voter { choices };
        proof {
            assert(forall|i: int| 0 <= i < v@.len() ==> v@[i] == (#[trigger] v.choices@[i]).0 as int);
        }
        Ok(v)
    }
}

/// All-or-nothing batch validation: every row parses into a voter, in order,
/// or the run fails on the first malformed field of the first malformed row
/// with no partial result.
pub fn parse_ballots(rows: &Vec<Vec<String>>) -> (r: Result<Vec<Voter>, ElectionError>)
    ensures
        match r {
            Ok(vs) => {
                &&& vs@.len() == rows@.len()
                &&& forall|i: int|
                    0 <= i < rows@.len() ==> (#[trigger] vs@[i])@.len() == rows@[i]@.len()
                &&& forall|i: int, j: int|
                    0 <= i < rows@.len() && 0 <= j < rows@[i]@.len() ==> last_digit(
                        (#[trigger] rows@[i]@[j])@,
                    ) == Some(vs@[i]@[j])
                &&& forall|i: int| 0 <= i < vs@.len() ==> (#[trigger] vs@[i]).wf()
            },
            Err(e) => exists|i: int|
                {
                    &&& 0 <= i < rows@.len()
                    &&& !row_ok((#[trigger] rows@[i])@)
                    &&& forall|k: int| 0 <= k < i ==> row_ok((#[trigger] rows@[k])@)
                    &&& (e matches ElectionError::MalformedBallotField(f) && last_digit(f@) is None
                        && exists|j: int| 0 <= j < rows@[i]@.len() && f@ == (#[trigger] rows@[i]@[j])@)
                },
        },
{
    let mut voters: Vec<Voter> = Vec::new();
    let mut k: usize = 0;
    while k < rows.len()
        invariant
            k <= rows@.len(),
            voters@.len() == k,
            forall|i: int| 0 <= i < k ==> (#[trigger] voters@[i])@.len() == rows@[i]@.len(),
            forall|i: int, j: int|
                0 <= i < k && 0 <= j < rows@[i]@.len() ==> last_digit(
                    (#[trigger] rows@[i]@[j])@,
                ) == Some(voters@[i]@[j]),
            forall|i: int| 0 <= i < k ==> (#[trigger] voters@[i]).wf(),
            forall|i: int| 0 <= i < k ==> row_ok((#[trigger] rows@[i])@),
        decreases rows@.len() - k,
    {
        match Voter::try_parse_from_row(&rows[k]) {
            Ok(v) => {
                voters.push(v);
            },
            Err(e) => {
                return Err(e);
            },
        }
        k += 1;
    }
    Ok(voters)
}

} // verus!
