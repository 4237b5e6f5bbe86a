//! The records that the admission engine reads and produces, each with the
//! mathematical view that the contracts of the crate speak of.

use vstd::prelude::*;

verus! {

/// The four component scores of an applicant.
#[derive(Clone, Copy, Debug, PartialEq, Eq)]
pub struct Scores {
    pub math: i32,
    pub rus: i32,
    pub phys: i32,
    pub achievements: i32,
}

impl Scores {
    /// The sum of the four components as an unbounded integer.
    pub open spec fn sum(&self) -> int {
        self.math + self.rus + self.phys + self.achievements
    }

    /// The sum of the four components, or `None` where it leaves the range of `i32`.
    pub fn total(&self) -> (out: Option<i32>)
        ensures
            out.is_some() <==> i32::MIN <= self.sum() <= i32::MAX,
            out.is_some() ==> out.unwrap() == self.sum(),
    {
        let wide: i64 = self.math as i64 + self.rus as i64 + self.phys as i64
            + self.achievements as i64;
        if wide < i32::MIN as i64 || wide > i32::MAX as i64 {
            None
        } else {
            Some(wide as i32)
        }
    }
}

/// What the contracts see of an [`Applicant`]: text as sequences of characters,
/// numbers as they are.
pub ghost struct ApplicantView {
    pub id: i32,
    pub full_name: Seq<char>,
    pub agreed: bool,
    pub total_score: i32,
    pub scores: Scores,
    pub current_program: Option<Seq<char>>,
    pub priorities: Seq<Seq<char>>,
}

/// A candidate with scores, a consent flag, ranked program preferences and
/// the program that currently holds a seat for them, if any.
#[derive(Clone, Debug, PartialEq, Eq)]
pub struct Applicant {
    pub id: i32,
    pub full_name: String,
    pub agreed: bool,
    pub total_score: i32,
    pub scores: Scores,
    pub current_program: Option<String>,
    pub priorities: Vec<String>,
}

/// The view of a list of texts: the sequence of their character sequences.
pub open spec fn texts(list: Seq<String>) -> Seq<Seq<char>> {
    Seq::new(list.len(), |r: int| list[r]@)
}

/// The view of an optional text.
pub open spec fn optional_text(text: Option<String>) -> Option<Seq<char>> {
    match text {
        Some(s) => Some(s@),
        None => None,
    }
}

impl View for Applicant {
    type V = ApplicantView;

    open spec fn view(&self) -> ApplicantView {
        ApplicantView {
            id: self.id,
            full_name: self.full_name@,
            agreed: self.agreed,
            total_score: self.total_score,
            scores: self.scores,
            current_program: optional_text(self.current_program),
            priorities: texts(self.priorities@),
        }
    }
}

impl ApplicantView {
    /// The record is as an import leaves it: the total is the sum of the four
    /// components, and no more than four programs are named.
    pub open spec fn well_formed(self) -> bool {
        self.total_score == self.scores.sum() && self.priorities.len() <= 4
    }

    /// The same applicant holding the seat `seat`, or none.
    pub open spec fn placed(self, seat: Option<Seq<char>>) -> ApplicantView {
        ApplicantView { current_program: seat, ..self }
    }

    /// The rank (from 0) at which `code` first stands in the preference list.
    pub open spec fn lists_first_at(self, code: Seq<char>, rank: int) -> bool {
        &&& 0 <= rank < self.priorities.len()
        &&& self.priorities[rank] == code
        &&& forall|earlier: int| 0 <= earlier < rank ==> self.priorities[earlier] != code
    }
}

impl Applicant {
    /// Whether the total is the sum of the four components and no more than
    /// four programs are named.
    pub fn is_well_formed(&self) -> (ok: bool)
        ensures
            ok == self@.well_formed(),
    {
        self.scores.total() == Some(self.total_score) && self.priorities.len() <= 4
    }
}

/// The views of a list of applicants, position by position.
pub open spec fn roster(applicants: Seq<Applicant>) -> Seq<ApplicantView> {
    Seq::new(applicants.len(), |i: int| applicants[i]@)
}

/// Fill level, cutoff and the breakdown by preference rank of one program.
#[derive(Clone, Debug, PartialEq, Eq)]
pub struct ProgramStats {
    pub program_name: String,
    pub program_code: String,
    pub places_total: i32,
    pub places_filled: i32,
    pub passing_score: i32,
    pub is_shortage: bool,
    pub count_priority_1: i32,
    pub count_priority_2: i32,
    pub count_priority_3: i32,
    pub count_priority_4: i32,
    pub enrolled_priority_1: i32,
    pub enrolled_priority_2: i32,
    pub enrolled_priority_3: i32,
    pub enrolled_priority_4: i32,
}

/// A row of an uploaded batch as it was read: numbers parsed, the consent
/// field and the preference list still free text.
#[derive(Clone, Debug, PartialEq, Eq)]
pub struct CsvApplicant {
    pub id: i32,
    pub name: String,
    pub math: i32,
    pub rus: i32,
    pub phys: i32,
    pub achieve: i32,
    pub agreed: String,
    pub priorities: String,
}

/// What the contracts see of a [`NewApplicant`].
pub ghost struct NewApplicantView {
    pub external_id: i32,
    pub full_name: Seq<char>,
    pub score_math: i32,
    pub score_rus: i32,
    pub score_phys: i32,
    pub score_achieve: i32,
    pub agreed: bool,
    pub priorities: Seq<Seq<char>>,
}

/// An applicant as an import writes them: identified by the identifier of
/// the source data, with consent and preferences in their normal form.
#[derive(Clone, Debug, PartialEq, Eq)]
pub struct NewApplicant {
    pub external_id: i32,
    pub full_name: String,
    pub score_math: i32,
    pub score_rus: i32,
    pub score_phys: i32,
    pub score_achieve: i32,
    pub agreed: bool,
    pub priorities: Vec<String>,
}

impl View for NewApplicant {
    type V = NewApplicantView;

    open spec fn view(&self) -> NewApplicantView {
        NewApplicantView {
            external_id: self.external_id,
            full_name: self.full_name@,
            score_math: self.score_math,
            score_rus: self.score_rus,
            score_phys: self.score_phys,
            score_achieve: self.score_achieve,
            agreed: self.agreed,
            priorities: texts(self.priorities@),
        }
    }
}

impl NewApplicant {
    /// The four component scores.
    pub fn scores(&self) -> (scores: Scores)
        ensures
            scores == (Scores {
                math: self.score_math,
                rus: self.score_rus,
                phys: self.score_phys,
                achievements: self.score_achieve,
            }),
    {
        Scores {
            math: self.score_math,
            rus: self.score_rus,
            phys: self.score_phys,
            achievements: self.score_achieve,
        }
    }

    /// The total score: the sum of the four components, or `None` where the
    /// sum leaves the range of `i32`.
    pub fn total_score(&self) -> (total: Option<i32>)
        ensures
            total.is_some() <==> i32::MIN <= self.score_math + self.score_rus + self.score_phys
                + self.score_achieve <= i32::MAX,
            total.is_some() ==> total.unwrap() == self.score_math + self.score_rus
                + self.score_phys + self.score_achieve,
    {
        self.scores().total()
    }
}

/// The count of the rows that an import wrote.
#[derive(Clone, Copy, Debug, PartialEq, Eq)]
pub struct ImportStats {
    pub processed: i32,
}

/// The summary that an import returns to its caller.
#[derive(Clone, Debug, PartialEq, Eq)]
pub struct ImportResponse {
    pub status: String,
    pub message: String,
    pub stats: ImportStats,
    pub warning: Option<String>,
}

/// The page of the applicant list that a caller asks for.
#[derive(Clone, Copy, Debug, PartialEq, Eq)]
pub struct PaginationQuery {
    pub page: Option<usize>,
    pub limit: Option<usize>,
}

/// Where a page stands in the whole list.
#[derive(Clone, Copy, Debug, PartialEq, Eq)]
pub struct PaginationMeta {
    pub total_items: usize,
    pub current_page: usize,
    pub total_pages: usize,
}

/// One page of the applicant list.
#[derive(Clone, Debug, PartialEq, Eq)]
pub struct ApplicantListResponse {
    pub data: Vec<Applicant>,
    pub meta: PaginationMeta,
}

} // verus!
