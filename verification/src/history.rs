//! The dated snapshots of cutoff and fill level, one row per date and program.

use vstd::prelude::*;
use crate::models::ProgramStats;
use crate::ranking::positions;
use crate::text::{Standing, code_before, code_standing, lemma_code_before_transitive};

verus! {

/// What the contracts see of a [`HistoryRecord`].
pub ghost struct HistoryRecordView {
    pub record_date: Seq<char>,
    pub program_code: Seq<char>,
    pub passing_score: i32,
    pub places_filled: i32,
}

/// The cutoff and fill level of one program on one report date.
#[derive(Clone, Debug, PartialEq, Eq)]
pub struct HistoryRecord {
    pub record_date: String,
    pub program_code: String,
    pub passing_score: i32,
    pub places_filled: i32,
}

impl View for HistoryRecord {
    type V = HistoryRecordView;

    open spec fn view(&self) -> HistoryRecordView {
        HistoryRecordView {
            record_date: self.record_date@,
            program_code: self.program_code@,
            passing_score: self.passing_score,
            places_filled: self.places_filled,
        }
    }
}

/// The row is the one for `date` and `code`.
pub open spec fn keyed(row: HistoryRecordView, date: Seq<char>, code: Seq<char>) -> bool {
    row.record_date == date && row.program_code == code
}

/// No two of `rows` are for the same date and program.
pub open spec fn distinct_keys(rows: Seq<HistoryRecordView>) -> bool {
    forall|i: int, j: int|
        0 <= i < rows.len() && 0 <= j < rows.len() && i != j ==> !keyed(
            #[trigger] rows[i],
            (#[trigger] rows[j]).record_date,
            rows[j].program_code,
        )
}

/// `rows` has a row for `date` and `code`.
pub open spec fn has_row(rows: Seq<HistoryRecordView>, date: Seq<char>, code: Seq<char>) -> bool {
    exists|i: int| 0 <= i < rows.len() && keyed(#[trigger] rows[i], date, code)
}

/// The position of a row for `date` and `code`, where `rows` has one.
pub open spec fn row_of(rows: Seq<HistoryRecordView>, date: Seq<char>, code: Seq<char>) -> int {
    choose|i: int| 0 <= i < rows.len() && keyed(#[trigger] rows[i], date, code)
}

/// `rows` after `row` was written: in place of the row for the same date and
/// program where there is one, at the end otherwise.
pub open spec fn upserted(rows: Seq<HistoryRecordView>, row: HistoryRecordView) -> Seq<
    HistoryRecordView,
> {
    if has_row(rows, row.record_date, row.program_code) {
        rows.update(row_of(rows, row.record_date, row.program_code), row)
    } else {
        rows.push(row)
    }
}

/// `rows` after each of `entries` was written, first to last.
pub open spec fn recorded(rows: Seq<HistoryRecordView>, entries: Seq<HistoryRecordView>) -> Seq<
    HistoryRecordView,
>
    decreases entries.len(),
{
    if entries.len() == 0 {
        rows
    } else {
        upserted(recorded(rows, entries.drop_last()), entries.last())
    }
}

/// The rows that a run on `date` writes: for each report its program's
/// cutoff and fill level.
pub open spec fn snapshot_of(date: Seq<char>, stats: Seq<ProgramStats>) -> Seq<HistoryRecordView> {
    Seq::new(
        stats.len(),
        |j: int|
            HistoryRecordView {
                record_date: date,
                program_code: stats[j].program_code@,
                passing_score: stats[j].passing_score,
                places_filled: stats[j].places_filled,
            },
    )
}

/// `order` lists the positions below `n` of the rows of `rows` for the
/// program `code`, each once, by ascending date.
pub open spec fn dates_ranked(
    rows: Seq<HistoryRecordView>,
    code: Seq<char>,
    n: int,
    order: Seq<int>,
) -> bool {
    &&& forall|k: int|
        0 <= k < order.len() ==> 0 <= #[trigger] order[k] < n && rows[order[k]].program_code
            == code
    &&& forall|i: int|
        0 <= i < n && (#[trigger] rows[i]).program_code == code ==> order.contains(i)
    &&& forall|k: int, l: int|
        0 <= k < l < order.len() ==> code_before(
            rows[#[trigger] order[k]].record_date,
            rows[#[trigger] order[l]].record_date,
        )
}

/// `order` lists the positions of the rows for the program `code`, each
/// once, by ascending date.
pub open spec fn is_series(rows: Seq<HistoryRecordView>, code: Seq<char>, order: Seq<int>) -> bool {
    dates_ranked(rows, code, rows.len() as int, order)
}

/// Putting the position `n` into a list of the positions below it, behind the
/// earlier dates and before the later ones, keeps the list sorted.
proof fn lemma_insert_date(
    rows: Seq<HistoryRecordView>,
    code: Seq<char>,
    n: int,
    order: Seq<int>,
    slot: int,
)
    requires
        0 <= n < rows.len(),
        rows[n].program_code == code,
        dates_ranked(rows, code, n, order),
        0 <= slot <= order.len(),
        forall|k: int|
            0 <= k < slot ==> code_before(rows[#[trigger] order[k]].record_date, rows[n].record_date),
        slot < order.len() ==> code_before(rows[n].record_date, rows[order[slot]].record_date),
    ensures
        dates_ranked(rows, code, n + 1, order.insert(slot, n)),
{
    let grown = order.insert(slot, n);
    assert forall|k: int| 0 <= k < grown.len() implies 0 <= #[trigger] grown[k] < n + 1
        && rows[grown[k]].program_code == code by {
        if k < slot {
            assert(grown[k] == order[k]);
        } else if k > slot {
            assert(grown[k] == order[k - 1]);
        }
    }
    assert forall|i: int| 0 <= i < n + 1 && (#[trigger] rows[i]).program_code
        == code implies grown.contains(i) by {
        if i == n {
            assert(grown[slot] == n);
        } else {
            assert(order.contains(i));
            let k = choose|k: int| 0 <= k < order.len() && order[k] == i;
            if k < slot {
                assert(grown[k] == i);
            } else {
                assert(grown[k + 1] == i);
            }
        }
    }
    assert forall|k: int, l: int| 0 <= k < l < grown.len() implies code_before(
        rows[#[trigger] grown[k]].record_date,
        rows[#[trigger] grown[l]].record_date,
    ) by {
        if l < slot {
            assert(grown[k] == order[k] && grown[l] == order[l]);
        } else if l == slot {
            assert(grown[k] == order[k]);
        } else if k < slot {
            assert(grown[k] == order[k] && grown[l] == order[l - 1]);
        } else if k == slot {
            assert(grown[l] == order[l - 1]);
            if l - 1 > slot {
                assert(code_before(rows[order[slot]].record_date, rows[order[l - 1]].record_date));
                lemma_code_before_transitive(
                    rows[n].record_date,
                    rows[order[slot]].record_date,
                    rows[order[l - 1]].record_date,
                );
            }
        } else {
            assert(grown[k] == order[k - 1] && grown[l] == order[l - 1]);
        }
    }
}

/// The time series of the runs: one row for each date and program.
#[derive(Clone, Debug)]
pub struct History {
    rows: Vec<HistoryRecord>,
}

impl View for History {
    type V = Seq<HistoryRecordView>;

    closed spec fn view(&self) -> Seq<HistoryRecordView> {
        Seq::new(self.rows@.len(), |i: int| self.rows@[i]@)
    }
}

impl History {
    /// The invariant: one row at most for a date and a program.
    pub open spec fn wf(&self) -> bool {
        distinct_keys(self@)
    }

    /// A history without rows.
    pub fn new() -> (history: History)
        ensures
            history.wf(),
            history@ == Seq::<HistoryRecordView>::empty(),
    {
        let history = History { rows: Vec::new() };
        assert(history@ =~= Seq::<HistoryRecordView>::empty());
        history
    }

    /// The number of rows.
    pub fn len(&self) -> (n: usize)
        ensures
            n == self@.len(),
    {
        self.rows.len()
    }

    /// The row at position `i`.
    pub fn get(&self, i: usize) -> (row: &HistoryRecord)
        requires
            i < self@.len(),
        ensures
            row@ == self@[i as int],
    {
        &self.rows[i]
    }

    /// The position of the row for `date` and `code`, if there is one.
    pub fn find(&self, date: &String, code: &String) -> (found: Option<usize>)
        ensures
            match found {
                Some(i) => i < self@.len() && keyed(self@[i as int], date@, code@),
                None => !has_row(self@, date@, code@),
            },
    {
        let mut i: usize = 0;
        while i < self.rows.len()
            invariant
                0 <= i <= self.rows@.len(),
                forall|j: int| 0 <= j < i ==> !keyed(#[trigger] self@[j], date@, code@),
            decreases self.rows@.len() - i,
        {
            if self.rows[i].record_date == *date && self.rows[i].program_code == *code {
                assert(keyed(self@[i as int], date@, code@));
                return Some(i);
            }
            i = i + 1;
        }
        None
    }

    /// The positions of the rows for the program `code`, by ascending date:
    /// the time series of its cutoff and fill level.
    pub fn series(&self, code: &String) -> (order: Vec<usize>)
        requires
            self.wf(),
        ensures
            is_series(self@, code@, positions(order@)),
    {
        let mut order: Vec<usize> = Vec::new();
        let mut n: usize = 0;
        while n < self.rows.len()
            invariant
                self.wf(),
                0 <= n <= self@.len(),
                self@.len() == self.rows@.len(),
                dates_ranked(self@, code@, n as int, positions(order@)),
            decreases self@.len() - n,
        {
            let ghost listed = positions(order@);
            if self.rows[n].program_code == *code {
                let mut slot: usize = 0;
                let mut placed = false;
                while slot < order.len() && !placed
                    invariant
                        self.wf(),
                        0 <= n < self@.len(),
                        self@.len() == self.rows@.len(),
                        self@[n as int].program_code == code@,
                        listed == positions(order@),
                        dates_ranked(self@, code@, n as int, listed),
                        0 <= slot <= order@.len(),
                        forall|k: int|
                            0 <= k < slot ==> code_before(
                                self@[#[trigger] listed[k]].record_date,
                                self@[n as int].record_date,
                            ),
                        placed ==> slot < order@.len() && code_before(
                            self@[n as int].record_date,
                            self@[listed[slot as int]].record_date,
                        ),
                    decreases order@.len() - slot + if placed { 0int } else { 1int },
                {
                    assert(listed[slot as int] == order@[slot as int]);
                    let other = order[slot];
                    match code_standing(&self.rows[n].record_date, &self.rows[other].record_date) {
                        Standing::Before => {
                            placed = true;
                        },
                        Standing::Same => {
                            assert(keyed(
                                self@[n as int],
                                self@[other as int].record_date,
                                self@[other as int].program_code,
                            ));
                            assert(false);
                        },
                        Standing::After => {
                            slot = slot + 1;
                        },
                    }
                }
                proof {
                    lemma_insert_date(self@, code@, n as int, listed, slot as int);
                }
                order.insert(slot, n);
                assert(positions(order@) =~= listed.insert(slot as int, n as int));
            } else {
                assert forall|i: int| 0 <= i < n + 1 && (#[trigger] self@[i]).program_code
                    == code@ implies listed.contains(i) by {}
            }
            n = n + 1;
        }
        order
    }

    /// Writes `row`: over the row for its date and program where there is
    /// one, at the end otherwise.
    pub fn upsert(&mut self, row: HistoryRecord)
        requires
            old(self).wf(),
        ensures
            final(self).wf(),
            final(self)@ == upserted(old(self)@, row@),
    {
        let ghost before = self@;
        let ghost entry = row@;
        match self.find(&row.record_date, &row.program_code) {
            Some(i) => {
                assert(row_of(before, entry.record_date, entry.program_code) == i);
                self.rows.set(i, row);
                assert(self@ =~= before.update(i as int, entry));
            },
            None => {
                self.rows.push(row);
                assert(self@ =~= before.push(entry));
            },
        }
        proof {
            lemma_upsert_keeps_keys(before, entry);
        }
    }
}

/// Writing a row keeps the keys distinct, and leaves every row for another
/// date or program where and as it was.
pub proof fn lemma_upsert_keeps_keys(rows: Seq<HistoryRecordView>, row: HistoryRecordView)
    requires
        distinct_keys(rows),
    ensures
        distinct_keys(upserted(rows, row)),
        upserted(rows, row).len() >= rows.len(),
        has_row(upserted(rows, row), row.record_date, row.program_code),
        upserted(rows, row)[row_of(upserted(rows, row), row.record_date, row.program_code)] == row,
        forall|i: int|
            0 <= i < rows.len() && !keyed(#[trigger] rows[i], row.record_date, row.program_code)
                ==> upserted(rows, row)[i] == rows[i],
{
    let after = upserted(rows, row);
    if has_row(rows, row.record_date, row.program_code) {
        let at = row_of(rows, row.record_date, row.program_code);
        assert(keyed(after[at], row.record_date, row.program_code));
        assert forall|i: int, j: int|
            0 <= i < after.len() && 0 <= j < after.len() && i != j implies !keyed(
            #[trigger] after[i],
            (#[trigger] after[j]).record_date,
            after[j].program_code,
        ) by {
            assert(keyed(rows[at], row.record_date, row.program_code));
            if i == at {
                assert(!keyed(rows[at], rows[j].record_date, rows[j].program_code));
            } else if j == at {
                assert(!keyed(rows[i], rows[at].record_date, rows[at].program_code));
            } else {
                assert(!keyed(rows[i], rows[j].record_date, rows[j].program_code));
            }
        }
    } else {
        assert(keyed(after[rows.len() as int], row.record_date, row.program_code));
        assert forall|i: int, j: int|
            0 <= i < after.len() && 0 <= j < after.len() && i != j implies !keyed(
            #[trigger] after[i],
            (#[trigger] after[j]).record_date,
            after[j].program_code,
        ) by {
            if i < rows.len() && j < rows.len() {
                assert(!keyed(rows[i], rows[j].record_date, rows[j].program_code));
            } else if i < rows.len() {
                assert(!keyed(rows[i], row.record_date, row.program_code));
            } else {
                assert(!keyed(rows[j], row.record_date, row.program_code));
            }
        }
    }
    let found = row_of(after, row.record_date, row.program_code);
    assert(keyed(after[found], row.record_date, row.program_code));
    if has_row(rows, row.record_date, row.program_code) {
        let at = row_of(rows, row.record_date, row.program_code);
        if found != at {
            assert(!keyed(after[found], after[at].record_date, after[at].program_code));
        }
    } else {
        if found != rows.len() {
            let end = rows.len() as int;
            assert(!keyed(after[found], after[end].record_date, after[end].program_code));
        }
    }
}

/// The rows that a run on `date` writes for the reports `stats`.
pub fn snapshot(date: &String, stats: &Vec<ProgramStats>) -> (rows: Vec<HistoryRecord>)
    ensures
        Seq::new(rows@.len(), |j: int| rows@[j]@) == snapshot_of(date@, stats@),
{
    let mut rows: Vec<HistoryRecord> = Vec::new();
    let mut j: usize = 0;
    while j < stats.len()
        invariant
            0 <= j <= stats@.len(),
            rows@.len() == j,
            forall|l: int| 0 <= l < j ==> (#[trigger] rows@[l])@ == snapshot_of(date@, stats@)[l],
        decreases stats@.len() - j,
    {
        rows.push(
            HistoryRecord {
                record_date: date.clone(),
                program_code: stats[j].program_code.clone(),
                passing_score: stats[j].passing_score,
                places_filled: stats[j].places_filled,
            },
        );
        j = j + 1;
    }
    assert(Seq::new(rows@.len(), |j: int| rows@[j]@) =~= snapshot_of(date@, stats@));
    rows
}

/// Records a run: for each report of `stats` the row for `date` and its
/// program is written with the program's cutoff and fill level, over the row
/// of an earlier run on the same date where there is one.
pub fn save_statistics(history: &mut History, date: &String, stats: &Vec<ProgramStats>)
    requires
        old(history).wf(),
    ensures
        final(history).wf(),
        final(history)@ == recorded(old(history)@, snapshot_of(date@, stats@)),
{
    let ghost before = history@;
    let ghost entries = snapshot_of(date@, stats@);
    let mut j: usize = 0;
    assert(entries.take(0) =~= Seq::<HistoryRecordView>::empty());
    while j < stats.len()
        invariant
            entries == snapshot_of(date@, stats@),
            0 <= j <= stats@.len(),
            history.wf(),
            history@ == recorded(before, entries.take(j as int)),
        decreases stats@.len() - j,
    {
        let row = HistoryRecord {
            record_date: date.clone(),
            program_code: stats[j].program_code.clone(),
            passing_score: stats[j].passing_score,
            places_filled: stats[j].places_filled,
        };
        assert(row@ == entries[j as int]);
        assert(entries.take(j + 1).drop_last() =~= entries.take(j as int));
        history.upsert(row);
        j = j + 1;
    }
    assert(entries.take(j as int) =~= entries);
}

/// `rows` holds `row` as the row for its date and program.
pub open spec fn holds(rows: Seq<HistoryRecordView>, row: HistoryRecordView) -> bool {
    has_row(rows, row.record_date, row.program_code) && rows[row_of(
        rows,
        row.record_date,
        row.program_code,
    )] == row
}

/// After entries for distinct dates and programs were written, the keys are
/// distinct, no row was lost, and each entry is held as it was written.
pub proof fn lemma_recorded_holds(
    rows: Seq<HistoryRecordView>,
    entries: Seq<HistoryRecordView>,
    j: int,
)
    requires
        distinct_keys(rows),
        distinct_keys(entries),
        0 <= j < entries.len(),
    ensures
        distinct_keys(recorded(rows, entries)),
        recorded(rows, entries).len() >= rows.len(),
        holds(recorded(rows, entries), entries[j]),
    decreases entries.len(),
{
    let shorter = entries.drop_last();
    let earlier = recorded(rows, shorter);
    let last = entries.last();
    lemma_recorded_keys(rows, shorter);
    lemma_upsert_keeps_keys(earlier, last);
    if j < entries.len() - 1 {
        assert(distinct_keys(shorter)) by {
            assert forall|a: int, b: int|
                0 <= a < shorter.len() && 0 <= b < shorter.len() && a != b implies !keyed(
                #[trigger] shorter[a],
                (#[trigger] shorter[b]).record_date,
                shorter[b].program_code,
            ) by {
                assert(!keyed(entries[a], entries[b].record_date, entries[b].program_code));
            }
        }
        lemma_recorded_holds(rows, shorter, j);
        let entry = entries[j];
        assert(shorter[j] == entry);
        let at = row_of(earlier, entry.record_date, entry.program_code);
        assert(!keyed(entries[j], last.record_date, last.program_code)) by {
            assert(!keyed(
                entries[j],
                entries[entries.len() - 1].record_date,
                entries[entries.len() - 1].program_code,
            ));
        }
        let after = recorded(rows, entries);
        assert(after[at] == entry);
        assert(keyed(after[at], entry.record_date, entry.program_code));
        let found = row_of(after, entry.record_date, entry.program_code);
        if found != at {
            assert(!keyed(after[found], after[at].record_date, after[at].program_code));
        }
    }
}

/// Writing entries keeps the keys distinct and loses no row.
pub proof fn lemma_recorded_keys(rows: Seq<HistoryRecordView>, entries: Seq<HistoryRecordView>)
    requires
        distinct_keys(rows),
    ensures
        distinct_keys(recorded(rows, entries)),
        recorded(rows, entries).len() >= rows.len(),
    decreases entries.len(),
{
    if entries.len() > 0 {
        lemma_recorded_keys(rows, entries.drop_last());
        lemma_upsert_keeps_keys(recorded(rows, entries.drop_last()), entries.last());
    }
}

/// Writing a row that is held already changes nothing.
pub proof fn lemma_upsert_held(rows: Seq<HistoryRecordView>, row: HistoryRecordView)
    requires
        holds(rows, row),
    ensures
        upserted(rows, row) == rows,
{
    assert(upserted(rows, row) =~= rows);
}

/// Recording the same run a second time changes nothing: the rows of a date
/// are overwritten with what they hold, and none is added.
pub proof fn lemma_record_again(rows: Seq<HistoryRecordView>, entries: Seq<HistoryRecordView>)
    requires
        distinct_keys(rows),
        distinct_keys(entries),
    ensures
        recorded(recorded(rows, entries), entries) == recorded(rows, entries),
{
    lemma_record_prefix_again(rows, entries, entries.len() as int);
    assert(entries.take(entries.len() as int) =~= entries);
}

/// Recording the first `k` entries of a run that was recorded changes nothing.
proof fn lemma_record_prefix_again(
    rows: Seq<HistoryRecordView>,
    entries: Seq<HistoryRecordView>,
    k: int,
)
    requires
        distinct_keys(rows),
        distinct_keys(entries),
        0 <= k <= entries.len(),
    ensures
        recorded(recorded(rows, entries), entries.take(k)) == recorded(rows, entries),
    decreases k,
{
    if k > 0 {
        lemma_record_prefix_again(rows, entries, k - 1);
        assert(entries.take(k).drop_last() =~= entries.take(k - 1));
        assert(entries.take(k).last() == entries[k - 1]);
        lemma_recorded_holds(rows, entries, k - 1);
        lemma_upsert_held(recorded(rows, entries), entries[k - 1]);
    } else {
        assert(entries.take(0) =~= Seq::<HistoryRecordView>::empty());
    }
}

/// A row stays where and as it is while entries for other dates or programs
/// are written: the rows of earlier dates are never touched by a later run.
pub proof fn lemma_other_rows_stay(
    rows: Seq<HistoryRecordView>,
    entries: Seq<HistoryRecordView>,
    i: int,
)
    requires
        distinct_keys(rows),
        0 <= i < rows.len(),
        forall|j: int|
            0 <= j < entries.len() ==> !keyed(
                rows[i],
                (#[trigger] entries[j]).record_date,
                entries[j].program_code,
            ),
    ensures
        recorded(rows, entries).len() >= rows.len(),
        recorded(rows, entries)[i] == rows[i],
    decreases entries.len(),
{
    if entries.len() > 0 {
        let shorter = entries.drop_last();
        assert forall|j: int| 0 <= j < shorter.len() implies !keyed(
            rows[i],
            (#[trigger] shorter[j]).record_date,
            shorter[j].program_code,
        ) by {
            assert(shorter[j] == entries[j]);
        }
        lemma_other_rows_stay(rows, shorter, i);
        lemma_recorded_keys(rows, shorter);
        assert(entries.last() == entries[entries.len() - 1]);
        lemma_upsert_keeps_keys(recorded(rows, shorter), entries.last());
    }
}

} // verus!
