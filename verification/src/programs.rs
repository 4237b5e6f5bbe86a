//! The configured degree programs and their seat capacities.

use vstd::prelude::*;
use vstd::string::*;
use crate::ranking::positions;
use crate::text::{Standing, code_before, code_standing, lemma_code_before_transitive};

verus! {

/// What the contracts see of a [`Program`].
pub ghost struct ProgramView {
    pub code: Seq<char>,
    pub name: Seq<char>,
    pub capacity: nat,
}

/// A degree program: a short code, a display name and a number of seats.
#[derive(Clone, Debug, PartialEq, Eq)]
pub struct Program {
    pub code: String,
    pub name: String,
    pub capacity: usize,
}

impl View for Program {
    type V = ProgramView;

    open spec fn view(&self) -> ProgramView {
        ProgramView { code: self.code@, name: self.name@, capacity: self.capacity as nat }
    }
}

/// No code stands twice in `programs`.
pub open spec fn distinct_codes(programs: Seq<ProgramView>) -> bool {
    forall|p: int, q: int|
        0 <= p < programs.len() && 0 <= q < programs.len() && p != q
            ==> programs[p].code != programs[q].code
}

/// Every program of `programs` has a seat at least, and no more seats than
/// an `i32` can count.
pub open spec fn seats_in_range(programs: Seq<ProgramView>) -> bool {
    forall|p: int| 0 <= p < programs.len() ==> 1 <= (#[trigger] programs[p]).capacity <= i32::MAX
}

/// `code` is the code of one of `programs`.
pub open spec fn offered(programs: Seq<ProgramView>, code: Seq<char>) -> bool {
    exists|p: int| 0 <= p < programs.len() && (#[trigger] programs[p]).code == code
}

/// `order` lists the positions below `n` of `programs`, each once, by
/// ascending code.
pub open spec fn codes_ranked(programs: Seq<ProgramView>, n: int, order: Seq<int>) -> bool {
    &&& order.len() == n
    &&& forall|k: int| 0 <= k < order.len() ==> 0 <= #[trigger] order[k] < n
    &&& forall|p: int| 0 <= p < n ==> #[trigger] order.contains(p)
    &&& forall|k: int, l: int|
        0 <= k < l < order.len() ==> code_before(
            programs[#[trigger] order[k]].code,
            programs[#[trigger] order[l]].code,
        )
}

/// `order` lists the positions of `programs`, each once, by ascending code.
pub open spec fn sorted_by_code(programs: Seq<ProgramView>, order: Seq<int>) -> bool {
    codes_ranked(programs, programs.len() as int, order)
}

/// Putting the position `n` into a list of the positions below it, behind the
/// smaller codes and before the larger ones, keeps the list sorted.
proof fn lemma_insert_code(programs: Seq<ProgramView>, n: int, order: Seq<int>, slot: int)
    requires
        0 <= n < programs.len(),
        codes_ranked(programs, n, order),
        0 <= slot <= order.len(),
        forall|k: int|
            0 <= k < slot ==> code_before(programs[#[trigger] order[k]].code, programs[n].code),
        slot < order.len() ==> code_before(programs[n].code, programs[order[slot]].code),
    ensures
        codes_ranked(programs, n + 1, order.insert(slot, n)),
{
    let grown = order.insert(slot, n);
    assert forall|k: int| 0 <= k < grown.len() implies 0 <= #[trigger] grown[k] < n + 1 by {
        if k < slot {
            assert(grown[k] == order[k]);
        } else if k > slot {
            assert(grown[k] == order[k - 1]);
        }
    }
    assert forall|p: int| 0 <= p < n + 1 implies #[trigger] grown.contains(p) by {
        if p == n {
            assert(grown[slot] == n);
        } else {
            assert(order.contains(p));
            let k = choose|k: int| 0 <= k < order.len() && order[k] == p;
            if k < slot {
                assert(grown[k] == p);
            } else {
                assert(grown[k + 1] == p);
            }
        }
    }
    assert forall|k: int, l: int| 0 <= k < l < grown.len() implies code_before(
        programs[#[trigger] grown[k]].code,
        programs[#[trigger] grown[l]].code,
    ) by {
        if l < slot {
            assert(grown[k] == order[k] && grown[l] == order[l]);
        } else if l == slot {
            assert(grown[k] == order[k]);
        } else if k < slot {
            assert(grown[k] == order[k] && grown[l] == order[l - 1]);
        } else if k == slot {
            assert(grown[l] == order[l - 1]);
            if l - 1 > slot {
                assert(code_before(programs[order[slot]].code, programs[order[l - 1]].code));
                lemma_code_before_transitive(
                    programs[n].code,
                    programs[order[slot]].code,
                    programs[order[l - 1]].code,
                );
            }
        } else {
            assert(grown[k] == order[k - 1] && grown[l] == order[l - 1]);
        }
    }
}

/// The configuration of an allocation run: the programs on offer, in the order
/// in which they were added, no code twice.
#[derive(Clone, Debug)]
pub struct ProgramTable {
    programs: Vec<Program>,
}

impl View for ProgramTable {
    type V = Seq<ProgramView>;

    closed spec fn view(&self) -> Seq<ProgramView> {
        Seq::new(self.programs@.len(), |p: int| self.programs@[p]@)
    }
}

impl ProgramTable {
    /// The table's invariant: distinct codes, and for each program a number
    /// of seats from 1 to `i32::MAX`.
    pub open spec fn wf(&self) -> bool {
        distinct_codes(self@) && seats_in_range(self@)
    }

    /// A table without programs.
    pub fn new() -> (table: ProgramTable)
        ensures
            table.wf(),
            table@ == Seq::<ProgramView>::empty(),
    {
        let table = ProgramTable { programs: Vec::new() };
        assert(table@ =~= Seq::<ProgramView>::empty());
        table
    }

    /// The number of programs.
    pub fn len(&self) -> (n: usize)
        ensures
            n == self@.len(),
    {
        self.programs.len()
    }

    /// The program at position `p`.
    pub fn get(&self, p: usize) -> (program: &Program)
        requires
            p < self@.len(),
        ensures
            program@ == self@[p as int],
    {
        &self.programs[p]
    }

    /// The position of the program with code `code`, if the table has one.
    pub fn position(&self, code: &String) -> (found: Option<usize>)
        ensures
            match found {
                Some(p) => p < self@.len() && self@[p as int].code == code@,
                None => !offered(self@, code@),
            },
    {
        let mut p: usize = 0;
        while p < self.programs.len()
            invariant
                0 <= p <= self.programs@.len(),
                forall|q: int| 0 <= q < p ==> (#[trigger] self@[q]).code != code@,
            decreases self.programs@.len() - p,
        {
            if self.programs[p].code == *code {
                return Some(p);
            }
            p = p + 1;
        }
        None
    }

    /// The capacity of the program with code `code`, if the table has one.
    pub fn capacity_of(&self, code: &String) -> (seats: Option<usize>)
        ensures
            match seats {
                Some(n) => exists|p: int|
                    0 <= p < self@.len() && (#[trigger] self@[p]).code == code@
                        && self@[p].capacity == n,
                None => !offered(self@, code@),
            },
    {
        match self.position(code) {
            Some(p) => Some(self.programs[p].capacity),
            None => None,
        }
    }

    /// The positions of the programs, by ascending code.
    pub fn by_code(&self) -> (order: Vec<usize>)
        requires
            self.wf(),
        ensures
            sorted_by_code(self@, positions(order@)),
    {
        let mut order: Vec<usize> = Vec::new();
        let mut n: usize = 0;
        while n < self.programs.len()
            invariant
                self.wf(),
                0 <= n <= self@.len(),
                self@.len() == self.programs@.len(),
                codes_ranked(self@, n as int, positions(order@)),
            decreases self@.len() - n,
        {
            let ghost listed = positions(order@);
            let mut slot: usize = 0;
            let mut placed = false;
            while slot < order.len() && !placed
                invariant
                    self.wf(),
                    0 <= n < self@.len(),
                    self@.len() == self.programs@.len(),
                    listed == positions(order@),
                    codes_ranked(self@, n as int, listed),
                    0 <= slot <= order@.len(),
                    forall|k: int|
                        0 <= k < slot ==> code_before(
                            self@[#[trigger] listed[k]].code,
                            self@[n as int].code,
                        ),
                    placed ==> slot < order@.len() && code_before(
                        self@[n as int].code,
                        self@[listed[slot as int]].code,
                    ),
                decreases order@.len() - slot + if placed { 0int } else { 1int },
            {
                assert(listed[slot as int] == order@[slot as int]);
                let other = order[slot];
                match code_standing(&self.programs[n].code, &self.programs[other].code) {
                    Standing::Before => {
                        placed = true;
                    },
                    Standing::Same => {
                        assert(self@[n as int].code == self@[other as int].code);
                        assert(false);
                    },
                    Standing::After => {
                        slot = slot + 1;
                    },
                }
            }
            proof {
                lemma_insert_code(self@, n as int, listed, slot as int);
            }
            order.insert(slot, n);
            assert(positions(order@) =~= listed.insert(slot as int, n as int));
            n = n + 1;
        }
        order
    }

    /// Adds a program at the end. Nothing is added, and `false` returned, where
    /// the code is already in the table, or the capacity is zero or beyond
    /// `i32::MAX`.
    pub fn insert(&mut self, code: String, name: String, capacity: usize) -> (added: bool)
        requires
            old(self).wf(),
        ensures
            final(self).wf(),
            added <==> !offered(old(self)@, code@) && 1 <= capacity <= i32::MAX,
            added ==> final(self)@ == old(self)@.push(
                ProgramView { code: code@, name: name@, capacity: capacity as nat },
            ),
            !added ==> final(self)@ == old(self)@,
    {
        if capacity == 0 || capacity > i32::MAX as usize {
            return false;
        }
        if self.position(&code).is_some() {
            return false;
        }
        let ghost before = self@;
        let ghost entry = ProgramView { code: code@, name: name@, capacity: capacity as nat };
        self.programs.push(Program { code, name, capacity });
        assert(self@ =~= before.push(entry));
        true
    }
}

/// The programs of the faculty with their seats: ПМ 40, ИВТ 50, ИТСС 30, ИБ 20.
pub fn get_program_limits() -> (table: ProgramTable)
    ensures
        table.wf(),
        table@ == seq![
            ProgramView { code: "ПМ"@, name: "Прикладная математика"@, capacity: 40 },
            ProgramView { code: "ИВТ"@, name: "Информатика и ВТ"@, capacity: 50 },
            ProgramView { code: "ИТСС"@, name: "Связь и телекоммуникации"@, capacity: 30 },
            ProgramView { code: "ИБ"@, name: "Информационная безопасность"@, capacity: 20 },
        ],
{
    proof {
        reveal_strlit("ПМ");
        reveal_strlit("ИВТ");
        reveal_strlit("ИТСС");
        reveal_strlit("ИБ");
    }
    let mut table = ProgramTable::new();
    let a = table.insert(String::from_str("ПМ"), String::from_str("Прикладная математика"), 40);
    assert("ИВТ"@.len() == 3 && "ПМ"@.len() == 2 && "ИТСС"@.len() == 4);
    assert("ИБ"@[1] == 'Б' && "ПМ"@[1] == 'М');
    let b = table.insert(String::from_str("ИВТ"), String::from_str("Информатика и ВТ"), 50);
    let c = table.insert(
        String::from_str("ИТСС"),
        String::from_str("Связь и телекоммуникации"),
        30,
    );
    let d = table.insert(
        String::from_str("ИБ"),
        String::from_str("Информационная безопасность"),
        20,
    );
    assert(a && b && c && d);
    table
}

} // verus!
