//! The order of program codes: that of the dictionary, character by character.

use vstd::prelude::*;
use vstd::string::*;

verus! {

/// `a` and `b` agree on their first `k` characters, and then `a` ends while
/// `b` goes on, or `a` goes on with the smaller character.
pub open spec fn parts_at(a: Seq<char>, b: Seq<char>, k: int) -> bool {
    &&& 0 <= k <= a.len()
    &&& k <= b.len()
    &&& forall|j: int| 0 <= j < k ==> a[j] == b[j]
    &&& if k == a.len() {
        k < b.len()
    } else {
        k < b.len() && (a[k] as u32) < (b[k] as u32)
    }
}

/// `a` stands before `b` in dictionary order.
#[verifier::opaque]
pub open spec fn code_before(a: Seq<char>, b: Seq<char>) -> bool {
    exists|k: int| parts_at(a, b, k)
}

/// How one code stands to another.
#[derive(Clone, Copy, Debug, PartialEq, Eq)]
pub enum Standing {
    Before,
    Same,
    After,
}

/// No code stands before itself.
pub proof fn lemma_code_before_strict(a: Seq<char>)
    ensures
        !code_before(a, a),
{
    reveal(code_before);
}

/// Dictionary order is transitive.
pub proof fn lemma_code_before_transitive(a: Seq<char>, b: Seq<char>, c: Seq<char>)
    requires
        code_before(a, b),
        code_before(b, c),
    ensures
        code_before(a, c),
{
    reveal(code_before);
    let k = choose|k: int| parts_at(a, b, k);
    let l = choose|l: int| parts_at(b, c, l);
    if k <= l {
        assert(parts_at(a, c, k));
    } else {
        assert(parts_at(a, c, l));
    }
}

/// Compares two codes in dictionary order.
pub fn code_standing(a: &String, b: &String) -> (standing: Standing)
    ensures
        match standing {
            Standing::Before => code_before(a@, b@),
            Standing::Same => a@ == b@,
            Standing::After => code_before(b@, a@),
        },
{
    let left = a.as_str();
    let right = b.as_str();
    let left_len = left.unicode_len();
    let right_len = right.unicode_len();
    let mut k: usize = 0;
    while k < left_len && k < right_len
        invariant
            left@ == a@,
            right@ == b@,
            left_len == a@.len(),
            right_len == b@.len(),
            0 <= k <= left_len,
            k <= right_len,
            forall|j: int| 0 <= j < k ==> a@[j] == b@[j],
        decreases left_len - k,
    {
        let x = left.get_char(k);
        let y = right.get_char(k);
        proof {
            reveal(code_before);
        }
        if x < y {
            assert(parts_at(a@, b@, k as int));
            return Standing::Before;
        }
        if y < x {
            assert(parts_at(b@, a@, k as int));
            return Standing::After;
        }
        assert(x == y);
        k = k + 1;
    }
    proof {
        reveal(code_before);
    }
    if left_len < right_len {
        assert(parts_at(a@, b@, k as int));
        Standing::Before
    } else if right_len < left_len {
        assert(parts_at(b@, a@, k as int));
        Standing::After
    } else {
        assert(a@ =~= b@);
        Standing::Same
    }
}

} // verus!
