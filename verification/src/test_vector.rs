//! Test vectors: boolean tables prepared for a negacyclic look-up.
//!
//! A look-up over the plaintext modulus `p` reads a table at an index below
//! `2p`. Only the lower half `[0, p)` is stored in the look-up itself; at an
//! index of the upper half it yields the negation of the entry `p` below. A
//! constant added to the table and taken off the result again turns that into
//! one of three relations between the halves, the table's type.

use crate::error::{fault, Error, ErrorKind};
use vstd::prelude::*;

verus! {

/// How the upper half `[p, 2p)` of a table relates to its lower half `[0, p)`.
#[derive(Debug, PartialEq, Eq, Clone, Copy, Structural)]
pub enum TestVectorType {
    /// An entry and the one `p` below it differ.
    Half,
    /// An entry and the one `p` below it are both false.
    Zero,
    /// An entry and the one `p` below it are both true.
    One,
}

/// A table of at least `p` and at most `2p` entries together with its type.
#[derive(Debug)]
pub struct TestVector {
    pub val: Vec<bool>,
    pub tv_type: TestVectorType,
}

/// The relation that the entry `a` of the upper half has to the entry `b`
/// that stands `p` below it.
pub open spec fn classify(a: bool, b: bool) -> TestVectorType {
    if a != b {
        TestVectorType::Half
    } else if a {
        TestVectorType::One
    } else {
        TestVectorType::Zero
    }
}

/// The type of a table: the relation of its first entry of the upper half,
/// `Zero` if it has none.
pub open spec fn table_type(val: Seq<bool>, p: int) -> TestVectorType {
    if 0 <= p < val.len() {
        classify(val[p], val[0])
    } else {
        TestVectorType::Zero
    }
}

/// The relation of the entry at `i` to the one `p` below it.
pub open spec fn pair_type(val: Seq<bool>, p: int, i: int) -> TestVectorType {
    classify(val[i], val[i - p])
}

/// Whether every entry of the upper half relates to the one `p` below it as
/// the first does.
pub open spec fn consistent(val: Seq<bool>, p: int) -> bool {
    forall|i: int| p <= i < val.len() ==> #[trigger] pair_type(val, p, i) == table_type(val, p)
}

/// The table filled up with false to `p` entries if it has fewer.
pub open spec fn padded(val: Seq<bool>, p: int) -> Seq<bool> {
    if val.len() < p {
        val + Seq::new((p - val.len()) as nat, |i: int| false)
    } else {
        val
    }
}

/// Whether `r` is what making a test vector of the table `val` for the
/// plaintext modulus `p` gives.
///
/// That fails with `TableTooLong` exactly if the table has more than `2p`
/// entries, and otherwise with `TableInconsistent` exactly if its upper
/// entries do not all have one type. On success the table is the given one,
/// filled up with false to `p` entries.
pub open spec fn is_test_vector_of(val: Seq<bool>, p: int, r: Result<TestVector, Error>) -> bool {
    match r {
        Ok(tv) => {
            &&& val.len() <= 2 * p
            &&& consistent(val, p)
            &&& tv.val@ == padded(val, p)
            &&& tv.tv_type == table_type(val, p)
            &&& tv.well_formed(p)
        },
        Err(e) => if val.len() > 2 * p {
            e@ == fault(ErrorKind::TableTooLong, Seq::empty())
        } else {
            !consistent(val, p) && e@ == fault(ErrorKind::TableInconsistent, Seq::empty())
        },
    }
}

fn find_tv_type(a: bool, b: bool) -> (t: TestVectorType)
    ensures
        t == classify(a, b),
{
    if a != b {
        TestVectorType::Half
    } else if a {
        TestVectorType::One
    } else {
        TestVectorType::Zero
    }
}

impl TestVector {
    /// Whether this is a test vector for the plaintext modulus `p`: between
    /// `p` and `2p` entries, the upper ones all of the recorded type.
    pub open spec fn well_formed(&self, p: int) -> bool {
        &&& p <= self.val@.len() <= 2 * p
        &&& consistent(self.val@, p)
        &&& self.tv_type == table_type(self.val@, p)
    }

    /// The test vector of the table `val` for the plaintext modulus `pt_mod`,
    /// or why there is none: see [`is_test_vector_of`].
    pub fn new(val: Vec<bool>, pt_mod: usize) -> (r: Result<TestVector, Error>)
        ensures
            is_test_vector_of(val@, pt_mod as int, r),
    {
        let p = pt_mod;
        if val.len() / 2 > p || (val.len() / 2 == p && val.len() % 2 == 1) {
            return Err(Error::bare(ErrorKind::TableTooLong));
        }
        let mut tv_type = TestVectorType::Zero;
        if p < val.len() {
            tv_type = find_tv_type(val[p], val[0]);
        }
        let mut i: usize = p;
        while i < val.len()
            invariant
                p == pt_mod,
                p <= i,
                val.len() <= 2 * p,
                tv_type == table_type(val@, p as int),
                forall|k: int| p <= k < i ==> #[trigger] pair_type(val@, p as int, k) == tv_type,
            decreases val.len() - i,
        {
            let found = find_tv_type(val[i], val[i - p]);
            if found != tv_type {
                assert(pair_type(val@, p as int, i as int) != table_type(val@, p as int));
                return Err(Error::bare(ErrorKind::TableInconsistent));
            }
            i += 1;
        }
        let mut filled = val;
        while filled.len() < p
            invariant
                val.len() <= filled.len(),
                filled.len() <= p || filled@ == val@,
                filled@ =~= val@ + Seq::new((filled.len() - val.len()) as nat, |i: int| false),
            decreases p - filled.len(),
        {
            filled.push(false);
        }
        let tv = TestVector { val: filled, tv_type };
        assert(tv.val@ =~= padded(val@, p as int));
        assert(tv.well_formed(p as int)) by {
            assert forall|i: int| p <= i < tv.val@.len() implies #[trigger] pair_type(
                tv.val@,
                p as int,
                i,
            ) == table_type(tv.val@, p as int) by {
                assert(pair_type(val@, p as int, i) == table_type(val@, p as int));
            }
        }
        Ok(tv)
    }

    /// The table's entry at `idx` as a number: 1 for true, 0 for false.
    pub fn test_vec_fnc(&self, idx: u64) -> (bit: u64)
        requires
            idx < self.val@.len(),
        ensures
            bit == if self.val@[idx as int] { 1u64 } else { 0u64 },
    {
        let len = self.val.len();
        assert(idx < len);
        if self.val[idx as usize] {
            1
        } else {
            0
        }
    }
}

} // verus!
