//! Facts about floating-point terms that an assertion states, as found by a scan of it.
use crate::maps::map_get;
use crate::maps::map_insert;
use crate::maps::map_keys;
use crate::maps::map_new;
use crate::maps::set_elements;
use crate::maps::set_insert;
use crate::maps::set_new;
use crate::maps::triple_map_get;
use crate::maps::triple_map_insert;
use crate::maps::triple_map_keys;
use crate::maps::triple_map_new;
use crate::term::TermId;
use rustc_hash::FxHashMap;
use rustc_hash::FxHashSet;
use vstd::prelude::*;

verus! {

/// How a result between two floating-point numbers is rounded.
#[derive(Clone, Copy, Debug, PartialEq, Eq, Structural)]
pub enum RoundingMode {
    NearestEven,
    NearestAway,
    TowardPositive,
    TowardNegative,
    TowardZero,
}

/// The number of a rounding mode.
pub open spec fn mode_number(r: RoundingMode) -> u8 {
    match r {
        RoundingMode::NearestEven => 0,
        RoundingMode::NearestAway => 1,
        RoundingMode::TowardPositive => 2,
        RoundingMode::TowardNegative => 3,
        RoundingMode::TowardZero => 4,
    }
}

impl RoundingMode {
    /// The number of a rounding mode.
    pub fn number(self) -> (n: u8)
        ensures
            n == mode_number(self),
    {
        match self {
            RoundingMode::NearestEven => 0,
            RoundingMode::NearestAway => 1,
            RoundingMode::TowardPositive => 2,
            RoundingMode::TowardNegative => 3,
            RoundingMode::TowardZero => 4,
        }
    }
}

/// A result, two operands, the term of the operation, and how it is rounded.
pub type Rounded = (TermId, TermId, TermId, TermId, RoundingMode);

/// The facts.
#[derive(Debug)]
pub struct FpConstraintData {
    pub additions: Vec<Rounded>,
    pub divisions: Vec<Rounded>,
    pub multiplications: Vec<Rounded>,
    pub comparisons: Vec<(TermId, TermId, bool)>,
    pub equalities: Vec<(TermId, TermId)>,
    /// Literals, by the bits of their values in double precision.
    pub literals: FxHashMap<usize, u64>,
    /// The term that a sum of two terms has as its result, by the number of the rounding mode.
    pub rounding_add_results: FxHashMap<(usize, usize, u8), TermId>,
    pub is_zero: FxHashSet<usize>,
    pub is_positive: FxHashSet<usize>,
    pub is_negative: FxHashSet<usize>,
    pub not_nan: FxHashSet<usize>,
    pub gt_comparisons: Vec<(TermId, TermId)>,
    pub lt_comparisons: Vec<(TermId, TermId)>,
    pub conversions: Vec<(TermId, u32, u32, TermId)>,
    pub real_to_fp_conversions: Vec<(TermId, u32, u32, TermId)>,
    pub subtractions: Vec<(TermId, TermId, TermId)>,
}

/// A list with another one behind it.
fn append_copy<E: Copy>(a: &mut Vec<E>, b: &Vec<E>)
    ensures
        final(a)@ == old(a)@ + b@,
{
    let mut i: usize = 0;
    while i < b.len()
        invariant
            i <= b.len(),
            a@ == old(a)@ + b@.take(i as int),
        decreases b.len() - i,
    {
        a.push(b[i]);
        assert(a@ =~= old(a)@ + b@.take(i + 1));
        i = i + 1;
    }
    assert(b@.take(i as int) =~= b@);
}

/// A map with the entries of another one, which prevail.
fn add_entries(a: &mut FxHashMap<usize, u64>, b: &FxHashMap<usize, u64>)
    ensures
        final(a)@ == old(a)@.union_prefer_right(b@),
{
    let keys = map_keys(b);
    let mut i: usize = 0;
    while i < keys.len()
        invariant
            i <= keys.len(),
            keys@.no_duplicates(),
            forall|k: usize| keys@.contains(k) <==> b@.contains_key(k),
            forall|k: usize| #[trigger] a@.contains_key(k) <==> old(a)@.contains_key(k) || keys@.take(i as int).contains(k),
            forall|k: usize| #[trigger] a@.contains_key(k) ==> a@[k] == if keys@.take(i as int).contains(k) {
                b@[k]
            } else {
                old(a)@[k]
            },
        decreases keys.len() - i,
    {
        let k: usize = keys[i];
        proof {
            assert(keys@.contains(k));
            lemma_take_next(keys@, i as int);
        }
        if let Some(v) = map_get(b, k) {
            map_insert(a, k, *v);
        }
        i = i + 1;
    }
    proof {
        assert(keys@.take(i as int) =~= keys@);
        assert(a@ =~= old(a)@.union_prefer_right(b@));
    }
}

/// The same for sums.
fn add_sums(a: &mut FxHashMap<(usize, usize, u8), TermId>, b: &FxHashMap<(usize, usize, u8), TermId>)
    ensures
        final(a)@ == old(a)@.union_prefer_right(b@),
{
    let keys = triple_map_keys(b);
    let mut i: usize = 0;
    while i < keys.len()
        invariant
            i <= keys.len(),
            keys@.no_duplicates(),
            forall|k: (usize, usize, u8)| keys@.contains(k) <==> b@.contains_key(k),
            forall|k: (usize, usize, u8)| #[trigger]
                a@.contains_key(k) <==> old(a)@.contains_key(k) || keys@.take(i as int).contains(k),
            forall|k: (usize, usize, u8)| #[trigger] a@.contains_key(k) ==> a@[k] == if keys@.take(i as int).contains(k) {
                b@[k]
            } else {
                old(a)@[k]
            },
        decreases keys.len() - i,
    {
        let k = keys[i];
        proof {
            assert(keys@.contains(k));
            lemma_take_next(keys@, i as int);
        }
        if let Some(v) = triple_map_get(b, k) {
            triple_map_insert(a, k, *v);
        }
        i = i + 1;
    }
    proof {
        assert(keys@.take(i as int) =~= keys@);
        assert(a@ =~= old(a)@.union_prefer_right(b@));
    }
}

/// A set with the elements of another one.
fn add_elements(a: &mut FxHashSet<usize>, b: &FxHashSet<usize>)
    ensures
        final(a)@ == old(a)@.union(b@),
{
    let list = set_elements(b);
    let mut i: usize = 0;
    while i < list.len()
        invariant
            i <= list.len(),
            forall|k: usize| list@.contains(k) <==> b@.contains(k),
            forall|k: usize| #[trigger] a@.contains(k) <==> old(a)@.contains(k) || list@.take(i as int).contains(k),
        decreases list.len() - i,
    {
        proof {
            lemma_take_next(list@, i as int);
        }
        let _ = set_insert(a, list[i]);
        i = i + 1;
    }
    proof {
        assert(list@.take(i as int) =~= list@);
        assert(a@ =~= old(a)@.union(b@));
    }
}

/// What the first elements of a list are, with one more.
proof fn lemma_take_next<E>(s: Seq<E>, i: int)
    requires
        0 <= i < s.len(),
    ensures
        forall|x: E| #[trigger] s.take(i + 1).contains(x) <==> s.take(i).contains(x) || x == s[i],
{
    assert forall|x: E| #[trigger] s.take(i + 1).contains(x) <==> s.take(i).contains(x) || x == s[i] by {
        if s.take(i + 1).contains(x) {
            let more = s.take(i + 1);
            let j = choose|j: int| 0 <= j < more.len() && more[j] == x;
            if j < i {
                assert(s.take(i)[j] == x);
            }
        }
        if s.take(i).contains(x) {
            let j = choose|j: int| 0 <= j < i && s.take(i)[j] == x;
            assert(s.take(i + 1)[j] == x);
        }
        assert(s.take(i + 1)[i] == s[i]);
    }
}

impl FpConstraintData {
    /// No fact.
    pub fn new() -> (r: FpConstraintData)
        ensures
            r.additions@.len() == 0,
            r.divisions@.len() == 0,
            r.multiplications@.len() == 0,
            r.comparisons@.len() == 0,
            r.equalities@.len() == 0,
            (r.literals@ == Map::<usize, u64>::empty()),
            (r.rounding_add_results@ == Map::<(usize, usize, u8), TermId>::empty()),
            r.is_zero@ == Set::<usize>::empty(),
            r.is_positive@ == Set::<usize>::empty(),
            r.is_negative@ == Set::<usize>::empty(),
            r.not_nan@ == Set::<usize>::empty(),
            r.gt_comparisons@.len() == 0,
            r.lt_comparisons@.len() == 0,
            r.conversions@.len() == 0,
            r.real_to_fp_conversions@.len() == 0,
            r.subtractions@.len() == 0,
    {
        FpConstraintData {
            additions: Vec::new(),
            divisions: Vec::new(),
            multiplications: Vec::new(),
            comparisons: Vec::new(),
            equalities: Vec::new(),
            literals: map_new(),
            rounding_add_results: triple_map_new(),
            is_zero: set_new(),
            is_positive: set_new(),
            is_negative: set_new(),
            not_nan: set_new(),
            gt_comparisons: Vec::new(),
            lt_comparisons: Vec::new(),
            conversions: Vec::new(),
            real_to_fp_conversions: Vec::new(),
            subtractions: Vec::new(),
        }
    }

    /// Whether there is no operation, comparison or equality.
    pub fn is_empty(&self) -> (r: bool)
        ensures
            r == (self.additions@.len() == 0 && self.divisions@.len() == 0 && self.multiplications@.len() == 0
                && self.comparisons@.len() == 0 && self.equalities@.len() == 0),
    {
        self.additions.len() == 0 && self.divisions.len() == 0 && self.multiplications.len() == 0 && self.comparisons.len() == 0
            && self.equalities.len() == 0
    }

    /// Adds the facts of another scan.
    pub fn merge(&mut self, other: &FpConstraintData)
        ensures
            final(self).additions@ == old(self).additions@ + other.additions@,
            final(self).divisions@ == old(self).divisions@ + other.divisions@,
            final(self).multiplications@ == old(self).multiplications@ + other.multiplications@,
            final(self).comparisons@ == old(self).comparisons@ + other.comparisons@,
            final(self).equalities@ == old(self).equalities@ + other.equalities@,
            final(self).literals@ == old(self).literals@.union_prefer_right(other.literals@),
            final(self).rounding_add_results@ == old(self).rounding_add_results@.union_prefer_right(other.rounding_add_results@),
            final(self).is_zero@ == old(self).is_zero@.union(other.is_zero@),
            final(self).is_positive@ == old(self).is_positive@.union(other.is_positive@),
            final(self).is_negative@ == old(self).is_negative@.union(other.is_negative@),
            final(self).not_nan@ == old(self).not_nan@.union(other.not_nan@),
            final(self).gt_comparisons@ == old(self).gt_comparisons@ + other.gt_comparisons@,
            final(self).lt_comparisons@ == old(self).lt_comparisons@ + other.lt_comparisons@,
            final(self).conversions@ == old(self).conversions@ + other.conversions@,
            final(self).real_to_fp_conversions@ == old(self).real_to_fp_conversions@ + other.real_to_fp_conversions@,
            final(self).subtractions@ == old(self).subtractions@ + other.subtractions@,
    {
        append_copy(&mut self.additions, &other.additions);
        append_copy(&mut self.divisions, &other.divisions);
        append_copy(&mut self.multiplications, &other.multiplications);
        append_copy(&mut self.comparisons, &other.comparisons);
        append_copy(&mut self.equalities, &other.equalities);
        add_entries(&mut self.literals, &other.literals);
        add_sums(&mut self.rounding_add_results, &other.rounding_add_results);
        add_elements(&mut self.is_zero, &other.is_zero);
        add_elements(&mut self.is_positive, &other.is_positive);
        add_elements(&mut self.is_negative, &other.is_negative);
        add_elements(&mut self.not_nan, &other.not_nan);
        append_copy(&mut self.gt_comparisons, &other.gt_comparisons);
        append_copy(&mut self.lt_comparisons, &other.lt_comparisons);
        append_copy(&mut self.conversions, &other.conversions);
        append_copy(&mut self.real_to_fp_conversions, &other.real_to_fp_conversions);
        append_copy(&mut self.subtractions, &other.subtractions);
    }
}

impl Default for FpConstraintData {
    fn default() -> (r: FpConstraintData)
        ensures
            r.additions@.len() == 0,
            r.divisions@.len() == 0,
            r.multiplications@.len() == 0,
            r.comparisons@.len() == 0,
            r.equalities@.len() == 0,
            (r.literals@ == Map::<usize, u64>::empty()),
            (r.rounding_add_results@ == Map::<(usize, usize, u8), TermId>::empty()),
            r.is_zero@ == Set::<usize>::empty(),
            r.is_positive@ == Set::<usize>::empty(),
            r.is_negative@ == Set::<usize>::empty(),
            r.not_nan@ == Set::<usize>::empty(),
            r.gt_comparisons@.len() == 0,
            r.lt_comparisons@.len() == 0,
            r.conversions@.len() == 0,
            r.real_to_fp_conversions@.len() == 0,
            r.subtractions@.len() == 0,
    {
        FpConstraintData::new()
    }
}

/// Every rounding mode has a number of its own, below five, and the two that round to the nearest come
/// first.
pub proof fn law_rounding_modes_are_told_apart(a: RoundingMode, b: RoundingMode)
    ensures
        mode_number(a) == mode_number(b) <==> a == b,
        mode_number(a) < 5,
        a is NearestEven || a is NearestAway <==> mode_number(a) < 2,
{
}

} // verus!
