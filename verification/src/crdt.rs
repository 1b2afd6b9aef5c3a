//! State-based CRDT primitives: the merge trait with its algebraic laws, the
//! last-writer-wins register, and the monotone boolean. Every implementation
//! proves that its merge is commutative, associative and (on well-formed
//! values) idempotent, so replicas converge whatever the delivery order.

use vstd::prelude::*;
use crate::data::now_msec;
use crate::order::key_lt;
use crate::order::lemma_key_lt_trichotomy;
use crate::order::lemma_key_lt_trans;

verus! {

/// A state-based CRDT. `merged` is the mathematical merge on models
/// (deep views); `merge` is the executable operation. The proof obligations
/// make every implementation a join: commutative, associative, and idempotent
/// on values satisfying the type's invariant.
pub trait CRDT: DeepView + Sized {
    /// Internal consistency of a model; constructors establish it and
    /// `merge` preserves it.
    spec fn inv(m: Self::V) -> bool;

    /// The merge, as a function on models.
    spec fn merged(a: Self::V, b: Self::V) -> Self::V;

    proof fn lemma_merged_comm(a: Self::V, b: Self::V)
        ensures
            Self::merged(a, b) == Self::merged(b, a),
    ;

    proof fn lemma_merged_assoc(a: Self::V, b: Self::V, c: Self::V)
        ensures
            Self::merged(Self::merged(a, b), c) == Self::merged(a, Self::merged(b, c)),
    ;

    proof fn lemma_merged_idem(a: Self::V)
        requires
            Self::inv(a),
        ensures
            Self::merged(a, a) == a,
    ;

    proof fn lemma_merged_inv(a: Self::V, b: Self::V)
        requires
            Self::inv(a),
            Self::inv(b),
        ensures
            Self::inv(Self::merged(a, b)),
    ;

    fn merge(&mut self, other: &Self)
        requires
            Self::inv(old(self).deep_view()),
            Self::inv(other.deep_view()),
        ensures
            final(self).deep_view() == Self::merged(old(self).deep_view(), other.deep_view()),
    ;

    /// A copy with the same model.
    fn dup(&self) -> (r: Self)
        ensures
            r.deep_view() == self.deep_view(),
    ;
}

/// Folding a sequence of models into an accumulator, merging left to right:
/// the state a replica reaches after receiving `s` in that order.
pub open spec fn merge_all<T: CRDT>(m: T::V, s: Seq<T::V>) -> T::V {
    s.fold_left(m, |acc: T::V, x: T::V| T::merged(acc, x))
}

/// Delivery order does not matter: folding any two permutations of the same
/// collection of states into the same start state gives the same result.
pub proof fn lemma_merge_all_permutation<T: CRDT>(m: T::V, s1: Seq<T::V>, s2: Seq<T::V>)
    requires
        s1.to_multiset() == s2.to_multiset(),
    ensures
        merge_all::<T>(m, s1) == merge_all::<T>(m, s2),
{
    let f = |acc: T::V, x: T::V| T::merged(acc, x);
    assert forall|x: T::V, y: T::V, v: T::V| #[trigger] f(f(v, x), y) == f(f(v, y), x) by {
        T::lemma_merged_assoc(v, x, y);
        T::lemma_merged_assoc(v, y, x);
        T::lemma_merged_comm(x, y);
    }
    assert(vstd::seq_lib::commutative_foldl(f));
    vstd::seq_lib::lemma_fold_left_permutation(s1, s2, f, m);
}

/// Merging a state into itself twice is the same as merging it once: applying
/// the same update again changes nothing.
pub proof fn lemma_merge_idempotent<T: CRDT>(a: T::V, b: T::V)
    requires
        T::inv(a),
        T::inv(b),
    ensures
        T::merged(T::merged(a, b), b) == T::merged(a, b),
{
    T::lemma_merged_assoc(a, b, b);
    T::lemma_merged_idem(b);
}

// ---- Monotone boolean ----

/// A boolean in which `true` is absorbing: merge is logical or, so once set
/// the flag persists across every merge.
#[derive(Clone, Copy, Debug, PartialEq, Eq, Structural)]
pub struct Bool {
    flag: bool,
}

impl DeepView for Bool {
    type V = bool;

    closed spec fn deep_view(&self) -> bool {
        self.flag
    }
}

impl Bool {
    pub fn new(b: bool) -> (r: Self)
        ensures
            r.deep_view() == b,
    {
        Bool { flag: b }
    }

    pub fn set(&mut self)
        ensures
            final(self).deep_view() == true,
    {
        self.flag = true;
    }

    pub fn get(&self) -> (r: bool)
        ensures
            r == self.deep_view(),
    {
        self.flag
    }
}

impl CRDT for Bool {
    open spec fn inv(m: bool) -> bool {
        true
    }

    open spec fn merged(a: bool, b: bool) -> bool {
        a || b
    }

    proof fn lemma_merged_comm(a: bool, b: bool) {
    }

    proof fn lemma_merged_assoc(a: bool, b: bool, c: bool) {
    }

    proof fn lemma_merged_idem(a: bool) {
    }

    proof fn lemma_merged_inv(a: bool, b: bool) {
    }

    fn merge(&mut self, other: &Self) {
        self.flag = self.flag || other.flag;
    }

    fn dup(&self) -> (r: Self) {
        Bool { flag: self.flag }
    }
}

// ---- Totally ordered values merged by maximum ----

/// The code points of a string, as the integer sequence its lexicographic
/// order is read from.
pub open spec fn str_code(s: Seq<char>) -> Seq<int> {
    s.map(|i: int, c: char| c as int)
}

/// Strict lexicographic order on strings.
pub open spec fn str_lt(a: Seq<char>, b: Seq<char>) -> bool {
    key_lt(str_code(a), str_code(b))
}

/// The larger of two strings in lexicographic order.
pub open spec fn str_max(a: Seq<char>, b: Seq<char>) -> Seq<char> {
    if str_lt(a, b) {
        b
    } else {
        a
    }
}

/// Strings with the same code points are equal.
pub proof fn lemma_str_code_injective(a: Seq<char>, b: Seq<char>)
    requires
        str_code(a) == str_code(b),
    ensures
        a == b,
{
    assert(a.len() == str_code(a).len());
    assert(b.len() == str_code(b).len());
    assert forall|i: int| 0 <= i < a.len() implies a[i] == b[i] by {
        assert(str_code(a)[i] == a[i] as int);
        assert(str_code(b)[i] == b[i] as int);
    }
    assert(a =~= b);
}

/// `str_max` is a join: commutative, associative, idempotent.
pub proof fn lemma_str_max_comm(a: Seq<char>, b: Seq<char>)
    ensures
        str_max(a, b) == str_max(b, a),
{
    lemma_key_lt_trichotomy(str_code(a), str_code(b));
    if !str_lt(a, b) && !str_lt(b, a) {
        lemma_str_code_injective(a, b);
    }
}

pub proof fn lemma_str_max_assoc(a: Seq<char>, b: Seq<char>, c: Seq<char>)
    ensures
        str_max(str_max(a, b), c) == str_max(a, str_max(b, c)),
{
    lemma_key_lt_trichotomy(str_code(a), str_code(b));
    lemma_key_lt_trichotomy(str_code(b), str_code(c));
    lemma_key_lt_trichotomy(str_code(a), str_code(c));
    if str_lt(a, b) && str_lt(b, c) {
        lemma_key_lt_trans(str_code(a), str_code(b), str_code(c));
    }
    if str_lt(c, b) && str_lt(b, a) {
        lemma_key_lt_trans(str_code(c), str_code(b), str_code(a));
    }
    if !str_lt(a, b) && !str_lt(b, a) {
        lemma_str_code_injective(a, b);
    }
    if !str_lt(b, c) && !str_lt(c, b) {
        lemma_str_code_injective(b, c);
    }
    if !str_lt(a, c) && !str_lt(c, a) {
        lemma_str_code_injective(a, c);
    }
}

/// Lexicographic comparison of two strings, by code point.
pub fn str_less(a: &str, b: &str) -> (r: bool)
    ensures
        r == str_lt(a@, b@),
{
    let a_len = a.unicode_len();
    let b_len = b.unicode_len();
    let mut i: usize = 0;
    proof {
        assert(str_code(a@).skip(0) =~= str_code(a@));
        assert(str_code(b@).skip(0) =~= str_code(b@));
    }
    loop
        invariant
            i <= a_len,
            i <= b_len,
            a_len == a@.len(),
            b_len == b@.len(),
            forall|j: int| 0 <= j < i ==> a@[j] == b@[j],
            str_lt(a@, b@) == key_lt(str_code(a@).skip(i as int), str_code(b@).skip(i as int)),
        decreases a_len - i,
    {
        proof {
            assert(str_code(a@).skip(i as int).len() == a@.len() - i);
            assert(str_code(b@).skip(i as int).len() == b@.len() - i);
        }
        if i >= a_len {
            return i < b_len;
        }
        if i >= b_len {
            return false;
        }
        let ca = a.get_char(i);
        let cb = b.get_char(i);
        proof {
            let ta = str_code(a@).skip(i as int);
            let tb = str_code(b@).skip(i as int);
            assert(ta[0] == ca as int);
            assert(tb[0] == cb as int);
            assert(ta.drop_first() =~= str_code(a@).skip(i as int + 1));
            assert(tb.drop_first() =~= str_code(b@).skip(i as int + 1));
        }
        if (ca as u32) < (cb as u32) {
            return true;
        }
        if (ca as u32) > (cb as u32) {
            return false;
        }
        proof {
            assert(ca as int == cb as int);
            assert(ca == cb) by {
                assert(ca as u32 == cb as u32);
            }
        }
        i = i + 1;
    }
}

impl CRDT for String {
    open spec fn inv(m: Seq<char>) -> bool {
        true
    }

    open spec fn merged(a: Seq<char>, b: Seq<char>) -> Seq<char> {
        str_max(a, b)
    }

    proof fn lemma_merged_comm(a: Seq<char>, b: Seq<char>) {
        lemma_str_max_comm(a, b);
    }

    proof fn lemma_merged_assoc(a: Seq<char>, b: Seq<char>, c: Seq<char>) {
        lemma_str_max_assoc(a, b, c);
    }

    proof fn lemma_merged_idem(a: Seq<char>) {
    }

    proof fn lemma_merged_inv(a: Seq<char>, b: Seq<char>) {
    }

    fn merge(&mut self, other: &Self) {
        if str_less(self.as_str(), other.as_str()) {
            *self = other.clone();
        }
    }

    fn dup(&self) -> (r: Self) {
        self.clone()
    }
}

// ---- Last-writer-wins register ----

/// The model of an [`LWW`] register: a timestamp and the model of the value.
pub ghost struct LwwModel<M> {
    pub ts: int,
    pub v: M,
}

/// A last-writer-wins register: a value stamped with the time it was written.
/// Merge keeps the younger side; on a timestamp tie the values themselves are
/// merged, so the outcome never depends on which replica speaks first.
pub struct LWW<T> {
    ts: u64,
    v: T,
}

impl<T: DeepView> DeepView for LWW<T> {
    type V = LwwModel<T::V>;

    closed spec fn deep_view(&self) -> LwwModel<T::V> {
        LwwModel { ts: self.ts as int, v: self.v.deep_view() }
    }
}

impl<T: CRDT> LWW<T> {
    /// A register holding `value`, stamped with the current wall clock.
    pub fn new(value: T) -> (r: Self)
        requires
            T::inv(value.deep_view()),
        ensures
            r.deep_view().v == value.deep_view(),
            Self::inv(r.deep_view()),
    {
        LWW { ts: now_msec(), v: value }
    }

    /// A register rebuilt from a stored timestamp and value.
    pub fn migrate_from_raw(ts: u64, value: T) -> (r: Self)
        requires
            T::inv(value.deep_view()),
        ensures
            r.deep_view() == (LwwModel { ts: ts as int, v: value.deep_view() }),
            Self::inv(r.deep_view()),
    {
        LWW { ts, v: value }
    }

    /// Overwrite the value. The new timestamp is the wall clock, but at least
    /// one past the old stamp, so a write on one node always advances even
    /// under a stalled clock.
    pub fn update(&mut self, new_value: T)
        requires
            old(self).deep_view().ts < u64::MAX,
            T::inv(new_value.deep_view()),
        ensures
            final(self).deep_view().v == new_value.deep_view(),
            final(self).deep_view().ts > old(self).deep_view().ts,
            Self::inv(final(self).deep_view()),
    {
        let clock = now_msec();
        let bumped = self.ts + 1;
        self.ts = if clock > bumped {
            clock
        } else {
            bumped
        };
        self.v = new_value;
    }

    pub fn get(&self) -> (r: &T)
        ensures
            r.deep_view() == self.deep_view().v,
    {
        &self.v
    }
}

impl<T: CRDT> CRDT for LWW<T> {
    open spec fn inv(m: LwwModel<T::V>) -> bool {
        T::inv(m.v)
    }

    open spec fn merged(a: LwwModel<T::V>, b: LwwModel<T::V>) -> LwwModel<T::V> {
        if b.ts > a.ts {
            b
        } else if a.ts > b.ts {
            a
        } else {
            LwwModel { ts: a.ts, v: T::merged(a.v, b.v) }
        }
    }

    proof fn lemma_merged_comm(a: LwwModel<T::V>, b: LwwModel<T::V>) {
        if a.ts == b.ts {
            T::lemma_merged_comm(a.v, b.v);
        }
    }

    proof fn lemma_merged_assoc(a: LwwModel<T::V>, b: LwwModel<T::V>, c: LwwModel<T::V>) {
        if a.ts == b.ts && b.ts == c.ts {
            T::lemma_merged_assoc(a.v, b.v, c.v);
        }
    }

    proof fn lemma_merged_idem(a: LwwModel<T::V>) {
        T::lemma_merged_idem(a.v);
    }

    proof fn lemma_merged_inv(a: LwwModel<T::V>, b: LwwModel<T::V>) {
        if a.ts == b.ts {
            T::lemma_merged_inv(a.v, b.v);
        }
    }

    fn merge(&mut self, other: &Self) {
        if other.ts > self.ts {
            self.ts = other.ts;
            self.v = other.v.dup();
        } else if other.ts == self.ts {
            self.v.merge(&other.v);
        }
    }

    fn dup(&self) -> (r: Self) {
        LWW { ts: self.ts, v: self.v.dup() }
    }
}

} // verus!
