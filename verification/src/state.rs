//! Atomic states and superpositions of them.

use bit_vec::BitVec;
use vstd::prelude::*;

verus! {

/// `bit_vec::BitVec`, a vector of bits that are packed into blocks. Nothing
/// is known of a value but what the functions below say of its bits.
#[verifier::external_type_specification]
#[verifier::external_body]
#[verifier::reject_recursive_types(B)]
pub struct ExBitVec<B>(BitVec<B>);

/// The bits of a bit vector, in index order.
pub uninterp spec fn bits(v: BitVec<u64>) -> Seq<bool>;

/// Number of `true` entries of `s`.
pub open spec fn count_true(s: Seq<bool>) -> nat
    decreases s.len(),
{
    if s.len() == 0 {
        0
    } else {
        count_true(s.drop_last()) + if s.last() {
            1nat
        } else {
            0nat
        }
    }
}

/// Bit `k` of the block `w`.
pub open spec fn block_bit(w: u64, k: u64) -> bool {
    w & (1u64 << k) != 0
}

/// `blocks` is the packed form of `s`: sixty-four bits to a block, lowest
/// index in the lowest bit, no block more than needed and nothing set past
/// the end of `s`.
pub open spec fn packs(s: Seq<bool>, blocks: Seq<u64>) -> bool {
    &&& blocks.len() == (s.len() + 63) / 64
    &&& forall|i: int|
        0 <= i < blocks.len() * 64 ==> (#[trigger] block_bit(blocks[i / 64], (i % 64) as u64)
            <==> (i < s.len() && s[i]))
}

/// `BitVec::from_elem_general`: a vector of `len` bits, each equal to `bit`.
#[verifier::external_body]
fn bv_from_elem(len: usize, bit: bool) -> (r: BitVec<u64>)
    ensures
        bits(r) == Seq::new(len as nat, |i: int| bit),
{
    BitVec::from_elem_general(len, bit)
}

/// `BitVec::len`: the number of bits held.
#[verifier::external_body]
fn bv_len(v: &BitVec<u64>) -> (r: usize)
    ensures
        r == bits(*v).len(),
{
    v.len()
}

/// `BitVec::get`: the bit at `i`, or `None` past the end.
#[verifier::external_body]
fn bv_get(v: &BitVec<u64>, i: usize) -> (r: Option<bool>)
    ensures
        r == if i < bits(*v).len() {
            Some(bits(*v)[i as int])
        } else {
            None
        },
{
    v.get(i)
}

/// `BitVec::set`: overwrites the bit at `i`, which must exist, and leaves
/// every other bit as it was.
#[verifier::external_body]
fn bv_set(v: &mut BitVec<u64>, i: usize, x: bool)
    requires
        i < bits(*old(v)).len(),
    ensures
        bits(*final(v)) == bits(*old(v)).update(i as int, x),
    no_unwind
{
    v.set(i, x)
}

/// `BitVec::count_ones`: how many bits are set.
#[verifier::external_body]
fn bv_count_ones(v: &BitVec<u64>) -> (r: u64)
    ensures
        r == count_true(bits(*v)),
{
    v.count_ones()
}

/// `BitVec::or`: bitwise or with a vector of the same length, in place.
#[verifier::external_body]
fn bv_or(v: &mut BitVec<u64>, other: &BitVec<u64>)
    requires
        bits(*old(v)).len() == bits(*other).len(),
    ensures
        bits(*final(v)) == Seq::new(
            bits(*old(v)).len(),
            |i: int| bits(*old(v))[i] || bits(*other)[i],
        ),
    no_unwind
{
    v.or(other);
}

/// `BitVec::and`: bitwise and with a vector of the same length, in place.
#[verifier::external_body]
fn bv_and(v: &mut BitVec<u64>, other: &BitVec<u64>)
    requires
        bits(*old(v)).len() == bits(*other).len(),
    ensures
        bits(*final(v)) == Seq::new(
            bits(*old(v)).len(),
            |i: int| bits(*old(v))[i] && bits(*other)[i],
        ),
    no_unwind
{
    v.and(other);
}

/// `BitVec::xor`: bitwise exclusive or with a vector of the same length, in
/// place.
#[verifier::external_body]
fn bv_xor(v: &mut BitVec<u64>, other: &BitVec<u64>)
    requires
        bits(*old(v)).len() == bits(*other).len(),
    ensures
        bits(*final(v)) == Seq::new(
            bits(*old(v)).len(),
            |i: int| bits(*old(v))[i] != bits(*other)[i],
        ),
    no_unwind
{
    v.xor(other);
}

/// `BitVec::storage`: the blocks behind the vector, which pack its bits.
#[verifier::external_body]
fn bv_storage(v: &BitVec<u64>) -> (r: &[u64])
    ensures
        packs(bits(*v), r@),
{
    v.storage()
}

/// `BitVec::eq`: whether two vectors hold the same bits.
#[verifier::external_body]
fn bv_eq(a: &BitVec<u64>, b: &BitVec<u64>) -> (r: bool)
    ensures
        r == (bits(*a) == bits(*b)),
{
    a == b
}

/// `BitVec::clone`: a vector with the same bits.
#[verifier::external_body]
fn bv_clone(v: &BitVec<u64>) -> (r: BitVec<u64>)
    ensures
        bits(r) == bits(*v),
{
    v.clone()
}

/// The bit at `i`, which must exist.
fn bit_at(v: &BitVec<u64>, i: usize) -> (r: bool)
    requires
        i < bits(*v).len(),
    ensures
        r == bits(*v)[i as int],
{
    match bv_get(v, i) {
        Some(bit) => bit,
        None => false,
    }
}

/// One possible state at a location.
#[derive(PartialEq, Eq, Structural, Copy, Clone, Hash, Debug)]
pub struct State(pub u32);

impl State {
    /// Creates the `n`th unique state (0-indexed).
    pub fn nth(n: u32) -> (s: Self)
        ensures
            s.0 == n,
    {
        Self(n)
    }
}

/// Whether every state of `a` is a state of `b`, both over the same count.
pub open spec fn subset(a: Seq<bool>, b: Seq<bool>) -> bool {
    &&& a.len() == b.len()
    &&& forall|i: int| 0 <= i < a.len() && a[i] ==> b[i]
}

/// Entropy of a superposition: one less than the number of its states, and
/// zero when it is empty.
pub open spec fn entropy_of(s: Seq<bool>) -> nat {
    if count_true(s) == 0 {
        0
    } else {
        (count_true(s) - 1) as nat
    }
}

/// No more entries are `true` than there are entries.
pub proof fn lemma_count_bound(s: Seq<bool>)
    ensures
        count_true(s) <= s.len(),
    decreases s.len(),
{
    if s.len() > 0 {
        lemma_count_bound(s.drop_last());
    }
}

/// Of `n` entries that are all `true`, `n` are `true`; of `n` that are all
/// `false`, none is.
pub proof fn lemma_count_constant(n: nat, bit: bool)
    ensures
        count_true(Seq::new(n, |i: int| bit)) == if bit {
            n
        } else {
            0
        },
    decreases n,
{
    if n > 0 {
        lemma_count_constant((n - 1) as nat, bit);
        assert(Seq::new(n, |i: int| bit).drop_last() =~= Seq::new((n - 1) as nat, |i: int| bit));
    }
}

/// Overwriting one entry changes the count by what that entry gains or
/// loses.
pub proof fn lemma_count_update(s: Seq<bool>, i: int, bit: bool)
    requires
        0 <= i < s.len(),
    ensures
        count_true(s.update(i, bit)) + (if s[i] {
            1nat
        } else {
            0nat
        }) == count_true(s) + (if bit {
            1nat
        } else {
            0nat
        }),
    decreases s.len(),
{
    let t = s.update(i, bit);
    if i == s.len() - 1 {
        assert(t.drop_last() =~= s.drop_last());
    } else {
        lemma_count_update(s.drop_last(), i, bit);
        assert(t.drop_last() =~= s.drop_last().update(i, bit));
    }
}

/// A superposition holds no more states than one that it is a subset of,
/// and as many only where the two are the same.
pub proof fn lemma_count_subset(a: Seq<bool>, b: Seq<bool>)
    requires
        subset(a, b),
    ensures
        count_true(a) <= count_true(b),
        count_true(a) == count_true(b) ==> a =~= b,
    decreases a.len(),
{
    if a.len() > 0 {
        lemma_count_subset(a.drop_last(), b.drop_last());
        if count_true(a) == count_true(b) {
            assert(a.drop_last() =~= b.drop_last());
            assert(a.last() == b.last());
            assert forall|i: int| 0 <= i < a.len() implies a[i] == b[i] by {
                if i < a.len() - 1 {
                    assert(a.drop_last()[i] == b.drop_last()[i]);
                }
            }
        }
    }
}

/// The count is zero exactly where no entry is `true`.
pub proof fn lemma_count_zero(s: Seq<bool>)
    ensures
        count_true(s) == 0 <==> (forall|i: int| 0 <= i < s.len() ==> !s[i]),
    decreases s.len(),
{
    if s.len() > 0 {
        lemma_count_zero(s.drop_last());
        if count_true(s) == 0 {
            assert forall|i: int| 0 <= i < s.len() implies !s[i] by {
                if i < s.len() - 1 {
                    assert(s.drop_last()[i] == s[i]);
                }
            }
        } else if forall|i: int| 0 <= i < s.len() ==> !s[i] {
            assert forall|i: int| 0 <= i < s.drop_last().len() implies !s.drop_last()[i] by {
                assert(s.drop_last()[i] == s[i]);
            }
        }
    }
}

/// The entropy is zero for the empty superposition and for that of a single
/// state, and one less than the number of states for that of all states.
pub proof fn lemma_entropy_bounds(state_count: nat, state: int)
    ensures
        entropy_of(Seq::new(state_count, |i: int| false)) == 0,
        0 <= state < state_count ==> entropy_of(Seq::new(state_count, |i: int| i == state)) == 0,
        state_count > 0 ==> entropy_of(Seq::new(state_count, |i: int| true)) == state_count - 1,
{
    lemma_count_constant(state_count, false);
    lemma_count_constant(state_count, true);
    if 0 <= state < state_count {
        let single = Seq::new(state_count, |i: int| i == state);
        lemma_count_one(single, state);
    }
}

/// A superposition with exactly one state holds that state and no other.
pub proof fn lemma_count_one(s: Seq<bool>, i: int)
    requires
        0 <= i < s.len(),
        s[i],
    ensures
        count_true(s) >= 1,
        count_true(s) == 1 <==> (forall|j: int| 0 <= j < s.len() && s[j] ==> j == i),
{
    let t = s.update(i, false);
    lemma_count_update(s, i, false);
    lemma_count_zero(t);
    if count_true(s) == 1 {
        assert forall|j: int| 0 <= j < s.len() && s[j] implies j == i by {
            if j != i {
                assert(t[j]);
            }
        }
    } else if forall|j: int| 0 <= j < s.len() && s[j] ==> j == i {
        assert forall|j: int| 0 <= j < t.len() implies !t[j] by {
            if j != i {
                assert(t[j] == s[j]);
            }
        }
    }
}

/// One more entry taken raises the count by one where the entry is `true`.
proof fn lemma_count_take(s: Seq<bool>, n: int)
    requires
        0 <= n < s.len(),
    ensures
        count_true(s.take(n + 1)) == count_true(s.take(n)) + if s[n] {
            1nat
        } else {
            0nat
        },
{
    assert(s.take(n + 1).drop_last() =~= s.take(n));
}

/// Where the lowest `n` bits of a block are clear, nothing is left of the
/// block below bit `n`.
proof fn lemma_clear_prefix(w: u64, n: u64)
    requires
        n <= 64,
        forall|k: u64| k < n ==> !block_bit(w, k),
    ensures
        n < 64 ==> (w >> n) << n == w,
        n == 64 ==> w == 0,
    decreases n,
{
    if n == 0 {
        assert((w >> 0u64) << 0u64 == w) by (bit_vector);
    } else {
        let m = (n - 1) as u64;
        lemma_clear_prefix(w, m);
        assert(!block_bit(w, m));
        if n < 64 {
            assert((w >> n) << n == w) by (bit_vector)
                requires
                    (w >> m) << m == w,
                    w & (1u64 << m) == 0,
                    m < 63,
                    n == m + 1,
            ;
        } else {
            assert(w == 0) by (bit_vector)
                requires
                    (w >> m) << m == w,
                    w & (1u64 << m) == 0,
                    m == 63,
            ;
        }
    }
}

/// A block other than zero has a bit set.
proof fn lemma_some_bit(w: u64) -> (k: u64)
    requires
        w != 0,
    ensures
        k < 64,
        block_bit(w, k),
{
    if forall|k: u64| k < 64 ==> !block_bit(w, k) {
        lemma_clear_prefix(w, 64);
    }
    choose|k: u64| k < 64 && block_bit(w, k)
}

/// A superposition of atomic states, drawn from the states `0..len()`.
///
/// The view is one flag for each state, in order of the states' numbers.
#[derive(Debug, Hash)]
pub struct StateSet(BitVec<u64>);

impl View for StateSet {
    type V = Seq<bool>;

    closed spec fn view(&self) -> Seq<bool> {
        bits(self.0)
    }
}

impl Clone for StateSet {
    fn clone(&self) -> (r: Self)
        ensures
            r@ == self@,
    {
        proof {
            use_type_invariant(self);
        }
        StateSet(bv_clone(&self.0))
    }
}

impl PartialEq for StateSet {
    fn eq(&self, other: &Self) -> (r: bool) {
        bv_eq(&self.0, &other.0)
    }
}

impl Eq for StateSet {

}

impl vstd::std_specs::cmp::PartialEqSpecImpl for StateSet {
    open spec fn obeys_eq_spec() -> bool {
        true
    }

    open spec fn eq_spec(&self, other: &Self) -> bool {
        self@ == other@
    }
}

impl StateSet {
    /// A superposition ranges over no more states than a `u32` counts.
    #[verifier::type_invariant]
    closed spec fn representable(&self) -> bool {
        bits(self.0).len() <= u32::MAX
    }

    /// Whether `state` is within the superposition.
    pub open spec fn contains(&self, state: State) -> bool {
        state.0 < self@.len() && self@[state.0 as int]
    }

    /// Number of states within the superposition.
    pub open spec fn popcount(&self) -> nat {
        count_true(self@)
    }

    /// The empty superposition over `state_count` states.
    pub fn empty(state_count: u32) -> (r: Self)
        ensures
            r@ == Seq::new(state_count as nat, |i: int| false),
            r.popcount() == 0,
    {
        proof {
            lemma_count_constant(state_count as nat, false);
        }
        StateSet(bv_from_elem(state_count as usize, false))
    }

    /// Superposition of all `state_count` states.
    pub fn all(state_count: u32) -> (r: Self)
        ensures
            r@ == Seq::new(state_count as nat, |i: int| true),
            r.popcount() == state_count,
    {
        proof {
            lemma_count_constant(state_count as nat, true);
        }
        StateSet(bv_from_elem(state_count as usize, true))
    }

    /// Creates a superposition of `states` over `state_count` states.
    pub fn with_states(state_count: u32, states: &[State]) -> (r: Self)
        requires
            forall|i: int| 0 <= i < states@.len() ==> states@[i].0 < state_count,
        ensures
            r@.len() == state_count,
            forall|j: int|
                0 <= j < state_count ==> (r@[j] <==> exists|i: int|
                    0 <= i < states@.len() && #[trigger] states@[i].0 == j),
    {
        let mut ret = bv_from_elem(state_count as usize, false);
        let mut n: usize = 0;
        while n < states.len()
            invariant
                n <= states@.len(),
                bits(ret).len() == state_count,
                forall|i: int| 0 <= i < states@.len() ==> states@[i].0 < state_count,
                forall|j: int|
                    0 <= j < state_count ==> (bits(ret)[j] <==> exists|i: int|
                        0 <= i < n && #[trigger] states@[i].0 == j),
            decreases states@.len() - n,
        {
            bv_set(&mut ret, states[n].0 as usize, true);
            n += 1;
        }
        StateSet(ret)
    }

    /// The superposition of `state` alone, over `state_count` states.
    pub fn state(state_count: u32, state: State) -> (r: Self)
        requires
            state.0 < state_count,
        ensures
            r@ == Seq::new(state_count as nat, |i: int| i == state.0),
            r.popcount() == 1,
    {
        let mut ret = bv_from_elem(state_count as usize, false);
        bv_set(&mut ret, state.0 as usize, true);
        proof {
            assert(bits(ret) =~= Seq::new(state_count as nat, |i: int| i == state.0));
            lemma_count_one(bits(ret), state.0 as int);
        }
        StateSet(ret)
    }

    /// The total number of states that the superposition ranges over.
    pub fn len(&self) -> (r: u32)
        ensures
            r == self@.len(),
    {
        proof {
            use_type_invariant(self);
        }
        bv_len(&self.0) as u32
    }

    /// Total number of possible states, minus 1; zero for the empty
    /// superposition too.
    pub fn entropy(&self) -> (r: u32)
        ensures
            r == entropy_of(self@),
            r < u32::MAX,
    {
        proof {
            use_type_invariant(self);
            lemma_count_bound(self@);
        }
        let ones = bv_count_ones(&self.0) as u32;
        if ones == 0 {
            0
        } else {
            ones - 1
        }
    }

    /// Is `state` within the superposition?
    pub fn has(&self, state: State) -> (r: bool)
        requires
            state.0 < self@.len(),
        ensures
            r == self@[state.0 as int],
    {
        bit_at(&self.0, state.0 as usize)
    }

    /// Are any of `states` within the superposition?
    ///
    /// Compares the two superpositions block by block.
    pub fn has_any(&self, states: &Self) -> (r: bool)
        requires
            self@.len() == states@.len(),
        ensures
            r <==> exists|i: int| 0 <= i < self@.len() && self@[i] && states@[i],
    {
        let a = bv_storage(&self.0);
        let b = bv_storage(&states.0);
        let mut n: usize = 0;
        while n < a.len()
            invariant
                n <= a@.len(),
                a@.len() == b@.len(),
                packs(self@, a@),
                packs(states@, b@),
                self@.len() == states@.len(),
                forall|i: int| 0 <= i < n * 64 && i < self@.len() ==> !(self@[i] && states@[i]),
            decreases a@.len() - n,
        {
            let x = a[n];
            let y = b[n];
            if x & y != 0 {
                proof {
                    let k = lemma_some_bit(x & y);
                    assert(x & (1u64 << k) != 0 && y & (1u64 << k) != 0) by (bit_vector)
                        requires
                            (x & y) & (1u64 << k) != 0,
                            k < 64,
                    ;
                    let i = n * 64 + k;
                    assert(i / 64 == n && i % 64 == k);
                    assert(block_bit(a@[i / 64], (i % 64) as u64));
                    assert(block_bit(b@[i / 64], (i % 64) as u64));
                    assert(0 <= i < self@.len() && self@[i] && states@[i]);
                }
                return true;
            }
            proof {
                assert forall|i: int| n * 64 <= i < (n + 1) * 64 && i < self@.len() implies !(
                self@[i] && states@[i]) by {
                    let k = (i % 64) as u64;
                    assert(i / 64 == n);
                    assert(block_bit(a@[i / 64], (i % 64) as u64) <==> self@[i]);
                    assert(block_bit(b@[i / 64], (i % 64) as u64) <==> states@[i]);
                    assert(!(x & (1u64 << k) != 0 && y & (1u64 << k) != 0)) by (bit_vector)
                        requires
                            x & y == 0,
                            k < 64,
                    ;
                }
            }
            n += 1;
        }
        false
    }

    /// Remove `state` from the superposition.
    pub fn remove(&mut self, state: State)
        requires
            state.0 < old(self)@.len(),
        ensures
            final(self)@ == old(self)@.update(state.0 as int, false),
    {
        proof {
            use_type_invariant(&*self);
        }
        bv_set(&mut self.0, state.0 as usize, false);
    }

    /// Add `state` to the superposition.
    pub fn add(&mut self, state: State)
        requires
            state.0 < old(self)@.len(),
        ensures
            final(self)@ == old(self)@.update(state.0 as int, true),
    {
        proof {
            use_type_invariant(&*self);
        }
        bv_set(&mut self.0, state.0 as usize, true);
    }

    /// Remove all `states` from the superposition.
    pub fn remove_all(&mut self, states: &Self)
        requires
            old(self)@.len() == states@.len(),
        ensures
            final(self)@ == Seq::new(old(self)@.len(), |i: int| old(self)@[i] && !states@[i]),
    {
        proof {
            use_type_invariant(&*self);
        }
        let count = bv_len(&states.0);
        let mut n: usize = 0;
        while n < count
            invariant
                n <= count,
                count == states@.len(),
                count <= u32::MAX,
                bits(self.0).len() == count,
                old(self)@.len() == count,
                forall|i: int|
                    0 <= i < n ==> #[trigger] bits(self.0)[i] == (old(self)@[i] && !states@[i]),
                forall|i: int| n <= i < count ==> #[trigger] bits(self.0)[i] == old(self)@[i],
            decreases count - n,
        {
            if bit_at(&states.0, n) {
                bv_set(&mut self.0, n, false);
            }
            n += 1;
        }
        assert(self@ =~= Seq::new(old(self)@.len(), |i: int| old(self)@[i] && !states@[i]));
    }

    /// Add all `states` to the superposition.
    pub fn add_all(&mut self, states: &Self)
        requires
            old(self)@.len() == states@.len(),
        ensures
            final(self)@ == Seq::new(old(self)@.len(), |i: int| old(self)@[i] || states@[i]),
    {
        proof {
            use_type_invariant(&*self);
        }
        bv_or(&mut self.0, &states.0);
    }

    /// The states within the superposition, lowest number first.
    pub fn states(&self) -> (r: Vec<State>)
        ensures
            r@.len() == self.popcount(),
            forall|j: int| 0 <= j < r@.len() ==> self.contains(#[trigger] r@[j]),
            forall|j: int, k: int| 0 <= j < k < r@.len() ==> r@[j].0 < r@[k].0,
            forall|s: State| self.contains(s) ==> r@.contains(s),
    {
        proof {
            use_type_invariant(self);
        }
        let count = bv_len(&self.0);
        let mut out: Vec<State> = Vec::new();
        let mut n: usize = 0;
        while n < count
            invariant
                n <= count,
                count == self@.len(),
                count <= u32::MAX,
                out@.len() == count_true(self@.take(n as int)),
                forall|j: int| 0 <= j < out@.len() ==> (#[trigger] out@[j]).0 < n && self@[out@[j].0 as int],
                forall|j: int, k: int| 0 <= j < k < out@.len() ==> out@[j].0 < out@[k].0,
                forall|s: State| s.0 < n && self@[s.0 as int] ==> out@.contains(s),
            decreases count - n,
        {
            proof {
                lemma_count_take(self@, n as int);
            }
            if bit_at(&self.0, n) {
                let ghost before = out@;
                out.push(State(n as u32));
                proof {
                    assert forall|s: State| s.0 < n + 1 && self@[s.0 as int] implies out@.contains(
                        s,
                    ) by {
                        if s.0 < n {
                            assert(before.contains(s));
                            let j = choose|j: int| 0 <= j < before.len() && before[j] == s;
                            assert(out@[j] == s);
                        } else {
                            assert(out@[before.len() as int] == s);
                        }
                    }
                }
            }
            n += 1;
        }
        assert(self@.take(count as int) =~= self@);
        out
    }

    /// The state of lowest number within the superposition, if there is any.
    pub fn first(&self) -> (r: Option<State>)
        ensures
            match r {
                Some(s) => self.contains(s) && forall|i: int| 0 <= i < s.0 ==> !self@[i],
                None => forall|i: int| 0 <= i < self@.len() ==> !self@[i],
            },
    {
        proof {
            use_type_invariant(self);
        }
        let count = bv_len(&self.0);
        let mut n: usize = 0;
        while n < count
            invariant
                n <= count,
                count == self@.len(),
                count <= u32::MAX,
                forall|i: int| 0 <= i < n ==> !self@[i],
            decreases count - n,
        {
            if bit_at(&self.0, n) {
                return Some(State(n as u32));
            }
            n += 1;
        }
        None
    }

    /// Filter states in place: a state stays where `filter` answers `true`
    /// for it, and `filter` is asked about the states within only.
    pub fn retain<F: Fn(State) -> bool>(&mut self, filter: F)
        requires
            forall|s: State| old(self).contains(s) ==> call_requires(filter, (s,)),
        ensures
            final(self)@.len() == old(self)@.len(),
            forall|s: State|
                #![trigger final(self).contains(s)]
                final(self).contains(s) ==> old(self).contains(s) && call_ensures(
                    filter,
                    (s,),
                    true,
                ),
            forall|s: State|
                #![trigger old(self).contains(s)]
                old(self).contains(s) && !final(self).contains(s) ==> call_ensures(
                    filter,
                    (s,),
                    false,
                ),
    {
        proof {
            use_type_invariant(&*self);
        }
        let count = bv_len(&self.0);
        let mut n: usize = 0;
        while n < count
            invariant
                n <= count,
                count == old(self)@.len(),
                count <= u32::MAX,
                bits(self.0).len() == count,
                forall|s: State| old(self).contains(s) ==> call_requires(filter, (s,)),
                forall|i: int| n <= i < count ==> bits(self.0)[i] == old(self)@[i],
                forall|s: State|
                    s.0 < n && #[trigger] bits(self.0)[s.0 as int] ==> old(self).contains(s)
                        && call_ensures(filter, (s,), true),
                forall|s: State|
                    s.0 < n && #[trigger] old(self).contains(s) && !bits(self.0)[s.0 as int]
                        ==> call_ensures(filter, (s,), false),
            decreases count - n,
        {
            let s = State(n as u32);
            if bit_at(&self.0, n) {
                assert(old(self).contains(s));
                if !filter(s) {
                    bv_set(&mut self.0, n, false);
                }
            }
            n += 1;
        }
    }

    /// The states within `self` or `rhs`.
    pub fn union(self, rhs: Self) -> (r: Self)
        requires
            self@.len() == rhs@.len(),
        ensures
            r@ == Seq::new(self@.len(), |i: int| self@[i] || rhs@[i]),
    {
        proof {
            use_type_invariant(&self);
        }
        let mut out = self.0;
        bv_or(&mut out, &rhs.0);
        StateSet(out)
    }

    /// The states within both `self` and `rhs`.
    pub fn intersection(self, rhs: Self) -> (r: Self)
        requires
            self@.len() == rhs@.len(),
        ensures
            r@ == Seq::new(self@.len(), |i: int| self@[i] && rhs@[i]),
    {
        proof {
            use_type_invariant(&self);
        }
        let mut out = self.0;
        bv_and(&mut out, &rhs.0);
        StateSet(out)
    }

    /// The states within exactly one of `self` and `rhs`.
    pub fn xor(self, rhs: Self) -> (r: Self)
        requires
            self@.len() == rhs@.len(),
        ensures
            r@ == Seq::new(self@.len(), |i: int| self@[i] != rhs@[i]),
    {
        proof {
            use_type_invariant(&self);
        }
        let mut out = self.0;
        bv_xor(&mut out, &rhs.0);
        StateSet(out)
    }
}

} // verus!
