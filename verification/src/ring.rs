use vstd::prelude::*;

verus! {

/// A vector that is indexed modulo its length, so that index `len` is the
/// first element again and `-1` is the last one.
pub struct RingVec<T> {
    pub data: Vec<T>,
}

/// The position in a sequence of length `len` that a ring index refers to.
pub open spec fn ring_position(i: int, len: int) -> int
    recommends
        len > 0,
{
    ((i % len) + len) % len
}

impl<T> RingVec<T> {
    /// The element that ring index `i` names.
    pub open spec fn at(&self, i: int) -> T
        recommends
            self.data@.len() > 0,
    {
        self.data@[ring_position(i, self.data@.len() as int)]
    }

    /// An empty ring with room for `capacity` elements.
    pub fn new(capacity: usize) -> (ring: RingVec<T>)
        ensures
            ring.data@ == Seq::<T>::empty(),
    {
        RingVec { data: Vec::with_capacity(capacity) }
    }

    /// Wraps an existing vector.
    pub fn from_vec(data: Vec<T>) -> (ring: RingVec<T>)
        ensures
            ring.data@ == data@,
    {
        RingVec { data }
    }

    pub fn len(&self) -> (n: usize)
        ensures
            n == self.data@.len(),
    {
        self.data.len()
    }

    /// The element at ring index `i`; any integer is a valid index.
    pub fn get(&self, i: isize) -> (item: &T)
        requires
            self.data@.len() > 0,
        ensures
            *item == self.at(i as int),
    {
        let len = self.data.len() as i128;
        let idx = i as i128;
        let r = idx % len;
        let pos = if r < 0 { r + len } else { r };
        proof {
            if idx < 0 {
                assert(r == -((-(idx as int)) % (len as int)));
            } else {
                assert(r == (idx as int) % (len as int));
            }
            lemma_ring_position_trunc(i as int, len as int, r as int);
        }
        &self.data[pos as usize]
    }

    pub fn first(&self) -> (item: &T)
        requires
            self.data@.len() > 0,
        ensures
            *item == self.data@[0],
    {
        &self.data[0]
    }

    pub fn last(&self) -> (item: &T)
        requires
            self.data@.len() > 0,
        ensures
            *item == self.data@[self.data@.len() - 1],
    {
        &self.data[self.data.len() - 1]
    }
}

impl<T> From<Vec<T>> for RingVec<T> {
    fn from(data: Vec<T>) -> (ring: RingVec<T>) {
        RingVec { data }
    }
}

impl<T> vstd::std_specs::convert::FromSpecImpl<Vec<T>> for RingVec<T> {
    open spec fn obeys_from_spec() -> bool {
        true
    }

    open spec fn from_spec(v: Vec<T>) -> RingVec<T> {
        RingVec { data: v }
    }
}

/// The truncated remainder `r` of `i` by a positive `len`, shifted into
/// `[0, len)`, is the ring position of `i`.
proof fn lemma_ring_position_trunc(i: int, len: int, r: int)
    requires
        len > 0,
        i >= 0 ==> r == i % len,
        i < 0 ==> r == -((-i) % len),
    ensures
        (if r < 0 { r + len } else { r }) == ring_position(i, len),
        0 <= (if r < 0 { r + len } else { r }) < len,
{
    vstd::arithmetic::div_mod::lemma_mod_bound(i, len);
    vstd::arithmetic::div_mod::lemma_mod_bound(-i, len);
    vstd::arithmetic::div_mod::lemma_add_mod_noop(i % len, len, len);
    vstd::arithmetic::div_mod::lemma_mod_self_0(len);
    vstd::arithmetic::div_mod::lemma_mod_twice(i, len);
    vstd::arithmetic::div_mod::lemma_small_mod((i % len) as nat, len as nat);
    if i < 0 {
        let m = (-i) % len;
        vstd::arithmetic::div_mod::lemma_fundamental_div_mod(-i, len);
        let q = (-i) / len;
        assert(-i == len * q + m);
        assert(i == len * (-q) + (-m)) by (nonlinear_arith)
            requires -i == len * q + m;
        if m == 0 {
            vstd::arithmetic::div_mod::lemma_mod_multiples_basic(-q, len);
            assert(i % len == 0) by {
                assert(i == (-q) * len) by (nonlinear_arith) requires i == len * (-q);
            }
        } else {
            assert(i == len * (-q - 1) + (len - m)) by (nonlinear_arith)
                requires i == len * (-q) + (-m);
            vstd::arithmetic::div_mod::lemma_fundamental_div_mod_converse(i, len, -q - 1, len - m);
        }
    }
}

} // verus!
