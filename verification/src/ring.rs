//! The bounded history kept for one submitter under one key.

use vstd::prelude::*;
use crate::value::PrimitiveOracleType;

verus! {

/// The number of values a history holds.
pub const RING_BUF_LEN: usize = 8;

/// The most recent values of one submitter under one key, newest first.
///
/// A history always holds exactly [`RING_BUF_LEN`] values. The first value
/// recorded fills every slot; each later one moves the others one slot on and
/// drops the oldest.
#[derive(Clone, Copy, Debug, PartialEq, Eq)]
pub struct RingBuffer {
    slots: [PrimitiveOracleType; 8],
}

/// What a history holds after `value` is recorded in one that held `before`.
pub open spec fn pushed(before: Seq<PrimitiveOracleType>, value: PrimitiveOracleType) -> Seq<
    PrimitiveOracleType,
> {
    seq![value] + before.drop_last()
}

impl View for RingBuffer {
    type V = Seq<PrimitiveOracleType>;

    closed spec fn view(&self) -> Seq<PrimitiveOracleType> {
        self.slots@
    }
}

impl RingBuffer {
    /// A history in which every slot holds `value`.
    pub fn filled(value: PrimitiveOracleType) -> (r: Self)
        ensures
            r@ == Seq::new(RING_BUF_LEN as nat, |i: int| value),
    {
        let r = RingBuffer { slots: [value; 8] };
        assert(r@ =~= Seq::new(RING_BUF_LEN as nat, |i: int| value));
        r
    }

    /// Records `value` as the newest; the oldest value is dropped.
    pub fn push(&mut self, value: PrimitiveOracleType)
        ensures
            final(self)@ == pushed(old(self)@, value),
    {
        let mut i: usize = 7;
        while i > 0
            invariant
                i <= 7,
                self.slots@.len() == 8,
                forall|j: int| 0 <= j <= i ==> self.slots@[j] == old(self).slots@[j],
                forall|j: int| i < j < 8 ==> self.slots@[j] == old(self).slots@[j - 1],
            decreases i,
        {
            let prev = self.slots[i - 1];
            self.slots[i] = prev;
            i = i - 1;
        }
        self.slots[0] = value;
        assert(self@ =~= pushed(old(self)@, value));
    }

    /// The value in slot `i`; slot 0 holds the newest.
    pub fn get(&self, i: usize) -> (r: PrimitiveOracleType)
        requires
            i < RING_BUF_LEN,
        ensures
            r == self@[i as int],
    {
        self.slots[i]
    }

    /// The values from newest to oldest.
    pub fn to_vec(&self) -> (r: Vec<PrimitiveOracleType>)
        ensures
            r@ == self@,
    {
        let mut out: Vec<PrimitiveOracleType> = Vec::new();
        let mut i: usize = 0;
        while i < 8
            invariant
                i <= 8,
                self.slots@.len() == 8,
                out@ == self.slots@.take(i as int),
            decreases 8 - i,
        {
            out.push(self.slots[i]);
            assert(self.slots@.take(i as int + 1) =~= self.slots@.take(i as int).push(
                self.slots@[i as int],
            ));
            i = i + 1;
        }
        assert(self.slots@.take(8) =~= self.slots@);
        out
    }
}

/// Every history holds exactly [`RING_BUF_LEN`] values.
pub proof fn lemma_ring_len(b: RingBuffer)
    ensures
        b@.len() == RING_BUF_LEN,
{
}

/// What a history holds after a first value `first` and then `later`, oldest
/// first, have been recorded.
pub open spec fn recorded(first: PrimitiveOracleType, later: Seq<PrimitiveOracleType>) -> Seq<
    PrimitiveOracleType,
>
    decreases later.len(),
{
    if later.len() == 0 {
        Seq::new(RING_BUF_LEN as nat, |i: int| first)
    } else {
        pushed(recorded(first, later.drop_last()), later.last())
    }
}

/// After a first value and `k` later ones, the newest `k` stand in front,
/// newest first, and the first value fills the rest; from the eighth value on
/// nothing of the first is left, and each further value drops the oldest that
/// is held.
pub proof fn lemma_recorded(first: PrimitiveOracleType, later: Seq<PrimitiveOracleType>)
    ensures
        recorded(first, later).len() == RING_BUF_LEN,
        forall|i: int|
            0 <= i < RING_BUF_LEN ==> #[trigger] recorded(first, later)[i] == (if i < later.len() {
                later[later.len() - 1 - i]
            } else {
                first
            }),
    decreases later.len(),
{
    if later.len() > 0 {
        lemma_recorded(first, later.drop_last());
        let before = recorded(first, later.drop_last());
        let after = recorded(first, later);
        assert forall|i: int| 0 <= i < RING_BUF_LEN implies #[trigger] after[i] == (if i
            < later.len() {
            later[later.len() - 1 - i]
        } else {
            first
        }) by {
            if i > 0 {
                assert(after[i] == before[i - 1]);
            }
        }
    }
}

/// Eight distinct or equal values `v0` to `v7`, recorded in that order, are
/// read back as `v7` down to `v0`; a ninth, `v8`, then stands in front and
/// `v0` is gone.
pub proof fn lemma_nine_values(v: Seq<PrimitiveOracleType>)
    requires
        v.len() == 9,
    ensures
        recorded(v[0], v.subrange(1, 8)) == seq![v[7], v[6], v[5], v[4], v[3], v[2], v[1], v[0]],
        recorded(v[0], v.subrange(1, 9)) == seq![v[8], v[7], v[6], v[5], v[4], v[3], v[2], v[1]],
        recorded(v[0], v.subrange(1, 9)) == pushed(recorded(v[0], v.subrange(1, 8)), v[8]),
{
    lemma_recorded(v[0], v.subrange(1, 8));
    lemma_recorded(v[0], v.subrange(1, 9));
    assert(recorded(v[0], v.subrange(1, 8)) =~= seq![
        v[7],
        v[6],
        v[5],
        v[4],
        v[3],
        v[2],
        v[1],
        v[0],
    ]);
    assert(recorded(v[0], v.subrange(1, 9)) =~= seq![
        v[8],
        v[7],
        v[6],
        v[5],
        v[4],
        v[3],
        v[2],
        v[1],
    ]);
    assert(v.subrange(1, 9).drop_last() =~= v.subrange(1, 8));
}

} // verus!
