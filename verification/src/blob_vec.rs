//! A type-erased column of equally sized values, stored back to back as
//! bytes: what a component table keeps for one component type.
//!
//! The values' own code (building, dropping) is the caller's; the column
//! keeps their bytes and says how many there are.
use vstd::prelude::*;
use crate::registry::TypeKey;

verus! {

/// What a column needs to know of its component type.
#[derive(Clone, Copy, Debug, PartialEq, Eq, Structural)]
pub struct ComponentInfo {
    pub type_id: TypeKey,
    pub size: usize,
    pub align: usize,
    pub needs_drop: bool,
}

/// Whether values of `T` need to be dropped (`std::mem::needs_drop`). The
/// answer is the compiler's and is not stated here.
#[verifier::external_body]
fn type_needs_drop<T>() -> bool {
    std::mem::needs_drop::<T>()
}

impl ComponentInfo {
    /// The layout of `T`, known under `type_id`.
    pub fn of<T>(type_id: TypeKey) -> (r: Self)
        ensures
            r.type_id == type_id,
            r.size as nat == vstd::layout::size_of::<T>(),
            r.align as nat == vstd::layout::align_of::<T>(),
    {
        ComponentInfo {
            type_id,
            size: core::mem::size_of::<T>(),
            align: core::mem::align_of::<T>(),
            needs_drop: type_needs_drop::<T>(),
        }
    }
}

pub struct BlobVec {
    info: ComponentInfo,
    data: Vec<u8>,
    count: usize,
}

proof fn lemma_block(i: int, n: int, size: int)
    by (nonlinear_arith)
    requires
        0 <= i < n,
        size > 0,
    ensures
        0 <= i * size,
        i * size + size <= n * size,
        (i + 1) * size == i * size + size,
{
}

proof fn lemma_blocks_apart(a: int, b: int, size: int)
    by (nonlinear_arith)
    requires
        0 <= a < b,
        size > 0,
    ensures
        a * size + size <= b * size,
{
}

proof fn lemma_next_block(n: int, size: int)
    by (nonlinear_arith)
    requires
        n >= 0,
        size > 0,
    ensures
        (n + 1) * size == n * size + size,
        n * size >= 0,
{
}

impl BlobVec {
    pub closed spec fn info_spec(&self) -> ComponentInfo {
        self.info
    }

    /// The bytes of every value, in order.
    pub closed spec fn bytes(&self) -> Seq<u8> {
        self.data@
    }

    /// The values, each as its bytes.
    pub closed spec fn elements(&self) -> Seq<Seq<u8>> {
        let size = self.info.size as int;
        Seq::new(self.count as nat, |i: int| if size == 0 { Seq::empty() } else { self.data@.subrange(i * size, i * size + size) })
    }

    /// The bytes hold exactly the values (one zero byte each for values
    /// of no size).
    pub closed spec fn wf(&self) -> bool {
        if self.info.size == 0 {
            self.data@.len() == self.count
        } else {
            self.data@.len() == self.count * self.info.size
        }
    }

    pub fn new_with_info(info: ComponentInfo) -> (r: Self)
        ensures
            r.wf(),
            r.info_spec() == info,
            r.elements().len() == 0,
    {
        BlobVec { info, data: Vec::new(), count: 0 }
    }

    pub fn info(&self) -> (r: &ComponentInfo)
        ensures
            *r == self.info_spec(),
    {
        &self.info
    }

    /// The number of values.
    pub fn len(&self) -> (r: usize)
        ensures
            r == self.elements().len(),
    {
        self.count
    }

    /// The bytes of every value, back to back.
    pub fn as_ptr(&self) -> (r: &[u8])
        ensures
            r@ == self.bytes(),
    {
        self.data.as_slice()
    }

    /// A copy of the bytes of the value at `index`.
    pub fn get(&self, index: usize) -> (r: Vec<u8>)
        requires
            self.wf(),
            index < self.elements().len(),
        ensures
            r@ == self.elements()[index as int],
    {
        let size = self.info.size;
        let mut r: Vec<u8> = Vec::new();
        if size == 0 {
            return r;
        }
        let dl = self.data.len();
        proof {
            lemma_block(index as int, self.count as int, size as int);
        }
        let start = index * size;
        let mut k: usize = 0;
        while k < size
            invariant
                size == self.info.size,
                size > 0,
                start == index * size,
                start + size <= self.data@.len(),
                self.data@.len() == dl,
                k <= size,
                r@ == self.data@.subrange(start as int, start + k),
            decreases size - k,
        {
            r.push(self.data[start + k]);
            assert(r@ =~= self.data@.subrange(start as int, start + k + 1));
            k = k + 1;
        }
        r
    }

    /// Appends a value given by its bytes.
    pub fn push(&mut self, value: &[u8])
        requires
            old(self).wf(),
            value@.len() == old(self).info_spec().size,
            old(self).elements().len() < usize::MAX,
            old(self).bytes().len() + value@.len() + 1 <= usize::MAX,
        ensures
            final(self).wf(),
            final(self).info_spec() == old(self).info_spec(),
            final(self).elements() == old(self).elements().push(value@),
            final(self).elements() == changed(old(self).elements(), BlobChange::Push(value@)),
    {
        let ghost before = self.data@;
        let size = self.info.size;
        if size == 0 {
            self.data.push(0);
            self.count = self.count + 1;
            assert(value@ =~= Seq::<u8>::empty());
            assert(self.elements() =~= old(self).elements().push(value@));
            return;
        }
        let mut k: usize = 0;
        while k < size
            invariant
                size == self.info.size,
                size == value@.len(),
                k <= size,
                self.data@ == before + value@.subrange(0, k as int),
                self.count == old(self).count,
                self.info == old(self).info,
            decreases size - k,
        {
            self.data.push(value[k]);
            assert(self.data@ =~= before + value@.subrange(0, k + 1));
            k = k + 1;
        }
        proof {
            let n = self.count as int;
            lemma_next_block(n, size as int);
            assert(value@.subrange(0, size as int) =~= value@);
        }
        self.count = self.count + 1;
        proof {
            let n = old(self).count as int;
            assert forall|i: int| 0 <= i < n + 1 implies #[trigger] self.elements()[i] == old(self).elements().push(value@)[i] by {
                if i < n {
                    lemma_block(i, n, size as int);
                    assert(self.data@.subrange(i * size, i * size + size) =~= before.subrange(i * size, i * size + size));
                } else {
                    assert(self.data@.subrange(i * size, i * size + size) =~= value@);
                }
            }
            assert(self.elements() =~= old(self).elements().push(value@));
        }
    }

    /// Removes the value at `index`, moving the last value into its place,
    /// and returns the removed value's bytes (for the caller to drop).
    pub fn swap_remove(&mut self, index: usize) -> (r: Vec<u8>)
        requires
            old(self).wf(),
            index < old(self).elements().len(),
        ensures
            final(self).wf(),
            final(self).info_spec() == old(self).info_spec(),
            r@ == old(self).elements()[index as int],
            final(self).elements() == old(self).elements().update(index as int, old(self).elements().last()).drop_last(),
            final(self).elements() == changed(old(self).elements(), BlobChange::SwapRemove(index as int)),
    {
        let removed = self.get(index);
        let size = self.info.size;
        let n = self.count;
        let ghost before = self.data@;
        let ghost old_elems = self.elements();
        if size == 0 {
            let _ = self.data.swap_remove(index);
            self.count = n - 1;
            assert(self.elements() =~= old_elems.update(index as int, old_elems.last()).drop_last());
            return removed;
        }
        let dl = self.data.len();
        proof {
            lemma_block(index as int, n as int, size as int);
            lemma_block((n - 1) as int, n as int, size as int);
        }
        let dst = index * size;
        let src = (n - 1) * size;
        let mut k: usize = 0;
        while k < size
            invariant
                size == self.info.size,
                size > 0,
                self.info == old(self).info,
                self.count == n,
                dst == index * size,
                src == (n - 1) * size,
                dst + size <= before.len(),
                src + size == before.len(),
                before.len() == dl,
                self.data@.len() == before.len(),
                k <= size,
                forall|p: int| 0 <= p < before.len() ==> #[trigger] self.data@[p] == (if dst <= p < dst + k {
                    before[src + (p - dst)]
                } else {
                    before[p]
                }),
            decreases size - k,
        {
            let b = self.data[src + k];
            proof {
                if dst <= src + k < dst + k {
                    // only when the value moves onto itself
                    assert(index == n - 1) by {
                        if index < n - 1 {
                            lemma_blocks_apart(index as int, (n - 1) as int, size as int);
                        }
                    }
                }
            }
            self.data.set(dst + k, b);
            k = k + 1;
        }
        self.data.truncate(src);
        self.count = n - 1;
        proof {
            let m = (n - 1) as int;
            let expected = old_elems.update(index as int, old_elems.last()).drop_last();
            assert forall|j: int| 0 <= j < m implies #[trigger] self.elements()[j] == expected[j] by {
                lemma_block(j, m, size as int);
                lemma_block(j, n as int, size as int);
                if j == index {
                    assert(self.data@.subrange(j * size, j * size + size) =~= before.subrange(src as int, src + size));
                } else {
                    if j < index {
                        lemma_blocks_apart(j, index as int, size as int);
                    } else {
                        lemma_blocks_apart(index as int, j, size as int);
                    }
                    assert(self.data@.subrange(j * size, j * size + size) =~= before.subrange(j * size, j * size + size));
                }
            }
            assert(self.elements() =~= expected);
            lemma_next_block(m, size as int);
        }
        removed
    }

    /// Removes every value (the caller drops them first where needed).
    pub fn clear(&mut self)
        ensures
            final(self).wf(),
            final(self).info_spec() == old(self).info_spec(),
            final(self).elements().len() == 0,
    {
        self.data.clear();
        self.count = 0;
    }
}

/// One change to a column: a push of an element, or a swap-remove at an index.
pub enum BlobChange {
    Push(Seq<u8>),
    SwapRemove(int),
}

/// The elements after `change`, as `push` and `swap_remove` leave them.
pub open spec fn changed(elems: Seq<Seq<u8>>, change: BlobChange) -> Seq<Seq<u8>> {
    match change {
        BlobChange::Push(v) => elems.push(v),
        BlobChange::SwapRemove(i) => elems.update(i, elems.last()).drop_last(),
    }
}

/// The elements after each of `changes` in turn.
pub open spec fn changed_all(elems: Seq<Seq<u8>>, changes: Seq<BlobChange>) -> Seq<Seq<u8>>
    decreases changes.len(),
{
    if changes.len() == 0 {
        elems
    } else {
        changed(changed_all(elems, changes.drop_last()), changes.last())
    }
}

/// Whether every swap-remove in `changes` names an element present at that point.
pub open spec fn removals_in_range(elems: Seq<Seq<u8>>, changes: Seq<BlobChange>) -> bool
    decreases changes.len(),
{
    if changes.len() == 0 {
        true
    } else {
        removals_in_range(elems, changes.drop_last()) && match changes.last() {
            BlobChange::SwapRemove(i) => 0 <= i < changed_all(elems, changes.drop_last()).len(),
            BlobChange::Push(_) => true,
        }
    }
}

/// How many of `changes` are pushes.
pub open spec fn push_count(changes: Seq<BlobChange>) -> nat
    decreases changes.len(),
{
    if changes.len() == 0 {
        0
    } else {
        push_count(changes.drop_last()) + (if changes.last() is Push { 1nat } else { 0nat })
    }
}

/// After `k` pushes and `r` swap-removes, in any order and each removing an
/// element that is there, a column holds `k - r` more elements than before;
/// from an empty column, `k - r`.
pub proof fn lemma_count_after_changes(elems: Seq<Seq<u8>>, changes: Seq<BlobChange>)
    requires
        removals_in_range(elems, changes),
    ensures
        changed_all(elems, changes).len() == elems.len() + push_count(changes) - (changes.len() - push_count(changes)),
    decreases changes.len(),
{
    if changes.len() > 0 {
        lemma_count_after_changes(elems, changes.drop_last());
    }
}

} // verus!
