//! The storage of a bit vector: zero or more blocks on the heap.

use crate::storage::BlockType;
use vstd::prelude::*;

verus! {

/// Calls `Vec::into_boxed_slice`, which turns a vector into a boxed slice of
/// the same elements in the same order. That the elements are kept is taken
/// from the documentation of `Vec`, not proved.
#[verifier::external_body]
fn into_boxed<T>(vec: Vec<T>) -> (boxed: Box<[T]>)
    ensures
        boxed@ == vec@,
{
    vec.into_boxed_slice()
}

/// An array of blocks that allocates nothing while it is empty.
///
/// The blocks are held in `Some` vector, or in `None` at all where there are
/// none: a vector that is present is never empty.
#[derive(Debug)]
pub struct Inner<Block>(Option<Vec<Block>>);

impl<Block> View for Inner<Block> {
    type V = Seq<Block>;

    /// The blocks, in order.
    closed spec fn view(&self) -> Seq<Block> {
        match self.0 {
            Some(blocks) => blocks@,
            None => Seq::empty(),
        }
    }
}

impl<Block: BlockType> Clone for Inner<Block> {
    /// A copy with the same blocks.
    fn clone(&self) -> (copy: Self)
        ensures
            copy@ == self@,
            copy.wf() == self.wf(),
            copy.is_allocated() == self.is_allocated(),
    {
        match &self.0 {
            Some(blocks) => {
                let mut copy: Vec<Block> = Vec::with_capacity(blocks.len());
                let mut i: usize = 0;
                while i < blocks.len()
                    invariant
                        i <= blocks.len(),
                        copy@ == blocks@.take(i as int),
                    decreases blocks.len() - i,
                {
                    copy.push(blocks[i]);
                    i += 1;
                    assert(copy@ =~= blocks@.take(i as int));
                }
                assert(blocks@.take(blocks.len() as int) =~= blocks@);
                Inner(Some(copy))
            },
            None => Inner(None),
        }
    }
}

impl<Block: BlockType> Inner<Block> {
    /// Whether the representation is valid: storage that is present holds at
    /// least one block.
    pub closed spec fn wf(&self) -> bool {
        match self.0 {
            Some(blocks) => blocks@.len() > 0,
            None => true,
        }
    }

    /// Whether there is an allocation.
    pub closed spec fn is_allocated(&self) -> bool {
        self.0.is_some()
    }

    /// The number of blocks fits a `usize`.
    pub proof fn lemma_len(&self)
        ensures
            self@.len() <= usize::MAX,
    {
        match self.0 {
            Some(blocks) => {
                assert(blocks@.len() == blocks.len());
            },
            None => {},
        }
    }

    /// Checks the representation.
    pub fn check_invariant(&self) -> (valid: bool)
        ensures
            valid == self.wf(),
    {
        match &self.0 {
            Some(blocks) => blocks.len() > 0,
            None => true,
        }
    }

    /// Storage for `nblocks` blocks, each equal to `init`.
    pub fn new(init: Block, nblocks: usize) -> (inner: Self)
        ensures
            inner.wf(),
            inner@ == Seq::new(nblocks as nat, |i: int| init),
    {
        if nblocks == 0 {
            let inner = Inner(None);
            assert(inner@ =~= Seq::new(nblocks as nat, |i: int| init));
            inner
        } else {
            let mut blocks: Vec<Block> = Vec::with_capacity(nblocks);
            let mut i: usize = 0;
            while i < nblocks
                invariant
                    i <= nblocks,
                    blocks@ == Seq::new(i as nat, |j: int| init),
                decreases nblocks - i,
            {
                blocks.push(init);
                i += 1;
                assert(blocks@ =~= Seq::new(i as nat, |j: int| init));
            }
            Inner(Some(blocks))
        }
    }

    /// Storage that holds the blocks of `blocks`.
    pub fn from_vec(blocks: Vec<Block>) -> (inner: Self)
        ensures
            inner.wf(),
            inner@ == blocks@,
    {
        if blocks.len() == 0 {
            let inner = Inner(None);
            assert(inner@ =~= blocks@);
            inner
        } else {
            Inner(Some(blocks))
        }
    }

    /// A copy with room for `new_cap` blocks: the first `len` blocks of `self`
    /// (or the first `new_cap`, if that is fewer), followed by zero blocks.
    pub fn clone_resize(&self, len: usize, new_cap: usize) -> (inner: Self)
        requires
            self.wf(),
            len <= self@.len(),
        ensures
            inner.wf(),
            inner@.len() == new_cap,
            forall|i: int| 0 <= i < len && i < new_cap ==> inner@[i] == self@[i],
            forall|i: int, j: int|
                len <= i < new_cap && 0 <= j < Block::width() ==> !#[trigger] inner@[i].bit(j),
    {
        if new_cap == 0 {
            return Inner(None);
        }
        let zero = Block::zero();
        let mut result: Vec<Block> = Vec::with_capacity(new_cap);
        let mut i: usize = 0;
        while i < new_cap
            invariant
                i <= new_cap,
                result@ == Seq::new(i as nat, |j: int| zero),
            decreases new_cap - i,
        {
            result.push(zero);
            i += 1;
            assert(result@ =~= Seq::new(i as nat, |j: int| zero));
        }

        let count = if len < new_cap {
            len
        } else {
            new_cap
        };
        let mut i: usize = 0;
        while i < count
            invariant
                self.wf(),
                i <= count,
                count <= len <= self@.len(),
                count <= new_cap,
                result@.len() == new_cap,
                forall|k: int| 0 <= k < i ==> result@[k] == self@[k],
                forall|k: int| i <= k < new_cap ==> result@[k] == zero,
            decreases count - i,
        {
            result[i] = *self.index(i);
            i += 1;
        }

        Inner(Some(result))
    }

    /// The number of blocks.
    pub fn len(&self) -> (len: usize)
        ensures
            len == self@.len(),
    {
        match &self.0 {
            Some(blocks) => blocks.len(),
            None => 0,
        }
    }

    /// Whether nothing is allocated.
    pub fn is_empty(&self) -> (empty: bool)
        ensures
            empty == !self.is_allocated(),
            self.wf() ==> empty == (self@.len() == 0),
    {
        self.0.is_none()
    }

    /// The blocks as a boxed slice, which is empty where nothing was
    /// allocated.
    pub fn into_boxed_slice(self) -> (boxed: Box<[Block]>)
        ensures
            boxed@ == self@,
    {
        match self.0 {
            Some(blocks) => into_boxed(blocks),
            None => into_boxed(Vec::new()),
        }
    }

    /// The blocks as a slice.
    pub fn as_slice(&self) -> (slice: &[Block])
        ensures
            slice@ == self@,
    {
        match &self.0 {
            Some(blocks) => blocks.as_slice(),
            None => &[],
        }
    }

    /// The blocks as a slice to write to.
    pub fn as_mut_slice(&mut self) -> (slice: &mut [Block])
        ensures
            slice@ == old(self)@,
            final(slice)@ == final(self)@,
            final(self).is_allocated() == old(self).is_allocated(),
            old(self).wf() && final(slice)@.len() == slice@.len() ==> final(self).wf(),
    {
        match &mut self.0 {
            Some(blocks) => blocks.as_mut_slice(),
            None => &mut [],
        }
    }

    /// The block at `index`.
    pub fn index(&self, index: usize) -> (block: &Block)
        requires
            index < self@.len(),
        ensures
            *block == self@[index as int],
    {
        match &self.0 {
            Some(blocks) => &blocks[index],
            None => vstd::pervasive::unreached(),
        }
    }

    /// The block at `index`, to write to.
    pub fn index_mut(&mut self, index: usize) -> (block: &mut Block)
        requires
            index < old(self)@.len(),
        ensures
            *block == old(self)@[index as int],
            final(self)@ == old(self)@.update(index as int, *final(block)),
            final(self).is_allocated() == old(self).is_allocated(),
            final(self).wf() == old(self).wf(),
    {
        match &mut self.0 {
            Some(blocks) => &mut blocks[index],
            None => vstd::pervasive::unreached(),
        }
    }
}

} // verus!
