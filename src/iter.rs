use vstd::prelude::*;

use crate::{decode, CompressedSequence};

verus! {

/// A walk position: item `pos`, local position `ipos` inside it.
pub(crate) open spec fn walk_ok(set: &CompressedSequence, pos: usize, ipos: usize) -> bool {
    &&& pos <= set.items().len()
    &&& pos < set.items().len() ==> ipos <= set.items()[pos as int].spec_len()
    &&& pos == set.items().len() ==> ipos == 0
}

/// The logical position that a walk position stands for.
pub(crate) open spec fn walk_index(set: &CompressedSequence, pos: usize, ipos: usize) -> int {
    decode(set.items().take(pos as int), set.stride()).len() + ipos
}

/// A walk position never passes the end of the values.
proof fn lemma_walk_bound(set: &CompressedSequence, pos: usize, ipos: usize)
    requires
        walk_ok(set, pos, ipos),
    ensures
        0 <= walk_index(set, pos, ipos) <= set@.len(),
        pos == set.items().len() ==> walk_index(set, pos, ipos) == set@.len(),
{
    if pos < set.items().len() {
        crate::lemma_decode_split(set.items(), pos as int, set.stride());
    } else {
        assert(set.items().take(pos as int) =~= set.items());
    }
}

/// The walk position of the first value.
proof fn lemma_walk_start(set: &CompressedSequence)
    ensures
        walk_ok(set, 0, 0),
        walk_index(set, 0, 0) == 0,
{
    assert(set.items().take(0) =~= Seq::empty());
}

/// Yields the value at the walk position and moves past it, or `None` at the end.
fn walk_next(set: &CompressedSequence, pos: &mut usize, ipos: &mut usize) -> (r: Option<u32>)
    requires
        set.wf(),
        walk_ok(set, *old(pos), *old(ipos)),
    ensures
        walk_ok(set, *final(pos), *final(ipos)),
        walk_index(set, *final(pos), *final(ipos)) <= set@.len(),
        walk_index(set, *old(pos), *old(ipos)) < set@.len() ==> r == Some(
            set@[walk_index(set, *old(pos), *old(ipos))],
        ) && walk_index(set, *final(pos), *final(ipos)) == walk_index(set, *old(pos), *old(ipos))
            + 1,
        walk_index(set, *old(pos), *old(ipos)) >= set@.len() ==> r is None && walk_index(
            set,
            *final(pos),
            *final(ipos),
        ) == walk_index(set, *old(pos), *old(ipos)),
{
    let ghost start = walk_index(set, *pos, *ipos);
    proof {
        lemma_walk_bound(set, *pos, *ipos);
    }
    loop
        invariant
            set.wf(),
            walk_ok(set, *pos, *ipos),
            walk_index(set, *pos, *ipos) == start,
            start == walk_index(set, *old(pos), *old(ipos)),
            start <= set@.len(),
        decreases set.items().len() - *pos,
    {
        if *pos >= set.seq.len() {
            proof {
                lemma_walk_bound(set, *pos, *ipos);
            }
            return None;
        }
        proof {
            crate::lemma_decode_split(set.items(), *pos as int, set.stride());
            assert(set.items()[*pos as int].wf(set.stride()));
        }
        match set.seq[*pos].at(*ipos, set.step) {
            Some(v) => {
                proof {
                    assert(set@[start] == decode(set.items().take(*pos as int + 1), set.stride())[start]);
                    assert(v == set@[start]);
                }
                *ipos = *ipos + 1;
                proof {
                    lemma_walk_bound(set, *pos, *ipos);
                }
                return Some(v);
            },
            None => {
                *ipos = 0;
                *pos = *pos + 1;
            },
        }
    }
}

/// Forward iterator over a borrowed sequence.
pub struct CompSeqIterRef<'a> {
    set: &'a CompressedSequence,
    pos: usize,
    ipos: usize,
}

impl<'a> CompSeqIterRef<'a> {
    /// The values walked over.
    pub closed spec fn values(&self) -> Seq<u32> {
        self.set@
    }

    /// How many values have been yielded.
    pub closed spec fn index(&self) -> int {
        walk_index(self.set, self.pos, self.ipos)
    }

    /// The walk position is consistent with the sequence.
    pub closed spec fn wf(&self) -> bool {
        self.set.wf() && walk_ok(self.set, self.pos, self.ipos)
    }

    /// An iterator at the first value of `set`.
    pub fn new(set: &'a CompressedSequence) -> (r: Self)
        requires
            set.wf(),
        ensures
            r.wf(),
            r.values() == set@,
            r.index() == 0,
    {
        proof {
            lemma_walk_start(set);
        }
        Self { set, pos: 0, ipos: 0 }
    }

    /// The next value, or `None` once every value was yielded.
    pub fn next(&mut self) -> (r: Option<u32>)
        requires
            old(self).wf(),
        ensures
            final(self).wf(),
            final(self).values() == old(self).values(),
            0 <= final(self).index() <= final(self).values().len(),
            old(self).index() < old(self).values().len() ==> r == Some(
                old(self).values()[old(self).index()],
            ) && final(self).index() == old(self).index() + 1,
            old(self).index() >= old(self).values().len() ==> r is None && final(self).index()
                == old(self).index(),
    {
        proof {
            lemma_walk_bound(self.set, self.pos, self.ipos);
        }
        let set = self.set;
        walk_next(set, &mut self.pos, &mut self.ipos)
    }
}

/// Iterator that owns the sequence it walks over.
pub struct CompSeqIter {
    set: CompressedSequence,
    pos: usize,
    ipos: usize,
}

impl CompSeqIter {
    /// The values walked over.
    pub closed spec fn values(&self) -> Seq<u32> {
        self.set@
    }

    /// How many values have been yielded.
    pub closed spec fn index(&self) -> int {
        walk_index(&self.set, self.pos, self.ipos)
    }

    /// The walk position is consistent with the sequence.
    pub closed spec fn wf(&self) -> bool {
        self.set.wf() && walk_ok(&self.set, self.pos, self.ipos)
    }

    /// An iterator at the first value of `set`.
    pub fn new(set: CompressedSequence) -> (r: Self)
        requires
            set.wf(),
        ensures
            r.wf(),
            r.values() == set@,
            r.index() == 0,
    {
        proof {
            lemma_walk_start(&set);
        }
        Self { set, pos: 0, ipos: 0 }
    }

    /// The next value, or `None` once every value was yielded.
    pub fn next(&mut self) -> (r: Option<u32>)
        requires
            old(self).wf(),
        ensures
            final(self).wf(),
            final(self).values() == old(self).values(),
            0 <= final(self).index() <= final(self).values().len(),
            old(self).index() < old(self).values().len() ==> r == Some(
                old(self).values()[old(self).index()],
            ) && final(self).index() == old(self).index() + 1,
            old(self).index() >= old(self).values().len() ==> r is None && final(self).index()
                == old(self).index(),
    {
        proof {
            lemma_walk_bound(&self.set, self.pos, self.ipos);
        }
        walk_next(&self.set, &mut self.pos, &mut self.ipos)
    }
}

} // verus!
