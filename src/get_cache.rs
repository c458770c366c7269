use vstd::prelude::*;

verus! {

/// Keys (first components) strictly ascending.
pub open spec fn keys_ascending(s: Seq<(u32, u32, u32)>) -> bool {
    forall|i: int, j: int| 0 <= i < j < s.len() ==> s[i].0 < s[j].0
}

/// Hints for positional lookups: entries `(position, item index, values before that item)`,
/// sorted by position.
pub struct GetCache {
    cache: Vec<(u32, u32, u32)>,
}

impl View for GetCache {
    type V = Seq<(u32, u32, u32)>;

    closed spec fn view(&self) -> Seq<(u32, u32, u32)> {
        self.cache@
    }
}

impl GetCache {
    /// Entries sorted by position, without repeated positions.
    pub open spec fn wf(&self) -> bool {
        keys_ascending(self@)
    }

    /// An empty cache.
    pub fn new() -> (r: Self)
        ensures
            r.wf(),
            r@ == Seq::<(u32, u32, u32)>::empty(),
    {
        Self { cache: Vec::new() }
    }

    /// An empty cache with room for `size` entries.
    pub fn with_capacity(size: usize) -> (r: Self)
        ensures
            r.wf(),
            r@ == Seq::<(u32, u32, u32)>::empty(),
    {
        Self { cache: Vec::with_capacity(size) }
    }

    /// The entries, sorted by position.
    pub fn entries(&self) -> (r: &[(u32, u32, u32)])
        ensures
            r@ == self@,
    {
        self.cache.as_slice()
    }

    /// Index of the entry keyed `pos`, or the index where such an entry would go.
    fn search(&self, pos: u32) -> (r: Result<usize, usize>)
        requires
            self.wf(),
        ensures
            r matches Ok(i) ==> i < self@.len() && self@[i as int].0 == pos,
            r matches Err(i) ==> i <= self@.len() && (forall|j: int|
                0 <= j < i ==> #[trigger] self@[j].0 < pos) && (forall|j: int|
                i <= j < self@.len() ==> #[trigger] self@[j].0 > pos),
    {
        let mut lo: usize = 0;
        let mut hi: usize = self.cache.len();
        while lo < hi
            invariant
                self.wf(),
                lo <= hi <= self@.len(),
                forall|j: int| 0 <= j < lo ==> #[trigger] self@[j].0 < pos,
                forall|j: int| hi <= j < self@.len() ==> #[trigger] self@[j].0 > pos,
            decreases hi - lo,
        {
            let mid = lo + (hi - lo) / 2;
            let key = self.cache[mid].0;
            if key == pos {
                return Ok(mid);
            } else if key < pos {
                lo = mid + 1;
            } else {
                hi = mid;
            }
        }
        Err(lo)
    }

    /// Adds the entry `(pos, vec_pos, len)`; an entry already keyed `pos` is kept as it is.
    pub fn insert(&mut self, pos: u32, vec_pos: u32, len: u32)
        requires
            old(self).wf(),
        ensures
            final(self).wf(),
            (exists|j: int| 0 <= j < old(self)@.len() && old(self)@[j].0 == pos) ==> final(self)@
                == old(self)@,
            !(exists|j: int| 0 <= j < old(self)@.len() && old(self)@[j].0 == pos) ==> exists|
                k: int,
            |
                0 <= k <= old(self)@.len() && final(self)@ == old(self)@.insert(
                    k,
                    (pos, vec_pos, len),
                ),
    {
        match self.search(pos) {
            Ok(_) => {},
            Err(new_pos) => {
                let ghost before = self@;
                self.cache.insert(new_pos, (pos, vec_pos, len));
                assert(self@ == before.insert(new_pos as int, (pos, vec_pos, len)));
                assert forall|i: int, j: int| 0 <= i < j < self@.len() implies self@[i].0
                    < self@[j].0 by {
                    if j < new_pos {
                    } else if j == new_pos {
                        assert(before[i].0 < pos);
                    } else if i == new_pos {
                        assert(before[j - 1].0 > pos);
                    } else if i < new_pos {
                        assert(before[i].0 < pos < before[j - 1].0);
                    } else {
                        assert(before[i - 1].0 < before[j - 1].0);
                    }
                }
            },
        }
    }

    /// The entry keyed `pos`, else the entry with the greatest key below `pos`, else `None`.
    pub fn get(&self, pos: u32) -> (r: Option<(u32, u32, u32)>)
        requires
            self.wf(),
        ensures
            r is None <==> (forall|j: int| 0 <= j < self@.len() ==> #[trigger] self@[j].0 > pos),
            r matches Some(e) ==> self@.contains(e) && e.0 <= pos && (forall|j: int|
                0 <= j < self@.len() && #[trigger] self@[j].0 <= pos ==> self@[j].0 <= e.0),
    {
        match self.search(pos) {
            Ok(cpos) => {
                let e = self.cache[cpos];
                proof {
                    assert(self@[cpos as int] == e);
                    assert forall|j: int|
                        0 <= j < self@.len() && #[trigger] self@[j].0 <= pos implies self@[j].0
                        <= e.0 by {
                        if j > cpos {
                            assert(self@[cpos as int].0 < self@[j].0);
                        }
                    }
                }
                Some(e)
            },
            Err(tpos) => {
                if tpos > 0 {
                    let e = self.cache[tpos - 1];
                    proof {
                        assert(self@[tpos - 1] == e);
                        assert forall|j: int|
                            0 <= j < self@.len() && #[trigger] self@[j].0 <= pos implies self@[j].0
                            <= e.0 by {
                            if j > tpos - 1 {
                                assert(self@[j].0 > pos);
                            } else if j < tpos - 1 {
                                assert(self@[j].0 < self@[tpos - 1].0);
                            }
                        }
                    }
                    Some(e)
                } else {
                    None
                }
            },
        }
    }
}

} // verus!
