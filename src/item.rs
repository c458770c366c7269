use vstd::prelude::*;

verus! {

/// One encoded block of a compressed sequence.
#[derive(Debug, Clone, Copy, PartialEq, Eq)]
pub enum Item {
    /// A base value and an optional second value, stored as a non-zero offset from the base.
    Numbers(u32, Option<u16>),
    /// A run `(start, extra)`: `extra + 1` values `start, start + stride, ...`.
    Sequence(u32, u16),
}

/// `i * stride` grows with `i`.
pub proof fn lemma_mul_mono(i: int, c: int, stride: int)
    requires
        0 <= i <= c,
        0 <= stride,
    ensures
        0 <= i * stride <= c * stride,
{
    assert(0 <= i * stride <= c * stride) by (nonlinear_arith)
        requires
            0 <= i <= c,
            0 <= stride,
    ;
}

impl Item {
    /// Number of values the item represents.
    pub open spec fn spec_len(self) -> nat {
        match self {
            Item::Numbers(_, b) => if b is Some {
                2nat
            } else {
                1nat
            },
            Item::Sequence(_, c) => c as nat + 1,
        }
    }

    /// The value at local position `i`, as a mathematical integer.
    pub open spec fn value_at(self, i: int, stride: u32) -> int {
        match self {
            Item::Numbers(a, b) => if i == 0 {
                a as int
            } else {
                a + b.unwrap()
            },
            Item::Sequence(s, _) => s + i * stride,
        }
    }

    /// The item's last value, as a mathematical integer.
    pub open spec fn last_value(self, stride: u32) -> int {
        self.value_at(self.spec_len() - 1, stride)
    }

    /// Every value of the item fits in a `u32`, and a second value of a pair lies above its base.
    pub open spec fn wf(self, stride: u32) -> bool {
        match self {
            Item::Numbers(a, b) => match b {
                Some(d) => d != 0 && a + d <= u32::MAX,
                None => true,
            },
            Item::Sequence(s, c) => s + c * stride <= u32::MAX,
        }
    }

    /// The values the item represents, in order.
    pub open spec fn values(self, stride: u32) -> Seq<u32> {
        Seq::new(self.spec_len(), |i: int| self.value_at(i, stride) as u32)
    }

    /// Each value of a well-formed item lies between its first and last value.
    pub proof fn lemma_value_bounds(self, i: int, stride: u32)
        requires
            self.wf(stride),
            0 <= i < self.spec_len(),
        ensures
            self.value_at(0, stride) <= self.value_at(i, stride) <= self.last_value(stride),
            self.last_value(stride) <= u32::MAX,
            0 <= self.value_at(i, stride),
            self.values(stride)[i] == self.value_at(i, stride),
    {
        if let Item::Sequence(s, c) = self {
            lemma_mul_mono(i, c as int, stride as int);
        }
    }

    /// A single-value pair.
    pub fn new(v: u32) -> (r: Self)
        ensures
            r == Item::Numbers(v, None),
    {
        Item::Numbers(v, None)
    }

    /// Appends the next stride step to a run; a pair is left as it is.
    pub fn seq_add(&mut self)
        requires
            *old(self) is Sequence ==> old(self)->Sequence_1 < u16::MAX,
        ensures
            *final(self) == match *old(self) {
                Item::Sequence(s, c) => Item::Sequence(s, (c + 1) as u16),
                other => other,
            },
    {
        if let Item::Sequence(_, cnt) = self {
            *cnt = *cnt + 1;
        }
    }

    /// Number of values the item represents.
    pub fn len(&self) -> (r: usize)
        ensures
            r == self.spec_len(),
    {
        match self {
            Item::Numbers(_, b) => {
                if b.is_some() {
                    2
                } else {
                    1
                }
            },
            Item::Sequence(_, slen) => *slen as usize + 1,
        }
    }

    /// The value at local position `pos`, or `None` past the item's end.
    pub fn at(&self, pos: usize, step_size: u32) -> (r: Option<u32>)
        requires
            self.wf(step_size),
        ensures
            r == if pos < self.spec_len() {
                Some(self.values(step_size)[pos as int])
            } else {
                None::<u32>
            },
    {
        match self {
            Item::Numbers(a, b) => {
                if pos == 0 {
                    Some(*a)
                } else if pos == 1 {
                    match b {
                        Some(d) => Some(*a + *d as u32),
                        None => None,
                    }
                } else {
                    None
                }
            },
            Item::Sequence(start, cnt) => {
                if pos > *cnt as usize {
                    return None;
                }
                proof {
                    lemma_mul_mono(pos as int, *cnt as int, step_size as int);
                }
                Some(*start + (pos as u32 * step_size))
            },
        }
    }

    /// The last value the item represents.
    pub fn last_number(&self, step_size: u32) -> (r: u32)
        requires
            self.wf(step_size),
        ensures
            r == self.last_value(step_size),
            r == self.values(step_size).last(),
    {
        proof {
            self.lemma_value_bounds(self.spec_len() - 1, step_size);
        }
        match self {
            Item::Numbers(a, b) => {
                if let Some(d) = b {
                    *a + *d as u32
                } else {
                    *a
                }
            },
            Item::Sequence(start, count) => {
                proof {
                    lemma_mul_mono(*count as int, *count as int, step_size as int);
                }
                *start + (*count as u32 * step_size)
            },
        }
    }

    /// Turns a single-value pair into a run of one value; a run is returned as it is.
    pub fn to_sequence(self) -> (r: Self)
        requires
            !(self matches Item::Numbers(_, Some(_))),
        ensures
            r is Sequence,
            r == match self {
                Item::Numbers(a, _) => Item::Sequence(a, 0),
                other => other,
            },
    {
        match self {
            Item::Numbers(a, _) => Item::Sequence(a, 0),
            Item::Sequence(_, _) => self,
        }
    }

    /// Whether one more value fits into the item.
    pub fn can_add(&self) -> (r: bool)
        ensures
            r == match *self {
                Item::Numbers(_, b) => b is None,
                Item::Sequence(_, c) => c != u16::MAX,
            },
    {
        match self {
            Item::Numbers(_, b) => b.is_none(),
            Item::Sequence(_, cnt) => *cnt != u16::MAX,
        }
    }

    /// Whether the item is a pair.
    pub fn is_numbers(&self) -> (r: bool)
        ensures
            r == self is Numbers,
    {
        matches!(self, Item::Numbers(..))
    }

    /// Whether the item is a run.
    pub fn is_sequence(&self) -> (r: bool)
        ensures
            r == self is Sequence,
    {
        matches!(self, Item::Sequence(..))
    }
}

} // verus!
