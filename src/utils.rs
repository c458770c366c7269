use std::collections::HashMap;
use vstd::prelude::*;

verus! {

broadcast use vstd::std_specs::hash::group_hash_axioms;

/// How many consecutive pairs of `list` lie exactly `d` apart.
pub open spec fn step_count(list: Seq<u32>, d: int) -> nat
    decreases list.len(),
{
    if list.len() < 2 {
        0
    } else {
        step_count(list.drop_last(), d) + if list.last() - list[list.len() - 2] == d {
            1nat
        } else {
            0nat
        }
    }
}

/// Ascending, equal neighbours allowed.
pub open spec fn non_descending(list: Seq<u32>) -> bool {
    forall|i: int| 1 <= i < list.len() ==> list[i - 1] <= #[trigger] list[i]
}

/// A step occurs in `list` exactly when some consecutive pair lies that far apart; there are
/// fewer such pairs than values.
proof fn lemma_step_count(list: Seq<u32>, d: int)
    ensures
        step_count(list, d) > 0 <==> exists|j: int|
            1 <= j < list.len() && #[trigger] list[j] - list[j - 1] == d,
        list.len() > 0 ==> step_count(list, d) < list.len(),
    decreases list.len(),
{
    if list.len() >= 2 {
        let init = list.drop_last();
        lemma_step_count(init, d);
        if step_count(init, d) > 0 {
            let j = choose|j: int| 1 <= j < init.len() && #[trigger] init[j] - init[j - 1] == d;
            assert(list[j] - list[j - 1] == d);
        }
        if exists|j: int| 1 <= j < list.len() && #[trigger] list[j] - list[j - 1] == d {
            let j = choose|j: int| 1 <= j < list.len() && #[trigger] list[j] - list[j - 1] == d;
            if j < list.len() - 1 {
                assert(init[j] - init[j - 1] == d);
            }
        }
    }
}

/// For each step between consecutive values of an ascending `list`, how often it occurs.
pub fn get_steps_freq(list: &[u32]) -> (r: HashMap<u32, u32>)
    requires
        non_descending(list@),
        list@.len() <= u32::MAX,
    ensures
        forall|d: u32| #[trigger] r@.contains_key(d) <==> step_count(list@, d as int) > 0,
        forall|d: u32| #[trigger] r@.contains_key(d) ==> r@[d] == step_count(list@, d as int),
{
    let mut step_size_freq: HashMap<u32, u32> = HashMap::new();
    if list.len() < 2 {
        proof {
            assert forall|d: u32| step_count(list@, d as int) == 0 by {}
        }
        return step_size_freq;
    }
    let mut i: usize = 1;
    while i < list.len()
        invariant
            non_descending(list@),
            list@.len() <= u32::MAX,
            1 <= i <= list@.len(),
            forall|d: u32| #[trigger]
                step_size_freq@.contains_key(d) <==> step_count(list@.take(i as int), d as int)
                    > 0,
            forall|d: u32| #[trigger]
                step_size_freq@.contains_key(d) ==> step_size_freq@[d] == step_count(
                    list@.take(i as int),
                    d as int,
                ),
        decreases list@.len() - i,
    {
        let step = list[i] - list[i - 1];
        let ghost before = list@.take(i as int);
        let ghost after = list@.take(i as int + 1);
        proof {
            assert(after.drop_last() =~= before);
            lemma_step_count(before, step as int);
        }
        let count = match step_size_freq.get(&step) {
            Some(c) => *c,
            None => 0,
        };
        step_size_freq.insert(step, count + 1);
        proof {
            assert forall|d: u32| #[trigger]
                step_size_freq@.contains_key(d) <==> step_count(after, d as int) > 0 by {
                if d != step {
                    assert(step_count(after, d as int) == step_count(before, d as int));
                }
            }
            assert forall|d: u32| #[trigger]
                step_size_freq@.contains_key(d) implies step_size_freq@[d] == step_count(
                after,
                d as int,
            ) by {
                if d != step {
                    assert(step_count(after, d as int) == step_count(before, d as int));
                }
            }
        }
        i += 1;
    }
    proof {
        assert(list@.take(i as int) =~= list@);
    }
    step_size_freq
}

/// The most frequent step between consecutive values of an ascending `list`; `1` when the list
/// has fewer than two values.
pub fn max_step_size(list: &[u32]) -> (r: u32)
    requires
        non_descending(list@),
        list@.len() <= u32::MAX,
    ensures
        list@.len() < 2 ==> r == 1,
        list@.len() >= 2 ==> step_count(list@, r as int) > 0 && forall|d: int|
            step_count(list@, d) <= step_count(list@, r as int),
{
    let freq = get_steps_freq(list);
    if list.len() < 2 {
        return 1;
    }
    let mut best: u32 = list[1] - list[0];
    proof {
        lemma_step_count(list@, best as int);
        assert(list@[1] - list@[0] == best);
    }
    let mut best_count: u32 = match freq.get(&best) {
        Some(c) => *c,
        None => 0,
    };
    let mut i: usize = 2;
    while i < list.len()
        invariant
            non_descending(list@),
            2 <= i <= list@.len(),
            forall|d: u32| #[trigger] freq@.contains_key(d) <==> step_count(list@, d as int) > 0,
            forall|d: u32| #[trigger] freq@.contains_key(d) ==> freq@[d] == step_count(list@, d as int),
            best_count == step_count(list@, best as int),
            step_count(list@, best as int) > 0,
            forall|j: int|
                1 <= j < i ==> step_count(list@, #[trigger] (list@[j] - list@[j - 1]))
                    <= best_count,
        decreases list@.len() - i,
    {
        let step = list[i] - list[i - 1];
        proof {
            lemma_step_count(list@, step as int);
            assert(list@[i as int] - list@[i - 1] == step);
        }
        let count = match freq.get(&step) {
            Some(c) => *c,
            None => 0,
        };
        if count > best_count {
            best = step;
            best_count = count;
        }
        i += 1;
    }
    proof {
        assert forall|d: int| step_count(list@, d) <= step_count(list@, best as int) by {
            lemma_step_count(list@, d);
            if step_count(list@, d) > 0 {
                let j = choose|j: int| 1 <= j < list@.len() && #[trigger] (list@[j] - list@[j - 1]) == d;
            }
        }
    }
    best
}

} // verus!
