use compressed_set::get_cache::GetCache;
use compressed_set::item::Item;
use compressed_set::CompressedSequence;

fn interleaved() -> (CompressedSequence, Vec<u32>) {
    let mut comp_seq = CompressedSequence::new(10);
    let mut exp = vec![];
    for (pos, i) in (0..=9120).step_by(10).enumerate() {
        comp_seq.push(i);
        exp.push(i);

        if pos % 42 == 0 {
            comp_seq.push(i + 1);
            exp.push(i + 1);
        }
    }
    (comp_seq, exp)
}

#[test]
fn test_push() {
    let mut comp_seq = CompressedSequence::new(10);

    let mut exp = vec![];

    for j in 1..30u32 {
        for i in (j * 1..=j * 100).step_by(10) {
            comp_seq.push(i);
            exp.push(i);
        }

        for i in (j * 100..=j * 120).step_by(3) {
            comp_seq.push(i);
            exp.push(i);
        }

        for i in (j * 150..=j * 200).step_by(10) {
            comp_seq.push(i);
            exp.push(i);
        }
    }

    println!("{:#?}", comp_seq);
    assert_eq!(comp_seq.to_vec(), exp);
    assert_eq!(comp_seq.len(), exp.len());

    for (pos, i) in exp.iter().enumerate() {
        assert_eq!(comp_seq.get(pos), Some(*i));
    }
}

#[test]
fn test_bin_search() {
    let (comp_seq, exp) = interleaved();

    assert_eq!(comp_seq.to_vec(), exp);
    assert_eq!(comp_seq.len(), exp.len());

    for (pos, i) in exp.iter().enumerate() {
        assert_eq!(comp_seq.get(pos), Some(*i));
        assert!(comp_seq.has_bin_search(*i));
    }
}

#[test]
fn test_iter() {
    let (comp_seq, exp) = interleaved();

    let mut out = vec![];
    let mut it = comp_seq.iter();
    while let Some(v) = it.next() {
        out.push(v);
    }
    assert_eq!(out, exp);
}

#[test]
fn test_big_sequence() {
    let mut comp_seq = CompressedSequence::new(10);
    for i in (0..1_000_000).step_by(10) {
        comp_seq.push(i);
    }

    assert_eq!(comp_seq.len(), 100_000);
}

#[test]
fn test_get_smol() {
    let comp_seq = CompressedSequence::new(10);
    assert_eq!(comp_seq.get(0), None);
}

#[test]
fn scenario_single_run() {
    let mut s = CompressedSequence::new(10);
    for v in [1, 11, 21, 31] {
        s.push(v);
    }
    assert_eq!(s.to_vec(), vec![1, 11, 21, 31]);
    assert_eq!(s.seq(), &vec![Item::Sequence(1, 3)]);
    assert!(s.has_bin_search(21));
    assert!(!s.has_bin_search(25));
}

#[test]
fn scenario_two_value_pair() {
    let mut s = CompressedSequence::new(10);
    s.push(5);
    s.push(7);
    assert_eq!(s.seq(), &vec![Item::Numbers(5, Some(2))]);
    assert_eq!(s.get(0), Some(5));
    assert_eq!(s.get(1), Some(7));
    assert_eq!(s.get(2), None);
}

#[test]
fn empty_sequence_has_no_positions() {
    let s = CompressedSequence::new(3);
    assert!(s.is_empty());
    assert_eq!(s.len(), 0);
    assert_eq!(s.to_vec(), Vec::<u32>::new());
    for p in [0usize, 1, 100, usize::MAX] {
        assert_eq!(s.get(p), None);
    }
    let mut cache = GetCache::new();
    assert_eq!(s.get_cached(0, &mut cache), None);
    assert!(!s.contains(0));
    assert!(!s.has_bin_search(0));
}

#[test]
fn full_run_starts_new_item() {
    let mut s = CompressedSequence::new(1);
    for v in 0..=65535u32 {
        s.push(v);
    }
    assert_eq!(s.seq(), &vec![Item::Sequence(0, 65535)]);
    s.push(65536);
    assert_eq!(
        s.seq(),
        &vec![Item::Sequence(0, 65535), Item::Numbers(65536, None)]
    );
    assert_eq!(s.len(), 65537);
    assert_eq!(s.get(65535), Some(65535));
    assert_eq!(s.get(65536), Some(65536));
}

#[test]
fn pair_offset_at_limit_and_beyond() {
    let mut s = CompressedSequence::new(7);
    s.push(100);
    s.push(100 + 65535);
    assert_eq!(s.seq(), &vec![Item::Numbers(100, Some(65535))]);

    let mut t = CompressedSequence::new(7);
    t.push(100);
    t.push(100 + 65536);
    assert_eq!(
        t.seq(),
        &vec![Item::Numbers(100, None), Item::Numbers(65636, None)]
    );
    assert_eq!(t.to_vec(), vec![100, 65636]);
}

#[test]
fn greedy_encoding_of_mixed_values() {
    let mut s = CompressedSequence::new(10);
    for v in [0, 10, 20, 25, 30, 100, 105, 115] {
        s.push(v);
    }
    assert_eq!(
        s.seq(),
        &vec![
            Item::Sequence(0, 2),
            Item::Numbers(25, Some(5)),
            Item::Numbers(100, Some(5)),
            Item::Numbers(115, None),
        ]
    );
    assert_eq!(s.item_counts(), (3, 1, 1));
    assert_eq!(s.to_vec(), vec![0, 10, 20, 25, 30, 100, 105, 115]);
}

#[test]
fn contains_and_bin_search_agree_with_values() {
    let (s, exp) = interleaved();
    for v in 0..9200u32 {
        let present = exp.contains(&v);
        assert_eq!(s.contains(v), present);
        assert_eq!(s.has_bin_search(v), present);
    }
}

#[test]
fn cached_get_matches_get_warm_and_cold() {
    let (s, exp) = interleaved();
    let mut warm = GetCache::new();
    for pos in 0..exp.len() + 3 {
        let mut cold = GetCache::new();
        assert_eq!(s.get_cached(pos, &mut cold), s.get(pos));
        assert_eq!(s.get_cached(pos, &mut warm), s.get(pos));
    }
    for pos in (0..exp.len() + 3).rev() {
        assert_eq!(s.get_cached(pos, &mut warm), s.get(pos));
    }
    assert!(!warm.entries().is_empty());
}

#[test]
fn consuming_iterator_yields_ascending_order() {
    let (s, exp) = interleaved();
    let mut forward = vec![];
    let mut it = s.iter();
    while let Some(v) = it.next() {
        forward.push(v);
    }
    let mut owned = vec![];
    let mut it = s.clone().into_iter();
    while let Some(v) = it.next() {
        owned.push(v);
    }
    assert_eq!(owned, forward);
    assert_eq!(owned, exp);
    assert_eq!(it.next(), None);
}

#[test]
fn from_iterator_sorts_first() {
    let s = CompressedSequence::from_iterator(10, vec![31, 1, 21, 11, 4]);
    assert_eq!(s.to_vec(), vec![1, 4, 11, 21, 31]);
    assert_eq!(s.step(), 10);
}

#[test]
fn extend_appends_in_order() {
    let mut s = CompressedSequence::new(2);
    s.push(1);
    s.extend(vec![3, 5, 6, 9]);
    assert_eq!(s.to_vec(), vec![1, 3, 5, 6, 9]);
    assert_eq!(s.seq(), &vec![Item::Sequence(1, 2), Item::Numbers(6, Some(3))]);
}

#[test]
fn parts_round_trip() {
    let (s, exp) = interleaved();
    let back = CompressedSequence::from_parts(s.step(), s.seq().clone()).unwrap();
    assert_eq!(back.to_vec(), exp);
    assert_eq!(back, s);
}

#[test]
fn from_parts_rejects_invalid_items() {
    assert!(CompressedSequence::from_parts(10, vec![]).is_some());
    // zero offset in a pair
    assert!(CompressedSequence::from_parts(10, vec![Item::Numbers(1, Some(0))]).is_none());
    // a pair whose second value does not fit in u32
    assert!(CompressedSequence::from_parts(10, vec![Item::Numbers(u32::MAX, Some(1))]).is_none());
    // a run whose values do not fit in u32
    assert!(CompressedSequence::from_parts(10, vec![Item::Sequence(u32::MAX - 5, 1)]).is_none());
    // a run of repeated values
    assert!(CompressedSequence::from_parts(0, vec![Item::Sequence(3, 1)]).is_none());
    // items out of order
    assert!(CompressedSequence::from_parts(
        10,
        vec![Item::Sequence(0, 2), Item::Numbers(20, None)]
    )
    .is_none());
    let ok = CompressedSequence::from_parts(
        10,
        vec![Item::Sequence(0, 2), Item::Numbers(21, Some(4))],
    )
    .unwrap();
    assert_eq!(ok.to_vec(), vec![0, 10, 20, 21, 25]);
}

#[test]
fn size_grows_with_items() {
    let mut s = CompressedSequence::new(10);
    let empty = s.size_of();
    s.push(1);
    s.push(1000);
    assert_eq!(s.size_of(), empty + std::mem::size_of::<Item>());
}
