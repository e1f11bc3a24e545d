use kestrel::fragment::build_fragments_from_data;
use kestrel::{Fragment, FragmentCombiner};

fn boxed_fragments(data: &[u8], seq_id: u32) -> Vec<Fragment<Box<[u8]>>> {
    let mut generator = build_fragments_from_data(data, seq_id).unwrap();
    let mut fragments = Vec::new();
    while let Some(fragment) = generator.next() {
        fragments.push(fragment.into_boxed());
    }
    fragments
}

fn copy_of(fragment: &Fragment<Box<[u8]>>) -> Fragment<Box<[u8]>> {
    Fragment {
        seq_id: fragment.seq_id,
        frag_id: fragment.frag_id,
        frag_total: fragment.frag_total,
        data: fragment.data.clone(),
    }
}

#[test]
fn fragment_combiner_success() {
    let fragments: Vec<Fragment<Box<[u8]>>> = vec![
        Fragment { seq_id: 3, frag_id: 1, frag_total: 2, data: Box::new([0, 5]) },
        Fragment { seq_id: 4, frag_id: 1, frag_total: 2, data: Box::new([4, 0]) },
        Fragment { seq_id: 7, frag_id: 0, frag_total: 0, data: Box::new([64, 64]) },
        Fragment { seq_id: 5, frag_id: 1, frag_total: 2, data: Box::new([4, 5]) },
        Fragment { seq_id: 5, frag_id: 0, frag_total: 2, data: Box::new([1, 2, 3]) },
        Fragment { seq_id: 5, frag_id: 2, frag_total: 2, data: Box::new([6, 7, 8, 9]) },
        Fragment { seq_id: 6, frag_id: 1, frag_total: 2, data: Box::new([14, 5]) },
    ];
    let mut fragment_combiner = FragmentCombiner::new();
    for fragment in fragments {
        fragment_combiner.push(fragment);
    }

    let out_message = fragment_combiner.next_out_message().unwrap();
    assert_eq!(out_message.as_ref(), &[64, 64]);
    let out_message = fragment_combiner.next_out_message().unwrap();
    assert_eq!(out_message.as_ref(), &[1, 2, 3, 4, 5, 6, 7, 8, 9]);
}

#[test]
fn new_combiner_has_nothing_ready() {
    let mut combiner: FragmentCombiner<Box<[u8]>> = FragmentCombiner::new();
    assert!(combiner.next_out_message().is_none());
    assert!(combiner.out_messages().is_empty());
}

#[test]
fn single_fragment_message_is_ready_at_once() {
    let mut combiner = FragmentCombiner::new();
    for fragment in boxed_fragments(&[5], 0) {
        combiner.push(fragment);
    }
    let ready = combiner.out_messages();
    assert_eq!(ready.len(), 1);
    assert_eq!(ready[0].as_ref(), &[5u8]);
}

#[test]
fn two_fragments_in_reverse_order() {
    let data = vec![0u8; 2048];
    let mut fragments = boxed_fragments(&data, 1);
    assert_eq!(fragments.len(), 2);
    assert_eq!(fragments[0].data.len(), 1280);
    assert_eq!(fragments[1].data.len(), 768);
    fragments.reverse();
    let mut combiner = FragmentCombiner::new();
    let mut fragments = fragments.into_iter();
    combiner.push(fragments.next().unwrap());
    assert!(combiner.next_out_message().is_none());
    combiner.push(fragments.next().unwrap());
    let ready = combiner.out_messages();
    assert_eq!(ready.len(), 1);
    assert_eq!(ready[0].as_ref(), data.as_slice());
}

#[test]
fn every_arrival_order_of_four_fragments_gives_the_message() {
    let data: Vec<u8> = (0..4000u32).map(|i| (i % 253) as u8).collect();
    let orders: [[usize; 4]; 6] =
        [[0, 1, 2, 3], [3, 2, 1, 0], [1, 3, 0, 2], [2, 0, 3, 1], [3, 0, 1, 2], [1, 0, 3, 2]];
    for order in orders.iter() {
        let fragments = boxed_fragments(&data, 11);
        assert_eq!(fragments.len(), 4);
        let mut combiner = FragmentCombiner::new();
        for &k in order.iter() {
            combiner.push(copy_of(&fragments[k]));
        }
        let ready = combiner.out_messages();
        assert_eq!(ready.len(), 1);
        assert_eq!(ready[0].as_ref(), data.as_slice());
        assert!(combiner.next_out_message().is_none());
    }
}

#[test]
fn largest_message_is_reassembled() {
    let data: Vec<u8> = (0..64 * 1280u32).map(|i| (i % 241) as u8).collect();
    let mut fragments = boxed_fragments(&data, 2);
    assert_eq!(fragments.len(), 64);
    fragments.reverse();
    fragments.swap(3, 40);
    let mut combiner = FragmentCombiner::new();
    for fragment in fragments {
        combiner.push(fragment);
    }
    let ready = combiner.out_messages();
    assert_eq!(ready.len(), 1);
    assert_eq!(ready[0].as_ref(), data.as_slice());
}

#[test]
fn duplicate_fragment_before_completion_does_no_harm() {
    let data: Vec<u8> = (0..3100u32).map(|i| (i % 199) as u8).collect();
    let fragments = boxed_fragments(&data, 5);
    assert_eq!(fragments.len(), 3);
    let mut combiner = FragmentCombiner::new();
    for &k in [0usize, 1, 0, 2].iter() {
        combiner.push(copy_of(&fragments[k]));
    }
    let ready = combiner.out_messages();
    assert_eq!(ready.len(), 1);
    assert_eq!(ready[0].len(), 3100);
    assert_eq!(ready[0].as_ref(), data.as_slice());
    assert!(combiner.next_out_message().is_none());
}

#[test]
fn mismatched_fragment_total_gives_no_message() {
    let mut combiner = FragmentCombiner::new();
    combiner.push(Fragment { seq_id: 9, frag_id: 0, frag_total: 2, data: vec![1u8] });
    combiner.push(Fragment { seq_id: 9, frag_id: 1, frag_total: 1, data: vec![2u8] });
    // two fragments are filed and the second announces two: the set is tried and dropped
    assert!(combiner.next_out_message().is_none());
    // the sequence is out of flight: its fragments start over
    combiner.push(Fragment { seq_id: 9, frag_id: 0, frag_total: 1, data: vec![3u8] });
    assert!(combiner.next_out_message().is_none());
    combiner.push(Fragment { seq_id: 9, frag_id: 1, frag_total: 1, data: vec![4u8] });
    assert_eq!(combiner.next_out_message().unwrap().as_ref(), &[3u8, 4]);
}

#[test]
fn fragment_ids_out_of_range_give_no_message() {
    let mut combiner = FragmentCombiner::new();
    combiner.push(Fragment { seq_id: 1, frag_id: 0, frag_total: 1, data: vec![1u8] });
    combiner.push(Fragment { seq_id: 1, frag_id: 7, frag_total: 1, data: vec![2u8] });
    assert!(combiner.out_messages().is_empty());
}

#[test]
fn messages_are_ready_in_the_order_of_their_completion() {
    let mut combiner = FragmentCombiner::new();
    combiner.push(Fragment { seq_id: 1, frag_id: 0, frag_total: 1, data: vec![10u8] });
    combiner.push(Fragment { seq_id: 0, frag_id: 1, frag_total: 1, data: vec![21u8] });
    combiner.push(Fragment { seq_id: 2, frag_id: 0, frag_total: 0, data: vec![30u8] });
    combiner.push(Fragment { seq_id: 0, frag_id: 0, frag_total: 1, data: vec![20u8] });
    combiner.push(Fragment { seq_id: 1, frag_id: 1, frag_total: 1, data: vec![11u8] });
    assert_eq!(combiner.next_out_message().unwrap().as_ref(), &[30u8]);
    let rest = combiner.out_messages();
    assert_eq!(rest.len(), 2);
    assert_eq!(rest[0].as_ref(), &[20u8, 21]);
    assert_eq!(rest[1].as_ref(), &[10u8, 11]);
    assert!(combiner.out_messages().is_empty());
}

#[test]
fn later_copy_of_a_fragment_replaces_the_earlier_one() {
    let mut combiner = FragmentCombiner::new();
    combiner.push(Fragment { seq_id: 1, frag_id: 0, frag_total: 1, data: vec![1u8] });
    combiner.push(Fragment { seq_id: 1, frag_id: 0, frag_total: 1, data: vec![9u8] });
    assert!(combiner.next_out_message().is_none());
    combiner.push(Fragment { seq_id: 1, frag_id: 1, frag_total: 1, data: vec![2u8] });
    assert_eq!(combiner.next_out_message().unwrap().as_ref(), &[9u8, 2]);
}
