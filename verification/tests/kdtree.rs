use std::cmp::Ordering;
use raytrace::{
    build_start, candidate_tie_break, random_split, refine_step, split_partition, sweep_counts, Axis, BoundedObject, BuildStart,
    CandidateKind, KdTree, KdTreeAccelerator, NodePlan, ObjectWithBounds, RefineStep, SplitEvent,
    UnboundedObject,
};

fn start(object: usize) -> SplitEvent {
    SplitEvent { kind: CandidateKind::Start, object }
}

fn end(object: usize) -> SplitEvent {
    SplitEvent { kind: CandidateKind::End, object }
}

/// Three objects along an axis: 0 spans [0, 2], 1 spans [1, 4], 2 spans [3, 5].
fn events() -> Vec<SplitEvent> {
    vec![start(0), start(1), end(0), start(2), end(1), end(2)]
}

#[test]
fn nodes_start_empty_leaf_or_split() {
    assert_eq!(build_start(0, 2, 5), BuildStart::Empty);
    assert_eq!(build_start(2, 2, 5), BuildStart::Leaf);
    assert_eq!(build_start(9, 2, 0), BuildStart::Leaf);
    assert_eq!(build_start(3, 2, 1), BuildStart::Split);
}

#[test]
fn sweep_counts_objects_below_and_above_each_candidate() {
    let counts = sweep_counts(&events(), 3);
    assert_eq!(counts, vec![(0, 3), (1, 3), (2, 2), (2, 2), (3, 1), (3, 0)]);
}

#[test]
fn split_sends_objects_to_their_sides() {
    // split at the start of object 2: objects 0 and 1 start before it,
    // objects 1 and 2 end after it
    let (left, right) = split_partition(&events(), 3);
    assert_eq!(left, vec![0, 1]);
    assert_eq!(right, vec![1, 2]);
    let counts = sweep_counts(&events(), 3);
    assert_eq!(counts[3], (left.len(), right.len()));

    let (left, right) = split_partition(&events(), 0);
    assert!(left.is_empty());
    assert_eq!(right, vec![0, 1, 2]);
}

#[test]
fn refinement_retries_then_settles() {
    assert_eq!(refine_step(false, 0, true, true, 40, 3), RefineStep::Retry { split_attempts: 1 });
    assert_eq!(refine_step(false, 1, true, true, 40, 3), RefineStep::Retry { split_attempts: 2 });
    assert_eq!(refine_step(false, 2, true, true, 40, 3), RefineStep::Leaf);
    assert_eq!(refine_step(true, 0, false, false, 40, 3), RefineStep::Split { max_bad_refines: 3 });
    assert_eq!(refine_step(true, 1, true, false, 40, 3), RefineStep::Split { max_bad_refines: 2 });
    assert_eq!(refine_step(true, 0, true, false, 40, 1), RefineStep::Leaf);
    assert_eq!(refine_step(true, 0, true, true, 15, 3), RefineStep::Leaf);
    assert_eq!(refine_step(true, 0, true, true, 16, 3), RefineStep::Split { max_bad_refines: 2 });
}

#[test]
fn joining_subtrees() {
    let leaf = |indexes: Vec<usize>| Some(KdTree::<f64, ()>::Leaf(indexes));
    assert!(KdTree::<f64, ()>::join(Axis::X, 0.5, (), None, None).is_none());
    match KdTree::join(Axis::Y, 0.5, (), leaf(vec![1]), None) {
        Some(KdTree::Leaf(indexes)) => assert_eq!(indexes, vec![1]),
        _ => panic!("a single subtree replaces the node"),
    }
    match KdTree::join(Axis::Z, 0.25, (), leaf(vec![0]), leaf(vec![2, 3])) {
        Some(tree) => {
            assert!(tree.indexes_within(4));
            assert!(!tree.indexes_within(3));
            match tree {
                KdTree::Node { split_axis, split_location, .. } => {
                    assert_eq!(split_axis, Axis::Z);
                    assert_eq!(split_location, 0.25);
                }
                KdTree::Leaf(_) => panic!("two subtrees make a node"),
            }
        }
        None => panic!("two subtrees make a node"),
    }
}

#[test]
fn accelerator_partitions_objects_in_order() {
    let objects = vec![
        ObjectWithBounds::unbounded("plane"),
        ObjectWithBounds::bounded("cube", 1),
        ObjectWithBounds::bounded("sphere", 2),
        ObjectWithBounds::unbounded("floor"),
    ];
    let (unbounded, bounded) = KdTreeAccelerator::<&str, f64, i32>::partition(objects);
    let names: Vec<&str> = unbounded.iter().map(|UnboundedObject(name)| *name).collect();
    assert_eq!(names, vec!["plane", "floor"]);
    let bounded_names: Vec<(&str, i32)> = bounded
        .iter()
        .map(|BoundedObject { object, bounding_volume }| (*object, *bounding_volume))
        .collect();
    assert_eq!(bounded_names, vec![("cube", 1), ("sphere", 2)]);

    let tree: KdTree<f64, i32> = KdTree::Leaf(vec![0, 1]);
    assert!(tree.lists_exactly(bounded.len()));
    let accelerator = KdTreeAccelerator::new(unbounded, bounded, Some(tree));
    assert_eq!(accelerator.get_num_objects(), 4);
    assert_eq!(accelerator.unbounded_objects().len(), 2);
    assert_eq!(accelerator.bounded_objects()[1].object, "sphere");
    match accelerator.tree() {
        KdTree::Leaf(indexes) => assert_eq!(indexes, &vec![0, 1]),
        KdTree::Node { .. } => panic!("the tree given is kept"),
    }
}

#[test]
fn accelerator_without_tree_has_an_empty_leaf() {
    let accelerator = KdTreeAccelerator::<u8, f64, ()>::new(Vec::new(), Vec::new(), None);
    assert_eq!(accelerator.get_num_objects(), 0);
    match accelerator.tree() {
        KdTree::Leaf(indexes) => assert!(indexes.is_empty()),
        KdTree::Node { .. } => panic!("no tree means an empty leaf"),
    }
}

#[test]
fn lower_bounds_come_first_at_equal_locations() {
    assert_eq!(candidate_tie_break(CandidateKind::Start, CandidateKind::End), Ordering::Less);
    assert_eq!(candidate_tie_break(CandidateKind::End, CandidateKind::Start), Ordering::Greater);
    assert_eq!(candidate_tie_break(CandidateKind::End, CandidateKind::End), Ordering::Equal);
    assert_eq!(candidate_tie_break(CandidateKind::Start, CandidateKind::Start), Ordering::Equal);
}

#[test]
fn random_splits_keep_every_index() {
    let indexes: Vec<usize> = (0..50).collect();
    let (left, right) = random_split(&indexes);
    assert_eq!(left.len() + right.len(), 50);
    let mut both: Vec<usize> = left.iter().chain(right.iter()).copied().collect();
    both.sort();
    assert_eq!(both, indexes);
    assert!(left.windows(2).all(|pair| pair[0] < pair[1]));
    assert!(right.windows(2).all(|pair| pair[0] < pair[1]));
}

fn collect_indexes(tree: &KdTree<f64, u8>, into: &mut Vec<usize>, depth: usize, max_depth: &mut usize) {
    *max_depth = (*max_depth).max(depth);
    match tree {
        KdTree::Node { split_axis, bounding_volume, left, right, .. } => {
            assert_eq!(*split_axis, Axis::X);
            assert_eq!(*bounding_volume, 7);
            collect_indexes(left, into, depth + 1, max_depth);
            collect_indexes(right, into, depth + 1, max_depth);
        }
        KdTree::Leaf(indexes) => into.extend(indexes.iter().copied()),
    }
}

#[test]
fn random_trees_list_every_index_once() {
    let indexes: Vec<usize> = (0..40).collect();
    let tree = KdTree::build_by_random_splits(indexes.clone(), 2, 6, 0.0, 7u8)
        .expect("some indexes make a tree");
    assert!(tree.indexes_within(40));
    let mut listed = Vec::new();
    let mut depth = 0;
    collect_indexes(&tree, &mut listed, 0, &mut depth);
    let before_dedup = listed.len();
    listed.sort();
    listed.dedup();
    assert_eq!(listed.len(), before_dedup, "no index is listed twice");
    assert_eq!(listed, indexes);
    assert!(depth <= 6);

    assert!(KdTree::<f64, u8>::build_by_random_splits(Vec::new(), 2, 6, 0.0, 7).is_none());
    match KdTree::<f64, u8>::build_by_random_splits(vec![3, 4], 2, 6, 0.0, 7) {
        Some(KdTree::Leaf(indexes)) => assert_eq!(indexes, vec![3, 4]),
        _ => panic!("few indexes make a leaf"),
    }
}

#[test]
fn trees_must_list_exactly_the_bounded_objects() {
    let tree: KdTree<f64, u8> = KdTree::Node {
        split_axis: Axis::Y,
        split_location: 0.5,
        bounding_volume: 0,
        left: Box::new(KdTree::Leaf(vec![0, 2])),
        right: Box::new(KdTree::Leaf(vec![2, 1])),
    };
    assert!(tree.lists_all(3));
    assert!(tree.lists_exactly(3));
    assert!(!tree.lists_all(4));
    assert!(!tree.lists_exactly(4));
    assert!(tree.lists_all(2));
    assert!(!tree.lists_exactly(2));
    assert!(KdTree::<f64, u8>::Leaf(Vec::new()).lists_exactly(0));
    assert!(!KdTree::<f64, u8>::Leaf(vec![1]).lists_all(2));
}

#[test]
fn random_builds_keep_small_lists_whole() {
    match KdTree::<f64, u8>::build_by_random_splits(vec![5, 1, 9], 3, 4, 0.0, 7) {
        Some(KdTree::Leaf(indexes)) => assert_eq!(indexes, vec![5, 1, 9]),
        _ => panic!("at most max_objects indexes make one leaf"),
    }
    match KdTree::<f64, u8>::build_by_random_splits(vec![5, 1, 9, 4], 1, 0, 0.0, 7) {
        Some(KdTree::Leaf(indexes)) => assert_eq!(indexes, vec![5, 1, 9, 4]),
        _ => panic!("no depth left makes one leaf"),
    }
    let tree = KdTree::<f64, u8>::build_by_random_splits((0..30).collect(), 1, 3, 0.25, 7)
        .expect("some indexes make a tree");
    let mut listed = Vec::new();
    let mut depth = 0;
    collect_indexes(&tree, &mut listed, 0, &mut depth);
    assert!(depth <= 3);
    listed.sort();
    assert_eq!(listed, (0..30).collect::<Vec<usize>>());
    assert!(tree.lists_exactly(30));
}

fn three_box_plan(events: Vec<SplitEvent>, split_index: usize) -> impl Fn(&Vec<usize>, u8, u8) -> NodePlan<f64, u8> {
    move |indexes: &Vec<usize>, volume: u8, bad_refines: u8| {
        if indexes.len() == 3 {
            NodePlan::Split {
                split_axis: Axis::Z,
                split_location: 3.0,
                events: events.clone(),
                split_index,
                below: volume + 1,
                above: volume + 2,
                max_bad_refines: bad_refines,
            }
        } else {
            NodePlan::Leaf
        }
    }
}

#[test]
fn planned_builds_split_where_the_plan_says() {
    let plan = three_box_plan(events(), 3);
    let tree = KdTree::build(&plan, 3, 2, 5, 3, 10u8, vec![0, 1, 2]).expect("some indexes make a tree");
    match tree {
        KdTree::Node { split_axis, split_location, bounding_volume, left, right } => {
            assert_eq!(split_axis, Axis::Z);
            assert_eq!(split_location, 3.0);
            assert_eq!(bounding_volume, 10);
            match (*left, *right) {
                (KdTree::Leaf(below), KdTree::Leaf(above)) => {
                    assert_eq!(below, vec![0, 1]);
                    assert_eq!(above, vec![1, 2]);
                }
                _ => panic!("two objects per side make leaves"),
            }
        }
        KdTree::Leaf(_) => panic!("the plan splits"),
    }
}

#[test]
fn planned_builds_refuse_bad_plans() {
    // object 2 has no upper bound among the candidates
    let missing_end = vec![start(0), start(1), end(0), start(2), end(1)];
    let tree = KdTree::build(&three_box_plan(missing_end, 3), 3, 2, 5, 3, 10u8, vec![0, 1, 2]);
    assert!(matches!(tree, Some(KdTree::Leaf(ref indexes)) if indexes == &vec![0, 1, 2]));
    // the split candidate does not exist
    let tree = KdTree::build(&three_box_plan(events(), 6), 3, 2, 5, 3, 10u8, vec![0, 1, 2]);
    assert!(matches!(tree, Some(KdTree::Leaf(ref indexes)) if indexes == &vec![0, 1, 2]));
    // no depth left, or few enough objects
    let tree = KdTree::build(&three_box_plan(events(), 3), 3, 2, 0, 3, 10u8, vec![0, 1, 2]);
    assert!(matches!(tree, Some(KdTree::Leaf(ref indexes)) if indexes == &vec![0, 1, 2]));
    let tree = KdTree::build(&three_box_plan(events(), 3), 3, 2, 5, 3, 10u8, Vec::new());
    assert!(tree.is_none());
}
