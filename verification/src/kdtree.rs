use vstd::prelude::*;

use crate::axis::Axis;
use core::cmp::Ordering;

verus! {

/// Whether a split candidate opens an object's extent along the split axis
/// (its lower bound) or closes it (its upper bound).
#[derive(Clone, Copy, Debug, PartialEq, Eq, Structural)]
pub enum CandidateKind {
    Start,
    End,
}

/// A split candidate of the k-d tree construction, stripped of its location:
/// the bound it stands for and the object it belongs to. Candidates are
/// handled in the order of their locations along the split axis.
#[derive(Clone, Copy, Debug, PartialEq, Eq, Structural)]
pub struct SplitEvent {
    pub kind: CandidateKind,
    pub object: usize,
}

/// The order of two candidates at the same location: an object's lower bound
/// comes before an upper bound, so that objects touching a split plane count
/// on the side they extend to.
pub fn candidate_tie_break(a: CandidateKind, b: CandidateKind) -> (order: Ordering)
    ensures
        order == if a == b {
            Ordering::Equal
        } else if a == CandidateKind::Start {
            Ordering::Less
        } else {
            Ordering::Greater
        },
{
    match (a, b) {
        (CandidateKind::Start, CandidateKind::End) => Ordering::Less,
        (CandidateKind::End, CandidateKind::Start) => Ordering::Greater,
        _ => Ordering::Equal,
    }
}

/// How many candidates in `events` are of `kind`.
pub open spec fn count_kind(events: Seq<SplitEvent>, kind: CandidateKind) -> nat
    decreases events.len(),
{
    if events.len() == 0 {
        0
    } else {
        count_kind(events.drop_last(), kind) + if events.last().kind == kind {
            1nat
        } else {
            0nat
        }
    }
}

/// The objects of the candidates of `kind` in `events`, in order.
pub open spec fn objects_of_kind(events: Seq<SplitEvent>, kind: CandidateKind) -> Seq<usize>
    decreases events.len(),
{
    if events.len() == 0 {
        Seq::empty()
    } else {
        let rest = objects_of_kind(events.drop_last(), kind);
        if events.last().kind == kind {
            rest.push(events.last().object)
        } else {
            rest
        }
    }
}

/// What a node of the construction does with its objects before looking for a split.
#[derive(Clone, Copy, Debug, PartialEq, Eq, Structural)]
pub enum BuildStart {
    /// No objects: the subtree is dropped.
    Empty,
    /// Few enough objects, or no depth left: the node becomes a leaf.
    Leaf,
    /// Look for a split.
    Split,
}

/// The outcome of trying to split along one axis.
#[derive(Clone, Copy, Debug, PartialEq, Eq, Structural)]
pub enum RefineStep {
    /// No split was found yet and another axis may be tried.
    Retry { split_attempts: u8 },
    /// Splitting does not pay: the node becomes a leaf.
    Leaf,
    /// Split at the best candidate found, with this many bad refinements left.
    Split { max_bad_refines: u8 },
}

/// The decision taken after trying one axis, given whether some candidate
/// split lies strictly inside the node, how many axes were tried without one,
/// whether the best split costs more than a leaf (and more than four times a
/// leaf), the number of objects and the bad refinements still allowed.
pub open spec fn spec_refine_step(
    found_split: bool,
    split_attempts: u8,
    worse_than_leaf: bool,
    much_worse_than_leaf: bool,
    num_indexes: usize,
    max_bad_refines: u8,
) -> RefineStep {
    if !found_split && split_attempts < 2 {
        RefineStep::Retry { split_attempts: (split_attempts + 1) as u8 }
    } else {
        let bad = if worse_than_leaf {
            (max_bad_refines - 1) as u8
        } else {
            max_bad_refines
        };
        if !found_split || bad == 0 || (much_worse_than_leaf && num_indexes < 16) {
            RefineStep::Leaf
        } else {
            RefineStep::Split { max_bad_refines: bad }
        }
    }
}

/// The decision taken on entering a node holding `num_indexes` objects.
pub fn build_start(num_indexes: usize, max_objects: usize, max_depth: u8) -> (start: BuildStart)
    ensures
        start == if num_indexes == 0 {
            BuildStart::Empty
        } else if num_indexes <= max_objects || max_depth == 0 {
            BuildStart::Leaf
        } else {
            BuildStart::Split
        },
{
    if num_indexes == 0 {
        BuildStart::Empty
    } else if num_indexes <= max_objects || max_depth == 0 {
        BuildStart::Leaf
    } else {
        BuildStart::Split
    }
}

/// The decision taken after trying one axis (see `spec_refine_step`). A bad
/// refinement can only be charged while some are left.
pub fn refine_step(
    found_split: bool,
    split_attempts: u8,
    worse_than_leaf: bool,
    much_worse_than_leaf: bool,
    num_indexes: usize,
    max_bad_refines: u8,
) -> (step: RefineStep)
    requires
        (found_split || split_attempts >= 2) && worse_than_leaf ==> max_bad_refines > 0,
    ensures
        step == spec_refine_step(
            found_split,
            split_attempts,
            worse_than_leaf,
            much_worse_than_leaf,
            num_indexes,
            max_bad_refines,
        ),
        !found_split && split_attempts < 2 ==> step == (RefineStep::Retry {
            split_attempts: (split_attempts + 1) as u8,
        }),
        !found_split && split_attempts >= 2 ==> step == RefineStep::Leaf,
        found_split ==> ({
            let charged = if worse_than_leaf { max_bad_refines - 1 } else { max_bad_refines as int };
            if charged > 0 && !(much_worse_than_leaf && num_indexes < 16) {
                step == (RefineStep::Split { max_bad_refines: charged as u8 })
            } else {
                step == RefineStep::Leaf
            }
        }),
{
    if !found_split && split_attempts < 2 {
        return RefineStep::Retry { split_attempts: split_attempts + 1 };
    }
    let bad = if worse_than_leaf {
        max_bad_refines - 1
    } else {
        max_bad_refines
    };
    if !found_split || bad == 0 || (much_worse_than_leaf && num_indexes < 16) {
        RefineStep::Leaf
    } else {
        RefineStep::Split { max_bad_refines: bad }
    }
}

proof fn lemma_count_take_step(events: Seq<SplitEvent>, i: int, kind: CandidateKind)
    requires
        0 <= i < events.len(),
    ensures
        count_kind(events.take(i + 1), kind) == count_kind(events.take(i), kind) + if events[i].kind
            == kind {
            1nat
        } else {
            0nat
        },
        objects_of_kind(events.take(i + 1), kind) == if events[i].kind == kind {
            objects_of_kind(events.take(i), kind).push(events[i].object)
        } else {
            objects_of_kind(events.take(i), kind)
        },
{
    assert(events.take(i + 1).drop_last() =~= events.take(i));
}

proof fn lemma_count_le_len(events: Seq<SplitEvent>, kind: CandidateKind)
    ensures
        count_kind(events, kind) <= events.len(),
        objects_of_kind(events, kind).len() == count_kind(events, kind),
    decreases events.len(),
{
    if events.len() > 0 {
        lemma_count_le_len(events.drop_last(), kind);
    }
}

proof fn lemma_count_take_bounded(events: Seq<SplitEvent>, i: int, kind: CandidateKind)
    requires
        0 <= i <= events.len(),
    ensures
        count_kind(events.take(i), kind) <= count_kind(events, kind),
    decreases events.len() - i,
{
    if i < events.len() {
        lemma_count_take_step(events, i, kind);
        lemma_count_take_bounded(events, i + 1, kind);
    } else {
        assert(events.take(i) =~= events);
    }
}

/// For each candidate in order, the number of objects lying entirely or
/// partly below it (`Start` candidates strictly before it) and the number of
/// objects lying partly or entirely above it (objects whose `End` candidate is
/// not at or before it), as the surface area heuristic sweep counts them.
pub fn sweep_counts(events: &Vec<SplitEvent>, num_objects: usize) -> (counts: Vec<(usize, usize)>)
    requires
        count_kind(events@, CandidateKind::End) <= num_objects,
    ensures
        counts@.len() == events@.len(),
        forall|i: int|
            0 <= i < events@.len() ==> {
                &&& #[trigger] counts@[i].0 == count_kind(events@.take(i), CandidateKind::Start)
                &&& counts@[i].1 == num_objects - count_kind(events@.take(i + 1), CandidateKind::End)
            },
{
    let mut counts: Vec<(usize, usize)> = Vec::new();
    let mut below: usize = 0;
    let mut above: usize = num_objects;
    let mut i: usize = 0;
    while i < events.len()
        invariant
            i <= events@.len(),
            counts@.len() == i,
            count_kind(events@, CandidateKind::End) <= num_objects,
            below == count_kind(events@.take(i as int), CandidateKind::Start),
            above == num_objects - count_kind(events@.take(i as int), CandidateKind::End),
            forall|j: int|
                #![trigger counts@[j]]
                0 <= j < i ==> {
                    &&& counts@[j].0 == count_kind(events@.take(j), CandidateKind::Start)
                    &&& counts@[j].1 == num_objects - count_kind(events@.take(j + 1), CandidateKind::End)
                },
        decreases events@.len() - i,
    {
        proof {
            lemma_count_take_step(events@, i as int, CandidateKind::Start);
            lemma_count_take_step(events@, i as int, CandidateKind::End);
            lemma_count_take_bounded(events@, i + 1, CandidateKind::End);
            lemma_count_le_len(events@.take(i as int), CandidateKind::Start);
        }
        let event = events[i];
        if event.kind == CandidateKind::End {
            above = above - 1;
        }
        counts.push((below, above));
        if event.kind == CandidateKind::Start {
            below = below + 1;
        }
        i = i + 1;
    }
    counts
}

proof fn lemma_objects_subrange_step(events: Seq<SplitEvent>, a: int, b: int, kind: CandidateKind)
    requires
        0 <= a <= b < events.len(),
    ensures
        objects_of_kind(events.subrange(a, b + 1), kind) == if events[b].kind == kind {
            objects_of_kind(events.subrange(a, b), kind).push(events[b].object)
        } else {
            objects_of_kind(events.subrange(a, b), kind)
        },
{
    assert(events.subrange(a, b + 1).drop_last() =~= events.subrange(a, b));
}

/// The objects sent to each side of the split at candidate `split_index`:
/// below, every object whose `Start` comes before the split candidate; above,
/// every object whose `End` comes after it. Objects straddling the split go
/// to both sides.
pub fn split_partition(events: &Vec<SplitEvent>, split_index: usize) -> (sides: (Vec<usize>, Vec<usize>))
    requires
        split_index < events@.len(),
    ensures
        sides.0@ == objects_of_kind(events@.take(split_index as int), CandidateKind::Start),
        sides.1@ == objects_of_kind(events@.skip(split_index + 1), CandidateKind::End),
{
    let num_events = events.len();
    let mut left: Vec<usize> = Vec::new();
    let mut right: Vec<usize> = Vec::new();
    let mut i: usize = 0;
    while i < split_index
        invariant
            i <= split_index < events@.len(),
            left@ == objects_of_kind(events@.take(i as int), CandidateKind::Start),
        decreases split_index - i,
    {
        proof {
            lemma_count_take_step(events@, i as int, CandidateKind::Start);
        }
        let event = events[i];
        if event.kind == CandidateKind::Start {
            left.push(event.object);
        }
        i = i + 1;
    }
    let mut j: usize = split_index + 1;
    proof {
        assert(events@.subrange(split_index + 1, split_index + 1) =~= Seq::<SplitEvent>::empty());
    }
    while j < events.len()
        invariant
            split_index < j <= events@.len(),
            right@ == objects_of_kind(events@.subrange(split_index + 1, j as int), CandidateKind::End),
        decreases events@.len() - j,
    {
        proof {
            lemma_objects_subrange_step(events@, split_index + 1, j as int, CandidateKind::End);
        }
        let event = events[j];
        if event.kind == CandidateKind::End {
            right.push(event.object);
        }
        j = j + 1;
    }
    proof {
        assert(events@.subrange(split_index + 1, events@.len() as int) =~= events@.skip(split_index + 1));
    }
    (left, right)
}

proof fn lemma_objects_contains(events: Seq<SplitEvent>, p: int, kind: CandidateKind)
    requires
        0 <= p < events.len(),
        events[p].kind == kind,
    ensures
        objects_of_kind(events, kind).contains(events[p].object),
    decreases events.len(),
{
    let o = events[p].object;
    if p == events.len() - 1 {
        let rest = objects_of_kind(events.drop_last(), kind);
        assert(rest.push(o)[rest.len() as int] == o);
    } else {
        lemma_objects_contains(events.drop_last(), p, kind);
        let rest = objects_of_kind(events.drop_last(), kind);
        let q = choose|q: int| 0 <= q < rest.len() && rest[q] == o;
        if events.last().kind == kind {
            assert(rest.push(events.last().object)[q] == o);
        }
    }
}

proof fn lemma_objects_below(events: Seq<SplitEvent>, kind: CandidateKind, n: nat)
    requires
        forall|p: int| 0 <= p < events.len() ==> #[trigger] events[p].object < n,
    ensures
        forall|q: int|
            0 <= q < objects_of_kind(events, kind).len() ==> #[trigger] objects_of_kind(
                events,
                kind,
            )[q] < n,
    decreases events.len(),
{
    if events.len() > 0 {
        let rest = events.drop_last();
        assert forall|p: int| 0 <= p < rest.len() implies #[trigger] rest[p].object < n by {
            assert(rest[p] == events[p]);
        }
        lemma_objects_below(rest, kind, n);
        assert(events.last() == events[events.len() - 1]);
        let objs = objects_of_kind(events, kind);
        let rest_objs = objects_of_kind(rest, kind);
        assert forall|q: int| 0 <= q < objs.len() implies #[trigger] objs[q] < n by {
            if q < rest_objs.len() {
                assert(objs[q] == rest_objs[q]);
            }
        }
    }
}

proof fn lemma_count_concat(a: Seq<SplitEvent>, b: Seq<SplitEvent>, kind: CandidateKind)
    ensures
        count_kind(a + b, kind) == count_kind(a, kind) + count_kind(b, kind),
    decreases b.len(),
{
    if b.len() == 0 {
        assert(a + b =~= a);
    } else {
        assert((a + b).drop_last() =~= a + b.drop_last());
        lemma_count_concat(a, b.drop_last(), kind);
    }
}

/// No object is lost by a split: an object whose `Start` candidate comes
/// before its `End` candidate is sent below the split, above it, or both,
/// wherever the split candidate lies.
pub proof fn lemma_split_keeps_objects(events: Seq<SplitEvent>, split_index: int, i: int, j: int)
    requires
        0 <= split_index < events.len(),
        0 <= i < j < events.len(),
        events[i].kind == CandidateKind::Start,
        events[j].kind == CandidateKind::End,
        events[i].object == events[j].object,
    ensures
        objects_of_kind(events.take(split_index), CandidateKind::Start).contains(events[i].object)
            || objects_of_kind(events.skip(split_index + 1), CandidateKind::End).contains(
            events[j].object,
        ),
{
    if i < split_index {
        assert(events.take(split_index)[i] == events[i]);
        lemma_objects_contains(events.take(split_index), i, CandidateKind::Start);
    } else {
        let rest = events.skip(split_index + 1);
        assert(rest[j - split_index - 1] == events[j]);
        lemma_objects_contains(rest, j - split_index - 1, CandidateKind::End);
    }
}

/// Both sides of a split only hold objects named by the candidates, so
/// object indexes below `n` stay below `n`.
pub proof fn lemma_split_sides_within(events: Seq<SplitEvent>, split_index: int, n: nat)
    requires
        0 <= split_index < events.len(),
        forall|p: int| 0 <= p < events.len() ==> #[trigger] events[p].object < n,
    ensures
        forall|q: int|
            0 <= q < objects_of_kind(events.take(split_index), CandidateKind::Start).len()
                ==> #[trigger] objects_of_kind(events.take(split_index), CandidateKind::Start)[q]
                < n,
        forall|q: int|
            0 <= q < objects_of_kind(events.skip(split_index + 1), CandidateKind::End).len()
                ==> #[trigger] objects_of_kind(events.skip(split_index + 1), CandidateKind::End)[q]
                < n,
{
    let below = events.take(split_index);
    let above = events.skip(split_index + 1);
    assert forall|p: int| 0 <= p < below.len() implies #[trigger] below[p].object < n by {
        assert(below[p] == events[p]);
    }
    assert forall|p: int| 0 <= p < above.len() implies #[trigger] above[p].object < n by {
        assert(above[p] == events[p + split_index + 1]);
    }
    lemma_objects_below(below, CandidateKind::Start, n);
    lemma_objects_below(above, CandidateKind::End, n);
}

/// The counts that the sweep prices a split with are the sizes of the two
/// sides the split produces, when every one of the `num_objects` objects has
/// one `End` candidate.
pub proof fn lemma_sweep_counts_match_split(events: Seq<SplitEvent>, num_objects: nat, k: int)
    requires
        0 <= k < events.len(),
        count_kind(events, CandidateKind::End) == num_objects,
    ensures
        objects_of_kind(events.take(k), CandidateKind::Start).len() == count_kind(
            events.take(k),
            CandidateKind::Start,
        ),
        objects_of_kind(events.skip(k + 1), CandidateKind::End).len() == num_objects - count_kind(
            events.take(k + 1),
            CandidateKind::End,
        ),
{
    lemma_count_le_len(events.take(k), CandidateKind::Start);
    lemma_count_le_len(events.skip(k + 1), CandidateKind::End);
    assert(events.take(k + 1) + events.skip(k + 1) =~= events);
    lemma_count_concat(events.take(k + 1), events.skip(k + 1), CandidateKind::End);
}

/// After an axis is tried: without a split the next axis is tried while
/// fewer than two were tried without one, and the node becomes a leaf after
/// that; with a split, a bad refinement is charged when the split costs more
/// than a leaf, and the node splits, handing on the charged budget, unless
/// that budget is used up or the split costs more than four times a leaf on
/// fewer than sixteen objects, when it becomes a leaf.
pub proof fn lemma_refine_step_decides(
    found_split: bool,
    split_attempts: u8,
    worse_than_leaf: bool,
    much_worse_than_leaf: bool,
    num_indexes: usize,
    max_bad_refines: u8,
)
    requires
        (found_split || split_attempts >= 2) && worse_than_leaf ==> max_bad_refines > 0,
    ensures
        ({
            let step = spec_refine_step(
                found_split,
                split_attempts,
                worse_than_leaf,
                much_worse_than_leaf,
                num_indexes,
                max_bad_refines,
            );
            let charged = if worse_than_leaf { max_bad_refines - 1 } else { max_bad_refines as int };
            &&& !found_split && split_attempts < 2 ==> step == (RefineStep::Retry {
                split_attempts: (split_attempts + 1) as u8,
            })
            &&& !found_split && split_attempts >= 2 ==> step == RefineStep::Leaf
            &&& found_split && charged > 0 && !(much_worse_than_leaf && num_indexes < 16) ==> step == (
            RefineStep::Split { max_bad_refines: charged as u8 })
            &&& found_split && (charged == 0 || (much_worse_than_leaf && num_indexes < 16)) ==> step
                == RefineStep::Leaf
        }),
{
}

/// The construction never tries more than three axes, and a split always
/// hands at least one bad refinement down to its children, never more than
/// it had: the children can always charge their own.
pub proof fn lemma_refine_step_bounds(
    found_split: bool,
    split_attempts: u8,
    worse_than_leaf: bool,
    much_worse_than_leaf: bool,
    num_indexes: usize,
    max_bad_refines: u8,
)
    requires
        (found_split || split_attempts >= 2) && worse_than_leaf ==> max_bad_refines > 0,
    ensures
        match spec_refine_step(
            found_split,
            split_attempts,
            worse_than_leaf,
            much_worse_than_leaf,
            num_indexes,
            max_bad_refines,
        ) {
            RefineStep::Retry { split_attempts: a } => a == split_attempts + 1 && a <= 2,
            RefineStep::Split { max_bad_refines: b } => found_split && 0 < b <= max_bad_refines,
            RefineStep::Leaf => true,
        },
        split_attempts >= 2 ==> !(spec_refine_step(
            found_split,
            split_attempts,
            worse_than_leaf,
            much_worse_than_leaf,
            num_indexes,
            max_bad_refines,
        ) is Retry),
{
}

/// `rand::random::<bool>()`: a coin toss of the thread's random number
/// generator. Nothing is claimed of the outcome.
#[verifier::external_body]
fn random_bool() -> (heads: bool) {
    rand::random::<bool>()
}

/// The indexes whose toss (the toss at the same position in `tosses`) came
/// out as `side`, in their order.
pub open spec fn tossed_to(indexes: Seq<usize>, tosses: Seq<bool>, side: bool) -> Seq<usize>
    decreases indexes.len(),
{
    if indexes.len() == 0 {
        Seq::empty()
    } else {
        let rest = tossed_to(indexes.drop_last(), tosses.drop_last(), side);
        if tosses.last() == side {
            rest.push(indexes.last())
        } else {
            rest
        }
    }
}

/// Splits `indexes` at random between two sides: one coin toss per index
/// sends it to the first side (heads) or the second (tails), and each side
/// keeps the indexes in their order. Together the sides hold exactly the
/// indexes, each as often as before. The tosses are left to chance.
pub fn random_split(indexes: &Vec<usize>) -> (sides: (Vec<usize>, Vec<usize>))
    ensures
        exists|tosses: Seq<bool>|
            #![trigger tossed_to(indexes@, tosses, true)]
            {
                &&& tosses.len() == indexes@.len()
                &&& sides.0@ == tossed_to(indexes@, tosses, true)
                &&& sides.1@ == tossed_to(indexes@, tosses, false)
            },
        (sides.0@ + sides.1@).to_multiset() == indexes@.to_multiset(),
        sides.0@.len() + sides.1@.len() == indexes@.len(),
        forall|k: int| 0 <= k < sides.0@.len() ==> indexes@.contains(#[trigger] sides.0@[k]),
        forall|k: int| 0 <= k < sides.1@.len() ==> indexes@.contains(#[trigger] sides.1@[k]),
{
    broadcast use vstd::seq_lib::group_to_multiset_ensures, vstd::multiset::group_multiset_axioms;

    let mut left: Vec<usize> = Vec::new();
    let mut right: Vec<usize> = Vec::new();
    let mut i: usize = 0;
    let ghost mut tosses: Seq<bool> = Seq::empty();
    proof {
        assert(indexes@.take(0) =~= Seq::<usize>::empty());
        assert(left@.to_multiset().add(right@.to_multiset()) =~= vstd::multiset::Multiset::<usize>::empty());
    }
    while i < indexes.len()
        invariant
            i <= indexes@.len(),
            tosses.len() == i,
            left@ == tossed_to(indexes@.take(i as int), tosses, true),
            right@ == tossed_to(indexes@.take(i as int), tosses, false),
            left@.to_multiset().add(right@.to_multiset()) == indexes@.take(i as int).to_multiset(),
        decreases indexes@.len() - i,
    {
        let index = indexes[i];
        let ghost left_before = left@;
        let ghost right_before = right@;
        let ghost tosses_before = tosses;
        assert(indexes@.take(i + 1) =~= indexes@.take(i as int).push(index));
        proof {
            vstd::seq_lib::to_multiset_build(indexes@.take(i as int), index);
        }
        let heads = random_bool();
        proof {
            tosses = tosses.push(heads);
            assert(indexes@.take(i + 1).drop_last() =~= indexes@.take(i as int));
            assert(tosses.drop_last() =~= tosses_before);
        }
        if heads {
            left.push(index);
            assert(left@ == left_before.push(index));
            proof { vstd::seq_lib::to_multiset_build(left_before, index); }
            assert(left@.to_multiset() =~= left_before.to_multiset().insert(index));
            assert(left@.to_multiset().add(right@.to_multiset()) =~= left_before.to_multiset().add(
                right_before.to_multiset(),
            ).insert(index));
        } else {
            right.push(index);
            assert(right@ == right_before.push(index));
            proof { vstd::seq_lib::to_multiset_build(right_before, index); }
            assert(right@.to_multiset() =~= right_before.to_multiset().insert(index));
            assert(left@.to_multiset().add(right@.to_multiset()) =~= left_before.to_multiset().add(
                right_before.to_multiset(),
            ).insert(index));
        }
        i = i + 1;
    }
    proof {
        assert(indexes@.take(indexes@.len() as int) =~= indexes@);
        assert(tossed_to(indexes@, tosses, true) == left@);
        vstd::seq_lib::lemma_multiset_commutative(left@, right@);
        let both = left@ + right@;
        assert forall|k: int| 0 <= k < left@.len() implies indexes@.contains(#[trigger] left@[k]) by {
            assert(both[k] == left@[k]);
            assert(both.contains(left@[k]));
            assert(both.to_multiset().count(left@[k]) > 0);
        }
        assert forall|k: int| 0 <= k < right@.len() implies indexes@.contains(#[trigger] right@[k]) by {
            assert(both[left@.len() + k] == right@[k]);
            assert(both.contains(right@[k]));
            assert(both.to_multiset().count(right@[k]) > 0);
        }
        assert(both.len() == both.to_multiset().len());
        assert(indexes@.len() == indexes@.to_multiset().len());
    }
    (left, right)
}

/// A k-d tree over object indexes. Inner nodes split space along an axis at a
/// location of type `L` and carry the bounding volume (of type `V`) of their
/// region; leaves list the indexes of the objects overlapping their region.
#[derive(Debug)]
pub enum KdTree<L, V> {
    Node {
        split_axis: Axis,
        split_location: L,
        bounding_volume: V,
        left: Box<KdTree<L, V>>,
        right: Box<KdTree<L, V>>,
    },
    Leaf(Vec<usize>),
}

/// The node assembled from the subtrees built for both sides of a split:
/// two subtrees make an inner node, a single one takes the node's place, and
/// none leaves no node.
pub open spec fn joined<L, V>(
    split_axis: Axis,
    split_location: L,
    bounding_volume: V,
    left: Option<KdTree<L, V>>,
    right: Option<KdTree<L, V>>,
) -> Option<KdTree<L, V>> {
    match (left, right) {
        (Some(l), Some(r)) => Some(
            KdTree::Node {
                split_axis,
                split_location,
                bounding_volume,
                left: Box::new(l),
                right: Box::new(r),
            },
        ),
        (None, Some(t)) => Some(t),
        (Some(t), None) => Some(t),
        (None, None) => None,
    }
}

impl<L, V> KdTree<L, V> {
    /// Whether some leaf of the tree lists `index`.
    pub open spec fn holds(self, index: usize) -> bool
        decreases self,
    {
        match self {
            KdTree::Node { left, right, .. } => left.holds(index) || right.holds(index),
            KdTree::Leaf(indexes) => indexes@.contains(index),
        }
    }

    /// Whether no leaf lists an index twice.
    pub open spec fn leaves_unique(self) -> bool
        decreases self,
    {
        match self {
            KdTree::Node { left, right, .. } => left.leaves_unique() && right.leaves_unique(),
            KdTree::Leaf(indexes) => indexes@.no_duplicates(),
        }
    }

    /// Whether every inner node splits along `axis` at `location` and
    /// carries `volume`, no path from the root meets more than `depth` inner
    /// nodes, and no leaf is empty.
    pub open spec fn shaped(self, axis: Axis, location: L, volume: V, depth: nat) -> bool
        decreases self,
    {
        match self {
            KdTree::Node { split_axis, split_location, bounding_volume, left, right } => {
                &&& depth >= 1
                &&& split_axis == axis
                &&& split_location == location
                &&& bounding_volume == volume
                &&& left.shaped(axis, location, volume, (depth - 1) as nat)
                &&& right.shaped(axis, location, volume, (depth - 1) as nat)
            },
            KdTree::Leaf(indexes) => indexes@.len() > 0,
        }
    }

    /// Whether every index listed in a leaf is below `n`.
    pub open spec fn indexes_below(self, n: nat) -> bool
        decreases self,
    {
        match self {
            KdTree::Node { left, right, .. } => left.indexes_below(n) && right.indexes_below(n),
            KdTree::Leaf(indexes) => forall|k: int|
                0 <= k < indexes@.len() ==> #[trigger] indexes@[k] < n,
        }
    }

    /// Whether every index listed in a leaf is below `n`.
    #[verifier::loop_isolation(false)]
    pub fn indexes_within(&self, n: usize) -> (ok: bool)
        ensures
            ok == self.indexes_below(n as nat),
        decreases self,
    {
        match self {
            KdTree::Node { left, right, .. } => {
                let left_ok = left.indexes_within(n);
                if !left_ok {
                    return false;
                }
                right.indexes_within(n)
            },
            KdTree::Leaf(indexes) => {
                let mut k: usize = 0;
                while k < indexes.len()
                    invariant
                        k <= indexes@.len(),
                        forall|m: int| 0 <= m < k ==> #[trigger] indexes@[m] < n,
                    decreases indexes@.len() - k,
                {
                    if indexes[k] >= n {
                        assert(indexes@[k as int] >= n);
                        return false;
                    }
                    k = k + 1;
                }
                true
            },
        }
    }

    /// Sets `marks[i]` for every index `i` below the length of `marks` that
    /// some leaf lists; other marks keep their value.
    fn mark_listed(&self, marks: &mut Vec<bool>)
        ensures
            final(marks)@.len() == old(marks)@.len(),
            forall|i: int|
                0 <= i < old(marks)@.len() ==> #[trigger] final(marks)@[i] == (old(marks)@[i]
                    || self.holds(i as usize)),
        decreases self,
    {
        match self {
            KdTree::Node { left, right, .. } => {
                left.mark_listed(marks);
                right.mark_listed(marks);
            },
            KdTree::Leaf(indexes) => {
                let ghost start = marks@;
                let mut k: usize = 0;
                while k < indexes.len()
                    invariant
                        k <= indexes@.len(),
                        marks@.len() == start.len(),
                        forall|i: int|
                            0 <= i < start.len() ==> #[trigger] marks@[i] == (start[i]
                                || indexes@.take(k as int).contains(i as usize)),
                    decreases indexes@.len() - k,
                {
                    let index = indexes[k];
                    let ghost before = marks@;
                    if index < marks.len() {
                        marks.set(index, true);
                    }
                    proof {
                        let taken = indexes@.take(k as int);
                        let next = indexes@.take(k + 1);
                        assert(next =~= taken.push(index));
                        assert forall|i: int| 0 <= i < start.len() implies #[trigger] marks@[i] == (
                        start[i] || next.contains(i as usize)) by {
                            if taken.contains(i as usize) {
                                let j = choose|j: int| 0 <= j < taken.len() && taken[j] == i as usize;
                                assert(next[j] == i as usize);
                            }
                            if next.contains(i as usize) && !taken.contains(i as usize) {
                                let j = choose|j: int| 0 <= j < next.len() && next[j] == i as usize;
                                if j < taken.len() {
                                    assert(taken[j] == i as usize);
                                }
                            }
                            if i == index as int {
                                assert(next[k as int] == index);
                            }
                            assert(before[i] == (start[i] || taken.contains(i as usize)));
                        }
                    }
                    k = k + 1;
                }
                proof {
                    assert(indexes@.take(indexes@.len() as int) =~= indexes@);
                }
            },
        }
    }

    /// Whether the leaves list every index below `n`.
    pub fn lists_all(&self, n: usize) -> (ok: bool)
        ensures
            ok == forall|i: usize| i < n ==> #[trigger] self.holds(i),
    {
        let mut marks: Vec<bool> = vec![false; n];
        self.mark_listed(&mut marks);
        let mut i: usize = 0;
        while i < n
            invariant
                i <= n,
                marks@.len() == n,
                forall|j: int| 0 <= j < n ==> #[trigger] marks@[j] == self.holds(j as usize),
                forall|j: usize| j < i ==> #[trigger] self.holds(j),
            decreases n - i,
        {
            if !marks[i] {
                assert(!self.holds(i));
                return false;
            }
            assert(marks@[i as int] == self.holds(i));
            i = i + 1;
        }
        true
    }

    /// Whether the leaves list exactly the indexes below `n`: each of them,
    /// and no other.
    pub fn lists_exactly(&self, n: usize) -> (ok: bool)
        ensures
            ok == forall|i: usize| #[trigger] self.holds(i) <==> i < n,
    {
        let below = self.indexes_within(n);
        proof {
            if below {
                lemma_indexes_below_hold_below(*self, n as nat);
            } else {
                if forall|i: usize| #[trigger] self.holds(i) ==> i < n {
                    lemma_held_indexes_below(*self, n as nat);
                }
            }
        }
        if !below {
            return false;
        }
        self.lists_all(n)
    }

    /// Assembles a node from the subtrees built for both sides of a split:
    /// two subtrees make an inner node, a single one replaces the node, and
    /// none drops it.
    pub fn join(
        split_axis: Axis,
        split_location: L,
        bounding_volume: V,
        left: Option<KdTree<L, V>>,
        right: Option<KdTree<L, V>>,
    ) -> (tree: Option<KdTree<L, V>>)
        ensures
            tree == joined(split_axis, split_location, bounding_volume, left, right),
    {
        match (left, right) {
            (Some(left), Some(right)) => Some(
                KdTree::Node {
                    split_axis,
                    split_location,
                    bounding_volume,
                    left: Box::new(left),
                    right: Box::new(right),
                },
            ),
            (None, Some(leaf)) | (Some(leaf), None) => Some(leaf),
            (None, None) => None,
        }
    }
}

/// Whether `tree` can come out of building a tree over `indexes` by random
/// splits (see `KdTree::build_by_random_splits`) for some outcome of the coin
/// tosses: no tree for no index; a leaf of the indexes when they are at most
/// `max_objects` or no depth is left; otherwise, for some tosses, the tree of
/// the only side that got indexes, or an inner node along X at
/// `split_location` carrying `bounding_volume` over the trees of both sides,
/// each built one level deeper.
pub open spec fn random_build_outcome<L, V>(
    tree: Option<KdTree<L, V>>,
    indexes: Seq<usize>,
    max_objects: usize,
    max_depth: nat,
    split_location: L,
    bounding_volume: V,
) -> bool
    decreases max_depth,
{
    if indexes.len() == 0 {
        tree is None
    } else if indexes.len() <= max_objects || max_depth == 0 {
        tree matches Some(KdTree::Leaf(leaf)) && leaf@ == indexes
    } else {
        exists|tosses: Seq<bool>|
            #![trigger tossed_to(indexes, tosses, true)]
            {
                let below = tossed_to(indexes, tosses, true);
                let above = tossed_to(indexes, tosses, false);
                let depth = (max_depth - 1) as nat;
                &&& tosses.len() == indexes.len()
                &&& if below.len() == 0 {
                    random_build_outcome(tree, above, max_objects, depth, split_location, bounding_volume)
                } else if above.len() == 0 {
                    random_build_outcome(tree, below, max_objects, depth, split_location, bounding_volume)
                } else {
                    &&& tree matches Some(KdTree::Node { split_axis, split_location: location, bounding_volume: volume, left, right })
                    &&& split_axis == Axis::X
                    &&& location == split_location
                    &&& volume == bounding_volume
                    &&& random_build_outcome(Some(*left), below, max_objects, depth, split_location, bounding_volume)
                    &&& random_build_outcome(Some(*right), above, max_objects, depth, split_location, bounding_volume)
                }
            }
    }
}

proof fn lemma_shaped_deeper<L, V>(tree: KdTree<L, V>, axis: Axis, location: L, volume: V, d1: nat, d2: nat)
    requires
        tree.shaped(axis, location, volume, d1),
        d1 <= d2,
    ensures
        tree.shaped(axis, location, volume, d2),
    decreases tree,
{
    if let KdTree::Node { left, right, .. } = tree {
        lemma_shaped_deeper(*left, axis, location, volume, (d1 - 1) as nat, (d2 - 1) as nat);
        lemma_shaped_deeper(*right, axis, location, volume, (d1 - 1) as nat, (d2 - 1) as nat);
    }
}

/// Whether `tree` is a single leaf listing exactly `indexes`.
pub open spec fn is_leaf_of<L, V>(tree: Option<KdTree<L, V>>, indexes: Seq<usize>) -> bool {
    tree matches Some(KdTree::Leaf(leaf)) && leaf@ == indexes
}

/// Whether `tree` can come out of `KdTree::build` over the objects
/// `indexes` within `bounding_volume`, with `max_bad_refines` bad
/// refinements left, for answers `plan_split` can give: no tree for no
/// object; a leaf of the objects when they are at most `max_objects` or no
/// depth is left; otherwise the planner's answer for these objects, volume
/// and budget decides. A leaf answer, or a split whose candidates are not
/// those of the objects or whose split candidate does not exist, gives a
/// leaf of the objects. A split gives the tree built over the objects below
/// the split within the answer's `below` volume and the tree built over the
/// objects above it within its `above` volume, both one level deeper with
/// the answer's budget, joined by a node along the answer's axis at its
/// location that carries `bounding_volume` (a side with no object adds no
/// subtree).
pub open spec fn planned_outcome<L, V, F: Fn(&Vec<usize>, V, u8) -> NodePlan<L, V>>(
    plan_split: F,
    tree: Option<KdTree<L, V>>,
    indexes: Seq<usize>,
    max_objects: usize,
    max_depth: nat,
    max_bad_refines: u8,
    bounding_volume: V,
) -> bool
    decreases max_depth,
{
    if indexes.len() == 0 {
        tree is None
    } else if indexes.len() <= max_objects || max_depth == 0 {
        is_leaf_of(tree, indexes)
    } else {
        exists|node_indexes: Vec<usize>, plan: NodePlan<L, V>|
            #![trigger call_ensures(plan_split, (&node_indexes, bounding_volume, max_bad_refines), plan)]
            {
                &&& node_indexes@ == indexes
                &&& call_ensures(plan_split, (&node_indexes, bounding_volume, max_bad_refines), plan)
                &&& match plan {
                    NodePlan::Leaf => is_leaf_of(tree, indexes),
                    NodePlan::Split {
                        split_axis,
                        split_location,
                        events,
                        split_index,
                        below,
                        above,
                        max_bad_refines: bad_refines,
                    } => {
                        if split_index < events@.len() && candidates_of(events@, indexes) {
                            let below_indexes = objects_of_kind(
                                events@.take(split_index as int),
                                CandidateKind::Start,
                            );
                            let above_indexes = objects_of_kind(
                                events@.skip(split_index + 1),
                                CandidateKind::End,
                            );
                            let depth = (max_depth - 1) as nat;
                            if below_indexes.len() == 0 {
                                planned_outcome(plan_split, tree, above_indexes, max_objects, depth, bad_refines, above)
                            } else if above_indexes.len() == 0 {
                                planned_outcome(plan_split, tree, below_indexes, max_objects, depth, bad_refines, below)
                            } else {
                                &&& tree matches Some(
                                    KdTree::Node {
                                        split_axis: axis,
                                        split_location: location,
                                        bounding_volume: volume,
                                        left,
                                        right,
                                    },
                                )
                                &&& axis == split_axis
                                &&& location == split_location
                                &&& volume == bounding_volume
                                &&& planned_outcome(plan_split, Some(*left), below_indexes, max_objects, depth, bad_refines, below)
                                &&& planned_outcome(plan_split, Some(*right), above_indexes, max_objects, depth, bad_refines, above)
                            }
                        } else {
                            is_leaf_of(tree, indexes)
                        }
                    },
                }
            }
    }
}

/// When the planner's answer for a node is a split with objects on both
/// sides, the node built is an inner node along the planned axis at the
/// planned location carrying the node's own volume; its left subtree is
/// built over exactly the objects below the split within the planned
/// `below` volume, and its right subtree over exactly the objects above it
/// within the planned `above` volume, both with the budget the answer hands
/// on. (The planner here gives that one answer for the node.)
pub proof fn lemma_planned_children_use_their_side<L, V, F: Fn(&Vec<usize>, V, u8) -> NodePlan<L, V>>(
    plan_split: F,
    tree: Option<KdTree<L, V>>,
    indexes: Seq<usize>,
    max_objects: usize,
    max_depth: nat,
    max_bad_refines: u8,
    bounding_volume: V,
    split_axis: Axis,
    split_location: L,
    events: Vec<SplitEvent>,
    split_index: usize,
    below: V,
    above: V,
    handed_on: u8,
)
    requires
        planned_outcome(plan_split, tree, indexes, max_objects, max_depth, max_bad_refines, bounding_volume),
        indexes.len() > max_objects,
        max_depth > 0,
        forall|node_indexes: Vec<usize>, answer: NodePlan<L, V>|
            node_indexes@ == indexes && #[trigger] call_ensures(
                plan_split,
                (&node_indexes, bounding_volume, max_bad_refines),
                answer,
            ) ==> answer == (NodePlan::Split {
                split_axis,
                split_location,
                events,
                split_index,
                below,
                above,
                max_bad_refines: handed_on,
            }),
        split_index < events@.len(),
        candidates_of(events@, indexes),
        objects_of_kind(events@.take(split_index as int), CandidateKind::Start).len() > 0,
        objects_of_kind(events@.skip(split_index + 1), CandidateKind::End).len() > 0,
    ensures
        tree matches Some(KdTree::Node { split_axis: axis, split_location: location, bounding_volume: volume, left, right })
            && axis == split_axis && location == split_location && volume == bounding_volume
            && planned_outcome(
            plan_split,
            Some(*left),
            objects_of_kind(events@.take(split_index as int), CandidateKind::Start),
            max_objects,
            (max_depth - 1) as nat,
            handed_on,
            below,
        ) && planned_outcome(
            plan_split,
            Some(*right),
            objects_of_kind(events@.skip(split_index + 1), CandidateKind::End),
            max_objects,
            (max_depth - 1) as nat,
            handed_on,
            above,
        ),
{
}

impl<L: Copy, V: Copy> KdTree<L, V> {
    /// Builds a tree over `indexes` by splitting them at random: a node with
    /// no index is dropped, a node with at most `max_objects` indexes or no
    /// depth left becomes a leaf of them, and any other node tosses a coin
    /// for each index to send it to one of two subtrees one level deeper.
    /// The result is one of the trees `random_build_outcome` admits: every
    /// node splits along the X axis at `split_location` and carries
    /// `bounding_volume`, no path holds more than `max_depth` nodes, no leaf
    /// is empty, and the leaves list exactly the given indexes. Which of
    /// those trees comes out depends on the tosses.
    pub fn build_by_random_splits(
        indexes: Vec<usize>,
        max_objects: usize,
        max_depth: u8,
        split_location: L,
        bounding_volume: V,
    ) -> (tree: Option<KdTree<L, V>>)
        ensures
            random_build_outcome(
                tree,
                indexes@,
                max_objects,
                max_depth as nat,
                split_location,
                bounding_volume,
            ),
            tree is None <==> indexes@.len() == 0,
            indexes@.len() > 0 && (indexes@.len() <= max_objects || max_depth == 0) ==> tree == Some(
                KdTree::<L, V>::Leaf(indexes),
            ),
            tree matches Some(t) ==> t.shaped(Axis::X, split_location, bounding_volume, max_depth as nat),
            forall|i: usize| #[trigger] option_holds(tree, i) == indexes@.contains(i),
            indexes@.no_duplicates() ==> option_leaves_unique(tree),
        decreases max_depth,
    {
        match build_start(indexes.len(), max_objects, max_depth) {
            BuildStart::Empty => None,
            BuildStart::Leaf => Some(KdTree::Leaf(indexes)),
            BuildStart::Split => {
                let (left, right) = random_split(&indexes);
                let ghost left_view = left@;
                let ghost right_view = right@;
                let ghost tosses = choose|tosses: Seq<bool>|
                    #![trigger tossed_to(indexes@, tosses, true)]
                    {
                        &&& tosses.len() == indexes@.len()
                        &&& left_view == tossed_to(indexes@, tosses, true)
                        &&& right_view == tossed_to(indexes@, tosses, false)
                    };
                let left_tree = Self::build_by_random_splits(
                    left,
                    max_objects,
                    max_depth - 1,
                    split_location,
                    bounding_volume,
                );
                let right_tree = Self::build_by_random_splits(
                    right,
                    max_objects,
                    max_depth - 1,
                    split_location,
                    bounding_volume,
                );
                proof {
                    lemma_split_sides_hold_indexes(indexes@, left_view, right_view);
                    if indexes@.no_duplicates() {
                        lemma_split_sides_unique(indexes@, left_view, right_view);
                    }
                }
                let ghost left_ghost = left_tree;
                let ghost right_ghost = right_tree;
                let tree = Self::join(Axis::X, split_location, bounding_volume, left_tree, right_tree);
                proof {
                    assert forall|i: usize| #[trigger] option_holds(tree, i) == indexes@.contains(i) by {
                        lemma_join_keeps_indexes(
                            Axis::X,
                            split_location,
                            bounding_volume,
                            left_ghost,
                            right_ghost,
                            i,
                            0,
                        );
                    }
                    let d = (max_depth as nat - 1) as nat;
                    assert(random_build_outcome(
                        left_ghost,
                        tossed_to(indexes@, tosses, true),
                        max_objects,
                        d,
                        split_location,
                        bounding_volume,
                    ));
                    assert(random_build_outcome(
                        right_ghost,
                        tossed_to(indexes@, tosses, false),
                        max_objects,
                        d,
                        split_location,
                        bounding_volume,
                    ));
                    match left_ghost {
                        Some(l) => lemma_shaped_deeper(l, Axis::X, split_location, bounding_volume, d, max_depth as nat),
                        None => {},
                    }
                    match right_ghost {
                        Some(r) => lemma_shaped_deeper(r, Axis::X, split_location, bounding_volume, d, max_depth as nat),
                        None => {},
                    }
                }
                tree
            },
        }
    }

    /// Builds a tree over the objects `indexes` within `bounding_volume`,
    /// as the surface area heuristic does: a node with no index is dropped,
    /// a node with at most `max_objects` indexes or no depth left becomes a
    /// leaf of them, and any other node asks `plan_split` (given its indexes,
    /// volume and the bad refinements left) whether and where to split. A
    /// leaf plan, or a split whose candidates are not those of the node's
    /// objects (see `candidates_of`) or whose split candidate does not exist,
    /// makes a leaf; a split sends the objects to both sides as
    /// `split_partition` does and builds each side one level deeper within
    /// its volume. The leaves list exactly the given indexes, each leaf
    /// without repeats when the indexes have none, whatever the plans say.
    pub fn build<F>(
        plan_split: &F,
        num_objects: usize,
        max_objects: usize,
        max_depth: u8,
        max_bad_refines: u8,
        bounding_volume: V,
        indexes: Vec<usize>,
    ) -> (tree: Option<KdTree<L, V>>)
        where
            F: Fn(&Vec<usize>, V, u8) -> NodePlan<L, V>,
        requires
            forall|k: int| 0 <= k < indexes@.len() ==> #[trigger] indexes@[k] < num_objects,
            forall|node_indexes: &Vec<usize>, volume: V, bad_refines: u8|
                #[trigger] call_requires(*plan_split, (node_indexes, volume, bad_refines)),
        ensures
            planned_outcome(
                *plan_split,
                tree,
                indexes@,
                max_objects,
                max_depth as nat,
                max_bad_refines,
                bounding_volume,
            ),
            tree is None <==> indexes@.len() == 0,
            indexes@.len() > 0 && (indexes@.len() <= max_objects || max_depth == 0) ==> tree == Some(
                KdTree::<L, V>::Leaf(indexes),
            ),
            forall|i: usize| #[trigger] option_holds(tree, i) == indexes@.contains(i),
            indexes@.no_duplicates() ==> option_leaves_unique(tree),
        decreases max_depth,
    {
        match build_start(indexes.len(), max_objects, max_depth) {
            BuildStart::Empty => return None,
            BuildStart::Leaf => return Some(KdTree::Leaf(indexes)),
            BuildStart::Split => {},
        }
        let ghost old_bad_refines = max_bad_refines;
        let plan = (*plan_split)(&indexes, bounding_volume, max_bad_refines);
        let ghost answer = plan;
        let ghost node_indexes = indexes;
        match plan {
            NodePlan::Leaf => Some(KdTree::Leaf(indexes)),
            NodePlan::Split {
                split_axis,
                split_location,
                events,
                split_index,
                below,
                above,
                max_bad_refines,
            } => {
                if split_index >= events.len() || !check_candidates(&events, &indexes, num_objects) {
                    return Some(KdTree::Leaf(indexes));
                }
                let (left, right) = split_partition(&events, split_index);
                let ghost left_view = left@;
                let ghost right_view = right@;
                proof {
                    lemma_planned_split_keeps_objects(events@, indexes@, split_index as int);
                    assert forall|k: int| 0 <= k < left_view.len() implies #[trigger] left_view[k] < num_objects by {
                        assert(left_view.contains(left_view[k]));
                        assert(indexes@.contains(left_view[k]));
                    }
                    assert forall|k: int| 0 <= k < right_view.len() implies #[trigger] right_view[k] < num_objects by {
                        assert(right_view.contains(right_view[k]));
                        assert(indexes@.contains(right_view[k]));
                    }
                }
                let left_tree = Self::build(
                    plan_split,
                    num_objects,
                    max_objects,
                    max_depth - 1,
                    max_bad_refines,
                    below,
                    left,
                );
                let right_tree = Self::build(
                    plan_split,
                    num_objects,
                    max_objects,
                    max_depth - 1,
                    max_bad_refines,
                    above,
                    right,
                );
                let ghost left_ghost = left_tree;
                let ghost right_ghost = right_tree;
                let tree = Self::join(split_axis, split_location, bounding_volume, left_tree, right_tree);
                proof {
                    assert forall|i: usize| #[trigger] option_holds(tree, i) == indexes@.contains(i) by {
                        lemma_join_keeps_indexes(
                            split_axis,
                            split_location,
                            bounding_volume,
                            left_ghost,
                            right_ghost,
                            i,
                            0,
                        );
                    }
                    assert(indexes@.contains(indexes@[0]));
                    assert(call_ensures(
                        *plan_split,
                        (&node_indexes, bounding_volume, old_bad_refines),
                        answer,
                    ));
                }
                tree
            },
        }
    }
}

proof fn lemma_split_sides_hold_indexes(indexes: Seq<usize>, left: Seq<usize>, right: Seq<usize>)
    requires
        (left + right).to_multiset() == indexes.to_multiset(),
    ensures
        forall|i: usize| #[trigger] indexes.contains(i) == (left.contains(i) || right.contains(i)),
        indexes.len() == left.len() + right.len(),
{
    broadcast use vstd::seq_lib::group_to_multiset_ensures;

    let both = left + right;
    assert forall|i: usize| #[trigger] indexes.contains(i) == (left.contains(i) || right.contains(i)) by {
        assert(indexes.contains(i) == (indexes.to_multiset().count(i) > 0));
        assert(both.contains(i) == (both.to_multiset().count(i) > 0));
        if left.contains(i) {
            let k = choose|k: int| 0 <= k < left.len() && left[k] == i;
            assert(both[k] == i);
        }
        if right.contains(i) {
            let k = choose|k: int| 0 <= k < right.len() && right[k] == i;
            assert(both[left.len() + k] == i);
        }
        if both.contains(i) {
            let k = choose|k: int| 0 <= k < both.len() && both[k] == i;
            if k < left.len() {
                assert(left[k] == i);
            } else {
                assert(right[k - left.len()] == i);
            }
        }
    }
    assert(both.len() == both.to_multiset().len());
    assert(indexes.len() == indexes.to_multiset().len());
}

/// A tree whose every listed index lies below `n` lists only indexes below `n`.
pub proof fn lemma_held_indexes_below<L, V>(tree: KdTree<L, V>, n: nat)
    requires
        forall|i: usize| #[trigger] tree.holds(i) ==> i < n,
    ensures
        tree.indexes_below(n),
    decreases tree,
{
    match tree {
        KdTree::Node { left, right, .. } => {
            assert forall|i: usize| #[trigger] left.holds(i) implies i < n by {
                assert(tree.holds(i));
            }
            assert forall|i: usize| #[trigger] right.holds(i) implies i < n by {
                assert(tree.holds(i));
            }
            lemma_held_indexes_below(*left, n);
            lemma_held_indexes_below(*right, n);
        },
        KdTree::Leaf(indexes) => {
            assert forall|k: int| 0 <= k < indexes@.len() implies #[trigger] indexes@[k] < n by {
                assert(indexes@.contains(indexes@[k]));
                assert(tree.holds(indexes@[k]));
            }
        },
    }
}

/// What the split search decided for a node that may split: stay a leaf, or
/// split along `split_axis` at `split_location`, where `events` are the
/// node's split candidates in the order of their locations, the split
/// candidate is `events[split_index]`, `below` and `above` bound the two
/// children, and `max_bad_refines` bad refinements are left to them.
#[derive(Debug)]
pub enum NodePlan<L, V> {
    Leaf,
    Split {
        split_axis: Axis,
        split_location: L,
        events: Vec<SplitEvent>,
        split_index: usize,
        below: V,
        above: V,
        max_bad_refines: u8,
    },
}

/// Whether `events` are split candidates of the objects `indexes`: every
/// candidate names one of them, no object has two candidates of one kind,
/// and every object has its `Start` candidate before its `End` candidate.
pub open spec fn candidates_of(events: Seq<SplitEvent>, indexes: Seq<usize>) -> bool {
    &&& forall|p: int| 0 <= p < events.len() ==> indexes.contains(#[trigger] events[p].object)
    &&& forall|p: int, q: int|
        #![trigger events[p], events[q]]
        0 <= p < events.len() && 0 <= q < events.len() && p != q && events[p].kind == events[q].kind
            ==> events[p].object != events[q].object
    &&& forall|k: int|
        0 <= k < indexes.len() ==> exists|p: int, q: int|
            #![trigger events[p], events[q]]
            {
                &&& 0 <= p < q < events.len()
                &&& events[p] == (SplitEvent { kind: CandidateKind::Start, object: indexes[k] })
                &&& events[q] == (SplitEvent { kind: CandidateKind::End, object: #[trigger] indexes[k] })
            }
}

/// Checks whether `events` are split candidates of the objects `indexes`,
/// all below `num_objects` (see `candidates_of`).
fn check_candidates(events: &Vec<SplitEvent>, indexes: &Vec<usize>, num_objects: usize) -> (ok: bool)
    requires
        forall|k: int| 0 <= k < indexes@.len() ==> #[trigger] indexes@[k] < num_objects,
    ensures
        ok == candidates_of(events@, indexes@),
{
    let mut member: Vec<bool> = vec![false; num_objects];
    let mut k: usize = 0;
    while k < indexes.len()
        invariant
            member@.len() == num_objects,
            k <= indexes@.len(),
            forall|k: int| 0 <= k < indexes@.len() ==> #[trigger] indexes@[k] < num_objects,
            forall|o: int| 0 <= o < num_objects && #[trigger] member@[o] ==> indexes@.contains(o as usize),
            forall|m: int| 0 <= m < k ==> member@[#[trigger] indexes@[m] as int],
        decreases indexes@.len() - k,
    {
        let index = indexes[k];
        member.set(index, true);
        assert(indexes@[k as int] == index);
        k = k + 1;
    }
    let mut start_at: Vec<usize> = vec![0; num_objects];
    let mut end_at: Vec<usize> = vec![0; num_objects];
    let mut j: usize = 0;
    while j < events.len()
        invariant
            member@.len() == num_objects,
            start_at@.len() == num_objects,
            end_at@.len() == num_objects,
            j <= events@.len(),
            forall|k: int| 0 <= k < indexes@.len() ==> #[trigger] indexes@[k] < num_objects,
            forall|o: int| 0 <= o < num_objects && #[trigger] member@[o] ==> indexes@.contains(o as usize),
            forall|m: int| 0 <= m < indexes@.len() ==> member@[#[trigger] indexes@[m] as int],
            forall|p: int|
                0 <= p < j ==> #[trigger] events@[p].object < num_objects && member@[events@[p].object as int],
            forall|p: int|
                0 <= p < j && #[trigger] events@[p].kind == CandidateKind::Start ==> start_at@[events@[p].object as int] == p + 1,
            forall|p: int|
                0 <= p < j && #[trigger] events@[p].kind == CandidateKind::End ==> end_at@[events@[p].object as int] == p + 1,
            forall|o: int|
                0 <= o < num_objects && #[trigger] start_at@[o] > 0 ==> start_at@[o] <= j && events@[start_at@[o] - 1]
                    == (SplitEvent { kind: CandidateKind::Start, object: o as usize }),
            forall|o: int|
                0 <= o < num_objects && #[trigger] end_at@[o] > 0 ==> 0 < start_at@[o] < end_at@[o] <= j && events@[end_at@[o] - 1]
                    == (SplitEvent { kind: CandidateKind::End, object: o as usize }),
        decreases events@.len() - j,
    {
        let event = events[j];
        let object = event.object;
        if object >= num_objects || !member[object] {
            proof {
                if indexes@.contains(object) {
                    let m = choose|m: int| 0 <= m < indexes@.len() && indexes@[m] == object;
                    assert(indexes@[m] < num_objects);
                    assert(member@[indexes@[m] as int]);
                }
                assert(events@[j as int].object == object);
            }
            return false;
        }
        match event.kind {
            CandidateKind::Start => {
                if start_at[object] != 0 {
                    proof {
                        let p = start_at@[object as int] - 1;
                        assert(events@[p] == events@[j as int]);
                    }
                    return false;
                }
                start_at.set(object, j + 1);
            },
            CandidateKind::End => {
                if end_at[object] != 0 {
                    proof {
                        let p = end_at@[object as int] - 1;
                        assert(events@[p] == events@[j as int]);
                    }
                    return false;
                }
                if start_at[object] == 0 {
                    proof {
                        if candidates_of(events@, indexes@) {
                            assert(member@[object as int]);
                            let m = choose|m: int| 0 <= m < indexes@.len() && indexes@[m] == object;
                            let (p, q) = choose|p: int, q: int|
                                #![trigger events@[p], events@[q]]
                                {
                                    &&& 0 <= p < q < events@.len()
                                    &&& events@[p] == (SplitEvent { kind: CandidateKind::Start, object: indexes@[m] })
                                    &&& events@[q] == (SplitEvent { kind: CandidateKind::End, object: indexes@[m] })
                                };
                            if q != j {
                                assert(events@[q].object == events@[j as int].object);
                            }
                            assert(events@[p].kind == CandidateKind::Start);
                            assert(start_at@[events@[p].object as int] == p + 1);
                            assert(false);
                        }
                    }
                    return false;
                }
                end_at.set(object, j + 1);
            },
        }
        j = j + 1;
    }
    let mut k: usize = 0;
    while k < indexes.len()
        invariant
            k <= indexes@.len(),
            j == events@.len(),
            end_at@.len() == num_objects,
            forall|k: int| 0 <= k < indexes@.len() ==> #[trigger] indexes@[k] < num_objects,
            forall|m: int| 0 <= m < k ==> #[trigger] end_at@[indexes@[m] as int] > 0,
            forall|p: int|
                0 <= p < j && #[trigger] events@[p].kind == CandidateKind::End ==> end_at@[events@[p].object as int] == p + 1,
        decreases indexes@.len() - k,
    {
        if end_at[indexes[k]] == 0 {
            proof {
                if candidates_of(events@, indexes@) {
                    let m = k as int;
                    let (p, q) = choose|p: int, q: int|
                        #![trigger events@[p], events@[q]]
                        {
                            &&& 0 <= p < q < events@.len()
                            &&& events@[p] == (SplitEvent { kind: CandidateKind::Start, object: indexes@[m] })
                            &&& events@[q] == (SplitEvent { kind: CandidateKind::End, object: indexes@[m] })
                        };
                    assert(events@[q].kind == CandidateKind::End);
                    assert(end_at@[events@[q].object as int] == q + 1);
                    assert(false);
                }
            }
            return false;
        }
        k = k + 1;
    }
    proof {
        assert forall|p: int, q: int|
            #![trigger events@[p], events@[q]]
            0 <= p < events@.len() && 0 <= q < events@.len() && p != q && events@[p].kind == events@[q].kind
                implies events@[p].object != events@[q].object by {
            if events@[p].kind == CandidateKind::Start {
                assert(start_at@[events@[p].object as int] == p + 1);
                assert(start_at@[events@[q].object as int] == q + 1);
            } else {
                assert(end_at@[events@[p].object as int] == p + 1);
                assert(end_at@[events@[q].object as int] == q + 1);
            }
        }
        assert forall|m: int| 0 <= m < indexes@.len() implies exists|p: int, q: int|
            #![trigger events@[p], events@[q]]
            {
                &&& 0 <= p < q < events@.len()
                &&& events@[p] == (SplitEvent { kind: CandidateKind::Start, object: indexes@[m] })
                &&& events@[q] == (SplitEvent { kind: CandidateKind::End, object: #[trigger] indexes@[m] })
            } by {
            let o = indexes@[m] as int;
            assert(end_at@[o] > 0);
            let p = start_at@[o] - 1;
            let q = end_at@[o] - 1;
            assert(events@[p] == (SplitEvent { kind: CandidateKind::Start, object: indexes@[m] }));
            assert(events@[q] == (SplitEvent { kind: CandidateKind::End, object: indexes@[m] }));
        }
        assert forall|p: int| 0 <= p < events@.len() implies indexes@.contains(#[trigger] events@[p].object) by {
            assert(member@[events@[p].object as int]);
        }
    }
    true
}

proof fn lemma_objects_from_events(events: Seq<SplitEvent>, kind: CandidateKind)
    ensures
        forall|q: int|
            #![trigger objects_of_kind(events, kind)[q]]
            0 <= q < objects_of_kind(events, kind).len() ==> exists|p: int|
                #![trigger events[p]]
                0 <= p < events.len() && events[p].kind == kind && events[p].object == objects_of_kind(
                    events,
                    kind,
                )[q],
    decreases events.len(),
{
    if events.len() > 0 {
        let rest = events.drop_last();
        lemma_objects_from_events(rest, kind);
        let objs = objects_of_kind(events, kind);
        let rest_objs = objects_of_kind(rest, kind);
        assert(objs == if events.last().kind == kind {
            rest_objs.push(events.last().object)
        } else {
            rest_objs
        });
        assert forall|q: int|
            #![trigger objs[q]]
            0 <= q < objs.len() implies exists|p: int|
                #![trigger events[p]]
                0 <= p < events.len() && events[p].kind == kind && events[p].object == objs[q] by {
            if q < rest_objs.len() {
                assert(objs[q] == rest_objs[q]);
                assert(rest_objs[q] == rest_objs[q]);
                let p = choose|p: int|
                    #![trigger rest[p]]
                    0 <= p < rest.len() && rest[p].kind == kind && rest[p].object == rest_objs[q];
                assert(events[p] == rest[p]);
            } else {
                let last = events.len() - 1;
                assert(events[last] == events.last());
                assert(events.last().kind == kind);
                assert(objs[q] == events.last().object);
                assert(0 <= last < events.len() && events[last].kind == kind && events[last].object == objs[q]);
            }
        }
    }
}

proof fn lemma_objects_unique(events: Seq<SplitEvent>, kind: CandidateKind)
    requires
        forall|p: int, q: int|
            #![trigger events[p], events[q]]
            0 <= p < events.len() && 0 <= q < events.len() && p != q && events[p].kind == kind
                && events[q].kind == kind ==> events[p].object != events[q].object,
    ensures
        objects_of_kind(events, kind).no_duplicates(),
    decreases events.len(),
{
    if events.len() > 0 {
        let rest = events.drop_last();
        assert forall|p: int, q: int|
            #![trigger rest[p], rest[q]]
            0 <= p < rest.len() && 0 <= q < rest.len() && p != q && rest[p].kind == kind && rest[q].kind
                == kind implies rest[p].object != rest[q].object by {
            assert(rest[p] == events[p]);
            assert(rest[q] == events[q]);
        }
        lemma_objects_unique(rest, kind);
        lemma_objects_from_events(rest, kind);
        let rest_objs = objects_of_kind(rest, kind);
        if events.last().kind == kind {
            let last = events.len() - 1;
            assert(events[last] == events.last());
            assert forall|q: int| 0 <= q < rest_objs.len() implies rest_objs[q] != events.last().object by {
                let p = choose|p: int|
                    #![trigger rest[p]]
                    0 <= p < rest.len() && rest[p].kind == kind && rest[p].object == rest_objs[q];
                assert(rest[p] == events[p]);
            }
            let objs = rest_objs.push(events.last().object);
            assert forall|a: int, b: int| 0 <= a < objs.len() && 0 <= b < objs.len() && a != b implies objs[a]
                != objs[b] by {
                if a < rest_objs.len() && b < rest_objs.len() {
                    assert(objs[a] == rest_objs[a]);
                    assert(objs[b] == rest_objs[b]);
                } else if a < rest_objs.len() {
                    assert(objs[a] == rest_objs[a]);
                } else {
                    assert(objs[b] == rest_objs[b]);
                }
            }
        }
    }
}

/// The objects sent to the two sides of a split of candidates of `indexes`
/// are among `indexes`, each once per side, and every one of `indexes` goes
/// to some side.
pub proof fn lemma_planned_split_keeps_objects(events: Seq<SplitEvent>, indexes: Seq<usize>, split_index: int)
    requires
        candidates_of(events, indexes),
        0 <= split_index < events.len(),
    ensures
        ({
            let below = objects_of_kind(events.take(split_index), CandidateKind::Start);
            let above = objects_of_kind(events.skip(split_index + 1), CandidateKind::End);
            &&& below.no_duplicates()
            &&& above.no_duplicates()
            &&& forall|i: usize| #[trigger] indexes.contains(i) <==> (below.contains(i) || above.contains(i))
        }),
{
    let front = events.take(split_index);
    let back = events.skip(split_index + 1);
    let below = objects_of_kind(front, CandidateKind::Start);
    let above = objects_of_kind(back, CandidateKind::End);
    assert forall|p: int, q: int|
        #![trigger front[p], front[q]]
        0 <= p < front.len() && 0 <= q < front.len() && p != q && front[p].kind == CandidateKind::Start
            && front[q].kind == CandidateKind::Start implies front[p].object != front[q].object by {
        assert(front[p] == events[p]);
        assert(front[q] == events[q]);
    }
    assert forall|p: int, q: int|
        #![trigger back[p], back[q]]
        0 <= p < back.len() && 0 <= q < back.len() && p != q && back[p].kind == CandidateKind::End
            && back[q].kind == CandidateKind::End implies back[p].object != back[q].object by {
        assert(back[p] == events[p + split_index + 1]);
        assert(back[q] == events[q + split_index + 1]);
    }
    lemma_objects_unique(front, CandidateKind::Start);
    lemma_objects_unique(back, CandidateKind::End);
    lemma_objects_from_events(front, CandidateKind::Start);
    lemma_objects_from_events(back, CandidateKind::End);
    assert forall|i: usize| #[trigger] indexes.contains(i) <==> (below.contains(i) || above.contains(i)) by {
        if indexes.contains(i) {
            let k = choose|k: int| 0 <= k < indexes.len() && indexes[k] == i;
            assert(indexes[k] == i);
            let (p, q) = choose|p: int, q: int|
                #![trigger events[p], events[q]]
                {
                    &&& 0 <= p < q < events.len()
                    &&& events[p] == (SplitEvent { kind: CandidateKind::Start, object: indexes[k] })
                    &&& events[q] == (SplitEvent { kind: CandidateKind::End, object: indexes[k] })
                };
            lemma_split_keeps_objects(events, split_index, p, q);
        }
        if below.contains(i) {
            let q = choose|q: int| 0 <= q < below.len() && below[q] == i;
            assert(below[q] == below[q]);
            let p = choose|p: int|
                #![trigger front[p]]
                0 <= p < front.len() && front[p].kind == CandidateKind::Start && front[p].object == below[q];
            assert(front[p] == events[p]);
            assert(indexes.contains(events[p].object));
        }
        if above.contains(i) {
            let q = choose|q: int| 0 <= q < above.len() && above[q] == i;
            assert(above[q] == above[q]);
            let p = choose|p: int|
                #![trigger back[p]]
                0 <= p < back.len() && back[p].kind == CandidateKind::End && back[p].object == above[q];
            assert(back[p] == events[p + split_index + 1]);
            assert(indexes.contains(events[p + split_index + 1].object));
        }
    }
}

/// A tree that lists only indexes below `n` holds no index at or above `n`.
pub proof fn lemma_indexes_below_hold_below<L, V>(tree: KdTree<L, V>, n: nat)
    requires
        tree.indexes_below(n),
    ensures
        forall|i: usize| #[trigger] tree.holds(i) ==> i < n,
    decreases tree,
{
    match tree {
        KdTree::Node { left, right, .. } => {
            lemma_indexes_below_hold_below(*left, n);
            lemma_indexes_below_hold_below(*right, n);
            assert forall|i: usize| #[trigger] tree.holds(i) implies i < n by {
                assert(left.holds(i) || right.holds(i));
            }
        },
        KdTree::Leaf(indexes) => {
            assert forall|i: usize| #[trigger] tree.holds(i) implies i < n by {
                let k = choose|k: int| 0 <= k < indexes@.len() && indexes@[k] == i;
                assert(indexes@[k] < n);
            }
        },
    }
}

/// Whether an optional subtree lists no index twice in a leaf.
pub open spec fn option_leaves_unique<L, V>(tree: Option<KdTree<L, V>>) -> bool {
    match tree {
        Some(t) => t.leaves_unique(),
        None => true,
    }
}

proof fn lemma_split_sides_unique(indexes: Seq<usize>, left: Seq<usize>, right: Seq<usize>)
    requires
        (left + right).to_multiset() == indexes.to_multiset(),
        indexes.no_duplicates(),
    ensures
        left.no_duplicates(),
        right.no_duplicates(),
{
    broadcast use vstd::seq_lib::group_to_multiset_ensures, vstd::multiset::group_multiset_axioms;

    vstd::seq_lib::lemma_multiset_commutative(left, right);
    indexes.lemma_multiset_has_no_duplicates();
    assert forall|x: usize| left.to_multiset().contains(x) implies left.to_multiset().count(x) == 1 by {
        assert(indexes.to_multiset().count(x) == left.to_multiset().count(x) + right.to_multiset().count(x));
        assert(indexes.to_multiset().contains(x));
    }
    assert forall|x: usize| right.to_multiset().contains(x) implies right.to_multiset().count(x) == 1 by {
        assert(indexes.to_multiset().count(x) == left.to_multiset().count(x) + right.to_multiset().count(x));
        assert(indexes.to_multiset().contains(x));
    }
    left.lemma_multiset_has_no_duplicates_conv();
    right.lemma_multiset_has_no_duplicates_conv();
}

/// Whether an optional subtree lists `index`.
pub open spec fn option_holds<L, V>(tree: Option<KdTree<L, V>>, index: usize) -> bool {
    match tree {
        Some(t) => t.holds(index),
        None => false,
    }
}

/// Whether an optional subtree lists only indexes below `n`.
pub open spec fn option_indexes_below<L, V>(tree: Option<KdTree<L, V>>, n: nat) -> bool {
    match tree {
        Some(t) => t.indexes_below(n),
        None => true,
    }
}

/// Joining subtrees loses and invents no object: the joined tree lists
/// exactly the indexes its parts list, so indexes below a bound stay below it.
pub proof fn lemma_join_keeps_indexes<L, V>(
    split_axis: Axis,
    split_location: L,
    bounding_volume: V,
    left: Option<KdTree<L, V>>,
    right: Option<KdTree<L, V>>,
    index: usize,
    n: nat,
)
    ensures
        ({
            let tree = joined(split_axis, split_location, bounding_volume, left, right);
            &&& option_holds(tree, index) == (option_holds(left, index) || option_holds(right, index))
            &&& (option_indexes_below(left, n) && option_indexes_below(right, n))
                ==> option_indexes_below(tree, n)
        }),
{
}

} // verus!
