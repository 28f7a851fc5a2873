use vstd::prelude::*;

use crate::kdtree::{lemma_held_indexes_below, option_holds, KdTree};

verus! {

/// An object with no finite bounding volume (such as an infinite plane):
/// it is tested against every ray.
#[derive(Debug)]
pub struct UnboundedObject<O>(pub O);

/// An object together with the bounding volume (of type `V`) that encloses it.
#[derive(Debug)]
pub struct BoundedObject<O, V> {
    pub object: O,
    pub bounding_volume: V,
}

/// An object with or without a bounding volume.
#[derive(Debug)]
pub enum ObjectWithBounds<O, V> {
    Unbounded(UnboundedObject<O>),
    Bounded(BoundedObject<O, V>),
}

impl<O, V> ObjectWithBounds<O, V> {
    /// An object without bounding volume.
    pub fn unbounded(object: O) -> (result: Self)
        ensures
            result == ObjectWithBounds::<O, V>::Unbounded(UnboundedObject(object)),
    {
        ObjectWithBounds::Unbounded(UnboundedObject(object))
    }

    /// An object enclosed by `bounding_volume`.
    pub fn bounded(object: O, bounding_volume: V) -> (result: Self)
        ensures
            result == ObjectWithBounds::<O, V>::Bounded(BoundedObject { object, bounding_volume }),
    {
        ObjectWithBounds::Bounded(BoundedObject { object, bounding_volume })
    }
}

/// The unbounded objects of `objects`, in order.
pub open spec fn unbounded_part<O, V>(objects: Seq<ObjectWithBounds<O, V>>) -> Seq<UnboundedObject<O>>
    decreases objects.len(),
{
    if objects.len() == 0 {
        Seq::empty()
    } else {
        let rest = unbounded_part(objects.drop_last());
        match objects.last() {
            ObjectWithBounds::Unbounded(object) => rest.push(object),
            ObjectWithBounds::Bounded(_) => rest,
        }
    }
}

/// The bounded objects of `objects`, in order.
pub open spec fn bounded_part<O, V>(objects: Seq<ObjectWithBounds<O, V>>) -> Seq<BoundedObject<O, V>>
    decreases objects.len(),
{
    if objects.len() == 0 {
        Seq::empty()
    } else {
        let rest = bounded_part(objects.drop_last());
        match objects.last() {
            ObjectWithBounds::Unbounded(_) => rest,
            ObjectWithBounds::Bounded(object) => rest.push(object),
        }
    }
}

proof fn lemma_parts_step<O, V>(objects: Seq<ObjectWithBounds<O, V>>, k: int)
    requires
        0 <= k < objects.len(),
    ensures
        unbounded_part(objects.take(k + 1)) == match objects[k] {
            ObjectWithBounds::Unbounded(object) => unbounded_part(objects.take(k)).push(object),
            ObjectWithBounds::Bounded(_) => unbounded_part(objects.take(k)),
        },
        bounded_part(objects.take(k + 1)) == match objects[k] {
            ObjectWithBounds::Unbounded(_) => bounded_part(objects.take(k)),
            ObjectWithBounds::Bounded(object) => bounded_part(objects.take(k)).push(object),
        },
{
    assert(objects.take(k + 1).drop_last() =~= objects.take(k));
}

/// Splitting objects into unbounded and bounded ones keeps every object:
/// the two parts together are as many as the objects.
pub proof fn lemma_parts_keep_count<O, V>(objects: Seq<ObjectWithBounds<O, V>>)
    ensures
        unbounded_part(objects).len() + bounded_part(objects).len() == objects.len(),
    decreases objects.len(),
{
    if objects.len() > 0 {
        lemma_parts_keep_count(objects.drop_last());
    }
}

/// The objects of a scene, organised for ray casting: unbounded objects are
/// tested one by one, bounded ones through a k-d tree over their indexes.
#[derive(Debug)]
pub struct KdTreeAccelerator<O, L, V> {
    unbounded_objects: Vec<UnboundedObject<O>>,
    bounded_objects: Vec<BoundedObject<O, V>>,
    tree: KdTree<L, V>,
}

impl<O, L, V> KdTreeAccelerator<O, L, V> {
    /// The tree lists exactly the indexes of the bounded objects, and the
    /// objects can be counted.
    #[verifier::type_invariant]
    spec fn well_formed(self) -> bool {
        &&& forall|i: usize| #[trigger] self.tree.holds(i) <==> i < self.bounded_objects@.len()
        &&& self.unbounded_objects@.len() + self.bounded_objects@.len() <= usize::MAX
    }

    /// The unbounded objects.
    pub closed spec fn unbounded_view(self) -> Seq<UnboundedObject<O>> {
        self.unbounded_objects@
    }

    /// The bounded objects, indexed by the tree.
    pub closed spec fn bounded_view(self) -> Seq<BoundedObject<O, V>> {
        self.bounded_objects@
    }

    /// The tree over the bounded objects.
    pub closed spec fn tree_view(self) -> KdTree<L, V> {
        self.tree
    }

    /// Splits `objects` into the unbounded and the bounded ones, each part in
    /// the order of `objects`.
    pub fn partition(objects: Vec<ObjectWithBounds<O, V>>) -> (parts: (
        Vec<UnboundedObject<O>>,
        Vec<BoundedObject<O, V>>,
    ))
        ensures
            parts.0@ == unbounded_part(objects@),
            parts.1@ == bounded_part(objects@),
    {
        let ghost original = objects@;
        let mut objects = objects;
        let mut reversed: Vec<ObjectWithBounds<O, V>> = Vec::new();
        while objects.len() > 0
            invariant
                objects@.len() + reversed@.len() == original.len(),
                objects@ == original.take(objects@.len() as int),
                forall|i: int|
                    0 <= i < reversed@.len() ==> #[trigger] reversed@[i] == original[original.len()
                        - 1 - i],
            decreases objects@.len(),
        {
            let object = objects.pop().unwrap();
            proof {
                assert(objects@ =~= original.take(objects@.len() as int));
            }
            reversed.push(object);
        }
        let mut unbounded_objects: Vec<UnboundedObject<O>> = Vec::new();
        let mut bounded_objects: Vec<BoundedObject<O, V>> = Vec::new();
        let ghost total = original.len();
        proof {
            assert(original.take(0) =~= Seq::<ObjectWithBounds<O, V>>::empty());
        }
        while reversed.len() > 0
            invariant
                total == original.len(),
                reversed@.len() <= total,
                forall|i: int|
                    0 <= i < reversed@.len() ==> #[trigger] reversed@[i] == original[total - 1 - i],
                unbounded_objects@ == unbounded_part(original.take(total - reversed@.len())),
                bounded_objects@ == bounded_part(original.take(total - reversed@.len())),
            decreases reversed@.len(),
        {
            let ghost k = total - reversed@.len();
            let object = reversed.pop().unwrap();
            proof {
                lemma_parts_step(original, k);
            }
            match object {
                ObjectWithBounds::Unbounded(object) => unbounded_objects.push(object),
                ObjectWithBounds::Bounded(object) => bounded_objects.push(object),
            }
        }
        proof {
            assert(original.take(total as int) =~= original);
        }
        (unbounded_objects, bounded_objects)
    }

    /// Assembles the accelerator from both parts and the tree built over the
    /// bounded objects, which lists each of their indexes and no other (as
    /// `KdTree::lists_exactly` checks); there is no tree only when there are
    /// no bounded objects, and then the accelerator holds an empty leaf.
    pub fn new(
        unbounded_objects: Vec<UnboundedObject<O>>,
        bounded_objects: Vec<BoundedObject<O, V>>,
        tree: Option<KdTree<L, V>>,
    ) -> (accelerator: Self)
        requires
            forall|i: usize| #[trigger] option_holds(tree, i) <==> i < bounded_objects@.len(),
            unbounded_objects@.len() + bounded_objects@.len() <= usize::MAX,
        ensures
            accelerator.unbounded_view() == unbounded_objects@,
            accelerator.bounded_view() == bounded_objects@,
            match tree {
                Some(t) => accelerator.tree_view() == t,
                None => accelerator.tree_view() matches KdTree::Leaf(indexes) && indexes@.len() == 0,
            },
    {
        let ghost given = tree;
        let tree = match tree {
            Some(tree) => tree,
            None => {
                assert(bounded_objects@.len() == 0) by {
                    if bounded_objects@.len() > 0 {
                        assert(option_holds(given, 0));
                    }
                }
                KdTree::Leaf(Vec::new())
            },
        };
        proof {
            assert forall|i: usize| #[trigger] tree.holds(i) <==> i < bounded_objects@.len() by {
                if given is Some {
                    assert(option_holds(given, i) == tree.holds(i));
                }
            }
        }
        KdTreeAccelerator { unbounded_objects, bounded_objects, tree }
    }

    /// The number of objects, bounded or not.
    pub fn get_num_objects(&self) -> (count: usize)
        ensures
            count == self.unbounded_view().len() + self.bounded_view().len(),
    {
        proof {
            use_type_invariant(self);
        }
        self.unbounded_objects.len() + self.bounded_objects.len()
    }

    /// The unbounded objects.
    pub fn unbounded_objects(&self) -> (objects: &Vec<UnboundedObject<O>>)
        ensures
            objects@ == self.unbounded_view(),
    {
        &self.unbounded_objects
    }

    /// The bounded objects, indexed by the tree.
    pub fn bounded_objects(&self) -> (objects: &Vec<BoundedObject<O, V>>)
        ensures
            objects@ == self.bounded_view(),
    {
        &self.bounded_objects
    }

    /// The tree over the bounded objects: it lists the index of every
    /// bounded object, and no other index.
    pub fn tree(&self) -> (tree: &KdTree<L, V>)
        ensures
            *tree == self.tree_view(),
            forall|i: usize| #[trigger] tree.holds(i) <==> i < self.bounded_view().len(),
            tree.indexes_below(self.bounded_view().len()),
    {
        proof {
            use_type_invariant(self);
            lemma_held_indexes_below(self.tree, self.bounded_objects@.len());
        }
        &self.tree
    }
}

} // verus!
