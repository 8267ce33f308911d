//! What holds of every tree: facts about insertion, search and reset that
//! follow from the shape of a tree and the contracts of its operations.

use vstd::prelude::*;
use vstd::multiset::group_multiset_axioms;
use vstd::seq_lib::lemma_multiset_commutative;
use crate::geometry::{BoundingBox, Spacial};
use crate::node::Node;

verus! {

/// A test that every element passes keeps the whole sequence.
proof fn lemma_filter_keeps_all<A>(s: Seq<A>, pred: spec_fn(A) -> bool)
    requires
        forall|i: int| 0 <= i < s.len() ==> pred(#[trigger] s[i]),
    ensures
        s.filter(pred) == s,
    decreases s.len(),
{
    reveal(Seq::filter);
    if s.len() > 0 {
        lemma_filter_keeps_all(s.drop_last(), pred);
        assert(s.drop_last().push(s.last()) =~= s);
    }
}

/// The elements of five sequences in a row are those of each, together.
proof fn lemma_multiset_of_five<A>(a: Seq<A>, b: Seq<A>, c: Seq<A>, d: Seq<A>, e: Seq<A>)
    ensures
        (a + b + c + d + e).to_multiset() == a.to_multiset().add(b.to_multiset()).add(
            c.to_multiset(),
        ).add(d.to_multiset()).add(e.to_multiset()),
{
    lemma_multiset_commutative(a, b);
    lemma_multiset_commutative(a + b, c);
    lemma_multiset_commutative(a + b + c, d);
    lemma_multiset_commutative(a + b + c + d, e);
}

/// `is` holds what `was` holds and, where `more` says so, `x` once more;
/// where it does not, the two are the same sequence.
pub open spec fn gains<A>(was: Seq<A>, is: Seq<A>, x: A, more: bool) -> bool {
    if more {
        &&& is.to_multiset() == was.to_multiset().insert(x)
        &&& is.len() == was.len() + 1
        &&& is.contains(x)
    } else {
        is == was
    }
}

/// A sequence gains the element that is pushed onto it.
proof fn lemma_one_more<A>(was: Seq<A>, is: Seq<A>, x: A)
    requires
        is == was.push(x),
    ensures
        gains(was, is, x, true),
{
    was.to_multiset_ensures();
    assert(is[was.len() as int] == x);
}

/// Where one of four sequences behind a common start gains an element and
/// the others stay, the whole gains it; where none does, the whole stays.
proof fn lemma_one_of_four_gains<A>(
    i: Seq<A>,
    a0: Seq<A>,
    a1: Seq<A>,
    a2: Seq<A>,
    a3: Seq<A>,
    b0: Seq<A>,
    b1: Seq<A>,
    b2: Seq<A>,
    b3: Seq<A>,
    x: A,
    j: int,
)
    requires
        gains(a0, b0, x, j == 0),
        gains(a1, b1, x, j == 1),
        gains(a2, b2, x, j == 2),
        gains(a3, b3, x, j == 3),
    ensures
        gains(i + a0 + a1 + a2 + a3, i + b0 + b1 + b2 + b3, x, 0 <= j < 4),
{
    broadcast use group_multiset_axioms;

    if 0 <= j < 4 {
        let was = i + a0 + a1 + a2 + a3;
        let is = i + b0 + b1 + b2 + b3;
        lemma_multiset_of_five(i, a0, a1, a2, a3);
        lemma_multiset_of_five(i, b0, b1, b2, b3);
        assert(is.to_multiset() =~= was.to_multiset().insert(x));
        is.to_multiset_ensures();
        assert(is.to_multiset().count(x) > 0);
    }
}

impl<'a, T: Spacial> Node<&'a T> {
    /// The representative point of `item` lies strictly inside the node's
    /// region and on no edge of a quadrant at any level at which the item
    /// would be handed down: where the node is full, the point is on the
    /// edge of none of the four quadrants, and the same holds in turn of
    /// each existing quadrant that covers the point.
    pub open spec fn clear_of_edges(self, item: &'a T) -> bool
        decreases self,
    {
        let px = item.extent().x as int;
        let py = item.extent().y as int;
        &&& self.region.covers_strictly(px, py)
        &&& self.items.len() >= self.threshold ==> {
            &&& !self.region.quadrant(0).on_edge(px, py)
            &&& !self.region.quadrant(1).on_edge(px, py)
            &&& !self.region.quadrant(2).on_edge(px, py)
            &&& !self.region.quadrant(3).on_edge(px, py)
            &&& self.children.len() == 4 ==> {
                &&& self.region.quadrant(0).covers(px, py) ==> self.children[0].clear_of_edges(item)
                &&& self.region.quadrant(1).covers(px, py) ==> self.children[1].clear_of_edges(item)
                &&& self.region.quadrant(2).covers(px, py) ==> self.children[2].clear_of_edges(item)
                &&& self.region.quadrant(3).covers(px, py) ==> self.children[3].clear_of_edges(item)
            }
        }
    }

    /// The tree has grown out of `was` by insertions: each node of `was` is
    /// still there, over the same region, and its own items still open its
    /// list in their order; quadrants that `was` had are the quadrants now.
    pub open spec fn grown_from(self, was: Self) -> bool
        decreases self,
    {
        &&& self.region == was.region
        &&& self.threshold == was.threshold
        &&& was.items.is_prefix_of(self.items)
        &&& was.children.len() == 4 ==> {
            &&& self.children.len() == 4
            &&& self.children[0].grown_from(was.children[0])
            &&& self.children[1].grown_from(was.children[1])
            &&& self.children[2].grown_from(was.children[2])
            &&& self.children[3].grown_from(was.children[3])
        }
    }

    /// An item whose representative point lies outside the region of the
    /// tree is refused, and the tree stays as it is.
    pub proof fn lemma_outside_is_refused(self, item: &'a T)
        requires
            !self.region.contains_spec(item),
        ensures
            !self.accepts(item),
            self.inserted(item) == self,
    {
    }

    /// An insertion leaves a tree in shape, over the same region and with
    /// the same threshold.
    pub proof fn lemma_inserted_wf(self, item: &'a T)
        requires
            self.wf(),
        ensures
            self.inserted(item).wf(),
            self.inserted(item).region == self.region,
            self.inserted(item).threshold == self.threshold,
        decreases self,
    {
        let r = self.inserted(item);
        if !self.region.contains_spec(item) {
        } else if self.items.len() < self.threshold {
            assert(self.children.len() == 0);
            assert forall|i: int| 0 <= i < r.items.len() implies r.region.contains_spec(
                #[trigger] r.items[i],
            ) by {
                if i < self.items.len() {
                    assert(r.items[i] == self.items[i]);
                }
            }
        } else {
            self.lemma_inserted_children(item);
            self.lemma_split_quadrants(item);
            let s = self.split();
            assert forall|k: int| 0 <= k < 4 implies (#[trigger] r.children[k]).wf()
                && r.children[k].region == self.region.quadrant(k) && r.children[k].threshold
                == self.threshold by {
                assert(s.children[k].wf());
                if self.children.len() == 4 {
                    assert(s.children[k] == self.children[k]);
                    self.children[k].lemma_inserted_wf(item);
                } else {
                    Self::lemma_leaf_inserted(self.region.quadrant(k), self.threshold, item);
                    s.children[k].lemma_inserted_head(item);
                }
            }
        }
    }

    /// A tree has grown from itself.
    pub proof fn lemma_grown_from_itself(self)
        ensures
            self.grown_from(self),
        decreases self,
    {
        assert(self.items.is_prefix_of(self.items));
        if self.children.len() == 4 {
            self.children[0].lemma_grown_from_itself();
            self.children[1].lemma_grown_from_itself();
            self.children[2].lemma_grown_from_itself();
            self.children[3].lemma_grown_from_itself();
        }
    }

    /// An insertion moves nothing: whatever a node held before, it holds
    /// afterwards, in the same place; no item is handed down from a node
    /// to its quadrants.
    pub proof fn lemma_insert_moves_nothing(self, item: &'a T)
        requires
            self.wf(),
        ensures
            self.inserted(item).grown_from(self),
        decreases self,
    {
        let r = self.inserted(item);
        if !self.region.contains_spec(item) {
            self.lemma_grown_from_itself();
        } else if self.items.len() < self.threshold {
            assert(self.children.len() == 0);
            assert(self.items.is_prefix_of(self.items.push(item)));
        } else {
            self.lemma_inserted_children(item);
            assert(self.items.is_prefix_of(self.items));
            if self.children.len() == 4 {
                assert forall|k: int| 0 <= k < 4 implies (#[trigger] r.children[k]).grown_from(
                    self.children[k],
                ) by {
                    assert(self.children[k].wf());
                    self.children[k].lemma_insert_moves_nothing(item);
                    self.children[k].lemma_grown_from_itself();
                }
            }
        }
    }

    /// An insertion that is accepted adds the item once to the items of the
    /// tree and takes none away; one that is refused leaves the items as
    /// they are.
    pub proof fn lemma_inserted_items(self, item: &'a T)
        requires
            self.wf(),
        ensures
            self.accepts(item) ==> self.inserted(item).all_items().to_multiset()
                == self.all_items().to_multiset().insert(item),
            self.accepts(item) ==> self.inserted(item).all_items().len() == self.all_items().len()
                + 1,
            self.accepts(item) ==> self.inserted(item).all_items().contains(item),
            !self.accepts(item) ==> self.inserted(item).all_items() == self.all_items(),
        decreases self,
    {
        let r = self.inserted(item);
        if !self.region.contains_spec(item) {
        } else if self.items.len() < self.threshold {
            assert(self.children.len() == 0);
            lemma_one_more(self.items, self.items.push(item), item);
        } else {
            self.lemma_inserted_children(item);
            self.lemma_split_quadrants(item);
            let s = self.split();
            let c = s.children;
            let none = Seq::<&'a T>::empty();
            assert(s.all_items() == self.all_items()) by {
                if self.children.len() == 0 {
                    assert(c[0].all_items() =~= none);
                    assert(c[1].all_items() =~= none);
                    assert(c[2].all_items() =~= none);
                    assert(c[3].all_items() =~= none);
                    assert(s.all_items() =~= self.all_items());
                }
            }
            assert forall|k: int| 0 <= k < 4 implies gains(
                (#[trigger] c[k]).all_items(),
                c[k].inserted(item).all_items(),
                item,
                c[k].accepts(item),
            ) by {
                if self.children.len() == 4 {
                    assert(c[k] == self.children[k]);
                    assert(self.children[k].wf());
                    self.children[k].lemma_inserted_items(item);
                } else {
                    Self::lemma_leaf_inserted(self.region.quadrant(k), self.threshold, item);
                    let leaf = c[k];
                    assert(leaf.all_items() =~= none);
                    if leaf.accepts(item) {
                        assert(leaf.inserted(item).all_items() =~= none.push(item));
                        lemma_one_more(none, none.push(item), item);
                    }
                }
            }
            let a0 = c[0].accepts(item);
            let a1 = c[1].accepts(item);
            let a2 = c[2].accepts(item);
            let a3 = c[3].accepts(item);
            assert(self.refused(item, 0));
            assert(self.refused(item, 1) == !a0);
            assert(self.refused(item, 2) == !(a0 || a1));
            assert(self.refused(item, 3) == !(a0 || a1 || a2));
            assert(self.refused(item, 4) == !(a0 || a1 || a2 || a3));
            let j: int = if a0 {
                0
            } else if a1 {
                1
            } else if a2 {
                2
            } else if a3 {
                3
            } else {
                4
            };
            assert(gains(c[0].all_items(), r.children[0].all_items(), item, j == 0));
            assert(gains(c[1].all_items(), r.children[1].all_items(), item, j == 1));
            assert(gains(c[2].all_items(), r.children[2].all_items(), item, j == 2));
            assert(gains(c[3].all_items(), r.children[3].all_items(), item, j == 3));
            assert(s.all_items() == s.items + c[0].all_items() + c[1].all_items()
                + c[2].all_items() + c[3].all_items());
            assert(r.all_items() == s.items + r.children[0].all_items()
                + r.children[1].all_items() + r.children[2].all_items()
                + r.children[3].all_items());
            lemma_one_of_four_gains(
                s.items,
                c[0].all_items(),
                c[1].all_items(),
                c[2].all_items(),
                c[3].all_items(),
                r.children[0].all_items(),
                r.children[1].all_items(),
                r.children[2].all_items(),
                r.children[3].all_items(),
                item,
                j,
            );
        }
    }

    /// A search over the tree's own region yields every item of the tree.
    pub proof fn lemma_found_in_own_region(self)
        requires
            self.wf(),
        ensures
            self.found(self.region) == self.all_items(),
    {
        self.lemma_items_in_region();
        lemma_filter_keeps_all(self.all_items(), Self::within(self.region));
    }

    /// A search yields exactly the items of the tree whose representative
    /// point the search region contains.
    pub proof fn lemma_found_exactly(self, sb: BoundingBox, item: &'a T)
        ensures
            self.found(sb).contains(item) <==> self.all_items().contains(item) && sb.contains_spec(
                item,
            ),
    {
        let pred = Self::within(sb);
        let all = self.all_items();
        if self.found(sb).contains(item) {
            all.lemma_filter_contains_rev(pred, item);
            let i = choose|i: int| 0 <= i < all.filter(pred).len() && all.filter(pred)[i] == item;
            all.lemma_filter_pred(pred, i);
        }
        if all.contains(item) && sb.contains_spec(item) {
            let i = choose|i: int| 0 <= i < all.len() && all[i] == item;
            all.lemma_filter_contains(pred, i);
        }
    }

    /// An item that the tree takes is found afterwards by every search
    /// whose region contains its representative point.
    pub proof fn lemma_accepted_is_found(self, item: &'a T, sb: BoundingBox)
        requires
            self.wf(),
            self.accepts(item),
            sb.contains_spec(item),
        ensures
            self.inserted(item).found(sb).contains(item),
    {
        self.lemma_inserted_items(item);
        self.inserted(item).lemma_found_exactly(sb, item);
    }

    /// An item whose representative point is clear of all edges on its way
    /// down the tree is taken.
    pub proof fn lemma_clear_is_accepted(self, item: &'a T)
        requires
            self.wf(),
            self.clear_of_edges(item),
        ensures
            self.accepts(item),
        decreases self,
    {
        let px = item.extent().x as int;
        let py = item.extent().y as int;
        if self.items.len() >= self.threshold {
            self.region.lemma_quadrants_cover(px, py);
            let k = choose|k: int| 0 <= k < 4 && #[trigger] self.region.quadrant(k).covers(px, py);
            if self.children.len() == 4 {
                assert(self.children[k].region == self.region.quadrant(k));
                assert(self.children[k].wf());
                assert(self.children[k].clear_of_edges(item));
                self.children[k].lemma_clear_is_accepted(item);
            }
        }
    }

    /// Round trip: an item whose representative point lies strictly inside
    /// the region of the tree and on no quadrant's edge on its way down is
    /// taken, and a search over the region of the tree then yields it.
    pub proof fn lemma_round_trip(self, item: &'a T)
        requires
            self.wf(),
            self.clear_of_edges(item),
        ensures
            self.accepts(item),
            self.inserted(item).found(self.region).contains(item),
    {
        self.lemma_clear_is_accepted(item);
        self.lemma_accepted_is_found(item, self.region);
    }

    /// Splitting twice is splitting once: a node has four quadrants after
    /// a split, and a further split changes nothing.
    pub proof fn lemma_split_idempotent(self)
        requires
            self.children.len() == 0 || self.children.len() == 4,
        ensures
            self.split().children.len() == 4,
            self.split().split() == self.split(),
            self.children.len() == 4 ==> self.split() == self,
    {
    }

    /// However often a node overflows, it has no quadrants or four, and
    /// the four it once has stay over their quarters of the region.
    pub proof fn lemma_insert_keeps_quadrants(self, item: &'a T)
        requires
            self.wf(),
        ensures
            self.inserted(item).children.len() == 0 || self.inserted(item).children.len() == 4,
            self.children.len() == 4 ==> self.inserted(item).children.len() == 4,
            self.inserted(item).children.len() == 4 ==> forall|k: int|
                0 <= k < 4 ==> (#[trigger] self.inserted(item).children[k]).region
                    == self.region.quadrant(k),
            self.inserted(item).descendants() >= self.descendants(),
        decreases self,
    {
        self.lemma_inserted_wf(item);
        if self.region.contains_spec(item) && self.items.len() >= self.threshold {
            self.lemma_inserted_children(item);
            if self.children.len() == 4 {
                assert(self.children[0].wf() && self.children[1].wf() && self.children[2].wf()
                    && self.children[3].wf());
                self.children[0].lemma_insert_keeps_quadrants(item);
                self.children[1].lemma_insert_keeps_quadrants(item);
                self.children[2].lemma_insert_keeps_quadrants(item);
                self.children[3].lemma_insert_keeps_quadrants(item);
            }
        }
    }

    /// A leaf without items, which is what a reset leaves, has no node
    /// below it and yields nothing to any search.
    pub proof fn lemma_leaf_is_empty(region: BoundingBox, threshold: nat, sb: BoundingBox)
        ensures
            Self::leaf(region, threshold).descendants() == 0,
            Self::leaf(region, threshold).all_items() == Seq::<&'a T>::empty(),
            Self::leaf(region, threshold).found(sb) == Seq::<&'a T>::empty(),
    {
        reveal(Seq::filter);
        assert(Self::leaf(region, threshold).all_items() =~= Seq::<&'a T>::empty());
    }
}

} // verus!
