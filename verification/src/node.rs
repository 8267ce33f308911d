//! The mathematical value of a quadtree: what a node holds, what an
//! insertion makes of it, what a search yields and how many nodes it has.

use vstd::prelude::*;
use crate::geometry::{BoundingBox, Spacial};

verus! {

/// The mathematical value of a tree node.
pub ghost struct Node<T> {
    /// How many items the node keeps itself before it splits.
    pub threshold: nat,
    /// The part of the plane that the node is responsible for.
    pub region: BoundingBox,
    /// The items kept at the node itself, in the order of their arrival.
    pub items: Seq<T>,
    /// The quadrants: none, or top-left, top-right, bottom-left, bottom-right.
    pub children: Seq<Node<T>>,
}

impl<'a, T: Spacial> Node<&'a T> {
    /// A node without items and without quadrants.
    pub open spec fn leaf(region: BoundingBox, threshold: nat) -> Self {
        Node { threshold, region, items: Seq::empty(), children: Seq::empty() }
    }

    /// The node after a split: a node that has quadrants keeps them, one
    /// that has none gets four empty ones.
    pub open spec fn split(self) -> Self {
        if self.children.len() == 0 {
            Node {
                children: seq![
                    Self::leaf(self.region.quadrant(0), self.threshold),
                    Self::leaf(self.region.quadrant(1), self.threshold),
                    Self::leaf(self.region.quadrant(2), self.threshold),
                    Self::leaf(self.region.quadrant(3), self.threshold),
                ],
                ..self
            }
        } else {
            self
        }
    }

    /// The node after `item` was offered to it as to a leaf: kept if the
    /// region contains its representative point and there is room.
    pub open spec fn placed(self, item: &'a T) -> Self {
        if self.region.contains_spec(item) && self.items.len() < self.threshold {
            Node { items: self.items.push(item), ..self }
        } else {
            self
        }
    }

    /// Whether the tree takes `item`: its region contains the item's
    /// representative point, and the node has room or one of its quadrants
    /// takes the item.  A full node without quadrants gets them first, and
    /// such a fresh quadrant takes whatever its region contains.
    pub open spec fn accepts(self, item: &'a T) -> bool
        decreases self,
    {
        &&& self.region.contains_spec(item)
        &&& if self.items.len() < self.threshold {
            true
        } else if self.children.len() == 4 {
            ||| self.children[0].accepts(item)
            ||| self.children[1].accepts(item)
            ||| self.children[2].accepts(item)
            ||| self.children[3].accepts(item)
        } else {
            ||| self.region.quadrant(0).contains_spec(item)
            ||| self.region.quadrant(1).contains_spec(item)
            ||| self.region.quadrant(2).contains_spec(item)
            ||| self.region.quadrant(3).contains_spec(item)
        }
    }

    /// The tree after `item` was offered to it.
    ///
    /// A node whose region does not contain the item's representative point
    /// stays as it is.  A node with room appends the item to its own list.
    /// A full node splits if it has not, and offers the item to its
    /// quadrants in their order until one takes it; a quadrant that was
    /// asked and refused may have split on the way.
    pub open spec fn inserted(self, item: &'a T) -> Self
        decreases self,
    {
        if !self.region.contains_spec(item) {
            self
        } else if self.items.len() < self.threshold {
            Node { items: self.items.push(item), ..self }
        } else if self.children.len() == 4 {
            let c = self.children;
            let a0 = c[0].accepts(item);
            let a1 = a0 || c[1].accepts(item);
            let a2 = a1 || c[2].accepts(item);
            Node {
                children: seq![
                    c[0].inserted(item),
                    if a0 { c[1] } else { c[1].inserted(item) },
                    if a1 { c[2] } else { c[2].inserted(item) },
                    if a2 { c[3] } else { c[3].inserted(item) },
                ],
                ..self
            }
        } else {
            let c = self.split().children;
            let a0 = c[0].region.contains_spec(item);
            let a1 = a0 || c[1].region.contains_spec(item);
            let a2 = a1 || c[2].region.contains_spec(item);
            Node {
                children: seq![
                    c[0].placed(item),
                    if a0 { c[1] } else { c[1].placed(item) },
                    if a1 { c[2] } else { c[2].placed(item) },
                    if a2 { c[3] } else { c[3].placed(item) },
                ],
                ..self
            }
        }
    }

    /// The number of full nodes in the tree: a bound on how deep an
    /// insertion descends.
    pub open spec fn full_nodes(self) -> nat
        decreases self,
    {
        if self.items.len() < self.threshold {
            0
        } else if self.children.len() == 4 {
            1 + self.children[0].full_nodes() + self.children[1].full_nodes()
                + self.children[2].full_nodes() + self.children[3].full_nodes()
        } else {
            1
        }
    }

    /// All items of the tree: those of the node itself, then those of each
    /// quadrant in turn.
    pub open spec fn all_items(self) -> Seq<&'a T>
        decreases self,
    {
        if self.children.len() == 4 {
            self.items + self.children[0].all_items() + self.children[1].all_items()
                + self.children[2].all_items() + self.children[3].all_items()
        } else {
            self.items
        }
    }

    /// The items of the node itself and of its first `k` quadrants.
    pub open spec fn gathered(self, k: int) -> Seq<&'a T>
        decreases k,
    {
        if k <= 0 {
            self.items
        } else {
            self.gathered(k - 1) + self.children[k - 1].all_items()
        }
    }

    /// The test that a search over `sb` applies to each item.
    pub open spec fn within(sb: BoundingBox) -> spec_fn(&'a T) -> bool {
        |it: &'a T| sb.contains_spec(it)
    }

    /// What a search over `sb` yields: the items of the tree whose
    /// representative point `sb` contains, in the order of `all_items`.
    pub open spec fn found(self, sb: BoundingBox) -> Seq<&'a T> {
        self.all_items().filter(Self::within(sb))
    }

    /// The number of nodes below this one.
    pub open spec fn descendants(self) -> nat
        decreases self,
    {
        if self.children.len() == 4 {
            4 + self.children[0].descendants() + self.children[1].descendants()
                + self.children[2].descendants() + self.children[3].descendants()
        } else {
            0
        }
    }

    /// The quadrants of the node and the nodes below its first `k`
    /// quadrants, counted.
    pub open spec fn counted(self, k: int) -> nat
        decreases k,
    {
        if k <= 0 {
            self.children.len()
        } else {
            self.counted(k - 1) + self.children[k - 1].descendants()
        }
    }

    /// The shape that every tree keeps: a positive threshold, a well-formed
    /// region that contains each item of the node, no more items than the
    /// threshold, and either no quadrants or four, which then quarter the
    /// region, share the threshold, are of this shape themselves and exist
    /// only beside a full list of items.
    pub open spec fn wf(self) -> bool
        decreases self,
    {
        &&& self.threshold >= 1
        &&& self.region.wf()
        &&& self.items.len() <= self.threshold
        &&& forall|i: int|
            0 <= i < self.items.len() ==> self.region.contains_spec(#[trigger] self.items[i])
        &&& (self.children.len() == 0 || self.children.len() == 4)
        &&& self.children.len() == 4 ==> {
            &&& self.items.len() == self.threshold
            &&& forall|k: int|
                0 <= k < 4 ==> {
                    &&& (#[trigger] self.children[k]).region == self.region.quadrant(k)
                    &&& self.children[k].threshold == self.threshold
                    &&& self.children[k].wf()
                }
        }
    }
}

impl<'a, T: Spacial> Node<&'a T> {
    /// With four quadrants, gathering over all of them gives all items,
    /// and counting over all of them gives the number of descendants.
    pub proof fn lemma_gathered_all(self)
        requires
            self.children.len() == 4,
        ensures
            self.gathered(4) == self.all_items(),
            self.counted(4) == self.descendants(),
            forall|k: int| 0 <= k <= 4 ==> #[trigger] self.counted(k) <= self.descendants(),
    {
        reveal_with_fuel(Node::gathered, 5);
        reveal_with_fuel(Node::counted, 5);
        assert(self.counted(0) <= self.counted(1) <= self.counted(2) <= self.counted(3)
            <= self.counted(4));
    }

    /// Every item of a well-formed tree has its representative point in
    /// the tree's region.
    pub proof fn lemma_items_in_region(self)
        requires
            self.wf(),
        ensures
            forall|i: int|
                0 <= i < self.all_items().len() ==> self.region.contains_spec(
                    #[trigger] self.all_items()[i],
                ),
        decreases self,
    {
        if self.children.len() == 4 {
            let c = self.children;
            assert(c[0].wf() && c[1].wf() && c[2].wf() && c[3].wf());
            c[0].lemma_items_in_region();
            c[1].lemma_items_in_region();
            c[2].lemma_items_in_region();
            c[3].lemma_items_in_region();
            self.region.lemma_quadrant_inside(0);
            self.region.lemma_quadrant_inside(1);
            self.region.lemma_quadrant_inside(2);
            self.region.lemma_quadrant_inside(3);
            let n0 = self.items.len();
            let n1 = n0 + c[0].all_items().len();
            let n2 = n1 + c[1].all_items().len();
            let n3 = n2 + c[2].all_items().len();
            assert forall|i: int| 0 <= i < self.all_items().len() implies self.region.contains_spec(
                #[trigger] self.all_items()[i],
            ) by {
                let it = self.all_items()[i];
                if i < n0 {
                    assert(it == self.items[i]);
                } else if i < n1 {
                    assert(it == c[0].all_items()[i - n0]);
                    assert(c[0].region.contains_spec(it));
                } else if i < n2 {
                    assert(it == c[1].all_items()[i - n1]);
                    assert(c[1].region.contains_spec(it));
                } else if i < n3 {
                    assert(it == c[2].all_items()[i - n2]);
                    assert(c[2].region.contains_spec(it));
                } else {
                    assert(it == c[3].all_items()[i - n3]);
                    assert(c[3].region.contains_spec(it));
                }
            }
        }
    }

    /// A search region that does not meet the region of a well-formed tree
    /// finds nothing in it.
    pub proof fn lemma_disjoint_finds_nothing(self, sb: BoundingBox)
        requires
            self.wf(),
            !self.region.intersects_spec(&sb),
        ensures
            self.found(sb) == Seq::<&'a T>::empty(),
    {
        let pred = Self::within(sb);
        let all = self.all_items();
        let hits = all.filter(pred);
        self.lemma_items_in_region();
        if hits.len() > 0 {
            let it = hits[0];
            all.lemma_filter_pred(pred, 0);
            assert(hits.contains(it));
            all.lemma_filter_contains_rev(pred, it);
            let i = choose|i: int| 0 <= i < all.len() && all[i] == it;
            assert(self.region.contains_spec(all[i]));
            assert(sb.contains_spec(it));
        }
        assert(hits =~= Seq::<&'a T>::empty());
    }

    /// A well-formed node that holds no item itself has none below it
    /// either: a search may pass it by.
    pub proof fn lemma_empty_node_empty_tree(self, sb: BoundingBox)
        requires
            self.wf(),
            self.items.len() == 0,
        ensures
            self.children.len() == 0,
            self.all_items() == Seq::<&'a T>::empty(),
            self.found(sb) == Seq::<&'a T>::empty(),
    {
        assert(self.all_items() =~= Seq::<&'a T>::empty());
        reveal(Seq::filter);
        assert(self.found(sb) =~= Seq::<&'a T>::empty());
    }
}

impl<'a, T: Spacial> Node<&'a T> {
    /// The state of a full node `self` while `item` is offered to its
    /// quadrants: `now` is the node after the first `i` quadrants were
    /// asked.  Each of them is as an insertion leaves it, the others are
    /// as the split left them, and every quadrant is in shape.
    pub open spec fn offering(self, now: Self, item: &'a T, i: int) -> bool {
        let s = self.split();
        &&& self.wf()
        &&& self.items.len() == self.threshold
        &&& self.region.contains_spec(item)
        &&& now.threshold == self.threshold
        &&& now.region == self.region
        &&& now.items == self.items
        &&& now.children.len() == 4
        &&& s.children.len() == 4
        &&& forall|k: int|
            0 <= k < 4 ==> {
                &&& (#[trigger] now.children[k]).wf()
                &&& now.children[k].region == self.region.quadrant(k)
                &&& now.children[k].threshold == self.threshold
            }
        &&& forall|k: int|
            0 <= k < i ==> #[trigger] now.children[k] == s.children[k].inserted(item)
        &&& forall|k: int| i <= k < 4 ==> #[trigger] now.children[k] == s.children[k]
    }

    /// None of the first `i` quadrants of the full node takes `item`.
    pub open spec fn refused(self, item: &'a T, i: int) -> bool {
        forall|k: int| 0 <= k < i ==> !(#[trigger] self.split().children[k]).accepts(item)
    }

    /// A full node in shape is, after its split, a node that starts to
    /// offer an item which its region contains; each quadrant holds fewer
    /// full nodes than the node did.
    pub proof fn lemma_split_quadrants(self, item: &'a T)
        requires
            self.wf(),
            self.items.len() == self.threshold,
            self.region.contains_spec(item),
        ensures
            self.split().children.len() == 4,
            forall|k: int|
                0 <= k < 4 ==> (#[trigger] self.split().children[k]).full_nodes()
                    < self.full_nodes(),
            self.offering(self.split(), item, 0),
            self.refused(item, 0),
    {
        let s = self.split();
        self.region.lemma_quadrant_inside(0);
        self.region.lemma_quadrant_inside(1);
        self.region.lemma_quadrant_inside(2);
        self.region.lemma_quadrant_inside(3);
        assert forall|k: int| 0 <= k < 4 implies (#[trigger] s.children[k]).wf()
            && s.children[k].region == self.region.quadrant(k) && s.children[k].threshold
            == self.threshold && s.children[k].full_nodes() < self.full_nodes() by {
            if self.children.len() == 0 {
                assert(s.children[k].items.len() == 0);
                assert(s.children[k].children.len() == 0);
            }
        }
    }

    /// An insertion keeps region and threshold of a node.
    pub proof fn lemma_inserted_head(self, item: &'a T)
        ensures
            self.inserted(item).region == self.region,
            self.inserted(item).threshold == self.threshold,
    {
    }

    /// What an insertion into a fresh leaf comes to.
    pub proof fn lemma_leaf_inserted(region: BoundingBox, threshold: nat, item: &'a T)
        requires
            threshold >= 1,
        ensures
            Self::leaf(region, threshold).inserted(item) == Self::leaf(region, threshold).placed(
                item,
            ),
            Self::leaf(region, threshold).accepts(item) == region.contains_spec(item),
    {
    }

    /// One more quadrant was asked: `before` is the node before, `now` the
    /// node after quadrant `i` was offered the item.
    pub proof fn lemma_offer_next(self, before: Self, now: Self, item: &'a T, i: int)
        requires
            0 <= i < 4,
            self.offering(before, item, i),
            now.threshold == before.threshold,
            now.region == before.region,
            now.items == before.items,
            now.children.len() == 4,
            forall|k: int| 0 <= k < 4 && k != i ==> #[trigger] now.children[k] == before.children[k],
            now.children[i] == before.children[i].inserted(item),
            now.children[i].wf(),
        ensures
            self.offering(now, item, i + 1),
    {
        let s = self.split();
        before.children[i].lemma_inserted_head(item);
        assert forall|k: int| 0 <= k < 4 implies (#[trigger] now.children[k]).wf()
            && now.children[k].region == self.region.quadrant(k) && now.children[k].threshold
            == self.threshold by {
            if k != i {
                assert(now.children[k] == before.children[k]);
            }
        }
        assert forall|k: int| 0 <= k < i + 1 implies #[trigger] now.children[k]
            == s.children[k].inserted(item) by {
            if k != i {
                assert(now.children[k] == before.children[k]);
            }
        }
        assert forall|k: int| i + 1 <= k < 4 implies #[trigger] now.children[k]
            == s.children[k] by {
            assert(now.children[k] == before.children[k]);
        }
    }

    /// The quadrants of a full node after `item` was offered to them: each
    /// is as an insertion leaves it, unless one before it took the item.
    pub proof fn lemma_inserted_children(self, item: &'a T)
        requires
            self.wf(),
            self.items.len() == self.threshold,
            self.region.contains_spec(item),
        ensures
            self.inserted(item).threshold == self.threshold,
            self.inserted(item).region == self.region,
            self.inserted(item).items == self.items,
            self.inserted(item).children.len() == 4,
            self.split().children.len() == 4,
            forall|k: int|
                0 <= k < 4 ==> #[trigger] self.inserted(item).children[k] == (if self.refused(
                    item,
                    k,
                ) {
                    self.split().children[k].inserted(item)
                } else {
                    self.split().children[k]
                }),
            self.accepts(item) == !self.refused(item, 4),
    {
        let s = self.split();
        let c = s.children;
        if self.children.len() == 0 {
            Self::lemma_leaf_inserted(self.region.quadrant(0), self.threshold, item);
            Self::lemma_leaf_inserted(self.region.quadrant(1), self.threshold, item);
            Self::lemma_leaf_inserted(self.region.quadrant(2), self.threshold, item);
            Self::lemma_leaf_inserted(self.region.quadrant(3), self.threshold, item);
        }
        let a0 = c[0].accepts(item);
        let a1 = a0 || c[1].accepts(item);
        let a2 = a1 || c[2].accepts(item);
        let a3 = a2 || c[3].accepts(item);
        assert(self.accepts(item) == a3);
        assert(self.refused(item, 0));
        assert(self.refused(item, 1) == !a0);
        assert(self.refused(item, 2) == !a1);
        assert(self.refused(item, 3) == !a2);
        assert(self.refused(item, 4) == !a3);
        let r = self.inserted(item);
        assert(r.children[0] == c[0].inserted(item));
        assert(r.children[1] == if a0 { c[1] } else { c[1].inserted(item) });
        assert(r.children[2] == if a1 { c[2] } else { c[2].inserted(item) });
        assert(r.children[3] == if a2 { c[3] } else { c[3].inserted(item) });
    }

    /// Quadrant `i` took the item after those before it had refused: `now`
    /// is the node that the insertion yields, and it is in shape.
    pub proof fn lemma_offer_taken(self, now: Self, item: &'a T, i: int)
        requires
            0 <= i < 4,
            self.offering(now, item, i + 1),
            self.refused(item, i),
            self.split().children[i].accepts(item),
        ensures
            self.accepts(item),
            now == self.inserted(item),
            now.wf(),
    {
        self.lemma_inserted_children(item);
        let r = self.inserted(item);
        assert(!self.refused(item, 4));
        assert forall|k: int| 0 <= k < 4 implies now.children[k] == r.children[k] by {
            if k <= i {
                assert(self.refused(item, k));
            } else {
                assert(!self.refused(item, k));
            }
        }
        assert(now.children =~= r.children);
    }

    /// All four quadrants refused the item: `now` is the node that the
    /// insertion yields, and it is in shape.
    pub proof fn lemma_offer_refused(self, now: Self, item: &'a T)
        requires
            self.offering(now, item, 4),
            self.refused(item, 4),
        ensures
            !self.accepts(item),
            now == self.inserted(item),
            now.wf(),
    {
        self.lemma_inserted_children(item);
        let r = self.inserted(item);
        assert forall|k: int| 0 <= k < 4 implies now.children[k] == r.children[k] by {
            assert(self.refused(item, k));
        }
        assert(now.children =~= r.children);
    }
}

} // verus!
