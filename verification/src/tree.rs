//! The quadtree: nodes that hold up to a threshold of items and split into
//! four quadrants on their first overflow.
//!
//! A representative point on the line between quadrants belongs to each of
//! them.  An item is offered to the quadrants in the order top-left,
//! top-right, bottom-left, bottom-right, and the first that takes it keeps
//! it.

use vstd::prelude::*;
use crate::geometry::{BoundingBox, Spacial};
use crate::node::Node;

verus! {

/// A quadtree over items that the caller owns.
#[derive(Debug)]
pub struct Quadtree<'a, T: 'a> {
    split_threshold: usize,
    bb: BoundingBox,
    data: Vec<&'a T>,
    st: Vec<Quadtree<'a, T>>,
}

impl<'a, T> Quadtree<'a, T> {
    /// The value of the tree, built from the values of its quadrants.
    closed spec fn model(&self) -> Node<&'a T>
        decreases self,
    {
        Node {
            threshold: self.split_threshold as nat,
            region: self.bb,
            items: self.data@,
            children: Seq::new(
                self.st.len() as nat,
                |k: int|
                    if 0 <= k < self.st.len() {
                        self.st[k].model()
                    } else {
                        arbitrary()
                    },
            ),
        }
    }
}

impl<'a, T> View for Quadtree<'a, T> {
    type V = Node<&'a T>;

    closed spec fn view(&self) -> Node<&'a T> {
        self.model()
    }
}

impl<'a, T: Spacial> Quadtree<'a, T> {
    /// How the value of a tree is made of its parts.
    proof fn lemma_view(&self)
        ensures
            self@.threshold == self.split_threshold,
            self@.region == self.bb,
            self@.items == self.data@,
            self@.children.len() == self.st.len(),
            forall|k: int| 0 <= k < self.st.len() ==> #[trigger] self@.children[k] == self.st[k]@,
    {
    }

    /// An empty tree over `bb` whose nodes keep up to `threshold` items.
    pub fn new(bb: BoundingBox, threshold: usize) -> (tree: Self)
        requires
            bb.wf(),
            threshold >= 1,
        ensures
            tree@ == Node::<&'a T>::leaf(bb, threshold as nat),
            tree@.wf(),
            tree@.descendants() == 0,
            tree@.all_items() == Seq::<&'a T>::empty(),
    {
        let tree = Quadtree { split_threshold: threshold, st: Vec::new(), bb, data: Vec::new() };
        assert(tree@.children =~= Seq::empty());
        assert(tree@.all_items() =~= Seq::<&'a T>::empty());
        tree
    }

    /// Whether the tree's region contains the representative point of
    /// `item`.
    pub fn contains(&self, item: &T) -> (r: bool)
        ensures
            r == self@.region.contains_spec(item),
    {
        self.bb.contains(item)
    }

    /// Gives the node its four quadrants unless it has them already.
    fn split(&mut self)
        requires
            old(self)@.wf(),
            old(self)@.items.len() == old(self)@.threshold,
        ensures
            final(self)@ == old(self)@.split(),
            final(self)@.wf(),
            final(self)@.children.len() == 4,
    {
        if self.st.len() == 0 {
            let mut st: Vec<Quadtree<'a, T>> = Vec::new();
            st.push(Quadtree::new(self.bb.tl(), self.split_threshold));
            st.push(Quadtree::new(self.bb.tr(), self.split_threshold));
            st.push(Quadtree::new(self.bb.bl(), self.split_threshold));
            st.push(Quadtree::new(self.bb.br(), self.split_threshold));
            self.st = st;
            assert(self@.children =~= old(self)@.split().children);
        } else {
            proof {
                self.lemma_view();
            }
        }
    }

    /// Offers `item` to the tree and says whether it was taken.
    ///
    /// An item whose representative point lies outside the tree's region is
    /// refused and nothing changes.  An item that a full node's region
    /// contains but none of its quadrants takes is refused as well; the
    /// nodes on its way may have split.
    pub fn insert(&mut self, item: &'a T) -> (accepted: bool)
        requires
            old(self)@.wf(),
        ensures
            accepted == old(self)@.accepts(item),
            final(self)@ == old(self)@.inserted(item),
            final(self)@.wf(),
            !old(self)@.region.contains_spec(item) ==> !accepted && *final(self) == *old(self),
            accepted ==> final(self)@.all_items().to_multiset() == old(
                self,
            )@.all_items().to_multiset().insert(item),
            !accepted ==> final(self)@.all_items() == old(self)@.all_items(),
        decreases old(self)@.full_nodes(),
    {
        proof {
            self.lemma_view();
            old(self)@.lemma_inserted_items(item);
        }
        let ghost goal = old(self)@.inserted(item);
        if !self.contains(item) {
            return false;
        }
        if self.data.len() < self.split_threshold {
            self.data.push(item);
            proof {
                self.lemma_view();
                assert(self@.children =~= old(self)@.children);
            }
            return true;
        }
        self.split();
        let ghost s = self@;
        proof {
            self.lemma_view();
            old(self)@.lemma_split_quadrants(item);
        }
        let mut i: usize = 0;
        while i < 4
            invariant
                i <= 4,
                self.st.len() == 4,
                s == old(self)@.split(),
                goal == old(self)@.inserted(item),
                old(self)@.accepts(item) ==> goal.all_items().to_multiset() == old(
                    self,
                )@.all_items().to_multiset().insert(item),
                !old(self)@.accepts(item) ==> goal.all_items() == old(self)@.all_items(),
                old(self)@.offering(self@, item, i as int),
                old(self)@.refused(item, i as int),
                forall|k: int|
                    0 <= k < 4 ==> (#[trigger] s.children[k]).full_nodes() < old(
                        self,
                    )@.full_nodes(),
            decreases 4 - i,
        {
            let ghost before = self@;
            let ghost kids = self.st@;
            proof {
                self.lemma_view();
                assert(self.st[i as int]@ == before.children[i as int]);
                assert(before.children[i as int] == s.children[i as int]);
                assert(before.children[i as int].wf());
            }
            let took = self.st[i].insert(item);
            proof {
                self.lemma_view();
                assert(self@.children.len() == 4);
                assert forall|k: int| 0 <= k < 4 && k != i implies #[trigger] self@.children[k]
                    == before.children[k] by {
                    assert(self.st@[k] == kids[k]);
                    assert(self@.children[k] == self.st@[k]@);
                    assert(before.children[k] == kids[k]@);
                }
                assert(self@.children[i as int] == self.st@[i as int]@);
                old(self)@.lemma_offer_next(before, self@, item, i as int);
            }
            if took {
                proof {
                    old(self)@.lemma_offer_taken(self@, item, i as int);
                }
                return true;
            }
            i += 1;
        }
        proof {
            old(self)@.lemma_offer_refused(self@, item);
        }
        false
    }

    /// The items of the tree whose representative point `sb` contains.
    ///
    /// Nodes whose region does not meet `sb` are passed by, and so are
    /// quadrants that hold no item themselves.
    pub fn find(&self, sb: &BoundingBox) -> (result: Vec<&'a T>)
        requires
            self@.wf(),
        ensures
            result@ == self@.found(*sb),
            forall|i: int| 0 <= i < result@.len() ==> sb.contains_spec(#[trigger] result@[i]),
            forall|i: int| 0 <= i < result@.len() ==> self@.all_items().contains(#[trigger] result@[i]),
        decreases self@,
    {
        let ghost pred = Node::<&'a T>::within(*sb);
        let mut result: Vec<&'a T> = Vec::new();
        proof {
            self.lemma_view();
        }
        if self.bb.intersects(sb) {
            let mut i: usize = 0;
            proof {
                reveal(Seq::filter);
                assert(self.data@.take(0) =~= Seq::<&'a T>::empty());
            }
            while i < self.data.len()
                invariant
                    i <= self.data.len(),
                    pred == Node::<&'a T>::within(*sb),
                    result@ == self.data@.take(i as int).filter(pred),
                decreases self.data.len() - i,
            {
                let d = self.data[i];
                proof {
                    self.data@.take(i as int).lemma_filter_push(d, pred);
                    assert(self.data@.take(i as int).push(d) =~= self.data@.take(i + 1));
                }
                if sb.contains(d) {
                    result.push(d);
                }
                i += 1;
            }
            proof {
                assert(self.data@.take(i as int) =~= self.data@);
            }
            let mut k: usize = 0;
            while k < self.st.len()
                invariant
                    k <= self.st.len(),
                    self@.wf(),
                    pred == Node::<&'a T>::within(*sb),
                    self@.children.len() == self.st.len(),
                    forall|j: int| 0 <= j < self.st.len() ==> #[trigger] self@.children[j] == self.st[j]@,
                    result@ == self@.gathered(k as int).filter(pred),
                decreases self.st.len() - k,
            {
                let child = &self.st[k];
                proof {
                    child.lemma_view();
                    assert(child@ == self@.children[k as int]);
                    assert(child@.wf());
                    Seq::filter_distributes_over_add(
                        self@.gathered(k as int),
                        child@.all_items(),
                        pred,
                    );
                }
                if child.data.len() > 0 {
                    let mut sub = child.find(sb);
                    result.append(&mut sub);
                } else {
                    proof {
                        child@.lemma_empty_node_empty_tree(*sb);
                        assert(result@ + Seq::<&'a T>::empty() =~= result@);
                    }
                }
                k += 1;
            }
            proof {
                if self.st.len() == 4 {
                    self@.lemma_gathered_all();
                }
            }
        } else {
            proof {
                self@.lemma_disjoint_finds_nothing(*sb);
            }
        }
        proof {
            assert forall|i: int| 0 <= i < result@.len() implies sb.contains_spec(
                #[trigger] result@[i],
            ) && self@.all_items().contains(result@[i]) by {
                self@.all_items().lemma_filter_pred(pred, i);
                assert(result@.contains(result@[i]));
                self@.all_items().lemma_filter_contains_rev(pred, result@[i]);
            }
        }
        result
    }

    /// The number of nodes below the root: quadrants, their quadrants, and
    /// so on.
    pub fn tot_trees(&self) -> (total: usize)
        requires
            self@.wf(),
            self@.descendants() <= usize::MAX,
        ensures
            total == self@.descendants(),
        decreases self@,
    {
        proof {
            self.lemma_view();
            if self.st.len() == 4 {
                self@.lemma_gathered_all();
            }
        }
        let mut total: usize = self.st.len();
        let mut k: usize = 0;
        while k < self.st.len()
            invariant
                k <= self.st.len(),
                self@.wf(),
                self@.descendants() <= usize::MAX,
                self@.children.len() == self.st.len(),
                forall|j: int| 0 <= j < self.st.len() ==> #[trigger] self@.children[j] == self.st[j]@,
                forall|j: int|
                    0 <= j <= self.st.len() ==> #[trigger] self@.counted(j) <= self@.descendants(),
                total == self@.counted(k as int),
            decreases self.st.len() - k,
        {
            let child = &self.st[k];
            proof {
                assert(child@ == self@.children[k as int]);
                assert(child@.wf());
                assert(self@.counted(k + 1) == self@.counted(k as int) + child@.descendants());
            }
            total += child.tot_trees();
            k += 1;
        }
        total
    }

    /// Empties the tree: afterwards it is the leaf that `new` gives for the
    /// same region and threshold.
    pub fn clear(&mut self)
        requires
            old(self)@.wf(),
        ensures
            final(self)@ == Node::<&'a T>::leaf(old(self)@.region, old(self)@.threshold),
            final(self)@.wf(),
            final(self)@.descendants() == 0,
            final(self)@.all_items() == Seq::<&'a T>::empty(),
            forall|sb: BoundingBox| #[trigger] final(self)@.found(sb) == Seq::<&'a T>::empty(),
    {
        self.data.clear();
        self.st.clear();
        assert(self@.children =~= Seq::empty());
        assert(self@.items =~= Seq::empty());
        assert forall|sb: BoundingBox| #[trigger] self@.found(sb) == Seq::<&'a T>::empty() by {
            self@.lemma_empty_node_empty_tree(sb);
        }
    }
}

} // verus!
