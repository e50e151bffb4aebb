//! The live tree, its pre-order, and what the pre-order determines.
use vstd::prelude::*;

verus! {

/// A node of a live tree: its data and its children, in their order.
pub struct Node<D> {
    pub data: D,
    pub children: Vec<Node<D>>,
}

/// What the pre-order keeps of one node: how many nodes lie below it, and its
/// data.
pub struct Slot<D> {
    pub descendants: nat,
    pub data: D,
}

/// How many nodes the trees of a forest have, all together.
pub open spec fn count<D>(forest: Seq<Node<D>>) -> nat
    decreases forest,
{
    if forest.len() == 0 {
        0
    } else {
        1 + count(forest[0].children@) + count(forest.drop_first())
    }
}

/// The slot of one node.
pub open spec fn slot_of<D>(node: Node<D>) -> Slot<D> {
    Slot { descendants: count(node.children@), data: node.data }
}

/// The nodes of a forest in pre-order: each node before its children, the
/// children in their order, a tree before the trees after it.
pub open spec fn preorder<D>(forest: Seq<Node<D>>) -> Seq<Slot<D>>
    decreases forest,
{
    if forest.len() == 0 {
        Seq::empty()
    } else {
        seq![slot_of(forest[0])] + preorder(forest[0].children@) + preorder(forest.drop_first())
    }
}

/// The node at position `p` of the pre-order of a forest.
pub open spec fn node_at<D>(forest: Seq<Node<D>>, p: nat) -> Node<D>
    recommends
        p < count(forest),
    decreases forest,
{
    if forest.len() == 0 {
        arbitrary()
    } else if p == 0 {
        forest[0]
    } else if p <= count(forest[0].children@) {
        node_at(forest[0].children@, (p - 1) as nat)
    } else {
        node_at(forest.drop_first(), (p - 1 - count(forest[0].children@)) as nat)
    }
}

/// Whether two forests have the same shape, with data that `same` relates node
/// by node.
pub open spec fn mirrors<A, B>(
    left: Seq<Node<A>>,
    right: Seq<Node<B>>,
    same: spec_fn(A, B) -> bool,
) -> bool
    decreases left,
{
    &&& left.len() == right.len()
    &&& forall|i: int|
        #![trigger left[i]]
        #![trigger right[i]]
        0 <= i < left.len() ==> {
            &&& same(left[i].data, right[i].data)
            &&& mirrors(left[i].children@, right[i].children@, same)
        }
}

/// The pre-order has one slot per node.
pub proof fn lemma_preorder_len<D>(forest: Seq<Node<D>>)
    ensures
        preorder(forest).len() == count(forest),
    decreases forest,
{
    if forest.len() > 0 {
        lemma_preorder_len(forest[0].children@);
        lemma_preorder_len(forest.drop_first());
    }
}

/// A tree added behind a forest comes last in the pre-order, after all that was
/// there.
pub proof fn lemma_preorder_push<D>(forest: Seq<Node<D>>, tree: Node<D>)
    ensures
        count(forest.push(tree)) == count(forest) + 1 + count(tree.children@),
        preorder(forest.push(tree)) == preorder(forest) + seq![slot_of(tree)] + preorder(
            tree.children@,
        ),
    decreases forest.len(),
{
    let grown = forest.push(tree);
    if forest.len() == 0 {
        assert(grown.drop_first() =~= Seq::<Node<D>>::empty());
        assert(grown[0] == tree);
        assert(count(grown.drop_first()) == 0);
        assert(preorder(grown.drop_first()) =~= Seq::<Slot<D>>::empty());
        assert(preorder(forest) =~= Seq::<Slot<D>>::empty());
        assert(preorder(grown) =~= preorder(forest) + seq![slot_of(tree)] + preorder(
            tree.children@,
        ));
    } else {
        assert(grown.drop_first() =~= forest.drop_first().push(tree));
        assert(grown[0] == forest[0]);
        lemma_preorder_push(forest.drop_first(), tree);
        assert(preorder(grown) =~= preorder(forest) + seq![slot_of(tree)] + preorder(
            tree.children@,
        ));
    }
}

/// A forest put behind another comes after it in the pre-order.
pub proof fn lemma_preorder_concat<D>(first: Seq<Node<D>>, second: Seq<Node<D>>)
    ensures
        count(first + second) == count(first) + count(second),
        preorder(first + second) == preorder(first) + preorder(second),
    decreases first.len(),
{
    if first.len() == 0 {
        assert(first + second =~= second);
        assert(preorder(first) =~= Seq::<Slot<D>>::empty());
        assert(preorder(first + second) =~= preorder(first) + preorder(second));
    } else {
        assert((first + second).drop_first() =~= first.drop_first() + second);
        assert((first + second)[0] == first[0]);
        lemma_preorder_concat(first.drop_first(), second);
        assert(preorder(first + second) =~= preorder(first) + preorder(second));
    }
}

/// The trees of `v` in the opposite order, so that `pop` hands them out first to
/// last.
pub fn reversed<T>(v: Vec<T>) -> (r: Vec<T>)
    ensures
        r@ == v@.reverse(),
{
    let ghost orig = v@;
    let mut v = v;
    let mut r: Vec<T> = Vec::new();
    while v.len() > 0
        invariant
            r@.len() + v@.len() == orig.len(),
            forall|i: int| 0 <= i < v@.len() ==> v@[i] == orig[i],
            forall|i: int| 0 <= i < r@.len() ==> r@[i] == orig[orig.len() - 1 - i],
        decreases v@.len(),
    {
        r.push(v.pop().unwrap());
    }
    assert(r@ =~= orig.reverse());
    r
}

/// In the pre-order of a forest, the slots that follow a node, as many as the
/// node has descendants, are the pre-order of its children: its whole subtree and
/// nothing else.
pub proof fn lemma_subtree_is_contiguous<D>(forest: Seq<Node<D>>, p: nat)
    requires
        p < count(forest),
    ensures
        preorder(forest).len() == count(forest),
        preorder(forest)[p as int] == slot_of(node_at(forest, p)),
        p + 1 + count(node_at(forest, p).children@) <= count(forest),
        preorder(forest).subrange(
            p as int + 1,
            p as int + 1 + count(node_at(forest, p).children@) as int,
        ) == preorder(node_at(forest, p).children@),
    decreases forest,
{
    lemma_preorder_len(forest);
    let below = forest[0].children@;
    let rest = forest.drop_first();
    let c = count(below) as int;
    lemma_preorder_len(below);
    lemma_preorder_len(rest);
    let pre = preorder(forest);
    let at = p as int;
    if p == 0 {
        assert(pre.subrange(1, 1 + c) =~= preorder(below));
    } else if p <= c {
        let q = (p - 1) as nat;
        lemma_subtree_is_contiguous(below, q);
        let d = count(node_at(below, q).children@) as int;
        assert(pre.subrange(at + 1, at + 1 + d) =~= preorder(below).subrange(at, at + d));
    } else {
        let q = (p - 1 - c) as nat;
        lemma_subtree_is_contiguous(rest, q);
        let d = count(node_at(rest, q).children@) as int;
        assert(pre.subrange(at + 1, at + 1 + d) =~= preorder(rest).subrange(at - c, at - c + d));
    }
}

/// The pre-order determines the forest: two forests whose pre-orders agree in
/// every descendant count, and in data as far as `same` tells, have the same
/// shape and related data.
pub proof fn lemma_preorder_determines<A, B>(
    left: Seq<Node<A>>,
    right: Seq<Node<B>>,
    same: spec_fn(A, B) -> bool,
)
    requires
        preorder(left).len() == preorder(right).len(),
        forall|p: int|
            0 <= p < preorder(left).len() ==> {
                &&& preorder(left)[p].descendants == preorder(right)[p].descendants
                &&& same(preorder(left)[p].data, preorder(right)[p].data)
            },
    ensures
        mirrors(left, right, same),
    decreases left,
{
    lemma_preorder_len(left);
    lemma_preorder_len(right);
    if left.len() == 0 {
        if right.len() > 0 {
            assert(count(right) >= 1);
        }
    } else {
        assert(count(left) >= 1);
        assert(right.len() > 0);
        let lb = left[0].children@;
        let rb = right[0].children@;
        let lr = left.drop_first();
        let rr = right.drop_first();
        lemma_preorder_len(lb);
        lemma_preorder_len(rb);
        lemma_preorder_len(lr);
        lemma_preorder_len(rr);
        let pl = preorder(left);
        let pr = preorder(right);
        assert(pl[0] == slot_of(left[0]));
        assert(pr[0] == slot_of(right[0]));
        let c = count(lb);
        assert(count(rb) == c);
        assert forall|p: int| 0 <= p < preorder(lb).len() implies {
            &&& preorder(lb)[p].descendants == preorder(rb)[p].descendants
            &&& same(preorder(lb)[p].data, preorder(rb)[p].data)
        } by {
            assert(pl[p + 1] == preorder(lb)[p]);
            assert(pr[p + 1] == preorder(rb)[p]);
        }
        lemma_preorder_determines(lb, rb, same);
        assert forall|p: int| 0 <= p < preorder(lr).len() implies {
            &&& preorder(lr)[p].descendants == preorder(rr)[p].descendants
            &&& same(preorder(lr)[p].data, preorder(rr)[p].data)
        } by {
            assert(pl[p + 1 + c] == preorder(lr)[p]);
            assert(pr[p + 1 + c] == preorder(rr)[p]);
        }
        lemma_preorder_determines(lr, rr, same);
        assert(same(pl[0].data, pr[0].data));
        assert(left.len() == right.len()) by {
            assert(lr.len() == rr.len());
        }
        assert forall|i: int|
            #![trigger left[i]]
            #![trigger right[i]]
            0 <= i < left.len() implies {
            &&& same(left[i].data, right[i].data)
            &&& mirrors(left[i].children@, right[i].children@, same)
        } by {
            if i > 0 {
                assert(left[i] == lr[i - 1]);
                assert(right[i] == rr[i - 1]);
                assert(same(lr[i - 1].data, rr[i - 1].data));
            }
        }
        assert(mirrors(left, right, same));
    }
}

} // verus!
