use vstd::prelude::*;
use vstd::multiset::{lemma_multiset_empty_len, Multiset};
use vstd::pervasive::strictly_cloned;
use vstd::seq_lib::{lemma_multiset_commutative, to_multiset_build};

verus! {

/// How a plane classifies another value against itself.
pub enum PlaneCut<T> {
    /// The value shares the reference plane's partition.
    Sibling(T),
    /// The value resolved into pieces in front of and behind the reference plane.
    Cut { front: Vec<T>, back: Vec<T> },
}

/// What a classification amounts to: the value as a sibling, or the
/// sequences of pieces in front of and behind the reference plane.
pub enum CutView<T> {
    Sibling(T),
    Cut { front: Seq<T>, back: Seq<T> },
}

impl<T> View for PlaneCut<T> {
    type V = CutView<T>;

    open spec fn view(&self) -> CutView<T> {
        match self {
            PlaneCut::Sibling(v) => CutView::Sibling(*v),
            PlaneCut::Cut { front, back } => CutView::Cut { front: front@, back: back@ },
        }
    }
}

/// The capability a value needs to be stored in a partition tree.
///
/// An implementation verified against this trait defines `cut_of`,
/// `aligned_to` and `weight` to describe its `cut` and `is_aligned`; the
/// defaults describe a plane that keeps every value as a sibling.
pub trait Plane: Sized + Clone {
    /// How `self`, as a reference plane, classifies `plane`.
    open spec fn cut_of(&self, plane: Self) -> CutView<Self> {
        CutView::Sibling(plane)
    }

    /// Whether `self` is aligned with `plane`.
    open spec fn aligned_to(&self, plane: Self) -> bool {
        true
    }

    /// A measure that bounds insertion: a value cut into a single piece
    /// yields a piece no heavier than itself, and a value cut into several
    /// pieces yields pieces that are each strictly lighter.
    open spec fn weight(&self) -> nat {
        0
    }

    /// Classifies `plane` against `self`.
    fn cut(&self, plane: Self) -> (r: PlaneCut<Self>)
        ensures
            r@ == self.cut_of(plane),
            (match self.cut_of(plane) {
                CutView::Sibling(_) => true,
                CutView::Cut { front, back } => {
                    let pieces = front + back;
                    forall|i: int|
                        0 <= i < pieces.len() ==> if pieces.len() <= 1 {
                            #[trigger] pieces[i].weight() <= plane.weight()
                        } else {
                            pieces[i].weight() < plane.weight()
                        }
                },
            }),
    ;

    /// Whether `self` is aligned with `plane`.
    fn is_aligned(&self, plane: &Self) -> (r: bool)
        ensures
            r == self.aligned_to(*plane),
    ;
}

/// The largest weight among `items`, zero for none.
pub open spec fn max_weight<T: Plane>(items: Seq<T>) -> nat
    decreases items.len(),
{
    if items.len() == 0 {
        0
    } else {
        let rest = max_weight(items.drop_last());
        if items.last().weight() >= rest { items.last().weight() } else { rest }
    }
}

/// A bound on the work of routing `items` into one child slot: the weight of a
/// single item, or one more than the largest weight of several.
pub open spec fn side_bound<T: Plane>(items: Seq<T>) -> nat {
    if items.len() == 0 {
        0
    } else if items.len() == 1 {
        items[0].weight()
    } else {
        max_weight(items) + 1
    }
}

/// The tree after inserting `v` into `t`: `v` is classified against the
/// reference plane, and either joins the node's values or is routed, piece by
/// piece, into the child slots. A classification that breaks the weight rule
/// of `Plane::weight` cannot come from `Plane::cut`; the tree is then left as
/// it is.
pub open spec fn tree_insert<T: Plane>(t: BspTree<T>, v: T) -> BspTree<T>
    decreases v.weight(), t.depth(), 0nat, 0nat,
{
    if t.values.len() == 0 {
        t
    } else {
        match t.values[0].cut_of(v) {
            CutView::Sibling(w) => BspTree { values: t.values.push(w), front: t.front, back: t.back },
            CutView::Cut { front, back } => {
                if side_bound(front) <= v.weight() && side_bound(back) <= v.weight() {
                    BspTree {
                        values: t.values,
                        front: side_insert(t.front, front),
                        back: side_insert(t.back, back),
                    }
                } else {
                    t
                }
            },
        }
    }
}

/// A child slot after routing `items` into it: an absent slot takes the first
/// item as its root and the others are inserted into it, in order; a present
/// one has every item inserted, in order.
pub open spec fn side_insert<T: Plane>(side: Option<Box<BspTree<T>>>, items: Seq<T>) -> Option<
    Box<BspTree<T>>,
>
    decreases side_bound(items), opt_depth(side), 2nat, 0nat,
{
    match side {
        None => if items.len() == 0 {
            None
        } else {
            Some(Box::new(insert_all(BspTree::leaf(items[0]), items.drop_first(), side_bound(items), 0)))
        },
        Some(node) => Some(Box::new(insert_all(*node, items, side_bound(items), node.depth()))),
    }
}

/// The tree after inserting each of `items` into `t`, first to last. `w` and
/// `h` bound the weight of the items and the depth at which they start.
pub open spec fn insert_all<T: Plane>(t: BspTree<T>, items: Seq<T>, w: nat, h: nat) -> BspTree<T>
    decreases w, h, 1nat, items.len(),
{
    if items.len() == 0 {
        t
    } else if items[0].weight() < w || (items[0].weight() == w && t.depth() <= h) {
        insert_all(tree_insert(t, items[0]), items.drop_first(), w, h)
    } else {
        t
    }
}

proof fn lemma_max_weight<T: Plane>(items: Seq<T>)
    ensures
        forall|i: int| 0 <= i < items.len() ==> #[trigger] items[i].weight() <= max_weight(items),
        items.len() > 0 ==> exists|i: int| 0 <= i < items.len() && items[i].weight() == max_weight(items),
    decreases items.len(),
{
    if items.len() > 0 {
        let init = items.drop_last();
        let last = items.len() - 1;
        lemma_max_weight(init);
        assert forall|i: int| 0 <= i < items.len() implies #[trigger] items[i].weight() <= max_weight(items) by {
            if i < last {
                assert(items[i] == init[i]);
            }
        }
        if items.last().weight() >= max_weight(init) {
            assert(items[last].weight() == max_weight(items));
        } else {
            let j = choose|j: int| 0 <= j < init.len() && init[j].weight() == max_weight(init);
            assert(items[j] == init[j]);
            assert(items[j].weight() == max_weight(items));
        }
    }
}

/// The bound of a slot is at most `w` when the items obey the weight rule of
/// a cut of a value of weight `w`.
proof fn lemma_side_bound<T: Plane>(items: Seq<T>, w: nat, strict: bool)
    requires
        !strict ==> items.len() <= 1,
        forall|i: int| 0 <= i < items.len() ==> if strict {
            #[trigger] items[i].weight() < w
        } else {
            items[i].weight() <= w
        },
    ensures
        side_bound(items) <= w,
{
    lemma_max_weight(items);
    if items.len() > 1 {
        let j = choose|j: int| 0 <= j < items.len() && items[j].weight() == max_weight(items);
        assert(items[j].weight() < w);
    }
}

/// The mathematical shape of a partition tree: the values of a node, and its
/// optional front and back subtrees.
pub struct BspTree<T> {
    pub values: Seq<T>,
    pub front: Option<Box<BspTree<T>>>,
    pub back: Option<Box<BspTree<T>>>,
}

/// The depth of an optional subtree: zero when absent.
pub open spec fn opt_depth<T>(side: Option<Box<BspTree<T>>>) -> nat
    decreases side,
{
    match side {
        None => 0,
        Some(node) => node.depth(),
    }
}

/// Every node of an optional subtree holds at least one value.
pub open spec fn opt_wf<T>(side: Option<Box<BspTree<T>>>) -> bool
    decreases side,
{
    match side {
        None => true,
        Some(node) => node.wf(),
    }
}

impl<T> BspTree<T> {
    /// A single node holding one value and no children.
    pub open spec fn leaf(value: T) -> BspTree<T> {
        BspTree { values: seq![value], front: None, back: None }
    }

    pub open spec fn is_leaf(self) -> bool {
        self.front is None && self.back is None
    }

    /// One more than the larger depth of the two children.
    pub open spec fn depth(self) -> nat
        decreases self,
    {
        let df = opt_depth(self.front);
        let db = opt_depth(self.back);
        1 + if df >= db { df } else { db }
    }

    /// No reachable node has an empty value sequence.
    pub open spec fn wf(self) -> bool
        decreases self,
    {
        &&& self.values.len() > 0
        &&& opt_wf(self.front)
        &&& opt_wf(self.back)
    }
}

/// The values of an optional subtree in visiting order; none when absent.
pub open spec fn opt_ordered<T: Plane>(side: Option<Box<BspTree<T>>>, base: T) -> Seq<T>
    decreases side,
{
    match side {
        None => Seq::empty(),
        Some(node) => node.ordered(base),
    }
}

impl<T: Plane> BspTree<T> {
    /// The values of the tree in visiting order from `base`: at each node the
    /// front subtree comes first when `base` is aligned with the node's
    /// reference plane and the back subtree otherwise; then the node's own
    /// values; then the other subtree.
    pub open spec fn ordered(self, base: T) -> Seq<T>
        decreases self,
    {
        let f = opt_ordered(self.front, base);
        let b = opt_ordered(self.back, base);
        if base.aligned_to(self.values[0]) {
            f + self.values + b
        } else {
            b + self.values + f
        }
    }
}

/// `after` is `before` followed by a clone of each value of `s`, in order.
pub open spec fn appends_clones<T: Clone>(before: Seq<T>, after: Seq<T>, s: Seq<T>) -> bool {
    &&& after.len() == before.len() + s.len()
    &&& after.take(before.len() as int) == before
    &&& forall|i: int| 0 <= i < s.len() ==> cloned(s[i], #[trigger] after[before.len() + i])
}

proof fn lemma_appends_clones_chain<T: Clone>(a: Seq<T>, b: Seq<T>, c: Seq<T>, s1: Seq<T>, s2: Seq<T>)
    requires
        appends_clones(a, b, s1),
        appends_clones(b, c, s2),
    ensures
        appends_clones(a, c, s1 + s2),
{
    assert forall|i: int| 0 <= i < a.len() implies #[trigger] c[i] == a[i] by {
        assert(c.take(b.len() as int)[i] == b[i]);
        assert(b.take(a.len() as int)[i] == a[i]);
    }
    assert(c.take(a.len() as int) =~= a);
    let s = s1 + s2;
    assert forall|i: int| 0 <= i < s.len() implies cloned(s[i], #[trigger] c[a.len() + i]) by {
        if i < s1.len() {
            assert(c.take(b.len() as int)[a.len() + i] == b[a.len() + i]);
            assert(cloned(s1[i], b[a.len() + i]));
        } else {
            assert(cloned(s2[i - s1.len()], c[b.len() + (i - s1.len())]));
        }
    }
}

proof fn lemma_appends_clones_none<T: Clone>(a: Seq<T>)
    ensures
        appends_clones(a, a, Seq::empty()),
{
    assert(a.take(a.len() as int) =~= a);
}

/// The values held by an optional subtree; none when absent.
pub open spec fn opt_contents<T>(side: Option<Box<BspTree<T>>>) -> Multiset<T>
    decreases side,
{
    match side {
        None => Multiset::empty(),
        Some(node) => node.contents(),
    }
}

impl<T> BspTree<T> {
    /// The values held anywhere in the tree, with their multiplicities.
    pub open spec fn contents(self) -> Multiset<T>
        decreases self,
    {
        opt_contents(self.front).add(self.values.to_multiset()).add(opt_contents(self.back))
    }
}

/// The plane never fragments a value nor replaces it: every value is either a
/// sibling as it is, or goes whole to exactly one side.
pub open spec fn keeps_whole<T: Plane>() -> bool {
    forall|a: T, b: T|
        #![trigger a.cut_of(b)]
        match a.cut_of(b) {
            CutView::Sibling(w) => w == b,
            CutView::Cut { front, back } => (front == seq![b] && back == Seq::<T>::empty()) || (front
                == Seq::<T>::empty() && back == seq![b]),
        }
}

/// The tree that a new node for `first` becomes after `rest` is inserted into
/// it, first to last.
pub open spec fn built<T: Plane>(first: T, rest: Seq<T>) -> BspTree<T>
    decreases rest.len(),
{
    if rest.len() == 0 {
        BspTree::leaf(first)
    } else {
        tree_insert(built(first, rest.drop_last()), rest.last())
    }
}

/// Visiting the tree from any viewpoint yields each of its values exactly
/// once: the visiting order is a permutation of the tree's contents.
pub proof fn lemma_ordered_conserves<T: Plane>(t: BspTree<T>, base: T)
    ensures
        t.ordered(base).to_multiset() == t.contents(),
        t.ordered(base).len() == t.contents().len(),
    decreases t,
{
    match t.front {
        Some(node) => lemma_ordered_conserves(*node, base),
        None => {},
    }
    match t.back {
        Some(node) => lemma_ordered_conserves(*node, base),
        None => {},
    }
    let f = opt_ordered(t.front, base);
    let b = opt_ordered(t.back, base);
    let v = t.values;
    lemma_empty_to_multiset::<T>();
    lemma_multiset_commutative(f, v);
    lemma_multiset_commutative(f + v, b);
    lemma_multiset_commutative(b, v);
    lemma_multiset_commutative(b + v, f);
    assert(t.ordered(base).to_multiset() =~= t.contents());
    t.ordered(base).to_multiset_ensures();
}

proof fn lemma_empty_to_multiset<T>()
    ensures
        Seq::<T>::empty().to_multiset() == Multiset::<T>::empty(),
{
    Seq::<T>::empty().to_multiset_ensures();
    lemma_multiset_empty_len(Seq::<T>::empty().to_multiset());
}

proof fn lemma_leaf_contents<T>(v: T)
    ensures
        BspTree::leaf(v).contents() == Multiset::<T>::empty().insert(v),
        BspTree::leaf(v).wf(),
{
    to_multiset_build(Seq::<T>::empty(), v);
    assert(Seq::<T>::empty().push(v) =~= seq![v]);
    lemma_empty_to_multiset::<T>();
    assert(BspTree::leaf(v).contents() =~= Multiset::<T>::empty().insert(v));
}

/// Under a plane that keeps values whole, an insertion adds exactly the
/// inserted value to the tree's contents, and keeps every node non-empty.
pub proof fn lemma_insert_conserves<T: Plane>(t: BspTree<T>, v: T)
    requires
        keeps_whole::<T>(),
        t.wf(),
    ensures
        tree_insert(t, v).wf(),
        tree_insert(t, v).contents() == t.contents().insert(v),
    decreases t,
{
    let none = Seq::<T>::empty();
    let one = seq![v];
    assert(one.drop_first() =~= none);
    match t.values[0].cut_of(v) {
        CutView::Sibling(w) => {
            to_multiset_build(t.values, v);
            assert(tree_insert(t, v).contents() =~= t.contents().insert(v));
        },
        CutView::Cut { front, back } => {
            assert(side_bound(none) == 0);
            assert(side_bound(one) == v.weight());
            assert(side_insert(t.front, none) == t.front) by {
                match t.front {
                    Some(node) => assert(insert_all(*node, none, 0, node.depth()) == *node),
                    None => {},
                }
            }
            assert(side_insert(t.back, none) == t.back) by {
                match t.back {
                    Some(node) => assert(insert_all(*node, none, 0, node.depth()) == *node),
                    None => {},
                }
            }
            let side = if front == one { t.front } else { t.back };
            assert(opt_contents(side_insert(side, one)) == opt_contents(side).insert(v)
                && opt_wf(side_insert(side, one))) by {
                match side {
                    Some(node) => {
                        lemma_insert_conserves(*node, v);
                        assert(insert_all(tree_insert(*node, v), none, v.weight(), node.depth())
                            == tree_insert(*node, v));
                        assert(insert_all(*node, one, v.weight(), node.depth()) == tree_insert(*node, v));
                    },
                    None => {
                        lemma_leaf_contents(v);
                        assert(insert_all(BspTree::leaf(v), none, v.weight(), 0) == BspTree::leaf(v));
                        assert(Multiset::<T>::empty().insert(v) =~= Multiset::<T>::empty().add(
                            Multiset::<T>::empty().insert(v),
                        ));
                    },
                }
            }
            assert(tree_insert(t, v).contents() =~= t.contents().insert(v));
        },
    }
}

/// Under a plane that keeps values whole, a tree built from `first` and then
/// `rest` yields, from any viewpoint, exactly the inserted values: as many as
/// were inserted, each as often as it was inserted.
pub proof fn lemma_conservation<T: Plane>(first: T, rest: Seq<T>, base: T)
    requires
        keeps_whole::<T>(),
    ensures
        built(first, rest).wf(),
        built(first, rest).ordered(base).to_multiset() == (seq![first] + rest).to_multiset(),
        built(first, rest).ordered(base).len() == rest.len() + 1,
    decreases rest.len(),
{
    let all = seq![first] + rest;
    if rest.len() == 0 {
        lemma_leaf_contents(first);
        to_multiset_build(Seq::<T>::empty(), first);
        assert(Seq::<T>::empty().push(first) =~= all);
        lemma_empty_to_multiset::<T>();
    } else {
        let init = rest.drop_last();
        lemma_conservation(first, init, base);
        lemma_ordered_conserves(built(first, init), base);
        lemma_insert_conserves(built(first, init), rest.last());
        to_multiset_build(seq![first] + init, rest.last());
        assert((seq![first] + init).push(rest.last()) =~= all);
    }
    lemma_ordered_conserves(built(first, rest), base);
    all.to_multiset_ensures();
}

/// Where cloning a plane yields an equal value, two visits of one tree from
/// one viewpoint append the same sequence.
pub proof fn lemma_order_stable<T: Plane>(
    t: BspTree<T>,
    base: T,
    before1: Seq<T>,
    after1: Seq<T>,
    before2: Seq<T>,
    after2: Seq<T>,
)
    requires
        forall|a: T, b: T| #[trigger] strictly_cloned(a, b) ==> a == b,
        appends_clones(before1, after1, t.ordered(base)),
        appends_clones(before2, after2, t.ordered(base)),
    ensures
        after1.skip(before1.len() as int) == after2.skip(before2.len() as int),
{
    let s = t.ordered(base);
    let tail1 = after1.skip(before1.len() as int);
    let tail2 = after2.skip(before2.len() as int);
    assert forall|i: int| 0 <= i < s.len() implies #[trigger] tail1[i] == tail2[i] by {
        assert(tail1[i] == after1[before1.len() + i]);
        assert(tail2[i] == after2[before2.len() + i]);
        assert(cloned(s[i], after1[before1.len() + i]));
        assert(cloned(s[i], after2[before2.len() + i]));
    }
    assert(tail1 =~= tail2);
}

/// A node of a partition tree. `values[0]` is the node's reference plane; the
/// other values are its siblings, in the order they arrived.
pub struct BspNode<T> {
    pub values: Vec<T>,
    pub front: Option<Box<BspNode<T>>>,
    pub back: Option<Box<BspNode<T>>>,
}

/// The model of an optional child slot.
pub open spec fn opt_model<T>(side: Option<Box<BspNode<T>>>) -> Option<Box<BspTree<T>>>
    decreases side,
{
    match side {
        None => None,
        Some(node) => Some(Box::new(node.model())),
    }
}

impl<T> BspNode<T> {
    pub open spec fn model(self) -> BspTree<T>
        decreases self,
    {
        BspTree { values: self.values@, front: opt_model(self.front), back: opt_model(self.back) }
    }
}

impl<T> View for BspNode<T> {
    type V = BspTree<T>;

    open spec fn view(&self) -> BspTree<T> {
        self.model()
    }
}

impl<T: Plane> BspNode<T> {
    pub fn new(value: T) -> (r: Self)
        ensures
            r@ == BspTree::leaf(value),
            r@.wf(),
    {
        let r = BspNode { values: vec![value], front: None, back: None };
        assert(r.values@ =~= seq![value]);
        r
    }

    pub fn is_leaf(&self) -> (r: bool)
        ensures
            r == self@.is_leaf(),
    {
        self.front.is_none() && self.back.is_none()
    }

    /// Inserts `value` into the tree rooted here. The value is classified
    /// against the reference plane: a sibling joins this node's values, and
    /// the pieces of a cut go into the front and back subtrees.
    pub fn insert(&mut self, value: T)
        requires
            old(self)@.wf(),
        ensures
            final(self)@.wf(),
            final(self)@ == tree_insert(old(self)@, value),
        decreases value.weight(), old(self)@.depth(), 0nat, 0nat,
    {
        match self.values[0].cut(value) {
            PlaneCut::Sibling(value) => self.values.push(value),
            PlaneCut::Cut { front, back } => {
                proof {
                    let pieces = front@ + back@;
                    let strict = pieces.len() > 1;
                    assert forall|i: int| 0 <= i < front@.len() implies #[trigger] front@[i] == pieces[i] by {}
                    assert forall|i: int| 0 <= i < back@.len() implies #[trigger] back@[i] == pieces[front@.len() + i] by {}
                    lemma_side_bound(front@, value.weight(), strict);
                    lemma_side_bound(back@, value.weight(), strict);
                }
                add_side(&mut self.front, front);
                add_side(&mut self.back, back);
            },
        }
    }

    /// Appends to `out` every value of the tree, in visiting order from
    /// `base`. The tree is left as it is.
    pub fn order(&self, base: &T, out: &mut Vec<T>)
        requires
            self@.wf(),
        ensures
            appends_clones(old(out)@, final(out)@, self@.ordered(*base)),
        decreases self,
    {
        let ghost o0 = out@;
        let aligned = base.is_aligned(&self.values[0]);
        let (former, latter) = if aligned {
            (&self.front, &self.back)
        } else {
            (&self.back, &self.front)
        };
        let ghost sf = opt_ordered(opt_model(*former), *base);
        let ghost sl = opt_ordered(opt_model(*latter), *base);
        match former {
            Some(node) => node.order(base, out),
            None => proof {
                lemma_appends_clones_none(o0);
            },
        }
        let ghost o1 = out@;
        out.extend_from_slice(self.values.as_slice());
        let ghost o2 = out@;
        assert(o2.take(o1.len() as int) =~= o1);
        assert forall|i: int| 0 <= i < self.values@.len() implies cloned(
            self.values@[i],
            #[trigger] o2[o1.len() + i],
        ) by {}
        match latter {
            Some(node) => node.order(base, out),
            None => proof {
                lemma_appends_clones_none(o2);
            },
        }
        proof {
            lemma_appends_clones_chain(o0, o1, o2, sf, self.values@);
            lemma_appends_clones_chain(o0, o2, out@, sf + self.values@, sl);
        }
    }

    /// Appends to `out` every value of the tree, in visiting order from the
    /// root's reference plane.
    pub fn order_self(&self, out: &mut Vec<T>)
        requires
            self@.wf(),
        ensures
            appends_clones(old(out)@, final(out)@, self@.ordered(self@.values[0])),
    {
        self.order(&self.values[0], out);
    }

    pub fn get_depth(&self) -> (r: usize)
        requires
            self@.depth() <= usize::MAX,
        ensures
            r == self@.depth(),
            self@.is_leaf() ==> r == 1,
        decreases self,
    {
        let df: usize = match &self.front {
            Some(node) => node.get_depth(),
            None => 0,
        };
        let db: usize = match &self.back {
            Some(node) => node.get_depth(),
            None => 0,
        };
        1 + if df >= db { df } else { db }
    }
}

/// Routes `items`, in order, into a child slot. An absent slot stays absent
/// when there are no items; otherwise the first item becomes the root of a new
/// subtree and the rest are inserted into it. A present subtree keeps its root
/// and has every item inserted.
pub fn add_side<T: Plane>(side: &mut Option<Box<BspNode<T>>>, items: Vec<T>)
    requires
        opt_wf(opt_model(*old(side))),
    ensures
        opt_wf(opt_model(*final(side))),
        opt_model(*final(side)) == side_insert(opt_model(*old(side)), items@),
    decreases side_bound(items@), opt_depth(opt_model(*old(side))), 2nat, 0nat,
{
    let ghost all = items@;
    proof {
        lemma_max_weight(all);
    }
    match side.take() {
        None => {
            if items.len() > 0 {
                let mut rest = items;
                let first = rest.remove(0);
                let mut node = BspNode::new(first);
                assert(rest@ =~= all.drop_first());
                assert forall|i: int| 0 <= i < rest@.len() implies #[trigger] rest@[i] == all[i + 1] by {}
                insert_each(&mut node, rest, Ghost(side_bound(all)), Ghost(0));
                *side = Some(Box::new(node));
            }
        },
        Some(mut node) => {
            let ghost h = node@.depth();
            insert_each(&mut *node, items, Ghost(side_bound(all)), Ghost(h));
            *side = Some(node);
        },
    }
}

/// Inserts each of `items` into `node`, first to last. Each item is lighter
/// than `w`, or there is a single item of weight `w` and the tree is no deeper
/// than `h`.
fn insert_each<T: Plane>(node: &mut BspNode<T>, items: Vec<T>, Ghost(w): Ghost<nat>, Ghost(h): Ghost<nat>)
    requires
        old(node)@.wf(),
        (forall|i: int| 0 <= i < items@.len() ==> #[trigger] items@[i].weight() < w) || (items@.len() == 1
            && items@[0].weight() == w && old(node)@.depth() <= h),
    ensures
        final(node)@.wf(),
        final(node)@ == insert_all(old(node)@, items@, w, h),
    decreases w, h, 1nat, items@.len(),
{
    let ghost start = node@;
    let ghost all = items@;
    let mut rest = items;
    while rest.len() > 0
        invariant
            node@.wf(),
            insert_all(node@, rest@, w, h) == insert_all(start, all, w, h),
            (forall|i: int| 0 <= i < rest@.len() ==> #[trigger] rest@[i].weight() < w) || (rest@.len() == 1
                && rest@[0].weight() == w && node@.depth() <= h),
        decreases rest@.len(),
    {
        let ghost before = rest@;
        let p = rest.remove(0);
        assert(rest@ =~= before.drop_first());
        assert forall|i: int| 0 <= i < rest@.len() implies #[trigger] rest@[i] == before[i + 1] by {}
        node.insert(p);
    }
}

} // verus!
