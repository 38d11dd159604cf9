//! The curve tree: a tree of fixed width whose nodes hash their children
//! under the two curves of a cycle in turn.
//!
//! A node of the first curve's kind ("even") commits to the coordinates of
//! children of the second curve's kind ("odd"), and the other way round;
//! leaves are points of the first curve. The contracts are stated over
//! [`NodeModel`], the tree as a value, and over the functions that insert
//! into it, grow it and rehash it.

use vstd::prelude::*;

verus! {

/// Two curves, each with the other's base field as its scalar field.
///
/// The contracts of the tree are stated over the `spec` functions of this
/// trait. They hold of an implementation whose executable functions
/// compute them, which is for the implementer to see to.
pub trait CurveCycle {
    /// The points of the first curve.
    type G1: Copy;

    /// The scalars of the first curve.
    type F1: Copy;

    /// The points of the second curve.
    type G2: Copy;

    /// The scalars of the second curve.
    type F2: Copy;

    spec fn identity1() -> Self::G1;

    spec fn add1(a: Self::G1, b: Self::G1) -> Self::G1;

    spec fn mul1(p: Self::G1, s: Self::F1) -> Self::G1;

    spec fn identity2() -> Self::G2;

    spec fn add2(a: Self::G2, b: Self::G2) -> Self::G2;

    spec fn mul2(p: Self::G2, s: Self::F2) -> Self::G2;

    spec fn coords1(p: Self::G1) -> (Self::F2, Self::F2);

    spec fn coords2(p: Self::G2) -> (Self::F1, Self::F1);

    /// The identity of the first curve.
    fn c1_identity() -> (r: Self::G1)
        ensures
            r == Self::identity1(),
    ;

    /// A sum on the first curve.
    fn c1_add(a: &Self::G1, b: &Self::G1) -> (r: Self::G1)
        ensures
            r == Self::add1(*a, *b),
    ;

    /// A scalar multiple on the first curve.
    fn c1_mul(p: &Self::G1, s: &Self::F1) -> (r: Self::G1)
        ensures
            r == Self::mul1(*p, *s),
    ;

    /// The identity of the second curve.
    fn c2_identity() -> (r: Self::G2)
        ensures
            r == Self::identity2(),
    ;

    /// A sum on the second curve.
    fn c2_add(a: &Self::G2, b: &Self::G2) -> (r: Self::G2)
        ensures
            r == Self::add2(*a, *b),
    ;

    /// A scalar multiple on the second curve.
    fn c2_mul(p: &Self::G2, s: &Self::F2) -> (r: Self::G2)
        ensures
            r == Self::mul2(*p, *s),
    ;

    /// The affine coordinates of a point of the first curve, as scalars of
    /// the second.
    fn c1_coords(p: &Self::G1) -> (r: (Self::F2, Self::F2))
        ensures
            r == Self::coords1(*p),
    ;

    /// The affine coordinates of a point of the second curve, as scalars
    /// of the first.
    fn c2_coords(p: &Self::G2) -> (r: (Self::F1, Self::F1))
        ensures
            r == Self::coords2(*p),
    ;
}

/// The hash of a node: a point of the first curve for an even node, of the
/// second for an odd one.
pub enum Hash<C: CurveCycle> {
    Even(C::G1),
    Odd(C::G2),
}

/// A child of a node.
pub enum Child<C: CurveCycle> {
    Leaf(C::G1),
    Node(Node<C>),
}

/// A node.
pub struct Node<C: CurveCycle> {
    pub hash: Hash<C>,
    pub dirty: bool,
    pub children: Vec<Child<C>>,
}

/// Why a tree could not be rehashed.
#[derive(Clone, Copy, Debug, PartialEq, Eq, Structural)]
pub enum TreeError {
    /// A node has no row of generators for its depth, or the row is too
    /// short for its children.
    MissingGenerators,
    /// A node has a child of its own kind.
    Malformed,
}

/// [`Child`] as a value of contracts.
pub ghost enum ChildModel<C: CurveCycle> {
    Leaf(C::G1),
    Node(NodeModel<C>),
}

/// [`Node`] as a value of contracts.
pub ghost struct NodeModel<C: CurveCycle> {
    pub hash: Hash<C>,
    pub dirty: bool,
    pub children: Seq<ChildModel<C>>,
}

/// A node as a value of contracts.
pub open spec fn node_view<C: CurveCycle>(node: Node<C>) -> NodeModel<C>
    decreases node, node.children@.len() + 1,
{
    NodeModel { hash: node.hash, dirty: node.dirty, children: children_view(node, node.children@.len()) }
}

/// The first `n` children of a node as values of contracts.
pub open spec fn children_view<C: CurveCycle>(node: Node<C>, n: nat) -> Seq<ChildModel<C>>
    decreases node, n,
{
    if n == 0 || n > node.children@.len() {
        Seq::empty()
    } else {
        children_view(node, (n - 1) as nat).push(
            match node.children@[n - 1] {
                Child::Leaf(p) => ChildModel::Leaf(p),
                Child::Node(c) => ChildModel::Node(node_view(c)),
            },
        )
    }
}

/// A child as a value of contracts.
pub open spec fn child_view<C: CurveCycle>(child: Child<C>) -> ChildModel<C> {
    match child {
        Child::Leaf(p) => ChildModel::Leaf(p),
        Child::Node(c) => ChildModel::Node(node_view(c)),
    }
}

/// A list of children as values of contracts.
pub open spec fn child_views<C: CurveCycle>(children: Seq<Child<C>>) -> Seq<ChildModel<C>> {
    Seq::new(children.len(), |i: int| child_view(children[i]))
}

/// The view of a node lists the views of its children.
pub proof fn lemma_node_view<C: CurveCycle>(node: Node<C>)
    ensures
        node_view(node).children == child_views(node.children@),
        node_view(node).hash == node.hash,
        node_view(node).dirty == node.dirty,
{
    lemma_children_view(node, node.children@.len());
    assert(node.children@.take(node.children@.len() as int) =~= node.children@);
}

/// The view of the first `n` children lists their views.
pub proof fn lemma_children_view<C: CurveCycle>(node: Node<C>, n: nat)
    requires
        n <= node.children@.len(),
    ensures
        children_view(node, n) == child_views(node.children@.take(n as int)),
    decreases n,
{
    if n > 0 {
        lemma_children_view(node, (n - 1) as nat);
        assert(child_views(node.children@.take(n as int)) =~= child_views(
            node.children@.take(n as int - 1),
        ).push(child_view(node.children@[n - 1])));
    } else {
        assert(child_views(node.children@.take(0)) =~= Seq::empty());
    }
}

/// The identity of a node's kind.
pub open spec fn zero_hash<C: CurveCycle>(even: bool) -> Hash<C> {
    if even {
        Hash::Even(C::identity1())
    } else {
        Hash::Odd(C::identity2())
    }
}

/// The node with no children.
pub open spec fn empty_model<C: CurveCycle>(even: bool) -> NodeModel<C> {
    NodeModel { hash: zero_hash::<C>(even), dirty: false, children: Seq::empty() }
}

/// The depth of a node: none for a node without children, one for a node
/// of leaves, and one more than its first child's otherwise.
pub open spec fn depth_model<C: CurveCycle>(node: NodeModel<C>) -> nat
    decreases node,
{
    if node.children.len() == 0 {
        0
    } else {
        match node.children[0] {
            ChildModel::Leaf(_) => 1,
            ChildModel::Node(c) => depth_model(c) + 1,
        }
    }
}

/// Insertion: a node with room takes the leaf itself; a full node hands it
/// to its children in order, until one takes it. Every node that takes the
/// leaf, itself or below, is marked dirty. The second component tells
/// whether the leaf was taken.
pub open spec fn insert_model<C: CurveCycle>(node: NodeModel<C>, width: nat, leaf: C::G1) -> (
    NodeModel<C>,
    bool,
)
    decreases node, node.children.len() + 1,
{
    if node.children.len() < width {
        (NodeModel { dirty: true, children: node.children.push(ChildModel::Leaf(leaf)), ..node }, true)
    } else {
        insert_from(node, width, leaf, 0)
    }
}

/// Insertion into the children of a full node from child `i` on. A leaf
/// among the children ends the search: a full node of leaves has no room.
pub open spec fn insert_from<C: CurveCycle>(node: NodeModel<C>, width: nat, leaf: C::G1, i: nat) -> (
    NodeModel<C>,
    bool,
)
    decreases node, node.children.len() - i,
{
    if i >= node.children.len() {
        (node, false)
    } else {
        match node.children[i as int] {
            ChildModel::Leaf(_) => (node, false),
            ChildModel::Node(c) => {
                let (next, taken) = insert_model(c, width, leaf);
                if taken {
                    (
                        NodeModel {
                            dirty: true,
                            children: node.children.update(i as int, ChildModel::Node(next)),
                            ..node
                        },
                        true,
                    )
                } else {
                    insert_from(node, width, leaf, i + 1)
                }
            },
        }
    }
}

/// The skeleton of a node: its structure with no leaves, every hash the
/// identity, and nothing dirty.
pub open spec fn skeleton_model<C: CurveCycle>(node: NodeModel<C>) -> NodeModel<C>
    decreases node, node.children.len() + 1,
{
    NodeModel {
        hash: zero_hash::<C>(node.hash is Even),
        dirty: false,
        children: skeleton_children(node, node.children.len()),
    }
}

/// The skeletons of the first `n` children of a node; leaves are left
/// out.
pub open spec fn skeleton_children<C: CurveCycle>(node: NodeModel<C>, n: nat) -> Seq<ChildModel<C>>
    decreases node, n,
{
    if n == 0 || n > node.children.len() {
        Seq::empty()
    } else {
        match node.children[n - 1] {
            ChildModel::Leaf(_) => skeleton_children(node, (n - 1) as nat),
            ChildModel::Node(c) => skeleton_children(node, (n - 1) as nat).push(
                ChildModel::Node(skeleton_model(c)),
            ),
        }
    }
}

/// Growth: a new root of the other kind, dirty, whose first child is the
/// old root and whose other children, `width` in all, are skeletons of
/// the old root; the leaf goes into the second child.
pub open spec fn grow_model<C: CurveCycle>(node: NodeModel<C>, width: nat, leaf: C::G1) -> (
    NodeModel<C>,
    bool,
) {
    let sibling = skeleton_model(node);
    let (second, taken) = insert_model(sibling, width, leaf);
    let children = Seq::new(
        width,
        |i: int|
            if i == 0 {
                ChildModel::Node(node)
            } else if i == 1 {
                ChildModel::Node(second)
            } else {
                ChildModel::Node(sibling)
            },
    );
    (NodeModel { hash: zero_hash::<C>(!(node.hash is Even)), dirty: true, children }, taken && width >= 2)
}

/// One leaf added: inserted where there is room, else into a grown tree.
pub open spec fn add_leaf_model<C: CurveCycle>(node: NodeModel<C>, width: nat, leaf: C::G1) -> (
    NodeModel<C>,
    bool,
) {
    let (next, taken) = insert_model(node, width, leaf);
    if taken {
        (next, true)
    } else {
        grow_model(node, width, leaf)
    }
}

/// The first `n` leaves of a list added one by one. The second component
/// tells whether every leaf was taken; nothing is added after one that
/// was not.
pub open spec fn add_leaves_model<C: CurveCycle>(node: NodeModel<C>, width: nat, leaves: Seq<C::G1>, n: nat) -> (
    NodeModel<C>,
    bool,
)
    decreases n,
{
    if n == 0 {
        (node, true)
    } else {
        let (before, ok) = add_leaves_model(node, width, leaves, (n - 1) as nat);
        if ok {
            add_leaf_model(before, width, leaves[n - 1])
        } else {
            (before, false)
        }
    }
}

/// The Pedersen hash over the first curve: `sum x_i G_i` over the first
/// `n` scalars and generators.
pub open spec fn pedersen1<C: CurveCycle>(elems: Seq<C::F1>, gens: Seq<C::G1>, n: nat) -> C::G1
    decreases n,
{
    if n == 0 {
        C::identity1()
    } else {
        C::add1(pedersen1::<C>(elems, gens, (n - 1) as nat), C::mul1(gens[n - 1], elems[n - 1]))
    }
}

/// The Pedersen hash over the second curve.
pub open spec fn pedersen2<C: CurveCycle>(elems: Seq<C::F2>, gens: Seq<C::G2>, n: nat) -> C::G2
    decreases n,
{
    if n == 0 {
        C::identity2()
    } else {
        C::add2(pedersen2::<C>(elems, gens, (n - 1) as nat), C::mul2(gens[n - 1], elems[n - 1]))
    }
}

/// The hash of a child: a leaf is an even hash.
pub open spec fn child_hash<C: CurveCycle>(child: ChildModel<C>) -> Hash<C> {
    match child {
        ChildModel::Leaf(p) => Hash::Even(p),
        ChildModel::Node(n) => n.hash,
    }
}

/// Whether the first `n` children are all of the given kind.
pub open spec fn children_are<C: CurveCycle>(children: Seq<ChildModel<C>>, even: bool, n: nat) -> bool {
    forall|i: int| 0 <= i < n ==> (#[trigger] child_hash(children[i]) is Even) == even
}

/// The coordinates of the first `n` children, all even, as scalars of the
/// second curve: `x` then `y` for each.
pub open spec fn even_coords<C: CurveCycle>(children: Seq<ChildModel<C>>, n: nat) -> Seq<C::F2>
    decreases n,
{
    if n == 0 {
        Seq::empty()
    } else {
        let c = C::coords1(child_hash(children[n - 1])->Even_0);
        even_coords::<C>(children, (n - 1) as nat).push(c.0).push(c.1)
    }
}

/// The coordinates of the first `n` children, all odd, as scalars of the
/// first curve.
pub open spec fn odd_coords<C: CurveCycle>(children: Seq<ChildModel<C>>, n: nat) -> Seq<C::F1>
    decreases n,
{
    if n == 0 {
        Seq::empty()
    } else {
        let c = C::coords2(child_hash(children[n - 1])->Odd_0);
        odd_coords::<C>(children, (n - 1) as nat).push(c.0).push(c.1)
    }
}

/// The depth of a node as a machine number: capped at the largest.
pub open spec fn capped_depth<C: CurveCycle>(node: NodeModel<C>) -> nat {
    if depth_model(node) > usize::MAX {
        usize::MAX as nat
    } else {
        depth_model(node)
    }
}

/// The row of generators for a node: row `(d - 1) / 2` of the first
/// curve's for an even node of depth `d`, row `d / 2` of the second
/// curve's for an odd one.
pub open spec fn generator_row<C: CurveCycle>(node: NodeModel<C>) -> nat {
    if node.hash is Even {
        if capped_depth(node) == 0 {
            0
        } else {
            ((capped_depth(node) - 1) / 2) as nat
        }
    } else {
        capped_depth(node) / 2
    }
}

/// The hash of a node over its children as they are: the Pedersen hash of
/// their coordinates under the first generators of the node's row. It
/// fails for a child of the node's own kind, and for want of generators.
pub open spec fn rehash_model<C: CurveCycle>(
    node: NodeModel<C>,
    odd_generators: Seq<Vec<C::G1>>,
    even_generators: Seq<Vec<C::G2>>,
) -> Result<Hash<C>, TreeError> {
    let n = node.children.len();
    let row = generator_row(node);
    if node.hash is Even {
        if !children_are(node.children, false, n) {
            Err(TreeError::Malformed)
        } else if row >= odd_generators.len() || 2 * n > odd_generators[row as int]@.len() {
            Err(TreeError::MissingGenerators)
        } else {
            Ok(
                Hash::Even(
                    pedersen1::<C>(odd_coords::<C>(node.children, n), odd_generators[row as int]@, 2 * n),
                ),
            )
        }
    } else {
        if !children_are(node.children, true, n) {
            Err(TreeError::Malformed)
        } else if row >= even_generators.len() || 2 * n > even_generators[row as int]@.len() {
            Err(TreeError::MissingGenerators)
        } else {
            Ok(
                Hash::Odd(
                    pedersen2::<C>(even_coords::<C>(node.children, n), even_generators[row as int]@, 2 * n),
                ),
            )
        }
    }
}

/// The clean pass: a node that is not dirty stays as it is; a dirty node
/// has its children cleaned first and is then rehashed over them. The
/// first failure ends the pass.
pub open spec fn clean_model<C: CurveCycle>(
    node: NodeModel<C>,
    odd_generators: Seq<Vec<C::G1>>,
    even_generators: Seq<Vec<C::G2>>,
) -> Result<NodeModel<C>, TreeError>
    decreases node, node.children.len() + 1,
{
    if !node.dirty {
        Ok(node)
    } else {
        match clean_children(node, odd_generators, even_generators, node.children.len()) {
            Err(e) => Err(e),
            Ok(children) => {
                let cleaned = NodeModel { children, ..node };
                match rehash_model(cleaned, odd_generators, even_generators) {
                    Err(e) => Err(e),
                    Ok(hash) => Ok(NodeModel { hash, dirty: false, children }),
                }
            },
        }
    }
}

/// The first `n` children of a node, cleaned in order.
pub open spec fn clean_children<C: CurveCycle>(
    node: NodeModel<C>,
    odd_generators: Seq<Vec<C::G1>>,
    even_generators: Seq<Vec<C::G2>>,
    n: nat,
) -> Result<Seq<ChildModel<C>>, TreeError>
    decreases node, n,
{
    if n == 0 || n > node.children.len() {
        Ok(Seq::empty())
    } else {
        match clean_children(node, odd_generators, even_generators, (n - 1) as nat) {
            Err(e) => Err(e),
            Ok(before) => match node.children[n - 1] {
                ChildModel::Leaf(p) => Ok(before.push(ChildModel::Leaf(p))),
                ChildModel::Node(c) => match clean_model(c, odd_generators, even_generators) {
                    Err(e) => Err(e),
                    Ok(cleaned) => Ok(before.push(ChildModel::Node(cleaned))),
                },
            },
        }
    }
}


/// A leaf that is not taken leaves the node as it was.
pub proof fn lemma_insert_refused<C: CurveCycle>(node: NodeModel<C>, width: nat, leaf: C::G1)
    ensures
        !insert_model(node, width, leaf).1 ==> insert_model(node, width, leaf).0 == node,
    decreases node, node.children.len() + 1,
{
    if node.children.len() >= width {
        lemma_insert_from_refused(node, width, leaf, 0);
    }
}

/// A leaf that is not taken from child `i` on leaves the node as it was.
pub proof fn lemma_insert_from_refused<C: CurveCycle>(node: NodeModel<C>, width: nat, leaf: C::G1, i: nat)
    ensures
        !insert_from(node, width, leaf, i).1 ==> insert_from(node, width, leaf, i).0 == node,
    decreases node, node.children.len() - i,
{
    if i < node.children.len() {
        match node.children[i as int] {
            ChildModel::Leaf(_) => {},
            ChildModel::Node(c) => {
                lemma_insert_refused(c, width, leaf);
                if !insert_model(c, width, leaf).1 {
                    lemma_insert_from_refused(node, width, leaf, i + 1);
                }
            },
        }
    }
}

/// A failure among the first `n` children is the failure of the pass over
/// all of them.
pub proof fn lemma_clean_children_fails<C: CurveCycle>(
    node: NodeModel<C>,
    odd_generators: Seq<Vec<C::G1>>,
    even_generators: Seq<Vec<C::G2>>,
    n: nat,
    upto: nat,
)
    requires
        1 <= n <= upto <= node.children.len(),
        clean_children(node, odd_generators, even_generators, n) is Err,
    ensures
        clean_children(node, odd_generators, even_generators, upto) == clean_children(
            node,
            odd_generators,
            even_generators,
            n,
        ),
    decreases upto - n,
{
    if n < upto {
        lemma_clean_children_fails(node, odd_generators, even_generators, n, (upto - 1) as nat);
    }
}

fn copy_hash<C: CurveCycle>(hash: &Hash<C>) -> (r: Hash<C>)
    ensures
        r == *hash,
{
    match hash {
        Hash::Even(p) => Hash::Even(*p),
        Hash::Odd(p) => Hash::Odd(*p),
    }
}

fn zero<C: CurveCycle>(even: bool) -> (r: Hash<C>)
    ensures
        r == zero_hash::<C>(even),
{
    if even {
        Hash::Even(C::c1_identity())
    } else {
        Hash::Odd(C::c2_identity())
    }
}

impl<C: CurveCycle> Node<C> {
    /// A node with no children, not dirty, whose hash is the identity.
    pub fn new(even: bool) -> (r: Node<C>)
        ensures
            node_view(r) == empty_model::<C>(even),
    {
        let r = Node { hash: zero::<C>(even), dirty: false, children: Vec::new() };
        proof {
            lemma_node_view(r);
            assert(child_views(r.children@) =~= Seq::empty());
        }
        r
    }
}

/// The depth of a node, capped at the largest machine number.
pub fn depth<C: CurveCycle>(node: &Node<C>) -> (r: usize)
    ensures
        r == capped_depth(node_view(*node)),
    decreases node,
{
    proof {
        lemma_node_view(*node);
    }
    if node.children.len() == 0 {
        return 0;
    }
    match &node.children[0] {
        Child::Leaf(_) => 1,
        Child::Node(c) => {
            let d = depth(c);
            if d < usize::MAX {
                d + 1
            } else {
                d
            }
        },
    }
}

/// A copy of a node.
fn copy_node<C: CurveCycle>(node: &Node<C>) -> (r: Node<C>)
    ensures
        node_view(r) == node_view(*node),
    decreases node,
{
    let mut children: Vec<Child<C>> = Vec::new();
    let mut i: usize = 0;
    while i < node.children.len()
        invariant
            i <= node.children.len(),
            children.len() == i,
            forall|k: int| 0 <= k < i ==> child_view(#[trigger] children@[k]) == child_view(node.children@[k]),
        decreases node.children.len() - i,
    {
        match &node.children[i] {
            Child::Leaf(p) => children.push(Child::Leaf(*p)),
            Child::Node(c) => children.push(Child::Node(copy_node(c))),
        }
        i += 1;
    }
    let r = Node { hash: copy_hash(&node.hash), dirty: node.dirty, children };
    proof {
        lemma_node_view(r);
        lemma_node_view(*node);
        assert(child_views(r.children@) =~= child_views(node.children@));
    }
    r
}

/// The skeleton views of the first `n` children list the skeletons of the
/// nodes among them.
pub proof fn lemma_skeleton_step<C: CurveCycle>(node: NodeModel<C>, n: nat)
    requires
        1 <= n <= node.children.len(),
    ensures
        skeleton_children(node, n) == match node.children[n - 1] {
            ChildModel::Leaf(_) => skeleton_children(node, (n - 1) as nat),
            ChildModel::Node(c) => skeleton_children(node, (n - 1) as nat).push(
                ChildModel::Node(skeleton_model(c)),
            ),
        },
{
}

/// The skeleton of a node.
fn skeleton<C: CurveCycle>(node: &Node<C>) -> (r: Node<C>)
    ensures
        node_view(r) == skeleton_model(node_view(*node)),
    decreases node,
{
    let ghost m = node_view(*node);
    proof {
        lemma_node_view(*node);
    }
    let mut children: Vec<Child<C>> = Vec::new();
    let mut i: usize = 0;
    proof {
        assert(child_views(children@) =~= skeleton_children(m, 0));
    }
    while i < node.children.len()
        invariant
            i <= node.children.len(),
            m == node_view(*node),
            m.children == child_views(node.children@),
            child_views(children@) == skeleton_children(m, i as nat),
        decreases node.children.len() - i,
    {
        let ghost before = children@;
        proof {
            lemma_skeleton_step(m, i as nat + 1);
            assert(m.children[i as int] == child_view(node.children@[i as int]));
        }
        match &node.children[i] {
            Child::Leaf(_) => {},
            Child::Node(c) => {
                let s = skeleton(c);
                children.push(Child::Node(s));
                proof {
                    assert(child_views(children@) =~= child_views(before).push(ChildModel::Node(node_view(s))));
                }
            },
        }
        i += 1;
    }
    let even = match &node.hash {
        Hash::Even(_) => true,
        Hash::Odd(_) => false,
    };
    let r = Node { hash: zero::<C>(even), dirty: false, children };
    proof {
        lemma_node_view(r);
    }
    r
}

/// Inserts a leaf into a node, if the node or a node below it has room.
fn add_to_node<C: CurveCycle>(width: usize, node: Node<C>, leaf: C::G1) -> (r: (Node<C>, bool))
    ensures
        (node_view(r.0), r.1) == insert_model(node_view(node), width as nat, leaf),
    decreases node,
{
    let ghost m = node_view(node);
    proof {
        lemma_node_view(node);
    }
    let Node { hash, dirty, mut children } = node;
    if children.len() < width {
        let ghost before = children@;
        children.push(Child::Leaf(leaf));
        let r = Node { hash, dirty: true, children };
        proof {
            lemma_node_view(r);
            assert(child_views(r.children@) =~= child_views(before).push(ChildModel::Leaf(leaf)));
        }
        return (r, true);
    }
    let mut i: usize = 0;
    while i < children.len()
        invariant
            i <= children.len(),
            children@.len() == node.children@.len(),
            m == node_view(node),
            m.hash == hash,
            m.dirty == dirty,
            m.children.len() >= width,
            m.children == child_views(node.children@),
            child_views(children@) == m.children,
            forall|j: int| i <= j < children@.len() ==> children@[j] == node.children@[j],
            insert_model(m, width as nat, leaf) == insert_from(m, width as nat, leaf, i as nat),
        decreases children.len() - i,
    {
        let ghost before = children@;
        proof {
            assert(m.children[i as int] == child_view(before[i as int]));
        }
        let child = children.remove(i);
        match child {
            Child::Leaf(p) => {
                children.insert(i, Child::Leaf(p));
                let r = Node { hash, dirty, children };
                proof {
                    assert(r.children@ =~= before);
                    lemma_node_view(r);
                }
                return (r, false);
            },
            Child::Node(c) => {
                let (next, taken) = add_to_node(width, c, leaf);
                children.insert(i, Child::Node(next));
                proof {
                    assert(children@ =~= before.update(i as int, Child::Node(next)));
                    lemma_insert_refused(node_view(c), width as nat, leaf);
                }
                if taken {
                    let r = Node { hash, dirty: true, children };
                    proof {
                        lemma_node_view(r);
                        assert(child_views(r.children@) =~= m.children.update(
                            i as int,
                            ChildModel::Node(node_view(next)),
                        ));
                    }
                    return (r, true);
                }
                proof {
                    assert(child_views(children@) =~= m.children);
                }
            },
        }
        i += 1;
    }
    let r = Node { hash, dirty, children };
    proof {
        lemma_node_view(r);
    }
    (r, false)
}

/// Grows a full tree by one level and inserts a leaf.
fn grow<C: CurveCycle>(width: usize, node: Node<C>, leaf: C::G1) -> (r: (Node<C>, bool))
    ensures
        (node_view(r.0), r.1) == grow_model(node_view(node), width as nat, leaf),
{
    let ghost m = node_view(node);
    let even = match &node.hash {
        Hash::Even(_) => true,
        Hash::Odd(_) => false,
    };
    let (second, taken) = add_to_node(width, skeleton(&node), leaf);
    let mut siblings: Vec<Child<C>> = Vec::new();
    let mut k: usize = 2;
    while k < width
        invariant
            2 <= k,
            k <= width || width < 2,
            width < 2 ==> k == 2,
            m == node_view(node),
            siblings.len() == k - 2,
            forall|j: int|
                0 <= j < siblings.len() ==> child_view(#[trigger] siblings@[j]) == ChildModel::Node(
                    skeleton_model(m),
                ),
        decreases width - k,
    {
        siblings.push(Child::Node(skeleton(&node)));
        k += 1;
    }
    let mut children: Vec<Child<C>> = Vec::new();
    if width >= 1 {
        children.push(Child::Node(node));
    }
    if width >= 2 {
        children.push(Child::Node(second));
    }
    while siblings.len() > 0
        invariant
            children.len() + siblings.len() == width,
            width >= 2 || siblings.len() == 0,
            width >= 1 ==> children.len() >= 1 && child_view(children@[0]) == ChildModel::Node(m),
            width >= 2 ==> children.len() >= 2 && child_view(children@[1]) == ChildModel::Node(node_view(second)),
            forall|i: int| 2 <= i < children.len() ==> child_view(#[trigger] children@[i]) == ChildModel::Node(
                skeleton_model(m),
            ),
            forall|i: int|
                0 <= i < siblings.len() ==> child_view(#[trigger] siblings@[i]) == ChildModel::Node(
                    skeleton_model(m),
                ),
        decreases siblings.len(),
    {
        match siblings.pop() {
            Some(s) => children.push(s),
            None => {},
        }
    }
    let r = Node { hash: zero::<C>(!even), dirty: true, children };
    proof {
        lemma_node_view(r);
        assert(child_views(r.children@) =~= grow_model(m, width as nat, leaf).0.children);
    }
    (r, taken && width >= 2)
}


/// The Pedersen hash over the first curve: `sum x_i G_i`, with as many
/// generators as there are scalars. The time taken depends on the
/// scalars.
pub fn pedersen_hash1<C: CurveCycle>(elems: &Vec<C::F1>, generators: &Vec<C::G1>) -> (r: C::G1)
    requires
        elems@.len() <= generators@.len(),
    ensures
        r == pedersen1::<C>(elems@, generators@, elems@.len()),
{
    let mut acc = C::c1_identity();
    let mut i: usize = 0;
    while i < elems.len()
        invariant
            i <= elems.len() <= generators.len(),
            acc == pedersen1::<C>(elems@, generators@, i as nat),
        decreases elems.len() - i,
    {
        acc = C::c1_add(&acc, &C::c1_mul(&generators[i], &elems[i]));
        i += 1;
    }
    acc
}

/// The Pedersen hash over the second curve.
pub fn pedersen_hash2<C: CurveCycle>(elems: &Vec<C::F2>, generators: &Vec<C::G2>) -> (r: C::G2)
    requires
        elems@.len() <= generators@.len(),
    ensures
        r == pedersen2::<C>(elems@, generators@, elems@.len()),
{
    let mut acc = C::c2_identity();
    let mut i: usize = 0;
    while i < elems.len()
        invariant
            i <= elems.len() <= generators.len(),
            acc == pedersen2::<C>(elems@, generators@, i as nat),
        decreases elems.len() - i,
    {
        acc = C::c2_add(&acc, &C::c2_mul(&generators[i], &elems[i]));
        i += 1;
    }
    acc
}

fn collect_odd_coords<C: CurveCycle>(children: &Vec<Child<C>>) -> (r: Option<Vec<C::F1>>)
    ensures
        r is Some <==> children_are(child_views(children@), false, children@.len()),
        r is Some ==> r->Some_0@ == odd_coords::<C>(child_views(children@), children@.len()) && r->Some_0@.len()
            == 2 * children@.len(),
{
    let ghost views = child_views(children@);
    let mut out: Vec<C::F1> = Vec::new();
    let mut i: usize = 0;
    while i < children.len()
        invariant
            i <= children.len(),
            views == child_views(children@),
            children_are(views, false, i as nat),
            out@ == odd_coords::<C>(views, i as nat),
            out@.len() == 2 * i,
        decreases children.len() - i,
    {
        proof {
            assert(views[i as int] == child_view(children@[i as int]));
            lemma_node_child(children@[i as int]);
        }
        match &children[i] {
            Child::Leaf(_) => {
                assert(child_hash(views[i as int]) is Even);
                return None;
            },
            Child::Node(n) => match &n.hash {
                Hash::Even(_) => {
                    assert(child_hash(views[i as int]) is Even);
                    return None;
                },
                Hash::Odd(p) => {
                    let c = C::c2_coords(p);
                    out.push(c.0);
                    out.push(c.1);
                },
            },
        }
        i += 1;
    }
    Some(out)
}

fn collect_even_coords<C: CurveCycle>(children: &Vec<Child<C>>) -> (r: Option<Vec<C::F2>>)
    ensures
        r is Some <==> children_are(child_views(children@), true, children@.len()),
        r is Some ==> r->Some_0@ == even_coords::<C>(child_views(children@), children@.len()) && r->Some_0@.len()
            == 2 * children@.len(),
{
    let ghost views = child_views(children@);
    let mut out: Vec<C::F2> = Vec::new();
    let mut i: usize = 0;
    while i < children.len()
        invariant
            i <= children.len(),
            views == child_views(children@),
            children_are(views, true, i as nat),
            out@ == even_coords::<C>(views, i as nat),
            out@.len() == 2 * i,
        decreases children.len() - i,
    {
        proof {
            assert(views[i as int] == child_view(children@[i as int]));
            lemma_node_child(children@[i as int]);
        }
        let point = match &children[i] {
            Child::Leaf(p) => *p,
            Child::Node(n) => match &n.hash {
                Hash::Even(p) => *p,
                Hash::Odd(_) => {
                    assert(!(child_hash(views[i as int]) is Even));
                    return None;
                },
            },
        };
        let c = C::c1_coords(&point);
        out.push(c.0);
        out.push(c.1);
        i += 1;
    }
    Some(out)
}

/// The view of a child that is a node carries the node's hash.
pub proof fn lemma_node_child<C: CurveCycle>(child: Child<C>)
    ensures
        child is Node ==> child_hash(child_view(child)) == child->Node_0.hash,
        child is Leaf ==> child_hash(child_view(child)) == Hash::<C>::Even(child->Leaf_0),
{
    match child {
        Child::Leaf(_) => {},
        Child::Node(n) => {
            lemma_node_view(n);
        },
    }
}

/// Rehashes a node over its children as they are.
fn rehash<C: CurveCycle>(
    odd_generators: &Vec<Vec<C::G1>>,
    even_generators: &Vec<Vec<C::G2>>,
    node: &Node<C>,
) -> (r: Result<Hash<C>, TreeError>)
    ensures
        r == rehash_model(node_view(*node), odd_generators@, even_generators@),
{
    proof {
        lemma_node_view(*node);
    }
    let d = depth(node);
    match &node.hash {
        Hash::Even(_) => {
            let elems = match collect_odd_coords::<C>(&node.children) {
                Some(elems) => elems,
                None => {
                    return Err(TreeError::Malformed);
                },
            };
            let row = if d == 0 {
                0
            } else {
                (d - 1) / 2
            };
            if row >= odd_generators.len() || elems.len() > odd_generators[row].len() {
                return Err(TreeError::MissingGenerators);
            }
            Ok(Hash::Even(pedersen_hash1::<C>(&elems, &odd_generators[row])))
        },
        Hash::Odd(_) => {
            let elems = match collect_even_coords::<C>(&node.children) {
                Some(elems) => elems,
                None => {
                    return Err(TreeError::Malformed);
                },
            };
            let row = d / 2;
            if row >= even_generators.len() || elems.len() > even_generators[row].len() {
                return Err(TreeError::MissingGenerators);
            }
            Ok(Hash::Odd(pedersen_hash2::<C>(&elems, &even_generators[row])))
        },
    }
}

/// The clean pass.
fn clean<C: CurveCycle>(odd_generators: &Vec<Vec<C::G1>>, even_generators: &Vec<Vec<C::G2>>, node: Node<C>) -> (r:
    Result<Node<C>, TreeError>)
    ensures
        match r {
            Ok(n) => clean_model(node_view(node), odd_generators@, even_generators@) == Ok::<
                NodeModel<C>,
                TreeError,
            >(node_view(n)),
            Err(e) => clean_model(node_view(node), odd_generators@, even_generators@) == Err::<
                NodeModel<C>,
                TreeError,
            >(e),
        },
    decreases node,
{
    let ghost m = node_view(node);
    proof {
        lemma_node_view(node);
    }
    if !node.dirty {
        return Ok(node);
    }
    let Node { hash, dirty, mut children } = node;
    let mut i: usize = 0;
    proof {
        assert(child_views(children@.take(0)) =~= Seq::empty());
    }
    while i < children.len()
        invariant
            i <= children.len(),
            children@.len() == node.children@.len(),
            m == node_view(node),
            m.children == child_views(node.children@),
            m.dirty,
            forall|j: int| i <= j < children@.len() ==> children@[j] == node.children@[j],
            clean_children(m, odd_generators@, even_generators@, i as nat) == Ok::<
                Seq<ChildModel<C>>,
                TreeError,
            >(child_views(children@.take(i as int))),
        decreases children.len() - i,
    {
        let ghost before = children@;
        proof {
            assert(m.children[i as int] == child_view(before[i as int]));
        }
        let child = children.remove(i);
        match child {
            Child::Leaf(p) => {
                children.insert(i, Child::Leaf(p));
                proof {
                    assert(children@ =~= before);
                }
            },
            Child::Node(c) => {
                match clean(odd_generators, even_generators, c) {
                    Err(e) => {
                        proof {
                            lemma_clean_children_fails(
                                m,
                                odd_generators@,
                                even_generators@,
                                i as nat + 1,
                                m.children.len(),
                            );
                        }
                        return Err(e);
                    },
                    Ok(cleaned) => {
                        children.insert(i, Child::Node(cleaned));
                        proof {
                            assert(children@ =~= before.update(i as int, Child::Node(cleaned)));
                        }
                    },
                }
            },
        }
        proof {
            assert(children@.take(i as int) =~= before.take(i as int));
            assert(child_views(children@.take(i as int + 1)) =~= child_views(children@.take(i as int)).push(
                child_view(children@[i as int]),
            ));
        }
        i += 1;
    }
    proof {
        assert(children@.take(children@.len() as int) =~= children@);
    }
    let cleaned = Node { hash, dirty, children };
    proof {
        lemma_node_view(cleaned);
    }
    match rehash(odd_generators, even_generators, &cleaned) {
        Err(e) => Err(e),
        Ok(new_hash) => {
            let r = Node { hash: new_hash, dirty: false, children: cleaned.children };
            proof {
                lemma_node_view(r);
            }
            Ok(r)
        },
    }
}

/// A curve tree.
pub struct Tree<C: CurveCycle> {
    width: usize,
    odd_generators: Vec<Vec<C::G1>>,
    even_generators: Vec<Vec<C::G2>>,
    node: Node<C>,
}

impl<C: CurveCycle> Tree<C> {
    /// The width of the tree.
    pub closed spec fn width_model(&self) -> nat {
        self.width as nat
    }

    /// The root of the tree, as a value of contracts.
    pub closed spec fn root_model(&self) -> NodeModel<C> {
        node_view(self.node)
    }

    /// The rows of generators of the first curve, for the even nodes.
    pub closed spec fn odd_generators_model(&self) -> Seq<Vec<C::G1>> {
        self.odd_generators@
    }

    /// The rows of generators of the second curve, for the odd nodes.
    pub closed spec fn even_generators_model(&self) -> Seq<Vec<C::G2>> {
        self.even_generators@
    }

    /// An empty tree: its root is an odd node without children.
    pub fn new(width: usize, odd_generators: Vec<Vec<C::G1>>, even_generators: Vec<Vec<C::G2>>) -> (r: Tree<C>)
        requires
            width >= 2,
            forall|i: int| 0 <= i < odd_generators@.len() ==> (#[trigger] odd_generators@[i])@.len() == width * 2,
            forall|i: int| 0 <= i < even_generators@.len() ==> (#[trigger] even_generators@[i])@.len() == width * 2,
        ensures
            r.width_model() == width,
            r.root_model() == empty_model::<C>(false),
            r.odd_generators_model() == odd_generators@,
            r.even_generators_model() == even_generators@,
            spotless(r.root_model()),
    {
        Tree { width, odd_generators, even_generators, node: Node::new(false) }
    }

    /// The depth of the tree.
    pub fn depth(&self) -> (r: usize)
        ensures
            r == capped_depth(self.root_model()),
    {
        depth(&self.node)
    }

    /// The hash of the root of a tree in which the root is not dirty.
    pub fn root(&self) -> (r: Hash<C>)
        requires
            !self.root_model().dirty,
        ensures
            r == self.root_model().hash,
    {
        proof {
            lemma_node_view(self.node);
        }
        copy_hash(&self.node.hash)
    }

    /// Whether the root is dirty.
    pub fn is_dirty(&self) -> (r: bool)
        ensures
            r == self.root_model().dirty,
    {
        proof {
            lemma_node_view(self.node);
        }
        self.node.dirty
    }

    /// Adds leaves in order, growing the tree as it fills, and rehashes
    /// what changed. If a leaf finds no place or the rehash fails, the
    /// tree stays as it was.
    pub fn add_leaves(&mut self, leaves: &Vec<C::G1>) -> (r: Result<(), TreeError>)
        ensures
            final(self).width_model() == old(self).width_model(),
            final(self).odd_generators_model() == old(self).odd_generators_model(),
            final(self).even_generators_model() == old(self).even_generators_model(),
            spotless(old(self).root_model()) ==> spotless(final(self).root_model()),
            ({
                let added = add_leaves_model(old(self).root_model(), old(self).width_model(), leaves@, leaves@.len());
                let cleaned = clean_model(added.0, old(self).odd_generators_model(), old(self).even_generators_model());
                match r {
                    Ok(()) => added.1 && cleaned == Ok::<NodeModel<C>, TreeError>(final(self).root_model()),
                    Err(e) => final(self).root_model() == old(self).root_model() && (if added.1 {
                        cleaned == Err::<NodeModel<C>, TreeError>(e)
                    } else {
                        e == TreeError::Malformed
                    }),
                }
            }),
    {
        let ghost start = node_view(self.node);
        let backup = copy_node(&self.node);
        let mut node = Node::new(false);
        core::mem::swap(&mut self.node, &mut node);
        let mut i: usize = 0;
        while i < leaves.len()
            invariant
                i <= leaves.len(),
                self.width == old(self).width,
                self.odd_generators == old(self).odd_generators,
                self.even_generators == old(self).even_generators,
                start == node_view(old(self).node),
                node_view(backup) == start,
                (node_view(node), true) == add_leaves_model(start, self.width as nat, leaves@, i as nat),
            decreases leaves.len() - i,
        {
            let (next, taken) = add_to_node(self.width, node, leaves[i]);
            if taken {
                node = next;
            } else {
                let (grown, ok) = grow(self.width, next, leaves[i]);
                proof {
                    lemma_insert_refused(
                        add_leaves_model(start, self.width as nat, leaves@, i as nat).0,
                        self.width as nat,
                        leaves@[i as int],
                    );
                }
                if !ok {
                    proof {
                        lemma_add_leaves_fails(start, self.width as nat, leaves@, i as nat + 1, leaves@.len());
                    }
                    self.node = backup;
                    return Err(TreeError::Malformed);
                }
                node = grown;
            }
            i += 1;
        }
        proof {
            if spotless(start) {
                lemma_spotless_marked(start);
                lemma_add_leaves_marked(start, self.width as nat, leaves@, leaves@.len());
                if clean_model(node_view(node), self.odd_generators@, self.even_generators@) is Ok {
                    lemma_clean_spotless(node_view(node), self.odd_generators@, self.even_generators@);
                }
            }
        }
        match clean(&self.odd_generators, &self.even_generators, node) {
            Ok(cleaned) => {
                self.node = cleaned;
                Ok(())
            },
            Err(e) => {
                self.node = backup;
                Err(e)
            },
        }
    }
}

/// Once a leaf was not taken, no later leaf is added.
pub proof fn lemma_add_leaves_fails<C: CurveCycle>(node: NodeModel<C>, width: nat, leaves: Seq<C::G1>, n: nat, upto: nat)
    requires
        n <= upto,
        !add_leaves_model(node, width, leaves, n).1,
    ensures
        add_leaves_model(node, width, leaves, upto) == add_leaves_model(node, width, leaves, n),
    decreases upto - n,
{
    if n < upto {
        lemma_add_leaves_fails(node, width, leaves, n, (upto - 1) as nat);
    }
}


/// Whether dirt reaches the root: every dirty node below a node has a
/// dirty parent.
pub open spec fn marked<C: CurveCycle>(node: NodeModel<C>) -> bool
    decreases node,
{
    forall|i: int|
        0 <= i < node.children.len() ==> match #[trigger] node.children[i] {
            ChildModel::Leaf(_) => true,
            ChildModel::Node(c) => marked(c) && (c.dirty ==> node.dirty),
        }
}

/// Whether no node is dirty.
pub open spec fn spotless<C: CurveCycle>(node: NodeModel<C>) -> bool
    decreases node,
{
    !node.dirty && forall|i: int|
        0 <= i < node.children.len() ==> match #[trigger] node.children[i] {
            ChildModel::Leaf(_) => true,
            ChildModel::Node(c) => spotless(c),
        }
}

/// A tree without a dirty node is one in which dirt reaches the root.
pub proof fn lemma_spotless_marked<C: CurveCycle>(node: NodeModel<C>)
    requires
        spotless(node),
    ensures
        marked(node),
    decreases node,
{
    assert forall|i: int| 0 <= i < node.children.len() implies match #[trigger] node.children[i] {
        ChildModel::Leaf(_) => true,
        ChildModel::Node(c) => marked(c) && (c.dirty ==> node.dirty),
    } by {
        match node.children[i] {
            ChildModel::Leaf(_) => {},
            ChildModel::Node(c) => {
                lemma_spotless_marked(c);
            },
        }
    }
}

/// Insertion marks the way: in a tree in which dirt reaches the root, it
/// still does after a leaf was inserted, and the node that took the leaf,
/// itself or below, is dirty.
pub proof fn lemma_insert_marked<C: CurveCycle>(node: NodeModel<C>, width: nat, leaf: C::G1)
    requires
        marked(node),
    ensures
        marked(insert_model(node, width, leaf).0),
        insert_model(node, width, leaf).1 ==> insert_model(node, width, leaf).0.dirty,
    decreases node, node.children.len() + 1,
{
    if node.children.len() < width {
        let next = insert_model(node, width, leaf).0;
        assert forall|i: int| 0 <= i < next.children.len() implies match #[trigger] next.children[i] {
            ChildModel::Leaf(_) => true,
            ChildModel::Node(c) => marked(c) && (c.dirty ==> next.dirty),
        } by {
            if i < node.children.len() {
                assert(next.children[i] == node.children[i]);
            }
        }
    } else {
        lemma_insert_from_marked(node, width, leaf, 0);
    }
}

/// Insertion from child `i` on marks the way.
pub proof fn lemma_insert_from_marked<C: CurveCycle>(node: NodeModel<C>, width: nat, leaf: C::G1, i: nat)
    requires
        marked(node),
    ensures
        marked(insert_from(node, width, leaf, i).0),
        insert_from(node, width, leaf, i).1 ==> insert_from(node, width, leaf, i).0.dirty,
    decreases node, node.children.len() - i,
{
    if i < node.children.len() {
        match node.children[i as int] {
            ChildModel::Leaf(_) => {},
            ChildModel::Node(c) => {
                assert(marked(c));
                lemma_insert_marked(c, width, leaf);
                let (inner, taken) = insert_model(c, width, leaf);
                if taken {
                    let next = insert_from(node, width, leaf, i).0;
                    assert forall|k: int| 0 <= k < next.children.len() implies match #[trigger] next.children[k] {
                        ChildModel::Leaf(_) => true,
                        ChildModel::Node(d) => marked(d) && (d.dirty ==> next.dirty),
                    } by {
                        if k != i {
                            assert(next.children[k] == node.children[k]);
                        }
                    }
                } else {
                    lemma_insert_from_marked(node, width, leaf, i + 1);
                }
            },
        }
    }
}

/// A skeleton has no dirty node.
pub proof fn lemma_skeleton_spotless<C: CurveCycle>(node: NodeModel<C>)
    ensures
        spotless(skeleton_model(node)),
    decreases node, node.children.len() + 1,
{
    lemma_skeleton_children_spotless(node, node.children.len());
}

/// The skeletons of the first `n` children have no dirty node.
pub proof fn lemma_skeleton_children_spotless<C: CurveCycle>(node: NodeModel<C>, n: nat)
    ensures
        forall|i: int|
            0 <= i < skeleton_children(node, n).len() ==> match #[trigger] skeleton_children(node, n)[i] {
                ChildModel::Leaf(_) => true,
                ChildModel::Node(c) => spotless(c),
            },
    decreases node, n,
{
    if n > 0 && n <= node.children.len() {
        lemma_skeleton_children_spotless(node, (n - 1) as nat);
        match node.children[n - 1] {
            ChildModel::Leaf(_) => {},
            ChildModel::Node(c) => {
                lemma_skeleton_spotless(c);
            },
        }
    }
}

/// Adding a leaf marks the way.
pub proof fn lemma_add_leaf_marked<C: CurveCycle>(node: NodeModel<C>, width: nat, leaf: C::G1)
    requires
        marked(node),
    ensures
        marked(add_leaf_model(node, width, leaf).0),
{
    lemma_insert_marked(node, width, leaf);
    if !insert_model(node, width, leaf).1 {
        let sibling = skeleton_model(node);
        lemma_skeleton_spotless(node);
        lemma_spotless_marked(sibling);
        lemma_insert_marked(sibling, width, leaf);
        let next = grow_model(node, width, leaf).0;
        assert forall|i: int| 0 <= i < next.children.len() implies match #[trigger] next.children[i] {
            ChildModel::Leaf(_) => true,
            ChildModel::Node(c) => marked(c) && (c.dirty ==> next.dirty),
        } by {}
    }
}

/// Adding leaves marks the way.
pub proof fn lemma_add_leaves_marked<C: CurveCycle>(node: NodeModel<C>, width: nat, leaves: Seq<C::G1>, n: nat)
    requires
        marked(node),
    ensures
        marked(add_leaves_model(node, width, leaves, n).0),
    decreases n,
{
    if n > 0 {
        lemma_add_leaves_marked(node, width, leaves, (n - 1) as nat);
        let before = add_leaves_model(node, width, leaves, (n - 1) as nat);
        if before.1 {
            lemma_add_leaf_marked(before.0, width, leaves[n - 1]);
        }
    }
}

/// The clean pass leaves no dirty node in a tree in which dirt reaches
/// the root.
pub proof fn lemma_clean_spotless<C: CurveCycle>(
    node: NodeModel<C>,
    odd_generators: Seq<Vec<C::G1>>,
    even_generators: Seq<Vec<C::G2>>,
)
    requires
        marked(node),
        clean_model(node, odd_generators, even_generators) is Ok,
    ensures
        spotless(clean_model(node, odd_generators, even_generators)->Ok_0),
    decreases node, node.children.len() + 1,
{
    if !node.dirty {
        lemma_clean_not_dirty(node);
    } else {
        lemma_clean_children_spotless(node, odd_generators, even_generators, node.children.len());
    }
}

/// In a tree in which dirt reaches the root, a root that is not dirty has
/// no dirty node below it.
pub proof fn lemma_clean_not_dirty<C: CurveCycle>(node: NodeModel<C>)
    requires
        marked(node),
        !node.dirty,
    ensures
        spotless(node),
    decreases node,
{
    assert forall|i: int| 0 <= i < node.children.len() implies match #[trigger] node.children[i] {
        ChildModel::Leaf(_) => true,
        ChildModel::Node(c) => spotless(c),
    } by {
        match node.children[i] {
            ChildModel::Leaf(_) => {},
            ChildModel::Node(c) => {
                lemma_clean_not_dirty(c);
            },
        }
    }
}

/// The first `n` children, cleaned, have no dirty node.
pub proof fn lemma_clean_children_spotless<C: CurveCycle>(
    node: NodeModel<C>,
    odd_generators: Seq<Vec<C::G1>>,
    even_generators: Seq<Vec<C::G2>>,
    n: nat,
)
    requires
        marked(node),
        n <= node.children.len(),
        clean_children(node, odd_generators, even_generators, n) is Ok,
    ensures
        ({
            let cleaned = clean_children(node, odd_generators, even_generators, n)->Ok_0;
            &&& cleaned.len() == n
            &&& forall|i: int|
                0 <= i < n ==> match #[trigger] cleaned[i] {
                    ChildModel::Leaf(_) => true,
                    ChildModel::Node(c) => spotless(c),
                }
        }),
    decreases node, n,
{
    if n > 0 {
        lemma_clean_children_spotless(node, odd_generators, even_generators, (n - 1) as nat);
        match node.children[n - 1] {
            ChildModel::Leaf(_) => {},
            ChildModel::Node(c) => {
                assert(marked(c));
                lemma_clean_spotless(c, odd_generators, even_generators);
            },
        }
    }
}


/// Whether a node is balanced at depth `d`: at depth one it is an odd
/// node of at most `width` leaves; above, it has exactly `width` children,
/// all of them nodes balanced one level lower, and it is odd exactly if
/// its depth is.
pub open spec fn balanced<C: CurveCycle>(node: NodeModel<C>, width: nat, d: nat) -> bool
    decreases d,
{
    if d == 0 {
        false
    } else if d == 1 {
        &&& node.hash is Odd
        &&& node.children.len() <= width
        &&& forall|i: int| 0 <= i < node.children.len() ==> #[trigger] node.children[i] is Leaf
    } else {
        &&& (node.hash is Odd) == (d % 2 == 1)
        &&& node.children.len() == width
        &&& forall|i: int|
            0 <= i < node.children.len() ==> match #[trigger] node.children[i] {
                ChildModel::Leaf(_) => false,
                ChildModel::Node(c) => balanced(c, width, (d - 1) as nat),
            }
    }
}

/// Insertion keeps a balanced node balanced at its depth.
pub proof fn lemma_insert_balanced<C: CurveCycle>(node: NodeModel<C>, width: nat, d: nat, leaf: C::G1)
    requires
        balanced(node, width, d),
    ensures
        balanced(insert_model(node, width, leaf).0, width, d),
    decreases d, node.children.len() + 1,
{
    if node.children.len() < width {
        let next = insert_model(node, width, leaf).0;
        if d == 1 {
            assert forall|i: int| 0 <= i < next.children.len() implies #[trigger] next.children[i] is Leaf by {
                if i < node.children.len() {
                    assert(node.children[i] is Leaf);
                }
            }
        }
    } else {
        lemma_insert_from_balanced(node, width, d, leaf, 0);
    }
}

/// Insertion from child `i` on keeps a balanced node balanced at its
/// depth.
pub proof fn lemma_insert_from_balanced<C: CurveCycle>(node: NodeModel<C>, width: nat, d: nat, leaf: C::G1, i: nat)
    requires
        balanced(node, width, d),
        node.children.len() >= width,
    ensures
        balanced(insert_from(node, width, leaf, i).0, width, d),
    decreases d, node.children.len() - i,
{
    if i < node.children.len() {
        match node.children[i as int] {
            ChildModel::Leaf(_) => {},
            ChildModel::Node(c) => {
                assert(d > 1);
                assert(balanced(c, width, (d - 1) as nat));
                lemma_insert_balanced(c, width, (d - 1) as nat, leaf);
                let (inner, taken) = insert_model(c, width, leaf);
                if taken {
                    let next = insert_from(node, width, leaf, i).0;
                    assert forall|k: int| 0 <= k < next.children.len() implies match #[trigger] next.children[k] {
                        ChildModel::Leaf(_) => false,
                        ChildModel::Node(x) => balanced(x, width, (d - 1) as nat),
                    } by {
                        if k != i {
                            assert(next.children[k] == node.children[k]);
                        }
                    }
                } else {
                    lemma_insert_from_balanced(node, width, d, leaf, i + 1);
                }
            },
        }
    }
}

/// The skeleton of a balanced node is balanced at the same depth, and has
/// no children at depth one and `width` children above.
pub proof fn lemma_skeleton_balanced<C: CurveCycle>(node: NodeModel<C>, width: nat, d: nat)
    requires
        balanced(node, width, d),
    ensures
        balanced(skeleton_model(node), width, d),
        d == 1 ==> skeleton_model(node).children.len() == 0,
    decreases d, node.children.len() + 1,
{
    lemma_skeleton_children_balanced(node, width, d, node.children.len());
}

/// The skeletons of the first `n` children of a balanced node: none at
/// depth one; above, `n` nodes balanced one level lower.
pub proof fn lemma_skeleton_children_balanced<C: CurveCycle>(node: NodeModel<C>, width: nat, d: nat, n: nat)
    requires
        balanced(node, width, d),
        n <= node.children.len(),
    ensures
        d == 1 ==> skeleton_children(node, n).len() == 0,
        d > 1 ==> skeleton_children(node, n).len() == n && forall|i: int|
            0 <= i < n ==> match #[trigger] skeleton_children(node, n)[i] {
                ChildModel::Leaf(_) => false,
                ChildModel::Node(c) => balanced(c, width, (d - 1) as nat),
            },
    decreases d, n,
{
    if n > 0 {
        lemma_skeleton_children_balanced(node, width, d, (n - 1) as nat);
        match node.children[n - 1] {
            ChildModel::Leaf(_) => {
                assert(d == 1);
            },
            ChildModel::Node(c) => {
                assert(d > 1);
                lemma_skeleton_balanced(c, width, (d - 1) as nat);
            },
        }
    }
}

/// The skeleton of a balanced node has room: it takes a leaf.
pub proof fn lemma_skeleton_takes<C: CurveCycle>(node: NodeModel<C>, width: nat, d: nat, leaf: C::G1)
    requires
        width >= 1,
        balanced(node, width, d),
    ensures
        insert_model(skeleton_model(node), width, leaf).1,
    decreases d,
{
    lemma_skeleton_balanced(node, width, d);
    lemma_skeleton_children_balanced(node, width, d, node.children.len());
    let sk = skeleton_model(node);
    if d > 1 {
        assert(sk.children.len() == width);
        match node.children[0] {
            ChildModel::Leaf(_) => {},
            ChildModel::Node(c) => {
                lemma_skeleton_takes(c, width, (d - 1) as nat, leaf);
                lemma_skeleton_first(node, node.children.len());
                assert(sk.children[0] == ChildModel::Node(skeleton_model(c)));
            },
        }
    }
}

/// The first skeleton among the children of a node whose first child is a
/// node is the skeleton of that child.
pub proof fn lemma_skeleton_first<C: CurveCycle>(node: NodeModel<C>, n: nat)
    requires
        1 <= n <= node.children.len(),
        node.children[0] is Node,
    ensures
        skeleton_children(node, n).len() >= 1,
        skeleton_children(node, n)[0] == ChildModel::Node(skeleton_model(node.children[0]->Node_0)),
    decreases n,
{
    if n > 1 {
        lemma_skeleton_first(node, (n - 1) as nat);
        let before = skeleton_children(node, (n - 1) as nat);
        match node.children[n - 1] {
            ChildModel::Leaf(_) => {},
            ChildModel::Node(c) => {
                assert(before.push(ChildModel::Node(skeleton_model(c)))[0] == before[0]);
            },
        }
    } else {
        let c = node.children[0]->Node_0;
        assert(skeleton_children(node, 0) =~= Seq::<ChildModel<C>>::empty());
        assert(skeleton_children(node, 1) == skeleton_children(node, 0).push(ChildModel::Node(skeleton_model(c))));
    }
}

/// The tree stays balanced: a leaf added to a balanced tree is taken, and
/// leaves the tree balanced at its depth or one level higher.
pub proof fn lemma_add_leaf_balanced<C: CurveCycle>(node: NodeModel<C>, width: nat, d: nat, leaf: C::G1)
    requires
        width >= 2,
        balanced(node, width, d),
    ensures
        add_leaf_model(node, width, leaf).1,
        balanced(add_leaf_model(node, width, leaf).0, width, d) || balanced(
            add_leaf_model(node, width, leaf).0,
            width,
            d + 1,
        ),
{
    lemma_insert_balanced(node, width, d, leaf);
    if !insert_model(node, width, leaf).1 {
        let sibling = skeleton_model(node);
        lemma_skeleton_balanced(node, width, d);
        lemma_skeleton_takes(node, width, d, leaf);
        lemma_insert_balanced(sibling, width, d, leaf);
        let next = grow_model(node, width, leaf).0;
        assert forall|i: int| 0 <= i < next.children.len() implies match #[trigger] next.children[i] {
            ChildModel::Leaf(_) => false,
            ChildModel::Node(c) => balanced(c, width, d),
        } by {}
    }
}

/// Whether the leftmost path of a node ends in a leaf: the node has a
/// child, and if its first child is a node, so does that.
pub open spec fn rooted<C: CurveCycle>(node: NodeModel<C>) -> bool
    decreases node,
{
    node.children.len() >= 1 && match node.children[0] {
        ChildModel::Leaf(_) => true,
        ChildModel::Node(c) => rooted(c),
    }
}

/// A balanced node whose leftmost path ends in a leaf has the depth it is
/// balanced at.
pub proof fn lemma_balanced_depth<C: CurveCycle>(node: NodeModel<C>, width: nat, d: nat)
    requires
        balanced(node, width, d),
        rooted(node),
    ensures
        depth_model(node) == d,
    decreases d,
{
    if d > 1 {
        match node.children[0] {
            ChildModel::Leaf(_) => {},
            ChildModel::Node(c) => {
                assert(balanced(c, width, (d - 1) as nat));
                lemma_balanced_depth(c, width, (d - 1) as nat);
            },
        }
    } else {
        assert(node.children[0] is Leaf);
    }
}

/// Insertion keeps the leftmost path: a node that is empty or whose
/// leftmost path ends in a leaf has such a path after it took a leaf.
pub proof fn lemma_insert_rooted<C: CurveCycle>(node: NodeModel<C>, width: nat, leaf: C::G1)
    requires
        node.children.len() == 0 || rooted(node),
        insert_model(node, width, leaf).1,
    ensures
        rooted(insert_model(node, width, leaf).0),
    decreases node, node.children.len() + 1,
{
    if node.children.len() < width {
        let next = insert_model(node, width, leaf).0;
        if node.children.len() > 0 {
            assert(next.children[0] == node.children[0]);
        }
    } else {
        lemma_insert_from_rooted(node, width, leaf, 0);
    }
}

/// Insertion from child `i` on keeps the leftmost path.
pub proof fn lemma_insert_from_rooted<C: CurveCycle>(node: NodeModel<C>, width: nat, leaf: C::G1, i: nat)
    requires
        rooted(node),
        insert_from(node, width, leaf, i).1,
    ensures
        rooted(insert_from(node, width, leaf, i).0),
    decreases node, node.children.len() - i,
{
    if i < node.children.len() {
        match node.children[i as int] {
            ChildModel::Leaf(_) => {},
            ChildModel::Node(c) => {
                let (inner, taken) = insert_model(c, width, leaf);
                if taken {
                    let next = insert_from(node, width, leaf, i).0;
                    if i == 0 {
                        lemma_insert_rooted(c, width, leaf);
                    } else {
                        assert(next.children[0] == node.children[0]);
                    }
                } else {
                    lemma_insert_from_rooted(node, width, leaf, i + 1);
                }
            },
        }
    }
}

/// The depth of the tree is the level it is balanced at: a leaf added to
/// a balanced tree that is empty or whose leftmost path ends in a leaf
/// gives a tree whose depth is that level or the next.
pub proof fn lemma_add_leaf_depth<C: CurveCycle>(node: NodeModel<C>, width: nat, d: nat, leaf: C::G1)
    requires
        width >= 2,
        balanced(node, width, d),
        node.children.len() == 0 || rooted(node),
    ensures
        rooted(add_leaf_model(node, width, leaf).0),
        depth_model(add_leaf_model(node, width, leaf).0) == d || depth_model(
            add_leaf_model(node, width, leaf).0,
        ) == d + 1,
{
    lemma_add_leaf_balanced(node, width, d, leaf);
    let next = add_leaf_model(node, width, leaf).0;
    if insert_model(node, width, leaf).1 {
        lemma_insert_rooted(node, width, leaf);
    } else {
        assert(node.children.len() >= width);
        assert(next.children[0] == ChildModel::Node(node));
    }
    if balanced(next, width, d) {
        lemma_balanced_depth(next, width, d);
    } else {
        lemma_balanced_depth(next, width, d + 1);
    }
}


/// In a balanced node the kinds alternate: the children of an odd node
/// are even, and the children of an even node are odd.
pub proof fn lemma_balanced_children<C: CurveCycle>(node: NodeModel<C>, width: nat, d: nat)
    requires
        balanced(node, width, d),
    ensures
        children_are(node.children, node.hash is Odd, node.children.len()),
{
    assert forall|i: int| 0 <= i < node.children.len() implies (#[trigger] child_hash(node.children[i]) is Even) == (
    node.hash is Odd) by {
        match node.children[i] {
            ChildModel::Leaf(_) => {
                assert(d == 1);
            },
            ChildModel::Node(c) => {
                assert(d > 1);
                assert(balanced(c, width, (d - 1) as nat));
                if d == 2 {
                    assert(c.hash is Odd);
                }
            },
        }
    }
}

/// The clean pass keeps a balanced tree balanced, and fails on it only
/// for want of generators.
pub proof fn lemma_clean_balanced<C: CurveCycle>(
    node: NodeModel<C>,
    width: nat,
    d: nat,
    odd_generators: Seq<Vec<C::G1>>,
    even_generators: Seq<Vec<C::G2>>,
)
    requires
        balanced(node, width, d),
    ensures
        match clean_model(node, odd_generators, even_generators) {
            Ok(cleaned) => balanced(cleaned, width, d),
            Err(e) => e == TreeError::MissingGenerators,
        },
    decreases d, node.children.len() + 1,
{
    if node.dirty {
        lemma_clean_children_balanced(node, width, d, odd_generators, even_generators, node.children.len());
        match clean_children(node, odd_generators, even_generators, node.children.len()) {
            Err(_) => {},
            Ok(children) => {
                let cleaned = NodeModel { children, ..node };
                assert(balanced(cleaned, width, d));
                lemma_balanced_children(cleaned, width, d);
            },
        }
    }
}

/// The first `n` children of a balanced node, cleaned, are as the
/// children of a balanced node are.
pub proof fn lemma_clean_children_balanced<C: CurveCycle>(
    node: NodeModel<C>,
    width: nat,
    d: nat,
    odd_generators: Seq<Vec<C::G1>>,
    even_generators: Seq<Vec<C::G2>>,
    n: nat,
)
    requires
        balanced(node, width, d),
        n <= node.children.len(),
    ensures
        match clean_children(node, odd_generators, even_generators, n) {
            Ok(children) => {
                &&& children.len() == n
                &&& forall|i: int|
                    0 <= i < n ==> match #[trigger] children[i] {
                        ChildModel::Leaf(_) => d == 1,
                        ChildModel::Node(c) => d > 1 && balanced(c, width, (d - 1) as nat),
                    }
            },
            Err(e) => e == TreeError::MissingGenerators,
        },
    decreases d, n,
{
    if n > 0 {
        lemma_clean_children_balanced(node, width, d, odd_generators, even_generators, (n - 1) as nat);
        match node.children[n - 1] {
            ChildModel::Leaf(_) => {
                assert(d == 1);
            },
            ChildModel::Node(c) => {
                assert(d > 1);
                assert(balanced(c, width, (d - 1) as nat));
                lemma_clean_balanced(c, width, (d - 1) as nat, odd_generators, even_generators);
            },
        }
    }
}

} // verus!
