use threshold_core::tree::{pedersen_hash1, pedersen_hash2, CurveCycle, Tree, TreeError};

// A toy cycle: both groups are integers modulo a small prime under addition,
// and the coordinates of a point are two numbers derived from it.
const FIRST_MODULUS: u64 = 1_000_003;
const SECOND_MODULUS: u64 = 998_244_353;

struct Toy;

impl CurveCycle for Toy {
    type G1 = u64;
    type F1 = u64;
    type G2 = u64;
    type F2 = u64;

    fn identity1() -> u64 {
        unreachable!()
    }
    fn add1(_: u64, _: u64) -> u64 {
        unreachable!()
    }
    fn mul1(_: u64, _: u64) -> u64 {
        unreachable!()
    }
    fn identity2() -> u64 {
        unreachable!()
    }
    fn add2(_: u64, _: u64) -> u64 {
        unreachable!()
    }
    fn mul2(_: u64, _: u64) -> u64 {
        unreachable!()
    }
    fn coords1(_: u64) -> (u64, u64) {
        unreachable!()
    }
    fn coords2(_: u64) -> (u64, u64) {
        unreachable!()
    }

    fn c1_identity() -> u64 {
        0
    }
    fn c1_add(a: &u64, b: &u64) -> u64 {
        (a + b) % FIRST_MODULUS
    }
    fn c1_mul(p: &u64, s: &u64) -> u64 {
        (p % FIRST_MODULUS) * (s % FIRST_MODULUS) % FIRST_MODULUS
    }
    fn c2_identity() -> u64 {
        0
    }
    fn c2_add(a: &u64, b: &u64) -> u64 {
        (a + b) % SECOND_MODULUS
    }
    fn c2_mul(p: &u64, s: &u64) -> u64 {
        (p % SECOND_MODULUS) * (s % SECOND_MODULUS) % SECOND_MODULUS
    }
    fn c1_coords(p: &u64) -> (u64, u64) {
        (p * 3 + 1, p * 5 + 2)
    }
    fn c2_coords(p: &u64) -> (u64, u64) {
        (p * 7 + 3, p * 11 + 4)
    }
}

fn odd_generators() -> Vec<Vec<u64>> {
    vec![(1..=8).map(|i| 1000 + i).collect(), (1..=8).map(|i| 2000 + i).collect()]
}

fn even_generators() -> Vec<Vec<u64>> {
    vec![(1..=8).map(|i| 3000 + i).collect(), (1..=8).map(|i| 4000 + i).collect()]
}

fn tree() -> Tree<Toy> {
    Tree::new(4, odd_generators(), even_generators())
}

fn odd(h: threshold_core::tree::Hash<Toy>) -> u64 {
    match h {
        threshold_core::tree::Hash::Odd(p) => p,
        threshold_core::tree::Hash::Even(_) => panic!("expected an odd hash"),
    }
}

fn even(h: threshold_core::tree::Hash<Toy>) -> u64 {
    match h {
        threshold_core::tree::Hash::Even(p) => p,
        threshold_core::tree::Hash::Odd(_) => panic!("expected an even hash"),
    }
}

// The hash of a node of leaves.
fn leaves_hash(leaves: &[u64]) -> u64 {
    let mut elems = vec![];
    for leaf in leaves {
        let (x, y) = Toy::c1_coords(leaf);
        elems.push(x);
        elems.push(y);
    }
    pedersen_hash2::<Toy>(&elems, &even_generators()[0])
}

#[test]
fn pedersen_hash_is_the_weighted_sum() {
    assert_eq!(pedersen_hash1::<Toy>(&vec![], &vec![5, 6]), 0);
    assert_eq!(pedersen_hash1::<Toy>(&vec![2, 3], &vec![5, 6, 7]), 2 * 5 + 3 * 6);
    assert_eq!(pedersen_hash2::<Toy>(&vec![4], &vec![9]), 36);
}

#[test]
fn empty_tree() {
    let t = tree();
    assert_eq!(t.depth(), 0);
    assert!(!t.is_dirty());
    assert_eq!(odd(t.root()), 0);
}

#[test]
fn one_level() {
    let mut t = tree();
    assert_eq!(t.add_leaves(&vec![11, 22, 33]), Ok(()));
    assert_eq!(t.depth(), 1);
    assert!(!t.is_dirty());
    assert_eq!(odd(t.root()), leaves_hash(&[11, 22, 33]));
    // Adding in two steps gives the same tree as adding at once.
    assert_eq!(t.add_leaves(&vec![44]), Ok(()));
    assert_eq!(odd(t.root()), leaves_hash(&[11, 22, 33, 44]));
    assert_eq!(t.depth(), 1);
}

#[test]
fn curve_tree_growth() {
    let leaves = vec![101u64, 202, 303, 404, 505];
    let mut t = tree();
    assert_eq!(t.add_leaves(&leaves), Ok(()));
    assert_eq!(t.depth(), 2);
    let root = even(t.root());
    assert!(root != 0);

    // The root commits to the coordinates of its four children: the old root, the node
    // with the fifth leaf, and two empty nodes whose hash is the identity.
    let children = [leaves_hash(&leaves[..4]), leaves_hash(&leaves[4..]), 0, 0];
    let mut elems = vec![];
    for child in children {
        let (x, y) = Toy::c2_coords(&child);
        elems.push(x);
        elems.push(y);
    }
    assert_eq!(root, pedersen_hash1::<Toy>(&elems, &odd_generators()[0]));
}

#[test]
fn three_levels() {
    let mut t = tree();
    let leaves: Vec<u64> = (1..=17).collect();
    assert_eq!(t.add_leaves(&leaves), Ok(()));
    assert_eq!(t.depth(), 3);
    assert!(!t.is_dirty());

    // Rebuilt by hand: sixteen leaves fill the first subtree of depth two.
    let subtree = |leaves: &[u64]| {
        let mut elems = vec![];
        for k in 0..4 {
            let lo = (4 * k).min(leaves.len());
            let hi = (4 * k + 4).min(leaves.len());
            let child = if lo == hi { 0 } else { leaves_hash(&leaves[lo..hi]) };
            let (x, y) = Toy::c2_coords(&child);
            elems.push(x);
            elems.push(y);
        }
        pedersen_hash1::<Toy>(&elems, &odd_generators()[0])
    };
    let children = [subtree(&leaves[..16]), subtree(&leaves[16..]), 0, 0];
    let mut elems = vec![];
    for child in children {
        let (x, y) = Toy::c1_coords(&child);
        elems.push(x);
        elems.push(y);
    }
    assert_eq!(odd(t.root()), pedersen_hash2::<Toy>(&elems, &even_generators()[1]));
}

#[test]
fn missing_generators_leave_the_tree_as_it_was() {
    let mut t: Tree<Toy> = Tree::new(4, vec![], even_generators());
    assert_eq!(t.add_leaves(&vec![1, 2, 3, 4]), Ok(()));
    let before = odd(t.root());
    assert_eq!(t.add_leaves(&vec![5]), Err(TreeError::MissingGenerators));
    assert_eq!(t.depth(), 1);
    assert_eq!(odd(t.root()), before);
}
