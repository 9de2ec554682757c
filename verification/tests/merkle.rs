use crypto::sha2::Sha256;
use hashsign::merkle::{Tree, TreeBin};
use rand::Rng;

fn sha(data: &[u8]) -> Vec<u8> {
    <Sha256 as hashsign::utils::Hash>::hash(data)
}

fn random(len: usize) -> Vec<u8> {
    rand::OsRng::new().unwrap().gen_iter().take(len).collect::<Vec<u8>>()
}

fn two_level_root(a: &[u8], b: &[u8], c: &[u8], d: &[u8]) -> Vec<u8> {
    sha(
        &[
            sha(&[sha(a), sha(b)].concat()),
            sha(&[sha(c), sha(d)].concat()),
        ]
        .concat(),
    )
}

#[test]
fn test_tree() {
    let mut root = Tree::node();
    let (a, b, c, d) = (random(32), random(32), random(32), random(32));

    let node1 = Tree::Node(vec![Tree::leaf::<Sha256>(&a), Tree::leaf::<Sha256>(&b)]);
    let node2 = Tree::Node(vec![Tree::leaf::<Sha256>(&c), Tree::leaf::<Sha256>(&d)]);

    assert_eq!(
        root.push(node1).push(node2).hash::<Sha256>(),
        two_level_root(&a, &b, &c, &d)
    );
}

#[test]
fn test_tree_build() {
    let (a, b, c, d) = (random(32), random(32), random(32), random(32));

    assert_eq!(
        Tree::build(
            [&a, &b, &c, &d]
                .iter()
                .map(|leaf| Tree::leaf::<Sha256>(leaf))
                .collect()
        )
        .hash::<Sha256>(),
        two_level_root(&a, &b, &c, &d)
    );
}

#[test]
fn test_tree_choose() {
    let leafs = [random(32), random(32), random(32), random(32)];
    let root = Tree::build(leafs.iter().map(|leaf| Tree::Leaf(leaf.clone())).collect());

    let (val_root, val) = root.choose_leaf::<Sha256, _>(&mut rand::OsRng::new().unwrap());

    assert_eq!(root.hash::<Sha256>(), val_root.hash::<Sha256>());
    assert!(leafs.iter().find(|&leaf| leaf == &val).is_some());
}

#[test]
fn test_treebin() {
    let root = Tree::build(
        [random(32), random(32), random(32), random(32)]
            .iter()
            .map(|leaf| Tree::leaf::<Sha256>(leaf))
            .collect(),
    );

    let treebin: TreeBin = root.clone().into();
    let bin = treebin.encode();
    let treebin: TreeBin = TreeBin::decode(&bin).unwrap();
    let bin_root: Tree = treebin.into();

    assert_eq!(root.hash::<Sha256>(), bin_root.hash::<Sha256>());
}

#[test]
fn test_tree_vals() {
    let leafs = [random(32), random(32), random(32), random(32)];
    let root = Tree::build(leafs.iter().map(|leaf| Tree::Leaf(leaf.clone())).collect());

    let (val_root, val) = root.choose_leaf::<Sha256, _>(&mut rand::OsRng::new().unwrap());

    assert!(val_root.vals().map_or(false, |vals| vals.contains(&val)));
}

#[test]
fn leaf_holds_the_digest_of_its_data() {
    let tree = Tree::leaf::<Sha256>(b"abc");
    assert!(tree.is_leaf());
    assert_eq!(tree.hash::<Sha256>(), sha(b"abc"));
    assert_eq!(tree.vals(), Some(vec![sha(b"abc")]));
}

#[test]
fn node_starts_empty_and_is_no_leaf() {
    let mut node = Tree::node();
    assert!(!node.is_leaf());
    assert_eq!(node.hash::<Sha256>(), sha(&[]));
    assert_eq!(node.vals(), Some(Vec::<Vec<u8>>::new()));
    node.push(Tree::Leaf(vec![7]));
    assert_eq!(node.hash::<Sha256>(), sha(&[7]));
    assert_eq!(node.vals(), Some(vec![vec![7u8]]));
}

#[test]
fn build_of_one_leaf_is_that_leaf() {
    let tree = Tree::build(vec![Tree::Leaf(vec![1, 2, 3])]);
    assert!(tree.is_leaf());
    assert_eq!(tree.hash::<Sha256>(), vec![1, 2, 3]);
}

#[test]
fn build_keeps_the_order_of_the_leaves() {
    let leafs: Vec<Vec<u8>> = (0u8..8).map(|i| vec![i; 4]).collect();
    let tree = Tree::build(leafs.iter().map(|leaf| Tree::Leaf(leaf.clone())).collect());
    for (i, leaf) in leafs.iter().enumerate() {
        let (_, found) = tree.select::<Sha256>(i).unwrap();
        assert_eq!(&found, leaf);
    }
    let h = |a: &[u8], b: &[u8]| sha(&[a, b].concat());
    let l1: Vec<Vec<u8>> = (0..4).map(|i| h(&leafs[2 * i], &leafs[2 * i + 1])).collect();
    let l2 = [h(&l1[0], &l1[1]), h(&l1[2], &l1[3])];
    assert_eq!(tree.hash::<Sha256>(), h(&l2[0], &l2[1]));
}

#[test]
fn select_gives_the_pruned_path_of_each_leaf() {
    let leafs: Vec<Vec<u8>> = (0u8..4).map(|i| vec![i + 1; 32]).collect();
    let tree = Tree::build(leafs.iter().map(|leaf| Tree::Leaf(leaf.clone())).collect());
    let top = tree.hash::<Sha256>();
    let pair = |a: &[u8], b: &[u8]| sha(&[a, b].concat());
    for i in 0..4 {
        let (path, leaf) = tree.select::<Sha256>(i).unwrap();
        assert_eq!(leaf, leafs[i]);
        assert_eq!(path.hash::<Sha256>(), top);
        let low = (i / 2) * 2;
        assert_eq!(
            path.vals(),
            Some(vec![leafs[low].clone(), leafs[low + 1].clone()])
        );
        let other = if i < 2 {
            pair(&leafs[2], &leafs[3])
        } else {
            pair(&leafs[0], &leafs[1])
        };
        match path {
            Tree::Node(children) => {
                assert_eq!(children.len(), 2);
                let collapsed = if i < 2 { &children[1] } else { &children[0] };
                assert!(collapsed.is_leaf());
                assert_eq!(collapsed.hash::<Sha256>(), other);
            }
            Tree::Leaf(_) => panic!("the path of a tree of four leaves is a node"),
        }
    }
}

#[test]
fn select_past_the_last_leaf_counts_the_leaves() {
    let tree = Tree::build((0u8..4).map(|i| Tree::Leaf(vec![i])).collect());
    assert!(matches!(tree.select::<Sha256>(4), Err(4)));
    assert!(matches!(tree.select::<Sha256>(100), Err(4)));
    assert!(matches!(Tree::Leaf(vec![9]).select::<Sha256>(1), Err(1)));
    assert!(matches!(Tree::node().select::<Sha256>(0), Err(0)));
}

#[test]
fn vals_goes_down_by_the_first_node() {
    let path = Tree::Node(vec![
        Tree::Leaf(vec![1]),
        Tree::Node(vec![Tree::Leaf(vec![2]), Tree::Leaf(vec![3])]),
        Tree::Node(vec![Tree::Leaf(vec![4]), Tree::Leaf(vec![5])]),
    ]);
    assert_eq!(path.vals(), Some(vec![vec![2u8], vec![3u8]]));
}

#[test]
fn choose_leaf_reaches_every_leaf_in_time() {
    let leafs: Vec<Vec<u8>> = (0u8..4).map(|i| vec![i; 32]).collect();
    let tree = Tree::build(leafs.iter().map(|leaf| Tree::Leaf(leaf.clone())).collect());
    let mut seen = [false; 4];
    let mut rng = rand::OsRng::new().unwrap();
    for _ in 0..400 {
        let (path, leaf) = tree.choose_leaf::<Sha256, _>(&mut rng);
        assert_eq!(path.hash::<Sha256>(), tree.hash::<Sha256>());
        seen[leaf[0] as usize] = true;
    }
    assert_eq!(seen, [true; 4]);
}

#[test]
fn clone_keeps_the_tree() {
    let tree = Tree::build((0u8..4).map(|i| Tree::Leaf(vec![i; 3])).collect());
    assert_eq!(tree.clone().hash::<Sha256>(), tree.hash::<Sha256>());
    assert_eq!(tree.duplicate().to_bin().encode(), tree.to_bin().encode());
}

#[test]
fn encode_writes_tag_count_and_body() {
    assert_eq!(
        TreeBin::Leaf(vec![1, 2]).encode(),
        vec![0, 0, 0, 1, 0, 0, 0, 0, 0, 0, 0, 2, 1, 2]
    );
    assert_eq!(
        TreeBin::Node(vec![TreeBin::Leaf(vec![9]), TreeBin::Leaf(vec![])]).encode(),
        vec![
            0, 0, 0, 0, 0, 0, 0, 0, 0, 0, 0, 2, 0, 0, 0, 1, 0, 0, 0, 0, 0, 0, 0, 1, 9, 0, 0, 0,
            1, 0, 0, 0, 0, 0, 0, 0, 0
        ]
    );
    let long = TreeBin::Leaf(vec![5; 258]).encode();
    assert_eq!(&long[..12], &[0, 0, 0, 1, 0, 0, 0, 0, 0, 0, 1, 2]);
    assert_eq!(long.len(), 12 + 258);
}

#[test]
fn decode_reads_back_what_encode_wrote() {
    let tree = TreeBin::Node(vec![
        TreeBin::Node(vec![TreeBin::Leaf(vec![1; 32]), TreeBin::Leaf(vec![2; 32])]),
        TreeBin::Leaf(vec![3; 32]),
    ]);
    let bytes = tree.encode();
    let back = TreeBin::decode(&bytes).unwrap();
    assert_eq!(back.encode(), bytes);
    assert_eq!(
        back.to_tree().hash::<Sha256>(),
        tree.to_tree().hash::<Sha256>()
    );
    let mut appended = Vec::new();
    back.encode_into(&mut appended);
    back.encode_into(&mut appended);
    assert_eq!(appended, [bytes.clone(), bytes.clone()].concat());
    let (first, end) = TreeBin::decode_at(&appended, 0).unwrap();
    assert_eq!(end, bytes.len());
    assert_eq!(first.encode(), bytes);
    let (second, end) = TreeBin::decode_at(&appended, end).unwrap();
    assert_eq!(end, appended.len());
    assert_eq!(second.encode(), bytes);
}

#[test]
fn decode_refuses_what_is_no_tree() {
    assert!(TreeBin::decode(&[]).is_none());
    assert!(TreeBin::decode(&[0, 0, 0, 1, 0, 0, 0, 0, 0, 0, 0]).is_none());
    assert!(TreeBin::decode(&[0, 0, 0, 2, 0, 0, 0, 0, 0, 0, 0, 0]).is_none());
    assert!(TreeBin::decode(&[0, 1, 0, 1, 0, 0, 0, 0, 0, 0, 0, 0]).is_none());
    assert!(TreeBin::decode(&[0, 0, 0, 1, 0, 0, 0, 0, 0, 0, 0, 3, 1, 2]).is_none());
    assert!(TreeBin::decode(&[0, 0, 0, 0, 0, 0, 0, 0, 0, 0, 0, 1]).is_none());
    assert!(TreeBin::decode(&[0, 0, 0, 0, 255, 255, 255, 255, 255, 255, 255, 255]).is_none());
    assert!(TreeBin::decode(&[0, 0, 0, 1, 255, 255, 255, 255, 255, 255, 255, 255, 1]).is_none());
}

#[test]
fn decode_leaves_what_follows_the_tree() {
    let tree = TreeBin::decode(&[0, 0, 0, 1, 0, 0, 0, 0, 0, 0, 0, 1, 7, 8, 9]).unwrap();
    assert_eq!(tree.encode(), vec![0, 0, 0, 1, 0, 0, 0, 0, 0, 0, 0, 1, 7]);
    let empty = TreeBin::decode(&[0, 0, 0, 0, 0, 0, 0, 0, 0, 0, 0, 0]).unwrap();
    assert_eq!(empty.to_tree().vals(), Some(Vec::<Vec<u8>>::new()));
}

#[test]
fn proper_trees_have_two_children_and_whole_digests() {
    let leaf = |b: u8| Tree::Leaf(vec![b; 32]);
    assert!(leaf(1).is_proper::<Sha256>());
    assert!(Tree::Node(vec![leaf(1), leaf(2)]).is_proper::<Sha256>());
    assert!(Tree::Node(vec![leaf(1), Tree::Node(vec![leaf(2), leaf(3)])]).is_proper::<Sha256>());
    assert!(!Tree::Node(vec![leaf(1)]).is_proper::<Sha256>());
    assert!(!Tree::Node(vec![leaf(1), leaf(2), leaf(3)]).is_proper::<Sha256>());
    assert!(!Tree::node().is_proper::<Sha256>());
    assert!(!Tree::Leaf(vec![1; 31]).is_proper::<Sha256>());
    assert!(!Tree::Node(vec![leaf(1), Tree::Leaf(vec![])]).is_proper::<Sha256>());
    assert!(!Tree::Node(vec![leaf(1), Tree::Node(vec![leaf(2)])]).is_proper::<Sha256>());
    let tree = Tree::build((0u8..8).map(leaf).collect());
    assert!(tree.is_proper::<Sha256>());
    let (path, _) = tree.select::<Sha256>(5).unwrap();
    assert!(path.is_proper::<Sha256>());
}
