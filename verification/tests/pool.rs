use bincode::serde::{deserialize, SerializeError};
use crypto::sha2::Sha256;
use hashsign::utils::RandomSource;
use hashsign::{HashSign, HashVerify, Key, SignError, Tree, TreeBin, VerifyError};
use std::marker::PhantomData;
use rand::Rng;

fn sha(data: &[u8]) -> Vec<u8> {
    <Sha256 as hashsign::utils::Hash>::hash(data)
}

fn random_input(len: usize) -> Vec<u8> {
    rand::OsRng::new().unwrap().gen_iter().take(len).collect::<Vec<u8>>()
}

#[test]
fn test_hashsign() {
    let data = random_input(32);

    let mut hashsign = HashSign::<Sha256>::new(4, &mut rand::OsRng::new().unwrap());
    let hashverify = HashVerify::<Sha256>::new(&hashsign.public_export());

    let sign = hashsign.sign(&data, &mut rand::OsRng::new().unwrap()).unwrap();

    assert!(hashverify.verify(&sign, &data).unwrap());
}

#[test]
fn test_hashsign_choose() {
    let data = random_input(32);

    let mut hashsign = HashSign::<Sha256>::new(4, &mut rand::OsRng::new().unwrap());
    let hashverify = HashVerify::<Sha256>::new(&hashsign.public_export());

    let (otk, treebin) = hashsign.choose_sign(&mut rand::OsRng::new().unwrap()).unwrap();
    let otpk = otk.public().export().unwrap();
    let sign = otk.sign(&data).unwrap();

    assert!(hashverify.choose_verify(&treebin, &otpk).unwrap());

    let pk = Key::<Sha256>::from(&otpk).unwrap();
    assert!(pk.verify(&sign, &data).unwrap());
}

#[test]
fn hello_is_accepted_and_hello_bang_is_not() {
    let mut pool = HashSign::<Sha256>::new(2, &mut rand::OsRng::new().unwrap());
    assert_eq!(pool.remaining(), 4);
    let root = pool.public_export();
    assert_eq!(root.len(), 32);
    let blob = pool.sign(b"hello", &mut rand::OsRng::new().unwrap()).unwrap();
    let verifier = HashVerify::<Sha256>::new(&root);
    assert!(matches!(verifier.verify(&blob, b"hello"), Ok(true)));
    assert!(matches!(verifier.verify(&blob, b"hello!"), Ok(false)));
}

#[test]
fn pool_of_level_two_signs_four_times() {
    let mut pool = HashSign::<Sha256>::new(2, &mut rand::OsRng::new().unwrap());
    let verifier = HashVerify::<Sha256>::new(&pool.public_export());
    let mut used: Vec<Vec<u8>> = Vec::new();
    for round in 0..4 {
        assert_eq!(pool.remaining(), 4 - round);
        let blob = pool.sign(b"data", &mut rand::OsRng::new().unwrap()).unwrap();
        assert!(verifier.verify(&blob, b"data").unwrap());
        let parts: (Vec<u8>, Vec<u8>, Vec<u8>) = deserialize(&blob).unwrap();
        assert!(!used.contains(&parts.1));
        used.push(parts.1);
    }
    assert_eq!(pool.remaining(), 0);
    assert!(matches!(pool.sign(b"data", &mut rand::OsRng::new().unwrap()), Err(SignError::Null)));
    assert!(matches!(pool.choose_sign(&mut rand::OsRng::new().unwrap()), Err(SignError::Null)));
    assert_eq!(pool.remaining(), 0);
}

#[test]
fn pool_of_level_zero_has_one_key() {
    let mut pool = HashSign::<Sha256>::new(0, &mut rand::OsRng::new().unwrap());
    assert_eq!(pool.remaining(), 1);
    let root = pool.public_export();
    let (otk, path) = pool.choose_sign(&mut rand::OsRng::new().unwrap()).unwrap();
    assert_eq!(root, sha(&otk.public().export().unwrap()));
    assert_eq!(TreeBin::decode(&path).unwrap().to_tree().hash::<Sha256>(), root);
    assert!(matches!(pool.choose_sign(&mut rand::OsRng::new().unwrap()), Err(SignError::Null)));
}

#[test]
fn take_issues_the_key_behind_its_leaf() {
    let mut pool = HashSign::<Sha256>::new(3, &mut rand::OsRng::new().unwrap());
    let root = pool.public_export();
    let verifier = HashVerify::<Sha256>::new(&root);
    let (otk, path) = pool.take(5);
    assert_eq!(pool.remaining(), 7);
    assert_eq!(pool.public_export(), root);
    let otpk = otk.public().export().unwrap();
    assert!(verifier.choose_verify(&path, &otpk).unwrap());
    let tree = TreeBin::decode(&path).unwrap().to_tree();
    assert_eq!(tree.hash::<Sha256>(), root);
    assert!(tree.vals().unwrap().contains(&sha(&otpk)));
    let (other, _) = pool.take(5);
    assert!(other != otk);
}

#[test]
fn sign_at_bundles_path_key_and_signature() {
    let mut pool = HashSign::<Sha256>::new(1, &mut rand::OsRng::new().unwrap());
    let root = pool.public_export();
    let blob = pool.sign_at(1, b"hello");
    assert_eq!(pool.remaining(), 1);
    let parts: (Vec<u8>, Vec<u8>, Vec<u8>) = deserialize(&blob).unwrap();
    let verifier = HashVerify::<Sha256>::new(&root);
    assert!(verifier.choose_verify(&parts.0, &parts.1).unwrap());
    let pk = Key::<Sha256>::from(&parts.1).unwrap();
    assert_eq!(pk.0.len(), 32);
    assert!(pk.verify(&parts.2, b"hello").unwrap());
    assert!(verifier
        .verify_parts(&parts.0, &parts.1, &parts.2, b"hello")
        .unwrap());
    assert!(!verifier
        .verify_parts(&parts.0, &parts.1, &parts.2, b"hullo")
        .unwrap());
}

#[test]
fn verifier_of_another_root_refuses() {
    let mut pool = HashSign::<Sha256>::new(1, &mut rand::OsRng::new().unwrap());
    let mut other = HashSign::<Sha256>::new(1, &mut rand::OsRng::new().unwrap());
    let verifier = HashVerify::<Sha256>::new(&other.public_export());
    let blob = pool.sign(b"hello", &mut rand::OsRng::new().unwrap()).unwrap();
    assert!(matches!(verifier.verify(&blob, b"hello"), Ok(false)));
    let mine = HashVerify::<Sha256>::new(&pool.public_export());
    let (otk, _) = other.choose_sign(&mut rand::OsRng::new().unwrap()).unwrap();
    let (_, path) = pool.choose_sign(&mut rand::OsRng::new().unwrap()).unwrap();
    assert!(matches!(
        mine.choose_verify(&path, &otk.public().export().unwrap()),
        Ok(false)
    ));
}

#[test]
fn unreadable_bytes_are_errors_and_no_verdict() {
    let mut pool = HashSign::<Sha256>::new(1, &mut rand::OsRng::new().unwrap());
    let verifier = HashVerify::<Sha256>::new(&pool.public_export());
    assert!(matches!(
        verifier.verify(&[1, 2, 3], b"hello"),
        Err(VerifyError::BinCode(_))
    ));
    let (otk, path) = pool.choose_sign(&mut rand::OsRng::new().unwrap()).unwrap();
    let otpk = otk.public().export().unwrap();
    assert!(matches!(
        verifier.choose_verify(&path[..path.len() - 1], &otpk),
        Err(VerifyError::Tree)
    ));
    let sign = otk.sign(b"hello").unwrap();
    assert!(matches!(
        verifier.verify_parts(&[9, 9], &otpk, &sign, b"hello"),
        Err(VerifyError::Tree)
    ));
    assert!(matches!(
        verifier.verify_parts(&path, &otpk[..40], &sign, b"hello"),
        Err(VerifyError::BinCode(_))
    ));
    assert!(matches!(
        verifier.verify_parts(&path, &otpk, &sign[..40], b"hello"),
        Err(VerifyError::BinCode(_))
    ));
    assert!(matches!(
        verifier.verify_parts(&path, &otpk, &sign, b"hello"),
        Ok(true)
    ));
}

#[test]
fn bincode_errors_become_errors_of_the_library() {
    assert!(matches!(
        SignError::from(SerializeError::SizeLimit),
        SignError::BinCode(SerializeError::SizeLimit)
    ));
    let unread = deserialize::<(Vec<u8>, Vec<u8>, Vec<u8>)>(&[0]).unwrap_err();
    assert!(matches!(VerifyError::from(unread), VerifyError::BinCode(_)));
}

#[test]
fn clones_keep_root_and_unused_keys() {
    let mut pool = HashSign::<Sha256>::new(1, &mut rand::OsRng::new().unwrap());
    let _ = pool.sign(b"first", &mut rand::OsRng::new().unwrap()).unwrap();
    let mut copy = pool.clone();
    assert_eq!(copy.remaining(), 1);
    assert_eq!(copy.public_export(), pool.public_export());
    let verifier = HashVerify::<Sha256>::new(&pool.public_export()).clone();
    let blob = copy.sign(b"second", &mut rand::OsRng::new().unwrap()).unwrap();
    assert!(verifier.verify(&blob, b"second").unwrap());
    assert_eq!(pool.remaining(), 1);
    assert!(matches!(copy.sign(b"third", &mut rand::OsRng::new().unwrap()), Err(SignError::Null)));
}

#[test]
fn a_node_over_one_leaf_is_no_path() {
    let pk = b"some key bytes";
    let leaf = sha(pk);
    let path = Tree::Node(vec![Tree::Leaf(leaf.clone())]);
    let verifier = HashVerify::<Sha256>::new(&sha(&leaf));
    assert_eq!(path.hash::<Sha256>(), sha(&leaf));
    assert!(matches!(
        verifier.choose_verify(&path.to_bin().encode(), pk),
        Ok(false)
    ));
    let wide = Tree::Node(vec![
        Tree::Leaf(leaf.clone()),
        Tree::Leaf(leaf.clone()),
        Tree::Leaf(leaf.clone()),
    ]);
    let verifier = HashVerify::<Sha256>::new(&wide.hash::<Sha256>());
    assert!(matches!(
        verifier.choose_verify(&wide.to_bin().encode(), pk),
        Ok(false)
    ));
    let short = Tree::Leaf(vec![1, 2, 3]);
    let verifier = HashVerify::<Sha256>::new(&[1, 2, 3]);
    assert!(matches!(
        verifier.choose_verify(&short.to_bin().encode(), pk),
        Ok(false)
    ));
    let two = Tree::Node(vec![Tree::Leaf(leaf.clone()), Tree::Leaf(sha(b"other"))]);
    let verifier = HashVerify::<Sha256>::new(&two.hash::<Sha256>());
    assert!(matches!(
        verifier.choose_verify(&two.to_bin().encode(), pk),
        Ok(true)
    ));
}

#[test]
fn a_key_of_another_size_is_an_error_of_its_own() {
    let mut pool = HashSign::<Sha256>::new(1, &mut rand::OsRng::new().unwrap());
    let verifier = HashVerify::<Sha256>::new(&pool.public_export());
    let (otk, path) = pool.take(0);
    let sign = otk.sign(b"hello").unwrap();
    let short: Key<Sha256> = Key(otk.public().0[..31].to_vec(), PhantomData);
    assert!(matches!(
        verifier.verify_parts(&path, &short.export().unwrap(), &sign, b"hello"),
        Err(VerifyError::Key)
    ));
    let cut: Key<Sha256> = Key(otk.sign_pairs(b"hello")[..31].to_vec(), PhantomData);
    assert!(matches!(
        verifier.verify_parts(
            &path,
            &otk.public().export().unwrap(),
            &cut.export().unwrap(),
            b"hello"
        ),
        Ok(false)
    ));
}

#[test]
fn from_keys_builds_the_pool_of_the_given_keys() {
    let mut rng = rand::OsRng::new().unwrap();
    let keys: Vec<Key<Sha256>> = (0..4).map(|_| Key::new(&mut rng)).collect();
    let leaves: Vec<Vec<u8>> = keys
        .iter()
        .map(|key| sha(&key.public().export().unwrap()))
        .collect();
    let pair = |a: &[u8], b: &[u8]| sha(&[a, b].concat());
    let root = pair(&pair(&leaves[0], &leaves[1]), &pair(&leaves[2], &leaves[3]));
    let mut pool = HashSign::from_keys(keys.clone());
    assert_eq!(pool.remaining(), 4);
    assert_eq!(pool.public_export(), root);
    let (otk, path) = pool.take(2);
    assert!(otk == keys[2]);
    let tree = TreeBin::decode(&path).unwrap().to_tree();
    assert_eq!(tree.vals(), Some(vec![leaves[2].clone(), leaves[3].clone()]));
    let (otk, _) = pool.take(2);
    assert!(otk == keys[3]);
}

#[test]
fn the_generator_gives_what_was_asked_for() {
    let mut rng = rand::OsRng::new().unwrap();
    assert_eq!(rng.random_bytes(0).len(), 0);
    assert_eq!(rng.random_bytes(77).len(), 77);
    assert_ne!(rng.random_bytes(32), rng.random_bytes(32));
    assert_eq!(rng.random_index(1), 0);
    let mut seen = [false; 3];
    for _ in 0..300 {
        seen[rng.random_index(3)] = true;
    }
    assert_eq!(seen, [true; 3]);
}

#[test]
fn a_blob_is_its_three_parts_with_their_lengths() {
    let mut rng = rand::OsRng::new().unwrap();
    let keys: Vec<Key<Sha256>> = (0..2).map(|_| Key::new(&mut rng)).collect();
    let mut pool = HashSign::from_keys(keys.clone());
    let root = pool.public_export();
    let blob = pool.sign_at(1, b"hello");
    let path = pool_path(&keys, 1);
    let otpk = keys[1].public().export().unwrap();
    let sign = keys[1].sign(b"hello").unwrap();
    let mut expected = Vec::new();
    for part in [&path, &otpk, &sign] {
        expected.extend_from_slice(&(part.len() as u64).to_be_bytes());
        expected.extend_from_slice(part);
    }
    assert_eq!(blob, expected);
    assert!(HashVerify::<Sha256>::new(&root).verify(&blob, b"hello").unwrap());
    let mut longer = blob.clone();
    longer.extend_from_slice(&[1, 2, 3]);
    assert!(HashVerify::<Sha256>::new(&root).verify(&longer, b"hello").unwrap());
    assert!(matches!(
        HashVerify::<Sha256>::new(&root).verify(&blob[..blob.len() - 1], b"hello"),
        Err(VerifyError::BinCode(_))
    ));
}

fn pool_path(keys: &[Key<Sha256>], index: usize) -> Vec<u8> {
    let leaves = keys
        .iter()
        .map(|key| Tree::Leaf(sha(&key.public().export().unwrap())))
        .collect();
    let (path, _) = Tree::build(leaves).select::<Sha256>(index).unwrap();
    path.to_bin().encode()
}

#[test]
fn every_key_of_a_pool_signs_and_none_twice() {
    let mut rng = rand::OsRng::new().unwrap();
    let mut pool = HashSign::<Sha256>::new(3, &mut rng);
    let verifier = HashVerify::<Sha256>::new(&pool.public_export());
    let mut seen: Vec<Vec<u8>> = Vec::new();
    for round in 0..8 {
        let message = vec![round as u8; 5];
        let blob = pool.sign(&message, &mut rng).unwrap();
        assert!(matches!(verifier.verify(&blob, &message), Ok(true)));
        assert!(matches!(verifier.verify(&blob, b"another"), Ok(false)));
        let parts: (Vec<u8>, Vec<u8>, Vec<u8>) = deserialize(&blob).unwrap();
        assert!(!seen.contains(&parts.1));
        seen.push(parts.1);
    }
    assert!(matches!(pool.sign(b"late", &mut rng), Err(SignError::Null)));
}
