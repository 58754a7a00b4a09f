use huffcode::HuffcodeError;
use huffcode::HuffmanCode;
use huffcode::HuffmanTree;
use huffcode::Node;

#[test]
fn hufftree() {
    let string = "Testing huffman coding (most efficient single-character lossless text compression) implemented in rust. Here's some random sample text:\
	asdtwadj,srfewkhjnvisht g auihregiwulhstguhlnwysetifdbiuhsfdnvx oahwrgfdxo;hlaywgrfdx rsghfxdb phbregp8 ohuktrohxvc ouhfkb upil4atbr gfdxuiplkb rshofuk 4sroh ubutckyrzex tr 5stdryctv 6diftuyg p7gluibypglu o6f8utvsutrxcf 75exytrcvd6vbf96ogykny80h;oip7t9 glyi75d r6a4 yserxh8o gily8p;ohui fthvb68oguybjhhuk oehfdsnzvclihtnagrfvpgilh5shfilkgsfdibk grfcy5 gsrfxdb kh,jgrsf oxlb,grsfvxce sr8gdvzolhi5wgsfvohkb sgfxhuib sgf h y50hw8ausgrft hgpyujsfdv ogr7jsufv rsgfhvcg olywarsfzv d;h8oiw5 sepfdxh;un tshdxpf hu;nk htd\
".to_string();

    let ht = HuffmanTree::construct(string.clone());
    let mut code = ht.encode(string.clone()).ok().unwrap();

    assert_eq!(Ok(string), ht.decode(&mut code));
}

#[test]
fn round_trip_mixed_text() {
    let s = "abracadabra alakazam".to_string();
    let tree = HuffmanTree::construct(s.clone());
    let mut code = tree.encode(s.clone()).unwrap();
    assert_eq!(Ok(s), tree.decode(&mut code));
}

#[test]
fn round_trip_two_symbols() {
    let s = "ababbabab".to_string();
    let tree = HuffmanTree::construct(s.clone());
    let mut code = tree.encode(s.clone()).unwrap();
    assert_eq!(Ok(s), tree.decode(&mut code));
}

#[test]
fn single_symbol_degenerate_tree() {
    let tree = HuffmanTree::construct("aaaa".to_string());
    assert!(matches!(tree.root, Node::Leaf('a')));

    // The lone symbol's path is empty.
    let path = tree.find('a').unwrap();
    assert_eq!(path.vec(), Vec::<bool>::new());

    // Encoding the corpus yields no bits.
    let code = tree.encode("aaaa".to_string()).unwrap();
    assert_eq!(code.vec(), Vec::<bool>::new());

    // Decoding an empty bit sequence yields the empty string, not "aaaa".
    let mut empty = HuffmanCode::new();
    assert_eq!(Ok(String::new()), tree.decode(&mut empty));
}

#[test]
fn empty_corpus_sentinel() {
    let tree = HuffmanTree::construct(String::new());
    assert!(matches!(tree.root, Node::Leaf('\0')));
    assert_eq!(Err(HuffcodeError(0)), tree.find('a'));
}

#[test]
fn unindexed_symbol_find_fails() {
    let tree = HuffmanTree::construct("aaabbc".to_string());
    assert_eq!(Err(HuffcodeError(0)), tree.find('z'));
}

#[test]
fn unindexed_symbol_encode_fails() {
    let tree = HuffmanTree::construct("aaabbc".to_string());
    assert_eq!(Err(HuffcodeError(0)), tree.encode("az".to_string()));
}

#[test]
fn unindexed_symbol_encode_sanitized_skips() {
    let tree = HuffmanTree::construct("aaabbc".to_string());
    let sanitized = tree.encode_sanitized("azzzb".to_string());
    let plain = tree.encode("ab".to_string()).unwrap();
    assert_eq!(sanitized.vec(), plain.vec());
}

#[test]
fn stream_exhausted_mid_path() {
    let tree = HuffmanTree::construct("aaabbc".to_string());
    // One 'false' bit routes into the two-symbol subtree and then the
    // stream ends before any leaf is reached.
    let mut truncated = HuffmanCode::from_bits(vec![false]);
    assert_eq!(Err(HuffcodeError(1)), tree.decode(&mut truncated));
}

#[test]
fn construction_deterministic() {
    let t1 = HuffmanTree::construct("the same corpus".to_string());
    let t2 = HuffmanTree::construct("the same corpus".to_string());
    assert_eq!(t1, t2);
}

#[test]
fn concrete_scenario_aaabbc() {
    let tree = HuffmanTree::construct("aaabbc".to_string());

    let a = tree.find('a').unwrap().vec();
    let b = tree.find('b').unwrap().vec();
    let c = tree.find('c').unwrap().vec();

    assert_eq!(a.len(), 1);
    assert_eq!(b.len(), 2);
    assert_eq!(c.len(), 2);

    // The two 2-bit paths differ only in their last bit.
    assert_eq!(b[0], c[0]);
    assert_ne!(b[1], c[1]);

    // With the earliest-entry tie-break: 'b'(2) and 'c'(1) merge first with
    // 'c' on the left, then 'a'(3) joins on the left of the root.
    assert_eq!(a, vec![true]);
    assert_eq!(c, vec![false, true]);
    assert_eq!(b, vec![false, false]);

    let mut code = tree.encode("aaabbc".to_string()).unwrap();
    assert_eq!(Ok("aaabbc".to_string()), tree.decode(&mut code));
}

#[test]
fn byte_to_bits_msb_first() {
    let code = HuffmanCode::from_bytes(vec![0b10110000]);
    assert_eq!(
        code.vec(),
        vec![true, false, true, true, false, false, false, false]
    );
}

#[test]
fn byte_to_bits_two_bytes() {
    let code = HuffmanCode::from_bytes(vec![0xFF, 0x01]);
    let bits = code.vec();
    assert_eq!(bits.len(), 16);
    assert_eq!(&bits[0..8], &[true; 8]);
    assert_eq!(
        &bits[8..16],
        &[false, false, false, false, false, false, false, true]
    );
}

#[test]
fn next_reads_in_order_and_exhausts() {
    let mut code = HuffmanCode::new();
    assert!(code.exhausted());
    assert_eq!(Err(HuffcodeError(1)), code.next());

    code.push(true);
    code.push(false);
    assert!(!code.exhausted());
    assert_eq!(Ok(true), code.next());
    assert_eq!(Ok(false), code.next());
    assert!(code.exhausted());
    assert_eq!(Err(HuffcodeError(1)), code.next());
}

#[test]
fn extend_appends_without_moving_cursor() {
    let mut code = HuffmanCode::from_bits(vec![true]);
    assert_eq!(Ok(true), code.next());
    assert!(code.exhausted());

    code.extend(vec![false, true]);
    assert!(!code.exhausted());
    assert_eq!(Ok(false), code.next());
    assert_eq!(Ok(true), code.next());
    assert!(code.exhausted());
}

#[test]
fn node_get_and_traverse() {
    let tree = HuffmanTree::construct("aaabbc".to_string());

    let path_b = tree.root.get('b').unwrap();
    assert_eq!(path_b, vec![false, false]);
    assert_eq!(Err(HuffcodeError(0)), tree.root.get('z'));

    let mut code = HuffmanCode::from_bits(vec![false, true, true]);
    assert_eq!(Ok('c'), tree.root.traverse(&mut code));
    assert_eq!(Ok('a'), tree.root.traverse(&mut code));
    assert!(code.exhausted());
}

#[test]
fn error_messages() {
    assert_eq!("not found", HuffcodeError(0).message());
    assert_eq!("stream exhausted", HuffcodeError(1).message());
    assert_eq!("unknown error", HuffcodeError(7).message());
}

#[test]
fn construct_multi_counts_all_strings() {
    let tree = HuffmanTree::construct_multi(vec!["aaa".to_string(), "bbc".to_string()]);
    let single = HuffmanTree::construct("aaabbc".to_string());
    assert_eq!(tree, single);
}

#[test]
fn clone_is_structurally_equal() {
    let tree = HuffmanTree::construct("aaabbc".to_string());
    assert_eq!(tree, tree.clone());
}

#[test]
fn decode_leaves_cursor_at_end() {
    let tree = HuffmanTree::construct("aaabbc".to_string());
    let mut code = tree.encode("cab".to_string()).unwrap();
    assert_eq!(Ok("cab".to_string()), tree.decode(&mut code));
    assert!(code.exhausted());
}
