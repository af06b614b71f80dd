use honey_badger::codec::decode_all;
use std::collections::BTreeMap;

fn bytes(text: &str) -> Vec<u8> {
    text.as_bytes().to_vec()
}

#[test]
fn decodes_every_proposal_in_the_order_of_the_proposers() {
    let mut output: BTreeMap<u64, Vec<u8>> = BTreeMap::new();
    output.insert(9, bincode::serialize(&vec![bytes("x")]).unwrap());
    output.insert(2, bincode::serialize(&vec![bytes("b"), bytes("a")]).unwrap());
    output.insert(5, bincode::serialize(&Vec::<Vec<u8>>::new()).unwrap());
    let proposals = decode_all(&output).unwrap();
    assert_eq!(proposals, vec![vec![bytes("b"), bytes("a")], vec![], vec![bytes("x")]]);
}

#[test]
fn decodes_the_encoding_byte_by_byte() {
    let mut output: BTreeMap<u64, Vec<u8>> = BTreeMap::new();
    output.insert(
        0,
        vec![
            2, 0, 0, 0, 0, 0, 0, 0, // two transactions
            1, 0, 0, 0, 0, 0, 0, 0, 97, // "a"
            2, 0, 0, 0, 0, 0, 0, 0, 98, 99, // "bc"
        ],
    );
    let proposals = decode_all(&output).unwrap();
    assert_eq!(proposals, vec![vec![bytes("a"), bytes("bc")]]);
}

#[test]
fn empty_output_decodes_to_no_proposal() {
    let output: BTreeMap<u64, Vec<u8>> = BTreeMap::new();
    assert_eq!(decode_all(&output).unwrap(), Vec::<Vec<Vec<u8>>>::new());
}

#[test]
fn one_undecodable_proposal_fails_the_output() {
    let mut output: BTreeMap<u64, Vec<u8>> = BTreeMap::new();
    output.insert(1, bincode::serialize(&vec![bytes("a")]).unwrap());
    output.insert(2, vec![1, 2, 3]);
    output.insert(3, bincode::serialize(&vec![bytes("b")]).unwrap());
    assert!(decode_all(&output).is_err());
}

#[test]
fn truncated_proposal_is_refused() {
    let mut whole = bincode::serialize(&vec![bytes("abc"), bytes("de")]).unwrap();
    whole.pop();
    let mut output: BTreeMap<u64, Vec<u8>> = BTreeMap::new();
    output.insert(4, whole);
    assert!(decode_all(&output).is_err());
}
