//! The encoding of proposals.
//!
//! A proposal travels through the common subset as one byte string, which
//! `bincode` makes out of the list of its transactions. This module holds the
//! calls into `bincode`, and the decoding of a whole common-subset output.

use crate::batch::proposal_lists;
use crate::batch::proposed;
use crate::transaction_set::byte_strings;
use std::collections::BTreeMap;
use vstd::prelude::*;
use vstd::std_specs::iter::IteratorSpec;

verus! {

/// The error type of `bincode`, which this crate only hands on.
#[verifier::external_type_specification]
#[verifier::external_body]
pub struct ExErrorKind(bincode::ErrorKind);

/// What `bincode::serialize` makes of a list of byte strings: the encoding,
/// or `None` where it reports an error.
pub uninterp spec fn bincode_serialized(txs: Seq<Seq<u8>>) -> Option<Seq<u8>>;

/// What `bincode::deserialize` reads out of `bytes` as a list of byte strings,
/// or `None` where it reports an error.
pub uninterp spec fn bincode_deserialized(bytes: Seq<u8>) -> Option<Seq<Seq<u8>>>;

/// Calls `bincode::serialize` on a list of transactions. Nothing is claimed of
/// the encoding but that it depends on the transactions alone.
#[verifier::external_body]
pub(crate) fn serialize(txs: &Vec<Vec<u8>>) -> (r: Result<Vec<u8>, Box<bincode::ErrorKind>>)
    ensures
        bincode_serialized(byte_strings(txs@)) == match r {
            Ok(bytes) => Some(bytes@),
            Err(_) => None,
        },
{
    bincode::serialize(txs)
}

/// Calls `bincode::deserialize` to read a list of transactions. Nothing is
/// claimed of the outcome but that it depends on the bytes alone.
#[verifier::external_body]
pub(crate) fn deserialize(bytes: &Vec<u8>) -> (r: Result<Vec<Vec<u8>>, Box<bincode::ErrorKind>>)
    ensures
        bincode_deserialized(bytes@) == match r {
            Ok(txs) => Some(byte_strings(txs@)),
            Err(_) => None,
        },
{
    bincode::deserialize(bytes.as_slice())
}

/// Every proposal of the common-subset output `output` can be decoded.
pub open spec fn decodable(output: Map<u64, Vec<u8>>) -> bool {
    forall|id: u64| #[trigger] output.contains_key(id) ==> bincode_deserialized(output[id]@) is Some
}

/// The transactions that the proposals of `output` hold once decoded.
pub open spec fn decoded_transactions(output: Map<u64, Vec<u8>>) -> Set<Seq<u8>> {
    Set::new(
        |tx: Seq<u8>|
            exists|id: u64|
                {
                    &&& #[trigger] output.contains_key(id)
                    &&& bincode_deserialized(output[id]@) is Some
                    &&& bincode_deserialized(output[id]@)->Some_0.contains(tx)
                },
    )
}

/// Decodes the proposals of a common-subset output, in the order of their
/// proposers. One proposal that cannot be decoded fails the whole output.
pub fn decode_all(output: &BTreeMap<u64, Vec<u8>>) -> (r: Result<
    Vec<Vec<Vec<u8>>>,
    Box<bincode::ErrorKind>,
>)
    ensures
        r is Ok <==> decodable(output@),
        r is Ok ==> proposed(proposal_lists(r->Ok_0@)) == decoded_transactions(output@),
{
    broadcast use vstd::std_specs::btree::group_btree_axioms;

    let mut proposals: Vec<Vec<Vec<u8>>> = Vec::new();
    let ghost keys = vstd::std_specs::btree::spec_keys_iter(output).remaining();
    for id in it: output.keys()
        invariant
            it.seq() == keys,
            keys.unref().to_set() == output@.dom(),
            proposals@.len() == it.index(),
            forall|i: int|
                0 <= i < it.index() ==> bincode_deserialized(output@[*#[trigger] keys[i]]@) == Some(
                    proposal_lists(proposals@)[i],
                ),
    {
        assert(keys.unref()[it.index()] == *id);
        assert(keys.unref().to_set().contains(*id));
        let ser = output.get(id).unwrap();
        match deserialize(ser) {
            Ok(txs) => {
                proposals.push(txs);
            },
            Err(err) => {
                return Err(err);
            },
        }
    }
    proof {
        let lists = proposal_lists(proposals@);
        assert forall|id: u64| #[trigger] output@.contains_key(id) implies exists|i: int|
            0 <= i < keys.len() && *#[trigger] keys[i] == id by {
            assert(keys.unref().to_set().contains(id));
            let i: int = choose|i: int| 0 <= i < keys.unref().len() && keys.unref()[i] == id;
            assert(*keys[i] == id);
        }
        assert forall|tx: Seq<u8>| proposed(lists).contains(tx) <==> decoded_transactions(
            output@,
        ).contains(tx) by {
            if proposed(lists).contains(tx) {
                let i: int = choose|i: int| 0 <= i < lists.len() && #[trigger] lists[i].contains(tx);
                assert(keys.unref()[i] == *keys[i]);
                assert(keys.unref().to_set().contains(*keys[i]));
                assert(output@.contains_key(*keys[i]));
            }
            if decoded_transactions(output@).contains(tx) {
                let id: u64 = choose|id: u64|
                    {
                        &&& #[trigger] output@.contains_key(id)
                        &&& bincode_deserialized(output@[id]@) is Some
                        &&& bincode_deserialized(output@[id]@)->Some_0.contains(tx)
                    };
                let i: int = choose|i: int| 0 <= i < keys.len() && *#[trigger] keys[i] == id;
                assert(lists[i].contains(tx));
            }
        }
        assert(proposed(lists) =~= decoded_transactions(output@));
    }
    Ok(proposals)
}

} // verus!
