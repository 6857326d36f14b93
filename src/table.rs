//! Layout of index keys: `'t' | table id | "_i" | index id | datums`.

use vstd::prelude::*;
use crate::error::Error;
use crate::number::{be_bytes, comparable_of, encode_comparable, write_be_u64};

verus! {

pub const TABLE_PREFIX: u8 = 116;  // b't'
pub const SEP_FIRST: u8 = 95;  // b'_'
pub const INDEX_SEP: u8 = 105;  // b'i'
/// Length of `'t' | table id | "_i"`.
pub const PREFIX_LEN: usize = 11;
/// Length of an encoded table or index id.
pub const ID_LEN: usize = 8;

/// `key` has the shape of an index key, with room for the index id.
pub open spec fn is_index_key(key: Seq<u8>) -> bool {
    &&& key.len() >= PREFIX_LEN + ID_LEN
    &&& key[0] == TABLE_PREFIX
    &&& key[9] == SEP_FIRST
    &&& key[10] == INDEX_SEP
}

/// What follows the index id in an index key.
pub open spec fn key_payload(key: Seq<u8>) -> Seq<u8> {
    key.skip((PREFIX_LEN + ID_LEN) as int)
}

/// The key that seeks to `data` within index `index_id` of table `table_id`.
pub open spec fn index_seek_key(table_id: i64, index_id: i64, data: Seq<u8>) -> Seq<u8> {
    seq![TABLE_PREFIX] + be_bytes(comparable_of(table_id) as nat, 8) + seq![SEP_FIRST, INDEX_SEP]
        + be_bytes(comparable_of(index_id) as nat, 8) + data
}

/// Checks that `key` has the shape of an index key.
pub fn check_index_key(key: &[u8]) -> (r: Result<(), Error>)
    ensures
        r is Ok <==> is_index_key(key@),
        r is Err ==> r == Err::<(), Error>(Error::InvalidIndexKey),
{
    if key.len() < PREFIX_LEN + ID_LEN {
        return Err(Error::InvalidIndexKey);
    }
    if key[0] != TABLE_PREFIX || key[9] != SEP_FIRST || key[10] != INDEX_SEP {
        return Err(Error::InvalidIndexKey);
    }
    Ok(())
}

/// Builds the key that seeks to `data` within an index.
pub fn encode_index_seek_key(table_id: i64, index_id: i64, data: &[u8]) -> (r: Vec<u8>)
    ensures
        r@ == index_seek_key(table_id, index_id, data@),
{
    let mut key: Vec<u8> = Vec::new();
    key.push(TABLE_PREFIX);
    write_be_u64(&mut key, encode_comparable(table_id));
    key.push(SEP_FIRST);
    key.push(INDEX_SEP);
    write_be_u64(&mut key, encode_comparable(index_id));
    let ghost mid = key@;
    let n: usize = data.len();
    let mut i: usize = 0;
    while i < n
        invariant
            i <= n == data@.len(),
            key@ == mid + data@.subrange(0, i as int),
        decreases n - i,
    {
        key.push(data[i]);
        assert(data@.subrange(0, i + 1) == data@.subrange(0, i as int).push(data@[i as int]));
        i = i + 1;
    }
    assert(data@.subrange(0, n as int) == data@);
    key
}

/// A seek key has the shape of an index key, and its payload is the data.
pub proof fn lemma_seek_key_shape(table_id: i64, index_id: i64, data: Seq<u8>)
    ensures
        is_index_key(index_seek_key(table_id, index_id, data)),
        key_payload(index_seek_key(table_id, index_id, data)) == data,
{
    let k = index_seek_key(table_id, index_id, data);
    let a = be_bytes(comparable_of(table_id) as nat, 8);
    let b = be_bytes(comparable_of(index_id) as nat, 8);
    lemma_be_bytes_len(comparable_of(table_id) as nat, 8);
    lemma_be_bytes_len(comparable_of(index_id) as nat, 8);
    assert(k[0] == TABLE_PREFIX);
    assert(k[9] == SEP_FIRST);
    assert(k[10] == INDEX_SEP);
    assert(k.skip(19) =~= data);
}

pub proof fn lemma_be_bytes_len(x: nat, w: nat)
    ensures
        be_bytes(x, w).len() == w,
    decreases w,
{
    if w > 0 {
        lemma_be_bytes_len(x / 256, (w - 1) as nat);
    }
}

} // verus!
