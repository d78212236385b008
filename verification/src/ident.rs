//! Player identifiers on the wire.
//!
//! An identifier is a 128-bit number. It travels as a byte string of its own:
//! the length, sixteen, as a 64-bit integer, then the sixteen bytes, most
//! significant first. A list of identifiers travels as its length, as a 64-bit
//! integer, and the identifiers one after another.

use crate::bytes::{
    be_bytes, be_value, get_be, get_count, get_le, le_bytes, le_value, lemma_be_bytes_len,
    lemma_be_bytes_of_value, lemma_be_value_bound, lemma_be_value_of_bytes, lemma_le_bytes_len,
    lemma_le_bytes_of_value, lemma_le_value_of_bytes, lemma_radix_values, parse_count, put_be,
    put_le,
};
use crate::error::DecodeError;
use vstd::prelude::*;

verus! {

/// The bytes of one identifier on the wire.
pub open spec fn id_wire(id: u128) -> Seq<u8> {
    le_bytes(16, 8) + be_bytes(id as nat, 16)
}

/// The identifier that a byte string holds, or the reason for which it holds
/// none.
pub open spec fn parse_id(b: Seq<u8>) -> Result<u128, DecodeError> {
    if b.len() < 24 {
        Err(DecodeError::Truncated)
    } else if b.len() > 24 {
        Err(DecodeError::TrailingBytes)
    } else if le_value(b.subrange(0, 8)) != 16 {
        Err(DecodeError::BadIdLength)
    } else {
        Ok(be_value(b.subrange(8, 24)) as u128)
    }
}

/// An identifier on the wire has 24 bytes.
pub proof fn lemma_id_wire_len(id: u128)
    ensures
        id_wire(id).len() == 24,
{
    lemma_le_bytes_len(16, 8);
    lemma_be_bytes_len(id as nat, 16);
}

/// Decoding the bytes of an identifier gives the identifier.
pub proof fn lemma_id_round_trip(id: u128)
    ensures
        parse_id(id_wire(id)) == Ok::<u128, DecodeError>(id),
{
    lemma_radix_values();
    lemma_le_bytes_len(16, 8);
    lemma_be_bytes_len(id as nat, 16);
    lemma_le_value_of_bytes(16, 8);
    lemma_be_value_of_bytes(id as nat, 16);
    assert(id_wire(id).subrange(0, 8) =~= le_bytes(16, 8));
    assert(id_wire(id).subrange(8, 24) =~= be_bytes(id as nat, 16));
}

/// Only the bytes of an identifier decode to it.
pub proof fn lemma_id_exact(b: Seq<u8>)
    requires
        parse_id(b) is Ok,
    ensures
        id_wire(parse_id(b)->Ok_0) == b,
{
    let head = b.subrange(0, 8);
    let tail = b.subrange(8, 24);
    lemma_radix_values();
    lemma_le_bytes_of_value(head);
    lemma_be_value_bound(tail);
    lemma_be_bytes_of_value(tail);
}

/// Appends the bytes of one identifier.
pub(crate) fn put_id(out: &mut Vec<u8>, id: u128)
    ensures
        final(out)@ == old(out)@ + id_wire(id),
{
    put_le(out, 16, 8);
    put_be(out, id, 16);
}

/// Reads the identifier that the 24 bytes from `at` on hold.
pub(crate) fn get_id(bytes: &[u8], at: usize) -> (r: Result<u128, DecodeError>)
    requires
        at + 24 <= bytes.len(),
    ensures
        r == parse_id(bytes@.subrange(at as int, at + 24)),
{
    let ghost window = bytes@.subrange(at as int, at + 24);
    assert(window.subrange(0, 8) =~= bytes@.subrange(at as int, at + 8));
    assert(window.subrange(8, 24) =~= bytes@.subrange(at + 8, at + 24));
    if get_le(bytes, at, 8) != 16 {
        Err(DecodeError::BadIdLength)
    } else {
        Ok(get_be(bytes, at + 8, 16))
    }
}

/// The bytes of identifiers one after another.
pub open spec fn ids_body(ids: Seq<u128>) -> Seq<u8>
    decreases ids.len(),
{
    if ids.len() == 0 {
        Seq::empty()
    } else {
        ids_body(ids.drop_last()) + id_wire(ids.last())
    }
}

/// The bytes of a list of identifiers on the wire.
pub open spec fn ids_wire(ids: Seq<u128>) -> Seq<u8> {
    le_bytes(ids.len(), 8) + ids_body(ids)
}

/// The bytes of the `i`-th of the identifiers that follow a count.
pub open spec fn id_record(b: Seq<u8>, i: int) -> Seq<u8> {
    b.subrange(8 + 24 * i, 32 + 24 * i)
}

/// The list of identifiers that a byte string holds, or the reason for which
/// it holds none.
pub open spec fn parse_ids(b: Seq<u8>) -> Result<Seq<u128>, DecodeError> {
    match parse_count(b, 24) {
        Err(e) => Err(e),
        Ok(n) => if exists|i: int| 0 <= i < n && parse_id(#[trigger] id_record(b, i)) is Err {
            Err(DecodeError::BadIdLength)
        } else {
            Ok(Seq::new(n, |i: int| parse_id(id_record(b, i))->Ok_0))
        },
    }
}

/// Where each identifier stands in the bytes of a list.
pub proof fn lemma_ids_body(ids: Seq<u128>)
    ensures
        ids_body(ids).len() == 24 * ids.len(),
        forall|i: int|
            0 <= i < ids.len() ==> #[trigger] ids_body(ids).subrange(24 * i, 24 + 24 * i)
                == id_wire(ids[i]),
    decreases ids.len(),
{
    if ids.len() > 0 {
        let front = ids.drop_last();
        lemma_ids_body(front);
        lemma_id_wire_len(ids.last());
        assert forall|i: int| 0 <= i < ids.len() implies #[trigger] ids_body(ids).subrange(
            24 * i,
            24 + 24 * i,
        ) == id_wire(ids[i]) by {
            if i < front.len() {
                assert(ids_body(ids).subrange(24 * i, 24 + 24 * i) =~= ids_body(front).subrange(
                    24 * i,
                    24 + 24 * i,
                ));
            }
        }
    }
}

/// Decoding the bytes of a list of identifiers gives the list.
pub proof fn lemma_ids_round_trip(ids: Seq<u128>)
    requires
        ids.len() <= u64::MAX,
    ensures
        parse_ids(ids_wire(ids)) == Ok::<Seq<u128>, DecodeError>(ids),
{
    let b = ids_wire(ids);
    lemma_radix_values();
    lemma_le_bytes_len(ids.len(), 8);
    lemma_le_value_of_bytes(ids.len(), 8);
    lemma_ids_body(ids);
    assert(b.subrange(0, 8) =~= le_bytes(ids.len(), 8));
    assert forall|i: int| 0 <= i < ids.len() implies parse_id(#[trigger] id_record(b, i)) == Ok::<
        u128,
        DecodeError,
    >(ids[i]) by {
        assert(id_record(b, i) =~= ids_body(ids).subrange(24 * i, 24 + 24 * i));
        lemma_id_round_trip(ids[i]);
    }
    assert(parse_ids(b)->Ok_0 =~= ids);
}

/// The identifiers before the `k`-th spell the bytes before the `k`-th record.
proof fn lemma_ids_body_of_records(b: Seq<u8>, ids: Seq<u128>, k: int)
    requires
        0 <= k <= ids.len(),
        b.len() >= 8 + 24 * ids.len(),
        forall|i: int|
            0 <= i < ids.len() ==> parse_id(#[trigger] id_record(b, i)) == Ok::<u128, DecodeError>(
                ids[i],
            ),
    ensures
        ids_body(ids.take(k)) == b.subrange(8, 8 + 24 * k),
    decreases k,
{
    if k > 0 {
        lemma_ids_body_of_records(b, ids, k - 1);
        lemma_id_exact(id_record(b, k - 1));
        assert(ids.take(k).drop_last() =~= ids.take(k - 1));
    }
}

/// Only the bytes of a list of identifiers decode to it.
pub proof fn lemma_ids_exact(b: Seq<u8>)
    requires
        parse_ids(b) is Ok,
    ensures
        ids_wire(parse_ids(b)->Ok_0) == b,
{
    let ids = parse_ids(b)->Ok_0;
    lemma_le_bytes_of_value(b.subrange(0, 8));
    lemma_ids_body_of_records(b, ids, ids.len() as int);
    assert(ids.take(ids.len() as int) =~= ids);
}

/// The bytes of a list of identifiers.
pub fn encode_ids(ids: &[u128]) -> (out: Vec<u8>)
    ensures
        out@ == ids_wire(ids@),
{
    let mut out: Vec<u8> = Vec::new();
    put_le(&mut out, ids.len() as u128, 8);
    let mut i: usize = 0;
    while i < ids.len()
        invariant
            i <= ids.len(),
            out@ == le_bytes(ids@.len(), 8) + ids_body(ids@.take(i as int)),
        decreases ids.len() - i,
    {
        put_id(&mut out, ids[i]);
        proof {
            assert(ids@.take(i + 1).drop_last() =~= ids@.take(i as int));
        }
        i = i + 1;
    }
    assert(ids@.take(i as int) =~= ids@);
    out
}

/// The list of identifiers that `bytes` holds.
///
/// Decoding succeeds on the bytes of a list of identifiers and on no others.
pub fn decode_ids(bytes: &[u8]) -> (r: Result<Vec<u128>, DecodeError>)
    ensures
        match r {
            Ok(ids) => parse_ids(bytes@) == Ok::<Seq<u128>, DecodeError>(ids@) && bytes@
                == ids_wire(ids@),
            Err(e) => parse_ids(bytes@) == Err::<Seq<u128>, DecodeError>(e),
        },
{
    let n = match get_count(bytes, 24) {
        Ok(n) => n,
        Err(e) => {
            return Err(e);
        },
    };
    let mut ids: Vec<u128> = Vec::new();
    let mut i: usize = 0;
    while i < n
        invariant
            i <= n,
            bytes.len() == 8 + 24 * n,
            parse_count(bytes@, 24) == Ok::<nat, DecodeError>(n as nat),
            ids@.len() == i,
            forall|k: int|
                0 <= k < i ==> parse_id(#[trigger] id_record(bytes@, k)) == Ok::<
                    u128,
                    DecodeError,
                >(ids@[k]),
        decreases n - i,
    {
        match get_id(bytes, 8 + 24 * i) {
            Ok(id) => {
                ids.push(id);
            },
            Err(e) => {
                assert(parse_id(id_record(bytes@, i as int)) is Err);
                return Err(e);
            },
        }
        i = i + 1;
    }
    proof {
        assert(parse_ids(bytes@)->Ok_0 =~= ids@);
        lemma_ids_exact(bytes@);
    }
    Ok(ids)
}

} // verus!
