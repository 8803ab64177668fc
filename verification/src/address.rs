//! The addresses that bin accounts are expected to have.

use vstd::prelude::*;
use vstd::bytes::{spec_u32_to_le_bytes, u32_to_le_bytes};
use anchor_lang::prelude::Pubkey;
use crate::state::Address;

verus! {

/// The program address that `Pubkey::try_find_program_address` derives from
/// the seeds and the program id, with its bump seed; `None` where it finds no
/// address (no bump seed gives a point off the curve, or the seeds are too
/// many or too long).
pub uninterp spec fn program_address(seeds: Seq<Seq<u8>>, program_id: Seq<u8>) -> Option<(Seq<u8>, u8)>;

/// Calls `Pubkey::try_find_program_address`. Trusted: the result is the
/// derived address and bump seed, a function of the seeds and the program id
/// alone.
#[verifier::external_body]
pub(crate) fn try_find_program_address(seeds: &Vec<Vec<u8>>, program_id: &Address) -> (found: Option<(Address, u8)>)
    ensures
        match found {
            Some((key, bump)) => program_address(seeds.deep_view(), program_id@) == Some((key@, bump)),
            None => program_address(seeds.deep_view(), program_id@) is None,
        },
{
    let parts: Vec<&[u8]> = seeds.iter().map(|s| s.as_slice()).collect();
    Pubkey::try_find_program_address(&parts, &Pubkey::new_from_array(*program_id))
        .map(|(key, bump)| (key.to_bytes(), bump))
}

/// The bytes of the word "bin", the first seed of every bin address.
pub open spec fn bin_tag() -> Seq<u8> {
    seq![98u8, 105u8, 110u8]
}

/// The seeds of a bin's address: the tag, the pool's address and the bin id
/// as four little-endian bytes.
pub open spec fn bin_seeds(pool_key: Seq<u8>, bin_id: i32) -> Seq<Seq<u8>> {
    seq![bin_tag(), pool_key, spec_u32_to_le_bytes(bin_id as u32)]
}

/// The address that the account of bin `bin_id` of the pool at `pool_key`
/// must have, where one exists.
pub open spec fn bin_address(pool_key: Seq<u8>, bin_id: i32, program_id: Seq<u8>) -> Option<Seq<u8>> {
    match program_address(bin_seeds(pool_key, bin_id), program_id) {
        Some((key, _)) => Some(key),
        None => None,
    }
}

/// Whether two addresses hold the same bytes.
pub fn same_address(a: &Address, b: &Address) -> (same: bool)
    ensures
        same == (a@ == b@),
{
    let mut i: usize = 0;
    while i < 32
        invariant
            i <= 32,
            forall|k: int| 0 <= k < i ==> a@[k] == b@[k],
        decreases 32 - i,
    {
        if a[i] != b[i] {
            return false;
        }
        i += 1;
    }
    assert(a@ =~= b@);
    true
}

fn copy_bytes(from: &Address) -> (bytes: Vec<u8>)
    ensures
        bytes@ == from@,
{
    let mut bytes: Vec<u8> = Vec::new();
    let mut i: usize = 0;
    while i < 32
        invariant
            i <= 32,
            bytes@.len() == i,
            forall|k: int| 0 <= k < i ==> bytes@[k] == from@[k],
        decreases 32 - i,
    {
        bytes.push(from[i]);
        i += 1;
    }
    assert(bytes@ =~= from@);
    bytes
}

/// An address that may be missing, as the bytes it holds.
pub open spec fn address_view(address: Option<Address>) -> Option<Seq<u8>> {
    match address {
        Some(key) => Some(key@),
        None => None,
    }
}

/// Derives the address of the account of bin `bin_id`.
pub fn expected_bin_address(pool_key: &Address, bin_id: i32, program_id: &Address) -> (expected: Option<Address>)
    ensures
        address_view(expected) == bin_address(pool_key@, bin_id, program_id@),
{
    let mut tag: Vec<u8> = Vec::new();
    tag.push(98u8);
    tag.push(105u8);
    tag.push(110u8);
    let id_bytes = u32_to_le_bytes(#[verifier::truncate] (bin_id as u32));
    let mut seeds: Vec<Vec<u8>> = Vec::new();
    seeds.push(tag);
    seeds.push(copy_bytes(pool_key));
    seeds.push(id_bytes);
    proof {
        assert(seeds@[0]@ =~= bin_tag());
        assert(seeds.deep_view() =~~= bin_seeds(pool_key@, bin_id));
    }
    match try_find_program_address(&seeds, program_id) {
        Some((key, _)) => Some(key),
        None => None,
    }
}

/// Whether `key` is the address expected; no address is expected where none
/// could be derived.
pub fn holds_address(key: &Address, expected: &Option<Address>) -> (holds: bool)
    ensures
        holds == (address_view(*expected) == Some(key@)),
{
    match expected {
        Some(address) => same_address(key, address),
        None => false,
    }
}

} // verus!
