//! What the ledger's own rules give for an address: the address that belongs to a program
//! and a list of seeds, and the address that a text in base 58 stands for.

use crate::address::Address;
use solana_sdk::pubkey::Pubkey;
use std::str::FromStr;
use vstd::prelude::*;

verus! {

/// The address that the ledger derives for the program `program_id` from `seeds`: what
/// `Pubkey::try_find_program_address` gives for them, without the bump seed. There is none
/// where a seed is longer than 32 bytes, where there are more than 15 seeds, or where no
/// bump seed leads off the curve.
pub uninterp spec fn program_address(seeds: Seq<Seq<u8>>, program_id: Seq<u8>) -> Option<Seq<u8>>;

/// The address that `text` stands for in base 58: what `Pubkey::from_str` gives for it.
/// There is none where `text` is no base 58 or does not come to 32 bytes.
pub uninterp spec fn base58_address(text: Seq<char>) -> Option<Seq<u8>>;

/// Calls `Pubkey::try_find_program_address` of `solana_sdk` with the seeds and the program
/// as they are given, and hands back the address it found. The result is a function of the
/// seeds and the program alone, a hash of them, and is known here by its name only.
#[verifier::external_body]
pub(crate) fn find_program_address(seeds: &Vec<Vec<u8>>, program_id: &Address) -> (found: Option<
    Address,
>)
    ensures
        match found {
            Some(address) => program_address(seeds.deep_view(), program_id@) == Some(address@),
            None => program_address(seeds.deep_view(), program_id@) is None,
        },
{
    let parts: Vec<&[u8]> = seeds.iter().map(|seed| seed.as_slice()).collect();
    let program = Pubkey::new_from_array(program_id.bytes);
    Pubkey::try_find_program_address(&parts, &program).map(
        |(key, _bump)| Address { bytes: key.to_bytes() },
    )
}

/// Calls `Pubkey::from_str` of `solana_sdk` on `text` and hands back the bytes of the key,
/// or nothing where the call fails. The result is a function of the text alone and is known
/// here by its name only.
#[verifier::external_body]
pub(crate) fn parse_base58(text: &str) -> (parsed: Option<Address>)
    ensures
        match parsed {
            Some(address) => base58_address(text@) == Some(address@),
            None => base58_address(text@) is None,
        },
{
    match Pubkey::from_str(text) {
        Ok(key) => Some(Address { bytes: key.to_bytes() }),
        Err(_) => None,
    }
}

} // verus!
