//! Accounts: how the library holds them, how two are compared, and the account that a
//! pallet identifier stands for, as `sp_runtime` derives it.
use frame_support::PalletId;
use sp_runtime::traits::AccountIdConversion;
use vstd::prelude::*;

use crate::types::AccountId;

verus! {

/// Whether two accounts are the same, byte for byte.
pub fn same_account(a: &AccountId, b: &AccountId) -> (r: bool)
    ensures
        r == (*a == *b),
{
    let mut i: usize = 0;
    while i < 32
        invariant
            i <= 32,
            forall|j: int| 0 <= j < i ==> a@[j] == b@[j],
        decreases 32 - i,
    {
        if a[i] != b[i] {
            return false;
        }
        i = i + 1;
    }
    proof {
        broadcast use vstd::array::group_array_axioms;
        assert(*a =~= *b);
    }
    true
}

/// The account that `AccountIdConversion::into_account_truncating` derives from the eight
/// bytes of a `PalletId`: the type id `b"modl"`, then the eight bytes, then zeroes.
pub open spec fn pallet_account_spec(id: Seq<u8>) -> Seq<u8> {
    seq![0x6du8, 0x6fu8, 0x64u8, 0x6cu8] + id + Seq::new(20, |i: int| 0u8)
}

/// `PalletId(id).into_account_truncating()` for 32-byte accounts. Its source encodes the type
/// id `b"modl"` and then the id's eight bytes, and decodes the account from those twelve bytes
/// followed by as many zeroes as it reads; a byte array decodes as the bytes themselves.
#[verifier::external_body]
pub(crate) fn pallet_account(id: [u8; 8]) -> (r: AccountId)
    ensures
        r@ == pallet_account_spec(id@),
{
    let account: AccountId = PalletId(id).into_account_truncating();
    account
}

} // verus!
