//! Account ids as plain numbers.

use vstd::prelude::*;

use crate::protocol::{account_id_text, account_id_to_hex, valid_account_id};

verus! {

/// The id of an account, as its two field elements.
#[derive(Clone, Copy, Debug, PartialEq, Eq, Structural)]
pub struct AccountId {
    pub prefix: u64,
    pub suffix: u64,
}

impl AccountId {
    /// Whether the elements are an account id.
    pub open spec fn is_valid(self) -> bool {
        valid_account_id(self.prefix as nat, self.suffix as nat)
    }

    /// The id as text.
    pub open spec fn text(self) -> Seq<char> {
        account_id_text(self.prefix as nat, self.suffix as nat)
    }

    /// Whether the state of the account is public, which the fifth bit of the prefix says.
    pub open spec fn is_public_id(self) -> bool {
        self.prefix / 16 % 2 == 1
    }

    /// The id with the given elements, where they are one.
    pub fn new(prefix: u64, suffix: u64) -> (r: Option<AccountId>)
        ensures
            match r {
                Some(id) => id.is_valid() && id == (AccountId { prefix, suffix }),
                None => !valid_account_id(prefix as nat, suffix as nat),
            },
    {
        if prefix < crate::felt::MODULUS && prefix % 16 == 1 && suffix < 0x8000_0000_0000_0000
            && suffix % 256 == 0 {
            Some(AccountId { prefix, suffix })
        } else {
            None
        }
    }

    /// The id as text.
    pub fn to_hex(&self) -> (r: String)
        requires
            self.is_valid(),
        ensures
            r@ == self.text(),
    {
        match account_id_to_hex(self.prefix, self.suffix) {
            Some(text) => text,
            None => String::new(),
        }
    }

    /// Whether the state of the account is public.
    pub fn is_public(&self) -> (r: bool)
        ensures
            r == self.is_public_id(),
    {
        self.prefix / 16 % 2 == 1
    }
}

/// The fifth bit of the prefix says whether an account is public, whatever the other bits are.
pub proof fn lemma_public_accounts(id: AccountId, low: nat, high: nat)
    requires
        low < 16,
    ensures
        id.prefix == high * 32 + 16 + low ==> id.is_public_id(),
        id.prefix == high * 32 + low ==> !id.is_public_id(),
{
}

} // verus!
