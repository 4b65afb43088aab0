//! Subaddresses.

use vstd::prelude::*;

verus! {

/// The index of a subaddress, being any index but that of the primary address.
#[derive(Clone, Copy, PartialEq, Eq, Structural, Debug)]
pub struct SubaddressIndex {
    account: u32,
    address: u32,
}

/// The account, and the index within the account.
impl View for SubaddressIndex {
    type V = (u32, u32);

    closed spec fn view(&self) -> (u32, u32) {
        (self.account, self.address)
    }
}

impl SubaddressIndex {
    /// The index of a subaddress, `None` if this is the index of the primary address.
    pub fn new(account: u32, address: u32) -> (res: Option<SubaddressIndex>)
        ensures
            match res {
                Some(index) => index@ == (account, address) && (account != 0 || address != 0),
                None => account == 0 && address == 0,
            },
    {
        if account == 0 && address == 0 {
            None
        } else {
            Some(SubaddressIndex { account, address })
        }
    }

    /// The account.
    pub fn account(&self) -> (res: u32)
        ensures
            res == self@.0,
    {
        self.account
    }

    /// The index within the account.
    pub fn address(&self) -> (res: u32)
        ensures
            res == self@.1,
    {
        self.address
    }
}

} // verus!
