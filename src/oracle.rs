//! The price oracle: the unit price of each asset, as last fed.

use vstd::prelude::*;
use crate::errors::CraftingError;
use crate::table::{AccountId, amount_of, find_key, has_key, lemma_index_of, lemma_upsert, put, unique_keys, upsert};

verus! {

/// The map of a table with unique keys.
pub open spec fn table_map(s: Seq<(String, u128)>) -> Map<Seq<char>, u128> {
    Map::new(|k: Seq<char>| has_key(s, k), |k: Seq<char>| amount_of(s, k))
}

pub proof fn lemma_table_map_upsert(s: Seq<(String, u128)>, k: String, v: u128)
    requires
        unique_keys(s),
    ensures
        table_map(upsert(s, k, v)) == table_map(s).insert(k@, v),
{
    lemma_upsert(s, k, v);
    assert(table_map(upsert(s, k, v)) =~= table_map(s).insert(k@, v));
}

/// Unit prices of assets.
pub struct PriceInfo {
    /// The price of each asset, in order of first feed.
    pub prices: Vec<(AccountId, u128)>,
}

impl View for PriceInfo {
    type V = Map<Seq<char>, u128>;

    closed spec fn view(&self) -> Map<Seq<char>, u128> {
        table_map(self.prices@)
    }
}

impl PriceInfo {
    pub closed spec fn wf(&self) -> bool {
        unique_keys(self.prices@)
    }

    /// An oracle that knows no price.
    pub fn new() -> (r: Self)
        ensures
            r.wf(),
            r@ == Map::<Seq<char>, u128>::empty(),
    {
        let r = PriceInfo { prices: Vec::new() };
        assert(r@ =~= Map::<Seq<char>, u128>::empty());
        r
    }

    /// The price of `asset`; an asset that was never fed has none.
    pub fn get_price(&self, asset: &AccountId) -> (r: Result<u128, CraftingError>)
        requires
            self.wf(),
        ensures
            r == if self@.contains_key(asset@) {
                Ok::<u128, CraftingError>(self@[asset@])
            } else {
                Err(CraftingError::PriceNotFound)
            },
    {
        match find_key(&self.prices, asset) {
            Some(i) => {
                proof {
                    lemma_index_of(self.prices@, i as int);
                }
                Ok(self.prices[i].1)
            },
            None => Err(CraftingError::PriceNotFound),
        }
    }

    /// Sets the price of `asset`, overwriting any earlier one.
    pub fn feed_price(&mut self, asset: AccountId, price: u128)
        requires
            old(self).wf(),
        ensures
            final(self).wf(),
            final(self)@ == old(self)@.insert(asset@, price),
    {
        proof {
            lemma_table_map_upsert(self.prices@, asset, price);
        }
        put(&mut self.prices, &asset, price);
    }
}

} // verus!
