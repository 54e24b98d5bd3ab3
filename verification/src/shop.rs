//! The shop: an inventory keyed by product name, with reservation (`buy`)
//! and atomic settlement (`checkout`).

use crate::client::Client;
use crate::model::{
    apply_cart, apply_line, cart_total, distinct_names, has_name, latest_entry, stock_of,
    LineItem, ShopError,
};
use vstd::prelude::*;

verus! {

/// A shop owns a mapping from product name to (available quantity, unit
/// price), held as a sequence of entries with pairwise-distinct names. Stock
/// is read by `buy` and decremented only by a successful `checkout`.
#[derive(Debug)]
pub struct Shop {
    storage: Vec<LineItem>,
}

impl View for Shop {
    type V = Seq<LineItem>;

    closed spec fn view(&self) -> Seq<LineItem> {
        self.storage@
    }
}

impl Shop {
    /// Every product name appears in at most one inventory entry.
    #[verifier::type_invariant]
    pub open spec fn wf(self) -> bool {
        distinct_names(self@)
    }

    /// A shop stocked from the given list: a lookup of any name afterwards
    /// returns exactly the (quantity, price) of the last list entry carrying
    /// that name, and `None` for a name the list never carries.
    pub fn new(products: Vec<LineItem>) -> (shop: Shop)
        ensures
            forall|name: Seq<char>| #[trigger]
                stock_of(shop@, name) == latest_entry(products@, name),
    {
        let mut storage: Vec<LineItem> = Vec::new();
        let mut i: usize = 0;
        while i < products.len()
            invariant
                i <= products@.len(),
                distinct_names(storage@),
                forall|name: Seq<char>| #[trigger]
                    stock_of(storage@, name) == latest_entry(products@.take(i as int), name),
            decreases products@.len() - i,
        {
            let name = products[i].0.clone();
            let qty = products[i].1;
            let price = products[i].2;
            let ghost prev = storage@;
            match find_name(&storage, &name) {
                Some(j) => {
                    storage[j] = (name, qty, price);
                    proof {
                        crate::model::lemma_stock_of_update(
                            prev,
                            j as int,
                            (products@[i as int].0, qty, price),
                        );
                        assert(storage@ =~= prev.update(
                            j as int,
                            (products@[i as int].0, qty, price),
                        ));
                    }
                },
                None => {
                    storage.push((name, qty, price));
                    proof {
                        crate::model::lemma_stock_of_push(
                            prev,
                            (products@[i as int].0, qty, price),
                        );
                        assert(storage@ =~= prev.push((products@[i as int].0, qty, price)));
                    }
                },
            }
            proof {
                let taken = products@.take(i as int + 1);
                assert(taken.drop_last() =~= products@.take(i as int));
                assert(taken.last() == products@[i as int]);
                assert forall|n: Seq<char>| #[trigger] stock_of(storage@, n) == latest_entry(
                    taken,
                    n,
                ) by {
                    if n != products@[i as int].0@ {
                        assert(stock_of(storage@, n) == stock_of(prev, n));
                    }
                }
            }
            i += 1;
        }
        proof {
            assert(products@.take(products@.len() as int) =~= products@);
        }
        Shop { storage }
    }

    /// Reserves `quantity` of `product_name` into the client's cart at the
    /// currently recorded price. Fails with `ProductNotFound` when the shop
    /// does not carry the name, with `InsufficientStock` when the quantity
    /// exceeds the recorded stock; a failed call leaves the client untouched,
    /// and no call ever changes the shop's inventory.
    pub fn buy(&mut self, client: &mut Client, product_name: String, quantity: u8) -> (r: Result<
        (),
        ShopError,
    >)
        ensures
            *final(self) == *old(self),
            match r {
                Ok(()) => ({
                    &&& stock_of(old(self)@, product_name@) matches Some(entry)
                        && quantity <= entry.0
                        && final(client).cart() == old(client).cart().push(
                        (product_name, quantity, entry.1),
                    )
                    &&& final(client).spec_balance() == old(client).spec_balance()
                }),
                Err(ShopError::ProductNotFound) => !has_name(old(self)@, product_name@)
                    && *final(client) == *old(client),
                Err(ShopError::InsufficientStock) => (stock_of(old(self)@, product_name@)
                    matches Some(entry)
                    && quantity > entry.0) && *final(client) == *old(client),
                Err(ShopError::InsufficientBalance) => false,
            },
    {
        proof {
            use_type_invariant(&*self);
        }
        match find_name(&self.storage, &product_name) {
            Some(j) => {
                proof {
                    crate::model::lemma_stock_of_at(self.storage@, j as int);
                }
                let available = self.storage[j].1;
                let price = self.storage[j].2;
                if quantity > available {
                    return Err(ShopError::InsufficientStock);
                }
                client.add_product((product_name, quantity, price));
                Ok(())
            },
            None => {
                assert(!has_name(self@, product_name@));
                Err(ShopError::ProductNotFound)
            },
        }
    }

    /// Settles the client's whole cart as one transaction. The cart total
    /// (sum of quantity times snapshot price, in exact integer arithmetic)
    /// is compared against the balance first: if it is larger, the call
    /// fails with `InsufficientBalance`. Otherwise every line is checked and
    /// applied against the inventory in cart order, all or nothing: a line
    /// naming a product the shop no longer carries fails the whole call with
    /// `ProductNotFound`, one asking for more than the remaining stock with
    /// `InsufficientStock`. On any failure neither the shop nor the client
    /// changes. On success the balance drops by exactly the total, each
    /// purchased product's stock drops by exactly the purchased quantity,
    /// and the cart is emptied.
    pub fn checkout(&mut self, client: &mut Client) -> (r: Result<(), ShopError>)
        ensures
            match r {
                Ok(()) => ({
                    &&& cart_total(old(client).cart()) <= old(client).spec_balance() as int
                    &&& apply_cart(old(self)@, old(client).cart()) == Ok::<
                        Seq<LineItem>,
                        ShopError,
                    >(final(self)@)
                    &&& final(client).spec_balance() as int == old(client).spec_balance() as int
                        - cart_total(old(client).cart())
                    &&& final(client).cart() == Seq::<LineItem>::empty()
                }),
                Err(ShopError::InsufficientBalance) => ({
                    &&& cart_total(old(client).cart()) > old(client).spec_balance() as int
                    &&& *final(self) == *old(self)
                    &&& *final(client) == *old(client)
                }),
                Err(e) => ({
                    &&& cart_total(old(client).cart()) <= old(client).spec_balance() as int
                    &&& apply_cart(old(self)@, old(client).cart()) == Err::<
                        Seq<LineItem>,
                        ShopError,
                    >(e)
                    &&& *final(self) == *old(self)
                    &&& *final(client) == *old(client)
                }),
            },
    {
        proof {
            use_type_invariant(&*self);
        }
        let ghost stock0: Seq<LineItem> = self.storage@;
        let ghost cart0: Seq<LineItem> = old(client).cart();
        let balance = client.balance();
        let mut total: u64 = 0;
        let mut scratch: Vec<LineItem> = Vec::new();
        {
            let cart = client.shopping_cart();

            // First pass: the exact cart total, bailing out as soon as it
            // exceeds the balance (every line contributes a non-negative
            // amount, so no later line could bring it back down).
            let mut k: usize = 0;
            while k < cart.len()
                invariant
                    k <= cart@.len(),
                    cart@ == cart0,
                    cart0 == old(client).cart(),
                    balance == old(client).spec_balance(),
                    total == cart_total(cart0.take(k as int)),
                    total <= balance,
                decreases cart@.len() - k,
            {
                let item = &cart[k];
                proof {
                    assert(cart0.take(k as int + 1) =~= cart0.take(k as int).push(
                        cart0[k as int],
                    ));
                    crate::model::lemma_cart_total_push(cart0.take(k as int), cart0[k as int]);
                    assert(item.1 as int * item.2 as int <= 255 * 0xffff_ffffu32 as int)
                        by (nonlinear_arith)
                        requires
                            0 <= item.1 <= 255,
                            0 <= item.2 <= 0xffff_ffffu32,
                    ;
                    assert(item.1 as int * item.2 as int >= 0) by (nonlinear_arith)
                        requires
                            0 <= item.1,
                            0 <= item.2,
                    ;
                }
                let line: u64 = (item.1 as u64) * (item.2 as u64);
                if line > (balance as u64) - total {
                    proof {
                        crate::model::lemma_cart_total_prefix(cart0, k as int + 1);
                    }
                    return Err(ShopError::InsufficientBalance);
                }
                total = total + line;
                k += 1;
            }
            proof {
                assert(cart0.take(cart0.len() as int) =~= cart0);
            }

            // Second pass: a working copy of the inventory to settle the
            // cart against, so that a failure further down leaves the shop
            // untouched.
            let mut i: usize = 0;
            while i < self.storage.len()
                invariant
                    i <= self.storage@.len(),
                    self.storage@ == stock0,
                    stock0 == old(self)@,
                    scratch@ == stock0.take(i as int),
                decreases self.storage@.len() - i,
            {
                let entry = &self.storage[i];
                let copied = (entry.0.clone(), entry.1, entry.2);
                proof {
                    assert(copied == stock0[i as int]);
                    assert(stock0.take(i as int + 1) =~= stock0.take(i as int).push(
                        stock0[i as int],
                    ));
                }
                scratch.push(copied);
                i += 1;
            }
            proof {
                assert(stock0.take(stock0.len() as int) =~= stock0);
            }

            // Third pass: check and apply every line against the working
            // copy, in cart order.
            let mut k2: usize = 0;
            while k2 < cart.len()
                invariant
                    k2 <= cart@.len(),
                    cart@ == cart0,
                    cart0 == old(client).cart(),
                    stock0 == old(self)@,
                    self.storage@ == stock0,
                    balance == old(client).spec_balance(),
                    total == cart_total(cart0),
                    total <= balance,
                    distinct_names(scratch@),
                    apply_cart(stock0, cart0.take(k2 as int)) == Ok::<Seq<LineItem>, ShopError>(
                        scratch@,
                    ),
                decreases cart@.len() - k2,
            {
                let item = &cart[k2];
                let ghost before = scratch@;
                proof {
                    crate::model::lemma_apply_cart_split(stock0, cart0, k2 as int);
                    assert(cart0.skip(k2 as int)[0] == cart0[k2 as int]);
                }
                match find_name(&scratch, &item.0) {
                    None => {
                        assert(!has_name(before, item.0@));
                        assert(apply_line(before, cart0[k2 as int].0@, cart0[k2 as int].1)
                            == Err::<Seq<LineItem>, ShopError>(ShopError::ProductNotFound));
                        return Err(ShopError::ProductNotFound);
                    },
                    Some(j) => {
                        proof {
                            crate::model::lemma_stock_of_at(before, j as int);
                        }
                        let available = scratch[j].1;
                        if item.1 > available {
                            assert(apply_line(before, cart0[k2 as int].0@, cart0[k2 as int].1)
                                == Err::<Seq<LineItem>, ShopError>(ShopError::InsufficientStock));
                            return Err(ShopError::InsufficientStock);
                        }
                        let entry = &mut scratch[j];
                        entry.1 = entry.1 - item.1;
                        proof {
                            let updated = (before[j as int].0, (before[j as int].1 - item.1) as u8,
                                before[j as int].2);
                            assert(scratch@ == before.update(j as int, updated));
                            crate::model::lemma_stock_of_update(before, j as int, updated);
                            assert(apply_line(before, cart0[k2 as int].0@, cart0[k2 as int].1)
                                == Ok::<Seq<LineItem>, ShopError>(scratch@));
                            assert(cart0.take(k2 as int + 1) =~= cart0.take(k2 as int).push(
                                cart0[k2 as int],
                            ));
                            crate::model::lemma_apply_cart_snoc(
                                stock0,
                                cart0.take(k2 as int),
                                cart0[k2 as int],
                            );
                        }
                    },
                }
                k2 += 1;
            }
            proof {
                assert(cart0.take(cart0.len() as int) =~= cart0);
            }
        }

        // Every check passed: apply the whole transaction at once.
        self.storage = scratch;
        client.deduct(total as u32);
        client.clear_cart();
        Ok(())
    }

    /// The (available quantity, unit price) recorded for `product_name`, or
    /// `None` if the shop does not carry it.
    pub fn get(&self, product_name: &String) -> (r: Option<(u8, u32)>)
        ensures
            r == stock_of(self@, product_name@),
    {
        proof {
            use_type_invariant(&*self);
        }
        match find_name(&self.storage, product_name) {
            Some(j) => {
                proof {
                    crate::model::lemma_stock_of_at(self.storage@, j as int);
                }
                Some((self.storage[j].1, self.storage[j].2))
            },
            None => {
                assert(!has_name(self@, product_name@));
                None
            },
        }
    }
}

/// The index of the entry of `storage` whose name reads as `name`, or `None`
/// if no entry's does.
fn find_name(storage: &Vec<LineItem>, name: &String) -> (r: Option<usize>)
    ensures
        match r {
            Some(j) => j < storage@.len() && storage@[j as int].0@ == name@,
            None => forall|k: int| 0 <= k < storage@.len() ==> #[trigger] storage@[k].0@ != name@,
        },
{
    let mut j: usize = 0;
    while j < storage.len()
        invariant
            j <= storage@.len(),
            forall|k: int| 0 <= k < j ==> #[trigger] storage@[k].0@ != name@,
        decreases storage@.len() - j,
    {
        if storage[j].0 == *name {
            return Some(j);
        }
        j += 1;
    }
    None
}

} // verus!


