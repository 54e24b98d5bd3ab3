//! The client: a balance and an ordered cart of reserved line items.

use crate::model::LineItem;
use vstd::prelude::*;

verus! {

/// A client holds a balance and a cart: the ordered sequence of line items
/// reserved so far, first-added first. The balance is decremented only by a
/// successful `Shop::checkout`, never below zero; the cart is emptied only by
/// `clear_cart` or a successful checkout.
pub struct Client {
    /// The funds available for checkout.
    pub balance: u32,
    shopping_cart: Vec<LineItem>,
}

impl Client {
    /// The cart as the ordered sequence of its line items.
    pub closed spec fn cart(self) -> Seq<LineItem> {
        self.shopping_cart@
    }

    /// The balance, for use in contracts.
    pub closed spec fn spec_balance(self) -> u32 {
        self.balance
    }

    /// A fresh client with the given balance and an empty cart.
    pub fn new(balance: u32) -> (c: Client)
        ensures
            c.spec_balance() == balance,
            c.cart() == Seq::<LineItem>::empty(),
    {
        Client { balance, shopping_cart: Vec::new() }
    }

    /// The funds currently available for checkout.
    pub fn balance(&self) -> (r: u32)
        ensures
            r == self.spec_balance(),
    {
        self.balance
    }

    /// Lowers the balance by `amount`; only the shop's checkout settles a
    /// cart, so only this crate may call it.
    pub(crate) fn deduct(&mut self, amount: u32)
        requires
            amount <= old(self).spec_balance(),
        ensures
            final(self).spec_balance() == old(self).spec_balance() - amount,
            final(self).cart() == old(self).cart(),
    {
        self.balance = self.balance - amount;
    }

    /// Appends a line item to the cart; always succeeds, and validates
    /// nothing (validation is the shop's responsibility).
    pub fn add_product(&mut self, product: LineItem)
        ensures
            final(self).cart() == old(self).cart().push(product),
            final(self).spec_balance() == old(self).spec_balance(),
    {
        self.shopping_cart.push(product);
    }

    /// A read view of the cart, in reservation order; mutates nothing.
    pub fn shopping_cart(&self) -> (r: &Vec<LineItem>)
        ensures
            r@ == self.cart(),
    {
        &self.shopping_cart
    }

    /// Empties the cart; always succeeds and leaves the balance alone.
    pub fn clear_cart(&mut self)
        ensures
            final(self).cart() == Seq::<LineItem>::empty(),
            final(self).spec_balance() == old(self).spec_balance(),
    {
        self.shopping_cart.clear();
    }
}

} // verus!
