//! The mathematical model of the shop: inventories and carts are sequences
//! of line items, and the spec functions here say what a lookup, a
//! reservation total and an atomic settlement mean on those sequences.

use vstd::prelude::*;

verus! {

/// A line item: a product name with a quantity and a unit price. Inventory
/// entries and cart entries share this shape; a cart entry's price is a
/// snapshot taken at reservation time.
pub type LineItem = (String, u8, u32);

/// Why a shop operation was refused.
#[derive(Clone, Copy, Debug, PartialEq, Eq)]
pub enum ShopError {
    /// The operation referenced a product name absent from the shop's inventory.
    ProductNotFound,
    /// A requested or required quantity exceeds the available stock.
    InsufficientStock,
    /// The cart total exceeds the client's balance at checkout.
    InsufficientBalance,
}

/// No two entries of `s` carry the same product name.
pub open spec fn distinct_names(s: Seq<LineItem>) -> bool {
    forall|i: int, j: int|
        0 <= i < j < s.len() ==> #[trigger] s[i].0@ != #[trigger] s[j].0@
}

/// Some entry of `s` carries the name `name`.
pub open spec fn has_name(s: Seq<LineItem>, name: Seq<char>) -> bool {
    exists|i: int| 0 <= i < s.len() && #[trigger] s[i].0@ == name
}

/// An index of an entry of `s` carrying `name`; under `distinct_names` it is
/// the unique such index.
pub open spec fn name_index(s: Seq<LineItem>, name: Seq<char>) -> int {
    choose|i: int| 0 <= i < s.len() && #[trigger] s[i].0@ == name
}

/// The (quantity, price) recorded for `name` in `s`, or `None` if absent.
pub open spec fn stock_of(s: Seq<LineItem>, name: Seq<char>) -> Option<(u8, u32)> {
    if has_name(s, name) {
        let i = name_index(s, name);
        Some((s[i].1, s[i].2))
    } else {
        None
    }
}

/// The (quantity, price) that the last entry of `products` carrying `name`
/// records, or `None` if no entry does: the last-write-wins reading of an
/// initial inventory list that may repeat a name.
pub open spec fn latest_entry(products: Seq<LineItem>, name: Seq<char>) -> Option<(u8, u32)>
    decreases products.len(),
{
    if products.len() == 0 {
        None
    } else if products.last().0@ == name {
        Some((products.last().1, products.last().2))
    } else {
        latest_entry(products.drop_last(), name)
    }
}

/// Settling one cart line against the inventory `s`: refused if the name is
/// absent or the quantity exceeds the recorded stock, otherwise the stock of
/// that one product drops by the line's quantity.
pub open spec fn apply_line(s: Seq<LineItem>, name: Seq<char>, qty: u8) -> Result<
    Seq<LineItem>,
    ShopError,
> {
    match stock_of(s, name) {
        None => Err(ShopError::ProductNotFound),
        Some(entry) => if qty > entry.0 {
            Err(ShopError::InsufficientStock)
        } else {
            let i = name_index(s, name);
            Ok(s.update(i, (s[i].0, (entry.0 - qty) as u8, entry.1)))
        },
    }
}

/// Settling a whole cart against the inventory `s`, line by line in cart
/// order; the first refused line refuses the whole cart.
pub open spec fn apply_cart(s: Seq<LineItem>, cart: Seq<LineItem>) -> Result<
    Seq<LineItem>,
    ShopError,
>
    decreases cart.len(),
{
    if cart.len() == 0 {
        Ok(s)
    } else {
        match apply_line(s, cart[0].0@, cart[0].1) {
            Ok(s2) => apply_cart(s2, cart.skip(1)),
            Err(e) => Err(e),
        }
    }
}

/// The cart's total: the sum over its lines of quantity times snapshot price.
pub open spec fn cart_total(cart: Seq<LineItem>) -> int
    decreases cart.len(),
{
    if cart.len() == 0 {
        0
    } else {
        cart[0].1 * cart[0].2 + cart_total(cart.skip(1))
    }
}

/// The total quantity of `name` reserved across all lines of `cart`.
pub open spec fn cart_qty(cart: Seq<LineItem>, name: Seq<char>) -> int
    decreases cart.len(),
{
    if cart.len() == 0 {
        0
    } else {
        (if cart[0].0@ == name {
            cart[0].1 as int
        } else {
            0
        }) + cart_qty(cart.skip(1), name)
    }
}

/// The monetary value of an inventory: the sum over its entries of stock
/// times unit price.
pub open spec fn stock_value(s: Seq<LineItem>) -> int
    decreases s.len(),
{
    if s.len() == 0 {
        0
    } else {
        s[0].1 * s[0].2 + stock_value(s.skip(1))
    }
}

/// Appending a line raises the cart's total by exactly that line's quantity
/// times its price.
pub proof fn lemma_cart_total_push(cart: Seq<LineItem>, e: LineItem)
    ensures
        cart_total(cart.push(e)) == cart_total(cart) + e.1 * e.2,
    decreases cart.len(),
{
    if cart.len() == 0 {
        assert(cart.push(e)[0] == e);
        assert(cart.push(e).skip(1) =~= Seq::<LineItem>::empty());
        assert(cart_total(cart.push(e)) == e.1 * e.2 + cart_total(Seq::<LineItem>::empty()));
    } else {
        assert(cart.push(e).skip(1) =~= cart.skip(1).push(e));
        assert(cart.push(e)[0] == cart[0]);
        lemma_cart_total_push(cart.skip(1), e);
        assert(cart_total(cart.push(e)) == cart[0].1 * cart[0].2 + cart_total(
            cart.skip(1).push(e),
        ));
        assert(cart_total(cart) == cart[0].1 * cart[0].2 + cart_total(cart.skip(1)));
    }
}

/// A prefix of a cart never totals more than the whole cart.
pub proof fn lemma_cart_total_prefix(cart: Seq<LineItem>, k: int)
    requires
        0 <= k <= cart.len(),
    ensures
        cart_total(cart.take(k)) <= cart_total(cart),
    decreases cart.len() - k,
{
    if k == cart.len() {
        assert(cart.take(k) =~= cart);
    } else {
        assert(cart.take(k + 1) =~= cart.take(k).push(cart[k]));
        lemma_cart_total_push(cart.take(k), cart[k]);
        lemma_cart_total_prefix(cart, k + 1);
    }
}

/// Settling a cart is the same as settling its first `k` lines and then, if
/// that succeeded, settling the rest against the intermediate inventory; an
/// error among the first `k` lines is the error of the whole cart.
pub proof fn lemma_apply_cart_split(s: Seq<LineItem>, cart: Seq<LineItem>, k: int)
    requires
        0 <= k <= cart.len(),
    ensures
        apply_cart(s, cart) == match apply_cart(s, cart.take(k)) {
            Ok(m) => apply_cart(m, cart.skip(k)),
            Err(e) => Err(e),
        },
    decreases k,
{
    if k == 0 {
        assert(cart.take(0) =~= Seq::<LineItem>::empty());
        assert(cart.skip(0) =~= cart);
    } else {
        let head = cart[0];
        assert(cart.take(k)[0] == head);
        assert(cart.take(k).skip(1) =~= cart.skip(1).take(k - 1));
        assert(cart.skip(1).skip(k - 1) =~= cart.skip(k));
        match apply_line(s, head.0@, head.1) {
            Ok(s2) => {
                lemma_apply_cart_split(s2, cart.skip(1), k - 1);
            },
            Err(_) => {},
        }
    }
}

/// Settling a cart extended by one line is settling the cart and then, if
/// that succeeded, settling the extra line against the resulting inventory.
pub proof fn lemma_apply_cart_snoc(s: Seq<LineItem>, cart: Seq<LineItem>, e: LineItem)
    ensures
        apply_cart(s, cart.push(e)) == match apply_cart(s, cart) {
            Ok(m) => apply_line(m, e.0@, e.1),
            Err(err) => Err(err),
        },
{
    let whole = cart.push(e);
    lemma_apply_cart_split(s, whole, cart.len() as int);
    assert(whole.take(cart.len() as int) =~= cart);
    let tail = whole.skip(cart.len() as int);
    assert(tail =~= seq![e]);
    match apply_cart(s, cart) {
        Ok(m) => {
            assert(tail[0] == e);
            assert(tail.skip(1) =~= Seq::<LineItem>::empty());
            assert(apply_cart(m, tail) == match apply_line(m, e.0@, e.1) {
                Ok(s2) => apply_cart(s2, tail.skip(1)),
                Err(err) => Err(err),
            });
            assert(apply_cart(s, whole) == apply_cart(m, tail));
        },
        Err(_) => {},
    }
}

/// Under distinct names, the entry at index `i` is exactly what a lookup of
/// its name returns, and `i` is the index the lookup picks.
pub proof fn lemma_stock_of_at(s: Seq<LineItem>, i: int)
    requires
        distinct_names(s),
        0 <= i < s.len(),
    ensures
        name_index(s, s[i].0@) == i,
        stock_of(s, s[i].0@) == Some((s[i].1, s[i].2)),
{
    assert(has_name(s, s[i].0@));
    let j = name_index(s, s[i].0@);
    assert(0 <= j < s.len() && s[j].0@ == s[i].0@);
    if i < j {
        assert(s[i].0@ != s[j].0@);
    } else if j < i {
        assert(s[j].0@ != s[i].0@);
    }
}

/// Overwriting the entry at `i` with one of the same name keeps the names
/// distinct, records the new quantity and price under that name, and leaves
/// every other name's lookup unchanged.
pub proof fn lemma_stock_of_update(s: Seq<LineItem>, i: int, e: LineItem)
    requires
        distinct_names(s),
        0 <= i < s.len(),
        e.0@ == s[i].0@,
    ensures
        distinct_names(s.update(i, e)),
        stock_of(s.update(i, e), e.0@) == Some((e.1, e.2)),
        forall|n: Seq<char>|
            n != e.0@ ==> #[trigger] stock_of(s.update(i, e), n) == stock_of(s, n),
        forall|n: Seq<char>| #[trigger] has_name(s.update(i, e), n) == has_name(s, n),
{
    let t = s.update(i, e);
    assert forall|p: int, q: int| 0 <= p < q < t.len() implies #[trigger] t[p].0@
        != #[trigger] t[q].0@ by {
        assert(s[p].0@ != s[q].0@);
    }
    assert forall|n: Seq<char>| #[trigger] has_name(t, n) == has_name(s, n) by {
        if has_name(t, n) {
            let k = choose|k: int| 0 <= k < t.len() && #[trigger] t[k].0@ == n;
            assert(s[k].0@ == n);
        }
        if has_name(s, n) {
            let k = choose|k: int| 0 <= k < s.len() && #[trigger] s[k].0@ == n;
            assert(t[k].0@ == n);
        }
    }
    lemma_stock_of_at(t, i);
    assert forall|n: Seq<char>|
        n != e.0@ implies #[trigger] stock_of(t, n) == stock_of(s, n) by {
        if has_name(s, n) {
            let k = choose|k: int| 0 <= k < s.len() && #[trigger] s[k].0@ == n;
            assert(k != i);
            assert(t[k].0@ == n);
            lemma_stock_of_at(s, k);
            lemma_stock_of_at(t, k);
        }
    }
}

/// Appending an entry whose name is new keeps the names distinct, records its
/// quantity and price under that name, and leaves every other name's lookup
/// unchanged.
pub proof fn lemma_stock_of_push(s: Seq<LineItem>, e: LineItem)
    requires
        distinct_names(s),
        !has_name(s, e.0@),
    ensures
        distinct_names(s.push(e)),
        stock_of(s.push(e), e.0@) == Some((e.1, e.2)),
        forall|n: Seq<char>| n != e.0@ ==> #[trigger] stock_of(s.push(e), n) == stock_of(s, n),
{
    let t = s.push(e);
    assert forall|p: int, q: int| 0 <= p < q < t.len() implies #[trigger] t[p].0@
        != #[trigger] t[q].0@ by {
        if q < s.len() {
            assert(s[p].0@ != s[q].0@);
        } else {
            assert(t[q] == e);
            assert(s[p].0@ == t[p].0@);
        }
    }
    lemma_stock_of_at(t, s.len() as int);
    assert forall|n: Seq<char>|
        n != e.0@ implies #[trigger] stock_of(t, n) == stock_of(s, n) by {
        assert forall|k: int| 0 <= k < t.len() && #[trigger] t[k].0@ == n implies 0 <= k < s.len()
            && s[k].0@ == n by {
            assert(k != s.len() as int);
        }
        if has_name(s, n) {
            let k = choose|k: int| 0 <= k < s.len() && #[trigger] s[k].0@ == n;
            assert(t[k].0@ == n);
            lemma_stock_of_at(s, k);
            lemma_stock_of_at(t, k);
        } else {
            assert(!has_name(t, n));
        }
    }
}

/// Law: a successful settlement decrements each product's stock by exactly
/// the quantity the cart reserved of it — `cart_qty` — and nothing else: it
/// keeps names distinct, carries exactly the products carried before at
/// their old prices, and a product the inventory lacks is one the settled
/// cart never named.
pub proof fn lemma_apply_cart_stock(s: Seq<LineItem>, cart: Seq<LineItem>, t: Seq<LineItem>)
    requires
        distinct_names(s),
        apply_cart(s, cart) == Ok::<Seq<LineItem>, ShopError>(t),
    ensures
        distinct_names(t),
        t.len() == s.len(),
        forall|n: Seq<char>| #[trigger] has_name(t, n) == has_name(s, n),
        forall|n: Seq<char>|
            (#[trigger] stock_of(s, n)) matches Some(entry) ==> 0 <= cart_qty(cart, n) <= entry.0
                && stock_of(t, n) == Some((((entry.0 - cart_qty(cart, n)) as u8), entry.1)),
        forall|n: Seq<char>| (#[trigger] stock_of(s, n)) is None ==> cart_qty(cart, n) == 0,
    decreases cart.len(),
{
    if cart.len() == 0 {
        assert(t == s);
    } else {
        let name0 = cart[0].0@;
        let q0 = cart[0].1;
        let rest = cart.skip(1);
        assert(stock_of(s, name0) is Some);
        let e0 = stock_of(s, name0).unwrap();
        let i0 = name_index(s, name0);
        assert(0 <= i0 < s.len() && s[i0].0@ == name0);
        let upd = (s[i0].0, (e0.0 - q0) as u8, e0.1);
        let s2 = s.update(i0, upd);
        lemma_stock_of_update(s, i0, upd);
        assert(apply_line(s, name0, q0) == Ok::<Seq<LineItem>, ShopError>(s2));
        assert(apply_cart(s2, rest) == Ok::<Seq<LineItem>, ShopError>(t));
        lemma_apply_cart_stock(s2, rest, t);
        assert forall|n: Seq<char>| (#[trigger] stock_of(s, n)) is Some implies {
            let entry = stock_of(s, n).unwrap();
            0 <= cart_qty(cart, n) <= entry.0 && stock_of(t, n) == Some(
                (((entry.0 - cart_qty(cart, n)) as u8), entry.1),
            )
        } by {
            let entry = stock_of(s, n).unwrap();
            if n == name0 {
                assert(stock_of(s2, n) == Some((((e0.0 - q0) as u8), e0.1)));
                assert(cart_qty(cart, n) == q0 + cart_qty(rest, n));
            } else {
                assert(stock_of(s2, n) == stock_of(s, n));
                assert(cart_qty(cart, n) == cart_qty(rest, n));
            }
        }
        assert forall|n: Seq<char>| (#[trigger] stock_of(s, n)) is None implies cart_qty(
            cart,
            n,
        ) == 0 by {
            assert(n != name0);
            assert(stock_of(s2, n) is None);
            assert(cart_qty(cart, n) == cart_qty(rest, n));
        }
    }
}

/// Replacing the entry at `i` shifts the inventory's value by the difference
/// between the new and the old entry's stock-times-price.
proof fn lemma_stock_value_update(s: Seq<LineItem>, i: int, e: LineItem)
    requires
        0 <= i < s.len(),
    ensures
        stock_value(s.update(i, e)) == stock_value(s) - s[i].1 * s[i].2 + e.1 * e.2,
    decreases s.len(),
{
    let t = s.update(i, e);
    if i == 0 {
        assert(t[0] == e);
        assert(t.skip(1) =~= s.skip(1));
    } else {
        assert(t[0] == s[0]);
        assert(t.skip(1) =~= s.skip(1).update(i - 1, e));
        lemma_stock_value_update(s.skip(1), i - 1, e);
    }
}

/// Law: when every cart line's snapshot price still matches the inventory's
/// price for its product, a successful settlement lowers the inventory's
/// total value — the sum of each product's stock decrease times its price —
/// by exactly the cart total, which is what the balance drops by at a
/// successful checkout.
pub proof fn lemma_apply_cart_value(s: Seq<LineItem>, cart: Seq<LineItem>, t: Seq<LineItem>)
    requires
        distinct_names(s),
        apply_cart(s, cart) == Ok::<Seq<LineItem>, ShopError>(t),
        forall|k: int|
            0 <= k < cart.len() ==> ((#[trigger] stock_of(s, cart[k].0@)) matches Some(entry)
                && entry.1 == cart[k].2),
    ensures
        stock_value(s) - stock_value(t) == cart_total(cart),
    decreases cart.len(),
{
    if cart.len() == 0 {
        assert(t == s);
    } else {
        let name0 = cart[0].0@;
        let q0 = cart[0].1;
        let rest = cart.skip(1);
        assert(stock_of(s, cart[0].0@) matches Some(entry) && entry.1 == cart[0].2);
        let e0 = stock_of(s, name0).unwrap();
        let i0 = name_index(s, name0);
        assert(0 <= i0 < s.len() && s[i0].0@ == name0);
        assert(s[i0].1 == e0.0 && s[i0].2 == e0.1);
        let upd = (s[i0].0, (e0.0 - q0) as u8, e0.1);
        let s2 = s.update(i0, upd);
        lemma_stock_of_update(s, i0, upd);
        assert(apply_line(s, name0, q0) == Ok::<Seq<LineItem>, ShopError>(s2));
        assert(apply_cart(s2, rest) == Ok::<Seq<LineItem>, ShopError>(t));
        lemma_stock_value_update(s, i0, upd);
        assert(e0.0 * e0.1 - (e0.0 - q0) as u8 * e0.1 == q0 * e0.1) by (nonlinear_arith)
            requires
                0 <= q0 <= e0.0,
        ;
        assert forall|k: int|
            0 <= k < rest.len() implies ((#[trigger] stock_of(s2, rest[k].0@)) matches Some(entry)
            && entry.1 == rest[k].2) by {
            assert(rest[k] == cart[k + 1]);
            assert(stock_of(s, cart[k + 1].0@) matches Some(entry) && entry.1 == cart[k + 1].2);
            if rest[k].0@ == name0 {
                assert(stock_of(s2, rest[k].0@) == Some((((e0.0 - q0) as u8), e0.1)));
            } else {
                assert(stock_of(s2, rest[k].0@) == stock_of(s, rest[k].0@));
            }
        }
        lemma_apply_cart_value(s2, rest, t);
        assert(e0.1 == cart[0].2);
        assert(cart_total(cart) == q0 * cart[0].2 + cart_total(rest));
    }
}

/// Law: checking out an already-cleared cart is a no-op that cannot fail:
/// an empty cart's total is zero, so no balance is too small for it, and
/// settling it returns the inventory unchanged.
pub proof fn lemma_empty_cart_checkout(s: Seq<LineItem>)
    ensures
        cart_total(Seq::<LineItem>::empty()) == 0,
        apply_cart(s, Seq::<LineItem>::empty()) == Ok::<Seq<LineItem>, ShopError>(s),
{
}

} // verus!
