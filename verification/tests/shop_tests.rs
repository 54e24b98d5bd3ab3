use minishop::client::Client;
use minishop::model::ShopError;
use minishop::shop::Shop;

fn demo_shop() -> Shop {
    Shop::new(vec![
        ("milk".to_string(), 10, 1500),
        ("cereal".to_string(), 10, 2500),
    ])
}

#[test]
fn new_lookup_returns_listed_entries() {
    let shop = demo_shop();
    assert_eq!(shop.get(&"milk".to_string()), Some((10, 1500)));
    assert_eq!(shop.get(&"cereal".to_string()), Some((10, 2500)));
    assert_eq!(shop.get(&"bread".to_string()), None);
}

#[test]
fn new_duplicate_names_last_write_wins() {
    let shop = Shop::new(vec![
        ("tea".to_string(), 1, 10),
        ("coffee".to_string(), 7, 30),
        ("tea".to_string(), 2, 20),
    ]);
    assert_eq!(shop.get(&"tea".to_string()), Some((2, 20)));
    assert_eq!(shop.get(&"coffee".to_string()), Some((7, 30)));
}

#[test]
fn new_empty_inventory() {
    let shop = Shop::new(vec![]);
    assert_eq!(shop.get(&"milk".to_string()), None);
}

#[test]
fn buy_does_not_change_inventory() {
    let mut shop = demo_shop();
    let mut client = Client::new(10000);
    assert_eq!(shop.buy(&mut client, "milk".to_string(), 5), Ok(()));
    assert_eq!(
        shop.buy(&mut client, "milk".to_string(), 11),
        Err(ShopError::InsufficientStock)
    );
    assert_eq!(
        shop.buy(&mut client, "bread".to_string(), 1),
        Err(ShopError::ProductNotFound)
    );
    assert_eq!(shop.get(&"milk".to_string()), Some((10, 1500)));
    assert_eq!(shop.get(&"cereal".to_string()), Some((10, 2500)));
}

#[test]
fn buy_insufficient_stock_fails_and_cart_unchanged() {
    let mut shop = demo_shop();
    let mut client = Client::new(100_000);
    assert_eq!(
        shop.buy(&mut client, "milk".to_string(), 11),
        Err(ShopError::InsufficientStock)
    );
    assert_eq!(client.shopping_cart().len(), 0);
    assert_eq!(client.balance, 100_000);
}

#[test]
fn buy_unknown_product_fails_and_cart_unchanged() {
    let mut shop = demo_shop();
    let mut client = Client::new(100_000);
    assert_eq!(
        shop.buy(&mut client, "bread".to_string(), 1),
        Err(ShopError::ProductNotFound)
    );
    assert_eq!(client.shopping_cart().len(), 0);
    assert_eq!(client.balance, 100_000);
}

#[test]
fn buy_boundary_exact_exhaustion() {
    let mut shop = demo_shop();
    let mut client = Client::new(100_000);
    assert_eq!(
        shop.buy(&mut client, "milk".to_string(), 11),
        Err(ShopError::InsufficientStock)
    );
    assert_eq!(shop.buy(&mut client, "milk".to_string(), 10), Ok(()));
    assert_eq!(
        client.shopping_cart()[0],
        ("milk".to_string(), 10, 1500)
    );
}

#[test]
fn cart_preserves_insertion_order_and_price_snapshots() {
    let mut shop = demo_shop();
    let mut client = Client::new(10000);
    assert_eq!(shop.buy(&mut client, "milk".to_string(), 5), Ok(()));
    assert_eq!(
        client.shopping_cart().as_slice(),
        &[("milk".to_string(), 5, 1500)]
    );
    assert_eq!(shop.buy(&mut client, "cereal".to_string(), 1), Ok(()));
    assert_eq!(
        client.shopping_cart().as_slice(),
        &[
            ("milk".to_string(), 5, 1500),
            ("cereal".to_string(), 1, 2500)
        ]
    );
}

#[test]
fn clear_cart_empties_cart_and_keeps_balance() {
    let mut shop = demo_shop();
    let mut client = Client::new(10000);
    assert_eq!(shop.buy(&mut client, "milk".to_string(), 2), Ok(()));
    client.clear_cart();
    assert_eq!(client.shopping_cart().len(), 0);
    assert_eq!(client.balance, 10000);
}

#[test]
fn checkout_insufficient_balance_leaves_state() {
    let mut shop = demo_shop();
    let mut client = Client::new(1000);
    assert_eq!(shop.buy(&mut client, "milk".to_string(), 1), Ok(()));
    assert_eq!(
        shop.checkout(&mut client),
        Err(ShopError::InsufficientBalance)
    );
    assert_eq!(client.balance, 1000);
    assert_eq!(
        client.shopping_cart().as_slice(),
        &[("milk".to_string(), 1, 1500)]
    );
    assert_eq!(shop.get(&"milk".to_string()), Some((10, 1500)));
}

#[test]
fn checkout_success_updates_balance_stock_and_cart() {
    let mut shop = demo_shop();
    let mut client = Client::new(10000);
    assert_eq!(shop.buy(&mut client, "milk".to_string(), 3), Ok(()));
    assert_eq!(shop.buy(&mut client, "cereal".to_string(), 2), Ok(()));
    let total = 3 * 1500 + 2 * 2500;
    assert_eq!(shop.checkout(&mut client), Ok(()));
    assert_eq!(client.balance, 10000 - total);
    assert_eq!(client.shopping_cart().len(), 0);
    assert_eq!(shop.get(&"milk".to_string()), Some((7, 1500)));
    assert_eq!(shop.get(&"cereal".to_string()), Some((8, 2500)));
    // The stock decrease, valued at each product's price, accounts exactly
    // for the balance decrease.
    let value_drop = (10 - 7) * 1500 + (10 - 8) * 2500;
    assert_eq!(value_drop, total);
}

#[test]
fn checkout_twice_on_cleared_cart_is_noop() {
    let mut shop = demo_shop();
    let mut client = Client::new(10000);
    assert_eq!(shop.buy(&mut client, "milk".to_string(), 2), Ok(()));
    assert_eq!(shop.checkout(&mut client), Ok(()));
    let balance_after = client.balance;
    assert_eq!(shop.checkout(&mut client), Ok(()));
    assert_eq!(client.balance, balance_after);
    assert_eq!(client.shopping_cart().len(), 0);
    assert_eq!(shop.get(&"milk".to_string()), Some((8, 1500)));
}

#[test]
fn checkout_repeated_lines_deplete_stock_cumulatively() {
    let mut shop = demo_shop();
    let mut client = Client::new(100_000);
    assert_eq!(shop.buy(&mut client, "milk".to_string(), 5), Ok(()));
    assert_eq!(shop.buy(&mut client, "milk".to_string(), 5), Ok(()));
    assert_eq!(shop.checkout(&mut client), Ok(()));
    assert_eq!(shop.get(&"milk".to_string()), Some((0, 1500)));
    assert_eq!(client.balance, 100_000 - 10 * 1500);
}

#[test]
fn checkout_repeated_lines_over_stock_fail_atomically() {
    let mut shop = demo_shop();
    let mut client = Client::new(100_000);
    // Each reservation passes on its own (6 <= 10), but together they ask
    // for more than the stock; checkout must refuse and change nothing.
    assert_eq!(shop.buy(&mut client, "milk".to_string(), 6), Ok(()));
    assert_eq!(shop.buy(&mut client, "milk".to_string(), 6), Ok(()));
    assert_eq!(
        shop.checkout(&mut client),
        Err(ShopError::InsufficientStock)
    );
    assert_eq!(client.balance, 100_000);
    assert_eq!(client.shopping_cart().len(), 2);
    assert_eq!(shop.get(&"milk".to_string()), Some((10, 1500)));
}

#[test]
fn checkout_stale_cart_product_not_found() {
    let mut shop = demo_shop();
    let mut client = Client::new(100_000);
    assert_eq!(shop.buy(&mut client, "milk".to_string(), 1), Ok(()));
    // A line item whose product the shop never carried: reachable because
    // the cart validates nothing at insertion time.
    client.add_product(("bread".to_string(), 1, 100));
    assert_eq!(
        shop.checkout(&mut client),
        Err(ShopError::ProductNotFound)
    );
    // All or nothing: the milk line was not applied either.
    assert_eq!(client.balance, 100_000);
    assert_eq!(client.shopping_cart().len(), 2);
    assert_eq!(shop.get(&"milk".to_string()), Some((10, 1500)));
}

#[test]
fn checkout_stale_cart_insufficient_stock() {
    let mut shop = demo_shop();
    let mut client = Client::new(100_000);
    client.add_product(("milk".to_string(), 20, 1500));
    assert_eq!(
        shop.checkout(&mut client),
        Err(ShopError::InsufficientStock)
    );
    assert_eq!(client.balance, 100_000);
    assert_eq!(client.shopping_cart().len(), 1);
    assert_eq!(shop.get(&"milk".to_string()), Some((10, 1500)));
}

#[test]
fn checkout_balance_check_comes_first() {
    let mut shop = demo_shop();
    let mut client = Client::new(10);
    // The cart both exceeds the balance and names an unknown product; the
    // balance check is made first.
    client.add_product(("bread".to_string(), 1, 100));
    assert_eq!(
        shop.checkout(&mut client),
        Err(ShopError::InsufficientBalance)
    );
    assert_eq!(client.balance, 10);
    assert_eq!(client.shopping_cart().len(), 1);
}

#[test]
fn end_to_end_demo_scenario() {
    let mut shop = Shop::new(vec![
        ("milk".to_string(), 10, 1500),
        ("cereal".to_string(), 10, 2500),
    ]);
    let mut client = Client::new(10000);
    assert_eq!(shop.buy(&mut client, "milk".to_string(), 5), Ok(()));
    assert_eq!(
        client.shopping_cart().as_slice(),
        &[("milk".to_string(), 5, 1500)]
    );
    assert_eq!(shop.buy(&mut client, "cereal".to_string(), 1), Ok(()));
    assert_eq!(
        client.shopping_cart().as_slice(),
        &[
            ("milk".to_string(), 5, 1500),
            ("cereal".to_string(), 1, 2500)
        ]
    );
    assert_eq!(shop.checkout(&mut client), Ok(()));
    assert_eq!(client.balance, 0);
    assert_eq!(client.shopping_cart().len(), 0);
    assert_eq!(shop.get(&"milk".to_string()), Some((5, 1500)));
    assert_eq!(shop.get(&"cereal".to_string()), Some((9, 2500)));
}
