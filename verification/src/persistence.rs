//! Between the store and its text: the rows that show a store, the store
//! that rows fill, and what holds of a store that is written out and read
//! back.
//!
//! A row shows a price as text, a product holds it as a number. Which text
//! writes which number is the caller's matter: the caller hands in the
//! texts for the prices, or the prices for the texts, in the order of the
//! products. What is stated here holds whatever they are.

use vstd::prelude::*;
use crate::codec::{is_writable, lemma_text_round_trip, parse_lines, render_rows, split_lines};
use crate::error::InventoryError;
use crate::store::{
    Entries,
    Inventory,
    keyed_by_name,
    lemma_listing_refills,
    listing,
    upsert_all,
};
use crate::product::{Price, Product, ProductView, Row, RowView, product_views, row_views};
use crate::report::{is_one_line_row, lemma_report_lines, report_line, report_text};

verus! {

/// The rows that show `products`, where `prices[i]` is the text that writes
/// the price of the product at `i`.
pub open spec fn rows_of(products: Seq<ProductView>, prices: Seq<Seq<char>>) -> Seq<RowView> {
    Seq::new(products.len(), |i: int| products[i].with_price_text(prices[i]))
}

/// The products that `rows` show, where `prices[i]` is the number that the
/// price text of the row at `i` writes.
pub open spec fn products_of(rows: Seq<RowView>, prices: Seq<Price>) -> Seq<ProductView> {
    Seq::new(rows.len(), |i: int| rows[i].with_price(prices[i]))
}

/// What each of the strings holds, in the same order.
pub open spec fn text_views(texts: Seq<String>) -> Seq<Seq<char>> {
    Seq::new(texts.len(), |i: int| texts[i]@)
}

/// The prices of `products`, in the same order.
pub open spec fn prices_of(products: Seq<ProductView>) -> Seq<Price> {
    Seq::new(products.len(), |i: int| products[i].price)
}

/// The rows that show the store's products, in the order in which
/// `products` lists them, where `prices[i]` is the text that writes the
/// price of the product at `i`. There are none where the number of texts is
/// not the number of entries.
pub fn rows_of_store(inventory: &Inventory, prices: &Vec<String>) -> (rows: Option<Vec<Row>>)
    ensures
        match rows {
            Some(rows) => prices@.len() == inventory@.dom().len() && row_views(rows@) == rows_of(
                listing(inventory@, inventory.key_order()),
                text_views(prices@),
            ),
            None => prices@.len() != inventory@.dom().len(),
        },
{
    let products = inventory.products();
    if prices.len() != products.len() {
        return None;
    }
    let ghost shown = rows_of(product_views(products@), text_views(prices@));
    let mut rows: Vec<Row> = Vec::new();
    let mut i: usize = 0;
    while i < products.len()
        invariant
            i <= products.len(),
            prices.len() == products.len(),
            shown == rows_of(product_views(products@), text_views(prices@)),
            row_views(rows@) == shown.take(i as int),
        decreases products.len() - i,
    {
        let row = Row::of_product(&products[i], prices[i].clone());
        let ghost before = row_views(rows@);
        rows.push(row);
        proof {
            assert(row_views(rows@) =~= before.push(row@));
            assert(shown.take(i as int + 1) =~= shown.take(i as int).push(shown[i as int]));
        }
        i += 1;
    }
    proof {
        assert(shown.take(products@.len() as int) =~= shown);
    }
    Some(rows)
}

/// The store that results from filing, in order, the products that `rows`
/// show, where `prices[i]` is the number that the price text of the row at
/// `i` writes. There is none where the number of prices is not the number
/// of rows.
pub fn store_of_rows(rows: Vec<Row>, prices: &Vec<Price>) -> (inventory: Option<Inventory>)
    ensures
        match inventory {
            Some(inventory) => prices@.len() == rows@.len() && inventory@ == upsert_all(
                Entries::empty(),
                products_of(row_views(rows@), prices@),
            ),
            None => prices@.len() != rows@.len(),
        },
{
    if prices.len() != rows.len() {
        return None;
    }
    let ghost filed = products_of(row_views(rows@), prices@);
    let mut products: Vec<Product> = Vec::new();
    let mut i: usize = 0;
    while i < rows.len()
        invariant
            i <= rows.len(),
            prices.len() == rows.len(),
            filed == products_of(row_views(rows@), prices@),
            product_views(products@) == filed.take(i as int),
        decreases rows.len() - i,
    {
        let product = rows[i].clone().into_product(prices[i]);
        let ghost before = product_views(products@);
        products.push(product);
        proof {
            assert(product_views(products@) =~= before.push(product@));
            assert(filed.take(i as int + 1) =~= filed.take(i as int).push(filed[i as int]));
        }
        i += 1;
    }
    proof {
        assert(filed.take(rows@.len() as int) =~= filed);
    }
    Some(Inventory::from_products(products))
}

/// A store that is written out and read back is the same store: the text
/// reads back as the rows that were written, and those rows, each given its
/// price back as a number, refill a store with the same entries.
///
/// This holds of a store in which every product stands under its own name,
/// no name or description holds a comma or a line feed, and each price is
/// written by the text of a price. `keys` lists the store's keys in the
/// order of writing.
pub proof fn lemma_store_round_trip(entries: Entries, keys: Seq<Seq<char>>, prices: Seq<Seq<char>>)
    requires
        keyed_by_name(entries),
        keys.to_set() == entries.dom(),
        prices.len() == keys.len(),
        forall|i: int|
            0 <= i < keys.len() ==> is_writable(
                #[trigger] rows_of(listing(entries, keys), prices)[i],
            ),
    ensures
        parse_lines(render_rows(rows_of(listing(entries, keys), prices))) == Ok::<
            Seq<RowView>,
            InventoryError,
        >(rows_of(listing(entries, keys), prices)),
        upsert_all(
            Entries::empty(),
            products_of(
                rows_of(listing(entries, keys), prices),
                prices_of(listing(entries, keys)),
            ),
        ) == entries,
{
    let products = listing(entries, keys);
    let rows = rows_of(products, prices);
    lemma_text_round_trip(rows);
    assert(products_of(rows, prices_of(products)) =~= products);
    lemma_listing_refills(entries, keys);
}

/// The report on a store has, below its two lines of heading, exactly one
/// line for each entry, which shows that entry's name, description, price
/// and quantity; provided no name, description or price text holds a line
/// feed. `keys` lists the store's keys, each once, in the order of the
/// report.
pub proof fn lemma_report_of_store(entries: Entries, keys: Seq<Seq<char>>, prices: Seq<Seq<char>>)
    requires
        keys.no_duplicates(),
        keys.to_set() == entries.dom(),
        prices.len() == keys.len(),
        forall|i: int|
            0 <= i < keys.len() ==> is_one_line_row(
                #[trigger] rows_of(listing(entries, keys), prices)[i],
            ),
    ensures
        split_lines(report_text(rows_of(listing(entries, keys), prices))).len()
            == entries.dom().len() + 2,
        forall|i: int|
            0 <= i < keys.len() ==> #[trigger] split_lines(
                report_text(rows_of(listing(entries, keys), prices)),
            )[i + 2] == report_line(entries[keys[i]].with_price_text(prices[i])),
{
    let rows = rows_of(listing(entries, keys), prices);
    lemma_report_lines(rows);
    keys.unique_seq_to_set();
}

} // verus!
