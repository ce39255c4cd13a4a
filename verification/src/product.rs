//! The records: a product as the store holds it, and a product as a line of
//! text shows it.

use vstd::prelude::*;

verus! {

/// A price: the bit pattern of a binary64 number.
///
/// Two prices are the same when their bits are.
#[derive(Clone, Copy, Debug, PartialEq, Eq, Structural)]
pub struct Price {
    pub bits: u64,
}

impl Price {
    /// The price with the given bit pattern.
    pub fn from_bits(bits: u64) -> (price: Price)
        ensures
            price.bits == bits,
    {
        Price { bits }
    }

    /// The bit pattern of this price.
    pub fn to_bits(self) -> (bits: u64)
        ensures
            bits == self.bits,
    {
        self.bits
    }
}

/// One product. Its name is the key under which the store files it.
#[derive(Debug, PartialEq)]
pub struct Product {
    pub name: String,
    pub description: String,
    pub price: Price,
    pub quantity: i32,
}

/// What a product holds, as mathematical values.
pub struct ProductView {
    pub name: Seq<char>,
    pub description: Seq<char>,
    pub price: Price,
    pub quantity: i32,
}

impl View for Product {
    type V = ProductView;

    open spec fn view(&self) -> ProductView {
        ProductView {
            name: self.name@,
            description: self.description@,
            price: self.price,
            quantity: self.quantity,
        }
    }
}

impl Clone for Product {
    fn clone(&self) -> (copy: Product)
        ensures
            copy@ == self@,
    {
        Product {
            name: self.name.clone(),
            description: self.description.clone(),
            price: self.price,
            quantity: self.quantity,
        }
    }
}

/// A product as a line of the file or of the report shows it: the price is
/// kept as the text that writes it.
#[derive(Debug, PartialEq)]
pub struct Row {
    pub name: String,
    pub description: String,
    pub price: String,
    pub quantity: i32,
}

/// What a row holds, as mathematical values.
pub struct RowView {
    pub name: Seq<char>,
    pub description: Seq<char>,
    pub price: Seq<char>,
    pub quantity: i32,
}

impl View for Row {
    type V = RowView;

    open spec fn view(&self) -> RowView {
        RowView {
            name: self.name@,
            description: self.description@,
            price: self.price@,
            quantity: self.quantity,
        }
    }
}

impl Clone for Row {
    fn clone(&self) -> (copy: Row)
        ensures
            copy@ == self@,
    {
        Row {
            name: self.name.clone(),
            description: self.description.clone(),
            price: self.price.clone(),
            quantity: self.quantity,
        }
    }
}

impl RowView {
    /// The product that this row shows, once its price is known as a number.
    pub open spec fn with_price(self, price: Price) -> ProductView {
        ProductView {
            name: self.name,
            description: self.description,
            price,
            quantity: self.quantity,
        }
    }
}

impl ProductView {
    /// The row that shows this product, given the text that writes its price.
    pub open spec fn with_price_text(self, price: Seq<char>) -> RowView {
        RowView { name: self.name, description: self.description, price, quantity: self.quantity }
    }
}

impl Row {
    /// The row that shows `product`, given the text that writes its price.
    pub fn of_product(product: &Product, price: String) -> (row: Row)
        ensures
            row@ == product@.with_price_text(price@),
    {
        Row {
            name: product.name.clone(),
            description: product.description.clone(),
            price,
            quantity: product.quantity,
        }
    }

    /// The product that this row shows, given the number that its price text
    /// writes.
    pub fn into_product(self, price: Price) -> (product: Product)
        ensures
            product@ == self@.with_price(price),
    {
        Product {
            name: self.name,
            description: self.description,
            price,
            quantity: self.quantity,
        }
    }
}

/// What each of the products holds, in the same order.
pub open spec fn product_views(products: Seq<Product>) -> Seq<ProductView> {
    Seq::new(products.len(), |i: int| products[i]@)
}

/// What each of the rows holds, in the same order.
pub open spec fn row_views(rows: Seq<Row>) -> Seq<RowView> {
    Seq::new(rows.len(), |i: int| rows[i]@)
}

} // verus!
