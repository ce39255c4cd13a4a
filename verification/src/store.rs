//! The store: a finite map from keys to products.
//!
//! `add_product` files a product under its own name. `edit_product` replaces
//! what is filed under a key and leaves the key as it is, also where the new
//! product bears another name; from then on that entry's key and name differ.
//!
//! The entries lie in a vector, and a hash map from each key to its place in
//! the vector finds them.

use vstd::prelude::*;
use vstd::hash_map::StringHashMap;
use crate::error::InventoryError;
use crate::product::{Product, ProductView, product_views};

verus! {

/// What a store holds: products by key.
pub type Entries = Map<Seq<char>, ProductView>;

/// A product and the key under which it is filed.
struct Entry {
    key: String,
    product: Product,
}

/// The key of the entry at `i`.
spec fn key_at(entries: Seq<Entry>, i: int) -> Seq<char> {
    entries[i].key@
}

/// No two entries have one key.
spec fn distinct_keys(entries: Seq<Entry>) -> bool {
    forall|i: int, j: int|
        0 <= i < j < entries.len() ==> #[trigger] key_at(entries, i) != #[trigger] key_at(
            entries,
            j,
        )
}

/// Some entry has the key `key`.
spec fn has_key(entries: Seq<Entry>, key: Seq<char>) -> bool {
    exists|i: int| 0 <= i < entries.len() && #[trigger] key_at(entries, i) == key
}

/// The map that the entries make up: each key with its product.
spec fn map_of(entries: Seq<Entry>) -> Entries
    decreases entries.len(),
{
    if entries.len() == 0 {
        Map::empty()
    } else {
        map_of(entries.drop_last()).insert(entries.last().key@, entries.last().product@)
    }
}

proof fn lemma_map_of_dom(entries: Seq<Entry>, key: Seq<char>)
    ensures
        map_of(entries).contains_key(key) <==> has_key(entries, key),
    decreases entries.len(),
{
    if entries.len() > 0 {
        let front = entries.drop_last();
        lemma_map_of_dom(front, key);
        if has_key(entries, key) {
            let i = choose|i: int| 0 <= i < entries.len() && #[trigger] key_at(entries, i) == key;
            if i < entries.len() - 1 {
                assert(key_at(front, i) == key);
            }
        }
        if map_of(entries).contains_key(key) {
            if entries.last().key@ == key {
                assert(key_at(entries, entries.len() - 1) == key);
            } else {
                let i = choose|i: int| 0 <= i < front.len() && #[trigger] key_at(front, i) == key;
                assert(key_at(entries, i) == key);
            }
        }
    }
}

proof fn lemma_distinct_front(entries: Seq<Entry>)
    requires
        distinct_keys(entries),
        entries.len() > 0,
    ensures
        distinct_keys(entries.drop_last()),
        !has_key(entries.drop_last(), entries.last().key@),
{
    let front = entries.drop_last();
    assert forall|i: int, j: int| 0 <= i < j < front.len() implies #[trigger] key_at(front, i)
        != #[trigger] key_at(front, j) by {
        assert(key_at(entries, i) != key_at(entries, j));
    }
    if has_key(front, entries.last().key@) {
        let i = choose|i: int|
            0 <= i < front.len() && #[trigger] key_at(front, i) == entries.last().key@;
        assert(key_at(entries, i) != key_at(entries, entries.len() - 1));
    }
}

proof fn lemma_map_of_index(entries: Seq<Entry>, i: int)
    requires
        distinct_keys(entries),
        0 <= i < entries.len(),
    ensures
        map_of(entries).contains_key(entries[i].key@),
        map_of(entries)[entries[i].key@] == entries[i].product@,
    decreases entries.len(),
{
    if i < entries.len() - 1 {
        lemma_distinct_front(entries);
        lemma_map_of_index(entries.drop_last(), i);
        assert(key_at(entries, i) != key_at(entries, entries.len() - 1));
    }
}

proof fn lemma_map_of_len(entries: Seq<Entry>)
    requires
        distinct_keys(entries),
    ensures
        map_of(entries).dom().finite(),
        map_of(entries).dom().len() == entries.len(),
    decreases entries.len(),
{
    if entries.len() > 0 {
        lemma_distinct_front(entries);
        lemma_map_of_len(entries.drop_last());
        lemma_map_of_dom(entries.drop_last(), entries.last().key@);
    }
}

proof fn lemma_map_of_update(entries: Seq<Entry>, i: int, entry: Entry)
    requires
        distinct_keys(entries),
        0 <= i < entries.len(),
        entry.key@ == entries[i].key@,
    ensures
        distinct_keys(entries.update(i, entry)),
        map_of(entries.update(i, entry)) == map_of(entries).insert(entry.key@, entry.product@),
{
    let after = entries.update(i, entry);
    assert forall|a: int| 0 <= a < entries.len() implies key_at(after, a) == key_at(
        entries,
        a,
    ) by {}
    assert forall|a: int, b: int| 0 <= a < b < after.len() implies #[trigger] key_at(after, a)
        != #[trigger] key_at(after, b) by {
        assert(key_at(entries, a) != key_at(entries, b));
    }
    let left = map_of(after);
    let right = map_of(entries).insert(entry.key@, entry.product@);
    assert forall|k: Seq<char>| left.contains_key(k) <==> right.contains_key(k) by {
        lemma_map_of_dom(after, k);
        lemma_map_of_dom(entries, k);
        if has_key(after, k) {
            let a = choose|a: int| 0 <= a < after.len() && #[trigger] key_at(after, a) == k;
            assert(key_at(entries, a) == k);
        }
        if has_key(entries, k) {
            let a = choose|a: int| 0 <= a < entries.len() && #[trigger] key_at(entries, a) == k;
            assert(key_at(after, a) == k);
        }
        assert(key_at(entries, i) == entry.key@);
    }
    assert forall|k: Seq<char>| left.contains_key(k) implies left[k] == right[k] by {
        lemma_map_of_dom(after, k);
        let a = choose|a: int| 0 <= a < after.len() && #[trigger] key_at(after, a) == k;
        lemma_map_of_index(after, a);
        if a != i {
            lemma_map_of_index(entries, a);
            if a < i {
                assert(key_at(entries, a) != key_at(entries, i));
            } else {
                assert(key_at(entries, i) != key_at(entries, a));
            }
        }
    }
    assert(left =~= right);
}

proof fn lemma_map_of_swap_remove(entries: Seq<Entry>, i: int)
    requires
        distinct_keys(entries),
        0 <= i < entries.len(),
    ensures
        distinct_keys(entries.update(i, entries.last()).drop_last()),
        map_of(entries.update(i, entries.last()).drop_last()) == map_of(entries).remove(
            entries[i].key@,
        ),
{
    let after = entries.update(i, entries.last()).drop_last();
    let gone = entries[i].key@;
    let last = entries.len() - 1;
    assert forall|a: int| 0 <= a < after.len() implies key_at(after, a) == key_at(
        entries,
        if a == i {
            last
        } else {
            a
        },
    ) by {}
    assert forall|a: int, b: int| 0 <= a < b < after.len() implies #[trigger] key_at(after, a)
        != #[trigger] key_at(after, b) by {
        let a0 = if a == i {
            last
        } else {
            a
        };
        let b0 = if b == i {
            last
        } else {
            b
        };
        if a0 < b0 {
            assert(key_at(entries, a0) != key_at(entries, b0));
        } else {
            assert(key_at(entries, b0) != key_at(entries, a0));
        }
    }
    let left = map_of(after);
    let right = map_of(entries).remove(gone);
    assert forall|k: Seq<char>| left.contains_key(k) <==> right.contains_key(k) by {
        lemma_map_of_dom(after, k);
        lemma_map_of_dom(entries, k);
        if has_key(after, k) {
            let a = choose|a: int| 0 <= a < after.len() && #[trigger] key_at(after, a) == k;
            let a0 = if a == i {
                last
            } else {
                a
            };
            assert(key_at(entries, a0) == k);
            if a0 < i {
                assert(key_at(entries, a0) != key_at(entries, i));
            } else {
                assert(key_at(entries, i) != key_at(entries, a0));
            }
        }
        if has_key(entries, k) && k != gone {
            let a = choose|a: int| 0 <= a < entries.len() && #[trigger] key_at(entries, a) == k;
            let a1 = if a == last {
                i
            } else {
                a
            };
            assert(key_at(after, a1) == k);
        }
    }
    assert forall|k: Seq<char>| left.contains_key(k) implies left[k] == right[k] by {
        lemma_map_of_dom(after, k);
        let a = choose|a: int| 0 <= a < after.len() && #[trigger] key_at(after, a) == k;
        let a0 = if a == i {
            last
        } else {
            a
        };
        lemma_map_of_index(after, a);
        lemma_map_of_index(entries, a0);
    }
    assert(left =~= right);
}

/// The entries and the map that finds them.
struct Shelf {
    entries: Vec<Entry>,
    places: StringHashMap<usize>,
}

/// `places` holds each entry's key with the entry's place, and nothing else.
spec fn places_agree(entries: Seq<Entry>, places: Map<Seq<char>, usize>) -> bool {
    &&& forall|i: int|
        0 <= i < entries.len() ==> places.contains_key(#[trigger] key_at(entries, i))
            && places[key_at(entries, i)] == i
    &&& forall|k: Seq<char>| #[trigger]
        places.contains_key(k) ==> places[k] < entries.len() && key_at(
            entries,
            places[k] as int,
        ) == k
}

proof fn lemma_places_distinct(entries: Seq<Entry>, places: Map<Seq<char>, usize>)
    requires
        places_agree(entries, places),
    ensures
        distinct_keys(entries),
{
    assert forall|i: int, j: int| 0 <= i < j < entries.len() implies #[trigger] key_at(entries, i)
        != #[trigger] key_at(entries, j) by {
        assert(places[key_at(entries, i)] == i);
        assert(places[key_at(entries, j)] == j);
    }
}

impl Shelf {
    spec fn agrees(self) -> bool {
        places_agree(self.entries@, self.places@)
    }

    fn new() -> (shelf: Shelf)
        ensures
            shelf.agrees(),
            shelf.entries@.len() == 0,
    {
        Shelf { entries: Vec::new(), places: StringHashMap::new() }
    }

    /// The place of the entry filed under `name`, if there is one.
    fn find(&self, name: &str) -> (found: Option<usize>)
        requires
            self.agrees(),
        ensures
            match found {
                Some(i) => i < self.entries@.len() && key_at(self.entries@, i as int) == name@,
                None => !has_key(self.entries@, name@),
            },
    {
        match self.places.get(name) {
            Some(place) => Some(*place),
            None => None,
        }
    }
}

/// The map that results from filing each of `products` under its name, one
/// after the other, starting from `entries`: where two bear the same name,
/// the later one stays.
pub open spec fn upsert_all(entries: Entries, products: Seq<ProductView>) -> Entries
    decreases products.len(),
{
    if products.len() == 0 {
        entries
    } else {
        upsert_all(entries, products.drop_last()).insert(products.last().name, products.last())
    }
}

/// The products filed under `keys`, in that order.
pub open spec fn listing(entries: Entries, keys: Seq<Seq<char>>) -> Seq<ProductView> {
    Seq::new(keys.len(), |i: int| entries[keys[i]])
}

/// Every product is filed under its own name.
pub open spec fn keyed_by_name(entries: Entries) -> bool {
    forall|key: Seq<char>| entries.contains_key(key) ==> (#[trigger] entries[key]).name == key
}

/// The inventory: products filed by key, no key twice.
pub struct Inventory {
    shelf: Shelf,
}

impl View for Inventory {
    type V = Entries;

    closed spec fn view(&self) -> Entries {
        map_of(self.shelf.entries@)
    }
}

impl Inventory {
    #[verifier::type_invariant]
    spec fn well_formed(self) -> bool {
        self.shelf.agrees()
    }

    /// The keys in the order in which `products` lists what is filed under
    /// them.
    pub closed spec fn key_order(&self) -> Seq<Seq<char>> {
        Seq::new(self.shelf.entries@.len(), |i: int| key_at(self.shelf.entries@, i))
    }

    /// An empty inventory.
    pub fn new() -> (inventory: Inventory)
        ensures
            inventory@ == Entries::empty(),
    {
        Inventory { shelf: Shelf::new() }
    }

    /// The number of entries.
    pub fn len(&self) -> (n: usize)
        ensures
            self@.dom().finite(),
            n == self@.dom().len(),
    {
        proof {
            use_type_invariant(self);
            lemma_places_distinct(self.shelf.entries@, self.shelf.places@);
            lemma_map_of_len(self.shelf.entries@);
        }
        self.shelf.entries.len()
    }

    /// Whether there is no entry.
    pub fn is_empty(&self) -> (empty: bool)
        ensures
            empty == (self@ == Entries::empty()),
    {
        proof {
            use_type_invariant(self);
            lemma_places_distinct(self.shelf.entries@, self.shelf.places@);
            if self.shelf.entries@.len() > 0 {
                lemma_map_of_index(self.shelf.entries@, 0);
            } else {
                assert(self@ =~= Entries::empty());
            }
        }
        self.shelf.entries.len() == 0
    }

    /// Whether an entry is filed under `name`.
    pub fn contains(&self, name: &str) -> (found: bool)
        ensures
            found == self@.contains_key(name@),
    {
        proof {
            use_type_invariant(self);
            lemma_map_of_dom(self.shelf.entries@, name@);
        }
        self.shelf.find(name).is_some()
    }

    /// The product filed under `name`, if there is one.
    pub fn get(&self, name: &str) -> (found: Option<&Product>)
        ensures
            match found {
                Some(product) => self@.contains_key(name@) && product@ == self@[name@],
                None => !self@.contains_key(name@),
            },
    {
        proof {
            use_type_invariant(self);
            lemma_places_distinct(self.shelf.entries@, self.shelf.places@);
            lemma_map_of_dom(self.shelf.entries@, name@);
        }
        match self.shelf.find(name) {
            Some(i) => {
                proof {
                    lemma_map_of_index(self.shelf.entries@, i as int);
                }
                Some(&self.shelf.entries[i].product)
            },
            None => None,
        }
    }

    /// Files `product` under its name. Where that key already holds a
    /// product, the new one takes its place.
    pub fn add_product(&mut self, product: Product)
        ensures
            final(self)@ == old(self)@.insert(product.name@, product@),
    {
        proof {
            use_type_invariant(&*self);
        }
        let mut shelf = Shelf::new();
        std::mem::swap(&mut shelf, &mut self.shelf);
        proof {
            lemma_places_distinct(shelf.entries@, shelf.places@);
        }
        let ghost before = shelf.entries@;
        let key = product.name.clone();
        match shelf.find(key.as_str()) {
            Some(i) => {
                let entry = Entry { key, product };
                proof {
                    lemma_map_of_update(before, i as int, entry);
                    let after = before.update(i as int, entry);
                    assert forall|a: int| 0 <= a < after.len() implies key_at(after, a) == key_at(
                        before,
                        a,
                    ) by {}
                }
                shelf.entries.set(i, entry);
            },
            None => {
                let place = shelf.entries.len();
                shelf.places.insert(key.clone(), place);
                let entry = Entry { key, product };
                proof {
                    let after = before.push(entry);
                    assert(after.drop_last() =~= before);
                    assert forall|a: int| 0 <= a < before.len() implies key_at(after, a) == key_at(
                        before,
                        a,
                    ) && key_at(before, a) != entry.key@ by {}
                    assert(key_at(after, place as int) == entry.key@);
                }
                shelf.entries.push(entry);
            },
        }
        self.shelf = shelf;
    }

    /// Replaces the product filed under `name` by `product`. The entry keeps
    /// its key, whatever name `product` bears. Fails, and changes nothing,
    /// where no entry is filed under `name`.
    pub fn edit_product(&mut self, name: &str, product: Product) -> (result: Result<
        (),
        InventoryError,
    >)
        ensures
            old(self)@.contains_key(name@) ==> result == Ok::<(), InventoryError>(())
                && final(self)@ == old(self)@.insert(name@, product@),
            !old(self)@.contains_key(name@) ==> result == Err::<(), InventoryError>(
                InventoryError::NotFound,
            ) && final(self)@ == old(self)@,
    {
        proof {
            use_type_invariant(&*self);
        }
        let mut shelf = Shelf::new();
        std::mem::swap(&mut shelf, &mut self.shelf);
        proof {
            lemma_places_distinct(shelf.entries@, shelf.places@);
            lemma_map_of_dom(shelf.entries@, name@);
        }
        let ghost before = shelf.entries@;
        let result = match shelf.find(name) {
            Some(i) => {
                let entry = Entry { key: name.to_owned(), product };
                proof {
                    lemma_map_of_update(before, i as int, entry);
                    let after = before.update(i as int, entry);
                    assert forall|a: int| 0 <= a < after.len() implies key_at(after, a) == key_at(
                        before,
                        a,
                    ) by {}
                }
                shelf.entries.set(i, entry);
                Ok(())
            },
            None => Err(InventoryError::NotFound),
        };
        self.shelf = shelf;
        result
    }

    /// Removes the entry filed under `name`. Fails, and changes nothing,
    /// where no entry is filed under `name`.
    pub fn delete_product(&mut self, name: &str) -> (result: Result<(), InventoryError>)
        ensures
            old(self)@.contains_key(name@) ==> result == Ok::<(), InventoryError>(())
                && final(self)@ == old(self)@.remove(name@),
            !old(self)@.contains_key(name@) ==> result == Err::<(), InventoryError>(
                InventoryError::NotFound,
            ) && final(self)@ == old(self)@,
    {
        proof {
            use_type_invariant(&*self);
        }
        let mut shelf = Shelf::new();
        std::mem::swap(&mut shelf, &mut self.shelf);
        proof {
            lemma_places_distinct(shelf.entries@, shelf.places@);
            lemma_map_of_dom(shelf.entries@, name@);
        }
        let ghost before = shelf.entries@;
        let ghost places = shelf.places@;
        let result = match shelf.find(name) {
            Some(i) => {
                let last = shelf.entries.len() - 1;
                proof {
                    lemma_map_of_swap_remove(before, i as int);
                }
                shelf.places.remove(name);
                shelf.entries.swap_remove(i);
                let ghost after = shelf.entries@;
                proof {
                    assert forall|a: int| 0 <= a < after.len() implies key_at(after, a) == key_at(
                        before,
                        if a == i {
                            last as int
                        } else {
                            a
                        },
                    ) by {}
                }
                if i < last {
                    let moved = shelf.entries[i].key.clone();
                    shelf.places.insert(moved, i);
                    proof {
                        assert(key_at(before, last as int) != key_at(before, i as int));
                        assert forall|a: int| 0 <= a < after.len() implies shelf.places@.contains_key(
                            #[trigger] key_at(after, a),
                        ) && shelf.places@[key_at(after, a)] == a by {
                            if a != i {
                                assert(places[key_at(before, a)] == a);
                                assert(places[key_at(before, i as int)] == i);
                                assert(places[key_at(before, last as int)] == last);
                            }
                        }
                        assert forall|k: Seq<char>| #[trigger]
                            shelf.places@.contains_key(k) implies shelf.places@[k] < after.len()
                            && key_at(after, shelf.places@[k] as int) == k by {
                            if k != key_at(before, last as int) {
                                assert(places.contains_key(k));
                            }
                        }
                    }
                } else {
                    proof {
                        assert forall|a: int| 0 <= a < after.len() implies shelf.places@.contains_key(
                            #[trigger] key_at(after, a),
                        ) && shelf.places@[key_at(after, a)] == a by {
                            assert(places[key_at(before, a)] == a);
                            assert(places[key_at(before, i as int)] == i);
                        }
                        assert forall|k: Seq<char>| #[trigger]
                            shelf.places@.contains_key(k) implies shelf.places@[k] < after.len()
                            && key_at(after, shelf.places@[k] as int) == k by {
                            assert(places.contains_key(k));
                        }
                    }
                }
                Ok(())
            },
            None => Err(InventoryError::NotFound),
        };
        self.shelf = shelf;
        result
    }

    /// The products, each entry's once, in an order that the store chooses.
    pub fn products(&self) -> (products: Vec<Product>)
        ensures
            self.key_order().no_duplicates(),
            self.key_order().to_set() == self@.dom(),
            product_views(products@) == listing(self@, self.key_order()),
            products@.len() == self@.dom().len(),
    {
        proof {
            use_type_invariant(self);
            lemma_places_distinct(self.shelf.entries@, self.shelf.places@);
            lemma_map_of_len(self.shelf.entries@);
        }
        let ghost entries = self.shelf.entries@;
        let mut products: Vec<Product> = Vec::new();
        let mut i: usize = 0;
        while i < self.shelf.entries.len()
            invariant
                i <= self.shelf.entries.len(),
                entries == self.shelf.entries@,
                products@.len() == i,
                forall|k: int| 0 <= k < i ==> (#[trigger] products@[k])@ == entries[k].product@,
            decreases self.shelf.entries.len() - i,
        {
            products.push(self.shelf.entries[i].product.clone());
            i += 1;
        }
        proof {
            let keys = self.key_order();
            assert forall|a: int, b: int| 0 <= a < keys.len() && 0 <= b < keys.len() && a
                != b implies keys[a] != keys[b] by {
                if a < b {
                    assert(key_at(entries, a) != key_at(entries, b));
                } else {
                    assert(key_at(entries, b) != key_at(entries, a));
                }
            }
            assert forall|k: Seq<char>| keys.to_set().contains(k) <==> self@.dom().contains(k) by {
                lemma_map_of_dom(entries, k);
                if keys.contains(k) {
                    let a = choose|a: int| 0 <= a < keys.len() && keys[a] == k;
                    assert(key_at(entries, a) == k);
                }
                if has_key(entries, k) {
                    let a = choose|a: int| 0 <= a < entries.len() && #[trigger] key_at(entries, a)
                        == k;
                    assert(keys[a] == k);
                }
            }
            assert(keys.to_set() =~= self@.dom());
            assert forall|a: int| 0 <= a < products@.len() implies (#[trigger] products@[a])@
                == self@[self.key_order()[a]] by {
                lemma_map_of_index(entries, a);
            }
            assert(product_views(products@) =~= listing(self@, self.key_order()));
        }
        products
    }

    /// The inventory that results from filing each of `products` in turn,
    /// starting with none.
    pub fn from_products(products: Vec<Product>) -> (inventory: Inventory)
        ensures
            inventory@ == upsert_all(Entries::empty(), product_views(products@)),
    {
        let mut inventory = Inventory::new();
        let mut i: usize = 0;
        while i < products.len()
            invariant
                i <= products.len(),
                inventory@ == upsert_all(Entries::empty(), product_views(products@).take(i as int)),
            decreases products.len() - i,
        {
            proof {
                assert(product_views(products@).take(i as int + 1).drop_last() =~= product_views(
                    products@,
                ).take(i as int));
            }
            inventory.add_product(products[i].clone());
            i += 1;
        }
        proof {
            assert(product_views(products@).take(products@.len() as int) =~= product_views(
                products@,
            ));
        }
        inventory
    }
}

/// Filing two products of one name, one after the other, leaves what filing
/// the second alone would leave: one entry under that name, which holds the
/// second product, and every other entry as it was.
pub proof fn lemma_second_add_replaces(entries: Entries, first: ProductView, second: ProductView)
    requires
        first.name == second.name,
    ensures
        entries.insert(first.name, first).insert(second.name, second) == entries.insert(
            second.name,
            second,
        ),
        entries.insert(first.name, first).insert(second.name, second)[second.name] == second,
        entries.insert(first.name, first).insert(second.name, second).dom() == entries.dom().insert(
            second.name,
        ),
        entries.dom().finite() ==> entries.insert(first.name, first).insert(
            second.name,
            second,
        ).dom().len() == entries.remove(second.name).dom().len() + 1,
{
    let twice = entries.insert(first.name, first).insert(second.name, second);
    assert(twice =~= entries.insert(second.name, second));
    assert(twice.dom() =~= entries.dom().insert(second.name));
    assert(twice.dom() =~= entries.remove(second.name).dom().insert(second.name));
}

/// Filing a product under its name keeps every product under its own name.
pub proof fn lemma_add_keeps_names(entries: Entries, product: ProductView)
    requires
        keyed_by_name(entries),
    ensures
        keyed_by_name(entries.insert(product.name, product)),
{
}

/// Removing an entry keeps every product under its own name.
pub proof fn lemma_delete_keeps_names(entries: Entries, key: Seq<char>)
    requires
        keyed_by_name(entries),
    ensures
        keyed_by_name(entries.remove(key)),
{
}

/// Replacing an entry by a product that bears the entry's key as its name
/// keeps every product under its own name.
pub proof fn lemma_edit_keeps_names(entries: Entries, key: Seq<char>, product: ProductView)
    requires
        keyed_by_name(entries),
        product.name == key,
    ensures
        keyed_by_name(entries.insert(key, product)),
{
}

/// Products filed one after the other, starting with none, all stand under
/// their own names.
pub proof fn lemma_upsert_all_names(products: Seq<ProductView>)
    ensures
        keyed_by_name(upsert_all(Entries::empty(), products)),
    decreases products.len(),
{
    if products.len() > 0 {
        lemma_upsert_all_names(products.drop_last());
    }
}

proof fn lemma_refill_prefix(
    entries: Entries,
    keys: Seq<Seq<char>>,
    products: Seq<ProductView>,
    n: int,
)
    requires
        keyed_by_name(entries),
        products.len() == keys.len(),
        forall|i: int| 0 <= i < keys.len() ==> entries.contains_key(#[trigger] keys[i]),
        forall|i: int| 0 <= i < keys.len() ==> #[trigger] products[i] == entries[keys[i]],
        0 <= n <= keys.len(),
    ensures
        upsert_all(Entries::empty(), products.take(n)) == entries.restrict(keys.take(n).to_set()),
    decreases n,
{
    let left = upsert_all(Entries::empty(), products.take(n));
    let right = entries.restrict(keys.take(n).to_set());
    if n == 0 {
        assert(left =~= right);
    } else {
        lemma_refill_prefix(entries, keys, products, n - 1);
        assert(products.take(n).drop_last() =~= products.take(n - 1));
        assert(products.take(n).last() == products[n - 1]);
        assert(entries.contains_key(keys[n - 1]));
        assert(products[n - 1].name == keys[n - 1]);
        let shorter = keys.take(n - 1);
        let longer = keys.take(n);
        assert forall|k: Seq<char>| left.contains_key(k) <==> right.contains_key(k) by {
            if longer.contains(k) {
                let i = choose|i: int| 0 <= i < longer.len() && longer[i] == k;
                if i < n - 1 {
                    assert(shorter[i] == k);
                }
            }
            if shorter.contains(k) {
                let i = choose|i: int| 0 <= i < shorter.len() && shorter[i] == k;
                assert(longer[i] == k);
            }
            assert(longer[n - 1] == keys[n - 1]);
        }
        assert(left =~= right);
    }
}

/// Filing anew, starting with none, the products that a store lists gives
/// the store's entries back, provided every product of the store stands
/// under its own name. `keys` are the store's keys in the order of the
/// listing.
pub proof fn lemma_listing_refills(entries: Entries, keys: Seq<Seq<char>>)
    requires
        keyed_by_name(entries),
        keys.to_set() == entries.dom(),
    ensures
        upsert_all(Entries::empty(), listing(entries, keys)) == entries,
{
    let products = listing(entries, keys);
    assert forall|i: int| 0 <= i < keys.len() implies entries.contains_key(#[trigger] keys[i]) by {
        assert(keys.to_set().contains(keys[i]));
    }
    lemma_refill_prefix(entries, keys, products, keys.len() as int);
    assert(products.take(keys.len() as int) =~= products);
    assert(keys.take(keys.len() as int) =~= keys);
    assert(entries.restrict(entries.dom()) =~= entries);
}

} // verus!
