//! The canonical menu entry and its identity.
//!
//! An `Item` is deduplicated by a deterministic 64-bit content hash over its
//! name, its ingredients and its restaurant; the price and the date of the
//! last update deliberately stay out of the identity, so re-ingesting the
//! same dish under a new price or date keeps the first-seen record.

use vstd::prelude::*;

use crate::text::{append_chars, chars_of};

verus! {

/// Canonical menu entry. The price is text on purpose: sources disagree on
/// how they write a cost (a number, a market-price mark, an unknown mark).
#[derive(Debug, PartialEq, Eq)]
pub struct Item {
    item_name: String,
    ingredients: Vec<String>,
    updated: String,
    price: String,
    restaurant: String,
}

/// The mathematical content of an `Item`.
pub struct ItemView {
    pub item_name: Seq<char>,
    pub ingredients: Seq<Seq<char>>,
    pub updated: Seq<char>,
    pub price: Seq<char>,
    pub restaurant: Seq<char>,
}

impl View for Item {
    type V = ItemView;

    closed spec fn view(&self) -> ItemView {
        ItemView {
            item_name: self.item_name@,
            ingredients: self.ingredients.deep_view(),
            updated: self.updated@,
            price: self.price@,
            restaurant: self.restaurant@,
        }
    }
}

impl DeepView for Item {
    type V = ItemView;

    open spec fn deep_view(&self) -> ItemView {
        self@
    }
}

// ---------------------------------------------------------------------------
// Identity hash
// ---------------------------------------------------------------------------

pub const FNV_OFFSET: u64 = 0xcbf29ce484222325;

pub const FNV_PRIME: u64 = 0x100000001b3;

/// One step of the 64-bit FNV-1a fold.
pub open spec fn fnv_step(h: u64, x: u32) -> u64 {
    vstd::wrapping::u64_specs::wrapping_mul(h ^ (x as u64), FNV_PRIME)
}

pub open spec fn fnv_chars(h: u64, s: Seq<char>) -> u64
    decreases s.len(),
{
    if s.len() == 0 {
        h
    } else {
        fnv_chars(fnv_step(h, s.first() as u32), s.drop_first())
    }
}

/// A field separator folded between hashed fields; the tag lies above every
/// Unicode scalar value, so no character collides with it.
pub open spec fn fnv_sep(h: u64) -> u64 {
    fnv_step(h, 0x110000)
}

pub open spec fn fnv_strs(h: u64, ss: Seq<Seq<char>>) -> u64
    decreases ss.len(),
{
    if ss.len() == 0 {
        h
    } else {
        fnv_strs(fnv_sep(fnv_chars(h, ss.first())), ss.drop_first())
    }
}

/// The identity of a menu entry: a hash of name, ingredients and restaurant.
/// The price and the update date take no part in it.
pub open spec fn key_of(
    name: Seq<char>,
    ingredients: Seq<Seq<char>>,
    restaurant: Seq<char>,
) -> u64 {
    fnv_chars(fnv_strs(fnv_sep(fnv_chars(FNV_OFFSET, name)), ingredients), restaurant)
}

pub open spec fn item_key(iv: ItemView) -> u64 {
    key_of(iv.item_name, iv.ingredients, iv.restaurant)
}

/// The dedup key reads only name, ingredients and restaurant: two entries
/// that differ in price or update date alone share one identity.
pub proof fn key_ignores_price_updated(a: ItemView, b: ItemView)
    requires
        a.item_name == b.item_name,
        a.ingredients == b.ingredients,
        a.restaurant == b.restaurant,
    ensures
        item_key(a) == item_key(b),
{
}

fn fnv_mix(h: u64, x: u32) -> (r: u64)
    ensures
        r == fnv_step(h, x),
{
    (h ^ (x as u64)).wrapping_mul(FNV_PRIME)
}

fn fnv_feed_chars(h: u64, v: &Vec<char>) -> (r: u64)
    ensures
        r == fnv_chars(h, v@),
{
    let n = v.len();
    let mut cur = h;
    let mut i: usize = 0;
    proof {
        assert(v@.subrange(0, n as int) =~= v@);
    }
    while i < n
        invariant
            i <= n,
            n == v@.len(),
            fnv_chars(cur, v@.subrange(i as int, n as int)) == fnv_chars(h, v@),
        decreases n - i,
    {
        let ghost suf = v@.subrange(i as int, n as int);
        proof {
            assert(suf.first() == v@[i as int]);
            assert(suf.drop_first() =~= v@.subrange(i as int + 1, n as int));
        }
        cur = fnv_mix(cur, v[i] as u32);
        i = i + 1;
    }
    proof {
        assert(v@.subrange(i as int, n as int) =~= Seq::<char>::empty());
    }
    cur
}

fn fnv_feed_str(h: u64, s: &String) -> (r: u64)
    ensures
        r == fnv_chars(h, s@),
{
    let v = chars_of(s.as_str());
    fnv_feed_chars(h, &v)
}

fn fnv_feed_sep(h: u64) -> (r: u64)
    ensures
        r == fnv_sep(h),
{
    fnv_mix(h, 0x110000)
}

// ---------------------------------------------------------------------------
// Methods
// ---------------------------------------------------------------------------

impl Item {
    pub fn new(
        item_name: String,
        ingredients: Vec<String>,
        updated: String,
        price: String,
        restaurant: String,
    ) -> (r: Item)
        ensures
            r@.item_name == item_name@,
            r@.ingredients == ingredients.deep_view(),
            r@.updated == updated@,
            r@.price == price@,
            r@.restaurant == restaurant@,
    {
        Item { item_name, ingredients, updated, price, restaurant }
    }

    pub fn item_name(&self) -> (r: &String)
        ensures
            r@ == self@.item_name,
    {
        &self.item_name
    }

    pub fn ingredients(&self) -> (r: &Vec<String>)
        ensures
            r.deep_view() == self@.ingredients,
    {
        &self.ingredients
    }

    pub fn updated(&self) -> (r: &String)
        ensures
            r@ == self@.updated,
    {
        &self.updated
    }

    pub fn price(&self) -> (r: &String)
        ensures
            r@ == self@.price,
    {
        &self.price
    }

    pub fn restaurant(&self) -> (r: &String)
        ensures
            r@ == self@.restaurant,
    {
        &self.restaurant
    }

    /// The identity hash over name, ingredients and restaurant.
    pub fn get_hash(&self) -> (r: u64)
        ensures
            r == item_key(self@),
    {
        let mut h = fnv_feed_str(FNV_OFFSET, &self.item_name);
        h = fnv_feed_sep(h);
        let n = self.ingredients.len();
        let ghost ing = self@.ingredients;
        let mut i: usize = 0;
        proof {
            assert(ing.subrange(0, n as int) =~= ing);
        }
        while i < n
            invariant
                i <= n,
                n == ing.len(),
                ing == self@.ingredients,
                fnv_strs(h, ing.subrange(i as int, n as int)) == fnv_strs(
                    fnv_sep(fnv_chars(FNV_OFFSET, self@.item_name)),
                    ing,
                ),
            decreases n - i,
        {
            let ghost suf = ing.subrange(i as int, n as int);
            proof {
                assert(suf.first() == ing[i as int]);
                assert(suf.drop_first() =~= ing.subrange(i as int + 1, n as int));
            }
            h = fnv_feed_str(h, &self.ingredients[i]);
            h = fnv_feed_sep(h);
            i = i + 1;
        }
        proof {
            assert(ing.subrange(i as int, n as int) =~= Seq::<Seq<char>>::empty());
        }
        fnv_feed_str(h, &self.restaurant)
    }

    /// Every ingredient joined with a trailing `", "` after each one.
    pub fn _get_ingredients_str(&self) -> (r: String)
        ensures
            r@ == ingredients_str_spec(self@.ingredients),
    {
        let mut out: Vec<char> = Vec::new();
        let n = self.ingredients.len();
        let ghost ing = self@.ingredients;
        let mut i: usize = 0;
        proof {
            assert(ing.subrange(0, n as int) =~= ing);
            assert(Seq::<char>::empty() + ingredients_str_spec(ing) =~= ingredients_str_spec(
                ing,
            ));
        }
        while i < n
            invariant
                i <= n,
                n == ing.len(),
                ing == self@.ingredients,
                ingredients_str_spec(ing) == out@ + ingredients_str_spec(
                    ing.subrange(i as int, n as int),
                ),
            decreases n - i,
        {
            let ghost suf = ing.subrange(i as int, n as int);
            proof {
                assert(suf.first() == ing[i as int]);
                assert(suf.drop_first() =~= ing.subrange(i as int + 1, n as int));
            }
            let ghost old_out = out@;
            let piece = chars_of(self.ingredients[i].as_str());
            append_chars(&mut out, &piece);
            out.push(',');
            out.push(' ');
            proof {
                assert(old_out + (suf.first() + seq![',', ' ']
                    + ingredients_str_spec(suf.drop_first())) =~= out@ + ingredients_str_spec(
                    suf.drop_first(),
                ));
            }
            i = i + 1;
        }
        proof {
            assert(ing.subrange(i as int, n as int) =~= Seq::<Seq<char>>::empty());
            assert(out@ + Seq::<char>::empty() =~= out@);
        }
        crate::text::string_from(&out)
    }

    /// A field-for-field copy.
    pub fn duplicate(&self) -> (r: Item)
        ensures
            r@ == self@,
    {
        let r = Item {
            item_name: self.item_name.clone(),
            ingredients: clone_strings(&self.ingredients),
            updated: self.updated.clone(),
            price: self.price.clone(),
            restaurant: self.restaurant.clone(),
        };
        r
    }
}

pub open spec fn ingredients_str_spec(ss: Seq<Seq<char>>) -> Seq<char>
    decreases ss.len(),
{
    if ss.len() == 0 {
        Seq::empty()
    } else {
        ss.first() + seq![',', ' '] + ingredients_str_spec(ss.drop_first())
    }
}

pub fn clone_strings(v: &Vec<String>) -> (r: Vec<String>)
    ensures
        r.deep_view() == v.deep_view(),
{
    let mut r: Vec<String> = Vec::new();
    let mut i: usize = 0;
    while i < v.len()
        invariant
            i <= v@.len(),
            r@.len() == i,
            forall|k: int| 0 <= k < i ==> r@[k]@ == v@[k]@,
        decreases v@.len() - i,
    {
        let c = v[i].clone();
        r.push(c);
        i = i + 1;
    }
    proof {
        assert forall|k: int| 0 <= k < v@.len() implies r.deep_view()[k] == v.deep_view()[k] by {
            assert(r@[k]@ == v@[k]@);
            assert(r.deep_view()[k] == r@[k]@);
            assert(v.deep_view()[k] == v@[k]@);
        }
        assert(r.deep_view() =~~= v.deep_view());
    }
    r
}

} // verus!
