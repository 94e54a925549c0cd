//! The canonical record store: insert-if-absent keyed by the identity hash.
//!
//! The first write under a key wins; a later candidate with the same name,
//! ingredients and restaurant changes nothing, whatever its price or date
//! says. A source whose ingestion fails contributes nothing and leaves every
//! record already stored untouched.

use vstd::prelude::*;

use crate::item::{item_key, Item, ItemView};

verus! {

/// Why a source contributed nothing.
#[derive(Debug, PartialEq, Eq)]
pub enum IngestError {
    /// The source file was missing or corrupt, or its endpoint unreachable.
    Extraction,
    /// The source's record batch could not be decoded.
    MalformedRecord,
}

pub open spec fn has_key(v: Seq<ItemView>, k: u64) -> bool {
    exists|i: int| 0 <= i < v.len() && item_key(#[trigger] v[i]) == k
}

pub open spec fn distinct_keys(v: Seq<ItemView>) -> bool {
    forall|i: int, j: int|
        0 <= i < j < v.len() ==> item_key(#[trigger] v[i]) != item_key(#[trigger] v[j])
}

/// Insert-if-absent of one candidate.
pub open spec fn insert_spec(v: Seq<ItemView>, c: ItemView) -> Seq<ItemView> {
    if has_key(v, item_key(c)) {
        v
    } else {
        v.push(c)
    }
}

/// Insert-if-absent of a batch, in order.
pub open spec fn canon_spec(v: Seq<ItemView>, cs: Seq<ItemView>) -> Seq<ItemView>
    decreases cs.len(),
{
    if cs.len() == 0 {
        v
    } else {
        canon_spec(insert_spec(v, cs.first()), cs.drop_first())
    }
}

/// The store of canonical records, unique by identity hash.
pub struct Store {
    items: Vec<Item>,
}

impl View for Store {
    type V = Seq<ItemView>;

    closed spec fn view(&self) -> Seq<ItemView> {
        self.items.deep_view()
    }
}

impl Store {
    pub open spec fn wf(&self) -> bool {
        distinct_keys(self@)
    }

    pub fn new() -> (s: Store)
        ensures
            s@ == Seq::<ItemView>::empty(),
            s.wf(),
    {
        let s = Store { items: Vec::new() };
        proof {
            assert(s@ =~= Seq::<ItemView>::empty());
        }
        s
    }

    pub fn len(&self) -> (n: usize)
        ensures
            n == self@.len(),
    {
        self.items.len()
    }

    /// Inserts one candidate unless its identity hash is already present.
    pub fn insert(&mut self, item: Item)
        requires
            old(self).wf(),
        ensures
            final(self).wf(),
            final(self)@ == insert_spec(old(self)@, item@),
    {
        let k = item.get_hash();
        let n = self.items.len();
        let mut i: usize = 0;
        while i < n
            invariant
                i <= n,
                n == self@.len(),
                self@ == old(self)@,
                self.wf(),
                k == item_key(item@),
                forall|j: int| 0 <= j < i ==> item_key(#[trigger] self@[j]) != k,
            decreases n - i,
        {
            proof {
                assert(self@[i as int] == self.items@[i as int]@);
            }
            if self.items[i].get_hash() == k {
                proof {
                    assert(has_key(self@, k));
                }
                return ;
            }
            i = i + 1;
        }
        proof {
            assert(!has_key(old(self)@, item_key(item@)));
        }
        let ghost pre = self@;
        let ghost iv = item@;
        self.items.push(item);
        proof {
            assert(self@ =~~= pre.push(iv));
            assert forall|a: int, b: int| 0 <= a < b < self@.len() implies item_key(
                #[trigger] self@[a],
            ) != item_key(#[trigger] self@[b]) by {
                if b == self@.len() - 1 {
                    assert(!has_key(pre, item_key(iv)));
                    assert(item_key(pre[a]) != item_key(iv));
                }
            }
        }
    }

    /// Canonicalizes a batch of candidates against the store, first write
    /// winning.
    pub fn canonicalize(&mut self, candidates: Vec<Item>)
        requires
            old(self).wf(),
        ensures
            final(self).wf(),
            final(self)@ == canon_spec(old(self)@, candidates.deep_view()),
    {
        let ghost cs = candidates.deep_view();
        let n = candidates.len();
        let mut i: usize = 0;
        proof {
            assert(cs.subrange(0, n as int) =~~= cs);
        }
        while i < n
            invariant
                i <= n,
                n == candidates@.len(),
                cs == candidates.deep_view(),
                self.wf(),
                canon_spec(self@, cs.subrange(i as int, n as int)) == canon_spec(
                    old(self)@,
                    cs,
                ),
            decreases n - i,
        {
            let ghost suf = cs.subrange(i as int, n as int);
            proof {
                assert(suf.first() == cs[i as int]);
                assert(suf.drop_first() =~= cs.subrange(i as int + 1, n as int));
                assert(candidates@[i as int]@ == cs[i as int]);
            }
            let c = candidates[i].duplicate();
            self.insert(c);
            i = i + 1;
        }
        proof {
            assert(cs.subrange(i as int, n as int) =~~= Seq::<ItemView>::empty());
        }
    }

    /// One source's whole contribution: a batch canonicalized on success,
    /// nothing at all on failure.
    pub fn ingest_source(&mut self, fetched: Result<Vec<Item>, IngestError>) -> (r: Result<
        (),
        IngestError,
    >)
        requires
            old(self).wf(),
        ensures
            final(self).wf(),
            match fetched {
                Ok(items) => r is Ok && final(self)@ == canon_spec(
                    old(self)@,
                    items.deep_view(),
                ),
                Err(e) => r == Result::<(), IngestError>::Err(e) && final(self)@ == old(
                    self,
                )@,
            },
    {
        match fetched {
            Ok(items) => {
                self.canonicalize(items);
                Ok(())
            },
            Err(e) => Err(e),
        }
    }

    /// A copy of every stored record, in insertion order.
    pub fn to_vec(&self) -> (r: Vec<Item>)
        ensures
            r.deep_view() == self@,
    {
        let mut r: Vec<Item> = Vec::new();
        let n = self.items.len();
        let mut i: usize = 0;
        while i < n
            invariant
                i <= n,
                n == self@.len(),
                r@.len() == i,
                forall|k: int| 0 <= k < i ==> #[trigger] r@[k]@ == self@[k],
            decreases n - i,
        {
            proof {
                assert(self@[i as int] == self.items@[i as int]@);
            }
            let c = self.items[i].duplicate();
            r.push(c);
            i = i + 1;
        }
        proof {
            assert forall|k: int| 0 <= k < n implies r.deep_view()[k] == self@[k] by {
                assert(r.deep_view()[k] == r@[k]@);
            }
            assert(r.deep_view() =~~= self@);
        }
        r
    }
}

// ---------------------------------------------------------------------------
// Laws of the canonicalizer
// ---------------------------------------------------------------------------

/// Two candidates identical in name, ingredients and restaurant collapse to
/// one stored record, and the first one's price and date are what stays.
pub proof fn dedup_key_stable(v: Seq<ItemView>, a: ItemView, b: ItemView)
    requires
        a.item_name == b.item_name,
        a.ingredients == b.ingredients,
        a.restaurant == b.restaurant,
    ensures
        canon_spec(v, seq![a, b]) == canon_spec(v, seq![a]),
        !has_key(v, item_key(a)) ==> canon_spec(v, seq![a, b]) == v.push(a),
{
    crate::item::key_ignores_price_updated(a, b);
    let ab = seq![a, b];
    assert(ab.first() == a);
    assert(ab.drop_first() =~= seq![b]);
    assert(seq![a].first() == a);
    assert(seq![a].drop_first() =~= Seq::<ItemView>::empty());
    assert(seq![b].first() == b);
    assert(seq![b].drop_first() =~= Seq::<ItemView>::empty());
    let v1 = insert_spec(v, a);
    assert(canon_spec(v, ab) == canon_spec(v1, seq![b]));
    assert(canon_spec(insert_spec(v1, b), Seq::<ItemView>::empty()) == insert_spec(v1, b));
    assert(canon_spec(v1, seq![b]) == insert_spec(v1, b));
    assert(canon_spec(insert_spec(v, a), Seq::<ItemView>::empty()) == insert_spec(v, a));
    assert(canon_spec(v, seq![a]) == insert_spec(v, a));
    if has_key(v, item_key(a)) {
        assert(v1 == v);
        assert(insert_spec(v1, b) == v);
    } else {
        assert(v1 == v.push(a));
        assert(v1[v.len() as int] == a);
        assert(has_key(v1, item_key(b)));
        assert(insert_spec(v1, b) == v1);
    }
}

/// Insert-if-absent never rewrites or removes what is stored: the old
/// records stand, as a prefix, in the new store.
pub proof fn canon_extends(v: Seq<ItemView>, cs: Seq<ItemView>)
    ensures
        canon_spec(v, cs).len() >= v.len(),
        canon_spec(v, cs).subrange(0, v.len() as int) == v,
    decreases cs.len(),
{
    if cs.len() == 0 {
        assert(canon_spec(v, cs).subrange(0, v.len() as int) =~= v);
    } else {
        let v1 = insert_spec(v, cs.first());
        canon_extends(v1, cs.drop_first());
        if has_key(v, item_key(cs.first())) {
            assert(v1 == v);
        } else {
            assert(v1 == v.push(cs.first()));
            let w = canon_spec(v1, cs.drop_first());
            assert(w.subrange(0, v1.len() as int) == v1);
            assert forall|k: int| 0 <= k < v.len() implies w.subrange(0, v.len() as int)[k]
                == v[k] by {
                assert(w[k] == w.subrange(0, v1.len() as int)[k]);
                assert(v1[k] == v[k]);
            }
            assert(w.subrange(0, v.len() as int) =~= v);
        }
    }
}

/// A key present in the store stays present through any further batch.
pub proof fn canon_preserves_key(v: Seq<ItemView>, cs: Seq<ItemView>, k: u64)
    requires
        has_key(v, k),
    ensures
        has_key(canon_spec(v, cs), k),
    decreases cs.len(),
{
    if cs.len() > 0 {
        let v1 = insert_spec(v, cs.first());
        let i = choose|i: int| 0 <= i < v.len() && item_key(#[trigger] v[i]) == k;
        assert(v1[i] == v[i]);
        assert(has_key(v1, k));
        canon_preserves_key(v1, cs.drop_first(), k);
        assert(canon_spec(v1, cs.drop_first()) == canon_spec(v, cs));
    }
}

/// Every candidate of a successfully ingested batch is represented in the
/// store afterwards: a record with its identity hash is present, whatever
/// other sources do later. A failed source goes through `ingest_source`,
/// which leaves the store untouched, so records ingested earlier from other
/// sources keep standing.
pub proof fn cross_source_independence(
    v: Seq<ItemView>,
    good: Seq<ItemView>,
    later: Seq<ItemView>,
    k: int,
)
    requires
        0 <= k < good.len(),
    ensures
        has_key(canon_spec(v, good), item_key(good[k])),
        has_key(canon_spec(canon_spec(v, good), later), item_key(good[k])),
    decreases good.len(),
{
    let c = good.first();
    let v1 = insert_spec(v, c);
    if k == 0 {
        if has_key(v, item_key(c)) {
            assert(has_key(v1, item_key(c)));
        } else {
            assert(v1[v.len() as int] == c);
            assert(has_key(v1, item_key(c)));
        }
        canon_preserves_key(v1, good.drop_first(), item_key(c));
        assert(canon_spec(v1, good.drop_first()) == canon_spec(v, good));
    } else {
        cross_source_independence(v1, good.drop_first(), later, k - 1);
        assert(good.drop_first()[k - 1] == good[k]);
        assert(canon_spec(v1, good.drop_first()) == canon_spec(v, good));
    }
    canon_preserves_key(canon_spec(v, good), later, item_key(good[k]));
}

} // verus!
