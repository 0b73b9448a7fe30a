//! The market's offer book: one offer per sender address and item.
use vstd::prelude::*;

use crate::market::dtos::{Offer, OfferView};
use crate::text::append_str;

verus! {

/// The key under which the market keeps an offer: the address, `::`, then the item.
pub open spec fn offer_key_of(address: Seq<char>, item: Seq<char>) -> Seq<char> {
    address + seq![':', ':'] + item
}

/// An offer's key holds its address and its item as they are, character for character:
/// the address, then two `:`, then the item, and nothing else.
pub proof fn law_offer_key_shape(address: Seq<char>, item: Seq<char>)
    ensures
        offer_key_of(address, item).len() == address.len() + 2 + item.len(),
        offer_key_of(address, item).subrange(0, address.len() as int) == address,
        offer_key_of(address, item)[address.len() as int] == ':',
        offer_key_of(address, item)[address.len() as int + 1] == ':',
        offer_key_of(address, item).subrange(
            address.len() as int + 2,
            offer_key_of(address, item).len() as int,
        ) == item,
{
    let k = offer_key_of(address, item);
    assert(k.subrange(0, address.len() as int) =~= address);
    assert(k.subrange(address.len() as int + 2, k.len() as int) =~= item);
}

/// Offers of different items from the same address are kept apart, whatever the items
/// differ in (letter case too): their keys differ.
pub proof fn law_offer_keys_tell_items_apart(address: Seq<char>, item: Seq<char>, other: Seq<char>)
    requires
        item != other,
    ensures
        offer_key_of(address, item) != offer_key_of(address, other),
{
    law_offer_key_shape(address, item);
    law_offer_key_shape(address, other);
}

/// The key of an offer.
pub open spec fn key_of(offer: OfferView) -> Seq<char> {
    offer_key_of(offer.address, offer.item)
}

/// No two of `entries` have the same key.
pub open spec fn distinct_keys(entries: Seq<OfferView>) -> bool {
    forall|i: int, j: int|
        0 <= i < j < entries.len() ==> key_of(#[trigger] entries[i]) != key_of(
            #[trigger] entries[j],
        )
}

/// `listed` holds each offer of `book` once, in some order: as many offers as the book
/// has keys, each under its key in the book, no key twice.
pub open spec fn is_listing(listed: Seq<OfferView>, book: Map<Seq<char>, OfferView>) -> bool {
    &&& book.dom().finite()
    &&& listed.len() == book.len()
    &&& forall|i: int|
        0 <= i < listed.len() ==> book.contains_key(key_of(#[trigger] listed[i]))
            && book[key_of(listed[i])] == listed[i]
    &&& distinct_keys(listed)
}

/// The offer book that `entries` make, each offer under its key, a later entry in
/// place of an earlier one with the same key.
pub open spec fn book_of(entries: Seq<OfferView>) -> Map<Seq<char>, OfferView>
    decreases entries.len(),
{
    if entries.len() == 0 {
        Map::empty()
    } else {
        book_of(entries.drop_last()).insert(key_of(entries.last()), entries.last())
    }
}

proof fn lemma_book_contents(s: Seq<OfferView>)
    requires
        distinct_keys(s),
    ensures
        forall|k: Seq<char>|
            #[trigger] book_of(s).contains_key(k) <==> exists|i: int|
                0 <= i < s.len() && key_of(s[i]) == k,
        forall|i: int| 0 <= i < s.len() ==> #[trigger] book_of(s)[key_of(s[i])] == s[i],
        book_of(s).dom().finite(),
        book_of(s).dom().len() == s.len(),
    decreases s.len(),
{
    if s.len() > 0 {
        let t = s.drop_last();
        let x = s.last();
        assert(distinct_keys(t));
        lemma_book_contents(t);
        assert forall|k: Seq<char>| #[trigger] book_of(s).contains_key(k) <==> exists|i: int|
            0 <= i < s.len() && key_of(s[i]) == k by {
            if book_of(s).contains_key(k) && k != key_of(x) {
                assert(book_of(t).contains_key(k));
                let i = choose|i: int| 0 <= i < t.len() && key_of(t[i]) == k;
                assert(s[i] == t[i]);
            }
            if exists|i: int| 0 <= i < s.len() && key_of(s[i]) == k {
                let i = choose|i: int| 0 <= i < s.len() && key_of(s[i]) == k;
                if i < t.len() {
                    assert(t[i] == s[i]);
                }
            }
        }
        assert forall|i: int| 0 <= i < s.len() implies #[trigger] book_of(s)[key_of(s[i])]
            == s[i] by {
            if i < t.len() {
                assert(t[i] == s[i]);
                assert(key_of(s[i]) != key_of(s[s.len() - 1]));
            }
        }
        assert(!book_of(t).contains_key(key_of(x))) by {
            if book_of(t).contains_key(key_of(x)) {
                let i = choose|i: int| 0 <= i < t.len() && key_of(t[i]) == key_of(x);
                assert(s[i] == t[i]);
                assert(key_of(s[i]) != key_of(s[s.len() - 1]));
            }
        }
        assert(book_of(s).dom() =~= book_of(t).dom().insert(key_of(x)));
    } else {
        assert(book_of(s).dom() =~= Set::<Seq<char>>::empty());
    }
}

proof fn lemma_book_update(s: Seq<OfferView>, i: int, o: OfferView)
    requires
        distinct_keys(s),
        0 <= i < s.len(),
        key_of(s[i]) == key_of(o),
    ensures
        distinct_keys(s.update(i, o)),
        book_of(s.update(i, o)) == book_of(s).insert(key_of(o), o),
    decreases s.len(),
{
    let u = s.update(i, o);
    assert forall|a: int, b: int| 0 <= a < b < u.len() implies key_of(#[trigger] u[a]) != key_of(
        #[trigger] u[b],
    ) by {
        assert(key_of(s[a]) != key_of(s[b]));
    }
    let t = s.drop_last();
    let x = s.last();
    if i == s.len() - 1 {
        assert(u.drop_last() =~= t);
        assert(book_of(u) =~= book_of(s).insert(key_of(o), o));
    } else {
        assert(distinct_keys(t));
        lemma_book_update(t, i, o);
        assert(u.drop_last() =~= t.update(i, o));
        assert(u.last() == x);
        assert(key_of(s[i]) != key_of(s[s.len() - 1]));
        assert(book_of(u) =~= book_of(s).insert(key_of(o), o));
    }
}

proof fn lemma_book_remove(s: Seq<OfferView>, i: int)
    requires
        distinct_keys(s),
        0 <= i < s.len(),
    ensures
        distinct_keys(s.remove(i)),
        book_of(s.remove(i)) == book_of(s).remove(key_of(s[i])),
    decreases s.len(),
{
    let r = s.remove(i);
    assert forall|a: int, b: int| 0 <= a < b < r.len() implies key_of(#[trigger] r[a]) != key_of(
        #[trigger] r[b],
    ) by {
        let sa = if a < i { a } else { a + 1 };
        let sb = if b < i { b } else { b + 1 };
        assert(r[a] == s[sa]);
        assert(r[b] == s[sb]);
        assert(key_of(s[sa]) != key_of(s[sb]));
    }
    let t = s.drop_last();
    let x = s.last();
    assert(distinct_keys(t));
    lemma_book_contents(t);
    if i == s.len() - 1 {
        assert(r =~= t);
        assert(!book_of(t).contains_key(key_of(x))) by {
            if book_of(t).contains_key(key_of(x)) {
                let k = choose|k: int| 0 <= k < t.len() && key_of(t[k]) == key_of(x);
                assert(s[k] == t[k]);
                assert(key_of(s[k]) != key_of(s[s.len() - 1]));
            }
        }
        assert(book_of(r) =~= book_of(s).remove(key_of(s[i])));
    } else {
        lemma_book_remove(t, i);
        assert(r.drop_last() =~= t.remove(i));
        assert(r.last() == x);
        assert(t[i] == s[i]);
        assert(key_of(s[i]) != key_of(s[s.len() - 1]));
        assert(book_of(r) =~= book_of(s).remove(key_of(s[i])));
    }
}

/// The key of the offer of `item` by the sender at `address`.
pub fn offer_key_from_parts(address: &str, item: &str) -> (key: String)
    ensures
        key@ == offer_key_of(address@, item@),
{
    let mut key = crate::text::copy_str(address);
    crate::text::push_char(&mut key, ':');
    crate::text::push_char(&mut key, ':');
    append_str(&mut key, item);
    assert(key@ =~= offer_key_of(address@, item@));
    key
}

fn offer_key(offer: &Offer) -> (key: String)
    ensures
        key@ == key_of(offer@),
{
    offer_key_from_parts(offer.address.as_str(), offer.item.as_str())
}

/// The market's offers, one per key (sender address and item).
pub struct OfferStore {
    keys: Vec<String>,
    offers: Vec<Offer>,
}

impl OfferStore {
    /// The offers in the order the store keeps them.
    closed spec fn entries(self) -> Seq<OfferView> {
        self.offers@.map_values(|o: Offer| o@)
    }

    #[verifier::type_invariant]
    closed spec fn well_formed(self) -> bool {
        &&& self.keys@.len() == self.offers@.len()
        &&& forall|i: int|
            0 <= i < self.keys@.len() ==> #[trigger] self.keys@[i]@ == key_of(self.offers@[i]@)
        &&& distinct_keys(self.entries())
    }

    /// An empty offer book.
    pub fn new() -> (store: Self)
        ensures
            store@ == Map::<Seq<char>, OfferView>::empty(),
    {
        let store = OfferStore { keys: Vec::new(), offers: Vec::new() };
        assert(store.entries() =~= Seq::<OfferView>::empty());
        store
    }

    /// The index of the offer under `key`, if there is one.
    fn find(&self, key: &String) -> (found: Option<usize>)
        ensures
            match found {
                Some(i) => i < self.keys@.len() && self.keys@[i as int]@ == key@,
                None => forall|i: int| 0 <= i < self.keys@.len() ==> self.keys@[i]@ != key@,
            },
    {
        let mut i: usize = 0;
        while i < self.keys.len()
            invariant
                i <= self.keys@.len(),
                forall|k: int| 0 <= k < i ==> self.keys@[k]@ != key@,
            decreases self.keys@.len() - i,
        {
            if self.keys[i] == *key {
                return Some(i);
            }
            i = i + 1;
        }
        None
    }

    /// Puts `offer` into the book under its key, in place of the offer that was there;
    /// returns the key.
    pub fn upsert(&mut self, offer: Offer) -> (key: String)
        ensures
            key@ == key_of(offer@),
            final(self)@ == old(self)@.insert(key_of(offer@), offer@),
    {
        proof {
            use_type_invariant(&*self);
        }
        let key = offer_key(&offer);
        let found = self.find(&key);
        let mut taken = OfferStore::new();
        std::mem::swap(self, &mut taken);
        let OfferStore { mut keys, mut offers } = taken;
        let ghost old_entries = offers@.map_values(|o: Offer| o@);
        let ghost offer_view = offer@;
        match found {
            Some(i) => {
                proof {
                    assert(old_entries[i as int] == offers@[i as int]@);
                    lemma_book_update(old_entries, i as int, offer_view);
                }
                offers.set(i, offer);
                proof {
                    assert(offers@.map_values(|o: Offer| o@) =~= old_entries.update(
                        i as int,
                        offer_view,
                    ));
                }
            },
            None => {
                let key_copy = crate::text::copy_str(key.as_str());
                keys.push(key_copy);
                offers.push(offer);
                proof {
                    let new_entries = offers@.map_values(|o: Offer| o@);
                    assert(new_entries =~= old_entries.push(offer_view));
                    assert(new_entries.drop_last() =~= old_entries);
                    assert forall|a: int, b: int|
                        0 <= a < b < new_entries.len() implies key_of(#[trigger] new_entries[a])
                        != key_of(#[trigger] new_entries[b]) by {
                        if b == new_entries.len() - 1 {
                            assert(keys@[a]@ == key_of(offers@[a]@));
                            assert(old(self).keys@[a]@ != key@);
                        } else {
                            assert(new_entries[a] == old_entries[a]);
                            assert(new_entries[b] == old_entries[b]);
                        }
                    }
                }
            },
        }
        *self = OfferStore { keys, offers };
        key
    }

    /// The offers in the book, each once, in no promised order.
    pub fn list(&self) -> (offers: Vec<Offer>)
        ensures
            is_listing(offers@.map_values(|o: Offer| o@), self@),
    {
        proof {
            use_type_invariant(self);
            lemma_book_contents(self.entries());
        }
        let mut out: Vec<Offer> = Vec::new();
        let mut i: usize = 0;
        while i < self.offers.len()
            invariant
                i <= self.offers@.len(),
                out@.len() == i,
                forall|k: int| 0 <= k < i ==> #[trigger] out@[k]@ == self.offers@[k]@,
            decreases self.offers@.len() - i,
        {
            out.push(self.offers[i].clone());
            i = i + 1;
        }
        proof {
            assert(out@.map_values(|o: Offer| o@) =~= self.entries());
        }
        out
    }

    /// Takes the offer under `key` out of the book; says whether there was one.
    pub fn delete_by_key(&mut self, key: &str) -> (deleted: bool)
        ensures
            deleted == old(self)@.contains_key(key@),
            final(self)@ == old(self)@.remove(key@),
    {
        proof {
            use_type_invariant(&*self);
            lemma_book_contents(self.entries());
        }
        let wanted = crate::text::copy_str(key);
        let found = self.find(&wanted);
        match found {
            None => {
                proof {
                    assert(!old(self)@.contains_key(key@)) by {
                        if old(self)@.contains_key(key@) {
                            let k = choose|k: int|
                                0 <= k < self.entries().len() && key_of(self.entries()[k]) == key@;
                            assert(self.keys@[k]@ == key_of(self.offers@[k]@));
                        }
                    }
                    assert(self@ =~= old(self)@.remove(key@));
                }
                false
            },
            Some(i) => {
                let mut taken = OfferStore::new();
                std::mem::swap(self, &mut taken);
                let OfferStore { mut keys, mut offers } = taken;
                let ghost old_entries = offers@.map_values(|o: Offer| o@);
                proof {
                    assert(old_entries[i as int] == offers@[i as int]@);
                    lemma_book_remove(old_entries, i as int);
                }
                keys.remove(i);
                offers.remove(i);
                proof {
                    assert(offers@.map_values(|o: Offer| o@) =~= old_entries.remove(i as int));
                }
                *self = OfferStore { keys, offers };
                true
            },
        }
    }
}

impl View for OfferStore {
    type V = Map<Seq<char>, OfferView>;

    /// Each offer under its key.
    closed spec fn view(&self) -> Map<Seq<char>, OfferView> {
        book_of(self.entries())
    }
}

impl Default for OfferStore {
    fn default() -> (store: Self)
        ensures
            store@ == Map::<Seq<char>, OfferView>::empty(),
    {
        OfferStore::new()
    }
}

/// Every offer of the book appears in any listing of it, under its key.
pub proof fn law_listing_is_complete(listed: Seq<OfferView>, book: Map<Seq<char>, OfferView>)
    requires
        is_listing(listed, book),
    ensures
        forall|k: Seq<char>|
            #[trigger] book.contains_key(k) ==> exists|i: int|
                0 <= i < listed.len() && key_of(listed[i]) == k && listed[i] == book[k],
{
    let keys = listed.map_values(|o: OfferView| key_of(o));
    assert forall|a: int, b: int| 0 <= a < keys.len() && 0 <= b < keys.len() && a != b implies keys[a]
        != keys[b] by {
        if a < b {
            assert(key_of(listed[a]) != key_of(listed[b]));
        } else {
            assert(key_of(listed[b]) != key_of(listed[a]));
        }
    }
    assert(keys.no_duplicates());
    keys.unique_seq_to_set();
    vstd::seq_lib::seq_to_set_is_finite(keys);
    assert forall|k: Seq<char>| keys.to_set().contains(k) implies book.dom().contains(k) by {
        let i = choose|i: int| 0 <= i < keys.len() && keys[i] == k;
        assert(book.contains_key(key_of(listed[i])));
    }
    vstd::set_lib::lemma_subset_equality(keys.to_set(), book.dom());
    assert forall|k: Seq<char>| #[trigger] book.contains_key(k) implies exists|i: int|
        0 <= i < listed.len() && key_of(listed[i]) == k && listed[i] == book[k] by {
        assert(keys.to_set().contains(k));
        let i = choose|i: int| 0 <= i < keys.len() && keys[i] == k;
        assert(key_of(listed[i]) == k);
    }
}

/// After an offer is upserted, every listing of the book holds that offer.
pub proof fn law_upserted_offer_is_listed(
    book: Map<Seq<char>, OfferView>,
    offer: OfferView,
    listed: Seq<OfferView>,
)
    requires
        is_listing(listed, book.insert(key_of(offer), offer)),
    ensures
        exists|i: int| 0 <= i < listed.len() && listed[i] == offer,
{
    let after = book.insert(key_of(offer), offer);
    law_listing_is_complete(listed, after);
    assert(after.contains_key(key_of(offer)));
}

/// The key that `upsert` returns for an offer is the key that `offer_key_from_parts`
/// builds from the offer's address and item, and deleting by it after the upsert
/// finds the offer and leaves the book as it was, without that key.
pub proof fn law_delete_after_upsert(book: Map<Seq<char>, OfferView>, offer: OfferView)
    ensures
        key_of(offer) == offer_key_of(offer.address, offer.item),
        book.insert(key_of(offer), offer).contains_key(offer_key_of(offer.address, offer.item)),
        book.insert(key_of(offer), offer).remove(offer_key_of(offer.address, offer.item))
            == book.remove(key_of(offer)),
{
    assert(book.insert(key_of(offer), offer).remove(key_of(offer)) =~= book.remove(key_of(offer)));
}

/// Upserting a second offer under the key of a first replaces it: the book holds the
/// second offer and no more keys than after the first.
pub proof fn law_upsert_replaces(
    book: Map<Seq<char>, OfferView>,
    first: OfferView,
    second: OfferView,
)
    requires
        book.dom().finite(),
        key_of(first) == key_of(second),
    ensures
        book.insert(key_of(first), first).insert(key_of(second), second) == book.insert(
            key_of(second),
            second,
        ),
        book.insert(key_of(first), first).insert(key_of(second), second).len() == book.insert(
            key_of(first),
            first,
        ).len(),
{
    let k = key_of(first);
    assert(book.insert(k, first).insert(k, second) =~= book.insert(k, second));
    assert(book.insert(k, first).dom() =~= book.insert(k, second).dom());
}

/// A call that changes the offer book: `upsert` of an offer, or `delete_by_key` of a key.
pub enum BookOp {
    Upsert(OfferView),
    Delete(Seq<char>),
}

/// The op is about the key `k`.
pub open spec fn touches(op: BookOp, k: Seq<char>) -> bool {
    match op {
        BookOp::Upsert(o) => key_of(o) == k,
        BookOp::Delete(d) => d == k,
    }
}

/// The book after `ops`, applied in order to an empty book, as `upsert` and
/// `delete_by_key` change it.
pub open spec fn book_after(ops: Seq<BookOp>) -> Map<Seq<char>, OfferView>
    decreases ops.len(),
{
    if ops.len() == 0 {
        Map::empty()
    } else {
        match ops.last() {
            BookOp::Upsert(o) => book_after(ops.drop_last()).insert(key_of(o), o),
            BookOp::Delete(k) => book_after(ops.drop_last()).remove(k),
        }
    }
}

/// The op at `i` upserts `o` under `k`, and no later op is about `k`.
pub open spec fn last_word_on(ops: Seq<BookOp>, k: Seq<char>, i: int, o: OfferView) -> bool {
    &&& 0 <= i < ops.len()
    &&& ops[i] == BookOp::Upsert(o)
    &&& key_of(o) == k
    &&& forall|j: int| i < j < ops.len() ==> !touches(#[trigger] ops[j], k)
}

/// `o` is the offer of the last upsert of `k`, and `k` was not deleted since.
pub open spec fn is_last_upsert(ops: Seq<BookOp>, k: Seq<char>, o: OfferView) -> bool {
    exists|i: int| last_word_on(ops, k, i, o)
}

/// `k` was upserted and not deleted since.
pub open spec fn is_live(ops: Seq<BookOp>, k: Seq<char>) -> bool {
    exists|i: int, o: OfferView| last_word_on(ops, k, i, o)
}

proof fn lemma_book_after(ops: Seq<BookOp>)
    ensures
        book_after(ops).dom().finite(),
        forall|k: Seq<char>| #[trigger] book_after(ops).contains_key(k) <==> is_live(ops, k),
        forall|k: Seq<char>|
            #[trigger] book_after(ops).contains_key(k) ==> exists|i: int|
                last_word_on(ops, k, i, book_after(ops)[k]),
    decreases ops.len(),
{
    if ops.len() > 0 {
        let init = ops.drop_last();
        let n = ops.len() - 1;
        lemma_book_after(init);
        let before = book_after(init);
        let after = book_after(ops);
        // a last word in `init` on a key the last op is not about stays the last word
        assert forall|k: Seq<char>, i: int, o: OfferView|
            last_word_on(init, k, i, o) && !touches(ops[n], k) implies last_word_on(ops, k, i, o) by {
            assert forall|j: int| i < j < ops.len() implies !touches(#[trigger] ops[j], k) by {
                if j < n {
                    assert(ops[j] == init[j]);
                }
            }
        }
        // and the other way
        assert forall|k: Seq<char>, i: int, o: OfferView|
            last_word_on(ops, k, i, o) && i < n implies last_word_on(init, k, i, o) by {
            assert forall|j: int| i < j < init.len() implies !touches(#[trigger] init[j], k) by {
                assert(ops[j] == init[j]);
            }
        }
        assert(after.dom().finite());
        assert forall|k: Seq<char>| #[trigger] after.contains_key(k) <==> is_live(ops, k) by {
            if touches(ops[n], k) {
                match ops[n] {
                    BookOp::Upsert(o) => {
                        assert(last_word_on(ops, k, n, o));
                    },
                    BookOp::Delete(d) => {
                        if is_live(ops, k) {
                            let (i, o) = choose|i: int, o: OfferView| last_word_on(ops, k, i, o);
                            assert(i < n ==> !touches(ops[n], k));
                            assert(ops[i] != ops[n]);
                        }
                    },
                }
            } else {
                assert(after.contains_key(k) == before.contains_key(k));
                if is_live(ops, k) {
                    let (i, o) = choose|i: int, o: OfferView| last_word_on(ops, k, i, o);
                    if i == n {
                        assert(touches(ops[n], k));
                    }
                    assert(last_word_on(init, k, i, o));
                }
                if before.contains_key(k) {
                    let (i, o) = choose|i: int, o: OfferView| last_word_on(init, k, i, o);
                    assert(last_word_on(ops, k, i, o));
                }
            }
        }
        assert forall|k: Seq<char>| #[trigger] after.contains_key(k) implies exists|i: int|
            last_word_on(ops, k, i, after[k]) by {
            if touches(ops[n], k) {
                match ops[n] {
                    BookOp::Upsert(o) => {
                        assert(last_word_on(ops, k, n, after[k]));
                    },
                    BookOp::Delete(d) => {},
                }
            } else {
                assert(before.contains_key(k));
                assert(after[k] == before[k]);
                let i = choose|i: int| last_word_on(init, k, i, before[k]);
                assert(last_word_on(ops, k, i, after[k]));
            }
        }
    } else {
        assert(book_after(ops).dom() =~= Set::<Seq<char>>::empty());
    }
}

/// What a sequence of `upsert` and `delete_by_key` calls leaves, as a listing shows it:
/// no two listed offers share a key; a key is listed exactly when it was upserted and not
/// deleted since, with the offer of its last upsert; and the listing is as long as there
/// are such keys.
pub proof fn law_listing_after_operations(ops: Seq<BookOp>, listed: Seq<OfferView>)
    requires
        is_listing(listed, book_after(ops)),
    ensures
        distinct_keys(listed),
        forall|k: Seq<char>|
            is_live(ops, k) <==> exists|i: int| 0 <= i < listed.len() && #[trigger] key_of(listed[i]) == k,
        forall|i: int|
            0 <= i < listed.len() ==> is_last_upsert(ops, key_of(#[trigger] listed[i]), listed[i]),
        listed.len() == Set::new(|k: Seq<char>| is_live(ops, k)).len(),
{
    let book = book_after(ops);
    lemma_book_after(ops);
    law_listing_is_complete(listed, book);
    assert forall|k: Seq<char>|
        is_live(ops, k) <==> exists|i: int| 0 <= i < listed.len() && #[trigger] key_of(listed[i]) == k by {
        if is_live(ops, k) {
            assert(book.contains_key(k));
        }
        if exists|i: int| 0 <= i < listed.len() && #[trigger] key_of(listed[i]) == k {
            let i = choose|i: int| 0 <= i < listed.len() && #[trigger] key_of(listed[i]) == k;
            assert(book.contains_key(key_of(listed[i])));
        }
    }
    assert forall|i: int| 0 <= i < listed.len() implies is_last_upsert(
        ops,
        key_of(#[trigger] listed[i]),
        listed[i],
    ) by {
        let k = key_of(listed[i]);
        assert(book.contains_key(k));
        assert(book[k] == listed[i]);
        let j = choose|j: int| last_word_on(ops, k, j, book[k]);
        assert(last_word_on(ops, k, j, listed[i]));
    }
    assert(Set::new(|k: Seq<char>| is_live(ops, k)) =~= book.dom());
}

/// Deleting a key that the book does not hold reports no deletion and changes nothing.
pub proof fn law_delete_absent_changes_nothing(book: Map<Seq<char>, OfferView>, key: Seq<char>)
    requires
        !book.contains_key(key),
    ensures
        book.remove(key) == book,
{
    assert(book.remove(key) =~= book);
}

} // verus!
