//! The open orders of an account, by client order id.
use crate::amount::in_range;
use crate::text::same_text;
use vstd::prelude::*;

verus! {

/// An open order: what is left of it to fill, and its price.
pub struct OpenOrder {
    pub id: String,
    pub size: i128,
    pub price: i128,
}

/// An order with this client order id is among the entries.
pub open spec fn has_id(entries: Seq<OpenOrder>, id: Seq<char>) -> bool {
    exists|i: int| 0 <= i < entries.len() && (#[trigger] entries[i]).id@ == id
}

/// The place of an order among the entries.
pub open spec fn place_of(entries: Seq<OpenOrder>, id: Seq<char>) -> int {
    choose|i: int| 0 <= i < entries.len() && (#[trigger] entries[i]).id@ == id
}

/// The size and the price of each entry, by client order id.
pub open spec fn by_id(entries: Seq<OpenOrder>) -> Map<Seq<char>, (int, int)> {
    Map::new(
        |id: Seq<char>| has_id(entries, id),
        |id: Seq<char>|
            {
                let order = entries[place_of(entries, id)];
                (order.size as int, order.price as int)
            },
    )
}

/// No two entries have the same client order id.
pub open spec fn ids_differ(entries: Seq<OpenOrder>) -> bool {
    forall|i: int, j: int|
        0 <= i < j < entries.len() ==> (#[trigger] entries[i]).id@ != (#[trigger] entries[j]).id@
}

/// Sizes and prices are within the limits.
pub open spec fn amounts_in_range(entries: Seq<OpenOrder>) -> bool {
    forall|i: int|
        0 <= i < entries.len() ==> in_range((#[trigger] entries[i]).size as int) && in_range(
            entries[i].price as int,
        )
}

/// The open orders of an account.
pub struct OpenOrders {
    entries: Vec<OpenOrder>,
}

impl View for OpenOrders {
    type V = Map<Seq<char>, (int, int)>;

    closed spec fn view(&self) -> Map<Seq<char>, (int, int)> {
        by_id(self.entries@)
    }
}

impl OpenOrders {
    /// No client order id occurs twice, and the amounts are within the limits.
    pub closed spec fn wf(self) -> bool {
        ids_differ(self.entries@) && amounts_in_range(self.entries@)
    }

    /// The orders one after another.
    pub closed spec fn walk(self) -> Seq<OpenOrder> {
        self.entries@
    }

    /// The orders one after another are those of the map.
    pub proof fn lemma_walk(self)
        requires
            self.wf(),
        ensures
            ids_differ(self.walk()),
            amounts_in_range(self.walk()),
            by_id(self.walk()) == self@,
    {
    }

    /// No orders.
    pub fn new() -> (r: OpenOrders)
        ensures
            r.wf(),
            r@ == Map::<Seq<char>, (int, int)>::empty(),
            r.walk().len() == 0,
    {
        let r = OpenOrders { entries: Vec::new() };
        assert(r@ == Map::<Seq<char>, (int, int)>::empty());
        r
    }

    /// The place of an order, or the number of orders where it is not among them.
    fn find(&self, id: &str) -> (p: usize)
        ensures
            p <= self.entries@.len(),
            p < self.entries@.len() ==> self.entries@[p as int].id@ == id@,
            p < self.entries@.len() <==> has_id(self.entries@, id@),
    {
        let mut i: usize = 0;
        while i < self.entries.len()
            invariant
                i <= self.entries@.len(),
                forall|j: int| 0 <= j < i ==> (#[trigger] self.entries@[j]).id@ != id@,
            decreases self.entries@.len() - i,
        {
            if same_text(self.entries[i].id.as_str(), id) {
                return i;
            }
            i = i + 1;
        }
        i
    }

    /// The number of orders.
    pub fn len(&self) -> (n: usize)
        ensures
            n == self.walk().len(),
    {
        self.entries.len()
    }

    /// The orders one after another.
    pub fn entries(&self) -> (r: &Vec<OpenOrder>)
        ensures
            r@ == self.walk(),
            self.wf() ==> ids_differ(r@) && amounts_in_range(r@) && by_id(r@) == self@,
    {
        &self.entries
    }

    /// The size and the price of an order.
    pub fn get(&self, id: &str) -> (r: Option<(i128, i128)>)
        requires
            self.wf(),
        ensures
            r is Some <==> self@.dom().contains(id@),
            r matches Some(v) ==> self@[id@] == (v.0 as int, v.1 as int) && in_range(v.0 as int)
                && in_range(v.1 as int),
    {
        let p = self.find(id);
        if p == self.entries.len() {
            return None;
        }
        assert(place_of(self.entries@, id@) == p);
        Some((self.entries[p].size, self.entries[p].price))
    }

    /// Puts an order in, in place of one with the same client order id.
    pub fn insert(&mut self, id: &str, size: i128, price: i128)
        requires
            old(self).wf(),
            in_range(size as int),
            in_range(price as int),
        ensures
            final(self).wf(),
            final(self)@ == old(self)@.insert(id@, (size as int, price as int)),
    {
        let p = self.find(id);
        let ghost before = self.entries@;
        let order = OpenOrder { id: id.to_owned(), size, price };
        if p == self.entries.len() {
            self.entries.push(order);
        } else {
            self.entries.set(p, order);
        }
        proof {
            let after = self.entries@;
            assert(after[p as int].id@ == id@);
            assert(ids_differ(after));
            assert forall|other: Seq<char>| #[trigger] has_id(after, other) == (has_id(
                before,
                other,
            ) || other == id@) by {
                if has_id(before, other) {
                    let i = place_of(before, other);
                    assert(after[i].id@ == other);
                }
                if other == id@ {
                    assert(after[p as int].id@ == other);
                }
                if has_id(after, other) && other != id@ {
                    let i = place_of(after, other);
                    assert(before[i].id@ == other);
                }
            }
            assert(by_id(after) =~= by_id(before).insert(id@, (size as int, price as int))) by {
                assert forall|other: Seq<char>| has_id(after, other) implies by_id(after)[other]
                    == by_id(before).insert(id@, (size as int, price as int))[other] by {
                    let i = place_of(after, other);
                    if other == id@ {
                        assert(i == p);
                    } else {
                        assert(before[i].id@ == other);
                        assert(place_of(before, other) == i);
                    }
                }
            }
        }
    }

    /// Takes an order out, and says whether it was there.
    pub fn remove(&mut self, id: &str) -> (found: bool)
        requires
            old(self).wf(),
        ensures
            final(self).wf(),
            found == old(self)@.dom().contains(id@),
            final(self)@ == old(self)@.remove(id@),
    {
        let p = self.find(id);
        let ghost before = self.entries@;
        if p == self.entries.len() {
            assert(self@ =~= old(self)@.remove(id@));
            return false;
        }
        let _ = self.entries.remove(p);
        proof {
            let after = self.entries@;
            assert forall|i: int| 0 <= i < after.len() implies #[trigger] after[i] == before[if i
                < p {
                i
            } else {
                i + 1
            }] by {}
            assert forall|i: int, j: int| 0 <= i < j < after.len() implies (
            #[trigger] after[i]).id@ != (#[trigger] after[j]).id@ by {
                let x = if i < p {
                    i
                } else {
                    i + 1
                };
                let y = if j < p {
                    j
                } else {
                    j + 1
                };
                assert(after[i] == before[x] && after[j] == before[y]);
                assert(before[x].id@ != before[y].id@);
            }
            assert forall|i: int| 0 <= i < after.len() implies in_range(
                (#[trigger] after[i]).size as int,
            ) && in_range(after[i].price as int) by {
                let x = if i < p {
                    i
                } else {
                    i + 1
                };
                assert(after[i] == before[x]);
            }
            assert forall|other: Seq<char>| #[trigger] has_id(after, other) == (has_id(
                before,
                other,
            ) && other != id@) by {
                if has_id(after, other) {
                    let i = place_of(after, other);
                    let x = if i < p {
                        i
                    } else {
                        i + 1
                    };
                    assert(before[x].id@ == other);
                    if x < p {
                        assert(before[x].id@ != before[p as int].id@);
                    } else {
                        assert(before[p as int].id@ != before[x].id@);
                    }
                }
                if has_id(before, other) && other != id@ {
                    let i = place_of(before, other);
                    let x = if i < p {
                        i
                    } else {
                        i - 1
                    };
                    assert(after[x] == before[i]);
                }
            }
            assert(by_id(after) =~= by_id(before).remove(id@)) by {
                assert forall|other: Seq<char>| has_id(after, other) implies by_id(after)[other]
                    == by_id(before)[other] by {
                    let i = place_of(after, other);
                    let x = if i < p {
                        i
                    } else {
                        i + 1
                    };
                    assert(after[i] == before[x]);
                    let y = place_of(before, other);
                    if x < y {
                        assert(before[x].id@ != before[y].id@);
                    }
                    if y < x {
                        assert(before[y].id@ != before[x].id@);
                    }
                }
            }
        }
        true
    }
}

/// Each order stands in the map under its client order id, with its size and its price,
/// and nothing else does.
pub proof fn law_orders_stand_under_their_ids(book: OpenOrders)
    requires
        book.wf(),
    ensures
        forall|i: int|
            0 <= i < book.walk().len() ==> book@.dom().contains((#[trigger] book.walk()[i]).id@)
                && book@[book.walk()[i].id@] == (
            book.walk()[i].size as int,
            book.walk()[i].price as int,
        ),
        forall|id: Seq<char>| #[trigger]
            book@.dom().contains(id) ==> exists|i: int|
                0 <= i < book.walk().len() && (#[trigger] book.walk()[i]).id@ == id,
        forall|i: int, j: int|
            0 <= i < j < book.walk().len() ==> (#[trigger] book.walk()[i]).id@ != (
            #[trigger] book.walk()[j]).id@,
{
    let entries = book.walk();
    assert forall|i: int| 0 <= i < entries.len() implies book@.dom().contains(
        (#[trigger] entries[i]).id@,
    ) && book@[entries[i].id@] == (entries[i].size as int, entries[i].price as int) by {
        let id = entries[i].id@;
        assert(has_id(entries, id));
        let p = place_of(entries, id);
        assert(entries[p].id@ == id);
        if p < i {
            assert(entries[p].id@ != entries[i].id@);
        }
        if i < p {
            assert(entries[i].id@ != entries[p].id@);
        }
    }
}

}
