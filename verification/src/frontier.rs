//! The frontier of a search: discovered cells waiting to be settled, each
//! under its estimated total cost.

use vstd::prelude::*;
use vstd::multiset::{lemma_multiset_empty_len, Multiset};
use vstd::seq_lib::{to_multiset_build, to_multiset_contains, to_multiset_len, to_multiset_remove, to_multiset_update};
use crate::cell::Cell;

verus! {

/// A frontier entry: the estimated total cost of a route through a cell,
/// and the cell.
pub type Entry = (nat, Cell);

/// `a` leaves the frontier before `b`: it has the smaller estimate, or the
/// same estimate and the larger cell, comparing `x` first and then `y`.
pub open spec fn outranks(a: Entry, b: Entry) -> bool {
    a.0 < b.0 || (a.0 == b.0 && (a.1.0 > b.1.0 || (a.1.0 == b.1.0 && a.1.1 > b.1.1)))
}

/// `e` is in `open` and nothing in `open` outranks it.
pub open spec fn is_front(open: Multiset<Entry>, e: Entry) -> bool {
    open.contains(e) && forall|o: Entry| #[trigger] open.contains(o) ==> !outranks(o, e)
}

/// The entry that leaves `open` next.
pub open spec fn front(open: Multiset<Entry>) -> Entry {
    choose|e: Entry| is_front(open, e)
}

/// At most one entry can be at the front.
pub proof fn lemma_front_unique(open: Multiset<Entry>, a: Entry, b: Entry)
    requires
        is_front(open, a),
        is_front(open, b),
    ensures
        a == b,
{
}

/// A frontier that is not empty has a front.
pub proof fn lemma_front_exists(open: Multiset<Entry>)
    requires
        open.len() > 0,
    ensures
        is_front(open, front(open)),
    decreases open.len(),
{
    let x = open.choose();
    let rest = open.remove(x);
    if rest.len() == 0 {
        assert forall|o: Entry| #[trigger] open.contains(o) implies !outranks(o, x) by {
            if o != x {
                assert(rest.contains(o));
                assert(false);
            }
        }
        assert(is_front(open, x));
    } else {
        lemma_front_exists(rest);
        let y = front(rest);
        let best = if outranks(x, y) { x } else { y };
        assert(rest.contains(y));
        assert(open.contains(y));
        assert forall|o: Entry| #[trigger] open.contains(o) implies !outranks(o, best) by {
            if o != x {
                assert(rest.contains(o));
            }
        }
        assert(is_front(open, best));
    }
}

/// Outranking is transitive, and of two different entries one outranks the other.
proof fn lemma_outranks_order(a: Entry, b: Entry, c: Entry)
    ensures
        outranks(a, b) && outranks(b, c) ==> outranks(a, c),
        !outranks(a, b) && !outranks(b, c) ==> !outranks(a, c),
        outranks(a, b) ==> !outranks(b, a),
{
}

/// A stored item as a frontier entry.
pub open spec fn entry_of(item: (usize, Cell)) -> Entry {
    (item.0 as nat, item.1)
}

/// Stored items as frontier entries.
spec fn entries_of(items: Seq<(usize, Cell)>) -> Seq<Entry> {
    items.map_values(|item: (usize, Cell)| entry_of(item))
}

/// The slot above slot `i` in the heap.
spec fn parent(i: int) -> int {
    (i - 1) / 2
}

/// The item in slot `k` does not outrank the item in slot `a`.
spec fn not_above(items: Seq<(usize, Cell)>, k: int, a: int) -> bool {
    !outranks(entry_of(items[k]), entry_of(items[a]))
}

/// The item in slot `k` does not outrank the one in the slot above it.
spec fn ordered_at(items: Seq<(usize, Cell)>, k: int) -> bool {
    not_above(items, k, parent(k))
}

/// The item in slot `k` does not outrank the one two slots above it.
spec fn ordered_over(items: Seq<(usize, Cell)>, k: int) -> bool {
    not_above(items, k, parent(parent(k)))
}

/// No item outranks the one in the slot above it.
spec fn heap_ordered(items: Seq<(usize, Cell)>) -> bool {
    forall|k: int| 0 < k < items.len() ==> #[trigger] ordered_at(items, k)
}

/// The heap is in order except that the item in slot `i` may outrank the
/// items above it; the items below slot `i` fit under the slot above it.
spec fn ordered_but_up(items: Seq<(usize, Cell)>, i: int) -> bool {
    &&& forall|k: int| 0 < k < items.len() && k != i ==> #[trigger] ordered_at(items, k)
    &&& forall|k: int|
        0 < k < items.len() && parent(k) == i && i > 0 ==> #[trigger] ordered_over(items, k)
}

/// The heap is in order except that the item in slot `i` may be outranked
/// by the items below it; those fit under the slot above `i`.
spec fn ordered_but_down(items: Seq<(usize, Cell)>, i: int) -> bool {
    &&& forall|k: int| 0 < k < items.len() && parent(k) != i ==> #[trigger] ordered_at(items, k)
    &&& forall|k: int|
        0 < k < items.len() && parent(k) == i && i > 0 ==> #[trigger] ordered_over(items, k)
}

/// In an ordered heap no item outranks the one in the first slot.
proof fn lemma_root_first(items: Seq<(usize, Cell)>, k: int)
    requires
        heap_ordered(items),
        0 <= k < items.len(),
    ensures
        not_above(items, k, 0),
    decreases k,
{
    if k > 0 {
        assert(ordered_at(items, k));
        lemma_root_first(items, parent(k));
        lemma_outranks_order(
            entry_of(items[k]),
            entry_of(items[parent(k)]),
            entry_of(items[0]),
        );
    }
}

/// The first slot of an ordered heap holds the front of its entries.
proof fn lemma_root_is_front(items: Seq<(usize, Cell)>)
    requires
        heap_ordered(items),
        items.len() > 0,
    ensures
        is_front(entries_of(items).to_multiset(), entry_of(items[0])),
{
    let entries = entries_of(items);
    let open = entries.to_multiset();
    assert(entries[0] == entry_of(items[0]));
    to_multiset_contains(entries, entry_of(items[0]));
    assert forall|o: Entry| #[trigger] open.contains(o) implies !outranks(o, entry_of(items[0])) by {
        to_multiset_contains(entries, o);
        let k = choose|k: int| 0 <= k < entries.len() && entries[k] == o;
        lemma_root_first(items, k);
    }
}

/// Exchanging two items keeps the entries the same.
proof fn lemma_swap_entries(items: Seq<(usize, Cell)>, i: int, j: int)
    requires
        0 <= i < items.len(),
        0 <= j < items.len(),
    ensures
        entries_of(items.update(i, items[j]).update(j, items[i])).to_multiset() == entries_of(
            items,
        ).to_multiset(),
{
    let entries = entries_of(items);
    let once = entries.update(i, entries[j]);
    let twice = once.update(j, entries[i]);
    assert(entries_of(items.update(i, items[j]).update(j, items[i])) =~= twice);
    to_multiset_update(entries, i, entries[j]);
    to_multiset_update(once, j, entries[i]);
    to_multiset_contains(entries, entries[i]);
    to_multiset_contains(entries, entries[j]);
    assert(twice.to_multiset() =~= entries.to_multiset());
}

/// Whether `a` leaves the frontier before `b`.
fn before(a: (usize, Cell), b: (usize, Cell)) -> (r: bool)
    ensures
        r == outranks(entry_of(a), entry_of(b)),
{
    a.0 < b.0 || (a.0 == b.0 && (a.1.0 > b.1.0 || (a.1.0 == b.1.0 && a.1.1 > b.1.1)))
}

/// The open set of a search: a binary heap of `(estimate, cell)` pairs
/// whose first slot holds the entry that leaves next. The same cell may be
/// held several times.
pub struct OpenSet {
    items: Vec<(usize, Cell)>,
}

impl View for OpenSet {
    type V = Multiset<Entry>;

    closed spec fn view(&self) -> Multiset<Entry> {
        entries_of(self.items@).to_multiset()
    }
}

impl OpenSet {
    /// The items are in heap order.
    pub closed spec fn wf(&self) -> bool {
        heap_ordered(self.items@)
    }

    /// An open set with nothing in it.
    pub fn new() -> (open: OpenSet)
        ensures
            open.wf(),
            open@ == Multiset::<Entry>::empty(),
    {
        let open = OpenSet { items: Vec::new() };
        proof {
            to_multiset_len(entries_of(open.items@));
            lemma_multiset_empty_len(open@);
        }
        open
    }

    /// The number of entries held.
    pub fn len(&self) -> (n: usize)
        ensures
            n == self@.len(),
    {
        proof {
            to_multiset_len(entries_of(self.items@));
        }
        self.items.len()
    }

    /// Whether no entry is held.
    pub fn is_empty(&self) -> (b: bool)
        ensures
            b == (self@.len() == 0),
    {
        self.len() == 0
    }

    /// Exchanges the items in slots `i` and `j`.
    fn swap(&mut self, i: usize, j: usize)
        requires
            i < old(self).items@.len(),
            j < old(self).items@.len(),
        ensures
            final(self).items@ == old(self).items@.update(i as int, old(self).items@[j as int]).update(
                j as int,
                old(self).items@[i as int],
            ),
            final(self)@ == old(self)@,
    {
        proof {
            lemma_swap_entries(self.items@, i as int, j as int);
        }
        let a = self.items[i];
        let b = self.items[j];
        self.items[i] = b;
        self.items[j] = a;
    }

    /// Adds the entry `(priority, cell)`.
    pub fn push(&mut self, priority: usize, cell: Cell)
        requires
            old(self).wf(),
        ensures
            final(self).wf(),
            final(self)@ == old(self)@.insert((priority as nat, cell)),
    {
        proof {
            to_multiset_build(entries_of(self.items@), entry_of((priority, cell)));
            assert(entries_of(self.items@.push((priority, cell))) =~= entries_of(self.items@).push(
                entry_of((priority, cell)),
            ));
        }
        self.items.push((priority, cell));
        let mut i: usize = self.items.len() - 1;
        assert forall|k: int| 0 < k < self.items@.len() && k != i implies #[trigger] ordered_at(
            self.items@,
            k,
        ) by {
            assert(ordered_at(old(self).items@, k));
        }
        while i > 0
            invariant
                i < self.items@.len(),
                self@ == old(self)@.insert((priority as nat, cell)),
                ordered_but_up(self.items@, i as int),
            ensures
                heap_ordered(self.items@),
                self@ == old(self)@.insert((priority as nat, cell)),
            decreases i,
        {
            let p: usize = (i - 1) / 2;
            if before(self.items[i], self.items[p]) {
                let ghost prev = self.items@;
                self.swap(i, p);
                proof {
                    lemma_sift_up(prev, self.items@, i as int);
                }
                i = p;
            } else {
                assert(ordered_at(self.items@, i as int));
                break;
            }
        }
    }

    /// Takes out the entry that no other entry outranks: the one with the
    /// lowest estimate and, among those, the largest cell. Gives `None`
    /// when nothing is held.
    pub fn pop(&mut self) -> (popped: Option<(usize, Cell)>)
        requires
            old(self).wf(),
        ensures
            final(self).wf(),
            match popped {
                Some(item) => is_front(old(self)@, entry_of(item)) && final(self)@ == old(
                    self,
                )@.remove(entry_of(item)),
                None => old(self)@.len() == 0 && final(self)@ == old(self)@,
            },
    {
        let n: usize = self.items.len();
        proof {
            to_multiset_len(entries_of(self.items@));
        }
        if n == 0 {
            return None;
        }
        let top = self.items[0];
        let last = self.items[n - 1];
        proof {
            lemma_root_is_front(self.items@);
            let entries = entries_of(self.items@);
            to_multiset_remove(entries, n - 1);
            assert(entries_of(self.items@.drop_last()) =~= entries.remove(n - 1));
            if n > 1 {
                let rest = entries.remove(n - 1);
                to_multiset_update(rest, 0, entry_of(last));
                assert(entries_of(self.items@.drop_last().update(0, last)) =~= rest.update(
                    0,
                    entry_of(last),
                ));
                to_multiset_contains(entries, entries[0]);
                to_multiset_contains(entries, entries[n - 1]);
                assert(rest.update(0, entry_of(last)).to_multiset() =~= entries.to_multiset().remove(
                    entry_of(top),
                ));
            }
        }
        self.items.pop();
        assert(self.items@ =~= old(self).items@.drop_last());
        if n > 1 {
            self.items[0] = last;
            assert forall|k: int| 0 < k < self.items@.len() && parent(k) != 0 implies #[trigger] ordered_at(
                self.items@,
                k,
            ) by {
                assert(ordered_at(old(self).items@, k));
            }
            self.sift_down();
        }
        Some(top)
    }

    /// Lets the item in the first slot sink to where it belongs.
    fn sift_down(&mut self)
        requires
            ordered_but_down(old(self).items@, 0),
        ensures
            heap_ordered(final(self).items@),
            final(self)@ == old(self)@,
    {
        let n: usize = self.items.len();
        let mut i: usize = 0;
        loop
            invariant
                n == self.items@.len(),
                self@ == old(self)@,
                ordered_but_down(self.items@, i as int),
            ensures
                heap_ordered(self.items@),
                self@ == old(self)@,
            decreases n - i,
        {
            if n < 2 || i > (n - 2) / 2 {
                proof {
                    lemma_sunk(self.items@, i as int);
                }
                break;
            }
            let left: usize = 2 * i + 1;
            let right: usize = left + 1;
            let mut best: usize = i;
            if before(self.items[left], self.items[best]) {
                best = left;
            }
            if right < n && before(self.items[right], self.items[best]) {
                best = right;
            }
            if best == i {
                proof {
                    lemma_sunk(self.items@, i as int);
                }
                break;
            }
            let ghost prev = self.items@;
            self.swap(i, best);
            proof {
                lemma_sift_down(prev, self.items@, i as int, best as int);
            }
            i = best;
        }
    }
}

/// After an item that outranks the one above it has changed places with
/// it, the heap is in order except at the slot it moved to.
proof fn lemma_sift_up(prev: Seq<(usize, Cell)>, now: Seq<(usize, Cell)>, i: int)
    requires
        0 < i < prev.len(),
        ordered_but_up(prev, i),
        outranks(entry_of(prev[i]), entry_of(prev[parent(i)])),
        now == prev.update(i, prev[parent(i)]).update(parent(i), prev[i]),
    ensures
        ordered_but_up(now, parent(i)),
{
    let p = parent(i);
    assert forall|k: int| 0 < k < now.len() && k != p implies #[trigger] ordered_at(now, k) by {
        if k == i {
        } else if parent(k) == i {
            assert(ordered_over(prev, k));
        } else if parent(k) == p {
            assert(ordered_at(prev, k));
            lemma_outranks_order(entry_of(prev[k]), entry_of(prev[i]), entry_of(prev[p]));
        } else {
            assert(ordered_at(prev, k));
        }
    }
    assert forall|k: int| 0 < k < now.len() && parent(k) == p && p > 0 implies #[trigger] ordered_over(
        now,
        k,
    ) by {
        assert(ordered_at(prev, p));
        if k != i {
            assert(ordered_at(prev, k));
            lemma_outranks_order(entry_of(prev[k]), entry_of(prev[p]), entry_of(prev[parent(p)]));
        }
    }
}

/// After an item has changed places with the one below that outranks both
/// it and the other one below, the heap is in order except at the slot it
/// moved to.
proof fn lemma_sift_down(prev: Seq<(usize, Cell)>, now: Seq<(usize, Cell)>, i: int, best: int)
    requires
        0 <= i < best < prev.len(),
        parent(best) == i,
        ordered_but_down(prev, i),
        outranks(entry_of(prev[best]), entry_of(prev[i])),
        forall|k: int| 0 < k < prev.len() && parent(k) == i ==> #[trigger] not_above(prev, k, best),
        now == prev.update(i, prev[best]).update(best, prev[i]),
    ensures
        ordered_but_down(now, best),
{
    assert forall|k: int| 0 < k < now.len() && parent(k) != best implies #[trigger] ordered_at(
        now,
        k,
    ) by {
        if k == best {
        } else if parent(k) == i {
            assert(not_above(prev, k, best));
        } else if k == i {
            assert(ordered_over(prev, best));
        } else {
            assert(ordered_at(prev, k));
        }
    }
    assert forall|k: int| 0 < k < now.len() && parent(k) == best && best > 0 implies #[trigger] ordered_over(
        now,
        k,
    ) by {
        assert(ordered_at(prev, k));
    }
}

/// Once the item in slot `i` is outranked by nothing below it, the heap is in order.
proof fn lemma_sunk(items: Seq<(usize, Cell)>, i: int)
    requires
        ordered_but_down(items, i),
        forall|k: int| 0 < k < items.len() && parent(k) == i ==> #[trigger] not_above(items, k, i),
    ensures
        heap_ordered(items),
{
    assert forall|k: int| 0 < k < items.len() implies #[trigger] ordered_at(items, k) by {
        if parent(k) == i {
            assert(not_above(items, k, i));
        }
    }
}

} // verus!
