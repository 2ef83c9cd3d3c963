//! The orders that the tracker sorts by, and a sort that is proved against them.
use vstd::prelude::*;

verus! {

/// Lexicographic order of byte strings: a proper prefix comes first, otherwise the
/// first byte that differs decides.
pub open spec fn bytes_le(a: Seq<u8>, b: Seq<u8>) -> bool
    decreases a.len(),
{
    if a.len() == 0 {
        true
    } else if b.len() == 0 {
        false
    } else if a[0] != b[0] {
        a[0] < b[0]
    } else {
        bytes_le(a.skip(1), b.skip(1))
    }
}

/// Lexicographic order of lists of byte strings.
pub open spec fn key_le(a: Seq<Seq<u8>>, b: Seq<Seq<u8>>) -> bool
    decreases a.len(),
{
    if a.len() == 0 {
        true
    } else if b.len() == 0 {
        false
    } else if a[0] != b[0] {
        bytes_le(a[0], b[0])
    } else {
        key_le(a.skip(1), b.skip(1))
    }
}

/// The order of byte strings is total.
pub proof fn bytes_le_total(a: Seq<u8>, b: Seq<u8>)
    ensures
        bytes_le(a, b) || bytes_le(b, a),
    decreases a.len(),
{
    if a.len() > 0 && b.len() > 0 && a[0] == b[0] {
        bytes_le_total(a.skip(1), b.skip(1));
    }
}

/// Two byte strings that are each at most the other are the same.
pub proof fn bytes_le_antisymmetric(a: Seq<u8>, b: Seq<u8>)
    requires
        bytes_le(a, b),
        bytes_le(b, a),
    ensures
        a == b,
    decreases a.len(),
{
    if a.len() > 0 && b.len() > 0 {
        bytes_le_antisymmetric(a.skip(1), b.skip(1));
        assert(a =~= seq![a[0]] + a.skip(1));
        assert(b =~= seq![b[0]] + b.skip(1));
    } else {
        assert(a =~= b);
    }
}

/// The order of byte strings is transitive.
pub proof fn bytes_le_transitive(a: Seq<u8>, b: Seq<u8>, c: Seq<u8>)
    requires
        bytes_le(a, b),
        bytes_le(b, c),
    ensures
        bytes_le(a, c),
    decreases a.len(),
{
    if a.len() > 0 && b.len() > 0 && c.len() > 0 && a[0] == b[0] && b[0] == c[0] {
        bytes_le_transitive(a.skip(1), b.skip(1), c.skip(1));
    }
}

/// The order of keys is total.
pub proof fn key_le_total(a: Seq<Seq<u8>>, b: Seq<Seq<u8>>)
    ensures
        key_le(a, b) || key_le(b, a),
    decreases a.len(),
{
    if a.len() > 0 && b.len() > 0 {
        if a[0] == b[0] {
            key_le_total(a.skip(1), b.skip(1));
        } else {
            bytes_le_total(a[0], b[0]);
        }
    }
}

/// Every key is at most itself.
pub proof fn key_le_reflexive(a: Seq<Seq<u8>>)
    ensures
        key_le(a, a),
{
    key_le_total(a, a);
}

/// Two keys that are each at most the other are the same.
pub proof fn key_le_antisymmetric(a: Seq<Seq<u8>>, b: Seq<Seq<u8>>)
    requires
        key_le(a, b),
        key_le(b, a),
    ensures
        a == b,
    decreases a.len(),
{
    if a.len() > 0 && b.len() > 0 {
        if a[0] != b[0] {
            bytes_le_antisymmetric(a[0], b[0]);
        }
        key_le_antisymmetric(a.skip(1), b.skip(1));
        assert(a =~= seq![a[0]] + a.skip(1));
        assert(b =~= seq![b[0]] + b.skip(1));
    } else {
        assert(a =~= b);
    }
}

/// The order of keys is transitive.
pub proof fn key_le_transitive(a: Seq<Seq<u8>>, b: Seq<Seq<u8>>, c: Seq<Seq<u8>>)
    requires
        key_le(a, b),
        key_le(b, c),
    ensures
        key_le(a, c),
    decreases a.len(),
{
    if a.len() > 0 && b.len() > 0 && c.len() > 0 {
        if a[0] == b[0] && b[0] == c[0] {
            key_le_transitive(a.skip(1), b.skip(1), c.skip(1));
        } else if a[0] != b[0] && b[0] != c[0] {
            bytes_le_transitive(a[0], b[0], c[0]);
            if a[0] == c[0] {
                bytes_le_antisymmetric(a[0], b[0]);
            }
        }
    }
}

/// A key that extends another one comes after it.
pub proof fn key_le_prefix(a: Seq<Seq<u8>>, b: Seq<Seq<u8>>)
    requires
        a.is_prefix_of(b),
    ensures
        key_le(a, b),
    decreases a.len(),
{
    if a.len() > 0 {
        assert(a[0] == b.subrange(0, a.len() as int)[0]);
        assert(a.skip(1) =~= b.skip(1).subrange(0, a.len() - 1));
        key_le_prefix(a.skip(1), b.skip(1));
    }
}

/// Every key between `a` and an extension of `a` is an extension of `a`.
pub proof fn key_le_between_prefix(a: Seq<Seq<u8>>, b: Seq<Seq<u8>>, c: Seq<Seq<u8>>)
    requires
        key_le(a, b),
        key_le(b, c),
        a.is_prefix_of(c),
    ensures
        a.is_prefix_of(b),
    decreases a.len(),
{
    if a.len() > 0 {
        assert(a[0] == c.subrange(0, a.len() as int)[0]);
        if a[0] != b[0] {
            bytes_le_antisymmetric(a[0], b[0]);
        }
        assert(a.skip(1) =~= c.skip(1).subrange(0, a.len() - 1));
        key_le_between_prefix(a.skip(1), b.skip(1), c.skip(1));
        assert(a =~= seq![a[0]] + a.skip(1));
        assert(b.subrange(0, a.len() as int) =~= seq![b[0]] + b.skip(1).subrange(0, a.len() - 1));
    } else {
        assert(a =~= b.subrange(0, 0));
    }
}

/// Whether `a` comes no later than `b` in the order of byte strings.
pub fn bytes_at_most(a: &[u8], b: &[u8]) -> (result: bool)
    ensures
        result == bytes_le(a@, b@),
{
    let mut i: usize = 0;
    assert(a@.skip(0) =~= a@);
    assert(b@.skip(0) =~= b@);
    while i < a.len() && i < b.len() && a[i] == b[i]
        invariant
            i <= a@.len(),
            i <= b@.len(),
            bytes_le(a@, b@) == bytes_le(a@.skip(i as int), b@.skip(i as int)),
        decreases a@.len() - i,
    {
        assert(a@.skip(i as int).skip(1) =~= a@.skip(i + 1));
        assert(b@.skip(i as int).skip(1) =~= b@.skip(i + 1));
        i += 1;
    }
    if i == a.len() {
        true
    } else if i == b.len() {
        false
    } else {
        a[i] < b[i]
    }
}

/// Whether two byte strings are the same.
pub fn same_bytes(a: &[u8], b: &[u8]) -> (result: bool)
    ensures
        result == (a@ == b@),
{
    if a.len() != b.len() {
        return false;
    }
    let mut i: usize = 0;
    while i < a.len()
        invariant
            i <= a@.len(),
            a@.len() == b@.len(),
            forall|j: int| 0 <= j < i ==> a@[j] == b@[j],
        decreases a@.len() - i,
    {
        if a[i] != b[i] {
            return false;
        }
        i += 1;
    }
    assert(a@ =~= b@);
    true
}

/// The byte strings that a list of owned byte strings holds.
pub open spec fn deep(list: Seq<Vec<u8>>) -> Seq<Seq<u8>> {
    list.map_values(|item: Vec<u8>| item@)
}

/// Whether `a` comes no later than `b` in the order of keys.
pub fn key_at_most(a: &Vec<Vec<u8>>, b: &Vec<Vec<u8>>) -> (result: bool)
    ensures
        result == key_le(deep(a@), deep(b@)),
{
    let mut i: usize = 0;
    let ghost x = deep(a@);
    let ghost y = deep(b@);
    assert(x.skip(0) =~= x);
    assert(y.skip(0) =~= y);
    while i < a.len() && i < b.len()
        invariant
            i <= a@.len(),
            i <= b@.len(),
            x == deep(a@),
            y == deep(b@),
            key_le(x, y) == key_le(x.skip(i as int), y.skip(i as int)),
        decreases a@.len() - i,
    {
        if !same_bytes(&a[i], &b[i]) {
            return bytes_at_most(&a[i], &b[i]);
        }
        assert(x.skip(i as int).skip(1) =~= x.skip(i + 1));
        assert(y.skip(i as int).skip(1) =~= y.skip(i + 1));
        i += 1;
    }
    i == a.len()
}

/// A value with the key that it is sorted by.
pub trait Keyed: Sized {
    /// The key that the value is sorted by.
    spec fn key(&self) -> Seq<Seq<u8>>;

    /// Whether this value's key comes no later than the other's.
    fn at_most(&self, other: &Self) -> (result: bool)
        ensures
            result == key_le(self.key(), other.key()),
    ;
}

/// The keys of the items never decrease.
pub open spec fn sorted_by_key<T: Keyed>(items: Seq<T>) -> bool {
    forall|i: int, j: int| 0 <= i < j < items.len() ==> key_le(#[trigger] items[i].key(), #[trigger] items[j].key())
}

/// `to` holds the items of `from` in another order: the item at `i` comes from
/// `order[i]`, and the item at `k` has gone to `places[k]`.
pub open spec fn rearranged<T>(from: Seq<T>, to: Seq<T>, order: Seq<int>, places: Seq<int>) -> bool {
    &&& to.len() == from.len()
    &&& order.len() == from.len()
    &&& places.len() == from.len()
    &&& forall|i: int|
        0 <= i < to.len() ==> 0 <= #[trigger] order[i] < from.len() && to[i] == from[order[i]]
            && places[order[i]] == i
    &&& forall|k: int|
        0 <= k < from.len() ==> 0 <= #[trigger] places[k] < to.len() && order[places[k]] == k
}

/// Items with equal keys keep their order.
pub open spec fn keeps_order_of_equals<T: Keyed>(to: Seq<T>, order: Seq<int>) -> bool {
    forall|i: int, j: int|
        0 <= i < j < to.len() && key_le(to[j].key(), to[i].key()) ==> #[trigger] order[i]
            < #[trigger] order[j]
}

/// `to` holds the items of `from` in the order of their keys; items with equal keys keep
/// their order.
pub open spec fn stably_sorted<T: Keyed>(from: Seq<T>, to: Seq<T>) -> bool {
    &&& sorted_by_key(to)
    &&& exists|order: Seq<int>, places: Seq<int>| #[trigger]
        rearranged(from, to, order, places) && keeps_order_of_equals(to, order)
}

/// The tail of `from` that starts at `start` has been brought into the order `sorted`.
spec fn partly_arranged<T: Keyed>(
    from: Seq<T>,
    start: int,
    sorted: Seq<T>,
    order: Seq<int>,
    places: Seq<int>,
) -> bool {
    &&& 0 <= start <= from.len()
    &&& sorted.len() == from.len() - start
    &&& order.len() == sorted.len()
    &&& places.len() == from.len()
    &&& sorted_by_key(sorted)
    &&& keeps_order_of_equals(sorted, order)
    &&& forall|i: int|
        0 <= i < sorted.len() ==> start <= #[trigger] order[i] < from.len() && sorted[i]
            == from[order[i]] && places[order[i]] == i
    &&& forall|k: int|
        start <= k < from.len() ==> 0 <= #[trigger] places[k] < sorted.len() && order[places[k]]
            == k
}

proof fn lemma_insertion_keeps_arrangement<T: Keyed>(
    from: Seq<T>,
    start: int,
    sorted: Seq<T>,
    order: Seq<int>,
    places: Seq<int>,
    position: int,
) -> (next: (Seq<int>, Seq<int>))
    requires
        partly_arranged(from, start, sorted, order, places),
        start > 0,
        0 <= position <= sorted.len(),
        forall|i: int|
            0 <= i < position ==> !key_le(from[start - 1].key(), #[trigger] sorted[i].key()),
        forall|i: int|
            position <= i < sorted.len() ==> key_le(
                from[start - 1].key(),
                #[trigger] sorted[i].key(),
            ),
    ensures
        partly_arranged(from, start - 1, sorted.insert(position, from[start - 1]), next.0, next.1),
{
    let item = from[start - 1];
    let longer = sorted.insert(position, item);
    let order2 = order.insert(position, start - 1);
    let places2 = Seq::new(
        from.len(),
        |k: int|
            if k == start - 1 {
                position
            } else if places[k] >= position {
                places[k] + 1
            } else {
                places[k]
            },
    );
    assert forall|i: int, j: int| 0 <= i < j < longer.len() implies key_le(
        #[trigger] longer[i].key(),
        #[trigger] longer[j].key(),
    ) by {
        let a = if i < position {
            i
        } else {
            i - 1
        };
        let b = if j < position {
            j
        } else {
            j - 1
        };
        if i == position {
            assert(longer[j] == sorted[b]);
        } else if j == position {
            assert(longer[i] == sorted[a]);
            key_le_total(item.key(), sorted[a].key());
        } else {
            assert(longer[i] == sorted[a] && longer[j] == sorted[b]);
        }
    }
    assert forall|i: int, j: int|
        0 <= i < j < longer.len() && key_le(longer[j].key(), longer[i].key()) implies (
    #[trigger] order2[i]) < (#[trigger] order2[j]) by {
        let a = if i < position {
            i
        } else {
            i - 1
        };
        let b = if j < position {
            j
        } else {
            j - 1
        };
        if i == position {
            assert(order2[j] == order[b]);
        } else if j == position {
            assert(longer[i] == sorted[a]);
        } else {
            assert(longer[i] == sorted[a] && longer[j] == sorted[b]);
            assert(order2[i] == order[a] && order2[j] == order[b]);
        }
    }
    assert forall|i: int| 0 <= i < longer.len() implies start - 1 <= #[trigger] order2[i]
        < from.len() && longer[i] == from[order2[i]] && places2[order2[i]] == i by {
        if i < position {
            assert(order2[i] == order[i]);
        } else if i > position {
            assert(order2[i] == order[i - 1]);
        }
    }
    assert forall|k: int| start - 1 <= k < from.len() implies 0 <= #[trigger] places2[k]
        < longer.len() && order2[places2[k]] == k by {
        if k > start - 1 {
            assert(0 <= places[k] < sorted.len());
        }
    }
    (order2, places2)
}

/// The items in the order of their keys; items with equal keys keep their order.
pub fn sort_by_key<T: Keyed>(items: Vec<T>) -> (sorted: Vec<T>)
    ensures
        stably_sorted(items@, sorted@),
{
    let ghost all = items@;
    let ghost mut order: Seq<int> = Seq::empty();
    let ghost mut places: Seq<int> = Seq::new(all.len(), |k: int| 0int);
    let mut rest = items;
    let mut sorted: Vec<T> = Vec::new();
    assert(all.take(all.len() as int) =~= all);
    while rest.len() > 0
        invariant
            rest@.len() <= all.len(),
            rest@ == all.take(rest@.len() as int),
            partly_arranged(all, rest@.len() as int, sorted@, order, places),
        decreases rest@.len(),
    {
        let ghost start = rest@.len() as int;
        let item = rest.remove(rest.len() - 1);
        assert(item == all[start - 1]);
        assert(rest@ =~= all.take(start - 1));
        let position = insertion_point(&sorted, &item);
        proof {
            let next = lemma_insertion_keeps_arrangement(
                all,
                start,
                sorted@,
                order,
                places,
                position as int,
            );
            order = next.0;
            places = next.1;
        }
        sorted.insert(position, item);
    }
    assert(rearranged(all, sorted@, order, places));
    sorted
}

/// Where an item belongs in a sorted list: everything before comes earlier than it, and
/// it comes no later than everything from there on.
fn insertion_point<T: Keyed>(sorted: &Vec<T>, item: &T) -> (position: usize)
    requires
        sorted_by_key(sorted@),
    ensures
        position <= sorted@.len(),
        forall|i: int| 0 <= i < position ==> !key_le(item.key(), #[trigger] sorted@[i].key()),
        forall|i: int|
            position <= i < sorted@.len() ==> key_le(item.key(), #[trigger] sorted@[i].key()),
{
    let mut low: usize = 0;
    let mut high: usize = sorted.len();
    while low < high
        invariant
            low <= high <= sorted@.len(),
            sorted_by_key(sorted@),
            forall|i: int| 0 <= i < low ==> !key_le(item.key(), #[trigger] sorted@[i].key()),
            forall|i: int|
                high <= i < sorted@.len() ==> key_le(item.key(), #[trigger] sorted@[i].key()),
        decreases high - low,
    {
        let middle: usize = low + (high - low) / 2;
        if item.at_most(&sorted[middle]) {
            proof {
                assert forall|i: int| middle <= i < sorted@.len() implies key_le(
                    item.key(),
                    #[trigger] sorted@[i].key(),
                ) by {
                    if i > middle {
                        key_le_transitive(item.key(), sorted@[middle as int].key(), sorted@[i].key());
                    }
                }
            }
            high = middle;
        } else {
            proof {
                assert forall|i: int| 0 <= i <= middle implies !key_le(
                    item.key(),
                    #[trigger] sorted@[i].key(),
                ) by {
                    if i < middle && key_le(item.key(), sorted@[i].key()) {
                        key_le_transitive(item.key(), sorted@[i].key(), sorted@[middle as int].key());
                    }
                }
            }
            low = middle + 1;
        }
    }
    low
}

/// One byte string comes no later than another exactly where the other begins with it, or where
/// its byte is the smaller one at the first place at which they differ.
pub proof fn the_first_difference_decides(a: Seq<u8>, b: Seq<u8>)
    ensures
        bytes_le(a, b) <==> a.is_prefix_of(b) || exists|k: int| #[trigger] is_smaller_at(a, b, k),
    decreases a.len(),
{
    if a.len() == 0 {
        assert(a =~= b.subrange(0, 0));
    } else if b.len() > 0 {
        let x = a.skip(1);
        let y = b.skip(1);
        if a[0] == b[0] {
            the_first_difference_decides(x, y);
            if x.is_prefix_of(y) {
                assert(a =~= b.subrange(0, a.len() as int)) by {
                    assert forall|i: int| 0 <= i < a.len() implies a[i] == b[i] by {
                        if i > 0 {
                            assert(x[i - 1] == y.subrange(0, x.len() as int)[i - 1]);
                        }
                    }
                }
            }
            if a.is_prefix_of(b) {
                assert(x =~= y.subrange(0, x.len() as int)) by {
                    assert forall|i: int| 0 <= i < x.len() implies x[i] == y[i] by {
                        assert(a[i + 1] == b.subrange(0, a.len() as int)[i + 1]);
                    }
                }
            }
            if exists|k: int| #[trigger] is_smaller_at(x, y, k) {
                let k = choose|k: int| #[trigger] is_smaller_at(x, y, k);
                assert forall|i: int| 0 <= i < k + 1 implies #[trigger] a[i] == b[i] by {
                    if i > 0 {
                        assert(x[i - 1] == y[i - 1]);
                    }
                }
                assert(is_smaller_at(a, b, k + 1));
            }
            if exists|k: int| #[trigger] is_smaller_at(a, b, k) {
                let k = choose|k: int| #[trigger] is_smaller_at(a, b, k);
                assert(k > 0);
                assert forall|i: int| 0 <= i < k - 1 implies #[trigger] x[i] == y[i] by {
                    assert(a[i + 1] == b[i + 1]);
                }
                assert(is_smaller_at(x, y, k - 1));
            }
        } else {
            if a[0] < b[0] {
                assert(is_smaller_at(a, b, 0));
            }
            if a.is_prefix_of(b) {
                assert(a[0] == b.subrange(0, a.len() as int)[0]);
            }
            if exists|k: int| #[trigger] is_smaller_at(a, b, k) {
                let k = choose|k: int| #[trigger] is_smaller_at(a, b, k);
                if k > 0 {
                    assert(a[0] == b[0]);
                }
            }
        }
    }
}

/// Two byte strings first differ at a place, where the byte of the first is the smaller one.
pub open spec fn is_smaller_at(a: Seq<u8>, b: Seq<u8>, k: int) -> bool {
    &&& 0 <= k < a.len()
    &&& k < b.len()
    &&& forall|i: int| 0 <= i < k ==> #[trigger] a[i] == b[i]
    &&& a[k] < b[k]
}

/// Lists of byte strings are ordered by their first different items, a beginning of a list first.
pub proof fn lists_are_ordered_by_their_items(
    a: Seq<Seq<u8>>,
    b: Seq<Seq<u8>>,
    x: Seq<u8>,
    y: Seq<u8>,
)
    ensures
        key_le(Seq::empty(), b),
        a.len() > 0 ==> !key_le(a, Seq::empty()),
        key_le(seq![x] + a, seq![x] + b) <==> key_le(a, b),
        x != y ==> (key_le(seq![x] + a, seq![y] + b) <==> bytes_le(x, y)),
{
    let left = seq![x] + a;
    let same = seq![x] + b;
    let other = seq![y] + b;
    assert(left[0] == x && same[0] == x && other[0] == y);
    assert(left.skip(1) =~= a);
    assert(same.skip(1) =~= b);
    assert(other.skip(1) =~= b);
}

/// Sorting keeps the items: as many as before, each one that was there, and in order.
pub proof fn sorting_keeps_the_items<T: Keyed>(from: Seq<T>, to: Seq<T>)
    requires
        stably_sorted(from, to),
    ensures
        to.len() == from.len(),
        forall|item: T| #[trigger] to.contains(item) <==> from.contains(item),
        forall|i: int, j: int|
            0 <= i < j < to.len() ==> key_le(#[trigger] to[i].key(), #[trigger] to[j].key()),
        from.no_duplicates() ==> to.no_duplicates(),
{
    let (order, places) = choose|order: Seq<int>, places: Seq<int>| #[trigger]
        rearranged(from, to, order, places) && keeps_order_of_equals(to, order);
    assert forall|item: T| #[trigger] to.contains(item) <==> from.contains(item) by {
        if to.contains(item) {
            let k = choose|k: int| 0 <= k < to.len() && to[k] == item;
            assert(to[k] == from[order[k]]);
        }
        if from.contains(item) {
            let k = choose|k: int| 0 <= k < from.len() && from[k] == item;
            assert(order[places[k]] == k);
            assert(to[places[k]] == from[order[places[k]]]);
        }
    }
    if from.no_duplicates() {
        assert forall|i: int, j: int| 0 <= i < to.len() && 0 <= j < to.len() && i != j implies to[i]
            != to[j] by {
            assert(to[i] == from[order[i]] && to[j] == from[order[j]]);
            assert(places[order[i]] == i && places[order[j]] == j);
        }
    }
}

/// Two byte strings are the same exactly where they are equally long and agree at every place.
pub proof fn the_same_bytes_agree_everywhere(a: &[u8], b: &[u8], result: bool)
    requires
        call_ensures(same_bytes, (a, b), result),
    ensures
        result <==> a@.len() == b@.len() && forall|i: int| 0 <= i < a@.len() ==> #[trigger] a@[i]
            == b@[i],
{
    if a@.len() == b@.len() && forall|i: int| 0 <= i < a@.len() ==> #[trigger] a@[i] == b@[i] {
        assert(a@ =~= b@);
    }
}

} // verus!
