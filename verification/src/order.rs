//! Sorting of texts and of pairs of texts.
use vstd::prelude::*;

use crate::text::characters;

verus! {

/// Whether text `a` comes before text `b` in the order of their characters.
pub open spec fn text_less(a: Seq<char>, b: Seq<char>) -> bool
    decreases a.len(),
{
    if b.len() == 0 {
        false
    } else if a.len() == 0 {
        true
    } else if a[0] != b[0] {
        a[0] < b[0]
    } else {
        text_less(a.drop_first(), b.drop_first())
    }
}

/// The order of texts is a strict total order.
pub proof fn lemma_text_order(a: Seq<char>, b: Seq<char>, c: Seq<char>)
    ensures
        !text_less(a, a),
        text_less(a, b) || text_less(b, a) || a == b,
        text_less(a, b) && text_less(b, c) ==> text_less(a, c),
    decreases a.len(),
{
    if a.len() > 0 {
        lemma_text_order(a.drop_first(), b.drop_first(), c.drop_first());
        if b.len() > 0 && a[0] == b[0] && a.drop_first() == b.drop_first() {
            assert(a =~= seq![a[0]] + a.drop_first());
            assert(b =~= seq![b[0]] + b.drop_first());
        }
    } else if b.len() == 0 {
        assert(a =~= b);
    }
}

/// Of two texts that begin alike, the one with the lesser character at the first
/// place where they differ comes first, and so does one that ends where the other
/// goes on.
pub proof fn lemma_first_difference(
    common: Seq<char>,
    a: char,
    b: char,
    left: Seq<char>,
    right: Seq<char>,
)
    requires
        a < b,
    ensures
        text_less(common + seq![a] + left, common + seq![b] + right),
        text_less(common, common + seq![b] + right),
    decreases common.len(),
{
    let x = common + seq![a] + left;
    let y = common + seq![b] + right;
    if common.len() > 0 {
        lemma_first_difference(common.drop_first(), a, b, left, right);
        assert(x.drop_first() =~= common.drop_first() + seq![a] + left);
        assert(y.drop_first() =~= common.drop_first() + seq![b] + right);
        assert(x[0] == common[0] && y[0] == common[0]);
    } else {
        assert(x[0] == a && y[0] == b);
    }
}

/// A thing that can be sorted by its content.
pub trait Item: Sized {
    /// What an item is compared by.
    type Content;

    /// The content of an item.
    spec fn content(&self) -> Self::Content;

    /// Whether `a` comes before `b`.
    spec fn precedes(a: Self::Content, b: Self::Content) -> bool;

    /// The order is strict and total.
    proof fn lemma_order(a: Self::Content, b: Self::Content, c: Self::Content)
        ensures
            !Self::precedes(a, a),
            Self::precedes(a, b) || Self::precedes(b, a) || a == b,
            Self::precedes(a, b) && Self::precedes(b, c) ==> Self::precedes(a, c),
    ;

    /// Whether this item comes before another.
    fn is_before(&self, other: &Self) -> (result: bool)
        ensures
            result == Self::precedes(self.content(), other.content()),
    ;
}

impl Item for String {
    type Content = Seq<char>;

    open spec fn content(&self) -> Seq<char> {
        self@
    }

    open spec fn precedes(a: Seq<char>, b: Seq<char>) -> bool {
        text_less(a, b)
    }

    proof fn lemma_order(a: Seq<char>, b: Seq<char>, c: Seq<char>) {
        lemma_text_order(a, b, c);
    }

    fn is_before(&self, other: &String) -> (result: bool) {
        text_before(self.as_str(), other.as_str())
    }
}

impl Item for (String, String) {
    type Content = (Seq<char>, Seq<char>);

    open spec fn content(&self) -> (Seq<char>, Seq<char>) {
        (self.0@, self.1@)
    }

    open spec fn precedes(a: (Seq<char>, Seq<char>), b: (Seq<char>, Seq<char>)) -> bool {
        text_less(a.0, b.0) || (a.0 == b.0 && text_less(a.1, b.1))
    }

    proof fn lemma_order(
        a: (Seq<char>, Seq<char>),
        b: (Seq<char>, Seq<char>),
        c: (Seq<char>, Seq<char>),
    ) {
        lemma_text_order(a.0, b.0, c.0);
        lemma_text_order(a.1, b.1, c.1);
    }

    fn is_before(&self, other: &(String, String)) -> (result: bool) {
        if text_before(self.0.as_str(), other.0.as_str()) {
            proof {
                lemma_text_order(self.0@, other.0@, self.0@);
            }
            true
        } else {
            self.0 == other.0 && text_before(self.1.as_str(), other.1.as_str())
        }
    }
}

/// Texts are sorted by their order, and pairs by that of their first texts, and by that
/// of their second texts where the first are equal.
pub proof fn lemma_pairs_ordered(a: (Seq<char>, Seq<char>), b: (Seq<char>, Seq<char>))
    ensures
        text_less(a.0, b.0) ==> <(String, String) as Item>::precedes(a, b),
        a.0 == b.0 ==> <(String, String) as Item>::precedes(a, b) == text_less(a.1, b.1),
        text_less(b.0, a.0) ==> !<(String, String) as Item>::precedes(a, b),
        <String as Item>::precedes(a.0, b.0) == text_less(a.0, b.0),
{
    lemma_text_order(a.0, b.0, a.0);
}

/// Whether text `a` comes before text `b`.
pub fn text_before(a: &str, b: &str) -> (result: bool)
    ensures
        result == text_less(a@, b@),
{
    let left = characters(a);
    let right = characters(b);
    let mut i: usize = 0;
    assert(a@.skip(0) =~= a@);
    assert(b@.skip(0) =~= b@);
    while i < left.len() && i < right.len()
        invariant
            i <= left@.len(),
            i <= right@.len(),
            left@ == a@,
            right@ == b@,
            text_less(a@, b@) == text_less(a@.skip(i as int), b@.skip(i as int)),
        decreases left@.len() - i,
    {
        proof {
            assert(a@.skip(i as int).drop_first() =~= a@.skip(i + 1));
            assert(b@.skip(i as int).drop_first() =~= b@.skip(i + 1));
            assert(a@.skip(i as int)[0] == a@[i as int]);
            assert(b@.skip(i as int)[0] == b@[i as int]);
        }
        if left[i] != right[i] {
            return left[i] < right[i];
        }
        i += 1;
    }
    i < right.len()
}

/// The contents of items.
pub open spec fn contents<T: Item>(items: Seq<T>) -> Seq<T::Content> {
    items.map_values(|item: T| item.content())
}

/// Whether no item comes before one that stands ahead of it.
pub open spec fn is_sorted<T: Item>(list: Seq<T::Content>) -> bool {
    forall|i: int, j: int|
        0 <= i < j < list.len() ==> !T::precedes(#[trigger] list[j], #[trigger] list[i])
}

/// Whether every item comes before those that stand behind it.
pub open spec fn is_strictly_sorted<T: Item>(list: Seq<T::Content>) -> bool {
    forall|i: int, j: int|
        0 <= i < j < list.len() ==> T::precedes(#[trigger] list[i], #[trigger] list[j])
}

/// The place behind the items that `item` does not come before.
fn position<T: Item>(items: &Vec<T>, item: &T) -> (at: usize)
    requires
        is_sorted::<T>(contents(items@)),
    ensures
        at <= items@.len(),
        forall|i: int|
            0 <= i < at ==> !T::precedes(item.content(), #[trigger] contents(items@)[i]),
        forall|i: int|
            at <= i < items@.len() ==> T::precedes(item.content(), #[trigger] contents(items@)[i]),
{
    let ghost list = contents(items@);
    let ghost new = item.content();
    let mut low: usize = 0;
    let mut high: usize = items.len();
    while low < high
        invariant
            low <= high <= items@.len(),
            list == contents(items@),
            new == item.content(),
            is_sorted::<T>(list),
            forall|i: int| 0 <= i < low ==> !T::precedes(new, #[trigger] list[i]),
            forall|i: int| high <= i < items@.len() ==> T::precedes(new, #[trigger] list[i]),
        decreases high - low,
    {
        let middle: usize = low + (high - low) / 2;
        assert(list[middle as int] == items@[middle as int].content());
        if item.is_before(&items[middle]) {
            proof {
                assert forall|i: int| middle <= i < items@.len() implies T::precedes(
                    new,
                    #[trigger] list[i],
                ) by {
                    T::lemma_order(list[middle as int], list[i], new);
                    T::lemma_order(new, list[middle as int], list[i]);
                }
            }
            high = middle;
        } else {
            proof {
                assert forall|i: int| 0 <= i <= middle implies !T::precedes(
                    new,
                    #[trigger] list[i],
                ) by {
                    T::lemma_order(list[i], list[middle as int], new);
                    T::lemma_order(new, list[i], list[middle as int]);
                }
            }
            low = middle + 1;
        }
    }
    low
}

/// Sorts items.
pub fn sort<T: Item>(items: Vec<T>) -> (result: Vec<T>)
    ensures
        is_sorted::<T>(contents(result@)),
        contents(result@).to_multiset() == contents(items@).to_multiset(),
{
    let mut items = items;
    let ghost all = contents(items@);
    let mut result: Vec<T> = Vec::new();
    proof {
        assert(contents(result@) =~= Seq::empty());
        contents(result@).to_multiset_ensures();
        assert(contents(result@).to_multiset() =~= vstd::multiset::Multiset::empty());
        assert(contents(items@).to_multiset().add(contents(result@).to_multiset())
            =~= all.to_multiset());
    }
    while items.len() > 0
        invariant
            is_sorted::<T>(contents(result@)),
            contents(items@).to_multiset().add(contents(result@).to_multiset())
                == all.to_multiset(),
        decreases items@.len(),
    {
        let ghost before = contents(items@);
        let ghost held = contents(result@);
        let item = items.pop().unwrap();
        let ghost new = item.content();
        let at = position(&result, &item);
        result.insert(at, item);
        proof {
            let now = contents(result@);
            let rest = contents(items@);
            assert(before =~= rest.push(new));
            rest.to_multiset_ensures();
            assert(now =~= held.insert(at as int, new));
            assert(now.remove(at as int) =~= held);
            now.to_multiset_ensures();
            assert(now[at as int] == new);
            assert(now.contains(new));
            assert(now.to_multiset() =~= held.to_multiset().insert(new));
            assert(rest.to_multiset().add(now.to_multiset()) =~= all.to_multiset());
            assert forall|i: int, j: int| 0 <= i < j < now.len() implies !T::precedes(
                #[trigger] now[j],
                #[trigger] now[i],
            ) by {
                if i < at && at < j {
                    assert(now[i] == held[i] && now[j] == held[j - 1]);
                } else if i < at {
                    assert(now[i] == held[i]);
                    if j < at {
                        assert(now[j] == held[j]);
                    }
                } else {
                    assert(now[j] == held[j - 1]);
                    if i > at {
                        assert(now[i] == held[i - 1]);
                    } else {
                        T::lemma_order(new, held[j - 1], new);
                    }
                }
            }
        }
    }
    proof {
        assert(contents(items@) =~= Seq::empty());
        contents(items@).to_multiset_ensures();
        assert(contents(items@).to_multiset() =~= vstd::multiset::Multiset::empty());
        assert(contents(result@).to_multiset() =~= all.to_multiset());
    }
    result
}

/// Takes out every item that equals the one ahead of it.
pub fn dedup<T: Item>(items: Vec<T>) -> (result: Vec<T>)
    requires
        is_sorted::<T>(contents(items@)),
    ensures
        is_strictly_sorted::<T>(contents(result@)),
        contents(result@).to_set() == contents(items@).to_set(),
{
    let mut result = items;
    let ghost all = contents(items@).to_set();
    let mut i: usize = 1;
    while i < result.len()
        invariant
            1 <= i,
            i <= result@.len() || result@.len() == 0,
            is_sorted::<T>(contents(result@)),
            forall|a: int, b: int|
                0 <= a < b < i && b < result@.len() ==> T::precedes(
                    #[trigger] contents(result@)[a],
                    #[trigger] contents(result@)[b],
                ),
            contents(result@).to_set() == all,
        decreases result@.len() - i,
    {
        let ghost list = contents(result@);
        assert(list[i - 1] == result@[i - 1].content());
        assert(list[i as int] == result@[i as int].content());
        if result[i - 1].is_before(&result[i]) {
            proof {
                assert forall|a: int, b: int| 0 <= a < b < i + 1 && b < list.len() implies T::precedes(
                    #[trigger] list[a],
                    #[trigger] list[b],
                ) by {
                    if b == i && a < i - 1 {
                        assert(T::precedes(list[a], list[i - 1]));
                        T::lemma_order(list[a], list[i - 1], list[i as int]);
                    }
                }
            }
            i += 1;
        } else {
            proof {
                T::lemma_order(list[i - 1], list[i as int], list[i as int]);
                assert(list[i - 1] == list[i as int]);
            }
            result.remove(i);
            proof {
                let now = contents(result@);
                assert(now =~= list.remove(i as int));
                assert forall|x: T::Content| #[trigger] now.to_set().contains(x)
                    <==> list.to_set().contains(x) by {
                    if list.contains(x) {
                        let k = choose|k: int| 0 <= k < list.len() && list[k] == x;
                        if k < i {
                            assert(now[k] == x);
                        } else if k == i {
                            assert(now[i - 1] == x);
                        } else {
                            assert(now[k - 1] == x);
                        }
                    }
                    if now.contains(x) {
                        let k = choose|k: int| 0 <= k < now.len() && now[k] == x;
                        if k < i {
                            assert(list[k] == x);
                        } else {
                            assert(list[k + 1] == x);
                        }
                    }
                }
                assert(now.to_set() =~= list.to_set());
                assert forall|a: int, b: int| 0 <= a < b < now.len() implies !T::precedes(
                    #[trigger] now[b],
                    #[trigger] now[a],
                ) by {
                    let p: int = if a < i {
                        a
                    } else {
                        a + 1
                    };
                    let q: int = if b < i {
                        b
                    } else {
                        b + 1
                    };
                    assert(now[a] == list[p] && now[b] == list[q]);
                }
                assert forall|a: int, b: int| 0 <= a < b < i && b < now.len() implies T::precedes(
                    #[trigger] now[a],
                    #[trigger] now[b],
                ) by {
                    assert(now[a] == list[a] && now[b] == list[b]);
                }
            }
        }
    }
    result
}

/// Items of one content each can be put into strict order in one way only.
pub proof fn lemma_strictly_sorted_unique<T: Item>(a: Seq<T::Content>, b: Seq<T::Content>)
    requires
        is_strictly_sorted::<T>(a),
        is_strictly_sorted::<T>(b),
        a.to_set() == b.to_set(),
    ensures
        a == b,
    decreases a.len(),
{
    if a.len() == 0 {
        if b.len() > 0 {
            assert(b.to_set().contains(b[0]));
        }
        assert(a =~= b);
    } else {
        assert(a.to_set().contains(a.last()));
        assert(b.contains(a.last()));
        let j = choose|j: int| 0 <= j < b.len() && b[j] == a.last();
        assert(b.to_set().contains(b.last()));
        assert(a.contains(b.last()));
        let i = choose|i: int| 0 <= i < a.len() && a[i] == b.last();
        if a.last() != b.last() {
            assert(T::precedes(a[i], a[a.len() - 1]));
            assert(T::precedes(b[j], b[b.len() - 1]));
            T::lemma_order(a.last(), b.last(), a.last());
        }
        let x = a.drop_last();
        let y = b.drop_last();
        assert forall|c: T::Content| #[trigger] x.to_set().contains(c) <==> y.to_set().contains(c) by {
            if x.contains(c) {
                let k = choose|k: int| 0 <= k < x.len() && x[k] == c;
                assert(a[k] == c);
                assert(T::precedes(a[k], a[a.len() - 1]));
                T::lemma_order(c, c, c);
                assert(b.to_set().contains(c)) by {
                    assert(a.to_set().contains(c));
                }
                let l = choose|l: int| 0 <= l < b.len() && b[l] == c;
                assert(y[l] == c);
            }
            if y.contains(c) {
                let k = choose|k: int| 0 <= k < y.len() && y[k] == c;
                assert(b[k] == c);
                assert(T::precedes(b[k], b[b.len() - 1]));
                T::lemma_order(c, c, c);
                assert(a.to_set().contains(c)) by {
                    assert(b.to_set().contains(c));
                }
                let l = choose|l: int| 0 <= l < a.len() && a[l] == c;
                assert(x[l] == c);
            }
        }
        assert(x.to_set() =~= y.to_set());
        lemma_strictly_sorted_unique::<T>(x, y);
        assert(a =~= x.push(a.last()));
        assert(b =~= y.push(b.last()));
    }
}

/// Items can be sorted in one way only.
pub proof fn lemma_sorted_unique<T: Item>(a: Seq<T::Content>, b: Seq<T::Content>)
    requires
        is_sorted::<T>(a),
        is_sorted::<T>(b),
        a.to_multiset() == b.to_multiset(),
    ensures
        a == b,
    decreases a.len(),
{
    a.to_multiset_ensures();
    b.to_multiset_ensures();
    if a.len() == 0 {
        assert(a =~= b);
    } else {
        assert(a.contains(a[a.len() - 1]));
        assert(b.contains(b[b.len() - 1]));
        assert(b.contains(a.last())) by {
            assert(b.to_multiset().count(a.last()) > 0);
        }
        assert(a.contains(b.last())) by {
            assert(a.to_multiset().count(b.last()) > 0);
        }
        let j = choose|j: int| 0 <= j < b.len() && b[j] == a.last();
        let i = choose|i: int| 0 <= i < a.len() && a[i] == b.last();
        if a.last() != b.last() {
            assert(!T::precedes(b[b.len() - 1], b[j]));
            assert(!T::precedes(a[a.len() - 1], a[i]));
            T::lemma_order(a.last(), b.last(), a.last());
        }
        let x = a.drop_last();
        let y = b.drop_last();
        assert(a.remove(a.len() - 1) =~= x);
        assert(b.remove(b.len() - 1) =~= y);
        assert(x.to_multiset() =~= a.to_multiset().remove(a.last()));
        assert(y.to_multiset() =~= b.to_multiset().remove(b.last()));
        lemma_sorted_unique::<T>(x, y);
        assert(a =~= x.push(a.last()));
        assert(b =~= y.push(b.last()));
    }
}

} // verus!
