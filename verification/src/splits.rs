//! The practice splits the UI keeps, each under an id of its own: "split-" and a number
//! that only grows, so an id is never given twice, even after a split is deleted.

use vstd::prelude::*;

use crate::runs::split_id;
use crate::text::{decimal, digit_char};

verus! {

/// The id of the split stored as number `n`.
pub open spec fn split_name(n: nat) -> Seq<char> {
    "split-"@ + decimal(n)
}

/// `k` is the first place where `id` occurs in `ids`.
pub open spec fn first_match(ids: Seq<Seq<char>>, id: Seq<char>, k: int) -> bool {
    &&& 0 <= k < ids.len()
    &&& ids[k] == id
    &&& forall|j: int| 0 <= j < k ==> ids[j] != id
}

/// No id occurs twice.
pub open spec fn distinct(ids: Seq<Seq<char>>) -> bool {
    forall|i: int, j: int| 0 <= i < j < ids.len() ==> ids[i] != ids[j]
}

/// Splits in the order they were added, each with its id.
pub struct SplitStore<T> {
    ids: Vec<String>,
    items: Vec<T>,
    numbers: Ghost<Seq<nat>>,
    next_number: usize,
}

proof fn lemma_decimal_len(n: nat)
    ensures
        decimal(n).len() >= 1,
        n >= 10 ==> decimal(n).len() >= 2,
    decreases n,
{
    if n >= 10 {
        lemma_decimal_len(n / 10);
    }
}

/// Different numbers are written differently.
proof fn lemma_decimal_injective(a: nat, b: nat)
    requires
        decimal(a) == decimal(b),
    ensures
        a == b,
    decreases a + b,
{
    lemma_decimal_len(a);
    lemma_decimal_len(b);
    if a < 10 && b < 10 {
        assert(decimal(a)[0] == digit_char(a));
        assert(decimal(b)[0] == digit_char(b));
    } else if a >= 10 && b >= 10 {
        let da = decimal(a);
        assert(da.last() == digit_char(a % 10));
        assert(decimal(b).last() == digit_char(b % 10));
        assert(da.drop_last() =~= decimal(a / 10));
        assert(decimal(b).drop_last() =~= decimal(b / 10));
        lemma_decimal_injective(a / 10, b / 10);
    }
}

proof fn lemma_split_name_injective(a: nat, b: nat)
    requires
        split_name(a) == split_name(b),
    ensures
        a == b,
{
    reveal_strlit("split-");
    assert(split_name(a).skip(6) =~= decimal(a));
    assert(split_name(b).skip(6) =~= decimal(b));
    lemma_decimal_injective(a, b);
}

impl<T> SplitStore<T> {
    /// The ids, in the order the splits were added.
    pub closed spec fn ids(&self) -> Seq<Seq<char>> {
        self.ids@.map_values(|s: String| s@)
    }

    /// The splits, in the order they were added.
    pub closed spec fn items(&self) -> Seq<T> {
        self.items@
    }

    /// The number the next split will be stored under.
    pub closed spec fn next_number(&self) -> nat {
        self.next_number as nat
    }

    /// Each split's id names a number below the next one, and numbers grow along the
    /// store.
    pub closed spec fn wf(&self) -> bool {
        &&& self.ids@.len() == self.items@.len()
        &&& self.numbers@.len() == self.ids@.len()
        &&& forall|k: int| 0 <= k < self.ids@.len() ==> #[trigger] self.ids@[k]@ == split_name(self.numbers@[k])
        &&& forall|j: int, k: int|
            0 <= j < k < self.numbers@.len() ==> self.numbers@[j] < self.numbers@[k]
        &&& forall|k: int| 0 <= k < self.numbers@.len() ==> #[trigger] self.numbers@[k] < self.next_number
        &&& self.next_number >= 1
    }

    /// Law: no two splits in a store share an id.
    pub proof fn lemma_ids_distinct(&self)
        requires
            self.wf(),
        ensures
            distinct(self.ids()),
    {
        assert forall|i: int, j: int| 0 <= i < j < self.ids().len() implies self.ids()[i]
            != self.ids()[j] by {
            assert(self.ids()[i] == self.ids@[i]@);
            assert(self.ids()[j] == self.ids@[j]@);
            if self.ids()[i] == self.ids()[j] {
                lemma_split_name_injective(self.numbers@[i], self.numbers@[j]);
            }
        }
    }

    /// An empty store; the first split gets number one.
    pub fn new() -> (store: Self)
        ensures
            store.wf(),
            store.ids() == Seq::<Seq<char>>::empty(),
            store.items() == Seq::<T>::empty(),
            store.next_number() == 1,
    {
        let store = SplitStore { ids: Vec::new(), items: Vec::new(), numbers: Ghost(Seq::empty()), next_number: 1 };
        assert(store.ids() =~= Seq::<Seq<char>>::empty());
        store
    }

    /// How many splits are stored.
    pub fn len(&self) -> (n: usize)
        requires
            self.wf(),
        ensures
            n == self.ids().len(),
            n == self.items().len(),
    {
        self.ids.len()
    }

    /// The splits, in the order they were added.
    pub fn splits(&self) -> (s: &[T])
        ensures
            s@ == self.items(),
    {
        self.items.as_slice()
    }

    /// Whether another split can be added: numbers run out at the largest `usize`.
    pub fn has_room(&self) -> (room: bool)
        ensures
            room == (self.next_number() < usize::MAX),
    {
        self.next_number < usize::MAX
    }

    /// The id the next added split gets.
    pub fn next_id(&self) -> (id: String)
        ensures
            id@ == split_name(self.next_number()),
    {
        split_id(self.next_number)
    }

    /// Stores `item` under the next id, and returns that id. The id is new to the store.
    pub fn add(&mut self, item: T) -> (id: String)
        requires
            old(self).wf(),
            old(self).next_number() < usize::MAX,
        ensures
            final(self).wf(),
            id@ == split_name(old(self).next_number()),
            !old(self).ids().contains(id@),
            final(self).ids() == old(self).ids().push(id@),
            final(self).items() == old(self).items().push(item),
            final(self).next_number() == old(self).next_number() + 1,
    {
        let id = split_id(self.next_number);
        let ghost n = self.next_number as nat;
        proof {
            if self.ids().contains(id@) {
                let k = choose|k: int| 0 <= k < self.ids().len() && self.ids()[k] == id@;
                assert(self.ids@[k]@ == split_name(self.numbers@[k]));
                lemma_split_name_injective(self.numbers@[k], n);
            }
        }
        self.ids.push(id.clone());
        self.items.push(item);
        self.numbers = Ghost(self.numbers@.push(n));
        self.next_number = self.next_number + 1;
        proof {
            assert(self.ids() =~= old(self).ids().push(id@));
            assert forall|k: int| 0 <= k < self.ids@.len() implies #[trigger] self.ids@[k]@
                == split_name(self.numbers@[k]) by {
                if k < old(self).ids@.len() {
                    assert(self.ids@[k] == old(self).ids@[k]);
                }
            }
        }
        id
    }

    /// Where the split with this id is stored, if any.
    pub fn position(&self, id: &str) -> (r: Option<usize>)
        requires
            self.wf(),
        ensures
            r matches Some(k) ==> first_match(self.ids(), id@, k as int),
            r is None ==> !self.ids().contains(id@),
    {
        let key = id.to_owned();
        let n = self.ids.len();
        let mut k: usize = 0;
        while k < n
            invariant
                n == self.ids@.len(),
                key@ == id@,
                k <= n,
                forall|j: int| 0 <= j < k ==> #[trigger] self.ids()[j] != id@,
            decreases n - k,
        {
            assert(self.ids()[k as int] == self.ids@[k as int]@);
            if self.ids[k] == key {
                return Some(k);
            }
            k = k + 1;
        }
        proof {
            if self.ids().contains(id@) {
                let j = choose|j: int| 0 <= j < self.ids().len() && self.ids()[j] == id@;
                assert(self.ids()[j] != id@);
            }
        }
        None
    }

    /// The split with this id, if any.
    pub fn get(&self, id: &str) -> (r: Option<&T>)
        requires
            self.wf(),
        ensures
            r matches Some(x) ==> exists|k: int| first_match(self.ids(), id@, k) && *x == self.items()[k],
            r is None ==> !self.ids().contains(id@),
    {
        match self.position(id) {
            Some(k) => {
                let x = &self.items[k];
                assert(first_match(self.ids(), id@, k as int) && *x == self.items()[k as int]);
                Some(x)
            },
            None => None,
        }
    }

    /// The split stored at place `k`, to change it.
    pub fn split_mut(&mut self, k: usize) -> (r: &mut T)
        requires
            old(self).wf(),
            k < old(self).items().len(),
        ensures
            *r == old(self).items()[k as int],
            final(self).items() == old(self).items().update(k as int, *final(r)),
            final(self).ids() == old(self).ids(),
            final(self).next_number() == old(self).next_number(),
            final(self).wf(),
    {
        &mut self.items[k]
    }

    /// Deletes the split with this id; says whether there was one. Numbers are not
    /// reused, so the id stays unused.
    pub fn remove(&mut self, id: &str) -> (removed: bool)
        requires
            old(self).wf(),
        ensures
            final(self).wf(),
            removed == old(self).ids().contains(id@),
            removed ==> exists|k: int|
                first_match(old(self).ids(), id@, k) && final(self).ids() == old(self).ids().remove(k)
                    && final(self).items() == old(self).items().remove(k),
            !removed ==> final(self).ids() == old(self).ids() && final(self).items() == old(
                self,
            ).items(),
            !final(self).ids().contains(id@),
            final(self).next_number() == old(self).next_number(),
    {
        match self.position(id) {
            Some(k) => {
                proof {
                    self.lemma_ids_distinct();
                }
                let ghost before = self.ids();
                self.ids.remove(k);
                self.items.remove(k);
                self.numbers = Ghost(self.numbers@.remove(k as int));
                proof {
                    assert(self.ids() =~= before.remove(k as int));
                    assert forall|j: int| 0 <= j < self.ids@.len() implies #[trigger] self.ids@[j]@
                        == split_name(self.numbers@[j]) by {
                        if j < k {
                            assert(self.ids@[j] == old(self).ids@[j]);
                        } else {
                            assert(self.ids@[j] == old(self).ids@[j + 1]);
                        }
                    }
                    assert forall|a: int, b: int|
                        0 <= a < b < self.numbers@.len() implies self.numbers@[a]
                        < self.numbers@[b] by {
                        let a0 = if a < k { a } else { a + 1 };
                        let b0 = if b < k { b } else { b + 1 };
                        assert(old(self).numbers@[a0] < old(self).numbers@[b0]);
                    }
                    if self.ids().contains(id@) {
                        let j = choose|j: int| 0 <= j < self.ids().len() && self.ids()[j] == id@;
                        let j0 = if j < k { j } else { j + 1 };
                        assert(before[j0] == id@);
                    }
                }
                true
            },
            None => false,
        }
    }
}

/// Law: a split just added is the one found under its id.
pub proof fn lemma_added_split_found(ids: Seq<Seq<char>>, id: Seq<char>)
    requires
        !ids.contains(id),
    ensures
        first_match(ids.push(id), id, ids.len() as int),
{
    assert forall|j: int| 0 <= j < ids.len() implies ids.push(id)[j] != id by {
        assert(ids.push(id)[j] == ids[j]);
    }
}

} // verus!
