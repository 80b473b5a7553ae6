//! Tables of rows in the order of their keys, each key at most once.

use vstd::prelude::*;

verus! {

/// How one key stands to another.
pub enum Order {
    Less,
    Equal,
    Greater,
}

/// A key with a strict total order.
pub trait Key: View {
    spec fn below(a: Self::V, b: Self::V) -> bool;

    proof fn lemma_total(a: Self::V, b: Self::V)
        ensures
            Self::below(a, b) || a == b || Self::below(b, a),
    ;

    proof fn lemma_irreflexive(a: Self::V)
        ensures
            !Self::below(a, a),
    ;

    proof fn lemma_transitive(a: Self::V, b: Self::V, c: Self::V)
        requires
            Self::below(a, b),
            Self::below(b, c),
        ensures
            Self::below(a, c),
    ;

    fn order(&self, other: &Self) -> (r: Order)
        ensures
            match r {
                Order::Less => Self::below(self@, other@),
                Order::Equal => self@ == other@,
                Order::Greater => Self::below(other@, self@),
            },
    ;
}

impl Key for u32 {
    open spec fn below(a: u32, b: u32) -> bool {
        a < b
    }

    proof fn lemma_total(a: u32, b: u32) {
    }

    proof fn lemma_irreflexive(a: u32) {
    }

    proof fn lemma_transitive(a: u32, b: u32, c: u32) {
    }

    fn order(&self, other: &u32) -> (r: Order) {
        if *self < *other {
            Order::Less
        } else if *self == *other {
            Order::Equal
        } else {
            Order::Greater
        }
    }
}

/// `a` stands before `b` in a dictionary, judged from position `i` on.
pub open spec fn bytes_below(a: Seq<u8>, b: Seq<u8>, i: int) -> bool
    decreases a.len() - i,
{
    if i < 0 || i >= b.len() {
        false
    } else if i >= a.len() {
        true
    } else if a[i] != b[i] {
        a[i] < b[i]
    } else {
        bytes_below(a, b, i + 1)
    }
}

proof fn lemma_bytes_total(a: Seq<u8>, b: Seq<u8>, i: int)
    requires
        0 <= i <= a.len(),
        i <= b.len(),
        forall|k: int| 0 <= k < i ==> a[k] == b[k],
    ensures
        bytes_below(a, b, i) || a == b || bytes_below(b, a, i),
    decreases a.len() - i,
{
    if i < a.len() && i < b.len() {
        if a[i] == b[i] {
            lemma_bytes_total(a, b, i + 1);
        }
    } else if a.len() == b.len() {
        assert(a =~= b);
    }
}

proof fn lemma_bytes_irreflexive(a: Seq<u8>, i: int)
    requires
        0 <= i <= a.len(),
    ensures
        !bytes_below(a, a, i),
    decreases a.len() - i,
{
    if i < a.len() {
        lemma_bytes_irreflexive(a, i + 1);
    }
}

proof fn lemma_bytes_transitive(a: Seq<u8>, b: Seq<u8>, c: Seq<u8>, i: int)
    requires
        0 <= i,
        bytes_below(a, b, i),
        bytes_below(b, c, i),
    ensures
        bytes_below(a, c, i),
    decreases a.len() - i,
{
    if i < a.len() && i < b.len() && i < c.len() && a[i] == b[i] && b[i] == c[i] {
        lemma_bytes_transitive(a, b, c, i + 1);
    }
}

impl Key for Vec<u8> {
    open spec fn below(a: Seq<u8>, b: Seq<u8>) -> bool {
        bytes_below(a, b, 0)
    }

    proof fn lemma_total(a: Seq<u8>, b: Seq<u8>) {
        lemma_bytes_total(a, b, 0);
    }

    proof fn lemma_irreflexive(a: Seq<u8>) {
        lemma_bytes_irreflexive(a, 0);
    }

    proof fn lemma_transitive(a: Seq<u8>, b: Seq<u8>, c: Seq<u8>) {
        lemma_bytes_transitive(a, b, c, 0);
    }

    fn order(&self, other: &Vec<u8>) -> (r: Order) {
        let mut i: usize = 0;
        while i < self.len() && i < other.len() && self[i] == other[i]
            invariant
                i <= self@.len(),
                i <= other@.len(),
                forall|k: int| 0 <= k < i ==> self@[k] == other@[k],
                bytes_below(self@, other@, i as int) == bytes_below(self@, other@, 0),
                bytes_below(other@, self@, i as int) == bytes_below(other@, self@, 0),
            decreases self@.len() - i,
        {
            i += 1;
        }
        if i < self.len() && i < other.len() {
            if self[i] < other[i] {
                Order::Less
            } else {
                Order::Greater
            }
        } else if i < other.len() {
            Order::Less
        } else if i < self.len() {
            Order::Greater
        } else {
            assert(self@ =~= other@);
            Order::Equal
        }
    }
}

/// The first row from `i` on whose key is not below `key`.
pub open spec fn rank<K: Key, M>(rows: Seq<(K::V, M)>, key: K::V, i: int) -> int
    decreases rows.len() - i,
{
    if 0 <= i < rows.len() && K::below(rows[i].0, key) {
        rank::<K, M>(rows, key, i + 1)
    } else {
        i
    }
}

/// The value that the rows hold for `key`.
pub open spec fn find<K: Key, M>(rows: Seq<(K::V, M)>, key: K::V) -> Option<M> {
    let i = rank::<K, M>(rows, key, 0);
    if i < rows.len() && rows[i].0 == key {
        Some(rows[i].1)
    } else {
        None
    }
}

/// The rows with `value` for `key`, in place of what they held for it.
pub open spec fn put<K: Key, M>(rows: Seq<(K::V, M)>, key: K::V, value: M) -> Seq<(K::V, M)> {
    let i = rank::<K, M>(rows, key, 0);
    if i < rows.len() && rows[i].0 == key {
        rows.update(i, (key, value))
    } else {
        rows.insert(i, (key, value))
    }
}

/// The keys ascend.
pub open spec fn ascending<K: Key, M>(rows: Seq<(K::V, M)>) -> bool {
    forall|i: int, j: int|
        0 <= i < j < rows.len() ==> K::below(#[trigger] rows[i].0, #[trigger] rows[j].0)
}

proof fn lemma_rank<K: Key, M>(rows: Seq<(K::V, M)>, key: K::V, i: int, at: int)
    requires
        0 <= i <= at <= rows.len(),
        forall|k: int| i <= k < at ==> K::below(#[trigger] rows[k].0, key),
        at < rows.len() ==> !K::below(rows[at].0, key),
    ensures
        rank::<K, M>(rows, key, i) == at,
    decreases at - i,
{
    if i < at {
        assert(K::below(rows[i].0, key));
        lemma_rank::<K, M>(rows, key, i + 1, at);
    }
}

proof fn lemma_rank_bounds<K: Key, M>(rows: Seq<(K::V, M)>, key: K::V, i: int)
    requires
        0 <= i <= rows.len(),
    ensures
        i <= rank::<K, M>(rows, key, i) <= rows.len(),
        forall|k: int|
            i <= k < rank::<K, M>(rows, key, i) ==> K::below(#[trigger] rows[k].0, key),
        rank::<K, M>(rows, key, i) < rows.len() ==> !K::below(
            rows[rank::<K, M>(rows, key, i)].0,
            key,
        ),
    decreases rows.len() - i,
{
    if i < rows.len() && K::below(rows[i].0, key) {
        lemma_rank_bounds::<K, M>(rows, key, i + 1);
    }
}

/// Putting a row in keeps the keys ascending.
pub proof fn law_put_keeps_order<K: Key, M>(rows: Seq<(K::V, M)>, key: K::V, value: M)
    requires
        ascending::<K, M>(rows),
    ensures
        ascending::<K, M>(put::<K, M>(rows, key, value)),
{
    lemma_rank_bounds::<K, M>(rows, key, 0);
    let at = rank::<K, M>(rows, key, 0);
    let after = put::<K, M>(rows, key, value);
    if at < rows.len() && rows[at].0 != key {
        K::lemma_total(rows[at].0, key);
    }
    assert forall|i: int, j: int| 0 <= i < j < after.len() implies K::below(
        #[trigger] after[i].0,
        #[trigger] after[j].0,
    ) by {
        if at < rows.len() && rows[at].0 == key {
        } else {
            let a = if i < at {
                i
            } else {
                i - 1
            };
            let b = if j < at {
                j
            } else {
                j - 1
            };
            if i != at && j != at {
                assert(K::below(rows[a].0, rows[b].0));
            } else if i == at {
                // key stands before everything behind it
                assert(K::below(key, rows[at].0));
                if b > at {
                    assert(K::below(rows[at].0, rows[b].0));
                    K::lemma_transitive(key, rows[at].0, rows[b].0);
                }
            } else {
                assert(K::below(rows[i].0, key));
            }
        }
    }
}

/// A row that was put in is found under its key, and no other key notices.
pub proof fn law_find_after_put<K: Key, M>(
    rows: Seq<(K::V, M)>,
    key: K::V,
    value: M,
    other: K::V,
)
    requires
        ascending::<K, M>(rows),
    ensures
        find::<K, M>(put::<K, M>(rows, key, value), key) == Some(value),
        other != key ==> find::<K, M>(put::<K, M>(rows, key, value), other) == find::<K, M>(
            rows,
            other,
        ),
{
    let after = put::<K, M>(rows, key, value);
    let at = rank::<K, M>(rows, key, 0);
    lemma_rank_bounds::<K, M>(rows, key, 0);
    law_put_keeps_order::<K, M>(rows, key, value);
    K::lemma_irreflexive(key);
    assert forall|k: int| 0 <= k < at implies K::below(#[trigger] after[k].0, key) by {
        assert(after[k] == rows[k]);
        assert(K::below(rows[k].0, key));
    }
    assert(after[at].0 == key);
    lemma_rank::<K, M>(after, key, 0, at);
    if other != key {
        lemma_rank_bounds::<K, M>(rows, other, 0);
        lemma_rank_bounds::<K, M>(after, other, 0);
        let was = rank::<K, M>(rows, other, 0);
        let now = rank::<K, M>(after, other, 0);
        if find::<K, M>(rows, other) is Some {
            let place = if at < rows.len() && rows[at].0 == key || was < at {
                was
            } else {
                was + 1
            };
            assert(after[place].0 == other);
            assert forall|k: int| 0 <= k < place implies K::below(#[trigger] after[k].0, other) by {
                assert(K::below(after[k].0, after[place].0));
            }
            K::lemma_irreflexive(other);
            lemma_rank::<K, M>(after, other, 0, place);
        } else if find::<K, M>(after, other) is Some {
            let place = if at < rows.len() && rows[at].0 == key || now < at {
                now
            } else {
                now - 1
            };
            assert(now != at);
            assert(rows[place].0 == other);
            assert forall|k: int| 0 <= k < place implies K::below(#[trigger] rows[k].0, other) by {
                assert(K::below(rows[k].0, rows[place].0));
            }
            K::lemma_irreflexive(other);
            lemma_rank::<K, M>(rows, other, 0, place);
        }
    }
}

/// Rows in the order of their keys.
#[derive(Debug)]
pub struct Table<K, V> {
    pub rows: Vec<(K, V)>,
}

/// What rows say, key and value each by its view.
pub open spec fn rows_view<K: View, V: View>(rows: Seq<(K, V)>) -> Seq<(K::V, V::V)> {
    Seq::new(rows.len(), |i: int| (rows[i].0@, rows[i].1@))
}

impl<K: View, V: View> View for Table<K, V> {
    type V = Seq<(K::V, V::V)>;

    open spec fn view(&self) -> Seq<(K::V, V::V)> {
        rows_view(self.rows@)
    }
}

impl<K: Key, V: View> Table<K, V> {
    /// The keys ascend.
    pub open spec fn wf(&self) -> bool {
        ascending::<K, V::V>(self@)
    }

    pub fn new() -> (r: Self)
        ensures
            r@ == Seq::<(K::V, V::V)>::empty(),
            r.wf(),
    {
        let r = Table { rows: Vec::new() };
        assert(r@ =~= Seq::empty());
        r
    }

    pub fn len(&self) -> (r: usize)
        ensures
            r == self@.len(),
    {
        self.rows.len()
    }

    pub fn is_empty(&self) -> (r: bool)
        ensures
            r == (self@.len() == 0),
    {
        self.rows.len() == 0
    }

    /// The key of row `i`.
    pub fn key_at(&self, i: usize) -> (r: &K)
        requires
            i < self@.len(),
        ensures
            r@ == self@[i as int].0,
    {
        &self.rows[i].0
    }

    /// The value of row `i`.
    pub fn value_at(&self, i: usize) -> (r: &V)
        requires
            i < self@.len(),
        ensures
            r@ == self@[i as int].1,
    {
        &self.rows[i].1
    }

    fn place_of(&self, key: &K) -> (r: usize)
        requires
            self.wf(),
        ensures
            r == rank::<K, V::V>(self@, key@, 0),
            r <= self@.len(),
    {
        let mut low: usize = 0;
        let mut high: usize = self.rows.len();
        while low < high
            invariant
                low <= high <= self.rows@.len(),
                self.wf(),
                self@.len() == self.rows@.len(),
                forall|k: int| 0 <= k < low ==> K::below(#[trigger] self@[k].0, key@),
                forall|k: int| high <= k < self@.len() ==> !K::below(#[trigger] self@[k].0, key@),
            decreases high - low,
        {
            let middle: usize = low + (high - low) / 2;
            match self.rows[middle].0.order(key) {
                Order::Less => {
                    assert(self@[middle as int].0 == self.rows@[middle as int].0@);
                    assert forall|k: int| 0 <= k < middle + 1 implies K::below(
                        #[trigger] self@[k].0,
                        key@,
                    ) by {
                        if low <= k < middle {
                            assert(K::below(self@[k].0, self@[middle as int].0));
                            K::lemma_transitive(self@[k].0, self@[middle as int].0, key@);
                        }
                    }
                    low = middle + 1;
                },
                _ => {
                    assert(self@[middle as int].0 == self.rows@[middle as int].0@);
                    assert forall|k: int| middle <= k < self@.len() implies !K::below(
                        #[trigger] self@[k].0,
                        key@,
                    ) by {
                        if K::below(self@[k].0, key@) {
                            if middle < k {
                                assert(K::below(self@[middle as int].0, self@[k].0));
                                K::lemma_transitive(self@[middle as int].0, self@[k].0, key@);
                            }
                            if K::below(key@, self@[middle as int].0) {
                                K::lemma_transitive(
                                    self@[middle as int].0,
                                    key@,
                                    self@[middle as int].0,
                                );
                            }
                            K::lemma_irreflexive(self@[middle as int].0);
                        }
                    }
                    high = middle;
                },
            }
        }
        proof {
            lemma_rank::<K, V::V>(self@, key@, 0, low as int);
        }
        low
    }

    /// The value under `key`.
    pub fn get(&self, key: &K) -> (r: Option<&V>)
        requires
            self.wf(),
        ensures
            match r {
                Some(value) => find::<K, V::V>(self@, key@) == Some(value@),
                None => find::<K, V::V>(self@, key@) is None,
            },
            r is Some ==> exists|i: int|
                0 <= i < self.rows@.len() && *r->0 == (#[trigger] self.rows@[i]).1,
    {
        let i: usize = self.place_of(key);
        if i < self.rows.len() {
            match self.rows[i].0.order(key) {
                Order::Equal => Some(&self.rows[i].1),
                Order::Less => {
                    proof {
                        lemma_rank_bounds::<K, V::V>(self@, key@, 0);
                    }
                    None
                },
                Order::Greater => {
                    proof {
                        K::lemma_irreflexive(key@);
                    }
                    None
                },
            }
        } else {
            None
        }
    }

    /// Puts `value` under `key`, in place of what stood there.
    pub fn insert(&mut self, key: K, value: V)
        requires
            old(self).wf(),
        ensures
            final(self).wf(),
            final(self)@ == put::<K, V::V>(old(self)@, key@, value@),
            forall|i: int|
                0 <= i < final(self).rows@.len() ==> (#[trigger] final(self).rows@[i]).1 == value
                    || exists|j: int|
                    0 <= j < old(self).rows@.len() && (#[trigger] old(self).rows@[j]).1
                        == final(self).rows@[i].1,
    {
        let ghost rows = self.rows@;
        let ghost given = value;
        proof {
            law_put_keeps_order::<K, V::V>(self@, key@, value@);
            lemma_rank_bounds::<K, V::V>(self@, key@, 0);
            K::lemma_irreflexive(key@);
        }
        let i: usize = self.place_of(&key);
        let ghost before = self@;
        let ghost (k, v) = (key@, value@);
        if i < self.rows.len() {
            if let Order::Equal = self.rows[i].0.order(&key) {
                self.rows.set(i, (key, value));
                assert(self@ =~= put::<K, V::V>(before, k, v));
                assert forall|a: int| 0 <= a < self.rows@.len() implies (
                #[trigger] self.rows@[a]).1 == given || exists|j: int|
                    0 <= j < rows.len() && (#[trigger] rows[j]).1 == self.rows@[a].1 by {
                    if a != i {
                        assert(rows[a].1 == self.rows@[a].1);
                    }
                }
                return;
            }
        }
        self.rows.insert(i, (key, value));
        assert(self@ =~= put::<K, V::V>(before, k, v));
        assert forall|a: int| 0 <= a < self.rows@.len() implies (#[trigger] self.rows@[a]).1
            == given || exists|j: int|
            0 <= j < rows.len() && (#[trigger] rows[j]).1 == self.rows@[a].1 by {
            if a < i {
                assert(rows[a].1 == self.rows@[a].1);
            } else if a > i {
                assert(rows[a - 1].1 == self.rows@[a].1);
            }
        }
    }
}

/// A set of numbers.
#[derive(Debug)]
pub struct NumberSet {
    table: Table<u32, u32>,
}

impl View for NumberSet {
    type V = Set<u32>;

    closed spec fn view(&self) -> Set<u32> {
        Set::new(|n: u32| find::<u32, u32>(self.table@, n) is Some)
    }
}

impl NumberSet {
    pub closed spec fn wf(&self) -> bool {
        self.table.wf()
    }

    pub fn new() -> (r: NumberSet)
        ensures
            r.wf(),
            r@ == Set::<u32>::empty(),
    {
        let r = NumberSet { table: Table::new() };
        assert(r@ =~= Set::<u32>::empty());
        r
    }

    pub fn contains(&self, n: u32) -> (r: bool)
        requires
            self.wf(),
        ensures
            r == self@.contains(n),
    {
        self.table.get(&n).is_some()
    }

    pub fn insert(&mut self, n: u32)
        requires
            old(self).wf(),
        ensures
            final(self).wf(),
            final(self)@ == old(self)@.insert(n),
    {
        let ghost before = self.table@;
        self.table.insert(n, n);
        assert forall|k: u32| self@.contains(k) == old(self)@.insert(n).contains(k) by {
            law_find_after_put::<u32, u32>(before, n, n, k);
        }
        assert(self@ =~= old(self)@.insert(n));
    }
}

} // verus!
