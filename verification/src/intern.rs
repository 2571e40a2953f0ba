use std::collections::HashMap;
use vstd::prelude::*;

verus! {

/// The id that ends a chain of ids with the same fingerprint.
pub const NONE: usize = usize::MAX;

/// Items that an `InternTable` can hold: copyable values whose equality and
/// whose 64-bit code are computed by the methods below.
pub trait InternItem: Copy + Sized {
    /// The 64-bit code that the fingerprint of a sequence folds in.
    spec fn code(&self) -> u64;

    fn same(&self, other: &Self) -> (r: bool)
        ensures
            r == (*self == *other),
    ;

    fn item_code(&self) -> (r: u64)
        ensures
            r == self.code(),
    ;
}

impl InternItem for u8 {
    open spec fn code(&self) -> u64 {
        *self as u64
    }

    fn same(&self, other: &Self) -> (r: bool) {
        *self == *other
    }

    fn item_code(&self) -> (r: u64) {
        *self as u64
    }
}

pub open spec fn fnv_offset() -> u64 {
    0xcbf2_9ce4_8422_2325u64
}

pub open spec fn fnv_prime() -> u64 {
    0x0000_0100_0000_01b3u64
}

/// The FNV-1a fold of the items' codes, starting from `h`.
pub open spec fn fold_codes<T: InternItem>(h: u64, items: Seq<T>) -> u64
    decreases items.len(),
{
    if items.len() == 0 {
        h
    } else {
        fold_codes(
            vstd::wrapping::u64_specs::wrapping_mul(h ^ items[0].code(), fnv_prime()),
            items.drop_first(),
        )
    }
}

/// The fingerprint under which a sequence of items is filed.
pub open spec fn fingerprint<T: InternItem>(items: Seq<T>) -> u64 {
    fold_codes(fnv_offset(), items)
}

pub fn compute_fingerprint<T: InternItem>(items: &[T]) -> (r: u64)
    ensures
        r == fingerprint(items@),
{
    let mut h: u64 = 0xcbf2_9ce4_8422_2325u64;
    let n = items.len();
    let mut i: usize = 0;
    assert(items@.skip(0) =~= items@);
    while i < n
        invariant
            i <= n,
            n == items@.len(),
            fingerprint(items@) == fold_codes(h, items@.skip(i as int)),
        decreases n - i,
    {
        let c = items[i].item_code();
        assert(items@.skip(i as int).drop_first() =~= items@.skip(i + 1));
        h = (h ^ c).wrapping_mul(0x0000_0100_0000_01b3u64);
        i += 1;
    }
    h
}

/// A table that gives each distinct sequence of items a dense id, in the
/// order in which sequences are first interned, and stores the sequences end
/// to end in one arena.
pub struct InternTable<T> {
    arena: Vec<T>,
    boundaries: Vec<usize>,
    next: Vec<usize>,
    table: HashMap<u64, usize>,
}

/// The interned sequences after interning `x` into `s`, and the id of `x`:
/// the id it has if it is there, else the next id.
pub open spec fn interned<T>(s: Seq<Seq<T>>, x: Seq<T>) -> (Seq<Seq<T>>, int) {
    if s.contains(x) {
        (s, s.index_of(x))
    } else {
        (s.push(x), s.len() as int)
    }
}

/// In a sequence without duplicates, an element's index is the one where
/// it is.
pub proof fn lemma_index_of_unique<A>(s: Seq<A>, x: A, i: int)
    requires
        s.no_duplicates(),
        0 <= i < s.len(),
        s[i] == x,
    ensures
        s.contains(x),
        s.index_of(x) == i,
{
    assert(s.contains(x));
    let j = s.index_of(x);
    assert(0 <= j < s.len() && s[j] == x);
}

/// Interning gives back what was interned: the sequence stored under the id
/// that interning `x` gives is `x`.
pub proof fn lemma_interned_resolves<T>(s: Seq<Seq<T>>, x: Seq<T>)
    requires
        s.no_duplicates(),
    ensures
        0 <= interned(s, x).1 < interned(s, x).0.len(),
        interned(s, x).0[interned(s, x).1] == x,
        interned(s, x).0.no_duplicates(),
{
    if s.contains(x) {
        let j = s.index_of(x);
        assert(0 <= j < s.len() && s[j] == x);
    } else {
        let t = s.push(x);
        assert forall|i: int, j: int| 0 <= i < t.len() && 0 <= j < t.len() && i != j implies t[i] != t[j] by {
            if i < s.len() && j < s.len() {
            } else if i == s.len() {
                assert(t[j] == s[j]);
            } else {
                assert(t[i] == s[i]);
            }
        }
    }
}

/// Interning the same sequence again changes nothing and gives the same id.
pub proof fn lemma_interned_idempotent<T>(s: Seq<Seq<T>>, x: Seq<T>)
    requires
        s.no_duplicates(),
    ensures
        interned(interned(s, x).0, x) == interned(s, x),
{
    lemma_interned_resolves(s, x);
    let (t, i) = interned(s, x);
    lemma_index_of_unique(t, x, i);
}

/// Interning keeps the ids given before and gives distinct sequences
/// distinct ids.
pub proof fn lemma_interned_keeps_ids<T>(s: Seq<Seq<T>>, x: Seq<T>, y: Seq<T>)
    requires
        s.no_duplicates(),
        s.contains(y),
        x != y,
    ensures
        interned(interned(s, x).0, y).1 == s.index_of(y),
        interned(s, x).1 != s.index_of(y),
{
    lemma_interned_resolves(s, x);
    let (t, i) = interned(s, x);
    let j = s.index_of(y);
    assert(0 <= j < s.len() && s[j] == y);
    assert(t[j] == y);
    lemma_index_of_unique(t, y, j);
}

/// Interning `x` and then `y` gives both the same id exactly when they are
/// the same sequence, and keeps what the first id names.
pub proof fn lemma_interned_injective<T>(s: Seq<Seq<T>>, x: Seq<T>, y: Seq<T>)
    requires
        s.no_duplicates(),
    ensures
        ({
            let (s1, i) = interned(s, x);
            let (s2, j) = interned(s1, y);
            &&& (i == j <==> x == y)
            &&& s2[i] == x
            &&& s2[j] == y
        }),
{
    lemma_interned_resolves(s, x);
    let (s1, i) = interned(s, x);
    lemma_interned_resolves(s1, y);
    let (s2, j) = interned(s1, y);
    assert(s2[i] == s1[i]);
    if x == y {
        lemma_interned_idempotent(s, x);
    }
}

/// Where the item with id `i` starts in the arena.
pub open spec fn start_of(bounds: Seq<usize>, i: int) -> int {
    if i == 0 {
        0
    } else {
        bounds[i - 1] as int
    }
}

impl<T: InternItem> InternTable<T> {
    pub closed spec fn item(&self, i: int) -> Seq<T> {
        self.arena@.subrange(start_of(self.boundaries@, i), self.boundaries@[i] as int)
    }

    /// The interned sequences, by id.
    pub closed spec fn items(&self) -> Seq<Seq<T>> {
        Seq::new(self.boundaries@.len(), |i: int| self.item(i))
    }

    /// The table's invariant.
    pub closed spec fn wf(&self) -> bool {
        let n = self.boundaries@.len();
        &&& n + 1 < NONE
        &&& self.next@.len() == n
        &&& forall|i: int, j: int|
            0 <= i <= j < n ==> #[trigger] self.boundaries@[i] <= #[trigger] self.boundaries@[j]
        &&& forall|i: int| 0 <= i < n ==> #[trigger] self.boundaries@[i] <= self.arena@.len()
        &&& n > 0 ==> self.boundaries@[n - 1] == self.arena@.len()
        &&& n == 0 ==> self.arena@.len() == 0
        &&& forall|i: int|
            #![trigger self.next@[i]]
            0 <= i < n ==> {
                let nx = self.next@[i];
                &&& nx == NONE || (nx < i && fingerprint(self.item(nx as int)) == fingerprint(
                    self.item(i),
                ))
                &&& forall|k: int|
                    (nx == NONE || nx < k) && k < i && 0 <= k ==> fingerprint(
                        #[trigger] self.item(k),
                    ) != fingerprint(self.item(i))
            }
        &&& forall|h: u64|
            #[trigger] self.table@.contains_key(h) ==> {
                let last = self.table@[h];
                &&& last < n
                &&& fingerprint(self.item(last as int)) == h
                &&& forall|k: int|
                    last < k < n ==> fingerprint(#[trigger] self.item(k)) != h
            }
        &&& forall|i: int|
            0 <= i < n ==> self.table@.contains_key(fingerprint(#[trigger] self.item(i)))
        &&& forall|i: int, j: int|
            0 <= i < j < n ==> #[trigger] self.item(i) != #[trigger] self.item(j)
    }
}

impl<T: InternItem> View for InternTable<T> {
    type V = Seq<Seq<T>>;

    closed spec fn view(&self) -> Seq<Seq<T>> {
        self.items()
    }
}

/// The start and end of item `id` in the arena.
fn indices(boundaries: &[usize], id: usize) -> (r: (usize, usize))
    requires
        id < boundaries@.len(),
    ensures
        r.0 == start_of(boundaries@, id as int),
        r.1 == boundaries@[id as int],
{
    let end = boundaries[id];
    let start = if id > 0 {
        boundaries[id - 1]
    } else {
        0
    };
    (start, end)
}

/// Whether two slices hold equal items.
fn slices_equal<T: InternItem>(a: &[T], b: &[T]) -> (r: bool)
    ensures
        r == (a@ == b@),
{
    if a.len() != b.len() {
        return false;
    }
    let n = a.len();
    let mut i: usize = 0;
    while i < n
        invariant
            i <= n,
            n == a@.len(),
            n == b@.len(),
            forall|k: int| 0 <= k < i ==> a@[k] == b@[k],
        decreases n - i,
    {
        if !a[i].same(&b[i]) {
            return false;
        }
        i += 1;
    }
    assert(a@ =~= b@);
    true
}

impl<T: InternItem> InternTable<T> {
    /// An empty table.
    pub fn new() -> (r: Self)
        ensures
            r.wf(),
            r@ == Seq::<Seq<T>>::empty(),
    {
        let r = InternTable {
            arena: Vec::new(),
            boundaries: Vec::new(),
            next: Vec::new(),
            table: HashMap::new(),
        };
        assert(r@ =~= Seq::<Seq<T>>::empty());
        r
    }

    /// The number of interned sequences.
    pub fn len(&self) -> (r: usize)
        requires
            self.wf(),
        ensures
            r == self@.len(),
    {
        self.boundaries.len()
    }

    proof fn lemma_view_index(&self, i: int)
        requires
            0 <= i < self.boundaries@.len(),
        ensures
            self@[i] == self.item(i),
    {
    }

    /// The id of `item`, if it has been interned.
    pub fn get(&self, item: &[T]) -> (r: Option<usize>)
        requires
            self.wf(),
        ensures
            match r {
                Some(id) => id < self@.len() && self@[id as int] == item@,
                None => !self@.contains(item@),
            },
    {
        let h = compute_fingerprint(item);
        let n = self.boundaries.len();
        let mut id = match self.table.get(&h) {
            Some(last) => *last,
            None => NONE,
        };
        while id != NONE
            invariant
                self.wf(),
                n == self.boundaries@.len(),
                h == fingerprint(item@),
                id == NONE || (id < n && fingerprint(self.item(id as int)) == h),
                forall|j: int|
                    0 <= j < n && (id == NONE || id < j) && fingerprint(#[trigger] self.item(j))
                        == h ==> self.item(j) != item@,
            decreases (if id == NONE {
                0
            } else {
                id + 1
            }),
        {
            let (start, end) = indices(self.boundaries.as_slice(), id);
            proof {
                assert(self.boundaries@[id as int] <= self.arena@.len());
                if id > 0 {
                    assert(self.boundaries@[id - 1] <= self.boundaries@[id as int]);
                }
            }
            let stored = &self.arena.as_slice()[start..end];
            if slices_equal(stored, item) {
                proof {
                    self.lemma_view_index(id as int);
                }
                return Some(id);
            }
            let nx = self.next[id];
            proof {
                assert forall|j: int|
                    0 <= j < n && (nx == NONE || nx < j) && fingerprint(#[trigger] self.item(j))
                        == h implies self.item(j) != item@ by {
                    if j < id {
                        assert(fingerprint(self.item(j)) != fingerprint(self.item(id as int)));
                    }
                }
            }
            id = nx;
        }
        proof {
            if self@.contains(item@) {
                let j = choose|j: int| 0 <= j < self@.len() && self@[j] == item@;
                self.lemma_view_index(j);
                assert(fingerprint(self.item(j)) == h);
            }
        }
        None
    }
}

impl<T: InternItem> Default for InternTable<T> {
    fn default() -> (r: Self)
        ensures
            r.wf(),
            r@ == Seq::<Seq<T>>::empty(),
    {
        InternTable::new()
    }
}

impl<T: InternItem> InternTable<T> {
    /// Interns `item`: the id it already has, or the next id, under which
    /// `item` is then stored.
    pub fn intern(&mut self, item: &[T]) -> (r: usize)
        requires
            old(self).wf(),
            old(self)@.len() + 2 < usize::MAX,
        ensures
            final(self).wf(),
            r < final(self)@.len(),
            final(self)@[r as int] == item@,
            old(self)@.contains(item@) ==> final(self)@ == old(self)@,
            !old(self)@.contains(item@) ==> final(self)@ == old(self)@.push(item@) && r == old(
                self,
            )@.len(),
            (final(self)@, r as int) == interned(old(self)@, item@),
            final(self)@.no_duplicates(),
    {
        proof {
            self.lemma_no_duplicates();
        }
        if let Some(found) = self.get(item) {
            proof {
                lemma_index_of_unique(self@, item@, found as int);
            }
            return found;
        }
        let h = compute_fingerprint(item);
        let id = self.boundaries.len();
        let ghost old_arena = self.arena@;
        let ghost pre = *self;
        let n = item.len();
        let mut i: usize = 0;
        while i < n
            invariant
                i <= n,
                n == item@.len(),
                self.arena@ == old_arena + item@.take(i as int),
                self.boundaries == pre.boundaries,
                self.next == pre.next,
                self.table == pre.table,
            decreases n - i,
        {
            self.arena.push(item[i]);
            assert(self.arena@ =~= old_arena + item@.take(i + 1));
            i += 1;
        }
        assert(item@.take(n as int) =~= item@);
        let end = self.arena.len();
        self.boundaries.push(end);
        let prev = self.table.insert(h, id);
        let nx = match prev {
            Some(p) => p,
            None => NONE,
        };
        self.next.push(nx);
        proof {
            let nn = id + 1;
            assert forall|k: int| 0 <= k < id implies #[trigger] self.item(k) == pre.item(k) by {
                assert(pre.boundaries@[k] <= pre.boundaries@[id - 1]);
                if k > 0 {
                    assert(pre.boundaries@[k - 1] <= pre.boundaries@[k]);
                }
                assert(self.arena@.subrange(start_of(self.boundaries@, k), self.boundaries@[k] as int)
                    =~= old_arena.subrange(start_of(pre.boundaries@, k), pre.boundaries@[k] as int));
            }
            assert(self.item(id as int) =~= item@);
            assert forall|a: int, b: int|
                0 <= a <= b < nn implies #[trigger] self.boundaries@[a]
                <= #[trigger] self.boundaries@[b] by {
                if b < id {
                    assert(pre.boundaries@[a] <= pre.boundaries@[b]);
                } else if a < id {
                    assert(pre.boundaries@[a] <= pre.boundaries@[id - 1]);
                }
            }
            assert forall|k: int| 0 <= k < nn implies #[trigger] self.boundaries@[k]
                <= self.arena@.len() by {
                if k < id {
                    assert(pre.boundaries@[k] <= pre.boundaries@[id - 1]);
                }
            }
            assert forall|k: int|
                #![trigger self.next@[k]]
                0 <= k < nn implies {
                let nx = self.next@[k];
                &&& nx == NONE || (nx < k && fingerprint(self.item(nx as int)) == fingerprint(
                    self.item(k),
                ))
                &&& forall|m: int|
                    (nx == NONE || nx < m) && m < k && 0 <= m ==> fingerprint(
                        #[trigger] self.item(m),
                    ) != fingerprint(self.item(k))
            } by {
                if k < id {
                    assert(pre.next@[k] == self.next@[k]);
                } else {
                    match prev {
                        Some(p) => {
                            assert(pre.table@.contains_key(h));
                        },
                        None => {
                            assert forall|m: int| 0 <= m < k implies fingerprint(
                                #[trigger] self.item(m),
                            ) != fingerprint(self.item(k)) by {
                                assert(pre.table@.contains_key(fingerprint(pre.item(m))));
                            }
                        },
                    }
                }
            }
            assert forall|g: u64| #[trigger] self.table@.contains_key(g) implies {
                let last = self.table@[g];
                &&& last < nn
                &&& fingerprint(self.item(last as int)) == g
                &&& forall|k: int| last < k < nn ==> fingerprint(#[trigger] self.item(k)) != g
            } by {
                if g != h {
                    assert(pre.table@.contains_key(g));
                }
            }
            assert forall|k: int| 0 <= k < nn implies self.table@.contains_key(
                fingerprint(#[trigger] self.item(k)),
            ) by {
                if k < id {
                    assert(pre.table@.contains_key(fingerprint(pre.item(k))));
                }
            }
            assert forall|a: int, b: int| 0 <= a < b < nn implies #[trigger] self.item(a)
                != #[trigger] self.item(b) by {
                if b < id {
                    assert(pre.item(a) != pre.item(b));
                } else {
                    assert(pre@[a] == pre.item(a));
                }
            }
            assert(self@ =~= pre@.push(item@));
        }
        id
    }

    /// The sequence stored under `id`.
    pub fn resolve(&self, id: usize) -> (r: &[T])
        requires
            self.wf(),
            id < self@.len(),
        ensures
            r@ == self@[id as int],
    {
        let (start, end) = indices(self.boundaries.as_slice(), id);
        proof {
            assert(self.boundaries@[id as int] <= self.arena@.len());
            if id > 0 {
                assert(self.boundaries@[id - 1] <= self.boundaries@[id as int]);
            }
        }
        &self.arena.as_slice()[start..end]
    }

    /// No sequence is stored under two ids.
    pub proof fn lemma_no_duplicates(&self)
        requires
            self.wf(),
        ensures
            self@.no_duplicates(),
    {
        assert forall|i: int, j: int|
            0 <= i < self@.len() && 0 <= j < self@.len() && i != j implies self@[i] != self@[j] by {
            self.lemma_ids_distinct(i, j);
        }
    }

    /// Distinct ids hold distinct sequences.
    pub proof fn lemma_ids_distinct(&self, i: int, j: int)
        requires
            self.wf(),
            0 <= i < self@.len(),
            0 <= j < self@.len(),
            i != j,
        ensures
            self@[i] != self@[j],
    {
        if i < j {
            assert(self.item(i) != self.item(j));
        } else {
            assert(self.item(j) != self.item(i));
        }
    }
}

} // verus!
