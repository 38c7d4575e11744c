//! Total orders on keys, and the ascending listing of a set of keys.
//!
//! A key is ordered by the lexicographic order of a sequence of integers, its
//! words. For a struct the words are those of its fields in declaration order,
//! so the order is the one that `derive(Ord)` gives.
use vstd::prelude::*;

verus! {

/// How one key stands to another in the order of their type.
pub enum Relative {
    Less,
    Same,
    Greater,
}

/// `a` comes before `b` in lexicographic order, decided at position `i`.
pub open spec fn lex_less_at(a: Seq<int>, b: Seq<int>, i: int) -> bool {
    &&& 0 <= i <= a.len()
    &&& i < b.len()
    &&& forall|j: int| 0 <= j < i ==> a[j] == b[j]
    &&& i == a.len() || a[i] < b[i]
}

/// `a` comes strictly before `b` in lexicographic order.
pub open spec fn lex_less(a: Seq<int>, b: Seq<int>) -> bool {
    exists|i: int| lex_less_at(a, b, i)
}

pub proof fn lemma_lex_irreflexive(a: Seq<int>)
    ensures
        !lex_less(a, a),
{
}

pub proof fn lemma_lex_transitive(a: Seq<int>, b: Seq<int>, c: Seq<int>)
    requires
        lex_less(a, b),
        lex_less(b, c),
    ensures
        lex_less(a, c),
{
    let i = choose|i: int| lex_less_at(a, b, i);
    let j = choose|j: int| lex_less_at(b, c, j);
    if i <= j {
        assert(lex_less_at(a, c, i));
    } else {
        assert(lex_less_at(a, c, j));
    }
}

/// Sequences that agree on a common prefix are ordered by what follows it.
pub proof fn lemma_lex_after_prefix(p: Seq<int>, a: Seq<int>, b: Seq<int>)
    requires
        lex_less(a, b),
    ensures
        lex_less(p + a, p + b),
{
    let i = choose|i: int| lex_less_at(a, b, i);
    assert(lex_less_at(p + a, p + b, p.len() + i));
}

/// Two sequences of one length that are ordered stay so whatever is appended.
pub proof fn lemma_lex_before_suffix(a: Seq<int>, b: Seq<int>, x: Seq<int>, y: Seq<int>)
    requires
        lex_less(a, b),
        a.len() == b.len(),
    ensures
        lex_less(a + x, b + y),
{
    let i = choose|i: int| lex_less_at(a, b, i);
    assert(lex_less_at(a + x, b + y, i));
}

/// A type whose values are totally ordered by their words.
pub trait OrderedKey: Sized {
    /// The integers by which values are ordered, most significant first.
    spec fn words(self) -> Seq<int>;

    /// The words tell the value.
    proof fn words_tell(a: Self, b: Self)
        requires
            a.words() == b.words(),
        ensures
            a == b,
    ;

    /// Compares two keys.
    fn relate(&self, other: &Self) -> (r: Relative)
        ensures
            match r {
                Relative::Less => lex_less(self.words(), other.words()),
                Relative::Same => *self == *other,
                Relative::Greater => lex_less(other.words(), self.words()),
            },
    ;
}

/// `a` comes strictly before `b`.
pub open spec fn before<K: OrderedKey>(a: K, b: K) -> bool {
    lex_less(a.words(), b.words())
}

/// The sequence ascends strictly.
pub open spec fn ascending<K: OrderedKey>(s: Seq<K>) -> bool {
    forall|i: int, j: int| 0 <= i < j < s.len() ==> before(#[trigger] s[i], #[trigger] s[j])
}

/// The elements of a set in ascending order.
pub open spec fn sorted<K: OrderedKey>(s: Set<K>) -> Seq<K> {
    choose|q: Seq<K>| #[trigger] ascending(q) && q.to_set() == s
}

pub proof fn lemma_before_irreflexive<K: OrderedKey>(a: K)
    ensures
        !before(a, a),
{
    lemma_lex_irreflexive(a.words());
}

pub proof fn lemma_before_transitive<K: OrderedKey>(a: K, b: K, c: K)
    requires
        before(a, b),
        before(b, c),
    ensures
        before(a, c),
{
    lemma_lex_transitive(a.words(), b.words(), c.words());
}

/// No two keys are before one another.
pub proof fn lemma_before_asymmetric<K: OrderedKey>(a: K, b: K)
    requires
        before(a, b),
    ensures
        !before(b, a),
        a != b,
{
    lemma_before_irreflexive(a);
    if before(b, a) {
        lemma_before_transitive(a, b, a);
    }
}

/// An ascending sequence holds nothing twice.
pub proof fn lemma_ascending_distinct<K: OrderedKey>(s: Seq<K>)
    requires
        ascending(s),
    ensures
        s.no_duplicates(),
{
    assert forall|i: int, j: int| 0 <= i < s.len() && 0 <= j < s.len() && i != j implies s[i]
        != s[j] by {
        if i < j {
            lemma_before_asymmetric(s[i], s[j]);
        } else {
            lemma_before_asymmetric(s[j], s[i]);
        }
    }
}

/// Two ascending sequences of the same elements are the same sequence.
pub proof fn lemma_ascending_unique<K: OrderedKey>(p: Seq<K>, q: Seq<K>)
    requires
        ascending(p),
        ascending(q),
        p.to_set() == q.to_set(),
    ensures
        p == q,
    decreases p.len(),
{
    if p.len() == 0 {
        if q.len() > 0 {
            assert(q.to_set().contains(q[0]));
            assert(p.to_set().contains(q[0]));
        }
        assert(p =~= q);
    } else {
        assert(p.to_set().contains(p[0]));
        assert(q.contains(p[0]));
        assert(q.to_set().contains(q[0]));
        assert(p.contains(q[0]));
        let i = choose|i: int| 0 <= i < q.len() && q[i] == p[0];
        let j = choose|j: int| 0 <= j < p.len() && p[j] == q[0];
        if i > 0 && j > 0 {
            lemma_before_asymmetric(q[0], q[i]);
            assert(before(p[0], p[j]));
        }
        assert(p[0] == q[0]);
        let pt = p.drop_first();
        let qt = q.drop_first();
        lemma_ascending_distinct(p);
        lemma_ascending_distinct(q);
        assert forall|k: K| pt.to_set().contains(k) <==> qt.to_set().contains(k) by {
            if pt.to_set().contains(k) {
                let m = choose|m: int| 0 <= m < pt.len() && pt[m] == k;
                assert(p[m + 1] == k);
                assert(p.to_set().contains(k));
                assert(q.contains(k));
                let n = choose|n: int| 0 <= n < q.len() && q[n] == k;
                assert(n != 0);
                assert(qt[n - 1] == k);
            }
            if qt.to_set().contains(k) {
                let m = choose|m: int| 0 <= m < qt.len() && qt[m] == k;
                assert(q[m + 1] == k);
                assert(q.to_set().contains(k));
                assert(p.contains(k));
                let n = choose|n: int| 0 <= n < p.len() && p[n] == k;
                assert(n != 0);
                assert(pt[n - 1] == k);
            }
        }
        assert(pt.to_set() =~= qt.to_set());
        assert(ascending(pt)) by {
            assert forall|a: int, b: int| 0 <= a < b < pt.len() implies before(
                #[trigger] pt[a],
                #[trigger] pt[b],
            ) by {
                assert(before(p[a + 1], p[b + 1]));
            }
        }
        assert(ascending(qt)) by {
            assert forall|a: int, b: int| 0 <= a < b < qt.len() implies before(
                #[trigger] qt[a],
                #[trigger] qt[b],
            ) by {
                assert(before(q[a + 1], q[b + 1]));
            }
        }
        lemma_ascending_unique(pt, qt);
        assert(p =~= seq![p[0]] + pt);
        assert(q =~= seq![q[0]] + qt);
    }
}

/// An ascending sequence is the ascending listing of its elements.
pub proof fn lemma_sorted_is<K: OrderedKey>(q: Seq<K>)
    requires
        ascending(q),
    ensures
        sorted(q.to_set()) == q,
{
    let s = sorted(q.to_set());
    assert(ascending(q) && q.to_set() == q.to_set());
    lemma_ascending_unique(s, q);
}

/// Any two sequences are ordered, or equal.
pub proof fn lemma_lex_total(a: Seq<int>, b: Seq<int>)
    ensures
        lex_less(a, b) || a == b || lex_less(b, a),
{
    lemma_lex_total_from(a, b, 0);
}

proof fn lemma_lex_total_from(a: Seq<int>, b: Seq<int>, i: int)
    requires
        0 <= i <= a.len(),
        i <= b.len(),
        forall|j: int| 0 <= j < i ==> a[j] == b[j],
    ensures
        lex_less(a, b) || a == b || lex_less(b, a),
    decreases a.len() - i,
{
    if i == a.len() && i == b.len() {
        assert(a =~= b);
    } else if i == a.len() || (i < b.len() && a[i] < b[i]) {
        assert(lex_less_at(a, b, i));
    } else if i == b.len() || b[i] < a[i] {
        assert(lex_less_at(b, a, i));
    } else {
        lemma_lex_total_from(a, b, i + 1);
    }
}

/// A finite set has an ascending listing.
pub proof fn lemma_sorted_lists<K: OrderedKey>(s: Set<K>)
    requires
        s.finite(),
    ensures
        ascending(sorted(s)),
        sorted(s).to_set() == s,
    decreases s.len(),
{
    if s.len() == 0 {
        let q = Seq::<K>::empty();
        assert(q.to_set() =~= s);
        assert(ascending(q) && q.to_set() == s);
    } else {
        let k = s.choose();
        let rest = s.remove(k);
        lemma_sorted_lists(rest);
        let q = sorted(rest);
        assert(!q.contains(k)) by {
            assert(q.contains(k) <==> q.to_set().contains(k));
        }
        let at = lemma_place(q, k, q.len() as int);
        let r = q.insert(at, k);
        assert forall|i: int, j: int| 0 <= i < j < r.len() implies before(
            #[trigger] r[i],
            #[trigger] r[j],
        ) by {
            if i < at && j < at {
                assert(r[i] == q[i] && r[j] == q[j]);
            } else if i < at && j == at {
                assert(r[i] == q[i] && r[j] == k);
            } else if i < at {
                assert(r[i] == q[i] && r[j] == q[j - 1]);
            } else if i == at {
                assert(r[i] == k && r[j] == q[j - 1]);
            } else {
                assert(r[i] == q[i - 1] && r[j] == q[j - 1]);
            }
        }
        assert forall|x: K| r.to_set().contains(x) <==> s.contains(x) by {
            if r.contains(x) {
                let i = choose|i: int| 0 <= i < r.len() && r[i] == x;
                if i < at {
                    assert(q[i] == x);
                } else if i > at {
                    assert(q[i - 1] == x);
                }
                assert(x == k || q.to_set().contains(x));
            }
            if s.contains(x) && x != k {
                assert(q.to_set().contains(x));
                let i = choose|i: int| 0 <= i < q.len() && q[i] == x;
                if i < at {
                    assert(r[i] == x);
                } else {
                    assert(r[i + 1] == x);
                }
            }
            assert(r[at] == k);
        }
        assert(r.to_set() =~= s);
        assert(ascending(r) && r.to_set() == s);
    }
}

/// The place of a new key in an ascending sequence.
proof fn lemma_place<K: OrderedKey>(q: Seq<K>, k: K, n: int) -> (at: int)
    requires
        ascending(q),
        !q.contains(k),
        0 <= n <= q.len(),
        forall|i: int| n <= i < q.len() ==> before(k, #[trigger] q[i]),
    ensures
        0 <= at <= q.len(),
        forall|i: int| 0 <= i < at ==> before(#[trigger] q[i], k),
        forall|i: int| at <= i < q.len() ==> before(k, #[trigger] q[i]),
    decreases n,
{
    if n == 0 {
        0
    } else {
        let last = q[n - 1];
        lemma_lex_total(last.words(), k.words());
        if last.words() == k.words() {
            K::words_tell(last, k);
            assert(q.contains(last));
        }
        if before(last, k) {
            assert forall|i: int| 0 <= i < n implies before(#[trigger] q[i], k) by {
                if i < n - 1 {
                    lemma_before_transitive(q[i], last, k);
                }
            }
            n
        } else {
            lemma_place(q, k, n - 1)
        }
    }
}

impl OrderedKey for u16 {
    open spec fn words(self) -> Seq<int> {
        seq![self as int]
    }

    proof fn words_tell(a: Self, b: Self) {
        assert(a.words()[0] == a as int);
        assert(b.words()[0] == b as int);
    }

    fn relate(&self, other: &Self) -> (r: Relative) {
        if *self < *other {
            assert(lex_less_at(self.words(), other.words(), 0));
            Relative::Less
        } else if *self == *other {
            Relative::Same
        } else {
            assert(lex_less_at(other.words(), self.words(), 0));
            Relative::Greater
        }
    }
}

impl OrderedKey for u32 {
    open spec fn words(self) -> Seq<int> {
        seq![self as int]
    }

    proof fn words_tell(a: Self, b: Self) {
        assert(a.words()[0] == a as int);
        assert(b.words()[0] == b as int);
    }

    fn relate(&self, other: &Self) -> (r: Relative) {
        if *self < *other {
            assert(lex_less_at(self.words(), other.words(), 0));
            Relative::Less
        } else if *self == *other {
            Relative::Same
        } else {
            assert(lex_less_at(other.words(), self.words(), 0));
            Relative::Greater
        }
    }
}

impl OrderedKey for u64 {
    open spec fn words(self) -> Seq<int> {
        seq![self as int]
    }

    proof fn words_tell(a: Self, b: Self) {
        assert(a.words()[0] == a as int);
        assert(b.words()[0] == b as int);
    }

    fn relate(&self, other: &Self) -> (r: Relative) {
        if *self < *other {
            assert(lex_less_at(self.words(), other.words(), 0));
            Relative::Less
        } else if *self == *other {
            Relative::Same
        } else {
            assert(lex_less_at(other.words(), self.words(), 0));
            Relative::Greater
        }
    }
}

impl OrderedKey for usize {
    open spec fn words(self) -> Seq<int> {
        seq![self as int]
    }

    proof fn words_tell(a: Self, b: Self) {
        assert(a.words()[0] == a as int);
        assert(b.words()[0] == b as int);
    }

    fn relate(&self, other: &Self) -> (r: Relative) {
        if *self < *other {
            assert(lex_less_at(self.words(), other.words(), 0));
            Relative::Less
        } else if *self == *other {
            Relative::Same
        } else {
            assert(lex_less_at(other.words(), self.words(), 0));
            Relative::Greater
        }
    }
}

impl OrderedKey for [u8; 32] {
    open spec fn words(self) -> Seq<int> {
        Seq::new(32, |i: int| self@[i] as int)
    }

    proof fn words_tell(a: Self, b: Self) {
        assert forall|i: int| 0 <= i < 32 implies a@[i] == b@[i] by {
            assert(a.words()[i] == a@[i] as int);
            assert(b.words()[i] == b@[i] as int);
        }
        assert(a@ =~= b@);
    }

    fn relate(&self, other: &Self) -> (r: Relative) {
        let mut i: usize = 0;
        while i < 32
            invariant
                i <= 32,
                forall|j: int| 0 <= j < i ==> self@[j] == other@[j],
            decreases 32 - i,
        {
            if self[i] < other[i] {
                assert(lex_less_at(self.words(), other.words(), i as int));
                return Relative::Less;
            }
            if self[i] > other[i] {
                assert(lex_less_at(other.words(), self.words(), i as int));
                return Relative::Greater;
            }
            i += 1;
        }
        assert(self@ =~= other@);
        Relative::Same
    }
}

/// Pairs are ordered by the first component, then by the second. The words of
/// all values of the first type have one length.
impl<A: FixedWidthKey, B: OrderedKey> OrderedKey for (A, B) {
    open spec fn words(self) -> Seq<int> {
        self.0.words() + self.1.words()
    }

    proof fn words_tell(a: Self, b: Self) {
        A::words_len(a.0);
        A::words_len(b.0);
        let n = A::width() as int;
        assert(a.words().take(n) =~= a.0.words());
        assert(b.words().take(n) =~= b.0.words());
        assert(a.words().skip(n) =~= a.1.words());
        assert(b.words().skip(n) =~= b.1.words());
        A::words_tell(a.0, b.0);
        B::words_tell(a.1, b.1);
    }

    fn relate(&self, other: &Self) -> (r: Relative) {
        proof {
            A::words_len(self.0);
            A::words_len(other.0);
        }
        match self.0.relate(&other.0) {
            Relative::Less => {
                proof {
                    lemma_lex_before_suffix(
                        self.0.words(),
                        other.0.words(),
                        self.1.words(),
                        other.1.words(),
                    );
                }
                Relative::Less
            },
            Relative::Greater => {
                proof {
                    lemma_lex_before_suffix(
                        other.0.words(),
                        self.0.words(),
                        other.1.words(),
                        self.1.words(),
                    );
                }
                Relative::Greater
            },
            Relative::Same => match self.1.relate(&other.1) {
                Relative::Less => {
                    proof {
                        lemma_lex_after_prefix(self.0.words(), self.1.words(), other.1.words());
                    }
                    Relative::Less
                },
                Relative::Greater => {
                    proof {
                        lemma_lex_after_prefix(self.0.words(), other.1.words(), self.1.words());
                    }
                    Relative::Greater
                },
                Relative::Same => Relative::Same,
            },
        }
    }
}

/// A key type all of whose values have the same number of words.
pub trait FixedWidthKey: OrderedKey {
    /// The number of words of every value.
    spec fn width() -> nat;

    /// Every value has `width` words.
    proof fn words_len(a: Self)
        ensures
            a.words().len() == Self::width(),
    ;
}

impl FixedWidthKey for u16 {
    open spec fn width() -> nat {
        1
    }

    proof fn words_len(a: Self) {
    }
}

impl FixedWidthKey for u32 {
    open spec fn width() -> nat {
        1
    }

    proof fn words_len(a: Self) {
    }
}

impl FixedWidthKey for u64 {
    open spec fn width() -> nat {
        1
    }

    proof fn words_len(a: Self) {
    }
}

impl FixedWidthKey for usize {
    open spec fn width() -> nat {
        1
    }

    proof fn words_len(a: Self) {
    }
}

impl FixedWidthKey for [u8; 32] {
    open spec fn width() -> nat {
        32
    }

    proof fn words_len(a: Self) {
    }
}

impl<A: FixedWidthKey, B: FixedWidthKey> FixedWidthKey for (A, B) {
    open spec fn width() -> nat {
        A::width() + B::width()
    }

    proof fn words_len(a: Self) {
        A::words_len(a.0);
        B::words_len(a.1);
    }
}

/// Nothing comes before something, and two values are ordered as they are.
impl<A: OrderedKey> OrderedKey for Option<A> {
    open spec fn words(self) -> Seq<int> {
        match self {
            None => seq![0int],
            Some(a) => seq![1int] + a.words(),
        }
    }

    proof fn words_tell(a: Self, b: Self) {
        assert(a.words()[0] == (if a is Some {
            1int
        } else {
            0int
        }));
        assert(b.words()[0] == (if b is Some {
            1int
        } else {
            0int
        }));
        if a is Some {
            assert(a.words().skip(1) =~= a->0.words());
            assert(b.words().skip(1) =~= b->0.words());
            A::words_tell(a->0, b->0);
        }
    }

    fn relate(&self, other: &Self) -> (r: Relative) {
        match (self, other) {
            (None, None) => Relative::Same,
            (None, Some(_)) => {
                assert(lex_less_at(self.words(), other.words(), 0));
                Relative::Less
            },
            (Some(_), None) => {
                assert(lex_less_at(other.words(), self.words(), 0));
                Relative::Greater
            },
            (Some(a), Some(b)) => match a.relate(b) {
                Relative::Less => {
                    proof {
                        lemma_lex_after_prefix(seq![1int], a.words(), b.words());
                    }
                    Relative::Less
                },
                Relative::Same => Relative::Same,
                Relative::Greater => {
                    proof {
                        lemma_lex_after_prefix(seq![1int], b.words(), a.words());
                    }
                    Relative::Greater
                },
            },
        }
    }
}

/// Whether two keys are equal.
pub fn same<K: OrderedKey>(a: &K, b: &K) -> (r: bool)
    ensures
        r == (*a == *b),
{
    match a.relate(b) {
        Relative::Same => true,
        Relative::Less => {
            proof {
                lemma_before_asymmetric(*a, *b);
            }
            false
        },
        Relative::Greater => {
            proof {
                lemma_before_asymmetric(*b, *a);
            }
            false
        },
    }
}

} // verus!
