//! The order of names, and sets of names kept in that order.
use crate::text::{lemma_encoding_injective, same};
use vstd::prelude::*;
use vstd::utf8::encode_utf8;

verus! {

/// Byte strings in dictionary order: the first byte that differs decides, and a
/// proper prefix comes first.
pub open spec fn bytes_before(a: Seq<u8>, b: Seq<u8>) -> bool
    decreases a.len(),
{
    if b.len() == 0 {
        false
    } else if a.len() == 0 {
        true
    } else if a[0] != b[0] {
        a[0] < b[0]
    } else {
        bytes_before(a.drop_first(), b.drop_first())
    }
}

/// The order of names: that of their UTF-8 bytes.
pub open spec fn before(a: Seq<char>, b: Seq<char>) -> bool {
    bytes_before(encode_utf8(a), encode_utf8(b))
}

proof fn lemma_bytes_irreflexive(a: Seq<u8>)
    ensures
        !bytes_before(a, a),
    decreases a.len(),
{
    if a.len() > 0 {
        lemma_bytes_irreflexive(a.drop_first());
    }
}

proof fn lemma_bytes_transitive(a: Seq<u8>, b: Seq<u8>, c: Seq<u8>)
    requires
        bytes_before(a, b),
        bytes_before(b, c),
    ensures
        bytes_before(a, c),
    decreases a.len(),
{
    if a.len() > 0 && b.len() > 0 && c.len() > 0 && a[0] == b[0] && b[0] == c[0] {
        lemma_bytes_transitive(a.drop_first(), b.drop_first(), c.drop_first());
    }
}

proof fn lemma_bytes_total(a: Seq<u8>, b: Seq<u8>)
    ensures
        a == b || bytes_before(a, b) || bytes_before(b, a),
    decreases a.len(),
{
    if a.len() > 0 && b.len() > 0 && a[0] == b[0] {
        lemma_bytes_total(a.drop_first(), b.drop_first());
        if a.drop_first() == b.drop_first() {
            assert(a == seq![a[0]] + a.drop_first());
            assert(b == seq![b[0]] + b.drop_first());
        }
    } else if a.len() == 0 && b.len() == 0 {
        assert(a == b);
    }
}

/// No name comes before itself.
pub proof fn lemma_before_irreflexive(a: Seq<char>)
    ensures
        !before(a, a),
{
    lemma_bytes_irreflexive(encode_utf8(a));
}

/// The order of names is transitive.
pub proof fn lemma_before_transitive(a: Seq<char>, b: Seq<char>, c: Seq<char>)
    requires
        before(a, b),
        before(b, c),
    ensures
        before(a, c),
{
    lemma_bytes_transitive(encode_utf8(a), encode_utf8(b), encode_utf8(c));
}

/// Of two different names one comes before the other.
pub proof fn lemma_before_total(a: Seq<char>, b: Seq<char>)
    ensures
        a == b || before(a, b) || before(b, a),
{
    lemma_bytes_total(encode_utf8(a), encode_utf8(b));
    lemma_encoding_injective(a, b);
}

/// Two names do not come before each other both ways.
pub proof fn lemma_before_asymmetric(a: Seq<char>, b: Seq<char>)
    ensures
        !(before(a, b) && before(b, a)),
{
    if before(a, b) && before(b, a) {
        lemma_before_transitive(a, b, a);
        lemma_before_irreflexive(a);
    }
}

/// Tests whether `a` comes before `b`.
pub fn precedes(a: &str, b: &str) -> (r: bool)
    ensures
        r == before(a@, b@),
{
    let x = a.as_bytes();
    let y = b.as_bytes();
    let mut i: usize = 0;
    assert(x@.skip(0) == x@);
    assert(y@.skip(0) == y@);
    while i < x.len() && i < y.len()
        invariant
            x@ == encode_utf8(a@),
            y@ == encode_utf8(b@),
            i <= x@.len(),
            i <= y@.len(),
            bytes_before(x@.skip(i as int), y@.skip(i as int)) == before(a@, b@),
        decreases x@.len() - i,
    {
        if x[i] != y[i] {
            return x[i] < y[i];
        }
        assert(x@.skip(i as int).drop_first() == x@.skip(i + 1));
        assert(y@.skip(i as int).drop_first() == y@.skip(i + 1));
        i = i + 1;
    }
    i < y.len()
}

/// The texts held by a sequence of strings.
pub open spec fn texts(names: Seq<String>) -> Seq<Seq<char>> {
    names.map_values(|name: String| name@)
}

/// Every name comes before all that follow it; so none occurs twice.
pub open spec fn ascending(names: Seq<Seq<char>>) -> bool {
    forall|i: int, j: int| 0 <= i < j < names.len() ==> before(#[trigger] names[i], #[trigger] names[j])
}

/// The names of a set, listed in order.
pub open spec fn in_order(names: Set<Seq<char>>) -> Seq<Seq<char>> {
    choose|listing: Seq<Seq<char>>| ascending(listing) && listing.to_set() == names
}

/// A set of names has one ascending listing only.
pub proof fn lemma_listing_unique(a: Seq<Seq<char>>, b: Seq<Seq<char>>)
    requires
        ascending(a),
        ascending(b),
        a.to_set() == b.to_set(),
    ensures
        a == b,
    decreases a.len(),
{
    if a.len() == 0 {
        if b.len() > 0 {
            assert(b.to_set().contains(b[0]));
            assert(a.contains(b[0]));
        }
        assert(a == b);
    } else {
        assert(a.to_set().contains(a.last()));
        assert(b.contains(a.last()));
        assert(b.to_set().contains(b.last()));
        assert(a.contains(b.last()));
        let i = choose|i: int| 0 <= i < a.len() && a[i] == b.last();
        let j = choose|j: int| 0 <= j < b.len() && b[j] == a.last();
        if i < a.len() - 1 {
            assert(before(a[i], a[a.len() - 1]));
            if j < b.len() - 1 {
                assert(before(b[j], b[b.len() - 1]));
            }
            lemma_before_asymmetric(a.last(), b.last());
            lemma_before_irreflexive(a.last());
        }
        assert(a.last() == b.last());
        let x = a.drop_last();
        let y = b.drop_last();
        assert forall|n: Seq<char>| x.to_set().contains(n) implies y.to_set().contains(n) by {
            let k = choose|k: int| 0 <= k < x.len() && x[k] == n;
            assert(a[k] == n);
            assert(a.to_set().contains(n));
            assert(b.contains(n));
            let m = choose|m: int| 0 <= m < b.len() && b[m] == n;
            assert(before(a[k], a[a.len() - 1]));
            lemma_before_irreflexive(n);
            assert(y[m] == n);
        }
        assert forall|n: Seq<char>| y.to_set().contains(n) implies x.to_set().contains(n) by {
            let k = choose|k: int| 0 <= k < y.len() && y[k] == n;
            assert(b[k] == n);
            assert(b.to_set().contains(n));
            assert(a.contains(n));
            let m = choose|m: int| 0 <= m < a.len() && a[m] == n;
            assert(before(b[k], b[b.len() - 1]));
            lemma_before_irreflexive(n);
            assert(x[m] == n);
        }
        assert(x.to_set() =~= y.to_set());
        lemma_listing_unique(x, y);
        assert(a == x.push(a.last()));
        assert(b == y.push(b.last()));
    }
}

/// An ascending listing is the listing of its set.
pub proof fn lemma_in_order(listing: Seq<Seq<char>>)
    requires
        ascending(listing),
    ensures
        in_order(listing.to_set()) == listing,
{
    let names = listing.to_set();
    assert(ascending(listing) && listing.to_set() == names);
    lemma_listing_unique(in_order(names), listing);
}

/// A finite set of names has an ascending listing.
pub proof fn lemma_listing_exists(names: Set<Seq<char>>)
    requires
        names.finite(),
    ensures
        ascending(in_order(names)),
        in_order(names).to_set() == names,
    decreases names.len(),
{
    if names.len() == 0 {
        let none = Seq::<Seq<char>>::empty();
        assert(names =~= Set::empty());
        assert(none.to_set() =~= names);
        assert(ascending(none) && none.to_set() == names);
    } else {
        let a = names.choose();
        let rest = names.remove(a);
        lemma_listing_exists(rest);
        let listing = put_name(in_order(rest), a);
        lemma_put_name(in_order(rest), a);
        assert(listing.to_set() =~= names);
        assert(ascending(listing) && listing.to_set() == names);
    }
}

/// `names` with `a` put in its place.
spec fn put_name(names: Seq<Seq<char>>, a: Seq<char>) -> Seq<Seq<char>>
    decreases names.len(),
{
    if names.len() > 0 && before(a, names.last()) {
        put_name(names.drop_last(), a).push(names.last())
    } else {
        names.push(a)
    }
}

proof fn lemma_put_name(names: Seq<Seq<char>>, a: Seq<char>)
    requires
        ascending(names),
        !names.to_set().contains(a),
    ensures
        ascending(put_name(names, a)),
        put_name(names, a).to_set() == names.to_set().insert(a),
    decreases names.len(),
{
    let out = put_name(names, a);
    if names.len() > 0 && before(a, names.last()) {
        let rest = names.drop_last();
        let last = names.last();
        assert(names == rest.push(last));
        lemma_push_to_set(rest, last);
        lemma_put_name(rest, a);
        let inner = put_name(rest, a);
        lemma_push_to_set(inner, last);
        assert(out.to_set() =~= names.to_set().insert(a));
        assert forall|i: int, j: int| 0 <= i < j < out.len() implies before(#[trigger] out[i], #[trigger] out[j]) by {
            assert(out[i] == inner[i]);
            if j < inner.len() {
                assert(out[j] == inner[j]);
            } else {
                assert(inner.to_set().contains(inner[i]));
                if inner[i] != a {
                    assert(rest.contains(inner[i]));
                    let k = choose|k: int| 0 <= k < rest.len() && rest[k] == inner[i];
                    assert(before(names[k], names[names.len() - 1]));
                }
            }
        }
    } else {
        lemma_push_to_set(names, a);
        assert forall|i: int, j: int| 0 <= i < j < out.len() implies before(#[trigger] out[i], #[trigger] out[j]) by {
            assert(out[i] == names[i]);
            if j < names.len() {
                assert(out[j] == names[j]);
            } else {
                assert(names.contains(names.last()));
                lemma_before_total(a, names.last());
                if i < names.len() - 1 {
                    assert(before(names[i], names[names.len() - 1]));
                    lemma_before_transitive(names[i], names.last(), a);
                }
            }
        }
    }
}

/// A set of names. They are kept in order and none is kept twice.
pub struct NameSet {
    names: Vec<String>,
}

impl View for NameSet {
    type V = Set<Seq<char>>;

    closed spec fn view(&self) -> Set<Seq<char>> {
        texts(self.names@).to_set()
    }
}

impl NameSet {
    #[verifier::type_invariant]
    closed spec fn kept_in_order(self) -> bool {
        ascending(texts(self.names@))
    }

    /// The empty set.
    pub fn new() -> (r: NameSet)
        ensures
            r@ == Set::<Seq<char>>::empty(),
    {
        let names: Vec<String> = Vec::new();
        assert(texts(names@).to_set() =~= Set::<Seq<char>>::empty());
        NameSet { names }
    }

    /// The index of the first kept name that does not come before `name`.
    fn position(names: &Vec<String>, name: &str) -> (at: usize)
        requires
            ascending(texts(names@)),
        ensures
            at <= names@.len(),
            forall|j: int| 0 <= j < at ==> before(#[trigger] texts(names@)[j], name@),
            forall|j: int| at <= j < names@.len() ==> !before(#[trigger] texts(names@)[j], name@),
    {
        let ghost listing = texts(names@);
        let mut low: usize = 0;
        let mut high: usize = names.len();
        while low < high
            invariant
                listing == texts(names@),
                ascending(listing),
                low <= high <= names@.len(),
                forall|j: int| 0 <= j < low ==> before(#[trigger] listing[j], name@),
                forall|j: int| high <= j < names@.len() ==> !before(#[trigger] listing[j], name@),
            decreases high - low,
        {
            let mid: usize = low + (high - low) / 2;
            assert(listing[mid as int] == names@[mid as int]@);
            if precedes(names[mid].as_str(), name) {
                assert forall|j: int| 0 <= j < mid + 1 implies before(#[trigger] listing[j], name@) by {
                    if j < mid {
                        assert(before(listing[j], listing[mid as int]));
                        lemma_before_transitive(listing[j], listing[mid as int], name@);
                    }
                }
                low = mid + 1;
            } else {
                assert forall|j: int| mid <= j < names@.len() implies !before(#[trigger] listing[j], name@) by {
                    if j > mid && before(listing[j], name@) {
                        assert(before(listing[mid as int], listing[j]));
                        lemma_before_transitive(listing[mid as int], listing[j], name@);
                    }
                }
                high = mid;
            }
        }
        low
    }

    /// Whether `name` is at `at`, the place found for it.
    fn stands_at(names: &Vec<String>, name: &str, at: usize) -> (r: bool)
        requires
            ascending(texts(names@)),
            at <= names@.len(),
            forall|j: int| 0 <= j < at ==> before(#[trigger] texts(names@)[j], name@),
            forall|j: int| at <= j < names@.len() ==> !before(#[trigger] texts(names@)[j], name@),
        ensures
            r == texts(names@).to_set().contains(name@),
            r ==> at < names@.len() && texts(names@)[at as int] == name@,
    {
        let ghost listing = texts(names@);
        let r = at < names.len() && same(names[at].as_str(), name);
        proof {
            if r {
                assert(listing[at as int] == name@);
                assert(listing.contains(name@));
            } else if listing.contains(name@) {
                let k = choose|k: int| 0 <= k < listing.len() && listing[k] == name@;
                lemma_before_irreflexive(name@);
                assert(k >= at);
                assert(k > at);
                assert(before(listing[at as int], listing[k]));
            }
        }
        r
    }

    /// Tests whether `name` is in the set.
    pub fn contains(&self, name: &str) -> (r: bool)
        ensures
            r == self@.contains(name@),
    {
        proof {
            use_type_invariant(self);
        }
        let at = Self::position(&self.names, name);
        Self::stands_at(&self.names, name, at)
    }

    /// Tests whether the set holds nothing.
    pub fn is_empty(&self) -> (r: bool)
        ensures
            r == (self@ == Set::<Seq<char>>::empty()),
    {
        let ghost listing = texts(self.names@);
        let r = self.names.len() == 0;
        proof {
            if r {
                assert(self@ =~= Set::<Seq<char>>::empty());
            } else {
                assert(listing.contains(listing[0]));
                assert(self@.contains(listing[0]));
            }
        }
        r
    }

    /// The number of names in the set.
    pub fn len(&self) -> (n: usize)
        ensures
            n == self@.len(),
            self@.finite(),
    {
        proof {
            use_type_invariant(self);
            let listing = texts(self.names@);
            assert(listing.no_duplicates()) by {
                assert forall|i: int, j: int| 0 <= i < listing.len() && 0 <= j < listing.len() && i != j
                    implies listing[i] != listing[j] by {
                    lemma_before_irreflexive(listing[i]);
                    if i < j {
                        assert(before(listing[i], listing[j]));
                    } else {
                        assert(before(listing[j], listing[i]));
                    }
                }
            }
            listing.unique_seq_to_set();
            vstd::seq_lib::seq_to_set_is_finite(listing);
        }
        self.names.len()
    }

    /// Adds `name`, and tells whether it was new.
    pub fn insert(&mut self, name: String) -> (added: bool)
        ensures
            final(self)@ == old(self)@.insert(name@),
            added == !old(self)@.contains(name@),
    {
        proof {
            use_type_invariant(&*self);
        }
        let mut names: Vec<String> = Vec::new();
        std::mem::swap(&mut names, &mut self.names);
        let at = Self::position(&names, name.as_str());
        let ghost listing = texts(names@);
        let found = Self::stands_at(&names, name.as_str(), at);
        let ghost text = name@;
        if !found {
            proof {
                assert forall|j: int| at <= j < listing.len() implies before(text, #[trigger] listing[j]) by {
                    lemma_before_total(text, listing[j]);
                    if listing[j] == text {
                        assert(listing.contains(text));
                    }
                }
            }
            names.insert(at, name);
            assert(texts(names@) == listing.insert(at as int, text));
            assert(ascending(texts(names@)));
            proof {
                let grown = texts(names@);
                assert forall|n: Seq<char>| grown.to_set().contains(n) == listing.to_set().insert(text).contains(n) by {
                    if grown.contains(n) {
                        let k = choose|k: int| 0 <= k < grown.len() && grown[k] == n;
                        if k < at {
                            assert(listing[k] == n);
                        } else if k > at {
                            assert(listing[k - 1] == n);
                        }
                    }
                    if listing.contains(n) {
                        let k = choose|k: int| 0 <= k < listing.len() && listing[k] == n;
                        if k < at {
                            assert(grown[k] == n);
                        } else {
                            assert(grown[k + 1] == n);
                        }
                    }
                    assert(grown[at as int] == text);
                }
                assert(grown.to_set() =~= listing.to_set().insert(text));
            }
        } else {
            assert(listing.to_set().insert(text) =~= listing.to_set());
        }
        self.names = names;
        !found
    }

    /// Takes `name` out, and tells whether it was there.
    pub fn remove(&mut self, name: &str) -> (removed: bool)
        ensures
            final(self)@ == old(self)@.remove(name@),
            removed == old(self)@.contains(name@),
    {
        proof {
            use_type_invariant(&*self);
        }
        let mut names: Vec<String> = Vec::new();
        std::mem::swap(&mut names, &mut self.names);
        let at = Self::position(&names, name);
        let ghost listing = texts(names@);
        let found = Self::stands_at(&names, name, at);
        if found {
            let _ = names.remove(at);
            assert(texts(names@) == listing.remove(at as int));
            proof {
                let rest = texts(names@);
                assert forall|n: Seq<char>| rest.to_set().contains(n) == listing.to_set().remove(name@).contains(n) by {
                    if rest.contains(n) {
                        let k = choose|k: int| 0 <= k < rest.len() && rest[k] == n;
                        lemma_before_irreflexive(n);
                        if k < at {
                            assert(listing[k] == n);
                            assert(before(listing[k], listing[at as int]));
                        } else {
                            assert(listing[k + 1] == n);
                            assert(before(listing[at as int], listing[k + 1]));
                        }
                    }
                    if listing.contains(n) && n != name@ {
                        let k = choose|k: int| 0 <= k < listing.len() && listing[k] == n;
                        if k < at {
                            assert(rest[k] == n);
                        } else {
                            assert(rest[k - 1] == n);
                        }
                    }
                }
                assert(rest.to_set() =~= listing.to_set().remove(name@));
            }
        } else {
            assert(listing.to_set().remove(name@) =~= listing.to_set());
        }
        self.names = names;
        found
    }

    /// The names of the set, in order.
    pub fn to_vec(&self) -> (r: Vec<String>)
        ensures
            texts(r@) == in_order(self@),
            ascending(texts(r@)),
            texts(r@).to_set() == self@,
    {
        proof {
            use_type_invariant(self);
            lemma_in_order(texts(self.names@));
        }
        let r = copy_names(&self.names);
        r
    }

    /// The set of the names in `names`.
    pub fn from_vec(names: &Vec<String>) -> (r: NameSet)
        ensures
            r@ == texts(names@).to_set(),
    {
        let mut r = NameSet::new();
        let mut i: usize = 0;
        assert(texts(names@).take(0).to_set() =~= Set::<Seq<char>>::empty());
        while i < names.len()
            invariant
                i <= names@.len(),
                r@ == texts(names@).take(i as int).to_set(),
            decreases names@.len() - i,
        {
            let ghost listing = texts(names@);
            let _ = r.insert(names[i].clone());
            assert(listing.take(i + 1) == listing.take(i as int).push(listing[i as int]));
            proof {
                lemma_push_to_set(listing.take(i as int), listing[i as int]);
            }
            i = i + 1;
        }
        assert(texts(names@).take(i as int) == texts(names@));
        r
    }
}

/// Appending one item adds it to the set of items.
pub proof fn lemma_push_to_set<A>(s: Seq<A>, a: A)
    ensures
        s.push(a).to_set() == s.to_set().insert(a),
{
    assert forall|x: A| s.push(a).to_set().contains(x) == s.to_set().insert(a).contains(x) by {
        if s.contains(x) {
            let k = choose|k: int| 0 <= k < s.len() && s[k] == x;
            assert(s.push(a)[k] == x);
        }
        assert(s.push(a)[s.len() as int] == a);
        if s.push(a).contains(x) && x != a {
            let k = choose|k: int| 0 <= k < s.push(a).len() && s.push(a)[k] == x;
            assert(s[k] == x);
        }
    }
    assert(s.push(a).to_set() =~= s.to_set().insert(a));
}

/// A copy of a list of names.
pub fn copy_names(names: &Vec<String>) -> (r: Vec<String>)
    ensures
        r@ == names@,
{
    let mut r: Vec<String> = Vec::new();
    let mut i: usize = 0;
    while i < names.len()
        invariant
            i <= names@.len(),
            r@ == names@.take(i as int),
        decreases names@.len() - i,
    {
        r.push(names[i].clone());
        i = i + 1;
        assert(names@.take(i as int) == names@.take(i - 1).push(names@[i - 1]));
    }
    assert(names@.take(i as int) == names@);
    r
}

/// Byte strings stand in dictionary order: up to some place they agree, and there the
/// first one ends or has the smaller byte.
pub proof fn law_first_difference_decides(a: Seq<u8>, b: Seq<u8>)
    ensures
        bytes_before(a, b) <==> exists|k: int|
            {
                &&& 0 <= k <= a.len() && k < b.len()
                &&& #[trigger] a.take(k) == b.take(k)
                &&& k == a.len() || a[k] < b[k]
            },
    decreases a.len(),
{
    let p = |x: Seq<u8>, y: Seq<u8>, k: int|
        0 <= k <= x.len() && k < y.len() && x.take(k) == y.take(k) && (k == x.len() || x[k] < y[k]);
    if b.len() > 0 && (a.len() == 0 || a[0] < b[0]) {
        assert(a.take(0) == b.take(0));
        assert(p(a, b, 0));
    } else if a.len() > 0 && b.len() > 0 && a[0] == b[0] {
        let x = a.drop_first();
        let y = b.drop_first();
        law_first_difference_decides(x, y);
        if bytes_before(a, b) {
            let k = choose|k: int|
                {
                    &&& 0 <= k <= x.len() && k < y.len()
                    &&& #[trigger] x.take(k) == y.take(k)
                    &&& k == x.len() || x[k] < y[k]
                };
            assert(a.take(k + 1) =~= seq![a[0]] + x.take(k));
            assert(b.take(k + 1) =~= seq![b[0]] + y.take(k));
            assert(a.take(k + 1) == b.take(k + 1));
        }
        if exists|k: int|
            {
                &&& 0 <= k <= a.len() && k < b.len()
                &&& #[trigger] a.take(k) == b.take(k)
                &&& k == a.len() || a[k] < b[k]
            } {
            let k = choose|k: int|
                {
                    &&& 0 <= k <= a.len() && k < b.len()
                    &&& #[trigger] a.take(k) == b.take(k)
                    &&& k == a.len() || a[k] < b[k]
                };
            assert(k > 0);
            assert(x.take(k - 1) =~= a.take(k).drop_first());
            assert(y.take(k - 1) =~= b.take(k).drop_first());
            assert(x.take(k - 1) == y.take(k - 1));
        }
    } else if a.len() > 0 && b.len() > 0 {
        assert forall|k: int| 0 <= k <= a.len() && k < b.len() && #[trigger] a.take(k) == b.take(k) implies !(k
            == a.len() || a[k] < b[k]) by {
            if k > 0 {
                assert(a.take(k)[0] == b.take(k)[0]);
            }
        }
    }
}

/// The listing of a set holds every name of it and no other, and each comes before all
/// that follow, in the order of their UTF-8 bytes.
pub proof fn law_listing_is_complete_and_ordered(names: Set<Seq<char>>)
    requires
        names.finite(),
    ensures
        forall|name: Seq<char>| #[trigger] in_order(names).contains(name) <==> names.contains(name),
        forall|i: int, j: int|
            0 <= i < j < in_order(names).len() ==> bytes_before(
                encode_utf8(#[trigger] in_order(names)[i]),
                encode_utf8(#[trigger] in_order(names)[j]),
            ),
{
    lemma_listing_exists(names);
    let listing = in_order(names);
    assert forall|name: Seq<char>| #[trigger] listing.contains(name) <==> names.contains(name) by {
        assert(listing.to_set().contains(name) <==> listing.contains(name));
    }
    assert forall|i: int, j: int| 0 <= i < j < listing.len() implies bytes_before(
        encode_utf8(#[trigger] listing[i]),
        encode_utf8(#[trigger] listing[j]),
    ) by {
        assert(before(listing[i], listing[j]));
    }
}

} // verus!
