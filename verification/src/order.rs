//! Strict orders on texts and integers, strictly sorted sequences, the
//! insertion that keeps a vector of texts a strictly sorted set, and the
//! ordered walk over a set of integers.
use vstd::prelude::*;
use std::collections::BTreeSet;
use vstd::std_specs::iter::IteratorSpec;

verus! {

/// `lt` is a strict total order.
pub open spec fn strict_total<T>(lt: spec_fn(T, T) -> bool) -> bool {
    &&& forall|a: T| !#[trigger] lt(a, a)
    &&& forall|a: T, b: T, c: T| #[trigger] lt(a, b) && #[trigger] lt(b, c) ==> lt(a, c)
    &&& forall|a: T, b: T| a != b ==> #[trigger] lt(a, b) || #[trigger] lt(b, a)
}

/// `s` is strictly increasing under `lt` (so it holds no element twice).
pub open spec fn sorted_by<T>(s: Seq<T>, lt: spec_fn(T, T) -> bool) -> bool {
    forall|i: int, j: int| 0 <= i < j < s.len() ==> #[trigger] lt(s[i], s[j])
}

/// The elements of `set` in increasing order, where such a sequence exists.
pub open spec fn sorted_elements<T>(set: Set<T>, lt: spec_fn(T, T) -> bool) -> Seq<T> {
    choose|s: Seq<T>| sorted_by(s, lt) && s.to_set() == set
}

/// Two strictly sorted sequences with the same elements are equal.
pub proof fn lemma_sorted_unique<T>(a: Seq<T>, b: Seq<T>, lt: spec_fn(T, T) -> bool)
    requires
        strict_total(lt),
        sorted_by(a, lt),
        sorted_by(b, lt),
        a.to_set() == b.to_set(),
    ensures
        a == b,
    decreases a.len(),
{
    if a.len() == 0 {
        if b.len() > 0 {
            assert(b.to_set().contains(b[0]));
        }
        assert(a =~= b);
    } else {
        assert(a.to_set().contains(a[0]));
        assert(b.len() > 0);
        assert(b.to_set().contains(b[0]));
        // the first elements are both the least element of the set
        let ia = choose|i: int| 0 <= i < a.len() && a[i] == b[0];
        let ib = choose|i: int| 0 <= i < b.len() && b[i] == a[0];
        if a[0] != b[0] {
            assert(ia > 0);
            assert(ib > 0);
            assert(lt(a[0], a[ia]));
            assert(lt(b[0], b[ib]));
            assert(false);
        }
        let ra = a.drop_first();
        let rb = b.drop_first();
        assert forall|x: T| ra.to_set().contains(x) <==> rb.to_set().contains(x) by {
            if ra.to_set().contains(x) {
                let i = choose|i: int| 0 <= i < ra.len() && ra[i] == x;
                assert(a[i + 1] == x);
                assert(lt(a[0], a[i + 1]));
                assert(b.to_set().contains(x));
                let j = choose|j: int| 0 <= j < b.len() && b[j] == x;
                if j == 0 {
                    assert(false);
                }
                assert(rb[j - 1] == x);
            }
            if rb.to_set().contains(x) {
                let i = choose|i: int| 0 <= i < rb.len() && rb[i] == x;
                assert(b[i + 1] == x);
                assert(lt(b[0], b[i + 1]));
                assert(a.to_set().contains(x));
                let j = choose|j: int| 0 <= j < a.len() && a[j] == x;
                if j == 0 {
                    assert(false);
                }
                assert(ra[j - 1] == x);
            }
        }
        assert(ra.to_set() =~= rb.to_set());
        assert(sorted_by(ra, lt)) by {
            assert forall|i: int, j: int| 0 <= i < j < ra.len() implies #[trigger] lt(ra[i], ra[j]) by {
                assert(lt(a[i + 1], a[j + 1]));
            }
        }
        assert(sorted_by(rb, lt)) by {
            assert forall|i: int, j: int| 0 <= i < j < rb.len() implies #[trigger] lt(rb[i], rb[j]) by {
                assert(lt(b[i + 1], b[j + 1]));
            }
        }
        lemma_sorted_unique(ra, rb, lt);
        assert(a =~= b) by {
            assert forall|i: int| 0 <= i < a.len() implies a[i] == b[i] by {
                if i > 0 {
                    assert(a[i] == ra[i - 1]);
                    assert(b[i] == rb[i - 1]);
                }
            }
        }
    }
}

/// A strictly sorted sequence is the sorted sequence of its elements.
pub proof fn lemma_sorted_is_sorted_elements<T>(s: Seq<T>, lt: spec_fn(T, T) -> bool)
    requires
        strict_total(lt),
        sorted_by(s, lt),
    ensures
        sorted_elements(s.to_set(), lt) == s,
{
    let c = sorted_elements(s.to_set(), lt);
    assert(sorted_by(c, lt) && c.to_set() == s.to_set());
    lemma_sorted_unique(c, s, lt);
}

} // verus!

verus! {

/// `a` and `b` agree on their first `k` characters.
pub open spec fn same_prefix(a: Seq<char>, b: Seq<char>, k: int) -> bool {
    0 <= k <= a.len() && k <= b.len() && forall|j: int| 0 <= j < k ==> a[j] == b[j]
}

/// Lexicographic order by code point, the order of `String`'s `Ord`
/// (UTF-8 byte order agrees with code-point order).
pub open spec fn text_lt(a: Seq<char>, b: Seq<char>) -> bool {
    exists|k: int|
        #[trigger] same_prefix(a, b, k) && ((k == a.len() && k < b.len()) || (k < a.len() && k
            < b.len() && a[k] < b[k]))
}

/// `text_lt` as a value.
pub open spec fn text_order() -> spec_fn(Seq<char>, Seq<char>) -> bool {
    |a: Seq<char>, b: Seq<char>| text_lt(a, b)
}

/// The usual order of `u64` as a value.
pub open spec fn u64_order() -> spec_fn(u64, u64) -> bool {
    |a: u64, b: u64| a < b
}

proof fn lemma_first_difference(a: Seq<char>, b: Seq<char>, i: int)
    requires
        same_prefix(a, b, i),
        a != b,
    ensures
        exists|k: int|
            #[trigger] same_prefix(a, b, k) && !(k == a.len() && k == b.len()) && (k == a.len()
                || k == b.len() || a[k] != b[k]),
    decreases a.len() - i,
{
    if i == a.len() || i == b.len() {
        if i == a.len() && i == b.len() {
            assert(a =~= b);
        }
        assert(same_prefix(a, b, i));
    } else if a[i] != b[i] {
        assert(same_prefix(a, b, i));
    } else {
        assert(same_prefix(a, b, i + 1));
        lemma_first_difference(a, b, i + 1);
    }
}

/// `text_lt` is a strict total order.
pub proof fn lemma_text_order()
    ensures
        strict_total(text_order()),
{
    let lt = text_order();
    assert forall|a: Seq<char>| !#[trigger] lt(a, a) by {
        if text_lt(a, a) {
            let k = choose|k: int|
                #[trigger] same_prefix(a, a, k) && ((k == a.len() && k < a.len()) || (k < a.len()
                    && k < a.len() && a[k] < a[k]));
        }
    }
    assert forall|a: Seq<char>, b: Seq<char>, c: Seq<char>|
        #[trigger] lt(a, b) && #[trigger] lt(b, c) implies lt(a, c) by {
        let k1 = choose|k: int|
            #[trigger] same_prefix(a, b, k) && ((k == a.len() && k < b.len()) || (k < a.len() && k
                < b.len() && a[k] < b[k]));
        let k2 = choose|k: int|
            #[trigger] same_prefix(b, c, k) && ((k == b.len() && k < c.len()) || (k < b.len() && k
                < c.len() && b[k] < c[k]));
        let k = if k1 <= k2 { k1 } else { k2 };
        assert(same_prefix(a, c, k));
    }
    assert forall|a: Seq<char>, b: Seq<char>| a != b implies #[trigger] lt(a, b) || #[trigger] lt(b, a) by {
        assert(same_prefix(a, b, 0));
        lemma_first_difference(a, b, 0);
        let k = choose|k: int|
            #[trigger] same_prefix(a, b, k) && !(k == a.len() && k == b.len()) && (k == a.len()
                || k == b.len() || a[k] != b[k]);
        assert(same_prefix(b, a, k));
        if k < a.len() && k < b.len() {
            assert(a[k] < b[k] || b[k] < a[k]);
        }
    }
}

/// `<` on `u64` is a strict total order.
pub proof fn lemma_u64_order()
    ensures
        strict_total(u64_order()),
{
}

/// Whether `a` comes before `b` in `text_lt`.
pub fn text_less(a: &[char], b: &[char]) -> (r: bool)
    ensures
        r == text_lt(a@, b@),
{
    proof { lemma_text_order(); }
    let n = if a.len() <= b.len() { a.len() } else { b.len() };
    let mut k: usize = 0;
    while k < n
        invariant
            n <= a@.len(),
            n <= b@.len(),
            n == a@.len() || n == b@.len(),
            k <= n,
            same_prefix(a@, b@, k as int),
        decreases n - k,
    {
        if a[k] != b[k] {
            let r = a[k] < b[k];
            proof {
                if !r {
                    assert(same_prefix(b@, a@, k as int));
                    assert(text_lt(b@, a@));
                    assert(text_order()(b@, a@));
                } else {
                    assert(text_lt(a@, b@));
                }
            }
            return r;
        }
        k = k + 1;
    }
    let r = a.len() < b.len();
    proof {
        if r {
            assert(text_lt(a@, b@));
        } else if a.len() == b.len() {
            assert(a@ =~= b@);
            assert(!text_order()(a@, a@));
        } else {
            assert(same_prefix(b@, a@, k as int));
            assert(text_lt(b@, a@));
            assert(text_order()(b@, a@));
        }
    }
    r
}

} // verus!

verus! {

/// The texts held by a vector of character vectors.
pub open spec fn texts(v: Seq<Vec<char>>) -> Seq<Seq<char>> {
    v.map_values(|x: Vec<char>| x@)
}

/// Inserting `x` where everything before is smaller and everything after is
/// larger keeps a sequence sorted, and adds exactly `x` to its elements.
pub proof fn lemma_insert_sorted<T>(s: Seq<T>, pos: int, x: T, lt: spec_fn(T, T) -> bool)
    requires
        strict_total(lt),
        sorted_by(s, lt),
        0 <= pos <= s.len(),
        forall|i: int| 0 <= i < pos ==> #[trigger] lt(s[i], x),
        pos == s.len() || lt(x, s[pos]),
    ensures
        sorted_by(s.insert(pos, x), lt),
        s.insert(pos, x).to_set() == s.to_set().insert(x),
{
    let r = s.insert(pos, x);
    assert forall|i: int, j: int| 0 <= i < j < r.len() implies #[trigger] lt(r[i], r[j]) by {
        if j < pos {
            assert(lt(s[i], s[j]));
        } else if j == pos {
            assert(lt(s[i], x));
        } else if i < pos {
            assert(lt(s[i], x));
            assert(lt(x, s[pos]));
            if j - 1 > pos {
                assert(lt(s[pos], s[j - 1]));
                assert(lt(x, s[j - 1]));
            }
        } else if i == pos {
            if j - 1 > pos {
                assert(lt(s[pos], s[j - 1]));
            }
        } else {
            assert(lt(s[i - 1], s[j - 1]));
        }
    }
    assert forall|y: T| r.to_set().contains(y) <==> s.to_set().insert(x).contains(y) by {
        if r.to_set().contains(y) {
            let i = choose|i: int| 0 <= i < r.len() && r[i] == y;
            if i < pos {
                assert(s[i] == y);
            } else if i > pos {
                assert(s[i - 1] == y);
            }
        }
        if s.to_set().contains(y) {
            let i = choose|i: int| 0 <= i < s.len() && s[i] == y;
            if i < pos {
                assert(r[i] == y);
            } else {
                assert(r[i + 1] == y);
            }
        }
        if y == x {
            assert(r[pos] == x);
        }
    }
    assert(r.to_set() =~= s.to_set().insert(x));
}

/// Whether two character sequences are equal.
pub fn text_equal(a: &[char], b: &[char]) -> (r: bool)
    ensures
        r == (a@ == b@),
{
    if a.len() != b.len() {
        return false;
    }
    let mut k: usize = 0;
    while k < a.len()
        invariant
            a@.len() == b@.len(),
            k <= a@.len(),
            forall|j: int| 0 <= j < k ==> a@[j] == b@[j],
        decreases a@.len() - k,
    {
        if a[k] != b[k] {
            return false;
        }
        k = k + 1;
    }
    assert(a@ =~= b@);
    true
}

/// Where `x` stands, or would stand, in a strictly sorted vector of texts.
pub fn text_position(keys: &Vec<Vec<char>>, x: &[char]) -> (r: (usize, bool))
    requires
        sorted_by(texts(keys@), text_order()),
    ensures
        r.0 <= keys@.len(),
        forall|i: int| 0 <= i < r.0 ==> #[trigger] text_lt(keys@[i]@, x@),
        r.1 ==> r.0 < keys@.len() && keys@[r.0 as int]@ == x@,
        !r.1 ==> r.0 == keys@.len() || text_lt(x@, keys@[r.0 as int]@),
        r.1 == texts(keys@).contains(x@),
{
    proof { lemma_text_order(); }
    let n = keys.len();
    let mut i: usize = 0;
    while i < n && text_less(keys[i].as_slice(), x)
        invariant
            n == keys@.len(),
            i <= n,
            forall|j: int| 0 <= j < i ==> #[trigger] text_lt(keys@[j]@, x@),
        decreases n - i,
    {
        i = i + 1;
    }
    let found = i < n && text_equal(keys[i].as_slice(), x);
    proof {
        let t = texts(keys@);
        if i < n && !found {
            assert(!text_order()(keys@[i as int]@, x@));
            assert(text_order()(x@, keys@[i as int]@));
        }
        if found {
            assert(t[i as int] == x@);
        } else if t.contains(x@) {
            let j = choose|j: int| 0 <= j < t.len() && t[j] == x@;
            if j < i {
                assert(text_lt(keys@[j]@, x@));
                assert(text_order()(x@, x@));
            } else if j == i {
            } else {
                assert(text_order()(t[i as int], t[j]));
                assert(text_order()(x@, t[i as int]));
                assert(text_order()(x@, x@));
            }
        }
    }
    (i, found)
}

/// Adds `x` to a strictly sorted vector of texts; reports whether it was new.
pub fn insert_text(set: &mut Vec<Vec<char>>, x: Vec<char>) -> (added: bool)
    requires
        sorted_by(texts(old(set)@), text_order()),
    ensures
        sorted_by(texts(final(set)@), text_order()),
        texts(final(set)@).to_set() == texts(old(set)@).to_set().insert(x@),
        added == !texts(old(set)@).contains(x@),
        final(set)@.len() == old(set)@.len() + (if added { 1int } else { 0int }),
{
    proof { lemma_text_order(); }
    let (pos, found) = text_position(set, x.as_slice());
    if found {
        proof {
            assert(texts(set@).to_set().insert(x@) =~= texts(set@).to_set()) by {
                assert(texts(set@)[pos as int] == x@);
            }
        }
        return false;
    }
    let ghost before = set@;
    let ghost xv = x@;
    set.insert(pos, x);
    proof {
        assert(texts(set@) =~= texts(before).insert(pos as int, xv));
        assert forall|i: int| 0 <= i < pos implies #[trigger] text_order()(texts(before)[i], xv) by {
            assert(text_lt(before[i]@, xv));
        }
        lemma_insert_sorted(texts(before), pos as int, xv, text_order());
    }
    true
}

/// `u64` keys of a `BTreeSet` are ordered as integers are.
proof fn lemma_u64_keys_ordered()
    ensures
        vstd::std_specs::btree::key_obeys_cmp_spec::<u64>(),
{
    assert(vstd::laws_cmp::obeys_cmp::<u64>());
}

/// A walk over a `BTreeSet<u64>` that `std` documents as increasing gives
/// strictly increasing integers.
proof fn lemma_increasing_keys(s: Seq<&u64>)
    requires
        vstd::std_specs::btree::increasing_seq(s),
    ensures
        forall|i: int, j: int| 0 <= i < j < s.len() ==> *s[i] < *s[j],
{
    assert(vstd::laws_cmp::obeys_cmp::<u64>());
    assert(vstd::laws_cmp::obeys_cmp::<&u64>());
    assert forall|i: int, j: int| 0 <= i < j < s.len() implies *s[i] < *s[j] by {
        assert(vstd::std_specs::cmp::OrdSpec::cmp_spec(&s[i], &s[j]) is Less);
    }
}

/// The ids of a set, in increasing order.
pub fn ids_in_order(ids: &BTreeSet<u64>) -> (r: Vec<u64>)
    ensures
        r@ == sorted_elements(ids@, u64_order()),
{
    proof { lemma_u64_keys_ordered(); }
    let mut r: Vec<u64> = Vec::new();
    let ghost s = ids.iter().remaining();
    assert(s.unref().to_set() == ids@);
    for x in it: ids.iter()
        invariant
            it.seq() == s,
            r@.len() == it.index(),
            forall|k: int| 0 <= k < r@.len() ==> r@[k] == *s[k],
    {
        r.push(*x);
    }
    assert(r@.len() == s.len());
    proof { lemma_increasing_keys(s); }
    proof {
        assert(r@ =~= s.unref());
        lemma_u64_order();
        assert(sorted_by(r@, u64_order()));
        lemma_sorted_is_sorted_elements(r@, u64_order());
    }
    r
}

} // verus!

verus! {

/// `text_lt` is a strict total order (as a predicate, for invariants).
pub open spec fn strict_total_text() -> bool {
    strict_total(text_order())
}

} // verus!

verus! {

proof fn position_in<T>(w: Seq<T>, x: T, i: int, lt: spec_fn(T, T) -> bool) -> (pos: int)
    requires
        strict_total(lt),
        sorted_by(w, lt),
        !w.contains(x),
        0 <= i <= w.len(),
        forall|k: int| 0 <= k < i ==> #[trigger] lt(w[k], x),
    ensures
        0 <= pos <= w.len(),
        forall|k: int| 0 <= k < pos ==> #[trigger] lt(w[k], x),
        pos == w.len() || lt(x, w[pos]),
    decreases w.len() - i,
{
    if i == w.len() {
        i
    } else if lt(w[i], x) {
        position_in(w, x, i + 1, lt)
    } else {
        assert(w[i] != x);
        i
    }
}

proof fn sorted_witness<T>(set: Set<T>, lt: spec_fn(T, T) -> bool) -> (w: Seq<T>)
    requires
        strict_total(lt),
        set.finite(),
    ensures
        sorted_by(w, lt),
        w.to_set() == set,
    decreases set.len(),
{
    if set.len() == 0 {
        set.lemma_len0_is_empty();
        let w = Seq::<T>::empty();
        assert(w.to_set() =~= set);
        w
    } else {
        let x = set.choose();
        assert(set.contains(x));
        let rest = set.remove(x);
        let w0 = sorted_witness(rest, lt);
        assert(!w0.contains(x)) by {
            if w0.contains(x) {
                assert(w0.to_set().contains(x));
            }
        }
        let pos = position_in(w0, x, 0, lt);
        lemma_insert_sorted(w0, pos, x, lt);
        assert(w0.to_set().insert(x) =~= set);
        w0.insert(pos, x)
    }
}

/// Every finite set has its increasing sequence of elements.
pub proof fn lemma_sorted_elements<T>(set: Set<T>, lt: spec_fn(T, T) -> bool)
    requires
        strict_total(lt),
        set.finite(),
    ensures
        sorted_by(sorted_elements(set, lt), lt),
        sorted_elements(set, lt).to_set() == set,
{
    let w = sorted_witness(set, lt);
    assert(sorted_by(w, lt) && w.to_set() == set);
}

} // verus!

verus! {

/// The first `n` elements of `s` (all of them when there are fewer).
pub open spec fn first_n<T>(s: Seq<T>, n: nat) -> Seq<T> {
    if s.len() <= n {
        s
    } else {
        s.take(n as int)
    }
}

/// The last `n` elements of `s` (all of them when there are fewer).
pub open spec fn last_n<T>(s: Seq<T>, n: nat) -> Seq<T> {
    if s.len() > n {
        s.skip(s.len() - n)
    } else {
        s
    }
}

} // verus!
