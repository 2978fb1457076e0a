//! Putting things in order.

use vstd::prelude::*;

verus! {

/// A type whose values come in an order that goes by their view: of any two,
/// one is earlier or both have the same rank.
pub trait Ranked: View + Sized {
    /// Whether `a` may stand before `b`.
    spec fn leads(a: Self::V, b: Self::V) -> bool;

    /// Of two values one may stand before the other.
    proof fn total(a: Self::V, b: Self::V)
        ensures
            Self::leads(a, b) || Self::leads(b, a),
    ;

    /// What may stand before something may stand before what follows it.
    proof fn transitive(a: Self::V, b: Self::V, c: Self::V)
        requires
            Self::leads(a, b),
            Self::leads(b, c),
        ensures
            Self::leads(a, c),
    ;

    /// Whether `self` may stand before `other`.
    fn may_lead(&self, other: &Self) -> (r: bool)
        ensures
            r == Self::leads(self@, other@),
    ;
}

/// The views of some values.
pub open spec fn views<T: View>(s: Seq<T>) -> Seq<T::V> {
    s.map_values(|x: T| x@)
}

/// Whether two values have the same rank.
pub open spec fn ties<T: Ranked>(a: T::V, b: T::V) -> bool {
    T::leads(a, b) && T::leads(b, a)
}

/// The values in `s` of the same rank as `x`, in the order in which they stand.
pub open spec fn tied<T: Ranked>(s: Seq<T::V>, x: T::V) -> Seq<T::V> {
    s.filter(|y: T::V| ties::<T>(x, y))
}

/// Whether every value may stand before those that follow it.
pub open spec fn in_order<T: Ranked>(s: Seq<T::V>) -> bool {
    forall|i: int, j: int| 0 <= i <= j < s.len() ==> T::leads(#[trigger] s[i], #[trigger] s[j])
}

/// Whether `r` is `s` put in order, with values of the same rank left in the
/// order in which they stood.
pub open spec fn ordered_form<T: Ranked>(r: Seq<T::V>, s: Seq<T::V>) -> bool {
    &&& in_order::<T>(r)
    &&& forall|x: T::V| #[trigger] tied::<T>(r, x) == tied::<T>(s, x)
}

proof fn lemma_tied_insert<T: Ranked>(s: Seq<T::V>, p: int, v: T::V, x: T::V)
    requires
        in_order::<T>(s),
        0 <= p <= s.len(),
        forall|j: int| 0 <= j < p ==> !T::leads(v, #[trigger] s[j]),
    ensures
        tied::<T>(s.insert(p, v), x) == tied::<T>(seq![v] + s, x),
{
    let f = |y: T::V| ties::<T>(x, y);
    let head = s.take(p);
    let tail = s.skip(p);
    assert(s =~= head + tail);
    assert(s.insert(p, v) =~= (head + seq![v]) + tail);
    Seq::filter_distributes_over_add(head + seq![v], tail, f);
    Seq::filter_distributes_over_add(head, seq![v], f);
    Seq::filter_distributes_over_add(head, tail, f);
    Seq::filter_distributes_over_add(seq![v], s, f);
    if f(v) {
        assert forall|i: int| 0 <= i < head.len() implies !f(head[i]) by {
            if f(s[i]) {
                T::transitive(v, x, s[i]);
            }
        }
        head.lemma_all_neg_filter_empty(f);
        assert(s.insert(p, v).filter(f) =~= (seq![v] + s).filter(f));
    } else {
        reveal_with_fuel(Seq::filter, 2);
        assert(seq![v].filter(f) =~= Seq::<T::V>::empty()) by {
            assert(seq![v].drop_last() =~= Seq::<T::V>::empty());
        }
        assert(s.insert(p, v).filter(f) =~= (seq![v] + s).filter(f));
    }
}

/// A value goes in before the first that it may lead.
proof fn lemma_insert_in_order<T: Ranked>(s: Seq<T::V>, p: int, v: T::V)
    requires
        in_order::<T>(s),
        0 <= p <= s.len(),
        forall|j: int| 0 <= j < p ==> !T::leads(v, #[trigger] s[j]),
        p < s.len() ==> T::leads(v, s[p]),
    ensures
        in_order::<T>(s.insert(p, v)),
{
    let out = s.insert(p, v);
    assert forall|i: int, j: int| 0 <= i <= j < out.len() implies T::leads(
        #[trigger] out[i],
        #[trigger] out[j],
    ) by {
        T::total(v, v);
        if i < p {
            T::total(v, s[i]);
            if j > p {
                assert(out[j] == s[j - 1]);
            }
        } else if i == p {
            if j > p {
                assert(out[j] == s[j - 1]);
                assert(T::leads(s[p], s[j - 1]));
                T::transitive(v, s[p], s[j - 1]);
            }
        } else {
            assert(out[i] == s[i - 1]);
            assert(out[j] == s[j - 1]);
        }
    }
}

/// Puts values in order; values of the same rank keep their order.
pub fn sort<T: Ranked>(items: Vec<T>) -> (r: Vec<T>)
    ensures
        ordered_form::<T>(views(r@), views(items@)),
{
    let ghost all = views(items@);
    let mut rest = items;
    let mut out: Vec<T> = Vec::new();
    proof {
        assert(all.skip(all.len() as int) =~= views(out@));
        assert(views(rest@) =~= all.take(rest@.len() as int));
    }
    while rest.len() > 0
        invariant
            rest@.len() <= all.len(),
            views(rest@) == all.take(rest@.len() as int),
            in_order::<T>(views(out@)),
            forall|x: T::V| #[trigger]
                tied::<T>(views(out@), x) == tied::<T>(all.skip(rest@.len() as int), x),
        decreases rest@.len(),
    {
        let ghost was = views(out@);
        let ghost before = rest@;
        let ghost n = rest@.len();
        match rest.pop() {
            None => {},
            Some(item) => {
                let mut p: usize = 0;
                while p < out.len() && !item.may_lead(&out[p])
                    invariant
                        p <= out@.len(),
                        was == views(out@),
                        forall|j: int| 0 <= j < p ==> !T::leads(item@, #[trigger] was[j]),
                    decreases out@.len() - p,
                {
                    p = p + 1;
                }
                let ghost v = item@;
                out.insert(p, item);
                proof {
                    assert(views(before)[n - 1] == v);
                    assert(views(rest@) =~= all.take(n - 1));
                    assert(v == all[n - 1]);
                    assert(views(out@) =~= was.insert(p as int, v));
                    lemma_insert_in_order::<T>(was, p as int, v);
                    assert(all.skip(n - 1) =~= seq![v] + all.skip(n as int));
                    assert forall|x: T::V| #[trigger]
                        tied::<T>(views(out@), x) == tied::<T>(all.skip(n - 1), x) by {
                        lemma_tied_insert::<T>(was, p as int, v, x);
                        let f = |y: T::V| ties::<T>(x, y);
                        Seq::filter_distributes_over_add(seq![v], was, f);
                        Seq::filter_distributes_over_add(seq![v], all.skip(n as int), f);
                        assert(tied::<T>(was, x) == tied::<T>(all.skip(n as int), x));
                    }
                }
            },
        }
    }
    proof {
        assert(all.skip(0) =~= all);
    }
    out
}

/// There is only one way to put values in order: two sequences in order that
/// agree on the values of each rank are the same.
pub proof fn order_is_unique<T: Ranked>(a: Seq<T::V>, b: Seq<T::V>)
    requires
        in_order::<T>(a),
        in_order::<T>(b),
        forall|x: T::V| #[trigger] tied::<T>(a, x) == tied::<T>(b, x),
    ensures
        a == b,
    decreases a.len(),
{
    reveal(Seq::filter);
    if a.len() == 0 || b.len() == 0 {
        if a.len() > 0 {
            T::total(a.last(), a.last());
            assert(tied::<T>(a, a.last()) == tied::<T>(b, a.last()));
        }
        if b.len() > 0 {
            T::total(b.last(), b.last());
            assert(tied::<T>(a, b.last()) == tied::<T>(b, b.last()));
        }
        assert(a =~= b);
    } else {
        let x = a.last();
        let y = b.last();
        T::total(x, x);
        T::total(y, y);
        assert(tied::<T>(a, x) == tied::<T>(b, x));
        assert(tied::<T>(a, y) == tied::<T>(b, y));
        assert(tied::<T>(a, x).last() == x);
        assert(tied::<T>(b, y).last() == y);
        // Each last value occurs in the other sequence.
        let fx = |z: T::V| ties::<T>(x, z);
        let fy = |z: T::V| ties::<T>(y, z);
        assert(b.filter(fx).contains(x)) by {
            assert(b.filter(fx)[b.filter(fx).len() - 1] == x);
        }
        b.lemma_filter_contains_rev(fx, x);
        assert(a.filter(fy).contains(y)) by {
            assert(a.filter(fy)[a.filter(fy).len() - 1] == y);
        }
        a.lemma_filter_contains_rev(fy, y);
        let i = choose|i: int| 0 <= i < b.len() && b[i] == x;
        let j = choose|j: int| 0 <= j < a.len() && a[j] == y;
        assert(T::leads(b[i], b[b.len() - 1]));
        assert(T::leads(a[j], a[a.len() - 1]));
        assert(ties::<T>(x, y));
        assert(tied::<T>(b, x).last() == y);
        assert(x == y);
        let aa = a.drop_last();
        let bb = b.drop_last();
        assert forall|z: T::V| #[trigger] tied::<T>(aa, z) == tied::<T>(bb, z) by {
            assert(tied::<T>(a, z) == tied::<T>(b, z));
            let fz = |w: T::V| ties::<T>(z, w);
            if fz(x) {
                assert(a.filter(fz).drop_last() =~= aa.filter(fz));
                assert(b.filter(fz).drop_last() =~= bb.filter(fz));
            }
        }
        assert(in_order::<T>(aa)) by {
            assert forall|i: int, j: int| 0 <= i <= j < aa.len() implies T::leads(
                #[trigger] aa[i],
                #[trigger] aa[j],
            ) by {
                assert(T::leads(a[i], a[j]));
            }
        }
        assert(in_order::<T>(bb)) by {
            assert forall|i: int, j: int| 0 <= i <= j < bb.len() implies T::leads(
                #[trigger] bb[i],
                #[trigger] bb[j],
            ) by {
                assert(T::leads(b[i], b[j]));
            }
        }
        order_is_unique::<T>(aa, bb);
        assert(a =~= aa.push(x));
        assert(b =~= bb.push(y));
    }
}

/// A filter keeps every occurrence of what it lets through.
proof fn lemma_filter_keeps_count<A>(s: Seq<A>, f: spec_fn(A) -> bool, x: A)
    requires
        f(x),
    ensures
        s.filter(f).to_multiset().count(x) == s.to_multiset().count(x),
    decreases s.len(),
{
    broadcast use vstd::seq_lib::group_to_multiset_ensures;

    reveal(Seq::filter);
    if s.len() > 0 {
        let front = s.drop_last();
        lemma_filter_keeps_count(front, f, x);
        assert(s =~= front.push(s.last()));
    }
}

/// Putting values in order drops none, adds none and repeats none.
pub proof fn order_is_a_permutation<T: Ranked>(r: Seq<T::V>, s: Seq<T::V>)
    requires
        ordered_form::<T>(r, s),
    ensures
        r.to_multiset() == s.to_multiset(),
        r.len() == s.len(),
        forall|x: T::V| r.contains(x) <==> s.contains(x),
{
    broadcast use vstd::seq_lib::group_to_multiset_ensures;

    assert forall|x: T::V| r.to_multiset().count(x) == s.to_multiset().count(x) by {
        let f = |y: T::V| ties::<T>(x, y);
        T::total(x, x);
        assert(tied::<T>(r, x) == tied::<T>(s, x));
        lemma_filter_keeps_count(r, f, x);
        lemma_filter_keeps_count(s, f, x);
    }
    assert(r.to_multiset() =~= s.to_multiset());
    assert(r.len() == r.to_multiset().len());
    assert(s.len() == s.to_multiset().len());
    assert forall|x: T::V| r.contains(x) <==> s.contains(x) by {
        assert(r.contains(x) <==> r.to_multiset().count(x) > 0);
        assert(s.contains(x) <==> s.to_multiset().count(x) > 0);
    }
}

// ---------------------------------------------------------------------------
// Text
// ---------------------------------------------------------------------------

/// Whether `a` comes no later than `b` in a dictionary that goes by code points.
pub open spec fn alphabetical(a: Seq<char>, b: Seq<char>) -> bool
    decreases a.len(),
{
    ||| a.len() == 0
    ||| b.len() > 0 && a[0] < b[0]
    ||| b.len() > 0 && a[0] == b[0] && alphabetical(a.drop_first(), b.drop_first())
}

/// Of two texts one comes no later than the other.
pub proof fn alphabetical_is_total(a: Seq<char>, b: Seq<char>)
    ensures
        alphabetical(a, b) || alphabetical(b, a),
    decreases a.len(),
{
    if a.len() > 0 && b.len() > 0 && a[0] == b[0] {
        alphabetical_is_total(a.drop_first(), b.drop_first());
    }
}

/// The dictionary order carries over from one pair of texts to the next.
pub proof fn alphabetical_is_transitive(a: Seq<char>, b: Seq<char>, c: Seq<char>)
    requires
        alphabetical(a, b),
        alphabetical(b, c),
    ensures
        alphabetical(a, c),
    decreases a.len(),
{
    if a.len() > 0 && a[0] == b[0] && b[0] == c[0] {
        alphabetical_is_transitive(a.drop_first(), b.drop_first(), c.drop_first());
    }
}

/// Two texts of which neither comes later are the same.
pub proof fn alphabetical_is_antisymmetric(a: Seq<char>, b: Seq<char>)
    requires
        alphabetical(a, b),
        alphabetical(b, a),
    ensures
        a == b,
    decreases a.len(),
{
    if a.len() > 0 && b.len() > 0 {
        alphabetical_is_antisymmetric(a.drop_first(), b.drop_first());
        assert(a =~= seq![a[0]] + a.drop_first());
        assert(b =~= seq![b[0]] + b.drop_first());
    } else {
        assert(a =~= b);
    }
}

/// The first character in which two texts differ decides, by its code point, and
/// a text comes before those that go on from it.
pub proof fn the_first_difference_decides(
    front: Seq<char>,
    c: char,
    a: Seq<char>,
    d: char,
    b: Seq<char>,
)
    requires
        c < d,
    ensures
        alphabetical(front + seq![c] + a, front + seq![d] + b),
        !alphabetical(front + seq![d] + b, front + seq![c] + a),
        alphabetical(front, front + a),
        a.len() > 0 ==> !alphabetical(front + a, front),
    decreases front.len(),
{
    let x = front + seq![c] + a;
    let y = front + seq![d] + b;
    if front.len() > 0 {
        let rest = front.drop_first();
        the_first_difference_decides(rest, c, a, d, b);
        assert(x.drop_first() =~= rest + seq![c] + a);
        assert(y.drop_first() =~= rest + seq![d] + b);
        assert((front + a).drop_first() =~= rest + a);
        assert(x[0] == y[0]);
        assert((front + a)[0] == front[0]);
    } else {
        assert(x[0] == c);
        assert(y[0] == d);
    }
}

/// The views of some values are theirs, one for each and in their order.
pub proof fn views_are_those_of_the_values<T: View>(s: Seq<T>)
    ensures
        views(s).len() == s.len(),
        forall|i: int| 0 <= i < s.len() ==> #[trigger] views(s)[i] == s[i]@,
{
}

/// Whether one text comes no later than another.
pub fn is_alphabetical(a: &[char], b: &[char]) -> (r: bool)
    ensures
        r == alphabetical(a@, b@),
{
    let mut i: usize = 0;
    proof {
        assert(a@.skip(0) =~= a@);
        assert(b@.skip(0) =~= b@);
    }
    while i < a.len() && i < b.len() && a[i] == b[i]
        invariant
            i <= a@.len(),
            i <= b@.len(),
            alphabetical(a@, b@) == alphabetical(a@.skip(i as int), b@.skip(i as int)),
        decreases a@.len() - i,
    {
        proof {
            assert(a@.skip(i as int).drop_first() =~= a@.skip(i + 1));
            assert(b@.skip(i as int).drop_first() =~= b@.skip(i + 1));
        }
        i = i + 1;
    }
    i == a.len() || (i < b.len() && a[i] < b[i])
}

// ---------------------------------------------------------------------------
// Sets of numbers
// ---------------------------------------------------------------------------

/// Whether every number is greater than the one before it.
pub open spec fn increasing(s: Seq<u32>) -> bool {
    forall|i: int, j: int| 0 <= i < j < s.len() ==> s[i] < s[j]
}

/// Puts numbers in increasing order and leaves out repetitions.
pub fn distinct(numbers: &[u32]) -> (r: Vec<u32>)
    ensures
        increasing(r@),
        forall|x: u32| r@.contains(x) <==> numbers@.contains(x),
{
    let mut out: Vec<u32> = Vec::new();
    for i in 0..numbers.len()
        invariant
            increasing(out@),
            forall|x: u32| out@.contains(x) <==> numbers@.take(i as int).contains(x),
    {
        let n = numbers[i];
        let mut p: usize = 0;
        while p < out.len() && out[p] < n
            invariant
                p <= out@.len(),
                forall|j: int| 0 <= j < p ==> out@[j] < n,
            decreases out@.len() - p,
        {
            p = p + 1;
        }
        let ghost was = out@;
        let ghost seen = numbers@.take(i as int);
        let ghost now = numbers@.take(i + 1);
        proof {
            assert(now =~= seen.push(n));
            assert forall|x: u32| now.contains(x) <==> (seen.contains(x) || x == n) by {
                if now.contains(x) {
                    let k = choose|k: int| 0 <= k < now.len() && now[k] == x;
                    if k < i {
                        assert(seen[k] == x);
                    }
                }
                if seen.contains(x) {
                    let k = choose|k: int| 0 <= k < seen.len() && seen[k] == x;
                    assert(now[k] == x);
                }
                assert(now[i as int] == n);
            }
        }
        if p < out.len() && out[p] == n {
            proof {
                assert(was[p as int] == n);
            }
        } else {
            out.insert(p, n);
            proof {
                assert forall|x: u32| out@.contains(x) <==> (was.contains(x) || x == n) by {
                    if out@.contains(x) {
                        let k = choose|k: int| 0 <= k < out@.len() && out@[k] == x;
                        if k < p {
                            assert(was[k] == x);
                        } else if k > p {
                            assert(was[k - 1] == x);
                        }
                    }
                    if was.contains(x) {
                        let k = choose|k: int| 0 <= k < was.len() && was[k] == x;
                        if k < p {
                            assert(out@[k] == x);
                        } else {
                            assert(out@[k + 1] == x);
                        }
                    }
                    assert(out@[p as int] == n);
                }
                assert forall|i: int, j: int| 0 <= i < j < out@.len() implies out@[i]
                    < out@[j] by {
                    if p < was.len() {
                        assert(was[p as int] > n);
                    }
                    if j > p {
                        assert(out@[j] == was[j - 1]);
                        assert(was[p as int] <= was[j - 1]);
                    }
                    if i > p {
                        assert(out@[i] == was[i - 1]);
                    }
                }
            }
        }
        proof {
            assert forall|x: u32| out@.contains(x) <==> now.contains(x) by {
                assert(was.contains(x) <==> seen.contains(x));
            }
        }
    }
    proof {
        assert(numbers@.take(numbers@.len() as int) =~= numbers@);
    }
    out
}

/// An increasing sequence is settled by the numbers in it.
pub proof fn increasing_is_unique(a: Seq<u32>, b: Seq<u32>)
    requires
        increasing(a),
        increasing(b),
        forall|x: u32| a.contains(x) <==> b.contains(x),
    ensures
        a == b,
    decreases a.len(),
{
    if a.len() == 0 || b.len() == 0 {
        if a.len() > 0 {
            assert(a.contains(a[0]));
        }
        if b.len() > 0 {
            assert(b.contains(b[0]));
        }
        assert(a =~= b);
    } else {
        assert(a.contains(a.last()) && b.contains(b.last()));
        let i = choose|i: int| 0 <= i < b.len() && b[i] == a.last();
        let j = choose|j: int| 0 <= j < a.len() && a[j] == b.last();
        assert(a.last() == b.last());
        let aa = a.drop_last();
        let bb = b.drop_last();
        assert forall|x: u32| aa.contains(x) <==> bb.contains(x) by {
            if aa.contains(x) {
                let k = choose|k: int| 0 <= k < aa.len() && aa[k] == x;
                assert(a[k] == x);
                assert(b.contains(x));
                let m = choose|m: int| 0 <= m < b.len() && b[m] == x;
                assert(bb[m] == x);
            }
            if bb.contains(x) {
                let k = choose|k: int| 0 <= k < bb.len() && bb[k] == x;
                assert(b[k] == x);
                assert(a.contains(x));
                let m = choose|m: int| 0 <= m < a.len() && a[m] == x;
                assert(aa[m] == x);
            }
        }
        increasing_is_unique(aa, bb);
        assert(a =~= aa.push(a.last()));
        assert(b =~= bb.push(b.last()));
    }
}

} // verus!
