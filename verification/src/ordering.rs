//! Text order and stable sorting by a key.
//!
//! `str`'s order compares UTF-8 bytes; because UTF-8 keeps the order of code
//! points, that is the lexicographic order of the characters, which is what
//! `text_le` states.
use vstd::prelude::*;

verus! {

broadcast use vstd::seq_lib::group_seq_properties;

/// Lexicographic order of character sequences by code point.
pub open spec fn text_le(a: Seq<char>, b: Seq<char>) -> bool
    decreases a.len(),
{
    if a.len() == 0 {
        true
    } else if b.len() == 0 {
        false
    } else if a[0] != b[0] {
        a[0] < b[0]
    } else {
        text_le(a.drop_first(), b.drop_first())
    }
}

pub open spec fn text_lt(a: Seq<char>, b: Seq<char>) -> bool {
    !text_le(b, a)
}

pub proof fn lemma_text_le_refl(a: Seq<char>)
    ensures
        text_le(a, a),
    decreases a.len(),
{
    if a.len() > 0 {
        lemma_text_le_refl(a.drop_first());
    }
}

pub proof fn lemma_text_le_total(a: Seq<char>, b: Seq<char>)
    ensures
        text_le(a, b) || text_le(b, a),
    decreases a.len(),
{
    if a.len() > 0 && b.len() > 0 && a[0] == b[0] {
        lemma_text_le_total(a.drop_first(), b.drop_first());
    }
}

pub proof fn lemma_text_le_antisym(a: Seq<char>, b: Seq<char>)
    requires
        text_le(a, b),
        text_le(b, a),
    ensures
        a == b,
    decreases a.len(),
{
    if a.len() > 0 && b.len() > 0 {
        lemma_text_le_antisym(a.drop_first(), b.drop_first());
        assert(a =~= seq![a[0]] + a.drop_first());
        assert(b =~= seq![b[0]] + b.drop_first());
    }
}

pub proof fn lemma_text_le_trans(a: Seq<char>, b: Seq<char>, c: Seq<char>)
    requires
        text_le(a, b),
        text_le(b, c),
    ensures
        text_le(a, c),
    decreases a.len(),
{
    if a.len() > 0 && b.len() > 0 && c.len() > 0 && a[0] == b[0] && b[0] == c[0] {
        lemma_text_le_trans(a.drop_first(), b.drop_first(), c.drop_first());
    }
}

/// `a <= b` in text order.
pub fn text_le_chars(a: &Vec<char>, b: &Vec<char>) -> (r: bool)
    ensures
        r == text_le(a@, b@),
{
    let mut i: usize = 0;
    while i < a.len() && i < b.len() && a[i] == b[i]
        invariant
            i <= a.len(),
            i <= b.len(),
            text_le(a@, b@) == text_le(a@.skip(i as int), b@.skip(i as int)),
        decreases a.len() - i,
    {
        assert(a@.skip(i as int).drop_first() == a@.skip(i + 1));
        assert(b@.skip(i as int).drop_first() == b@.skip(i + 1));
        i = i + 1;
    }
    if i == a.len() {
        true
    } else if i == b.len() {
        false
    } else {
        a[i] < b[i]
    }
}

// ---------------------------------------------------------------------------
// Stable sort by a text key
// ---------------------------------------------------------------------------

/// Items that are ordered by a text key taken from their view.
pub trait TextKeyed: View + Sized {
    spec fn text_key(v: Self::V) -> Seq<char>;

    fn key_chars(&self) -> (r: Vec<char>)
        ensures
            r@ == Self::text_key(self@),
    ;
}

pub open spec fn views_of<E: View>(s: Seq<E>) -> Seq<E::V> {
    s.map_values(|e: E| e@)
}

pub open spec fn text_key_is<E: TextKeyed>(k: Seq<char>) -> spec_fn(E::V) -> bool {
    |v: E::V| E::text_key(v) == k
}

/// The items whose key is `k`, in their order.
pub open spec fn with_text_key<E: TextKeyed>(s: Seq<E::V>, k: Seq<char>) -> Seq<E::V> {
    s.filter(text_key_is::<E>(k))
}

pub open spec fn text_keys_sorted<E: TextKeyed>(s: Seq<E::V>) -> bool {
    forall|i: int, j: int|
        0 <= i < j < s.len() ==> text_le(E::text_key(#[trigger] s[i]), E::text_key(#[trigger] s[j]))
}

/// `out` is `input` stably sorted by key: keys ascend, and the items sharing
/// a key keep their relative order (so `out` is a rearrangement of `input`).
pub open spec fn stable_sorted_by_text<E: TextKeyed>(out: Seq<E::V>, input: Seq<E::V>) -> bool {
    &&& out.len() == input.len()
    &&& text_keys_sorted::<E>(out)
    &&& forall|k: Seq<char>| #[trigger] with_text_key::<E>(out, k) == with_text_key::<E>(input, k)
}

proof fn lemma_filter_single<V>(x: V, p: spec_fn(V) -> bool)
    ensures
        seq![x].filter(p) == (if p(x) {
            seq![x]
        } else {
            Seq::empty()
        }),
{
    reveal(Seq::filter);
    let e = Seq::<V>::empty();
    e.lemma_filter_prepend(x, p);
    assert(seq![x] + e =~= seq![x]);
    assert(e.filter(p) =~= e);
}

proof fn lemma_filter_none<V>(s: Seq<V>, p: spec_fn(V) -> bool)
    requires
        forall|i: int| 0 <= i < s.len() ==> !p(s[i]),
    ensures
        s.filter(p) == Seq::<V>::empty(),
    decreases s.len(),
{
    reveal(Seq::filter);
    if s.len() > 0 {
        lemma_filter_none(s.drop_last(), p);
    }
}

/// Filtering keeps a field pairwise distinct.
pub proof fn lemma_filter_keeps_distinct<V, B>(s: Seq<V>, p: spec_fn(V) -> bool, f: spec_fn(V) -> B)
    requires
        forall|i: int, j: int| 0 <= i < j < s.len() ==> f(#[trigger] s[i]) != f(#[trigger] s[j]),
    ensures
        forall|a: int, b: int|
            0 <= a < b < s.filter(p).len() ==> f(#[trigger] s.filter(p)[a]) != f(
                #[trigger] s.filter(p)[b],
            ),
    decreases s.len(),
{
    reveal(Seq::filter);
    if s.len() > 0 {
        let d = s.drop_last();
        lemma_filter_keeps_distinct(d, p, f);
        let t = d.filter(p);
        if p(s.last()) {
            let u = s.filter(p);
            assert(u == t.push(s.last()));
            assert forall|a: int, b: int| 0 <= a < b < u.len() implies f(#[trigger] u[a]) != f(
                #[trigger] u[b],
            ) by {
                if b == u.len() - 1 {
                    assert(t.contains(u[a]));
                    d.lemma_filter_contains_rev(p, u[a]);
                    let i = choose|i: int| 0 <= i < d.len() && d[i] == u[a];
                    assert(s[i] == d[i]);
                } else {
                    assert(u[a] == t[a] && u[b] == t[b]);
                }
            }
        }
    }
}

/// Two kept items stay in their order after filtering.
pub proof fn lemma_filter_two_positions<V>(s: Seq<V>, p: spec_fn(V) -> bool, i: int, j: int)
    requires
        0 <= i < j < s.len(),
        p(s[i]),
        p(s[j]),
    ensures
        exists|a: int, b: int|
            0 <= a < b < s.filter(p).len() && #[trigger] s.filter(p)[a] == s[i]
                && #[trigger] s.filter(p)[b] == s[j],
    decreases s.len(),
{
    reveal(Seq::filter);
    let d = s.drop_last();
    let t = d.filter(p);
    if j == s.len() - 1 {
        assert(s.filter(p) == t.push(s.last()));
        assert(d[i] == s[i]);
        d.lemma_filter_contains(p, i);
        let a = choose|a: int| 0 <= a < t.len() && t[a] == s[i];
        assert(s.filter(p)[a] == s[i]);
        assert(s.filter(p)[t.len() as int] == s[j]);
    } else {
        lemma_filter_two_positions(d, p, i, j);
        let (a, b) = choose|a: int, b: int|
            0 <= a < b < t.len() && #[trigger] t[a] == d[i] && #[trigger] t[b] == d[j];
        if p(s.last()) {
            assert(s.filter(p) == t.push(s.last()));
        }
        assert(s.filter(p)[a] == s[i]);
        assert(s.filter(p)[b] == s[j]);
    }
}

/// A stable sort keeps a field pairwise distinct.
pub proof fn lemma_stable_sort_keeps_distinct<E: TextKeyed, B>(
    out: Seq<E::V>,
    input: Seq<E::V>,
    f: spec_fn(E::V) -> B,
)
    requires
        stable_sorted_by_text::<E>(out, input),
        forall|i: int, j: int| 0 <= i < j < input.len() ==> f(#[trigger] input[i]) != f(#[trigger] input[j]),
    ensures
        forall|i: int, j: int| 0 <= i < j < out.len() ==> f(#[trigger] out[i]) != f(#[trigger] out[j]),
{
    assert forall|i: int, j: int| 0 <= i < j < out.len() implies f(#[trigger] out[i]) != f(#[trigger] out[j]) by {
        let ki = E::text_key(out[i]);
        let kj = E::text_key(out[j]);
        if ki == kj {
            let pr = text_key_is::<E>(ki);
            lemma_filter_two_positions(out, pr, i, j);
            lemma_filter_keeps_distinct(input, pr, f);
            assert(with_text_key::<E>(out, ki) == with_text_key::<E>(input, ki));
            let (a, b) = choose|a: int, b: int|
                0 <= a < b < out.filter(pr).len() && #[trigger] out.filter(pr)[a] == out[i]
                    && #[trigger] out.filter(pr)[b] == out[j];
            assert(input.filter(pr)[a] == out[i]);
            assert(input.filter(pr)[b] == out[j]);
        } else {
            let pi = text_key_is::<E>(ki);
            let pj = text_key_is::<E>(kj);
            out.lemma_filter_contains(pi, i);
            out.lemma_filter_contains(pj, j);
            assert(with_text_key::<E>(out, ki) == with_text_key::<E>(input, ki));
            assert(with_text_key::<E>(out, kj) == with_text_key::<E>(input, kj));
            input.lemma_filter_contains_rev(pi, out[i]);
            input.lemma_filter_contains_rev(pj, out[j]);
            let x = choose|x: int| 0 <= x < input.len() && input[x] == out[i];
            let y = choose|y: int| 0 <= y < input.len() && input[y] == out[j];
            assert(x != y);
            if x > y {
                assert(f(input[y]) != f(input[x]));
            }
        }
    }
}

/// A stable sort loses and invents nothing: each input item is in the
/// output and each output item is in the input.
pub proof fn lemma_stable_sort_same_items<E: TextKeyed>(out: Seq<E::V>, input: Seq<E::V>)
    requires
        stable_sorted_by_text::<E>(out, input),
    ensures
        forall|i: int| 0 <= i < input.len() ==> out.contains(#[trigger] input[i]),
        forall|j: int| 0 <= j < out.len() ==> input.contains(#[trigger] out[j]),
{
    assert forall|i: int| 0 <= i < input.len() implies out.contains(#[trigger] input[i]) by {
        let pr = text_key_is::<E>(E::text_key(input[i]));
        input.lemma_filter_contains(pr, i);
        assert(with_text_key::<E>(out, E::text_key(input[i])) == with_text_key::<E>(input, E::text_key(input[i])));
        out.lemma_filter_contains_rev(pr, input[i]);
    }
    assert forall|j: int| 0 <= j < out.len() implies input.contains(#[trigger] out[j]) by {
        let pr = text_key_is::<E>(E::text_key(out[j]));
        out.lemma_filter_contains(pr, j);
        assert(with_text_key::<E>(out, E::text_key(out[j])) == with_text_key::<E>(input, E::text_key(out[j])));
        input.lemma_filter_contains_rev(pr, out[j]);
    }
}

/// Sorts `items` by key, keeping items with equal keys in their order.
pub fn stable_sort_by_text<E: TextKeyed>(items: Vec<E>) -> (out: Vec<E>)
    ensures
        stable_sorted_by_text::<E>(views_of(out@), views_of(items@)),
{
    let ghost input = views_of(items@);
    let mut items = items;
    let mut out: Vec<E> = Vec::new();
    proof {
        assert forall|k: Seq<char>| #[trigger] with_text_key::<E>(views_of(out@), k)
            == with_text_key::<E>(input.skip(input.len() as int), k) by {
            assert(input.skip(input.len() as int) =~= Seq::<E::V>::empty());
            assert(views_of(out@) =~= Seq::<E::V>::empty());
            lemma_filter_none(Seq::<E::V>::empty(), text_key_is::<E>(k));
        }
    }
    while items.len() > 0
        invariant
            views_of(items@) == input.take(items.len() as int),
            items.len() <= input.len(),
            out.len() + items.len() == input.len(),
            text_keys_sorted::<E>(views_of(out@)),
            forall|k: Seq<char>| #[trigger] with_text_key::<E>(views_of(out@), k)
                == with_text_key::<E>(input.skip(items.len() as int), k),
        decreases items.len(),
    {
        let ghost i = items.len() as int;
        let ghost before = items@;
        let x = items.pop().unwrap();
        assert(x@ == input[i - 1]) by {
            assert(before[i - 1] == x);
            assert(views_of(before)[i - 1] == x@);
        }
        assert(views_of(items@) =~= input.take(i - 1)) by {
            assert(items@ =~= before.drop_last());
        }
        let xk = x.key_chars();
        let mut p: usize = 0;
        while p < out.len() && !text_le_chars(&xk, &out[p].key_chars())
            invariant
                p <= out.len(),
                xk@ == E::text_key(x@),
                forall|j: int| 0 <= j < p ==> text_lt(E::text_key(#[trigger] views_of(out@)[j]), xk@),
            decreases out.len() - p,
        {
            p = p + 1;
        }
        let ghost old_out = views_of(out@);
        let ghost xv = x@;
        proof {
            assert forall|q: int| p <= q < old_out.len() implies text_le(E::text_key(xv), E::text_key(#[trigger] old_out[q])) by {
                if q > p {
                    assert(text_le(E::text_key(old_out[p as int]), E::text_key(old_out[q])));
                    lemma_text_le_trans(E::text_key(xv), E::text_key(old_out[p as int]), E::text_key(old_out[q]));
                }
            }
        }
        let ghost out_before = out@;
        out.insert(p, x);
        proof {
            let xs = seq![xv];
            let pre = old_out.take(p as int);
            let post = old_out.skip(p as int);
            let now = views_of(out@);
            assert(out@ =~= out_before.take(p as int).push(x) + out_before.skip(p as int));
            assert(now =~= pre + xs + post);
            assert(old_out =~= pre + post);
            assert(input.skip(i - 1) =~= xs + input.skip(i));
            let kx = E::text_key(xv);
            assert forall|a: int, b: int| 0 <= a < b < now.len() implies text_le(
                E::text_key(#[trigger] now[a]),
                E::text_key(#[trigger] now[b]),
            ) by {
                if a < p && b == p {
                    lemma_text_le_total(E::text_key(now[a]), kx);
                } else if a < p && b > p {
                    assert(now[b] == old_out[b - 1]);
                    lemma_text_le_total(E::text_key(old_out[a]), kx);
                    lemma_text_le_trans(E::text_key(old_out[a]), kx, E::text_key(old_out[b - 1]));
                } else if a == p {
                    assert(now[b] == old_out[b - 1]);
                } else if a > p {
                    assert(now[a] == old_out[a - 1]);
                    assert(now[b] == old_out[b - 1]);
                }
            }
            assert forall|k: Seq<char>| #[trigger] with_text_key::<E>(now, k)
                == with_text_key::<E>(input.skip(i - 1), k) by {
                let pr = text_key_is::<E>(k);
                assert(with_text_key::<E>(old_out, k) == with_text_key::<E>(input.skip(i), k));
                lemma_filter_single(xv, pr);
                Seq::filter_distributes_over_add(pre + xs, post, pr);
                Seq::filter_distributes_over_add(pre, xs, pr);
                Seq::filter_distributes_over_add(pre, post, pr);
                Seq::filter_distributes_over_add(xs, input.skip(i), pr);
                if kx == k {
                    assert forall|j: int| 0 <= j < pre.len() implies !pr(pre[j]) by {
                        lemma_text_le_refl(k);
                    }
                    lemma_filter_none(pre, pr);
                    assert(with_text_key::<E>(now, k) =~= xs + post.filter(pr));
                    assert(with_text_key::<E>(old_out, k) =~= post.filter(pr));
                }
                assert(with_text_key::<E>(now, k) =~= with_text_key::<E>(input.skip(i - 1), k));
            }
        }
    }
    assert(input.skip(0) =~= input);
    out
}

// ---------------------------------------------------------------------------
// Stable sort by an integer key
// ---------------------------------------------------------------------------

/// Items that are ordered by an integer key taken from their view.
pub trait IntKeyed: View + Sized {
    spec fn int_key(v: Self::V) -> int;

    fn key_value(&self) -> (r: i32)
        ensures
            r as int == Self::int_key(self@),
    ;
}

pub open spec fn int_key_is<E: IntKeyed>(k: int) -> spec_fn(E::V) -> bool {
    |v: E::V| E::int_key(v) == k
}

/// The items whose key is `k`, in their order.
pub open spec fn with_int_key<E: IntKeyed>(s: Seq<E::V>, k: int) -> Seq<E::V> {
    s.filter(int_key_is::<E>(k))
}

pub open spec fn int_keys_sorted<E: IntKeyed>(s: Seq<E::V>) -> bool {
    forall|i: int, j: int|
        0 <= i < j < s.len() ==> E::int_key(#[trigger] s[i]) <= E::int_key(#[trigger] s[j])
}

/// `out` is `input` stably sorted by key: keys ascend, and the items sharing
/// a key keep their relative order (so `out` is a rearrangement of `input`).
pub open spec fn stable_sorted_by_int<E: IntKeyed>(out: Seq<E::V>, input: Seq<E::V>) -> bool {
    &&& out.len() == input.len()
    &&& int_keys_sorted::<E>(out)
    &&& forall|k: int| #[trigger] with_int_key::<E>(out, k) == with_int_key::<E>(input, k)
}

/// Sorts `items` by key, keeping items with equal keys in their order.
pub fn stable_sort_by_int<E: IntKeyed>(items: Vec<E>) -> (out: Vec<E>)
    ensures
        stable_sorted_by_int::<E>(views_of(out@), views_of(items@)),
{
    let ghost input = views_of(items@);
    let mut items = items;
    let mut out: Vec<E> = Vec::new();
    proof {
        assert forall|k: int| #[trigger] with_int_key::<E>(views_of(out@), k)
            == with_int_key::<E>(input.skip(input.len() as int), k) by {
            assert(input.skip(input.len() as int) =~= Seq::<E::V>::empty());
            assert(views_of(out@) =~= Seq::<E::V>::empty());
            lemma_filter_none(Seq::<E::V>::empty(), int_key_is::<E>(k));
        }
    }
    while items.len() > 0
        invariant
            views_of(items@) == input.take(items.len() as int),
            items.len() <= input.len(),
            out.len() + items.len() == input.len(),
            int_keys_sorted::<E>(views_of(out@)),
            forall|k: int| #[trigger] with_int_key::<E>(views_of(out@), k)
                == with_int_key::<E>(input.skip(items.len() as int), k),
        decreases items.len(),
    {
        let ghost i = items.len() as int;
        let ghost before = items@;
        let x = items.pop().unwrap();
        assert(x@ == input[i - 1]) by {
            assert(before[i - 1] == x);
            assert(views_of(before)[i - 1] == x@);
        }
        assert(views_of(items@) =~= input.take(i - 1)) by {
            assert(items@ =~= before.drop_last());
        }
        let xk = x.key_value();
        let mut p: usize = 0;
        while p < out.len() && xk > out[p].key_value()
            invariant
                p <= out.len(),
                xk as int == E::int_key(x@),
                forall|j: int| 0 <= j < p ==> E::int_key(#[trigger] views_of(out@)[j]) < xk,
            decreases out.len() - p,
        {
            p = p + 1;
        }
        let ghost old_out = views_of(out@);
        let ghost xv = x@;
        proof {
            assert forall|q: int| p <= q < old_out.len() implies E::int_key(xv) <= E::int_key(#[trigger] old_out[q]) by {
                if q > p {
                    assert(E::int_key(old_out[p as int]) <= E::int_key(old_out[q]));
                }
            }
        }
        let ghost out_before = out@;
        out.insert(p, x);
        proof {
            let xs = seq![xv];
            let pre = old_out.take(p as int);
            let post = old_out.skip(p as int);
            let now = views_of(out@);
            assert(out@ =~= out_before.take(p as int).push(x) + out_before.skip(p as int));
            assert(now =~= pre + xs + post);
            assert(old_out =~= pre + post);
            assert(input.skip(i - 1) =~= xs + input.skip(i));
            let kx = E::int_key(xv);
            assert forall|a: int, b: int| 0 <= a < b < now.len() implies E::int_key(#[trigger] now[a])
                <= E::int_key(#[trigger] now[b]) by {
                if a < p && b == p {
                } else if a < p && b > p {
                    assert(now[b] == old_out[b - 1]);
                } else if a == p {
                    assert(now[b] == old_out[b - 1]);
                } else if a > p {
                    assert(now[a] == old_out[a - 1]);
                    assert(now[b] == old_out[b - 1]);
                }
            }
            assert forall|k: int| #[trigger] with_int_key::<E>(now, k)
                == with_int_key::<E>(input.skip(i - 1), k) by {
                let pr = int_key_is::<E>(k);
                assert(with_int_key::<E>(old_out, k) == with_int_key::<E>(input.skip(i), k));
                lemma_filter_single(xv, pr);
                Seq::filter_distributes_over_add(pre + xs, post, pr);
                Seq::filter_distributes_over_add(pre, xs, pr);
                Seq::filter_distributes_over_add(pre, post, pr);
                Seq::filter_distributes_over_add(xs, input.skip(i), pr);
                if kx == k {
                    assert forall|j: int| 0 <= j < pre.len() implies !pr(pre[j]) by {}
                    lemma_filter_none(pre, pr);
                    assert(with_int_key::<E>(now, k) =~= xs + post.filter(pr));
                    assert(with_int_key::<E>(old_out, k) =~= post.filter(pr));
                }
                assert(with_int_key::<E>(now, k) =~= with_int_key::<E>(input.skip(i - 1), k));
            }
        }
    }
    assert(input.skip(0) =~= input);
    out
}

} // verus!
