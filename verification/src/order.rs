//! Dictionary order on texts: sorting, deduplication, and that a strictly
//! sorted list is determined by what it holds.
use vstd::prelude::*;
use crate::text;

verus! {

/// The texts of a list of strings.
pub open spec fn texts(v: Seq<String>) -> Seq<Seq<char>> {
    v.map_values(|s: String| s@)
}

/// Dictionary order by code point.
pub open spec fn text_before(a: Seq<char>, b: Seq<char>) -> bool
    decreases a.len(),
{
    if b.len() == 0 {
        false
    } else if a.len() == 0 {
        true
    } else {
        a[0] < b[0] || (a[0] == b[0] && text_before(a.skip(1), b.skip(1)))
    }
}

/// Each text stands before all that follow; so none occurs twice.
pub open spec fn strictly_sorted(v: Seq<Seq<char>>) -> bool {
    forall|i: int, j: int| 0 <= i < j < v.len() ==> text_before(#[trigger] v[i], #[trigger] v[j])
}

proof fn lemma_before_trans(a: Seq<char>, b: Seq<char>, c: Seq<char>)
    requires
        text_before(a, b),
        text_before(b, c),
    ensures
        text_before(a, c),
    decreases a.len(),
{
    if a.len() > 0 && a[0] == b[0] && b[0] == c[0] {
        lemma_before_trans(a.skip(1), b.skip(1), c.skip(1));
    }
}

proof fn lemma_before_total(a: Seq<char>, b: Seq<char>)
    ensures
        text_before(a, b) || a == b || text_before(b, a),
    decreases a.len(),
{
    if a.len() > 0 && b.len() > 0 {
        lemma_before_total(a.skip(1), b.skip(1));
        if a[0] == b[0] && a.skip(1) == b.skip(1) {
            assert(a =~= seq![a[0]] + a.skip(1));
            assert(b =~= seq![b[0]] + b.skip(1));
        }
    } else if a.len() == 0 && b.len() == 0 {
        assert(a =~= b);
    }
}

fn is_before(x: &str, y: &str) -> (r: bool)
    ensures
        r == text_before(x@, y@),
{
    let a = text::to_chars(x);
    let b = text::to_chars(y);
    let mut i: usize = 0;
    proof {
        assert(a@.skip(0) =~= a@);
        assert(b@.skip(0) =~= b@);
    }
    while i < a.len() && i < b.len()
        invariant
            i <= a@.len(),
            i <= b@.len(),
            a@ == x@,
            b@ == y@,
            text_before(a@.skip(i as int), b@.skip(i as int)) == text_before(x@, y@),
        decreases a@.len() - i,
    {
        proof {
            assert(a@.skip(i as int).skip(1) =~= a@.skip(i + 1));
            assert(b@.skip(i as int).skip(1) =~= b@.skip(i + 1));
            assert(a@.skip(i as int)[0] == a@[i as int]);
            assert(b@.skip(i as int)[0] == b@[i as int]);
        }
        if a[i] != b[i] {
            return a[i] < b[i];
        }
        i += 1;
    }
    i < b.len()
}

/// Put a text in its place unless it is already there.
fn insert_sorted(v: &mut Vec<String>, x: &String)
    requires
        strictly_sorted(texts(old(v)@)),
    ensures
        strictly_sorted(texts(final(v)@)),
        texts(final(v)@).to_set() == texts(old(v)@).to_set().insert(x@),
{
    let ghost tv = texts(v@);
    let mut p: usize = 0;
    while p < v.len() && is_before(v[p].as_str(), x.as_str())
        invariant
            p <= v@.len(),
            v@ == old(v)@,
            tv == texts(v@),
            forall|j: int| 0 <= j < p ==> text_before(#[trigger] tv[j], x@),
        decreases v@.len() - p,
    {
        assert(tv[p as int] == v@[p as int]@);
        p += 1;
    }
    if p < v.len() {
        assert(tv[p as int] == v@[p as int]@);
        if text::same_text(v[p].as_str(), x.as_str()) {
            assert(tv.to_set().insert(x@) =~= tv.to_set());
            return;
        }
        proof {
            lemma_before_total(tv[p as int], x@);
        }
    }
    v.insert(p, x.clone());
    proof {
        let nv = texts(v@);
        assert(nv =~= tv.insert(p as int, x@));
        assert forall|i: int, j: int| 0 <= i < j < nv.len() implies text_before(
            #[trigger] nv[i],
            #[trigger] nv[j],
        ) by {
            if i == p && j > p + 1 {
                lemma_before_trans(x@, tv[p as int], tv[j - 1]);
            } else if i < p && j > p {
                assert(text_before(tv[i], tv[j - 1]));
            } else if i > p {
                assert(text_before(tv[i - 1], tv[j - 1]));
            } else if j < p {
                assert(text_before(tv[i], tv[j]));
            }
        }
        assert(nv.to_set() =~= tv.to_set().insert(x@)) by {
            assert forall|y| tv.to_set().insert(x@).contains(y) implies nv.to_set().contains(y) by {
                if y == x@ {
                    assert(nv[p as int] == y);
                } else {
                    let j = choose|j: int| 0 <= j < tv.len() && tv[j] == y;
                    if j < p {
                        assert(nv[j] == y);
                    } else {
                        assert(nv[j + 1] == y);
                    }
                }
            }
            assert forall|y| nv.to_set().contains(y) implies tv.to_set().insert(x@).contains(y) by {
                let j = choose|j: int| 0 <= j < nv.len() && nv[j] == y;
                if j < p {
                    assert(tv[j] == y);
                } else if j > p {
                    assert(tv[j - 1] == y);
                }
            }
        }
    }
}

/// Sort a list of texts and drop repetitions.
pub fn sort_dedup(v: &Vec<String>) -> (out: Vec<String>)
    ensures
        strictly_sorted(texts(out@)),
        texts(out@).to_set() == texts(v@).to_set(),
{
    let mut out: Vec<String> = Vec::new();
    let ghost tv = texts(v@);
    let mut i: usize = 0;
    assert(texts(out@).to_set() =~= tv.take(0).to_set());
    while i < v.len()
        invariant
            i <= v@.len(),
            tv == texts(v@),
            strictly_sorted(texts(out@)),
            texts(out@).to_set() == tv.take(i as int).to_set(),
        decreases v@.len() - i,
    {
        insert_sorted(&mut out, &v[i]);
        i += 1;
        proof {
            let a = tv.take(i - 1);
            let b = tv.take(i as int);
            let x = tv[i - 1];
            assert(b =~= a.push(x));
            assert(b.to_set() =~= a.to_set().insert(x)) by {
                assert forall|y| a.to_set().insert(x).contains(y) implies b.to_set().contains(
                    y,
                ) by {
                    if y == x {
                        assert(b[i - 1] == y);
                    } else {
                        let j = choose|j: int| 0 <= j < a.len() && a[j] == y;
                        assert(b[j] == y);
                    }
                }
            }
        }
    }
    assert(tv.take(i as int) =~= tv);
    out
}

/// Sorting and deduplicating leaves one possible outcome: two strictly
/// sorted lists of the same texts are the same list.
pub proof fn law_sorted_list_is_unique(a: Seq<Seq<char>>, b: Seq<Seq<char>>)
    requires
        strictly_sorted(a),
        strictly_sorted(b),
        a.to_set() == b.to_set(),
    ensures
        a == b,
    decreases a.len(),
{
    if a.len() == 0 {
        if b.len() > 0 {
            assert(b.to_set().contains(b[0]));
            assert(a.to_set().contains(b[0]));
        }
        assert(a =~= b);
    } else {
        let x = a.last();
        assert(a.to_set().contains(x));
        let k = choose|k: int| 0 <= k < b.len() && b[k] == x;
        let y = b.last();
        assert(b.to_set().contains(y));
        let m = choose|m: int| 0 <= m < a.len() && a[m] == y;
        if x != y {
            assert(text_before(b[k], b[b.len() - 1]));
            assert(text_before(a[m], a[a.len() - 1]));
            lemma_before_irreflexive(x, y);
        }
        let a0 = a.drop_last();
        let b0 = b.drop_last();
        assert(a0.to_set() =~= b0.to_set()) by {
            assert forall|z| a0.to_set().contains(z) implies b0.to_set().contains(z) by {
                let i = choose|i: int| 0 <= i < a0.len() && a0[i] == z;
                assert(a[i] == z);
                assert(a.to_set().contains(z));
                let j = choose|j: int| 0 <= j < b.len() && b[j] == z;
                assert(text_before(a[i], a[a.len() - 1]));
                if j == b.len() - 1 {
                    lemma_before_irreflexive(x, x);
                }
                assert(b0[j] == z);
            }
            assert forall|z| b0.to_set().contains(z) implies a0.to_set().contains(z) by {
                let i = choose|i: int| 0 <= i < b0.len() && b0[i] == z;
                assert(b[i] == z);
                assert(b.to_set().contains(z));
                let j = choose|j: int| 0 <= j < a.len() && a[j] == z;
                assert(text_before(b[i], b[b.len() - 1]));
                if j == a.len() - 1 {
                    lemma_before_irreflexive(x, x);
                }
                assert(a0[j] == z);
            }
        }
        law_sorted_list_is_unique(a0, b0);
        assert(a =~= a0.push(x));
        assert(b =~= b0.push(y));
    }
}

proof fn lemma_before_irreflexive(a: Seq<char>, b: Seq<char>)
    ensures
        !(text_before(a, b) && text_before(b, a)),
    decreases a.len(),
{
    if a.len() > 0 && b.len() > 0 {
        lemma_before_irreflexive(a.skip(1), b.skip(1));
    }
}

/// No text stands before one that precedes it.
pub open spec fn sorted(v: Seq<Seq<char>>) -> bool {
    forall|i: int, j: int| 0 <= i < j < v.len() ==> !text_before(#[trigger] v[j], #[trigger] v[i])
}

/// Sort a list of texts, repetitions included.
pub fn sort(v: &Vec<String>) -> (out: Vec<String>)
    ensures
        sorted(texts(out@)),
        texts(out@).to_multiset() == texts(v@).to_multiset(),
{
    let mut out: Vec<String> = Vec::new();
    let ghost tv = texts(v@);
    let mut i: usize = 0;
    assert(texts(out@) =~= tv.take(0));
    while i < v.len()
        invariant
            i <= v@.len(),
            tv == texts(v@),
            sorted(texts(out@)),
            texts(out@).to_multiset() == tv.take(i as int).to_multiset(),
        decreases v@.len() - i,
    {
        let x: &String = &v[i];
        let ghost had = texts(out@);
        let mut p: usize = 0;
        while p < out.len() && !is_before(x.as_str(), out[p].as_str())
            invariant
                p <= out@.len(),
                had == texts(out@),
                forall|j: int| 0 <= j < p ==> !text_before(x@, #[trigger] had[j]),
            decreases out@.len() - p,
        {
            assert(had[p as int] == out@[p as int]@);
            p += 1;
        }
        proof {
            if p < out@.len() {
                assert(had[p as int] == out@[p as int]@);
            }
        }
        out.insert(p, x.clone());
        i += 1;
        proof {
            let now = texts(out@);
            assert(now =~= had.insert(p as int, x@));
            assert forall|a: int, b: int| 0 <= a < b < now.len() implies !text_before(
                #[trigger] now[b],
                #[trigger] now[a],
            ) by {
                let ha = if a < p {
                    a
                } else {
                    a - 1
                };
                let hb = if b < p {
                    b
                } else {
                    b - 1
                };
                if a == p {
                    lemma_before_irreflexive(x@, had[p as int]);
                    if b > p + 1 && text_before(had[hb], x@) {
                        lemma_before_trans(had[hb], x@, had[p as int]);
                        assert(!text_before(had[hb], had[p as int]));
                    }
                } else if b == p {
                    assert(!text_before(x@, had[a]));
                } else {
                    assert(!text_before(had[hb], had[ha]));
                }
            }
            broadcast use vstd::seq_lib::group_to_multiset_ensures;

            assert(tv.take(i as int) =~= tv.take(i - 1).push(x@));
            assert(now.to_multiset() =~= had.to_multiset().insert(x@));
        }
    }
    assert(tv.take(i as int) =~= tv);
    out
}

/// A sorted list with one more text in its place.
spec fn placed(ks: Seq<Seq<char>>, x: Seq<char>) -> Seq<Seq<char>>
    decreases ks.len(),
{
    if ks.len() == 0 || text_before(ks.last(), x) {
        ks.push(x)
    } else {
        placed(ks.drop_last(), x).push(ks.last())
    }
}

proof fn lemma_placed(ks: Seq<Seq<char>>, x: Seq<char>)
    requires
        strictly_sorted(ks),
        !ks.contains(x),
    ensures
        strictly_sorted(placed(ks, x)),
        forall|y: Seq<char>| #[trigger] placed(ks, x).contains(y) <==> ks.contains(y) || y == x,
    decreases ks.len(),
{
    let r = placed(ks, x);
    if ks.len() == 0 || text_before(ks.last(), x) {
        assert forall|i: int, j: int| 0 <= i < j < r.len() implies text_before(
            #[trigger] r[i],
            #[trigger] r[j],
        ) by {
            if j == ks.len() {
                if i < ks.len() - 1 {
                    assert(text_before(ks[i], ks[ks.len() - 1]));
                    lemma_before_trans(ks[i], ks.last(), x);
                }
            } else {
                assert(text_before(ks[i], ks[j]));
            }
        }
        assert forall|y: Seq<char>| #[trigger] r.contains(y) <==> ks.contains(y) || y == x by {
            if ks.contains(y) {
                let i = choose|i: int| 0 <= i < ks.len() && ks[i] == y;
                assert(r[i] == y);
            }
            if y == x {
                assert(r[ks.len() as int] == y);
            }
        }
    } else {
        let rest = ks.drop_last();
        let last = ks.last();
        lemma_before_total(last, x);
        assert(ks.contains(last)) by {
            assert(ks[ks.len() - 1] == last);
        }
        assert(!rest.contains(x)) by {
            if rest.contains(x) {
                let i = choose|i: int| 0 <= i < rest.len() && rest[i] == x;
                assert(ks[i] == x);
            }
        }
        assert forall|i: int, j: int| 0 <= i < j < rest.len() implies text_before(
            #[trigger] rest[i],
            #[trigger] rest[j],
        ) by {
            assert(text_before(ks[i], ks[j]));
        }
        lemma_placed(rest, x);
        let p = placed(rest, x);
        assert forall|i: int, j: int| 0 <= i < j < r.len() implies text_before(
            #[trigger] r[i],
            #[trigger] r[j],
        ) by {
            if j == p.len() {
                assert(p.contains(p[i]));
                if p[i] != x {
                    let k = choose|k: int| 0 <= k < rest.len() && rest[k] == p[i];
                    assert(text_before(ks[k], ks[ks.len() - 1]));
                }
            } else {
                assert(text_before(p[i], p[j]));
            }
        }
        assert forall|y: Seq<char>| #[trigger] r.contains(y) <==> ks.contains(y) || y == x by {
            assert(p.contains(y) <==> rest.contains(y) || y == x);
            if r.contains(y) {
                let i = choose|i: int| 0 <= i < r.len() && r[i] == y;
                if i < p.len() {
                    assert(p[i] == y);
                    if rest.contains(y) {
                        let k = choose|k: int| 0 <= k < rest.len() && rest[k] == y;
                        assert(ks[k] == y);
                    }
                }
            }
            if ks.contains(y) {
                let k = choose|k: int| 0 <= k < ks.len() && ks[k] == y;
                if k < rest.len() {
                    assert(rest[k] == y);
                } else {
                    assert(r[p.len() as int] == y);
                }
            }
            if p.contains(y) {
                let i = choose|i: int| 0 <= i < p.len() && p[i] == y;
                assert(r[i] == y);
            }
        }
    }
}

/// A finite set of texts can be listed in order.
pub proof fn lemma_sorted_list_exists(s: Set<Seq<char>>) -> (ks: Seq<Seq<char>>)
    requires
        s.finite(),
    ensures
        strictly_sorted(ks),
        ks.to_set() == s,
    decreases s.len(),
{
    if s.len() == 0 {
        let ks = Seq::<Seq<char>>::empty();
        assert(ks.to_set() =~= s);
        ks
    } else {
        let x = s.choose();
        let rest = lemma_sorted_list_exists(s.remove(x));
        assert(!rest.contains(x)) by {
            if rest.contains(x) {
                assert(rest.to_set().contains(x));
            }
        }
        lemma_placed(rest, x);
        let ks = placed(rest, x);
        assert(ks.to_set() =~= s) by {
            assert forall|y: Seq<char>| ks.to_set().contains(y) <==> s.contains(y) by {
                assert(ks.contains(y) <==> rest.contains(y) || y == x);
                assert(rest.contains(y) <==> rest.to_set().contains(y));
            }
        }
        ks
    }
}

} // verus!
