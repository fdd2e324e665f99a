use vstd::prelude::*;
use vstd::string::*;
use crate::task::names_view;

verus! {

/// Lexicographic order of texts by code point.
pub open spec fn text_lt(a: Seq<char>, b: Seq<char>) -> bool
    decreases a.len(),
{
    if a.len() == 0 {
        b.len() > 0
    } else if b.len() == 0 {
        false
    } else if a[0] != b[0] {
        (a[0] as u32) < (b[0] as u32)
    } else {
        text_lt(a.drop_first(), b.drop_first())
    }
}

/// Each text is before the next one.
pub open spec fn strictly_sorted(s: Seq<Seq<char>>) -> bool {
    forall|i: int, j: int| 0 <= i < j < s.len() ==> text_lt(#[trigger] s[i], #[trigger] s[j])
}

/// The texts of `s` in increasing order, each once.
pub open spec fn canonical(s: Set<Seq<char>>) -> Seq<Seq<char>> {
    choose|q: Seq<Seq<char>>| strictly_sorted(q) && q.to_set() == s
}

pub proof fn lemma_lt_irreflexive(a: Seq<char>)
    ensures
        !text_lt(a, a),
    decreases a.len(),
{
    if a.len() > 0 {
        lemma_lt_irreflexive(a.drop_first());
    }
}

pub proof fn lemma_lt_transitive(a: Seq<char>, b: Seq<char>, c: Seq<char>)
    requires
        text_lt(a, b),
        text_lt(b, c),
    ensures
        text_lt(a, c),
    decreases a.len(),
{
    if a.len() > 0 && b.len() > 0 && c.len() > 0 {
        if a[0] == b[0] && b[0] == c[0] {
            lemma_lt_transitive(a.drop_first(), b.drop_first(), c.drop_first());
        }
    }
}

pub proof fn lemma_lt_total(a: Seq<char>, b: Seq<char>)
    ensures
        a == b || text_lt(a, b) || text_lt(b, a),
    decreases a.len(),
{
    if a.len() > 0 && b.len() > 0 && a[0] == b[0] {
        lemma_lt_total(a.drop_first(), b.drop_first());
        if a.drop_first() == b.drop_first() {
            assert(a =~= seq![a[0]] + a.drop_first());
            assert(b =~= seq![b[0]] + b.drop_first());
        }
    } else if a.len() == 0 && b.len() == 0 {
        assert(a =~= b);
    } else if a.len() > 0 && b.len() > 0 {
        vstd::utf8::char_u32_cast(a[0], a[0] as u32);
        vstd::utf8::char_u32_cast(b[0], b[0] as u32);
        assert((a[0] as u32) != (b[0] as u32));
    }
}

/// Two strictly sorted sequences with the same elements are equal.
pub proof fn lemma_sorted_unique(p: Seq<Seq<char>>, q: Seq<Seq<char>>)
    requires
        strictly_sorted(p),
        strictly_sorted(q),
        p.to_set() == q.to_set(),
    ensures
        p == q,
    decreases p.len() + q.len(),
{
    if p.len() == 0 || q.len() == 0 {
        if p.len() > 0 {
            assert(p.to_set().contains(p[0]));
        }
        if q.len() > 0 {
            assert(q.to_set().contains(q[0]));
        }
        assert(p =~= q);
    } else {
        let x = p.last();
        let y = q.last();
        assert(q.to_set().contains(x));
        assert(p.to_set().contains(y));
        let i = choose|i: int| 0 <= i < q.len() && q[i] == x;
        let j = choose|j: int| 0 <= j < p.len() && p[j] == y;
        if x != y {
            lemma_lt_total(x, y);
            if text_lt(x, y) {
                if j < p.len() - 1 {
                    lemma_lt_transitive(y, x, y);
                    lemma_lt_irreflexive(y);
                }
            } else {
                if i < q.len() - 1 {
                    lemma_lt_transitive(x, y, x);
                    lemma_lt_irreflexive(x);
                }
            }
        }
        let p_rest = p.drop_last();
        let q_rest = q.drop_last();
        assert forall|z: Seq<char>| p_rest.to_set().contains(z) implies q_rest.to_set().contains(z) by {
            let a = choose|a: int| 0 <= a < p_rest.len() && p_rest[a] == z;
            assert(p.to_set().contains(z));
            let b = choose|b: int| 0 <= b < q.len() && q[b] == z;
            if b == q.len() - 1 {
                assert(text_lt(p[a], p[p.len() - 1]));
                lemma_lt_irreflexive(z);
            }
            assert(q_rest[b] == z);
        }
        assert forall|z: Seq<char>| q_rest.to_set().contains(z) implies p_rest.to_set().contains(z) by {
            let a = choose|a: int| 0 <= a < q_rest.len() && q_rest[a] == z;
            assert(q.to_set().contains(z));
            let b = choose|b: int| 0 <= b < p.len() && p[b] == z;
            if b == p.len() - 1 {
                assert(text_lt(q[a], q[q.len() - 1]));
                lemma_lt_irreflexive(z);
            }
            assert(p_rest[b] == z);
        }
        assert(p_rest.to_set() =~= q_rest.to_set());
        lemma_sorted_unique(p_rest, q_rest);
        assert(p =~= p_rest.push(x));
        assert(q =~= q_rest.push(y));
    }
}

proof fn lemma_push_set(q: Seq<Seq<char>>, x: Seq<char>)
    ensures
        q.push(x).to_set() == q.to_set().insert(x),
{
    assert forall|z: Seq<char>| q.push(x).to_set().contains(z) <==> q.to_set().insert(x).contains(z) by {
        if q.push(x).to_set().contains(z) && z != x {
            let k = choose|k: int| 0 <= k < q.len() + 1 && q.push(x)[k] == z;
            assert(q[k] == z);
        }
        if q.to_set().contains(z) {
            let k = choose|k: int| 0 <= k < q.len() && q[k] == z;
            assert(q.push(x)[k] == z);
        }
        if z == x {
            assert(q.push(x)[q.len() as int] == z);
        }
    }
    assert(q.push(x).to_set() =~= q.to_set().insert(x));
}

proof fn lemma_insert_sorted(q: Seq<Seq<char>>, x: Seq<char>)
    requires
        strictly_sorted(q),
        !q.contains(x),
    ensures
        exists|r: Seq<Seq<char>>| strictly_sorted(r) && #[trigger] r.to_set() == q.to_set().insert(x),
    decreases q.len(),
{
    if q.len() == 0 {
        let r = seq![x];
        assert(r =~= q.push(x));
        lemma_push_set(q, x);
        assert(strictly_sorted(r));
    } else {
        let y = q.last();
        let p = q.drop_last();
        assert(q =~= p.push(y));
        lemma_lt_total(x, y);
        if text_lt(y, x) {
            let r = q.push(x);
            assert forall|a: int, b: int| 0 <= a < b < r.len() implies text_lt(#[trigger] r[a], #[trigger] r[b]) by {
                if b == q.len() && a < q.len() - 1 {
                    lemma_lt_transitive(q[a], y, x);
                }
            }
            lemma_push_set(q, x);
        } else {
            assert(text_lt(x, y));
            assert(strictly_sorted(p));
            lemma_insert_sorted(p, x);
            let r0 = choose|r0: Seq<Seq<char>>| strictly_sorted(r0) && #[trigger] r0.to_set() == p.to_set().insert(x);
            let r = r0.push(y);
            assert forall|a: int, b: int| 0 <= a < b < r.len() implies text_lt(#[trigger] r[a], #[trigger] r[b]) by {
                if b == r0.len() {
                    assert(r0.to_set().contains(r0[a]));
                    if r0[a] != x {
                        let k = choose|k: int| 0 <= k < p.len() && p[k] == r0[a];
                        assert(q[k] == r0[a]);
                    }
                }
            }
            assert forall|z: Seq<char>| r.to_set().contains(z) <==> q.to_set().insert(x).contains(z) by {
                if r.to_set().contains(z) && z != y {
                    let k = choose|k: int| 0 <= k < r.len() && r[k] == z;
                    assert(r0[k] == z);
                    assert(r0.to_set().contains(z));
                    if z != x {
                        let k2 = choose|k2: int| 0 <= k2 < p.len() && p[k2] == z;
                        assert(q[k2] == z);
                    }
                }
                if r.to_set().contains(z) && z == y {
                    assert(q[q.len() - 1] == z);
                }
                if q.to_set().insert(x).contains(z) {
                    if z == y {
                        assert(r[r.len() - 1] == z);
                    } else if z == x {
                        assert(r0.to_set().contains(z));
                        let k = choose|k: int| 0 <= k < r0.len() && r0[k] == z;
                        assert(r[k] == z);
                    } else {
                        let k = choose|k: int| 0 <= k < q.len() && q[k] == z;
                        assert(p[k] == z);
                        assert(p.to_set().contains(z));
                        assert(r0.to_set().contains(z));
                        let k2 = choose|k2: int| 0 <= k2 < r0.len() && r0[k2] == z;
                        assert(r[k2] == z);
                    }
                }
            }
            assert(r.to_set() =~= q.to_set().insert(x));
        }
    }
}

/// Every finite sequence of texts has a strictly sorted arrangement of its
/// elements.
pub proof fn lemma_sorted_exists(s: Seq<Seq<char>>)
    ensures
        exists|q: Seq<Seq<char>>| strictly_sorted(q) && #[trigger] q.to_set() == s.to_set(),
        strictly_sorted(canonical(s.to_set())),
        canonical(s.to_set()).to_set() == s.to_set(),
    decreases s.len(),
{
    if s.len() == 0 {
        let q = Seq::<Seq<char>>::empty();
        assert(q.to_set() =~= s.to_set());
    } else {
        let p = s.drop_last();
        let x = s.last();
        lemma_sorted_exists(p);
        let q = choose|q: Seq<Seq<char>>| strictly_sorted(q) && #[trigger] q.to_set() == p.to_set();
        assert(s =~= p.push(x));
        assert(s.to_set() =~= p.to_set().insert(x)) by {
            assert forall|z: Seq<char>| s.to_set().contains(z) <==> p.to_set().insert(x).contains(z) by {
                if s.to_set().contains(z) && z != x {
                    let k = choose|k: int| 0 <= k < s.len() && s[k] == z;
                    assert(p[k] == z);
                }
                if p.to_set().contains(z) {
                    let k = choose|k: int| 0 <= k < p.len() && p[k] == z;
                    assert(s[k] == z);
                }
                if z == x {
                    assert(s[s.len() - 1] == z);
                }
            }
        }
        if q.contains(x) {
            assert(q.to_set().contains(x));
            assert(q.to_set().insert(x) =~= q.to_set());
        } else {
            lemma_insert_sorted(q, x);
        }
    }
}

/// A strictly sorted sequence is the canonical order of its elements.
pub proof fn lemma_canonical(q: Seq<Seq<char>>)
    requires
        strictly_sorted(q),
    ensures
        canonical(q.to_set()) == q,
{
    let c = canonical(q.to_set());
    assert(strictly_sorted(c) && c.to_set() == q.to_set());
    lemma_sorted_unique(c, q);
}

/// Whether `a` comes before `b`.
pub fn less_than(a: &str, b: &str) -> (r: bool)
    ensures
        r == text_lt(a@, b@),
{
    let la = a.unicode_len();
    let lb = b.unicode_len();
    let mut i: usize = 0;
    assert(a@.skip(0) =~= a@);
    assert(b@.skip(0) =~= b@);
    while i < la && i < lb
        invariant
            i <= la,
            i <= lb,
            la == a@.len(),
            lb == b@.len(),
            text_lt(a@, b@) == text_lt(a@.skip(i as int), b@.skip(i as int)),
        decreases la - i,
    {
        let ca = a.get_char(i);
        let cb = b.get_char(i);
        if ca != cb {
            return (ca as u32) < (cb as u32);
        }
        assert(a@.skip(i as int).drop_first() =~= a@.skip(i + 1));
        assert(b@.skip(i as int).drop_first() =~= b@.skip(i + 1));
        i = i + 1;
    }
    lb > i
}

/// The distinct texts of `v`, in increasing order.
pub fn sorted_unique(v: &Vec<String>) -> (r: Vec<String>)
    ensures
        strictly_sorted(names_view(r@)),
        names_view(r@).to_set() == names_view(v@).to_set(),
        names_view(r@) == canonical(names_view(v@).to_set()),
{
    let ghost vv = names_view(v@);
    let mut r: Vec<String> = Vec::new();
    let mut i: usize = 0;
    proof {
        assert(names_view(r@).to_set() =~= vv.subrange(0, 0).to_set());
    }
    while i < v.len()
        invariant
            i <= v@.len(),
            vv == names_view(v@),
            strictly_sorted(names_view(r@)),
            names_view(r@).to_set() == vv.subrange(0, i as int).to_set(),
        decreases v.len() - i,
    {
        let x = &v[i];
        let ghost rv = names_view(r@);
        let mut j: usize = 0;
        while j < r.len() && less_than(r[j].as_str(), x.as_str())
            invariant
                j <= r@.len(),
                rv == names_view(r@),
                forall|k: int| 0 <= k < j ==> text_lt(#[trigger] rv[k], x@),
            decreases r.len() - j,
        {
            j = j + 1;
        }
        let present = j < r.len() && r[j] == *x;
        if !present {
            r.insert(j, x.clone());
            proof {
                let nv = names_view(r@);
                assert(nv =~= rv.insert(j as int, x@));
                if j < rv.len() {
                    lemma_lt_total(rv[j as int], x@);
                }
                assert forall|a: int, b: int| 0 <= a < b < nv.len() implies text_lt(#[trigger] nv[a], #[trigger] nv[b]) by {
                    if a < j && b == j {
                    } else if a == j && b > j {
                        assert(nv[b] == rv[b - 1]);
                        if b - 1 > j {
                            lemma_lt_transitive(x@, rv[j as int], rv[b - 1]);
                        }
                    } else if a < j && b > j {
                        assert(nv[b] == rv[b - 1]);
                    } else if a > j {
                        assert(nv[a] == rv[a - 1] && nv[b] == rv[b - 1]);
                    }
                }
                assert forall|z: Seq<char>| nv.to_set().contains(z) <==> rv.to_set().insert(x@).contains(z) by {
                    if nv.to_set().contains(z) {
                        let a = choose|a: int| 0 <= a < nv.len() && nv[a] == z;
                        if a < j {
                            assert(rv[a] == z);
                        } else if a > j {
                            assert(rv[a - 1] == z);
                        }
                    }
                    if rv.to_set().contains(z) {
                        let a = choose|a: int| 0 <= a < rv.len() && rv[a] == z;
                        if a < j {
                            assert(nv[a] == z);
                        } else {
                            assert(nv[a + 1] == z);
                        }
                    }
                    if z == x@ {
                        assert(nv[j as int] == z);
                    }
                }
                assert(nv.to_set() =~= rv.to_set().insert(x@));
            }
        } else {
            proof {
                assert(rv[j as int] == r@[j as int]@);
                assert(rv[j as int] == x@);
                assert(rv.to_set().contains(x@));
            }
        }
        proof {
            assert(vv.subrange(0, i + 1) =~= vv.subrange(0, i as int).push(x@));
            let pre = vv.subrange(0, i as int);
            assert forall|z: Seq<char>| pre.push(x@).to_set().contains(z) <==> pre.to_set().insert(x@).contains(z) by {
                if pre.push(x@).to_set().contains(z) {
                    let a = choose|a: int| 0 <= a < pre.len() + 1 && pre.push(x@)[a] == z;
                    if a < pre.len() {
                        assert(pre[a] == z);
                    }
                }
                if pre.to_set().contains(z) {
                    let a = choose|a: int| 0 <= a < pre.len() && pre[a] == z;
                    assert(pre.push(x@)[a] == z);
                }
                if z == x@ {
                    assert(pre.push(x@)[pre.len() as int] == z);
                }
            }
            assert(pre.push(x@).to_set() =~= pre.to_set().insert(x@));
            assert(names_view(r@).to_set() =~= vv.subrange(0, i + 1).to_set());
        }
        i = i + 1;
    }
    proof {
        assert(vv.subrange(0, v@.len() as int) =~= vv);
        lemma_canonical(names_view(r@));
    }
    r
}

} // verus!
