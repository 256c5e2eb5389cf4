use vstd::prelude::*;

verus! {

/// A set of document ids, held as a strictly increasing sequence.
pub open spec fn strictly_sorted(s: Seq<u32>) -> bool {
    forall|i: int, j: int| 0 <= i < j < s.len() ==> s[i] < s[j]
}

/// The id sequences held by a list of id vectors.
pub open spec fn views_of(sets: Seq<Vec<u32>>) -> Seq<Seq<u32>> {
    sets.map_values(|v: Vec<u32>| v@)
}

proof fn lemma_contains_push(s: Seq<u32>, v: u32)
    ensures
        forall|x: u32| s.push(v).contains(x) <==> (s.contains(x) || x == v),
{
    assert forall|x: u32| s.push(v).contains(x) <==> (s.contains(x) || x == v) by {
        if s.contains(x) {
            let k = choose|k: int| 0 <= k < s.len() && s[k] == x;
            assert(s.push(v)[k] == x);
        }
        if x == v {
            assert(s.push(v)[s.len() as int] == x);
        }
        if s.push(v).contains(x) {
            let k = choose|k: int| 0 <= k < s.len() + 1 && s.push(v)[k] == x;
            if k < s.len() {
                assert(s[k] == x);
            }
        }
    }
}

proof fn lemma_contains_prefix_step(s: Seq<u32>, i: int)
    requires
        0 <= i < s.len(),
    ensures
        forall|x: u32|
            s.subrange(0, i + 1).contains(x) <==> (s.subrange(0, i).contains(x) || x == s[i]),
{
    assert(s.subrange(0, i + 1) == s.subrange(0, i).push(s[i]));
    lemma_contains_push(s.subrange(0, i), s[i]);
}

/// A copy of an id list.
pub fn copy_ids(v: &Vec<u32>) -> (r: Vec<u32>)
    ensures
        r@ == v@,
{
    let mut r: Vec<u32> = Vec::new();
    let mut i: usize = 0;
    while i < v.len()
        invariant
            i <= v.len(),
            r@ == v@.subrange(0, i as int),
        decreases v.len() - i,
    {
        r.push(v[i]);
        i = i + 1;
    }
    assert(v@.subrange(0, v.len() as int) == v@);
    r
}

/// Whether `x` is one of the ids of `s`.
pub fn contains(s: &Vec<u32>, x: u32) -> (r: bool)
    ensures
        r == s@.contains(x),
{
    let mut i: usize = 0;
    while i < s.len()
        invariant
            i <= s.len(),
            forall|k: int| 0 <= k < i ==> s@[k] != x,
        decreases s.len() - i,
    {
        if s[i] == x {
            assert(s@[i as int] == x);
            return true;
        }
        i = i + 1;
    }
    false
}

/// The ids that are in both sets, in increasing order.
pub fn intersection(a: &Vec<u32>, b: &Vec<u32>) -> (r: Vec<u32>)
    requires
        strictly_sorted(a@),
    ensures
        strictly_sorted(r@),
        forall|x: u32| r@.contains(x) <==> (a@.contains(x) && b@.contains(x)),
        r@.len() <= a@.len(),
{
    let mut r: Vec<u32> = Vec::new();
    let mut i: usize = 0;
    while i < a.len()
        invariant
            i <= a.len(),
            strictly_sorted(a@),
            strictly_sorted(r@),
            r@.len() <= i,
            forall|k: int, j: int| 0 <= k < r.len() && i <= j < a.len() ==> r@[k] < a@[j],
            forall|x: u32| r@.contains(x) <==> (a@.subrange(0, i as int).contains(x) && b@.contains(x)),
        decreases a.len() - i,
    {
        proof {
            lemma_contains_prefix_step(a@, i as int);
        }
        let v = a[i];
        let ghost prev = r@;
        if contains(b, v) {
            proof {
                lemma_contains_push(r@, v);
            }
            r.push(v);
        }
        assert forall|x: u32|
            r@.contains(x) <==> (a@.subrange(0, i + 1).contains(x) && b@.contains(x)) by {
            assert(prev.contains(x) <==> (a@.subrange(0, i as int).contains(x) && b@.contains(x)));
            assert(a@.subrange(0, i + 1).contains(x) <==> (a@.subrange(0, i as int).contains(x) || x == v));
            if r@ != prev {
                assert(r@.contains(x) <==> (prev.contains(x) || x == v));
            }
        }
        i = i + 1;
    }
    assert(a@.subrange(0, a.len() as int) == a@);
    r
}

/// The ids that are in either set, in increasing order.
pub fn union(a: &Vec<u32>, b: &Vec<u32>) -> (r: Vec<u32>)
    requires
        strictly_sorted(a@),
        strictly_sorted(b@),
    ensures
        strictly_sorted(r@),
        forall|x: u32| r@.contains(x) <==> (a@.contains(x) || b@.contains(x)),
        r@.len() <= a@.len() + b@.len(),
{
    let mut r: Vec<u32> = Vec::new();
    let mut i: usize = 0;
    let mut j: usize = 0;
    while i < a.len() || j < b.len()
        invariant
            i <= a.len(),
            j <= b.len(),
            strictly_sorted(a@),
            strictly_sorted(b@),
            strictly_sorted(r@),
            r@.len() <= i + j,
            forall|k: int, m: int| 0 <= k < r.len() && i <= m < a.len() ==> r@[k] < a@[m],
            forall|k: int, m: int| 0 <= k < r.len() && j <= m < b.len() ==> r@[k] < b@[m],
            forall|x: u32|
                r@.contains(x) <==> (a@.subrange(0, i as int).contains(x) || b@.subrange(
                    0,
                    j as int,
                ).contains(x)),
        decreases a.len() + b.len() - i - j,
    {
        let ghost prev = r@;
        let ghost oi = i as int;
        let ghost oj = j as int;
        let v: u32;
        if j >= b.len() || (i < a.len() && a[i] < b[j]) {
            v = a[i];
            proof {
                lemma_contains_prefix_step(a@, i as int);
            }
            i = i + 1;
        } else if i >= a.len() || b[j] < a[i] {
            v = b[j];
            proof {
                lemma_contains_prefix_step(b@, j as int);
            }
            j = j + 1;
        } else {
            v = a[i];
            proof {
                lemma_contains_prefix_step(a@, i as int);
                lemma_contains_prefix_step(b@, j as int);
            }
            i = i + 1;
            j = j + 1;
        }
        proof {
            lemma_contains_push(r@, v);
        }
        r.push(v);
        assert forall|x: u32|
            r@.contains(x) <==> (a@.subrange(0, i as int).contains(x) || b@.subrange(
                0,
                j as int,
            ).contains(x)) by {
            assert(prev.contains(x) <==> (a@.subrange(0, oi).contains(x) || b@.subrange(
                0,
                oj,
            ).contains(x)));
        }
    }
    assert(a@.subrange(0, a.len() as int) == a@);
    assert(b@.subrange(0, b.len() as int) == b@);
    r
}

} // verus!
