//! The order in which paths and diagnostics are listed.
//!
//! Paths are compared as texts, character by character, with the separator
//! below every other character. For clean paths, the ones a walk produces
//! (single `/` separators, no `.` components, no trailing `/`), that is the
//! component-by-component order of `Path`. It is not that order for other
//! spellings: `a/./b` and `a//b` are the same `Path` as `a/b` but are
//! different texts here, and are ordered as texts.

use vstd::prelude::*;


verus! {

/// A character's rank in path order: the separator first, then every other
/// character by its code point.
pub open spec fn path_rank(c: char) -> int {
    if c == '/' {
        0
    } else {
        c as u32 as int + 1
    }
}

/// Whether path `a` comes before path `b`, as texts with `/` lowest: the
/// component order of clean paths.
pub open spec fn path_before(a: Seq<char>, b: Seq<char>) -> bool
    decreases a.len(),
{
    if a.len() == 0 {
        b.len() > 0
    } else if b.len() == 0 {
        false
    } else if path_rank(a[0]) != path_rank(b[0]) {
        path_rank(a[0]) < path_rank(b[0])
    } else {
        path_before(a.drop_first(), b.drop_first())
    }
}

proof fn lemma_rank_injective(x: char, y: char)
    requires
        path_rank(x) == path_rank(y),
    ensures
        x == y,
{
    if x != '/' && y != '/' {
        assert(x as u32 == y as u32);
    }
}

pub proof fn lemma_path_before_irreflexive(a: Seq<char>)
    ensures
        !path_before(a, a),
    decreases a.len(),
{
    if a.len() > 0 {
        lemma_path_before_irreflexive(a.drop_first());
    }
}

pub proof fn lemma_path_before_total(a: Seq<char>, b: Seq<char>)
    requires
        a != b,
    ensures
        path_before(a, b) || path_before(b, a),
    decreases a.len(),
{
    if a.len() > 0 && b.len() > 0 && path_rank(a[0]) == path_rank(b[0]) {
        lemma_rank_injective(a[0], b[0]);
        if a.drop_first() == b.drop_first() {
            assert(a =~= seq![a[0]] + a.drop_first());
            assert(b =~= seq![b[0]] + b.drop_first());
        }
        lemma_path_before_total(a.drop_first(), b.drop_first());
    } else if a.len() == 0 && b.len() == 0 {
        assert(a =~= b);
    }
}

pub proof fn lemma_path_before_transitive(a: Seq<char>, b: Seq<char>, c: Seq<char>)
    requires
        path_before(a, b),
        path_before(b, c),
    ensures
        path_before(a, c),
    decreases a.len(),
{
    if a.len() > 0 && path_rank(a[0]) == path_rank(b[0]) && path_rank(b[0]) == path_rank(c[0]) {
        lemma_path_before_transitive(a.drop_first(), b.drop_first(), c.drop_first());
    }
}

/// Whether line `x` comes before line `y`: no line first.
pub open spec fn line_before(x: Option<usize>, y: Option<usize>) -> bool {
    match (x, y) {
        (None, Some(_)) => true,
        (Some(a), Some(b)) => a < b,
        _ => false,
    }
}

/// Whether the key `(path, line)` of `a` comes before that of `b`.
pub open spec fn key_before(a: (Seq<char>, Option<usize>), b: (Seq<char>, Option<usize>)) -> bool {
    path_before(a.0, b.0) || (a.0 == b.0 && line_before(a.1, b.1))
}

/// The order a stable sort leaves entries in: by key, and by input
/// position among equal keys.
pub open spec fn placed_before(keys: Seq<(Seq<char>, Option<usize>)>, i: int, j: int) -> bool {
    key_before(keys[i], keys[j]) || (keys[i] == keys[j] && i < j)
}

/// `p` lists every position of `keys` once, in the order a stable sort by
/// key leaves them.
pub open spec fn is_stable_order(keys: Seq<(Seq<char>, Option<usize>)>, p: Seq<int>) -> bool {
    &&& p.len() == keys.len()
    &&& forall|i: int| 0 <= i < p.len() ==> 0 <= #[trigger] p[i] < keys.len()
    &&& forall|i: int, j: int| 0 <= i < j < p.len() ==> p[i] != p[j]
    &&& forall|i: int, j: int|
        0 <= i < j < p.len() ==> placed_before(keys, #[trigger] p[i], #[trigger] p[j])
}

proof fn lemma_placed_total(keys: Seq<(Seq<char>, Option<usize>)>, i: int, j: int)
    requires
        i != j,
    ensures
        placed_before(keys, i, j) || placed_before(keys, j, i),
{
    let (a, b) = (keys[i], keys[j]);
    if a.0 != b.0 {
        lemma_path_before_total(a.0, b.0);
    } else if a.1 != b.1 {
    } else {
        assert(a == b);
    }
}

proof fn lemma_placed_transitive(keys: Seq<(Seq<char>, Option<usize>)>, i: int, j: int, k: int)
    requires
        placed_before(keys, i, j),
        placed_before(keys, j, k),
    ensures
        placed_before(keys, i, k),
{
    let (a, b, c) = (keys[i], keys[j], keys[k]);
    if path_before(a.0, b.0) && path_before(b.0, c.0) {
        lemma_path_before_transitive(a.0, b.0, c.0);
    }
    if a.0 == c.0 && path_before(a.0, b.0) && path_before(b.0, c.0) {
        lemma_path_before_irreflexive(a.0);
    }
    if a.0 == c.0 && (path_before(a.0, b.0) || path_before(b.0, c.0)) && !(path_before(a.0, b.0)
        && path_before(b.0, c.0)) {
        // One step moves strictly and the other keeps the path: then a and c
        // differ in path, contradicting a.0 == c.0 unless the strict one
        // returns to where it started.
        if path_before(a.0, b.0) {
            lemma_path_before_irreflexive(a.0);
        } else {
            lemma_path_before_irreflexive(b.0);
        }
    }
}

proof fn lemma_placed_irreflexive(keys: Seq<(Seq<char>, Option<usize>)>, i: int)
    ensures
        !placed_before(keys, i, i),
{
    lemma_path_before_irreflexive(keys[i].0);
}

/// A stable order lists every position: each one occurs in it somewhere.
proof fn lemma_stable_order_lists_all(keys: Seq<(Seq<char>, Option<usize>)>, p: Seq<int>, x: int)
    requires
        is_stable_order(keys, p),
        0 <= x < p.len(),
    ensures
        exists|b: int| 0 <= b < p.len() && p[b] == x,
{
    broadcast use vstd::seq_lib::seq_to_set_is_finite;

    assert(p.no_duplicates()) by {
        assert forall|i: int, j: int| 0 <= i < p.len() && 0 <= j < p.len() && i != j implies p[i]
            != p[j] by {
            if j < i {
                assert(p[j] != p[i]);
            }
        }
    }
    p.unique_seq_to_set();
    let all = vstd::set_lib::set_int_range(0, p.len() as int);
    vstd::set_lib::lemma_int_range(0, p.len() as int);
    assert(p.to_set().subset_of(all)) by {
        assert forall|v: int| p.to_set().contains(v) implies all.contains(v) by {
            let i = choose|i: int| 0 <= i < p.len() && p[i] == v;
            assert(0 <= p[i] < keys.len());
        }
    }
    vstd::set_lib::lemma_subset_equality(p.to_set(), all);
    assert(all.contains(x));
    assert(p.to_set().contains(x));
}

/// Sorting is deterministic: the keys alone decide the stable order, so two
/// runs on the same input list it the same way.
pub proof fn law_stable_order_is_unique(keys: Seq<(Seq<char>, Option<usize>)>, p: Seq<int>, q: Seq<int>)
    requires
        is_stable_order(keys, p),
        is_stable_order(keys, q),
    ensures
        p == q,
{
    assert forall|a: int| 0 <= a < p.len() implies p[a] == q[a] by {
        lemma_stable_order_prefix(keys, p, q, a);
    }
    assert(p =~= q);
}

proof fn lemma_stable_order_prefix(keys: Seq<(Seq<char>, Option<usize>)>, p: Seq<int>, q: Seq<int>, a: int)
    requires
        is_stable_order(keys, p),
        is_stable_order(keys, q),
        0 <= a < p.len(),
    ensures
        p[a] == q[a],
    decreases a,
{
    assert forall|i: int| 0 <= i < a implies p[i] == q[i] by {
        lemma_stable_order_prefix(keys, p, q, i);
    }
    let (x, y) = (p[a], q[a]);
    if x != y {
        lemma_stable_order_lists_all(keys, q, x);
        let b = choose|b: int| 0 <= b < q.len() && q[b] == x;
        if b < a {
            assert(p[b] == x);
        }
        assert(b > a);
        assert(placed_before(keys, q[a], q[b]));
        lemma_stable_order_lists_all(keys, p, y);
        let c = choose|c: int| 0 <= c < p.len() && p[c] == y;
        if c < a {
            assert(q[c] == y);
        }
        assert(c > a);
        assert(placed_before(keys, p[a], p[c]));
        lemma_placed_transitive(keys, x, y, x);
        lemma_placed_irreflexive(keys, x);
    }
}

/// Whether path `a` comes before path `b`.
pub fn path_less(a: &Vec<char>, b: &Vec<char>) -> (r: bool)
    ensures
        r == path_before(a@, b@),
{
    let mut i: usize = 0;
    assert(a@.skip(0) =~= a@);
    assert(b@.skip(0) =~= b@);
    while i < a.len() && i < b.len()
        invariant
            i <= a.len(),
            i <= b.len(),
            path_before(a@.skip(i as int), b@.skip(i as int)) == path_before(a@, b@),
        decreases a.len() - i,
    {
        let x = if a[i] == '/' {
            0u64
        } else {
            a[i] as u32 as u64 + 1
        };
        let y = if b[i] == '/' {
            0u64
        } else {
            b[i] as u32 as u64 + 1
        };
        assert(a@.skip(i as int)[0] == a@[i as int]);
        assert(b@.skip(i as int)[0] == b@[i as int]);
        if x != y {
            return x < y;
        }
        assert(a@.skip(i as int).drop_first() =~= a@.skip(i + 1));
        assert(b@.skip(i as int).drop_first() =~= b@.skip(i + 1));
        i += 1;
    }
    i < b.len()
}

fn line_less(x: Option<usize>, y: Option<usize>) -> (r: bool)
    ensures
        r == line_before(x, y),
{
    match (x, y) {
        (None, Some(_)) => true,
        (Some(a), Some(b)) => a < b,
        _ => false,
    }
}

fn same_chars(a: &Vec<char>, b: &Vec<char>) -> (r: bool)
    ensures
        r == (a@ == b@),
{
    crate::text::chars_eq(a, b)
}

pub open spec fn key_views(keys: Seq<(Vec<char>, Option<usize>)>) -> Seq<(Seq<char>, Option<usize>)> {
    keys.map_values(|k: (Vec<char>, Option<usize>)| (k.0@, k.1))
}

fn key_less(keys: &Vec<(Vec<char>, Option<usize>)>, i: usize, j: usize) -> (r: bool)
    requires
        i < keys.len(),
        j < keys.len(),
    ensures
        r == key_before(key_views(keys@)[i as int], key_views(keys@)[j as int]),
{
    let (pa, la) = &keys[i];
    let (pb, lb) = &keys[j];
    path_less(pa, pb) || (same_chars(pa, pb) && line_less(*la, *lb))
}

/// The positions of `keys` in the order a stable sort by key leaves them.
pub fn stable_order(keys: &Vec<(Vec<char>, Option<usize>)>) -> (p: Vec<usize>)
    ensures
        is_stable_order(key_views(keys@), p@.map_values(|i: usize| i as int)),
{
    let ghost kv = key_views(keys@);
    let mut p: Vec<usize> = Vec::new();
    let mut n: usize = 0;
    while n < keys.len()
        invariant
            n <= keys.len(),
            kv == key_views(keys@),
            kv.len() == keys.len(),
            p.len() == n,
            forall|a: int| 0 <= a < p.len() ==> #[trigger] p@[a] < n,
            forall|a: int, b: int| 0 <= a < b < p.len() ==> p@[a] != p@[b],
            forall|a: int, b: int|
                0 <= a < b < p.len() ==> placed_before(
                    kv,
                    #[trigger] p@[a] as int,
                    #[trigger] p@[b] as int,
                ),
        decreases keys.len() - n,
    {
        // Find where `n` goes: before the first entry it is placed before.
        let mut q: usize = 0;
        while q < p.len() && !key_less(keys, n, p[q])
            invariant
                q <= p.len(),
                n < keys.len(),
                kv == key_views(keys@),
                p.len() == n,
                forall|a: int| 0 <= a < p.len() ==> #[trigger] p@[a] < n,
                forall|a: int| 0 <= a < q ==> placed_before(kv, #[trigger] p@[a] as int, n as int),
            decreases p.len() - q,
        {
            proof {
                lemma_placed_total(kv, n as int, p@[q as int] as int);
            }
            q += 1;
        }
        let ghost old_p = p@;
        proof {
            assert forall|b: int| q <= b < old_p.len() implies placed_before(
                kv,
                n as int,
                #[trigger] old_p[b] as int,
            ) by {
                if b > q {
                    lemma_placed_transitive(kv, n as int, old_p[q as int] as int, old_p[b] as int);
                }
            }
        }
        p.insert(q, n);
        assert forall|a: int, b: int| 0 <= a < b < p.len() implies placed_before(
            kv,
            #[trigger] p@[a] as int,
            #[trigger] p@[b] as int,
        ) by {
            if b < q {
                assert(p@[a] == old_p[a] && p@[b] == old_p[b]);
            } else if b == q {
                assert(p@[a] == old_p[a]);
            } else if a < q {
                assert(p@[a] == old_p[a] && p@[b] == old_p[b - 1]);
            } else if a == q {
                assert(p@[b] == old_p[b - 1]);
            } else {
                assert(p@[a] == old_p[a - 1] && p@[b] == old_p[b - 1]);
            }
        }
        assert forall|a: int, b: int| 0 <= a < b < p.len() implies p@[a] != p@[b] by {
            if b < q {
                assert(p@[a] == old_p[a] && p@[b] == old_p[b]);
            } else if b == q {
                assert(p@[a] == old_p[a]);
            } else if a < q {
                assert(p@[a] == old_p[a] && p@[b] == old_p[b - 1]);
            } else if a == q {
                assert(p@[b] == old_p[b - 1]);
            } else {
                assert(p@[a] == old_p[a - 1] && p@[b] == old_p[b - 1]);
            }
        }
        assert forall|a: int| 0 <= a < p.len() implies #[trigger] p@[a] < n + 1 by {
            if a < q {
                assert(p@[a] == old_p[a]);
            } else if a > q {
                assert(p@[a] == old_p[a - 1]);
            }
        }
        n += 1;
    }
    p
}

} // verus!
