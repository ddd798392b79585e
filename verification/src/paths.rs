//! Paths and their order.
//!
//! Paths are ordered as Rust orders strings: by the bytes of their UTF-8
//! encoding, the shorter of two first where one begins the other. Lists of
//! paths that are kept in that order, without repetition, are what a manifest
//! holds.

use vstd::prelude::*;
use vstd::utf8::*;
use vstd::string::*;

verus! {

broadcast use vstd::utf8::encode_utf8_decode_utf8;

/// Lexicographic order on byte strings, strict.
pub open spec fn bytes_lt(a: Seq<u8>, b: Seq<u8>) -> bool
    decreases a.len(),
{
    if b.len() == 0 {
        false
    } else if a.len() == 0 {
        true
    } else if a[0] != b[0] {
        a[0] < b[0]
    } else {
        bytes_lt(a.drop_first(), b.drop_first())
    }
}

/// The order of paths: that of their UTF-8 encodings.
pub open spec fn path_lt(a: Seq<char>, b: Seq<char>) -> bool {
    bytes_lt(encode_utf8(a), encode_utf8(b))
}

/// Each path comes before all that follow it; so none occurs twice.
pub open spec fn strictly_sorted(s: Seq<Seq<char>>) -> bool {
    forall|i: int, j: int| 0 <= i < j < s.len() ==> path_lt(#[trigger] s[i], #[trigger] s[j])
}

/// The paths that a vector of strings holds, in its order.
pub open spec fn path_seq(v: Seq<String>) -> Seq<Seq<char>> {
    Seq::new(v.len(), |i: int| v[i]@)
}

/// How one path stands to another.
#[derive(Debug, Clone, Copy, PartialEq, Eq, Structural)]
pub enum PathOrder {
    Less,
    Equal,
    Greater,
}

/// No byte string comes before itself.
pub proof fn lemma_bytes_lt_irreflexive(a: Seq<u8>)
    ensures
        !bytes_lt(a, a),
    decreases a.len(),
{
    if a.len() > 0 {
        lemma_bytes_lt_irreflexive(a.drop_first());
    }
}

/// The order of byte strings is transitive.
pub proof fn lemma_bytes_lt_transitive(a: Seq<u8>, b: Seq<u8>, c: Seq<u8>)
    requires
        bytes_lt(a, b),
        bytes_lt(b, c),
    ensures
        bytes_lt(a, c),
    decreases a.len(),
{
    if a.len() > 0 && b.len() > 0 && c.len() > 0 && a[0] == b[0] && b[0] == c[0] {
        lemma_bytes_lt_transitive(a.drop_first(), b.drop_first(), c.drop_first());
    }
}

/// Paths with the same encoding are the same path.
pub proof fn lemma_encoding_injective(a: Seq<char>, b: Seq<char>)
    requires
        encode_utf8(a) == encode_utf8(b),
    ensures
        a == b,
{
    assert(decode_utf8(encode_utf8(a)) == a);
    assert(decode_utf8(encode_utf8(b)) == b);
}

/// No path comes before itself.
pub proof fn lemma_path_lt_irreflexive(a: Seq<char>)
    ensures
        !path_lt(a, a),
{
    lemma_bytes_lt_irreflexive(encode_utf8(a));
}

/// The order of paths is transitive.
pub proof fn lemma_path_lt_transitive(a: Seq<char>, b: Seq<char>, c: Seq<char>)
    requires
        path_lt(a, b),
        path_lt(b, c),
    ensures
        path_lt(a, c),
{
    lemma_bytes_lt_transitive(encode_utf8(a), encode_utf8(b), encode_utf8(c));
}

/// A list in strict order holds no path twice.
pub proof fn lemma_sorted_no_duplicates(s: Seq<Seq<char>>)
    requires
        strictly_sorted(s),
    ensures
        s.no_duplicates(),
{
    assert forall|i: int, j: int| 0 <= i < s.len() && 0 <= j < s.len() && i != j implies s[i]
        != s[j] by {
        if i < j {
            assert(path_lt(s[i], s[j]));
            lemma_path_lt_irreflexive(s[i]);
        } else {
            assert(path_lt(s[j], s[i]));
            lemma_path_lt_irreflexive(s[i]);
        }
    }
}

/// Two lists in strict order that hold the same paths are the same list.
pub proof fn lemma_sorted_unique(s: Seq<Seq<char>>, t: Seq<Seq<char>>)
    requires
        strictly_sorted(s),
        strictly_sorted(t),
        forall|p: Seq<char>|
            #![trigger s.contains(p)]
            #![trigger t.contains(p)]
            s.contains(p) <==> t.contains(p),
    ensures
        s == t,
    decreases s.len(),
{
    if s.len() == 0 {
        if t.len() > 0 {
            assert(t.contains(t[0]));
            assert(s.contains(t[0]));
        }
        assert(s =~= t);
    } else if t.len() == 0 {
        assert(s.contains(s[0]));
        assert(t.contains(s[0]));
    } else {
        let x = s.last();
        let y = t.last();
        assert(s.contains(x));
        assert(t.contains(y));
        assert(t.contains(x));
        assert(s.contains(y));
        let i = choose|i: int| 0 <= i < t.len() && t[i] == x;
        let j = choose|j: int| 0 <= j < s.len() && s[j] == y;
        if x != y {
            assert(i < t.len() - 1);
            assert(j < s.len() - 1);
            assert(path_lt(t[i], t[t.len() - 1]));
            assert(path_lt(s[j], s[s.len() - 1]));
            lemma_path_lt_transitive(x, y, x);
            lemma_path_lt_irreflexive(x);
        }
        let s1 = s.drop_last();
        let t1 = t.drop_last();
        lemma_sorted_no_duplicates(s);
        lemma_sorted_no_duplicates(t);
        assert forall|p: Seq<char>| s1.contains(p) <==> t1.contains(p) by {
            if s1.contains(p) {
                let k = choose|k: int| 0 <= k < s1.len() && s1[k] == p;
                assert(s[k] == p);
                assert(s.contains(p));
                assert(p != x);
                let m = choose|m: int| 0 <= m < t.len() && t[m] == p;
                assert(t1[m] == p);
            }
            if t1.contains(p) {
                let k = choose|k: int| 0 <= k < t1.len() && t1[k] == p;
                assert(t[k] == p);
                assert(t.contains(p));
                assert(p != y);
                let m = choose|m: int| 0 <= m < s.len() && s[m] == p;
                assert(s1[m] == p);
            }
        }
        assert(strictly_sorted(s1)) by {
            assert forall|a: int, b: int| 0 <= a < b < s1.len() implies path_lt(
                #[trigger] s1[a],
                #[trigger] s1[b],
            ) by {
                assert(path_lt(s[a], s[b]));
            }
        }
        assert(strictly_sorted(t1)) by {
            assert forall|a: int, b: int| 0 <= a < b < t1.len() implies path_lt(
                #[trigger] t1[a],
                #[trigger] t1[b],
            ) by {
                assert(path_lt(t[a], t[b]));
            }
        }
        lemma_sorted_unique(s1, t1);
        assert(s =~= s1.push(x));
        assert(t =~= t1.push(y));
    }
}

/// Compares two paths by the bytes of their encodings.
pub fn path_order(a: &str, b: &str) -> (order: PathOrder)
    ensures
        order == PathOrder::Less <==> path_lt(a@, b@),
        order == PathOrder::Equal <==> a@ == b@,
        order == PathOrder::Greater <==> path_lt(b@, a@),
{
    let x = a.as_bytes();
    let y = b.as_bytes();
    let ghost xs = encode_utf8(a@);
    let ghost ys = encode_utf8(b@);
    let mut i: usize = 0;
    proof {
        assert(xs.skip(0) =~= xs);
        assert(ys.skip(0) =~= ys);
    }
    while i < x.len() && i < y.len()
        invariant
            x@ == xs,
            y@ == ys,
            xs == encode_utf8(a@),
            ys == encode_utf8(b@),
            i <= xs.len(),
            i <= ys.len(),
            xs.take(i as int) == ys.take(i as int),
            bytes_lt(xs, ys) == bytes_lt(xs.skip(i as int), ys.skip(i as int)),
            bytes_lt(ys, xs) == bytes_lt(ys.skip(i as int), xs.skip(i as int)),
        decreases xs.len() - i,
    {
        let ghost xr = xs.skip(i as int);
        let ghost yr = ys.skip(i as int);
        proof {
            assert(xr[0] == xs[i as int]);
            assert(yr[0] == ys[i as int]);
            assert(xr.drop_first() =~= xs.skip(i + 1));
            assert(yr.drop_first() =~= ys.skip(i + 1));
        }
        if x[i] < y[i] {
            proof {
                assert(bytes_lt(xr, yr));
                assert(!bytes_lt(yr, xr));
                assert(xs[i as int] != ys[i as int]);
            }
            return PathOrder::Less;
        }
        if x[i] > y[i] {
            proof {
                assert(bytes_lt(yr, xr));
                assert(!bytes_lt(xr, yr));
                assert(xs[i as int] != ys[i as int]);
            }
            return PathOrder::Greater;
        }
        proof {
            assert(xs.take(i + 1) =~= xs.take(i as int).push(xs[i as int]));
            assert(ys.take(i + 1) =~= ys.take(i as int).push(ys[i as int]));
        }
        i += 1;
    }
    proof {
        let xr = xs.skip(i as int);
        let yr = ys.skip(i as int);
        if xs.len() == ys.len() {
            assert(xs.take(i as int) =~= xs);
            assert(ys.take(i as int) =~= ys);
            lemma_encoding_injective(a@, b@);
            lemma_bytes_lt_irreflexive(xs);
        } else {
            assert(xr.len() == 0 || yr.len() == 0);
        }
    }
    if x.len() < y.len() {
        PathOrder::Less
    } else if x.len() > y.len() {
        PathOrder::Greater
    } else {
        PathOrder::Equal
    }
}

/// Whether `list` holds `path`.
pub fn contains_path(list: &Vec<String>, path: &String) -> (found: bool)
    ensures
        found == path_seq(list@).contains(path@),
{
    let mut i: usize = 0;
    while i < list.len()
        invariant
            i <= list.len(),
            forall|k: int| 0 <= k < i ==> path_seq(list@)[k] != path@,
        decreases list.len() - i,
    {
        if list[i] == *path {
            proof {
                assert(path_seq(list@)[i as int] == path@);
            }
            return true;
        }
        i += 1;
    }
    false
}

/// A path that falls between two neighbours of a list in strict order, or
/// before its first or after its last path, is not in the list.
pub proof fn lemma_not_in_sorted(s: Seq<Seq<char>>, at: int, p: Seq<char>)
    requires
        strictly_sorted(s),
        0 <= at <= s.len(),
        at > 0 ==> path_lt(s[at - 1], p),
        at < s.len() ==> path_lt(p, s[at]),
    ensures
        !s.contains(p),
        forall|k: int| 0 <= k < at ==> path_lt(#[trigger] s[k], p),
        forall|k: int| at <= k < s.len() ==> path_lt(p, #[trigger] s[k]),
{
    assert forall|k: int| 0 <= k < at implies path_lt(#[trigger] s[k], p) by {
        if k < at - 1 {
            assert(path_lt(s[k], s[at - 1]));
            lemma_path_lt_transitive(s[k], s[at - 1], p);
        }
    }
    assert forall|k: int| at <= k < s.len() implies path_lt(p, #[trigger] s[k]) by {
        if k > at {
            assert(path_lt(s[at], s[k]));
            lemma_path_lt_transitive(p, s[at], s[k]);
        }
    }
    if s.contains(p) {
        let k = choose|k: int| 0 <= k < s.len() && s[k] == p;
        lemma_path_lt_irreflexive(p);
        if k < at {
            assert(path_lt(s[k], p));
        } else {
            assert(path_lt(p, s[k]));
        }
    }
}

/// What the first `i + 1` paths of a list hold: what the first `i` hold, and
/// the path at `i`.
pub proof fn lemma_take_next_contains(s: Seq<Seq<char>>, i: int, p: Seq<char>)
    requires
        0 <= i < s.len(),
    ensures
        s.take(i + 1).contains(p) <==> (s.take(i).contains(p) || p == s[i]),
{
    let shorter = s.take(i);
    let longer = s.take(i + 1);
    if longer.contains(p) {
        let k = choose|k: int| 0 <= k < longer.len() && longer[k] == p;
        if k < i {
            assert(shorter[k] == p);
        }
    }
    if shorter.contains(p) {
        let k = choose|k: int| 0 <= k < shorter.len() && shorter[k] == p;
        assert(longer[k] == p);
    }
    if p == s[i] {
        assert(longer[i] == p);
    }
}

/// Appends `path` to a list in strict order whose paths all come before it.
pub fn push_sorted(list: &mut Vec<String>, path: String)
    requires
        strictly_sorted(path_seq(old(list)@)),
        forall|k: int|
            0 <= k < old(list)@.len() ==> path_lt(#[trigger] path_seq(old(list)@)[k], path@),
    ensures
        path_seq(final(list)@) == path_seq(old(list)@).push(path@),
        strictly_sorted(path_seq(final(list)@)),
        forall|p: Seq<char>|
            #![trigger path_seq(final(list)@).contains(p)]
            #![trigger path_seq(old(list)@).contains(p)]
            path_seq(final(list)@).contains(p) <==> (path_seq(old(list)@).contains(p) || p
                == path@),
{
    let ghost before = path_seq(list@);
    let ghost added = path@;
    list.push(path);
    proof {
        let after = path_seq(list@);
        assert(after =~= before.push(added));
        assert forall|a: int, b: int| 0 <= a < b < after.len() implies path_lt(
            #[trigger] after[a],
            #[trigger] after[b],
        ) by {
            if b < before.len() {
                assert(path_lt(before[a], before[b]));
            } else {
                assert(path_lt(before[a], added));
            }
        }
        assert forall|p: Seq<char>| after.contains(p) <==> (before.contains(p) || p
            == added) by {
            if after.contains(p) {
                let k = choose|k: int| 0 <= k < after.len() && after[k] == p;
                if k < before.len() {
                    assert(before[k] == p);
                }
            }
            if before.contains(p) {
                let k = choose|k: int| 0 <= k < before.len() && before[k] == p;
                assert(after[k] == p);
            }
            if p == added {
                assert(after[before.len() as int] == p);
            }
        }
    }
}

} // verus!
