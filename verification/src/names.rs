//! The order of directory entries by name: file names compared byte by
//! byte, as `OsStr` compares them on Unix, entries of equal names kept in
//! the order given.

use vstd::prelude::*;

verus! {

/// `a` is at most `b` byte by byte, a prefix first.
pub open spec fn bytes_le(a: Seq<u8>, b: Seq<u8>) -> bool
    decreases a.len(),
{
    if a.len() == 0 {
        true
    } else if b.len() == 0 {
        false
    } else if a[0] < b[0] {
        true
    } else if a[0] > b[0] {
        false
    } else {
        bytes_le(a.drop_first(), b.drop_first())
    }
}

/// An entry of a directory listing: the bytes of its name, by which it is
/// ordered, and what is known of it.
pub struct Named<T> {
    pub key: Vec<u8>,
    pub entry: T,
}

/// The names of a listing.
pub open spec fn keys_of<T>(v: Seq<Named<T>>) -> Seq<Seq<u8>> {
    v.map_values(|n: Named<T>| n.key@)
}

/// Where index `i` goes among the sorted indices `s`: after those whose
/// name is at most its own.
pub open spec fn order_insert_pos(keys: Seq<Seq<u8>>, s: Seq<int>, i: int) -> nat
    decreases s.len(),
{
    if s.len() == 0 || !bytes_le(keys[s[0]], keys[i]) {
        0
    } else {
        1 + order_insert_pos(keys, s.drop_first(), i)
    }
}

/// The indices `0..n` sorted by name, by insertion.
pub open spec fn name_order_upto(keys: Seq<Seq<u8>>, n: int) -> Seq<int>
    decreases n,
{
    if n <= 0 {
        Seq::empty()
    } else {
        let s = name_order_upto(keys, n - 1);
        s.insert(order_insert_pos(keys, s, n - 1) as int, n - 1)
    }
}

/// The positions of a listing's entries in the order of their names.
pub open spec fn name_order(keys: Seq<Seq<u8>>) -> Seq<int> {
    name_order_upto(keys, keys.len() as int)
}

pub proof fn lemma_order_insert_pos_bound(keys: Seq<Seq<u8>>, s: Seq<int>, i: int)
    ensures
        order_insert_pos(keys, s, i) <= s.len(),
    decreases s.len(),
{
    if s.len() > 0 && bytes_le(keys[s[0]], keys[i]) {
        lemma_order_insert_pos_bound(keys, s.drop_first(), i);
    }
}

/// The order holds each index below `n` once.
pub proof fn lemma_name_order_range(keys: Seq<Seq<u8>>, n: int)
    requires
        0 <= n,
    ensures
        name_order_upto(keys, n).len() == n,
        forall|k: int| 0 <= k < n ==> 0 <= #[trigger] name_order_upto(keys, n)[k] < n,
        forall|a: int, b: int| 0 <= a < b < n ==> name_order_upto(keys, n)[a] != name_order_upto(keys, n)[b],
    decreases n,
{
    if n > 0 {
        lemma_name_order_range(keys, n - 1);
        let s = name_order_upto(keys, n - 1);
        let p = order_insert_pos(keys, s, n - 1) as int;
        lemma_order_insert_pos_bound(keys, s, n - 1);
        let r = s.insert(p, n - 1);
        assert forall|k: int| 0 <= k < n implies 0 <= #[trigger] r[k] < n by {
            if k < p {
                assert(r[k] == s[k]);
            } else if k > p {
                assert(r[k] == s[k - 1]);
            }
        }
        assert forall|a: int, b: int| 0 <= a < b < n implies r[a] != r[b] by {
            if b < p {
                assert(r[a] == s[a] && r[b] == s[b]);
            } else if b == p {
                assert(r[a] == s[a]);
            } else if a < p {
                assert(r[a] == s[a] && r[b] == s[b - 1]);
            } else if a == p {
                assert(r[b] == s[b - 1]);
            } else {
                assert(r[a] == s[a - 1] && r[b] == s[b - 1]);
            }
        }
    }
}

proof fn lemma_bytes_le_total(a: Seq<u8>, b: Seq<u8>)
    ensures
        bytes_le(a, b) || bytes_le(b, a),
    decreases a.len(),
{
    if a.len() > 0 && b.len() > 0 && a[0] == b[0] {
        lemma_bytes_le_total(a.drop_first(), b.drop_first());
    }
}

proof fn lemma_bytes_le_trans(a: Seq<u8>, b: Seq<u8>, c: Seq<u8>)
    requires
        bytes_le(a, b),
        bytes_le(b, c),
    ensures
        bytes_le(a, c),
    decreases a.len(),
{
    if a.len() > 0 && b.len() > 0 && c.len() > 0 && a[0] == b[0] && b[0] == c[0] {
        lemma_bytes_le_trans(a.drop_first(), b.drop_first(), c.drop_first());
    }
}

proof fn lemma_order_insert_pos_split(keys: Seq<Seq<u8>>, s: Seq<int>, i: int)
    ensures
        forall|k: int| 0 <= k < order_insert_pos(keys, s, i) ==> bytes_le(keys[#[trigger] s[k]], keys[i]),
        order_insert_pos(keys, s, i) < s.len() ==> !bytes_le(keys[s[order_insert_pos(keys, s, i) as int]], keys[i]),
    decreases s.len(),
{
    if s.len() > 0 && bytes_le(keys[s[0]], keys[i]) {
        lemma_order_insert_pos_split(keys, s.drop_first(), i);
        lemma_order_insert_pos_bound(keys, s.drop_first(), i);
        assert forall|k: int| 0 <= k < order_insert_pos(keys, s, i) implies bytes_le(keys[#[trigger] s[k]], keys[i]) by {
            if k > 0 {
                assert(s[k] == s.drop_first()[k - 1]);
            }
        }
    }
}

/// The entries of a listing are walked in the order of their names: each
/// position once, and the names along the way never decrease.
pub proof fn law_name_order_sorted(keys: Seq<Seq<u8>>, n: int)
    requires
        0 <= n <= keys.len(),
    ensures
        name_order_upto(keys, n).len() == n,
        forall|k: int| 0 <= k < n ==> 0 <= #[trigger] name_order_upto(keys, n)[k] < n,
        forall|a: int, b: int| 0 <= a < b < n ==> name_order_upto(keys, n)[a] != name_order_upto(keys, n)[b],
        forall|a: int, b: int|
            0 <= a < b < n ==> bytes_le(keys[name_order_upto(keys, n)[a]], keys[name_order_upto(keys, n)[b]]),
    decreases n,
{
    lemma_name_order_range(keys, n);
    if n > 0 {
        law_name_order_sorted(keys, n - 1);
        let s = name_order_upto(keys, n - 1);
        let x = n - 1;
        let p = order_insert_pos(keys, s, x) as int;
        lemma_order_insert_pos_bound(keys, s, x);
        lemma_order_insert_pos_split(keys, s, x);
        let r = s.insert(p, x);
        assert forall|a: int, b: int| 0 <= a < b < n implies bytes_le(keys[r[a]], keys[r[b]]) by {
            if b < p {
                assert(r[a] == s[a] && r[b] == s[b]);
            } else if b == p {
                assert(r[a] == s[a]);
            } else if a <= p {
                assert(r[b] == s[b - 1]);
                lemma_bytes_le_total(keys[s[p]], keys[x]);
                assert(bytes_le(keys[x], keys[s[b - 1]])) by {
                    if b - 1 > p {
                        lemma_bytes_le_trans(keys[x], keys[s[p]], keys[s[b - 1]]);
                    }
                }
                if a < p {
                    assert(r[a] == s[a]);
                    lemma_bytes_le_trans(keys[s[a]], keys[x], keys[s[b - 1]]);
                }
            } else {
                assert(r[a] == s[a - 1] && r[b] == s[b - 1]);
            }
        }
    }
}

/// Whether `a` is at most `b` byte by byte.
fn bytes_le_exec(a: &[u8], b: &[u8]) -> (r: bool)
    ensures
        r == bytes_le(a@, b@),
{
    let mut k: usize = 0;
    assert(a@.subrange(0, a@.len() as int) =~= a@);
    assert(b@.subrange(0, b@.len() as int) =~= b@);
    while k < a.len() && k < b.len() && a[k] == b[k]
        invariant
            k <= a@.len(),
            k <= b@.len(),
            bytes_le(a@, b@) == bytes_le(a@.subrange(k as int, a@.len() as int), b@.subrange(k as int, b@.len() as int)),
        decreases a@.len() - k,
    {
        proof {
            let x = a@.subrange(k as int, a@.len() as int);
            let y = b@.subrange(k as int, b@.len() as int);
            assert(x.drop_first() =~= a@.subrange(k + 1, a@.len() as int));
            assert(y.drop_first() =~= b@.subrange(k + 1, b@.len() as int));
        }
        k = k + 1;
    }
    proof {
        let x = a@.subrange(k as int, a@.len() as int);
        let y = b@.subrange(k as int, b@.len() as int);
        if k < a@.len() {
            assert(x[0] == a@[k as int]);
        }
        if k < b@.len() {
            assert(y[0] == b@[k as int]);
        }
    }
    if k == a.len() {
        true
    } else if k == b.len() {
        false
    } else {
        a[k] < b[k]
    }
}

/// The positions of the entries of a listing in the order of their names.
pub fn order_by_name<T>(v: &Vec<Named<T>>) -> (r: Vec<usize>)
    ensures
        r@.len() == v@.len(),
        forall|k: int| 0 <= k < r@.len() ==> #[trigger] r@[k] < v@.len(),
        forall|k: int| 0 <= k < r@.len() ==> r@[k] as int == #[trigger] name_order(keys_of(v@))[k],
{
    let ghost keys = keys_of(v@);
    let mut sorted: Vec<usize> = Vec::new();
    let mut i: usize = 0;
    while i < v.len()
        invariant
            i <= v@.len(),
            keys == keys_of(v@),
            sorted@.len() == i,
            forall|k: int| 0 <= k < i ==> sorted@[k] as int == #[trigger] name_order_upto(keys, i as int)[k],
        decreases v@.len() - i,
    {
        let ghost s = name_order_upto(keys, i as int);
        proof {
            lemma_name_order_range(keys, i as int);
            assert(sorted@.map_values(|x: usize| x as int) =~= s);
        }
        let mut pos: usize = 0;
        assert(s.subrange(0, s.len() as int) =~= s);
        while pos < sorted.len() && bytes_le_exec(v[sorted[pos]].key.as_slice(), v[i].key.as_slice())
            invariant
                i < v@.len(),
                keys == keys_of(v@),
                pos <= sorted@.len(),
                sorted@.len() == i,
                s == name_order_upto(keys, i as int),
                sorted@.map_values(|x: usize| x as int) == s,
                forall|k: int| 0 <= k < i ==> 0 <= #[trigger] s[k] < i,
                order_insert_pos(keys, s, i as int) == pos + order_insert_pos(keys, s.subrange(pos as int, s.len() as int), i as int),
            decreases sorted@.len() - pos,
        {
            proof {
                let t = s.subrange(pos as int, s.len() as int);
                assert(t.drop_first() =~= s.subrange(pos + 1, s.len() as int));
                assert(t[0] == s[pos as int]);
                assert(s[pos as int] == sorted@[pos as int] as int);
                assert(keys[s[pos as int]] == v@[sorted@[pos as int] as int].key@);
                assert(keys[i as int] == v@[i as int].key@);
            }
            pos = pos + 1;
        }
        proof {
            let t = s.subrange(pos as int, s.len() as int);
            if pos < s.len() {
                assert(t[0] == s[pos as int]);
                assert(s[pos as int] == sorted@[pos as int] as int);
                assert(keys[s[pos as int]] == v@[sorted@[pos as int] as int].key@);
                assert(keys[i as int] == v@[i as int].key@);
            }
            lemma_order_insert_pos_bound(keys, s, i as int);
        }
        sorted.insert(pos, i);
        proof {
            assert(sorted@.map_values(|x: usize| x as int) =~= s.insert(pos as int, i as int));
            assert forall|k: int| 0 <= k < i + 1 implies sorted@[k] as int == #[trigger] name_order_upto(keys, i + 1)[k] by {
                assert(sorted@.map_values(|x: usize| x as int)[k] == sorted@[k] as int);
            }
        }
        i = i + 1;
    }
    proof {
        lemma_name_order_range(keys, v@.len() as int);
        assert forall|k: int| 0 <= k < sorted@.len() implies #[trigger] sorted@[k] < v@.len() by {
            assert(sorted@[k] as int == name_order_upto(keys, v@.len() as int)[k]);
        }
    }
    sorted
}

} // verus!
