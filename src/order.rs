use vstd::prelude::*;
use vstd::utf8::{encode_utf8, encode_utf8_decode_utf8};

use crate::cache::{CacheKey, KeyView};

verus! {

/// Lexicographic comparison of byte strings: -1, 0 or 1.
pub open spec fn bytes_cmp(a: Seq<u8>, b: Seq<u8>) -> int
    decreases a.len(),
{
    if a.len() == 0 {
        if b.len() == 0 {
            0
        } else {
            -1
        }
    } else if b.len() == 0 {
        1
    } else if a[0] < b[0] {
        -1
    } else if a[0] > b[0] {
        1
    } else {
        bytes_cmp(a.drop_first(), b.drop_first())
    }
}

/// The order of `String`: by the bytes of the UTF-8 encoding.
pub open spec fn text_cmp(a: Seq<char>, b: Seq<char>) -> int {
    bytes_cmp(encode_utf8(a), encode_utf8(b))
}

/// The order of a (role, content) pair: by role, then by content.
pub open spec fn pair_cmp(p: (Seq<char>, Seq<char>), q: (Seq<char>, Seq<char>)) -> int {
    if text_cmp(p.0, q.0) != 0 {
        text_cmp(p.0, q.0)
    } else {
        text_cmp(p.1, q.1)
    }
}

/// The order of cache keys: lexicographic over their pairs, as `Vec`'s
/// `Ord` orders them.
pub open spec fn key_cmp(a: KeyView, b: KeyView) -> int
    decreases a.len(),
{
    if a.len() == 0 {
        if b.len() == 0 {
            0
        } else {
            -1
        }
    } else if b.len() == 0 {
        1
    } else if pair_cmp(a[0], b[0]) != 0 {
        pair_cmp(a[0], b[0])
    } else {
        key_cmp(a.drop_first(), b.drop_first())
    }
}

proof fn lemma_bytes_cmp(a: Seq<u8>, b: Seq<u8>)
    ensures
        -1 <= bytes_cmp(a, b) <= 1,
        bytes_cmp(a, b) == -bytes_cmp(b, a),
        (bytes_cmp(a, b) == 0) == (a == b),
    decreases a.len(),
{
    if a.len() > 0 && b.len() > 0 && a[0] == b[0] {
        lemma_bytes_cmp(a.drop_first(), b.drop_first());
        if a.drop_first() == b.drop_first() {
            assert(a =~= seq![a[0]] + a.drop_first());
            assert(b =~= seq![b[0]] + b.drop_first());
        }
    } else if a.len() == 0 && b.len() > 0 {
        assert(a != b);
    } else if a.len() > 0 && b.len() == 0 {
        assert(a != b);
    } else if a.len() > 0 && b.len() > 0 {
        assert(a[0] != b[0]);
    } else {
        assert(a =~= b);
    }
}

proof fn lemma_bytes_cmp_trans(a: Seq<u8>, b: Seq<u8>, c: Seq<u8>)
    requires
        bytes_cmp(a, b) < 0,
        bytes_cmp(b, c) < 0,
    ensures
        bytes_cmp(a, c) < 0,
    decreases a.len(),
{
    if a.len() > 0 && a[0] == c[0] {
        lemma_bytes_cmp_trans(a.drop_first(), b.drop_first(), c.drop_first());
    }
}

proof fn lemma_text_cmp(a: Seq<char>, b: Seq<char>)
    ensures
        -1 <= text_cmp(a, b) <= 1,
        text_cmp(a, b) == -text_cmp(b, a),
        (text_cmp(a, b) == 0) == (a == b),
{
    lemma_bytes_cmp(encode_utf8(a), encode_utf8(b));
    encode_utf8_decode_utf8(a);
    encode_utf8_decode_utf8(b);
}

proof fn lemma_pair_cmp(p: (Seq<char>, Seq<char>), q: (Seq<char>, Seq<char>))
    ensures
        -1 <= pair_cmp(p, q) <= 1,
        pair_cmp(p, q) == -pair_cmp(q, p),
        (pair_cmp(p, q) == 0) == (p == q),
{
    lemma_text_cmp(p.0, q.0);
    lemma_text_cmp(p.1, q.1);
}

proof fn lemma_pair_cmp_trans(
    p: (Seq<char>, Seq<char>),
    q: (Seq<char>, Seq<char>),
    r: (Seq<char>, Seq<char>),
)
    requires
        pair_cmp(p, q) <= 0,
        pair_cmp(q, r) <= 0,
        pair_cmp(p, q) < 0 || pair_cmp(q, r) < 0,
    ensures
        pair_cmp(p, r) < 0,
{
    lemma_pair_cmp(p, q);
    lemma_pair_cmp(q, r);
    lemma_text_cmp(p.0, q.0);
    lemma_text_cmp(q.0, r.0);
    lemma_text_cmp(p.0, r.0);
    lemma_text_cmp(p.1, q.1);
    lemma_text_cmp(q.1, r.1);
    if text_cmp(p.0, q.0) < 0 && text_cmp(q.0, r.0) < 0 {
        lemma_bytes_cmp_trans(encode_utf8(p.0), encode_utf8(q.0), encode_utf8(r.0));
    }
    if text_cmp(p.0, q.0) == 0 && text_cmp(q.0, r.0) == 0 && text_cmp(p.1, q.1) < 0 && text_cmp(
        q.1,
        r.1,
    ) < 0 {
        lemma_bytes_cmp_trans(encode_utf8(p.1), encode_utf8(q.1), encode_utf8(r.1));
    }
}

/// Comparing keys is antisymmetric, and gives 0 exactly for equal keys.
pub proof fn lemma_key_cmp(a: KeyView, b: KeyView)
    ensures
        -1 <= key_cmp(a, b) <= 1,
        key_cmp(a, b) == -key_cmp(b, a),
        (key_cmp(a, b) == 0) == (a == b),
    decreases a.len(),
{
    if a.len() > 0 && b.len() > 0 {
        lemma_pair_cmp(a[0], b[0]);
        if a[0] == b[0] {
            lemma_key_cmp(a.drop_first(), b.drop_first());
            if a.drop_first() == b.drop_first() {
                assert(a =~= seq![a[0]] + a.drop_first());
                assert(b =~= seq![b[0]] + b.drop_first());
            }
        }
    } else if a.len() == 0 && b.len() == 0 {
        assert(a =~= b);
    } else {
        assert(a.len() != b.len());
    }
}

/// The order of keys is transitive.
pub proof fn lemma_key_cmp_trans(a: KeyView, b: KeyView, c: KeyView)
    requires
        key_cmp(a, b) < 0,
        key_cmp(b, c) < 0,
    ensures
        key_cmp(a, c) < 0,
    decreases a.len(),
{
    if a.len() > 0 {
        lemma_key_cmp(a, b);
        lemma_key_cmp(b, c);
        lemma_pair_cmp(a[0], b[0]);
        lemma_pair_cmp(b[0], c[0]);
        lemma_pair_cmp(a[0], c[0]);
        if pair_cmp(a[0], b[0]) == 0 && pair_cmp(b[0], c[0]) == 0 {
            lemma_key_cmp_trans(a.drop_first(), b.drop_first(), c.drop_first());
        } else if pair_cmp(a[0], b[0]) <= 0 && pair_cmp(b[0], c[0]) <= 0 {
            lemma_pair_cmp_trans(a[0], b[0], c[0]);
        }
    }
}

fn cmp_bytes(a: &[u8], b: &[u8]) -> (r: i8)
    ensures
        r == bytes_cmp(a@, b@),
{
    let mut i: usize = 0;
    assert(a@.skip(0) =~= a@);
    assert(b@.skip(0) =~= b@);
    while i < a.len() && i < b.len()
        invariant
            i <= a@.len(),
            i <= b@.len(),
            bytes_cmp(a@, b@) == bytes_cmp(a@.skip(i as int), b@.skip(i as int)),
        decreases a@.len() - i,
    {
        if a[i] < b[i] {
            return -1;
        }
        if a[i] > b[i] {
            return 1;
        }
        assert(a@.skip(i as int).drop_first() =~= a@.skip(i + 1));
        assert(b@.skip(i as int).drop_first() =~= b@.skip(i + 1));
        i = i + 1;
    }
    if i < b.len() {
        -1
    } else if i < a.len() {
        1
    } else {
        0
    }
}

pub fn cmp_text(a: &String, b: &String) -> (r: i8)
    ensures
        r == text_cmp(a@, b@),
{
    cmp_bytes(a.as_str().as_bytes(), b.as_str().as_bytes())
}

/// Compares two keys in the order `BTreeMap` keeps them: -1, 0 or 1.
pub fn cmp_key(a: &CacheKey, b: &CacheKey) -> (r: i8)
    ensures
        r == key_cmp(a.deep_view(), b.deep_view()),
{
    let ghost (x, y) = (a.deep_view(), b.deep_view());
    let mut i: usize = 0;
    assert(x.skip(0) =~= x);
    assert(y.skip(0) =~= y);
    while i < a.len() && i < b.len()
        invariant
            x == a.deep_view(),
            y == b.deep_view(),
            i <= a@.len(),
            i <= b@.len(),
            key_cmp(x, y) == key_cmp(x.skip(i as int), y.skip(i as int)),
        decreases a@.len() - i,
    {
        let c = cmp_text(&a[i].0, &b[i].0);
        let c = if c != 0 {
            c
        } else {
            cmp_text(&a[i].1, &b[i].1)
        };
        assert(x.skip(i as int)[0] == x[i as int]);
        assert(y.skip(i as int)[0] == y[i as int]);
        if c != 0 {
            return c;
        }
        assert(x.skip(i as int).drop_first() =~= x.skip(i + 1));
        assert(y.skip(i as int).drop_first() =~= y.skip(i + 1));
        i = i + 1;
    }
    if i < b.len() {
        -1
    } else if i < a.len() {
        1
    } else {
        0
    }
}

} // verus!
