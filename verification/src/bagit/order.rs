//! The order in which a manifest lists its paths: byte by byte, in UTF-8.

use vstd::prelude::*;
use vstd::utf8::{encode_utf8, encode_utf8_decode_utf8};

verus! {

/// True when `a` and `b` are both `k` long at least and agree on their first `k` bytes.
pub open spec fn agree_before(a: Seq<u8>, b: Seq<u8>, k: int) -> bool {
    &&& 0 <= k <= a.len()
    &&& k <= b.len()
    &&& forall|j: int| 0 <= j < k ==> a[j] == b[j]
}

/// True when, at position `k`, `a` ends and `b` goes on, or `a` holds the smaller byte.
pub open spec fn decides_at(a: Seq<u8>, b: Seq<u8>, k: int) -> bool {
    if k == a.len() {
        k < b.len()
    } else {
        k < b.len() && a[k] < b[k]
    }
}

/// Lexicographic order on bytes: `a` stands before `b` when, where they first differ, `a`
/// ends or holds the smaller byte.
pub open spec fn bytes_before(a: Seq<u8>, b: Seq<u8>) -> bool {
    exists|k: int| #[trigger] agree_before(a, b, k) && decides_at(a, b, k)
}

/// The order of paths: that of their bytes in UTF-8.
pub open spec fn text_before(a: Seq<char>, b: Seq<char>) -> bool {
    bytes_before(encode_utf8(a), encode_utf8(b))
}

proof fn lemma_bytes_connected_from(a: Seq<u8>, b: Seq<u8>, k: int)
    requires
        agree_before(a, b, k),
    ensures
        bytes_before(a, b) || a == b || bytes_before(b, a),
    decreases a.len() - k,
{
    if k == a.len() {
        if k == b.len() {
            assert(a =~= b);
        } else {
            assert(agree_before(a, b, k) && decides_at(a, b, k));
        }
    } else if k == b.len() {
        assert(agree_before(b, a, k) && decides_at(b, a, k));
    } else if a[k] < b[k] {
        assert(agree_before(a, b, k) && decides_at(a, b, k));
    } else if b[k] < a[k] {
        assert(agree_before(b, a, k) && decides_at(b, a, k));
    } else {
        lemma_bytes_connected_from(a, b, k + 1);
    }
}

/// Of two byte strings, one stands before the other unless they are the same, and never
/// both ways.
pub proof fn lemma_bytes_order(a: Seq<u8>, b: Seq<u8>)
    ensures
        bytes_before(a, b) || a == b || bytes_before(b, a),
        !(bytes_before(a, b) && bytes_before(b, a)),
        !bytes_before(a, a),
{
    lemma_bytes_connected_from(a, b, 0);
    if bytes_before(a, b) && bytes_before(b, a) {
        let k1 = choose|k: int| #[trigger] agree_before(a, b, k) && decides_at(a, b, k);
        let k2 = choose|k: int| #[trigger] agree_before(b, a, k) && decides_at(b, a, k);
        if k1 < k2 {
            assert(b[k1] == a[k1]);
        } else if k2 < k1 {
            assert(a[k2] == b[k2]);
        }
    }
    if bytes_before(a, a) {
        let k = choose|k: int| #[trigger] agree_before(a, a, k) && decides_at(a, a, k);
    }
}

/// What stands before something that stands before a third stands before the third.
pub proof fn lemma_bytes_before_transitive(a: Seq<u8>, b: Seq<u8>, c: Seq<u8>)
    requires
        bytes_before(a, b),
        bytes_before(b, c),
    ensures
        bytes_before(a, c),
{
    let k1 = choose|k: int| #[trigger] agree_before(a, b, k) && decides_at(a, b, k);
    let k2 = choose|k: int| #[trigger] agree_before(b, c, k) && decides_at(b, c, k);
    let k = if k1 <= k2 {
        k1
    } else {
        k2
    };
    assert forall|j: int| 0 <= j < k implies a[j] == c[j] by {
        assert(a[j] == b[j]);
        assert(b[j] == c[j]);
    }
    if k1 < k2 {
        assert(b[k1] == c[k1]);
    } else if k2 < k1 {
        assert(a[k2] == b[k2]);
    }
    assert(agree_before(a, c, k) && decides_at(a, c, k));
}

/// The order of paths is a strict total order: of two paths, one stands before the other
/// unless they are the same, and never both ways.
pub proof fn lemma_text_order(a: Seq<char>, b: Seq<char>)
    ensures
        text_before(a, b) || a == b || text_before(b, a),
        !(text_before(a, b) && text_before(b, a)),
        !text_before(a, a),
{
    lemma_bytes_order(encode_utf8(a), encode_utf8(b));
    lemma_bytes_order(encode_utf8(a), encode_utf8(a));
    if encode_utf8(a) == encode_utf8(b) {
        encode_utf8_decode_utf8(a);
        encode_utf8_decode_utf8(b);
    }
}

pub proof fn lemma_text_before_transitive(a: Seq<char>, b: Seq<char>, c: Seq<char>)
    requires
        text_before(a, b),
        text_before(b, c),
    ensures
        text_before(a, c),
{
    lemma_bytes_before_transitive(encode_utf8(a), encode_utf8(b), encode_utf8(c));
}

/// Tells whether `a` stands before `b` in the order of paths.
pub fn is_text_before(a: &str, b: &str) -> (r: bool)
    ensures
        r == text_before(a@, b@),
{
    let x = a.as_bytes();
    let y = b.as_bytes();
    let mut i: usize = 0;
    while i < x.len() && i < y.len()
        invariant
            x@ == encode_utf8(a@),
            y@ == encode_utf8(b@),
            agree_before(x@, y@, i as int),
        decreases x.len() - i,
    {
        if x[i] != y[i] {
            proof {
                lemma_decided(x@, y@, i as int);
            }
            return x[i] < y[i];
        }
        i = i + 1;
    }
    proof {
        lemma_decided(x@, y@, i as int);
    }
    x.len() < y.len()
}

/// Where two byte strings first differ, or one of them ends, their order is decided.
proof fn lemma_decided(a: Seq<u8>, b: Seq<u8>, k: int)
    requires
        agree_before(a, b, k),
        k == a.len() || k == b.len() || a[k] != b[k],
    ensures
        bytes_before(a, b) == decides_at(a, b, k),
{
    if bytes_before(a, b) {
        let w = choose|w: int| #[trigger] agree_before(a, b, w) && decides_at(a, b, w);
        if w < k {
            assert(a[w] == b[w]);
        } else if k < w {
            assert(a[k] == b[k]);
        }
    }
}

} // verus!
