//! Text as a sequence of Unicode scalar values: equality and the
//! lexicographic order, decided on the UTF-8 bytes of a `str`.
//!
//! The order is stated over `Seq<char>`, by scalar value. The executable
//! functions walk the encoded bytes and never decode; that both give the same
//! answer is proved here, from vstd's definition of the encoding.
use vstd::prelude::*;
use vstd::utf8::{encode_scalar, encode_utf8};
use vstd::utf8::{has_width_1_encoding, has_width_2_encoding, has_width_3_encoding};
use vstd::utf8::{has_width_4_encoding, last_continuation_byte, leading_byte_width_1};
use vstd::utf8::{leading_byte_width_2, leading_byte_width_3, leading_byte_width_4};
use vstd::utf8::{second_last_continuation_byte, third_last_continuation_byte};

verus! {

/// `a` and `b` hold the same items at each of the first `k` places.
pub open spec fn agree_upto<T>(a: Seq<T>, b: Seq<T>, k: int) -> bool {
    &&& 0 <= k <= a.len()
    &&& k <= b.len()
    &&& forall|i: int| 0 <= i < k ==> a[i] == b[i]
}

/// After `k` common places, `a` ends, or goes on with a smaller scalar value
/// than `b` does.
pub open spec fn text_splits_at(a: Seq<char>, b: Seq<char>, k: int) -> bool {
    &&& agree_upto(a, b, k)
    &&& k == a.len() || (k < b.len() && (a[k] as u32) < (b[k] as u32))
}

/// Lexicographic order by scalar value: `a` stands at or before `b`.
pub open spec fn text_at_most(a: Seq<char>, b: Seq<char>) -> bool {
    exists|k: int| text_splits_at(a, b, k)
}

/// Where one text stands relative to another.
#[derive(Clone, Copy, Debug, PartialEq, Eq)]
pub enum Placement {
    Before,
    Same,
    After,
}

/// Where `a` stands relative to `b` in the lexicographic order.
pub open spec fn placement(a: Seq<char>, b: Seq<char>) -> Placement {
    if a == b {
        Placement::Same
    } else if text_at_most(a, b) {
        Placement::Before
    } else {
        Placement::After
    }
}

/// A `char` is known by its scalar value.
pub proof fn lemma_scalar_is_one_to_one(c: char, d: char)
    requires
        c as u32 == d as u32,
    ensures
        c == d,
{
    vstd::utf8::char_u32_cast(c, c as u32);
    vstd::utf8::char_u32_cast(d, d as u32);
}

/// Every text stands at or before itself.
pub proof fn lemma_text_order_reflexive(a: Seq<char>)
    ensures
        text_at_most(a, a),
{
    assert(text_splits_at(a, a, a.len() as int));
}

/// Of two texts, one stands at or before the other.
pub proof fn lemma_text_order_total(a: Seq<char>, b: Seq<char>)
    ensures
        text_at_most(a, b) || text_at_most(b, a),
{
    lemma_text_common_prefix(a, b, 0);
}

/// Two texts that agree on `k` places are ordered one way or the other.
proof fn lemma_text_common_prefix(a: Seq<char>, b: Seq<char>, k: int)
    requires
        agree_upto(a, b, k),
    ensures
        text_at_most(a, b) || text_at_most(b, a),
    decreases a.len() - k,
{
    if k == a.len() {
        assert(text_splits_at(a, b, k));
    } else if k == b.len() {
        assert(text_splits_at(b, a, k));
    } else if (a[k] as u32) < (b[k] as u32) {
        assert(text_splits_at(a, b, k));
    } else if (b[k] as u32) < (a[k] as u32) {
        assert(text_splits_at(b, a, k));
    } else {
        lemma_scalar_is_one_to_one(a[k], b[k]);
        lemma_text_common_prefix(a, b, k + 1);
    }
}

/// The order is transitive.
pub proof fn lemma_text_order_transitive(a: Seq<char>, b: Seq<char>, c: Seq<char>)
    requires
        text_at_most(a, b),
        text_at_most(b, c),
    ensures
        text_at_most(a, c),
{
    let k1 = choose|k: int| text_splits_at(a, b, k);
    let k2 = choose|k: int| text_splits_at(b, c, k);
    let k = if k1 <= k2 {
        k1
    } else {
        k2
    };
    assert(text_splits_at(a, c, k));
}

/// Two texts that stand at or before each other are the same text.
pub proof fn lemma_text_order_antisymmetric(a: Seq<char>, b: Seq<char>)
    requires
        text_at_most(a, b),
        text_at_most(b, a),
    ensures
        a == b,
{
    let k1 = choose|k: int| text_splits_at(a, b, k);
    let k2 = choose|k: int| text_splits_at(b, a, k);
    if k1 < a.len() {
        assert((a[k1] as u32) < (b[k1] as u32));
        if k2 < k1 {
            assert(a[k2] == b[k2]);
        }
        assert(false);
    }
    if k2 < b.len() {
        assert((b[k2] as u32) < (a[k2] as u32));
        assert(false);
    }
    assert(a =~= b);
}

/// The same order on bytes: after `k` common places, `x` ends, or goes on
/// with a smaller byte than `y` does.
pub open spec fn bytes_split_at(x: Seq<u8>, y: Seq<u8>, k: int) -> bool {
    &&& agree_upto(x, y, k)
    &&& k == x.len() || (k < y.len() && x[k] < y[k])
}

/// Lexicographic order on bytes: `x` stands at or before `y`.
pub open spec fn bytes_at_most(x: Seq<u8>, y: Seq<u8>) -> bool {
    exists|k: int| bytes_split_at(x, y, k)
}

/// After `k` common places both go on, `x` with the smaller byte.
spec fn bytes_part_at(x: Seq<u8>, y: Seq<u8>, k: int) -> bool {
    &&& agree_upto(x, y, k)
    &&& k < x.len()
    &&& k < y.len()
    &&& x[k] < y[k]
}

/// Where two byte strings part, the order between them is settled.
proof fn lemma_bytes_part_decides(x: Seq<u8>, y: Seq<u8>, k: int)
    requires
        bytes_part_at(x, y, k),
    ensures
        bytes_at_most(x, y),
        !bytes_at_most(y, x),
{
    assert(bytes_split_at(x, y, k));
    assert forall|j: int| !bytes_split_at(y, x, j) by {
        if bytes_split_at(y, x, j) {
            if j < k {
                assert(x[j] == y[j]);
            } else if j > k {
                assert(y[k] == x[k]);
            }
        }
    }
}

/// A byte string that goes on where another ends does not stand at or
/// before it.
proof fn lemma_longer_stands_after(x: Seq<u8>, y: Seq<u8>)
    requires
        agree_upto(x, y, x.len() as int),
        x.len() < y.len(),
    ensures
        bytes_at_most(x, y),
        !bytes_at_most(y, x),
{
    assert(bytes_split_at(x, y, x.len() as int));
    assert forall|j: int| !bytes_split_at(y, x, j) by {
        if bytes_split_at(y, x, j) && j < x.len() {
            assert(x[j] == y[j]);
        }
    }
}

/// What follows the place where two byte strings part does not matter.
proof fn lemma_bytes_part_extends(p: Seq<u8>, q: Seq<u8>, k: int, x: Seq<u8>, y: Seq<u8>)
    requires
        bytes_part_at(p, q, k),
    ensures
        bytes_part_at(p + x, q + y, k),
{
    assert forall|i: int| 0 <= i < k implies (p + x)[i] == (q + y)[i] by {
        assert(p[i] == q[i]);
    }
}

/// A common head can be struck from both sides.
proof fn lemma_bytes_common_head(e: Seq<u8>, x: Seq<u8>, y: Seq<u8>)
    ensures
        bytes_at_most(e + x, e + y) == bytes_at_most(x, y),
{
    let n = e.len() as int;
    if bytes_at_most(x, y) {
        let k = choose|k: int| bytes_split_at(x, y, k);
        assert forall|i: int| 0 <= i < k + n implies (e + x)[i] == (e + y)[i] by {
            if i >= n {
                assert(x[i - n] == y[i - n]);
            }
        }
        assert(bytes_split_at(e + x, e + y, k + n));
    }
    if bytes_at_most(e + x, e + y) {
        let k = choose|k: int| bytes_split_at(e + x, e + y, k);
        if k < n {
            assert((e + x)[k] == e[k]);
            assert((e + y)[k] == e[k]);
        }
        assert forall|i: int| 0 <= i < k - n implies x[i] == y[i] by {
            assert((e + x)[i + n] == (e + y)[i + n]);
        }
        assert(bytes_split_at(x, y, k - n));
    }
}

/// A scalar value of one byte is that byte, and below every leading byte of a
/// longer encoding.
proof fn lemma_lead_of_width_1(u: u32)
    by (bit_vector)
    requires
        has_width_1_encoding(u),
    ensures
        leading_byte_width_1(u) <= 0x7f,
        leading_byte_width_1(u) == u,
{
}

/// The leading bytes of two-byte encodings lie above the one-byte encodings
/// and below the leading bytes of longer ones.
proof fn lemma_lead_of_width_2(u: u32)
    by (bit_vector)
    requires
        has_width_2_encoding(u),
    ensures
        0xc0 <= leading_byte_width_2(u) <= 0xdf,
{
}

/// The leading bytes of three-byte encodings lie between those of two and
/// those of four bytes.
proof fn lemma_lead_of_width_3(u: u32)
    by (bit_vector)
    requires
        has_width_3_encoding(u),
    ensures
        0xe0 <= leading_byte_width_3(u) <= 0xef,
{
}

/// The leading bytes of four-byte encodings lie above all others.
proof fn lemma_lead_of_width_4(u: u32)
    by (bit_vector)
    requires
        has_width_4_encoding(u),
    ensures
        0xf0 <= leading_byte_width_4(u) <= 0xf7,
{
}

/// Of two scalar values of two bytes each, the smaller has the smaller byte
/// at the first place where the encodings differ.
proof fn lemma_order_in_width_2(u: u32, v: u32)
    by (bit_vector)
    requires
        has_width_2_encoding(u),
        has_width_2_encoding(v),
        u < v,
    ensures
        ({
            let (u1, u2) = (leading_byte_width_2(u), last_continuation_byte(u));
            let (v1, v2) = (leading_byte_width_2(v), last_continuation_byte(v));
            u1 < v1 || (u1 == v1 && u2 < v2)
        }),
{
}

/// The same for two scalar values of three bytes each.
proof fn lemma_order_in_width_3(u: u32, v: u32)
    by (bit_vector)
    requires
        has_width_3_encoding(u),
        has_width_3_encoding(v),
        u < v,
    ensures
        ({
            let (u1, u2, u3) = (
                leading_byte_width_3(u),
                second_last_continuation_byte(u),
                last_continuation_byte(u),
            );
            let (v1, v2, v3) = (
                leading_byte_width_3(v),
                second_last_continuation_byte(v),
                last_continuation_byte(v),
            );
            ||| u1 < v1
            ||| u1 == v1 && u2 < v2
            ||| u1 == v1 && u2 == v2 && u3 < v3
        }),
{
}

/// The same for two scalar values of four bytes each.
proof fn lemma_order_in_width_4(u: u32, v: u32)
    by (bit_vector)
    requires
        has_width_4_encoding(u),
        has_width_4_encoding(v),
        u < v,
    ensures
        ({
            let (u1, u2, u3, u4) = (
                leading_byte_width_4(u),
                third_last_continuation_byte(u),
                second_last_continuation_byte(u),
                last_continuation_byte(u),
            );
            let (v1, v2, v3, v4) = (
                leading_byte_width_4(v),
                third_last_continuation_byte(v),
                second_last_continuation_byte(v),
                last_continuation_byte(v),
            );
            ||| u1 < v1
            ||| u1 == v1 && u2 < v2
            ||| u1 == v1 && u2 == v2 && u3 < v3
            ||| u1 == v1 && u2 == v2 && u3 == v3 && u4 < v4
        }),
{
}

/// The encodings of two scalar values part at some place, the smaller value
/// with the smaller byte.
proof fn lemma_scalar_order(u: u32, v: u32) -> (k: int)
    requires
        vstd::utf8::is_scalar(u),
        vstd::utf8::is_scalar(v),
        u < v,
    ensures
        bytes_part_at(encode_scalar(u), encode_scalar(v), k),
{
    let x = encode_scalar(u);
    let y = encode_scalar(v);
    if has_width_1_encoding(u) {
        lemma_lead_of_width_1(u);
    } else if has_width_2_encoding(u) {
        lemma_lead_of_width_2(u);
    } else if has_width_3_encoding(u) {
        lemma_lead_of_width_3(u);
    } else {
        lemma_lead_of_width_4(u);
    }
    if has_width_1_encoding(v) {
        lemma_lead_of_width_1(v);
    } else if has_width_2_encoding(v) {
        lemma_lead_of_width_2(v);
    } else if has_width_3_encoding(v) {
        lemma_lead_of_width_3(v);
    } else {
        lemma_lead_of_width_4(v);
    }
    if has_width_2_encoding(u) && has_width_2_encoding(v) {
        lemma_order_in_width_2(u, v);
    } else if has_width_3_encoding(u) && has_width_3_encoding(v) {
        lemma_order_in_width_3(u, v);
    } else if has_width_4_encoding(u) && has_width_4_encoding(v) {
        lemma_order_in_width_4(u, v);
    }
    let k: int = if x[0] != y[0] {
        0
    } else if x[1] != y[1] {
        1
    } else if x[2] != y[2] {
        2
    } else {
        3
    };
    assert(bytes_part_at(x, y, k));
    k
}

/// A text that is empty stands before every other; one that is not, only
/// before texts that are not, by its first scalar value and then by the rest.
proof fn lemma_text_order_unfolds(a: Seq<char>, b: Seq<char>)
    ensures
        text_at_most(a, b) == ({
            ||| a.len() == 0
            ||| b.len() > 0 && (a[0] as u32) < (b[0] as u32)
            ||| b.len() > 0 && a[0] == b[0] && text_at_most(a.drop_first(), b.drop_first())
        }),
{
    if a.len() == 0 {
        assert(text_splits_at(a, b, 0));
    } else if b.len() > 0 {
        let (a1, b1) = (a.drop_first(), b.drop_first());
        if (a[0] as u32) < (b[0] as u32) {
            assert(text_splits_at(a, b, 0));
        } else if a[0] == b[0] && text_at_most(a1, b1) {
            let k = choose|k: int| text_splits_at(a1, b1, k);
            assert forall|i: int| 0 <= i < k + 1 implies a[i] == b[i] by {
                if i > 0 {
                    assert(a1[i - 1] == b1[i - 1]);
                }
            }
            assert(text_splits_at(a, b, k + 1));
        }
        if text_at_most(a, b) {
            let k = choose|k: int| text_splits_at(a, b, k);
            if k > 0 {
                assert(a[0] == b[0]);
                assert forall|i: int| 0 <= i < k - 1 implies a1[i] == b1[i] by {
                    assert(a[i + 1] == b[i + 1]);
                }
                assert(text_splits_at(a1, b1, k - 1));
            }
        }
    } else {
        assert forall|k: int| !text_splits_at(a, b, k) by {}
    }
}

/// UTF-8 keeps the order: texts are ordered by scalar value as their
/// encodings are ordered by byte.
pub proof fn lemma_utf8_keeps_order(a: Seq<char>, b: Seq<char>)
    ensures
        text_at_most(a, b) == bytes_at_most(encode_utf8(a), encode_utf8(b)),
    decreases a.len(),
{
    let (x, y) = (encode_utf8(a), encode_utf8(b));
    lemma_text_order_unfolds(a, b);
    if a.len() == 0 {
        assert(bytes_split_at(x, y, 0));
    } else if b.len() == 0 {
        assert forall|k: int| !bytes_split_at(x, y, k) by {}
    } else {
        let (a1, b1) = (a.drop_first(), b.drop_first());
        let (x1, y1) = (encode_utf8(a1), encode_utf8(b1));
        let (u, v) = (a[0] as u32, b[0] as u32);
        vstd::utf8::char_is_scalar(a[0]);
        vstd::utf8::char_is_scalar(b[0]);
        if u < v {
            let k = lemma_scalar_order(u, v);
            lemma_bytes_part_extends(encode_scalar(u), encode_scalar(v), k, x1, y1);
            lemma_bytes_part_decides(x, y, k);
        } else if v < u {
            let k = lemma_scalar_order(v, u);
            lemma_bytes_part_extends(encode_scalar(v), encode_scalar(u), k, y1, x1);
            lemma_bytes_part_decides(y, x, k);
        } else {
            lemma_scalar_is_one_to_one(a[0], b[0]);
            lemma_utf8_keeps_order(a1, b1);
            lemma_bytes_common_head(encode_scalar(u), x1, y1);
        }
    }
}

/// No two texts have the same encoding.
pub proof fn lemma_utf8_is_one_to_one(a: Seq<char>, b: Seq<char>)
    requires
        encode_utf8(a) == encode_utf8(b),
    ensures
        a == b,
{
    vstd::utf8::encode_utf8_decode_utf8(a);
    vstd::utf8::encode_utf8_decode_utf8(b);
}

/// Where `x` stands relative to `y` in the lexicographic order on bytes.
pub open spec fn bytes_placement(x: Seq<u8>, y: Seq<u8>) -> Placement {
    if x == y {
        Placement::Same
    } else if bytes_at_most(x, y) {
        Placement::Before
    } else {
        Placement::After
    }
}

/// The placement of two texts is that of their encodings.
pub proof fn lemma_utf8_keeps_placement(a: Seq<char>, b: Seq<char>)
    ensures
        placement(a, b) == bytes_placement(encode_utf8(a), encode_utf8(b)),
{
    lemma_utf8_keeps_order(a, b);
    if encode_utf8(a) == encode_utf8(b) {
        lemma_utf8_is_one_to_one(a, b);
    }
}

/// Decides where `x` stands relative to `y`.
pub fn place_bytes(x: &[u8], y: &[u8]) -> (p: Placement)
    ensures
        p == bytes_placement(x@, y@),
{
    let n: usize = x.len();
    let m: usize = y.len();
    let mut i: usize = 0;
    while i < n && i < m
        invariant
            n == x@.len(),
            m == y@.len(),
            agree_upto(x@, y@, i as int),
        decreases n - i,
    {
        if x[i] < y[i] {
            proof {
                lemma_bytes_part_decides(x@, y@, i as int);
            }
            return Placement::Before;
        }
        if y[i] < x[i] {
            proof {
                assert(agree_upto(y@, x@, i as int));
                lemma_bytes_part_decides(y@, x@, i as int);
            }
            return Placement::After;
        }
        i += 1;
    }
    if n < m {
        proof {
            lemma_longer_stands_after(x@, y@);
        }
        Placement::Before
    } else if m < n {
        proof {
            assert(agree_upto(y@, x@, i as int));
            lemma_longer_stands_after(y@, x@);
        }
        Placement::After
    } else {
        proof {
            assert(x@ =~= y@);
        }
        Placement::Same
    }
}

/// Decides where `a` stands relative to `b`, on their UTF-8 bytes.
pub fn place(a: &str, b: &str) -> (p: Placement)
    ensures
        p == placement(a@, b@),
{
    proof {
        lemma_utf8_keeps_placement(a@, b@);
    }
    place_bytes(a.as_bytes(), b.as_bytes())
}

/// Decides whether `x` and `y` hold the same bytes.
pub fn same_bytes(x: &[u8], y: &[u8]) -> (same: bool)
    ensures
        same == (x@ == y@),
{
    let n: usize = x.len();
    if n != y.len() {
        return false;
    }
    let mut i: usize = 0;
    while i < n
        invariant
            n == x@.len(),
            n == y@.len(),
            agree_upto(x@, y@, i as int),
        decreases n - i,
    {
        if x[i] != y[i] {
            return false;
        }
        i += 1;
    }
    proof {
        assert(x@ =~= y@);
    }
    true
}

/// Decides whether `a` and `b` are the same text, on their UTF-8 bytes.
pub fn same_text(a: &str, b: &str) -> (same: bool)
    ensures
        same == (a@ == b@),
{
    proof {
        if encode_utf8(a@) == encode_utf8(b@) {
            lemma_utf8_is_one_to_one(a@, b@);
        }
    }
    same_bytes(a.as_bytes(), b.as_bytes())
}

} // verus!
