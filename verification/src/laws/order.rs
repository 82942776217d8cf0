//! Keys in the order of their characters are keys in the order of their
//! bytes.

use vstd::prelude::*;
use vstd::utf8::{
    char_is_scalar, encode_scalar, encode_utf8, has_width_1_encoding, has_width_2_encoding,
    has_width_3_encoding,
};
use crate::table::{before, lemma_ordered, lists, ordered};

verus! {

/// Whether bytes `a` come before bytes `b`: at the first place where they
/// differ, or by ending first.
pub open spec fn bytes_before(a: Seq<u8>, b: Seq<u8>) -> bool
    decreases a.len(),
{
    if b.len() == 0 {
        false
    } else if a.len() == 0 {
        true
    } else if a[0] != b[0] {
        a[0] < b[0]
    } else {
        bytes_before(a.skip(1), b.skip(1))
    }
}

/// What two runs of bytes start with alike does not decide.
proof fn lemma_alike(start: Seq<u8>, a: Seq<u8>, b: Seq<u8>)
    ensures
        bytes_before(start + a, start + b) == bytes_before(a, b),
    decreases start.len(),
{
    if start.len() == 0 {
        assert(start + a =~= a);
        assert(start + b =~= b);
    } else {
        lemma_alike(start.skip(1), a, b);
        assert((start + a).skip(1) =~= start.skip(1) + a);
        assert((start + b).skip(1) =~= start.skip(1) + b);
    }
}

/// The first place where two runs of bytes differ decides.
proof fn lemma_differ(a: Seq<u8>, b: Seq<u8>, at: int)
    requires
        0 <= at < a.len(),
        at < b.len(),
        forall|i: int| 0 <= i < at ==> a[i] == b[i],
        a[at] < b[at],
    ensures
        bytes_before(a, b),
        !bytes_before(b, a),
    decreases at,
{
    if at > 0 {
        assert(a.skip(1)[at - 1] < b.skip(1)[at - 1]);
        assert forall|i: int| 0 <= i < at - 1 implies a.skip(1)[i] == b.skip(1)[i] by {
            assert(a[i + 1] == b[i + 1]);
        }
        lemma_differ(a.skip(1), b.skip(1), at - 1);
    }
}

/// Of two characters the lesser one is encoded by the lesser bytes, whatever
/// follows.
proof fn lemma_char_order(c: char, d: char, a: Seq<u8>, b: Seq<u8>)
    requires
        c < d,
    ensures
        bytes_before(encode_scalar(c as u32) + a, encode_scalar(d as u32) + b),
        !bytes_before(encode_scalar(d as u32) + b, encode_scalar(c as u32) + a),
{
    let s = c as u32;
    let t = d as u32;
    let x = encode_scalar(s) + a;
    let y = encode_scalar(t) + b;
    char_is_scalar(c);
    char_is_scalar(d);
    assert(s < t);
    // The leading byte tells how many follow, and more follow a greater one.
    assert(s <= 0x7F ==> (s & 0x7F) as u8 == s as u8 && (s & 0x7F) as u8 <= 0x7F) by (bit_vector);
    assert(t <= 0x7F ==> (t & 0x7F) as u8 == t as u8) by (bit_vector);
    assert(0xC0u8 <= (0xC0u8 | ((s >> 6) & 0x1F) as u8) <= 0xDF) by (bit_vector);
    assert(0xC0u8 <= (0xC0u8 | ((t >> 6) & 0x1F) as u8) <= 0xDF) by (bit_vector);
    assert(0xE0u8 <= (0xE0u8 | ((s >> 12) & 0x0F) as u8) <= 0xEF) by (bit_vector);
    assert(0xE0u8 <= (0xE0u8 | ((t >> 12) & 0x0F) as u8) <= 0xEF) by (bit_vector);
    assert(0xF0u8 <= (0xF0u8 | ((t >> 18) & 0x7) as u8)) by (bit_vector);
    if has_width_1_encoding(s) {
        lemma_differ(x, y, 0);
    } else if has_width_2_encoding(s) {
        if has_width_2_encoding(t) {
            assert(s < t && t <= 0x7FF ==> {
                let (s0, s1) = (0xC0u8 | ((s >> 6) & 0x1F) as u8, 0x80u8 | (s & 0x3F) as u8);
                let (t0, t1) = (0xC0u8 | ((t >> 6) & 0x1F) as u8, 0x80u8 | (t & 0x3F) as u8);
                s0 < t0 || (s0 == t0 && s1 < t1)
            }) by (bit_vector);
            lemma_differ(
                x,
                y,
                if x[0] < y[0] {
                    0
                } else {
                    1
                },
            );
        } else {
            lemma_differ(x, y, 0);
        }
    } else if has_width_3_encoding(s) {
        if has_width_3_encoding(t) {
            assert(s < t && t <= 0xFFFF ==> {
                let s0 = 0xE0u8 | ((s >> 12) & 0x0F) as u8;
                let s1 = 0x80u8 | ((s >> 6) & 0x3F) as u8;
                let s2 = 0x80u8 | (s & 0x3F) as u8;
                let t0 = 0xE0u8 | ((t >> 12) & 0x0F) as u8;
                let t1 = 0x80u8 | ((t >> 6) & 0x3F) as u8;
                let t2 = 0x80u8 | (t & 0x3F) as u8;
                s0 < t0 || (s0 == t0 && (s1 < t1 || (s1 == t1 && s2 < t2)))
            }) by (bit_vector);
            lemma_differ(
                x,
                y,
                if x[0] < y[0] {
                    0
                } else if x[1] < y[1] {
                    1
                } else {
                    2
                },
            );
        } else {
            lemma_differ(x, y, 0);
        }
    } else {
        assert(s < t && t <= 0x10FFFF ==> {
            let s0 = 0xF0u8 | ((s >> 18) & 0x7) as u8;
            let s1 = 0x80u8 | ((s >> 12) & 0x3F) as u8;
            let s2 = 0x80u8 | ((s >> 6) & 0x3F) as u8;
            let s3 = 0x80u8 | (s & 0x3F) as u8;
            let t0 = 0xF0u8 | ((t >> 18) & 0x7) as u8;
            let t1 = 0x80u8 | ((t >> 12) & 0x3F) as u8;
            let t2 = 0x80u8 | ((t >> 6) & 0x3F) as u8;
            let t3 = 0x80u8 | (t & 0x3F) as u8;
            s0 < t0 || (s0 == t0 && (s1 < t1 || (s1 == t1 && (s2 < t2 || (s2 == t2 && s3 < t3)))))
        }) by (bit_vector);
        lemma_differ(
            x,
            y,
            if x[0] < y[0] {
                0
            } else if x[1] < y[1] {
                1
            } else if x[2] < y[2] {
                2
            } else {
                3
            },
        );
    }
}

/// The order of a table's keys is the order of their bytes in UTF-8.
pub proof fn law_order_is_the_order_of_bytes(a: Seq<char>, b: Seq<char>)
    ensures
        before(a, b) == bytes_before(encode_utf8(a), encode_utf8(b)),
    decreases a.len(),
{
    if b.len() > 0 {
        let rest_b = encode_utf8(b.drop_first());
        char_is_scalar(b[0]);
        assert(encode_scalar(b[0] as u32).len() > 0);
        if a.len() > 0 {
            let rest_a = encode_utf8(a.drop_first());
            if a[0] == b[0] {
                assert(a.skip(1) =~= a.drop_first());
                assert(b.skip(1) =~= b.drop_first());
                law_order_is_the_order_of_bytes(a.skip(1), b.skip(1));
                lemma_alike(encode_scalar(a[0] as u32), rest_a, rest_b);
            } else if a[0] < b[0] {
                lemma_char_order(a[0], b[0], rest_a, rest_b);
            } else {
                lemma_char_order(b[0], a[0], rest_b, rest_a);
            }
        }
    }
}

/// A listing of keys has each of them once, none else, and each before all
/// that follow it.
pub proof fn law_listing_of_keys(keys: Seq<Seq<char>>, dom: Set<Seq<char>>)
    ensures
        lists(keys, dom) <==> {
            &&& forall|i: int, j: int|
                0 <= i < j < keys.len() ==> bytes_before(
                    encode_utf8(#[trigger] keys[i]),
                    encode_utf8(#[trigger] keys[j]),
                )
            &&& forall|key: Seq<char>| #[trigger] keys.contains(key) <==> dom.contains(key)
        },
        lists(keys, dom) ==> ordered(dom) == keys,
{
    assert forall|a: Seq<char>, b: Seq<char>| #[trigger] before(a, b) == bytes_before(
        encode_utf8(a),
        encode_utf8(b),
    ) by {
        law_order_is_the_order_of_bytes(a, b);
    }
    if lists(keys, dom) {
        lemma_ordered(keys, dom);
        assert forall|i: int, j: int| 0 <= i < j < keys.len() implies bytes_before(
            encode_utf8(#[trigger] keys[i]),
            encode_utf8(#[trigger] keys[j]),
        ) by {
            assert(before(keys[i], keys[j]));
        }
    }
}

} // verus!
