//! The order of texts: by their bytes in UTF-8, which is the order of
//! `String` itself.

use vstd::prelude::*;
use vstd::relations::{sorted_by, total_ordering};
use vstd::utf8::{encode_utf8, encode_utf8_decode_utf8};

verus! {

/// Whether `a` comes before `b`, or is `b`, in the order of byte
/// strings: at the first place where they differ `a` has the smaller
/// byte, or `a` ends first.
pub open spec fn bytes_le(a: Seq<u8>, b: Seq<u8>) -> bool
    decreases a.len(),
{
    if a.len() == 0 {
        true
    } else if b.len() == 0 {
        false
    } else if a[0] != b[0] {
        a[0] < b[0]
    } else {
        bytes_le(a.drop_first(), b.drop_first())
    }
}

/// Whether the text `a` comes before `b`, or is `b`.
pub open spec fn text_le(a: Seq<char>, b: Seq<char>) -> bool {
    bytes_le(encode_utf8(a), encode_utf8(b))
}

/// The order of texts as a relation.
pub open spec fn text_order() -> spec_fn(Seq<char>, Seq<char>) -> bool {
    |a: Seq<char>, b: Seq<char>| text_le(a, b)
}

pub proof fn lemma_bytes_le_reflexive(a: Seq<u8>)
    ensures
        bytes_le(a, a),
    decreases a.len(),
{
    if a.len() > 0 {
        lemma_bytes_le_reflexive(a.drop_first());
    }
}

pub proof fn lemma_bytes_le_antisymmetric(a: Seq<u8>, b: Seq<u8>)
    requires
        bytes_le(a, b),
        bytes_le(b, a),
    ensures
        a == b,
    decreases a.len(),
{
    if a.len() == 0 || b.len() == 0 {
        assert(a =~= b);
    } else {
        lemma_bytes_le_antisymmetric(a.drop_first(), b.drop_first());
        assert(a =~= seq![a[0]] + a.drop_first());
        assert(b =~= seq![b[0]] + b.drop_first());
    }
}

pub proof fn lemma_bytes_le_transitive(a: Seq<u8>, b: Seq<u8>, c: Seq<u8>)
    requires
        bytes_le(a, b),
        bytes_le(b, c),
    ensures
        bytes_le(a, c),
    decreases a.len(),
{
    if a.len() > 0 && b.len() > 0 && c.len() > 0 && a[0] == b[0] && b[0] == c[0] {
        lemma_bytes_le_transitive(a.drop_first(), b.drop_first(), c.drop_first());
    }
}

pub proof fn lemma_bytes_le_total(a: Seq<u8>, b: Seq<u8>)
    ensures
        bytes_le(a, b) || bytes_le(b, a),
    decreases a.len(),
{
    if a.len() > 0 && b.len() > 0 && a[0] == b[0] {
        lemma_bytes_le_total(a.drop_first(), b.drop_first());
    }
}

/// The order of texts is a total order.
pub proof fn lemma_text_order_total()
    ensures
        total_ordering(text_order()),
{
    let r = text_order();
    assert forall|x: Seq<char>| #[trigger] r(x, x) by {
        lemma_bytes_le_reflexive(encode_utf8(x));
    }
    assert forall|x: Seq<char>, y: Seq<char>| #[trigger] r(x, y) && #[trigger] r(y, x) implies x
        == y by {
        lemma_bytes_le_antisymmetric(encode_utf8(x), encode_utf8(y));
        encode_utf8_decode_utf8(x);
        encode_utf8_decode_utf8(y);
    }
    assert forall|x: Seq<char>, y: Seq<char>, z: Seq<char>| #[trigger]
        r(x, y) && #[trigger] r(y, z) implies r(x, z) by {
        lemma_bytes_le_transitive(encode_utf8(x), encode_utf8(y), encode_utf8(z));
    }
    assert forall|x: Seq<char>, y: Seq<char>| #[trigger] r(x, y) || #[trigger] r(y, x) by {
        lemma_bytes_le_total(encode_utf8(x), encode_utf8(y));
    }
}

/// Whether `a` comes before `b`, or is `b`.
pub fn text_at_most(a: &String, b: &String) -> (r: bool)
    ensures
        r == text_le(a@, b@),
{
    let x: &[u8] = a.as_str().as_bytes();
    let y: &[u8] = b.as_str().as_bytes();
    let mut i: usize = 0;
    assert(x@.subrange(0, x@.len() as int) =~= x@);
    assert(y@.subrange(0, y@.len() as int) =~= y@);
    while i < x.len() && i < y.len() && x[i] == y[i]
        invariant
            i <= x@.len(),
            i <= y@.len(),
            bytes_le(x@, y@) == bytes_le(
                x@.subrange(i as int, x@.len() as int),
                y@.subrange(i as int, y@.len() as int),
            ),
        decreases x@.len() - i,
    {
        assert(x@.subrange(i as int, x@.len() as int).drop_first() =~= x@.subrange(
            i as int + 1,
            x@.len() as int,
        ));
        assert(y@.subrange(i as int, y@.len() as int).drop_first() =~= y@.subrange(
            i as int + 1,
            y@.len() as int,
        ));
        i += 1;
    }
    if i >= x.len() {
        true
    } else if i >= y.len() {
        false
    } else {
        x[i] < y[i]
    }
}

/// The texts as mathematical values.
pub open spec fn text_views(texts: Seq<String>) -> Seq<Seq<char>> {
    texts.map_values(|t: String| t@)
}

/// The texts in ascending order, each as often as it is given.
pub fn sorted_texts(texts: &Vec<String>) -> (r: Vec<String>)
    ensures
        sorted_by(text_views(r@), text_order()),
        text_views(r@).to_multiset() == text_views(texts@).to_multiset(),
        r.len() == texts.len(),
{
    broadcast use vstd::seq_lib::group_to_multiset_ensures;

    let mut r: Vec<String> = Vec::new();
    let mut i: usize = 0;
    assert(text_views(texts@.subrange(0, 0)) =~= text_views(r@));
    while i < texts.len()
        invariant
            i <= texts.len(),
            r.len() == i,
            sorted_by(text_views(r@), text_order()),
            text_views(r@).to_multiset() == text_views(texts@.subrange(0, i as int)).to_multiset(),
        decreases texts.len() - i,
    {
        let text: String = texts[i].clone();
        let mut p: usize = 0;
        while p < r.len() && text_at_most(&r[p], &text)
            invariant
                p <= r.len(),
                forall|k: int| 0 <= k < p ==> text_le(#[trigger] text_views(r@)[k], text@),
            decreases r.len() - p,
        {
            p += 1;
        }
        let ghost before = text_views(r@);
        r.insert(p, text);
        proof {
            let after = text_views(r@);
            assert(after =~= before.insert(p as int, text@));
            lemma_text_order_total();
            assert forall|a: int, b: int| 0 <= a < b < after.len() implies #[trigger] text_order()(
                after[a],
                after[b],
            ) by {
                if b < p {
                    assert(text_order()(before[a], before[b]));
                } else if b == p {
                    assert(text_le(before[a], text@));
                } else if a == p {
                    assert(!text_le(before[p as int], text@));
                    assert(text_order()(before[p as int], text@) || text_order()(
                        text@,
                        before[p as int],
                    ));
                    if b - 1 > p {
                        assert(text_order()(before[p as int], before[b - 1]));
                    }
                    assert(text_order()(text@, before[p as int]) && text_order()(
                        before[p as int],
                        before[b - 1],
                    ) ==> text_order()(text@, before[b - 1]));
                } else if a < p {
                    assert(text_order()(before[a], before[b - 1]));
                } else {
                    assert(text_order()(before[a - 1], before[b - 1]));
                }
            }
            let next = texts@.subrange(0, i as int + 1);
            let seen = text_views(texts@.subrange(0, i as int));
            assert(text_views(next) =~= seen.push(text@));
            vstd::seq_lib::to_multiset_insert(before, p as int, text@);
            vstd::seq_lib::to_multiset_build(seen, text@);
            assert(after.to_multiset() == text_views(next).to_multiset());
        }
        i += 1;
    }
    assert(texts@.subrange(0, texts.len() as int) =~= texts@);
    r
}

/// Whether the two lists hold the same texts in the same order.
pub fn same_texts(a: &Vec<String>, b: &Vec<String>) -> (r: bool)
    ensures
        r == (text_views(a@) == text_views(b@)),
{
    if a.len() != b.len() {
        assert(text_views(a@).len() != text_views(b@).len());
        return false;
    }
    let mut i: usize = 0;
    while i < a.len()
        invariant
            i <= a.len(),
            a.len() == b.len(),
            forall|k: int| 0 <= k < i ==> text_views(a@)[k] == text_views(b@)[k],
        decreases a.len() - i,
    {
        if a[i] != b[i] {
            assert(text_views(a@)[i as int] != text_views(b@)[i as int]);
            return false;
        }
        i += 1;
    }
    assert(text_views(a@) =~= text_views(b@));
    true
}

} // verus!
