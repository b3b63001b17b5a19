//! Laws of the bencoding: decoding undoes the canonical encoding, and the
//! order in which a dictionary is built does not change it.

use vstd::prelude::*;
use crate::bendecoder::{
    decimal, digit_byte, digits_end, digits_value, encode_bytes, encode_entries, encode_items,
    encode_value, is_digit, keys_ascending, lemma_dict_insert_at, bytes_lt, dict_insert,
    lemma_bytes_lt_transitive, lemma_bytes_lt_irreflexive, parse_bytes, parse_entries,
    parse_int, parse_items, parse_value, well_formed, DecodeError, Value,
};

verus! {

/// Decimal text is at least one byte long and made of digits only.
proof fn lemma_decimal_shape(n: nat)
    ensures
        decimal(n).len() >= 1,
        forall|i: int| 0 <= i < decimal(n).len() ==> is_digit(#[trigger] decimal(n)[i]),
    decreases n,
{
    if n >= 10 {
        lemma_decimal_shape(n / 10);
    }
}

/// A run of digits ends where the first of them that is not a digit stands.
proof fn lemma_digits_end_over(s: Seq<u8>, p: int, e: int)
    requires
        0 <= p <= e <= s.len(),
        forall|i: int| p <= i < e ==> is_digit(#[trigger] s[i]),
    ensures
        digits_end(s, p) == digits_end(s, e),
    decreases e - p,
{
    if p < e {
        lemma_digits_end_over(s, p + 1, e);
    }
}

/// Reading back the decimal text of `n` gives `n`.
proof fn lemma_digits_read(s: Seq<u8>, p: int, n: nat)
    requires
        0 <= p,
        p + decimal(n).len() <= s.len(),
        s.subrange(p, p + decimal(n).len()) == decimal(n),
    ensures
        digits_value(s, p, p + decimal(n).len()) == n,
    decreases n,
{
    let k = decimal(n).len() as int;
    if n < 10 {
        assert(s[p] == s.subrange(p, p + k)[0]);
        assert(digits_value(s, p, p) == 0);
    } else {
        let m = n / 10;
        let k1 = decimal(m).len() as int;
        assert(k == k1 + 1);
        assert(s.subrange(p, p + k1) =~= decimal(n).subrange(0, k1));
        assert(decimal(n).subrange(0, k1) =~= decimal(m));
        lemma_digits_read(s, p, m);
        assert(s[p + k1] == s.subrange(p, p + k)[k1]);
        assert(s[p + k1] == digit_byte(n % 10));
        vstd::arithmetic::div_mod::lemma_fundamental_div_mod(n as int, 10);
    }
}

/// Decimal text followed by a byte that is not a digit reads back as its
/// number and ends at that byte.
proof fn lemma_read_decimal(s: Seq<u8>, p: int, n: nat)
    requires
        0 <= p,
        p + decimal(n).len() < s.len(),
        s.subrange(p, p + decimal(n).len()) == decimal(n),
        !is_digit(s[p + decimal(n).len()]),
    ensures
        digits_end(s, p) == p + decimal(n).len(),
        digits_value(s, p, p + decimal(n).len()) == n,
{
    let k = decimal(n).len();
    lemma_decimal_shape(n);
    assert forall|i: int| p <= i < p + k implies is_digit(#[trigger] s[i]) by {
        assert(s[i] == s.subrange(p, p + k)[i - p]);
    }
    lemma_digits_end_over(s, p, p + k);
    lemma_digits_read(s, p, n);
}

/// An encoding is never empty and never starts with the byte that closes a
/// list or a dictionary.
proof fn lemma_encoding_start(v: Value)
    ensures
        encode_value(v).len() >= 1,
        encode_value(v)[0] != 101,
{
    if let Value::Bytes(b) = v {
        lemma_decimal_shape(b.len());
        assert(encode_value(v)[0] == decimal(b.len())[0]);
    }
}

/// The encoding of a byte string, wherever it stands, decodes to it.
proof fn lemma_parse_bytes_encoding(k: Seq<u8>, s: Seq<u8>, p: int)
    requires
        0 <= p,
        p + encode_bytes(k).len() <= s.len(),
        s.subrange(p, p + encode_bytes(k).len()) == encode_bytes(k),
    ensures
        is_digit(s[p]),
        parse_bytes(s, p) == Ok::<(Seq<u8>, int), DecodeError>(
            (k, p + encode_bytes(k).len()),
        ),
{
    let d = decimal(k.len());
    let e = encode_bytes(k);
    lemma_decimal_shape(k.len());
    assert(s[p] == e[0]);
    assert(e[0] == d[0]);
    assert(s.subrange(p, p + d.len()) =~= e.subrange(0, d.len() as int));
    assert(e.subrange(0, d.len() as int) =~= d);
    assert(s[p + d.len()] == e[d.len() as int]);
    lemma_read_decimal(s, p, k.len());
    let start = p + d.len() + 1;
    assert(s.subrange(start, start + k.len()) =~= k) by {
        assert forall|i: int| 0 <= i < k.len() implies s.subrange(start, start + k.len())[i]
            == k[i] by {
            assert(s[start + i] == s.subrange(p, p + e.len())[d.len() + 1 + i]);
        }
    }
}

/// The encoding of an integer, wherever it stands, decodes to it.
proof fn lemma_parse_int_encoding(n: int, s: Seq<u8>, p: int)
    requires
        i64::MIN <= n <= i64::MAX,
        0 <= p,
        p + encode_value(Value::Int(n)).len() <= s.len(),
        s.subrange(p, p + encode_value(Value::Int(n)).len()) == encode_value(Value::Int(n)),
    ensures
        parse_int(s, p) == Ok::<(Value, int), DecodeError>(
            (Value::Int(n), p + encode_value(Value::Int(n)).len()),
        ),
{
    let e = encode_value(Value::Int(n));
    let m: nat = if n < 0 { (-n) as nat } else { n as nat };
    let d = decimal(m);
    let start = if n < 0 { p + 2 } else { p + 1 };
    lemma_decimal_shape(m);
    assert forall|i: int| 0 <= i < e.len() implies s[p + i] == #[trigger] e[i] by {
        assert(s[p + i] == s.subrange(p, p + e.len())[i]);
    }
    assert(s[p + 1] == e[1]);
    assert(s.subrange(start, start + d.len()) =~= d) by {
        assert forall|i: int| 0 <= i < d.len() implies s.subrange(start, start + d.len())[i]
            == d[i] by {
            assert(s[start + i] == e[start - p + i]);
        }
    }
    assert(s[start + d.len()] == e[start - p + d.len()]);
    lemma_read_decimal(s, start, m);
}

/// The encoding of a well-formed value, wherever it stands, decodes to it
/// and ends where the encoding ends.
proof fn lemma_parse_value_encoding(v: Value, s: Seq<u8>, p: int)
    requires
        well_formed(v),
        0 <= p,
        p + encode_value(v).len() <= s.len(),
        s.subrange(p, p + encode_value(v).len()) == encode_value(v),
    ensures
        parse_value(s, p) == Ok::<(Value, int), DecodeError>((v, p + encode_value(v).len())),
    decreases v,
{
    let e = encode_value(v);
    assert(s[p] == e[0]) by {
        lemma_encoding_start(v);
        assert(s[p] == s.subrange(p, p + e.len())[0]);
    }
    match v {
        Value::Int(n) => {
            lemma_parse_int_encoding(n, s, p);
        },
        Value::Bytes(b) => {
            lemma_parse_bytes_encoding(b, s, p);
        },
        Value::List(items) => {
            let inner = encode_items(items);
            assert(s.subrange(p + 1, p + 1 + inner.len()) =~= inner) by {
                assert forall|i: int| 0 <= i < inner.len() implies s.subrange(
                    p + 1,
                    p + 1 + inner.len(),
                )[i] == inner[i] by {
                    assert(s[p + 1 + i] == s.subrange(p, p + e.len())[1 + i]);
                }
            }
            assert(s[p + 1 + inner.len()] == s.subrange(p, p + e.len())[1 + inner.len() as int]);
            lemma_parse_items_encoding(items, s, p + 1);
        },
        Value::Dict(es) => {
            let inner = encode_entries(es);
            assert(s.subrange(p + 1, p + 1 + inner.len()) =~= inner) by {
                assert forall|i: int| 0 <= i < inner.len() implies s.subrange(
                    p + 1,
                    p + 1 + inner.len(),
                )[i] == inner[i] by {
                    assert(s[p + 1 + i] == s.subrange(p, p + e.len())[1 + i]);
                }
            }
            assert(s[p + 1 + inner.len()] == s.subrange(p, p + e.len())[1 + inner.len() as int]);
            assert(Seq::<(Seq<u8>, Value)>::empty() + es =~= es);
            lemma_parse_entries_encoding(es, Seq::empty(), s, p + 1);
        },
    }
}

/// The encodings of well-formed items followed by `e` decode to the items.
proof fn lemma_parse_items_encoding(items: Seq<Value>, s: Seq<u8>, p: int)
    requires
        forall|i: int| 0 <= i < items.len() ==> well_formed(#[trigger] items[i]),
        0 <= p,
        p + encode_items(items).len() < s.len(),
        s.subrange(p, p + encode_items(items).len()) == encode_items(items),
        s[p + encode_items(items).len()] == 101,
    ensures
        parse_items(s, p) == Ok::<(Seq<Value>, int), DecodeError>(
            (items, p + encode_items(items).len() + 1),
        ),
    decreases items,
{
    let whole = encode_items(items);
    if items.len() == 0 {
        assert(items =~= Seq::<Value>::empty());
    } else {
        let v = items[0];
        let ev = encode_value(v);
        let rest = items.drop_first();
        let er = encode_items(rest);
        assert(whole == ev + er);
        assert(s.subrange(p, p + ev.len()) =~= ev) by {
            assert forall|i: int| 0 <= i < ev.len() implies s.subrange(p, p + ev.len())[i]
                == ev[i] by {
                assert(s[p + i] == s.subrange(p, p + whole.len())[i]);
            }
        }
        lemma_encoding_start(v);
        assert(s[p] == ev[0]);
        lemma_parse_value_encoding(v, s, p);
        assert(s.subrange(p + ev.len(), p + ev.len() + er.len()) =~= er) by {
            assert forall|i: int| 0 <= i < er.len() implies s.subrange(
                p + ev.len(),
                p + ev.len() + er.len(),
            )[i] == er[i] by {
                assert(s[p + ev.len() + i] == s.subrange(p, p + whole.len())[ev.len() + i]);
            }
        }
        lemma_parse_items_encoding(rest, s, p + ev.len());
        assert(seq![v] + rest =~= items);
    }
}

/// The encodings of entries whose keys continue `acc` in ascending order,
/// followed by `e`, decode to `acc` followed by those entries.
proof fn lemma_parse_entries_encoding(
    es: Seq<(Seq<u8>, Value)>,
    acc: Seq<(Seq<u8>, Value)>,
    s: Seq<u8>,
    p: int,
)
    requires
        keys_ascending(acc + es),
        forall|i: int| 0 <= i < es.len() ==> well_formed(#[trigger] es[i].1),
        0 <= p,
        p + encode_entries(es).len() < s.len(),
        s.subrange(p, p + encode_entries(es).len()) == encode_entries(es),
        s[p + encode_entries(es).len()] == 101,
    ensures
        parse_entries(s, p, acc) == Ok::<(Seq<(Seq<u8>, Value)>, int), DecodeError>(
            (acc + es, p + encode_entries(es).len() + 1),
        ),
    decreases es,
{
    let whole = encode_entries(es);
    if es.len() == 0 {
        assert(acc + es =~= acc);
    } else {
        let k = es[0].0;
        let v = es[0].1;
        let ek = encode_bytes(k);
        let ev = encode_value(v);
        let rest = es.drop_first();
        let er = encode_entries(rest);
        assert(whole == ek + ev + er);
        assert forall|i: int| 0 <= i < whole.len() implies s[p + i] == #[trigger] whole[i] by {
            assert(s[p + i] == s.subrange(p, p + whole.len())[i]);
        }
        assert(s.subrange(p, p + ek.len()) =~= ek) by {
            assert forall|i: int| 0 <= i < ek.len() implies s.subrange(p, p + ek.len())[i]
                == ek[i] by {
                assert(s[p + i] == whole[i]);
            }
        }
        lemma_parse_bytes_encoding(k, s, p);
        let q = p + ek.len();
        assert(s.subrange(q, q + ev.len()) =~= ev) by {
            assert forall|i: int| 0 <= i < ev.len() implies s.subrange(q, q + ev.len())[i]
                == ev[i] by {
                assert(s[q + i] == whole[ek.len() + i]);
            }
        }
        assert(well_formed(es[0].1));
        lemma_encoding_start(v);
        lemma_parse_value_encoding(v, s, q);
        let r = q + ev.len();
        assert(s.subrange(r, r + er.len()) =~= er) by {
            assert forall|i: int| 0 <= i < er.len() implies s.subrange(r, r + er.len())[i]
                == er[i] by {
                assert(s[r + i] == whole[ek.len() + ev.len() + i]);
            }
        }
        assert forall|j: int| 0 <= j < acc.len() implies crate::bendecoder::bytes_lt(
            #[trigger] acc[j].0,
            k,
        ) by {
            assert((acc + es)[j] == acc[j]);
            assert((acc + es)[acc.len() as int] == es[0]);
        }
        lemma_dict_insert_at(acc, k, v, acc.len() as int);
        assert(acc.take(acc.len() as int) + seq![(k, v)] + acc.skip(acc.len() as int) =~= acc.push(
            (k, v),
        ));
        assert(acc.push((k, v)) + rest =~= acc + es);
        assert forall|i: int| 0 <= i < rest.len() implies well_formed(#[trigger] rest[i].1) by {
            assert(rest[i] == es[i + 1]);
        }
        lemma_parse_entries_encoding(rest, acc.push((k, v)), s, r);
    }
}

/// Decoding the canonical encoding of a well-formed value, whatever bytes
/// follow it, gives the value back and stops right after the encoding.
pub proof fn lemma_decode_encode(v: Value, rest: Seq<u8>)
    requires
        well_formed(v),
    ensures
        parse_value(encode_value(v) + rest, 0) == Ok::<(Value, int), DecodeError>(
            (v, encode_value(v).len() as int),
        ),
{
    let s = encode_value(v) + rest;
    assert(s.subrange(0, encode_value(v).len() as int) =~= encode_value(v));
    lemma_parse_value_encoding(v, s, 0);
}


/// Any two byte strings are equal, or one comes before the other.
proof fn lemma_bytes_lt_total(a: Seq<u8>, b: Seq<u8>)
    ensures
        a == b || bytes_lt(a, b) || bytes_lt(b, a),
    decreases a.len(),
{
    if a.len() == 0 && b.len() == 0 {
        assert(a =~= b);
    } else if a.len() > 0 && b.len() > 0 && a[0] == b[0] {
        lemma_bytes_lt_total(a.drop_first(), b.drop_first());
        if a.drop_first() == b.drop_first() {
            assert(a =~= seq![a[0]] + a.drop_first());
            assert(b =~= seq![b[0]] + b.drop_first());
        }
    }
}

/// Of two byte strings, at most one comes before the other.
proof fn lemma_bytes_lt_asymmetric(a: Seq<u8>, b: Seq<u8>)
    requires
        bytes_lt(a, b),
    ensures
        !bytes_lt(b, a),
{
    if bytes_lt(b, a) {
        lemma_bytes_lt_transitive(a, b, a);
        lemma_bytes_lt_irreflexive(a);
    }
}

/// Putting two different keys into a dictionary gives the same entries in
/// either order: the canonical form does not depend on how it was built.
pub proof fn lemma_insert_order_independent(
    es: Seq<(Seq<u8>, Value)>,
    k1: Seq<u8>,
    v1: Value,
    k2: Seq<u8>,
    v2: Value,
)
    requires
        k1 != k2,
    ensures
        dict_insert(dict_insert(es, k1, v1), k2, v2) == dict_insert(dict_insert(es, k2, v2), k1, v1),
    decreases es.len(),
{
    lemma_bytes_lt_total(k1, k2);
    if bytes_lt(k1, k2) {
        lemma_bytes_lt_asymmetric(k1, k2);
    }
    if bytes_lt(k2, k1) {
        lemma_bytes_lt_asymmetric(k2, k1);
    }
    let e1 = seq![(k1, v1)];
    let e2 = seq![(k2, v2)];
    if es.len() == 0 {
        assert(dict_insert(es, k1, v1) == e1);
        assert(dict_insert(es, k2, v2) == e2);
        assert(e1.drop_first() =~= Seq::<(Seq<u8>, Value)>::empty());
        assert(e2.drop_first() =~= Seq::<(Seq<u8>, Value)>::empty());
        assert(dict_insert(Seq::<(Seq<u8>, Value)>::empty(), k1, v1) == e1);
        assert(dict_insert(Seq::<(Seq<u8>, Value)>::empty(), k2, v2) == e2);
        if bytes_lt(k1, k2) {
            assert(dict_insert(e1, k2, v2) =~= e1 + e2);
            assert(dict_insert(e2, k1, v1) =~= e1 + e2);
        } else {
            assert(dict_insert(e1, k2, v2) =~= e2 + e1);
            assert(dict_insert(e2, k1, v1) =~= e2 + e1);
        }
    } else {
        let h = es[0].0;
        let t = es.drop_first();
        let first = seq![es[0]];
        lemma_bytes_lt_total(h, k1);
        lemma_bytes_lt_total(h, k2);
        if bytes_lt(h, k1) {
            lemma_bytes_lt_asymmetric(h, k1);
        }
        if bytes_lt(h, k2) {
            lemma_bytes_lt_asymmetric(h, k2);
        }
        if bytes_lt(k1, h) {
            lemma_bytes_lt_asymmetric(k1, h);
        }
        if bytes_lt(k2, h) {
            lemma_bytes_lt_asymmetric(k2, h);
        }
        lemma_bytes_lt_irreflexive(h);
        lemma_bytes_lt_irreflexive(k1);
        lemma_bytes_lt_irreflexive(k2);
        if bytes_lt(h, k1) && bytes_lt(k1, k2) {
            lemma_bytes_lt_transitive(h, k1, k2);
        }
        if bytes_lt(h, k2) && bytes_lt(k2, k1) {
            lemma_bytes_lt_transitive(h, k2, k1);
        }
        if bytes_lt(k1, h) && bytes_lt(k2, k1) {
            lemma_bytes_lt_transitive(k2, k1, h);
        }
        if bytes_lt(k2, h) && bytes_lt(k1, k2) {
            lemma_bytes_lt_transitive(k1, k2, h);
        }
        let i1 = dict_insert(es, k1, v1);
        let i2 = dict_insert(es, k2, v2);
        if bytes_lt(h, k1) && bytes_lt(h, k2) {
            lemma_insert_order_independent(t, k1, v1, k2, v2);
            let a = dict_insert(t, k1, v1);
            let b = dict_insert(t, k2, v2);
            assert((first + a)[0] == es[0] && (first + a).drop_first() =~= a);
            assert((first + b)[0] == es[0] && (first + b).drop_first() =~= b);
        } else if bytes_lt(h, k1) && h == k2 {
            let a = dict_insert(t, k1, v1);
            assert((first + a)[0] == es[0] && (first + a).drop_first() =~= a);
            assert((e2 + t)[0] == (k2, v2) && (e2 + t).drop_first() =~= t);
        } else if bytes_lt(h, k2) && h == k1 {
            let b = dict_insert(t, k2, v2);
            assert((first + b)[0] == es[0] && (first + b).drop_first() =~= b);
            assert((e1 + t)[0] == (k1, v1) && (e1 + t).drop_first() =~= t);
        } else if bytes_lt(h, k1) {
            let a = dict_insert(t, k1, v1);
            assert((first + a)[0] == es[0] && (first + a).drop_first() =~= a);
            assert((e2 + es)[0] == (k2, v2) && (e2 + es).drop_first() =~= es);
            assert(e2 + (first + a) =~= e2 + i1);
        } else if bytes_lt(h, k2) {
            let b = dict_insert(t, k2, v2);
            assert((first + b)[0] == es[0] && (first + b).drop_first() =~= b);
            assert((e1 + es)[0] == (k1, v1) && (e1 + es).drop_first() =~= es);
        } else if h == k1 {
            assert((e1 + t)[0] == (k1, v1) && (e1 + t).drop_first() =~= t);
            assert((e2 + es)[0] == (k2, v2) && (e2 + es).drop_first() =~= es);
            assert(e2 + (e1 + t) =~= e2 + i1);
        } else if h == k2 {
            assert((e2 + t)[0] == (k2, v2) && (e2 + t).drop_first() =~= t);
            assert((e1 + es)[0] == (k1, v1) && (e1 + es).drop_first() =~= es);
            assert(e1 + (e2 + t) =~= e1 + i2);
        } else {
            assert((e1 + es)[0] == (k1, v1) && (e1 + es).drop_first() =~= es);
            assert((e2 + es)[0] == (k2, v2) && (e2 + es).drop_first() =~= es);
            if bytes_lt(k1, k2) {
                assert(e1 + (e2 + es) =~= e1 + i2);
            } else {
                assert(e2 + (e1 + es) =~= e2 + i1);
            }
        }
    }
}

} // verus!
