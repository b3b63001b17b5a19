//! Bencoding: values, their canonical encoding, and a decoder that consumes
//! one value from the front of a byte buffer.

use vstd::prelude::*;
use vstd::slice::{slice_subrange, slice_to_vec};
use crate::text::{chars_of, push_char, push_decimal_chars, push_text, text_of};

verus! {

/// Lexicographic order on byte strings, the order in which dictionary keys
/// are kept and written.
pub open spec fn bytes_lt(a: Seq<u8>, b: Seq<u8>) -> bool
    decreases a.len(),
{
    if a.len() == 0 {
        b.len() > 0
    } else if b.len() == 0 {
        false
    } else if a[0] != b[0] {
        a[0] < b[0]
    } else {
        bytes_lt(a.drop_first(), b.drop_first())
    }
}

/// Compares two byte strings in lexicographic order.
pub fn compare_bytes(a: &[u8], b: &[u8]) -> (r: std::cmp::Ordering)
    ensures
        (r == std::cmp::Ordering::Less) <==> bytes_lt(a@, b@),
        (r == std::cmp::Ordering::Equal) <==> a@ == b@,
        (r == std::cmp::Ordering::Greater) <==> bytes_lt(b@, a@),
{
    let mut i: usize = 0;
    assert(a@.skip(0) =~= a@);
    assert(b@.skip(0) =~= b@);
    while i < a.len() && i < b.len() && a[i] == b[i]
        invariant
            i <= a@.len(),
            i <= b@.len(),
            a@.subrange(0, i as int) == b@.subrange(0, i as int),
            bytes_lt(a@, b@) == bytes_lt(a@.skip(i as int), b@.skip(i as int)),
            bytes_lt(b@, a@) == bytes_lt(b@.skip(i as int), a@.skip(i as int)),
        decreases a@.len() - i,
    {
        assert(a@.skip(i as int).drop_first() =~= a@.skip(i + 1));
        assert(b@.skip(i as int).drop_first() =~= b@.skip(i + 1));
        assert(a@.subrange(0, i + 1) =~= a@.subrange(0, i as int).push(a@[i as int]));
        assert(b@.subrange(0, i + 1) =~= b@.subrange(0, i as int).push(b@[i as int]));
        i = i + 1;
    }
    if i < a.len() && i < b.len() {
        if a[i] < b[i] {
            std::cmp::Ordering::Less
        } else {
            std::cmp::Ordering::Greater
        }
    } else if i < b.len() {
        assert(a@ =~= a@.subrange(0, i as int));
        assert(a@ != b@);
        std::cmp::Ordering::Less
    } else if i < a.len() {
        assert(b@ =~= b@.subrange(0, i as int));
        assert(a@ != b@);
        std::cmp::Ordering::Greater
    } else {
        assert(a@ =~= a@.subrange(0, i as int));
        assert(b@ =~= b@.subrange(0, i as int));
        assert(!bytes_lt(a@.skip(i as int), b@.skip(i as int)));
        std::cmp::Ordering::Equal
    }
}

/// Byte-string order is transitive.
pub proof fn lemma_bytes_lt_transitive(a: Seq<u8>, b: Seq<u8>, c: Seq<u8>)
    requires
        bytes_lt(a, b),
        bytes_lt(b, c),
    ensures
        bytes_lt(a, c),
    decreases a.len(),
{
    if a.len() > 0 && b.len() > 0 && c.len() > 0 && a[0] == b[0] && b[0] == c[0] {
        lemma_bytes_lt_transitive(a.drop_first(), b.drop_first(), c.drop_first());
    }
}

/// No byte string comes before itself.
pub proof fn lemma_bytes_lt_irreflexive(a: Seq<u8>)
    ensures
        !bytes_lt(a, a),
    decreases a.len(),
{
    if a.len() > 0 {
        lemma_bytes_lt_irreflexive(a.drop_first());
    }
}

/// The mathematical value that a bencoded value stands for.
pub enum Value {
    Int(int),
    Bytes(Seq<u8>),
    List(Seq<Value>),
    Dict(Seq<(Seq<u8>, Value)>),
}

/// A bencoded value: a byte string, a 64-bit integer, a list, or a
/// dictionary whose keys are byte strings.
#[derive(Debug, PartialEq, Eq)]
pub enum Bencode {
    String(Vec<u8>),
    Integer(i64),
    List(Vec<Bencode>),
    Dictionary(Dict),
}

/// A bencoded dictionary. Its entries are always held in ascending key
/// order with no key twice, so that it encodes canonically.
#[derive(Debug, PartialEq, Eq)]
pub struct Dict {
    entries: Vec<(Vec<u8>, Bencode)>,
}

impl Dict {
    /// The entries, in the order in which they are held.
    pub closed spec fn view(&self) -> Seq<(Seq<u8>, Value)>
        decreases self,
    {
        entries_of(self.entries@)
    }
}

/// What a bencoded value stands for.
pub open spec fn value_of(b: Bencode) -> Value
    decreases b,
{
    match b {
        Bencode::String(s) => Value::Bytes(s@),
        Bencode::Integer(n) => Value::Int(n as int),
        Bencode::List(l) => Value::List(values_of(l@)),
        Bencode::Dictionary(d) => Value::Dict(d.view()),
    }
}

/// What each of a sequence of bencoded values stands for.
pub open spec fn values_of(s: Seq<Bencode>) -> Seq<Value>
    decreases s,
{
    if s.len() == 0 {
        Seq::empty()
    } else {
        values_of(s.drop_last()).push(value_of(s.last()))
    }
}

/// The entries of a dictionary, with keys and values as values.
pub open spec fn entries_of(s: Seq<(Vec<u8>, Bencode)>) -> Seq<(Seq<u8>, Value)>
    decreases s,
{
    if s.len() == 0 {
        Seq::empty()
    } else {
        entries_of(s.drop_last()).push((s.last().0@, value_of(s.last().1)))
    }
}


/// Each value of `values_of(s)` is what the matching element of `s` stands for.
pub proof fn lemma_values_of(s: Seq<Bencode>)
    ensures
        values_of(s).len() == s.len(),
        forall|i: int| 0 <= i < s.len() ==> #[trigger] values_of(s)[i] == value_of(s[i]),
    decreases s.len(),
{
    if s.len() > 0 {
        lemma_values_of(s.drop_last());
    }
}

/// Each entry of `entries_of(s)` is what the matching entry of `s` stands for.
pub proof fn lemma_entries_of(s: Seq<(Vec<u8>, Bencode)>)
    ensures
        entries_of(s).len() == s.len(),
        forall|i: int|
            0 <= i < s.len() ==> #[trigger] entries_of(s)[i] == (s[i].0@, value_of(s[i].1)),
    decreases s.len(),
{
    if s.len() > 0 {
        lemma_entries_of(s.drop_last());
    }
}

/// The keys of a dictionary's entries are in strictly ascending order.
pub open spec fn keys_ascending(es: Seq<(Seq<u8>, Value)>) -> bool {
    forall|i: int, j: int| 0 <= i < j < es.len() ==> bytes_lt(#[trigger] es[i].0, #[trigger] es[j].0)
}

/// The entries after `(k, v)` is put in: a new key goes in its place in
/// key order, and a key already there takes the new value.
pub open spec fn dict_insert(es: Seq<(Seq<u8>, Value)>, k: Seq<u8>, v: Value) -> Seq<(Seq<u8>, Value)>
    decreases es.len(),
{
    if es.len() == 0 {
        seq![(k, v)]
    } else if bytes_lt(es[0].0, k) {
        seq![es[0]] + dict_insert(es.drop_first(), k, v)
    } else if es[0].0 == k {
        seq![(k, v)] + es.drop_first()
    } else {
        seq![(k, v)] + es
    }
}

/// The value that the entries hold for key `k`, if any.
pub open spec fn dict_get(es: Seq<(Seq<u8>, Value)>, k: Seq<u8>) -> Option<Value>
    decreases es.len(),
{
    if es.len() == 0 {
        None
    } else if es[0].0 == k {
        Some(es[0].1)
    } else {
        dict_get(es.drop_first(), k)
    }
}

/// Inserting behind the keys that come before `k` splices `(k, v)` in at
/// that place, over an entry with an equal key.
pub(crate) proof fn lemma_dict_insert_at(es: Seq<(Seq<u8>, Value)>, k: Seq<u8>, v: Value, pos: int)
    requires
        0 <= pos <= es.len(),
        forall|j: int| 0 <= j < pos ==> bytes_lt(#[trigger] es[j].0, k),
        pos < es.len() ==> !bytes_lt(es[pos].0, k),
    ensures
        dict_insert(es, k, v) == if pos < es.len() && es[pos].0 == k {
            es.take(pos) + seq![(k, v)] + es.skip(pos + 1)
        } else {
            es.take(pos) + seq![(k, v)] + es.skip(pos)
        },
    decreases pos,
{
    if pos == 0 {
        assert(es.take(0) + seq![(k, v)] + es.skip(1) =~= seq![(k, v)] + es.drop_first());
        assert(es.take(0) + seq![(k, v)] + es.skip(0) =~= seq![(k, v)] + es);
    } else {
        let rest = es.drop_first();
        assert forall|j: int| 0 <= j < pos - 1 implies bytes_lt(#[trigger] rest[j].0, k) by {
            assert(rest[j] == es[j + 1]);
        }
        lemma_dict_insert_at(rest, k, v, pos - 1);
        if pos < es.len() && es[pos].0 == k {
            assert(es.take(pos) + seq![(k, v)] + es.skip(pos + 1) =~= seq![es[0]] + (rest.take(
                pos - 1,
            ) + seq![(k, v)] + rest.skip(pos)));
        } else {
            assert(es.take(pos) + seq![(k, v)] + es.skip(pos) =~= seq![es[0]] + (rest.take(pos - 1)
                + seq![(k, v)] + rest.skip(pos - 1)));
        }
    }
}

/// Whether `a` comes before `b` in byte-string order.
fn key_before(a: &[u8], b: &[u8]) -> (r: bool)
    ensures
        r == bytes_lt(a@, b@),
{
    match compare_bytes(a, b) {
        std::cmp::Ordering::Less => true,
        _ => false,
    }
}

impl Dict {
    #[verifier::type_invariant]
    spec fn keys_in_order(self) -> bool {
        forall|i: int, j: int|
            0 <= i < j < self.entries@.len() ==> bytes_lt(
                #[trigger] self.entries@[i].0@,
                #[trigger] self.entries@[j].0@,
            )
    }

    /// An empty dictionary.
    pub fn new() -> (d: Dict)
        ensures
            d@ == Seq::<(Seq<u8>, Value)>::empty(),
    {
        let d = Dict { entries: Vec::new() };
        assert(d@ =~= Seq::<(Seq<u8>, Value)>::empty());
        d
    }

    /// The number of entries.
    pub fn len(&self) -> (n: usize)
        ensures
            n == self@.len(),
    {
        proof {
            lemma_entries_of(self.entries@);
        }
        self.entries.len()
    }

    /// Puts `value` under `key`, in its place in key order; a value already
    /// under that key is replaced.
    pub fn insert(&mut self, key: Vec<u8>, value: Bencode)
        ensures
            final(self)@ == dict_insert(old(self)@, key@, value_of(value)),
    {
        let mut taken = Dict::new();
        std::mem::swap(self, &mut taken);
        proof {
            use_type_invariant(&taken);
            lemma_entries_of(taken.entries@);
        }
        let ghost es = taken@;
        let Dict { mut entries } = taken;
        let ghost raw = entries@;
        let n = entries.len();
        let mut pos: usize = 0;
        while pos < n && key_before(entries[pos].0.as_slice(), key.as_slice())
            invariant
                n == entries@.len(),
                raw == entries@,
                pos <= n,
                forall|j: int| 0 <= j < pos ==> bytes_lt(#[trigger] raw[j].0@, key@),
            decreases n - pos,
        {
            pos = pos + 1;
        }
        let same = pos < n && match compare_bytes(entries[pos].0.as_slice(), key.as_slice()) {
            std::cmp::Ordering::Equal => true,
            _ => false,
        };
        proof {
            assert forall|j: int| 0 <= j < pos implies bytes_lt(#[trigger] es[j].0, key@) by {
                assert(es[j].0 == raw[j].0@);
            }
            lemma_dict_insert_at(es, key@, value_of(value), pos as int);
            if pos < n && !same {
                assert(bytes_lt(key@, raw[pos as int].0@));
            }
        }
        let ghost kv = (key@, value_of(value));
        if same {
            entries.set(pos, (key, value));
            proof {
                lemma_entries_of(entries@);
                assert(entries_of(entries@) =~= es.take(pos as int) + seq![kv] + es.skip(pos + 1));
            }
        } else {
            entries.insert(pos, (key, value));
            proof {
                lemma_entries_of(entries@);
                assert(entries_of(entries@) =~= es.take(pos as int) + seq![kv] + es.skip(pos as int));
                assert forall|i: int, j: int|
                    0 <= i < j < entries@.len() implies bytes_lt(
                    #[trigger] entries@[i].0@,
                    #[trigger] entries@[j].0@,
                ) by {
                    if i < pos && j > pos {
                        if j == pos + 1 {
                            lemma_bytes_lt_transitive(raw[i].0@, key@, raw[pos as int].0@);
                        } else {
                            lemma_bytes_lt_transitive(raw[i].0@, raw[pos as int].0@, raw[j - 1].0@);
                        }
                    } else if i == pos && j > pos + 1 {
                        lemma_bytes_lt_transitive(key@, raw[pos as int].0@, raw[j - 1].0@);
                    }
                }
            }
        }
        *self = Dict { entries };
    }

    /// The value under `key`, if there is one.
    pub fn get(&self, key: &[u8]) -> (r: Option<&Bencode>)
        ensures
            match r {
                Some(v) => dict_get(self@, key@) == Some(value_of(*v)),
                None => dict_get(self@, key@) is None,
            },
    {
        proof {
            lemma_entries_of(self.entries@);
        }
        let ghost es = self@;
        let n = self.entries.len();
        let mut i: usize = 0;
        assert(es.skip(0) =~= es);
        while i < n
            invariant
                n == self.entries@.len(),
                es == self@,
                es.len() == n,
                i <= n,
                dict_get(es, key@) == dict_get(es.skip(i as int), key@),
                forall|j: int| 0 <= j < n ==> #[trigger] es[j] == (self.entries@[j].0@, value_of(self.entries@[j].1)),
            decreases n - i,
        {
            let entry = &self.entries[i];
            match compare_bytes(entry.0.as_slice(), key) {
                std::cmp::Ordering::Equal => {
                    return Some(&entry.1);
                },
                _ => {},
            }
            assert(es.skip(i as int).drop_first() =~= es.skip(i + 1));
            i = i + 1;
        }
        None
    }

    /// The entries, in ascending key order.
    pub fn entries(&self) -> (r: &Vec<(Vec<u8>, Bencode)>)
        ensures
            entries_of(r@) == self@,
            keys_ascending(self@),
    {
        proof {
            use_type_invariant(self);
            lemma_entries_of(self.entries@);
        }
        &self.entries
    }
}


impl View for Bencode {
    type V = Value;

    open spec fn view(&self) -> Value {
        value_of(*self)
    }
}

/// A value that a `Bencode` can hold: integers fit in 64 bits and the keys
/// of every dictionary are in strictly ascending order.
pub open spec fn well_formed(v: Value) -> bool
    decreases v,
{
    match v {
        Value::Int(n) => i64::MIN <= n <= i64::MAX,
        Value::Bytes(_) => true,
        Value::List(items) => forall|i: int| 0 <= i < items.len() ==> well_formed(#[trigger] items[i]),
        Value::Dict(es) => keys_ascending(es) && forall|i: int|
            0 <= i < es.len() ==> well_formed(#[trigger] es[i].1),
    }
}

/// The ASCII digit for `d` (below ten).
pub open spec fn digit_byte(d: nat) -> u8 {
    (48 + d) as u8
}

/// The decimal digits of `n`, most significant first, with no leading zero.
pub open spec fn decimal(n: nat) -> Seq<u8>
    decreases n,
{
    if n < 10 {
        seq![digit_byte(n)]
    } else {
        decimal(n / 10).push(digit_byte(n % 10))
    }
}

/// The decimal text of an integer: a minus sign for a negative one.
pub open spec fn int_text(n: int) -> Seq<u8> {
    if n < 0 {
        seq![45u8] + decimal((-n) as nat)
    } else {
        decimal(n as nat)
    }
}

/// The encoding of a byte string: its length in decimal, a colon, the bytes.
pub open spec fn encode_bytes(b: Seq<u8>) -> Seq<u8> {
    decimal(b.len()) + seq![58u8] + b
}

/// The canonical encoding of a value.
pub open spec fn encode_value(v: Value) -> Seq<u8>
    decreases v,
{
    match v {
        Value::Int(n) => seq![105u8] + int_text(n) + seq![101u8],
        Value::Bytes(b) => encode_bytes(b),
        Value::List(items) => seq![108u8] + encode_items(items) + seq![101u8],
        Value::Dict(es) => seq![100u8] + encode_entries(es) + seq![101u8],
    }
}

/// The encodings of a sequence of values, one after another.
pub open spec fn encode_items(s: Seq<Value>) -> Seq<u8>
    decreases s,
{
    if s.len() == 0 {
        Seq::empty()
    } else {
        encode_value(s[0]) + encode_items(s.drop_first())
    }
}

/// The encodings of dictionary entries, each key followed by its value.
pub open spec fn encode_entries(es: Seq<(Seq<u8>, Value)>) -> Seq<u8>
    decreases es,
{
    if es.len() == 0 {
        Seq::empty()
    } else {
        encode_bytes(es[0].0) + encode_value(es[0].1) + encode_entries(es.drop_first())
    }
}

/// Encoding one more item appends its encoding.
proof fn lemma_encode_items_push(s: Seq<Value>, v: Value)
    ensures
        encode_items(s.push(v)) == encode_items(s) + encode_value(v),
    decreases s.len(),
{
    if s.len() == 0 {
        assert(s.push(v).drop_first() =~= Seq::<Value>::empty());
        assert(s.push(v)[0] == v);
        assert(encode_items(Seq::<Value>::empty()) == Seq::<u8>::empty());
        assert(encode_items(s.push(v)) =~= encode_value(v));
    } else {
        assert(s.push(v).drop_first() =~= s.drop_first().push(v));
        lemma_encode_items_push(s.drop_first(), v);
        assert(encode_items(s.push(v)) =~= encode_items(s) + encode_value(v));
    }
}

/// Encoding one more entry appends its key's and its value's encodings.
proof fn lemma_encode_entries_push(es: Seq<(Seq<u8>, Value)>, k: Seq<u8>, v: Value)
    ensures
        encode_entries(es.push((k, v))) == encode_entries(es) + encode_bytes(k) + encode_value(v),
    decreases es.len(),
{
    if es.len() == 0 {
        assert(es.push((k, v)).drop_first() =~= Seq::<(Seq<u8>, Value)>::empty());
        assert(es.push((k, v))[0] == (k, v));
        assert(encode_entries(Seq::<(Seq<u8>, Value)>::empty()) == Seq::<u8>::empty());
        assert(encode_entries(es.push((k, v))) =~= encode_bytes(k) + encode_value(v));
    } else {
        assert(es.push((k, v)).drop_first() =~= es.drop_first().push((k, v)));
        lemma_encode_entries_push(es.drop_first(), k, v);
        assert(encode_entries(es.push((k, v))) =~= encode_entries(es) + encode_bytes(k)
            + encode_value(v));
    }
}

/// Appends the decimal digits of `n`.
pub(crate) fn push_decimal(out: &mut Vec<u8>, n: u64)
    ensures
        final(out)@ == old(out)@ + decimal(n as nat),
    decreases n,
{
    if n >= 10 {
        push_decimal(out, n / 10);
    }
    out.push(48u8 + (n % 10) as u8);
    proof {
        if n >= 10 {
            assert(decimal(n as nat) == decimal((n / 10) as nat).push(digit_byte((n % 10) as nat)));
        }
        assert(final(out)@ =~= old(out)@ + decimal(n as nat)) by {
            if n < 10 {
                assert(decimal(n as nat) == seq![digit_byte(n as nat)]);
            }
        }
    }
}

/// Appends the encoding of a byte string.
fn push_bytes(out: &mut Vec<u8>, b: &[u8])
    ensures
        final(out)@ == old(out)@ + encode_bytes(b@),
{
    push_decimal(out, b.len() as u64);
    out.push(58u8);
    let mut i: usize = 0;
    let ghost start = out@;
    while i < b.len()
        invariant
            i <= b@.len(),
            out@ == start + b@.take(i as int),
        decreases b@.len() - i,
    {
        out.push(b[i]);
        assert(b@.take(i + 1) =~= b@.take(i as int).push(b@[i as int]));
        i = i + 1;
    }
    assert(b@.take(i as int) =~= b@);
    assert(out@ =~= old(out)@ + encode_bytes(b@));
}

impl Bencode {
    /// Appends the canonical encoding of this value; dictionaries come out in
    /// ascending key order.
    pub fn encode_into(&self, out: &mut Vec<u8>)
        ensures
            final(out)@ == old(out)@ + encode_value(self@),
            well_formed(self@),
        decreases self,
    {
        match self {
            Bencode::Integer(n) => {
                out.push(105u8);
                let ghost before = out@;
                if *n < 0 {
                    out.push(45u8);
                    let magnitude: u64 = (-(*n + 1)) as u64 + 1;
                    push_decimal(out, magnitude);
                } else {
                    push_decimal(out, *n as u64);
                }
                out.push(101u8);
                assert(out@ =~= old(out)@ + encode_value(self@));
            },
            Bencode::String(b) => {
                push_bytes(out, b.as_slice());
            },
            Bencode::List(items) => {
                out.push(108u8);
                let ghost start = out@;
                let ghost vs = values_of(items@);
                proof {
                    lemma_values_of(items@);
                }
                let mut i: usize = 0;
                while i < items.len()
                    invariant
                        *self == Bencode::List(*items),
                        i <= items@.len(),
                        vs == values_of(items@),
                        vs.len() == items@.len(),
                        forall|j: int| 0 <= j < items@.len() ==> #[trigger] vs[j] == value_of(items@[j]),
                        out@ == start + encode_items(vs.take(i as int)),
                        forall|j: int| 0 <= j < i ==> well_formed(#[trigger] vs[j]),
                    decreases items@.len() - i,
                {
                    proof {
                        assert(decreases_to!(self => self->List_0));
                        assert(decreases_to!(items => items@));
                        assert(decreases_to!(items@ => items@[i as int]));
                    }
                    items[i].encode_into(out);
                    proof {
                        assert(vs.take(i + 1) =~= vs.take(i as int).push(vs[i as int]));
                        lemma_encode_items_push(vs.take(i as int), vs[i as int]);
                    }
                    i = i + 1;
                }
                assert(vs.take(i as int) =~= vs);
                out.push(101u8);
                assert(out@ =~= old(out)@ + encode_value(self@));
            },
            Bencode::Dictionary(d) => {
                out.push(100u8);
                let ghost start = out@;
                let entries = &d.entries;
                let ghost es = d@;
                proof {
                    use_type_invariant(d);
                    lemma_entries_of(entries@);
                }
                let mut i: usize = 0;
                while i < entries.len()
                    invariant
                        *self == Bencode::Dictionary(*d),
                        entries == &d.entries,
                        i <= entries@.len(),
                        es == entries_of(entries@),
                        es.len() == entries@.len(),
                        forall|j: int|
                            0 <= j < entries@.len() ==> #[trigger] es[j] == (
                                entries@[j].0@,
                                value_of(entries@[j].1),
                            ),
                        out@ == start + encode_entries(es.take(i as int)),
                        forall|j: int| 0 <= j < i ==> well_formed(#[trigger] es[j].1),
                    decreases entries@.len() - i,
                {
                    let entry = &entries[i];
                    proof {
                        assert(decreases_to!(self => self->Dictionary_0));
                        assert(decreases_to!(d => d.entries));
                        assert(decreases_to!(d.entries => d.entries@));
                        assert(decreases_to!(d.entries@ => d.entries@[i as int]));
                        assert(decreases_to!(d.entries@[i as int] => d.entries@[i as int].1));
                    }
                    push_bytes(out, entry.0.as_slice());
                    entry.1.encode_into(out);
                    proof {
                        assert(es.take(i + 1) =~= es.take(i as int).push(es[i as int]));
                        lemma_encode_entries_push(es.take(i as int), es[i as int].0, es[i as int].1);
                    }
                    i = i + 1;
                }
                assert(es.take(i as int) =~= es);
                out.push(101u8);
                assert(out@ =~= old(out)@ + encode_value(self@));
            },
        }
    }

    /// The canonical encoding of this value.
    pub fn encode(&self) -> (r: Vec<u8>)
        ensures
            r@ == encode_value(self@),
            well_formed(self@),
    {
        let mut out: Vec<u8> = Vec::new();
        self.encode_into(&mut out);
        assert(out@ =~= encode_value(self@));
        out
    }
}


/// Why a buffer does not hold a bencoded value.
#[derive(Debug, Clone, Copy, PartialEq, Eq)]
pub enum DecodeError {
    /// The input ends where a value or the end of a list or dictionary
    /// should come.
    UnexpectedEnd,
    /// A value starts with a byte that starts no kind of value.
    UnexpectedByte,
    /// An integer has no digits, is not closed by `e`, or does not fit in
    /// 64 bits.
    InvalidInteger,
    /// The length of a byte string is not followed by a colon.
    InvalidLength,
    /// Fewer bytes remain than a byte string's length announces.
    TruncatedString,
    /// A dictionary key is not a byte string.
    NonStringKey,
}

/// An ASCII decimal digit.
pub open spec fn is_digit(b: u8) -> bool {
    48 <= b <= 57
}

/// The end of the run of digits that starts at `p`.
pub open spec fn digits_end(s: Seq<u8>, p: int) -> int
    decreases s.len() - p,
{
    if 0 <= p < s.len() && is_digit(s[p]) {
        digits_end(s, p + 1)
    } else {
        p
    }
}

/// The number that the digits `s[p..e]` spell in decimal.
pub open spec fn digits_value(s: Seq<u8>, p: int, e: int) -> nat
    decreases e - p,
{
    if e <= p {
        0
    } else {
        digits_value(s, p, e - 1) * 10 + (s[e - 1] - 48) as nat
    }
}

/// An integer `i<digits>e` at `p`, with an optional minus sign.
pub open spec fn parse_int(s: Seq<u8>, p: int) -> Result<(Value, int), DecodeError> {
    let q = p + 1;
    let negative = q < s.len() && s[q] == 45;
    let d = if negative { q + 1 } else { q };
    let e = digits_end(s, d);
    if e == d || e >= s.len() || s[e] != 101 {
        Err(DecodeError::InvalidInteger)
    } else {
        let m = digits_value(s, d, e);
        let n = if negative { -m } else { m as int };
        if n < i64::MIN || n > i64::MAX {
            Err(DecodeError::InvalidInteger)
        } else {
            Ok((Value::Int(n), e + 1))
        }
    }
}

/// A byte string `<length>:<bytes>` at `p`, which holds a digit.
pub open spec fn parse_bytes(s: Seq<u8>, p: int) -> Result<(Seq<u8>, int), DecodeError> {
    let e = digits_end(s, p);
    if e >= s.len() || s[e] != 58 {
        Err(DecodeError::InvalidLength)
    } else {
        let n = digits_value(s, p, e);
        if e + 1 + n > s.len() {
            Err(DecodeError::TruncatedString)
        } else {
            Ok((s.subrange(e + 1, e + 1 + n), e + 1 + n))
        }
    }
}

/// The value that starts at `p`, and where it ends.
pub open spec fn parse_value(s: Seq<u8>, p: int) -> Result<(Value, int), DecodeError>
    decreases s.len() - p, 0int,
{
    if p < 0 || p >= s.len() {
        Err(DecodeError::UnexpectedEnd)
    } else if s[p] == 105 {
        parse_int(s, p)
    } else if is_digit(s[p]) {
        match parse_bytes(s, p) {
            Ok((b, e)) => Ok((Value::Bytes(b), e)),
            Err(x) => Err(x),
        }
    } else if s[p] == 108 {
        match parse_items(s, p + 1) {
            Ok((items, e)) => Ok((Value::List(items), e)),
            Err(x) => Err(x),
        }
    } else if s[p] == 100 {
        match parse_entries(s, p + 1, Seq::empty()) {
            Ok((es, e)) => Ok((Value::Dict(es), e)),
            Err(x) => Err(x),
        }
    } else {
        Err(DecodeError::UnexpectedByte)
    }
}

/// The items of a list from `p` up to and including its closing `e`.
pub open spec fn parse_items(s: Seq<u8>, p: int) -> Result<(Seq<Value>, int), DecodeError>
    decreases s.len() - p, 1int,
{
    if p < 0 || p >= s.len() {
        Err(DecodeError::UnexpectedEnd)
    } else if s[p] == 101 {
        Ok((Seq::empty(), p + 1))
    } else {
        match parse_value(s, p) {
            Err(x) => Err(x),
            Ok((v, q)) => if q <= p || q > s.len() {
                Err(DecodeError::UnexpectedEnd)
            } else {
                match parse_items(s, q) {
                    Ok((rest, e)) => Ok((seq![v] + rest, e)),
                    Err(x) => Err(x),
                }
            },
        }
    }
}

/// The entries of a dictionary from `p` up to and including its closing
/// `e`, put one by one into `acc`.
pub open spec fn parse_entries(s: Seq<u8>, p: int, acc: Seq<(Seq<u8>, Value)>) -> Result<
    (Seq<(Seq<u8>, Value)>, int),
    DecodeError,
>
    decreases s.len() - p, 1int,
{
    if p < 0 || p >= s.len() {
        Err(DecodeError::UnexpectedEnd)
    } else if s[p] == 101 {
        Ok((acc, p + 1))
    } else if !is_digit(s[p]) {
        Err(DecodeError::NonStringKey)
    } else {
        match parse_bytes(s, p) {
            Err(x) => Err(x),
            Ok((k, q)) => if q <= p || q > s.len() {
                Err(DecodeError::UnexpectedEnd)
            } else {
                match parse_value(s, q) {
                    Err(x) => Err(x),
                    Ok((v, r)) => if r <= q || r > s.len() {
                        Err(DecodeError::UnexpectedEnd)
                    } else {
                        parse_entries(s, r, dict_insert(acc, k, v))
                    },
                }
            },
        }
    }
}

/// Reads the run of digits at `start`, and its value where that is at most
/// `limit`.
fn scan_digits(s: &[u8], start: usize, limit: u64) -> (r: (usize, Option<u64>))
    requires
        start <= s@.len(),
    ensures
        r.0 == digits_end(s@, start as int),
        start <= r.0 <= s@.len(),
        match r.1 {
            Some(v) => v == digits_value(s@, start as int, r.0 as int) && v <= limit,
            None => digits_value(s@, start as int, r.0 as int) > limit,
        },
{
    let mut i = start;
    let mut acc: u64 = 0;
    let mut over = false;
    while i < s.len() && 48 <= s[i] && s[i] <= 57
        invariant
            start <= i <= s@.len(),
            digits_end(s@, start as int) == digits_end(s@, i as int),
            !over ==> acc == digits_value(s@, start as int, i as int) && acc <= limit,
            over ==> digits_value(s@, start as int, i as int) > limit,
        decreases s@.len() - i,
    {
        let d = s[i] - 48;
        assert(digits_value(s@, start as int, i + 1) == digits_value(s@, start as int, i as int) * 10
            + d as nat);
        if !over {
            let next: u128 = acc as u128 * 10 + d as u128;
            if next > limit as u128 {
                over = true;
            } else {
                acc = next as u64;
            }
        }
        i = i + 1;
    }
    if over {
        (i, None)
    } else {
        (i, Some(acc))
    }
}

/// Decodes the byte string at `pos`, which holds a digit.
fn decode_bytes(s: &[u8], pos: usize) -> (r: Result<(Vec<u8>, usize), DecodeError>)
    requires
        pos < s@.len(),
        is_digit(s@[pos as int]),
    ensures
        match r {
            Ok((b, e)) => parse_bytes(s@, pos as int) == Ok::<(Seq<u8>, int), DecodeError>(
                (b@, e as int),
            ) && pos < e <= s@.len(),
            Err(x) => parse_bytes(s@, pos as int) == Err::<(Seq<u8>, int), DecodeError>(x),
        },
{
    let (e, n) = scan_digits(s, pos, s.len() as u64);
    if e >= s.len() || s[e] != 58 {
        return Err(DecodeError::InvalidLength);
    }
    match n {
        None => Err(DecodeError::TruncatedString),
        Some(n) => {
            if n > (s.len() - (e + 1)) as u64 {
                Err(DecodeError::TruncatedString)
            } else {
                let end = e + 1 + n as usize;
                let b = slice_to_vec(slice_subrange(s, e + 1, end));
                Ok((b, end))
            }
        },
    }
}

/// Decodes the integer at `pos`, which holds `i`.
fn decode_int(s: &[u8], pos: usize) -> (r: Result<(Bencode, usize), DecodeError>)
    requires
        pos < s@.len(),
        s@[pos as int] == 105,
    ensures
        match r {
            Ok((v, e)) => parse_int(s@, pos as int) == Ok::<(Value, int), DecodeError>(
                (v@, e as int),
            ) && pos < e <= s@.len(),
            Err(x) => parse_int(s@, pos as int) == Err::<(Value, int), DecodeError>(x),
        },
{
    let len = s.len();
    let q = pos + 1;
    let negative = q < len && s[q] == 45;
    let d = if negative {
        q + 1
    } else {
        q
    };
    let limit: u64 = if negative {
        9223372036854775808
    } else {
        9223372036854775807
    };
    let (e, m) = scan_digits(s, d, limit);
    if e == d || e >= s.len() || s[e] != 101 {
        return Err(DecodeError::InvalidInteger);
    }
    match m {
        None => Err(DecodeError::InvalidInteger),
        Some(m) => {
            let n: i64 = if !negative {
                m as i64
            } else if m == 9223372036854775808 {
                i64::MIN
            } else {
                -(m as i64)
            };
            Ok((Bencode::Integer(n), e + 1))
        },
    }
}

/// Decodes the value that starts at `pos`, and says where it ends.
fn decode_value(s: &[u8], pos: usize) -> (r: Result<(Bencode, usize), DecodeError>)
    requires
        pos <= s@.len(),
    ensures
        match r {
            Ok((v, e)) => parse_value(s@, pos as int) == Ok::<(Value, int), DecodeError>(
                (v@, e as int),
            ) && pos < e <= s@.len(),
            Err(x) => parse_value(s@, pos as int) == Err::<(Value, int), DecodeError>(x),
        },
    decreases s@.len() - pos,
{
    if pos >= s.len() {
        return Err(DecodeError::UnexpectedEnd);
    }
    let first = s[pos];
    if first == 105 {
        decode_int(s, pos)
    } else if 48 <= first && first <= 57 {
        match decode_bytes(s, pos) {
            Ok((b, e)) => Ok((Bencode::String(b), e)),
            Err(x) => Err(x),
        }
    } else if first == 108 {
        let mut items: Vec<Bencode> = Vec::new();
        let mut p = pos + 1;
        while p < s.len() && s[p] != 101
            invariant
                pos < p <= s@.len(),
                s@[pos as int] == 108,
                parse_items(s@, pos + 1) == match parse_items(s@, p as int) {
                    Ok((rest, e)) => Ok((values_of(items@) + rest, e)),
                    Err(x) => Err(x),
                },
            decreases s@.len() - p,
        {
            let (v, q) = match decode_value(s, p) {
                Ok(found) => found,
                Err(x) => {
                    return Err(x);
                },
            };
            let ghost before = values_of(items@);
            let ghost old_items = items@;
            items.push(v);
            proof {
                assert(items@.drop_last() =~= old_items);
                assert(values_of(items@) == before.push(v@));
                match parse_items(s@, q as int) {
                    Ok((rest, e)) => {
                        assert(before + (seq![v@] + rest) =~= values_of(items@) + rest);
                    },
                    Err(x) => {},
                }
            }
            p = q;
        }
        if p >= s.len() {
            return Err(DecodeError::UnexpectedEnd);
        }
        assert(values_of(items@) + Seq::<Value>::empty() =~= values_of(items@));
        Ok((Bencode::List(items), p + 1))
    } else if first == 100 {
        let mut d = Dict::new();
        let mut p = pos + 1;
        while p < s.len() && s[p] != 101
            invariant
                pos < p <= s@.len(),
                s@[pos as int] == 100,
                parse_entries(s@, pos + 1, Seq::empty()) == parse_entries(s@, p as int, d@),
            decreases s@.len() - p,
        {
            if !(48 <= s[p] && s[p] <= 57) {
                return Err(DecodeError::NonStringKey);
            }
            let (k, q) = match decode_bytes(s, p) {
                Ok(found) => found,
                Err(x) => {
                    return Err(x);
                },
            };
            let (v, r) = match decode_value(s, q) {
                Ok(found) => found,
                Err(x) => {
                    return Err(x);
                },
            };
            d.insert(k, v);
            p = r;
        }
        if p >= s.len() {
            return Err(DecodeError::UnexpectedEnd);
        }
        Ok((Bencode::Dictionary(d), p + 1))
    } else {
        Err(DecodeError::UnexpectedByte)
    }
}

/// Decodes the bencoded value at the front of `encoded_value` and hands
/// back the bytes that follow it.
pub fn decode_bencoded_value(encoded_value: &[u8]) -> (r: Result<(Bencode, &[u8]), DecodeError>)
    ensures
        match r {
            Ok((v, rest)) => {
                let used = encoded_value@.len() - rest@.len();
                &&& parse_value(encoded_value@, 0) == Ok::<(Value, int), DecodeError>((v@, used))
                &&& rest@ == encoded_value@.skip(used)
            },
            Err(x) => parse_value(encoded_value@, 0) == Err::<(Value, int), DecodeError>(x),
        },
{
    match decode_value(encoded_value, 0) {
        Ok((v, e)) => {
            let rest = slice_subrange(encoded_value, e, encoded_value.len());
            Ok((v, rest))
        },
        Err(x) => Err(x),
    }
}


/// The display form of a value: integers in decimal, byte strings quoted,
/// lists in brackets and dictionaries in braces, items apart by commas.
pub open spec fn render(v: Value) -> Seq<char>
    decreases v,
{
    match v {
        Value::Int(n) => chars_of(int_text(n)),
        Value::Bytes(b) => seq!['"'] + text_of(b) + seq!['"'],
        Value::List(items) => seq!['['] + render_items(items) + seq![']'],
        Value::Dict(es) => seq!['{'] + render_entries(es) + seq!['}'],
    }
}

/// The display forms of values, apart by commas.
pub open spec fn render_items(s: Seq<Value>) -> Seq<char>
    decreases s,
{
    if s.len() == 0 {
        Seq::empty()
    } else if s.len() == 1 {
        render(s[0])
    } else {
        render_items(s.drop_last()) + seq![','] + render(s.last())
    }
}

/// The display forms of dictionary entries, `"key":value`, apart by commas.
pub open spec fn render_entries(es: Seq<(Seq<u8>, Value)>) -> Seq<char>
    decreases es,
{
    if es.len() == 0 {
        Seq::empty()
    } else if es.len() == 1 {
        seq!['"'] + text_of(es[0].0) + seq!['"', ':'] + render(es[0].1)
    } else {
        render_entries(es.drop_last()) + seq![','] + seq!['"'] + text_of(es.last().0) + seq![
            '"',
            ':',
        ] + render(es.last().1)
    }
}

impl Bencode {
    /// Appends the display form of this value.
    pub fn render_into(&self, out: &mut String)
        ensures
            final(out)@ == old(out)@ + render(self@),
        decreases self,
    {
        match self {
            Bencode::Integer(n) => {
                if *n < 0 {
                    push_char(out, '-');
                    let magnitude: u64 = (-(*n + 1)) as u64 + 1;
                    push_decimal_chars(out, magnitude);
                } else {
                    push_decimal_chars(out, *n as u64);
                }
                assert(out@ =~= old(out)@ + render(self@));
            },
            Bencode::String(b) => {
                push_char(out, '"');
                push_text(out, b.as_slice());
                push_char(out, '"');
                assert(out@ =~= old(out)@ + render(self@));
            },
            Bencode::List(items) => {
                push_char(out, '[');
                let ghost start = out@;
                let ghost vs = values_of(items@);
                proof {
                    lemma_values_of(items@);
                }
                let mut i: usize = 0;
                while i < items.len()
                    invariant
                        *self == Bencode::List(*items),
                        i <= items@.len(),
                        vs == values_of(items@),
                        vs.len() == items@.len(),
                        forall|j: int| 0 <= j < items@.len() ==> #[trigger] vs[j] == value_of(items@[j]),
                        out@ == start + render_items(vs.take(i as int)),
                    decreases items@.len() - i,
                {
                    proof {
                        assert(decreases_to!(self => self->List_0));
                        assert(decreases_to!(items => items@));
                        assert(decreases_to!(items@ => items@[i as int]));
                    }
                    if i > 0 {
                        push_char(out, ',');
                    }
                    items[i].render_into(out);
                    proof {
                        let t = vs.take(i + 1);
                        assert(t.drop_last() =~= vs.take(i as int));
                        assert(t.last() == vs[i as int]);
                        if i == 0 {
                            assert(vs.take(0) =~= Seq::<Value>::empty());
                        }
                        assert(out@ =~= start + render_items(t));
                    }
                    i = i + 1;
                }
                assert(vs.take(i as int) =~= vs);
                push_char(out, ']');
                assert(out@ =~= old(out)@ + render(self@));
            },
            Bencode::Dictionary(d) => {
                push_char(out, '{');
                let ghost start = out@;
                let entries = &d.entries;
                let ghost es = d@;
                proof {
                    lemma_entries_of(entries@);
                }
                let mut i: usize = 0;
                while i < entries.len()
                    invariant
                        *self == Bencode::Dictionary(*d),
                        entries == &d.entries,
                        i <= entries@.len(),
                        es == entries_of(entries@),
                        es.len() == entries@.len(),
                        forall|j: int|
                            0 <= j < entries@.len() ==> #[trigger] es[j] == (
                                entries@[j].0@,
                                value_of(entries@[j].1),
                            ),
                        out@ == start + render_entries(es.take(i as int)),
                    decreases entries@.len() - i,
                {
                    let entry = &entries[i];
                    proof {
                        assert(decreases_to!(self => self->Dictionary_0));
                        assert(decreases_to!(d => d.entries));
                        assert(decreases_to!(d.entries => d.entries@));
                        assert(decreases_to!(d.entries@ => d.entries@[i as int]));
                        assert(decreases_to!(d.entries@[i as int] => d.entries@[i as int].1));
                    }
                    if i > 0 {
                        push_char(out, ',');
                    }
                    push_char(out, '"');
                    push_text(out, entry.0.as_slice());
                    push_char(out, '"');
                    push_char(out, ':');
                    entry.1.render_into(out);
                    proof {
                        let t = es.take(i + 1);
                        assert(t.drop_last() =~= es.take(i as int));
                        assert(t.last() == es[i as int]);
                        if i == 0 {
                            assert(es.take(0) =~= Seq::<(Seq<u8>, Value)>::empty());
                        }
                        assert(out@ =~= start + render_entries(t));
                    }
                    i = i + 1;
                }
                assert(es.take(i as int) =~= es);
                push_char(out, '}');
                assert(out@ =~= old(out)@ + render(self@));
            },
        }
    }

    /// The display form of this value, as the `decode` command prints it.
    pub fn to_string(&self) -> (r: String)
        ensures
            r@ == render(self@),
    {
        let mut out = String::new();
        self.render_into(&mut out);
        assert(out@ =~= render(self@));
        out
    }
}

} // verus!
