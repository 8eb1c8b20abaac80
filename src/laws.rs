use vstd::prelude::*;
use crate::value::{BValue, bytes_lt, keys_ascending, lookup, insert_entry, lemma_lookup_above,
    lemma_bytes_lt_irreflexive, lemma_bytes_lt_transitive};
use crate::encode::{nat_digits, int_digits, enc_bytes, enc, enc_list, enc_entries, lemma_nat_digits};
use crate::decode::{ErrorKind, is_digit, digits_end, parse_value, parse_items, parse_entries};

verus! {

proof fn lemma_digits_end(s: Seq<u8>, i: int, d: int)
    requires
        0 <= i,
        0 <= d,
        i + d <= s.len(),
        forall|m: int| i <= m < i + d ==> is_digit(#[trigger] s[m]),
        i + d < s.len() ==> !is_digit(s[i + d]),
    ensures
        digits_end(s, i) == i + d,
    decreases d,
{
    if d > 0 {
        lemma_digits_end(s, i + 1, d - 1);
    }
}

/// The first byte of an encoding is never the terminator `e`.
proof fn lemma_enc_start(v: BValue)
    ensures
        enc(v).len() >= 1,
        enc(v)[0] != 101,
{
    match v {
        BValue::Bytes(b) => {
            lemma_nat_digits(b.len());
            assert(enc(v)[0] == nat_digits(b.len())[0]);
        },
        _ => {},
    }
}

/// The encoding of `v` parses back to `v`, wherever it stands in a buffer.
pub open spec fn parses_back(v: BValue) -> bool {
    forall|s: Seq<u8>, q: int|
        0 <= q && q + enc(v).len() <= s.len() && s.subrange(q, q + enc(v).len()) == enc(v)
            ==> #[trigger] parse_value(s, q) == Ok::<_, (ErrorKind, int)>(
            (v, q + enc(v).len()),
        )
}

proof fn lemma_bytes_back(s: Seq<u8>, q: int, b: Seq<u8>)
    requires
        0 <= q,
        q + enc_bytes(b).len() <= s.len(),
        s.subrange(q, q + enc_bytes(b).len()) == enc_bytes(b),
    ensures
        parse_value(s, q) == Ok::<_, (ErrorKind, int)>(
            (BValue::Bytes(b), q + enc_bytes(b).len()),
        ),
{
    let nd = nat_digits(b.len());
    lemma_nat_digits(b.len());
    let e = enc_bytes(b);
    assert forall|m: int| q <= m < q + nd.len() implies is_digit(#[trigger] s[m]) by {
        assert(s[m] == e[m - q]);
        assert(e[m - q] == nd[m - q]);
    }
    assert(s[q + nd.len()] == e[nd.len() as int]);
    lemma_digits_end(s, q, nd.len() as int);
    let j = q + nd.len();
    assert(s.subrange(q, j) =~= nd);
    assert(s[q] == nd[0]);
    assert forall|m: int| 0 <= m < b.len() implies s.subrange(j + 1, j + 1 + b.len())[m] == b[m] by {
        assert(s[j + 1 + m] == e[nd.len() + 1 + m]);
    }
    assert(s.subrange(j + 1, j + 1 + b.len()) =~= b);
}

proof fn lemma_int_back(s: Seq<u8>, q: int, n: int)
    requires
        i64::MIN <= n <= i64::MAX,
        0 <= q,
        q + enc(BValue::Int(n)).len() <= s.len(),
        s.subrange(q, q + enc(BValue::Int(n)).len()) == enc(BValue::Int(n)),
    ensures
        parse_value(s, q) == Ok::<_, (ErrorKind, int)>(
            (BValue::Int(n), q + enc(BValue::Int(n)).len()),
        ),
{
    let e = enc(BValue::Int(n));
    let m: nat = if n < 0 { (-n) as nat } else { n as nat };
    let nd = nat_digits(m);
    lemma_nat_digits(m);
    let ds = if n < 0 { q + 2 } else { q + 1 };
    assert(s[q] == e[0]);
    assert(e.len() == (ds - q) + nd.len() + 1);
    assert(s[ds + nd.len()] == e[(ds - q) + nd.len()]);
    if n < 0 {
        assert(int_digits(n) =~= seq![45u8] + nd);
    }
    assert forall|k: int| 0 <= k < nd.len() implies #[trigger] e[(ds - q) + k] == nd[k] by {
        if n < 0 {
            assert(e[(ds - q) + k] == int_digits(n)[1 + k]);
        } else {
            assert(e[(ds - q) + k] == int_digits(n)[k]);
        }
    }
    assert forall|k: int| 0 <= k < nd.len() implies s.subrange(ds, ds + nd.len())[k] == nd[k] by {
        assert(s[ds + k] == e[(ds - q) + k]);
    }
    assert(s[ds] == e[ds - q]);
    assert forall|k: int| ds <= k < ds + nd.len() implies is_digit(#[trigger] s[k]) by {
        assert(s[k] == e[k - q]);
        assert(e[(ds - q) + (k - ds)] == nd[k - ds]);
    }
    lemma_digits_end(s, ds, nd.len() as int);
    assert(s[q + 1] == e[1]);
    if n >= 0 {
        assert(e[1] == nd[0]);
    }
    assert(s[ds] == nd[0]);
    assert(s.subrange(ds, ds + nd.len()) =~= nd);
}

proof fn lemma_enc_list_prefix(xs: Seq<BValue>, m: int)
    requires
        0 <= m <= xs.len(),
    ensures
        enc_list(xs.take(m)).len() <= enc_list(xs).len(),
        enc_list(xs).subrange(0, enc_list(xs.take(m)).len() as int) == enc_list(xs.take(m)),
    decreases xs.len(),
{
    if m == xs.len() {
        assert(xs.take(m) =~= xs);
        assert(enc_list(xs).subrange(0, enc_list(xs).len() as int) =~= enc_list(xs));
    } else {
        let d = xs.drop_last();
        lemma_enc_list_prefix(d, m);
        assert(d.take(m) =~= xs.take(m));
        assert(enc_list(xs).subrange(0, enc_list(xs.take(m)).len() as int) =~= enc_list(d).subrange(
            0,
            enc_list(xs.take(m)).len() as int,
        ));
    }
}

proof fn lemma_items_back(s: Seq<u8>, i0: int, xs: Seq<BValue>, k: int)
    requires
        0 <= i0,
        0 <= k <= xs.len(),
        i0 + enc_list(xs).len() < s.len(),
        s.subrange(i0, i0 + enc_list(xs).len()) == enc_list(xs),
        s[i0 + enc_list(xs).len()] == 101,
        forall|j: int| 0 <= j < xs.len() ==> parses_back(#[trigger] xs[j]),
    ensures
        parse_items(s, i0 + enc_list(xs.take(k)).len(), xs.take(k)) == Ok::<
            _,
            (ErrorKind, int),
        >((xs, i0 + enc_list(xs).len() + 1)),
    decreases xs.len() - k,
{
    if k == xs.len() {
        assert(xs.take(k) =~= xs);
    } else {
        let p = i0 + enc_list(xs.take(k)).len();
        let x = xs[k];
        let t = xs.take(k + 1);
        assert(t.drop_last() =~= xs.take(k));
        assert(enc_list(t) == enc_list(xs.take(k)) + enc(x));
        lemma_enc_list_prefix(xs, k + 1);
        lemma_enc_start(x);
        let j = p + enc(x).len();
        assert(s.subrange(p, j) =~= enc_list(xs).subrange(p - i0, j - i0));
        assert(enc_list(xs).subrange(p - i0, j - i0) =~= enc_list(t).subrange(p - i0, j - i0));
        assert(s.subrange(p, j) =~= enc(x));
        assert(parses_back(x));
        assert(parse_value(s, p) == Ok::<_, (ErrorKind, int)>((x, j)));
        assert(s[p] == enc(x)[0]);
        assert(xs.take(k).push(x) =~= t);
        lemma_items_back(s, i0, xs, k + 1);
    }
}

proof fn lemma_enc_entries_prefix(es: Seq<(Seq<u8>, BValue)>, m: int)
    requires
        0 <= m <= es.len(),
    ensures
        enc_entries(es.take(m)).len() <= enc_entries(es).len(),
        enc_entries(es).subrange(0, enc_entries(es.take(m)).len() as int) == enc_entries(es.take(m)),
    decreases es.len(),
{
    if m == es.len() {
        assert(es.take(m) =~= es);
        assert(enc_entries(es).subrange(0, enc_entries(es).len() as int) =~= enc_entries(es));
    } else {
        let d = es.drop_last();
        lemma_enc_entries_prefix(d, m);
        assert(d.take(m) =~= es.take(m));
        assert(enc_entries(es).subrange(0, enc_entries(es.take(m)).len() as int)
            =~= enc_entries(d).subrange(0, enc_entries(es.take(m)).len() as int));
    }
}

proof fn lemma_insert_above(acc: Seq<(Seq<u8>, BValue)>, key: Seq<u8>, x: BValue)
    requires
        forall|m: int| 0 <= m < acc.len() ==> bytes_lt(#[trigger] acc[m].0, key),
    ensures
        lookup(acc, key) is None,
        insert_entry(acc, key, x) == acc.push((key, x)),
{
    lemma_lookup_above(acc, key);
    if acc.len() > 0 {
        lemma_bytes_lt_irreflexive(key);
        assert(bytes_lt(acc.last().0, key));
    } else {
        assert(seq![(key, x)] =~= acc.push((key, x)));
    }
}

proof fn lemma_entries_back(s: Seq<u8>, i0: int, es: Seq<(Seq<u8>, BValue)>, k: int)
    requires
        0 <= i0,
        0 <= k <= es.len(),
        keys_ascending(es),
        i0 + enc_entries(es).len() < s.len(),
        s.subrange(i0, i0 + enc_entries(es).len()) == enc_entries(es),
        s[i0 + enc_entries(es).len()] == 101,
        forall|j: int| 0 <= j < es.len() ==> parses_back(#[trigger] es[j].1),
    ensures
        parse_entries(s, i0 + enc_entries(es.take(k)).len(), es.take(k)) == Ok::<
            _,
            (ErrorKind, int),
        >((es, i0 + enc_entries(es).len() + 1)),
    decreases es.len() - k,
{
    if k == es.len() {
        assert(es.take(k) =~= es);
    } else {
        let p = i0 + enc_entries(es.take(k)).len();
        let key = es[k].0;
        let x = es[k].1;
        let t = es.take(k + 1);
        assert(t.drop_last() =~= es.take(k));
        assert(enc_entries(t) == enc_entries(es.take(k)) + enc_bytes(key) + enc(x));
        lemma_enc_entries_prefix(es, k + 1);
        lemma_enc_start(x);
        lemma_enc_start(BValue::Bytes(key));
        let q = p + enc_bytes(key).len();
        let j = q + enc(x).len();
        assert(s.subrange(p, q) =~= enc_entries(t).subrange(p - i0, q - i0));
        assert(s.subrange(p, q) =~= enc_bytes(key));
        lemma_bytes_back(s, p, key);
        assert(s.subrange(q, j) =~= enc_entries(t).subrange(q - i0, j - i0));
        assert(s.subrange(q, j) =~= enc(x));
        assert(parses_back(x));
        assert(parse_value(s, q) == Ok::<_, (ErrorKind, int)>((x, j)));
        assert(s[p] == enc(BValue::Bytes(key))[0]);
        let acc = es.take(k);
        assert forall|m: int| 0 <= m < acc.len() implies bytes_lt(#[trigger] acc[m].0, key) by {
            assert(acc[m] == es[m]);
        }
        lemma_insert_above(acc, key, x);
        assert(acc.push((key, x)) =~= t);
        assert(j == i0 + enc_entries(t).len());
        lemma_entries_back(s, i0, es, k + 1);
    }
}

/// Every well-formed value parses back from its encoding, wherever the
/// encoding stands in a buffer and whatever follows it.
pub proof fn lemma_parses_back(v: BValue)
    requires
        v.wf(),
    ensures
        parses_back(v),
    decreases v,
{
    assert forall|s: Seq<u8>, q: int|
        0 <= q && q + enc(v).len() <= s.len() && s.subrange(q, q + enc(v).len()) == enc(v)
        implies #[trigger] parse_value(s, q) == Ok::<_, (ErrorKind, int)>(
        (v, q + enc(v).len()),
    ) by {
        let e = enc(v);
        assert(s[q] == e[0]);
        match v {
            BValue::Int(n) => {
                lemma_int_back(s, q, n);
            },
            BValue::Bytes(b) => {
                lemma_bytes_back(s, q, b);
            },
            BValue::List(xs) => {
                assert forall|j: int| 0 <= j < xs.len() implies parses_back(#[trigger] xs[j]) by {
                    lemma_parses_back(xs[j]);
                }
                let l = enc_list(xs).len() as int;
                assert(s.subrange(q + 1, q + 1 + l) =~= e.subrange(1, 1 + l));
                assert(e.subrange(1, 1 + l) =~= enc_list(xs));
                assert(s[q + 1 + l] == e[1 + l]);
                assert(xs.take(0) =~= Seq::<BValue>::empty());
                lemma_items_back(s, q + 1, xs, 0);
            },
            BValue::Dict(es) => {
                assert forall|j: int| 0 <= j < es.len() implies parses_back(#[trigger] es[j].1) by {
                    lemma_parses_back(es[j].1);
                }
                let l = enc_entries(es).len() as int;
                assert(s.subrange(q + 1, q + 1 + l) =~= e.subrange(1, 1 + l));
                assert(e.subrange(1, 1 + l) =~= enc_entries(es));
                assert(s[q + 1 + l] == e[1 + l]);
                assert(es.take(0) =~= Seq::<(Seq<u8>, BValue)>::empty());
                lemma_entries_back(s, q + 1, es, 0);
            },
        }
    }
}

/// Round trip: decoding the encoding of a well-formed value gives the value
/// back, and takes the whole encoding.
pub proof fn lemma_round_trip(v: BValue)
    requires
        v.wf(),
    ensures
        parse_value(enc(v), 0) == Ok::<_, (ErrorKind, int)>((v, enc(v).len() as int)),
{
    lemma_parses_back(v);
    assert(enc(v).subrange(0, enc(v).len() as int) =~= enc(v));
}

/// Decoding an encoding followed by arbitrary bytes consumes exactly the
/// encoding.
pub proof fn lemma_consumption_exact(v: BValue, noise: Seq<u8>)
    requires
        v.wf(),
    ensures
        parse_value(enc(v) + noise, 0) == Ok::<_, (ErrorKind, int)>(
            (v, enc(v).len() as int),
        ),
{
    lemma_parses_back(v);
    assert((enc(v) + noise).subrange(0, enc(v).len() as int) =~= enc(v));
}

} // verus!

verus! {

/// In the encoding of a well-formed dictionary the entries come in their
/// stored order, and each key sorts strictly before the next one.
pub proof fn lemma_keys_ordered(es: Seq<(Seq<u8>, BValue)>)
    requires
        BValue::Dict(es).wf(),
    ensures
        enc(BValue::Dict(es)) == seq![100u8] + enc_entries(es) + seq![101u8],
        forall|i: int| 0 <= i < es.len() - 1 ==> bytes_lt(#[trigger] es[i].0, es[i + 1].0),
{
    assert forall|i: int| 0 <= i < es.len() - 1 implies bytes_lt(#[trigger] es[i].0, es[i + 1].0) by {
        assert(keys_ascending(es));
        assert(bytes_lt(es[i].0, es[i + 1].0));
    }
}

/// Some entry of `es` has key `k`.
pub open spec fn has_key(es: Seq<(Seq<u8>, BValue)>, k: Seq<u8>) -> bool {
    exists|j: int| #![trigger es[j]] 0 <= j < es.len() && es[j].0 == k
}

/// `a` and `b` denote the same document: dictionaries are compared as maps
/// from keys to values, whatever order their entries are stored in.
pub open spec fn same_document(a: BValue, b: BValue) -> bool
    decreases a,
{
    match a {
        BValue::Int(n) => b == BValue::Int(n),
        BValue::Bytes(x) => b == BValue::Bytes(x),
        BValue::List(xs) => {
            &&& b is List
            &&& xs.len() == b->List_0.len()
            &&& forall|i: int| 0 <= i < xs.len() ==> same_document(#[trigger] xs[i], b->List_0[i])
        },
        BValue::Dict(es) => {
            &&& b is Dict
            &&& forall|i: int|
                #![trigger es[i]]
                0 <= i < es.len() ==> exists|j: int|
                    #![trigger b->Dict_0[j]]
                    0 <= j < b->Dict_0.len() && b->Dict_0[j].0 == es[i].0 && same_document(
                        es[i].1,
                        b->Dict_0[j].1,
                    )
            &&& forall|j: int| 0 <= j < b->Dict_0.len() ==> has_key(es, (#[trigger] b->Dict_0[j]).0)
        },
    }
}

proof fn lemma_same_keys_prefix(es: Seq<(Seq<u8>, BValue)>, fs: Seq<(Seq<u8>, BValue)>, n: int)
    requires
        keys_ascending(es),
        keys_ascending(fs),
        0 <= n <= es.len(),
        n <= fs.len(),
        forall|i: int| 0 <= i < es.len() ==> has_key(fs, (#[trigger] es[i]).0),
        forall|j: int| 0 <= j < fs.len() ==> has_key(es, (#[trigger] fs[j]).0),
    ensures
        forall|m: int| 0 <= m < n ==> (#[trigger] es[m]).0 == fs[m].0,
    decreases n,
{
    if n > 0 {
        let k = n - 1;
        lemma_same_keys_prefix(es, fs, k);
        assert(has_key(fs, es[k].0));
        assert(has_key(es, fs[k].0));
        let j = choose|j: int| #![trigger fs[j]] 0 <= j < fs.len() && fs[j].0 == es[k].0;
        let i = choose|i: int| #![trigger es[i]] 0 <= i < es.len() && es[i].0 == fs[k].0;
        lemma_bytes_lt_irreflexive(es[k].0);
        lemma_bytes_lt_irreflexive(fs[k].0);
        if j < k {
            assert(es[j].0 == fs[j].0);
            assert(bytes_lt(es[j].0, es[k].0));
        }
        if i < k {
            assert(es[i].0 == fs[i].0);
            assert(bytes_lt(fs[i].0, fs[k].0));
        }
        if j > k {
            assert(bytes_lt(fs[k].0, fs[j].0));
            if i > k {
                assert(bytes_lt(es[k].0, es[i].0));
                lemma_bytes_lt_transitive(es[k].0, es[i].0, es[k].0);
            }
        }
    }
}

proof fn lemma_same_keys(es: Seq<(Seq<u8>, BValue)>, fs: Seq<(Seq<u8>, BValue)>)
    requires
        keys_ascending(es),
        keys_ascending(fs),
        forall|i: int| 0 <= i < es.len() ==> has_key(fs, (#[trigger] es[i]).0),
        forall|j: int| 0 <= j < fs.len() ==> has_key(es, (#[trigger] fs[j]).0),
    ensures
        es.len() == fs.len(),
        forall|m: int| 0 <= m < es.len() ==> (#[trigger] es[m]).0 == fs[m].0,
{
    if es.len() > fs.len() {
        let l = fs.len() as int;
        lemma_same_keys_prefix(es, fs, l);
        assert(has_key(fs, es[l].0));
        let j = choose|j: int| #![trigger fs[j]] 0 <= j < fs.len() && fs[j].0 == es[l].0;
        assert(es[j].0 == fs[j].0);
        assert(bytes_lt(es[j].0, es[l].0));
        lemma_bytes_lt_irreflexive(es[l].0);
    } else if fs.len() > es.len() {
        let l = es.len() as int;
        lemma_same_keys_prefix(es, fs, l);
        assert(has_key(es, fs[l].0));
        let i = choose|i: int| #![trigger es[i]] 0 <= i < es.len() && es[i].0 == fs[l].0;
        assert(es[i].0 == fs[i].0);
        assert(bytes_lt(fs[i].0, fs[l].0));
        lemma_bytes_lt_irreflexive(fs[l].0);
    } else {
        lemma_same_keys_prefix(es, fs, es.len() as int);
    }
}

/// Two well-formed values that denote the same document are the same value.
pub proof fn lemma_same_document_equal(a: BValue, b: BValue)
    requires
        a.wf(),
        b.wf(),
        same_document(a, b),
    ensures
        a == b,
    decreases a,
{
    match a {
        BValue::List(xs) => {
            let ys = b->List_0;
            assert forall|i: int| 0 <= i < xs.len() implies xs[i] == ys[i] by {
                assert(same_document(xs[i], ys[i]));
                lemma_same_document_equal(xs[i], ys[i]);
            }
            assert(xs =~= ys);
        },
        BValue::Dict(es) => {
            let fs = b->Dict_0;
            assert forall|i: int| 0 <= i < es.len() implies has_key(fs, (#[trigger] es[i]).0) by {
                let j = choose|j: int| #![trigger fs[j]]
                    0 <= j < fs.len() && fs[j].0 == es[i].0 && same_document(es[i].1, fs[j].1);
                assert(0 <= j < fs.len() && fs[j].0 == es[i].0);
            }
            lemma_same_keys(es, fs);
            assert forall|i: int| 0 <= i < es.len() implies es[i] == fs[i] by {
                let j = choose|j: int| #![trigger fs[j]]
                    0 <= j < fs.len() && fs[j].0 == es[i].0 && same_document(es[i].1, fs[j].1);
                if j != i {
                    lemma_bytes_lt_irreflexive(fs[j].0);
                    if j < i {
                        assert(bytes_lt(fs[j].0, fs[i].0));
                    } else {
                        assert(bytes_lt(fs[i].0, fs[j].0));
                    }
                }
                lemma_same_document_equal(es[i].1, fs[i].1);
            }
            assert(es =~= fs);
        },
        _ => {},
    }
}

/// Canonical form: well-formed values that denote the same document have
/// byte-identical encodings.
pub proof fn lemma_canonical(a: BValue, b: BValue)
    requires
        a.wf(),
        b.wf(),
        same_document(a, b),
    ensures
        enc(a) == enc(b),
{
    lemma_same_document_equal(a, b);
}

} // verus!
