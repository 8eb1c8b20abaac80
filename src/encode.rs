use vstd::prelude::*;
use crate::value::{BValue, BencodeTypes, view_items, view_entries, lemma_view_items, lemma_view_entries};
use crate::decode::{is_digit, digits_value};

verus! {

/// The ASCII decimal digits of `n`, most significant first, with no leading zero.
pub open spec fn nat_digits(n: nat) -> Seq<u8>
    decreases n,
{
    if n < 10 {
        seq![(48 + n) as u8]
    } else {
        nat_digits(n / 10).push((48 + n % 10) as u8)
    }
}

/// The decimal form of an integer: a `-` only for negatives, then its digits.
pub open spec fn int_digits(n: int) -> Seq<u8> {
    if n < 0 {
        seq![45u8] + nat_digits((-n) as nat)
    } else {
        nat_digits(n as nat)
    }
}

/// A byte string: its length in decimal, a colon, then the raw bytes.
pub open spec fn enc_bytes(b: Seq<u8>) -> Seq<u8> {
    nat_digits(b.len()) + seq![58u8] + b
}

/// The canonical encoding of a value.
pub open spec fn enc(v: BValue) -> Seq<u8>
    decreases v,
{
    match v {
        BValue::Int(n) => seq![105u8] + int_digits(n) + seq![101u8],
        BValue::Bytes(b) => enc_bytes(b),
        BValue::List(xs) => seq![108u8] + enc_list(xs) + seq![101u8],
        BValue::Dict(es) => seq![100u8] + enc_entries(es) + seq![101u8],
    }
}

/// The encodings of list items, concatenated in order.
pub open spec fn enc_list(xs: Seq<BValue>) -> Seq<u8>
    decreases xs,
{
    if xs.len() == 0 {
        Seq::empty()
    } else {
        enc_list(xs.drop_last()) + enc(xs.last())
    }
}

/// The encodings of dictionary entries, key then value, concatenated in order.
pub open spec fn enc_entries(es: Seq<(Seq<u8>, BValue)>) -> Seq<u8>
    decreases es,
{
    if es.len() == 0 {
        Seq::empty()
    } else {
        enc_entries(es.drop_last()) + enc_bytes(es.last().0) + enc(es.last().1)
    }
}

/// The digits of `n` are decimal digits, denote `n`, and start with `0` only for zero.
pub proof fn lemma_nat_digits(n: nat)
    ensures
        nat_digits(n).len() >= 1,
        forall|m: int| 0 <= m < nat_digits(n).len() ==> is_digit(#[trigger] nat_digits(n)[m]),
        digits_value(nat_digits(n)) == n,
        nat_digits(n)[0] == 48 ==> n == 0 && nat_digits(n).len() == 1,
    decreases n,
{
    if n >= 10 {
        lemma_nat_digits(n / 10);
        let d = nat_digits(n / 10);
        let x = (48 + n % 10) as u8;
        assert(nat_digits(n) == d.push(x));
        assert(nat_digits(n).drop_last() =~= d);
        assert(nat_digits(n)[0] == d[0]);
        assert(x - 48 == n % 10);
        assert(digits_value(nat_digits(n)) == digits_value(d) * 10 + (x - 48) as nat);
        assert((n / 10) * 10 + n % 10 == n);
    } else {
        assert(nat_digits(n).drop_last() =~= Seq::<u8>::empty());
        assert(digits_value(Seq::<u8>::empty()) == 0);
        assert(digits_value(nat_digits(n)) == digits_value(nat_digits(n).drop_last()) * 10 + (
        nat_digits(n).last() - 48) as nat);
    }
}

/// Appends the decimal digits of `n`.
pub(crate) fn push_digits(out: &mut Vec<u8>, n: u64)
    ensures
        final(out)@ == old(out)@ + nat_digits(n as nat),
    decreases n,
{
    if n >= 10 {
        push_digits(out, n / 10);
    }
    out.push((48 + n % 10) as u8);
    proof {
        if n >= 10 {
            assert(nat_digits(n as nat) == nat_digits((n / 10) as nat).push((48 + n % 10) as u8));
        }
    }
    assert(final(out)@ =~= old(out)@ + nat_digits(n as nat));
}

/// Appends the decimal form of `n`.
pub(crate) fn push_int(out: &mut Vec<u8>, n: i64)
    ensures
        final(out)@ == old(out)@ + int_digits(n as int),
{
    if n < 0 {
        out.push(45u8);
        let m: u64 = ((-(n + 1)) as u64) + 1;
        push_digits(out, m);
        assert(final(out)@ =~= old(out)@ + int_digits(n as int));
    } else {
        push_digits(out, n as u64);
    }
}

/// Appends the encoding of a byte string.
fn push_byte_string(out: &mut Vec<u8>, b: &Vec<u8>)
    ensures
        final(out)@ == old(out)@ + enc_bytes(b@),
{
    push_digits(out, b.len() as u64);
    out.push(58u8);
    let mut i: usize = 0;
    let ghost mid = out@;
    while i < b.len()
        invariant
            0 <= i <= b.len(),
            out@ == mid + b@.take(i as int),
        decreases b.len() - i,
    {
        out.push(b[i]);
        i = i + 1;
        assert(out@ =~= mid + b@.take(i as int));
    }
    assert(b@.take(b.len() as int) =~= b@);
    assert(final(out)@ =~= old(out)@ + enc_bytes(b@));
}

/// Appends the encoding of a value.
fn push_value(out: &mut Vec<u8>, v: &BencodeTypes)
    ensures
        final(out)@ == old(out)@ + enc(v@),
        v@.wf(),
    decreases v,
{
    match v {
        BencodeTypes::Integer(n) => {
            out.push(105u8);
            push_int(out, *n);
            out.push(101u8);
            assert(i64::MIN <= *n as int <= i64::MAX);
            assert(final(out)@ =~= old(out)@ + enc(v@));
        },
        BencodeTypes::ByteString(b) => {
            push_byte_string(out, b);
        },
        BencodeTypes::List(xs) => {
            out.push(108u8);
            let ghost start = out@;
            let mut i: usize = 0;
            proof {
                assert(xs@.take(0) =~= Seq::<BencodeTypes>::empty());
                assert(view_items(xs@.take(0)) =~= Seq::<BValue>::empty());
                assert(start =~= start + enc_list(view_items(xs@.take(0))));
            }
            while i < xs.len()
                invariant
                    0 <= i <= xs.len(),
                    *v == BencodeTypes::List(*xs),
                    forall|j: int| 0 <= j < i ==> (#[trigger] xs@[j])@.wf(),
                    out@ == start + enc_list(view_items(xs@.take(i as int))),
                decreases xs.len() - i,
            {
                proof {
                    assert(decreases_to!(*v => v->List_0));
                    assert(decreases_to!(*xs => xs[i as int]));
                }
                push_value(out, &xs[i]);
                proof {
                    let t = xs@.take(i as int + 1);
                    assert(t.drop_last() =~= xs@.take(i as int));
                    assert(view_items(t) == view_items(t.drop_last()).push(t.last()@));
                    assert(view_items(t).drop_last() =~= view_items(xs@.take(i as int)));
                }
                i = i + 1;
                assert(out@ =~= start + enc_list(view_items(xs@.take(i as int))));
            }
            out.push(101u8);
            proof {
                lemma_view_items(xs@);
            }
            assert(xs@.take(xs.len() as int) =~= xs@);
            assert(final(out)@ =~= old(out)@ + enc(v@));
        },
        BencodeTypes::Dictionary(d) => {
            out.push(100u8);
            let ghost start = out@;
            let es = &d.entries;
            let mut i: usize = 0;
            proof {
                assert(es@.take(0) =~= Seq::<(Vec<u8>, BencodeTypes)>::empty());
                assert(view_entries(es@.take(0)) =~= Seq::<(Seq<u8>, BValue)>::empty());
                assert(start =~= start + enc_entries(view_entries(es@.take(0))));
            }
            while i < es.len()
                invariant
                    0 <= i <= es.len(),
                    es == &d.entries,
                    *v == BencodeTypes::Dictionary(*d),
                    forall|j: int| 0 <= j < i ==> (#[trigger] es@[j]).1@.wf(),
                    out@ == start + enc_entries(view_entries(es@.take(i as int))),
                decreases es.len() - i,
            {
                let entry = &es[i];
                proof {
                    assert(decreases_to!(*v => v->Dictionary_0));
                    assert(decreases_to!(*d => d.entries));
                    assert(decreases_to!(d.entries => d.entries[i as int]));
                    assert(decreases_to!(d.entries[i as int] => d.entries[i as int].1));
                }
                push_byte_string(out, &entry.0);
                push_value(out, &entry.1);
                proof {
                    let t = es@.take(i as int + 1);
                    assert(t.drop_last() =~= es@.take(i as int));
                    assert(view_entries(t) == view_entries(t.drop_last()).push(
                        (t.last().0@, t.last().1@),
                    ));
                    assert(view_entries(t).drop_last() =~= view_entries(es@.take(i as int)));
                }
                i = i + 1;
                assert(out@ =~= start + enc_entries(view_entries(es@.take(i as int))));
            }
            out.push(101u8);
            proof {
                lemma_view_entries(es@);
                use_type_invariant(d);
            }
            assert(es@.take(es.len() as int) =~= es@);
            assert(final(out)@ =~= old(out)@ + enc(v@));
        },
    }
}

impl BencodeTypes {
    /// The canonical encoding: integers without leading zeros or `+`,
    /// byte strings length-prefixed, lists in stored order, dictionary keys
    /// in ascending byte order.
    pub fn encode(decoded_value: &Self) -> (r: Vec<u8>)
        ensures
            r@ == enc(decoded_value@),
            decoded_value@.wf(),
    {
        let mut out: Vec<u8> = Vec::new();
        push_value(&mut out, decoded_value);
        assert(out@ =~= enc(decoded_value@));
        out
    }
}

} // verus!
