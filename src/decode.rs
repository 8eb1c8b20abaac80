use vstd::prelude::*;
use vstd::string::StringSliceAdditionalSpecFns;
use crate::value::{BValue, BencodeTypes, Dict, lookup, insert_entry, view_items};

verus! {

/// What made an input undecodable.
#[derive(Debug, Clone, Copy, PartialEq, Eq, Structural)]
pub enum ErrorKind {
    /// The input ends inside a value: no value at all, a missing `:` or `e`.
    Truncated,
    /// `i...e` does not hold a canonical decimal that fits in 64 signed bits.
    MalformedInteger,
    /// A byte string's length is followed by something other than `:`,
    /// or announces more bytes than remain.
    MalformedLength,
    /// A value starts with a byte other than a digit, `i`, `l` or `d`.
    UnexpectedByte,
    /// A dictionary key is not a byte string.
    NonByteStringKey,
    /// A dictionary repeats a key.
    DuplicateKey,
}

/// A decoding failure: its kind and the input offset at which it was found.
#[derive(Debug, Clone, Copy, PartialEq, Eq, Structural)]
pub struct DecodeError {
    pub kind: ErrorKind,
    pub offset: usize,
}

/// An ASCII decimal digit.
pub open spec fn is_digit(b: u8) -> bool {
    48 <= b <= 57
}

/// The first position at or after `i` that does not hold a decimal digit.
pub open spec fn digits_end(s: Seq<u8>, i: int) -> int
    decreases s.len() - i,
{
    if i >= s.len() {
        s.len() as int
    } else if is_digit(s[i]) {
        digits_end(s, i + 1)
    } else {
        i
    }
}

/// The number that a run of decimal digits denotes.
pub open spec fn digits_value(d: Seq<u8>) -> nat
    decreases d.len(),
{
    if d.len() == 0 {
        0
    } else {
        digits_value(d.drop_last()) * 10 + (d.last() - 48) as nat
    }
}

/// A byte string at `i` (whose first byte is a digit): the value and the
/// position just after it, or the error and where it was found.
pub open spec fn parse_bytes(s: Seq<u8>, i: int) -> Result<(BValue, int), (ErrorKind, int)> {
    let j = digits_end(s, i);
    if j >= s.len() {
        Err((ErrorKind::Truncated, s.len() as int))
    } else if s[j] != 58 {
        Err((ErrorKind::MalformedLength, j))
    } else {
        let n = digits_value(s.subrange(i, j));
        if n > s.len() - (j + 1) {
            Err((ErrorKind::MalformedLength, i))
        } else {
            Ok((BValue::Bytes(s.subrange(j + 1, j + 1 + n)), j + 1 + n))
        }
    }
}

/// An integer at `i` (whose first byte is `i`).
pub open spec fn parse_int(s: Seq<u8>, i: int) -> Result<(BValue, int), (ErrorKind, int)> {
    let neg = i + 1 < s.len() && s[i + 1] == 45;
    let ds = if neg { i + 2 } else { i + 1 };
    let de = digits_end(s, ds);
    if de >= s.len() {
        Err((ErrorKind::Truncated, s.len() as int))
    } else if s[de] != 101 {
        Err((ErrorKind::MalformedInteger, de))
    } else if de == ds {
        Err((ErrorKind::MalformedInteger, ds))
    } else if s[ds] == 48 && (de > ds + 1 || neg) {
        Err((ErrorKind::MalformedInteger, ds))
    } else {
        let m = digits_value(s.subrange(ds, de)) as int;
        let n = if neg { -m } else { m };
        if n < i64::MIN || n > i64::MAX {
            Err((ErrorKind::MalformedInteger, ds))
        } else {
            Ok((BValue::Int(n), de + 1))
        }
    }
}

/// The value that starts at position `i` of `s`, with the position just
/// after it; or the kind of error and the position at which it was found.
pub open spec fn parse_value(s: Seq<u8>, i: int) -> Result<(BValue, int), (ErrorKind, int)>
    decreases s.len() - i, 0int,
{
    if i < 0 || i >= s.len() {
        Err((ErrorKind::Truncated, s.len() as int))
    } else if is_digit(s[i]) {
        parse_bytes(s, i)
    } else if s[i] == 105 {
        parse_int(s, i)
    } else if s[i] == 108 {
        match parse_items(s, i + 1, Seq::empty()) {
            Ok((xs, j)) => Ok((BValue::List(xs), j)),
            Err(e) => Err(e),
        }
    } else if s[i] == 100 {
        match parse_entries(s, i + 1, Seq::empty()) {
            Ok((es, j)) => Ok((BValue::Dict(es), j)),
            Err(e) => Err(e),
        }
    } else {
        Err((ErrorKind::UnexpectedByte, i))
    }
}

/// List items from position `p` up to and including the closing `e`,
/// appended to `acc`.
pub open spec fn parse_items(s: Seq<u8>, p: int, acc: Seq<BValue>) -> Result<
    (Seq<BValue>, int),
    (ErrorKind, int),
>
    decreases s.len() - p, 1int,
{
    if p < 0 || p >= s.len() {
        Err((ErrorKind::Truncated, s.len() as int))
    } else if s[p] == 101 {
        Ok((acc, p + 1))
    } else {
        match parse_value(s, p) {
            Err(e) => Err(e),
            Ok((v, j)) => {
                // every value takes at least one byte; this keeps the recursion well-founded
                if p < j <= s.len() {
                    parse_items(s, j, acc.push(v))
                } else {
                    Err((ErrorKind::Truncated, p))
                }
            },
        }
    }
}

/// Dictionary entries from position `p` up to and including the closing `e`,
/// inserted into the sorted entries `acc`.
pub open spec fn parse_entries(s: Seq<u8>, p: int, acc: Seq<(Seq<u8>, BValue)>) -> Result<
    (Seq<(Seq<u8>, BValue)>, int),
    (ErrorKind, int),
>
    decreases s.len() - p, 1int,
{
    if p < 0 || p >= s.len() {
        Err((ErrorKind::Truncated, s.len() as int))
    } else if s[p] == 101 {
        Ok((acc, p + 1))
    } else {
        match parse_value(s, p) {
            Err(e) => Err(e),
            Ok((kv, q)) => {
                if !(p < q <= s.len()) {
                    Err((ErrorKind::Truncated, p))
                } else {
                    match kv {
                        BValue::Bytes(k) => {
                            if lookup(acc, k) is Some {
                                Err((ErrorKind::DuplicateKey, p))
                            } else {
                                match parse_value(s, q) {
                                    Err(e) => Err(e),
                                    Ok((v, j)) => {
                                        if q < j <= s.len() {
                                            parse_entries(s, j, insert_entry(acc, k, v))
                                        } else {
                                            Err((ErrorKind::Truncated, q))
                                        }
                                    },
                                }
                            }
                        },
                        _ => Err((ErrorKind::NonByteStringKey, p)),
                    }
                }
            },
        }
    }
}

/// The abstract form of a decoder result, with absolute end positions.
pub open spec fn decoded_view(r: Result<(BencodeTypes, usize), DecodeError>) -> Result<
    (BValue, int),
    (ErrorKind, int),
> {
    match r {
        Ok((v, j)) => Ok((v@, j as int)),
        Err(e) => Err((e.kind, e.offset as int)),
    }
}

/// Scans the run of digits at `start`: where it ends, and its value unless
/// that exceeds `u64::MAX`.
fn scan_digits(s: &[u8], start: usize) -> (r: (usize, u64, bool))
    requires
        start <= s.len(),
    ensures
        r.0 == digits_end(s@, start as int),
        start <= r.0 <= s.len(),
        r.2 == (digits_value(s@.subrange(start as int, r.0 as int)) > u64::MAX),
        !r.2 ==> r.1 == digits_value(s@.subrange(start as int, r.0 as int)),
{
    let mut k: usize = start;
    let mut val: u64 = 0;
    let mut over = false;
    assert(s@.subrange(start as int, start as int) =~= Seq::<u8>::empty());
    while k < s.len() && 48 <= s[k] && s[k] <= 57
        invariant
            start <= k <= s.len(),
            digits_end(s@, start as int) == digits_end(s@, k as int),
            over == (digits_value(s@.subrange(start as int, k as int)) > u64::MAX),
            !over ==> val == digits_value(s@.subrange(start as int, k as int)),
        decreases s.len() - k,
    {
        let ghost old_d = s@.subrange(start as int, k as int);
        let d = (s[k] - 48) as u64;
        let ghost new_d = s@.subrange(start as int, k + 1);
        assert(new_d.drop_last() =~= old_d);
        assert(digits_value(new_d) == digits_value(old_d) * 10 + d);
        if !over {
            let next: u128 = val as u128 * 10 + d as u128;
            if next > u64::MAX as u128 {
                over = true;
            } else {
                val = next as u64;
            }
        }
        k = k + 1;
    }
    (k, val, over)
}

/// Decodes the value at `pos`.
fn decode_at(input: &[u8], pos: usize) -> (r: Result<(BencodeTypes, usize), DecodeError>)
    ensures
        decoded_view(r) == parse_value(input@, pos as int),
        r matches Ok((_, j)) ==> pos < j <= input.len(),
        r matches Err(e) ==> e.offset <= input.len(),
    decreases input.len() - pos,
{
    if pos >= input.len() {
        return Err(DecodeError { kind: ErrorKind::Truncated, offset: input.len() });
    }
    let c = input[pos];
    if 48 <= c && c <= 57 {
        decode_bytes(input, pos)
    } else if c == 105 {
        decode_int(input, pos)
    } else if c == 108 {
        let ghost s = input@;
        let mut items: Vec<BencodeTypes> = Vec::new();
        let mut p: usize = pos + 1;
        assert(view_items(items@) =~= Seq::<BValue>::empty());
        loop
            invariant
                pos < p <= input.len(),
                s == input@,
                pos < input.len(),
                s[pos as int] == 108,
                parse_items(s, pos + 1, Seq::empty()) == parse_items(s, p as int, view_items(items@)),
            decreases input.len() - p,
        {
            if p >= input.len() {
                return Err(DecodeError { kind: ErrorKind::Truncated, offset: input.len() });
            }
            if input[p] == 101 {
                return Ok((BencodeTypes::List(items), p + 1));
            }
            match decode_at(input, p) {
                Err(e) => {
                    return Err(e);
                },
                Ok((v, j)) => {
                    proof {
                        let t = items@.push(v);
                        assert(t.drop_last() =~= items@);
                        assert(view_items(t) == view_items(items@).push(v@));
                    }
                    items.push(v);
                    p = j;
                },
            }
        }
    } else if c == 100 {
        let ghost s = input@;
        let mut d = Dict::new();
        let mut p: usize = pos + 1;
        loop
            invariant
                pos < p <= input.len(),
                s == input@,
                pos < input.len(),
                s[pos as int] == 100,
                parse_entries(s, pos + 1, Seq::empty()) == parse_entries(s, p as int, d@),
            decreases input.len() - p,
        {
            if p >= input.len() {
                return Err(DecodeError { kind: ErrorKind::Truncated, offset: input.len() });
            }
            if input[p] == 101 {
                return Ok((BencodeTypes::Dictionary(d), p + 1));
            }
            match decode_at(input, p) {
                Err(e) => {
                    return Err(e);
                },
                Ok((kv, q)) => {
                    match kv {
                        BencodeTypes::ByteString(k) => {
                            if d.get(&k).is_some() {
                                return Err(DecodeError { kind: ErrorKind::DuplicateKey, offset: p });
                            }
                            match decode_at(input, q) {
                                Err(e) => {
                                    return Err(e);
                                },
                                Ok((v, j)) => {
                                    d.insert(k, v);
                                    p = j;
                                },
                            }
                        },
                        _ => {
                            return Err(DecodeError { kind: ErrorKind::NonByteStringKey, offset: p });
                        },
                    }
                },
            }
        }
    } else {
        Err(DecodeError { kind: ErrorKind::UnexpectedByte, offset: pos })
    }
}

/// Decodes the byte string at `pos`.
fn decode_bytes(input: &[u8], pos: usize) -> (r: Result<(BencodeTypes, usize), DecodeError>)
    requires
        pos < input.len(),
        is_digit(input@[pos as int]),
    ensures
        decoded_view(r) == parse_bytes(input@, pos as int),
        r matches Ok((_, j)) ==> pos < j <= input.len(),
        r matches Err(e) ==> e.offset <= input.len(),
{
    let (j, n, over) = scan_digits(input, pos);
    if j >= input.len() {
        return Err(DecodeError { kind: ErrorKind::Truncated, offset: input.len() });
    }
    if input[j] != 58 {
        return Err(DecodeError { kind: ErrorKind::MalformedLength, offset: j });
    }
    let rem: usize = input.len() - (j + 1);
    if over || n as u128 > rem as u128 {
        return Err(DecodeError { kind: ErrorKind::MalformedLength, offset: pos });
    }
    let n = n as usize;
    let start: usize = j + 1;
    let mut bytes: Vec<u8> = Vec::new();
    let mut k: usize = 0;
    while k < n
        invariant
            k <= n,
            start + n <= input.len(),
            bytes@ == input@.subrange(start as int, start + k),
        decreases n - k,
    {
        bytes.push(input[start + k]);
        k = k + 1;
        assert(bytes@ =~= input@.subrange(start as int, start + k));
    }
    assert(digits_end(input@, pos as int) != pos) by {
        assert(is_digit(input@[pos as int]));
    }
    Ok((BencodeTypes::ByteString(bytes), start + n))
}

/// Decodes the integer at `pos`.
fn decode_int(input: &[u8], pos: usize) -> (r: Result<(BencodeTypes, usize), DecodeError>)
    requires
        pos < input.len(),
        input@[pos as int] == 105,
    ensures
        decoded_view(r) == parse_int(input@, pos as int),
        r matches Ok((_, j)) ==> pos < j <= input.len(),
        r matches Err(e) ==> e.offset <= input.len(),
{
    let mut ds: usize = pos + 1;
    let mut neg = false;
    if ds < input.len() && input[ds] == 45 {
        neg = true;
        ds = ds + 1;
    }
    let (de, m, over) = scan_digits(input, ds);
    if de >= input.len() {
        return Err(DecodeError { kind: ErrorKind::Truncated, offset: input.len() });
    }
    if input[de] != 101 {
        return Err(DecodeError { kind: ErrorKind::MalformedInteger, offset: de });
    }
    if de == ds {
        return Err(DecodeError { kind: ErrorKind::MalformedInteger, offset: ds });
    }
    if input[ds] == 48 && (de > ds + 1 || neg) {
        return Err(DecodeError { kind: ErrorKind::MalformedInteger, offset: ds });
    }
    if over {
        return Err(DecodeError { kind: ErrorKind::MalformedInteger, offset: ds });
    }
    let n: i64;
    if neg {
        if m > 9223372036854775808u64 {
            return Err(DecodeError { kind: ErrorKind::MalformedInteger, offset: ds });
        }
        if m == 9223372036854775808u64 {
            n = i64::MIN;
        } else {
            n = -(m as i64);
        }
    } else {
        if m > 9223372036854775807u64 {
            return Err(DecodeError { kind: ErrorKind::MalformedInteger, offset: ds });
        }
        n = m as i64;
    }
    Ok((BencodeTypes::Integer(n), de + 1))
}

impl BencodeTypes {
    /// Decodes the value at the start of `encoded_value`; bytes after it are ignored.
    pub fn decode(encoded_value: Vec<u8>) -> (r: Result<BencodeTypes, DecodeError>)
        ensures
            match r {
                Ok(v) => parse_value(encoded_value@, 0) matches Ok((w, _)) && w == v@,
                Err(e) => parse_value(encoded_value@, 0) == Err::<(BValue, int), _>((e.kind, e.offset as int)),
            },
            r matches Err(e) ==> e.offset <= encoded_value.len(),
    {
        match decode_at(encoded_value.as_slice(), 0) {
            Ok((v, _)) => Ok(v),
            Err(e) => Err(e),
        }
    }

    /// Decodes the value at the start of the text `encoded_value`, read as
    /// its UTF-8 bytes; bytes after it are ignored.
    pub fn parse(encoded_value: &str) -> (r: Result<BencodeTypes, DecodeError>)
        ensures
            match r {
                Ok(v) => parse_value(encoded_value.spec_bytes(), 0) matches Ok((w, _)) && w == v@,
                Err(e) => parse_value(encoded_value.spec_bytes(), 0) == Err::<(BValue, int), _>((e.kind, e.offset as int)),
            },
            r matches Err(e) ==> e.offset <= encoded_value.spec_bytes().len(),
    {
        match decode_at(encoded_value.as_bytes(), 0) {
            Ok((v, _)) => Ok(v),
            Err(e) => Err(e),
        }
    }

    /// Decodes the value that starts at `offset`, returning it with the number
    /// of bytes it takes; bytes after it are left alone.
    pub fn decode_with_offset(input: &[u8], offset: usize) -> (r: Result<(BencodeTypes, usize), DecodeError>)
        ensures
            match r {
                Ok((v, n)) => parse_value(input@, offset as int) == Ok::<_, (ErrorKind, int)>((v@, offset + n)),
                Err(e) => parse_value(input@, offset as int) == Err::<(BValue, int), _>((e.kind, e.offset as int)),
            },
            r matches Err(e) ==> e.offset <= input.len(),
    {
        match decode_at(input, offset) {
            Ok((v, j)) => Ok((v, j - offset)),
            Err(e) => Err(e),
        }
    }
}

} // verus!
