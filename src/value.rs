use vstd::prelude::*;

verus! {

/// The abstract document that a bencoded value denotes.
pub enum BValue {
    Int(int),
    Bytes(Seq<u8>),
    List(Seq<BValue>),
    Dict(Seq<(Seq<u8>, BValue)>),
}

/// A decoded bencode value.
#[derive(Debug, PartialEq, Eq)]
pub enum BencodeTypes {
    Integer(i64),
    ByteString(Vec<u8>),
    List(Vec<BencodeTypes>),
    Dictionary(Dict),
}

/// A dictionary: entries kept in strictly ascending key order.
#[derive(Debug, PartialEq, Eq)]
pub struct Dict {
    pub(crate) entries: Vec<(Vec<u8>, BencodeTypes)>,
}

impl View for BencodeTypes {
    type V = BValue;

    open(crate) spec fn view(&self) -> BValue
        decreases self,
    {
        match self {
            BencodeTypes::Integer(n) => BValue::Int(*n as int),
            BencodeTypes::ByteString(b) => BValue::Bytes(b@),
            BencodeTypes::List(xs) => BValue::List(view_items(xs@)),
            BencodeTypes::Dictionary(d) => BValue::Dict(view_entries(d.entries@)),
        }
    }
}

/// The abstract values of a sequence of items, in order.
pub open(crate) spec fn view_items(s: Seq<BencodeTypes>) -> Seq<BValue>
    decreases s,
{
    if s.len() == 0 {
        Seq::empty()
    } else {
        view_items(s.drop_last()).push(s.last().view())
    }
}

/// The abstract entries of a dictionary, in order.
pub open(crate) spec fn view_entries(s: Seq<(Vec<u8>, BencodeTypes)>) -> Seq<(Seq<u8>, BValue)>
    decreases s,
{
    if s.len() == 0 {
        Seq::empty()
    } else {
        view_entries(s.drop_last()).push((s.last().0@, s.last().1.view()))
    }
}

} // verus!

verus! {

/// `a` sorts strictly before `b` when both are compared from position `k` on:
/// the first differing byte decides (as unsigned), and a proper prefix is smaller.
pub open spec fn lex_lt_from(a: Seq<u8>, b: Seq<u8>, k: int) -> bool
    decreases a.len() - k,
{
    if k >= a.len() {
        k < b.len()
    } else if k >= b.len() {
        false
    } else if a[k] != b[k] {
        a[k] < b[k]
    } else {
        lex_lt_from(a, b, k + 1)
    }
}

/// Strict lexicographic order on raw byte strings.
pub open spec fn bytes_lt(a: Seq<u8>, b: Seq<u8>) -> bool {
    lex_lt_from(a, b, 0)
}

/// Every key sorts strictly before every later key (so keys are also unique).
pub open spec fn keys_ascending(es: Seq<(Seq<u8>, BValue)>) -> bool {
    forall|i: int, j: int| 0 <= i < j < es.len() ==> bytes_lt(#[trigger] es[i].0, #[trigger] es[j].0)
}

impl BValue {
    /// The invariants of a value: integers fit in 64 bits, and every dictionary
    /// holds its keys in strictly ascending byte order.
    pub open spec fn wf(self) -> bool
        decreases self,
    {
        match self {
            BValue::Int(n) => i64::MIN <= n <= i64::MAX,
            BValue::Bytes(_) => true,
            BValue::List(xs) => forall|i: int| 0 <= i < xs.len() ==> (#[trigger] xs[i]).wf(),
            BValue::Dict(es) => keys_ascending(es) && forall|i: int|
                0 <= i < es.len() ==> (#[trigger] es[i]).1.wf(),
        }
    }
}

proof fn lemma_lex_irreflexive_from(a: Seq<u8>, k: int)
    requires
        0 <= k,
    ensures
        !lex_lt_from(a, a, k),
    decreases a.len() - k,
{
    if k < a.len() {
        lemma_lex_irreflexive_from(a, k + 1);
    }
}

/// No byte string sorts before itself.
pub proof fn lemma_bytes_lt_irreflexive(a: Seq<u8>)
    ensures
        !bytes_lt(a, a),
{
    lemma_lex_irreflexive_from(a, 0);
}

proof fn lemma_lex_trans_from(a: Seq<u8>, b: Seq<u8>, c: Seq<u8>, k: int)
    requires
        0 <= k,
        lex_lt_from(a, b, k),
        lex_lt_from(b, c, k),
    ensures
        lex_lt_from(a, c, k),
    decreases a.len() - k,
{
    if k < a.len() && k < b.len() && k < c.len() && a[k] == b[k] && b[k] == c[k] {
        lemma_lex_trans_from(a, b, c, k + 1);
    }
}

/// The byte order is transitive.
pub proof fn lemma_bytes_lt_transitive(a: Seq<u8>, b: Seq<u8>, c: Seq<u8>)
    requires
        bytes_lt(a, b),
        bytes_lt(b, c),
    ensures
        bytes_lt(a, c),
{
    lemma_lex_trans_from(a, b, c, 0);
}

proof fn lemma_lex_total_from(a: Seq<u8>, b: Seq<u8>, k: int)
    requires
        0 <= k <= a.len(),
        k <= b.len(),
        a.subrange(0, k) == b.subrange(0, k),
        a != b,
    ensures
        lex_lt_from(a, b, k) || lex_lt_from(b, a, k),
    decreases a.len() - k,
{
    if k == a.len() && k == b.len() {
        assert(a =~= a.subrange(0, k));
        assert(b =~= b.subrange(0, k));
    } else if k < a.len() && k < b.len() && a[k] == b[k] {
        assert(a.subrange(0, k + 1) =~= a.subrange(0, k).push(a[k]));
        assert(b.subrange(0, k + 1) =~= b.subrange(0, k).push(b[k]));
        lemma_lex_total_from(a, b, k + 1);
    }
}

/// Two different byte strings are ordered one way or the other.
pub proof fn lemma_bytes_lt_total(a: Seq<u8>, b: Seq<u8>)
    requires
        a != b,
    ensures
        bytes_lt(a, b) || bytes_lt(b, a),
{
    assert(a.subrange(0, 0) =~= b.subrange(0, 0));
    lemma_lex_total_from(a, b, 0);
}

/// The byte order is asymmetric.
pub proof fn lemma_bytes_lt_asymmetric(a: Seq<u8>, b: Seq<u8>)
    requires
        bytes_lt(a, b),
    ensures
        !bytes_lt(b, a),
{
    if bytes_lt(b, a) {
        lemma_bytes_lt_transitive(a, b, a);
        lemma_bytes_lt_irreflexive(a);
    }
}

/// The view of a sequence of items is the item-wise view.
pub(crate) proof fn lemma_view_items(s: Seq<BencodeTypes>)
    ensures
        view_items(s).len() == s.len(),
        forall|i: int| 0 <= i < s.len() ==> #[trigger] view_items(s)[i] == s[i]@,
    decreases s.len(),
{
    if s.len() > 0 {
        lemma_view_items(s.drop_last());
        assert(view_items(s) == view_items(s.drop_last()).push(s.last()@));
    } else {
        assert(view_items(s) == Seq::<BValue>::empty());
    }
}

/// The view of a sequence of entries is the entry-wise view.
pub(crate) proof fn lemma_view_entries(s: Seq<(Vec<u8>, BencodeTypes)>)
    ensures
        view_entries(s).len() == s.len(),
        forall|i: int|
            0 <= i < s.len() ==> #[trigger] view_entries(s)[i] == (s[i].0@, s[i].1@),
    decreases s.len(),
{
    if s.len() > 0 {
        lemma_view_entries(s.drop_last());
        assert(view_entries(s) == view_entries(s.drop_last()).push((s.last().0@, s.last().1@)));
    } else {
        assert(view_entries(s) == Seq::<(Seq<u8>, BValue)>::empty());
    }
}

} // verus!

verus! {

/// Compares two byte strings in the strict byte order.
pub fn bytes_less(a: &[u8], b: &[u8]) -> (r: bool)
    ensures
        r == bytes_lt(a@, b@),
{
    let mut k: usize = 0;
    while k < a.len() && k < b.len() && a[k] == b[k]
        invariant
            0 <= k <= a.len(),
            k <= b.len(),
            lex_lt_from(a@, b@, 0) == lex_lt_from(a@, b@, k as int),
        decreases a.len() - k,
    {
        k = k + 1;
    }
    if k >= a.len() {
        k < b.len()
    } else if k >= b.len() {
        false
    } else {
        a[k] < b[k]
    }
}

/// Compares two byte strings for equality.
pub fn bytes_equal(a: &[u8], b: &[u8]) -> (r: bool)
    ensures
        r == (a@ == b@),
{
    if a.len() != b.len() {
        return false;
    }
    let mut k: usize = 0;
    while k < a.len()
        invariant
            0 <= k <= a.len(),
            a.len() == b.len(),
            a@.take(k as int) == b@.take(k as int),
        decreases a.len() - k,
    {
        if a[k] != b[k] {
            return false;
        }
        assert(a@.take(k as int + 1) =~= a@.take(k as int).push(a[k as int]));
        assert(b@.take(k as int + 1) =~= b@.take(k as int).push(b[k as int]));
        k = k + 1;
    }
    assert(a@ =~= a@.take(k as int));
    assert(b@ =~= b@.take(k as int));
    true
}

/// The value stored under `k`, if any.
pub open spec fn lookup(es: Seq<(Seq<u8>, BValue)>, k: Seq<u8>) -> Option<BValue>
    decreases es.len(),
{
    if es.len() == 0 {
        None
    } else if es.last().0 == k {
        Some(es.last().1)
    } else {
        lookup(es.drop_last(), k)
    }
}

/// Stores `v` under `k` in a sequence of entries sorted by key: the entry
/// with an equal key is replaced, or a new one goes where its key sorts.
pub open spec fn insert_entry(es: Seq<(Seq<u8>, BValue)>, k: Seq<u8>, v: BValue) -> Seq<
    (Seq<u8>, BValue),
>
    decreases es.len(),
{
    if es.len() == 0 {
        seq![(k, v)]
    } else if es.last().0 == k {
        es.drop_last().push((k, v))
    } else if bytes_lt(es.last().0, k) {
        es.push((k, v))
    } else {
        insert_entry(es.drop_last(), k, v).push(es.last())
    }
}

proof fn lemma_insert_entry_bounded(es: Seq<(Seq<u8>, BValue)>, k: Seq<u8>, v: BValue, b: Seq<u8>)
    requires
        forall|i: int| 0 <= i < es.len() ==> bytes_lt(#[trigger] es[i].0, b),
        bytes_lt(k, b),
    ensures
        forall|i: int|
            0 <= i < insert_entry(es, k, v).len() ==> bytes_lt(
                #[trigger] insert_entry(es, k, v)[i].0,
                b,
            ),
    decreases es.len(),
{
    let r = insert_entry(es, k, v);
    if es.len() == 0 {
        assert(r == seq![(k, v)]);
    } else if es.last().0 == k {
        assert forall|i: int| 0 <= i < r.len() implies bytes_lt(#[trigger] r[i].0, b) by {
            if i < es.len() - 1 {
                assert(r[i] == es[i]);
            }
        }
    } else if bytes_lt(es.last().0, k) {
        assert forall|i: int| 0 <= i < r.len() implies bytes_lt(#[trigger] r[i].0, b) by {
            if i < es.len() {
                assert(r[i] == es[i]);
            }
        }
    } else {
        let d = es.drop_last();
        assert forall|i: int| 0 <= i < d.len() implies bytes_lt(#[trigger] d[i].0, b) by {
            assert(d[i] == es[i]);
        }
        lemma_insert_entry_bounded(d, k, v, b);
        let ins = insert_entry(d, k, v);
        assert forall|i: int| 0 <= i < r.len() implies bytes_lt(#[trigger] r[i].0, b) by {
            if i < ins.len() {
                assert(r[i] == ins[i]);
            }
        }
    }
}

/// Inserting keeps keys ascending, and `k` then maps to `v`.
pub proof fn lemma_insert_entry(es: Seq<(Seq<u8>, BValue)>, k: Seq<u8>, v: BValue)
    requires
        keys_ascending(es),
    ensures
        keys_ascending(insert_entry(es, k, v)),
        lookup(insert_entry(es, k, v), k) == Some(v),
    decreases es.len(),
{
    if es.len() == 0 {
    } else if es.last().0 == k {
        assert(keys_ascending(es.drop_last().push((k, v)))) by {
            let r = es.drop_last().push((k, v));
            assert forall|i: int, j: int| 0 <= i < j < r.len() implies bytes_lt(r[i].0, r[j].0) by {
                assert(r[i].0 == es[i].0);
                assert(r[j].0 == es[j].0);
            }
        }
    } else if bytes_lt(es.last().0, k) {
        let r = es.push((k, v));
        assert forall|i: int, j: int| 0 <= i < j < r.len() implies bytes_lt(r[i].0, r[j].0) by {
            if j == es.len() {
                if i < es.len() - 1 {
                    lemma_bytes_lt_transitive(es[i].0, es.last().0, k);
                }
            } else {
                assert(r[i].0 == es[i].0);
            }
        }
    } else {
        let d = es.drop_last();
        assert(keys_ascending(d)) by {
            assert forall|i: int, j: int| 0 <= i < j < d.len() implies bytes_lt(d[i].0, d[j].0) by {
                assert(d[i] == es[i]);
                assert(d[j] == es[j]);
            }
        }
        lemma_insert_entry(d, k, v);
        lemma_bytes_lt_total(es.last().0, k);
        assert forall|i: int| 0 <= i < d.len() implies bytes_lt(#[trigger] d[i].0, es.last().0) by {
            assert(d[i] == es[i]);
        }
        lemma_insert_entry_bounded(d, k, v, es.last().0);
        let ins = insert_entry(d, k, v);
        let r = ins.push(es.last());
        assert forall|i: int, j: int| 0 <= i < j < r.len() implies bytes_lt(r[i].0, r[j].0) by {
            if j == ins.len() {
                assert(r[i] == ins[i]);
            } else {
                assert(r[i] == ins[i]);
                assert(r[j] == ins[j]);
            }
        }
        lemma_bytes_lt_irreflexive(k);
        assert(r.drop_last() =~= ins);
    }
}

/// Keys that sort after every key of `es` are absent from it.
pub proof fn lemma_lookup_above(es: Seq<(Seq<u8>, BValue)>, k: Seq<u8>)
    requires
        forall|i: int| 0 <= i < es.len() ==> bytes_lt(#[trigger] es[i].0, k),
    ensures
        lookup(es, k) is None,
    decreases es.len(),
{
    if es.len() > 0 {
        lemma_bytes_lt_irreflexive(k);
        let d = es.drop_last();
        assert forall|i: int| 0 <= i < d.len() implies bytes_lt(#[trigger] d[i].0, k) by {
            assert(d[i] == es[i]);
        }
        lemma_lookup_above(d, k);
    }
}

/// Viewing commutes with inserting an entry.
pub(crate) proof fn lemma_view_entries_insert(s: Seq<(Vec<u8>, BencodeTypes)>, j: int, e: (Vec<u8>, BencodeTypes))
    requires
        0 <= j <= s.len(),
    ensures
        view_entries(s.insert(j, e)) == view_entries(s).insert(j, (e.0@, e.1@)),
{
    lemma_view_entries(s);
    lemma_view_entries(s.insert(j, e));
    assert(view_entries(s.insert(j, e)) =~= view_entries(s).insert(j, (e.0@, e.1@)));
}

/// Viewing commutes with replacing an entry.
pub(crate) proof fn lemma_view_entries_update(s: Seq<(Vec<u8>, BencodeTypes)>, j: int, e: (Vec<u8>, BencodeTypes))
    requires
        0 <= j < s.len(),
    ensures
        view_entries(s.update(j, e)) == view_entries(s).update(j, (e.0@, e.1@)),
{
    lemma_view_entries(s);
    lemma_view_entries(s.update(j, e));
    assert(view_entries(s.update(j, e)) =~= view_entries(s).update(j, (e.0@, e.1@)));
}

impl View for Dict {
    type V = Seq<(Seq<u8>, BValue)>;

    open(crate) spec fn view(&self) -> Seq<(Seq<u8>, BValue)> {
        view_entries(self.entries@)
    }
}

impl Dict {
    /// Keys are stored in strictly ascending byte order.
    #[verifier::type_invariant]
    pub(crate) open spec fn keys_sorted(self) -> bool {
        keys_ascending(view_entries(self.entries@))
    }

    /// An empty dictionary.
    pub fn new() -> (r: Dict)
        ensures
            r@ == Seq::<(Seq<u8>, BValue)>::empty(),
    {
        let r = Dict { entries: Vec::new() };
        assert(r@ =~= Seq::<(Seq<u8>, BValue)>::empty());
        r
    }

    /// The number of entries.
    pub fn len(&self) -> (r: usize)
        ensures
            r == self@.len(),
    {
        proof {
            lemma_view_entries(self.entries@);
        }
        self.entries.len()
    }

    /// The value stored under `key`.
    pub fn get(&self, key: &[u8]) -> (r: Option<&BencodeTypes>)
        ensures
            r matches Some(v) ==> lookup(self@, key@) == Some(v@),
            r is None ==> lookup(self@, key@) is None,
    {
        proof {
            lemma_view_entries(self.entries@);
            assert(view_entries(self.entries@).take(self.entries.len() as int) =~= self@);
        }
        let mut j: usize = self.entries.len();
        while j > 0
            invariant
                j <= self.entries.len(),
                lookup(self@, key@) == lookup(view_entries(self.entries@).take(j as int), key@),
            decreases j,
        {
            proof {
                lemma_view_entries(self.entries@);
            }
            let ghost t = view_entries(self.entries@).take(j as int);
            if bytes_equal(&self.entries[j - 1].0, key) {
                return Some(&self.entries[j - 1].1);
            }
            assert(t.drop_last() =~= view_entries(self.entries@).take(j - 1));
            j = j - 1;
        }
        None
    }

    /// Stores `value` under `key`, replacing the value an equal key had.
    pub fn insert(&mut self, key: Vec<u8>, value: BencodeTypes)
        ensures
            final(self)@ == insert_entry(old(self)@, key@, value@),
    {
        proof {
            use_type_invariant(&*self);
            lemma_view_entries(self.entries@);
        }
        let ghost es = self@;
        let ghost k = key@;
        let ghost v = value@;
        let mut entries: Vec<(Vec<u8>, BencodeTypes)> = Vec::new();
        std::mem::swap(&mut self.entries, &mut entries);
        let mut j: usize = entries.len();
        proof {
            assert(es.take(es.len() as int) =~= es);
            assert(insert_entry(es, k, v) =~= insert_entry(es.take(j as int), k, v) + es.skip(j as int));
        }
        while j > 0
            invariant
                j <= entries.len(),
                es == view_entries(entries@),
                es.len() == entries.len(),
                insert_entry(es, k, v) == insert_entry(es.take(j as int), k, v) + es.skip(j as int),
                k == key@,
            ensures
                j <= entries.len(),
                es == view_entries(entries@),
                es.len() == entries.len(),
                insert_entry(es, k, v) == insert_entry(es.take(j as int), k, v) + es.skip(j as int),
                j > 0 ==> !bytes_lt(k, es[j - 1].0),
            decreases j,
        {
            if !bytes_less(&key, &entries[j - 1].0) {
                proof {
                    lemma_view_entries(entries@);
                }
                break;
            }
            proof {
                lemma_view_entries(entries@);
                let t = es.take(j as int);
                lemma_bytes_lt_irreflexive(k);
                lemma_bytes_lt_asymmetric(k, t.last().0);
                assert(t.drop_last() =~= es.take(j - 1));
                assert(insert_entry(t, k, v) == insert_entry(es.take(j - 1), k, v).push(t.last()));
                assert(insert_entry(es.take(j - 1), k, v).push(t.last()) + es.skip(j as int)
                    =~= insert_entry(es.take(j - 1), k, v) + es.skip(j - 1));
            }
            j = j - 1;
        }
        proof {
            lemma_view_entries(entries@);
        }
        if j > 0 && bytes_equal(&entries[j - 1].0, &key) {
            proof {
                let t = es.take(j as int);
                assert(t.drop_last() =~= es.take(j - 1));
                assert(insert_entry(es, k, v) =~= es.update(j - 1, (k, v)));
                lemma_view_entries_update(entries@, j - 1, (key, value));
                lemma_insert_entry(es, k, v);
            }
            entries.set(j - 1, (key, value));
        } else {
            proof {
                if j > 0 {
                    lemma_bytes_lt_total(es[j - 1].0, k);
                    let t = es.take(j as int);
                    assert(insert_entry(t, k, v) == t.push((k, v)));
                } else {
                    assert(insert_entry(es.take(0), k, v) == seq![(k, v)]);
                }
                assert(insert_entry(es, k, v) =~= es.insert(j as int, (k, v)));
                lemma_view_entries_insert(entries@, j as int, (key, value));
                lemma_insert_entry(es, k, v);
            }
            entries.insert(j, (key, value));
        }
        self.entries = entries;
    }
}

} // verus!

verus! {

impl Clone for BencodeTypes {
    fn clone(&self) -> (r: Self)
        ensures
            r@ == self@,
        decreases self,
    {
        match self {
            BencodeTypes::Integer(n) => BencodeTypes::Integer(*n),
            BencodeTypes::ByteString(b) => BencodeTypes::ByteString(vstd::slice::slice_to_vec(b.as_slice())),
            BencodeTypes::List(xs) => {
                let mut out: Vec<BencodeTypes> = Vec::new();
                let mut i: usize = 0;
                while i < xs.len()
                    invariant
                        i <= xs.len(),
                        *self == BencodeTypes::List(*xs),
                        out@.len() == i,
                        forall|j: int| 0 <= j < i ==> (#[trigger] out@[j])@ == xs@[j]@,
                    decreases xs.len() - i,
                {
                    proof {
                        assert(decreases_to!(*self => self->List_0));
                        assert(decreases_to!(*xs => xs[i as int]));
                    }
                    let c = xs[i].clone();
                    out.push(c);
                    i = i + 1;
                }
                proof {
                    lemma_view_items(xs@);
                    lemma_view_items(out@);
                    assert(view_items(out@) =~= view_items(xs@));
                }
                BencodeTypes::List(out)
            },
            BencodeTypes::Dictionary(d) => BencodeTypes::Dictionary(d.clone()),
        }
    }
}

impl Clone for Dict {
    fn clone(&self) -> (r: Self)
        ensures
            r@ == self@,
        decreases self,
    {
        proof {
            use_type_invariant(self);
        }
        let es = &self.entries;
        let mut out: Vec<(Vec<u8>, BencodeTypes)> = Vec::new();
        let mut i: usize = 0;
        while i < es.len()
            invariant
                i <= es.len(),
                es == &self.entries,
                out@.len() == i,
                forall|j: int| 0 <= j < i ==> (#[trigger] out@[j]).0@ == es@[j].0@ && out@[j].1@ == es@[j].1@,
            decreases es.len() - i,
        {
            proof {
                assert(decreases_to!(*self => self.entries));
                assert(decreases_to!(self.entries => self.entries[i as int]));
                assert(decreases_to!(self.entries[i as int] => self.entries[i as int].1));
            }
            let k = vstd::slice::slice_to_vec(es[i].0.as_slice());
            let v = es[i].1.clone();
            out.push((k, v));
            i = i + 1;
        }
        proof {
            lemma_view_entries(es@);
            lemma_view_entries(out@);
            assert(view_entries(out@) =~= view_entries(es@));
        }
        Dict { entries: out }
    }
}

} // verus!
