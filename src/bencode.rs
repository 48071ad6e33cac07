//! Bencode: byte strings, integers, lists and dictionaries.
use vstd::prelude::*;
use crate::error::Error;
use vstd::string::StringExecFns;

verus! {

/// A bencode value. Dictionary entries may be held in any order; `decode`
/// gives them sorted by key and `encode` writes them sorted by key.
#[derive(Debug, PartialEq, Eq)]
pub enum Value {
    Bytes(Vec<u8>),
    Int(i64),
    List(Vec<Value>),
    Dict(Vec<(Vec<u8>, Value)>),
}

/// Mathematical model of a bencode value.
pub enum BValue {
    Bytes(Seq<u8>),
    Int(int),
    List(Seq<BValue>),
    Dict(Seq<(Seq<u8>, BValue)>),
}

/// Strict lexicographic order on byte strings.
pub open spec fn bytes_lt(a: Seq<u8>, b: Seq<u8>) -> bool
    decreases a.len(),
{
    if a.len() == 0 {
        b.len() > 0
    } else if b.len() == 0 {
        false
    } else if a[0] != b[0] {
        a[0] < b[0]
    } else {
        bytes_lt(a.drop_first(), b.drop_first())
    }
}

pub proof fn lemma_bytes_lt_irreflexive(a: Seq<u8>)
    ensures
        !bytes_lt(a, a),
    decreases a.len(),
{
    if a.len() > 0 {
        lemma_bytes_lt_irreflexive(a.drop_first());
    }
}

pub proof fn lemma_bytes_lt_transitive(a: Seq<u8>, b: Seq<u8>, c: Seq<u8>)
    requires
        bytes_lt(a, b),
        bytes_lt(b, c),
    ensures
        bytes_lt(a, c),
    decreases a.len(),
{
    if a.len() > 0 && b.len() > 0 && c.len() > 0 && a[0] == b[0] && b[0] == c[0] {
        lemma_bytes_lt_transitive(a.drop_first(), b.drop_first(), c.drop_first());
    }
}

pub proof fn lemma_bytes_lt_total(a: Seq<u8>, b: Seq<u8>)
    ensures
        a == b || bytes_lt(a, b) || bytes_lt(b, a),
    decreases a.len(),
{
    if a.len() > 0 && b.len() > 0 && a[0] == b[0] {
        lemma_bytes_lt_total(a.drop_first(), b.drop_first());
        if a.drop_first() == b.drop_first() {
            assert(a =~= seq![a[0]] + a.drop_first());
            assert(b =~= seq![b[0]] + b.drop_first());
        }
    } else if a.len() == 0 && b.len() == 0 {
        assert(a =~= b);
    }
}

/// Keys of a dictionary listed strictly ascending (so also unique).
pub open spec fn keys_ascending(d: Seq<(Seq<u8>, BValue)>) -> bool {
    forall|i: int, j: int| 0 <= i < j < d.len() ==> bytes_lt(#[trigger] d[i].0, #[trigger] d[j].0)
}

/// Shortest decimal text of a natural number.
pub open spec fn decimal(n: nat) -> Seq<u8>
    decreases n,
{
    if n < 10 {
        seq![(48 + n) as u8]
    } else {
        decimal(n / 10).push((48 + n % 10) as u8)
    }
}

/// Decimal text of an integer, with a sign only when it is negative.
pub open spec fn int_text(i: int) -> Seq<u8> {
    if i < 0 {
        seq![45u8] + decimal((-i) as nat)
    } else {
        decimal(i as nat)
    }
}

/// A byte string as bencode: its length, a colon, its bytes.
pub open spec fn bytes_text(b: Seq<u8>) -> Seq<u8> {
    decimal(b.len()) + seq![58u8] + b
}

impl BValue {
    /// Every dictionary in the tree has its keys strictly ascending, and
    /// every integer fits in 64 bits.
    pub open spec fn wf(self) -> bool
        decreases self,
    {
        match self {
            BValue::Bytes(_) => true,
            BValue::Int(i) => i64::MIN <= i <= i64::MAX,
            BValue::List(l) => forall|i: int| 0 <= i < l.len() ==> (#[trigger] l[i]).wf(),
            BValue::Dict(d) => keys_ascending(d) && forall|i: int|
                0 <= i < d.len() ==> (#[trigger] d[i]).1.wf(),
        }
    }

    /// Nesting depth: scalars have depth 0.
    pub open spec fn depth(self) -> nat
        decreases self,
    {
        match self {
            BValue::Bytes(_) => 0,
            BValue::Int(_) => 0,
            BValue::List(l) => 1 + items_depth(l),
            BValue::Dict(d) => 1 + entries_depth(d),
        }
    }

    /// The bencode text of the value, dictionary entries in the order held.
    pub open spec fn encoding(self) -> Seq<u8>
        decreases self,
    {
        match self {
            BValue::Bytes(b) => bytes_text(b),
            BValue::Int(i) => seq![105u8] + int_text(i) + seq![101u8],
            BValue::List(l) => seq![108u8] + items_encoding(l) + seq![101u8],
            BValue::Dict(d) => seq![100u8] + entries_encoding(d) + seq![101u8],
        }
    }
}

/// The encodings of the items, one after another.
pub open spec fn items_encoding(l: Seq<BValue>) -> Seq<u8>
    decreases l,
{
    if l.len() == 0 {
        Seq::empty()
    } else {
        items_encoding(l.subrange(0, l.len() - 1)) + l[l.len() - 1].encoding()
    }
}

/// Each key's encoding followed by its value's, entry after entry.
pub open spec fn entries_encoding(d: Seq<(Seq<u8>, BValue)>) -> Seq<u8>
    decreases d,
{
    if d.len() == 0 {
        Seq::empty()
    } else {
        entries_encoding(d.subrange(0, d.len() - 1)) + bytes_text(d[d.len() - 1].0)
            + d[d.len() - 1].1.encoding()
    }
}

/// Unfolds `wf` one level: a container is well formed when its children are.
pub proof fn lemma_wf_unfold(v: BValue)
    ensures
        v matches BValue::List(l) ==> (v.wf() <==> forall|i: int| 0 <= i < l.len() ==> (#[trigger] l[i]).wf()),
        v matches BValue::Dict(d) ==> (v.wf() <==> keys_ascending(d) && forall|i: int| 0 <= i < d.len() ==> (#[trigger] d[i]).1.wf()),
{
    match v {
        BValue::List(l) => {
            assert forall|i: int| 0 <= i < l.len() implies decreases_to!(v => l[i]) by {
                assert(decreases_to!(v => v->List_0));
                assert(decreases_to!(l => l[i]));
            }
        },
        BValue::Dict(d) => {
            assert forall|i: int| 0 <= i < d.len() implies decreases_to!(v => d[i].1) by {
                assert(decreases_to!(v => v->Dict_0));
                assert(decreases_to!(d => d[i]));
                assert(decreases_to!(d[i] => d[i].1));
            }
        },
        _ => {},
    }
}

/// Deepest nesting among the items.
pub open spec fn items_depth(l: Seq<BValue>) -> nat
    decreases l,
{
    if l.len() == 0 {
        0
    } else {
        let a = items_depth(l.subrange(0, l.len() - 1));
        let b = l[l.len() - 1].depth();
        if a >= b { a } else { b }
    }
}

/// Deepest nesting among the entries' values.
pub open spec fn entries_depth(d: Seq<(Seq<u8>, BValue)>) -> nat
    decreases d,
{
    if d.len() == 0 {
        0
    } else {
        let a = entries_depth(d.subrange(0, d.len() - 1));
        let b = d[d.len() - 1].1.depth();
        if a >= b { a } else { b }
    }
}

/// Every dictionary in the tree has distinct keys, in whatever order, and
/// every integer fits in 64 bits: what the encoder accepts.
pub open spec fn unique_keys(v: BValue) -> bool
    decreases v,
{
    match v {
        BValue::Bytes(_) => true,
        BValue::Int(i) => i64::MIN <= i <= i64::MAX,
        BValue::List(l) => forall|i: int| 0 <= i < l.len() ==> unique_keys(#[trigger] l[i]),
        BValue::Dict(d) => (forall|a: int, b: int| 0 <= a < b < d.len() ==> (#[trigger] d[a]).0 != (#[trigger] d[b]).0)
            && forall|i: int| 0 <= i < d.len() ==> unique_keys((#[trigger] d[i]).1),
    }
}

/// Unfolds `unique_keys` one level.
pub proof fn lemma_unique_unfold(v: BValue)
    ensures
        v matches BValue::List(l) ==> (unique_keys(v) <==> forall|i: int| 0 <= i < l.len() ==> unique_keys(#[trigger] l[i])),
        v matches BValue::Dict(d) ==> (unique_keys(v) <==> (forall|a: int, b: int| 0 <= a < b < d.len() ==> (#[trigger] d[a]).0 != (#[trigger] d[b]).0)
            && forall|i: int| 0 <= i < d.len() ==> unique_keys((#[trigger] d[i]).1)),
{
    match v {
        BValue::List(l) => {
            assert forall|i: int| 0 <= i < l.len() implies decreases_to!(v => l[i]) by {
                assert(decreases_to!(v => v->List_0));
                assert(decreases_to!(l => l[i]));
            }
        },
        BValue::Dict(d) => {
            assert forall|i: int| 0 <= i < d.len() implies decreases_to!(v => d[i].1) by {
                assert(decreases_to!(v => v->Dict_0));
                assert(decreases_to!(d => d[i]));
                assert(decreases_to!(d[i] => d[i].1));
            }
        },
        _ => {},
    }
}

/// Keys listed strictly ascending are in particular distinct.
pub proof fn lemma_wf_unique(v: BValue)
    requires
        v.wf(),
    ensures
        unique_keys(v),
    decreases v,
{
    lemma_wf_unfold(v);
    lemma_unique_unfold(v);
    match v {
        BValue::List(l) => {
            assert forall|i: int| 0 <= i < l.len() implies unique_keys(#[trigger] l[i]) by {
                assert(decreases_to!(v => v->List_0));
                assert(decreases_to!(l => l[i]));
                lemma_wf_unique(l[i]);
            }
        },
        BValue::Dict(d) => {
            assert forall|i: int| 0 <= i < d.len() implies unique_keys((#[trigger] d[i]).1) by {
                assert(decreases_to!(v => v->Dict_0));
                assert(decreases_to!(d => d[i]));
                assert(decreases_to!(d[i] => d[i].1));
                lemma_wf_unique(d[i].1);
            }
            assert forall|a: int, b: int| 0 <= a < b < d.len() implies (#[trigger] d[a]).0 != (#[trigger] d[b]).0 by {
                lemma_bytes_lt_irreflexive(d[a].0);
            }
        },
        _ => {},
    }
}

/// `e` put where its key goes: after the leading entries with smaller keys.
pub open spec fn insert_sorted(acc: Seq<(Seq<u8>, BValue)>, e: (Seq<u8>, BValue)) -> Seq<(Seq<u8>, BValue)> {
    acc.insert(lower_bound(acc, e.0) as int, e)
}

/// The entries sorted by key, by insertion one after another.
pub open spec fn sort_entries(d: Seq<(Seq<u8>, BValue)>) -> Seq<(Seq<u8>, BValue)>
    decreases d.len(),
{
    if d.len() == 0 {
        Seq::empty()
    } else {
        insert_sorted(sort_entries(d.subrange(0, d.len() - 1)), d[d.len() - 1])
    }
}

/// The canonical form of a value: every dictionary sorted by key.
pub open spec fn canonical(v: BValue) -> BValue
    decreases v,
{
    match v {
        BValue::List(l) => BValue::List(canonical_items(l)),
        BValue::Dict(d) => BValue::Dict(sort_entries(canonical_entries(d))),
        _ => v,
    }
}

pub open spec fn canonical_items(l: Seq<BValue>) -> Seq<BValue>
    decreases l,
{
    if l.len() == 0 {
        Seq::empty()
    } else {
        canonical_items(l.subrange(0, l.len() - 1)).push(canonical(l[l.len() - 1]))
    }
}

pub open spec fn canonical_entries(d: Seq<(Seq<u8>, BValue)>) -> Seq<(Seq<u8>, BValue)>
    decreases d,
{
    if d.len() == 0 {
        Seq::empty()
    } else {
        canonical_entries(d.subrange(0, d.len() - 1)).push((d[d.len() - 1].0, canonical(d[d.len() - 1].1)))
    }
}

/// Model of one dictionary entry.
pub open spec fn entry_view(e: (Vec<u8>, Value)) -> (Seq<u8>, BValue)
    decreases e,
{
    (e.0@, e.1.view())
}

impl View for Value {
    type V = BValue;

    open spec fn view(&self) -> BValue
        decreases self,
    {
        match self {
            Value::Bytes(b) => BValue::Bytes(b@),
            Value::Int(i) => BValue::Int(*i as int),
            Value::List(l) => BValue::List(Seq::new(l@.len(), |i: int| if 0 <= i < l@.len() { l@[i].view() } else { BValue::Int(0) })),
            Value::Dict(d) => BValue::Dict(Seq::new(d@.len(), |i: int| if 0 <= i < d@.len() { entry_view(d@[i]) } else { (Seq::<u8>::empty(), BValue::Int(0)) })),
        }
    }
}


/// Compares two byte strings in lexicographic order.
pub fn bytes_less(a: &[u8], b: &[u8]) -> (r: bool)
    ensures
        r == bytes_lt(a@, b@),
{
    let mut i: usize = 0;
    assert(a@.skip(0) =~= a@ && b@.skip(0) =~= b@);
    while i < a.len() && i < b.len()
        invariant
            0 <= i <= a@.len(),
            i <= b@.len(),
            bytes_lt(a@, b@) == bytes_lt(a@.skip(i as int), b@.skip(i as int)),
        decreases a@.len() - i,
    {
        assert(a@.skip(i as int).drop_first() =~= a@.skip(i + 1));
        assert(b@.skip(i as int).drop_first() =~= b@.skip(i + 1));
        if a[i] != b[i] {
            return a[i] < b[i];
        }
        i = i + 1;
    }
    i < b.len()
}

/// Whether two byte strings are equal.
pub fn bytes_equal(a: &[u8], b: &[u8]) -> (r: bool)
    ensures
        r == (a@ == b@),
{
    if a.len() != b.len() {
        return false;
    }
    let mut i: usize = 0;
    while i < a.len()
        invariant
            i <= a@.len(),
            a@.len() == b@.len(),
            a@.take(i as int) == b@.take(i as int),
        decreases a@.len() - i,
    {
        if a[i] != b[i] {
            return false;
        }
        assert(a@.take(i + 1) =~= a@.take(i as int).push(a@[i as int]));
        assert(b@.take(i + 1) =~= b@.take(i as int).push(b@[i as int]));
        i = i + 1;
    }
    assert(a@ =~= a@.take(i as int));
    assert(b@ =~= b@.take(i as int));
    true
}

/// Appends the decimal text of `n`.
fn push_decimal(n: u64, out: &mut Vec<u8>)
    ensures
        final(out)@ == old(out)@ + decimal(n as nat),
    decreases n,
{
    if n >= 10 {
        push_decimal(n / 10, out);
    }
    out.push((48 + n % 10) as u8);
    assert(final(out)@ =~= old(out)@ + decimal(n as nat));
}

/// Appends the bencode text of a byte string.
fn push_bytes_text(b: &[u8], out: &mut Vec<u8>)
    ensures
        final(out)@ == old(out)@ + bytes_text(b@),
{
    push_decimal(b.len() as u64, out);
    out.push(58u8);
    let mut i: usize = 0;
    let ghost mid = out@;
    while i < b.len()
        invariant
            i <= b@.len(),
            out@ == mid + b@.take(i as int),
        decreases b@.len() - i,
    {
        out.push(b[i]);
        i = i + 1;
        assert(out@ =~= mid + b@.take(i as int));
    }
    assert(b@.take(b@.len() as int) =~= b@);
    assert(final(out)@ =~= old(out)@ + bytes_text(b@));
}

impl Value {
    /// Whether every dictionary in the tree has distinct keys.
    pub fn has_unique_keys(&self) -> (r: bool)
        ensures
            r == unique_keys(self@),
        decreases self,
    {
        proof {
            lemma_unique_unfold(self@);
        }
        match self {
            Value::Bytes(_) => true,
            Value::Int(_) => true,
            Value::List(l) => {
                let ghost ms = self@->List_0;
                assert(ms.len() == l@.len() && forall|k: int| 0 <= k < l@.len() ==> ms[k] == (#[trigger] l@[k]).view());
                let mut i: usize = 0;
                while i < l.len()
                    invariant
                        i <= l@.len(),
                        self@ == BValue::List(ms),
                        *self == Value::List(*l),
                        ms.len() == l@.len(),
                        forall|k: int| 0 <= k < l@.len() ==> ms[k] == (#[trigger] l@[k]).view(),
                        forall|k: int| 0 <= k < i ==> unique_keys(#[trigger] ms[k]),
                    decreases l@.len() - i,
                {
                    proof {
                        assert(decreases_to!(*self => (*self)->List_0));
                        vstd::std_specs::vec::axiom_vec_index_decreases(*l, i as int);
                    }
                    if !l[i].has_unique_keys() {
                        assert(!unique_keys(ms[i as int]));
                        proof { lemma_unique_unfold(self@); }
                        return false;
                    }
                    i = i + 1;
                }
                true
            },
            Value::Dict(d) => {
                let ghost ms = self@->Dict_0;
                assert(ms.len() == d@.len());
                assert forall|k: int| 0 <= k < d@.len() implies ms[k].0 == (#[trigger] d@[k]).0@ && ms[k].1 == d@[k].1.view() by {
                    assert(ms[k] == entry_view(d@[k]));
                    assert(entry_view(d@[k]) == (d@[k].0@, d@[k].1.view()));
                }
                let mut i: usize = 0;
                while i < d.len()
                    invariant
                        i <= d@.len(),
                        self@ == BValue::Dict(ms),
                        *self == Value::Dict(*d),
                        ms.len() == d@.len(),
                        forall|k: int| 0 <= k < d@.len() ==> ms[k].0 == (#[trigger] d@[k]).0@ && ms[k].1 == d@[k].1.view(),
                        forall|k: int| 0 <= k < i ==> unique_keys((#[trigger] ms[k]).1),
                        forall|a: int, b: int| 0 <= a < b < i ==> (#[trigger] ms[a]).0 != (#[trigger] ms[b]).0,
                    decreases d@.len() - i,
                {
                    proof {
                        assert(decreases_to!(*self => (*self)->Dict_0));
                        vstd::std_specs::vec::axiom_vec_index_decreases(*d, i as int);
                        assert(decreases_to!(d@[i as int] => d@[i as int].1));
                    }
                    if !d[i].1.has_unique_keys() {
                        assert(!unique_keys(ms[i as int].1));
                        proof { lemma_unique_unfold(self@); }
                        return false;
                    }
                    let mut j: usize = 0;
                    while j < i
                        invariant
                            j <= i < d@.len(),
                            self@ == BValue::Dict(ms),
                            ms.len() == d@.len(),
                            forall|k: int| 0 <= k < d@.len() ==> ms[k].0 == (#[trigger] d@[k]).0@ && ms[k].1 == d@[k].1.view(),
                            forall|a: int| 0 <= a < j ==> (#[trigger] ms[a]).0 != ms[i as int].0,
                        decreases i - j,
                    {
                        if bytes_equal(d[j].0.as_slice(), d[i].0.as_slice()) {
                            assert(ms[j as int].0 == ms[i as int].0);
                            proof { lemma_unique_unfold(self@); }
                            return false;
                        }
                        j = j + 1;
                    }
                    i = i + 1;
                }
                true
            },
        }
    }

    /// Appends the bencode text of the value's canonical form.
    fn encode_into(&self, out: &mut Vec<u8>)
        ensures
            final(out)@ == old(out)@ + canonical(self@).encoding(),
        decreases self,
    {
        match self {
            Value::Bytes(b) => {
                push_bytes_text(b.as_slice(), out);
            },
            Value::Int(n) => {
                out.push(105u8);
                let ghost mid = out@;
                if *n < 0 {
                    out.push(45u8);
                    push_decimal((-(*n as i128)) as u64, out);
                } else {
                    push_decimal(*n as u64, out);
                }
                assert(out@ =~= mid + int_text(*n as int));
                out.push(101u8);
                assert(final(out)@ =~= old(out)@ + canonical(self@).encoding());
            },
            Value::List(l) => {
                let ghost ms = self@->List_0;
                assert(ms.len() == l@.len() && forall|k: int| 0 <= k < l@.len() ==> ms[k] == (#[trigger] l@[k]).view());
                out.push(108u8);
                let ghost start = out@;
                let mut i: usize = 0;
                assert(ms.take(0) =~= Seq::<BValue>::empty());
                while i < l.len()
                    invariant
                        i <= l@.len(),
                        ms.len() == l@.len(),
                        *self == Value::List(*l),
                        self@ == BValue::List(ms),
                        forall|k: int| 0 <= k < l@.len() ==> ms[k] == (#[trigger] l@[k]).view(),
                        out@ == start + items_encoding(canonical_items(ms.take(i as int))),
                    decreases l@.len() - i,
                {
                    proof {
                        assert(decreases_to!(*self => (*self)->List_0));
                        vstd::std_specs::vec::axiom_vec_index_decreases(*l, i as int);
                    }
                    l[i].encode_into(out);
                    proof {
                        let c = canonical_items(ms.take(i as int));
                        assert(ms.take(i + 1).subrange(0, i as int) =~= ms.take(i as int));
                        assert(canonical_items(ms.take(i + 1)) == c.push(canonical(ms[i as int])));
                        assert(c.push(canonical(ms[i as int])).subrange(0, c.len() as int) =~= c);
                    }
                    i = i + 1;
                }
                assert(ms.take(l@.len() as int) =~= ms);
                out.push(101u8);
                assert(final(out)@ =~= old(out)@ + canonical(self@).encoding());
            },
            Value::Dict(d) => {
                let ghost ms = self@->Dict_0;
                assert(ms.len() == d@.len());
                assert forall|k: int| 0 <= k < d@.len() implies ms[k].0 == (#[trigger] d@[k]).0@ && ms[k].1 == d@[k].1.view() by {
                    assert(ms[k] == entry_view(d@[k]));
                    assert(entry_view(d@[k]) == (d@[k].0@, d@[k].1.view()));
                }
                // the entries' indices, in ascending key order
                let mut order: Vec<usize> = Vec::new();
                let ghost mut acc: Seq<(Seq<u8>, BValue)> = Seq::empty();
                let mut i: usize = 0;
                assert(ms.take(0) =~= Seq::<(Seq<u8>, BValue)>::empty());
                while i < d.len()
                    invariant
                        i <= d@.len(),
                        ms.len() == d@.len(),
                        forall|k: int| 0 <= k < d@.len() ==> ms[k].0 == (#[trigger] d@[k]).0@ && ms[k].1 == d@[k].1.view(),
                        acc == sort_entries(canonical_entries(ms.take(i as int))),
                        acc.len() == order@.len(),
                        forall|x: int| 0 <= x < order@.len() ==> (#[trigger] order@[x]) < d@.len()
                            && acc[x] == (ms[order@[x] as int].0, canonical(ms[order@[x] as int].1)),
                    decreases d@.len() - i,
                {
                    let k = d[i].0.as_slice();
                    let mut j: usize = 0;
                    assert(acc.skip(0) =~= acc);
                    while j < order.len() && bytes_less(d[order[j]].0.as_slice(), k)
                        invariant
                            i < d@.len(),
                            j <= order@.len(),
                            k@ == ms[i as int].0,
                            acc.len() == order@.len(),
                            ms.len() == d@.len(),
                            forall|k2: int| 0 <= k2 < d@.len() ==> ms[k2].0 == (#[trigger] d@[k2]).0@ && ms[k2].1 == d@[k2].1.view(),
                            forall|x: int| 0 <= x < order@.len() ==> (#[trigger] order@[x]) < d@.len()
                                && acc[x] == (ms[order@[x] as int].0, canonical(ms[order@[x] as int].1)),
                            lower_bound(acc, k@) == j + lower_bound(acc.skip(j as int), k@),
                        decreases order@.len() - j,
                    {
                        assert(acc.skip(j as int).drop_first() =~= acc.skip(j + 1));
                        j = j + 1;
                    }
                    assert(acc.skip(j as int).len() == 0 || !bytes_lt(acc.skip(j as int)[0].0, k@));
                    let ghost e = (ms[i as int].0, canonical(ms[i as int].1));
                    let ghost old_order = order@;
                    proof {
                        let t = ms.take(i + 1);
                        assert(t.subrange(0, i as int) =~= ms.take(i as int));
                        assert(canonical_entries(t) == canonical_entries(ms.take(i as int)).push(e));
                        let ce = canonical_entries(ms.take(i as int));
                        assert(ce.push(e).subrange(0, ce.len() as int) =~= ce);
                        assert(sort_entries(canonical_entries(t)) == insert_sorted(acc, e));
                    }
                    order.insert(j, i);
                    proof {
                        acc = acc.insert(j as int, e);
                        assert forall|x: int| 0 <= x < order@.len() implies (#[trigger] order@[x]) < d@.len()
                            && acc[x] == (ms[order@[x] as int].0, canonical(ms[order@[x] as int].1)) by {
                            if x < j {
                                assert(order@[x] == old_order[x]);
                            } else if x > j {
                                assert(order@[x] == old_order[x - 1]);
                            }
                        }
                    }
                    i = i + 1;
                }
                assert(ms.take(d@.len() as int) =~= ms);
                out.push(100u8);
                let ghost start = out@;
                let mut j: usize = 0;
                assert(acc.take(0) =~= Seq::<(Seq<u8>, BValue)>::empty());
                while j < order.len()
                    invariant
                        j <= order@.len(),
                        *self == Value::Dict(*d),
                        ms.len() == d@.len(),
                        forall|k: int| 0 <= k < d@.len() ==> ms[k].0 == (#[trigger] d@[k]).0@ && ms[k].1 == d@[k].1.view(),
                        acc.len() == order@.len(),
                        forall|x: int| 0 <= x < order@.len() ==> (#[trigger] order@[x]) < d@.len()
                            && acc[x] == (ms[order@[x] as int].0, canonical(ms[order@[x] as int].1)),
                        out@ == start + entries_encoding(acc.take(j as int)),
                    decreases order@.len() - j,
                {
                    let m = order[j];
                    proof {
                        assert(decreases_to!(*self => (*self)->Dict_0));
                        vstd::std_specs::vec::axiom_vec_index_decreases(*d, m as int);
                        assert(decreases_to!(d@[m as int] => d@[m as int].1));
                    }
                    push_bytes_text(d[m].0.as_slice(), out);
                    d[m].1.encode_into(out);
                    assert(acc.take(j + 1).subrange(0, j as int) =~= acc.take(j as int));
                    j = j + 1;
                }
                assert(acc.take(acc.len() as int) =~= acc);
                out.push(101u8);
                assert(final(out)@ =~= old(out)@ + canonical(self@).encoding());
            },
        }
    }

    /// Encodes the value as bencode, every dictionary sorted by key whatever
    /// the order held. Only a repeated key is refused.
    pub fn encode(&self) -> (r: Result<Vec<u8>, Error>)
        ensures
            r is Ok <==> unique_keys(self@),
            r matches Ok(bytes) ==> bytes@ == canonical(self@).encoding(),
    {
        if !self.has_unique_keys() {
            return Err(Error::BencodeEncode(String::from_str("repeated dictionary key")));
        }
        let mut out: Vec<u8> = Vec::new();
        self.encode_into(&mut out);
        assert(out@ =~= canonical(self@).encoding());
        Ok(out)
    }
}

/// Deepest nesting of lists and dictionaries that the decoder accepts.
pub const MAX_DEPTH: usize = 64;

pub open spec fn is_digit(b: u8) -> bool {
    48 <= b <= 57
}

/// End of the run of decimal digits that starts at `pos`.
pub open spec fn digits_end(s: Seq<u8>, pos: int) -> int
    decreases s.len() - pos,
{
    if 0 <= pos < s.len() && is_digit(s[pos]) {
        digits_end(s, pos + 1)
    } else {
        pos
    }
}

/// Value of the decimal digits `s[a..b]`.
pub open spec fn digits_value(s: Seq<u8>, a: int, b: int) -> nat
    decreases b - a,
{
    if b <= a {
        0
    } else {
        digits_value(s, a, b - 1) * 10 + (s[b - 1] - 48) as nat
    }
}

/// A non-empty run of digits without a superfluous leading zero.
pub open spec fn canonical_digits(s: Seq<u8>, a: int, b: int) -> bool {
    a < b && (s[a] == 48 ==> b == a + 1)
}

/// A byte string starting at `pos`: its bytes and the position after it.
pub open spec fn parse_bytes(s: Seq<u8>, pos: int) -> Option<(Seq<u8>, int)> {
    let e = digits_end(s, pos);
    let n = digits_value(s, pos, e);
    if 0 <= pos && canonical_digits(s, pos, e) && e < s.len() && s[e] == 58 && e + 1 + n <= s.len() {
        Some((s.subrange(e + 1, e + 1 + n), e + 1 + n))
    } else {
        None
    }
}

/// An integer whose `i` stands at `pos`: its value and the position after it.
pub open spec fn parse_int(s: Seq<u8>, pos: int) -> Option<(int, int)> {
    let neg = s.len() - pos > 1 && s[pos + 1] == 45;
    let a = if neg { pos + 2 } else { pos + 1 };
    let e = digits_end(s, a);
    let n = digits_value(s, a, e);
    let v = if neg { -n } else { n as int };
    if 0 <= pos && a <= s.len() && canonical_digits(s, a, e) && !(neg && n == 0) && e < s.len() && s[e] == 101
        && i64::MIN <= v <= i64::MAX {
        Some((v, e + 1))
    } else {
        None
    }
}

/// Number of leading entries whose key is below `k`: where `k` goes in a
/// dictionary kept in ascending key order.
pub open spec fn lower_bound(d: Seq<(Seq<u8>, BValue)>, k: Seq<u8>) -> nat
    decreases d.len(),
{
    if d.len() == 0 {
        0
    } else if bytes_lt(d[0].0, k) {
        1 + lower_bound(d.drop_first(), k)
    } else {
        0
    }
}

pub open spec fn has_key(d: Seq<(Seq<u8>, BValue)>, k: Seq<u8>) -> bool {
    exists|i: int| 0 <= i < d.len() && (#[trigger] d[i]).0 == k
}

/// The value starting at `pos`, containers nested at most `depth` deep, and
/// the position after it.
pub open spec fn parse_value(s: Seq<u8>, pos: int, depth: nat) -> Option<(BValue, int)>
    decreases s.len() - pos, 0nat,
{
    if pos < 0 || pos >= s.len() {
        None
    } else if s[pos] == 105 {
        match parse_int(s, pos) {
            Some((v, e)) => Some((BValue::Int(v), e)),
            None => None,
        }
    } else if is_digit(s[pos]) {
        match parse_bytes(s, pos) {
            Some((b, e)) => Some((BValue::Bytes(b), e)),
            None => None,
        }
    } else if s[pos] == 108 && depth > 0 {
        parse_list(s, pos + 1, (depth - 1) as nat, Seq::empty())
    } else if s[pos] == 100 && depth > 0 {
        parse_dict(s, pos + 1, (depth - 1) as nat, Seq::empty())
    } else {
        None
    }
}

/// The rest of a list whose items so far are `acc`, from `pos` on.
pub open spec fn parse_list(s: Seq<u8>, pos: int, depth: nat, acc: Seq<BValue>) -> Option<(BValue, int)>
    decreases s.len() - pos, 1nat,
{
    if pos < 0 || pos >= s.len() {
        None
    } else if s[pos] == 101 {
        Some((BValue::List(acc), pos + 1))
    } else {
        match parse_value(s, pos, depth) {
            Some((v, e)) => if pos < e <= s.len() {
                parse_list(s, e, depth, acc.push(v))
            } else {
                None
            },
            None => None,
        }
    }
}

/// The rest of a dictionary whose entries so far are `acc` (ascending by
/// key, whatever their order in the input), from `pos` on. A repeated key
/// is refused.
pub open spec fn parse_dict(s: Seq<u8>, pos: int, depth: nat, acc: Seq<(Seq<u8>, BValue)>) -> Option<(BValue, int)>
    decreases s.len() - pos, 1nat,
{
    if pos < 0 || pos >= s.len() {
        None
    } else if s[pos] == 101 {
        Some((BValue::Dict(acc), pos + 1))
    } else {
        match parse_bytes(s, pos) {
            Some((k, ke)) => if pos < ke <= s.len() {
                match parse_value(s, ke, depth) {
                    Some((v, e)) => if ke < e <= s.len() && !has_key(acc, k) {
                        parse_dict(s, e, depth, acc.insert(lower_bound(acc, k) as int, (k, v)))
                    } else {
                        None
                    },
                    None => None,
                }
            } else {
                None
            },
            None => None,
        }
    }
}

/// What `data` decodes to: one value, nested at most `MAX_DEPTH` deep,
/// followed by nothing.
pub open spec fn decoded(data: Seq<u8>) -> Option<BValue> {
    match parse_value(data, 0, MAX_DEPTH as nat) {
        Some((v, e)) => if e == data.len() { Some(v) } else { None },
        None => None,
    }
}

/// Scans the run of digits at `a`; gives its end, and its value where that
/// is at most `limit`.
fn scan_digits(s: &[u8], a: usize, limit: u128) -> (r: (usize, Option<u128>))
    requires
        a <= s@.len(),
        limit <= u64::MAX,
    ensures
        r.0 == digits_end(s@, a as int),
        a <= r.0 <= s@.len(),
        match r.1 {
            Some(n) => n == digits_value(s@, a as int, r.0 as int) && n <= limit,
            None => digits_value(s@, a as int, r.0 as int) > limit,
        },
{
    let mut p: usize = a;
    let mut n: u128 = 0;
    let mut over = false;
    while p < s.len() && 48 <= s[p] && s[p] <= 57
        invariant
            a <= p <= s@.len(),
            limit <= u64::MAX,
            digits_end(s@, a as int) == digits_end(s@, p as int),
            !over ==> n == digits_value(s@, a as int, p as int) && n <= limit,
            over ==> digits_value(s@, a as int, p as int) > limit,
        decreases s@.len() - p,
    {
        let d = (s[p] - 48) as u128;
        assert(digits_value(s@, a as int, p + 1) == digits_value(s@, a as int, p as int) * 10 + d);
        if !over {
            let m = n * 10 + d;
            if m > limit {
                over = true;
            } else {
                n = m;
            }
        }
        p = p + 1;
    }
    if over {
        (p, None)
    } else {
        (p, Some(n))
    }
}

/// Decodes the byte string at `pos`.
fn decode_bytes(s: &[u8], pos: usize) -> (r: Result<(Vec<u8>, usize), usize>)
    requires
        pos <= s@.len(),
    ensures
        match r {
            Ok((b, e)) => parse_bytes(s@, pos as int) == Some((b@, e as int)),
            Err(o) => parse_bytes(s@, pos as int) is None && o <= s@.len(),
        },
{
    let (e, n) = scan_digits(s, pos, s.len() as u128);
    if e == pos || (s[pos] == 48 && e > pos + 1) {
        return Err(pos);
    }
    if e >= s.len() || s[e] != 58 {
        return Err(e);
    }
    match n {
        None => Err(e),
        Some(n) => {
            if n > (s.len() - (e + 1)) as u128 {
                return Err(e + 1);
            }
            let n = n as usize;
            let start = e + 1;
            let mut out: Vec<u8> = Vec::new();
            let mut i: usize = 0;
            let len = s.len();
            while i < n
                invariant
                    len == s@.len(),
                    start + n <= s@.len(),
                    i <= n,
                    out@ == s@.subrange(start as int, start + i),
                decreases n - i,
            {
                out.push(s[start + i]);
                i = i + 1;
                assert(out@ =~= s@.subrange(start as int, start + i));
            }
            Ok((out, start + n))
        },
    }
}

/// Decodes the integer whose `i` stands at `pos`.
fn decode_int(s: &[u8], pos: usize) -> (r: Result<(i64, usize), usize>)
    requires
        pos < s@.len(),
    ensures
        match r {
            Ok((v, e)) => parse_int(s@, pos as int) == Some((v as int, e as int)),
            Err(o) => parse_int(s@, pos as int) is None && o <= s@.len(),
        },
{
    let neg = s.len() - pos > 1 && s[pos + 1] == 45;
    let a = if neg { pos + 2 } else { pos + 1 };
    let (e, n) = scan_digits(s, a, 9223372036854775808u128);
    if e == a || (s[a] == 48 && e > a + 1) {
        return Err(a);
    }
    if e >= s.len() || s[e] != 101 {
        return Err(e);
    }
    match n {
        None => Err(a),
        Some(n) => {
            if neg {
                if n == 0 {
                    return Err(a);
                }
                Ok(((-(n as i128)) as i64, e + 1))
            } else {
                if n > 9223372036854775807u128 {
                    return Err(a);
                }
                Ok((n as i64, e + 1))
            }
        },
    }
}

/// Where `k` goes among ascending keys: after the smaller ones, before the
/// larger ones; then `k` is new and inserting it keeps the keys ascending.
proof fn lemma_insert_at(d: Seq<(Seq<u8>, BValue)>, k: Seq<u8>, v: BValue, j: int)
    requires
        keys_ascending(d),
        0 <= j <= d.len(),
        forall|i: int| 0 <= i < j ==> bytes_lt((#[trigger] d[i]).0, k),
        j < d.len() ==> bytes_lt(k, d[j].0),
    ensures
        !has_key(d, k),
        keys_ascending(d.insert(j, (k, v))),
{
    assert forall|i: int| 0 <= i < d.len() implies (#[trigger] d[i]).0 != k by {
        if i < j {
            lemma_bytes_lt_irreflexive(k);
        } else {
            lemma_bytes_lt_irreflexive(k);
            if i > j {
                lemma_bytes_lt_transitive(k, d[j].0, d[i].0);
            }
        }
    }
    let n = d.insert(j, (k, v));
    assert forall|a: int, b: int| 0 <= a < b < n.len() implies bytes_lt(#[trigger] n[a].0, #[trigger] n[b].0) by {
        if a < j && b == j {
        } else if a < j && b > j {
            if b - 1 > j {
                lemma_bytes_lt_transitive(k, d[j].0, d[b - 1].0);
            }
            lemma_bytes_lt_transitive(d[a].0, k, d[b - 1].0);
        } else if a == j && b > j {
            if b - 1 > j {
                lemma_bytes_lt_transitive(k, d[j].0, d[b - 1].0);
            }
        } else if a > j {
            assert(bytes_lt(d[a - 1].0, d[b - 1].0));
        } else {
            assert(bytes_lt(d[a].0, d[b].0) || b == j);
        }
    }
}

/// Decodes the value at `pos`, containers nested at most `depth` deep.
#[verifier::rlimit(40)]
fn decode_value(s: &[u8], pos: usize, depth: usize) -> (r: Result<(Value, usize), usize>)
    requires
        pos <= s@.len(),
    ensures
        match r {
            Ok((v, e)) => parse_value(s@, pos as int, depth as nat) == Some((v@, e as int))
                && pos < e <= s@.len() && v@.wf() && v@.depth() <= depth,
            Err(o) => parse_value(s@, pos as int, depth as nat) is None && o <= s@.len(),
        },
    decreases s@.len() - pos,
{
    if pos >= s.len() {
        return Err(pos);
    }
    let c = s[pos];
    if c == 105 {
        match decode_int(s, pos) {
            Ok((v, e)) => Ok((Value::Int(v), e)),
            Err(o) => Err(o),
        }
    } else if 48 <= c && c <= 57 {
        match decode_bytes(s, pos) {
            Ok((b, e)) => Ok((Value::Bytes(b), e)),
            Err(o) => Err(o),
        }
    } else if c == 108 && depth > 0 {
        let mut items: Vec<Value> = Vec::new();
        let ghost acc: Seq<BValue> = Seq::empty();
        let mut p: usize = pos + 1;
        loop
            invariant
                pos < p <= s@.len(),
                depth > 0,
                parse_value(s@, pos as int, depth as nat) == parse_list(s@, p as int, (depth - 1) as nat, acc),
                acc.len() == items@.len(),
                forall|i: int| 0 <= i < acc.len() ==> acc[i] == (#[trigger] items@[i])@ && acc[i].wf() && acc[i].depth() < depth,
            decreases s@.len() - p,
        {
            if p >= s.len() {
                return Err(p);
            }
            if s[p] == 101 {
                let ghost m = Value::List(items)@;
                proof {
                    assert(m->List_0 =~= acc);
                    lemma_wf_unfold(m);
                    lemma_items_depth_le(acc, (depth - 1) as nat);
                }
                return Ok((Value::List(items), p + 1));
            }
            match decode_value(s, p, depth - 1) {
                Err(o) => {
                    return Err(o);
                },
                Ok((v, e)) => {
                    let ghost old_items = items@;
                    proof {
                        acc = acc.push(v@);
                    }
                    items.push(v);
                    assert forall|i: int| 0 <= i < acc.len() implies acc[i] == (#[trigger] items@[i])@ && acc[i].wf() && acc[i].depth() < depth by {
                        if i < old_items.len() {
                            assert(items@[i] == old_items[i]);
                        }
                    }
                    p = e;
                },
            }
        }
    } else if c == 100 && depth > 0 {
        let mut entries: Vec<(Vec<u8>, Value)> = Vec::new();
        let ghost acc: Seq<(Seq<u8>, BValue)> = Seq::empty();
        let mut p: usize = pos + 1;
        loop
            invariant
                pos < p <= s@.len(),
                depth > 0,
                parse_value(s@, pos as int, depth as nat) == parse_dict(s@, p as int, (depth - 1) as nat, acc),
                acc.len() == entries@.len(),
                forall|i: int| 0 <= i < acc.len() ==> acc[i] == entry_view(#[trigger] entries@[i]) && acc[i].1.wf() && acc[i].1.depth() < depth,
                keys_ascending(acc),
            decreases s@.len() - p,
        {
            if p >= s.len() {
                return Err(p);
            }
            if s[p] == 101 {
                let ghost m = Value::Dict(entries)@;
                proof {
                    assert(m->Dict_0 =~= acc);
                    lemma_wf_unfold(m);
                    lemma_entries_depth_le(acc, (depth - 1) as nat);
                }
                return Ok((Value::Dict(entries), p + 1));
            }
            let (k, ke) = match decode_bytes(s, p) {
                Err(o) => {
                    return Err(o);
                },
                Ok(x) => x,
            };
            let (v, e) = match decode_value(s, ke, depth - 1) {
                Err(o) => {
                    return Err(o);
                },
                Ok(x) => x,
            };
            let mut j: usize = 0;
            assert(acc.skip(0) =~= acc);
            while j < entries.len() && bytes_less(entries[j].0.as_slice(), k.as_slice())
                invariant
                    j <= entries@.len(),
                    acc.len() == entries@.len(),
                    forall|i: int| 0 <= i < acc.len() ==> acc[i] == entry_view(#[trigger] entries@[i]),
                    forall|i: int| 0 <= i < j ==> bytes_lt((#[trigger] acc[i]).0, k@),
                    lower_bound(acc, k@) == j + lower_bound(acc.skip(j as int), k@),
                decreases entries@.len() - j,
            {
                assert(acc.skip(j as int).drop_first() =~= acc.skip(j + 1));
                j = j + 1;
            }
            assert(acc.skip(j as int).len() == 0 || !bytes_lt(acc.skip(j as int)[0].0, k@));
            if j < entries.len() && !bytes_less(k.as_slice(), entries[j].0.as_slice()) {
                proof {
                    lemma_bytes_lt_total(k@, acc[j as int].0);
                    assert(has_key(acc, k@));
                }
                return Err(p);
            }
            proof {
                lemma_insert_at(acc, k@, v@, j as int);
            }
            let ghost old_entries = entries@;
            let ghost kv = k@;
            let ghost vv = v@;
            entries.insert(j, (k, v));
            proof {
                acc = acc.insert(j as int, (kv, vv));
                assert forall|i: int| 0 <= i < acc.len() implies acc[i] == entry_view(#[trigger] entries@[i]) && acc[i].1.wf() && acc[i].1.depth() < depth by {
                    if i > j {
                        assert(entries@[i] == old_entries[i - 1]);
                    } else if i < j {
                        assert(entries@[i] == old_entries[i]);
                    } else {
                        assert(entries@[i].0@ == kv && entries@[i].1@ == vv);
                        assert(entry_view(entries@[i]) == (entries@[i].0@, entries@[i].1@));
                    }
                }
            }
            p = e;
        }
    } else {
        Err(pos)
    }
}

impl Value {
    /// Decodes one bencode value that makes up the whole of `data`.
    /// Dictionary keys may come in any order and are kept sorted; a repeated
    /// key, nesting deeper than `MAX_DEPTH` or trailing bytes are refused;
    /// the error gives the offset in `data` where decoding stopped.
    pub fn decode(data: &[u8]) -> (r: Result<Value, Error>)
        ensures
            r is Ok <==> decoded(data@) is Some,
            r matches Ok(v) ==> decoded(data@) == Some(v@) && v@.wf() && v@.depth() <= MAX_DEPTH,
            r matches Err(e) ==> e is BencodeDecode,
            r matches Err(Error::BencodeDecode(offset)) ==> offset <= data@.len(),
    {
        match decode_value(data, 0, MAX_DEPTH) {
            Ok((v, e)) => {
                if e == data.len() {
                    Ok(v)
                } else {
                    Err(Error::BencodeDecode(e))
                }
            },
            Err(o) => Err(Error::BencodeDecode(o)),
        }
    }
}

proof fn lemma_items_depth_ge(l: Seq<BValue>, i: int)
    requires
        0 <= i < l.len(),
    ensures
        l[i].depth() <= items_depth(l),
    decreases l.len(),
{
    if i < l.len() - 1 {
        let init = l.subrange(0, l.len() - 1);
        lemma_items_depth_ge(init, i);
        assert(init[i] == l[i]);
    }
}

proof fn lemma_entries_depth_ge(d: Seq<(Seq<u8>, BValue)>, i: int)
    requires
        0 <= i < d.len(),
    ensures
        d[i].1.depth() <= entries_depth(d),
    decreases d.len(),
{
    if i < d.len() - 1 {
        let init = d.subrange(0, d.len() - 1);
        lemma_entries_depth_ge(init, i);
        assert(init[i] == d[i]);
    }
}

proof fn lemma_items_depth_le(l: Seq<BValue>, b: nat)
    requires
        forall|i: int| 0 <= i < l.len() ==> (#[trigger] l[i]).depth() <= b,
    ensures
        items_depth(l) <= b,
    decreases l.len(),
{
    if l.len() > 0 {
        let init = l.subrange(0, l.len() - 1);
        assert forall|i: int| 0 <= i < init.len() implies (#[trigger] init[i]).depth() <= b by {
            assert(init[i] == l[i]);
        }
        lemma_items_depth_le(init, b);
    }
}

proof fn lemma_entries_depth_le(d: Seq<(Seq<u8>, BValue)>, b: nat)
    requires
        forall|i: int| 0 <= i < d.len() ==> (#[trigger] d[i]).1.depth() <= b,
    ensures
        entries_depth(d) <= b,
    decreases d.len(),
{
    if d.len() > 0 {
        let init = d.subrange(0, d.len() - 1);
        assert forall|i: int| 0 <= i < init.len() implies (#[trigger] init[i]).1.depth() <= b by {
            assert(init[i] == d[i]);
        }
        lemma_entries_depth_le(init, b);
    }
}

/// Children sit strictly shallower than their container.
proof fn lemma_child_depth(v: BValue)
    ensures
        v matches BValue::List(l) ==> forall|i: int| 0 <= i < l.len() ==> (#[trigger] l[i]).depth() < v.depth(),
        v matches BValue::Dict(d) ==> forall|i: int| 0 <= i < d.len() ==> (#[trigger] d[i]).1.depth() < v.depth(),
{
    match v {
        BValue::List(l) => {
            assert forall|i: int| 0 <= i < l.len() implies (#[trigger] l[i]).depth() < v.depth() by {
                lemma_items_depth_ge(l, i);
            }
        },
        BValue::Dict(d) => {
            assert forall|i: int| 0 <= i < d.len() implies (#[trigger] d[i]).1.depth() < v.depth() by {
                lemma_entries_depth_ge(d, i);
            }
        },
        _ => {},
    }
}

/// Decimal text is made of digits, and has no leading zero but for zero.
proof fn lemma_decimal_digits(n: nat)
    ensures
        decimal(n).len() >= 1,
        forall|i: int| 0 <= i < decimal(n).len() ==> is_digit(#[trigger] decimal(n)[i]),
        decimal(n).len() > 1 ==> decimal(n)[0] != 48,
        decimal(n)[0] == 48 ==> n == 0,
    decreases n,
{
    if n >= 10 {
        lemma_decimal_digits(n / 10);
    }
}

proof fn lemma_digits_end_run(s: Seq<u8>, a: int, e: int)
    requires
        0 <= a <= e,
        forall|k: int| a <= k < e ==> k < s.len() && is_digit(#[trigger] s[k]),
        e < s.len() && !is_digit(s[e]),
    ensures
        digits_end(s, a) == e,
    decreases e - a,
{
    if a < e {
        lemma_digits_end_run(s, a + 1, e);
    }
}

proof fn lemma_digits_value(s: Seq<u8>, a: int, n: nat)
    requires
        0 <= a,
        a + decimal(n).len() <= s.len(),
        s.subrange(a, a + decimal(n).len()) == decimal(n),
    ensures
        digits_value(s, a, a + decimal(n).len()) == n,
    decreases n,
{
    let len = decimal(n).len() as int;
    if n >= 10 {
        let m = decimal(n / 10);
        assert(s.subrange(a, a + m.len()) =~= s.subrange(a, a + len).subrange(0, m.len() as int));
        assert(decimal(n).subrange(0, m.len() as int) =~= m);
        lemma_digits_value(s, a, n / 10);
        assert(s[a + len - 1] == s.subrange(a, a + len)[len - 1]);
        assert(decimal(n)[len - 1] == (48 + n % 10) as u8);
        assert(m.len() == len - 1);
        assert(digits_value(s, a, a + len) == digits_value(s, a, a + len - 1) * 10 + (s[a + len - 1] - 48) as nat);
        assert((n / 10) * 10 + n % 10 == n);
        assert((s[a + len - 1] - 48) as nat == n % 10);
        assert(digits_value(s, a, a + len - 1) == n / 10);
    } else {
        assert(s[a] == s.subrange(a, a + len)[0]);
        assert(len == 1);
        assert(s[a] == (48 + n) as u8);
        assert(digits_value(s, a, a + 1) == digits_value(s, a, a) * 10 + (s[a] - 48) as nat);
    }
}

/// A decimal followed by a non-digit reads back as its value.
proof fn lemma_parse_decimal(s: Seq<u8>, a: int, n: nat)
    requires
        0 <= a,
        a + decimal(n).len() < s.len(),
        s.subrange(a, a + decimal(n).len()) == decimal(n),
        !is_digit(s[a + decimal(n).len()]),
    ensures
        digits_end(s, a) == a + decimal(n).len(),
        digits_value(s, a, a + decimal(n).len()) == n,
        canonical_digits(s, a, a + decimal(n).len()),
        s[a] == 48 ==> n == 0,
{
    let len = decimal(n).len() as int;
    lemma_decimal_digits(n);
    assert forall|k: int| a <= k < a + len implies k < s.len() && is_digit(#[trigger] s[k]) by {
        assert(s[k] == s.subrange(a, a + len)[k - a]);
    }
    lemma_digits_end_run(s, a, a + len);
    lemma_digits_value(s, a, n);
    assert(s[a] == decimal(n)[0]);
}

proof fn lemma_parse_bytes_text(s: Seq<u8>, pos: int, b: Seq<u8>)
    requires
        0 <= pos,
        pos + bytes_text(b).len() <= s.len(),
        s.subrange(pos, pos + bytes_text(b).len()) == bytes_text(b),
    ensures
        parse_bytes(s, pos) == Some((b, pos + bytes_text(b).len())),
        is_digit(s[pos]),
{
    let dl = decimal(b.len()).len() as int;
    let t = bytes_text(b);
    assert(s.subrange(pos, pos + dl) =~= t.subrange(0, dl as int));
    assert(t.subrange(0, dl as int) =~= decimal(b.len()));
    assert(s[pos + dl] == t[dl as int]);
    lemma_parse_decimal(s, pos, b.len());
    assert(s.subrange(pos + dl + 1, pos + dl + 1 + b.len()) =~= t.subrange(dl + 1, t.len() as int));
    assert(t.subrange(dl + 1, t.len() as int) =~= b);
    lemma_decimal_digits(b.len());
    assert(s[pos] == t[0]);
}

proof fn lemma_parse_int_text(s: Seq<u8>, pos: int, i: int)
    requires
        0 <= pos,
        i64::MIN <= i <= i64::MAX,
        pos + int_text(i).len() + 2 <= s.len(),
        s.subrange(pos, pos + int_text(i).len() + 2) == seq![105u8] + int_text(i) + seq![101u8],
    ensures
        parse_int(s, pos) == Some((i, pos + int_text(i).len() + 2)),
{
    let t = seq![105u8] + int_text(i) + seq![101u8];
    let tl = int_text(i).len() as int;
    assert(s[pos + tl + 1] == t[tl + 1]);
    if i < 0 {
        let n = (-i) as nat;
        let dl = decimal(n).len() as int;
        assert(s[pos + 1] == t[1]);
        assert(s.subrange(pos + 2, pos + 2 + dl) =~= t.subrange(2, 2 + dl));
        assert(t.subrange(2, 2 + dl) =~= decimal(n));
        lemma_parse_decimal(s, pos + 2, n);
    } else {
        let n = i as nat;
        let dl = decimal(n).len() as int;
        lemma_decimal_digits(n);
        assert(s[pos + 1] == t[1]);
        assert(s.subrange(pos + 1, pos + 1 + dl) =~= t.subrange(1, 1 + dl));
        assert(t.subrange(1, 1 + dl) =~= decimal(n));
        lemma_parse_decimal(s, pos + 1, n);
    }
}

/// Encodings never start with the list terminator `e`.
proof fn lemma_encoding_start(v: BValue)
    ensures
        v.encoding().len() >= 1,
        v.encoding()[0] != 101,
        v.encoding()[0] == 100 ==> v is Dict,
        v.encoding()[0] == 108 ==> v is List,
        v.encoding()[0] == 105 ==> v is Int,
        is_digit(v.encoding()[0]) ==> v is Bytes,
{
    match v {
        BValue::Bytes(b) => {
            lemma_decimal_digits(b.len());
            assert(v.encoding()[0] == decimal(b.len())[0]);
        },
        _ => {},
    }
}

proof fn lemma_items_front(l: Seq<BValue>)
    requires
        l.len() > 0,
    ensures
        items_encoding(l) == l[0].encoding() + items_encoding(l.drop_first()),
    decreases l.len(),
{
    if l.len() == 1 {
        assert(l.subrange(0, 0) =~= Seq::<BValue>::empty());
        assert(items_encoding(l.subrange(0, 0)) =~= Seq::empty());
        assert(items_encoding(l.drop_first()) =~= Seq::empty());
        assert(l.drop_first() =~= Seq::<BValue>::empty());
        assert(items_encoding(l) =~= l[0].encoding());
    } else {
        let init = l.subrange(0, l.len() - 1);
        lemma_items_front(init);
        assert(init.drop_first() =~= l.drop_first().subrange(0, l.len() - 2));
        assert(items_encoding(l) =~= l[0].encoding() + items_encoding(l.drop_first()));
    }
}

proof fn lemma_entries_front(d: Seq<(Seq<u8>, BValue)>)
    requires
        d.len() > 0,
    ensures
        entries_encoding(d) == bytes_text(d[0].0) + d[0].1.encoding() + entries_encoding(d.drop_first()),
    decreases d.len(),
{
    if d.len() == 1 {
        assert(d.subrange(0, 0) =~= Seq::<(Seq<u8>, BValue)>::empty());
        assert(entries_encoding(d.subrange(0, 0)) =~= Seq::empty());
        assert(entries_encoding(d.drop_first()) =~= Seq::empty());
        assert(d.drop_first() =~= Seq::<(Seq<u8>, BValue)>::empty());
        assert(entries_encoding(d) =~= bytes_text(d[0].0) + d[0].1.encoding());
    } else {
        let init = d.subrange(0, d.len() - 1);
        lemma_entries_front(init);
        assert(init.drop_first() =~= d.drop_first().subrange(0, d.len() - 2));
        assert(entries_encoding(d) =~= bytes_text(d[0].0) + d[0].1.encoding() + entries_encoding(d.drop_first()));
    }
}

proof fn lemma_lower_bound_all_less(d: Seq<(Seq<u8>, BValue)>, k: Seq<u8>)
    requires
        forall|i: int| 0 <= i < d.len() ==> bytes_lt((#[trigger] d[i]).0, k),
    ensures
        lower_bound(d, k) == d.len(),
    decreases d.len(),
{
    if d.len() > 0 {
        let t = d.drop_first();
        assert forall|i: int| 0 <= i < t.len() implies bytes_lt((#[trigger] t[i]).0, k) by {
            assert(t[i] == d[i + 1]);
        }
        lemma_bytes_lt_irreflexive(k);
        lemma_lower_bound_all_less(t, k);
    }
}

/// A value's encoding, wherever it stands in `s`, parses back to the value.
proof fn lemma_parse_value_encoding(s: Seq<u8>, pos: int, depth: nat, v: BValue)
    requires
        v.wf(),
        v.depth() <= depth,
        0 <= pos,
        pos + v.encoding().len() <= s.len(),
        s.subrange(pos, pos + v.encoding().len()) == v.encoding(),
    ensures
        parse_value(s, pos, depth) == Some((v, pos + v.encoding().len())),
    decreases v, 0nat,
{
    let enc = v.encoding();
    lemma_encoding_start(v);
    assert(s[pos] == enc[0]);
    lemma_wf_unfold(v);
    lemma_child_depth(v);
    match v {
        BValue::Bytes(b) => {
            lemma_parse_bytes_text(s, pos, b);
        },
        BValue::Int(i) => {
            lemma_parse_int_text(s, pos, i);
        },
        BValue::List(l) => {
            let inner = items_encoding(l);
            assert(s.subrange(pos + 1, pos + 1 + inner.len() as int + 1) =~= enc.subrange(1, enc.len() as int));
            assert(enc.subrange(1, enc.len() as int) =~= inner + seq![101u8]);
            assert(decreases_to!(v => v->List_0));
            lemma_parse_items(s, pos + 1, (depth - 1) as nat, Seq::empty(), l);
            assert(Seq::<BValue>::empty() + l =~= l);
        },
        BValue::Dict(d) => {
            let inner = entries_encoding(d);
            assert(s.subrange(pos + 1, pos + 1 + inner.len() as int + 1) =~= enc.subrange(1, enc.len() as int));
            assert(enc.subrange(1, enc.len() as int) =~= inner + seq![101u8]);
            assert(decreases_to!(v => v->Dict_0));
            assert(Seq::<(Seq<u8>, BValue)>::empty() + d =~= d);
            lemma_parse_entries(s, pos + 1, (depth - 1) as nat, Seq::empty(), d);
        },
    }
}

proof fn lemma_parse_items(s: Seq<u8>, pos: int, depth: nat, acc: Seq<BValue>, items: Seq<BValue>)
    requires
        forall|i: int| 0 <= i < items.len() ==> (#[trigger] items[i]).wf() && items[i].depth() <= depth,
        0 <= pos,
        pos + items_encoding(items).len() + 1 <= s.len(),
        s.subrange(pos, pos + items_encoding(items).len() + 1) == items_encoding(items) + seq![101u8],
    ensures
        parse_list(s, pos, depth, acc) == Some((BValue::List(acc + items), pos + items_encoding(items).len() + 1)),
    decreases items, 1nat,
{
    let inner = items_encoding(items);
    if items.len() == 0 {
        assert(s[pos] == (inner + seq![101u8])[0]);
        assert(acc + items =~= acc);
    } else {
        lemma_items_front(items);
        let first = items[0];
        let rest = items.drop_first();
        let fl = first.encoding().len() as int;
        lemma_encoding_start(first);
        assert(s[pos] == (inner + seq![101u8])[0]);
        assert(s.subrange(pos, pos + fl) =~= (inner + seq![101u8]).subrange(0, fl as int));
        assert((inner + seq![101u8]).subrange(0, fl as int) =~= first.encoding());
        assert(decreases_to!(items => items[0]));
        lemma_parse_value_encoding(s, pos, depth, first);
        assert(s.subrange(pos + fl, pos + fl + items_encoding(rest).len() + 1) =~= (inner + seq![101u8]).subrange(fl as int, inner.len() as int + 1));
        assert((inner + seq![101u8]).subrange(fl as int, inner.len() as int + 1) =~= items_encoding(rest) + seq![101u8]);
        assert forall|i: int| 0 <= i < rest.len() implies (#[trigger] rest[i]).wf() && rest[i].depth() <= depth by {
            assert(rest[i] == items[i + 1]);
        }
        lemma_parse_items(s, pos + fl, depth, acc.push(first), rest);
        assert(acc.push(first) + rest =~= acc + items);
    }
}

proof fn lemma_parse_entries(s: Seq<u8>, pos: int, depth: nat, acc: Seq<(Seq<u8>, BValue)>, entries: Seq<(Seq<u8>, BValue)>)
    requires
        keys_ascending(acc + entries),
        forall|i: int| 0 <= i < entries.len() ==> (#[trigger] entries[i]).1.wf() && entries[i].1.depth() <= depth,
        0 <= pos,
        pos + entries_encoding(entries).len() + 1 <= s.len(),
        s.subrange(pos, pos + entries_encoding(entries).len() + 1) == entries_encoding(entries) + seq![101u8],
    ensures
        parse_dict(s, pos, depth, acc) == Some((BValue::Dict(acc + entries), pos + entries_encoding(entries).len() + 1)),
    decreases entries, 1nat,
{
    let inner = entries_encoding(entries);
    let t = inner + seq![101u8];
    if entries.len() == 0 {
        assert(s[pos] == t[0]);
        assert(acc + entries =~= acc);
    } else {
        lemma_entries_front(entries);
        let k = entries[0].0;
        let x = entries[0].1;
        let rest = entries.drop_first();
        let kl = bytes_text(k).len() as int;
        let xl = x.encoding().len() as int;
        assert(s.subrange(pos, pos + kl) =~= t.subrange(0, kl as int));
        assert(t.subrange(0, kl as int) =~= bytes_text(k));
        lemma_parse_bytes_text(s, pos, k);
        assert(s.subrange(pos + kl, pos + kl + xl) =~= t.subrange(kl as int, kl + xl));
        assert(t.subrange(kl as int, kl + xl) =~= x.encoding());
        assert(decreases_to!(entries => entries[0]));
        assert(decreases_to!(entries[0] => entries[0].1));
        lemma_parse_value_encoding(s, pos + kl, depth, x);
        lemma_encoding_start(x);
        let all = acc + entries;
        assert forall|i: int| 0 <= i < acc.len() implies bytes_lt((#[trigger] acc[i]).0, k) by {
            assert(all[i] == acc[i]);
            assert(all[acc.len() as int] == entries[0]);
        }
        assert forall|i: int| 0 <= i < acc.len() implies (#[trigger] acc[i]).0 != k by {
            lemma_bytes_lt_irreflexive(k);
        }
        lemma_lower_bound_all_less(acc, k);
        assert(acc.insert(acc.len() as int, (k, x)) =~= acc.push((k, x)));
        assert(s.subrange(pos + kl + xl, pos + kl + xl + entries_encoding(rest).len() + 1) =~= t.subrange(kl + xl, t.len() as int));
        assert(t.subrange(kl + xl, t.len() as int) =~= entries_encoding(rest) + seq![101u8]);
        assert forall|i: int| 0 <= i < rest.len() implies (#[trigger] rest[i]).1.wf() && rest[i].1.depth() <= depth by {
            assert(rest[i] == entries[i + 1]);
        }
        assert(acc.push((k, x)) + rest =~= acc + entries);
        lemma_parse_entries(s, pos + kl + xl, depth, acc.push((k, x)), rest);
    }
}

/// Round trip: a well-formed value nested at most `MAX_DEPTH` deep decodes
/// from its encoding to itself, so encoding, decoding and encoding again
/// gives back the first encoding.
pub proof fn lemma_round_trip(v: BValue)
    requires
        v.wf(),
        v.depth() <= MAX_DEPTH,
    ensures
        decoded(v.encoding()) == Some(v),
        decoded(v.encoding())->Some_0.encoding() == v.encoding(),
{
    let e = v.encoding();
    assert(e.subrange(0, e.len() as int) =~= e);
    lemma_parse_value_encoding(e, 0, MAX_DEPTH as nat, v);
}

/// Where `lower_bound` stops: smaller keys before it, none after it at once.
proof fn lemma_lower_bound_props(d: Seq<(Seq<u8>, BValue)>, k: Seq<u8>)
    ensures
        lower_bound(d, k) <= d.len(),
        forall|x: int| 0 <= x < lower_bound(d, k) ==> bytes_lt((#[trigger] d[x]).0, k),
        lower_bound(d, k) < d.len() ==> !bytes_lt(d[lower_bound(d, k) as int].0, k),
    decreases d.len(),
{
    if d.len() > 0 && bytes_lt(d[0].0, k) {
        let t = d.drop_first();
        lemma_lower_bound_props(t, k);
        assert forall|x: int| 0 <= x < lower_bound(d, k) implies bytes_lt((#[trigger] d[x]).0, k) by {
            if x > 0 {
                assert(d[x] == t[x - 1]);
            }
        }
        if lower_bound(d, k) < d.len() {
            assert(d[lower_bound(d, k) as int] == t[lower_bound(t, k) as int]);
        }
    }
}

/// Sorting distinct keys gives ascending keys, the same keys, and values
/// drawn from the input.
proof fn lemma_sort_entries(s: Seq<(Seq<u8>, BValue)>)
    requires
        forall|a: int, b: int| 0 <= a < b < s.len() ==> (#[trigger] s[a]).0 != (#[trigger] s[b]).0,
        forall|i: int| 0 <= i < s.len() ==> (#[trigger] s[i]).1.wf(),
    ensures
        keys_ascending(sort_entries(s)),
        forall|i: int| 0 <= i < sort_entries(s).len() ==> (#[trigger] sort_entries(s)[i]).1.wf(),
        forall|k: Seq<u8>| #[trigger] has_key(sort_entries(s), k) <==> has_key(s, k),
    decreases s.len(),
{
    if s.len() == 0 {
        assert forall|k: Seq<u8>| #[trigger] has_key(sort_entries(s), k) <==> has_key(s, k) by {}
    } else {
        let init = s.subrange(0, s.len() - 1);
        let e = s[s.len() - 1];
        assert forall|a: int, b: int| 0 <= a < b < init.len() implies (#[trigger] init[a]).0 != (#[trigger] init[b]).0 by {
            assert(init[a] == s[a] && init[b] == s[b]);
        }
        assert forall|i: int| 0 <= i < init.len() implies (#[trigger] init[i]).1.wf() by {
            assert(init[i] == s[i]);
        }
        lemma_sort_entries(init);
        let acc = sort_entries(init);
        let k = e.0;
        assert(!has_key(init, k)) by {
            if has_key(init, k) {
                let m = choose|m: int| 0 <= m < init.len() && (#[trigger] init[m]).0 == k;
                assert(s[m].0 == s[s.len() - 1].0);
            }
        }
        assert(!has_key(acc, k));
        lemma_lower_bound_props(acc, k);
        let j = lower_bound(acc, k) as int;
        if j < acc.len() {
            lemma_bytes_lt_total(k, acc[j].0);
            assert(acc[j].0 != k);
        }
        lemma_insert_at(acc, k, e.1, j);
        assert(e == (k, e.1));
        let r = acc.insert(j, e);
        assert(sort_entries(s) == r);
        assert forall|i: int| 0 <= i < r.len() implies (#[trigger] r[i]).1.wf() by {
            if i < j {
                assert(r[i] == acc[i]);
            } else if i > j {
                assert(r[i] == acc[i - 1]);
            }
        }
        assert forall|key: Seq<u8>| #[trigger] has_key(r, key) <==> has_key(s, key) by {
            if has_key(r, key) {
                let m = choose|m: int| 0 <= m < r.len() && (#[trigger] r[m]).0 == key;
                if m == j {
                    assert(s[s.len() - 1].0 == key);
                } else {
                    let m2 = if m < j { m } else { m - 1 };
                    assert(acc[m2].0 == key);
                    assert(has_key(acc, key));
                    assert(has_key(init, key));
                    let q = choose|q: int| 0 <= q < init.len() && (#[trigger] init[q]).0 == key;
                    assert(s[q].0 == key);
                }
            }
            if has_key(s, key) {
                let m = choose|m: int| 0 <= m < s.len() && (#[trigger] s[m]).0 == key;
                if m == s.len() - 1 {
                    assert(r[j].0 == key);
                } else {
                    assert(init[m].0 == key);
                    assert(has_key(init, key));
                    assert(has_key(acc, key));
                    let q = choose|q: int| 0 <= q < acc.len() && (#[trigger] acc[q]).0 == key;
                    if q < j {
                        assert(r[q].0 == key);
                    } else {
                        assert(r[q + 1].0 == key);
                    }
                }
            }
        }
    }
}

/// Sorting entries whose keys already ascend changes nothing.
proof fn lemma_sort_sorted(d: Seq<(Seq<u8>, BValue)>)
    requires
        keys_ascending(d),
    ensures
        sort_entries(d) == d,
    decreases d.len(),
{
    if d.len() > 0 {
        let init = d.subrange(0, d.len() - 1);
        assert forall|a: int, b: int| 0 <= a < b < init.len() implies bytes_lt(#[trigger] init[a].0, #[trigger] init[b].0) by {
            assert(init[a] == d[a] && init[b] == d[b]);
        }
        lemma_sort_sorted(init);
        let k = d[d.len() - 1].0;
        assert forall|i: int| 0 <= i < init.len() implies bytes_lt((#[trigger] init[i]).0, k) by {
            assert(init[i] == d[i]);
        }
        lemma_lower_bound_all_less(init, k);
        assert(init.insert(init.len() as int, d[d.len() - 1]) =~= d);
    }
}

/// A well-formed value is its own canonical form.
pub proof fn lemma_canonical_of_wf(w: BValue)
    requires
        w.wf(),
    ensures
        canonical(w) == w,
    decreases w, 1nat,
{
    lemma_wf_unfold(w);
    match w {
        BValue::List(l) => {
            assert(decreases_to!(w => w->List_0));
            lemma_canonical_items_id(l);
        },
        BValue::Dict(d) => {
            assert(decreases_to!(w => w->Dict_0));
            lemma_canonical_entries_id(d);
            lemma_sort_sorted(d);
        },
        _ => {},
    }
}

proof fn lemma_canonical_items_id(l: Seq<BValue>)
    requires
        forall|i: int| 0 <= i < l.len() ==> (#[trigger] l[i]).wf(),
    ensures
        canonical_items(l) == l,
    decreases l, 0nat,
{
    if l.len() > 0 {
        let init = l.subrange(0, l.len() - 1);
        assert forall|i: int| 0 <= i < init.len() implies (#[trigger] init[i]).wf() by {
            assert(init[i] == l[i]);
        }
        lemma_canonical_items_id(init);
        assert(decreases_to!(l => l[l.len() - 1]));
        lemma_canonical_of_wf(l[l.len() - 1]);
        assert(init.push(l[l.len() - 1]) =~= l);
    }
}

proof fn lemma_canonical_entries_id(d: Seq<(Seq<u8>, BValue)>)
    requires
        forall|i: int| 0 <= i < d.len() ==> (#[trigger] d[i]).1.wf(),
    ensures
        canonical_entries(d) == d,
    decreases d, 0nat,
{
    if d.len() > 0 {
        let init = d.subrange(0, d.len() - 1);
        assert forall|i: int| 0 <= i < init.len() implies (#[trigger] init[i]).1.wf() by {
            assert(init[i] == d[i]);
        }
        lemma_canonical_entries_id(init);
        assert(decreases_to!(d => d[d.len() - 1]));
        assert(decreases_to!(d[d.len() - 1] => d[d.len() - 1].1));
        lemma_canonical_of_wf(d[d.len() - 1].1);
        assert(init.push((d[d.len() - 1].0, d[d.len() - 1].1)) =~= d);
    }
}

/// The canonical form of a value with distinct keys is well formed.
pub proof fn lemma_canonical_wf(v: BValue)
    requires
        unique_keys(v),
    ensures
        canonical(v).wf(),
    decreases v, 1nat,
{
    lemma_unique_unfold(v);
    lemma_wf_unfold(canonical(v));
    match v {
        BValue::List(l) => {
            assert(decreases_to!(v => v->List_0));
            lemma_canonical_items_wf(l);
        },
        BValue::Dict(d) => {
            assert(decreases_to!(v => v->Dict_0));
            lemma_canonical_entries_wf(d);
            let ce = canonical_entries(d);
            assert forall|a: int, b: int| 0 <= a < b < ce.len() implies (#[trigger] ce[a]).0 != (#[trigger] ce[b]).0 by {
                assert(d[a].0 != d[b].0);
            }
            lemma_sort_entries(ce);
        },
        _ => {},
    }
}

proof fn lemma_canonical_items_wf(l: Seq<BValue>)
    requires
        forall|i: int| 0 <= i < l.len() ==> unique_keys(#[trigger] l[i]),
    ensures
        canonical_items(l).len() == l.len(),
        forall|i: int| 0 <= i < l.len() ==> (#[trigger] canonical_items(l)[i]).wf(),
    decreases l, 0nat,
{
    if l.len() > 0 {
        let init = l.subrange(0, l.len() - 1);
        assert forall|i: int| 0 <= i < init.len() implies unique_keys(#[trigger] init[i]) by {
            assert(init[i] == l[i]);
        }
        lemma_canonical_items_wf(init);
        assert(decreases_to!(l => l[l.len() - 1]));
        lemma_canonical_wf(l[l.len() - 1]);
        let c = canonical_items(l);
        assert forall|i: int| 0 <= i < l.len() implies (#[trigger] c[i]).wf() by {
            if i < l.len() - 1 {
                assert(c[i] == canonical_items(init)[i]);
            }
        }
    }
}

proof fn lemma_canonical_entries_wf(d: Seq<(Seq<u8>, BValue)>)
    requires
        forall|i: int| 0 <= i < d.len() ==> unique_keys((#[trigger] d[i]).1),
    ensures
        canonical_entries(d).len() == d.len(),
        forall|i: int| 0 <= i < d.len() ==> (#[trigger] canonical_entries(d)[i]).0 == d[i].0
            && canonical_entries(d)[i].1.wf(),
    decreases d, 0nat,
{
    if d.len() > 0 {
        let init = d.subrange(0, d.len() - 1);
        assert forall|i: int| 0 <= i < init.len() implies unique_keys((#[trigger] init[i]).1) by {
            assert(init[i] == d[i]);
        }
        lemma_canonical_entries_wf(init);
        assert(decreases_to!(d => d[d.len() - 1]));
        assert(decreases_to!(d[d.len() - 1] => d[d.len() - 1].1));
        lemma_canonical_wf(d[d.len() - 1].1);
        let c = canonical_entries(d);
        assert forall|i: int| 0 <= i < d.len() implies (#[trigger] c[i]).0 == d[i].0 && c[i].1.wf() by {
            if i < d.len() - 1 {
                assert(c[i] == canonical_entries(init)[i]);
                assert(init[i] == d[i]);
            }
        }
    }
}

/// Encoding, decoding and encoding again gives the first encoding: the
/// encoder writes the canonical form of a value with distinct keys, which
/// (nested at most `MAX_DEPTH` deep) decodes to itself and is its own
/// canonical form.
pub proof fn lemma_encode_round_trip(v: BValue)
    requires
        unique_keys(v),
        canonical(v).depth() <= MAX_DEPTH,
    ensures
        decoded(canonical(v).encoding()) == Some(canonical(v)),
        canonical(canonical(v)).encoding() == canonical(v).encoding(),
{
    lemma_canonical_wf(v);
    lemma_round_trip(canonical(v));
    lemma_canonical_of_wf(canonical(v));
}

} // verus!
