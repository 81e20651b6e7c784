//! The bencode codec: an in-memory value tree, its wire encoding as a
//! mathematical function, an encoder that emits dictionaries with sorted
//! keys, and a decoder whose result re-encodes to exactly the bytes read.

use vstd::prelude::*;

verus! {

broadcast use {vstd::std_specs::vec::group_vec_axioms, vstd::seq::group_seq_axioms};

/// The mathematical form of a bencode document: integers, raw byte
/// strings, ordered lists, and dictionaries as ordered key/value pairs.
#[verifier::ext_equal]
pub enum SpecValue {
    Int(int),
    Bytes(Seq<u8>),
    List(Seq<SpecValue>),
    Dict(Seq<(Seq<u8>, SpecValue)>),
}

/// A decoded bencode document. Dictionary entries keep the order in which
/// they were read, so that re-encoding reproduces the original bytes.
pub enum Value {
    Int(i64),
    Bytes(Vec<u8>),
    List(Vec<Value>),
    Dict(Vec<(Vec<u8>, Value)>),
}

impl Value {
    pub open spec fn deep(self) -> SpecValue
        decreases self,
    {
        match self {
            Value::Int(n) => SpecValue::Int(n as int),
            Value::Bytes(b) => SpecValue::Bytes(b@),
            Value::List(xs) => SpecValue::List(items_view(xs@)),
            Value::Dict(es) => SpecValue::Dict(entries_view(es@)),
        }
    }
}

impl View for Value {
    type V = SpecValue;

    open spec fn view(&self) -> SpecValue {
        self.deep()
    }
}

/// The deep views of a sequence of decoded values.
pub open spec fn items_view(xs: Seq<Value>) -> Seq<SpecValue>
    decreases xs,
{
    if xs.len() == 0 {
        Seq::empty()
    } else {
        seq![xs.first().deep()] + items_view(xs.drop_first())
    }
}

/// The deep views of a sequence of decoded dictionary entries.
pub open spec fn entries_view(es: Seq<(Vec<u8>, Value)>) -> Seq<(Seq<u8>, SpecValue)>
    decreases es,
{
    if es.len() == 0 {
        Seq::empty()
    } else {
        seq![(es.first().0@, es.first().1.deep())] + entries_view(es.drop_first())
    }
}

/// Pointwise reading of `items_view`.
pub proof fn lemma_items_view(xs: Seq<Value>)
    ensures
        items_view(xs).len() == xs.len(),
        forall|i: int| 0 <= i < xs.len() ==> items_view(xs)[i] == xs[i].deep(),
    decreases xs.len(),
{
    if xs.len() > 0 {
        lemma_items_view(xs.drop_first());
    }
}

/// Pointwise reading of `entries_view`.
pub proof fn lemma_entries_view(es: Seq<(Vec<u8>, Value)>)
    ensures
        entries_view(es).len() == es.len(),
        forall|i: int|
            0 <= i < es.len() ==> entries_view(es)[i] == (es[i].0@, es[i].1.deep()),
    decreases es.len(),
{
    if es.len() > 0 {
        lemma_entries_view(es.drop_first());
    }
}

/// The canonical decimal digits of `n`: no sign, no leading zero.
pub open spec fn dec_digits(n: nat) -> Seq<u8>
    decreases n,
{
    if n < 10 {
        seq![(48 + n) as u8]
    } else {
        dec_digits(n / 10).push((48 + n % 10) as u8)
    }
}

/// The canonical decimal form of `n`, with a leading `-` when negative.
pub open spec fn dec_int(n: int) -> Seq<u8> {
    if n < 0 {
        seq![45u8] + dec_digits((-n) as nat)
    } else {
        dec_digits(n as nat)
    }
}

/// The wire form of a byte string: decimal length, `:`, the bytes.
pub open spec fn str_encoded(b: Seq<u8>) -> Seq<u8> {
    dec_digits(b.len()) + seq![58u8] + b
}

/// The wire form of a value, with dictionary entries in stored order.
pub open spec fn encoded(v: SpecValue) -> Seq<u8>
    decreases v,
{
    match v {
        SpecValue::Int(n) => seq![105u8] + dec_int(n) + seq![101u8],
        SpecValue::Bytes(b) => str_encoded(b),
        SpecValue::List(xs) => seq![108u8] + encoded_items(xs) + seq![101u8],
        SpecValue::Dict(es) => seq![100u8] + encoded_entries(es) + seq![101u8],
    }
}

/// The concatenated wire forms of the values of a list.
pub open spec fn encoded_items(xs: Seq<SpecValue>) -> Seq<u8>
    decreases xs,
{
    if xs.len() == 0 {
        Seq::empty()
    } else {
        encoded(xs.first()) + encoded_items(xs.drop_first())
    }
}

/// The concatenated wire forms of the entries of a dictionary.
pub open spec fn encoded_entries(es: Seq<(Seq<u8>, SpecValue)>) -> Seq<u8>
    decreases es,
{
    if es.len() == 0 {
        Seq::empty()
    } else {
        str_encoded(es.first().0) + encoded(es.first().1) + encoded_entries(es.drop_first())
    }
}

/// Lexicographic byte order: `a` comes no later than `b`.
pub open spec fn lex_le(a: Seq<u8>, b: Seq<u8>) -> bool
    decreases a.len(),
{
    if a.len() == 0 {
        true
    } else if b.len() == 0 {
        false
    } else if a.first() < b.first() {
        true
    } else if a.first() > b.first() {
        false
    } else {
        lex_le(a.drop_first(), b.drop_first())
    }
}

/// Keys of the entry sequence appear in non-decreasing byte order.
pub open spec fn entries_sorted(es: Seq<(Seq<u8>, SpecValue)>) -> bool {
    forall|i: int, j: int| 0 <= i < j < es.len() ==> lex_le(es[i].0, es[j].0)
}

/// Every dictionary of the value has its keys in non-decreasing order.
pub open spec fn sorted_dicts(v: SpecValue) -> bool
    decreases v,
{
    match v {
        SpecValue::Int(_) => true,
        SpecValue::Bytes(_) => true,
        SpecValue::List(xs) => forall|i: int| 0 <= i < xs.len() ==> sorted_dicts(#[trigger] xs[i]),
        SpecValue::Dict(es) => entries_sorted(es) && forall|i: int|
            0 <= i < es.len() ==> sorted_dicts(#[trigger] es[i].1),
    }
}

/// `e` placed into the already-sorted entry sequence `s`.
pub open spec fn insert_sorted(e: (Seq<u8>, SpecValue), s: Seq<(Seq<u8>, SpecValue)>) -> Seq<
    (Seq<u8>, SpecValue),
>
    decreases s,
{
    if s.len() == 0 {
        seq![e]
    } else if lex_le(e.0, s.first().0) {
        seq![e] + s
    } else {
        seq![s.first()] + insert_sorted(e, s.drop_first())
    }
}

/// The entry sequence rearranged into non-decreasing key order.
pub open spec fn sort_entries(s: Seq<(Seq<u8>, SpecValue)>) -> Seq<(Seq<u8>, SpecValue)>
    decreases s,
{
    if s.len() == 0 {
        s
    } else {
        insert_sorted(s.first(), sort_entries(s.drop_first()))
    }
}

/// The canonical form of a value: every dictionary sorted by key.
pub open spec fn canon(v: SpecValue) -> SpecValue
    decreases v,
{
    match v {
        SpecValue::Int(n) => v,
        SpecValue::Bytes(b) => v,
        SpecValue::List(xs) => SpecValue::List(canon_items(xs)),
        SpecValue::Dict(es) => SpecValue::Dict(sort_entries(canon_entries(es))),
    }
}

/// `canon` applied to each value of a list.
pub open spec fn canon_items(xs: Seq<SpecValue>) -> Seq<SpecValue>
    decreases xs,
{
    if xs.len() == 0 {
        xs
    } else {
        seq![canon(xs.first())] + canon_items(xs.drop_first())
    }
}

/// `canon` applied to the value of each dictionary entry.
pub open spec fn canon_entries(es: Seq<(Seq<u8>, SpecValue)>) -> Seq<(Seq<u8>, SpecValue)>
    decreases es,
{
    if es.len() == 0 {
        es
    } else {
        seq![(es.first().0, canon(es.first().1))] + canon_entries(es.drop_first())
    }
}

/// `entries_view` read through `skip`.
pub proof fn lemma_entries_view_skip(es: Seq<(Vec<u8>, Value)>, i: int)
    requires
        0 <= i <= es.len(),
    ensures
        entries_view(es.skip(i)) =~= entries_view(es).skip(i),
{
    lemma_entries_view(es);
    lemma_entries_view(es.skip(i));
    assert forall|j: int| 0 <= j < es.len() - i implies entries_view(es.skip(i))[j]
        == entries_view(es).skip(i)[j] by {
        assert(es.skip(i)[j] == es[i + j]);
    }
}

/// A copy of a byte vector whose view is the same sequence.
pub(crate) fn copy_bytes(b: &Vec<u8>) -> (r: Vec<u8>)
    ensures
        r@ == b@,
{
    let mut r: Vec<u8> = Vec::new();
    let mut i: usize = 0;
    while i < b.len()
        invariant
            i <= b@.len(),
            r@ == b@.subrange(0, i as int),
        decreases b@.len() - i,
    {
        r.push(b[i]);
        i = i + 1;
    }
    assert(r@ =~= b@);
    r
}

/// Lexicographic order on byte slices, from position `i` on.
fn lex_le_from(a: &Vec<u8>, b: &Vec<u8>, i: usize) -> (r: bool)
    requires
        i <= a@.len(),
        i <= b@.len(),
    ensures
        r == lex_le(a@.skip(i as int), b@.skip(i as int)),
    decreases a@.len() - i,
{
    proof {
        reveal_with_fuel(lex_le, 2);
    }
    if i == a.len() {
        true
    } else if i == b.len() {
        false
    } else if a[i] < b[i] {
        assert(a@.skip(i as int).first() == a@[i as int]);
        true
    } else if a[i] > b[i] {
        false
    } else {
        let r = lex_le_from(a, b, i + 1);
        assert(a@.skip(i as int).drop_first() =~= a@.skip(i as int + 1));
        assert(b@.skip(i as int).drop_first() =~= b@.skip(i as int + 1));
        r
    }
}

/// Decides `lex_le` on the views of two byte vectors.
pub fn lex_le_bytes(a: &Vec<u8>, b: &Vec<u8>) -> (r: bool)
    ensures
        r == lex_le(a@, b@),
{
    let r = lex_le_from(a, b, 0);
    assert(a@.skip(0) =~= a@);
    assert(b@.skip(0) =~= b@);
    r
}

/// Appends the canonical decimal digits of `n`.
pub(crate) fn push_dec_u64(out: &mut Vec<u8>, n: u64)
    ensures
        final(out)@ == old(out)@ + dec_digits(n as nat),
    decreases n,
{
    if n < 10 {
        out.push(48 + n as u8);
        assert(out@ =~= old(out)@ + dec_digits(n as nat));
    } else {
        push_dec_u64(out, n / 10);
        out.push(48 + (n % 10) as u8);
        assert(out@ =~= old(out)@ + dec_digits(n as nat));
    }
}

/// Appends the canonical decimal form of the signed `n`.
fn push_dec_i64(out: &mut Vec<u8>, n: i64)
    ensures
        final(out)@ == old(out)@ + dec_int(n as int),
{
    if n < 0 {
        out.push(45);
        let mag: u64 = (-(n as i128)) as u64;
        assert(mag as nat == (-(n as int)) as nat);
        push_dec_u64(out, mag);
        assert(out@ =~= old(out)@ + dec_int(n as int));
    } else {
        push_dec_u64(out, n as u64);
    }
}

/// Pointwise reading of `canon_items`.
pub proof fn lemma_canon_items(xs: Seq<SpecValue>)
    ensures
        canon_items(xs).len() == xs.len(),
        forall|i: int| 0 <= i < xs.len() ==> canon_items(xs)[i] == canon(#[trigger] xs[i]),
    decreases xs.len(),
{
    if xs.len() > 0 {
        lemma_canon_items(xs.drop_first());
        assert forall|i: int| 0 <= i < xs.len() implies canon_items(xs)[i] == canon(
            #[trigger] xs[i],
        ) by {
            if i > 0 {
                assert(xs.drop_first()[i - 1] == xs[i]);
                assert(canon_items(xs)[i] == canon_items(xs.drop_first())[i - 1]);
            }
        }
    }
}

/// Pointwise reading of `canon_entries`.
pub proof fn lemma_canon_entries(es: Seq<(Seq<u8>, SpecValue)>)
    ensures
        canon_entries(es).len() == es.len(),
        forall|i: int|
            0 <= i < es.len() ==> canon_entries(es)[i] == (es[i].0, canon(#[trigger] es[i].1)),
    decreases es.len(),
{
    if es.len() > 0 {
        lemma_canon_entries(es.drop_first());
        assert forall|i: int| 0 <= i < es.len() implies canon_entries(es)[i] == (
            es[i].0,
            canon(#[trigger] es[i].1),
        ) by {
            if i > 0 {
                assert(es.drop_first()[i - 1] == es[i]);
                assert(canon_entries(es)[i] == canon_entries(es.drop_first())[i - 1]);
            }
        }
    }
}

/// One step of `encoded_items` along a suffix.
proof fn lemma_encoded_items_step(m: Seq<SpecValue>, i: int)
    requires
        0 <= i < m.len(),
    ensures
        encoded_items(m.skip(i)) == encoded(m[i]) + encoded_items(m.skip(i + 1)),
{
    assert(m.skip(i).first() == m[i]);
    assert(m.skip(i).drop_first() =~= m.skip(i + 1));
}

/// One step of `encoded_entries` along a suffix.
proof fn lemma_encoded_entries_step(q: Seq<(Seq<u8>, SpecValue)>, i: int)
    requires
        0 <= i < q.len(),
    ensures
        encoded_entries(q.skip(i)) == str_encoded(q[i].0) + encoded(q[i].1) + encoded_entries(
            q.skip(i + 1),
        ),
{
    assert(q.skip(i).first() == q[i]);
    assert(q.skip(i).drop_first() =~= q.skip(i + 1));
}

/// Appends the wire form of the byte string `b`: length, `:`, bytes.
fn push_bytestring(out: &mut Vec<u8>, b: &Vec<u8>)
    ensures
        final(out)@ == old(out)@ + str_encoded(b@),
{
    push_dec_u64(out, b.len() as u64);
    out.push(58);
    let mut i: usize = 0;
    while i < b.len()
        invariant
            i <= b@.len(),
            out@ == old(out)@ + dec_digits(b@.len()) + seq![58u8] + b@.subrange(0, i as int),
        decreases b@.len() - i,
    {
        out.push(b[i]);
        assert(out@ =~= old(out)@ + dec_digits(b@.len()) + seq![58u8] + b@.subrange(
            0,
            i as int + 1,
        ));
        i = i + 1;
    }
    assert(b@.subrange(0, b@.len() as int) =~= b@);
    assert(out@ =~= old(out)@ + str_encoded(b@));
}

/// Appends the wire form of `v`, dictionary entries in stored order.
#[verifier::loop_isolation(false)]
#[verifier::rlimit(60)]
fn encode_stored(v: &Value, out: &mut Vec<u8>)
    ensures
        final(out)@ == old(out)@ + encoded(v@),
    decreases v,
{
    match v {
        Value::Int(n) => {
            out.push(105);
            push_dec_i64(out, *n);
            out.push(101);
            assert(out@ =~= old(out)@ + encoded(v@));
        },
        Value::Bytes(b) => {
            push_bytestring(out, b);
        },
        Value::List(xs) => {
            out.push(108);
            let ghost m = items_view(xs@);
            let mut i: usize = 0;
            proof {
                lemma_items_view(xs@);
                assert(m.skip(0) =~= m);
            }
            while i < xs.len()
                invariant
                    *v == Value::List(*xs),
                    i <= xs@.len(),
                    m == items_view(xs@),
                    m.len() == xs@.len(),
                    forall|j: int| 0 <= j < xs@.len() ==> m[j] == xs@[j].deep(),
                    out@ + encoded_items(m.skip(i as int)) == old(out)@ + seq![108u8]
                        + encoded_items(m),
                decreases xs@.len() - i,
            {
                encode_stored(&xs[i], out);
                proof {
                    lemma_encoded_items_step(m, i as int);
                }
                i = i + 1;
            }
            proof {
                assert(m.skip(xs@.len() as int) =~= Seq::<SpecValue>::empty());
            }
            out.push(101);
            assert(out@ =~= old(out)@ + encoded(v@));
        },
        Value::Dict(es) => {
            out.push(100);
            let ghost q = entries_view(es@);
            let mut i: usize = 0;
            proof {
                lemma_entries_view(es@);
                assert(q.skip(0) =~= q);
            }
            while i < es.len()
                invariant
                    *v == Value::Dict(*es),
                    i <= es@.len(),
                    q == entries_view(es@),
                    q.len() == es@.len(),
                    forall|j: int|
                        0 <= j < es@.len() ==> q[j] == (es@[j].0@, es@[j].1.deep()),
                    out@ + encoded_entries(q.skip(i as int)) == old(out)@ + seq![100u8]
                        + encoded_entries(q),
                decreases es@.len() - i,
            {
                push_bytestring(out, &es[i].0);
                encode_stored(&es[i].1, out);
                proof {
                    lemma_encoded_entries_step(q, i as int);
                    assert(out@ + encoded_entries(q.skip(i as int + 1)) =~= old(out)@
                        + seq![100u8] + encoded_entries(q));
                }
                i = i + 1;
            }
            proof {
                assert(q.skip(es@.len() as int) =~= Seq::<(Seq<u8>, SpecValue)>::empty());
            }
            out.push(101);
            assert(out@ =~= old(out)@ + encoded(v@));
        },
    }
}

/// Places `e` into the key-sorted vector `s`, keeping it sorted.
fn insert_entry(e: (Vec<u8>, Value), s: Vec<(Vec<u8>, Value)>) -> (r: Vec<(Vec<u8>, Value)>)
    ensures
        entries_view(r@) == insert_sorted((e.0@, e.1.deep()), entries_view(s@)),
    decreases s@.len(),
{
    proof {
        lemma_entries_view(s@);
    }
    if s.len() == 0 {
        let mut r = s;
        r.push(e);
        proof {
            lemma_entries_view(r@);
            assert(entries_view(r@) =~= insert_sorted((e.0@, e.1.deep()), entries_view(s@)));
        }
        r
    } else if lex_le_bytes(&e.0, &s[0].0) {
        let mut r = s;
        let ghost old_r = r@;
        r.insert(0, e);
        proof {
            lemma_entries_view(r@);
            assert(r@.drop_first() =~= old_r);
            lemma_entries_view_skip(r@, 1);
            assert(entries_view(r@) =~= insert_sorted((e.0@, e.1.deep()), entries_view(old_r)));
        }
        r
    } else {
        let mut s = s;
        let ghost s0 = s@;
        let head = s.remove(0);
        proof {
            assert(s@ =~= s0.drop_first());
            lemma_entries_view_skip(s0, 1);
        }
        let r0 = insert_entry(e, s);
        let mut r = r0;
        let ghost r0v = r@;
        r.insert(0, head);
        proof {
            assert(r@.drop_first() =~= r0v);
            assert(r@[0] == s0[0]);
            lemma_entries_view(r@);
            lemma_entries_view(r0v);
            lemma_entries_view(s0);
            lemma_entries_view_skip(r@, 1);
            assert(entries_view(r@) =~= seq![entries_view(s0).first()] + insert_sorted(
                (e.0@, e.1.deep()),
                entries_view(s0).drop_first(),
            ));
        }
        r
    }
}

/// Rearranges owned entries into non-decreasing key order.
fn sort_owned(es: Vec<(Vec<u8>, Value)>) -> (r: Vec<(Vec<u8>, Value)>)
    ensures
        entries_view(r@) == sort_entries(entries_view(es@)),
    decreases es@.len(),
{
    if es.len() == 0 {
        proof {
            assert(entries_view(es@) =~= Seq::<(Seq<u8>, SpecValue)>::empty());
        }
        es
    } else {
        let mut es = es;
        let ghost es0 = es@;
        let head = es.remove(0);
        proof {
            assert(es@ =~= es0.drop_first());
            lemma_entries_view_skip(es0, 1);
            lemma_entries_view(es0);
        }
        let rest = sort_owned(es);
        insert_entry(head, rest)
    }
}

/// A copy of `v` in canonical form: every dictionary sorted by key.
#[verifier::loop_isolation(false)]
pub fn canonicalize(v: &Value) -> (r: Value)
    ensures
        r@ == canon(v@),
    decreases v,
{
    match v {
        Value::Int(n) => Value::Int(*n),
        Value::Bytes(b) => Value::Bytes(copy_bytes(b)),
        Value::List(xs) => {
            let mut out: Vec<Value> = Vec::new();
            let mut i: usize = 0;
            while i < xs.len()
                invariant
                    *v == Value::List(*xs),
                    i <= xs@.len(),
                    out@.len() == i,
                    forall|j: int| 0 <= j < i ==> out@[j].deep() == canon(xs@[j].deep()),
                decreases xs@.len() - i,
            {
                let c = canonicalize(&xs[i]);
                out.push(c);
                i = i + 1;
            }
            proof {
                lemma_items_view(out@);
                lemma_items_view(xs@);
                lemma_canon_items(items_view(xs@));
                assert forall|j: int| 0 <= j < xs@.len() implies items_view(out@)[j]
                    == canon_items(items_view(xs@))[j] by {
                    assert(items_view(out@)[j] == out@[j].deep());
                    assert(items_view(xs@)[j] == xs@[j].deep());
                    assert(canon_items(items_view(xs@))[j] == canon(items_view(xs@)[j]));
                }
                assert(items_view(out@) =~= canon_items(items_view(xs@)));
            }
            Value::List(out)
        },
        Value::Dict(es) => {
            let mut tmp: Vec<(Vec<u8>, Value)> = Vec::new();
            let mut i: usize = 0;
            while i < es.len()
                invariant
                    *v == Value::Dict(*es),
                    i <= es@.len(),
                    tmp@.len() == i,
                    forall|j: int|
                        0 <= j < i ==> tmp@[j].0@ == es@[j].0@ && tmp@[j].1.deep() == canon(
                            es@[j].1.deep(),
                        ),
                decreases es@.len() - i,
            {
                let k = copy_bytes(&es[i].0);
                let c = canonicalize(&es[i].1);
                tmp.push((k, c));
                i = i + 1;
            }
            proof {
                lemma_entries_view(tmp@);
                lemma_entries_view(es@);
                lemma_canon_entries(entries_view(es@));
                assert forall|j: int| 0 <= j < es@.len() implies entries_view(tmp@)[j]
                    == canon_entries(entries_view(es@))[j] by {
                    assert(entries_view(tmp@)[j] == (tmp@[j].0@, tmp@[j].1.deep()));
                    assert(entries_view(es@)[j] == (es@[j].0@, es@[j].1.deep()));
                    assert(canon_entries(entries_view(es@))[j] == (
                        entries_view(es@)[j].0,
                        canon(entries_view(es@)[j].1),
                    ));
                }
                assert(entries_view(tmp@) =~= canon_entries(entries_view(es@)));
            }
            let sorted = sort_owned(tmp);
            Value::Dict(sorted)
        },
    }
}

/// Encodes `v` canonically: every dictionary is emitted with its keys in
/// non-decreasing byte order, whatever order they were inserted in.
pub fn encode(v: &Value) -> (r: Vec<u8>)
    ensures
        r@ == encoded(canon(v@)),
{
    let c = canonicalize(v);
    let mut out: Vec<u8> = Vec::new();
    encode_stored(&c, &mut out);
    proof {
        assert(out@ =~= encoded(canon(v@)));
    }
    out
}


/// The numeric value of a decimal digit run, most significant first.
pub open spec fn digits_val(s: Seq<u8>) -> int
    decreases s.len(),
{
    if s.len() == 0 {
        0
    } else {
        digits_val(s.drop_last()) * 10 + (s.last() - 48)
    }
}

/// Every byte of `s` is an ASCII decimal digit.
pub open spec fn all_digits(s: Seq<u8>) -> bool {
    forall|i: int| 0 <= i < s.len() ==> 48 <= #[trigger] s[i] <= 57
}

/// A nonempty digit run without a leading zero has value at least one.
proof fn lemma_digits_val_positive(s: Seq<u8>)
    requires
        s.len() >= 1,
        all_digits(s),
        s[0] > 48,
    ensures
        digits_val(s) >= 1,
    decreases s.len(),
{
    assert(48 <= s[s.len() - 1] <= 57);
    if s.len() == 1 {
        assert(s.drop_last().len() == 0);
        assert(digits_val(s.drop_last()) == 0);
    } else {
        assert(s.drop_last()[0] == s[0]);
        assert(all_digits(s.drop_last())) by {
            assert(forall|i: int|
                0 <= i < s.drop_last().len() ==> #[trigger] s.drop_last()[i] == s[i]);
        }
        lemma_digits_val_positive(s.drop_last());
    }
}

/// A canonical digit run is the decimal form of its own value.
proof fn lemma_dec_digits_of_digits(s: Seq<u8>)
    requires
        s.len() >= 1,
        all_digits(s),
        s[0] != 48 || s.len() == 1,
    ensures
        digits_val(s) >= 0,
        dec_digits(digits_val(s) as nat) == s,
    decreases s.len(),
{
    assert(48 <= s[s.len() - 1] <= 57);
    if s.len() == 1 {
        assert(s.drop_last().len() == 0);
        assert(digits_val(s.drop_last()) == 0);
        assert(digits_val(s) == s[0] - 48);
        assert(dec_digits(digits_val(s) as nat) =~= s);
    } else {
        let t = s.drop_last();
        assert(t[0] == s[0]);
        assert(all_digits(t)) by {
            assert(forall|i: int| 0 <= i < t.len() ==> #[trigger] t[i] == s[i]);
        }
        assert(s[0] != 48);
        lemma_dec_digits_of_digits(t);
        lemma_digits_val_positive(t);
        let v = digits_val(t);
        let d = s.last() - 48;
        let n = digits_val(s);
        assert(n == v * 10 + d);
        assert(n / 10 == v && n % 10 == d) by (nonlinear_arith)
            requires
                n == v * 10 + d,
                0 <= d < 10,
                v >= 1,
        ;
        assert(n >= 10) by (nonlinear_arith)
            requires
                n == v * 10 + d,
                0 <= d,
                v >= 1,
        ;
        assert(dec_digits(n as nat) == dec_digits((n as nat) / 10).push((48 + (n as nat) % 10) as u8));
        assert((n as nat) / 10 == v as nat && (n as nat) % 10 == d);
        assert(dec_digits(n as nat) =~= t.push(s.last()));
        assert(t.push(s.last()) =~= s);
    }
}

/// Values the decoder can represent: every integer fits a 64-bit signed
/// integer. Byte strings, lists and dictionaries carry no further bound.
pub open spec fn representable(v: SpecValue) -> bool
    decreases v,
{
    match v {
        SpecValue::Int(n) => i64::MIN <= n <= i64::MAX,
        SpecValue::Bytes(_) => true,
        SpecValue::List(xs) => forall|i: int|
            0 <= i < xs.len() ==> representable(#[trigger] xs[i]),
        SpecValue::Dict(es) => forall|i: int|
            0 <= i < es.len() ==> representable(#[trigger] es[i].1),
    }
}

/// A digit run never has a negative value.
proof fn lemma_digits_val_nonneg(s: Seq<u8>)
    requires
        all_digits(s),
    ensures
        digits_val(s) >= 0,
    decreases s.len(),
{
    if s.len() > 0 {
        assert(all_digits(s.drop_last())) by {
            assert(forall|i: int|
                0 <= i < s.drop_last().len() ==> #[trigger] s.drop_last()[i] == s[i]);
        }
        lemma_digits_val_nonneg(s.drop_last());
        assert(48 <= s[s.len() - 1] <= 57);
    }
}

/// A digit run is worth at least any of its prefixes.
proof fn lemma_digits_val_prefix(s: Seq<u8>, k: int)
    requires
        all_digits(s),
        0 <= k <= s.len(),
    ensures
        digits_val(s) >= digits_val(s.subrange(0, k)),
    decreases s.len(),
{
    if k == s.len() {
        assert(s.subrange(0, k) =~= s);
    } else {
        let t = s.drop_last();
        assert(all_digits(t)) by {
            assert(forall|i: int| 0 <= i < t.len() ==> #[trigger] t[i] == s[i]);
        }
        lemma_digits_val_prefix(t, k);
        assert(t.subrange(0, k) =~= s.subrange(0, k));
        lemma_digits_val_nonneg(t);
        assert(48 <= s[s.len() - 1] <= 57);
        assert(digits_val(s) == digits_val(t) * 10 + (s.last() - 48));
    }
}

/// The leading digit is zero exactly for the number zero.
proof fn lemma_dec_digits_leading(n: nat)
    ensures
        n == 0 ==> dec_digits(n) == seq![48u8],
        n > 0 ==> dec_digits(n)[0] != 48,
    decreases n,
{
    if n == 0 {
        assert(dec_digits(n) =~= seq![48u8]);
    } else if n >= 10 {
        lemma_dec_digits_leading(n / 10);
        lemma_dec_digits_range(n / 10);
        assert(dec_digits(n)[0] == dec_digits(n / 10)[0]);
    }
}

/// Two canonical digit runs starting at one position, each ending where a
/// non-digit (or the input's end) follows, are the same run.
proof fn lemma_canonical_run_unique(input: Seq<u8>, pos: int, m1: nat, e1: int, m2: nat, e2: int)
    requires
        0 <= pos,
        pos <= e1 <= input.len(),
        pos <= e2 <= input.len(),
        dec_digits(m1) == input.subrange(pos, e1),
        dec_digits(m2) == input.subrange(pos, e2),
        e1 == input.len() || !(48 <= input[e1] <= 57),
        e2 == input.len() || !(48 <= input[e2] <= 57),
    ensures
        e1 == e2,
        m1 == m2,
{
    lemma_dec_digits_range(m1);
    lemma_dec_digits_range(m2);
    assert(e1 - pos == dec_digits(m1).len());
    assert(e2 - pos == dec_digits(m2).len());
    if e1 < e2 {
        assert(input[e1] == dec_digits(m2)[e1 - pos]);
        assert(48 <= dec_digits(m2)[e1 - pos] <= 57);
        assert(false);
    }
    if e2 < e1 {
        assert(input[e2] == dec_digits(m1)[e2 - pos]);
        assert(48 <= dec_digits(m1)[e2 - pos] <= 57);
        assert(false);
    }
    assert(dec_digits(m1) == dec_digits(m2));
    lemma_digits_val_of_dec_digits(m1);
    lemma_digits_val_of_dec_digits(m2);
}

/// Reading a concatenation out of an input window splits the window.
proof fn lemma_split_at(input: Seq<u8>, pos: int, end: int, a: Seq<u8>, b: Seq<u8>)
    requires
        0 <= pos <= end <= input.len(),
        a + b == input.subrange(pos, end),
    ensures
        pos + a.len() <= end,
        a == input.subrange(pos, pos + a.len()),
        b == input.subrange(pos + a.len(), end),
{
    assert((a + b).len() == a.len() + b.len());
    assert forall|i: int| 0 <= i < a.len() implies a[i] == input.subrange(
        pos,
        pos + a.len(),
    )[i] by {
        assert((a + b)[i] == a[i]);
        assert(input.subrange(pos, end)[i] == input[pos + i]);
    }
    assert(a =~= input.subrange(pos, pos + a.len()));
    assert forall|i: int| 0 <= i < b.len() implies b[i] == input.subrange(
        pos + a.len(),
        end,
    )[i] by {
        assert((a + b)[a.len() + i] == b[i]);
        assert(input.subrange(pos, end)[a.len() + i] == input[pos + a.len() + i]);
    }
    assert(b =~= input.subrange(pos + a.len(), end));
}

/// A failed parse, carrying the byte offset where parsing stopped.
#[derive(Debug, Clone, Copy, PartialEq, Eq)]
pub struct ParseError {
    pub offset: usize,
}

/// Reads a canonical decimal digit run: at least one digit, and a run of
/// more than one digit never starts with zero.
#[verifier::loop_isolation(false)]
fn parse_digits(input: &[u8], pos: usize) -> (r: Result<(u64, usize), ParseError>)
    requires
        pos <= input@.len(),
    ensures
        match r {
            Ok((n, end)) => pos < end <= input@.len() && dec_digits(n as nat) == input@.subrange(
                pos as int,
                end as int,
            ) && (end == input@.len() || !(48 <= input@[end as int] <= 57) || (n == 0 && end == pos
                + 1)),
            Err(_) => forall|m: nat, end: int|
                #![trigger dec_digits(m), input@.subrange(pos as int, end)]
                (pos as int) < end <= input@.len() && dec_digits(m) == input@.subrange(
                    pos as int,
                    end,
                ) && (end == input@.len() || !(48 <= input@[end] <= 57)) ==> m
                    > 18446744073709551615,
        },
{
    if pos == input.len() {
        return Err(ParseError { offset: pos });
    }
    let d0 = input[pos];
    if d0 < 48 || d0 > 57 {
        proof {
            assert forall|m: nat, end: int|
                (pos as int) < end <= input@.len() && dec_digits(m) == input@.subrange(
                    pos as int,
                    end,
                ) && (end == input@.len() || !(48 <= input@[end] <= 57)) implies m
                > 18446744073709551615 by {
                lemma_dec_digits_range(m);
                assert(input@.subrange(pos as int, end)[0] == input@[pos as int]);
                assert(48 <= dec_digits(m)[0] <= 57);
            }
        }
        return Err(ParseError { offset: pos });
    }
    if d0 == 48 {
        // a leading zero stands only for the single digit `0`; any longer
        // run is left for the caller to refuse at the next byte
        assert(dec_digits(0) =~= input@.subrange(pos as int, pos as int + 1));
        return Ok((0, pos + 1));
    }
    let mut acc: u64 = (d0 - 48) as u64;
    let mut i: usize = pos + 1;
    proof {
        let s1 = input@.subrange(pos as int, pos as int + 1);
        assert(s1 =~= seq![d0]);
        assert(s1.drop_last() =~= Seq::<u8>::empty());
        assert(digits_val(s1.drop_last()) == 0);
        assert(digits_val(s1) == d0 - 48);
        assert(all_digits(s1));
    }
    while i < input.len() && 48 <= input[i] && input[i] <= 57
        invariant
            pos < i <= input@.len(),
            acc as int == digits_val(input@.subrange(pos as int, i as int)),
            all_digits(input@.subrange(pos as int, i as int)),
            input@.subrange(pos as int, i as int)[0] == d0,
            d0 != 48,
        decreases input@.len() - i,
    {
        let d = input[i];
        if acc > 1844674407370955161 || (acc == 1844674407370955161 && d > 53) {
            proof {
                let pre = input@.subrange(pos as int, i as int + 1);
                assert(pre.drop_last() =~= input@.subrange(pos as int, i as int));
                assert(pre.last() == d);
                assert(all_digits(pre)) by {
                    assert(forall|j: int|
                        0 <= j < i - pos ==> #[trigger] pre[j] == input@.subrange(
                            pos as int,
                            i as int,
                        )[j]);
                }
                assert(digits_val(pre) == (acc as int) * 10 + (d - 48));
                assert(digits_val(pre) > 18446744073709551615);
                assert forall|m: nat, end: int|
                    (pos as int) < end <= input@.len() && dec_digits(m) == input@.subrange(
                        pos as int,
                        end,
                    ) && (end == input@.len() || !(48 <= input@[end] <= 57)) implies m
                    > 18446744073709551615 by {
                    lemma_dec_digits_range(m);
                    if end <= i {
                        // the byte after such a run is one of the scanned digits
                        if end < i {
                            assert(input@[end] == input@.subrange(pos as int, i as int)[end
                                - pos]);
                        } else {
                            assert(input@[end] == d);
                        }
                        assert(false);
                    } else {
                        // the run covers every scanned digit, so its value
                        // is at least the scanned prefix's
                        assert(dec_digits(m).subrange(0, i as int + 1 - pos) =~= pre) by {
                            assert(forall|j: int|
                                0 <= j < i + 1 - pos ==> #[trigger] dec_digits(m)[j]
                                    == input@[pos + j]);
                            assert(forall|j: int|
                                0 <= j < i + 1 - pos ==> #[trigger] pre[j] == input@[pos + j]);
                        }
                        lemma_digits_val_prefix(dec_digits(m), i as int + 1 - pos);
                        lemma_digits_val_of_dec_digits(m);
                    }
                }
            }
            return Err(ParseError { offset: i });
        }
        proof {
            let sold = input@.subrange(pos as int, i as int);
            let snew = input@.subrange(pos as int, i as int + 1);
            assert(snew.drop_last() =~= sold);
            assert(snew.last() == d);
            assert(all_digits(snew)) by {
                assert(forall|j: int| 0 <= j < sold.len() ==> #[trigger] snew[j] == sold[j]);
            }
            assert(snew[0] == sold[0]);
        }
        acc = acc * 10 + (d - 48) as u64;
        i = i + 1;
    }
    proof {
        lemma_dec_digits_of_digits(input@.subrange(pos as int, i as int));
    }
    Ok((acc, i))
}

/// No byte string can be read at `pos` when the decimal run found there
/// is either not followed by a colon, or declares more bytes than remain.
proof fn lemma_no_bytes_here(input: Seq<u8>, pos: int, n: nat, p1: int)
    requires
        0 <= pos < p1 <= input.len(),
        dec_digits(n) == input.subrange(pos, p1),
        p1 == input.len() || !(48 <= input[p1] <= 57) || (n == 0 && p1 == pos + 1),
        p1 == input.len() || input[p1] != 58 || n > input.len() - p1 - 1,
    ensures
        forall|b: Seq<u8>, end: int|
            #![trigger str_encoded(b), input.subrange(pos, end)]
            pos < end <= input.len() ==> str_encoded(b) != input.subrange(pos, end),
{
    assert forall|b: Seq<u8>, end: int|
        pos < end <= input.len() implies str_encoded(b) != input.subrange(pos, end) by {
        if str_encoded(b) == input.subrange(pos, end) {
            lemma_dec_digits_range(b.len());
            lemma_dec_digits_range(n);
            let ll = dec_digits(b.len()).len() as int;
            lemma_split_at(input, pos, end, dec_digits(b.len()) + seq![58u8], b);
            lemma_split_at(input, pos, pos + ll + 1, dec_digits(b.len()), seq![58u8]);
            assert(input[pos + ll] == input.subrange(pos + ll, pos + ll + 1)[0]);
            assert(input[pos + ll] == 58);
            if n == 0 && p1 == pos + 1 {
                // the run here is the single digit zero
                assert(input[pos] == input.subrange(pos, p1)[0]);
                assert(input[pos] == 48);
                assert(dec_digits(b.len())[0] == input.subrange(pos, pos + ll)[0]);
                assert(dec_digits(b.len())[0] == 48);
                lemma_dec_digits_leading(b.len());
                assert(b.len() == 0);
                assert(ll == 1);
                assert(p1 == pos + ll);
            } else {
                lemma_canonical_run_unique(input, pos, n, p1, b.len(), pos + ll);
                assert(p1 == pos + ll);
            }
            assert(input[p1] == 58);
            assert(b.len() == n);
            assert(b.len() == end - (pos + ll + 1));
            assert(n > input.len() - p1 - 1);
            assert(false);
        }
    }
}

/// Reads a byte string: decimal run, `:`, that many raw bytes.
#[verifier::loop_isolation(false)]
fn parse_bytes(input: &[u8], pos: usize) -> (r: Result<(Vec<u8>, usize), ParseError>)
    requires
        pos <= input@.len(),
    ensures
        match r {
            Ok((b, end)) => pos < end <= input@.len() && str_encoded(b@) == input@.subrange(
                pos as int,
                end as int,
            ),
            Err(_) => forall|b: Seq<u8>, end: int|
                #![trigger str_encoded(b), input@.subrange(pos as int, end)]
                (pos as int) < end <= input@.len() ==> str_encoded(b) != input@.subrange(
                    pos as int,
                    end,
                ),
        },
{
    let ilen = input.len();
    let (n, p1) = match parse_digits(input, pos) {
        Ok(t) => t,
        Err(e) => {
            proof {
                assert forall|b: Seq<u8>, end: int|
                    (pos as int) < end <= input@.len() implies str_encoded(b) != input@.subrange(
                    pos as int,
                    end,
                ) by {
                    if str_encoded(b) == input@.subrange(pos as int, end) {
                        lemma_dec_digits_range(b.len());
                        let ll = dec_digits(b.len()).len() as int;
                        lemma_split_at(
                            input@,
                            pos as int,
                            end,
                            dec_digits(b.len()) + seq![58u8],
                            b,
                        );
                        lemma_split_at(
                            input@,
                            pos as int,
                            pos as int + ll + 1,
                            dec_digits(b.len()),
                            seq![58u8],
                        );
                        assert(input@[pos as int + ll] == input@.subrange(
                            pos as int + ll,
                            pos as int + ll + 1,
                        )[0]);
                        assert(input@[pos as int + ll] == 58);
                        assert(b.len() > 18446744073709551615);
                        assert(b.len() <= end - pos);
                        assert(input@.len() == ilen as int);
                        assert(false);
                    }
                }
            }
            return Err(e);
        },
    };
    if p1 == ilen || input[p1] != 58 {
        proof {
            lemma_no_bytes_here(input@, pos as int, n as nat, p1 as int);
        }
        return Err(ParseError { offset: p1 });
    }
    if n > (ilen - p1 - 1) as u64 {
        proof {
            lemma_no_bytes_here(input@, pos as int, n as nat, p1 as int);
        }
        return Err(ParseError { offset: p1 });
    }
    let len = n as usize;
    let start = p1 + 1;
    let mut b: Vec<u8> = Vec::new();
    let mut i: usize = 0;
    while i < len
        invariant
            start + len <= input@.len(),
            i <= len,
            b@ == input@.subrange(start as int, start as int + i as int),
        decreases len - i,
    {
        b.push(input[start + i]);
        assert(b@ =~= input@.subrange(start as int, start as int + i as int + 1));
        i = i + 1;
    }
    let end = start + len;
    proof {
        assert(b@.len() == n as nat);
        assert(input@.subrange(pos as int, end as int) =~= input@.subrange(pos as int, p1 as int)
            + seq![58u8] + input@.subrange(start as int, end as int));
        assert(str_encoded(b@) =~= input@.subrange(pos as int, end as int));
    }
    Ok((b, end))
}

/// The shape of an integer's wire form read out of an input window.
proof fn lemma_int_shape(input: Seq<u8>, pos: int, end: int, nn: int)
    requires
        0 <= pos < end <= input.len(),
        encoded(SpecValue::Int(nn)) == input.subrange(pos, end),
    ensures
        input[pos] == 105,
        input[end - 1] == 101,
        end - pos >= 3,
        nn >= 0 ==> pos + 1 < end - 1 && dec_digits(nn as nat) == input.subrange(pos + 1, end - 1),
        nn < 0 ==> end - pos >= 4 && input[pos + 1] == 45 && dec_digits((-nn) as nat)
            == input.subrange(pos + 2, end - 1),
{
    if nn >= 0 {
        lemma_dec_digits_range(nn as nat);
    } else {
        lemma_dec_digits_range((-nn) as nat);
    }
    lemma_split_at(input, pos, end, seq![105u8] + dec_int(nn), seq![101u8]);
    assert(input[end - 1] == input.subrange(end - 1, end)[0]);
    lemma_split_at(input, pos, end - 1, seq![105u8], dec_int(nn));
    assert(input[pos] == input.subrange(pos, pos + 1)[0]);
    if nn < 0 {
        lemma_split_at(input, pos + 1, end - 1, seq![45u8], dec_digits((-nn) as nat));
        assert(input[pos + 1] == input.subrange(pos + 1, pos + 2)[0]);
    }
}

/// The decimal run found at `p` — maximal, or the single digit zero — is
/// the only canonical run there that a non-digit follows.
proof fn lemma_run_matches(input: Seq<u8>, p: int, mag: nat, pd: int, m2: nat, e2: int)
    requires
        0 <= p < pd <= input.len(),
        p < e2 <= input.len(),
        dec_digits(mag) == input.subrange(p, pd),
        pd == input.len() || !(48 <= input[pd] <= 57) || (mag == 0 && pd == p + 1),
        dec_digits(m2) == input.subrange(p, e2),
        e2 == input.len() || !(48 <= input[e2] <= 57),
    ensures
        pd == e2,
        mag == m2,
{
    if pd == input.len() || !(48 <= input[pd] <= 57) {
        lemma_canonical_run_unique(input, p, mag, pd, m2, e2);
    } else {
        // the run here is the single digit zero, and so is the other
        assert(mag == 0 && pd == p + 1);
        assert(input[p] == input.subrange(p, pd)[0]);
        assert(dec_digits(0) =~= seq![48u8]);
        assert(input[p] == 48);
        lemma_dec_digits_range(m2);
        assert(dec_digits(m2)[0] == input.subrange(p, e2)[0]);
        lemma_dec_digits_leading(m2);
        assert(m2 == 0);
        assert(e2 == p + 1);
        lemma_digits_val_of_dec_digits(m2);
    }
}

/// No representable integer's wire form sits where the parser read a
/// magnitude outside the 64-bit signed range.
proof fn lemma_int_out_of_range(input: Seq<u8>, pos: int, neg: bool, p: int, mag: nat, pd: int)
    requires
        0 <= pos,
        input[pos] == 105,
        neg ==> pos + 1 < input.len() && input[pos + 1] == 45 && p == pos + 2,
        !neg ==> p == pos + 1 && (pos + 1 == input.len() || input[pos + 1] != 45),
        0 <= p < pd < input.len(),
        dec_digits(mag) == input.subrange(p, pd),
        pd == input.len() || !(48 <= input[pd] <= 57) || (mag == 0 && pd == p + 1),
        input[pd] == 101,
        neg ==> mag > 9223372036854775808,
        !neg ==> mag > 9223372036854775807,
    ensures
        forall|sv: SpecValue, end: int|
            #![trigger encoded(sv), input.subrange(pos, end)]
            pos < end <= input.len() && representable(sv) ==> encoded(sv) != input.subrange(
                pos,
                end,
            ),
{
    assert forall|sv: SpecValue, end: int|
        pos < end <= input.len() && representable(sv) implies encoded(sv) != input.subrange(
        pos,
        end,
    ) by {
        if encoded(sv) == input.subrange(pos, end) {
            lemma_encoded_first_byte(sv);
            assert(encoded(sv)[0] == input[pos]);
            if sv is Int {
                let nn = sv->Int_0;
                lemma_int_candidate(input, pos, neg, p, nn, end);
                let magv = (if nn < 0 { -nn } else { nn }) as nat;
                lemma_run_matches(input, p, mag, pd, magv, end - 1);
                assert(magv == mag);
            }
            assert(false);
        }
    }
}

/// An integer candidate read where the parser saw `i` and an optional
/// sign: its sign matches the sign byte and its digit run sits at `p`.
proof fn lemma_int_candidate(input: Seq<u8>, pos: int, neg: bool, p: int, nn: int, end: int)
    requires
        0 <= pos < end <= input.len(),
        input[pos] == 105,
        neg ==> pos + 1 < input.len() && input[pos + 1] == 45 && p == pos + 2,
        !neg ==> p == pos + 1 && (pos + 1 == input.len() || input[pos + 1] != 45),
        encoded(SpecValue::Int(nn)) == input.subrange(pos, end),
    ensures
        (nn < 0) == neg,
        p < end - 1 <= input.len(),
        input[end - 1] == 101,
        dec_digits((if nn < 0 { -nn } else { nn }) as nat) == input.subrange(p, end - 1),
{
    lemma_int_shape(input, pos, end, nn);
    if nn >= 0 {
        lemma_dec_digits_range(nn as nat);
        assert(dec_digits(nn as nat)[0] == input.subrange(pos + 1, end - 1)[0]);
        assert(48 <= input[pos + 1] <= 57);
        assert(!neg);
    } else {
        assert(input[pos + 1] == 45);
        assert(neg);
    }
}

/// Reads one value starting at `pos`. On success the value re-encodes,
/// dictionary order kept, to exactly the bytes consumed. On failure no
/// representable value's wire form sits at `pos`, whatever its length.
fn parse_value(input: &[u8], pos: usize) -> (r: Result<(Value, usize), ParseError>)
    requires
        pos <= input@.len(),
    ensures
        match r {
            Ok((v, end)) => pos < end <= input@.len() && encoded(v@) == input@.subrange(
                pos as int,
                end as int,
            ),
            Err(_) => forall|sv: SpecValue, end: int|
                #![trigger encoded(sv), input@.subrange(pos as int, end)]
                (pos as int) < end <= input@.len() && representable(sv) ==> encoded(sv)
                    != input@.subrange(pos as int, end),
        },
    decreases input@.len() - pos, 1int,
{
    if pos == input.len() {
        return Err(ParseError { offset: pos });
    }
    let c = input[pos];
    if c == 105 {
        // integer
        let mut p = pos + 1;
        let neg = p < input.len() && input[p] == 45;
        if neg {
            p = p + 1;
        }
        let (mag, pd) = match parse_digits(input, p) {
            Ok(t) => t,
            Err(e) => {
                proof {
                    assert forall|sv: SpecValue, end: int|
                        (pos as int) < end <= input@.len() && representable(sv) implies encoded(
                        sv,
                    ) != input@.subrange(pos as int, end) by {
                        if encoded(sv) == input@.subrange(pos as int, end) {
                            lemma_encoded_first_byte(sv);
                            assert(encoded(sv)[0] == input@[pos as int]);
                            if sv is Int {
                                let nn = sv->Int_0;
                                lemma_int_candidate(
                                    input@,
                                    pos as int,
                                    neg,
                                    p as int,
                                    nn,
                                    end,
                                );
                                let magv = (if nn < 0 { -nn } else { nn }) as nat;
                                assert(dec_digits(magv) == input@.subrange(p as int, end - 1));
                                assert(magv > 18446744073709551615);
                            }
                            assert(false);
                        }
                    }
                }
                return Err(e);
            },
        };
        if pd == input.len() || input[pd] != 101 {
            proof {
                assert forall|sv: SpecValue, end: int|
                    (pos as int) < end <= input@.len() && representable(sv) implies encoded(sv)
                    != input@.subrange(pos as int, end) by {
                    if encoded(sv) == input@.subrange(pos as int, end) {
                        lemma_encoded_first_byte(sv);
                        assert(encoded(sv)[0] == input@[pos as int]);
                        if sv is Int {
                            let nn = sv->Int_0;
                            lemma_int_candidate(input@, pos as int, neg, p as int, nn, end);
                            let magv = (if nn < 0 { -nn } else { nn }) as nat;
                            lemma_run_matches(
                                input@,
                                p as int,
                                mag as nat,
                                pd as int,
                                magv,
                                end - 1,
                            );
                            assert(input@[pd as int] == 101);
                        }
                        assert(false);
                    }
                }
            }
            return Err(ParseError { offset: pd });
        }
        if neg && mag == 0 {
            proof {
                assert(dec_digits(0) =~= seq![48u8]);
                assert(input@[p as int] == input@.subrange(p as int, pd as int)[0]);
                assert(input@[p as int] == 48);
                assert forall|sv: SpecValue, end: int|
                    (pos as int) < end <= input@.len() && representable(sv) implies encoded(sv)
                    != input@.subrange(pos as int, end) by {
                    if encoded(sv) == input@.subrange(pos as int, end) {
                        lemma_encoded_first_byte(sv);
                        assert(encoded(sv)[0] == input@[pos as int]);
                        if sv is Int {
                            let nn = sv->Int_0;
                            lemma_int_candidate(input@, pos as int, neg, p as int, nn, end);
                            assert(nn < 0);
                            lemma_dec_digits_range((-nn) as nat);
                            assert(dec_digits((-nn) as nat)[0] == input@.subrange(
                                p as int,
                                end - 1,
                            )[0]);
                            lemma_dec_digits_leading((-nn) as nat);
                        }
                        assert(false);
                    }
                }
            }
            return Err(ParseError { offset: p });
        }
        let v: Value;
        if neg {
            if mag > 9223372036854775808 {
                proof {
                    lemma_int_out_of_range(input@, pos as int, neg, p as int, mag as nat, pd as int);
                }
                return Err(ParseError { offset: p });
            }
            let n = (-(mag as i128)) as i64;
            assert(n as int == -(mag as int));
            v = Value::Int(n);
        } else {
            if mag > 9223372036854775807 {
                proof {
                    lemma_int_out_of_range(input@, pos as int, neg, p as int, mag as nat, pd as int);
                }
                return Err(ParseError { offset: p });
            }
            v = Value::Int(mag as i64);
        }
        let end = pd + 1;
        proof {
            if neg {
                assert(dec_int(v.deep()->Int_0) =~= seq![45u8] + dec_digits(mag as nat));
                assert(input@.subrange(pos as int, end as int) =~= seq![105u8] + seq![45u8]
                    + input@.subrange(p as int, pd as int) + seq![101u8]);
            } else {
                assert(input@.subrange(pos as int, end as int) =~= seq![105u8]
                    + input@.subrange(p as int, pd as int) + seq![101u8]);
            }
            assert(encoded(v.deep()) =~= input@.subrange(pos as int, end as int));
        }
        Ok((v, end))
    } else if c == 108 {
        // list
        let (xs, end) = match parse_items(input, pos + 1) {
            Ok(t) => t,
            Err(e) => {
                proof {
                    assert forall|sv: SpecValue, end: int|
                        (pos as int) < end <= input@.len() && representable(sv) implies encoded(
                        sv,
                    ) != input@.subrange(pos as int, end) by {
                        if encoded(sv) == input@.subrange(pos as int, end) {
                            lemma_encoded_first_byte(sv);
                            assert(encoded(sv)[0] == input@[pos as int]);
                            if sv is List {
                                let xs2 = sv->List_0;
                                assert(seq![108u8] + (encoded_items(xs2) + seq![101u8])
                                    =~= encoded(sv));
                                lemma_split_at(
                                    input@,
                                    pos as int,
                                    end,
                                    seq![108u8],
                                    encoded_items(xs2) + seq![101u8],
                                );
                                assert(encoded_items(xs2) + seq![101u8] == input@.subrange(
                                    pos as int + 1,
                                    end,
                                ));
                                assert(forall|k: int|
                                    0 <= k < xs2.len() ==> representable(#[trigger] xs2[k]));
                            }
                            assert(false);
                        }
                    }
                }
                return Err(e);
            },
        };
        let v = Value::List(xs);
        proof {
            assert(input@.subrange(pos as int, end as int) =~= seq![108u8] + input@.subrange(
                pos as int + 1,
                end as int,
            ));
            assert(encoded(v.deep()) =~= input@.subrange(pos as int, end as int));
        }
        Ok((v, end))
    } else if c == 100 {
        // dictionary
        let (es, end) = match parse_entries(input, pos + 1) {
            Ok(t) => t,
            Err(e) => {
                proof {
                    assert forall|sv: SpecValue, end: int|
                        (pos as int) < end <= input@.len() && representable(sv) implies encoded(
                        sv,
                    ) != input@.subrange(pos as int, end) by {
                        if encoded(sv) == input@.subrange(pos as int, end) {
                            lemma_encoded_first_byte(sv);
                            assert(encoded(sv)[0] == input@[pos as int]);
                            if sv is Dict {
                                let es2 = sv->Dict_0;
                                assert(seq![100u8] + (encoded_entries(es2) + seq![101u8])
                                    =~= encoded(sv));
                                lemma_split_at(
                                    input@,
                                    pos as int,
                                    end,
                                    seq![100u8],
                                    encoded_entries(es2) + seq![101u8],
                                );
                                assert(encoded_entries(es2) + seq![101u8] == input@.subrange(
                                    pos as int + 1,
                                    end,
                                ));
                                assert(forall|k: int|
                                    0 <= k < es2.len() ==> representable(#[trigger] es2[k].1));
                            }
                            assert(false);
                        }
                    }
                }
                return Err(e);
            },
        };
        let v = Value::Dict(es);
        proof {
            assert(input@.subrange(pos as int, end as int) =~= seq![100u8] + input@.subrange(
                pos as int + 1,
                end as int,
            ));
            assert(encoded(v.deep()) =~= input@.subrange(pos as int, end as int));
        }
        Ok((v, end))
    } else if 48 <= c && c <= 57 {
        // byte string
        let (b, end) = match parse_bytes(input, pos) {
            Ok(t) => t,
            Err(e) => {
                proof {
                    assert forall|sv: SpecValue, end: int|
                        (pos as int) < end <= input@.len() && representable(sv) implies encoded(
                        sv,
                    ) != input@.subrange(pos as int, end) by {
                        if encoded(sv) == input@.subrange(pos as int, end) {
                            lemma_encoded_first_byte(sv);
                            assert(encoded(sv)[0] == input@[pos as int]);
                            if sv is Bytes {
                                assert(str_encoded(sv->Bytes_0) == input@.subrange(
                                    pos as int,
                                    end,
                                ));
                            }
                            assert(false);
                        }
                    }
                }
                return Err(e);
            },
        };
        Ok((Value::Bytes(b), end))
    } else {
        proof {
            assert forall|sv: SpecValue, end: int|
                (pos as int) < end <= input@.len() && representable(sv) implies encoded(sv)
                != input@.subrange(pos as int, end) by {
                if encoded(sv) == input@.subrange(pos as int, end) {
                    lemma_encoded_first_byte(sv);
                    assert(encoded(sv)[0] == input@[pos as int]);
                    assert(false);
                }
            }
        }
        Err(ParseError { offset: pos })
    }
}

/// Reads list values until the closing `e`, which it consumes.
fn parse_items(input: &[u8], pos: usize) -> (r: Result<(Vec<Value>, usize), ParseError>)
    requires
        pos <= input@.len(),
    ensures
        match r {
            Ok((xs, end)) => pos < end <= input@.len() && encoded_items(items_view(xs@))
                + seq![101u8] == input@.subrange(pos as int, end as int),
            Err(_) => forall|xs: Seq<SpecValue>, end: int|
                #![trigger encoded_items(xs), input@.subrange(pos as int, end)]
                (pos as int) < end <= input@.len() && (forall|k: int|
                    0 <= k < xs.len() ==> representable(#[trigger] xs[k])) ==> encoded_items(xs)
                    + seq![101u8] != input@.subrange(pos as int, end),
        },
    decreases input@.len() - pos, 2int,
{
    if pos == input.len() {
        return Err(ParseError { offset: pos });
    }
    if input[pos] == 101 {
        let xs: Vec<Value> = Vec::new();
        proof {
            assert(items_view(xs@) =~= Seq::<SpecValue>::empty());
            assert(encoded_items(items_view(xs@)) + seq![101u8] =~= input@.subrange(
                pos as int,
                pos as int + 1,
            ));
        }
        return Ok((xs, pos + 1));
    }
    let (v, p1) = match parse_value(input, pos) {
        Ok(t) => t,
        Err(e) => {
            proof {
                assert forall|xs: Seq<SpecValue>, end: int|
                    (pos as int) < end <= input@.len() && (forall|k: int|
                        0 <= k < xs.len() ==> representable(#[trigger] xs[k])) implies
                    encoded_items(xs) + seq![101u8] != input@.subrange(pos as int, end) by {
                    if encoded_items(xs) + seq![101u8] == input@.subrange(pos as int, end) {
                        if xs.len() == 0 {
                            assert(encoded_items(xs) + seq![101u8] =~= seq![101u8]);
                            assert(input@[pos as int] == input@.subrange(pos as int, end)[0]);
                            assert(input@[pos as int] == 101);
                        } else {
                            lemma_encoded_first_byte(xs.first());
                            assert(encoded(xs.first()) + (encoded_items(xs.drop_first())
                                + seq![101u8]) =~= input@.subrange(pos as int, end));
                            lemma_split_at(
                                input@,
                                pos as int,
                                end,
                                encoded(xs.first()),
                                encoded_items(xs.drop_first()) + seq![101u8],
                            );
                            assert(xs.first() == xs[0]);
                            assert(representable(xs[0]));
                            assert(encoded(xs.first()) == input@.subrange(
                                pos as int,
                                pos + encoded(xs.first()).len(),
                            ));
                        }
                        assert(false);
                    }
                }
            }
            return Err(e);
        },
    };
    let (mut xs, end) = match parse_items(input, p1) {
        Ok(t) => t,
        Err(e) => {
            proof {
                lemma_encoded_first_byte(v@);
                assert forall|xs2: Seq<SpecValue>, end: int|
                    (pos as int) < end <= input@.len() && (forall|k: int|
                        0 <= k < xs2.len() ==> representable(#[trigger] xs2[k])) implies
                    encoded_items(xs2) + seq![101u8] != input@.subrange(pos as int, end) by {
                    if encoded_items(xs2) + seq![101u8] == input@.subrange(pos as int, end) {
                        if xs2.len() == 0 {
                            assert(encoded_items(xs2) + seq![101u8] =~= seq![101u8]);
                            assert(input@[pos as int] == input@.subrange(pos as int, end)[0]);
                            assert(input@[pos as int] == 101);
                            assert(encoded(v@)[0] == input@[pos as int]);
                        } else {
                            lemma_encoded_first_byte(xs2.first());
                            // line both candidate and parsed value up against
                            // the whole remaining input
                            assert(encoded(xs2.first()) + (encoded_items(xs2.drop_first())
                                + seq![101u8]) =~= input@.subrange(pos as int, end));
                            lemma_split_at(
                                input@,
                                pos as int,
                                end,
                                encoded(xs2.first()),
                                encoded_items(xs2.drop_first()) + seq![101u8],
                            );
                            let kk = encoded(xs2.first()).len() as int;
                            assert(encoded(xs2.first()) + input@.subrange(
                                pos + kk,
                                input@.len() as int,
                            ) =~= input@.subrange(pos as int, input@.len() as int));
                            assert(encoded(v@) + input@.subrange(p1 as int, input@.len() as int)
                                =~= input@.subrange(pos as int, input@.len() as int));
                            lemma_encoded_unambiguous(
                                xs2.first(),
                                v@,
                                input@.subrange(pos + kk, input@.len() as int),
                                input@.subrange(p1 as int, input@.len() as int),
                            );
                            assert(pos + kk == p1 as int);
                            assert(encoded_items(xs2.drop_first()) + seq![101u8]
                                == input@.subrange(p1 as int, end));
                            assert(forall|k: int|
                                0 <= k < xs2.drop_first().len() ==> representable(
                                    #[trigger] xs2.drop_first()[k]));
                            assert((p1 as int) < end);
                        }
                        assert(false);
                    }
                }
            }
            return Err(e);
        },
    };
    let ghost tail = xs@;
    xs.insert(0, v);
    proof {
        assert(xs@.drop_first() =~= tail);
        assert(xs@.first() == v);
        let m = seq![v.deep()] + items_view(tail);
        assert(items_view(xs@) == m);
        assert(m.first() == v.deep());
        assert(m.drop_first() =~= items_view(tail));
        assert(encoded_items(m) == encoded(v.deep()) + encoded_items(items_view(tail)));
        assert(input@.subrange(pos as int, end as int) =~= input@.subrange(pos as int, p1 as int)
            + input@.subrange(p1 as int, end as int));
        assert(encoded_items(items_view(xs@)) + seq![101u8] =~= input@.subrange(
            pos as int,
            end as int,
        ));
    }
    Ok((xs, end))
}

/// Reads dictionary entries until the closing `e`, which it consumes.
/// Entry order is kept exactly as read.
fn parse_entries(input: &[u8], pos: usize) -> (r: Result<(Vec<(Vec<u8>, Value)>, usize), ParseError>)
    requires
        pos <= input@.len(),
    ensures
        match r {
            Ok((es, end)) => pos < end <= input@.len() && encoded_entries(entries_view(es@))
                + seq![101u8] == input@.subrange(pos as int, end as int),
            Err(_) => forall|es: Seq<(Seq<u8>, SpecValue)>, end: int|
                #![trigger encoded_entries(es), input@.subrange(pos as int, end)]
                (pos as int) < end <= input@.len() && (forall|k: int|
                    0 <= k < es.len() ==> representable(#[trigger] es[k].1)) ==> encoded_entries(
                    es,
                ) + seq![101u8] != input@.subrange(pos as int, end),
        },
    decreases input@.len() - pos, 2int,
{
    if pos == input.len() {
        return Err(ParseError { offset: pos });
    }
    if input[pos] == 101 {
        let es: Vec<(Vec<u8>, Value)> = Vec::new();
        proof {
            assert(entries_view(es@) =~= Seq::<(Seq<u8>, SpecValue)>::empty());
            assert(encoded_entries(entries_view(es@)) + seq![101u8] =~= input@.subrange(
                pos as int,
                pos as int + 1,
            ));
        }
        return Ok((es, pos + 1));
    }
    let (k, p1) = match parse_bytes(input, pos) {
        Ok(t) => t,
        Err(e) => {
            proof {
                assert forall|es: Seq<(Seq<u8>, SpecValue)>, end: int|
                    (pos as int) < end <= input@.len() && (forall|j: int|
                        0 <= j < es.len() ==> representable(#[trigger] es[j].1)) implies
                    encoded_entries(es) + seq![101u8] != input@.subrange(pos as int, end) by {
                    if encoded_entries(es) + seq![101u8] == input@.subrange(pos as int, end) {
                        if es.len() == 0 {
                            assert(encoded_entries(es) + seq![101u8] =~= seq![101u8]);
                            assert(input@[pos as int] == input@.subrange(pos as int, end)[0]);
                            assert(input@[pos as int] == 101);
                        } else {
                            assert(str_encoded(es.first().0) + (encoded(es.first().1)
                                + (encoded_entries(es.drop_first()) + seq![101u8]))
                                =~= input@.subrange(pos as int, end));
                            lemma_split_at(
                                input@,
                                pos as int,
                                end,
                                str_encoded(es.first().0),
                                encoded(es.first().1) + (encoded_entries(es.drop_first())
                                    + seq![101u8]),
                            );
                            lemma_dec_digits_range(es.first().0.len());
                            assert(str_encoded(es.first().0) == input@.subrange(
                                pos as int,
                                pos + str_encoded(es.first().0).len(),
                            ));
                        }
                        assert(false);
                    }
                }
            }
            return Err(e);
        },
    };
    let (v, p2) = match parse_value(input, p1) {
        Ok(t) => t,
        Err(e) => {
            proof {
                assert forall|es: Seq<(Seq<u8>, SpecValue)>, end: int|
                    (pos as int) < end <= input@.len() && (forall|j: int|
                        0 <= j < es.len() ==> representable(#[trigger] es[j].1)) implies
                    encoded_entries(es) + seq![101u8] != input@.subrange(pos as int, end) by {
                    if encoded_entries(es) + seq![101u8] == input@.subrange(pos as int, end) {
                        if es.len() == 0 {
                            assert(encoded_entries(es) + seq![101u8] =~= seq![101u8]);
                            assert(input@[pos as int] == input@.subrange(pos as int, end)[0]);
                            assert(input@[pos as int] == 101);
                            lemma_dec_digits_range(k@.len());
                            assert(str_encoded(k@)[0] == input@.subrange(
                                pos as int,
                                p1 as int,
                            )[0]);
                            assert(48 <= input@[pos as int] <= 57);
                        } else {
                            assert(str_encoded(es.first().0) + (encoded(es.first().1)
                                + (encoded_entries(es.drop_first()) + seq![101u8]))
                                =~= input@.subrange(pos as int, end));
                            lemma_split_at(
                                input@,
                                pos as int,
                                end,
                                str_encoded(es.first().0),
                                encoded(es.first().1) + (encoded_entries(es.drop_first())
                                    + seq![101u8]),
                            );
                            let kk = str_encoded(es.first().0).len() as int;
                            assert(str_encoded(es.first().0) + input@.subrange(
                                pos + kk,
                                input@.len() as int,
                            ) =~= input@.subrange(pos as int, input@.len() as int));
                            assert(str_encoded(k@) + input@.subrange(
                                p1 as int,
                                input@.len() as int,
                            ) =~= input@.subrange(pos as int, input@.len() as int));
                            lemma_str_unambiguous(
                                es.first().0,
                                k@,
                                input@.subrange(pos + kk, input@.len() as int),
                                input@.subrange(p1 as int, input@.len() as int),
                            );
                            assert(pos + kk == p1 as int);
                            assert(encoded(es.first().1) + (encoded_entries(es.drop_first())
                                + seq![101u8]) == input@.subrange(p1 as int, end));
                            lemma_split_at(
                                input@,
                                p1 as int,
                                end,
                                encoded(es.first().1),
                                encoded_entries(es.drop_first()) + seq![101u8],
                            );
                            assert(es.first() == es[0]);
                            assert(representable(es[0].1));
                            assert(encoded(es.first().1) == input@.subrange(
                                p1 as int,
                                p1 + encoded(es.first().1).len(),
                            ));
                            lemma_encoded_first_byte(es.first().1);
                        }
                        assert(false);
                    }
                }
            }
            return Err(e);
        },
    };
    let (mut es, end) = match parse_entries(input, p2) {
        Ok(t) => t,
        Err(e) => {
            proof {
                assert forall|es2: Seq<(Seq<u8>, SpecValue)>, end: int|
                    (pos as int) < end <= input@.len() && (forall|j: int|
                        0 <= j < es2.len() ==> representable(#[trigger] es2[j].1)) implies
                    encoded_entries(es2) + seq![101u8] != input@.subrange(pos as int, end) by {
                    if encoded_entries(es2) + seq![101u8] == input@.subrange(pos as int, end) {
                        if es2.len() == 0 {
                            assert(encoded_entries(es2) + seq![101u8] =~= seq![101u8]);
                            assert(input@[pos as int] == input@.subrange(pos as int, end)[0]);
                            assert(input@[pos as int] == 101);
                            lemma_dec_digits_range(k@.len());
                            assert(str_encoded(k@)[0] == input@.subrange(
                                pos as int,
                                p1 as int,
                            )[0]);
                            assert(48 <= input@[pos as int] <= 57);
                        } else {
                            assert(str_encoded(es2.first().0) + (encoded(es2.first().1)
                                + (encoded_entries(es2.drop_first()) + seq![101u8]))
                                =~= input@.subrange(pos as int, end));
                            lemma_split_at(
                                input@,
                                pos as int,
                                end,
                                str_encoded(es2.first().0),
                                encoded(es2.first().1) + (encoded_entries(es2.drop_first())
                                    + seq![101u8]),
                            );
                            let kk = str_encoded(es2.first().0).len() as int;
                            assert(str_encoded(es2.first().0) + input@.subrange(
                                pos + kk,
                                input@.len() as int,
                            ) =~= input@.subrange(pos as int, input@.len() as int));
                            assert(str_encoded(k@) + input@.subrange(
                                p1 as int,
                                input@.len() as int,
                            ) =~= input@.subrange(pos as int, input@.len() as int));
                            lemma_str_unambiguous(
                                es2.first().0,
                                k@,
                                input@.subrange(pos + kk, input@.len() as int),
                                input@.subrange(p1 as int, input@.len() as int),
                            );
                            assert(pos + kk == p1 as int);
                            assert(encoded(es2.first().1) + (encoded_entries(es2.drop_first())
                                + seq![101u8]) == input@.subrange(p1 as int, end));
                            lemma_split_at(
                                input@,
                                p1 as int,
                                end,
                                encoded(es2.first().1),
                                encoded_entries(es2.drop_first()) + seq![101u8],
                            );
                            let vv = encoded(es2.first().1).len() as int;
                            assert(encoded(es2.first().1) + input@.subrange(
                                p1 + vv,
                                input@.len() as int,
                            ) =~= input@.subrange(p1 as int, input@.len() as int));
                            assert(encoded(v@) + input@.subrange(p2 as int, input@.len() as int)
                                =~= input@.subrange(p1 as int, input@.len() as int));
                            lemma_encoded_unambiguous(
                                es2.first().1,
                                v@,
                                input@.subrange(p1 + vv, input@.len() as int),
                                input@.subrange(p2 as int, input@.len() as int),
                            );
                            assert(p1 + vv == p2 as int);
                            assert(encoded_entries(es2.drop_first()) + seq![101u8]
                                == input@.subrange(p2 as int, end));
                            assert(forall|j: int|
                                0 <= j < es2.drop_first().len() ==> representable(
                                    #[trigger] es2.drop_first()[j].1));
                            assert((p2 as int) < end);
                        }
                        assert(false);
                    }
                }
            }
            return Err(e);
        },
    };
    let ghost tail = es@;
    es.insert(0, (k, v));
    proof {
        assert(es@.drop_first() =~= tail);
        assert(es@.first() == (k, v));
        let m = seq![(k@, v.deep())] + entries_view(tail);
        assert(entries_view(es@) == m);
        assert(m.first() == (k@, v.deep()));
        assert(m.drop_first() =~= entries_view(tail));
        assert(encoded_entries(m) == str_encoded(k@) + encoded(v.deep()) + encoded_entries(
            entries_view(tail),
        ));
        assert(input@.subrange(pos as int, end as int) =~= input@.subrange(pos as int, p1 as int)
            + input@.subrange(p1 as int, p2 as int) + input@.subrange(p2 as int, end as int));
        assert(encoded_entries(entries_view(es@)) + seq![101u8] =~= input@.subrange(
            pos as int,
            end as int,
        ));
    }
    Ok((es, end))
}

/// Decodes a whole bencode document. On success the returned value, with
/// dictionary entries in the order they were read, re-encodes to exactly
/// the input bytes; decoding fails only when the input is the wire form
/// of no representable value at all.
pub fn decode(input: &[u8]) -> (r: Result<Value, ParseError>)
    ensures
        match r {
            Ok(v) => encoded(v@) == input@,
            Err(_) => forall|sv: SpecValue|
                representable(sv) ==> #[trigger] encoded(sv) != input@,
        },
{
    let ilen = input.len();
    match parse_value(input, 0) {
        Ok((v, end)) => {
            if end == ilen {
                proof {
                    assert(input@.subrange(0, input@.len() as int) =~= input@);
                }
                Ok(v)
            } else {
                proof {
                    assert forall|sv: SpecValue| representable(sv) implies #[trigger] encoded(sv)
                        != input@ by {
                        if encoded(sv) == input@ {
                            assert(encoded(sv) + Seq::<u8>::empty() =~= input@.subrange(
                                0,
                                input@.len() as int,
                            ));
                            assert(encoded(v@) + input@.subrange(end as int, input@.len() as int)
                                =~= input@.subrange(0, input@.len() as int));
                            lemma_encoded_unambiguous(
                                sv,
                                v@,
                                Seq::empty(),
                                input@.subrange(end as int, input@.len() as int),
                            );
                            assert(Seq::<u8>::empty() =~= input@.subrange(
                                end as int,
                                input@.len() as int,
                            ));
                        }
                    }
                }
                Err(ParseError { offset: end })
            }
        },
        Err(e) => {
            proof {
                assert forall|sv: SpecValue| representable(sv) implies #[trigger] encoded(sv)
                    != input@ by {
                    if encoded(sv) == input@ {
                        lemma_encoded_first_byte(sv);
                        assert(encoded(sv) == input@.subrange(0, input@.len() as int)) by {
                            assert(input@.subrange(0, input@.len() as int) =~= input@);
                        }
                        assert(0 < input@.len());
                    }
                }
            }
            Err(e)
        },
    }
}


/// The value under the first occurrence of `k`, if any.
pub open spec fn lookup(es: Seq<(Seq<u8>, SpecValue)>, k: Seq<u8>) -> Option<SpecValue>
    decreases es,
{
    if es.len() == 0 {
        None
    } else if es.first().0 == k {
        Some(es.first().1)
    } else {
        lookup(es.drop_first(), k)
    }
}

/// Byte-wise equality of two byte vectors.
pub fn bytes_eq(a: &Vec<u8>, b: &Vec<u8>) -> (r: bool)
    ensures
        r == (a@ == b@),
{
    if a.len() != b.len() {
        return false;
    }
    let mut i: usize = 0;
    while i < a.len()
        invariant
            a@.len() == b@.len(),
            i <= a@.len(),
            forall|j: int| 0 <= j < i ==> a@[j] == b@[j],
        decreases a@.len() - i,
    {
        if a[i] != b[i] {
            return false;
        }
        i = i + 1;
    }
    proof {
        assert(a@ =~= b@);
    }
    true
}

/// Finds the value stored under `key` in a dictionary's entries; the first
/// occurrence wins, matching `lookup`.
pub fn dict_get<'a>(es: &'a Vec<(Vec<u8>, Value)>, key: &Vec<u8>) -> (r: Option<&'a Value>)
    ensures
        match r {
            Some(v) => lookup(entries_view(es@), key@) == Some(v@),
            None => lookup(entries_view(es@), key@) is None,
        },
{
    proof {
        lemma_entries_view(es@);
        assert(entries_view(es@).skip(0) =~= entries_view(es@));
    }
    let ghost q = entries_view(es@);
    let mut i: usize = 0;
    while i < es.len()
        invariant
            i <= es@.len(),
            q == entries_view(es@),
            q.len() == es@.len(),
            forall|j: int| 0 <= j < es@.len() ==> q[j] == (es@[j].0@, es@[j].1.deep()),
            lookup(q, key@) == lookup(q.skip(i as int), key@),
        decreases es@.len() - i,
    {
        proof {
            assert(q.skip(i as int).first() == q[i as int]);
            assert(q.skip(i as int).drop_first() =~= q.skip(i as int + 1));
        }
        if bytes_eq(&es[i].0, key) {
            return Some(&es[i].1);
        }
        i = i + 1;
    }
    proof {
        assert(q.skip(es@.len() as int) =~= Seq::<(Seq<u8>, SpecValue)>::empty());
    }
    None
}


/// Every byte of a canonical digit run is an ASCII digit, and the run is
/// nonempty.
proof fn lemma_dec_digits_range(n: nat)
    ensures
        dec_digits(n).len() >= 1,
        forall|i: int| 0 <= i < dec_digits(n).len() ==> 48 <= #[trigger] dec_digits(n)[i] <= 57,
    decreases n,
{
    if n < 10 {
        assert(dec_digits(n) =~= seq![(48 + n) as u8]);
    } else {
        lemma_dec_digits_range(n / 10);
        let t = dec_digits(n / 10);
        assert forall|i: int| 0 <= i < dec_digits(n).len() implies 48 <= #[trigger] dec_digits(
            n,
        )[i] <= 57 by {
            if i < t.len() {
                assert(dec_digits(n)[i] == t[i]);
            } else {
                assert(dec_digits(n)[i] == (48 + n % 10) as u8);
            }
        }
    }
}

/// A number is recovered from its own digits: the decimal form is
/// injective.
proof fn lemma_digits_val_of_dec_digits(n: nat)
    ensures
        digits_val(dec_digits(n)) == n,
    decreases n,
{
    if n < 10 {
        assert(dec_digits(n) =~= seq![(48 + n) as u8]);
        assert(dec_digits(n).drop_last() =~= Seq::<u8>::empty());
        assert(digits_val(dec_digits(n).drop_last()) == 0);
    } else {
        lemma_digits_val_of_dec_digits(n / 10);
        let t = dec_digits(n / 10);
        assert(dec_digits(n) == t.push((48 + n % 10) as u8));
        assert(dec_digits(n).drop_last() =~= t);
        assert(digits_val(dec_digits(n)) == digits_val(t) * 10 + (n % 10));
        assert((n / 10) * 10 + n % 10 == n) by (nonlinear_arith);
    }
}

/// Equal sequences with one head: equal tails.
proof fn lemma_cons_tail_eq(t: u8, r1: Seq<u8>, r2: Seq<u8>)
    requires
        seq![t] + r1 == seq![t] + r2,
    ensures
        r1 == r2,
{
    assert((seq![t] + r1).len() == 1 + r1.len());
    assert((seq![t] + r2).len() == 1 + r2.len());
    assert forall|i: int| 0 <= i < r1.len() implies r1[i] == r2[i] by {
        assert((seq![t] + r1)[1 + i] == r1[i]);
        assert((seq![t] + r2)[1 + i] == r2[i]);
    }
    assert(r1 =~= r2);
}

/// A sequence is its first element before the rest.
proof fn lemma_first_drop_eq<A>(s1: Seq<A>, s2: Seq<A>)
    requires
        s1.len() >= 1,
        s2.len() >= 1,
        s1.first() == s2.first(),
        s1.drop_first() == s2.drop_first(),
    ensures
        s1 == s2,
{
    assert(s1.len() == 1 + s1.drop_first().len());
    assert(s2.len() == 1 + s2.drop_first().len());
    assert forall|i: int| 0 <= i < s1.len() implies s1[i] == s2[i] by {
        if i > 0 {
            assert(s1[i] == s1.drop_first()[i - 1]);
            assert(s2[i] == s2.drop_first()[i - 1]);
        }
    }
    assert(s1 =~= s2);
}

/// Splitting on a terminator byte that appears in neither prefix: the
/// prefixes and the remainders agree.
proof fn lemma_terminator_split(d1: Seq<u8>, d2: Seq<u8>, t: u8, r1: Seq<u8>, r2: Seq<u8>)
    requires
        d1 + seq![t] + r1 == d2 + seq![t] + r2,
        forall|i: int| 0 <= i < d1.len() ==> d1[i] != t,
        forall|i: int| 0 <= i < d2.len() ==> d2[i] != t,
    ensures
        d1 == d2,
        r1 == r2,
    decreases d1.len(),
{
    let a = d1 + seq![t] + r1;
    let b = d2 + seq![t] + r2;
    if d1.len() == 0 {
        assert(a[0] == t);
        if d2.len() > 0 {
            assert(b[0] == d2[0]);
            assert(false);
        }
        assert(d1 =~= d2);
        assert(seq![t] + r1 =~= a);
        assert(seq![t] + r2 =~= b);
        lemma_cons_tail_eq(t, r1, r2);
    } else {
        if d2.len() == 0 {
            assert(b[0] == t);
            assert(a[0] == d1[0]);
            assert(false);
        }
        assert(a[0] == d1[0] && b[0] == d2[0]);
        assert(d1.drop_first() + seq![t] + r1 =~= a.drop_first());
        assert(d2.drop_first() + seq![t] + r2 =~= b.drop_first());
        lemma_terminator_split(d1.drop_first(), d2.drop_first(), t, r1, r2);
        lemma_first_drop_eq(d1, d2);
    }
}

/// Splitting two equal concatenations whose prefixes have equal length.
proof fn lemma_equal_len_split(p1: Seq<u8>, p2: Seq<u8>, r1: Seq<u8>, r2: Seq<u8>)
    requires
        p1 + r1 == p2 + r2,
        p1.len() == p2.len(),
    ensures
        p1 == p2,
        r1 == r2,
{
    assert((p1 + r1).len() == p1.len() + r1.len());
    assert((p2 + r2).len() == p2.len() + r2.len());
    assert(r1.len() == r2.len());
    assert forall|i: int| 0 <= i < p1.len() implies p1[i] == p2[i] by {
        assert((p1 + r1)[i] == p1[i]);
        assert((p2 + r2)[i] == p2[i]);
    }
    assert(p1 =~= p2);
    assert forall|i: int| 0 <= i < r1.len() implies r1[i] == r2[i] by {
        let j = p1.len() as int + i;
        assert((p1 + r1)[j] == r1[i]);
        assert((p2 + r2)[j] == r2[i]);
    }
    assert(r1 =~= r2);
}

/// A byte-string encoding is read off unambiguously: equal tails follow
/// equal strings.
proof fn lemma_str_unambiguous(b1: Seq<u8>, b2: Seq<u8>, r1: Seq<u8>, r2: Seq<u8>)
    requires
        str_encoded(b1) + r1 == str_encoded(b2) + r2,
    ensures
        b1 == b2,
        r1 == r2,
{
    lemma_dec_digits_range(b1.len());
    lemma_dec_digits_range(b2.len());
    assert(dec_digits(b1.len()) + seq![58u8] + (b1 + r1) =~= str_encoded(b1) + r1);
    assert(dec_digits(b2.len()) + seq![58u8] + (b2 + r2) =~= str_encoded(b2) + r2);
    lemma_terminator_split(
        dec_digits(b1.len()),
        dec_digits(b2.len()),
        58,
        b1 + r1,
        b2 + r2,
    );
    lemma_digits_val_of_dec_digits(b1.len());
    lemma_digits_val_of_dec_digits(b2.len());
    assert(b1.len() == b2.len());
    lemma_equal_len_split(b1, b2, r1, r2);
}

/// The first byte of any encoding marks its kind: `i`, `l`, `d`, or a
/// decimal digit; in particular it is never the terminator `e`.
proof fn lemma_encoded_first_byte(v: SpecValue)
    ensures
        encoded(v).len() >= 1,
        v is Int ==> encoded(v)[0] == 105,
        v is List ==> encoded(v)[0] == 108,
        v is Dict ==> encoded(v)[0] == 100,
        v is Bytes ==> 48 <= encoded(v)[0] <= 57,
{
    match v {
        SpecValue::Int(n) => {
            assert(encoded(v)[0] == 105);
        },
        SpecValue::Bytes(b) => {
            lemma_dec_digits_range(b.len());
            assert(encoded(v)[0] == dec_digits(b.len())[0]);
        },
        SpecValue::List(xs) => {
            assert(encoded(v)[0] == 108);
        },
        SpecValue::Dict(es) => {
            assert(encoded(v)[0] == 100);
        },
    }
}

/// The decimal form of an integer never holds the byte `e`.
proof fn lemma_dec_int_no_e(n: int)
    ensures
        forall|i: int| 0 <= i < dec_int(n).len() ==> dec_int(n)[i] != 101,
{
    if n < 0 {
        lemma_dec_digits_range((-n) as nat);
        assert forall|i: int| 0 <= i < dec_int(n).len() implies dec_int(n)[i] != 101 by {
            if i > 0 {
                assert(dec_int(n)[i] == dec_digits((-n) as nat)[i - 1]);
            }
        }
    } else {
        lemma_dec_digits_range(n as nat);
    }
}

/// The decimal form is injective over the integers.
proof fn lemma_dec_int_injective(a: int, b: int)
    requires
        dec_int(a) == dec_int(b),
    ensures
        a == b,
{
    lemma_dec_digits_range(a as nat);
    lemma_dec_digits_range(b as nat);
    lemma_dec_digits_range((-a) as nat);
    lemma_dec_digits_range((-b) as nat);
    if a < 0 && b < 0 {
        assert(dec_int(a).drop_first() =~= dec_digits((-a) as nat));
        assert(dec_int(b).drop_first() =~= dec_digits((-b) as nat));
        lemma_digits_val_of_dec_digits((-a) as nat);
        lemma_digits_val_of_dec_digits((-b) as nat);
    } else if a >= 0 && b >= 0 {
        lemma_digits_val_of_dec_digits(a as nat);
        lemma_digits_val_of_dec_digits(b as nat);
    } else if a < 0 {
        assert(dec_int(a)[0] == 45);
        assert(dec_int(b)[0] == dec_digits(b as nat)[0]);
        assert(false);
    } else {
        assert(dec_int(b)[0] == 45);
        assert(dec_int(a)[0] == dec_digits(a as nat)[0]);
        assert(false);
    }
}

/// Wire forms are prefix-unambiguous: if two encodings agree once their
/// tails are appended, the values and the tails agree.
proof fn lemma_encoded_unambiguous(v1: SpecValue, v2: SpecValue, r1: Seq<u8>, r2: Seq<u8>)
    requires
        encoded(v1) + r1 == encoded(v2) + r2,
    ensures
        v1 == v2,
        r1 == r2,
    decreases v1,
{
    lemma_encoded_first_byte(v1);
    lemma_encoded_first_byte(v2);
    assert((encoded(v1) + r1)[0] == encoded(v1)[0]);
    assert((encoded(v2) + r2)[0] == encoded(v2)[0]);
    match (v1, v2) {
        (SpecValue::Int(a), SpecValue::Int(b)) => {
            assert(dec_int(a) + seq![101u8] + r1 =~= (encoded(v1) + r1).drop_first());
            assert(dec_int(b) + seq![101u8] + r2 =~= (encoded(v2) + r2).drop_first());
            lemma_dec_int_no_e(a);
            lemma_dec_int_no_e(b);
            lemma_terminator_split(dec_int(a), dec_int(b), 101, r1, r2);
            lemma_dec_int_injective(a, b);
        },
        (SpecValue::Bytes(b1), SpecValue::Bytes(b2)) => {
            lemma_str_unambiguous(b1, b2, r1, r2);
            assert(v1 =~= v2);
        },
        (SpecValue::List(xs1), SpecValue::List(xs2)) => {
            assert(encoded_items(xs1) + seq![101u8] + r1 =~= (encoded(v1) + r1).drop_first());
            assert(encoded_items(xs2) + seq![101u8] + r2 =~= (encoded(v2) + r2).drop_first());
            lemma_items_unambiguous(xs1, xs2, r1, r2);
            assert(v1 =~= v2);
        },
        (SpecValue::Dict(es1), SpecValue::Dict(es2)) => {
            assert(encoded_entries(es1) + seq![101u8] + r1 =~= (encoded(v1) + r1).drop_first());
            assert(encoded_entries(es2) + seq![101u8] + r2 =~= (encoded(v2) + r2).drop_first());
            lemma_entries_unambiguous(es1, es2, r1, r2);
            assert(v1 =~= v2);
        },
        _ => {
            assert(false);
        },
    }
}

/// List bodies are read off unambiguously up to their closing `e`.
proof fn lemma_items_unambiguous(xs1: Seq<SpecValue>, xs2: Seq<SpecValue>, r1: Seq<u8>, r2: Seq<u8>)
    requires
        encoded_items(xs1) + seq![101u8] + r1 == encoded_items(xs2) + seq![101u8] + r2,
    ensures
        xs1 == xs2,
        r1 == r2,
    decreases xs1,
{
    let a = encoded_items(xs1) + seq![101u8] + r1;
    let b = encoded_items(xs2) + seq![101u8] + r2;
    if xs1.len() == 0 && xs2.len() == 0 {
        assert(xs1 =~= xs2);
        assert(seq![101u8] + r1 =~= a);
        assert(seq![101u8] + r2 =~= b);
        lemma_cons_tail_eq(101, r1, r2);
    } else if xs1.len() == 0 {
        lemma_encoded_first_byte(xs2.first());
        assert(a[0] == 101);
        assert(encoded(xs2.first()) + (encoded_items(xs2.drop_first()) + seq![101u8] + r2)
            =~= b);
        assert(b[0] == encoded(xs2.first())[0]);
        assert(false);
    } else if xs2.len() == 0 {
        lemma_encoded_first_byte(xs1.first());
        assert(b[0] == 101);
        assert(encoded(xs1.first()) + (encoded_items(xs1.drop_first()) + seq![101u8] + r1)
            =~= a);
        assert(a[0] == encoded(xs1.first())[0]);
        assert(false);
    } else {
        assert(encoded(xs1.first()) + (encoded_items(xs1.drop_first()) + seq![101u8] + r1)
            =~= a);
        assert(encoded(xs2.first()) + (encoded_items(xs2.drop_first()) + seq![101u8] + r2)
            =~= a);
        lemma_encoded_unambiguous(
            xs1.first(),
            xs2.first(),
            encoded_items(xs1.drop_first()) + seq![101u8] + r1,
            encoded_items(xs2.drop_first()) + seq![101u8] + r2,
        );
        lemma_items_unambiguous(xs1.drop_first(), xs2.drop_first(), r1, r2);
        lemma_first_drop_eq(xs1, xs2);
    }
}

/// Dictionary bodies are read off unambiguously up to their closing `e`.
proof fn lemma_entries_unambiguous(
    es1: Seq<(Seq<u8>, SpecValue)>,
    es2: Seq<(Seq<u8>, SpecValue)>,
    r1: Seq<u8>,
    r2: Seq<u8>,
)
    requires
        encoded_entries(es1) + seq![101u8] + r1 == encoded_entries(es2) + seq![101u8] + r2,
    ensures
        es1 == es2,
        r1 == r2,
    decreases es1,
{
    let a = encoded_entries(es1) + seq![101u8] + r1;
    let b = encoded_entries(es2) + seq![101u8] + r2;
    if es1.len() == 0 && es2.len() == 0 {
        assert(es1 =~= es2);
        assert(seq![101u8] + r1 =~= a);
        assert(seq![101u8] + r2 =~= b);
        lemma_cons_tail_eq(101, r1, r2);
    } else if es1.len() == 0 {
        lemma_dec_digits_range(es2.first().0.len());
        assert(a[0] == 101);
        assert(dec_digits(es2.first().0.len()) + (seq![58u8] + es2.first().0 + encoded(
            es2.first().1,
        ) + (encoded_entries(es2.drop_first()) + seq![101u8] + r2)) =~= b);
        assert(b[0] == dec_digits(es2.first().0.len())[0]);
        assert(false);
    } else if es2.len() == 0 {
        lemma_dec_digits_range(es1.first().0.len());
        assert(b[0] == 101);
        assert(dec_digits(es1.first().0.len()) + (seq![58u8] + es1.first().0 + encoded(
            es1.first().1,
        ) + (encoded_entries(es1.drop_first()) + seq![101u8] + r1)) =~= a);
        assert(a[0] == dec_digits(es1.first().0.len())[0]);
        assert(false);
    } else {
        assert(str_encoded(es1.first().0) + (encoded(es1.first().1) + (encoded_entries(
            es1.drop_first(),
        ) + seq![101u8] + r1)) =~= a);
        assert(str_encoded(es2.first().0) + (encoded(es2.first().1) + (encoded_entries(
            es2.drop_first(),
        ) + seq![101u8] + r2)) =~= a);
        lemma_str_unambiguous(
            es1.first().0,
            es2.first().0,
            encoded(es1.first().1) + (encoded_entries(es1.drop_first()) + seq![101u8] + r1),
            encoded(es2.first().1) + (encoded_entries(es2.drop_first()) + seq![101u8] + r2),
        );
        lemma_encoded_unambiguous(
            es1.first().1,
            es2.first().1,
            encoded_entries(es1.drop_first()) + seq![101u8] + r1,
            encoded_entries(es2.drop_first()) + seq![101u8] + r2,
        );
        lemma_entries_unambiguous(es1.drop_first(), es2.drop_first(), r1, r2);
        lemma_first_drop_eq(es1, es2);
    }
}

/// Round-trip law, one half: the wire form pins the value down. Two
/// values with one encoding are equal, so whatever `decode` accepts is
/// the only value that re-encodes to those bytes.
pub proof fn lemma_encoded_injective(v1: SpecValue, v2: SpecValue)
    requires
        encoded(v1) == encoded(v2),
    ensures
        v1 == v2,
{
    assert(encoded(v1) + Seq::<u8>::empty() =~= encoded(v1));
    assert(encoded(v2) + Seq::<u8>::empty() =~= encoded(v2));
    lemma_encoded_unambiguous(v1, v2, Seq::empty(), Seq::empty());
}


/// The lexicographic order is total.
proof fn lemma_lex_le_total(a: Seq<u8>, b: Seq<u8>)
    ensures
        lex_le(a, b) || lex_le(b, a),
    decreases a.len(),
{
    if a.len() > 0 && b.len() > 0 && a.first() == b.first() {
        lemma_lex_le_total(a.drop_first(), b.drop_first());
    }
}

/// The lexicographic order is transitive.
proof fn lemma_lex_le_trans(a: Seq<u8>, b: Seq<u8>, c: Seq<u8>)
    requires
        lex_le(a, b),
        lex_le(b, c),
    ensures
        lex_le(a, c),
    decreases a.len(),
{
    if a.len() > 0 && b.len() > 0 && c.len() > 0 && a.first() == b.first() && b.first()
        == c.first() {
        lemma_lex_le_trans(a.drop_first(), b.drop_first(), c.drop_first());
    }
}

/// An element placed before a run adds itself to the run's multiset.
proof fn lemma_prepend_multiset<A>(e: A, s: Seq<A>)
    ensures
        (seq![e] + s).to_multiset() == s.to_multiset().insert(e),
{
    broadcast use vstd::seq_lib::group_to_multiset_ensures;

    let t = seq![e] + s;
    assert(t.remove(0) =~= s);
    assert(t[0] == e);
    assert(s.to_multiset() =~= t.to_multiset().remove(e));
    assert(t.contains(e));
    assert(t.to_multiset().count(e) > 0);
    assert(t.to_multiset() =~= s.to_multiset().insert(e));
}

/// Inserting into a sorted entry run keeps it sorted, adds one element to
/// the multiset, and brings in nothing new.
proof fn lemma_insert_sorted_props(e: (Seq<u8>, SpecValue), s: Seq<(Seq<u8>, SpecValue)>)
    requires
        entries_sorted(s),
    ensures
        entries_sorted(insert_sorted(e, s)),
        insert_sorted(e, s).to_multiset() == s.to_multiset().insert(e),
        insert_sorted(e, s).len() == s.len() + 1,
        forall|i: int|
            0 <= i < insert_sorted(e, s).len() ==> #[trigger] insert_sorted(e, s)[i] == e
                || s.contains(insert_sorted(e, s)[i]),
    decreases s.len(),
{
    let r = insert_sorted(e, s);
    if s.len() == 0 {
        assert(r =~= seq![e] + Seq::<(Seq<u8>, SpecValue)>::empty());
        lemma_prepend_multiset(e, Seq::<(Seq<u8>, SpecValue)>::empty());
        assert(s =~= Seq::<(Seq<u8>, SpecValue)>::empty());
    } else if lex_le(e.0, s.first().0) {
        assert(r == seq![e] + s);
        lemma_prepend_multiset(e, s);
        assert forall|i: int, j: int| 0 <= i < j < r.len() implies lex_le(r[i].0, r[j].0) by {
            if i == 0 {
                assert(r[j] == s[j - 1]);
                if j > 1 {
                    assert(lex_le(s[0].0, s[j - 1].0));
                    lemma_lex_le_trans(e.0, s[0].0, s[j - 1].0);
                }
            } else {
                assert(r[i] == s[i - 1] && r[j] == s[j - 1]);
            }
        }
    } else {
        lemma_lex_le_total(e.0, s.first().0);
        let rest = insert_sorted(e, s.drop_first());
        assert forall|i: int, j: int|
            0 <= i < j < s.drop_first().len() implies lex_le(
            s.drop_first()[i].0,
            s.drop_first()[j].0,
        ) by {
            assert(s.drop_first()[i] == s[i + 1] && s.drop_first()[j] == s[j + 1]);
        }
        lemma_insert_sorted_props(e, s.drop_first());
        assert(r == seq![s.first()] + rest);
        lemma_prepend_multiset(s.first(), rest);
        assert(s =~= seq![s.first()] + s.drop_first());
        lemma_prepend_multiset(s.first(), s.drop_first());
        assert(r.to_multiset() =~= s.to_multiset().insert(e));
        assert forall|i: int, j: int| 0 <= i < j < r.len() implies lex_le(r[i].0, r[j].0) by {
            if i == 0 {
                assert(r[j] == rest[j - 1]);
                if rest[j - 1] == e {
                    assert(lex_le(s.first().0, e.0));
                } else {
                    assert(s.drop_first().contains(rest[j - 1]));
                    let k = choose|k: int|
                        0 <= k < s.drop_first().len() && s.drop_first()[k] == rest[j - 1];
                    assert(s.drop_first()[k] == s[k + 1]);
                    assert(lex_le(s[0].0, s[k + 1].0));
                }
            } else {
                assert(r[i] == rest[i - 1] && r[j] == rest[j - 1]);
            }
        }
        assert forall|i: int|
            0 <= i < r.len() implies #[trigger] r[i] == e || s.contains(r[i]) by {
            if i == 0 {
                assert(s[0] == r[0]);
                assert(s.contains(r[0]));
            } else {
                assert(r[i] == rest[i - 1]);
                if rest[i - 1] != e {
                    assert(s.drop_first().contains(rest[i - 1]));
                    let k = choose|k: int|
                        0 <= k < s.drop_first().len() && s.drop_first()[k] == rest[i - 1];
                    assert(s[k + 1] == rest[i - 1]);
                    assert(s.contains(r[i]));
                }
            }
        }
    }
}

/// Sorting the entries keeps exactly the entries, now in order.
proof fn lemma_sort_entries_props(s: Seq<(Seq<u8>, SpecValue)>)
    ensures
        entries_sorted(sort_entries(s)),
        sort_entries(s).to_multiset() == s.to_multiset(),
        sort_entries(s).len() == s.len(),
        forall|i: int|
            0 <= i < sort_entries(s).len() ==> s.contains(#[trigger] sort_entries(s)[i]),
    decreases s.len(),
{
    if s.len() > 0 {
        lemma_sort_entries_props(s.drop_first());
        lemma_insert_sorted_props(s.first(), sort_entries(s.drop_first()));
        assert(s =~= seq![s.first()] + s.drop_first());
        lemma_prepend_multiset(s.first(), s.drop_first());
        assert(sort_entries(s).to_multiset() =~= s.to_multiset());
        assert forall|i: int|
            0 <= i < sort_entries(s).len() implies s.contains(#[trigger] sort_entries(s)[i]) by {
            let x = sort_entries(s)[i];
            if x == s.first() {
                assert(s[0] == x);
            } else {
                assert(x == s.first() || sort_entries(s.drop_first()).contains(x));
                let k = choose|k: int|
                    0 <= k < sort_entries(s.drop_first()).len() && sort_entries(s.drop_first())[k]
                        == x;
                assert(s.drop_first().contains(sort_entries(s.drop_first())[k]));
                let m = choose|m: int|
                    0 <= m < s.drop_first().len() && s.drop_first()[m] == x;
                assert(s[m + 1] == x);
            }
        }
    }
}

/// Canonical re-encode determinism: the canonical form of any value has
/// every dictionary's keys in non-decreasing byte order, whatever order
/// the entries were inserted in.
pub proof fn lemma_canon_sorted(v: SpecValue)
    ensures
        sorted_dicts(canon(v)),
    decreases v,
{
    match v {
        SpecValue::Int(_) => {},
        SpecValue::Bytes(_) => {},
        SpecValue::List(xs) => {
            lemma_canon_items_all_sorted(xs);
            lemma_canon_items(xs);
            assert forall|i: int|
                0 <= i < canon_items(xs).len() implies sorted_dicts(
                #[trigger] canon_items(xs)[i],
            ) by {
                assert(canon_items(xs)[i] == canon(xs[i]));
                assert(sorted_dicts(canon(xs[i])));
            }
            assert(sorted_dicts(canon(v)));
        },
        SpecValue::Dict(es) => {
            lemma_canon_entries_all_sorted(es);
            lemma_canon_entries(es);
            let ce = canon_entries(es);
            lemma_sort_entries_props(ce);
            assert forall|i: int|
                0 <= i < sort_entries(ce).len() implies sorted_dicts(
                #[trigger] sort_entries(ce)[i].1,
            ) by {
                assert(ce.contains(sort_entries(ce)[i]));
                let k = choose|k: int| 0 <= k < ce.len() && ce[k] == sort_entries(ce)[i];
                assert(ce[k] == (es[k].0, canon(es[k].1)));
                assert(sorted_dicts(canon(es[k].1)));
            }
            assert(sorted_dicts(canon(v)));
        },
    }
}

/// Each value of a list is sorted once canonicalized.
proof fn lemma_canon_items_all_sorted(xs: Seq<SpecValue>)
    ensures
        forall|i: int| 0 <= i < xs.len() ==> sorted_dicts(canon(#[trigger] xs[i])),
    decreases xs,
{
    if xs.len() > 0 {
        lemma_canon_sorted(xs.first());
        lemma_canon_items_all_sorted(xs.drop_first());
        assert forall|i: int|
            0 <= i < xs.len() implies sorted_dicts(canon(#[trigger] xs[i])) by {
            if i > 0 {
                assert(xs.drop_first()[i - 1] == xs[i]);
            }
        }
    }
}

/// Each value of an entry run is sorted once canonicalized.
proof fn lemma_canon_entries_all_sorted(es: Seq<(Seq<u8>, SpecValue)>)
    ensures
        forall|i: int| 0 <= i < es.len() ==> sorted_dicts(canon(#[trigger] es[i].1)),
    decreases es,
{
    if es.len() > 0 {
        lemma_canon_sorted(es.first().1);
        lemma_canon_entries_all_sorted(es.drop_first());
        assert forall|i: int|
            0 <= i < es.len() implies sorted_dicts(canon(#[trigger] es[i].1)) by {
            if i > 0 {
                assert(es.drop_first()[i - 1] == es[i]);
            }
        }
    }
}

/// Sorting entries that are already in order changes nothing.
proof fn lemma_sort_of_sorted(s: Seq<(Seq<u8>, SpecValue)>)
    requires
        entries_sorted(s),
    ensures
        sort_entries(s) == s,
    decreases s.len(),
{
    if s.len() > 0 {
        assert forall|i: int, j: int|
            0 <= i < j < s.drop_first().len() implies lex_le(
            s.drop_first()[i].0,
            s.drop_first()[j].0,
        ) by {
            assert(s.drop_first()[i] == s[i + 1] && s.drop_first()[j] == s[j + 1]);
        }
        lemma_sort_of_sorted(s.drop_first());
        if s.len() == 1 {
            assert(sort_entries(s) =~= s);
        } else {
            assert(s.drop_first().first() == s[1]);
            assert(lex_le(s[0].0, s[1].0));
            assert(sort_entries(s) == seq![s.first()] + s.drop_first());
            assert(sort_entries(s) =~= s);
        }
    }
}

/// Canonicalizing a value whose dictionaries are already sorted changes
/// nothing.
pub proof fn lemma_canon_of_sorted(v: SpecValue)
    requires
        sorted_dicts(v),
    ensures
        canon(v) == v,
    decreases v,
{
    match v {
        SpecValue::Int(_) => {},
        SpecValue::Bytes(_) => {},
        SpecValue::List(xs) => {
            lemma_canon_items_of_sorted(xs);
        },
        SpecValue::Dict(es) => {
            lemma_canon_entries_of_sorted(es);
            lemma_sort_of_sorted(es);
        },
    }
}

/// Canonicalizing already-sorted list values changes nothing.
proof fn lemma_canon_items_of_sorted(xs: Seq<SpecValue>)
    requires
        forall|i: int| 0 <= i < xs.len() ==> sorted_dicts(#[trigger] xs[i]),
    ensures
        canon_items(xs) == xs,
    decreases xs,
{
    if xs.len() > 0 {
        lemma_canon_of_sorted(xs.first());
        assert forall|i: int|
            0 <= i < xs.drop_first().len() implies sorted_dicts(#[trigger] xs.drop_first()[i]) by {
            assert(xs.drop_first()[i] == xs[i + 1]);
        }
        lemma_canon_items_of_sorted(xs.drop_first());
        assert(canon_items(xs) =~= xs);
    }
}

/// Canonicalizing already-sorted entry values changes nothing.
proof fn lemma_canon_entries_of_sorted(es: Seq<(Seq<u8>, SpecValue)>)
    requires
        forall|i: int| 0 <= i < es.len() ==> sorted_dicts(#[trigger] es[i].1),
    ensures
        canon_entries(es) == es,
    decreases es,
{
    if es.len() > 0 {
        lemma_canon_of_sorted(es.first().1);
        assert forall|i: int|
            0 <= i < es.drop_first().len() implies sorted_dicts(
            #[trigger] es.drop_first()[i].1,
        ) by {
            assert(es.drop_first()[i] == es[i + 1]);
        }
        lemma_canon_entries_of_sorted(es.drop_first());
        assert(canon_entries(es) =~= es);
    }
}

/// Round-trip law: for a value whose dictionaries are in canonical key
/// order — as every value decoded from a canonical document is — the
/// encoder reproduces its exact wire form, and decoding those bytes can
/// yield nothing but the value itself.
pub proof fn lemma_round_trip(v: SpecValue, w: SpecValue)
    requires
        sorted_dicts(v),
        encoded(w) == encoded(canon(v)),
    ensures
        w == v,
{
    lemma_canon_of_sorted(v);
    lemma_encoded_injective(w, v);
}


/// No two entries of the run share a key.
pub open spec fn keys_unique(es: Seq<(Seq<u8>, SpecValue)>) -> bool {
    forall|i: int, j: int| 0 <= i < j < es.len() ==> es[i].0 != es[j].0
}

/// The lexicographic order is antisymmetric.
proof fn lemma_lex_le_antisym(a: Seq<u8>, b: Seq<u8>)
    requires
        lex_le(a, b),
        lex_le(b, a),
    ensures
        a == b,
    decreases a.len(),
{
    if a.len() == 0 {
        assert(b.len() == 0);
        assert(a =~= b);
    } else {
        assert(b.len() > 0);
        assert(a.first() == b.first());
        lemma_lex_le_antisym(a.drop_first(), b.drop_first());
        lemma_first_drop_eq(a, b);
    }
}

/// `canon_entries` commutes with removing one entry.
proof fn lemma_canon_entries_remove(s: Seq<(Seq<u8>, SpecValue)>, k: int)
    requires
        0 <= k < s.len(),
    ensures
        canon_entries(s.remove(k)) == canon_entries(s).remove(k),
{
    lemma_canon_entries(s);
    lemma_canon_entries(s.remove(k));
    s.remove_ensures(k);
    canon_entries(s).remove_ensures(k);
    assert forall|j: int|
        0 <= j < s.len() - 1 implies canon_entries(s.remove(k))[j] == canon_entries(s).remove(
        k,
    )[j] by {
        if j < k {
            assert(s.remove(k)[j] == s[j]);
            assert(s.remove(k)[j].1 == s[j].1);
            assert(canon_entries(s.remove(k))[j] == (s.remove(k)[j].0, canon(s.remove(k)[j].1)));
            assert(canon_entries(s)[j] == (s[j].0, canon(s[j].1)));
            assert(canon_entries(s).remove(k)[j] == canon_entries(s)[j]);
        } else {
            assert(s.remove(k)[j] == s[j + 1]);
            assert(s.remove(k)[j].1 == s[j + 1].1);
            assert(canon_entries(s.remove(k))[j] == (s.remove(k)[j].0, canon(s.remove(k)[j].1)));
            assert(canon_entries(s)[j + 1] == (s[j + 1].0, canon(s[j + 1].1)));
            assert(canon_entries(s).remove(k)[j] == canon_entries(s)[j + 1]);
        }
    }
    assert(canon_entries(s.remove(k)) =~= canon_entries(s).remove(k));
}

/// Entry runs with one multiset have canonicalized runs with one
/// multiset.
proof fn lemma_canon_entries_multiset(s1: Seq<(Seq<u8>, SpecValue)>, s2: Seq<(Seq<u8>, SpecValue)>)
    requires
        s1.to_multiset() == s2.to_multiset(),
    ensures
        canon_entries(s1).to_multiset() == canon_entries(s2).to_multiset(),
    decreases s1.len(),
{
    broadcast use {vstd::seq_lib::group_to_multiset_ensures, vstd::multiset::group_multiset_axioms};

    lemma_canon_entries(s1);
    lemma_canon_entries(s2);
    assert(s1.to_multiset().len() == s1.len());
    assert(s2.to_multiset().len() == s2.len());
    if s1.len() == 0 {
        assert(s2.len() == 0);
        assert(s1 =~= s2);
    } else {
        let e = s1.first();
        assert(s1.contains(e));
        assert(s2.to_multiset().count(e) > 0);
        assert(s2.contains(e));
        let k = choose|k: int| 0 <= k < s2.len() && s2[k] == e;
        assert(s1.remove(0) =~= s1.drop_first());
        assert(s1.drop_first().to_multiset() =~= s1.to_multiset().remove(e));
        assert(s2.remove(k).to_multiset() =~= s2.to_multiset().remove(e));
        assert(s1.drop_first().to_multiset() == s2.remove(k).to_multiset());
        lemma_canon_entries_multiset(s1.drop_first(), s2.remove(k));
        lemma_canon_entries_remove(s2, k);
        lemma_canon_entries_remove(s1, 0);
        assert(s1.remove(0) == s1.drop_first());
        let ce = (e.0, canon(e.1));
        assert(canon_entries(s1)[0] == ce);
        assert(canon_entries(s2)[k] == ce);
        assert(canon_entries(s1).remove(0).to_multiset() =~= canon_entries(
            s1,
        ).to_multiset().remove(ce));
        assert(canon_entries(s2).remove(k).to_multiset() =~= canon_entries(
            s2,
        ).to_multiset().remove(ce));
        assert(canon_entries(s1).contains(ce));
        assert(canon_entries(s1).to_multiset().count(ce) > 0);
        assert(canon_entries(s2).contains(ce));
        assert(canon_entries(s2).to_multiset().count(ce) > 0);
        assert forall|x: (Seq<u8>, SpecValue)|
            canon_entries(s1).to_multiset().count(x) == canon_entries(s2).to_multiset().count(
            x,
        ) by {
            assert(canon_entries(s1).to_multiset().remove(ce).count(x) == canon_entries(
                s2,
            ).to_multiset().remove(ce).count(x));
        }
        assert(canon_entries(s1).to_multiset() =~= canon_entries(s2).to_multiset());
    }
}

/// Two positions holding one entry put it twice in the multiset.
proof fn lemma_dup_positions(s: Seq<(Seq<u8>, SpecValue)>, i: int, j: int)
    requires
        0 <= i < j < s.len(),
        s[i] == s[j],
    ensures
        s.to_multiset().count(s[i]) >= 2,
{
    broadcast use {vstd::seq_lib::group_to_multiset_ensures, vstd::multiset::group_multiset_axioms};

    let r = s.remove(i);
    s.remove_ensures(i);
    assert(r.to_multiset() =~= s.to_multiset().remove(s[i]));
    assert(r[j - 1] == s[j]);
    assert(r.contains(s[i]));
    assert(r.to_multiset().count(s[i]) > 0);
}

/// An entry counted twice sits at two distinct positions.
proof fn lemma_count_two_positions(s: Seq<(Seq<u8>, SpecValue)>, x: (Seq<u8>, SpecValue))
    requires
        s.to_multiset().count(x) >= 2,
    ensures
        exists|i: int, j: int| 0 <= i < j < s.len() && s[i] == x && s[j] == x,
{
    broadcast use {vstd::seq_lib::group_to_multiset_ensures, vstd::multiset::group_multiset_axioms};

    assert(s.contains(x));
    let p = choose|p: int| 0 <= p < s.len() && s[p] == x;
    let r = s.remove(p);
    s.remove_ensures(p);
    assert(r.to_multiset() =~= s.to_multiset().remove(x));
    assert(r.to_multiset().count(x) >= 1);
    assert(r.contains(x));
    let q = choose|q: int| 0 <= q < r.len() && r[q] == x;
    if q < p {
        assert(r[q] == s[q]);
        assert(0 <= q < p < s.len() && s[q] == x && s[p] == x);
    } else {
        assert(r[q] == s[q + 1]);
        assert(0 <= p < q + 1 < s.len() && s[p] == x && s[q + 1] == x);
    }
}

/// Key uniqueness survives any rearrangement of the entries.
proof fn lemma_keys_unique_multiset(s1: Seq<(Seq<u8>, SpecValue)>, s2: Seq<(Seq<u8>, SpecValue)>)
    requires
        keys_unique(s1),
        s1.to_multiset() == s2.to_multiset(),
    ensures
        keys_unique(s2),
{
    broadcast use vstd::seq_lib::group_to_multiset_ensures;

    assert forall|i: int, j: int| 0 <= i < j < s2.len() implies s2[i].0 != s2[j].0 by {
        if s2[i].0 == s2[j].0 {
            if s2[i] == s2[j] {
                lemma_dup_positions(s2, i, j);
                assert(s1.to_multiset().count(s2[i]) >= 2);
                lemma_count_two_positions(s1, s2[i]);
                let (p, q): (int, int) = choose|p: int, q: int|
                    0 <= p < q < s1.len() && s1[p] == s2[i] && s1[q] == s2[i];
                assert(s1[p].0 == s1[q].0);
                assert(false);
            } else {
                assert(s2.contains(s2[i]));
                assert(s1.to_multiset().count(s2[i]) > 0);
                assert(s1.contains(s2[i]));
                assert(s2.contains(s2[j]));
                assert(s1.to_multiset().count(s2[j]) > 0);
                assert(s1.contains(s2[j]));
                let p = choose|p: int| 0 <= p < s1.len() && s1[p] == s2[i];
                let q = choose|q: int| 0 <= q < s1.len() && s1[q] == s2[j];
                assert(p != q);
                assert(s1[p].0 == s1[q].0);
                assert(false);
            }
        }
    }
}

/// Sorted runs of unique-keyed entries with one multiset are equal.
proof fn lemma_sorted_unique_equal(d1: Seq<(Seq<u8>, SpecValue)>, d2: Seq<(Seq<u8>, SpecValue)>)
    requires
        entries_sorted(d1),
        entries_sorted(d2),
        keys_unique(d1),
        d1.to_multiset() == d2.to_multiset(),
    ensures
        d1 == d2,
    decreases d1.len(),
{
    broadcast use {vstd::seq_lib::group_to_multiset_ensures, vstd::multiset::group_multiset_axioms};

    assert(d1.to_multiset().len() == d1.len());
    assert(d2.to_multiset().len() == d2.len());
    if d1.len() == 0 {
        assert(d2.len() == 0);
        assert(d1 =~= d2);
    } else {
        assert(d2.len() == d1.len());
        assert(d1.contains(d1[0]));
        assert(d2.to_multiset().count(d1[0]) > 0);
        assert(d2.contains(d1[0]));
        let k = choose|k: int| 0 <= k < d2.len() && d2[k] == d1[0];
        if k > 0 {
            assert(d1.contains(d2[0])) by {
                assert(d2.contains(d2[0]));
                assert(d1.to_multiset().count(d2[0]) > 0);
            }
            let m = choose|m: int| 0 <= m < d1.len() && d1[m] == d2[0];
            if m > 0 {
                assert(lex_le(d2[0].0, d2[k].0));
                assert(lex_le(d1[0].0, d1[m].0));
                lemma_lex_le_antisym(d1[0].0, d2[0].0);
                assert(d1[m].0 == d1[0].0);
                assert(false);
            }
        }
        assert(d1[0] == d2[0]);
        assert(d1.remove(0) =~= d1.drop_first());
        assert(d2.remove(0) =~= d2.drop_first());
        assert(d1.drop_first().to_multiset() =~= d1.to_multiset().remove(d1[0]));
        assert(d2.drop_first().to_multiset() =~= d2.to_multiset().remove(d2[0]));
        assert forall|i: int, j: int|
            0 <= i < j < d1.drop_first().len() implies lex_le(
            d1.drop_first()[i].0,
            d1.drop_first()[j].0,
        ) && d1.drop_first()[i].0 != d1.drop_first()[j].0 by {
            assert(d1.drop_first()[i] == d1[i + 1] && d1.drop_first()[j] == d1[j + 1]);
        }
        assert forall|i: int, j: int|
            0 <= i < j < d2.drop_first().len() implies lex_le(
            d2.drop_first()[i].0,
            d2.drop_first()[j].0,
        ) by {
            assert(d2.drop_first()[i] == d2[i + 1] && d2.drop_first()[j] == d2[j + 1]);
        }
        lemma_sorted_unique_equal(d1.drop_first(), d2.drop_first());
        lemma_first_drop_eq(d1, d2);
    }
}

/// Info-hash stability: two dictionaries holding the same entries under
/// unique keys — inserted in whatever order — have one canonical wire
/// form, and so one digest.
pub proof fn lemma_canonical_encoding_order_irrelevant(
    es1: Seq<(Seq<u8>, SpecValue)>,
    es2: Seq<(Seq<u8>, SpecValue)>,
)
    requires
        es1.to_multiset() == es2.to_multiset(),
        keys_unique(es1),
    ensures
        encoded(canon(SpecValue::Dict(es1))) == encoded(canon(SpecValue::Dict(es2))),
{
    lemma_canon_entries_multiset(es1, es2);
    let ce1 = canon_entries(es1);
    let ce2 = canon_entries(es2);
    lemma_canon_entries(es1);
    assert(keys_unique(ce1)) by {
        assert forall|i: int, j: int| 0 <= i < j < ce1.len() implies ce1[i].0 != ce1[j].0 by {
            assert(ce1[i] == (es1[i].0, canon(es1[i].1)));
            assert(ce1[j] == (es1[j].0, canon(es1[j].1)));
        }
    }
    lemma_sort_entries_props(ce1);
    lemma_sort_entries_props(ce2);
    lemma_keys_unique_multiset(ce1, sort_entries(ce1));
    lemma_sorted_unique_equal(sort_entries(ce1), sort_entries(ce2));
    assert(canon(SpecValue::Dict(es1)) == canon(SpecValue::Dict(es2)));
}


/// Non-decreasing adjacent keys order the whole run.
proof fn lemma_adjacent_sorted(es: Seq<(Seq<u8>, SpecValue)>, i: int, j: int)
    requires
        forall|k: int| 0 <= k < es.len() - 1 ==> lex_le(#[trigger] es[k].0, es[k + 1].0),
        0 <= i < j < es.len(),
    ensures
        lex_le(es[i].0, es[j].0),
    decreases j - i,
{
    if j == i + 1 {
        assert(lex_le(es[i].0, es[i + 1].0));
    } else {
        lemma_adjacent_sorted(es, i, j - 1);
        assert(lex_le(es[j - 1].0, es[j].0));
        lemma_lex_le_trans(es[i].0, es[j - 1].0, es[j].0);
    }
}

/// Decides whether a decoded value is in canonical form: every
/// dictionary's keys in non-decreasing byte order, all the way down. A
/// caller that wants canonical-form validation runs this on the decoder's
/// result; the codec itself is lenient on the way in.
#[verifier::loop_isolation(false)]
pub fn is_canonical(v: &Value) -> (r: bool)
    ensures
        r == sorted_dicts(v@),
    decreases v,
{
    match v {
        Value::Int(_) => true,
        Value::Bytes(_) => true,
        Value::List(xs) => {
            let ghost m = items_view(xs@);
            proof {
                lemma_items_view(xs@);
            }
            let mut i: usize = 0;
            while i < xs.len()
                invariant
                    *v == Value::List(*xs),
                    i <= xs@.len(),
                    m == items_view(xs@),
                    m.len() == xs@.len(),
                    forall|j: int| 0 <= j < xs@.len() ==> m[j] == xs@[j].deep(),
                    forall|j: int| 0 <= j < i ==> sorted_dicts(#[trigger] m[j]),
                decreases xs@.len() - i,
            {
                if !is_canonical(&xs[i]) {
                    proof {
                        assert(v@ == SpecValue::List(m));
                        assert(v@->List_0 == m);
                        assert(!sorted_dicts(v@)) by {
                            assert(!sorted_dicts(m[i as int]));
                        }
                    }
                    return false;
                }
                i = i + 1;
            }
            true
        },
        Value::Dict(es) => {
            let ghost q = entries_view(es@);
            proof {
                lemma_entries_view(es@);
            }
            let mut i: usize = 0;
            while i < es.len()
                invariant
                    *v == Value::Dict(*es),
                    i <= es@.len(),
                    q == entries_view(es@),
                    q.len() == es@.len(),
                    forall|j: int| 0 <= j < es@.len() ==> q[j] == (es@[j].0@, es@[j].1.deep()),
                    forall|j: int| 0 <= j < i ==> sorted_dicts(#[trigger] q[j].1),
                    forall|j: int|
                        0 <= j < i && j < es@.len() - 1 ==> lex_le(#[trigger] q[j].0, q[j + 1].0),
                decreases es@.len() - i,
            {
                if !is_canonical(&es[i].1) {
                    proof {
                        assert(v@ == SpecValue::Dict(q));
                        assert(v@->Dict_0 == q);
                        assert(!sorted_dicts(v@)) by {
                            assert(!sorted_dicts(q[i as int].1));
                        }
                    }
                    return false;
                }
                if i + 1 < es.len() {
                    if !lex_le_bytes(&es[i].0, &es[i + 1].0) {
                        proof {
                            assert(v@ == SpecValue::Dict(q));
                            assert(v@->Dict_0 == q);
                            assert(!sorted_dicts(v@)) by {
                                assert(!lex_le(q[i as int].0, q[i as int + 1].0));
                                assert(!entries_sorted(q));
                            }
                        }
                        return false;
                    }
                }
                i = i + 1;
            }
            proof {
                assert forall|a: int, b: int| 0 <= a < b < q.len() implies lex_le(
                    q[a].0,
                    q[b].0,
                ) by {
                    lemma_adjacent_sorted(q, a, b);
                }
            }
            true
        },
    }
}


/// Every decoded value is representable: its integers are 64-bit.
pub proof fn lemma_deep_representable(v: Value)
    ensures
        representable(v@),
    decreases v,
{
    match v {
        Value::Int(_) => {},
        Value::Bytes(_) => {},
        Value::List(xs) => {
            lemma_items_representable(xs@);
            lemma_items_view(xs@);
            assert(v@ == SpecValue::List(items_view(xs@)));
            assert(v@->List_0 == items_view(xs@));
            assert forall|i: int|
                0 <= i < items_view(xs@).len() implies representable(
                #[trigger] items_view(xs@)[i],
            ) by {
                assert(items_view(xs@)[i] == xs@[i].deep());
                assert(representable(xs@[i].deep()));
            }
            assert(representable(v@));
        },
        Value::Dict(es) => {
            lemma_entries_representable(es@);
            lemma_entries_view(es@);
            assert(v@ == SpecValue::Dict(entries_view(es@)));
            assert(v@->Dict_0 == entries_view(es@));
            assert forall|i: int|
                0 <= i < entries_view(es@).len() implies representable(
                #[trigger] entries_view(es@)[i].1,
            ) by {
                assert(entries_view(es@)[i] == (es@[i].0@, es@[i].1.deep()));
                assert(representable(es@[i].1.deep()));
            }
            assert(representable(v@));
        },
    }
}

/// Each value of a run of decoded list items is representable.
proof fn lemma_items_representable(xs: Seq<Value>)
    ensures
        forall|i: int| 0 <= i < xs.len() ==> representable(#[trigger] xs[i].deep()),
    decreases xs,
{
    if xs.len() > 0 {
        lemma_deep_representable(xs.first());
        lemma_items_representable(xs.drop_first());
        assert forall|i: int|
            0 <= i < xs.len() implies representable(#[trigger] xs[i].deep()) by {
            if i > 0 {
                assert(xs.drop_first()[i - 1] == xs[i]);
            }
        }
    }
}

/// Each value of a run of decoded dictionary entries is representable.
proof fn lemma_entries_representable(es: Seq<(Vec<u8>, Value)>)
    ensures
        forall|i: int| 0 <= i < es.len() ==> representable(#[trigger] es[i].1.deep()),
    decreases es,
{
    if es.len() > 0 {
        lemma_deep_representable(es.first().1);
        lemma_entries_representable(es.drop_first());
        assert forall|i: int|
            0 <= i < es.len() implies representable(#[trigger] es[i].1.deep()) by {
            if i > 0 {
                assert(es.drop_first()[i - 1] == es[i]);
            }
        }
    }
}


/// Canonicalizing keeps a value representable: sorting dictionaries
/// touches no integer. With `decode`'s failure clause this says that the
/// canonical re-encoding of a representable value always decodes.
pub proof fn lemma_canon_representable(v: SpecValue)
    requires
        representable(v),
    ensures
        representable(canon(v)),
    decreases v,
{
    match v {
        SpecValue::Int(_) => {},
        SpecValue::Bytes(_) => {},
        SpecValue::List(xs) => {
            lemma_canon_items_representable(xs);
            lemma_canon_items(xs);
            assert forall|i: int|
                0 <= i < canon_items(xs).len() implies representable(
                #[trigger] canon_items(xs)[i],
            ) by {
                assert(canon_items(xs)[i] == canon(xs[i]));
                assert(representable(canon(xs[i])));
            }
            assert(representable(canon(v)));
        },
        SpecValue::Dict(es) => {
            lemma_canon_entries_representable(es);
            lemma_canon_entries(es);
            let ce = canon_entries(es);
            lemma_sort_entries_props(ce);
            assert forall|i: int|
                0 <= i < sort_entries(ce).len() implies representable(
                #[trigger] sort_entries(ce)[i].1,
            ) by {
                assert(ce.contains(sort_entries(ce)[i]));
                let k = choose|k: int| 0 <= k < ce.len() && ce[k] == sort_entries(ce)[i];
                assert(ce[k] == (es[k].0, canon(es[k].1)));
                assert(representable(canon(es[k].1)));
            }
            assert(representable(canon(v)));
        },
    }
}

/// Each value of a list stays representable once canonicalized.
proof fn lemma_canon_items_representable(xs: Seq<SpecValue>)
    requires
        forall|i: int| 0 <= i < xs.len() ==> representable(#[trigger] xs[i]),
    ensures
        forall|i: int| 0 <= i < xs.len() ==> representable(canon(#[trigger] xs[i])),
    decreases xs,
{
    if xs.len() > 0 {
        lemma_canon_representable(xs.first());
        assert forall|i: int|
            0 <= i < xs.drop_first().len() implies representable(
            #[trigger] xs.drop_first()[i],
        ) by {
            assert(xs.drop_first()[i] == xs[i + 1]);
        }
        lemma_canon_items_representable(xs.drop_first());
        assert forall|i: int|
            0 <= i < xs.len() implies representable(canon(#[trigger] xs[i])) by {
            if i > 0 {
                assert(xs.drop_first()[i - 1] == xs[i]);
            }
        }
    }
}

/// Each value of an entry run stays representable once canonicalized.
proof fn lemma_canon_entries_representable(es: Seq<(Seq<u8>, SpecValue)>)
    requires
        forall|i: int| 0 <= i < es.len() ==> representable(#[trigger] es[i].1),
    ensures
        forall|i: int| 0 <= i < es.len() ==> representable(canon(#[trigger] es[i].1)),
    decreases es,
{
    if es.len() > 0 {
        lemma_canon_representable(es.first().1);
        assert forall|i: int|
            0 <= i < es.drop_first().len() implies representable(
            #[trigger] es.drop_first()[i].1,
        ) by {
            assert(es.drop_first()[i] == es[i + 1]);
        }
        lemma_canon_entries_representable(es.drop_first());
        assert forall|i: int|
            0 <= i < es.len() implies representable(canon(#[trigger] es[i].1)) by {
            if i > 0 {
                assert(es.drop_first()[i - 1] == es[i]);
            }
        }
    }
}

} // verus!
