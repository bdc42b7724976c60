//! Bencode message codec.
//!
//! Messages are ordered dictionaries of binary-safe keys and values, where a
//! value is a byte string, an integer, a list, or a nested dictionary.  The
//! encoding is self-delimiting: byte strings carry a decimal length prefix,
//! integers are ASCII digits between `i` and `e`, lists and dictionaries are
//! bracketed by `l`/`d` and `e`.  The decoder is incremental: it tells a
//! complete leading message apart from a truncated one, so a caller can keep
//! reading bytes until a whole message has arrived.
use vstd::prelude::*;

verus! {

broadcast use vstd::std_specs::vec::group_vec_axioms;

/// Byte constants of the wire format.
pub const B_COLON: u8 = 58;

pub const B_INT: u8 = 105;

pub const B_LIST: u8 = 108;

pub const B_DICT: u8 = 100;

pub const B_END: u8 = 101;

pub const B_MINUS: u8 = 45;

pub const B_ZERO: u8 = 48;

pub const B_NINE: u8 = 57;

/// A decoded protocol value.
pub enum Value {
    Text(Vec<u8>),
    Int(i64),
    List(Vec<Value>),
    Dict(Vec<(Vec<u8>, Value)>),
}

/// A protocol message: an ordered mapping from binary-safe keys to values.
pub struct Message {
    pub pairs: Vec<(Vec<u8>, Value)>,
}

/// The mathematical model of a `Value`.
pub enum GValue {
    Text(Seq<u8>),
    Int(int),
    List(Seq<GValue>),
    Dict(Seq<(Seq<u8>, GValue)>),
}

/// The mathematical model of a `Message`: its ordered key/value pairs.
pub type GPairs = Seq<(Seq<u8>, GValue)>;

/// Model of a `Value`.
pub open spec fn dv_value(v: Value) -> GValue
    decreases v,
{
    match v {
        Value::Text(t) => GValue::Text(t@),
        Value::Int(n) => GValue::Int(n as int),
        Value::List(items) => GValue::List(dv_items(items@, 0)),
        Value::Dict(pairs) => GValue::Dict(dv_pairs(pairs@, 0)),
    }
}

/// Model of the items of a list, from index `i` on.
pub open spec fn dv_items(s: Seq<Value>, i: int) -> Seq<GValue>
    decreases s, s.len() - i,
{
    if i < 0 || i >= s.len() {
        Seq::empty()
    } else {
        seq![dv_value(s[i])] + dv_items(s, i + 1)
    }
}

/// Model of the pairs of a dictionary, from index `i` on.
pub open spec fn dv_pairs(s: Seq<(Vec<u8>, Value)>, i: int) -> GPairs
    decreases s, s.len() - i,
{
    if i < 0 || i >= s.len() {
        Seq::empty()
    } else {
        seq![(s[i].0@, dv_value(s[i].1))] + dv_pairs(s, i + 1)
    }
}

/// Model of a `Message`.
pub open spec fn dv_message(m: Message) -> GPairs {
    dv_pairs(m.pairs@, 0)
}

pub proof fn lemma_dv_items_index(s: Seq<Value>, i: int)
    requires
        0 <= i <= s.len(),
    ensures
        dv_items(s, i).len() == s.len() - i,
        forall|j: int| i <= j < s.len() ==> dv_items(s, i)[j - i] == dv_value(s[j]),
    decreases s.len() - i,
{
    if i < s.len() {
        lemma_dv_items_index(s, i + 1);
    }
}

pub proof fn lemma_dv_pairs_index(s: Seq<(Vec<u8>, Value)>, i: int)
    requires
        0 <= i <= s.len(),
    ensures
        dv_pairs(s, i).len() == s.len() - i,
        forall|j: int|
            i <= j < s.len() ==> dv_pairs(s, i)[j - i] == (s[j].0@, dv_value(s[j].1)),
    decreases s.len() - i,
{
    if i < s.len() {
        lemma_dv_pairs_index(s, i + 1);
    }
}

pub proof fn lemma_dv_items_all(s: Seq<Value>)
    ensures
        dv_items(s, 0).len() == s.len(),
        forall|j: int| 0 <= j < s.len() ==> #[trigger] dv_items(s, 0)[j] == dv_value(s[j]),
{
    lemma_dv_items_index(s, 0);
    assert forall|j: int| 0 <= j < s.len() implies dv_items(s, 0)[j] == dv_value(s[j]) by {
        assert(dv_items(s, 0)[j - 0] == dv_value(s[j]));
    }
}

pub proof fn lemma_dv_pairs_all(s: Seq<(Vec<u8>, Value)>)
    ensures
        dv_pairs(s, 0).len() == s.len(),
        forall|j: int|
            0 <= j < s.len() ==> #[trigger] dv_pairs(s, 0)[j] == (s[j].0@, dv_value(s[j].1)),
{
    lemma_dv_pairs_index(s, 0);
    assert forall|j: int| 0 <= j < s.len() implies dv_pairs(s, 0)[j] == (
        s[j].0@,
        dv_value(s[j].1),
    ) by {
        assert(dv_pairs(s, 0)[j - 0] == (s[j].0@, dv_value(s[j].1)));
    }
}

/// Whether a byte is an ASCII decimal digit.
pub open spec fn is_digit(b: u8) -> bool {
    B_ZERO <= b && b <= B_NINE
}

/// The decimal digits of `n`, most significant first.
pub open spec fn dec_digits(n: nat) -> Seq<u8>
    decreases n,
{
    if n < 10 {
        seq![(B_ZERO + n) as u8]
    } else {
        dec_digits(n / 10) + seq![(B_ZERO + n % 10) as u8]
    }
}

/// The value of a digit string.
pub open spec fn digits_val(s: Seq<u8>) -> nat
    decreases s.len(),
{
    if s.len() == 0 {
        0
    } else {
        digits_val(s.take(s.len() - 1)) * 10 + (if is_digit(s.last()) {
            (s.last() - B_ZERO) as nat
        } else {
            0
        })
    }
}

/// How many leading bytes of `s` are digits.
pub open spec fn digit_run(s: Seq<u8>) -> int
    decreases s.len(),
{
    if s.len() == 0 || !is_digit(s[0]) {
        0
    } else {
        1 + digit_run(s.skip(1))
    }
}

/// Encoding of a byte string: decimal length, a colon, the bytes.
pub open spec fn enc_text(t: Seq<u8>) -> Seq<u8> {
    dec_digits(t.len()) + seq![B_COLON] + t
}

/// Encoding of an integer: ASCII digits (with a sign for negatives) between
/// `i` and `e`.
pub open spec fn enc_int(n: int) -> Seq<u8> {
    if n < 0 {
        seq![B_INT, B_MINUS] + dec_digits((-n) as nat) + seq![B_END]
    } else {
        seq![B_INT] + dec_digits(n as nat) + seq![B_END]
    }
}

/// Encoding of a value.
pub open spec fn enc_value(v: GValue) -> Seq<u8>
    decreases v,
{
    match v {
        GValue::Text(t) => enc_text(t),
        GValue::Int(n) => enc_int(n),
        GValue::List(items) => seq![B_LIST] + enc_items(items, 0) + seq![B_END],
        GValue::Dict(pairs) => seq![B_DICT] + enc_pairs(pairs, 0) + seq![B_END],
    }
}

/// Encoding of the items of a list, from index `i` on.
pub open spec fn enc_items(s: Seq<GValue>, i: int) -> Seq<u8>
    decreases s, s.len() - i,
{
    if i < 0 || i >= s.len() {
        Seq::empty()
    } else {
        enc_value(s[i]) + enc_items(s, i + 1)
    }
}

/// Encoding of the pairs of a dictionary, from index `i` on.
pub open spec fn enc_pairs(s: GPairs, i: int) -> Seq<u8>
    decreases s, s.len() - i,
{
    if i < 0 || i >= s.len() {
        Seq::empty()
    } else {
        enc_text(s[i].0) + enc_value(s[i].1) + enc_pairs(s, i + 1)
    }
}

/// Encoding of a whole message: its pairs between `d` and `e`.
pub open spec fn enc_message(m: GPairs) -> Seq<u8> {
    seq![B_DICT] + enc_pairs(m, 0) + seq![B_END]
}

/// Integers a `Value` can carry, and so the only integers the decoder admits.
pub open spec fn int_in_range(n: int) -> bool {
    i64::MIN <= n <= i64::MAX
}

/// Whether a model value can be carried by a `Value` (integers in range,
/// recursively).
pub open spec fn wf_gvalue(v: GValue) -> bool
    decreases v,
{
    match v {
        GValue::Text(_) => true,
        GValue::Int(n) => int_in_range(n),
        GValue::List(items) => wf_gitems(items, 0),
        GValue::Dict(pairs) => wf_gpairs(pairs, 0),
    }
}

pub open spec fn wf_gitems(s: Seq<GValue>, i: int) -> bool
    decreases s, s.len() - i,
{
    if i < 0 || i >= s.len() {
        true
    } else {
        wf_gvalue(s[i]) && wf_gitems(s, i + 1)
    }
}

pub open spec fn wf_gpairs(s: GPairs, i: int) -> bool
    decreases s, s.len() - i,
{
    if i < 0 || i >= s.len() {
        true
    } else {
        wf_gvalue(s[i].1) && wf_gpairs(s, i + 1)
    }
}

/// The outcome of decoding a leading item from a byte sequence: a complete
/// item and the count of bytes it took, a truncated item that more bytes may
/// complete, or a malformed sequence that no further bytes can mend.
pub enum SpecParsed<T> {
    Found(T, int),
    More,
    Bad,
}

/// Decodes a leading byte string.
pub open spec fn sdec_text(s: Seq<u8>) -> SpecParsed<Seq<u8>> {
    let k = digit_run(s);
    if s.len() == 0 {
        SpecParsed::More
    } else if !is_digit(s[0]) {
        SpecParsed::Bad
    } else if s[0] == B_ZERO && k > 1 {
        SpecParsed::Bad
    } else if k == s.len() {
        SpecParsed::More
    } else if s[k] != B_COLON {
        SpecParsed::Bad
    } else {
        let l = digits_val(s.take(k)) as int;
        if k + 1 + l > s.len() {
            SpecParsed::More
        } else {
            SpecParsed::Found(s.subrange(k + 1, k + 1 + l), k + 1 + l)
        }
    }
}

/// Decodes a leading integer; `s[0]` is already known to be `i`.
pub open spec fn sdec_int(s: Seq<u8>) -> SpecParsed<int> {
    if s.len() < 2 {
        SpecParsed::More
    } else if s[1] == B_MINUS {
        let body = s.skip(2);
        let k = digit_run(body);
        if body.len() == 0 {
            SpecParsed::More
        } else if !is_digit(body[0]) || body[0] == B_ZERO {
            SpecParsed::Bad
        } else if k == body.len() {
            SpecParsed::More
        } else if body[k] != B_END {
            SpecParsed::Bad
        } else {
            let v = digits_val(body.take(k));
            if v > 9223372036854775808 {
                SpecParsed::Bad
            } else {
                SpecParsed::Found(-(v as int), 2 + k + 1)
            }
        }
    } else {
        let body = s.skip(1);
        let k = digit_run(body);
        if !is_digit(body[0]) {
            SpecParsed::Bad
        } else if body[0] == B_ZERO && k > 1 {
            SpecParsed::Bad
        } else if k == body.len() {
            SpecParsed::More
        } else if body[k] != B_END {
            SpecParsed::Bad
        } else {
            let v = digits_val(body.take(k));
            if v > 9223372036854775807 {
                SpecParsed::Bad
            } else {
                SpecParsed::Found(v as int, 1 + k + 1)
            }
        }
    }
}

/// Decodes a leading value.
pub open spec fn sdec_value(s: Seq<u8>) -> SpecParsed<GValue>
    decreases s.len(), 0int,
{
    if s.len() == 0 {
        SpecParsed::More
    } else if is_digit(s[0]) {
        match sdec_text(s) {
            SpecParsed::Found(t, n) => SpecParsed::Found(GValue::Text(t), n),
            SpecParsed::More => SpecParsed::More,
            SpecParsed::Bad => SpecParsed::Bad,
        }
    } else if s[0] == B_INT {
        match sdec_int(s) {
            SpecParsed::Found(v, n) => SpecParsed::Found(GValue::Int(v), n),
            SpecParsed::More => SpecParsed::More,
            SpecParsed::Bad => SpecParsed::Bad,
        }
    } else if s[0] == B_LIST {
        match sdec_items(s.skip(1)) {
            SpecParsed::Found(items, n) => SpecParsed::Found(GValue::List(items), 1 + n),
            SpecParsed::More => SpecParsed::More,
            SpecParsed::Bad => SpecParsed::Bad,
        }
    } else if s[0] == B_DICT {
        match sdec_pairs(s.skip(1)) {
            SpecParsed::Found(ps, n) => SpecParsed::Found(GValue::Dict(ps), 1 + n),
            SpecParsed::More => SpecParsed::More,
            SpecParsed::Bad => SpecParsed::Bad,
        }
    } else {
        SpecParsed::Bad
    }
}

/// Decodes list items up to and including the closing `e`.
pub open spec fn sdec_items(s: Seq<u8>) -> SpecParsed<Seq<GValue>>
    decreases s.len(), 1int,
{
    if s.len() == 0 {
        SpecParsed::More
    } else if s[0] == B_END {
        SpecParsed::Found(seq![], 1)
    } else {
        match sdec_value(s) {
            SpecParsed::Found(v, n) => if 1 <= n <= s.len() {
                match sdec_items(s.skip(n)) {
                    SpecParsed::Found(rest, m) => SpecParsed::Found(seq![v] + rest, n + m),
                    SpecParsed::More => SpecParsed::More,
                    SpecParsed::Bad => SpecParsed::Bad,
                }
            } else {
                SpecParsed::Bad
            },
            SpecParsed::More => SpecParsed::More,
            SpecParsed::Bad => SpecParsed::Bad,
        }
    }
}

/// Decodes dictionary pairs up to and including the closing `e`.
pub open spec fn sdec_pairs(s: Seq<u8>) -> SpecParsed<GPairs>
    decreases s.len(), 1int,
{
    if s.len() == 0 {
        SpecParsed::More
    } else if s[0] == B_END {
        SpecParsed::Found(seq![], 1)
    } else {
        match sdec_text(s) {
            SpecParsed::Found(key, n) => if 1 <= n <= s.len() {
                match sdec_value(s.skip(n)) {
                    SpecParsed::Found(v, m) => if 1 <= m && n + m <= s.len() {
                        match sdec_pairs(s.skip(n + m)) {
                            SpecParsed::Found(rest, q) => SpecParsed::Found(
                                seq![(key, v)] + rest,
                                n + m + q,
                            ),
                            SpecParsed::More => SpecParsed::More,
                            SpecParsed::Bad => SpecParsed::Bad,
                        }
                    } else {
                        SpecParsed::Bad
                    },
                    SpecParsed::More => SpecParsed::More,
                    SpecParsed::Bad => SpecParsed::Bad,
                }
            } else {
                SpecParsed::Bad
            },
            SpecParsed::More => SpecParsed::More,
            SpecParsed::Bad => SpecParsed::Bad,
        }
    }
}

/// Decodes a leading message: a dictionary at the top level.
pub open spec fn sdec_message(s: Seq<u8>) -> SpecParsed<GPairs> {
    if s.len() == 0 {
        SpecParsed::More
    } else if s[0] != B_DICT {
        SpecParsed::Bad
    } else {
        match sdec_pairs(s.skip(1)) {
            SpecParsed::Found(ps, n) => SpecParsed::Found(ps, 1 + n),
            SpecParsed::More => SpecParsed::More,
            SpecParsed::Bad => SpecParsed::Bad,
        }
    }
}

pub proof fn lemma_dec_digits_props(n: nat)
    ensures
        dec_digits(n).len() >= 1,
        forall|i: int| 0 <= i < dec_digits(n).len() ==> is_digit(#[trigger] dec_digits(n)[i]),
        n >= 1 ==> dec_digits(n)[0] != B_ZERO,
        digits_val(dec_digits(n)) == n,
    decreases n,
{
    if n < 10 {
        let s = dec_digits(n);
        assert(s.len() == 1);
        assert(s.take(0) =~= Seq::<u8>::empty());
        assert(s.last() == (B_ZERO + n) as u8);
        assert(is_digit(s.last()));
        assert(digits_val(s) == digits_val(s.take(0)) * 10 + (s.last() - B_ZERO) as nat);
        assert(digits_val(s) == n);
    } else {
        lemma_dec_digits_props(n / 10);
        let a = dec_digits(n / 10);
        let s = dec_digits(n);
        assert(s.take(s.len() - 1) =~= a);
        assert(s.last() == (B_ZERO + n % 10) as u8);
        assert(is_digit(s.last()));
        assert(digits_val(s) == digits_val(a) * 10 + (n % 10));
        vstd::arithmetic::div_mod::lemma_fundamental_div_mod(n as int, 10);
        assert(digits_val(s) == n);
    }
}

pub proof fn lemma_digit_run_concat(d: Seq<u8>, rest: Seq<u8>)
    requires
        forall|i: int| 0 <= i < d.len() ==> is_digit(#[trigger] d[i]),
        rest.len() > 0,
        !is_digit(rest[0]),
    ensures
        digit_run(d + rest) == d.len(),
    decreases d.len(),
{
    if d.len() == 0 {
        assert(d + rest =~= rest);
    } else {
        assert((d + rest).skip(1) =~= d.skip(1) + rest);
        lemma_digit_run_concat(d.skip(1), rest);
    }
}

/// A byte string is recovered, whole and unchanged, from its own encoding
/// followed by anything at all.
pub proof fn lemma_sdec_text_round(t: Seq<u8>, rest: Seq<u8>)
    ensures
        sdec_text(enc_text(t) + rest) == SpecParsed::Found(t, enc_text(t).len() as int),
{
    let dd = dec_digits(t.len());
    lemma_dec_digits_props(t.len());
    let s = enc_text(t) + rest;
    let after = seq![B_COLON] + t + rest;
    assert(s =~= dd + after);
    lemma_digit_run_concat(dd, after);
    let k = digit_run(s);
    assert(s.take(k) =~= dd);
    assert(s[k] == B_COLON);
    let l = digits_val(s.take(k)) as int;
    assert(l == t.len());
    assert(s.subrange(k + 1, k + 1 + l) =~= t);
}

/// An in-range integer is recovered from its own encoding followed by
/// anything at all.
pub proof fn lemma_sdec_int_round(n: int, rest: Seq<u8>)
    requires
        int_in_range(n),
    ensures
        sdec_int(enc_int(n) + rest) == SpecParsed::Found(n, enc_int(n).len() as int),
{
    let s = enc_int(n) + rest;
    if n < 0 {
        let dd = dec_digits((-n) as nat);
        lemma_dec_digits_props((-n) as nat);
        let after = seq![B_END] + rest;
        let body = dd + after;
        assert(s.skip(2) =~= body);
        lemma_digit_run_concat(dd, after);
        let k = digit_run(body);
        assert(body.take(k) =~= dd);
        assert(body[k] == B_END);
        assert(digits_val(body.take(k)) == (-n) as nat);
        assert((-n) as nat <= 9223372036854775808);
    } else {
        let dd = dec_digits(n as nat);
        lemma_dec_digits_props(n as nat);
        let after = seq![B_END] + rest;
        let body = dd + after;
        assert(s.skip(1) =~= body);
        assert(s[1] == dd[0]);
        assert(s[1] != B_MINUS);
        lemma_digit_run_concat(dd, after);
        let k = digit_run(body);
        assert(body.take(k) =~= dd);
        assert(body[k] == B_END);
        assert(digits_val(body.take(k)) == n as nat);
        assert(n as nat <= 9223372036854775807);
    }
}

/// A well-formed value is recovered, whole and unchanged, from its own
/// encoding followed by anything at all.
pub proof fn lemma_sdec_value_round(v: GValue, rest: Seq<u8>)
    requires
        wf_gvalue(v),
    ensures
        sdec_value(enc_value(v) + rest) == SpecParsed::Found(v, enc_value(v).len() as int),
        enc_value(v).len() >= 1,
    decreases v, 0int,
{
    let s = enc_value(v) + rest;
    match v {
        GValue::Text(t) => {
            lemma_dec_digits_props(t.len());
            assert(s[0] == dec_digits(t.len())[0]);
            lemma_sdec_text_round(t, rest);
        },
        GValue::Int(n) => {
            lemma_sdec_int_round(n, rest);
            assert(!is_digit(s[0]));
        },
        GValue::List(items) => {
            let tail = enc_items(items, 0) + seq![B_END] + rest;
            assert(s.skip(1) =~= tail);
            lemma_sdec_items_round(items, 0, rest);
            assert(items.skip(0) =~= items);
        },
        GValue::Dict(pairs) => {
            let tail = enc_pairs(pairs, 0) + seq![B_END] + rest;
            assert(s.skip(1) =~= tail);
            lemma_sdec_pairs_round(pairs, 0, rest);
            assert(pairs.skip(0) =~= pairs);
        },
    }
}

pub proof fn lemma_sdec_items_round(items: Seq<GValue>, i: int, rest: Seq<u8>)
    requires
        0 <= i <= items.len(),
        wf_gitems(items, i),
    ensures
        sdec_items(enc_items(items, i) + seq![B_END] + rest) == SpecParsed::Found(
            items.skip(i),
            enc_items(items, i).len() + 1 as int,
        ),
    decreases items, items.len() - i,
{
    let s = enc_items(items, i) + seq![B_END] + rest;
    if i == items.len() {
        assert(s =~= seq![B_END] + rest);
        assert(s[0] == B_END);
        assert(items.skip(i) =~= Seq::<GValue>::empty());
    } else {
        let ev = enc_value(items[i]);
        let tail = enc_items(items, i + 1) + seq![B_END] + rest;
        assert(s =~= ev + tail);
        lemma_sdec_value_round(items[i], tail);
        let n = ev.len() as int;
        assert(s[0] == ev[0]);
        assert(s[0] != B_END) by {
            if s[0] == B_END {
                assert(sdec_value(s) == SpecParsed::<GValue>::Bad);
            }
        }
        assert(s.skip(n) =~= tail);
        lemma_sdec_items_round(items, i + 1, rest);
        assert(seq![items[i]] + items.skip(i + 1) =~= items.skip(i));
    }
}

pub proof fn lemma_sdec_pairs_round(pairs: GPairs, i: int, rest: Seq<u8>)
    requires
        0 <= i <= pairs.len(),
        wf_gpairs(pairs, i),
    ensures
        sdec_pairs(enc_pairs(pairs, i) + seq![B_END] + rest) == SpecParsed::Found(
            pairs.skip(i),
            enc_pairs(pairs, i).len() + 1 as int,
        ),
    decreases pairs, pairs.len() - i,
{
    let s = enc_pairs(pairs, i) + seq![B_END] + rest;
    if i == pairs.len() {
        assert(s =~= seq![B_END] + rest);
        assert(s[0] == B_END);
        assert(pairs.skip(i) =~= Seq::<(Seq<u8>, GValue)>::empty());
    } else {
        let key = pairs[i].0;
        let val = pairs[i].1;
        let ek = enc_text(key);
        let ev = enc_value(val);
        let tail1 = ev + enc_pairs(pairs, i + 1) + seq![B_END] + rest;
        let tail2 = enc_pairs(pairs, i + 1) + seq![B_END] + rest;
        assert(s =~= ek + tail1);
        lemma_sdec_text_round(key, tail1);
        lemma_dec_digits_props(key.len());
        assert(s[0] == ek[0]);
        assert(s[0] != B_END);
        let n = ek.len() as int;
        assert(s.skip(n) =~= ev + tail2);
        lemma_sdec_value_round(val, tail2);
        let m = ev.len() as int;
        assert(s.skip(n).skip(m) =~= tail2);
        assert(s.skip(n + m) =~= tail2);
        lemma_sdec_pairs_round(pairs, i + 1, rest);
        assert(seq![(key, val)] + pairs.skip(i + 1) =~= pairs.skip(i));
    }
}

/// Round-trip law of the codec: decoding the encoding of any well-formed
/// message, with any bytes at all behind it, yields exactly that message and
/// consumes exactly its encoding.
pub proof fn lemma_codec_round_trip(m: GPairs, rest: Seq<u8>)
    requires
        wf_gpairs(m, 0),
    ensures
        sdec_message(enc_message(m) + rest) == SpecParsed::Found(m, enc_message(m).len() as int),
        enc_message(m).len() >= 2,
{
    let s = enc_message(m) + rest;
    let tail = enc_pairs(m, 0) + seq![B_END] + rest;
    assert(s.skip(1) =~= tail);
    lemma_sdec_pairs_round(m, 0, rest);
    assert(m.skip(0) =~= m);
}

/// Appends the bytes of `t` to `out`.
pub fn push_bytes(t: &[u8], out: &mut Vec<u8>)
    ensures
        final(out)@ == old(out)@ + t@,
{
    let mut x: usize = 0;
    while x < t.len()
        invariant
            x <= t@.len(),
            out@ == old(out)@ + t@.take(x as int),
        decreases t@.len() - x,
    {
        out.push(t[x]);
        assert(old(out)@ + t@.take(x as int) + seq![t@[x as int]] =~= old(out)@ + t@.take(
            x as int + 1,
        ));
        x = x + 1;
    }
    assert(t@.take(t@.len() as int) =~= t@);
}

/// Appends the decimal digits of `n` to `out`.
fn push_digits(n: u64, out: &mut Vec<u8>)
    ensures
        final(out)@ == old(out)@ + dec_digits(n as nat),
    decreases n,
{
    if n < 10 {
        out.push(B_ZERO + n as u8);
    } else {
        push_digits(n / 10, out);
        out.push(B_ZERO + (n % 10) as u8);
        assert(out@ =~= old(out)@ + dec_digits(n as nat));
    }
}

/// Appends the encoding of the byte string `t` to `out`.
fn push_text(t: &[u8], out: &mut Vec<u8>)
    ensures
        final(out)@ == old(out)@ + enc_text(t@),
{
    push_digits(t.len() as u64, out);
    out.push(B_COLON);
    push_bytes(t, out);
    assert(out@ =~= old(out)@ + enc_text(t@));
}

/// Appends the encoding of the integer `n` to `out`.
fn push_int(n: i64, out: &mut Vec<u8>)
    ensures
        final(out)@ == old(out)@ + enc_int(n as int),
{
    out.push(B_INT);
    if n < 0 {
        out.push(B_MINUS);
        let mag: u64 = if n == i64::MIN {
            9223372036854775808u64
        } else {
            (-n) as u64
        };
        assert(mag as nat == (-(n as int)) as nat);
        push_digits(mag, out);
    } else {
        push_digits(n as u64, out);
    }
    out.push(B_END);
    assert(out@ =~= old(out)@ + enc_int(n as int));
}

/// Appends the encoding of `v` to `out`.
#[verifier::loop_isolation(false)]
pub fn push_value(v: &Value, out: &mut Vec<u8>)
    ensures
        final(out)@ == old(out)@ + enc_value(dv_value(*v)),
    decreases *v,
{
    match v {
        Value::Text(t) => {
            push_text(t.as_slice(), out);
        },
        Value::Int(n) => {
            push_int(*n, out);
        },
        Value::List(items) => {
            let ghost g = dv_items(items@, 0);
            proof {
                lemma_dv_items_index(items@, 0);
            }
            out.push(B_LIST);
            let mut j: usize = 0;
            while j < items.len()
                invariant
                    j <= items@.len(),
                    g == dv_items(items@, 0),
                    g.len() == items@.len(),
                    forall|x: int| 0 <= x < items@.len() ==> g[x] == dv_value(items@[x]),
                    out@ + enc_items(g, j as int) == old(out)@ + seq![B_LIST] + enc_items(g, 0),
                decreases items@.len() - j,
            {
                proof {
                    assert(decreases_to!(*v => items@[j as int]));
                }
                push_value(&items[j], out);
                assert(enc_items(g, j as int) == enc_value(g[j as int]) + enc_items(
                    g,
                    j as int + 1,
                ));
                assert(out@ + enc_items(g, j as int + 1) =~= old(out)@ + seq![B_LIST] + enc_items(
                    g,
                    0,
                ));
                j = j + 1;
            }
            out.push(B_END);
            assert(out@ =~= old(out)@ + (seq![B_LIST] + enc_items(g, 0) + seq![B_END]));
        },
        Value::Dict(pairs) => {
            let ghost g = dv_pairs(pairs@, 0);
            proof {
                lemma_dv_pairs_index(pairs@, 0);
            }
            out.push(B_DICT);
            let mut j: usize = 0;
            while j < pairs.len()
                invariant
                    j <= pairs@.len(),
                    g == dv_pairs(pairs@, 0),
                    g.len() == pairs@.len(),
                    forall|x: int|
                        0 <= x < pairs@.len() ==> g[x] == (pairs@[x].0@, dv_value(pairs@[x].1)),
                    out@ + enc_pairs(g, j as int) == old(out)@ + seq![B_DICT] + enc_pairs(g, 0),
                decreases pairs@.len() - j,
            {
                push_text(pairs[j].0.as_slice(), out);
                proof {
                    assert(decreases_to!(*v => pairs@[j as int].1));
                }
                push_value(&pairs[j].1, out);
                assert(enc_pairs(g, j as int) == enc_text(g[j as int].0) + enc_value(
                    g[j as int].1,
                ) + enc_pairs(g, j as int + 1));
                assert(out@ + enc_pairs(g, j as int + 1) =~= old(out)@ + seq![B_DICT] + enc_pairs(
                    g,
                    0,
                ));
                j = j + 1;
            }
            out.push(B_END);
            assert(out@ =~= old(out)@ + (seq![B_DICT] + enc_pairs(g, 0) + seq![B_END]));
        },
    }
}

/// Encodes a message: its pairs between `d` and `e`.  Never fails on a
/// well-formed message, and frames it so the receiver can find its end
/// without any out-of-band length.
pub fn encode_message(m: &Message) -> (r: Vec<u8>)
    ensures
        r@ == enc_message(dv_message(*m)),
{
    let ghost g = dv_message(*m);
    proof {
        lemma_dv_pairs_index(m.pairs@, 0);
    }
    let mut out: Vec<u8> = Vec::new();
    out.push(B_DICT);
    let mut j: usize = 0;
    while j < m.pairs.len()
        invariant
            j <= m.pairs@.len(),
            g == dv_pairs(m.pairs@, 0),
            g.len() == m.pairs@.len(),
            forall|x: int|
                0 <= x < m.pairs@.len() ==> g[x] == (m.pairs@[x].0@, dv_value(m.pairs@[x].1)),
            out@ + enc_pairs(g, j as int) == seq![B_DICT] + enc_pairs(g, 0),
        decreases m.pairs@.len() - j,
    {
        push_text(m.pairs[j].0.as_slice(), &mut out);
        push_value(&m.pairs[j].1, &mut out);
        assert(enc_pairs(g, j as int) == enc_text(g[j as int].0) + enc_value(g[j as int].1)
            + enc_pairs(g, j as int + 1));
        assert(out@ + enc_pairs(g, j as int + 1) =~= seq![B_DICT] + enc_pairs(g, 0));
        j = j + 1;
    }
    out.push(B_END);
    assert(out@ =~= seq![B_DICT] + enc_pairs(g, 0) + seq![B_END]);
    out
}

pub proof fn lemma_digit_run_nonneg(s: Seq<u8>)
    ensures
        0 <= digit_run(s) <= s.len(),
    decreases s.len(),
{
    if s.len() > 0 && is_digit(s[0]) {
        lemma_digit_run_nonneg(s.skip(1));
    }
}

pub proof fn lemma_digit_run_char(t: Seq<u8>, j: int)
    requires
        0 <= j <= t.len(),
        forall|x: int| 0 <= x < j ==> is_digit(t[x]),
        j < t.len() ==> !is_digit(t[j]),
    ensures
        digit_run(t) == j,
    decreases j,
{
    if j > 0 {
        assert(forall|x: int| 0 <= x < j - 1 ==> t.skip(1)[x] == t[x + 1]);
        lemma_digit_run_char(t.skip(1), j - 1);
    }
}

pub proof fn lemma_digits_val_mono(t: Seq<u8>, a: int, b: int)
    requires
        0 <= a <= b <= t.len(),
    ensures
        digits_val(t.take(a)) <= digits_val(t.take(b)),
    decreases b - a,
{
    if a < b {
        lemma_digits_val_mono(t, a, b - 1);
        let p = t.take(b);
        assert(p.take(b - 1) =~= t.take(b - 1));
        assert(digits_val(t.take(b - 1)) * 10 >= digits_val(t.take(b - 1)));
    }
}

/// A complete leading byte string always takes at least one byte and no more
/// than there are.
pub proof fn lemma_sdec_text_bounds(s: Seq<u8>)
    ensures
        sdec_text(s) matches SpecParsed::Found(_, n) ==> 1 <= n <= s.len(),
{
    lemma_digit_run_nonneg(s);
}

pub proof fn lemma_sdec_int_bounds(s: Seq<u8>)
    ensures
        sdec_int(s) matches SpecParsed::Found(_, n) ==> 1 <= n <= s.len(),
{
    if s.len() >= 2 {
        if s[1] == B_MINUS {
            lemma_digit_run_nonneg(s.skip(2));
        } else {
            lemma_digit_run_nonneg(s.skip(1));
        }
    }
}

/// A complete leading value, item run, or pair run always takes at least one
/// byte and no more than there are.
pub proof fn lemma_sdec_value_bounds(s: Seq<u8>)
    ensures
        sdec_value(s) matches SpecParsed::Found(_, n) ==> 1 <= n <= s.len(),
    decreases s.len(), 0int,
{
    if s.len() > 0 {
        if is_digit(s[0]) {
            lemma_sdec_text_bounds(s);
        } else if s[0] == B_INT {
            lemma_sdec_int_bounds(s);
        } else if s[0] == B_LIST {
            lemma_sdec_items_bounds(s.skip(1));
        } else if s[0] == B_DICT {
            lemma_sdec_pairs_bounds(s.skip(1));
        }
    }
}

pub proof fn lemma_sdec_items_bounds(s: Seq<u8>)
    ensures
        sdec_items(s) matches SpecParsed::Found(_, n) ==> 1 <= n <= s.len(),
    decreases s.len(), 1int,
{
    if s.len() > 0 && s[0] != B_END {
        lemma_sdec_value_bounds(s);
        if let SpecParsed::Found(_, n) = sdec_value(s) {
            if 1 <= n <= s.len() {
                lemma_sdec_items_bounds(s.skip(n));
            }
        }
    }
}

pub proof fn lemma_sdec_pairs_bounds(s: Seq<u8>)
    ensures
        sdec_pairs(s) matches SpecParsed::Found(_, n) ==> 1 <= n <= s.len(),
    decreases s.len(), 1int,
{
    if s.len() > 0 && s[0] != B_END {
        lemma_sdec_text_bounds(s);
        if let SpecParsed::Found(_, n) = sdec_text(s) {
            if 1 <= n <= s.len() {
                lemma_sdec_value_bounds(s.skip(n));
                if let SpecParsed::Found(_, m) = sdec_value(s.skip(n)) {
                    if 1 <= m && n + m <= s.len() {
                        lemma_sdec_pairs_bounds(s.skip(n + m));
                    }
                }
            }
        }
    }
}

pub proof fn lemma_sdec_message_bounds(s: Seq<u8>)
    ensures
        sdec_message(s) matches SpecParsed::Found(_, n) ==> 2 <= n <= s.len(),
{
    if s.len() > 0 && s[0] == B_DICT {
        lemma_sdec_pairs_bounds(s.skip(1));
    }
}

/// A strict prefix of a text encoding asks for more bytes: it is never
/// mistaken for a complete item and never for a malformed one.
pub proof fn lemma_prefix_text(t: Seq<u8>, j: int)
    requires
        0 <= j < enc_text(t).len(),
    ensures
        sdec_text(enc_text(t).take(j)) is More,
{
    let dd = dec_digits(t.len());
    lemma_dec_digits_props(t.len());
    let p = enc_text(t).take(j);
    if j == 0 {
    } else if j <= dd.len() {
        assert(p =~= dd.take(j));
        lemma_digit_run_char(p, j);
    } else {
        let after = (seq![B_COLON] + t).take(j - dd.len());
        assert(p =~= dd + after);
        assert(after[0] == B_COLON);
        lemma_digit_run_concat(dd, after);
        let k = digit_run(p);
        assert(p.take(k) =~= dd);
        assert(p[k] == B_COLON);
        assert(digits_val(p.take(k)) == t.len());
        assert(k + 1 + t.len() > p.len());
    }
}

/// A strict prefix of an integer encoding asks for more bytes.
pub proof fn lemma_prefix_int(n: int, j: int)
    requires
        int_in_range(n),
        0 <= j < enc_int(n).len(),
    ensures
        sdec_int(enc_int(n).take(j)) is More,
{
    let p = enc_int(n).take(j);
    if n < 0 {
        let dd = dec_digits((-n) as nat);
        lemma_dec_digits_props((-n) as nat);
        if j <= 2 {
        } else {
            let body = dd.take(j - 2);
            assert(p.skip(2) =~= body);
            assert(p[1] == B_MINUS);
            lemma_digit_run_char(body, body.len() as int);
            assert(body[0] == dd[0]);
        }
    } else {
        let dd = dec_digits(n as nat);
        lemma_dec_digits_props(n as nat);
        if j <= 1 {
        } else {
            let body = dd.take(j - 1);
            assert(p.skip(1) =~= body);
            assert(p[1] == dd[0]);
            assert(p[1] != B_MINUS);
            lemma_digit_run_char(body, body.len() as int);
        }
    }
}

/// A strict prefix of a value encoding asks for more bytes.
#[verifier::rlimit(50)]
pub proof fn lemma_prefix_value(v: GValue, j: int)
    requires
        wf_gvalue(v),
        0 <= j < enc_value(v).len(),
    ensures
        sdec_value(enc_value(v).take(j)) is More,
    decreases v, 0int,
{
    let p = enc_value(v).take(j);
    if j == 0 {
    } else {
        match v {
            GValue::Text(t) => {
                lemma_dec_digits_props(t.len());
                assert(p[0] == dec_digits(t.len())[0]);
                assert(p =~= enc_text(t).take(j));
                lemma_prefix_text(t, j);
            },
            GValue::Int(n) => {
                assert(p =~= enc_int(n).take(j));
                assert(p[0] == B_INT);
                assert(!is_digit(p[0]));
                lemma_prefix_int(n, j);
            },
            GValue::List(items) => {
                assert(p[0] == B_LIST);
                assert(p.skip(1) =~= (enc_items(items, 0) + seq![B_END]).take(j - 1));
                lemma_prefix_items(items, 0, j - 1);
            },
            GValue::Dict(pairs) => {
                assert(p[0] == B_DICT);
                assert(p.skip(1) =~= (enc_pairs(pairs, 0) + seq![B_END]).take(j - 1));
                lemma_prefix_pairs(pairs, 0, j - 1);
            },
        }
    }
}

#[verifier::rlimit(50)]
pub proof fn lemma_prefix_items(items: Seq<GValue>, i: int, j: int)
    requires
        0 <= i <= items.len(),
        wf_gitems(items, i),
        0 <= j < enc_items(items, i).len() + 1,
    ensures
        sdec_items((enc_items(items, i) + seq![B_END]).take(j)) is More,
    decreases items, items.len() - i,
{
    let full = enc_items(items, i) + seq![B_END];
    let p = full.take(j);
    if j == 0 {
    } else {
        let ev = enc_value(items[i]);
        let n = ev.len() as int;
        let tail = enc_items(items, i + 1) + seq![B_END];
        assert(full =~= ev + tail);
        lemma_sdec_value_round(items[i], tail);
        assert(ev[0] != B_END) by {
            if ev[0] == B_END {
                assert((ev + tail)[0] == B_END);
                assert(sdec_value(ev + tail) is Bad);
            }
        }
        assert(p[0] == ev[0]);
        if j < n {
            assert(p =~= ev.take(j));
            lemma_prefix_value(items[i], j);
            assert(sdec_value(p) is More);
            assert(sdec_items(p) is More);
        } else if j == n {
            assert(p =~= ev);
            assert(ev + Seq::<u8>::empty() =~= ev);
            lemma_sdec_value_round(items[i], Seq::empty());
            assert(sdec_value(p) == SpecParsed::Found(items[i], n));
            assert(p.skip(n) =~= Seq::<u8>::empty());
            assert(sdec_items(p.skip(n)) is More);
            assert(sdec_items(p) is More);
        } else {
            let q = j - n;
            assert(p =~= ev + tail.take(q));
            lemma_sdec_value_round(items[i], tail.take(q));
            assert(sdec_value(p) == SpecParsed::Found(items[i], n));
            assert(p.skip(n) =~= tail.take(q));
            lemma_prefix_items(items, i + 1, q);
            assert(sdec_items(p.skip(n)) is More);
            assert(sdec_items(p) is More);
        }
    }
}

#[verifier::rlimit(50)]
pub proof fn lemma_prefix_pairs(pairs: GPairs, i: int, j: int)
    requires
        0 <= i <= pairs.len(),
        wf_gpairs(pairs, i),
        0 <= j < enc_pairs(pairs, i).len() + 1,
    ensures
        sdec_pairs((enc_pairs(pairs, i) + seq![B_END]).take(j)) is More,
    decreases pairs, pairs.len() - i,
{
    let full = enc_pairs(pairs, i) + seq![B_END];
    let p = full.take(j);
    if j == 0 {
    } else {
        let key = pairs[i].0;
        let val = pairs[i].1;
        let ek = enc_text(key);
        let ev = enc_value(val);
        let n = ek.len() as int;
        let m = ev.len() as int;
        let tail = enc_pairs(pairs, i + 1) + seq![B_END];
        assert(full =~= ek + (ev + tail));
        lemma_dec_digits_props(key.len());
        assert(p[0] == ek[0]);
        assert(is_digit(p[0]));
        assert(p[0] != B_END);
        if j < n {
            assert(p =~= ek.take(j));
            lemma_prefix_text(key, j);
            assert(sdec_text(p) is More);
            assert(sdec_pairs(p) is More);
        } else if j == n {
            assert(p =~= ek);
            assert(ek + Seq::<u8>::empty() =~= ek);
            lemma_sdec_text_round(key, Seq::empty());
            assert(sdec_text(p) == SpecParsed::Found(key, n));
            assert(p.skip(n) =~= Seq::<u8>::empty());
            assert(sdec_value(p.skip(n)) is More);
            assert(sdec_pairs(p) is More);
        } else {
            let q = j - n;
            let tailp = (ev + tail).take(q);
            assert(p =~= ek + tailp);
            lemma_sdec_text_round(key, tailp);
            assert(p.skip(n) =~= tailp);
            assert(sdec_text(p) == SpecParsed::Found(key, n));
            if q < m {
                assert(tailp =~= ev.take(q));
                lemma_prefix_value(val, q);
                assert(sdec_value(p.skip(n)) is More);
                assert(sdec_pairs(p) is More);
            } else if q == m {
                assert(tailp =~= ev);
                assert(ev + Seq::<u8>::empty() =~= ev);
                lemma_sdec_value_round(val, Seq::empty());
                assert(sdec_value(p.skip(n)) == SpecParsed::Found(val, m));
                assert(p.skip(n + m) =~= Seq::<u8>::empty());
                assert(sdec_pairs(p.skip(n + m)) is More);
                assert(sdec_pairs(p) is More);
            } else {
                assert(tailp =~= ev + tail.take(q - m));
                lemma_sdec_value_round(val, tail.take(q - m));
                assert(sdec_value(p.skip(n)) == SpecParsed::Found(val, m));
                assert(p.skip(n + m) =~= tail.take(q - m));
                lemma_prefix_pairs(pairs, i + 1, q - m);
                assert(sdec_pairs(p.skip(n + m)) is More);
                assert(sdec_pairs(p) is More);
            }
        }
    }
}

/// A strict prefix of a message encoding asks for more bytes: a truncated
/// message is told apart both from a complete one and from a malformed one,
/// however it was cut.
pub proof fn lemma_prefix_message(m: GPairs, j: int)
    requires
        wf_gpairs(m, 0),
        0 <= j < enc_message(m).len(),
    ensures
        sdec_message(enc_message(m).take(j)) is More,
{
    let p = enc_message(m).take(j);
    if j > 0 {
        assert(p[0] == B_DICT);
        assert(p.skip(1) =~= (enc_pairs(m, 0) + seq![B_END]).take(j - 1));
        lemma_prefix_pairs(m, 0, j - 1);
    }
}

/// The outcome of decoding a leading item: the decoded item with the count of
/// bytes it took, a request for more bytes, or a malformed input.
pub enum Parsed<T> {
    Found(T, usize),
    More,
    Bad,
}

pub open spec fn pm_text(r: Parsed<Vec<u8>>, g: SpecParsed<Seq<u8>>) -> bool {
    match r {
        Parsed::Found(t, n) => g == SpecParsed::Found(t@, n as int),
        Parsed::More => g is More,
        Parsed::Bad => g is Bad,
    }
}

pub open spec fn pm_int(r: Parsed<i64>, g: SpecParsed<int>) -> bool {
    match r {
        Parsed::Found(v, n) => g == SpecParsed::Found(v as int, n as int),
        Parsed::More => g is More,
        Parsed::Bad => g is Bad,
    }
}

pub open spec fn pm_value(r: Parsed<Value>, g: SpecParsed<GValue>) -> bool {
    match r {
        Parsed::Found(v, n) => g == SpecParsed::Found(dv_value(v), n as int),
        Parsed::More => g is More,
        Parsed::Bad => g is Bad,
    }
}

pub open spec fn pm_items(r: Parsed<Vec<Value>>, g: SpecParsed<Seq<GValue>>) -> bool {
    match r {
        Parsed::Found(v, n) => g == SpecParsed::Found(dv_items(v@, 0), n as int),
        Parsed::More => g is More,
        Parsed::Bad => g is Bad,
    }
}

pub open spec fn pm_pairs(r: Parsed<Vec<(Vec<u8>, Value)>>, g: SpecParsed<GPairs>) -> bool {
    match r {
        Parsed::Found(v, n) => g == SpecParsed::Found(dv_pairs(v@, 0), n as int),
        Parsed::More => g is More,
        Parsed::Bad => g is Bad,
    }
}

pub open spec fn pm_message(r: Parsed<Message>, g: SpecParsed<GPairs>) -> bool {
    match r {
        Parsed::Found(m, n) => g == SpecParsed::Found(dv_message(m), n as int),
        Parsed::More => g is More,
        Parsed::Bad => g is Bad,
    }
}

/// Counts the digits at and after position `i`.
#[verifier::loop_isolation(false)]
pub fn scan_digits(s: &[u8], i: usize) -> (k: usize)
    requires
        i <= s@.len(),
    ensures
        i + k <= s@.len(),
        digit_run(s@.skip(i as int)) == k as int,
        forall|x: int| i <= x < i + k ==> is_digit(s@[x]),
{
    let mut j: usize = i;
    while j < s.len() && s[j] >= B_ZERO && s[j] <= B_NINE
        invariant
            i <= j <= s@.len(),
            forall|x: int| i <= x < j ==> is_digit(s@[x]),
        decreases s@.len() - j,
    {
        j = j + 1;
    }
    proof {
        let sub = s@.skip(i as int);
        assert(forall|x: int| 0 <= x < sub.len() ==> sub[x] == s@[x + i]);
        lemma_digit_run_char(sub, j - i);
    }
    j - i
}

/// Parses the digit run `s[i..i+k]`, or reports that its value does not fit.
#[verifier::loop_isolation(false)]
pub fn parse_run_value(s: &[u8], i: usize, k: usize) -> (r: Option<u64>)
    requires
        i + k <= s@.len(),
        forall|x: int| i <= x < i + k ==> is_digit(s@[x]),
    ensures
        match r {
            Some(v) => v as nat == digits_val(s@.subrange(i as int, i as int + k as int)),
            None => digits_val(s@.subrange(i as int, i as int + k as int)) > u64::MAX,
        },
{
    proof {
        vstd::slice::axiom_spec_len::<u8>(s);
    }
    let ghost sub = s@.subrange(i as int, i as int + k as int);
    let mut acc: u64 = 0;
    let mut x: usize = 0;
    while x < k
        invariant
            x <= k,
            acc as nat == digits_val(sub.take(x as int)),
        decreases k - x,
    {
        let d = s[i + x] - B_ZERO;
        proof {
            assert(sub.take(x as int + 1).take(x as int) =~= sub.take(x as int));
            assert(sub.take(x as int + 1).last() == s@[i + x]);
            assert(digits_val(sub.take(x as int + 1)) == digits_val(sub.take(x as int)) * 10
                + d as nat);
        }
        if acc > (u64::MAX - d as u64) / 10 {
            proof {
                let m = u64::MAX as nat;
                let dd = d as nat;
                let q = (m - dd) / 10;
                vstd::arithmetic::div_mod::lemma_fundamental_div_mod((m - dd) as int, 10);
                assert(0 <= (m - dd) % 10 < 10) by (nonlinear_arith);
                assert(acc as nat * 10 >= (q + 1) * 10);
                assert(acc as nat * 10 + dd > m);
                lemma_digits_val_mono(sub, x as int + 1, k as int);
                assert(sub.take(k as int) =~= sub);
            }
            return None;
        }
        proof {
            let m = u64::MAX as nat;
            let dd = d as nat;
            let q = (m - dd) / 10;
            vstd::arithmetic::div_mod::lemma_fundamental_div_mod((m - dd) as int, 10);
            assert(0 <= (m - dd) % 10 < 10) by (nonlinear_arith);
            assert(acc as nat * 10 <= q * 10);
            assert(acc as nat * 10 + dd <= m);
        }
        acc = acc * 10 + d as u64;
        x = x + 1;
    }
    proof {
        assert(sub.take(k as int) =~= sub);
    }
    Some(acc)
}

/// Decodes a leading byte string at position `i`.
#[verifier::loop_isolation(false)]
fn d_text(s: &[u8], i: usize) -> (r: Parsed<Vec<u8>>)
    requires
        i <= s@.len(),
    ensures
        pm_text(r, sdec_text(s@.skip(i as int))),
{
    let ghost sub = s@.skip(i as int);
    proof {
        vstd::slice::axiom_spec_len::<u8>(s);
        assert(forall|x: int| 0 <= x < sub.len() ==> sub[x] == s@[x + i]);
        lemma_digit_run_nonneg(sub);
    }
    if i == s.len() {
        return Parsed::More;
    }
    let b = s[i];
    if b < B_ZERO || b > B_NINE {
        return Parsed::Bad;
    }
    let k = scan_digits(s, i);
    proof {
        assert(s@.skip(i as int) =~= sub);
    }
    if b == B_ZERO && k > 1 {
        return Parsed::Bad;
    }
    if i + k == s.len() {
        return Parsed::More;
    }
    if s[i + k] != B_COLON {
        proof {
            assert(sub[k as int] == s@[i + k]);
        }
        return Parsed::Bad;
    }
    proof {
        assert(sub[k as int] == s@[i + k]);
        assert(sub.take(k as int) =~= s@.subrange(i as int, i as int + k as int));
    }
    let rem: usize = s.len() - i - k - 1;
    match parse_run_value(s, i, k) {
        None => {
            proof {
                assert(digits_val(sub.take(k as int)) > u64::MAX >= rem as nat);
            }
            Parsed::More
        },
        Some(v) => {
            if v > rem as u64 {
                Parsed::More
            } else {
                let l = v as usize;
                let mut t: Vec<u8> = Vec::new();
                let mut x: usize = 0;
                while x < l
                    invariant
                        x <= l,
                        i + k + 1 + l <= s@.len(),
                        t@ == s@.subrange((i + k + 1) as int, (i + k + 1 + x) as int),
                    decreases l - x,
                {
                    t.push(s[i + k + 1 + x]);
                    proof {
                        assert(t@ =~= s@.subrange((i + k + 1) as int, (i + k + 1 + x + 1) as int));
                    }
                    x = x + 1;
                }
                proof {
                    assert(t@ =~= sub.subrange(
                        k as int + 1,
                        k as int + 1 + l as int,
                    ));
                }
                Parsed::Found(t, k + 1 + l)
            }
        },
    }
}

/// Decodes a leading integer at position `i`; the caller saw `i` there.
fn d_int(s: &[u8], i: usize) -> (r: Parsed<i64>)
    requires
        i < s@.len(),
        s@[i as int] == B_INT,
    ensures
        pm_int(r, sdec_int(s@.skip(i as int))),
{
    let ghost sub = s@.skip(i as int);
    proof {
        vstd::slice::axiom_spec_len::<u8>(s);
        assert(forall|x: int| 0 <= x < sub.len() ==> sub[x] == s@[x + i]);
    }
    if i + 1 == s.len() {
        return Parsed::More;
    }
    if s[i + 1] == B_MINUS {
        let ghost body = sub.skip(2);
        proof {
            assert(body =~= s@.skip(i as int + 2));
            assert(forall|x: int| 0 <= x < body.len() ==> body[x] == s@[x + i + 2]);
            lemma_digit_run_nonneg(body);
        }
        if i + 2 == s.len() {
            return Parsed::More;
        }
        let b = s[i + 2];
        if b < B_ZERO || b > B_NINE || b == B_ZERO {
            return Parsed::Bad;
        }
        let k = scan_digits(s, i + 2);
        proof {
            assert(s@.skip(i as int + 2) =~= body);
        }
        if i + 2 + k == s.len() {
            return Parsed::More;
        }
        if s[i + 2 + k] != B_END {
            proof {
                assert(body[k as int] == s@[i + 2 + k]);
            }
            return Parsed::Bad;
        }
        proof {
            assert(body[k as int] == s@[i + 2 + k]);
            assert(body.take(k as int) =~= s@.subrange(i as int + 2, i as int + 2 + k as int));
        }
        match parse_run_value(s, i + 2, k) {
            None => Parsed::Bad,
            Some(v) => {
                if v > 9223372036854775808u64 {
                    Parsed::Bad
                } else if v == 9223372036854775808u64 {
                    Parsed::Found(i64::MIN, k + 3)
                } else {
                    Parsed::Found(-(v as i64), k + 3)
                }
            },
        }
    } else {
        let ghost body = sub.skip(1);
        proof {
            assert(body =~= s@.skip(i as int + 1));
            assert(forall|x: int| 0 <= x < body.len() ==> body[x] == s@[x + i + 1]);
            lemma_digit_run_nonneg(body);
        }
        let b = s[i + 1];
        if b < B_ZERO || b > B_NINE {
            return Parsed::Bad;
        }
        let k = scan_digits(s, i + 1);
        proof {
            assert(s@.skip(i as int + 1) =~= body);
        }
        if b == B_ZERO && k > 1 {
            return Parsed::Bad;
        }
        if i + 1 + k == s.len() {
            return Parsed::More;
        }
        if s[i + 1 + k] != B_END {
            proof {
                assert(body[k as int] == s@[i + 1 + k]);
            }
            return Parsed::Bad;
        }
        proof {
            assert(body[k as int] == s@[i + 1 + k]);
            assert(body.take(k as int) =~= s@.subrange(i as int + 1, i as int + 1 + k as int));
        }
        match parse_run_value(s, i + 1, k) {
            None => Parsed::Bad,
            Some(v) => {
                if v > 9223372036854775807u64 {
                    Parsed::Bad
                } else {
                    Parsed::Found(v as i64, k + 2)
                }
            },
        }
    }
}

/// Decodes a leading value at position `i`.
fn d_value(s: &[u8], i: usize) -> (r: Parsed<Value>)
    requires
        i <= s@.len(),
    ensures
        pm_value(r, sdec_value(s@.skip(i as int))),
    decreases s@.len() - i, 0int,
{
    let ghost sub = s@.skip(i as int);
    proof {
        vstd::slice::axiom_spec_len::<u8>(s);
    }
    if i == s.len() {
        return Parsed::More;
    }
    let b = s[i];
    proof {
        assert(sub[0] == b);
    }
    if b >= B_ZERO && b <= B_NINE {
        match d_text(s, i) {
            Parsed::Found(t, n) => Parsed::Found(Value::Text(t), n),
            Parsed::More => Parsed::More,
            Parsed::Bad => Parsed::Bad,
        }
    } else if b == B_INT {
        match d_int(s, i) {
            Parsed::Found(v, n) => Parsed::Found(Value::Int(v), n),
            Parsed::More => Parsed::More,
            Parsed::Bad => Parsed::Bad,
        }
    } else if b == B_LIST {
        proof {
            assert(s@.skip(i as int + 1) =~= sub.skip(1));
            lemma_sdec_items_bounds(sub.skip(1));
        }
        match d_items(s, i + 1) {
            Parsed::Found(items, n) => Parsed::Found(Value::List(items), n + 1),
            Parsed::More => Parsed::More,
            Parsed::Bad => Parsed::Bad,
        }
    } else if b == B_DICT {
        proof {
            assert(s@.skip(i as int + 1) =~= sub.skip(1));
            lemma_sdec_pairs_bounds(sub.skip(1));
        }
        match d_pairs(s, i + 1) {
            Parsed::Found(pairs, n) => Parsed::Found(Value::Dict(pairs), n + 1),
            Parsed::More => Parsed::More,
            Parsed::Bad => Parsed::Bad,
        }
    } else {
        Parsed::Bad
    }
}

/// Decodes list items at position `i`, up to and including the closing `e`.
fn d_items(s: &[u8], i: usize) -> (r: Parsed<Vec<Value>>)
    requires
        i <= s@.len(),
    ensures
        pm_items(r, sdec_items(s@.skip(i as int))),
    decreases s@.len() - i, 1int,
{
    let ghost sub = s@.skip(i as int);
    proof {
        vstd::slice::axiom_spec_len::<u8>(s);
    }
    if i == s.len() {
        return Parsed::More;
    }
    if s[i] == B_END {
        proof {
            assert(sub[0] == B_END);
            assert(dv_items(Seq::<Value>::empty(), 0) =~= Seq::<GValue>::empty());
            assert(sdec_items(sub) == SpecParsed::Found(Seq::<GValue>::empty(), 1int));
        }
        return Parsed::Found(Vec::new(), 1);
    }
    proof {
        assert(sub[0] != B_END);
        lemma_sdec_value_bounds(sub);
    }
    match d_value(s, i) {
        Parsed::More => Parsed::More,
        Parsed::Bad => Parsed::Bad,
        Parsed::Found(v, n) => {
            proof {
                assert(s@.skip((i + n) as int) =~= sub.skip(n as int));
                lemma_sdec_items_bounds(sub.skip(n as int));
            }
            match d_items(s, i + n) {
                Parsed::More => Parsed::More,
                Parsed::Bad => Parsed::Bad,
                Parsed::Found(rest, m) => {
                    let ghost grest = rest@;
                    let mut out = rest;
                    out.insert(0, v);
                    proof {
                        assert(out@ =~= seq![v] + grest);
                        lemma_dv_items_all(out@);
                        lemma_dv_items_all(grest);
                        assert(dv_items(out@, 0) =~= seq![dv_value(v)] + dv_items(grest, 0));
                    }
                    Parsed::Found(out, n + m)
                },
            }
        },
    }
}

/// Decodes dictionary pairs at position `i`, up to and including the closing
/// `e`.
fn d_pairs(s: &[u8], i: usize) -> (r: Parsed<Vec<(Vec<u8>, Value)>>)
    requires
        i <= s@.len(),
    ensures
        pm_pairs(r, sdec_pairs(s@.skip(i as int))),
    decreases s@.len() - i, 1int,
{
    let ghost sub = s@.skip(i as int);
    proof {
        vstd::slice::axiom_spec_len::<u8>(s);
    }
    if i == s.len() {
        return Parsed::More;
    }
    if s[i] == B_END {
        proof {
            assert(sub[0] == B_END);
            assert(dv_pairs(Seq::<(Vec<u8>, Value)>::empty(), 0) =~= Seq::<(
                Seq<u8>,
                GValue,
            )>::empty());
            assert(sdec_pairs(sub) == SpecParsed::Found(Seq::<(Seq<u8>, GValue)>::empty(), 1int));
        }
        return Parsed::Found(Vec::new(), 1);
    }
    proof {
        assert(sub[0] != B_END);
        lemma_sdec_text_bounds(sub);
    }
    match d_text(s, i) {
        Parsed::More => Parsed::More,
        Parsed::Bad => Parsed::Bad,
        Parsed::Found(key, n) => {
            proof {
                assert(s@.skip((i + n) as int) =~= sub.skip(n as int));
                lemma_sdec_value_bounds(sub.skip(n as int));
            }
            match d_value(s, i + n) {
                Parsed::More => Parsed::More,
                Parsed::Bad => Parsed::Bad,
                Parsed::Found(v, m) => {
                    proof {
                        assert(s@.skip((i + n + m) as int) =~= sub.skip((n + m) as int));
                        lemma_sdec_pairs_bounds(sub.skip((n + m) as int));
                    }
                    match d_pairs(s, i + n + m) {
                        Parsed::More => Parsed::More,
                        Parsed::Bad => Parsed::Bad,
                        Parsed::Found(rest, q) => {
                            let ghost grest = rest@;
                            let mut out = rest;
                            out.insert(0, (key, v));
                            proof {
                                assert(out@ =~= seq![(key, v)] + grest);
                                lemma_dv_pairs_all(out@);
                                lemma_dv_pairs_all(grest);
                                assert(dv_pairs(out@, 0) =~= seq![(key@, dv_value(v))] + dv_pairs(
                                    grest,
                                    0,
                                ));
                            }
                            Parsed::Found(out, n + m + q)
                        },
                    }
                },
            }
        },
    }
}

/// Decodes a leading message: a complete dictionary at the head of `s`, a
/// request for more bytes when the head is a truncated dictionary, or a
/// malformed input.
pub fn decode_message(s: &[u8]) -> (r: Parsed<Message>)
    ensures
        pm_message(r, sdec_message(s@)),
{
    if s.len() == 0 {
        return Parsed::More;
    }
    if s[0] != B_DICT {
        return Parsed::Bad;
    }
    proof {
        assert(s@.skip(0) =~= s@);
        lemma_sdec_pairs_bounds(s@.skip(1));
    }
    match d_pairs(s, 1) {
        Parsed::More => Parsed::More,
        Parsed::Bad => Parsed::Bad,
        Parsed::Found(pairs, n) => Parsed::Found(Message { pairs }, n + 1),
    }
}

} // verus!
