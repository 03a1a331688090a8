use vstd::prelude::*;
use crate::decimal::{
    int_digits, is_digit, lemma_int_digits, lemma_nat_digits, nat_digits, parse_int, parse_nat,
    push_int, push_nat,
};
use crate::error::{BoostError, BoostResult};
use crate::wire::copy_range;

verus! {

broadcast use {
    vstd::std_specs::vec::axiom_vec_decreases_to_view,
    vstd::std_specs::vec::axiom_vec_index_decreases,
    vstd::seq::axiom_seq_index_decreases,
    vstd::seq::axiom_seq_subrange_decreases,
};

/// A bencoded value: an integer, a byte string, a list, or a dictionary whose
/// entries keep the order in which they were read.
#[derive(Debug, PartialEq, Eq)]
pub enum BencodeValue {
    Integer(i64),
    Str(Vec<u8>),
    List(Vec<BencodeValue>),
    Dict(Vec<(Vec<u8>, BencodeValue)>),
}

/// The encoding of a byte string: its length in minimal decimal, `:`, the bytes.
pub open spec fn enc_str(s: Seq<u8>) -> Seq<u8> {
    nat_digits(s.len()) + seq![58u8] + s
}

/// The canonical encoding of a value: minimal integers, dictionary entries in
/// their stored order.
pub open spec fn enc(v: BencodeValue) -> Seq<u8>
    decreases v,
{
    match v {
        BencodeValue::Integer(i) => seq![105u8] + int_digits(i as int) + seq![101u8],
        BencodeValue::Str(s) => enc_str(s@),
        BencodeValue::List(l) => seq![108u8] + enc_list(l@) + seq![101u8],
        BencodeValue::Dict(d) => seq![100u8] + enc_dict(d@) + seq![101u8],
    }
}

/// The encodings of the items, one after the other.
pub open spec fn enc_list(l: Seq<BencodeValue>) -> Seq<u8>
    decreases l,
{
    if l.len() == 0 {
        Seq::empty()
    } else {
        enc_list(l.drop_last()) + enc(l.last())
    }
}

/// The encodings of the entries, each key before its value.
pub open spec fn enc_dict(d: Seq<(Vec<u8>, BencodeValue)>) -> Seq<u8>
    decreases d,
{
    if d.len() == 0 {
        Seq::empty()
    } else {
        enc_dict(d.drop_last()) + enc_str(d.last().0@) + enc(d.last().1)
    }
}

/// `t` stands in `data` from position `pos` on.
pub open spec fn starts_with_at(data: Seq<u8>, pos: int, t: Seq<u8>) -> bool {
    &&& 0 <= pos
    &&& pos + t.len() <= data.len()
    &&& data.subrange(pos, pos + t.len()) == t
}

/// The first byte of an encoding tells its kind: `i`, `l`, `d`, or a digit.
pub proof fn lemma_enc_first(v: BencodeValue)
    ensures
        enc(v).len() >= 2,
        v is Integer <==> enc(v)[0] == 105u8,
        v is List <==> enc(v)[0] == 108u8,
        v is Dict <==> enc(v)[0] == 100u8,
        v is Str <==> is_digit(enc(v)[0]),
{
    match v {
        BencodeValue::Str(s) => {
            lemma_nat_digits(s@.len());
        },
        _ => {},
    }
}

proof fn lemma_enc_list_append(a: Seq<BencodeValue>, b: Seq<BencodeValue>)
    ensures
        enc_list(a + b) == enc_list(a) + enc_list(b),
    decreases b.len(),
{
    if b.len() == 0 {
        assert(a + b =~= a);
        assert(enc_list(a) + enc_list(b) =~= enc_list(a));
    } else {
        lemma_enc_list_append(a, b.drop_last());
        assert((a + b).drop_last() =~= a + b.drop_last());
        assert(enc_list(a + b) =~= enc_list(a) + enc_list(b));
    }
}

proof fn lemma_enc_dict_append(a: Seq<(Vec<u8>, BencodeValue)>, b: Seq<(Vec<u8>, BencodeValue)>)
    ensures
        enc_dict(a + b) == enc_dict(a) + enc_dict(b),
    decreases b.len(),
{
    if b.len() == 0 {
        assert(a + b =~= a);
        assert(enc_dict(a) + enc_dict(b) =~= enc_dict(a));
    } else {
        lemma_enc_dict_append(a, b.drop_last());
        assert((a + b).drop_last() =~= a + b.drop_last());
        assert(enc_dict(a + b) =~= enc_dict(a) + enc_dict(b));
    }
}

proof fn lemma_starts_split(data: Seq<u8>, pos: int, a: Seq<u8>, b: Seq<u8>)
    requires
        starts_with_at(data, pos, a + b),
    ensures
        starts_with_at(data, pos, a),
        starts_with_at(data, pos + a.len(), b),
{
    let whole = data.subrange(pos, pos + (a + b).len());
    assert(whole == a + b);
    assert(data.subrange(pos, pos + a.len()) =~= whole.subrange(0, a.len() as int));
    assert(whole.subrange(0, a.len() as int) =~= a);
    assert(data.subrange(pos + a.len(), pos + a.len() + b.len()) =~= whole.subrange(
        a.len() as int,
        whole.len() as int,
    ));
    assert(whole.subrange(a.len() as int, whole.len() as int) =~= b);
}

/// Where the `k`-th item of an encoded list begins, and what stands there.
proof fn lemma_list_at(data: Seq<u8>, pos: int, w: Seq<BencodeValue>, k: int)
    requires
        starts_with_at(data, pos, seq![108u8] + enc_list(w) + seq![101u8]),
        0 <= k <= w.len(),
    ensures
        ({
            let cur = pos + 1 + enc_list(w.subrange(0, k)).len();
            &&& cur < data.len()
            &&& k < w.len() ==> starts_with_at(data, cur, enc(w[k])) && data[cur] != 101u8
            &&& k == w.len() ==> data[cur] == 101u8 && cur + 1 == pos + enc_list(w).len() + 2
        }),
{
    let cur = pos + 1 + enc_list(w.subrange(0, k)).len();
    let head = w.subrange(0, k);
    let tail = w.subrange(k, w.len() as int);
    assert(w =~= head + tail);
    lemma_enc_list_append(head, tail);
    assert(seq![108u8] + enc_list(w) + seq![101u8] =~= seq![108u8] + (enc_list(w) + seq![
        101u8,
    ]));
    lemma_starts_split(data, pos, seq![108u8], enc_list(w) + seq![101u8]);
    assert(enc_list(w) + seq![101u8] =~= enc_list(head) + (enc_list(tail) + seq![101u8]));
    lemma_starts_split(data, pos + 1, enc_list(head), enc_list(tail) + seq![101u8]);
    if k < w.len() {
        let rest = w.subrange(k + 1, w.len() as int);
        assert(tail =~= seq![w[k]] + rest);
        lemma_enc_list_append(seq![w[k]], rest);
        assert(seq![w[k]].drop_last() =~= Seq::<BencodeValue>::empty());
        assert(seq![w[k]].last() == w[k]);
        assert(enc_list(seq![w[k]].drop_last()) =~= Seq::<u8>::empty());
        assert(enc_list(seq![w[k]]) =~= enc(w[k]));
        assert(enc_list(tail) + seq![101u8] =~= enc(w[k]) + (enc_list(rest) + seq![101u8]));
        lemma_starts_split(data, cur, enc(w[k]), enc_list(rest) + seq![101u8]);
        lemma_enc_first(w[k]);
        assert(data[cur] == data.subrange(cur, cur + enc(w[k]).len())[0]);
    } else {
        assert(tail =~= Seq::<BencodeValue>::empty());
        assert(data[cur] == data.subrange(cur, cur + 1)[0]);
    }
}

/// Where the `k`-th entry of an encoded dictionary begins, and what stands there.
pub proof fn lemma_dict_at(data: Seq<u8>, pos: int, w: Seq<(Vec<u8>, BencodeValue)>, k: int)
    requires
        starts_with_at(data, pos, seq![100u8] + enc_dict(w) + seq![101u8]),
        0 <= k <= w.len(),
    ensures
        ({
            let cur = pos + 1 + enc_dict(w.subrange(0, k)).len();
            &&& cur < data.len()
            &&& k < w.len() ==> {
                &&& starts_with_at(data, cur, enc(BencodeValue::Str(w[k].0)))
                &&& starts_with_at(data, cur + enc_str(w[k].0@).len(), enc(w[k].1))
                &&& data[cur] != 101u8
            }
            &&& k == w.len() ==> data[cur] == 101u8 && cur + 1 == pos + enc_dict(w).len() + 2
        }),
{
    let cur = pos + 1 + enc_dict(w.subrange(0, k)).len();
    let head = w.subrange(0, k);
    let tail = w.subrange(k, w.len() as int);
    assert(w =~= head + tail);
    lemma_enc_dict_append(head, tail);
    assert(seq![100u8] + enc_dict(w) + seq![101u8] =~= seq![100u8] + (enc_dict(w) + seq![
        101u8,
    ]));
    lemma_starts_split(data, pos, seq![100u8], enc_dict(w) + seq![101u8]);
    assert(enc_dict(w) + seq![101u8] =~= enc_dict(head) + (enc_dict(tail) + seq![101u8]));
    lemma_starts_split(data, pos + 1, enc_dict(head), enc_dict(tail) + seq![101u8]);
    if k < w.len() {
        let rest = w.subrange(k + 1, w.len() as int);
        assert(tail =~= seq![w[k]] + rest);
        lemma_enc_dict_append(seq![w[k]], rest);
        assert(seq![w[k]].drop_last() =~= Seq::<(Vec<u8>, BencodeValue)>::empty());
        let ks = enc_str(w[k].0@);
        let vs = enc(w[k].1);
        assert(seq![w[k]].last() == w[k]);
        assert(enc_dict(seq![w[k]].drop_last()) =~= Seq::<u8>::empty());
        assert(enc_dict(seq![w[k]]) =~= ks + vs);
        assert(enc_dict(tail) + seq![101u8] =~= ks + (vs + (enc_dict(rest) + seq![101u8])));
        lemma_starts_split(data, cur, ks, vs + (enc_dict(rest) + seq![101u8]));
        lemma_starts_split(data, cur + ks.len(), vs, enc_dict(rest) + seq![101u8]);
        lemma_enc_first(BencodeValue::Str(w[k].0));
        assert(data[cur] == data.subrange(cur, cur + ks.len())[0]);
    } else {
        assert(tail =~= Seq::<(Vec<u8>, BencodeValue)>::empty());
        assert(data[cur] == data.subrange(cur, cur + 1)[0]);
    }
}

/// Two encodings that stand at the same place, and have the same length, are
/// the same bytes.
proof fn lemma_same_place(s: Seq<u8>, p: int, t1: Seq<u8>, t2: Seq<u8>)
    requires
        starts_with_at(s, p, t1),
        starts_with_at(s, p, t2),
        t1.len() == t2.len(),
    ensures
        t1 == t2,
{
}

/// Two byte-string encodings at the same place are the same.
proof fn lemma_str_prefix_free(s: Seq<u8>, p: int, x: Seq<u8>, y: Seq<u8>)
    requires
        starts_with_at(s, p, enc_str(x)),
        starts_with_at(s, p, enc_str(y)),
    ensures
        enc_str(x) == enc_str(y),
{
    let dx = nat_digits(x.len());
    let dy = nat_digits(y.len());
    lemma_nat_digits(x.len());
    lemma_nat_digits(y.len());
    // the length digits run up to the first colon
    if dx.len() < dy.len() {
        assert(s[p + dx.len()] == enc_str(x)[dx.len() as int]);
        assert(s[p + dx.len()] == enc_str(y)[dx.len() as int]);
        assert(is_digit(dy[dx.len() as int]));
    } else if dy.len() < dx.len() {
        assert(s[p + dy.len()] == enc_str(y)[dy.len() as int]);
        assert(s[p + dy.len()] == enc_str(x)[dy.len() as int]);
        assert(is_digit(dx[dy.len() as int]));
    }
    assert(dx.len() == dy.len());
    assert(dx =~= s.subrange(p, p + dx.len())) by {
        assert forall|q: int| 0 <= q < dx.len() implies dx[q] == s[p + q] by {
            assert(enc_str(x)[q] == dx[q]);
        }
    }
    assert(dy =~= s.subrange(p, p + dy.len())) by {
        assert forall|q: int| 0 <= q < dy.len() implies dy[q] == s[p + q] by {
            assert(enc_str(y)[q] == dy[q]);
        }
    }
    assert(x.len() == y.len());
    lemma_same_place(s, p, enc_str(x), enc_str(y));
}

/// Canonical encodings are prefix-free: two of them that stand at the same
/// place are the same bytes.
pub proof fn lemma_enc_prefix_free(s: Seq<u8>, p: int, a: BencodeValue, b: BencodeValue)
    requires
        starts_with_at(s, p, enc(a)),
        starts_with_at(s, p, enc(b)),
    ensures
        enc(a) == enc(b),
    decreases a, 0nat,
{
    lemma_enc_first(a);
    lemma_enc_first(b);
    assert(s[p] == enc(a)[0]);
    assert(s[p] == enc(b)[0]);
    match a {
        BencodeValue::Integer(i) => {
            let j = b->Integer_0;
            let di = int_digits(i as int);
            let dj = int_digits(j as int);
            lemma_int_digits(i as int);
            lemma_int_digits(j as int);
            // the digits run up to the first `e`
            if di.len() < dj.len() {
                assert(s[p + 1 + di.len()] == enc(a)[1 + di.len() as int]);
                assert(s[p + 1 + di.len()] == enc(b)[1 + di.len() as int]);
                assert(enc(b)[1 + di.len() as int] == dj[di.len() as int]);
            } else if dj.len() < di.len() {
                assert(s[p + 1 + dj.len()] == enc(b)[1 + dj.len() as int]);
                assert(s[p + 1 + dj.len()] == enc(a)[1 + dj.len() as int]);
                assert(enc(a)[1 + dj.len() as int] == di[dj.len() as int]);
            }
            lemma_same_place(s, p, enc(a), enc(b));
        },
        BencodeValue::Str(x) => {
            lemma_str_prefix_free(s, p, x@, b->Str_0@);
        },
        BencodeValue::List(xv) => {
            let xs = xv@;
            let ys = b->List_0@;
            if xs.len() <= ys.len() {
                lemma_lists_align(s, p, xs, ys, xs.len());
                lemma_list_at(s, p, xs, xs.len() as int);
                assert(xs.subrange(0, xs.len() as int) =~= xs);
                if xs.len() < ys.len() {
                    lemma_list_at(s, p, ys, xs.len() as int);
                }
                assert(ys.subrange(0, ys.len() as int) =~= ys);
            } else {
                lemma_lists_align(s, p, xs, ys, ys.len());
                lemma_list_at(s, p, ys, ys.len() as int);
                assert(ys.subrange(0, ys.len() as int) =~= ys);
                lemma_list_at(s, p, xs, ys.len() as int);
            }
            lemma_same_place(s, p, enc(a), enc(b));
        },
        BencodeValue::Dict(dv) => {
            let xs = dv@;
            let ys = b->Dict_0@;
            if xs.len() <= ys.len() {
                lemma_dicts_align(s, p, xs, ys, xs.len());
                lemma_dict_at(s, p, xs, xs.len() as int);
                assert(xs.subrange(0, xs.len() as int) =~= xs);
                if xs.len() < ys.len() {
                    lemma_dict_at(s, p, ys, xs.len() as int);
                }
                assert(ys.subrange(0, ys.len() as int) =~= ys);
            } else {
                lemma_dicts_align(s, p, xs, ys, ys.len());
                lemma_dict_at(s, p, ys, ys.len() as int);
                assert(ys.subrange(0, ys.len() as int) =~= ys);
                lemma_dict_at(s, p, xs, ys.len() as int);
            }
            lemma_same_place(s, p, enc(a), enc(b));
        },
    }
}

/// The first `k` items of two encoded lists at the same place encode alike.
proof fn lemma_lists_align(s: Seq<u8>, p: int, xs: Seq<BencodeValue>, ys: Seq<BencodeValue>, k: nat)
    requires
        starts_with_at(s, p, seq![108u8] + enc_list(xs) + seq![101u8]),
        starts_with_at(s, p, seq![108u8] + enc_list(ys) + seq![101u8]),
        k <= xs.len(),
        k <= ys.len(),
    ensures
        enc_list(xs.subrange(0, k as int)) == enc_list(ys.subrange(0, k as int)),
    decreases xs, k,
{
    if k > 0 {
        let j = (k - 1) as nat;
        lemma_lists_align(s, p, xs, ys, j);
        lemma_list_at(s, p, xs, j as int);
        lemma_list_at(s, p, ys, j as int);
        lemma_enc_prefix_free(s, p + 1 + enc_list(xs.subrange(0, j as int)).len(), xs[j as int], ys[j as int]);
        assert(xs.subrange(0, k as int).drop_last() =~= xs.subrange(0, j as int));
        assert(ys.subrange(0, k as int).drop_last() =~= ys.subrange(0, j as int));
    } else {
        assert(xs.subrange(0, 0) =~= ys.subrange(0, 0));
    }
}

/// The first `k` entries of two encoded dictionaries at the same place
/// encode alike.
proof fn lemma_dicts_align(
    s: Seq<u8>,
    p: int,
    xs: Seq<(Vec<u8>, BencodeValue)>,
    ys: Seq<(Vec<u8>, BencodeValue)>,
    k: nat,
)
    requires
        starts_with_at(s, p, seq![100u8] + enc_dict(xs) + seq![101u8]),
        starts_with_at(s, p, seq![100u8] + enc_dict(ys) + seq![101u8]),
        k <= xs.len(),
        k <= ys.len(),
    ensures
        enc_dict(xs.subrange(0, k as int)) == enc_dict(ys.subrange(0, k as int)),
    decreases xs, k,
{
    if k > 0 {
        let j = (k - 1) as nat;
        lemma_dicts_align(s, p, xs, ys, j);
        lemma_dict_at(s, p, xs, j as int);
        lemma_dict_at(s, p, ys, j as int);
        let cur = p + 1 + enc_dict(xs.subrange(0, j as int)).len();
        lemma_str_prefix_free(s, cur, xs[j as int].0@, ys[j as int].0@);
        lemma_enc_prefix_free(s, cur + enc_str(xs[j as int].0@).len(), xs[j as int].1, ys[j as int].1);
        assert(xs.subrange(0, k as int).drop_last() =~= xs.subrange(0, j as int));
        assert(ys.subrange(0, k as int).drop_last() =~= ys.subrange(0, j as int));
    } else {
        assert(xs.subrange(0, 0) =~= ys.subrange(0, 0));
    }
}

/// Values with the same encoding are of the same kind, and hold the same
/// integer or the same bytes.
pub proof fn lemma_enc_same_kind(a: BencodeValue, b: BencodeValue)
    requires
        enc(a) == enc(b),
    ensures
        a is Integer <==> b is Integer,
        a is Str <==> b is Str,
        a is List <==> b is List,
        a is Dict <==> b is Dict,
        a is Integer ==> a->Integer_0 == b->Integer_0,
        a is Str ==> a->Str_0@ == b->Str_0@,
{
    lemma_enc_first(a);
    lemma_enc_first(b);
    match a {
        BencodeValue::Integer(i) => {
            let j = b->Integer_0;
            let e = enc(a);
            let di = int_digits(i as int);
            let dj = int_digits(j as int);
            assert(di =~= e.subrange(1, e.len() - 1));
            assert(dj =~= e.subrange(1, e.len() - 1));
            if i < 0 {
                lemma_nat_digits((-i) as nat);
                if j >= 0 {
                    lemma_nat_digits(j as nat);
                    assert(dj[0] == di[0]);
                } else {
                    lemma_nat_digits((-j) as nat);
                    assert(nat_digits((-i) as nat) =~= di.subrange(1, di.len() as int));
                    assert(nat_digits((-j) as nat) =~= dj.subrange(1, dj.len() as int));
                }
            } else {
                lemma_nat_digits(i as nat);
                if j < 0 {
                    assert(dj[0] == di[0]);
                } else {
                    lemma_nat_digits(j as nat);
                }
            }
        },
        BencodeValue::Str(x) => {
            let y = b->Str_0;
            let e = enc(a);
            let dx = nat_digits(x@.len());
            let dy = nat_digits(y@.len());
            lemma_nat_digits(x@.len());
            lemma_nat_digits(y@.len());
            if dx.len() < dy.len() {
                assert(e[dx.len() as int] == enc_str(x@)[dx.len() as int]);
                assert(e[dx.len() as int] == enc_str(y@)[dx.len() as int]);
                assert(is_digit(dy[dx.len() as int]));
            } else if dy.len() < dx.len() {
                assert(e[dy.len() as int] == enc_str(y@)[dy.len() as int]);
                assert(e[dy.len() as int] == enc_str(x@)[dy.len() as int]);
                assert(is_digit(dx[dy.len() as int]));
            }
            assert(dx =~= e.subrange(0, dx.len() as int));
            assert(dy =~= e.subrange(0, dy.len() as int));
            assert(x@ =~= e.subrange(dx.len() as int + 1, e.len() as int));
            assert(y@ =~= e.subrange(dy.len() as int + 1, e.len() as int));
        },
        _ => {},
    }
}

/// Two lists with the same encoding have as many items, and their items
/// have the same encodings.
pub proof fn lemma_enc_list_items(x: Seq<BencodeValue>, y: Seq<BencodeValue>)
    requires
        seq![108u8] + enc_list(x) + seq![101u8] == seq![108u8] + enc_list(y) + seq![101u8],
    ensures
        x.len() == y.len(),
        forall|i: int| 0 <= i < x.len() ==> enc(#[trigger] x[i]) == enc(y[i]),
{
    let s = seq![108u8] + enc_list(x) + seq![101u8];
    assert(s.subrange(0, s.len() as int) =~= s);
    if x.len() <= y.len() {
        lemma_lists_align(s, 0, x, y, x.len());
        lemma_list_at(s, 0, x, x.len() as int);
        assert(x.subrange(0, x.len() as int) =~= x);
        if x.len() < y.len() {
            lemma_list_at(s, 0, y, x.len() as int);
        }
    } else {
        lemma_lists_align(s, 0, x, y, y.len());
        lemma_list_at(s, 0, y, y.len() as int);
        assert(y.subrange(0, y.len() as int) =~= y);
        lemma_list_at(s, 0, x, y.len() as int);
    }
    assert forall|i: int| 0 <= i < x.len() implies enc(#[trigger] x[i]) == enc(y[i]) by {
        lemma_lists_align(s, 0, x, y, i as nat);
        lemma_list_at(s, 0, x, i);
        lemma_list_at(s, 0, y, i);
        lemma_enc_prefix_free(s, 1 + enc_list(x.subrange(0, i)).len() as int, x[i], y[i]);
    }
}

/// Two dictionaries with the same encoding have as many entries, the same
/// keys, and values with the same encodings.
pub proof fn lemma_enc_dict_entries(x: Seq<(Vec<u8>, BencodeValue)>, y: Seq<(Vec<u8>, BencodeValue)>)
    requires
        seq![100u8] + enc_dict(x) + seq![101u8] == seq![100u8] + enc_dict(y) + seq![101u8],
    ensures
        x.len() == y.len(),
        forall|i: int|
            0 <= i < x.len() ==> (#[trigger] x[i]).0@ == y[i].0@ && enc(x[i].1) == enc(y[i].1),
{
    let s = seq![100u8] + enc_dict(x) + seq![101u8];
    assert(s.subrange(0, s.len() as int) =~= s);
    if x.len() <= y.len() {
        lemma_dicts_align(s, 0, x, y, x.len());
        lemma_dict_at(s, 0, x, x.len() as int);
        assert(x.subrange(0, x.len() as int) =~= x);
        if x.len() < y.len() {
            lemma_dict_at(s, 0, y, x.len() as int);
        }
    } else {
        lemma_dicts_align(s, 0, x, y, y.len());
        lemma_dict_at(s, 0, y, y.len() as int);
        assert(y.subrange(0, y.len() as int) =~= y);
        lemma_dict_at(s, 0, x, y.len() as int);
    }
    assert forall|i: int| 0 <= i < x.len() implies (#[trigger] x[i]).0@ == y[i].0@ && enc(x[i].1)
        == enc(y[i].1) by {
        lemma_dicts_align(s, 0, x, y, i as nat);
        lemma_dict_at(s, 0, x, i);
        lemma_dict_at(s, 0, y, i);
        let cur: int = 1 + enc_dict(x.subrange(0, i)).len() as int;
        let kx = BencodeValue::Str(x[i].0);
        let ky = BencodeValue::Str(y[i].0);
        lemma_enc_prefix_free(s, cur, kx, ky);
        lemma_enc_same_kind(kx, ky);
        lemma_enc_prefix_free(s, cur + enc_str(x[i].0@).len() as int, x[i].1, y[i].1);
    }
}

/// Re-encoding what was decoded from canonical bytes gives those bytes back:
/// when `b` is the encoding of some value, any value whose encoding begins
/// `b` (as the value that `bdecode` returns does) encodes to `b` itself.
pub proof fn lemma_bencode_round_trip(b: Seq<u8>, u: BencodeValue, v: BencodeValue)
    requires
        enc(u) == b,
        starts_with_at(b, 0, enc(v)),
    ensures
        enc(v) == b,
{
    assert(b.subrange(0, b.len() as int) =~= b);
    lemma_enc_prefix_free(b, 0, u, v);
}

/// Appends the encoding of a byte string.
fn push_str_enc(out: &mut Vec<u8>, s: &Vec<u8>)
    ensures
        final(out)@ == old(out)@ + enc_str(s@),
{
    push_nat(out, s.len() as u64);
    out.push(58u8);
    let ghost start = out@;
    let mut k: usize = 0;
    while k < s.len()
        invariant
            k <= s@.len(),
            start == old(out)@ + nat_digits(s@.len()) + seq![58u8],
            out@ == start + s@.subrange(0, k as int),
        decreases s.len() - k,
    {
        out.push(s[k]);
        k = k + 1;
        assert(out@ =~= start + s@.subrange(0, k as int));
    }
    assert(s@.subrange(0, k as int) =~= s@);
    assert(out@ =~= old(out)@ + enc_str(s@));
}

impl BencodeValue {
    /// Decodes the value that the bytes begin with; bytes after it are left
    /// unread. Succeeds exactly when the bytes begin with the canonical
    /// encoding of some value, and then returns a value with that encoding.
    /// Numbers must be in their shortest form: a sign other than a leading
    /// `-`, a leading zero, or `-0` is a non-digit or an unparsable number,
    /// and fails.
    pub fn bdecode(data: &[u8]) -> (r: BoostResult<BencodeValue>)
        ensures
            match r {
                Ok(v) => starts_with_at(data@, 0, enc(v)),
                Err(e) => e == BoostError::BencodeDecodingErr,
            },
            forall|v: BencodeValue| #[trigger]
                starts_with_at(data@, 0, enc(v)) ==> r is Ok && enc(r->Ok_0) == enc(v),
    {
        let r = bdec(data, 0);
        match r {
            Ok((v, _)) => {
                proof {
                    assert forall|w: BencodeValue| #[trigger]
                        starts_with_at(data@, 0, enc(w)) implies enc(v) == enc(w) by {
                        assert(starts_with_at(data@, 0, enc(w)));
                    }
                }
                Ok(v)
            },
            Err(e) => Err(e),
        }
    }

    /// The canonical encoding of this value.
    pub fn bencode(&self) -> (r: Vec<u8>)
        ensures
            r@ == enc(*self),
    {
        let mut out: Vec<u8> = Vec::new();
        self.encode_into(&mut out);
        assert(out@ =~= enc(*self));
        out
    }

    fn encode_into(&self, out: &mut Vec<u8>)
        ensures
            final(out)@ == old(out)@ + enc(*self),
        decreases self,
    {
        match self {
            BencodeValue::Integer(i) => {
                out.push(105u8);
                push_int(out, *i);
                out.push(101u8);
                assert(out@ =~= old(out)@ + enc(*self));
            },
            BencodeValue::Str(s) => {
                push_str_enc(out, s);
            },
            BencodeValue::List(l) => {
                out.push(108u8);
                let mut k: usize = 0;
                while k < l.len()
                    invariant
                        k <= l@.len(),
                        *self == BencodeValue::List(*l),
                        decreases_to!(*self => *l),
                        out@ == old(out)@ + seq![108u8] + enc_list(l@.subrange(0, k as int)),
                    decreases l.len() - k,
                {
                    let ghost before = out@;
                    proof {
                        vstd::std_specs::vec::axiom_vec_index_decreases(*l, k as int);
                    }
                    l[k].encode_into(out);
                    k = k + 1;
                    assert(l@.subrange(0, k as int).drop_last() =~= l@.subrange(0, k - 1));
                    assert(out@ =~= old(out)@ + seq![108u8] + enc_list(l@.subrange(0, k as int)));
                }
                assert(l@.subrange(0, k as int) =~= l@);
                out.push(101u8);
                assert(out@ =~= old(out)@ + enc(*self));
            },
            BencodeValue::Dict(d) => {
                out.push(100u8);
                let mut k: usize = 0;
                while k < d.len()
                    invariant
                        k <= d@.len(),
                        *self == BencodeValue::Dict(*d),
                        decreases_to!(*self => *d),
                        out@ == old(out)@ + seq![100u8] + enc_dict(d@.subrange(0, k as int)),
                    decreases d.len() - k,
                {
                    push_str_enc(out, &d[k].0);
                    proof {
                        vstd::std_specs::vec::axiom_vec_index_decreases(*d, k as int);
                    }
                    d[k].1.encode_into(out);
                    k = k + 1;
                    assert(d@.subrange(0, k as int).drop_last() =~= d@.subrange(0, k - 1));
                    assert(out@ =~= old(out)@ + seq![100u8] + enc_dict(d@.subrange(0, k as int)));
                }
                assert(d@.subrange(0, k as int) =~= d@);
                out.push(101u8);
                assert(out@ =~= old(out)@ + enc(*self));
            },
        }
    }
}

/// Decodes the value that starts at `pos`, returning it with the position
/// just after it. Succeeds exactly when a canonical encoding stands there.
fn bdec(data: &[u8], pos: usize) -> (r: BoostResult<(BencodeValue, usize)>)
    ensures
        match r {
            Ok((v, end)) => pos < end <= data@.len() && data@.subrange(pos as int, end as int)
                == enc(v),
            Err(e) => e == BoostError::BencodeDecodingErr,
        },
        forall|v: BencodeValue| #[trigger]
            starts_with_at(data@, pos as int, enc(v)) ==> r is Ok && r->Ok_0.1 == pos + enc(
                v,
            ).len(),
    decreases data@.len() - pos, 1nat,
{
    if pos >= data.len() {
        proof {
            assert forall|v: BencodeValue| #[trigger]
                starts_with_at(data@, pos as int, enc(v)) implies false by {
                lemma_enc_first(v);
            }
        }
        return Err(BoostError::BencodeDecodingErr);
    }
    let first = data[pos];
    if first == 100u8 {
        bdec_dict(data, pos)
    } else if first == 105u8 {
        bdec_int(data, pos)
    } else if first == 108u8 {
        bdec_list(data, pos)
    } else {
        bdec_str(data, pos)
    }
}

fn bdec_int(data: &[u8], pos: usize) -> (r: BoostResult<(BencodeValue, usize)>)
    requires
        pos < data@.len(),
        data@[pos as int] == 105u8,
    ensures
        match r {
            Ok((v, end)) => pos < end <= data@.len() && data@.subrange(pos as int, end as int)
                == enc(v),
            Err(e) => e == BoostError::BencodeDecodingErr,
        },
        forall|v: BencodeValue| #[trigger]
            starts_with_at(data@, pos as int, enc(v)) ==> r is Ok && r->Ok_0.1 == pos + enc(
                v,
            ).len(),
{
    let n = data.len();
    let mut j: usize = pos + 1;
    while j < data.len() && data[j] != 101u8
        invariant
            pos < j <= data@.len(),
            forall|q: int| pos < q < j ==> data@[q] != 101u8,
        decreases data.len() - j,
    {
        j = j + 1;
    }
    // Any integer encoding at `pos` ends at the first `e` after it.
    assert forall|v: BencodeValue| #[trigger] starts_with_at(data@, pos as int, enc(v)) implies {
        &&& v is Integer
        &&& j < data@.len()
        &&& data@.subrange(pos + 1, j as int) == int_digits(v->Integer_0 as int)
        &&& j + 1 == pos + enc(v).len()
    } by {
        lemma_enc_first(v);
        assert(data@[pos as int] == enc(v)[0]);
        let i = v->Integer_0;
        let d = int_digits(i as int);
        lemma_int_digits(i as int);
        let e_at = pos + 1 + d.len();
        assert(data@[e_at] == enc(v)[1 + d.len() as int]);
        assert forall|q: int| pos < q < e_at implies data@[q] != 101u8 by {
            assert(data@[q] == enc(v)[q - pos]);
            assert(enc(v)[q - pos] == d[q - pos - 1]);
        }
        if j < e_at {
            assert(data@[j as int] != 101u8);
        }
        assert(j == e_at);
        assert forall|q: int| 0 <= q < d.len() implies data@.subrange(pos + 1, j as int)[q]
            == d[q] by {
            assert(data@[pos + 1 + q] == enc(v)[1 + q]);
        }
        assert(data@.subrange(pos + 1, j as int) =~= d);
    }
    if j >= data.len() {
        return Err(BoostError::BencodeDecodingErr);
    }
    match parse_int(data, pos + 1, j) {
        Some(i) => {
            let v = BencodeValue::Integer(i);
            assert(data@.subrange(pos as int, j + 1) =~= enc(v));
            Ok((v, j + 1))
        },
        None => Err(BoostError::BencodeDecodingErr),
    }
}

fn bdec_str(data: &[u8], pos: usize) -> (r: BoostResult<(BencodeValue, usize)>)
    requires
        pos < data@.len(),
        data@[pos as int] != 105u8,
        data@[pos as int] != 108u8,
        data@[pos as int] != 100u8,
    ensures
        match r {
            Ok((v, end)) => pos < end <= data@.len() && data@.subrange(pos as int, end as int)
                == enc(v),
            Err(e) => e == BoostError::BencodeDecodingErr,
        },
        forall|v: BencodeValue| #[trigger]
            starts_with_at(data@, pos as int, enc(v)) ==> r is Ok && r->Ok_0.1 == pos + enc(
                v,
            ).len(),
{
    let mut j: usize = pos;
    while j < data.len() && data[j] != 58u8
        invariant
            pos <= j <= data@.len(),
            forall|q: int| pos <= q < j ==> data@[q] != 58u8,
        decreases data.len() - j,
    {
        j = j + 1;
    }
    // Any string encoding at `pos` has its length digits up to the first `:`.
    assert forall|v: BencodeValue| #[trigger] starts_with_at(data@, pos as int, enc(v)) implies {
        &&& v is Str
        &&& j < data@.len()
        &&& data@.subrange(pos as int, j as int) == nat_digits(v->Str_0@.len())
        &&& j + 1 + v->Str_0@.len() == pos + enc(v).len()
    } by {
        lemma_enc_first(v);
        assert(data@[pos as int] == enc(v)[0]);
        let s = v->Str_0@;
        let d = nat_digits(s.len());
        lemma_nat_digits(s.len());
        let c_at = pos + d.len();
        assert(data@[c_at] == enc(v)[d.len() as int]);
        assert forall|q: int| pos <= q < c_at implies data@[q] != 58u8 by {
            assert(data@[q] == enc(v)[q - pos]);
            assert(enc(v)[q - pos] == d[q - pos]);
        }
        if j < c_at {
            assert(data@[j as int] != 58u8);
        }
        assert(j == c_at);
        assert(data@.subrange(pos as int, j as int) =~= d);
    }
    if j >= data.len() {
        return Err(BoostError::BencodeDecodingErr);
    }
    match parse_nat(data, pos, j) {
        Some(n) => {
            proof {
                lemma_nat_digits(n as nat);
                assert forall|v: BencodeValue| #[trigger]
                    starts_with_at(data@, pos as int, enc(v)) implies v->Str_0@.len() == n by {
                    lemma_nat_digits(v->Str_0@.len());
                }
            }
            if n > (data.len() - (j + 1)) as u64 {
                return Err(BoostError::BencodeDecodingErr);
            }
            let end = j + 1 + n as usize;
            let s = copy_range(data, j + 1, end);
            let v = BencodeValue::Str(s);
            assert(data@.subrange(pos as int, end as int) =~= enc(v));
            Ok((v, end))
        },
        None => Err(BoostError::BencodeDecodingErr),
    }
}

fn bdec_list(data: &[u8], pos: usize) -> (r: BoostResult<(BencodeValue, usize)>)
    requires
        pos < data@.len(),
        data@[pos as int] == 108u8,
    ensures
        match r {
            Ok((v, end)) => pos < end <= data@.len() && data@.subrange(pos as int, end as int)
                == enc(v),
            Err(e) => e == BoostError::BencodeDecodingErr,
        },
        forall|v: BencodeValue| #[trigger]
            starts_with_at(data@, pos as int, enc(v)) ==> r is Ok && r->Ok_0.1 == pos + enc(
                v,
            ).len(),
    decreases data@.len() - pos, 0nat,
{
    proof {
        assert forall|v: BencodeValue| #[trigger]
            starts_with_at(data@, pos as int, enc(v)) implies v is List by {
            lemma_enc_first(v);
            assert(data@[pos as int] == enc(v)[0]);
        }
    }
    let n = data.len();
    let mut cur: usize = pos + 1;
    let mut lst: Vec<BencodeValue> = Vec::new();
    assert(data@.subrange(pos as int, cur as int) =~= seq![108u8] + enc_list(lst@));
    loop
        invariant
            pos < cur <= data@.len(),
            data@.subrange(pos as int, cur as int) == seq![108u8] + enc_list(lst@),
            forall|w: Vec<BencodeValue>| #[trigger]
                starts_with_at(data@, pos as int, enc(BencodeValue::List(w))) ==> lst@.len()
                    <= w@.len() && cur == pos + 1 + enc_list(w@.subrange(0, lst@.len() as int)).len(),
            forall|v: BencodeValue| #[trigger]
                starts_with_at(data@, pos as int, enc(v)) ==> v is List,
        decreases data@.len() - cur,
    {
        if cur >= data.len() {
            proof {
                assert forall|v: BencodeValue| #[trigger]
                    starts_with_at(data@, pos as int, enc(v)) implies false by {
                    let w = v->List_0;
                    assert(starts_with_at(data@, pos as int, enc(BencodeValue::List(w))));
                    lemma_list_at(data@, pos as int, w@, lst@.len() as int);
                }
            }
            return Err(BoostError::BencodeDecodingErr);
        }
        if data[cur] == 101u8 {
            let v = BencodeValue::List(lst);
            proof {
                assert(data@.subrange(pos as int, cur + 1) =~= data@.subrange(pos as int, cur as int)
                    + seq![101u8]);
                assert forall|u: BencodeValue| #[trigger]
                    starts_with_at(data@, pos as int, enc(u)) implies cur + 1 == pos + enc(
                    u,
                ).len() by {
                    let w = u->List_0;
                    assert(starts_with_at(data@, pos as int, enc(BencodeValue::List(w))));
                    let k = lst@.len() as int;
                    if k < w@.len() {
                        lemma_list_at(data@, pos as int, w@, k);
                    } else {
                        assert(w@.subrange(0, k) =~= w@);
                        lemma_list_at(data@, pos as int, w@, k);
                    }
                }
            }
            return Ok((v, cur + 1));
        }
        let ghost k = lst@.len() as int;
        // While items remain, the next one starts at `cur`.
        assert forall|w: Vec<BencodeValue>| #[trigger]
            starts_with_at(data@, pos as int, enc(BencodeValue::List(w))) implies k < w@.len()
            && starts_with_at(data@, cur as int, enc(w@[k])) by {
            lemma_list_at(data@, pos as int, w@, k);
            if k == w@.len() {
                assert(w@.subrange(0, k) =~= w@);
            }
            lemma_list_at(data@, pos as int, w@, k);
        }
        match bdec(data, cur) {
            Ok((x, end)) => {
                proof {
                    assert(lst@.push(x).drop_last() =~= lst@);
                    assert(data@.subrange(pos as int, end as int) =~= data@.subrange(
                        pos as int,
                        cur as int,
                    ) + data@.subrange(cur as int, end as int));
                    assert forall|w: Vec<BencodeValue>| #[trigger]
                        starts_with_at(
                            data@,
                            pos as int,
                            enc(BencodeValue::List(w)),
                        ) implies end == pos + 1 + enc_list(w@.subrange(0, k + 1)).len() by {
                        assert(starts_with_at(data@, cur as int, enc(w@[k])));
                        assert(w@.subrange(0, k + 1).drop_last() =~= w@.subrange(0, k));
                    }
                }
                lst.push(x);
                cur = end;
                assert(data@.subrange(pos as int, cur as int) =~= seq![108u8] + enc_list(lst@));
            },
            Err(e) => {
                proof {
                    assert forall|v: BencodeValue| #[trigger]
                        starts_with_at(data@, pos as int, enc(v)) implies false by {
                        let w = v->List_0;
                        assert(starts_with_at(data@, pos as int, enc(BencodeValue::List(w))));
                        assert(starts_with_at(data@, cur as int, enc(w@[k])));
                    }
                }
                return Err(e);
            },
        }
    }
}

fn bdec_dict(data: &[u8], pos: usize) -> (r: BoostResult<(BencodeValue, usize)>)
    requires
        pos < data@.len(),
        data@[pos as int] == 100u8,
    ensures
        match r {
            Ok((v, end)) => pos < end <= data@.len() && data@.subrange(pos as int, end as int)
                == enc(v),
            Err(e) => e == BoostError::BencodeDecodingErr,
        },
        forall|v: BencodeValue| #[trigger]
            starts_with_at(data@, pos as int, enc(v)) ==> r is Ok && r->Ok_0.1 == pos + enc(
                v,
            ).len(),
    decreases data@.len() - pos, 0nat,
{
    proof {
        assert forall|v: BencodeValue| #[trigger]
            starts_with_at(data@, pos as int, enc(v)) implies v is Dict by {
            lemma_enc_first(v);
            assert(data@[pos as int] == enc(v)[0]);
        }
    }
    let n = data.len();
    let mut cur: usize = pos + 1;
    let mut dct: Vec<(Vec<u8>, BencodeValue)> = Vec::new();
    assert(data@.subrange(pos as int, cur as int) =~= seq![100u8] + enc_dict(dct@));
    loop
        invariant
            pos < cur <= data@.len(),
            data@.subrange(pos as int, cur as int) == seq![100u8] + enc_dict(dct@),
            forall|w: Vec<(Vec<u8>, BencodeValue)>| #[trigger]
                starts_with_at(data@, pos as int, enc(BencodeValue::Dict(w))) ==> dct@.len()
                    <= w@.len() && cur == pos + 1 + enc_dict(w@.subrange(0, dct@.len() as int)).len(),
            forall|v: BencodeValue| #[trigger]
                starts_with_at(data@, pos as int, enc(v)) ==> v is Dict,
        decreases data@.len() - cur,
    {
        if cur >= data.len() {
            proof {
                assert forall|v: BencodeValue| #[trigger]
                    starts_with_at(data@, pos as int, enc(v)) implies false by {
                    let w = v->Dict_0;
                    assert(starts_with_at(data@, pos as int, enc(BencodeValue::Dict(w))));
                    lemma_dict_at(data@, pos as int, w@, dct@.len() as int);
                }
            }
            return Err(BoostError::BencodeDecodingErr);
        }
        if data[cur] == 101u8 {
            let v = BencodeValue::Dict(dct);
            proof {
                assert(data@.subrange(pos as int, cur + 1) =~= data@.subrange(pos as int, cur as int)
                    + seq![101u8]);
                assert forall|u: BencodeValue| #[trigger]
                    starts_with_at(data@, pos as int, enc(u)) implies cur + 1 == pos + enc(
                    u,
                ).len() by {
                    let w = u->Dict_0;
                    assert(starts_with_at(data@, pos as int, enc(BencodeValue::Dict(w))));
                    let k = dct@.len() as int;
                    if k < w@.len() {
                        lemma_dict_at(data@, pos as int, w@, k);
                    } else {
                        assert(w@.subrange(0, k) =~= w@);
                        lemma_dict_at(data@, pos as int, w@, k);
                    }
                }
            }
            return Ok((v, cur + 1));
        }
        let ghost k = dct@.len() as int;
        // While entries remain, the next key starts at `cur`.
        assert forall|w: Vec<(Vec<u8>, BencodeValue)>| #[trigger]
            starts_with_at(data@, pos as int, enc(BencodeValue::Dict(w))) implies k < w@.len()
            && starts_with_at(data@, cur as int, enc(BencodeValue::Str(w@[k].0)))
            && starts_with_at(data@, cur + enc_str(w@[k].0@).len(), enc(w@[k].1)) by {
            lemma_dict_at(data@, pos as int, w@, k);
            if k == w@.len() {
                assert(w@.subrange(0, k) =~= w@);
            }
            lemma_dict_at(data@, pos as int, w@, k);
        }
        let key_res = bdec(data, cur);
        let (key, mid) = match key_res {
            Ok((BencodeValue::Str(key), mid)) => (key, mid),
            Ok((other, mid)) => {
                proof {
                    assert forall|v: BencodeValue| #[trigger]
                        starts_with_at(data@, pos as int, enc(v)) implies false by {
                        let w = v->Dict_0;
                        assert(starts_with_at(data@, pos as int, enc(BencodeValue::Dict(w))));
                        let ks = BencodeValue::Str(w@[k].0);
                        assert(starts_with_at(data@, cur as int, enc(ks)));
                        assert(data@.subrange(cur as int, mid as int) == enc(other));
                        assert(enc(other) == enc(ks));
                        lemma_enc_first(other);
                        lemma_enc_first(ks);
                    }
                }
                return Err(BoostError::BencodeDecodingErr);
            },
            Err(e) => {
                proof {
                    assert forall|v: BencodeValue| #[trigger]
                        starts_with_at(data@, pos as int, enc(v)) implies false by {
                        let w = v->Dict_0;
                        assert(starts_with_at(data@, pos as int, enc(BencodeValue::Dict(w))));
                        assert(starts_with_at(data@, cur as int, enc(BencodeValue::Str(w@[k].0))));
                    }
                }
                return Err(e);
            },
        };
        assert(data@.subrange(cur as int, mid as int) == enc_str(key@));
        proof {
            assert forall|w: Vec<(Vec<u8>, BencodeValue)>| #[trigger]
                starts_with_at(data@, pos as int, enc(BencodeValue::Dict(w))) implies mid == cur
                + enc_str(w@[k].0@).len() by {
                assert(starts_with_at(data@, cur as int, enc(BencodeValue::Str(w@[k].0))));
            }
        }
        match bdec(data, mid) {
            Ok((x, end)) => {
                proof {
                    assert(dct@.push((key, x)).drop_last() =~= dct@);
                    assert(data@.subrange(pos as int, end as int) =~= data@.subrange(
                        pos as int,
                        cur as int,
                    ) + data@.subrange(cur as int, mid as int) + data@.subrange(
                        mid as int,
                        end as int,
                    ));
                    assert forall|w: Vec<(Vec<u8>, BencodeValue)>| #[trigger]
                        starts_with_at(
                            data@,
                            pos as int,
                            enc(BencodeValue::Dict(w)),
                        ) implies end == pos + 1 + enc_dict(w@.subrange(0, k + 1)).len() by {
                        assert(starts_with_at(data@, mid as int, enc(w@[k].1)));
                        assert(w@.subrange(0, k + 1).drop_last() =~= w@.subrange(0, k));
                    }
                }
                dct.push((key, x));
                cur = end;
                assert(data@.subrange(pos as int, cur as int) =~= seq![100u8] + enc_dict(dct@));
            },
            Err(e) => {
                proof {
                    assert forall|v: BencodeValue| #[trigger]
                        starts_with_at(data@, pos as int, enc(v)) implies false by {
                        let w = v->Dict_0;
                        assert(starts_with_at(data@, pos as int, enc(BencodeValue::Dict(w))));
                        assert(starts_with_at(data@, mid as int, enc(w@[k].1)));
                    }
                }
                return Err(e);
            },
        }
    }
}

} // verus!
