use vstd::bytes::*;
use vstd::prelude::*;
use vstd::slice::{slice_subrange, slice_to_vec};

use crate::error::Error;
use crate::model::{Activation, Layer, LayerView, ModelData, ModelView, Norm};

verus! {

// The encoding: every number is a little-endian `u32` word.
//   model  := count name{count} norm{count} layers layer{layers} norm
//   name   := length byte{length}
//   norm   := offset scale
//   layer  := rows cols activation word{rows * cols} word{rows}
// Nothing may follow the output rescaling.

pub open spec fn parse_word(s: Seq<u8>) -> Option<(u32, Seq<u8>)> {
    if s.len() >= 4 {
        Some((spec_u32_from_le_bytes(s.take(4)), s.skip(4)))
    } else {
        None
    }
}

/// `n` items, each read by `p` from what the one before left.
pub open spec fn parse_many<T>(s: Seq<u8>, n: nat, p: spec_fn(Seq<u8>) -> Option<(T, Seq<u8>)>) -> Option<
    (Seq<T>, Seq<u8>),
>
    decreases n,
{
    if n == 0 {
        Some((Seq::empty(), s))
    } else {
        match parse_many(s, (n - 1) as nat, p) {
            Some((xs, rest)) => match p(rest) {
                Some((x, left)) => Some((xs.push(x), left)),
                None => None,
            },
            None => None,
        }
    }
}

pub open spec fn enc_many<T>(xs: Seq<T>, e: spec_fn(T) -> Seq<u8>) -> Seq<u8>
    decreases xs.len(),
{
    if xs.len() == 0 {
        Seq::empty()
    } else {
        enc_many(xs.drop_last(), e) + e(xs.last())
    }
}

pub open spec fn parse_name(s: Seq<u8>) -> Option<(Seq<u8>, Seq<u8>)> {
    match parse_word(s) {
        Some((n, rest)) => if rest.len() >= n {
            Some((rest.take(n as int), rest.skip(n as int)))
        } else {
            None
        },
        None => None,
    }
}

pub open spec fn parse_norm(s: Seq<u8>) -> Option<(Norm, Seq<u8>)> {
    match parse_word(s) {
        Some((offset, rest)) => match parse_word(rest) {
            Some((scale, left)) => Some((Norm { offset, scale }, left)),
            None => None,
        },
        None => None,
    }
}

pub open spec fn activation_of(tag: u32) -> Option<Activation> {
    if tag == 0 {
        Some(Activation::Identity)
    } else if tag == 1 {
        Some(Activation::Relu)
    } else if tag == 2 {
        Some(Activation::Tanh)
    } else if tag == 3 {
        Some(Activation::Sigmoid)
    } else {
        None
    }
}

pub open spec fn tag_of(a: Activation) -> u32 {
    match a {
        Activation::Identity => 0,
        Activation::Relu => 1,
        Activation::Tanh => 2,
        Activation::Sigmoid => 3,
    }
}

pub open spec fn word_parser() -> spec_fn(Seq<u8>) -> Option<(u32, Seq<u8>)> {
    |s: Seq<u8>| parse_word(s)
}

pub open spec fn name_parser() -> spec_fn(Seq<u8>) -> Option<(Seq<u8>, Seq<u8>)> {
    |s: Seq<u8>| parse_name(s)
}

pub open spec fn norm_parser() -> spec_fn(Seq<u8>) -> Option<(Norm, Seq<u8>)> {
    |s: Seq<u8>| parse_norm(s)
}

pub open spec fn layer_parser() -> spec_fn(Seq<u8>) -> Option<(LayerView, Seq<u8>)> {
    |s: Seq<u8>| parse_layer(s)
}

pub open spec fn parse_layer(s: Seq<u8>) -> Option<(LayerView, Seq<u8>)> {
    match parse_word(s) {
        Some((rows, s1)) => match parse_word(s1) {
            Some((cols, s2)) => match parse_word(s2) {
                Some((tag, s3)) => match activation_of(tag) {
                    Some(activation) => match parse_many(s3, (rows * cols) as nat, word_parser()) {
                        Some((weights, s4)) => match parse_many(s4, rows as nat, word_parser()) {
                            Some((bias, s5)) => Some(
                                (LayerView { rows, cols, weights, bias, activation }, s5),
                            ),
                            None => None,
                        },
                        None => None,
                    },
                    None => None,
                },
                None => None,
            },
            None => None,
        },
        None => None,
    }
}

/// The model that `s` encodes, read whole, before its shapes are checked.
pub open spec fn parse_model(s: Seq<u8>) -> Option<ModelView> {
    match parse_word(s) {
        Some((n, s1)) => match parse_many(s1, n as nat, name_parser()) {
            Some((features, s2)) => match parse_many(s2, n as nat, norm_parser()) {
                Some((input_norm, s3)) => match parse_word(s3) {
                    Some((l, s4)) => match parse_many(s4, l as nat, layer_parser()) {
                        Some((layers, s5)) => match parse_norm(s5) {
                            Some((output_norm, s6)) => if s6.len() == 0 {
                                Some(ModelView { features, input_norm, layers, output_norm })
                            } else {
                                None
                            },
                            None => None,
                        },
                        None => None,
                    },
                    None => None,
                },
                None => None,
            },
            None => None,
        },
        None => None,
    }
}

/// The model that `s` encodes, when it reads whole and its shapes agree.
pub open spec fn spec_decode(s: Seq<u8>) -> Option<ModelView> {
    match parse_model(s) {
        Some(m) => if m.wf() {
            Some(m)
        } else {
            None
        },
        None => None,
    }
}

pub open spec fn enc_word(w: u32) -> Seq<u8> {
    spec_u32_to_le_bytes(w)
}

pub open spec fn enc_name(n: Seq<u8>) -> Seq<u8> {
    enc_word(n.len() as u32) + n
}

pub open spec fn enc_norm(n: Norm) -> Seq<u8> {
    enc_word(n.offset) + enc_word(n.scale)
}

pub open spec fn enc_layer(l: LayerView) -> Seq<u8> {
    enc_word(l.rows) + enc_word(l.cols) + enc_word(tag_of(l.activation)) + enc_many(
        l.weights,
        |w: u32| enc_word(w),
    ) + enc_many(l.bias, |w: u32| enc_word(w))
}

pub open spec fn word_encoder() -> spec_fn(u32) -> Seq<u8> {
    |w: u32| enc_word(w)
}

pub open spec fn name_encoder() -> spec_fn(Seq<u8>) -> Seq<u8> {
    |n: Seq<u8>| enc_name(n)
}

pub open spec fn norm_encoder() -> spec_fn(Norm) -> Seq<u8> {
    |n: Norm| enc_norm(n)
}

pub open spec fn layer_encoder() -> spec_fn(LayerView) -> Seq<u8> {
    |l: LayerView| enc_layer(l)
}

/// The bytes of a model.
pub open spec fn spec_encode(m: ModelView) -> Seq<u8> {
    enc_word(m.features.len() as u32) + enc_many(m.features, name_encoder()) + enc_many(
        m.input_norm,
        norm_encoder(),
    ) + enc_word(m.layers.len() as u32) + enc_many(m.layers, layer_encoder()) + enc_norm(
        m.output_norm,
    )
}

proof fn lemma_word_round_trip(w: u32, rest: Seq<u8>)
    ensures
        parse_word(enc_word(w) + rest) == Some((w, rest)),
{
    lemma_auto_spec_u32_to_from_le_bytes();
    let s = enc_word(w) + rest;
    assert(s.take(4) =~= enc_word(w));
    assert(s.skip(4) =~= rest);
}

proof fn lemma_many_round_trip<T>(
    xs: Seq<T>,
    rest: Seq<u8>,
    p: spec_fn(Seq<u8>) -> Option<(T, Seq<u8>)>,
    e: spec_fn(T) -> Seq<u8>,
)
    requires
        forall|i: int, r: Seq<u8>| 0 <= i < xs.len() ==> #[trigger] p(e(xs[i]) + r) == Some((xs[i], r)),
    ensures
        parse_many(enc_many(xs, e) + rest, xs.len(), p) == Some((xs, rest)),
    decreases xs.len(),
{
    if xs.len() > 0 {
        let init = xs.drop_last();
        let last = xs.last();
        let tail = e(last) + rest;
        assert forall|i: int, r: Seq<u8>| 0 <= i < init.len() implies #[trigger] p(e(init[i]) + r)
            == Some((init[i], r)) by {
            assert(init[i] == xs[i]);
        }
        lemma_many_round_trip(init, tail, p, e);
        assert(enc_many(xs, e) + rest =~= enc_many(init, e) + tail);
        assert(p(e(xs[xs.len() - 1]) + rest) == Some((xs[xs.len() - 1], rest)));
        assert(init.push(last) =~= xs);
    }
}

proof fn lemma_words_round_trip(ws: Seq<u32>, rest: Seq<u8>)
    ensures
        parse_many(enc_many(ws, word_encoder()) + rest, ws.len(), word_parser()) == Some((ws, rest)),
{
    assert forall|i: int, r: Seq<u8>| 0 <= i < ws.len() implies #[trigger] word_parser()(
        word_encoder()(ws[i]) + r,
    ) == Some((ws[i], r)) by {
        lemma_word_round_trip(ws[i], r);
    }
    lemma_many_round_trip(ws, rest, word_parser(), word_encoder());
}

proof fn lemma_name_round_trip(n: Seq<u8>, rest: Seq<u8>)
    requires
        n.len() < 0x1_0000_0000,
    ensures
        parse_name(enc_name(n) + rest) == Some((n, rest)),
{
    let tail = n + rest;
    lemma_word_round_trip(n.len() as u32, tail);
    assert(enc_name(n) + rest =~= enc_word(n.len() as u32) + tail);
    assert(tail.take(n.len() as int) =~= n);
    assert(tail.skip(n.len() as int) =~= rest);
}

proof fn lemma_norm_round_trip(n: Norm, rest: Seq<u8>)
    ensures
        parse_norm(enc_norm(n) + rest) == Some((n, rest)),
{
    let tail = enc_word(n.scale) + rest;
    lemma_word_round_trip(n.offset, tail);
    lemma_word_round_trip(n.scale, rest);
    assert(enc_norm(n) + rest =~= enc_word(n.offset) + tail);
}

proof fn lemma_layer_round_trip(l: LayerView, rest: Seq<u8>)
    requires
        l.wf(),
    ensures
        parse_layer(enc_layer(l) + rest) == Some((l, rest)),
{
    let s5 = rest;
    let s4 = enc_many(l.bias, word_encoder()) + s5;
    let s3 = enc_many(l.weights, word_encoder()) + s4;
    let s2 = enc_word(tag_of(l.activation)) + s3;
    let s1 = enc_word(l.cols) + s2;
    assert(enc_layer(l) + rest =~= enc_word(l.rows) + s1);
    lemma_word_round_trip(l.rows, s1);
    lemma_word_round_trip(l.cols, s2);
    lemma_word_round_trip(tag_of(l.activation), s3);
    lemma_words_round_trip(l.weights, s4);
    lemma_words_round_trip(l.bias, s5);
}

/// Decoding the encoding of a well-formed model gives back that model, so the two
/// make the same predictions.
pub proof fn lemma_round_trip(m: ModelView)
    requires
        m.wf(),
    ensures
        spec_decode(spec_encode(m)) == Some(m),
{
    let empty = Seq::<u8>::empty();
    let s6 = empty;
    let s5 = enc_norm(m.output_norm) + s6;
    let s4 = enc_many(m.layers, layer_encoder()) + s5;
    let s3 = enc_word(m.layers.len() as u32) + s4;
    let s2 = enc_many(m.input_norm, norm_encoder()) + s3;
    let s1 = enc_many(m.features, name_encoder()) + s2;
    assert(spec_encode(m) =~= enc_word(m.features.len() as u32) + s1);
    lemma_word_round_trip(m.features.len() as u32, s1);
    assert forall|i: int, r: Seq<u8>| 0 <= i < m.features.len() implies #[trigger] name_parser()(
        name_encoder()(m.features[i]) + r,
    ) == Some((m.features[i], r)) by {
        lemma_name_round_trip(m.features[i], r);
    }
    lemma_many_round_trip(m.features, s2, name_parser(), name_encoder());
    assert forall|i: int, r: Seq<u8>| 0 <= i < m.input_norm.len() implies #[trigger] norm_parser()(
        norm_encoder()(m.input_norm[i]) + r,
    ) == Some((m.input_norm[i], r)) by {
        lemma_norm_round_trip(m.input_norm[i], r);
    }
    lemma_many_round_trip(m.input_norm, s3, norm_parser(), norm_encoder());
    lemma_word_round_trip(m.layers.len() as u32, s4);
    assert forall|i: int, r: Seq<u8>| 0 <= i < m.layers.len() implies #[trigger] layer_parser()(
        layer_encoder()(m.layers[i]) + r,
    ) == Some((m.layers[i], r)) by {
        lemma_layer_round_trip(m.layers[i], r);
    }
    lemma_many_round_trip(m.layers, s5, layer_parser(), layer_encoder());
    lemma_norm_round_trip(m.output_norm, s6);
    assert(s5 =~= enc_norm(m.output_norm) + s6);
}

proof fn lemma_many_fails_on<T>(s: Seq<u8>, k: nat, n: nat, p: spec_fn(Seq<u8>) -> Option<(T, Seq<u8>)>)
    requires
        k <= n,
        parse_many(s, k, p) is None,
    ensures
        parse_many(s, n, p) is None,
    decreases n,
{
    if k < n {
        lemma_many_fails_on(s, k, (n - 1) as nat, p);
    }
}

fn read_word(bytes: &[u8], pos: usize) -> (r: Option<(u32, usize)>)
    requires
        pos <= bytes@.len(),
    ensures
        match r {
            Some((w, q)) => pos <= q <= bytes@.len() && parse_word(bytes@.skip(pos as int)) == Some(
                (w, bytes@.skip(q as int)),
            ),
            None => parse_word(bytes@.skip(pos as int)) is None,
        },
{
    if bytes.len() - pos < 4 {
        return None;
    }
    let w = u32_from_le_bytes(slice_subrange(bytes, pos, pos + 4));
    assert(bytes@.skip(pos as int).take(4) =~= bytes@.subrange(pos as int, pos + 4));
    assert(bytes@.skip(pos as int).skip(4) =~= bytes@.skip(pos + 4));
    Some((w, pos + 4))
}

fn read_words(bytes: &[u8], pos: usize, n: u64) -> (r: Option<(Vec<u32>, usize)>)
    requires
        pos <= bytes@.len(),
    ensures
        match r {
            Some((ws, q)) => pos <= q <= bytes@.len() && parse_many(
                bytes@.skip(pos as int),
                n as nat,
                word_parser(),
            ) == Some((ws@, bytes@.skip(q as int))),
            None => parse_many(bytes@.skip(pos as int), n as nat, word_parser()) is None,
        },
{
    let ghost s = bytes@.skip(pos as int);
    let mut out: Vec<u32> = Vec::new();
    let mut q = pos;
    let mut k: u64 = 0;
    while k < n
        invariant
            pos <= q <= bytes@.len(),
            k <= n,
            s == bytes@.skip(pos as int),
            parse_many(s, k as nat, word_parser()) == Some((out@, bytes@.skip(q as int))),
        decreases n - k,
    {
        match read_word(bytes, q) {
            Some((w, next)) => {
                out.push(w);
                q = next;
            },
            None => {
                proof {
                    lemma_many_fails_on(s, (k + 1) as nat, n as nat, word_parser());
                }
                return None;
            },
        }
        k = k + 1;
    }
    Some((out, q))
}

fn read_name(bytes: &[u8], pos: usize) -> (r: Option<(Vec<u8>, usize)>)
    requires
        pos <= bytes@.len(),
    ensures
        match r {
            Some((nm, q)) => pos <= q <= bytes@.len() && parse_name(bytes@.skip(pos as int)) == Some(
                (nm@, bytes@.skip(q as int)),
            ),
            None => parse_name(bytes@.skip(pos as int)) is None,
        },
{
    let (n, p) = match read_word(bytes, pos) {
        Some(x) => x,
        None => {
            return None;
        },
    };
    if bytes.len() - p < n as usize {
        return None;
    }
    let end = p + n as usize;
    let name = slice_to_vec(slice_subrange(bytes, p, end));
    assert(bytes@.skip(p as int).take(n as int) =~= bytes@.subrange(p as int, end as int));
    assert(bytes@.skip(p as int).skip(n as int) =~= bytes@.skip(end as int));
    Some((name, end))
}

fn read_names(bytes: &[u8], pos: usize, n: u32) -> (r: Option<(Vec<Vec<u8>>, usize)>)
    requires
        pos <= bytes@.len(),
    ensures
        match r {
            Some((ns, q)) => pos <= q <= bytes@.len() && parse_many(
                bytes@.skip(pos as int),
                n as nat,
                name_parser(),
            ) == Some((ns@.map_values(|v: Vec<u8>| v@), bytes@.skip(q as int))),
            None => parse_many(bytes@.skip(pos as int), n as nat, name_parser()) is None,
        },
{
    let ghost s = bytes@.skip(pos as int);
    let mut out: Vec<Vec<u8>> = Vec::new();
    let mut q = pos;
    let mut k: u32 = 0;
    while k < n
        invariant
            pos <= q <= bytes@.len(),
            k <= n,
            s == bytes@.skip(pos as int),
            parse_many(s, k as nat, name_parser()) == Some(
                (out@.map_values(|v: Vec<u8>| v@), bytes@.skip(q as int)),
            ),
        decreases n - k,
    {
        match read_name(bytes, q) {
            Some((nm, next)) => {
                let ghost before = out@;
                out.push(nm);
                assert(out@.map_values(|v: Vec<u8>| v@) =~= before.map_values(|v: Vec<u8>| v@).push(
                    nm@,
                ));
                q = next;
            },
            None => {
                proof {
                    lemma_many_fails_on(s, (k + 1) as nat, n as nat, name_parser());
                }
                return None;
            },
        }
        k = k + 1;
    }
    Some((out, q))
}

fn read_norm(bytes: &[u8], pos: usize) -> (r: Option<(Norm, usize)>)
    requires
        pos <= bytes@.len(),
    ensures
        match r {
            Some((nm, q)) => pos <= q <= bytes@.len() && parse_norm(bytes@.skip(pos as int)) == Some(
                (nm, bytes@.skip(q as int)),
            ),
            None => parse_norm(bytes@.skip(pos as int)) is None,
        },
{
    match read_word(bytes, pos) {
        Some((offset, p)) => match read_word(bytes, p) {
            Some((scale, q)) => Some((Norm { offset, scale }, q)),
            None => None,
        },
        None => None,
    }
}

fn read_norms(bytes: &[u8], pos: usize, n: u32) -> (r: Option<(Vec<Norm>, usize)>)
    requires
        pos <= bytes@.len(),
    ensures
        match r {
            Some((ns, q)) => pos <= q <= bytes@.len() && parse_many(
                bytes@.skip(pos as int),
                n as nat,
                norm_parser(),
            ) == Some((ns@, bytes@.skip(q as int))),
            None => parse_many(bytes@.skip(pos as int), n as nat, norm_parser()) is None,
        },
{
    let ghost s = bytes@.skip(pos as int);
    let mut out: Vec<Norm> = Vec::new();
    let mut q = pos;
    let mut k: u32 = 0;
    while k < n
        invariant
            pos <= q <= bytes@.len(),
            k <= n,
            s == bytes@.skip(pos as int),
            parse_many(s, k as nat, norm_parser()) == Some((out@, bytes@.skip(q as int))),
        decreases n - k,
    {
        match read_norm(bytes, q) {
            Some((nm, next)) => {
                out.push(nm);
                q = next;
            },
            None => {
                proof {
                    lemma_many_fails_on(s, (k + 1) as nat, n as nat, norm_parser());
                }
                return None;
            },
        }
        k = k + 1;
    }
    Some((out, q))
}

fn activation_from_tag(tag: u32) -> (r: Option<Activation>)
    ensures
        r == activation_of(tag),
{
    if tag == 0 {
        Some(Activation::Identity)
    } else if tag == 1 {
        Some(Activation::Relu)
    } else if tag == 2 {
        Some(Activation::Tanh)
    } else if tag == 3 {
        Some(Activation::Sigmoid)
    } else {
        None
    }
}

fn read_layer(bytes: &[u8], pos: usize) -> (r: Option<(Layer, usize)>)
    requires
        pos <= bytes@.len(),
    ensures
        match r {
            Some((l, q)) => pos <= q <= bytes@.len() && parse_layer(bytes@.skip(pos as int)) == Some(
                (l@, bytes@.skip(q as int)),
            ),
            None => parse_layer(bytes@.skip(pos as int)) is None,
        },
{
    let (rows, at_cols) = match read_word(bytes, pos) {
        Some(x) => x,
        None => {
            return None;
        },
    };
    let (cols, at_tag) = match read_word(bytes, at_cols) {
        Some(x) => x,
        None => {
            return None;
        },
    };
    let (tag, at_weights) = match read_word(bytes, at_tag) {
        Some(x) => x,
        None => {
            return None;
        },
    };
    let activation = match activation_from_tag(tag) {
        Some(a) => a,
        None => {
            return None;
        },
    };
    assert(rows * cols <= u32::MAX * u32::MAX) by (nonlinear_arith)
        requires
            rows <= u32::MAX,
            cols <= u32::MAX,
    ;
    let (weights, at_bias) = match read_words(bytes, at_weights, rows as u64 * cols as u64) {
        Some(x) => x,
        None => {
            return None;
        },
    };
    let (bias, end) = match read_words(bytes, at_bias, rows as u64) {
        Some(x) => x,
        None => {
            return None;
        },
    };
    Some((Layer { rows, cols, weights, bias, activation }, end))
}

fn read_layers(bytes: &[u8], pos: usize, n: u32) -> (r: Option<(Vec<Layer>, usize)>)
    requires
        pos <= bytes@.len(),
    ensures
        match r {
            Some((ls, q)) => pos <= q <= bytes@.len() && parse_many(
                bytes@.skip(pos as int),
                n as nat,
                layer_parser(),
            ) == Some((ls@.map_values(|l: Layer| l@), bytes@.skip(q as int))),
            None => parse_many(bytes@.skip(pos as int), n as nat, layer_parser()) is None,
        },
{
    let ghost s = bytes@.skip(pos as int);
    let mut out: Vec<Layer> = Vec::new();
    let mut q = pos;
    let mut k: u32 = 0;
    while k < n
        invariant
            pos <= q <= bytes@.len(),
            k <= n,
            s == bytes@.skip(pos as int),
            parse_many(s, k as nat, layer_parser()) == Some(
                (out@.map_values(|l: Layer| l@), bytes@.skip(q as int)),
            ),
        decreases n - k,
    {
        match read_layer(bytes, q) {
            Some((l, next)) => {
                let ghost before = out@;
                let ghost lv = l@;
                out.push(l);
                assert(out@.map_values(|l: Layer| l@) =~= before.map_values(|l: Layer| l@).push(lv));
                q = next;
            },
            None => {
                proof {
                    lemma_many_fails_on(s, (k + 1) as nat, n as nat, layer_parser());
                }
                return None;
            },
        }
        k = k + 1;
    }
    Some((out, q))
}

proof fn lemma_enc_step<T>(xs: Seq<T>, i: int, e: spec_fn(T) -> Seq<u8>)
    requires
        0 <= i < xs.len(),
    ensures
        enc_many(xs.take(i + 1), e) == enc_many(xs.take(i), e) + e(xs[i]),
{
    assert(xs.take(i + 1).drop_last() =~= xs.take(i));
}

fn write_word(out: &mut Vec<u8>, w: u32)
    ensures
        final(out)@ == old(out)@ + enc_word(w),
{
    let mut b = u32_to_le_bytes(w);
    out.append(&mut b);
}

fn write_words(out: &mut Vec<u8>, ws: &Vec<u32>)
    ensures
        final(out)@ == old(out)@ + enc_many(ws@, word_encoder()),
{
    let ghost start = out@;
    let mut i: usize = 0;
    assert(ws@.take(0) =~= Seq::<u32>::empty());
    while i < ws.len()
        invariant
            i <= ws@.len(),
            out@ == start + enc_many(ws@.take(i as int), word_encoder()),
        decreases ws@.len() - i,
    {
        proof {
            lemma_enc_step(ws@, i as int, word_encoder());
        }
        write_word(out, ws[i]);
        assert(out@ =~= start + enc_many(ws@.take(i as int + 1), word_encoder()));
        i = i + 1;
    }
    assert(ws@.take(i as int) =~= ws@);
}

fn write_name(out: &mut Vec<u8>, n: &Vec<u8>)
    requires
        n@.len() < 0x1_0000_0000,
    ensures
        final(out)@ == old(out)@ + enc_name(n@),
{
    let ghost start = out@;
    write_word(out, n.len() as u32);
    let mut copy = slice_to_vec(n.as_slice());
    out.append(&mut copy);
    assert(out@ =~= start + enc_name(n@));
}

fn write_norm(out: &mut Vec<u8>, n: Norm)
    ensures
        final(out)@ == old(out)@ + enc_norm(n),
{
    let ghost start = out@;
    write_word(out, n.offset);
    write_word(out, n.scale);
    assert(out@ =~= start + enc_norm(n));
}

fn write_layer(out: &mut Vec<u8>, l: &Layer)
    ensures
        final(out)@ == old(out)@ + enc_layer(l@),
{
    let ghost start = out@;
    write_word(out, l.rows);
    write_word(out, l.cols);
    let tag: u32 = match l.activation {
        Activation::Identity => 0,
        Activation::Relu => 1,
        Activation::Tanh => 2,
        Activation::Sigmoid => 3,
    };
    write_word(out, tag);
    write_words(out, &l.weights);
    write_words(out, &l.bias);
    assert(out@ =~= start + enc_layer(l@));
}

impl ModelData {
    /// The bytes of this model, which `decode` reads back.
    pub fn encode(&self) -> (r: Vec<u8>)
        requires
            self@.wf(),
        ensures
            r@ == spec_encode(self@),
    {
        let ghost m = self@;
        let mut out: Vec<u8> = Vec::new();
        write_word(&mut out, self.features.len() as u32);
        let ghost start = out@;
        let mut i: usize = 0;
        assert(m.features.take(0) =~= Seq::<Seq<u8>>::empty());
        while i < self.features.len()
            invariant
                m == self@,
                m.wf(),
                i <= m.features.len(),
                out@ == start + enc_many(m.features.take(i as int), name_encoder()),
            decreases m.features.len() - i,
        {
            proof {
                lemma_enc_step(m.features, i as int, name_encoder());
            }
            assert(m.features[i as int].len() < 0x1_0000_0000);
            write_name(&mut out, &self.features[i]);
            assert(out@ =~= start + enc_many(m.features.take(i as int + 1), name_encoder()));
            i = i + 1;
        }
        assert(m.features.take(i as int) =~= m.features);
        let ghost start = out@;
        let mut i: usize = 0;
        assert(m.input_norm.take(0) =~= Seq::<Norm>::empty());
        while i < self.input_norm.len()
            invariant
                m == self@,
                i <= m.input_norm.len(),
                out@ == start + enc_many(m.input_norm.take(i as int), norm_encoder()),
            decreases m.input_norm.len() - i,
        {
            proof {
                lemma_enc_step(m.input_norm, i as int, norm_encoder());
            }
            write_norm(&mut out, self.input_norm[i]);
            assert(out@ =~= start + enc_many(m.input_norm.take(i as int + 1), norm_encoder()));
            i = i + 1;
        }
        assert(m.input_norm.take(i as int) =~= m.input_norm);
        write_word(&mut out, self.layers.len() as u32);
        let ghost start = out@;
        let mut i: usize = 0;
        assert(m.layers.take(0) =~= Seq::<LayerView>::empty());
        while i < self.layers.len()
            invariant
                m == self@,
                i <= m.layers.len(),
                out@ == start + enc_many(m.layers.take(i as int), layer_encoder()),
            decreases m.layers.len() - i,
        {
            proof {
                lemma_enc_step(m.layers, i as int, layer_encoder());
            }
            write_layer(&mut out, &self.layers[i]);
            assert(out@ =~= start + enc_many(m.layers.take(i as int + 1), layer_encoder()));
            i = i + 1;
        }
        assert(m.layers.take(i as int) =~= m.layers);
        write_norm(&mut out, self.output_norm);
        assert(out@ =~= spec_encode(m));
        out
    }

    /// Reads a model from its bytes; `Deserialize` when they do not hold exactly one
    /// model, or its shapes disagree.
    pub fn decode(bytes: &[u8]) -> (r: Result<ModelData, Error>)
        ensures
            match r {
                Ok(m) => spec_decode(bytes@) == Some(m@),
                Err(e) => e == Error::Deserialize && spec_decode(bytes@) is None,
            },
    {
        assert(bytes@.skip(0) =~= bytes@);
        let (n, at_names) = match read_word(bytes, 0) {
            Some(x) => x,
            None => {
                return Err(Error::Deserialize);
            },
        };
        let (features, at_norms) = match read_names(bytes, at_names, n) {
            Some(x) => x,
            None => {
                return Err(Error::Deserialize);
            },
        };
        let (input_norm, at_count) = match read_norms(bytes, at_norms, n) {
            Some(x) => x,
            None => {
                return Err(Error::Deserialize);
            },
        };
        let (nl, at_layers) = match read_word(bytes, at_count) {
            Some(x) => x,
            None => {
                return Err(Error::Deserialize);
            },
        };
        let (layers, at_output) = match read_layers(bytes, at_layers, nl) {
            Some(x) => x,
            None => {
                return Err(Error::Deserialize);
            },
        };
        let (output_norm, end) = match read_norm(bytes, at_output) {
            Some(x) => x,
            None => {
                return Err(Error::Deserialize);
            },
        };
        if end != bytes.len() {
            return Err(Error::Deserialize);
        }
        let m = ModelData { features, input_norm, layers, output_norm };
        if !m.is_well_formed() {
            return Err(Error::Deserialize);
        }
        Ok(m)
    }
}

} // verus!
