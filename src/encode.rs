//! The Soundex encoder: from any text to a four-symbol ASCII code.

use crate::class::{american_soundex_code, class_of};
use crate::runs::{collapse_runs, lemma_run_heads_all, run_heads, Keyed};
use vstd::prelude::*;

verus! {

/// A character with a single-byte ASCII representation.
pub open spec fn is_ascii_char(c: char) -> bool {
    (c as u32) < 128
}

/// The byte of an ASCII character, with lowercase letters made uppercase.
pub open spec fn ascii_upper(c: char) -> u8 {
    let v = c as u32;
    if 97 <= v <= 122 {
        (v - 32) as u8
    } else {
        v as u8
    }
}

/// The working sequence: the ASCII characters of `s`, in order, uppercased.
pub open spec fn normalized(s: Seq<char>) -> Seq<u8> {
    s.filter(|c: char| is_ascii_char(c)).map_values(|c: char| ascii_upper(c))
}

/// The bytes `H` and `W`.
pub open spec fn is_h_or_w(b: u8) -> bool {
    b == 72 || b == 87
}

/// The working sequence without `H` and `W`, except that the first byte stays.
pub open spec fn without_h_w(n: Seq<u8>) -> Seq<u8> {
    if n.len() == 0 {
        n
    } else {
        seq![n[0]] + n.drop_first().filter(|b: u8| !is_h_or_w(b))
    }
}

/// Each byte paired with its class.
pub open spec fn keyed(t: Seq<u8>) -> Seq<Keyed> {
    t.map_values(|b: u8| (b, class_of(b)))
}

/// The symbols that the run heads give: the first head's own byte, then the
/// class digit of every later head that has a class.
pub open spec fn emitted(heads: Seq<Keyed>) -> Seq<u8> {
    if heads.len() == 0 {
        Seq::empty()
    } else {
        seq![heads[0].0] + heads.drop_first().filter(|k: Keyed| k.1 is Some).map_values(
            |k: Keyed| k.1->0,
        )
    }
}

/// The first four symbols, with `'0'` filling the places that are missing.
pub open spec fn padded4(e: Seq<u8>) -> Seq<u8> {
    Seq::new(4, |i: int| if i < e.len() { e[i] } else { 48u8 })
}

/// The Soundex code of `s`, as bytes: a digit `'1'`..`'9'` in front is
/// replaced by the first byte of the working sequence.
pub open spec fn soundex_bytes(s: Seq<char>) -> Seq<u8> {
    let n = normalized(s);
    let f = padded4(emitted(run_heads(keyed(without_h_w(n)))));
    if 49 <= f[0] <= 57 {
        f.update(0, n[0])
    } else {
        f
    }
}

/// The Soundex code of `s`.
pub open spec fn soundex(s: Seq<char>) -> Seq<char> {
    soundex_bytes(s).map_values(|b: u8| b as char)
}

/// What holds of every element holds of every element that a filter keeps.
proof fn lemma_filter_all<A>(s: Seq<A>, pred: spec_fn(A) -> bool, p: spec_fn(A) -> bool)
    requires
        forall|i: int| 0 <= i < s.len() ==> p(#[trigger] s[i]),
    ensures
        forall|i: int| 0 <= i < s.filter(pred).len() ==> p(#[trigger] s.filter(pred)[i]),
    decreases s.len(),
{
    reveal(Seq::filter);
    if s.len() > 0 {
        let d = s.drop_last();
        assert forall|i: int| 0 <= i < d.len() implies p(#[trigger] d[i]) by {
            assert(d[i] == s[i]);
        }
        lemma_filter_all(d, pred, p);
        assert(p(s[s.len() - 1]));
        let f = s.filter(pred);
        assert forall|i: int| 0 <= i < f.len() implies p(#[trigger] f[i]) by {
            if pred(s.last()) {
                assert(f == d.filter(pred).push(s.last()));
                if i < d.filter(pred).len() {
                    assert(f[i] == d.filter(pred)[i]);
                }
            } else {
                assert(f == d.filter(pred));
            }
        }
    }
}

/// The code has four bytes, all ASCII, and the last three are digits
/// `'0'` to `'6'`.
proof fn lemma_soundex_bytes_shape(s: Seq<char>)
    ensures
        soundex_bytes(s).len() == 4,
        forall|i: int| 0 <= i < 4 ==> #[trigger] soundex_bytes(s)[i] < 128,
        forall|i: int| 1 <= i < 4 ==> 48 <= #[trigger] soundex_bytes(s)[i] <= 54,
{
    broadcast use Seq::lemma_filter_pred;

    let a = s.filter(|c: char| is_ascii_char(c));
    let n = normalized(s);
    assert forall|i: int| 0 <= i < n.len() implies #[trigger] n[i] < 128 by {
        assert(is_ascii_char(a[i]));
    }
    let t = without_h_w(n);
    assert forall|i: int| 0 <= i < t.len() implies #[trigger] t[i] < 128 by {
        if n.len() > 0 && i > 0 {
            let pred = |b: u8| !is_h_or_w(b);
            let below = |b: u8| b < 128;
            let d = n.drop_first();
            assert forall|j: int| 0 <= j < d.len() implies below(#[trigger] d[j]) by {
                assert(d[j] == n[j + 1]);
            }
            lemma_filter_all(d, pred, below);
            assert(t[i] == d.filter(pred)[i - 1]);
        }
    }
    let k = keyed(t);
    let good = |x: Keyed| x.0 < 128 && x.1 == class_of(x.0);
    assert forall|i: int| 0 <= i < k.len() implies good(#[trigger] k[i]) by {
        assert(t[i] < 128);
    }
    lemma_run_heads_all(k, good);
    let h = run_heads(k);
    let e = emitted(h);
    assert forall|i: int| 1 <= i < e.len() implies 49 <= #[trigger] e[i] <= 54 by {
        let hd = h.drop_first();
        let pred = |x: Keyed| x.1 is Some;
        assert forall|j: int| 0 <= j < hd.len() implies good(#[trigger] hd[j]) by {
            assert(hd[j] == h[j + 1]);
        }
        lemma_filter_all(hd, pred, good);
        let x = hd.filter(pred)[i - 1];
        assert(e[i] == x.1->0);
        assert(x.1 is Some);
    }
    if e.len() > 0 {
        assert(good(h[0]));
        assert(e[0] == h[0].0);
    }
}

/// Relies on std's `FromIterator<char>` for `String`: the string holds the
/// characters in order.
#[verifier::external_body]
fn string_from_chars(chars: Vec<char>) -> (r: String)
    ensures
        r@ == chars@,
{
    chars.into_iter().collect()
}

/// The ASCII characters of `s`, uppercased, in order.
fn normalize(s: &str) -> (r: Vec<u8>)
    ensures
        r@ == normalized(s@),
{
    let mut r: Vec<u8> = Vec::new();
    let ghost mut seen: Seq<char> = Seq::empty();
    for c in it: s.chars()
        invariant
            it.seq() == s@,
            seen == it.seq().take(it.index() as int),
            r@ == normalized(seen),
    {
        let v = c as u32;
        if v < 128 {
            let u: u8 = if 97 <= v && v <= 122 {
                (v - 32) as u8
            } else {
                v as u8
            };
            r.push(u);
        }
        proof {
            let done = seen;
            assert(done.push(c).filter(|c: char| is_ascii_char(c)) == if is_ascii_char(c) {
                done.filter(|c: char| is_ascii_char(c)).push(c)
            } else {
                done.filter(|c: char| is_ascii_char(c))
            }) by {
                done.lemma_filter_push(c, |c: char| is_ascii_char(c));
            }
            assert(r@ =~= normalized(done.push(c)));
            seen = seen.push(c);
        }
    }
    proof {
        assert(seen =~= s@);
    }
    r
}

/// Drops `H` and `W` after the first byte and pairs each byte with its class.
fn keyed_without_h_w(n: &Vec<u8>) -> (r: Vec<Keyed>)
    ensures
        r@ == keyed(without_h_w(n@)),
{
    let mut r: Vec<Keyed> = Vec::new();
    let len = n.len();
    for i in 0..len
        invariant
            len == n.len(),
            r@ == keyed(without_h_w(n@.take(i as int))),
    {
        let b = n[i];
        let keep = i == 0 || !(b == 72 || b == 87);
        if keep {
            r.push((b, american_soundex_code(b)));
        }
        proof {
            let t = n@.take(i as int);
            let pred = |b: u8| !is_h_or_w(b);
            assert(n@.take(i + 1) =~= t.push(b));
            if i == 0 {
                assert(t.push(b).drop_first() =~= Seq::<u8>::empty());
                assert(Seq::<u8>::empty().filter(pred) =~= Seq::<u8>::empty()) by {
                    reveal(Seq::filter);
                }
                assert(t =~= Seq::<u8>::empty());
            } else {
                assert(t.push(b)[0] == t[0]);
                assert(t.push(b).drop_first() =~= t.drop_first().push(b));
                t.drop_first().lemma_filter_push(b, pred);
            }
            assert(r@ =~= keyed(without_h_w(t.push(b))));
        }
    }
    proof {
        assert(n@.take(len as int) =~= n@);
    }
    r
}

/// The symbols that the run heads give, before padding.
fn emit(heads: &Vec<Keyed>) -> (r: Vec<u8>)
    ensures
        r@ == emitted(heads@),
{
    let mut r: Vec<u8> = Vec::new();
    let len = heads.len();
    if len == 0 {
        return r;
    }
    r.push(heads[0].0);
    for i in 1..len
        invariant
            len == heads.len(),
            len > 0,
            r@ == emitted(heads@.take(i as int)),
    {
        if let Some(d) = heads[i].1 {
            r.push(d);
        }
        proof {
            let t = heads@.take(i as int);
            let pred = |k: Keyed| k.1 is Some;
            assert(heads@.take(i + 1) =~= t.push(heads@[i as int]));
            assert(t.push(heads@[i as int]).drop_first() =~= t.drop_first().push(heads@[i as int]));
            t.drop_first().lemma_filter_push(heads@[i as int], pred);
            assert(r@ =~= emitted(t.push(heads@[i as int])));
        }
    }
    proof {
        assert(heads@.take(len as int) =~= heads@);
    }
    r
}

/// The first four symbols, padded with `'0'`.
fn pad4(e: &Vec<u8>) -> (r: Vec<u8>)
    ensures
        r@ == padded4(e@),
{
    let mut r: Vec<u8> = Vec::new();
    for i in 0..4usize
        invariant
            r@ == padded4(e@).take(i as int),
    {
        if i < e.len() {
            r.push(e[i]);
        } else {
            r.push(48);
        }
        assert(r@ =~= padded4(e@).take(i + 1));
    }
    assert(r@ =~= padded4(e@));
    r
}

/// Computes the American Soundex code of `s`: four ASCII symbols, a letter
/// (or the first ASCII character) followed by three class digits.
pub fn american_soundex(s: &str) -> (r: String)
    ensures
        r@ == soundex(s@),
        r@.len() == 4,
        forall|i: int| 0 <= i < 4 ==> (#[trigger] r@[i] as u32) < 128,
        forall|i: int| 1 <= i < 4 ==> 48 <= (#[trigger] r@[i] as u32) <= 54,
{
    proof {
        lemma_soundex_bytes_shape(s@);
    }
    let norm = normalize(s);
    let keyed_v = keyed_without_h_w(&norm);
    let heads = collapse_runs(keyed_v);
    let symbols = emit(&heads);
    let mut code = pad4(&symbols);
    // a digit '1'..'9' in front gives way to the first byte of the working
    // sequence; a '0' stays
    if 49 <= code[0] && code[0] <= 57 {
        proof {
            if norm@.len() == 0 {
                assert(keyed_v@ =~= Seq::<Keyed>::empty());
            }
        }
        let first = norm[0];
        code.set(0, first);
    }
    let mut chars: Vec<char> = Vec::new();
    for i in 0..4usize
        invariant
            code@.len() == 4,
            chars@ == code@.take(i as int).map_values(|b: u8| b as char),
    {
        chars.push(code[i] as char);
        assert(chars@ =~= code@.take(i + 1).map_values(|b: u8| b as char));
    }
    assert(code@ =~= soundex_bytes(s@));
    assert(chars@ =~= soundex(s@));
    string_from_chars(chars)
}

/// The code depends on the input alone: two calls on equal inputs give
/// equal codes.
pub proof fn lemma_soundex_deterministic(s: Seq<char>, t: Seq<char>)
    requires
        s == t,
    ensures
        soundex(s) == soundex(t),
{
}

/// Characters without an ASCII representation are invisible: inserting any
/// number of them at any place leaves the code unchanged.
pub proof fn lemma_non_ascii_invisible(a: Seq<char>, x: Seq<char>, b: Seq<char>)
    requires
        forall|i: int| 0 <= i < x.len() ==> !is_ascii_char(#[trigger] x[i]),
    ensures
        soundex(a + x + b) == soundex(a + b),
{
    broadcast use Seq::filter_distributes_over_add;

    let pred = |c: char| is_ascii_char(c);
    assert(x.all(|c: char| !pred(c)));
    x.lemma_all_neg_filter_empty(pred);
    assert(x.filter(pred) =~= Seq::<char>::empty());
    assert((a + x + b).filter(pred) == a.filter(pred) + x.filter(pred) + b.filter(pred));
    assert((a + b).filter(pred) == a.filter(pred) + b.filter(pred));
    assert((a + x + b).filter(pred) =~= (a + b).filter(pred));
    assert(normalized(a + x + b) == normalized(a + b));
}

} // verus!
