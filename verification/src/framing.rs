//! Byte-level model of the length-prefixed NAL unit framing: big-endian
//! integers, length-prefixed unit streams, and their round-trip lemmas.
use vstd::prelude::*;

verus! {

/// Big-endian value of a byte sequence.
pub open spec fn be_val(s: Seq<u8>) -> nat
    decreases s.len(),
{
    if s.len() == 0 {
        0
    } else {
        (be_val(s.drop_last()) * 256 + s.last()) as nat
    }
}

/// 256 raised to the power `k`.
pub open spec fn pow256(k: nat) -> nat
    decreases k,
{
    if k == 0 {
        1
    } else {
        256 * pow256((k - 1) as nat)
    }
}

/// pow256 is monotone in its exponent.
pub proof fn lemma_pow256_mono(a: nat, b: nat)
    requires
        a <= b,
    ensures
        pow256(a) <= pow256(b),
    decreases b,
{
    if a < b {
        lemma_pow256_mono(a, (b - 1) as nat);
        assert(pow256(b) == 256 * pow256((b - 1) as nat));
        assert(pow256((b - 1) as nat) <= 256 * pow256((b - 1) as nat)) by (nonlinear_arith)
            requires pow256((b - 1) as nat) >= 0;
    }
}

/// A big-endian value fits in as many bytes as were read.
pub proof fn lemma_be_val_bound(s: Seq<u8>)
    ensures
        be_val(s) < pow256(s.len() as nat),
    decreases s.len(),
{
    if s.len() > 0 {
        lemma_be_val_bound(s.drop_last());
    }
}

/// The `w` low-order base-256 digits of `n`, most significant first.
pub open spec fn be_bytes(w: nat, n: nat) -> Seq<u8>
    decreases w,
{
    if w == 0 {
        Seq::empty()
    } else {
        be_bytes((w - 1) as nat, n / 256).push((n % 256) as u8)
    }
}

pub proof fn lemma_be_bytes_len(w: nat, n: nat)
    ensures
        be_bytes(w, n).len() == w,
    decreases w,
{
    if w > 0 {
        lemma_be_bytes_len((w - 1) as nat, n / 256);
    }
}

/// Encoding then decoding a value that fits in `w` bytes is the identity.
pub proof fn lemma_be_bytes_val(w: nat, n: nat)
    requires
        n < pow256(w),
    ensures
        be_val(be_bytes(w, n)) == n,
    decreases w,
{
    if w > 0 {
        lemma_be_bytes_len((w - 1) as nat, n / 256);
        lemma_be_bytes_val((w - 1) as nat, n / 256);
        assert(be_bytes(w, n).drop_last() =~= be_bytes((w - 1) as nat, n / 256));
    }
}


/// One step of length-prefixed parsing: the payload of the first unit in
/// `s` and how many bytes (length field included) it occupies, or `None`
/// if fewer than `w` bytes remain, the declared length is zero, or the
/// declared length overruns the region.
pub open spec fn spec_read_unit(s: Seq<u8>, w: nat) -> Option<(Seq<u8>, int)> {
    if s.len() < w {
        None
    } else {
        let n = be_val(s.subrange(0, w as int));
        if n == 0 || s.len() < w + n {
            None
        } else {
            Some((s.subrange(w as int, (w + n) as int), (w + n) as int))
        }
    }
}

/// All unit payloads recovered from a length-prefixed region, in order.
/// Parsing stops at the first failed read; the remainder is dropped.
pub open spec fn parse_units(s: Seq<u8>, w: nat) -> Seq<Seq<u8>>
    decreases s.len() when w > 0
{
    match spec_read_unit(s, w) {
        None => Seq::empty(),
        Some((payload, used)) => seq![payload] + parse_units(s.subrange(used, s.len() as int), w),
    }
}

/// The length-prefixed encoding of a list of unit payloads with width `w`.
pub open spec fn encode_units(us: Seq<Seq<u8>>, w: nat) -> Seq<u8>
    decreases us.len(),
{
    if us.len() == 0 {
        Seq::empty()
    } else {
        be_bytes(w, us[0].len() as nat) + us[0] + encode_units(us.drop_first(), w)
    }
}

/// Every payload parsed from a width-`w` region is non-empty and shorter
/// than 256^w.
pub proof fn lemma_parse_units_wf(s: Seq<u8>, w: nat)
    requires
        w > 0,
    ensures
        forall|i: int| 0 <= i < parse_units(s, w).len()
            ==> 1 <= (#[trigger] parse_units(s, w)[i]).len() < pow256(w),
    decreases s.len(),
{
    match spec_read_unit(s, w) {
        None => {},
        Some((payload, used)) => {
            lemma_be_val_bound(s.subrange(0, w as int));
            lemma_parse_units_wf(s.subrange(used, s.len() as int), w);
            assert forall|i: int| 0 <= i < parse_units(s, w).len()
                implies 1 <= (#[trigger] parse_units(s, w)[i]).len() < pow256(w) by {
                if i > 0 {
                    assert(parse_units(s, w)[i]
                        == parse_units(s.subrange(used, s.len() as int), w)[i - 1]);
                }
            }
        },
    }
}

/// A region that encodes `us` and then continues with `tail` parses back
/// to exactly `us` followed by whatever `tail` parses to.
pub proof fn lemma_parse_encoded_with_tail(us: Seq<Seq<u8>>, w: nat, tail: Seq<u8>)
    requires
        1 <= w,
        forall|i: int| 0 <= i < us.len() ==> 1 <= (#[trigger] us[i]).len() < pow256(w),
    ensures
        parse_units(encode_units(us, w) + tail, w) == us + parse_units(tail, w),
    decreases us.len(),
{
    if us.len() == 0 {
        assert(encode_units(us, w) + tail =~= tail);
        assert(us + parse_units(tail, w) =~= parse_units(tail, w));
    } else {
        let u = us[0];
        let n = u.len() as nat;
        let s = encode_units(us, w) + tail;
        lemma_be_bytes_len(w, n);
        lemma_be_bytes_val(w, n);
        let rest = encode_units(us.drop_first(), w) + tail;
        assert(s =~= be_bytes(w, n) + u + rest);
        assert(s.len() >= w + n);
        assert(s.subrange(0, w as int) =~= be_bytes(w, n));
        assert(be_val(s.subrange(0, w as int)) == n);
        assert(s.subrange(w as int, (w + n) as int) =~= u);
        assert(s.subrange((w + n) as int, s.len() as int) =~= rest);
        assert(spec_read_unit(s, w) == Some((u, (w + n) as int)));
        lemma_parse_encoded_with_tail(us.drop_first(), w, tail);
        assert(parse_units(s, w) =~= seq![u] + (us.drop_first() + parse_units(tail, w)));
        assert(seq![u] + (us.drop_first() + parse_units(tail, w)) =~= us + parse_units(tail, w));
    }
}

/// A fully valid encoding parses back to exactly the encoded payloads.
pub proof fn lemma_parse_encoded(us: Seq<Seq<u8>>, w: nat)
    requires
        1 <= w,
        forall|i: int| 0 <= i < us.len() ==> 1 <= (#[trigger] us[i]).len() < pow256(w),
    ensures
        parse_units(encode_units(us, w), w) == us,
{
    lemma_parse_encoded_with_tail(us, w, Seq::empty());
    assert(encode_units(us, w) + Seq::empty() =~= encode_units(us, w));
    assert(parse_units(Seq::empty(), w) =~= Seq::<Seq<u8>>::empty());
    assert(us + Seq::<Seq<u8>>::empty() =~= us);
}

/// Truncation tolerance: a trailing region whose first read fails (too
/// short, zero length, or an overrunning declared length) contributes
/// nothing, and every fully valid unit before it is still recovered.
pub proof fn lemma_parse_truncated(us: Seq<Seq<u8>>, w: nat, tail: Seq<u8>)
    requires
        1 <= w,
        forall|i: int| 0 <= i < us.len() ==> 1 <= (#[trigger] us[i]).len() < pow256(w),
        spec_read_unit(tail, w) is None,
    ensures
        parse_units(encode_units(us, w) + tail, w) == us,
{
    lemma_parse_encoded_with_tail(us, w, tail);
    assert(parse_units(tail, w) =~= Seq::<Seq<u8>>::empty());
    assert(us + Seq::<Seq<u8>>::empty() =~= us);
}


/// Copies `b[start..end]` into a fresh vector.
pub fn copy_range(b: &[u8], start: usize, end: usize) -> (r: Vec<u8>)
    requires
        start <= end <= b@.len(),
    ensures
        r@ == b@.subrange(start as int, end as int),
{
    let mut r: Vec<u8> = Vec::new();
    let mut q = start;
    while q < end
        invariant
            start <= q <= end <= b@.len(),
            r@ == b@.subrange(start as int, q as int),
        decreases end - q,
    {
        r.push(b[q]);
        q = q + 1;
        proof {
            assert(r@ =~= b@.subrange(start as int, q as int));
        }
    }
    r
}

/// Appends `b[start..end]` to `out`.
pub fn push_range(out: &mut Vec<u8>, b: &[u8], start: usize, end: usize)
    requires
        start <= end <= b@.len(),
    ensures
        final(out)@ == old(out)@ + b@.subrange(start as int, end as int),
{
    let mut q = start;
    while q < end
        invariant
            start <= q <= end <= b@.len(),
            out@ == old(out)@ + b@.subrange(start as int, q as int),
        decreases end - q,
    {
        out.push(b[q]);
        q = q + 1;
        proof {
            assert(out@ =~= old(out)@ + b@.subrange(start as int, q as int));
        }
    }
}

} // verus!
