//! The inverse converter: scans an Annex-B buffer for start codes,
//! recovers unit boundaries, filters out parameter-set and auxiliary
//! units, and re-emits the rest with a length prefix of a given width.
use vstd::prelude::*;

use crate::framing::be_bytes;
use crate::framing::push_range;
use crate::nal::NalType;
use crate::nal::unit_kind;

verus! {

/// A 4-byte start code begins at `i`.
pub open spec fn outer_code4(b: Seq<u8>, i: int) -> bool {
    &&& 0 <= i
    &&& i + 4 <= b.len()
    &&& b[i] == 0
    &&& b[i + 1] == 0
    &&& b[i + 2] == 0
    &&& b[i + 3] == 1
}

/// A 3-byte start code begins at `i`.
pub open spec fn outer_code3(b: Seq<u8>, i: int) -> bool {
    &&& 0 <= i
    &&& i + 3 <= b.len()
    &&& b[i] == 0
    &&& b[i + 1] == 0
    &&& b[i + 2] == 1
}

/// The unit-end test: the scan for a unit's end stops at `j` only when a
/// full four bytes remain and either start-code pattern begins there.
pub open spec fn inner_code(b: Seq<u8>, j: int) -> bool {
    &&& 0 <= j
    &&& j + 4 <= b.len()
    &&& ((b[j] == 0 && b[j + 1] == 0 && b[j + 2] == 0 && b[j + 3] == 1) || (b[j] == 0 && b[j + 1]
        == 0 && b[j + 2] == 1))
}

/// The position of the first unit-end at or after `j`, or the end of the
/// buffer when there is none.
pub open spec fn scan_end(b: Seq<u8>, j: int) -> int
    decreases b.len() - j when 0 <= j <= b.len()
{
    if j >= b.len() {
        b.len() as int
    } else if inner_code(b, j) {
        j
    } else {
        scan_end(b, j + 1)
    }
}

pub proof fn lemma_scan_end_bounds(b: Seq<u8>, j: int)
    requires
        0 <= j <= b.len(),
    ensures
        j <= scan_end(b, j) <= b.len(),
    decreases b.len() - j,
{
    if j < b.len() && !inner_code(b, j) {
        lemma_scan_end_bounds(b, j + 1);
    }
}

/// `scan_end` is exactly the first match: if nothing matches in
/// `[from, target)` and `target` is a match or the end, the scan stops at
/// `target`.
pub proof fn lemma_scan_end_char(b: Seq<u8>, from: int, target: int)
    requires
        0 <= from <= target <= b.len(),
        forall|p: int| from <= p < target ==> !inner_code(b, p),
        target == b.len() || inner_code(b, target),
    ensures
        scan_end(b, from) == target,
    decreases target - from,
{
    if from < target {
        lemma_scan_end_char(b, from + 1, target);
    }
}

/// All units recovered by scanning an Annex-B buffer from position `i`:
/// find a start code, take everything up to the next unit-end (or the end
/// of the buffer) as one unit, and continue there. Empty units are
/// skipped; a start code with nothing after it ends the scan.
pub open spec fn scan_units(b: Seq<u8>, i: int) -> Seq<Seq<u8>>
    decreases b.len() - i when 0 <= i <= b.len() via scan_units_decreases
{
    if i >= b.len() {
        Seq::empty()
    } else if outer_code4(b, i) || outer_code3(b, i) {
        let sc: int = if outer_code4(b, i) {
            4
        } else {
            3
        };
        let start = i + sc;
        if start >= b.len() {
            Seq::empty()
        } else {
            let j = scan_end(b, start);
            if j == start {
                scan_units(b, j)
            } else {
                seq![b.subrange(start, j)] + scan_units(b, j)
            }
        }
    } else {
        scan_units(b, i + 1)
    }
}

#[via_fn]
proof fn scan_units_decreases(b: Seq<u8>, i: int) {
    if 0 <= i < b.len() && (outer_code4(b, i) || outer_code3(b, i)) {
        let sc: int = if outer_code4(b, i) {
            4
        } else {
            3
        };
        if i + sc < b.len() {
            lemma_scan_end_bounds(b, i + sc);
        }
    }
}

/// The unit kinds the inverse converter removes: parameter sets and
/// auxiliary units, which the surrounding protocol carries out-of-band.
pub open spec fn dropped_kind(k: NalType) -> bool {
    k == NalType::Sps || k == NalType::Pps || k == NalType::Aud || k == NalType::Sei
}

/// Length-prefix encoding of a unit list with dropped kinds removed:
/// each kept unit becomes `w` big-endian length bytes then its payload,
/// in the original order.
pub open spec fn encode_filtered(us: Seq<Seq<u8>>, w: nat) -> Seq<u8>
    decreases us.len(),
{
    if us.len() == 0 {
        Seq::empty()
    } else {
        let head = if dropped_kind(unit_kind(us[0])) {
            Seq::empty()
        } else {
            be_bytes(w, us[0].len() as nat) + us[0]
        };
        head + encode_filtered(us.drop_first(), w)
    }
}

/// What the inverse converter returns for a whole buffer.
pub open spec fn inverse_convert(b: Seq<u8>, w: nat) -> Seq<u8> {
    encode_filtered(scan_units(b, 0), w)
}

/// The first unit-end at or after `from`, or the buffer's end.
fn find_unit_end(b: &[u8], from: usize) -> (j: usize)
    requires
        from <= b@.len(),
    ensures
        j as int == scan_end(b@, from as int),
        from <= j <= b@.len(),
{
    let n = b.len();
    let mut j = from;
    while j < n
        invariant
            from <= j <= n,
            n == b@.len(),
            scan_end(b@, from as int) == scan_end(b@, j as int),
        decreases n - j,
    {
        if n - j >= 4 {
            let hit = (b[j] == 0 && b[j + 1] == 0 && b[j + 2] == 0 && b[j + 3] == 1) || (b[j] == 0
                && b[j + 1] == 0 && b[j + 2] == 1);
            if hit {
                proof {
                    assert(inner_code(b@, j as int));
                    assert(scan_end(b@, j as int) == j as int);
                }
                return j;
            }
        }
        proof {
            assert(!inner_code(b@, j as int));
            assert(scan_end(b@, j as int) == scan_end(b@, j + 1));
        }
        j = j + 1;
    }
    j
}

/// Appends the `w` low-order big-endian bytes of `n` to `out`.
fn push_be_len(out: &mut Vec<u8>, w: u8, n: usize)
    requires
        1 <= w <= 4,
    ensures
        final(out)@ == old(out)@ + be_bytes(w as nat, n as nat),
{
    proof {
        reveal_with_fuel(be_bytes, 5);
    }
    let d1 = n / 256;
    let d2 = d1 / 256;
    let d3 = d2 / 256;
    if w == 1 {
        out.push((n % 256) as u8);
    } else if w == 2 {
        out.push((d1 % 256) as u8);
        out.push((n % 256) as u8);
    } else if w == 3 {
        out.push((d2 % 256) as u8);
        out.push((d1 % 256) as u8);
        out.push((n % 256) as u8);
    } else {
        out.push((d3 % 256) as u8);
        out.push((d2 % 256) as u8);
        out.push((d1 % 256) as u8);
        out.push((n % 256) as u8);
    }
    proof {
        assert(out@ =~= old(out)@ + be_bytes(w as nat, n as nat));
    }
}

/// Converts an Annex-B buffer back to length-prefixed form with a
/// `length_size`-byte length field, dropping parameter-set, access-unit
/// delimiter and supplemental-enhancement units. Unit order is kept.
pub fn convert_annexb_to_length_prefixed(annexb: &[u8], length_size: u8) -> (out: Vec<u8>)
    requires
        1 <= length_size <= 4,
    ensures
        out@ == inverse_convert(annexb@, length_size as nat),
{
    let ghost w = length_size as nat;
    let n = annexb.len();
    let mut out: Vec<u8> = Vec::new();
    let mut i: usize = 0;
    proof {
        assert(out@ =~= Seq::<u8>::empty());
    }
    while i < n
        invariant
            i <= n,
            n == annexb@.len(),
            1 <= length_size <= 4,
            w == length_size as nat,
            inverse_convert(annexb@, w) == out@ + encode_filtered(scan_units(annexb@, i as int), w),
        decreases n - i,
    {
        let code4 = n - i >= 4 && annexb[i] == 0 && annexb[i + 1] == 0 && annexb[i + 2] == 0
            && annexb[i + 3] == 1;
        let code3 = !code4 && n - i >= 3 && annexb[i] == 0 && annexb[i + 1] == 0 && annexb[i + 2]
            == 1;
        proof {
            assert(code4 == outer_code4(annexb@, i as int));
            assert((code4 || code3) == (outer_code4(annexb@, i as int) || outer_code3(
                annexb@,
                i as int,
            )));
        }
        if !(code4 || code3) {
            proof {
                assert(scan_units(annexb@, i as int) == scan_units(annexb@, i + 1));
            }
            i = i + 1;
        } else {
            let start = if code4 {
                i + 4
            } else {
                i + 3
            };
            if start >= n {
                proof {
                    assert(scan_units(annexb@, i as int) =~= Seq::<Seq<u8>>::empty());
                    assert(scan_units(annexb@, n as int) =~= Seq::<Seq<u8>>::empty());
                    assert(encode_filtered(Seq::<Seq<u8>>::empty(), w) =~= Seq::<u8>::empty());
                }
                i = n;
            } else {
                let j = find_unit_end(annexb, start);
                if j == start {
                    proof {
                        assert(scan_units(annexb@, i as int) == scan_units(annexb@, j as int));
                    }
                    i = j;
                } else {
                    let ghost u = annexb@.subrange(start as int, j as int);
                    let ghost rest = scan_units(annexb@, j as int);
                    proof {
                        assert(scan_units(annexb@, i as int) == seq![u] + rest);
                        assert((seq![u] + rest)[0] == u);
                        assert((seq![u] + rest).drop_first() =~= rest);
                    }
                    let b0 = annexb[start];
                    let code = b0 & 0x1F;
                    proof {
                        assert(code < 32) by (bit_vector)
                            requires
                                code == b0 & 0x1F,
                        ;
                        assert(u[0] == annexb@[start as int]);
                    }
                    let kind = match NalType::from_code(code) {
                        Some(t) => t,
                        None => {
                            proof {
                                assert(false);
                            }
                            NalType::Unspecified
                        },
                    };
                    let keep = match kind {
                        NalType::Sps => false,
                        NalType::Pps => false,
                        NalType::Aud => false,
                        NalType::Sei => false,
                        _ => true,
                    };
                    let ghost out_pre = out@;
                    if keep {
                        push_be_len(&mut out, length_size, j - start);
                        push_range(&mut out, annexb, start, j);
                        proof {
                            assert(u.len() == j - start);
                            assert(out@ =~= out_pre + (be_bytes(w, u.len() as nat) + u));
                        }
                    }
                    proof {
                        assert(kind == unit_kind(u));
                        assert(keep == !dropped_kind(unit_kind(u)));
                        let head = if dropped_kind(unit_kind(u)) {
                            Seq::<u8>::empty()
                        } else {
                            be_bytes(w, u.len() as nat) + u
                        };
                        assert(encode_filtered(seq![u] + rest, w) == head + encode_filtered(
                            rest,
                            w,
                        ));
                        assert(out@ =~= out_pre + head);
                        assert(out_pre + (head + encode_filtered(rest, w)) =~= out@
                            + encode_filtered(rest, w));
                    }
                    i = j;
                }
            }
        }
    }
    proof {
        assert(scan_units(annexb@, i as int) =~= Seq::<Seq<u8>>::empty());
        assert(encode_filtered(Seq::<Seq<u8>>::empty(), w) =~= Seq::<u8>::empty());
        assert(out@ =~= inverse_convert(annexb@, w));
    }
    out
}

} // verus!
