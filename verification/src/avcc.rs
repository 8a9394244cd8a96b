//! Parser for the codec configuration record: the NAL length-field width
//! and the stored primary (SPS) and supplementary (PPS) parameter sets.
use vstd::prelude::*;

use crate::framing::copy_range;

verus! {

/// The mathematical content of a parsed configuration record.
pub struct AvccModel {
    pub length_size: nat,
    pub sps: Seq<Seq<u8>>,
    pub pps: Seq<Seq<u8>>,
}

/// Why a configuration record was rejected.
#[derive(Debug, Clone, Copy, PartialEq, Eq, Structural)]
pub enum AvccError {
    /// Fewer than 7 bytes were supplied.
    TooShort,
    /// A declared parameter-set entry or count byte runs past the end.
    Truncated,
}

/// Parses `count` parameter-set entries at `pos`: each is a 2-byte
/// big-endian length followed by that many payload bytes. Zero-length
/// entries are consumed but not kept. Yields the kept payloads and the
/// position after the last entry, or `None` on a short read.
pub open spec fn parse_sets(b: Seq<u8>, pos: int, count: nat) -> Option<(Seq<Seq<u8>>, int)>
    decreases count,
{
    if count == 0 {
        Some((Seq::empty(), pos))
    } else if pos + 2 > b.len() {
        None
    } else {
        let n = b[pos] * 256 + b[pos + 1];
        if pos + 2 + n > b.len() {
            None
        } else {
            match parse_sets(b, pos + 2 + n, (count - 1) as nat) {
                None => None,
                Some((rest, end)) => Some(
                    (
                        if n == 0 {
                            rest
                        } else {
                            seq![b.subrange(pos + 2, pos + 2 + n)] + rest
                        },
                        end,
                    ),
                ),
            }
        }
    }
}

/// Parses a whole configuration record: a 6-byte header (4 ignored bytes,
/// one byte whose low 2 bits give the length-field width minus one, one
/// byte whose low 5 bits give the primary-set count), the primary sets,
/// a supplementary-set count byte, and the supplementary sets.
pub open spec fn parse_avcc(b: Seq<u8>) -> Option<AvccModel> {
    if b.len() < 7 {
        None
    } else {
        let w = (b[4] & 0x03) + 1;
        let nsps = b[5] & 0x1F;
        match parse_sets(b, 6, nsps as nat) {
            None => None,
            Some((sps, p)) => if p + 1 > b.len() {
                None
            } else {
                let npps = b[p];
                match parse_sets(b, p + 1, npps as nat) {
                    None => None,
                    Some((pps, _)) => Some(AvccModel { length_size: w as nat, sps, pps }),
                }
            },
        }
    }
}

/// Every parameter set kept by `parse_sets` is non-empty.
pub proof fn lemma_parse_sets_wf(b: Seq<u8>, pos: int, count: nat)
    requires
        0 <= pos <= b.len(),
    ensures
        parse_sets(b, pos, count) matches Some((sets, end)) ==> {
            &&& forall|i: int| 0 <= i < sets.len() ==> (#[trigger] sets[i]).len() >= 1
            &&& pos <= end <= b.len()
        },
    decreases count,
{
    if count > 0 && pos + 2 <= b.len() {
        let n = b[pos] * 256 + b[pos + 1];
        if pos + 2 + n <= b.len() {
            lemma_parse_sets_wf(b, pos + 2 + n, (count - 1) as nat);
            match parse_sets(b, pos + 2 + n, (count - 1) as nat) {
                Some((rest, end)) => {
                    let payload = b.subrange(pos + 2, pos + 2 + n);
                    let sets = if n == 0 { rest } else { seq![payload] + rest };
                    assert(parse_sets(b, pos, count) == Some((sets, end)));
                    assert forall|i: int| 0 <= i < sets.len()
                        implies (#[trigger] sets[i]).len() >= 1 by {
                        if n == 0 {
                            assert(sets[i] == rest[i]);
                        } else if i > 0 {
                            assert(sets[i] == rest[i - 1]);
                        } else {
                            assert(sets[0] == payload);
                        }
                    }
                },
                None => {},
            }
        }
    }
}

/// Every parameter set kept by a full record parse is non-empty, and the
/// recovered width lies in 1..=4.
pub proof fn lemma_parse_avcc_wf(b: Seq<u8>)
    ensures
        parse_avcc(b) matches Some(m) ==> {
            &&& 1 <= m.length_size <= 4
            &&& forall|i: int| 0 <= i < m.sps.len() ==> (#[trigger] m.sps[i]).len() >= 1
            &&& forall|i: int| 0 <= i < m.pps.len() ==> (#[trigger] m.pps[i]).len() >= 1
        },
{
    if b.len() >= 7 {
        let nsps = b[5] & 0x1F;
        lemma_parse_sets_wf(b, 6, nsps as nat);
        let hb = b[4];
        assert((hb & 0x03) < 4) by (bit_vector);
        match parse_sets(b, 6, nsps as nat) {
            Some((sps, p)) => {
                if p + 1 <= b.len() {
                    lemma_parse_sets_wf(b, p + 1, b[p] as nat);
                }
            },
            None => {},
        }
    }
}

/// The parsed form of a configuration record: the length-field width and
/// the two ordered lists of non-empty parameter-set payloads.
#[derive(Debug)]
pub struct AvccInfo {
    pub sps: Vec<Vec<u8>>,
    pub pps: Vec<Vec<u8>>,
    pub length_size: u8,
}

impl View for AvccInfo {
    type V = AvccModel;

    open spec fn view(&self) -> AvccModel {
        AvccModel {
            length_size: self.length_size as nat,
            sps: self.sps.deep_view(),
            pps: self.pps.deep_view(),
        }
    }
}

/// Maps an accumulated prefix over the result of `parse_sets`.
spec fn with_prefix(acc: Seq<Seq<u8>>, r: Option<(Seq<Seq<u8>>, int)>) -> Option<
    (Seq<Seq<u8>>, int),
> {
    match r {
        None => None,
        Some((sets, end)) => Some((acc + sets, end)),
    }
}

/// Reads `count` parameter-set entries starting at `pos`, exactly as
/// `parse_sets` describes.
fn read_sets(b: &[u8], pos: usize, count: u8) -> (r: Result<(Vec<Vec<u8>>, usize), AvccError>)
    requires
        pos <= b@.len(),
    ensures
        match r {
            Ok((sets, end)) => {
                &&& parse_sets(b@, pos as int, count as nat) == Some(
                    (sets.deep_view(), end as int),
                )
                &&& pos <= end <= b@.len()
            },
            Err(e) => {
                &&& parse_sets(b@, pos as int, count as nat) is None
                &&& e == AvccError::Truncated
            },
        },
{
    let bl = b.len();
    let mut sets: Vec<Vec<u8>> = Vec::new();
    let mut p = pos;
    let mut i: u8 = 0;
    proof {
        assert(bl == b@.len());
        assert(sets.deep_view() =~= Seq::<Seq<u8>>::empty());
    }
    while i < count
        invariant
            pos <= p <= b@.len(),
            b@.len() <= usize::MAX,
            i <= count,
            parse_sets(b@, pos as int, count as nat) == with_prefix(
                sets.deep_view(),
                parse_sets(b@, p as int, (count - i) as nat),
            ),
        decreases count - i,
    {
        let ghost sets0 = sets.deep_view();
        let ghost rem = (count - i) as nat;
        if b.len() - p < 2 {
            return Err(AvccError::Truncated);
        }
        let n = (b[p] as usize) * 256 + (b[p + 1] as usize);
        if b.len() - (p + 2) < n {
            return Err(AvccError::Truncated);
        }
        let entry_end = p + 2 + n;
        if n > 0 {
            let payload = copy_range(b, p + 2, entry_end);
            proof {
                let dv = sets.deep_view();
                assert(dv =~= sets0);
            }
            sets.push(payload);
            proof {
                assert(sets.deep_view() =~~= sets0 + seq![b@.subrange(p + 2, entry_end as int)]);
            }
        }
        proof {
            let inner = parse_sets(b@, entry_end as int, (rem - 1) as nat);
            assert(parse_sets(b@, p as int, rem) == match inner {
                None => None::<(Seq<Seq<u8>>, int)>,
                Some((rest, end)) => Some(
                    (
                        if n == 0 {
                            rest
                        } else {
                            seq![b@.subrange(p as int + 2, p + 2 + n)] + rest
                        },
                        end,
                    ),
                ),
            });
            match inner {
                None => {},
                Some((rest, end)) => {
                    let entry = b@.subrange(p as int + 2, p + 2 + n);
                    if n == 0 {
                        assert(sets.deep_view() + rest =~= sets0 + rest);
                    } else {
                        assert(sets.deep_view() + rest =~= sets0 + (seq![entry] + rest));
                    }
                },
            }
        }
        p = entry_end;
        i = i + 1;
    }
    proof {
        assert(parse_sets(b@, p as int, 0) == Some((Seq::<Seq<u8>>::empty(), p as int)));
        assert(sets.deep_view() + Seq::<Seq<u8>>::empty() =~= sets.deep_view());
    }
    Ok((sets, p))
}

impl AvccInfo {
    /// Parses a configuration record. Records shorter than 7 bytes are
    /// rejected as `TooShort`; a declared entry or count byte that runs
    /// past the end is rejected as `Truncated`. On success the result is
    /// exactly what `parse_avcc` describes: width in 1..=4 and the two
    /// lists of non-empty parameter sets, in record order.
    pub fn from_avcc(avcc: &[u8]) -> (r: Result<AvccInfo, AvccError>)
        ensures
            match r {
                Ok(info) => {
                    &&& parse_avcc(avcc@) == Some(info@)
                    &&& 1 <= info.length_size <= 4
                    &&& forall|i: int| 0 <= i < info@.sps.len() ==> (#[trigger] info@.sps[i]).len()
                        >= 1
                    &&& forall|i: int| 0 <= i < info@.pps.len() ==> (#[trigger] info@.pps[i]).len()
                        >= 1
                },
                Err(AvccError::TooShort) => avcc@.len() < 7,
                Err(AvccError::Truncated) => avcc@.len() >= 7 && parse_avcc(avcc@) is None,
            },
    {
        proof {
            lemma_parse_avcc_wf(avcc@);
        }
        if avcc.len() < 7 {
            return Err(AvccError::TooShort);
        }
        let hb = avcc[4];
        let masked = hb & 0x03;
        proof {
            assert(masked < 4) by (bit_vector)
                requires masked == hb & 0x03;
        }
        let length_size = masked + 1;
        let num_sps = avcc[5] & 0x1F;
        let (sps, p) = match read_sets(avcc, 6, num_sps) {
            Ok(v) => v,
            Err(e) => { return Err(e); },
        };
        if avcc.len() - p < 1 {
            return Err(AvccError::Truncated);
        }
        let num_pps = avcc[p];
        let (pps, _end) = match read_sets(avcc, p + 1, num_pps) {
            Ok(v) => v,
            Err(e) => { return Err(e); },
        };
        let info = AvccInfo { sps, pps, length_size };
        proof {
            let hb = avcc@[4];
            assert((hb & 0x03) < 4) by (bit_vector);
            assert(parse_avcc(avcc@) == Some(info@));
        }
        Ok(info)
    }
}


/// The encoding of a list of parameter sets: for each, a 2-byte
/// big-endian length then the payload.
pub open spec fn encode_sets(sets: Seq<Seq<u8>>) -> Seq<u8>
    decreases sets.len(),
{
    if sets.len() == 0 {
        Seq::empty()
    } else {
        seq![(sets[0].len() / 256) as u8, (sets[0].len() % 256) as u8] + sets[0] + encode_sets(
            sets.drop_first(),
        )
    }
}

/// The encoding of a whole configuration record: four ignored header
/// bytes, the width byte, the primary count byte, the primary sets, the
/// supplementary count byte, and the supplementary sets.
pub open spec fn encode_avcc(hdr: Seq<u8>, b4: u8, b5: u8, sps: Seq<Seq<u8>>, pps: Seq<Seq<u8>>) -> Seq<u8> {
    hdr + seq![b4, b5] + encode_sets(sps) + seq![(pps.len() as u8)] + encode_sets(pps)
}

/// A region that holds the encoding of `sets` at `pos` parses back to
/// exactly those sets, ending just past them.
pub proof fn lemma_parse_sets_encoded(b: Seq<u8>, pos: int, sets: Seq<Seq<u8>>)
    requires
        0 <= pos,
        pos + encode_sets(sets).len() <= b.len(),
        b.subrange(pos, pos + encode_sets(sets).len()) == encode_sets(sets),
        forall|i: int| 0 <= i < sets.len() ==> 1 <= (#[trigger] sets[i]).len() <= 0xFFFF,
        sets.len() <= 255,
    ensures
        parse_sets(b, pos, sets.len() as nat) == Some((sets, pos + encode_sets(sets).len())),
    decreases sets.len(),
{
    if sets.len() > 0 {
        let u = sets[0];
        let n = u.len() as int;
        let enc = encode_sets(sets);
        let enc_rest = encode_sets(sets.drop_first());
        assert(enc =~= seq![(n / 256) as u8, (n % 256) as u8] + u + enc_rest);
        let el = enc.len() as int;
        assert(b.subrange(pos, pos + el) == enc);
        let two = seq![(n / 256) as u8, (n % 256) as u8];
        assert(enc == two + u + enc_rest);
        assert forall|t: int| 0 <= t < el implies b[pos + t] == enc[t] by {
            assert(b.subrange(pos, pos + el)[t] == b[pos + t]);
        }
        assert((two + u + enc_rest)[0] == two[0]);
        assert((two + u + enc_rest)[1] == two[1]);
        assert(b[pos] == (n / 256) as u8);
        assert(b[pos + 1] == (n % 256) as u8);
        assert(n / 256 < 256);
        vstd::arithmetic::div_mod::lemma_fundamental_div_mod(n, 256);
        assert(b[pos] * 256 + b[pos + 1] == n);
        assert forall|k: int| 0 <= k < n implies b.subrange(pos + 2, pos + 2 + n)[k] == u[k] by {
            assert(b[pos + 2 + k] == enc[2 + k]);
            assert((two + u + enc_rest)[2 + k] == (two + u)[2 + k]);
            assert((two + u)[2 + k] == u[k]);
        }
        assert(b.subrange(pos + 2, pos + 2 + n) =~= u);
        let erl = enc_rest.len() as int;
        assert forall|k: int| 0 <= k < erl implies b.subrange(pos + 2 + n, pos + 2 + n + erl)[k]
            == enc_rest[k] by {
            assert(b[pos + 2 + n + k] == enc[2 + n + k]);
            assert((two + u + enc_rest)[2 + n + k] == enc_rest[k]);
        }
        assert(b.subrange(pos + 2 + n, pos + 2 + n + erl) =~= enc_rest);
        lemma_parse_sets_encoded(b, pos + 2 + n, sets.drop_first());
        assert(parse_sets(b, pos + 2 + n, (sets.len() - 1) as nat) == Some(
            (sets.drop_first(), pos + 2 + n + enc_rest.len()),
        ));
        assert(seq![u] + sets.drop_first() =~= sets);
        assert(pos + 2 + n + enc_rest.len() == pos + enc.len());
    } else {
        assert(encode_sets(sets).len() == 0);
    }
}

/// Parsing a well-formed configuration record that encodes `width - 1`
/// in the low two bits of its fifth byte, `sps.len()` in the low five
/// bits of its sixth, and then the two set lists recovers exactly that
/// width and exactly those sets, byte for byte.
pub proof fn lemma_parse_encoded_avcc(
    hdr: Seq<u8>,
    b4: u8,
    b5: u8,
    sps: Seq<Seq<u8>>,
    pps: Seq<Seq<u8>>,
)
    requires
        hdr.len() == 4,
        (b5 & 0x1F) as int == sps.len(),
        pps.len() <= 255,
        forall|i: int| 0 <= i < sps.len() ==> 1 <= (#[trigger] sps[i]).len() <= 0xFFFF,
        forall|i: int| 0 <= i < pps.len() ==> 1 <= (#[trigger] pps[i]).len() <= 0xFFFF,
    ensures
        parse_avcc(encode_avcc(hdr, b4, b5, sps, pps)) == Some(
            AvccModel { length_size: ((b4 & 0x03) + 1) as nat, sps, pps },
        ),
{
    let b = encode_avcc(hdr, b4, b5, sps, pps);
    let enc_sps = encode_sets(sps);
    let enc_pps = encode_sets(pps);
    assert(b5 & 0x1F <= 31) by (bit_vector);
    assert(b =~= hdr + seq![b4, b5] + enc_sps + seq![(pps.len() as u8)] + enc_pps);
    assert(b.len() >= 7);
    assert(b[4] == b4);
    assert(b[5] == b5);
    assert(b.subrange(6, 6 + enc_sps.len() as int) =~= enc_sps);
    lemma_parse_sets_encoded(b, 6, sps);
    let p: int = 6 + enc_sps.len() as int;
    assert(b[p] == pps.len() as u8);
    assert(b.subrange(p + 1, p + 1 + enc_pps.len()) =~= enc_pps);
    lemma_parse_sets_encoded(b, p + 1, pps);
}

} // verus!
