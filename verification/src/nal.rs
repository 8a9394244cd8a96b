//! NAL unit kinds and the reader that extracts one length-prefixed unit
//! from a byte region.
use vstd::prelude::*;
use vstd::slice::slice_subrange;

use crate::framing::{be_val, lemma_pow256_mono, pow256, spec_read_unit};

verus! {

/// Network abstraction layer unit kind, keyed by the 5-bit code in the
/// low bits of a unit's first byte.
#[derive(Debug, Clone, Copy, PartialEq, Eq, Structural)]
pub enum NalType {
    Unspecified,
    Slice,
    Dpa,
    Dpb,
    Dpc,
    IdrSlice,
    Sei,
    Sps,
    Pps,
    Aud,
    EndSequence,
    EndStream,
    FillerData,
    SpsExt,
    Prefix,
    SubSps,
    Dps,
    Reserved17,
    Reserved18,
    AuxiliarySlice,
    ExtenSlice,
    DepthExtenSlice,
    Reserved22,
    Reserved23,
    Unspecified24,
    Unspecified25,
    Unspecified26,
    Unspecified27,
    Unspecified28,
    Unspecified29,
    Unspecified30,
    Unspecified31,
}

/// The kind a 5-bit header code denotes; codes 32 and above have no kind
/// and fall back (in spec only) to the first variant.
pub open spec fn kind_of_code(v: nat) -> NalType {
    if v == 0 { NalType::Unspecified }
    else if v == 1 { NalType::Slice }
    else if v == 2 { NalType::Dpa }
    else if v == 3 { NalType::Dpb }
    else if v == 4 { NalType::Dpc }
    else if v == 5 { NalType::IdrSlice }
    else if v == 6 { NalType::Sei }
    else if v == 7 { NalType::Sps }
    else if v == 8 { NalType::Pps }
    else if v == 9 { NalType::Aud }
    else if v == 10 { NalType::EndSequence }
    else if v == 11 { NalType::EndStream }
    else if v == 12 { NalType::FillerData }
    else if v == 13 { NalType::SpsExt }
    else if v == 14 { NalType::Prefix }
    else if v == 15 { NalType::SubSps }
    else if v == 16 { NalType::Dps }
    else if v == 17 { NalType::Reserved17 }
    else if v == 18 { NalType::Reserved18 }
    else if v == 19 { NalType::AuxiliarySlice }
    else if v == 20 { NalType::ExtenSlice }
    else if v == 21 { NalType::DepthExtenSlice }
    else if v == 22 { NalType::Reserved22 }
    else if v == 23 { NalType::Reserved23 }
    else if v == 24 { NalType::Unspecified24 }
    else if v == 25 { NalType::Unspecified25 }
    else if v == 26 { NalType::Unspecified26 }
    else if v == 27 { NalType::Unspecified27 }
    else if v == 28 { NalType::Unspecified28 }
    else if v == 29 { NalType::Unspecified29 }
    else if v == 30 { NalType::Unspecified30 }
    else if v == 31 { NalType::Unspecified31 }
    else { NalType::Unspecified }
}

/// The 5-bit code of a kind: the inverse of `kind_of_code` on 0..31.
pub open spec fn code_of_kind(k: NalType) -> nat {
    match k {
        NalType::Unspecified => 0,
        NalType::Slice => 1,
        NalType::Dpa => 2,
        NalType::Dpb => 3,
        NalType::Dpc => 4,
        NalType::IdrSlice => 5,
        NalType::Sei => 6,
        NalType::Sps => 7,
        NalType::Pps => 8,
        NalType::Aud => 9,
        NalType::EndSequence => 10,
        NalType::EndStream => 11,
        NalType::FillerData => 12,
        NalType::SpsExt => 13,
        NalType::Prefix => 14,
        NalType::SubSps => 15,
        NalType::Dps => 16,
        NalType::Reserved17 => 17,
        NalType::Reserved18 => 18,
        NalType::AuxiliarySlice => 19,
        NalType::ExtenSlice => 20,
        NalType::DepthExtenSlice => 21,
        NalType::Reserved22 => 22,
        NalType::Reserved23 => 23,
        NalType::Unspecified24 => 24,
        NalType::Unspecified25 => 25,
        NalType::Unspecified26 => 26,
        NalType::Unspecified27 => 27,
        NalType::Unspecified28 => 28,
        NalType::Unspecified29 => 29,
        NalType::Unspecified30 => 30,
        NalType::Unspecified31 => 31,
    }
}

/// Every 5-bit code round-trips through the kind enumeration.
pub proof fn lemma_code_round_trip(v: nat)
    requires
        v < 32,
    ensures
        code_of_kind(kind_of_code(v)) == v,
{
}

impl NalType {
    /// Classifies a header code. Codes 32 and above are not valid kinds
    /// and yield `None` rather than a crash.
    pub fn from_code(value: u8) -> (r: Option<NalType>)
        ensures
            value < 32 ==> r == Some(kind_of_code(value as nat)),
            value >= 32 ==> r is None,
    {
        match value {
            0 => Some(NalType::Unspecified),
            1 => Some(NalType::Slice),
            2 => Some(NalType::Dpa),
            3 => Some(NalType::Dpb),
            4 => Some(NalType::Dpc),
            5 => Some(NalType::IdrSlice),
            6 => Some(NalType::Sei),
            7 => Some(NalType::Sps),
            8 => Some(NalType::Pps),
            9 => Some(NalType::Aud),
            10 => Some(NalType::EndSequence),
            11 => Some(NalType::EndStream),
            12 => Some(NalType::FillerData),
            13 => Some(NalType::SpsExt),
            14 => Some(NalType::Prefix),
            15 => Some(NalType::SubSps),
            16 => Some(NalType::Dps),
            17 => Some(NalType::Reserved17),
            18 => Some(NalType::Reserved18),
            19 => Some(NalType::AuxiliarySlice),
            20 => Some(NalType::ExtenSlice),
            21 => Some(NalType::DepthExtenSlice),
            22 => Some(NalType::Reserved22),
            23 => Some(NalType::Reserved23),
            24 => Some(NalType::Unspecified24),
            25 => Some(NalType::Unspecified25),
            26 => Some(NalType::Unspecified26),
            27 => Some(NalType::Unspecified27),
            28 => Some(NalType::Unspecified28),
            29 => Some(NalType::Unspecified29),
            30 => Some(NalType::Unspecified30),
            31 => Some(NalType::Unspecified31),
            _ => None,
        }
    }
}


/// The diagnostic name of each kind.
pub open spec fn spec_name(k: NalType) -> Seq<char> {
    match k {
        NalType::Unspecified => "Unspecified"@,
        NalType::Slice => "Slice"@,
        NalType::Dpa => "DPA"@,
        NalType::Dpb => "DPB"@,
        NalType::Dpc => "DPC"@,
        NalType::IdrSlice => "IDR Slice"@,
        NalType::Sei => "SEI"@,
        NalType::Sps => "SPS"@,
        NalType::Pps => "PPS"@,
        NalType::Aud => "AUD"@,
        NalType::EndSequence => "End Sequence"@,
        NalType::EndStream => "End Stream"@,
        NalType::FillerData => "Filler Data"@,
        NalType::SpsExt => "SPS Extension"@,
        NalType::Prefix => "Prefix"@,
        NalType::SubSps => "Subset SPS"@,
        NalType::Dps => "DPS"@,
        NalType::Reserved17 => "Reserved 17"@,
        NalType::Reserved18 => "Reserved 18"@,
        NalType::AuxiliarySlice => "Auxiliary Slice"@,
        NalType::ExtenSlice => "Extension Slice"@,
        NalType::DepthExtenSlice => "Depth Extension Slice"@,
        NalType::Reserved22 => "Reserved 22"@,
        NalType::Reserved23 => "Reserved 23"@,
        _ => "Unspecified"@,
    }
}

impl NalType {
    /// A stable human-readable name for diagnostics.
    pub fn name(&self) -> (r: &'static str)
        ensures
            r@ == spec_name(*self),
    {
        match self {
            NalType::Unspecified => "Unspecified",
            NalType::Slice => "Slice",
            NalType::Dpa => "DPA",
            NalType::Dpb => "DPB",
            NalType::Dpc => "DPC",
            NalType::IdrSlice => "IDR Slice",
            NalType::Sei => "SEI",
            NalType::Sps => "SPS",
            NalType::Pps => "PPS",
            NalType::Aud => "AUD",
            NalType::EndSequence => "End Sequence",
            NalType::EndStream => "End Stream",
            NalType::FillerData => "Filler Data",
            NalType::SpsExt => "SPS Extension",
            NalType::Prefix => "Prefix",
            NalType::SubSps => "Subset SPS",
            NalType::Dps => "DPS",
            NalType::Reserved17 => "Reserved 17",
            NalType::Reserved18 => "Reserved 18",
            NalType::AuxiliarySlice => "Auxiliary Slice",
            NalType::ExtenSlice => "Extension Slice",
            NalType::DepthExtenSlice => "Depth Extension Slice",
            NalType::Reserved22 => "Reserved 22",
            NalType::Reserved23 => "Reserved 23",
            _ => "Unspecified",
        }
    }
}

/// The kind of a unit payload: its first byte's low five bits, classified.
pub open spec fn unit_kind(u: Seq<u8>) -> NalType
    recommends
        u.len() > 0,
{
    kind_of_code((u[0] & 0x1F) as nat)
}


/// A NAL unit inside a caller-owned buffer: its kind and the index range
/// of its payload. The unit owns nothing; `start` and `len` index the
/// buffer it was read from.
#[derive(Debug, Clone, Copy, PartialEq, Eq, Structural)]
pub struct NalUnit {
    pub nal_type: NalType,
    pub start: usize,
    pub len: usize,
}

impl NalUnit {
    /// The payload bytes of this unit within its source buffer.
    pub open spec fn payload(self, stream: Seq<u8>) -> Seq<u8> {
        stream.subrange(self.start as int, self.start + self.len)
    }

    /// Reads one length-prefixed NAL unit from `stream` at `offset`:
    /// `length_size` big-endian bytes give the payload length, the payload
    /// follows. Returns the unit and the offset just past it, or `None`
    /// when fewer than `length_size` bytes remain, the declared length is
    /// zero, or the declared length overruns the buffer.
    pub fn from_stream(stream: &[u8], offset: usize, length_size: u8) -> (r: Option<(NalUnit, usize)>)
        requires
            1 <= length_size <= 4,
            offset <= stream@.len(),
        ensures
            ({
                let region = stream@.subrange(offset as int, stream@.len() as int);
                match spec_read_unit(region, length_size as nat) {
                    None => r is None,
                    Some((payload, used)) => {
                        &&& r matches Some((unit, next))
                        &&& unit.start == offset + length_size
                        &&& unit.len == payload.len()
                        &&& unit.payload(stream@) == payload
                        &&& unit.nal_type == unit_kind(payload)
                        &&& next == offset + used
                        &&& next <= stream@.len()
                    },
                }
            }),
    {
        let w = length_size as usize;
        let ghost region = stream@.subrange(offset as int, stream@.len() as int);
        if stream.len() - offset < w {
            return None;
        }
        let mut nal_size: u32 = 0;
        let mut k: usize = 0;
        while k < w
            invariant
                0 <= k <= w,
                w <= 4,
                offset + w <= stream@.len(),
                stream@.len() <= usize::MAX,
                region == stream@.subrange(offset as int, stream@.len() as int),
                nal_size == be_val(region.subrange(0, k as int)),
                nal_size < pow256(k as nat),
            decreases w - k,
        {
            proof {
                let pre = region.subrange(0, k as int);
                let ext = region.subrange(0, k + 1);
                assert(ext.drop_last() =~= pre);
                assert(ext.last() == stream@[offset + k]);
                assert(pow256(k as nat) * 256 == pow256((k + 1) as nat)) by {
                    assert(pow256((k + 1) as nat) == 256 * pow256(k as nat));
                }
                assert(nal_size * 256 + stream@[offset + k] < pow256((k + 1) as nat));
                assert(pow256((k + 1) as nat) <= pow256(4)) by {
                    lemma_pow256_mono((k + 1) as nat, 4);
                }
                assert(pow256(4) == 0x100000000) by {
                    reveal_with_fuel(pow256, 5);
                }
            }
            proof {
                assert(offset + k < stream@.len());
            }
            let b: u8 = stream[offset + k];
            nal_size = nal_size * 256 + (b as u32);
            k = k + 1;
        }
        proof {
            assert(region.subrange(0, w as int) =~= region.subrange(0, k as int));
        }
        if nal_size == 0 {
            return None;
        }
        let n = nal_size as usize;
        if stream.len() - (offset + w) < n {
            proof {
                assert(region.len() < w + nal_size);
            }
            return None;
        }
        let b0 = stream[offset + w];
        let code = b0 & 0x1F;
        proof {
            assert(code < 32) by (bit_vector) requires code == b0 & 0x1F;
        }
        let nal_type = match NalType::from_code(code) {
            Some(t) => t,
            None => { return None; },
        };
        let unit = NalUnit { nal_type, start: offset + w, len: n };
        proof {
            let payload = region.subrange(w as int, w + nal_size);
            assert(unit.payload(stream@) =~= payload);
            assert(payload[0] == stream@[offset + w]);
        }
        Some((unit, offset + w + n))
    }
}


impl NalUnit {
    /// The unit's kind.
    pub fn nal_type(&self) -> (t: NalType)
        ensures
            t == self.nal_type,
    {
        self.nal_type
    }

    /// The unit's payload as a borrowed slice of its source buffer.
    pub fn bytes<'a>(&self, stream: &'a [u8]) -> (r: &'a [u8])
        requires
            self.start + self.len <= stream@.len(),
        ensures
            r@ == self.payload(stream@),
    {
        let n = stream.len();
        proof {
            assert(self.start + self.len <= n);
        }
        slice_subrange(stream, self.start, self.start + self.len)
    }
}

} // verus!
