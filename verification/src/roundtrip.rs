//! The forward/inverse round trip: converting a packet to Annex-B and
//! back to length-prefixed form loses exactly the parameter-set and
//! auxiliary units — everything else survives byte for byte, in order.
use vstd::prelude::*;

use crate::annexb::dropped_kind;
use crate::annexb::encode_filtered;
use crate::annexb::inner_code;
use crate::annexb::inverse_convert;
use crate::annexb::lemma_scan_end_char;
use crate::annexb::outer_code4;
use crate::annexb::scan_units;
use crate::converter::ConverterModel;
use crate::converter::annexb_emit;
use crate::converter::idr_inserted;
use crate::converter::st_wf;
use crate::converter::start_code;
use crate::converter::step_state;
use crate::converter::step_units;
use crate::converter::stream_units;
use crate::framing::lemma_parse_units_wf;
use crate::framing::parse_units;
use crate::nal::NalType;
use crate::nal::unit_kind;

verus! {

/// No byte-aligned start-code pattern occurs inside the payload.
pub open spec fn no_start_code(u: Seq<u8>) -> bool {
    forall|k: int| 0 <= k && k + 3 <= u.len() ==> !(#[trigger] u[k] == 0 && u[k + 1] == 0 && u[k
        + 2] == 1)
}

/// Units fit for Annex-B framing: non-empty and free of start codes.
pub open spec fn framable(us: Seq<Seq<u8>>) -> bool {
    forall|i: int| 0 <= i < us.len() ==> (#[trigger] us[i]).len() > 0 && no_start_code(us[i])
}

/// A non-empty emission starts with the 4-byte start code and is at
/// least as long as the start code plus the first unit.
pub proof fn lemma_annexb_emit_head(us: Seq<Seq<u8>>)
    requires
        us.len() > 0,
    ensures
        annexb_emit(us).len() >= 4 + us[0].len(),
        annexb_emit(us)[0] == 0,
        annexb_emit(us)[1] == 0,
        annexb_emit(us)[2] == 0,
        annexb_emit(us)[3] == 1,
{
    let em = annexb_emit(us);
    let u = us[0];
    let tail = annexb_emit(us.drop_first());
    assert(em =~= (start_code() + u) + tail);
    assert forall|t: int| 0 <= t < 4 implies em[t] == start_code()[t] by {
        assert(((start_code() + u) + tail)[t] == (start_code() + u)[t]);
        assert((start_code() + u)[t] == start_code()[t]);
    }
}

/// Scanning a buffer whose suffix from `i` is the emission of framable
/// units recovers exactly those units.
pub proof fn lemma_scan_emitted_at(b: Seq<u8>, i: int, us: Seq<Seq<u8>>)
    requires
        0 <= i <= b.len(),
        b.subrange(i, b.len() as int) == annexb_emit(us),
        framable(us),
    ensures
        scan_units(b, i) == us,
    decreases us.len(),
{
    if us.len() == 0 {
        assert(annexb_emit(us).len() == 0);
        assert(i == b.len());
        assert(scan_units(b, i) =~= Seq::<Seq<u8>>::empty());
    } else {
        let u = us[0];
        let ul = u.len() as int;
        let tail = annexb_emit(us.drop_first());
        let em = annexb_emit(us);
        assert(em =~= (start_code() + u) + tail);
        let el = em.len() as int;
        assert(b.len() == i + el);
        assert forall|t: int| 0 <= t < el implies b[i + t] == em[t] by {
            assert(b.subrange(i, b.len() as int)[t] == b[i + t]);
        }
        lemma_annexb_emit_head(us);
        assert(outer_code4(b, i));
        let start = i + 4;
        let pstar = start + ul;
        assert(u.len() > 0);
        assert(start < b.len());
        assert forall|k: int| 0 <= k < ul implies b[start + k] == u[k] by {
            assert(em[4 + k] == ((start_code() + u) + tail)[4 + k]);
            assert(((start_code() + u) + tail)[4 + k] == (start_code() + u)[4 + k]);
            assert((start_code() + u)[4 + k] == u[k]);
        }
        let tl = tail.len() as int;
        assert forall|k: int| 0 <= k < tl implies b[pstar + k] == tail[k] by {
            assert(em[4 + ul + k] == ((start_code() + u) + tail)[4 + ul + k]);
        }
        if us.len() > 1 {
            assert(us.drop_first().len() > 0);
            lemma_annexb_emit_head(us.drop_first());
            assert(us.drop_first()[0] == us[1]);
            assert(tail.len() >= 4);
            assert(b[pstar] == 0 && b[pstar + 1] == 0 && b[pstar + 2] == 0 && b[pstar + 3] == 1);
            assert(inner_code(b, pstar));
        } else {
            assert(us.drop_first().len() == 0);
            assert(tail.len() == 0);
            assert(pstar == b.len());
        }
        assert(no_start_code(u));
        assert forall|p: int| start <= p < pstar implies !inner_code(b, p) by {
            let k = p - start;
            if inner_code(b, p) {
                assert(p + 4 <= b.len());
                if b[p] == 0 && b[p + 1] == 0 && b[p + 2] == 1 {
                    if k + 3 <= ul {
                        assert(b[start + k] == u[k]);
                        assert(b[start + (k + 1)] == u[k + 1]);
                        assert(b[start + (k + 2)] == u[k + 2]);
                        assert(!(u[k] == 0 && u[k + 1] == 0 && u[k + 2] == 1));
                        assert(false);
                    } else {
                        assert(k + 2 >= ul);
                        assert(k + 4 <= ul + tl);
                        assert(b[pstar + (k + 2 - ul)] == tail[k + 2 - ul]);
                        assert(k + 2 - ul < 2);
                        assert(tail[k + 2 - ul] == 0);
                        assert(false);
                    }
                } else {
                    assert(b[p] == 0 && b[p + 1] == 0 && b[p + 2] == 0 && b[p + 3] == 1);
                    if k + 4 <= ul {
                        assert(b[start + (k + 1)] == u[k + 1]);
                        assert(b[start + (k + 2)] == u[k + 2]);
                        assert(b[start + (k + 3)] == u[k + 3]);
                        assert(!(u[k + 1] == 0 && u[k + 2] == 0 && u[k + 3] == 1));
                        assert(false);
                    } else {
                        assert(k + 3 >= ul);
                        assert(k + 4 <= ul + tl);
                        assert(b[pstar + (k + 3 - ul)] == tail[k + 3 - ul]);
                        assert(k + 3 - ul < 3);
                        assert(tail[k + 3 - ul] == 0);
                        assert(false);
                    }
                }
            }
        }
        lemma_scan_end_char(b, start, pstar);
        assert(b.subrange(start, pstar) =~= u);
        assert(b.subrange(pstar, b.len() as int) =~= tail);
        assert forall|t: int| 0 <= t < us.drop_first().len() implies (#[trigger] us.drop_first()[
            t
        ]).len() > 0 && no_start_code(us.drop_first()[t]) by {
            assert(us.drop_first()[t] == us[t + 1]);
        }
        lemma_scan_emitted_at(b, pstar, us.drop_first());
        assert(scan_units(b, i) =~= seq![u] + us.drop_first());
        assert(seq![u] + us.drop_first() =~= us);
    }
}

pub proof fn lemma_encode_filtered_concat(a: Seq<Seq<u8>>, b: Seq<Seq<u8>>, w: nat)
    ensures
        encode_filtered(a + b, w) == encode_filtered(a, w) + encode_filtered(b, w),
    decreases a.len(),
{
    if a.len() == 0 {
        assert(a + b =~= b);
        assert(encode_filtered(a, w) + encode_filtered(b, w) =~= encode_filtered(b, w));
    } else {
        assert((a + b).drop_first() =~= a.drop_first() + b);
        assert((a + b)[0] == a[0]);
        lemma_encode_filtered_concat(a.drop_first(), b, w);
        let head = if dropped_kind(unit_kind(a[0])) {
            Seq::<u8>::empty()
        } else {
            crate::framing::be_bytes(w, a[0].len() as nat) + a[0]
        };
        assert(head + (encode_filtered(a.drop_first(), w) + encode_filtered(b, w)) =~= (head
            + encode_filtered(a.drop_first(), w)) + encode_filtered(b, w));
    }
}

/// A list made only of dropped kinds contributes nothing.
pub proof fn lemma_encode_filtered_dropped(us: Seq<Seq<u8>>, w: nat)
    requires
        forall|i: int| 0 <= i < us.len() ==> dropped_kind(unit_kind(#[trigger] us[i])),
    ensures
        encode_filtered(us, w) == Seq::<u8>::empty(),
    decreases us.len(),
{
    if us.len() > 0 {
        assert forall|i: int| 0 <= i < us.drop_first().len() implies dropped_kind(
            unit_kind(#[trigger] us.drop_first()[i]),
        ) by {
            assert(us.drop_first()[i] == us[i + 1]);
        }
        lemma_encode_filtered_dropped(us.drop_first(), w);
        assert(encode_filtered(us, w) =~= Seq::<u8>::empty());
    }
}

/// Every stored set is of a kind the inverse converter removes.
pub open spec fn parameter_kinds(sets: Seq<Seq<u8>>) -> bool {
    forall|i: int| 0 <= i < sets.len() ==> dropped_kind(unit_kind(#[trigger] sets[i]))
}

/// The filtered re-encoding of what the converter emits equals the
/// filtered re-encoding of the incoming units themselves: the inserted
/// sets all carry dropped kinds, so the filter removes exactly them.
pub proof fn lemma_stream_filter(st: ConverterModel, us: Seq<Seq<u8>>, w: nat)
    requires
        parameter_kinds(st.sps),
        parameter_kinds(st.pps),
    ensures
        encode_filtered(stream_units(st, us), w) == encode_filtered(us, w),
    decreases us.len(),
{
    if us.len() > 0 {
        let u = us[0];
        let st1 = step_state(st, u);
        let rest = us.drop_first();
        lemma_encode_filtered_concat(step_units(st, u), stream_units(st1, rest), w);
        if unit_kind(u) == NalType::IdrSlice {
            let ins = idr_inserted(st, u);
            assert forall|i: int| 0 <= i < ins.len() implies dropped_kind(
                unit_kind(#[trigger] ins[i]),
            ) by {
                if ins == st.sps + st.pps {
                    if i < st.sps.len() {
                        assert(ins[i] == st.sps[i]);
                    } else {
                        assert(ins[i] == st.pps[i - st.sps.len()]);
                    }
                } else {
                    assert(ins == st.pps || ins == Seq::<Seq<u8>>::empty());
                }
            }
            lemma_encode_filtered_concat(ins, seq![u], w);
            lemma_encode_filtered_dropped(ins, w);
            assert(encode_filtered(step_units(st, u), w) =~= encode_filtered(seq![u], w));
        }
        assert(st1.sps == st.sps && st1.pps == st.pps);
        lemma_stream_filter(st1, rest, w);
        assert(seq![u].drop_first() =~= Seq::<Seq<u8>>::empty());
        assert(encode_filtered(Seq::<Seq<u8>>::empty(), w) =~= Seq::<u8>::empty());
        assert(encode_filtered(stream_units(st, us), w) =~= encode_filtered(us, w));
    }
}

/// What the converter emits is framable whenever the stored sets and the
/// incoming units are.
pub proof fn lemma_stream_units_framable(st: ConverterModel, us: Seq<Seq<u8>>)
    requires
        framable(st.sps),
        framable(st.pps),
        framable(us),
    ensures
        framable(stream_units(st, us)),
    decreases us.len(),
{
    if us.len() > 0 {
        let u = us[0];
        let st1 = step_state(st, u);
        let rest = us.drop_first();
        assert forall|t: int| 0 <= t < rest.len() implies (#[trigger] rest[t]).len() > 0
            && no_start_code(rest[t]) by {
            assert(rest[t] == us[t + 1]);
        }
        assert(st1.sps == st.sps && st1.pps == st.pps);
        lemma_stream_units_framable(st1, rest);
        let su = step_units(st, u);
        assert(u.len() > 0 && no_start_code(u));
        assert forall|t: int| 0 <= t < su.len() implies (#[trigger] su[t]).len() > 0
            && no_start_code(su[t]) by {
            if unit_kind(u) == NalType::IdrSlice {
                let ins = idr_inserted(st, u);
                if t < ins.len() {
                    assert(su[t] == ins[t]);
                    if ins == st.sps + st.pps {
                        if t < st.sps.len() {
                            assert(ins[t] == st.sps[t]);
                        } else {
                            assert(ins[t] == st.pps[t - st.sps.len()]);
                        }
                    } else {
                        assert(ins == st.pps || ins == Seq::<Seq<u8>>::empty());
                    }
                } else {
                    assert(su[t] == u);
                }
            } else {
                assert(su[t] == u);
            }
        }
        let all = stream_units(st, us);
        assert(all == su + stream_units(st1, rest));
        assert forall|t: int| 0 <= t < all.len() implies (#[trigger] all[t]).len() > 0
            && no_start_code(all[t]) by {
            if t < su.len() {
                assert(all[t] == su[t]);
            } else {
                assert(all[t] == stream_units(st1, rest)[t - su.len()]);
            }
        }
    }
}

/// Round trip: converting a packet forward to Annex-B and then back to
/// length-prefixed form with the same width reconstructs exactly the
/// packet's own units minus the parameter-set and auxiliary kinds, each
/// with its original payload, in the original order — the sets the
/// forward path inserted are all removed again. Holds whenever the
/// stored sets carry parameter-set kinds and no payload contains a
/// byte-aligned start-code pattern.
pub proof fn lemma_round_trip(st: ConverterModel, packet: Seq<u8>)
    requires
        st_wf(st),
        framable(st.sps),
        framable(st.pps),
        parameter_kinds(st.sps),
        parameter_kinds(st.pps),
        forall|i: int| 0 <= i < parse_units(packet, st.length_size).len() ==> no_start_code(
            #[trigger] parse_units(packet, st.length_size)[i],
        ),
    ensures
        inverse_convert(
            annexb_emit(stream_units(st, parse_units(packet, st.length_size))),
            st.length_size,
        ) == encode_filtered(parse_units(packet, st.length_size), st.length_size),
{
    let w = st.length_size;
    let us = parse_units(packet, w);
    lemma_parse_units_wf(packet, w);
    assert(framable(us));
    lemma_stream_units_framable(st, us);
    let emitted = stream_units(st, us);
    let em = annexb_emit(emitted);
    assert(em.subrange(0, em.len() as int) =~= em);
    lemma_scan_emitted_at(em, 0, emitted);
    lemma_stream_filter(st, us, w);
}

} // verus!
