//! The stateful stream converter: rewrites length-prefixed packets into
//! Annex-B form, inserting the stored parameter sets ahead of key
//! pictures exactly when the insertion policy requires.
use vstd::prelude::*;

use crate::avcc::AvccInfo;
use crate::avcc::AvccModel;
use crate::framing::copy_range;
use crate::framing::parse_units;
use crate::framing::push_range;
use crate::framing::spec_read_unit;
use crate::nal::NalType;
use crate::nal::NalUnit;
use crate::nal::unit_kind;

verus! {

/// The mathematical state of a converter: the length-field width, the
/// stored parameter sets, and the three insertion-progress flags.
pub struct ConverterModel {
    pub length_size: nat,
    pub sps: Seq<Seq<u8>>,
    pub pps: Seq<Seq<u8>>,
    pub new_idr: bool,
    pub sps_seen: bool,
    pub pps_seen: bool,
}

/// The 4-byte Annex-B start code.
pub open spec fn start_code() -> Seq<u8> {
    seq![0u8, 0u8, 0u8, 1u8]
}

/// One unit as emitted in Annex-B form.
pub open spec fn annexb_unit(u: Seq<u8>) -> Seq<u8> {
    start_code() + u
}

/// A list of units emitted in Annex-B form, in order.
pub open spec fn annexb_emit(us: Seq<Seq<u8>>) -> Seq<u8>
    decreases us.len(),
{
    if us.len() == 0 {
        Seq::empty()
    } else {
        annexb_unit(us[0]) + annexb_emit(us.drop_first())
    }
}

pub proof fn lemma_annexb_emit_concat(a: Seq<Seq<u8>>, b: Seq<Seq<u8>>)
    ensures
        annexb_emit(a + b) == annexb_emit(a) + annexb_emit(b),
    decreases a.len(),
{
    if a.len() == 0 {
        assert(a + b =~= b);
        assert(annexb_emit(a) + annexb_emit(b) =~= annexb_emit(b));
    } else {
        assert((a + b).drop_first() =~= a.drop_first() + b);
        lemma_annexb_emit_concat(a.drop_first(), b);
        assert((a + b)[0] == a[0]);
        assert(annexb_unit(a[0]) + (annexb_emit(a.drop_first()) + annexb_emit(b)) =~= (annexb_unit(
            a[0],
        ) + annexb_emit(a.drop_first())) + annexb_emit(b));
    }
}

pub proof fn lemma_annexb_emit_one(u: Seq<u8>)
    ensures
        annexb_emit(seq![u]) == annexb_unit(u),
{
    assert(annexb_emit(Seq::<Seq<u8>>::empty()) == Seq::<u8>::empty());
    assert(seq![u].drop_first() =~= Seq::<Seq<u8>>::empty());
    assert(seq![u][0] == u);
    assert(annexb_unit(u) + Seq::<u8>::empty() =~= annexb_unit(u));
}

/// The resynchronization test: a key-picture unit whose second byte has
/// its top bit set begins a new picture even though the previous one was
/// never closed out.
pub open spec fn resync(st: ConverterModel, u: Seq<u8>) -> bool {
    !st.new_idr && u.len() > 1 && u[1] & 0x80 != 0
}

/// The parameter sets inserted ahead of a key-picture unit: all primary
/// then all supplementary sets if neither kind has been seen for the
/// in-flight picture, only the supplementary sets if just the primary
/// kind was seen, and nothing otherwise.
pub open spec fn idr_inserted(st: ConverterModel, u: Seq<u8>) -> Seq<Seq<u8>> {
    let nid = st.new_idr || resync(st, u);
    if nid && !st.sps_seen && !st.pps_seen {
        st.sps + st.pps
    } else if nid && st.sps_seen && !st.pps_seen {
        st.pps
    } else {
        Seq::empty()
    }
}

/// The units emitted for one incoming unit: inserted parameter sets, if
/// any, then the unit itself, unconditionally.
pub open spec fn step_units(st: ConverterModel, u: Seq<u8>) -> Seq<Seq<u8>> {
    if unit_kind(u) == NalType::IdrSlice {
        idr_inserted(st, u) + seq![u]
    } else {
        seq![u]
    }
}

/// The converter state after one incoming unit.
pub open spec fn step_state(st: ConverterModel, u: Seq<u8>) -> ConverterModel {
    if unit_kind(u) == NalType::Sps {
        ConverterModel { sps_seen: true, ..st }
    } else if unit_kind(u) == NalType::Pps {
        ConverterModel { pps_seen: true, ..st }
    } else if unit_kind(u) == NalType::IdrSlice {
        let nid = st.new_idr || resync(st, u);
        ConverterModel { new_idr: if nid && !st.pps_seen { false } else { nid }, ..st }
    } else if unit_kind(u) == NalType::Slice && !st.new_idr {
        ConverterModel { new_idr: true, sps_seen: false, pps_seen: false, ..st }
    } else {
        st
    }
}

/// All units emitted for a list of incoming units.
pub open spec fn stream_units(st: ConverterModel, us: Seq<Seq<u8>>) -> Seq<Seq<u8>>
    decreases us.len(),
{
    if us.len() == 0 {
        Seq::empty()
    } else {
        step_units(st, us[0]) + stream_units(step_state(st, us[0]), us.drop_first())
    }
}

/// The converter state after a list of incoming units.
pub open spec fn final_state(st: ConverterModel, us: Seq<Seq<u8>>) -> ConverterModel
    decreases us.len(),
{
    if us.len() == 0 {
        st
    } else {
        final_state(step_state(st, us[0]), us.drop_first())
    }
}

/// Well-formedness of a converter state: the width lies in 1..=4 and
/// every stored parameter set is non-empty.
pub open spec fn st_wf(st: ConverterModel) -> bool {
    &&& 1 <= st.length_size <= 4
    &&& forall|i: int| 0 <= i < st.sps.len() ==> (#[trigger] st.sps[i]).len() >= 1
    &&& forall|i: int| 0 <= i < st.pps.len() ==> (#[trigger] st.pps[i]).len() >= 1
}

/// Converting units never changes the width or the stored sets.
pub proof fn lemma_final_state_config(st: ConverterModel, us: Seq<Seq<u8>>)
    ensures
        final_state(st, us).length_size == st.length_size,
        final_state(st, us).sps == st.sps,
        final_state(st, us).pps == st.pps,
    decreases us.len(),
{
    if us.len() > 0 {
        lemma_final_state_config(step_state(st, us[0]), us.drop_first());
    }
}

/// The converter state right after a configuration snapshot is installed.
pub open spec fn reset_state(m: AvccModel) -> ConverterModel {
    ConverterModel {
        length_size: m.length_size,
        sps: m.sps,
        pps: m.pps,
        new_idr: true,
        sps_seen: false,
        pps_seen: false,
    }
}

/// A fresh copy of `v@`.
fn copy_vec(v: &Vec<u8>) -> (r: Vec<u8>)
    ensures
        r@ == v@,
{
    let r = copy_range(v.as_slice(), 0, v.len());
    proof {
        assert(v@.subrange(0, v@.len() as int) =~= v@);
    }
    r
}

/// The deep view of a byte vector is its view.
proof fn lemma_vec_u8_deep_view(v: Vec<u8>)
    ensures
        v.deep_view() == v@,
{
    assert(v.deep_view() =~= v@);
}

/// A fresh deep copy of a list of parameter sets.
fn copy_sets(sets: &Vec<Vec<u8>>) -> (r: Vec<Vec<u8>>)
    ensures
        r.deep_view() == sets.deep_view(),
{
    let mut r: Vec<Vec<u8>> = Vec::new();
    let mut i: usize = 0;
    while i < sets.len()
        invariant
            i <= sets@.len(),
            r@.len() == i,
            forall|j: int| 0 <= j < i ==> (#[trigger] r@[j])@ == sets@[j]@,
        decreases sets@.len() - i,
    {
        let entry = copy_vec(&sets[i]);
        r.push(entry);
        i = i + 1;
    }
    proof {
        assert forall|j: int| 0 <= j < r@.len() implies #[trigger] r.deep_view()[j]
            == sets.deep_view()[j] by {
            lemma_vec_u8_deep_view(r@[j]);
            lemma_vec_u8_deep_view(sets@[j]);
        }
        assert(r.deep_view() =~= sets.deep_view());
    }
    r
}

/// Appends the 4-byte Annex-B start code to `out`.
fn push_start_code(out: &mut Vec<u8>)
    ensures
        final(out)@ == old(out)@ + start_code(),
{
    out.push(0);
    out.push(0);
    out.push(0);
    out.push(1);
    proof {
        assert(out@ =~= old(out)@ + start_code());
    }
}

/// Appends every set in `sets`, each preceded by a start code, to `out`.
fn emit_annexb_sets(out: &mut Vec<u8>, sets: &Vec<Vec<u8>>)
    ensures
        final(out)@ == old(out)@ + annexb_emit(sets.deep_view()),
{
    let ghost dv = sets.deep_view();
    let mut j: usize = 0;
    proof {
        assert(annexb_emit(dv.take(0)) =~= Seq::<u8>::empty());
        assert(out@ =~= old(out)@ + annexb_emit(dv.take(0)));
    }
    while j < sets.len()
        invariant
            j <= sets@.len(),
            dv == sets.deep_view(),
            out@ == old(out)@ + annexb_emit(dv.take(j as int)),
        decreases sets@.len() - j,
    {
        push_start_code(out);
        let entry = &sets[j];
        push_range(out, entry.as_slice(), 0, entry.len());
        proof {
            assert(entry@.subrange(0, entry@.len() as int) =~= entry@);
            assert(entry@ =~= dv[j as int]);
            assert(dv.take(j + 1) =~= dv.take(j as int).push(dv[j as int]));
            lemma_annexb_emit_snoc(dv.take(j as int), dv[j as int]);
            assert(out@ =~= old(out)@ + annexb_emit(dv.take(j + 1)));
        }
        j = j + 1;
    }
    proof {
        assert(dv.take(sets@.len() as int) =~= dv);
    }
}

pub proof fn lemma_annexb_emit_snoc(us: Seq<Seq<u8>>, u: Seq<u8>)
    ensures
        annexb_emit(us.push(u)) == annexb_emit(us) + annexb_unit(u),
{
    assert(us.push(u) =~= us + seq![u]);
    lemma_annexb_emit_concat(us, seq![u]);
    lemma_annexb_emit_one(u);
}

/// Converter from length-prefixed NAL unit packets to the Annex-B form a
/// decoder expects. It owns per-stream state and inserts the stored
/// parameter sets ahead of key pictures when they are required for the
/// stream to stay self-describing.
pub struct BitstreamConverter {
    length_size: u8,
    sps: Vec<Vec<u8>>,
    pps: Vec<Vec<u8>>,
    new_idr: bool,
    sps_seen: bool,
    pps_seen: bool,
}

impl View for BitstreamConverter {
    type V = ConverterModel;

    closed spec fn view(&self) -> ConverterModel {
        ConverterModel {
            length_size: self.length_size as nat,
            sps: self.sps.deep_view(),
            pps: self.pps.deep_view(),
            new_idr: self.new_idr,
            sps_seen: self.sps_seen,
            pps_seen: self.pps_seen,
        }
    }
}

impl BitstreamConverter {
    /// Creates a converter from a parsed configuration record, with the
    /// flags in their initial state.
    pub fn from_avcc(avcc_info: &AvccInfo) -> (r: BitstreamConverter)
        requires
            st_wf(reset_state(avcc_info@)),
        ensures
            r@ == reset_state(avcc_info@),
            st_wf(r@),
    {
        BitstreamConverter {
            length_size: avcc_info.length_size,
            sps: copy_sets(&avcc_info.sps),
            pps: copy_sets(&avcc_info.pps),
            new_idr: true,
            sps_seen: false,
            pps_seen: false,
        }
    }

    /// Installs a new configuration snapshot: replaces the width and both
    /// parameter-set lists and resets all three flags, so that the next
    /// key picture receives a fresh full insertion.
    pub fn update_avcc(&mut self, avcc_info: &AvccInfo)
        requires
            st_wf(reset_state(avcc_info@)),
        ensures
            final(self)@ == reset_state(avcc_info@),
            st_wf(final(self)@),
    {
        self.length_size = avcc_info.length_size;
        self.sps = copy_sets(&avcc_info.sps);
        self.pps = copy_sets(&avcc_info.pps);
        self.new_idr = true;
        self.sps_seen = false;
        self.pps_seen = false;
    }

    /// The number of bytes of each unit's length prefix.
    pub fn length_size(&self) -> (w: u8)
        ensures
            w as nat == self@.length_size,
    {
        self.length_size
    }

    /// Converts one length-prefixed packet to Annex-B form. `out` is
    /// cleared and then receives, for each unit the packet parses to, the
    /// parameter sets the insertion policy owes followed by the unit
    /// itself, each with a 4-byte start code; the state advances over the
    /// same units. An unparsable tail contributes nothing.
    #[verifier::rlimit(100)]
    pub fn convert_packet(&mut self, packet: &[u8], out: &mut Vec<u8>)
        requires
            st_wf(old(self)@),
        ensures
            final(out)@ == annexb_emit(
                stream_units(old(self)@, parse_units(packet@, old(self)@.length_size)),
            ),
            final(self)@ == final_state(old(self)@, parse_units(packet@, old(self)@.length_size)),
            st_wf(final(self)@),
    {
        let ghost st0 = self@;
        let ghost w = st0.length_size;
        let ghost full = parse_units(packet@, w);
        out.clear();
        let packet_len = packet.len();
        let mut offset: usize = 0;
        proof {
            assert(packet@.subrange(0, packet@.len() as int) =~= packet@);
            assert(out@ =~= Seq::<u8>::empty());
        }
        while offset < packet_len
            invariant
                offset <= packet@.len(),
                packet_len == packet@.len(),
                self@.length_size == w,
                self@.sps == st0.sps,
                self@.pps == st0.pps,
                st_wf(self@),
                self.length_size as nat == w,
                annexb_emit(stream_units(st0, full)) == out@ + annexb_emit(
                    stream_units(
                        self@,
                        parse_units(
                            packet@.subrange(offset as int, packet@.len() as int),
                            w,
                        ),
                    ),
                ),
                final_state(st0, full) == final_state(
                    self@,
                    parse_units(packet@.subrange(offset as int, packet@.len() as int), w),
                ),
            decreases packet@.len() - offset,
        {
            let ghost st_pre = self@;
            let ghost region = packet@.subrange(offset as int, packet@.len() as int);
            let ghost rest = parse_units(region, w);
            match NalUnit::from_stream(packet, offset, self.length_size) {
                None => {
                    proof {
                        assert(rest =~= Seq::<Seq<u8>>::empty());
                        assert(stream_units(self@, rest) =~= Seq::<Seq<u8>>::empty());
                        assert(packet@.subrange(packet_len as int, packet@.len() as int)
                            =~= Seq::<u8>::empty());
                        assert(parse_units(Seq::<u8>::empty(), w) =~= Seq::<Seq<u8>>::empty());
                        assert(annexb_emit(Seq::<Seq<u8>>::empty()) =~= Seq::<u8>::empty());
                    }
                    offset = packet_len;
                },
                Some((unit, next)) => {
                    let ghost u = unit.payload(packet@);
                    let ghost used = (spec_read_unit(region, w)->Some_0).1;
                    let ghost rest2 = parse_units(
                        packet@.subrange(next as int, packet@.len() as int),
                        w,
                    );
                    proof {
                        assert(region.subrange(used, region.len() as int) =~= packet@.subrange(
                            next as int,
                            packet@.len() as int,
                        ));
                        assert(rest == seq![u] + rest2);
                        assert((seq![u] + rest2)[0] == u);
                        assert((seq![u] + rest2).drop_first() =~= rest2);
                        assert(offset < next);
                    }
                    let ghost out_pre = out@;
                    match unit.nal_type() {
                        NalType::Sps => {
                            self.sps_seen = true;
                        },
                        NalType::Pps => {
                            self.pps_seen = true;
                        },
                        NalType::IdrSlice => {
                            if !self.new_idr && unit.len > 1 {
                                let b1 = packet[unit.start + 1];
                                proof {
                                    assert(u[1] == packet@[unit.start + 1]);
                                }
                                if b1 & 0x80 != 0 {
                                    self.new_idr = true;
                                }
                            }
                            proof {
                                assert(self@.new_idr == (st_pre.new_idr || resync(st_pre, u)));
                            }
                            if self.new_idr && !self.sps_seen && !self.pps_seen {
                                self.new_idr = false;
                                emit_annexb_sets(out, &self.sps);
                                emit_annexb_sets(out, &self.pps);
                                proof {
                                    lemma_annexb_emit_concat(st_pre.sps, st_pre.pps);
                                    assert(out@ =~= out_pre + annexb_emit(
                                        idr_inserted(st_pre, u),
                                    ));
                                }
                            } else if self.new_idr && self.sps_seen && !self.pps_seen {
                                self.new_idr = false;
                                emit_annexb_sets(out, &self.pps);
                                proof {
                                    assert(out@ =~= out_pre + annexb_emit(
                                        idr_inserted(st_pre, u),
                                    ));
                                }
                            } else {
                                proof {
                                    assert(annexb_emit(idr_inserted(st_pre, u))
                                        =~= Seq::<u8>::empty());
                                    assert(out@ =~= out_pre + annexb_emit(
                                        idr_inserted(st_pre, u),
                                    ));
                                }
                            }
                        },
                        _ => {},
                    }
                    let ghost out_mid = out@;
                    push_start_code(out);
                    push_range(out, packet, unit.start, unit.start + unit.len);
                    proof {
                        assert(out@ =~= out_mid + annexb_unit(u));
                    }
                    if !self.new_idr {
                        let is_slice = match unit.nal_type() {
                            NalType::Slice => true,
                            _ => false,
                        };
                        if is_slice {
                            self.new_idr = true;
                            self.sps_seen = false;
                            self.pps_seen = false;
                        }
                    }
                    proof {
                        assert(self@ == step_state(st_pre, u));
                        if unit_kind(u) == NalType::IdrSlice {
                            lemma_annexb_emit_concat(idr_inserted(st_pre, u), seq![u]);
                            lemma_annexb_emit_one(u);
                            assert(out@ =~= out_pre + annexb_emit(step_units(st_pre, u)));
                        } else {
                            lemma_annexb_emit_one(u);
                            assert(out@ =~= out_pre + annexb_emit(step_units(st_pre, u)));
                        }
                        assert(stream_units(st_pre, rest) == step_units(st_pre, u)
                            + stream_units(self@, rest2));
                        lemma_annexb_emit_concat(step_units(st_pre, u), stream_units(self@, rest2));
                        assert(out_pre + (annexb_emit(step_units(st_pre, u)) + annexb_emit(
                            stream_units(self@, rest2),
                        )) =~= out@ + annexb_emit(stream_units(self@, rest2)));
                        assert(final_state(st_pre, rest) == final_state(self@, rest2));
                    }
                    offset = next;
                },
            }
        }
        proof {
            let tailu = parse_units(packet@.subrange(offset as int, packet@.len() as int), w);
            assert(packet@.subrange(offset as int, packet@.len() as int) =~= Seq::<u8>::empty());
            assert(tailu =~= Seq::<Seq<u8>>::empty());
            assert(annexb_emit(stream_units(self@, tailu)) =~= Seq::<u8>::empty());
            assert(out@ =~= annexb_emit(stream_units(st0, full)));
        }
    }
}


/// A converter state that owes no further insertion for the in-flight
/// picture: if it still awaits one, the supplementary kind was seen.
pub open spec fn insertion_settled(st: ConverterModel) -> bool {
    st.new_idr ==> st.pps_seen
}

/// In a settled state, further key-picture units of the same picture
/// (first-macroblock bit unset) emit only themselves and leave the state
/// unchanged.
pub proof fn lemma_settled_idr_run(st: ConverterModel, us: Seq<Seq<u8>>)
    requires
        insertion_settled(st),
        forall|i: int| 0 <= i < us.len() ==> {
            &&& (#[trigger] us[i]).len() > 0
            &&& unit_kind(us[i]) == NalType::IdrSlice
            &&& !(us[i].len() > 1 && us[i][1] & 0x80 != 0)
        },
    ensures
        stream_units(st, us) == us,
        final_state(st, us) == st,
    decreases us.len(),
{
    if us.len() > 0 {
        let u = us[0];
        assert(!resync(st, u));
        assert(idr_inserted(st, u) =~= Seq::<Seq<u8>>::empty());
        assert(step_state(st, u) == st);
        assert(step_units(st, u) =~= seq![u]);
        lemma_settled_idr_run(st, us.drop_first());
        assert(stream_units(st, us) =~= seq![u] + us.drop_first());
        assert(seq![u] + us.drop_first() =~= us);
    }
}

/// Insertion happens at most once for a run of consecutive key-picture
/// units that belong to one picture: whatever the starting state, the
/// parameter sets appear only ahead of the run's first unit, and every
/// later unit of the run is emitted bare.
pub proof fn lemma_insertion_at_most_once(st: ConverterModel, us: Seq<Seq<u8>>)
    requires
        us.len() >= 1,
        forall|i: int| 0 <= i < us.len() ==> {
            &&& (#[trigger] us[i]).len() > 0
            &&& unit_kind(us[i]) == NalType::IdrSlice
        },
        forall|i: int| 1 <= i < us.len() ==> !((#[trigger] us[i]).len() > 1 && us[i][1] & 0x80
            != 0),
    ensures
        stream_units(st, us) == step_units(st, us[0]) + us.drop_first(),
{
    let u = us[0];
    let st1 = step_state(st, u);
    assert(insertion_settled(st1));
    assert forall|i: int| 0 <= i < us.drop_first().len() implies {
        &&& (#[trigger] us.drop_first()[i]).len() > 0
        &&& unit_kind(us.drop_first()[i]) == NalType::IdrSlice
        &&& !(us.drop_first()[i].len() > 1 && us.drop_first()[i][1] & 0x80 != 0)
    } by {
        assert(us.drop_first()[i] == us[i + 1]);
    }
    lemma_settled_idr_run(st1, us.drop_first());
}

/// After a configuration update the state is reset, so the next key
/// picture receives a fresh, full parameter-set insertion whatever the
/// flags were before: every stored primary set, then every stored
/// supplementary set, then the unit itself.
pub proof fn lemma_reset_gives_full_insertion(m: AvccModel, u: Seq<u8>)
    requires
        u.len() > 0,
        unit_kind(u) == NalType::IdrSlice,
    ensures
        step_units(reset_state(m), u) == (m.sps + m.pps) + seq![u],
{
}

} // verus!
