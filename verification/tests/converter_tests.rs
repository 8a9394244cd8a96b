use bitstream_converter::annexb::convert_annexb_to_length_prefixed;
use bitstream_converter::avcc::AvccError;
use bitstream_converter::avcc::AvccInfo;
use bitstream_converter::converter::BitstreamConverter;
use bitstream_converter::nal::NalType;
use bitstream_converter::nal::NalUnit;

fn demo_record() -> Vec<u8> {
    // version, profile, compat, level, width byte (low 2 bits = 3 -> width 4),
    // SPS count byte (low 5 bits = 1), SPS len 3, SPS bytes, PPS count 1,
    // PPS len 2, PPS bytes.
    vec![
        0x01, 0x64, 0x00, 0x1F, 0xFF, 0xE1, 0x00, 0x03, 0x67, 0x01, 0x02, 0x01, 0x00, 0x02, 0x68,
        0x03,
    ]
}

#[test]
fn parse_record_recovers_width_and_sets() {
    let info = AvccInfo::from_avcc(&demo_record()).unwrap();
    assert_eq!(info.length_size, 4);
    assert_eq!(info.sps, vec![vec![0x67, 0x01, 0x02]]);
    assert_eq!(info.pps, vec![vec![0x68, 0x03]]);
}

#[test]
fn parse_record_many_sets_and_drops_empty_entries() {
    // Two SPS entries with an empty one between them, two PPS entries.
    let record = vec![
        0x01, 0x42, 0x00, 0x1E, 0x01, 0x03, // width 2, 3 SPS entries
        0x00, 0x02, 0x67, 0xAA, // SPS 1
        0x00, 0x00, // empty SPS entry, dropped
        0x00, 0x01, 0x67, // SPS 2
        0x02, // 2 PPS entries
        0x00, 0x01, 0x68, // PPS 1
        0x00, 0x02, 0x68, 0xBB, // PPS 2
    ];
    let info = AvccInfo::from_avcc(&record).unwrap();
    assert_eq!(info.length_size, 2);
    assert_eq!(info.sps, vec![vec![0x67, 0xAA], vec![0x67]]);
    assert_eq!(info.pps, vec![vec![0x68], vec![0x68, 0xBB]]);
}

#[test]
fn record_shorter_than_seven_bytes_is_too_short() {
    assert_eq!(AvccInfo::from_avcc(&[1, 2, 3]).unwrap_err(), AvccError::TooShort);
    assert_eq!(AvccInfo::from_avcc(&[]).unwrap_err(), AvccError::TooShort);
}

#[test]
fn record_with_overrunning_entry_is_truncated() {
    // Header claims one SPS whose 2-byte length cannot even be read.
    let record = vec![0x01, 0x42, 0x00, 0x1E, 0x03, 0x01, 0x00];
    assert_eq!(AvccInfo::from_avcc(&record).unwrap_err(), AvccError::Truncated);
    // Entry length runs past the end of the record.
    let record2 = vec![0x01, 0x42, 0x00, 0x1E, 0x03, 0x01, 0x00, 0x09, 0x67];
    assert_eq!(AvccInfo::from_avcc(&record2).unwrap_err(), AvccError::Truncated);
    // Missing PPS count byte after the SPS list.
    let record3 = vec![0x01, 0x42, 0x00, 0x1E, 0x03, 0x01, 0x00, 0x01, 0x67];
    assert_eq!(AvccInfo::from_avcc(&record3).unwrap_err(), AvccError::Truncated);
}

#[test]
fn unit_reader_walks_units_in_order() {
    // Width 2: an IDR slice of 3 bytes then an SEI of 2 bytes.
    let stream = [0x00, 0x03, 0x65, 0x88, 0x99, 0x00, 0x02, 0x06, 0x05];
    let (u1, next1) = NalUnit::from_stream(&stream, 0, 2).unwrap();
    assert_eq!(u1.nal_type(), NalType::IdrSlice);
    assert_eq!(u1.bytes(&stream), &[0x65u8, 0x88, 0x99][..]);
    let (u2, next2) = NalUnit::from_stream(&stream, next1, 2).unwrap();
    assert_eq!(u2.nal_type(), NalType::Sei);
    assert_eq!(u2.bytes(&stream), &[0x06u8, 0x05][..]);
    assert_eq!(next2, stream.len());
    assert!(NalUnit::from_stream(&stream, next2, 2).is_none());
}

#[test]
fn unit_reader_rejects_zero_and_overlong_lengths() {
    assert!(NalUnit::from_stream(&[0x00, 0x00, 0x41], 0, 2).is_none());
    assert!(NalUnit::from_stream(&[0x00, 0x09, 0x41], 0, 2).is_none());
    assert!(NalUnit::from_stream(&[0x00], 0, 2).is_none());
}

#[test]
fn key_picture_gets_full_insertion() {
    let info = AvccInfo::from_avcc(&demo_record()).unwrap();
    let mut conv = BitstreamConverter::from_avcc(&info);
    assert_eq!(conv.length_size(), 4);
    let packet = [0x00, 0x00, 0x00, 0x02, 0x65, 0x88];
    let mut out = Vec::new();
    conv.convert_packet(&packet, &mut out);
    let expected = [
        0, 0, 0, 1, 0x67, 0x01, 0x02, // inserted SPS
        0, 0, 0, 1, 0x68, 0x03, // inserted PPS
        0, 0, 0, 1, 0x65, 0x88, // the key unit itself
    ];
    assert_eq!(out, expected);
}

#[test]
fn no_reinsertion_within_same_picture() {
    // A second key unit whose first-macroblock bit is unset continues the
    // same picture: no parameter sets are inserted again.
    let info = AvccInfo::from_avcc(&demo_record()).unwrap();
    let mut conv = BitstreamConverter::from_avcc(&info);
    let packet = [
        0x00, 0x00, 0x00, 0x02, 0x65, 0x88, // key unit, new picture
        0x00, 0x00, 0x00, 0x02, 0x65, 0x00, // key unit, same picture
    ];
    let mut out = Vec::new();
    conv.convert_packet(&packet, &mut out);
    let expected = [
        0, 0, 0, 1, 0x67, 0x01, 0x02, 0, 0, 0, 1, 0x68, 0x03, 0, 0, 0, 1, 0x65, 0x88, 0, 0, 0, 1,
        0x65, 0x00,
    ];
    assert_eq!(out, expected);
}

#[test]
fn resync_bit_starts_a_new_picture_and_inserts_again() {
    // A later key unit whose first-macroblock bit is set begins a new key
    // picture; since no parameter-set units were seen in between, the
    // sets are inserted ahead of it again.
    let info = AvccInfo::from_avcc(&demo_record()).unwrap();
    let mut conv = BitstreamConverter::from_avcc(&info);
    let packet = [0x00, 0x00, 0x00, 0x02, 0x65, 0x88];
    let mut out = Vec::new();
    conv.convert_packet(&packet, &mut out);
    let mut out2 = Vec::new();
    conv.convert_packet(&packet, &mut out2);
    assert_eq!(out2, out);
}

#[test]
fn seen_parameter_sets_suppress_insertion() {
    // The packet itself carries SPS and PPS units before the key unit, so
    // nothing is inserted.
    let info = AvccInfo::from_avcc(&demo_record()).unwrap();
    let mut conv = BitstreamConverter::from_avcc(&info);
    let packet = [
        0x00, 0x00, 0x00, 0x01, 0x67, // SPS unit
        0x00, 0x00, 0x00, 0x01, 0x68, // PPS unit
        0x00, 0x00, 0x00, 0x02, 0x65, 0x88, // key unit
    ];
    let mut out = Vec::new();
    conv.convert_packet(&packet, &mut out);
    let expected = [
        0, 0, 0, 1, 0x67, 0, 0, 0, 1, 0x68, 0, 0, 0, 1, 0x65, 0x88,
    ];
    assert_eq!(out, expected);
}

#[test]
fn seen_primary_only_inserts_supplementary() {
    let info = AvccInfo::from_avcc(&demo_record()).unwrap();
    let mut conv = BitstreamConverter::from_avcc(&info);
    let packet = [
        0x00, 0x00, 0x00, 0x01, 0x67, // SPS unit only
        0x00, 0x00, 0x00, 0x02, 0x65, 0x88, // key unit
    ];
    let mut out = Vec::new();
    conv.convert_packet(&packet, &mut out);
    let expected = [
        0, 0, 0, 1, 0x67, // the SPS unit itself
        0, 0, 0, 1, 0x68, 0x03, // inserted PPS only
        0, 0, 0, 1, 0x65, 0x88, // the key unit
    ];
    assert_eq!(out, expected);
}

#[test]
fn ordinary_slice_closes_the_picture() {
    // After a key picture and an ordinary slice, the next key picture
    // receives a fresh insertion.
    let info = AvccInfo::from_avcc(&demo_record()).unwrap();
    let mut conv = BitstreamConverter::from_avcc(&info);
    let packet = [
        0x00, 0x00, 0x00, 0x02, 0x65, 0x88, // key unit: insertion
        0x00, 0x00, 0x00, 0x02, 0x41, 0xAA, // ordinary slice: picture boundary
        0x00, 0x00, 0x00, 0x02, 0x65, 0x00, // next key unit: fresh insertion
    ];
    let mut out = Vec::new();
    conv.convert_packet(&packet, &mut out);
    let expected = [
        0, 0, 0, 1, 0x67, 0x01, 0x02, 0, 0, 0, 1, 0x68, 0x03, 0, 0, 0, 1, 0x65, 0x88, // first
        0, 0, 0, 1, 0x41, 0xAA, // slice
        0, 0, 0, 1, 0x67, 0x01, 0x02, 0, 0, 0, 1, 0x68, 0x03, 0, 0, 0, 1, 0x65, 0x00, // second
    ];
    assert_eq!(out, expected);
}

#[test]
fn configuration_update_forces_fresh_insertion() {
    let info = AvccInfo::from_avcc(&demo_record()).unwrap();
    let mut conv = BitstreamConverter::from_avcc(&info);
    let packet = [0x00, 0x00, 0x00, 0x02, 0x65, 0x88];
    let mut out = Vec::new();
    conv.convert_packet(&packet, &mut out);
    // A continuation unit would not get an insertion now.
    let cont = [0x00, 0x00, 0x00, 0x02, 0x65, 0x00];
    let mut out2 = Vec::new();
    conv.convert_packet(&cont, &mut out2);
    assert_eq!(out2, [0, 0, 0, 1, 0x65, 0x00]);
    // After an update, even a continuation unit gets the full insertion.
    conv.update_avcc(&info);
    let mut out3 = Vec::new();
    conv.convert_packet(&cont, &mut out3);
    let expected = [
        0, 0, 0, 1, 0x67, 0x01, 0x02, 0, 0, 0, 1, 0x68, 0x03, 0, 0, 0, 1, 0x65, 0x00,
    ];
    assert_eq!(out3, expected);
}

#[test]
fn truncated_tail_keeps_prior_units() {
    let record = vec![0x01, 0x42, 0x00, 0x1E, 0x01, 0x00, 0x00];
    let info = AvccInfo::from_avcc(&record).unwrap();
    assert_eq!(info.length_size, 2);
    let mut conv = BitstreamConverter::from_avcc(&info);
    let packet = [
        0x00, 0x02, 0x41, 0xAA, // valid slice unit
        0x00, 0x09, 0x01, // declared length overruns the buffer
    ];
    let mut out = Vec::new();
    conv.convert_packet(&packet, &mut out);
    assert_eq!(out, [0, 0, 0, 1, 0x41, 0xAA]);
}

#[test]
fn output_buffer_is_cleared_each_call() {
    let record = vec![0x01, 0x42, 0x00, 0x1E, 0x01, 0x00, 0x00];
    let info = AvccInfo::from_avcc(&record).unwrap();
    let mut conv = BitstreamConverter::from_avcc(&info);
    let mut out = vec![0xDE, 0xAD];
    conv.convert_packet(&[0x00, 0x01, 0x41], &mut out);
    assert_eq!(out, [0, 0, 0, 1, 0x41]);
}

#[test]
fn inverse_drops_parameter_and_auxiliary_units() {
    let annexb = [
        0, 0, 0, 1, 0x67, 0x01, 0x02, // SPS: dropped
        0, 0, 0, 1, 0x68, 0x03, // PPS: dropped
        0, 0, 0, 1, 0x09, 0xF0, // AUD: dropped
        0, 0, 0, 1, 0x06, 0x05, // SEI: dropped
        0, 0, 0, 1, 0x65, 0x88, // IDR slice: kept
    ];
    let out = convert_annexb_to_length_prefixed(&annexb, 4);
    assert_eq!(out, [0x00, 0x00, 0x00, 0x02, 0x65, 0x88]);
}

#[test]
fn inverse_handles_three_byte_start_codes() {
    let annexb = [0, 0, 1, 0x41, 0xAA, 0, 0, 1, 0x06, 0x09];
    let out = convert_annexb_to_length_prefixed(&annexb, 1);
    assert_eq!(out, [0x02, 0x41, 0xAA]);
}

#[test]
fn inverse_skips_leading_garbage() {
    let annexb = [0xAB, 0, 0, 0, 1, 0x41];
    let out = convert_annexb_to_length_prefixed(&annexb, 1);
    assert_eq!(out, [0x01, 0x41]);
}

#[test]
fn inverse_writes_each_width() {
    let annexb = [0, 0, 0, 1, 0x41, 0xAA, 0xBB];
    assert_eq!(convert_annexb_to_length_prefixed(&annexb, 1), [0x03, 0x41, 0xAA, 0xBB]);
    assert_eq!(convert_annexb_to_length_prefixed(&annexb, 2), [0x00, 0x03, 0x41, 0xAA, 0xBB]);
    assert_eq!(
        convert_annexb_to_length_prefixed(&annexb, 3),
        [0x00, 0x00, 0x03, 0x41, 0xAA, 0xBB]
    );
    assert_eq!(
        convert_annexb_to_length_prefixed(&annexb, 4),
        [0x00, 0x00, 0x00, 0x03, 0x41, 0xAA, 0xBB]
    );
}

#[test]
fn forward_then_inverse_is_identity_on_slice_content() {
    let info = AvccInfo::from_avcc(&demo_record()).unwrap();
    let mut conv = BitstreamConverter::from_avcc(&info);
    let packet = [
        0x00, 0x00, 0x00, 0x02, 0x65, 0x88, // key unit
        0x00, 0x00, 0x00, 0x03, 0x41, 0xAA, 0xBB, // ordinary slice
    ];
    let mut annexb = Vec::new();
    conv.convert_packet(&packet, &mut annexb);
    let back = convert_annexb_to_length_prefixed(&annexb, conv.length_size());
    assert_eq!(back, packet);
}

#[test]
fn classifier_round_trips_every_five_bit_code() {
    for code in 0u8..32 {
        let kind = NalType::from_code(code).unwrap();
        assert_eq!(kind as u8, code);
    }
    assert!(NalType::from_code(32).is_none());
    assert!(NalType::from_code(255).is_none());
}

#[test]
fn classifier_names_are_stable() {
    assert_eq!(NalType::from_code(1).unwrap().name(), "Slice");
    assert_eq!(NalType::from_code(5).unwrap().name(), "IDR Slice");
    assert_eq!(NalType::from_code(7).unwrap().name(), "SPS");
    assert_eq!(NalType::from_code(8).unwrap().name(), "PPS");
    assert_eq!(NalType::from_code(9).unwrap().name(), "AUD");
    assert_eq!(NalType::from_code(17).unwrap().name(), "Reserved 17");
    assert_eq!(NalType::from_code(24).unwrap().name(), "Unspecified");
}
