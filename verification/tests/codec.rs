use tpm2::error::{MarshalError, UnmarshalError};
use tpm2::marshal::{
    marshal_bool, marshal_sized, marshal_u16, marshal_u32, marshal_u64, marshal_u8, pop_slice,
    u16_from_be, u16_to_be, u32_from_be, u32_to_be, u64_from_be, u64_to_be, unmarshal_bool,
    unmarshal_sized, unmarshal_u16, unmarshal_u32, unmarshal_u64, unmarshal_u8, write_bytes,
    Marshal, Unmarshal,
};
use tpm2::types::tpms::{
    marshal_selections, pack_flags, uniform_select, unmarshal_selections, AuthCommand, AuthResponse, ClockInfo,
    PcrSelect, PcrSelection, TimeInfo, NUM_PCRS, SIZE_OF_SELECT,
};
use tpm2::types::{Alg, Handle, Session};

fn sample_clock() -> ClockInfo {
    ClockInfo {
        clock: 0x0102_0304_0506_0708,
        reset_count: 0x0A0B_0C0D,
        restart_count: 0x1112_1314,
        safe: true,
    }
}

const SAMPLE_CLOCK_BYTES: [u8; 17] = [
    0x01, 0x02, 0x03, 0x04, 0x05, 0x06, 0x07, 0x08, 0x0A, 0x0B, 0x0C, 0x0D, 0x11, 0x12, 0x13,
    0x14, 0x01,
];

#[test]
fn fixed_integers_are_big_endian() {
    assert_eq!(u16_to_be(0x1234), [0x12, 0x34]);
    assert_eq!(u32_to_be(0x1234_5678), [0x12, 0x34, 0x56, 0x78]);
    assert_eq!(
        u64_to_be(0x0102_0304_0506_0708),
        [0x01, 0x02, 0x03, 0x04, 0x05, 0x06, 0x07, 0x08]
    );
    assert_eq!(u16_from_be(&[0x12, 0x34]), 0x1234);
    assert_eq!(u32_from_be(&[0x12, 0x34, 0x56, 0x78]), 0x1234_5678);
    assert_eq!(
        u64_from_be(&[0xFF, 0x02, 0x03, 0x04, 0x05, 0x06, 0x07, 0x08]),
        0xFF02_0304_0506_0708
    );
}

#[test]
fn fixed_integers_round_trip_at_the_extremes() {
    for v in [0u16, 1, 0x00FF, 0x0100, 0x8000, u16::MAX] {
        assert_eq!(u16_from_be(&u16_to_be(v)), v);
    }
    for v in [0u32, 1, 0x00FF_FF00, 0x8000_0000, u32::MAX] {
        assert_eq!(u32_from_be(&u32_to_be(v)), v);
    }
    for v in [0u64, 1, 0x00FF_0000_0000_FF00, 0x8000_0000_0000_0000, u64::MAX] {
        assert_eq!(u64_from_be(&u64_to_be(v)), v);
    }
}

#[test]
fn write_bytes_advances_and_keeps_the_rest() {
    let mut buf = [0xEEu8; 6];
    let mut pos = 1usize;
    assert_eq!(write_bytes(&mut buf, &mut pos, &[1, 2, 3]), Ok(()));
    assert_eq!(pos, 4);
    assert_eq!(buf, [0xEE, 1, 2, 3, 0xEE, 0xEE]);
}

#[test]
fn write_bytes_refuses_what_does_not_fit() {
    let mut buf = [0xEEu8; 4];
    let mut pos = 2usize;
    assert_eq!(
        write_bytes(&mut buf, &mut pos, &[1, 2, 3]),
        Err(MarshalError::BufferTooSmall)
    );
    assert_eq!(pos, 2);
    assert_eq!(buf, [0xEE; 4]);
    let mut beyond = 9usize;
    assert_eq!(
        write_bytes(&mut buf, &mut beyond, &[]),
        Err(MarshalError::BufferTooSmall)
    );
    assert_eq!(beyond, 9);
}

#[test]
fn scalars_marshal_in_sequence() {
    let mut buf = [0u8; 16];
    let mut pos = 0usize;
    assert_eq!(marshal_u8(0x7F, &mut buf, &mut pos), Ok(()));
    assert_eq!(marshal_u16(0x1234, &mut buf, &mut pos), Ok(()));
    assert_eq!(marshal_u32(0xDEAD_BEEF, &mut buf, &mut pos), Ok(()));
    assert_eq!(marshal_u64(0x0102_0304_0506_0708, &mut buf, &mut pos), Ok(()));
    assert_eq!(marshal_bool(true, &mut buf, &mut pos), Ok(()));
    assert_eq!(pos, 16);
    assert_eq!(
        buf,
        [0x7F, 0x12, 0x34, 0xDE, 0xAD, 0xBE, 0xEF, 1, 2, 3, 4, 5, 6, 7, 8, 1]
    );
    assert_eq!(
        marshal_bool(false, &mut buf, &mut pos),
        Err(MarshalError::BufferTooSmall)
    );
    assert_eq!(pos, 16);
}

#[test]
fn scalars_unmarshal_in_sequence() {
    let bytes = [0x7Fu8, 0x12, 0x34, 0xDE, 0xAD, 0xBE, 0xEF, 1, 2, 3, 4, 5, 6, 7, 8, 0, 9];
    let mut cur: &[u8] = &bytes;
    assert_eq!(unmarshal_u8(&mut cur), Ok(0x7F));
    assert_eq!(unmarshal_u16(&mut cur), Ok(0x1234));
    assert_eq!(unmarshal_u32(&mut cur), Ok(0xDEAD_BEEF));
    assert_eq!(unmarshal_u64(&mut cur), Ok(0x0102_0304_0506_0708));
    assert_eq!(unmarshal_bool(&mut cur), Ok(false));
    assert_eq!(cur, &[9u8][..]);
}

#[test]
fn truncated_scalars_are_reported_and_leave_the_input() {
    let one = [0x12u8];
    let mut cur: &[u8] = &one;
    assert_eq!(unmarshal_u16(&mut cur), Err(UnmarshalError::Truncated));
    assert_eq!(cur.len(), 1);
    let three = [1u8, 2, 3];
    let mut cur: &[u8] = &three;
    assert_eq!(unmarshal_u32(&mut cur), Err(UnmarshalError::Truncated));
    assert_eq!(cur.len(), 3);
    let seven = [0u8; 7];
    let mut cur: &[u8] = &seven;
    assert_eq!(unmarshal_u64(&mut cur), Err(UnmarshalError::Truncated));
    assert_eq!(cur.len(), 7);
    let mut cur: &[u8] = &[];
    assert_eq!(unmarshal_u8(&mut cur), Err(UnmarshalError::Truncated));
    assert_eq!(unmarshal_bool(&mut cur), Err(UnmarshalError::Truncated));
    assert_eq!(pop_slice(1, &mut cur), Err(UnmarshalError::Truncated));
}

#[test]
fn bool_rejects_other_bytes() {
    let bytes = [2u8, 1];
    let mut cur: &[u8] = &bytes;
    assert_eq!(unmarshal_bool(&mut cur), Err(UnmarshalError::InvalidValue));
    assert_eq!(cur.len(), 2);
    let bytes = [1u8];
    let mut cur: &[u8] = &bytes;
    assert_eq!(unmarshal_bool(&mut cur), Ok(true));
    assert!(cur.is_empty());
}

#[test]
fn byte_field_has_a_two_byte_length() {
    let mut buf = [0xEEu8; 8];
    let mut pos = 1usize;
    assert_eq!(marshal_sized(&[0xAA, 0xBB, 0xCC], &mut buf, &mut pos), Ok(()));
    assert_eq!(pos, 6);
    assert_eq!(buf, [0xEE, 0x00, 0x03, 0xAA, 0xBB, 0xCC, 0xEE, 0xEE]);
    let mut cur: &[u8] = &buf[1..];
    assert_eq!(unmarshal_sized(&mut cur), Ok(&[0xAAu8, 0xBB, 0xCC][..]));
    assert_eq!(cur, &[0xEEu8, 0xEE][..]);
}

#[test]
fn byte_field_is_all_or_nothing() {
    let mut buf = [0xEEu8; 4];
    let mut pos = 0usize;
    assert_eq!(
        marshal_sized(&[1, 2, 3], &mut buf, &mut pos),
        Err(MarshalError::BufferTooSmall)
    );
    assert_eq!(pos, 0);
    assert_eq!(buf, [0xEE; 4]);
}

#[test]
fn byte_field_over_the_prefix_range_is_refused() {
    let data = vec![0u8; 0x1_0000];
    let mut buf = vec![0xEEu8; 0x1_0010];
    let mut pos = 0usize;
    assert_eq!(
        marshal_sized(&data, &mut buf, &mut pos),
        Err(MarshalError::FieldTooLong)
    );
    assert_eq!(pos, 0);
    assert!(buf.iter().all(|&b| b == 0xEE));
    let data = vec![7u8; 0xFFFF];
    assert_eq!(marshal_sized(&data, &mut buf, &mut pos), Ok(()));
    assert_eq!(pos, 0x1_0001);
    assert_eq!(&buf[..3], &[0xFF, 0xFF, 7]);
}

#[test]
fn byte_field_truncation() {
    let bytes = [0x00u8, 0x03, 0xAA, 0xBB];
    let mut cur: &[u8] = &bytes;
    assert_eq!(unmarshal_sized(&mut cur), Err(UnmarshalError::Truncated));
    assert_eq!(cur.len(), 4);
    let bytes = [0x00u8];
    let mut cur: &[u8] = &bytes;
    assert_eq!(unmarshal_sized(&mut cur), Err(UnmarshalError::Truncated));
    let bytes = [0x00u8, 0x00];
    let mut cur: &[u8] = &bytes;
    assert_eq!(unmarshal_sized(&mut cur), Ok(&[][..]));
    assert!(cur.is_empty());
}

#[test]
fn clock_info_fixed_layout() {
    let mut arr = [0u8; 17];
    sample_clock().marshal_fixed(&mut arr);
    assert_eq!(arr, SAMPLE_CLOCK_BYTES);
}

#[test]
fn clock_info_round_trip() {
    let mut buf = [0u8; 20];
    let mut pos = 0usize;
    assert_eq!(sample_clock().marshal(&mut buf, &mut pos), Ok(()));
    assert_eq!(pos, 17);
    let mut cur: &[u8] = &buf;
    let mut back = ClockInfo::new();
    assert_eq!(back.unmarshal(&mut cur), Ok(()));
    assert_eq!(back, sample_clock());
    assert_eq!(cur.len(), 3);
}

#[test]
fn clock_info_errors() {
    let mut cur: &[u8] = &SAMPLE_CLOCK_BYTES[..16];
    let mut back = ClockInfo::new();
    assert_eq!(back.unmarshal(&mut cur), Err(UnmarshalError::Truncated));
    let mut bad = SAMPLE_CLOCK_BYTES;
    bad[16] = 2;
    let mut cur: &[u8] = &bad;
    assert_eq!(back.unmarshal(&mut cur), Err(UnmarshalError::InvalidValue));
    let mut small = [0u8; 16];
    let mut pos = 0usize;
    assert_eq!(
        sample_clock().marshal(&mut small, &mut pos),
        Err(MarshalError::BufferTooSmall)
    );
    assert_eq!(pos, 0);
    assert_eq!(small, [0u8; 16]);
}

#[test]
fn time_info_layout_and_round_trip() {
    let t = TimeInfo { time: 0xA1A2_A3A4_A5A6_A7A8, clock_info: sample_clock() };
    let mut arr = [0u8; 25];
    t.marshal_fixed(&mut arr);
    assert_eq!(&arr[..8], &[0xA1, 0xA2, 0xA3, 0xA4, 0xA5, 0xA6, 0xA7, 0xA8]);
    assert_eq!(&arr[8..], &SAMPLE_CLOCK_BYTES);
    let mut buf = [0u8; 25];
    let mut pos = 0usize;
    assert_eq!(t.marshal(&mut buf, &mut pos), Ok(()));
    assert_eq!(pos, 25);
    assert_eq!(buf, arr);
    let mut cur: &[u8] = &buf;
    let mut back = TimeInfo::new();
    assert_eq!(back.unmarshal(&mut cur), Ok(()));
    assert_eq!(back, t);
    assert!(cur.is_empty());
    let mut cur: &[u8] = &buf[..24];
    assert_eq!(back.unmarshal(&mut cur), Err(UnmarshalError::Truncated));
}

#[test]
fn new_records_are_zero() {
    let c = ClockInfo::new();
    assert_eq!(c, ClockInfo { clock: 0, reset_count: 0, restart_count: 0, safe: false });
    let t = TimeInfo::new();
    assert_eq!(t.time, 0);
    assert_eq!(t.clock_info, c);
    let a = AuthResponse::new();
    assert!(a.nonce.is_empty() && a.hmac.is_empty());
    assert_eq!(a.session_attributes, Session(0));
}

#[test]
fn auth_command_layout() {
    let nonce = [0x11u8, 0x22];
    let hmac = [0xAAu8, 0xBB, 0xCC];
    let a = AuthCommand {
        session_handle: Handle(0x4000_0009),
        nonce: &nonce,
        session_attributes: Session(0x01),
        hmac: &hmac,
    };
    let mut buf = [0xEEu8; 16];
    let mut pos = 1usize;
    assert_eq!(a.marshal(&mut buf, &mut pos), Ok(()));
    assert_eq!(pos, 15);
    assert_eq!(
        buf,
        [0xEE, 0x40, 0, 0, 0x09, 0, 2, 0x11, 0x22, 0x01, 0, 3, 0xAA, 0xBB, 0xCC, 0xEE]
    );
}

#[test]
fn auth_command_is_all_or_nothing() {
    let nonce = [0x11u8, 0x22];
    let hmac = [0xAAu8, 0xBB, 0xCC];
    let a = AuthCommand {
        session_handle: Handle(1),
        nonce: &nonce,
        session_attributes: Session(0),
        hmac: &hmac,
    };
    let mut buf = [0xEEu8; 13];
    let mut pos = 0usize;
    assert_eq!(a.marshal(&mut buf, &mut pos), Err(MarshalError::BufferTooSmall));
    assert_eq!(pos, 0);
    assert_eq!(buf, [0xEE; 13]);
    let long = vec![0u8; 0x1_0000];
    let b = AuthCommand {
        session_handle: Handle(1),
        nonce: &nonce,
        session_attributes: Session(0),
        hmac: &long,
    };
    let mut big = vec![0xEEu8; 0x2_0000];
    assert_eq!(b.marshal(&mut big, &mut pos), Err(MarshalError::FieldTooLong));
    assert_eq!(pos, 0);
    assert!(big.iter().all(|&x| x == 0xEE));
}

#[test]
fn auth_response_borrows_its_fields() {
    let bytes = [0u8, 2, 0x11, 0x22, 0x81, 0, 1, 0xAA, 0x55];
    let mut cur: &[u8] = &bytes;
    let mut r = AuthResponse::new();
    assert_eq!(r.unmarshal(&mut cur), Ok(()));
    assert_eq!(r.nonce, &[0x11u8, 0x22][..]);
    assert_eq!(r.session_attributes, Session(0x81));
    assert_eq!(r.hmac, &[0xAAu8][..]);
    assert_eq!(cur, &[0x55u8][..]);
}

#[test]
fn auth_response_truncation() {
    let bytes = [0u8, 2, 0x11, 0x22, 0x81, 0, 1, 0xAA];
    let mut r = AuthResponse::new();
    for cut in [0usize, 1, 3, 4, 5, 6, 7] {
        let mut cur: &[u8] = &bytes[..cut];
        assert_eq!(r.unmarshal(&mut cur), Err(UnmarshalError::Truncated));
    }
}

#[test]
fn auth_reply_reads_back_what_the_command_entry_wrote() {
    let nonce = [9u8, 8, 7];
    let hmac = [1u8, 2, 3, 4];
    let a = AuthCommand {
        session_handle: Handle(0x0200_0001),
        nonce: &nonce,
        session_attributes: Session(0x20),
        hmac: &hmac,
    };
    let mut buf = [0u8; 16];
    let mut pos = 0usize;
    assert_eq!(a.marshal(&mut buf, &mut pos), Ok(()));
    assert_eq!(pos, 16);
    let mut cur: &[u8] = &buf[4..];
    let mut r = AuthResponse::new();
    assert_eq!(r.unmarshal(&mut cur), Ok(()));
    assert_eq!(r.nonce, &nonce[..]);
    assert_eq!(r.session_attributes, Session(0x20));
    assert_eq!(r.hmac, &hmac[..]);
    assert!(cur.is_empty());
}

#[test]
fn alg_identifiers() {
    assert_eq!(Alg::SHA1.id(), 0x0004);
    assert_eq!(Alg::SHA256.id(), 0x000B);
    assert_eq!(Alg::SHA384.id(), 0x000C);
    assert_eq!(Alg::SHA512.id(), 0x000D);
    assert_eq!(Alg::NULL.id(), 0x0010);
    for a in [Alg::SHA1, Alg::SHA256, Alg::SHA384, Alg::SHA512, Alg::NULL] {
        assert_eq!(Alg::from_id(a.id()), Some(a));
    }
    assert_eq!(Alg::from_id(0), None);
    assert_eq!(Alg::from_id(0x000A), None);
}

#[test]
fn alg_codec() {
    let mut buf = [0u8; 2];
    let mut pos = 0usize;
    assert_eq!(Alg::SHA256.marshal(&mut buf, &mut pos), Ok(()));
    assert_eq!(buf, [0x00, 0x0B]);
    let mut cur: &[u8] = &buf;
    assert_eq!(Alg::unmarshal(&mut cur), Ok(Alg::SHA256));
    assert!(cur.is_empty());
    let bad = [0x12u8, 0x34];
    let mut cur: &[u8] = &bad;
    assert_eq!(Alg::unmarshal(&mut cur), Err(UnmarshalError::InvalidValue));
    let mut cur: &[u8] = &bad[..1];
    assert_eq!(Alg::unmarshal(&mut cur), Err(UnmarshalError::Truncated));
}

#[test]
fn pcr_profile_constants() {
    assert_eq!(SIZE_OF_SELECT, 3);
    assert_eq!(NUM_PCRS, 24);
    assert_eq!(uniform_select(true), [true; 24]);
    assert_eq!(uniform_select(false), [false; 24]);
}

#[test]
fn pack_flags_sets_one_bit_per_flag() {
    let mut sel: PcrSelect = [false; 24];
    sel[0] = true;
    sel[7] = true;
    sel[9] = true;
    sel[23] = true;
    assert_eq!(pack_flags(&sel, 0), 0x81);
    assert_eq!(pack_flags(&sel, 8), 0x02);
    assert_eq!(pack_flags(&sel, 16), 0x80);
}

#[test]
fn pcr_select_encodes_to_four_bytes() {
    let mut sel: PcrSelect = [false; 24];
    sel[0] = true;
    sel[10] = true;
    sel[17] = true;
    sel[23] = true;
    let mut buf = [0xEEu8; 6];
    let mut pos = 1usize;
    assert_eq!(sel.marshal(&mut buf, &mut pos), Ok(()));
    assert_eq!(pos, 5);
    assert_eq!(buf, [0xEE, 0x03, 0x01, 0x04, 0x82, 0xEE]);
}

#[test]
fn pcr_select_round_trips_every_single_and_pair() {
    for i in 0..24usize {
        for j in 0..24usize {
            let mut sel: PcrSelect = [false; 24];
            sel[i] = true;
            sel[j] = true;
            let mut buf = [0u8; 4];
            let mut pos = 0usize;
            assert_eq!(sel.marshal(&mut buf, &mut pos), Ok(()));
            assert_eq!(pos, 4);
            let mut cur: &[u8] = &buf;
            let mut back: PcrSelect = [true; 24];
            assert_eq!(back.unmarshal(&mut cur), Ok(()));
            assert_eq!(back, sel);
            assert!(cur.is_empty());
        }
    }
}

#[test]
fn pcr_select_empty_and_full() {
    let mut buf = [0u8; 4];
    let mut pos = 0usize;
    assert_eq!(uniform_select(false).marshal(&mut buf, &mut pos), Ok(()));
    assert_eq!(buf, [3, 0, 0, 0]);
    pos = 0;
    assert_eq!(uniform_select(true).marshal(&mut buf, &mut pos), Ok(()));
    assert_eq!(buf, [3, 0xFF, 0xFF, 0xFF]);
}

#[test]
fn pcr_select_buffer_too_small() {
    let sel: PcrSelect = [true; 24];
    let mut buf = [0xEEu8; 3];
    let mut pos = 0usize;
    assert_eq!(sel.marshal(&mut buf, &mut pos), Err(MarshalError::BufferTooSmall));
    assert_eq!(pos, 0);
    assert_eq!(buf, [0xEE; 3]);
}

#[test]
fn pcr_select_rejects_index_24() {
    let bytes = [4u8, 0xFF, 0xFF, 0xFF, 0x01];
    let mut cur: &[u8] = &bytes;
    let mut sel: PcrSelect = [false; 24];
    assert_eq!(sel.unmarshal(&mut cur), Err(UnmarshalError::PcrTooLarge(24)));
}

#[test]
fn pcr_select_names_the_lowest_excess_index() {
    let bytes = [5u8, 0, 0, 0, 0xA0, 0xFF];
    let mut cur: &[u8] = &bytes;
    let mut sel: PcrSelect = [false; 24];
    assert_eq!(sel.unmarshal(&mut cur), Err(UnmarshalError::PcrTooLarge(29)));
}

#[test]
fn pcr_select_accepts_other_sizes_without_excess_bits() {
    let bytes = [4u8, 0x01, 0x00, 0x80, 0x00, 0x77];
    let mut cur: &[u8] = &bytes;
    let mut sel: PcrSelect = [true; 24];
    assert_eq!(sel.unmarshal(&mut cur), Ok(()));
    let mut want: PcrSelect = [false; 24];
    want[0] = true;
    want[23] = true;
    assert_eq!(sel, want);
    assert_eq!(cur, &[0x77u8][..]);

    let bytes = [2u8, 0x02, 0x01, 0xFF];
    let mut cur: &[u8] = &bytes;
    let mut sel: PcrSelect = [true; 24];
    assert_eq!(sel.unmarshal(&mut cur), Ok(()));
    let mut want: PcrSelect = [false; 24];
    want[1] = true;
    want[8] = true;
    assert_eq!(sel, want);
    assert_eq!(cur, &[0xFFu8][..]);

    let bytes = [0u8, 0xFF];
    let mut cur: &[u8] = &bytes;
    assert_eq!(sel.unmarshal(&mut cur), Ok(()));
    assert_eq!(sel, [false; 24]);
    assert_eq!(cur.len(), 1);
}

#[test]
fn pcr_select_truncation() {
    let mut sel: PcrSelect = [false; 24];
    let mut cur: &[u8] = &[];
    assert_eq!(sel.unmarshal(&mut cur), Err(UnmarshalError::Truncated));
    let bytes = [3u8, 0xFF, 0xFF];
    let mut cur: &[u8] = &bytes;
    assert_eq!(sel.unmarshal(&mut cur), Err(UnmarshalError::Truncated));
}

#[test]
fn two_full_banks_marshal_and_unmarshal() {
    let sel = [
        PcrSelection { hash: Alg::SHA1, select: [true; NUM_PCRS] },
        PcrSelection { hash: Alg::SHA256, select: [true; NUM_PCRS] },
    ];
    let mut buf = [0u8; 12];
    let mut pos = 0usize;
    assert_eq!(marshal_selections(&sel, &mut buf, &mut pos), Ok(()));
    assert_eq!(pos, 12);
    assert_eq!(
        buf,
        [0x00, 0x04, 0x03, 0xFF, 0xFF, 0xFF, 0x00, 0x0B, 0x03, 0xFF, 0xFF, 0xFF]
    );
    let mut cur: &[u8] = &buf;
    let mut first = PcrSelection::none(Alg::NULL);
    let mut second = PcrSelection::none(Alg::NULL);
    assert_eq!(first.unmarshal(&mut cur), Ok(()));
    assert_eq!(cur.len(), 6);
    assert_eq!(second.unmarshal(&mut cur), Ok(()));
    assert!(cur.is_empty());
    assert_eq!([first, second], sel);
    assert_eq!(first, PcrSelection::all(Alg::SHA1));
    assert_eq!(second, PcrSelection::all(Alg::SHA256));
}

#[test]
fn selection_list_is_the_elements_in_order() {
    let mut a = PcrSelection::none(Alg::SHA384);
    a.select[3] = true;
    let b = PcrSelection::all(Alg::SHA512);
    let mut one = [0u8; 12];
    let mut pos = 0usize;
    assert_eq!(a.marshal(&mut one, &mut pos), Ok(()));
    assert_eq!(b.marshal(&mut one, &mut pos), Ok(()));
    let mut list = [0u8; 12];
    let mut at = 0usize;
    assert_eq!(marshal_selections(&[a, b], &mut list, &mut at), Ok(()));
    assert_eq!(at, 12);
    assert_eq!(list, one);
    assert_eq!(&list[..6], &[0x00, 0x0C, 0x03, 0x08, 0x00, 0x00]);
    let mut none = [0xEEu8; 2];
    let mut at = 1usize;
    assert_eq!(marshal_selections(&[], &mut none, &mut at), Ok(()));
    assert_eq!(at, 1);
    assert_eq!(none, [0xEE; 2]);
}

#[test]
fn selection_list_is_all_or_nothing() {
    let sel = [PcrSelection::all(Alg::SHA1), PcrSelection::all(Alg::SHA256)];
    let mut buf = [0xEEu8; 11];
    let mut pos = 0usize;
    assert_eq!(
        marshal_selections(&sel, &mut buf, &mut pos),
        Err(MarshalError::BufferTooSmall)
    );
    assert_eq!(pos, 0);
    assert_eq!(buf, [0xEE; 11]);
}

#[test]
fn pcr_selection_errors() {
    let mut s = PcrSelection::none(Alg::NULL);
    let bytes = [0x00u8, 0x05, 0x03, 0, 0, 0];
    let mut cur: &[u8] = &bytes;
    assert_eq!(s.unmarshal(&mut cur), Err(UnmarshalError::InvalidValue));
    let bytes = [0x00u8, 0x04, 0x03, 0, 0];
    let mut cur: &[u8] = &bytes;
    assert_eq!(s.unmarshal(&mut cur), Err(UnmarshalError::Truncated));
    let bytes = [0x00u8, 0x04, 0x04, 0, 0, 0, 0x10];
    let mut cur: &[u8] = &bytes;
    assert_eq!(s.unmarshal(&mut cur), Err(UnmarshalError::PcrTooLarge(28)));
    let mut small = [0xEEu8; 5];
    let mut pos = 0usize;
    assert_eq!(
        PcrSelection::all(Alg::SHA1).marshal(&mut small, &mut pos),
        Err(MarshalError::BufferTooSmall)
    );
    assert_eq!(pos, 0);
    assert_eq!(small, [0xEE; 5]);
}

#[test]
fn selection_list_round_trip() {
    let mut a = PcrSelection::none(Alg::SHA1);
    a.select[0] = true;
    a.select[16] = true;
    let b = PcrSelection::all(Alg::SHA256);
    let c = PcrSelection::none(Alg::SHA512);
    let list = [a, b, c];
    let mut buf = [0u8; 20];
    let mut pos = 0usize;
    assert_eq!(marshal_selections(&list, &mut buf, &mut pos), Ok(()));
    assert_eq!(pos, 18);
    let mut cur: &[u8] = &buf;
    assert_eq!(unmarshal_selections(3, &mut cur), Ok(list.to_vec()));
    assert_eq!(cur.len(), 2);
    let mut cur: &[u8] = &buf;
    assert_eq!(unmarshal_selections(2, &mut cur), Ok(vec![a, b]));
    assert_eq!(cur.len(), 8);
    let mut cur: &[u8] = &buf;
    assert_eq!(unmarshal_selections(0, &mut cur), Ok(Vec::new()));
    assert_eq!(cur.len(), 20);
}

#[test]
fn two_full_banks_read_back_as_a_list() {
    let bytes = [0x00u8, 0x04, 0x03, 0xFF, 0xFF, 0xFF, 0x00, 0x0B, 0x03, 0xFF, 0xFF, 0xFF];
    let mut cur: &[u8] = &bytes;
    assert_eq!(
        unmarshal_selections(2, &mut cur),
        Ok(vec![PcrSelection::all(Alg::SHA1), PcrSelection::all(Alg::SHA256)])
    );
    assert!(cur.is_empty());
}

#[test]
fn selection_list_stops_at_the_first_error() {
    let bytes = [0x00u8, 0x04, 0x03, 0, 0, 0, 0x00, 0x99, 0x03, 0, 0, 0];
    let mut cur: &[u8] = &bytes;
    assert_eq!(unmarshal_selections(2, &mut cur), Err(UnmarshalError::InvalidValue));
    let mut cur: &[u8] = &bytes[..6];
    assert_eq!(unmarshal_selections(2, &mut cur), Err(UnmarshalError::Truncated));
    let bytes = [0x00u8, 0x04, 0x04, 0, 0, 0, 0x02, 0x00, 0x0B];
    let mut cur: &[u8] = &bytes;
    assert_eq!(unmarshal_selections(3, &mut cur), Err(UnmarshalError::PcrTooLarge(25)));
}

#[test]
fn defaults_are_empty() {
    assert_eq!(ClockInfo::default(), ClockInfo::new());
    assert_eq!(TimeInfo::default(), TimeInfo::new());
    let a = AuthCommand::default();
    assert_eq!(a.session_handle, Handle(0));
    assert!(a.nonce.is_empty() && a.hmac.is_empty());
    assert_eq!(a.session_attributes, Session(0));
    let r = AuthResponse::default();
    assert!(r.nonce.is_empty() && r.hmac.is_empty());
    assert_eq!(PcrSelection::default(), PcrSelection::none(Alg::NULL));
}
