use skithy::bits::{be_bytes_exec, be_val_exec, pack_bits, unpack_bits};

#[test]
fn packing_is_lsb_first() {
    let bits = vec![true, false, true];
    assert_eq!(pack_bits(&bits), vec![0b0000_0101]);
}

#[test]
fn packing_pads_the_final_byte_with_zeros() {
    let bits = vec![true; 9];
    assert_eq!(pack_bits(&bits), vec![0xFF, 0x01]);
}

#[test]
fn unpacking_returns_every_bit() {
    let bytes = [0b0000_0101u8];
    let bits = unpack_bits(&bytes);
    assert_eq!(
        bits,
        vec![true, false, true, false, false, false, false, false]
    );
}

#[test]
fn unpack_inverts_pack_up_to_padding() {
    let bits = vec![true, true, false, true, false, false, true, true, true, false, true];
    let packed = pack_bits(&bits);
    let unpacked = unpack_bits(&packed);
    assert_eq!(&unpacked[..bits.len()], &bits[..]);
    assert!(unpacked[bits.len()..].iter().all(|b| !b));
}

#[test]
fn count_field_round_trips() {
    let written = be_bytes_exec(0x0123_4567_89AB_CDEF, 8);
    assert_eq!(
        written,
        vec![0x01, 0x23, 0x45, 0x67, 0x89, 0xAB, 0xCD, 0xEF]
    );
    assert_eq!(be_val_exec(&written), 0x0123_4567_89AB_CDEF);
}
