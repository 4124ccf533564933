use web_client::packet_id::PacketId;

#[test]
fn packet_id_test_from_64() {
    let v = PacketId::from_u64(0x1234_5678_90AB_CDEF);
    assert_eq!(v.get_request_id(), 0xCDEF);
    assert_eq!(v.get_packet_id(), 0x0000_1234_5678_90AB);
}

#[test]
fn packet_id_test_getters() {
    let v = PacketId::from_u64(0x1234_5678_90AB_CDEF);
    assert_eq!(v.get_request_id(), 0xCDEF);
    assert_eq!(v.get_packet_id(), 0x0000_1234_5678_90AB);
    assert_eq!(v.get_session_id(), 0x1234_5678_90AB_CDEF);
}

#[test]
fn packet_id_test_increment_packet() {
    let mut v = PacketId::from_u64(0x1234_5678_90AB_CDEF);
    v.increment_packet_id();
    assert_eq!(v.get_packet_id(), 0x0000_1234_5678_90AC);
    assert_eq!(v.get_session_id(), 0x1234_5678_90AC_CDEF);
}

#[test]
fn packet_id_test_increment_req() {
    let mut v = PacketId::from_u64(0x1234_5678_90AB_CDEF);
    v.increment_request_id();
    assert_eq!(v.get_request_id(), 0xCDF0);
    assert_eq!(v.get_session_id(), 0xCDF0);
}

#[test]
fn packet_id_test_increments_overflow() {
    let mut v = PacketId::from_u64(0xFFFF_FFFF_FFFF_FFFF);
    v.increment_packet_id();
    assert_eq!(v.get_packet_id(), 0);
    assert_eq!(v.get_request_id(), 0xFFFF);
    assert_eq!(v.get_session_id(), 0xFFFF);

    v.increment_packet_id();
    v.increment_request_id();

    assert_eq!(v.get_packet_id(), 0);
    assert_eq!(v.get_request_id(), 0);
    assert_eq!(v.get_session_id(), 0);
}

#[test]
fn test_test_from_64() {
    let v = PacketId::from_u64(0x1234_5678_90AB_CDEF);
    assert_eq!(v.get_request_id(), 0xCDEF);
    assert_eq!(v.get_packet_id(), 0x0000_1234_5678_90AB);
}

#[test]
fn test_test_getters() {
    let v = PacketId::from_u64(0x1234_5678_90AB_CDEF);
    assert_eq!(v.get_request_id(), 0xCDEF);
    assert_eq!(v.get_packet_id(), 0x0000_1234_5678_90AB);
    assert_eq!(v.get_session_id(), 0x1234_5678_90AB_CDEF);
}

#[test]
fn test_test_increment_packet() {
    let mut v = PacketId::from_u64(0x1234_5678_90AB_CDEF);
    v.increment_packet_id();
    assert_eq!(v.get_packet_id(), 0x0000_1234_5678_90AC);
    assert_eq!(v.get_session_id(), 0x1234_5678_90AC_CDEF);
}

#[test]
fn test_test_increment_req() {
    let mut v = PacketId::from_u64(0x1234_5678_90AB_CDEF);
    v.increment_request_id();
    assert_eq!(v.get_request_id(), 0xCDF0);
    assert_eq!(v.get_session_id(), 0xCDF0);
}

#[test]
fn test_test_increments_overflow() {
    let mut v = PacketId::from_u64(0xFFFF_FFFF_FFFF_FFFF);
    v.increment_packet_id();
    assert_eq!(v.get_packet_id(), 0);
    assert_eq!(v.get_request_id(), 0xFFFF);
    assert_eq!(v.get_session_id(), 0xFFFF);

    v.increment_packet_id();
    v.increment_request_id();

    assert_eq!(v.get_packet_id(), 0);
    assert_eq!(v.get_request_id(), 0);
    assert_eq!(v.get_session_id(), 0);
}

#[test]
fn new_packet_id_is_zero() {
    let v = PacketId::new();
    assert_eq!(v.get_packet_id(), 0);
    assert_eq!(v.get_request_id(), 0);
    assert_eq!(v.get_session_id(), 0);
}

#[test]
fn session_id_round_trip() {
    for n in [0u64, 1, 0xFFFF, 0x1_0000, 0xDEAD_BEEF_0BAD_F00D, u64::MAX] {
        assert_eq!(PacketId::from_u64(n).get_session_id(), n);
        let id = PacketId::from_u64(n);
        assert_eq!(PacketId::from_u64(id.get_session_id()), id);
    }
}

#[test]
fn request_increment_keeps_request_bits_only() {
    let mut v = PacketId::from_u64(0x0000_0000_0005_0007);
    assert_eq!(v.get_packet_id(), 5);
    v.increment_packet_id();
    assert_eq!(v.get_session_id(), 0x0000_0000_0006_0007);
    v.increment_request_id();
    assert_eq!(v.get_session_id(), 0x0000_0000_0000_0008);
}
