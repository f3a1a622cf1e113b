use gp2uv::stamp::timestamp;

#[test]
fn timestamp_formats_utc_date_and_time() {
    assert_eq!(timestamp(Some(0)), "19700101-000000");
    assert_eq!(timestamp(Some(86_399)), "19700101-235959");
    assert_eq!(timestamp(Some(1_780_358_400)), "20260602-000000");
    assert_eq!(timestamp(Some(1_709_210_096)), "20240229-123456");
    assert_eq!(timestamp(Some(951_868_800)), "20000301-000000");
    assert_eq!(timestamp(Some(946_684_799)), "19991231-235959");
}

#[test]
fn timestamp_without_clock_is_all_zero() {
    assert_eq!(timestamp(None), "00000000-000000");
}
