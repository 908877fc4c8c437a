use raylet_rs::clock::{now_ms, Clock, SystemClock};

#[test]
fn system_clock_reads_milliseconds_since_the_epoch() {
    // Any reading taken now lies well after September 2020.
    let before = now_ms();
    assert!(before > 1_600_000_000_000);
    let later = SystemClock.now_ms();
    assert!(later >= before);
    let reference = std::time::SystemTime::now()
        .duration_since(std::time::UNIX_EPOCH)
        .unwrap()
        .as_millis() as i64;
    assert!((reference - later).abs() < 60_000);
}
