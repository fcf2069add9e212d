use sbd::DispositionFlags;

#[test]
fn encode_all_false() {
    let flags = DispositionFlags {
        flush_queue: false,
        send_ring_alert: false,
        update_location: false,
        high_priority: false,
        assign_mtmsn: false,
    };

    assert_eq!(flags.encode(), 0);
}

#[test]
fn encode_flush_queue() {
    let flags = DispositionFlags {
        flush_queue: true,
        send_ring_alert: false,
        update_location: false,
        high_priority: false,
        assign_mtmsn: false,
    };

    assert_eq!(flags.encode(), 1);
}

#[test]
fn encode_send_ring_alert() {
    let flags = DispositionFlags {
        flush_queue: false,
        send_ring_alert: true,
        update_location: false,
        high_priority: false,
        assign_mtmsn: false,
    };

    assert_eq!(flags.encode(), 2);
}

#[test]
fn encode_assign_mtmsn() {
    let flags = DispositionFlags {
        flush_queue: false,
        send_ring_alert: false,
        update_location: false,
        high_priority: false,
        assign_mtmsn: true,
    };

    assert_eq!(flags.encode(), 32);
}

#[test]
fn encode_all_true() {
    let flags = DispositionFlags {
        flush_queue: true,
        send_ring_alert: true,
        update_location: true,
        high_priority: true,
        assign_mtmsn: true,
    };

    assert_eq!(flags.encode(), 59);
}

#[test]
fn encode_update_location_and_high_priority_skip_reserved_bit() {
    let update = DispositionFlags {
        flush_queue: false,
        send_ring_alert: false,
        update_location: true,
        high_priority: false,
        assign_mtmsn: false,
    };
    let high = DispositionFlags {
        flush_queue: false,
        send_ring_alert: false,
        update_location: false,
        high_priority: true,
        assign_mtmsn: false,
    };
    assert_eq!(update.encode(), 8);
    assert_eq!(high.encode(), 16);
}

#[test]
fn write_flags_big_endian() {
    let flags = DispositionFlags {
        flush_queue: true,
        send_ring_alert: true,
        update_location: true,
        high_priority: true,
        assign_mtmsn: true,
    };
    let mut out = vec![0xaa];
    assert_eq!(flags.write(&mut out), 2);
    assert_eq!(out, vec![0xaa, 0x00, 0x3b]);
}
