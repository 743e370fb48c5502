use lib::app_data::{CfAppData, CfEventId, CfReport, CF_NUM_CHANNELS};
use lib::cmd::{
    cf_noop_cmd, cf_reset_counters_cmd, CF_NoopCmd_t, CF_ResetCountersCmd_t, CF_Reset_all, CF_Reset_command,
    CF_Reset_down, CF_Reset_fault, CF_Reset_up,
};
use lib::test_utils::{
    any_uint16, any_uint16_except, any_uint32_except, any_uint64_except, any_uint8_greater_than,
};

/// Asserts that exactly one report went out, the event `id`.
fn assert_one_event(reports: &[CfReport], id: CfEventId) {
    assert_eq!(reports.len(), 1);
    assert_eq!(reports[0], CfReport::Event(id));
}

#[test]
fn test_cf_noop_cmd_send_noop_event_and_accept_command() {
    let mut app = CfAppData::default();
    let utbuf = CF_NoopCmd_t::default();
    let initial_hk_cmd_counter = any_uint16();
    app.hk.payload.counters.cmd = initial_hk_cmd_counter;
    let mut reports = Vec::new();

    cf_noop_cmd(&mut app, &utbuf, &mut reports);

    assert_one_event(&reports, CfEventId::NoopInf);
    assert_eq!(app.hk.payload.counters.cmd, initial_hk_cmd_counter.wrapping_add(1));
}

#[test]
fn test_cf_reset_counters_cmd_when_command_byte_is_eq_to_5_send_event_and_reject_command() {
    let mut app = CfAppData::default();
    let mut utbuf = CF_ResetCountersCmd_t::default();
    let initial_hk_err_counter = any_uint16();
    utbuf.payload.byte[0] = 5;
    app.hk.payload.counters.err = initial_hk_err_counter;
    let mut reports = Vec::new();

    cf_reset_counters_cmd(&mut app, &utbuf, &mut reports);

    assert_one_event(&reports, CfEventId::CmdResetInvalidErr);
    assert_eq!(app.hk.payload.counters.err, initial_hk_err_counter.wrapping_add(1));
}

#[test]
fn test_cf_reset_counters_cmd_when_command_byte_is_greater_than_5_send_event_and_reject_command() {
    let mut app = CfAppData::default();
    let mut utbuf = CF_ResetCountersCmd_t::default();
    let initial_hk_err_counter = any_uint16();
    utbuf.payload.byte[0] = any_uint8_greater_than(5);
    app.hk.payload.counters.err = initial_hk_err_counter;
    let mut reports = Vec::new();

    cf_reset_counters_cmd(&mut app, &utbuf, &mut reports);

    assert_one_event(&reports, CfEventId::CmdResetInvalidErr);
    assert_eq!(app.hk.payload.counters.err, initial_hk_err_counter.wrapping_add(1));
}

#[test]
fn test_cf_reset_counters_cmd_when_command_byte_is_command_and_reset_hk_cmd_and_err_count_send_event() {
    let mut app = CfAppData::default();
    let mut utbuf = CF_ResetCountersCmd_t::default();
    utbuf.payload.byte[0] = CF_Reset_command;
    app.hk.payload.counters.cmd = any_uint16_except(0);
    app.hk.payload.counters.err = any_uint16_except(0);
    let mut reports = Vec::new();

    cf_reset_counters_cmd(&mut app, &utbuf, &mut reports);

    assert_one_event(&reports, CfEventId::ResetInf);
    assert_eq!(app.hk.payload.counters.cmd, 0);
    assert_eq!(app.hk.payload.counters.err, 0);
}

#[test]
fn test_cf_reset_counters_cmd_when_command_byte_is_fault_reset_all_hk_fault_count_send_event_and_accept_command() {
    let mut app = CfAppData::default();
    let mut utbuf = CF_ResetCountersCmd_t::default();
    let initial_hk_cmd_counter = any_uint16();
    utbuf.payload.byte[0] = CF_Reset_fault;
    for i in 0..CF_NUM_CHANNELS {
        app.hk.payload.channel_hk[i].counters.fault.file_open = any_uint16_except(0);
        app.hk.payload.channel_hk[i].counters.fault.file_read = any_uint16_except(0);
        app.hk.payload.channel_hk[i].counters.fault.file_seek = any_uint16_except(0);
        app.hk.payload.channel_hk[i].counters.fault.file_write = any_uint16_except(0);
        app.hk.payload.channel_hk[i].counters.fault.file_rename = any_uint16_except(0);
        app.hk.payload.channel_hk[i].counters.fault.directory_read = any_uint16_except(0);
        app.hk.payload.channel_hk[i].counters.fault.crc_mismatch = any_uint16_except(0);
        app.hk.payload.channel_hk[i].counters.fault.file_size_mismatch = any_uint16_except(0);
        app.hk.payload.channel_hk[i].counters.fault.nak_limit = any_uint16_except(0);
        app.hk.payload.channel_hk[i].counters.fault.ack_limit = any_uint16_except(0);
        app.hk.payload.channel_hk[i].counters.fault.inactivity_timer = any_uint16_except(0);
    }
    app.hk.payload.counters.cmd = initial_hk_cmd_counter;
    let mut reports = Vec::new();

    cf_reset_counters_cmd(&mut app, &utbuf, &mut reports);

    assert_one_event(&reports, CfEventId::ResetInf);
    for i in 0..CF_NUM_CHANNELS {
        assert_eq!(app.hk.payload.channel_hk[i].counters.fault.file_open, 0);
        assert_eq!(app.hk.payload.channel_hk[i].counters.fault.file_read, 0);
        assert_eq!(app.hk.payload.channel_hk[i].counters.fault.file_seek, 0);
        assert_eq!(app.hk.payload.channel_hk[i].counters.fault.file_write, 0);
        assert_eq!(app.hk.payload.channel_hk[i].counters.fault.file_rename, 0);
        assert_eq!(app.hk.payload.channel_hk[i].counters.fault.directory_read, 0);
        assert_eq!(app.hk.payload.channel_hk[i].counters.fault.crc_mismatch, 0);
        assert_eq!(app.hk.payload.channel_hk[i].counters.fault.file_size_mismatch, 0);
        assert_eq!(app.hk.payload.channel_hk[i].counters.fault.nak_limit, 0);
        assert_eq!(app.hk.payload.channel_hk[i].counters.fault.ack_limit, 0);
        assert_eq!(app.hk.payload.channel_hk[i].counters.fault.inactivity_timer, 0);
    }
    assert_eq!(app.hk.payload.counters.cmd, initial_hk_cmd_counter.wrapping_add(1));
}

#[test]
fn test_cf_reset_counters_cmd_when_command_byte_is_up_and_reset_all_hk_recv_count_send_event_and_accept_command() {
    let mut app = CfAppData::default();
    let mut utbuf = CF_ResetCountersCmd_t::default();
    let initial_hk_cmd_counter = any_uint16();
    utbuf.payload.byte[0] = CF_Reset_up;
    for i in 0..CF_NUM_CHANNELS {
        app.hk.payload.channel_hk[i].counters.recv.file_data_bytes = any_uint64_except(0);
        app.hk.payload.channel_hk[i].counters.recv.pdu = any_uint32_except(0);
        app.hk.payload.channel_hk[i].counters.recv.error = any_uint32_except(0);
        app.hk.payload.channel_hk[i].counters.recv.spurious = any_uint16_except(0);
        app.hk.payload.channel_hk[i].counters.recv.dropped = any_uint16_except(0);
        app.hk.payload.channel_hk[i].counters.recv.nak_segment_requests = any_uint32_except(0);
    }
    app.hk.payload.counters.cmd = initial_hk_cmd_counter;
    let mut reports = Vec::new();

    cf_reset_counters_cmd(&mut app, &utbuf, &mut reports);

    assert_one_event(&reports, CfEventId::ResetInf);
    for i in 0..CF_NUM_CHANNELS {
        assert_eq!(app.hk.payload.channel_hk[i].counters.recv.file_data_bytes, 0);
        assert_eq!(app.hk.payload.channel_hk[i].counters.recv.pdu, 0);
        assert_eq!(app.hk.payload.channel_hk[i].counters.recv.error, 0);
        assert_eq!(app.hk.payload.channel_hk[i].counters.recv.spurious, 0);
        assert_eq!(app.hk.payload.channel_hk[i].counters.recv.dropped, 0);
        assert_eq!(app.hk.payload.channel_hk[i].counters.recv.nak_segment_requests, 0);
    }
    assert_eq!(app.hk.payload.counters.cmd, initial_hk_cmd_counter.wrapping_add(1));
}

#[test]
fn test_cf_reset_counters_cmd_when_command_byte_is_down_and_reset_all_hk_sent_count_send_event_accept_command() {
    let mut app = CfAppData::default();
    let mut utbuf = CF_ResetCountersCmd_t::default();
    let initial_hk_cmd_counter = any_uint16();
    utbuf.payload.byte[0] = CF_Reset_down;
    for i in 0..CF_NUM_CHANNELS {
        app.hk.payload.channel_hk[i].counters.sent.file_data_bytes = any_uint64_except(0);
        app.hk.payload.channel_hk[i].counters.sent.nak_segment_requests = any_uint32_except(0);
        app.hk.payload.channel_hk[i].counters.sent.pdu = any_uint32_except(0);
    }
    app.hk.payload.counters.cmd = initial_hk_cmd_counter;
    let mut reports = Vec::new();

    cf_reset_counters_cmd(&mut app, &utbuf, &mut reports);

    assert_one_event(&reports, CfEventId::ResetInf);
    for i in 0..CF_NUM_CHANNELS {
        assert_eq!(app.hk.payload.channel_hk[i].counters.sent.file_data_bytes, 0);
        assert_eq!(app.hk.payload.channel_hk[i].counters.sent.nak_segment_requests, 0);
        assert_eq!(app.hk.payload.channel_hk[i].counters.sent.pdu, 0);
    }
    assert_eq!(app.hk.payload.counters.cmd, initial_hk_cmd_counter.wrapping_add(1));
}

#[test]
fn test_cf_reset_counters_cmd_when_command_byte_is_all_and_reset_all_mem_values_send_event() {
    let mut app = CfAppData::default();
    let mut utbuf = CF_ResetCountersCmd_t::default();
    utbuf.payload.byte[0] = CF_Reset_all;
    app.hk.payload.counters.cmd = any_uint16_except(0);
    app.hk.payload.counters.err = any_uint16_except(0);
    for i in 0..CF_NUM_CHANNELS {
        app.hk.payload.channel_hk[i].counters.fault.file_open = any_uint16_except(0);
        app.hk.payload.channel_hk[i].counters.fault.file_read = any_uint16_except(0);
        app.hk.payload.channel_hk[i].counters.fault.file_seek = any_uint16_except(0);
        app.hk.payload.channel_hk[i].counters.fault.file_write = any_uint16_except(0);
        app.hk.payload.channel_hk[i].counters.fault.file_rename = any_uint16_except(0);
        app.hk.payload.channel_hk[i].counters.fault.directory_read = any_uint16_except(0);
        app.hk.payload.channel_hk[i].counters.fault.crc_mismatch = any_uint16_except(0);
        app.hk.payload.channel_hk[i].counters.fault.file_size_mismatch = any_uint16_except(0);
        app.hk.payload.channel_hk[i].counters.fault.nak_limit = any_uint16_except(0);
        app.hk.payload.channel_hk[i].counters.fault.ack_limit = any_uint16_except(0);
        app.hk.payload.channel_hk[i].counters.fault.inactivity_timer = any_uint16_except(0);
        app.hk.payload.channel_hk[i].counters.recv.file_data_bytes = any_uint64_except(0);
        app.hk.payload.channel_hk[i].counters.recv.pdu = any_uint32_except(0);
        app.hk.payload.channel_hk[i].counters.recv.error = any_uint32_except(0);
        app.hk.payload.channel_hk[i].counters.recv.spurious = any_uint16_except(0);
        app.hk.payload.channel_hk[i].counters.recv.dropped = any_uint16_except(0);
        app.hk.payload.channel_hk[i].counters.recv.nak_segment_requests = any_uint32_except(0);
        app.hk.payload.channel_hk[i].counters.sent.file_data_bytes = any_uint64_except(0);
        app.hk.payload.channel_hk[i].counters.sent.nak_segment_requests = any_uint32_except(0);
        app.hk.payload.channel_hk[i].counters.sent.pdu = any_uint32_except(0);
    }
    let mut reports = Vec::new();

    cf_reset_counters_cmd(&mut app, &utbuf, &mut reports);

    assert_one_event(&reports, CfEventId::ResetInf);
    assert_eq!(app.hk.payload.counters.cmd, 0);
    assert_eq!(app.hk.payload.counters.err, 0);
    for i in 0..CF_NUM_CHANNELS {
        assert_eq!(app.hk.payload.channel_hk[i].counters.fault.file_open, 0);
        assert_eq!(app.hk.payload.channel_hk[i].counters.fault.file_read, 0);
        assert_eq!(app.hk.payload.channel_hk[i].counters.fault.file_seek, 0);
        assert_eq!(app.hk.payload.channel_hk[i].counters.fault.file_write, 0);
        assert_eq!(app.hk.payload.channel_hk[i].counters.fault.file_rename, 0);
        assert_eq!(app.hk.payload.channel_hk[i].counters.fault.directory_read, 0);
        assert_eq!(app.hk.payload.channel_hk[i].counters.fault.crc_mismatch, 0);
        assert_eq!(app.hk.payload.channel_hk[i].counters.fault.file_size_mismatch, 0);
        assert_eq!(app.hk.payload.channel_hk[i].counters.fault.nak_limit, 0);
        assert_eq!(app.hk.payload.channel_hk[i].counters.fault.ack_limit, 0);
        assert_eq!(app.hk.payload.channel_hk[i].counters.fault.inactivity_timer, 0);
        assert_eq!(app.hk.payload.channel_hk[i].counters.recv.file_data_bytes, 0);
        assert_eq!(app.hk.payload.channel_hk[i].counters.recv.pdu, 0);
        assert_eq!(app.hk.payload.channel_hk[i].counters.recv.error, 0);
        assert_eq!(app.hk.payload.channel_hk[i].counters.recv.spurious, 0);
        assert_eq!(app.hk.payload.channel_hk[i].counters.recv.dropped, 0);
        assert_eq!(app.hk.payload.channel_hk[i].counters.recv.nak_segment_requests, 0);
        assert_eq!(app.hk.payload.channel_hk[i].counters.sent.file_data_bytes, 0);
        assert_eq!(app.hk.payload.channel_hk[i].counters.sent.nak_segment_requests, 0);
        assert_eq!(app.hk.payload.channel_hk[i].counters.sent.pdu, 0);
    }
}

#[test]
fn test_reset_fault_leaves_other_counters() {
    let mut app = CfAppData::default();
    app.hk.payload.channel_hk[1].counters.recv.pdu = 7;
    app.hk.payload.channel_hk[1].counters.sent.pdu = 9;
    app.hk.payload.channel_hk[1].counters.fault.nak_limit = 3;
    app.hk.payload.channel_hk[1].q_size[2] = 4;
    let mut utbuf = CF_ResetCountersCmd_t::default();
    utbuf.payload.byte[0] = CF_Reset_fault;
    let mut reports = Vec::new();
    cf_reset_counters_cmd(&mut app, &utbuf, &mut reports);
    assert_eq!(app.hk.payload.channel_hk[1].counters.fault.nak_limit, 0);
    assert_eq!(app.hk.payload.channel_hk[1].counters.recv.pdu, 7);
    assert_eq!(app.hk.payload.channel_hk[1].counters.sent.pdu, 9);
    assert_eq!(app.hk.payload.channel_hk[1].q_size[2], 4);
    assert_eq!(app.hk.payload.counters.cmd, 1);
}

#[test]
fn test_noop_counter_wraps() {
    let mut app = CfAppData::default();
    app.hk.payload.counters.cmd = 0xFFFF;
    let mut reports = vec![CfReport::SysLog];
    cf_noop_cmd(&mut app, &CF_NoopCmd_t::default(), &mut reports);
    assert_eq!(app.hk.payload.counters.cmd, 0);
    assert_eq!(reports, vec![CfReport::SysLog, CfReport::Event(CfEventId::NoopInf)]);
}
