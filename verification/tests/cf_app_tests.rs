use lib::app::{
    cf_app_init, cf_app_main_step, cf_check_tables, cf_table_init, cf_validate_config_table, CF_ConfigTable_t,
    CfMainAction, CfService, CfServiceResults, CfStep, CFE_SB_NO_MESSAGE, CFE_SB_TIME_OUT,
    CFE_STATUS_VALIDATION_FAILURE, CFE_SUCCESS, CFE_TBL_INFO_UPDATED, CF_PDU_FILE_DATA_CONTENT_SIZE,
};
use lib::app_data::{CfEventId, CfReport};

fn any_uint32_except(excluded: u32) -> u32 {
    let val = 42;
    if val == excluded { val + 1 } else { val }
}

fn any_uint16_less_than(max: u16) -> u16 {
    if max > 0 { max - 1 } else { 0 }
}

fn any_uint32_less_than_or_equal_to(max: u32) -> u32 {
    max
}

fn cf_config_table_tests_set_table_to_nominal() -> CF_ConfigTable_t {
    CF_ConfigTable_t {
        ticks_per_second: any_uint32_except(0),
        rx_crc_calc_bytes_per_wakeup: any_uint32_except(0) << 10,
        outgoing_file_chunk_size: any_uint16_less_than(CF_PDU_FILE_DATA_CONTENT_SIZE),
    }
}

fn all_ok() -> CfServiceResults {
    CfServiceResults::default()
}

/// The status that service `s` gives in `a`, as the executive's stubs would.
fn answer(a: &CfServiceResults, s: CfService) -> i32 {
    match s {
        CfService::MsgInit => CFE_SUCCESS,
        CfService::EvsRegister => a.evs_register,
        CfService::SbCreatePipe => a.sb_create_pipe,
        CfService::SbSubscribeCmd => a.sb_subscribe_cmd,
        CfService::SbSubscribeSendHk => a.sb_subscribe_send_hk,
        CfService::SbSubscribeWakeUp => a.sb_subscribe_wakeup,
        CfService::TblRegister => a.tbl_register,
        CfService::TblLoad => a.tbl_load,
        CfService::TblManage => a.tbl_manage,
        CfService::TblGetAddress => a.tbl_get_address,
        CfService::TblReleaseAddress => a.tbl_release_address,
        CfService::InitEngine => a.init_engine,
    }
}

/// Drives a step function to the end: the services called, the final status and the
/// reports made.
fn drive(
    a: &CfServiceResults,
    step: impl Fn(Option<CfService>, i32, &mut Vec<CfReport>) -> CfStep,
) -> (Vec<CfService>, i32, Vec<CfReport>) {
    let mut calls = Vec::new();
    let mut reports = Vec::new();
    let mut next = step(None, CFE_SUCCESS, &mut reports);
    loop {
        match next {
            CfStep::Done(status) => return (calls, status, reports),
            CfStep::Call(s) => {
                calls.push(s);
                next = step(Some(s), answer(a, s), &mut reports);
            }
        }
    }
}

fn run_table_init(a: &CfServiceResults) -> (Vec<CfService>, i32, Vec<CfReport>) {
    drive(a, |l, st, r: &mut Vec<CfReport>| cf_table_init(l, st, r))
}

fn run_app_init(a: &CfServiceResults) -> (Vec<CfService>, i32, Vec<CfReport>) {
    drive(a, |l, st, r: &mut Vec<CfReport>| cf_app_init(l, st, r))
}

fn run_check_tables(enabled: bool, a: &CfServiceResults) -> (Vec<CfService>, i32, Vec<CfReport>) {
    drive(a, |l, st, r: &mut Vec<CfReport>| cf_check_tables(enabled, l, st, r))
}

fn count(calls: &[CfService], s: CfService) -> usize {
    calls.iter().filter(|c| **c == s).count()
}

use CfService::{
    EvsRegister, InitEngine, MsgInit, SbCreatePipe, SbSubscribeCmd, SbSubscribeSendHk, SbSubscribeWakeUp, TblGetAddress,
    TblLoad, TblManage, TblRegister, TblReleaseAddress,
};

#[test]
fn test_cf_validate_config_table_fail_because_table_ticks_per_second_is_0() {
    let mut table = cf_config_table_tests_set_table_to_nominal();
    table.ticks_per_second = 0;
    assert_eq!(cf_validate_config_table(&table), CFE_STATUS_VALIDATION_FAILURE);
}

#[test]
fn test_cf_validate_config_table_fail_because_calc_bytes_per_wakeup_is_0() {
    let mut table = cf_config_table_tests_set_table_to_nominal();
    table.ticks_per_second = 1;
    table.rx_crc_calc_bytes_per_wakeup = 0;
    assert_eq!(cf_validate_config_table(&table), CFE_STATUS_VALIDATION_FAILURE);
}

#[test]
fn test_cf_validate_config_table_fail_because_calc_bytes_per_wakeup_is_not_1024_byte_aligned() {
    let mut table = cf_config_table_tests_set_table_to_nominal();
    table.ticks_per_second = 1;
    table.rx_crc_calc_bytes_per_wakeup = (42u32 << 10) + (any_uint32_less_than_or_equal_to(0x3FE) + 1);
    assert_eq!(cf_validate_config_table(&table), CFE_STATUS_VALIDATION_FAILURE);
}

#[test]
fn test_cf_validate_config_table_fail_because_outgoing_file_chunk_smaller_than_data_array() {
    let mut table = cf_config_table_tests_set_table_to_nominal();
    table.ticks_per_second = 1;
    table.rx_crc_calc_bytes_per_wakeup = 0x0400;
    table.outgoing_file_chunk_size = CF_PDU_FILE_DATA_CONTENT_SIZE + 1;
    assert_eq!(cf_validate_config_table(&table), CFE_STATUS_VALIDATION_FAILURE);
}

#[test]
fn test_cf_validate_config_table_success() {
    let mut table = cf_config_table_tests_set_table_to_nominal();
    table.ticks_per_second = 1;
    table.rx_crc_calc_bytes_per_wakeup = 0x0400;
    table.outgoing_file_chunk_size = CF_PDU_FILE_DATA_CONTENT_SIZE;
    assert_eq!(cf_validate_config_table(&table), CFE_SUCCESS);
}

#[test]
fn test_cf_table_init_fail_because_cfe_tbl_register_did_not_return_success() {
    let (calls, status, reports) = run_table_init(&CfServiceResults { tbl_register: -1, ..all_ok() });
    assert_eq!(status, -1);
    assert_eq!(calls, vec![TblRegister]);
    assert_eq!(reports, vec![CfReport::Event(CfEventId::InitTblRegErr)]);
}

#[test]
fn test_cf_table_init_fail_because_cfe_tbl_load_did_not_return_success() {
    let (calls, status, reports) = run_table_init(&CfServiceResults { tbl_load: -1, ..all_ok() });
    assert_eq!(status, -1);
    assert_eq!(calls, vec![TblRegister, TblLoad]);
    assert_eq!(reports, vec![CfReport::Event(CfEventId::InitTblLoadErr)]);
}

#[test]
fn test_cf_table_init_fail_because_cfe_tbl_manage_did_not_return_success() {
    let (calls, status, reports) = run_table_init(&CfServiceResults { tbl_manage: -1, ..all_ok() });
    assert_eq!(status, -1);
    assert_eq!(calls, vec![TblRegister, TblLoad, TblManage]);
    assert_eq!(reports, vec![CfReport::Event(CfEventId::InitTblManageErr)]);
}

#[test]
fn test_cf_table_init_fail_because_cfe_tbl_get_address_did_not_return_success() {
    let (calls, status, reports) = run_table_init(&CfServiceResults { tbl_get_address: -1, ..all_ok() });
    assert_eq!(status, -1);
    assert_eq!(calls, vec![TblRegister, TblLoad, TblManage, TblGetAddress]);
    assert_eq!(reports, vec![CfReport::Event(CfEventId::InitTblGetAddrErr)]);
}

#[test]
fn test_cf_table_init_when_cfe_tbl_get_address_returns_cfe_success_success_and_do_not_send_event() {
    let (calls, status, reports) = run_table_init(&all_ok());
    assert_eq!(status, CFE_SUCCESS);
    assert_eq!(calls, vec![TblRegister, TblLoad, TblManage, TblGetAddress]);
    assert!(reports.is_empty());
}

#[test]
fn test_cf_table_init_when_cfe_tbl_get_address_returns_cfe_tbl_info_updated_success_and_do_not_send_event() {
    let (_, status, reports) = run_table_init(&CfServiceResults { tbl_get_address: CFE_TBL_INFO_UPDATED, ..all_ok() });
    assert_eq!(status, CFE_SUCCESS);
    assert!(reports.is_empty());
}

#[test]
fn test_cf_app_init_call_to_cfe_evs_register_returns_not_cfe_success_call_cfe_es_write_to_sys_log_return_error_status() {
    let (calls, status, reports) = run_app_init(&CfServiceResults { evs_register: -1, ..all_ok() });
    assert_eq!(status, -1);
    assert_eq!(calls, vec![MsgInit, EvsRegister]);
    assert_eq!(reports, vec![CfReport::SysLog]);
}

#[test]
fn test_cf_app_init_call_to_cfe_sb_create_pipe_returns_not_cfe_success_return_pipe_creation_error_eid() {
    let (calls, status, reports) = run_app_init(&CfServiceResults { sb_create_pipe: -1, ..all_ok() });
    assert_eq!(status, -1);
    assert_eq!(calls, vec![MsgInit, EvsRegister, SbCreatePipe]);
    assert_eq!(reports, vec![CfReport::Event(CfEventId::CrPipeErr)]);
}

#[test]
fn test_cf_app_init_first_call_to_cfe_sb_subscribe_returns_not_cfe_success_call_cfe_es_write_to_sys_log_return_error_status() {
    let (calls, status, reports) = run_app_init(&CfServiceResults { sb_subscribe_cmd: -1, ..all_ok() });
    assert_eq!(status, -1);
    assert_eq!(calls, vec![MsgInit, EvsRegister, SbCreatePipe, SbSubscribeCmd]);
    assert_eq!(reports, vec![CfReport::SysLog]);
}

#[test]
fn test_cf_app_init_call_to_cf_table_init_returns_not_cfe_success_return_error_status() {
    let (calls, status, reports) = run_app_init(&CfServiceResults { tbl_register: -1, ..all_ok() });
    assert_eq!(status, -1);
    assert_eq!(count(&calls, InitEngine), 0);
    assert_eq!(calls.last(), Some(&TblRegister));
    assert_eq!(reports, vec![CfReport::Event(CfEventId::InitTblRegErr)]);
}

#[test]
fn test_cf_app_init_call_to_cf_cfdp_init_engine_returns_not_cfe_success_return_error_status() {
    let (calls, status, reports) = run_app_init(&CfServiceResults { init_engine: -1, ..all_ok() });
    assert_eq!(status, -1);
    assert_eq!(calls.last(), Some(&InitEngine));
    assert!(reports.is_empty());
}

#[test]
fn test_cf_app_init_success() {
    let (calls, status, reports) = run_app_init(&all_ok());
    assert_eq!(status, CFE_SUCCESS);
    assert_eq!(count(&calls, MsgInit), 1);
    assert_eq!(count(&calls, SbSubscribeCmd) + count(&calls, SbSubscribeSendHk) + count(&calls, SbSubscribeWakeUp), 3);
    assert_eq!(
        calls,
        vec![
            MsgInit, EvsRegister, SbCreatePipe, SbSubscribeCmd, SbSubscribeSendHk, SbSubscribeWakeUp, TblRegister,
            TblLoad, TblManage, TblGetAddress, InitEngine,
        ]
    );
    assert!(reports.is_empty());
}

#[test]
fn app_init_ignores_the_later_subscriptions() {
    let (calls, status, reports) =
        run_app_init(&CfServiceResults { sb_subscribe_send_hk: -1, sb_subscribe_wakeup: -2, ..all_ok() });
    assert_eq!(status, CFE_SUCCESS);
    assert_eq!(calls.len(), 11);
    assert!(reports.is_empty());
}

#[test]
fn test_cf_check_tables_do_not_release_address_because_engine_is_enabled() {
    let a = CfServiceResults { tbl_release_address: -1, tbl_manage: -1, tbl_get_address: -1, ..all_ok() };
    let (calls, status, reports) = run_check_tables(true, &a);
    assert_eq!(status, CFE_SUCCESS);
    assert!(calls.is_empty());
    assert!(reports.is_empty());
}

#[test]
fn test_cf_check_tables_call_to_cfe_tbl_release_address_returns_not_cfe_success_send_event() {
    let (calls, status, reports) = run_check_tables(false, &CfServiceResults { tbl_release_address: -1, ..all_ok() });
    assert_eq!(status, -1);
    assert_eq!(calls, vec![TblReleaseAddress]);
    assert_eq!(reports, vec![CfReport::Event(CfEventId::InitTblCheckRelErr)]);
}

#[test]
fn test_cf_check_tables_call_to_cfe_tbl_manage_returns_not_cfe_success_send_event() {
    let (calls, status, reports) = run_check_tables(false, &CfServiceResults { tbl_manage: -1, ..all_ok() });
    assert_eq!(status, -1);
    assert_eq!(calls, vec![TblReleaseAddress, TblManage]);
    assert_eq!(reports, vec![CfReport::Event(CfEventId::InitTblCheckManErr)]);
}

#[test]
fn test_cf_check_tables_call_to_cfe_tbl_get_address_returns_not_cfe_success_or_cfe_tbl_info_updated_send_event() {
    let (calls, status, reports) = run_check_tables(false, &CfServiceResults { tbl_get_address: -1, ..all_ok() });
    assert_eq!(status, -1);
    assert_eq!(calls, vec![TblReleaseAddress, TblManage, TblGetAddress]);
    assert_eq!(reports, vec![CfReport::Event(CfEventId::InitTblCheckGaErr)]);
}

#[test]
fn test_cf_check_tables_call_to_cfe_tbl_get_address_returns_cfe_success() {
    let (calls, status, reports) = run_check_tables(false, &all_ok());
    assert_eq!(status, CFE_SUCCESS);
    assert_eq!(calls.len(), 3);
    assert!(reports.is_empty());
}

#[test]
fn test_cf_check_tables_call_to_cfe_tbl_get_address_returns_cfe_tbl_info_updated() {
    let (_, status, reports) = run_check_tables(false, &CfServiceResults { tbl_get_address: CFE_TBL_INFO_UPDATED, ..all_ok() });
    assert_eq!(status, CFE_SUCCESS);
    assert!(reports.is_empty());
}

#[test]
fn test_cf_app_main_cfe_sb_receive_buffer_cases() {
    let mut reports = Vec::new();
    assert_eq!(cf_app_main_step(CFE_SB_TIME_OUT, &mut reports), CfMainAction::Idle);
    assert_eq!(cf_app_main_step(CFE_SB_NO_MESSAGE, &mut reports), CfMainAction::Idle);
    assert!(reports.is_empty());
    assert_eq!(cf_app_main_step(-1, &mut reports), CfMainAction::ReceiveError);
    assert_eq!(reports, vec![CfReport::Event(CfEventId::InitMsgRecvErr)]);
}

#[test]
fn test_cf_app_main_run_loop_call_to_cfe_sb_receive_buffer_returns_cfe_success_and_valid_msg_call_cf_app_pipe() {
    let mut reports = Vec::new();
    assert_eq!(cf_app_main_step(CFE_SUCCESS, &mut reports), CfMainAction::Dispatch);
    assert!(reports.is_empty());
}

#[test]
fn test_table_init_first_failure_wins() {
    let (calls, status, reports) =
        run_table_init(&CfServiceResults { tbl_load: -5, tbl_manage: -6, tbl_get_address: -7, ..all_ok() });
    assert_eq!(status, -5);
    assert_eq!(calls, vec![TblRegister, TblLoad]);
    assert_eq!(reports, vec![CfReport::Event(CfEventId::InitTblLoadErr)]);
}
