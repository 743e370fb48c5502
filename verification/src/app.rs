//! Start-up and main-loop decisions of the application. The executive services it uses
//! (tables, events, software bus) are outside the library: their status codes are given
//! as inputs, and the reports the logic asks to send are collected.
#![allow(non_camel_case_types)]

use vstd::prelude::*;
use crate::app_data::{CfReport, CfEventId};

verus! {

/// Success.
pub const CFE_SUCCESS: i32 = 0;
/// An executive service failed.
pub const CFE_STATUS_EXTERNAL_RESOURCE_FAIL: i32 = -1;
/// A table failed validation.
pub const CFE_STATUS_VALIDATION_FAILURE: i32 = -2;
/// A table was updated since it was last read (not an error).
pub const CFE_TBL_INFO_UPDATED: i32 = 1;
/// No message arrived before the timeout (not an error).
pub const CFE_SB_TIME_OUT: i32 = 2;
/// No message was waiting (not an error).
pub const CFE_SB_NO_MESSAGE: i32 = 3;

/// The size of the file data that one PDU carries.
pub const CF_PDU_FILE_DATA_CONTENT_SIZE: u16 = 32;

/// The configuration table.
#[derive(Clone, Copy, Debug, PartialEq, Eq, Default)]
pub struct CF_ConfigTable_t {
    pub ticks_per_second: u32,
    pub rx_crc_calc_bytes_per_wakeup: u32,
    pub outgoing_file_chunk_size: u16,
}

/// Checks a configuration table: a tick rate, a checksum step that is a non-zero
/// multiple of 1024 bytes, and file data chunks that fit in a PDU.
pub fn cf_validate_config_table(table: &CF_ConfigTable_t) -> (r: i32)
    ensures
        r == (if table.ticks_per_second != 0 && table.rx_crc_calc_bytes_per_wakeup != 0
            && table.rx_crc_calc_bytes_per_wakeup % 1024 == 0 && table.outgoing_file_chunk_size
            <= CF_PDU_FILE_DATA_CONTENT_SIZE {
            CFE_SUCCESS
        } else {
            CFE_STATUS_VALIDATION_FAILURE
        }),
{
    let rx = table.rx_crc_calc_bytes_per_wakeup;
    assert(rx & 0x3FF == rx % 1024) by (bit_vector);
    if table.ticks_per_second == 0 {
        return CFE_STATUS_VALIDATION_FAILURE;
    }
    if table.rx_crc_calc_bytes_per_wakeup == 0 {
        return CFE_STATUS_VALIDATION_FAILURE;
    }
    if (table.rx_crc_calc_bytes_per_wakeup & 0x3FF) != 0 {
        return CFE_STATUS_VALIDATION_FAILURE;
    }
    if table.outgoing_file_chunk_size > CF_PDU_FILE_DATA_CONTENT_SIZE {
        return CFE_STATUS_VALIDATION_FAILURE;
    }
    CFE_SUCCESS
}

/// A service of the executive that start-up and the periodic table check call.
#[derive(Clone, Copy, Debug, PartialEq, Eq)]
pub enum CfService {
    /// Sets up the housekeeping message (it has no status).
    MsgInit,
    EvsRegister,
    SbCreatePipe,
    /// Subscribes to ground commands.
    SbSubscribeCmd,
    /// Subscribes to housekeeping requests.
    SbSubscribeSendHk,
    /// Subscribes to wake-ups.
    SbSubscribeWakeUp,
    TblRegister,
    TblLoad,
    TblManage,
    TblGetAddress,
    TblReleaseAddress,
    /// Sets up the transfer engine.
    InitEngine,
}

/// What a start-up or table step asks for next.
#[derive(Clone, Copy, Debug, PartialEq, Eq)]
pub enum CfStep {
    /// Call this service and hand its status to the next step.
    Call(CfService),
    /// Finished, with this status.
    Done(i32),
}

/// A table address status that is not an error.
pub open spec fn get_address_ok(s: i32) -> bool {
    s == CFE_SUCCESS || s == CFE_TBL_INFO_UPDATED
}

/// The reports after adding an optional event.
pub open spec fn with_event(r0: Seq<CfReport>, e: Option<CfEventId>) -> Seq<CfReport> {
    match e {
        Some(x) => r0.push(CfReport::Event(x)),
        None => r0,
    }
}

/// The reports after adding an optional report.
pub open spec fn with_report(r0: Seq<CfReport>, e: Option<CfReport>) -> Seq<CfReport> {
    match e {
        Some(x) => r0.push(x),
        None => r0,
    }
}

/// The services that the table set-up calls.
pub open spec fn is_table_init_service(s: CfService) -> bool {
    s == CfService::TblRegister || s == CfService::TblLoad || s == CfService::TblManage || s
        == CfService::TblGetAddress
}

/// The table set-up's next step, and the event it sends, after `last` returned `status`
/// (nothing called yet when `last` is none): register, load, manage and get the address
/// of the table, in that order; the first failing service ends it with its status and
/// an event, and no later service is called.
pub open spec fn table_init_next(last: Option<CfService>, status: i32) -> (CfStep, Option<CfEventId>) {
    match last {
        None => (CfStep::Call(CfService::TblRegister), None),
        Some(CfService::TblRegister) => if status != CFE_SUCCESS {
            (CfStep::Done(status), Some(CfEventId::InitTblRegErr))
        } else {
            (CfStep::Call(CfService::TblLoad), None)
        },
        Some(CfService::TblLoad) => if status != CFE_SUCCESS {
            (CfStep::Done(status), Some(CfEventId::InitTblLoadErr))
        } else {
            (CfStep::Call(CfService::TblManage), None)
        },
        Some(CfService::TblManage) => if status != CFE_SUCCESS {
            (CfStep::Done(status), Some(CfEventId::InitTblManageErr))
        } else {
            (CfStep::Call(CfService::TblGetAddress), None)
        },
        Some(_) => if !get_address_ok(status) {
            (CfStep::Done(status), Some(CfEventId::InitTblGetAddrErr))
        } else {
            (CfStep::Done(CFE_SUCCESS), None)
        },
    }
}

/// One step of the table set-up (see `table_init_next`).
pub fn cf_table_init(last: Option<CfService>, status: i32, reports: &mut Vec<CfReport>) -> (r: CfStep)
    requires
        last matches Some(s) ==> is_table_init_service(s),
    ensures
        r == table_init_next(last, status).0,
        final(reports)@ == with_event(old(reports)@, table_init_next(last, status).1),
{
    match last {
        None => CfStep::Call(CfService::TblRegister),
        Some(CfService::TblRegister) => {
            if status != CFE_SUCCESS {
                reports.push(CfReport::Event(CfEventId::InitTblRegErr));
                CfStep::Done(status)
            } else {
                CfStep::Call(CfService::TblLoad)
            }
        },
        Some(CfService::TblLoad) => {
            if status != CFE_SUCCESS {
                reports.push(CfReport::Event(CfEventId::InitTblLoadErr));
                CfStep::Done(status)
            } else {
                CfStep::Call(CfService::TblManage)
            }
        },
        Some(CfService::TblManage) => {
            if status != CFE_SUCCESS {
                reports.push(CfReport::Event(CfEventId::InitTblManageErr));
                CfStep::Done(status)
            } else {
                CfStep::Call(CfService::TblGetAddress)
            }
        },
        Some(_) => {
            if status != CFE_SUCCESS && status != CFE_TBL_INFO_UPDATED {
                reports.push(CfReport::Event(CfEventId::InitTblGetAddrErr));
                CfStep::Done(status)
            } else {
                CfStep::Done(CFE_SUCCESS)
            }
        },
    }
}

/// The services that the periodic table check calls.
pub open spec fn is_check_tables_service(s: CfService) -> bool {
    s == CfService::TblReleaseAddress || s == CfService::TblManage || s == CfService::TblGetAddress
}

/// The periodic table check's next step, and the event it sends, after `last` returned
/// `status`: nothing at all while the engine is enabled; otherwise release the table's
/// address, let the table service manage it and get its address again, in that order,
/// the first failing service ending it with its status and an event.
pub open spec fn check_tables_next(engine_enabled: bool, last: Option<CfService>, status: i32) -> (CfStep, Option<CfEventId>) {
    match last {
        None => if engine_enabled {
            (CfStep::Done(CFE_SUCCESS), None)
        } else {
            (CfStep::Call(CfService::TblReleaseAddress), None)
        },
        Some(CfService::TblReleaseAddress) => if status != CFE_SUCCESS {
            (CfStep::Done(status), Some(CfEventId::InitTblCheckRelErr))
        } else {
            (CfStep::Call(CfService::TblManage), None)
        },
        Some(CfService::TblManage) => if status != CFE_SUCCESS {
            (CfStep::Done(status), Some(CfEventId::InitTblCheckManErr))
        } else {
            (CfStep::Call(CfService::TblGetAddress), None)
        },
        Some(_) => if !get_address_ok(status) {
            (CfStep::Done(status), Some(CfEventId::InitTblCheckGaErr))
        } else {
            (CfStep::Done(CFE_SUCCESS), None)
        },
    }
}

/// One step of the periodic table check (see `check_tables_next`).
pub fn cf_check_tables(engine_enabled: bool, last: Option<CfService>, status: i32, reports: &mut Vec<CfReport>) -> (r: CfStep)
    requires
        last matches Some(s) ==> is_check_tables_service(s),
    ensures
        r == check_tables_next(engine_enabled, last, status).0,
        final(reports)@ == with_event(old(reports)@, check_tables_next(engine_enabled, last, status).1),
{
    match last {
        None => {
            if engine_enabled {
                CfStep::Done(CFE_SUCCESS)
            } else {
                CfStep::Call(CfService::TblReleaseAddress)
            }
        },
        Some(CfService::TblReleaseAddress) => {
            if status != CFE_SUCCESS {
                reports.push(CfReport::Event(CfEventId::InitTblCheckRelErr));
                CfStep::Done(status)
            } else {
                CfStep::Call(CfService::TblManage)
            }
        },
        Some(CfService::TblManage) => {
            if status != CFE_SUCCESS {
                reports.push(CfReport::Event(CfEventId::InitTblCheckManErr));
                CfStep::Done(status)
            } else {
                CfStep::Call(CfService::TblGetAddress)
            }
        },
        Some(_) => {
            if status != CFE_SUCCESS && status != CFE_TBL_INFO_UPDATED {
                reports.push(CfReport::Event(CfEventId::InitTblCheckGaErr));
                CfStep::Done(status)
            } else {
                CfStep::Done(CFE_SUCCESS)
            }
        },
    }
}

/// The services that start-up calls.
pub open spec fn is_app_init_service(s: CfService) -> bool {
    s != CfService::TblReleaseAddress
}

/// Start-up's next step, and the report it makes, after `last` returned `status`:
/// set up the housekeeping message, register for events (a failure is written to the
/// system log), create the command pipe (a failure is reported as an event), subscribe
/// to ground commands (a failure is written to the system log), to housekeeping requests
/// and to wake-ups (the statuses of these two are not looked at), set up the table (see
/// `table_init_next`) and the engine. The first failure ends it with its status, and no
/// later service is called.
pub open spec fn app_init_next(last: Option<CfService>, status: i32) -> (CfStep, Option<CfReport>) {
    match last {
        None => (CfStep::Call(CfService::MsgInit), None),
        Some(CfService::MsgInit) => (CfStep::Call(CfService::EvsRegister), None),
        Some(CfService::EvsRegister) => if status != CFE_SUCCESS {
            (CfStep::Done(status), Some(CfReport::SysLog))
        } else {
            (CfStep::Call(CfService::SbCreatePipe), None)
        },
        Some(CfService::SbCreatePipe) => if status != CFE_SUCCESS {
            (CfStep::Done(status), Some(CfReport::Event(CfEventId::CrPipeErr)))
        } else {
            (CfStep::Call(CfService::SbSubscribeCmd), None)
        },
        Some(CfService::SbSubscribeCmd) => if status != CFE_SUCCESS {
            (CfStep::Done(status), Some(CfReport::SysLog))
        } else {
            (CfStep::Call(CfService::SbSubscribeSendHk), None)
        },
        Some(CfService::SbSubscribeSendHk) => (CfStep::Call(CfService::SbSubscribeWakeUp), None),
        Some(CfService::SbSubscribeWakeUp) => (CfStep::Call(CfService::TblRegister), None),
        Some(CfService::InitEngine) => (CfStep::Done(status), None),
        Some(_) => {
            let (t, e) = table_init_next(last, status);
            let rep = match e {
                Some(x) => Some(CfReport::Event(x)),
                None => None,
            };
            match t {
                CfStep::Call(n) => (CfStep::Call(n), rep),
                CfStep::Done(x) => if x != CFE_SUCCESS {
                    (CfStep::Done(x), rep)
                } else {
                    (CfStep::Call(CfService::InitEngine), rep)
                },
            }
        },
    }
}

/// One step of start-up (see `app_init_next`).
pub fn cf_app_init(last: Option<CfService>, status: i32, reports: &mut Vec<CfReport>) -> (r: CfStep)
    requires
        last matches Some(s) ==> is_app_init_service(s),
    ensures
        r == app_init_next(last, status).0,
        final(reports)@ == with_report(old(reports)@, app_init_next(last, status).1),
{
    match last {
        None => CfStep::Call(CfService::MsgInit),
        Some(CfService::MsgInit) => CfStep::Call(CfService::EvsRegister),
        Some(CfService::EvsRegister) => {
            if status != CFE_SUCCESS {
                reports.push(CfReport::SysLog);
                CfStep::Done(status)
            } else {
                CfStep::Call(CfService::SbCreatePipe)
            }
        },
        Some(CfService::SbCreatePipe) => {
            if status != CFE_SUCCESS {
                reports.push(CfReport::Event(CfEventId::CrPipeErr));
                CfStep::Done(status)
            } else {
                CfStep::Call(CfService::SbSubscribeCmd)
            }
        },
        Some(CfService::SbSubscribeCmd) => {
            if status != CFE_SUCCESS {
                reports.push(CfReport::SysLog);
                CfStep::Done(status)
            } else {
                CfStep::Call(CfService::SbSubscribeSendHk)
            }
        },
        Some(CfService::SbSubscribeSendHk) => CfStep::Call(CfService::SbSubscribeWakeUp),
        Some(CfService::SbSubscribeWakeUp) => CfStep::Call(CfService::TblRegister),
        Some(CfService::InitEngine) => CfStep::Done(status),
        Some(_) => {
            match cf_table_init(last, status, reports) {
                CfStep::Call(n) => CfStep::Call(n),
                CfStep::Done(x) => {
                    if x != CFE_SUCCESS {
                        CfStep::Done(x)
                    } else {
                        CfStep::Call(CfService::InitEngine)
                    }
                },
            }
        },
    }
}

/// The status codes that the services give, for the laws below that drive the steps
/// with them (message set-up has no status).
#[derive(Clone, Copy, Debug, PartialEq, Eq, Default)]
pub struct CfServiceResults {
    pub evs_register: i32,
    pub sb_create_pipe: i32,
    pub sb_subscribe_cmd: i32,
    pub sb_subscribe_send_hk: i32,
    pub sb_subscribe_wakeup: i32,
    pub tbl_register: i32,
    pub tbl_load: i32,
    pub tbl_manage: i32,
    pub tbl_get_address: i32,
    pub tbl_release_address: i32,
    pub init_engine: i32,
}

/// The status that service `s` gives in `a`.
pub open spec fn service_answer(a: CfServiceResults, s: CfService) -> i32 {
    match s {
        CfService::MsgInit => CFE_SUCCESS,
        CfService::EvsRegister => a.evs_register,
        CfService::SbCreatePipe => a.sb_create_pipe,
        CfService::SbSubscribeCmd => a.sb_subscribe_cmd,
        CfService::SbSubscribeSendHk => a.sb_subscribe_send_hk,
        CfService::SbSubscribeWakeUp => a.sb_subscribe_wakeup,
        CfService::TblRegister => a.tbl_register,
        CfService::TblLoad => a.tbl_load,
        CfService::TblManage => a.tbl_manage,
        CfService::TblGetAddress => a.tbl_get_address,
        CfService::TblReleaseAddress => a.tbl_release_address,
        CfService::InitEngine => a.init_engine,
    }
}

/// The order of the services within start-up and the table check.
pub open spec fn service_rank(last: Option<CfService>) -> int {
    match last {
        None => 0,
        Some(CfService::MsgInit) => 1,
        Some(CfService::EvsRegister) => 2,
        Some(CfService::SbCreatePipe) => 3,
        Some(CfService::SbSubscribeCmd) => 4,
        Some(CfService::SbSubscribeSendHk) => 5,
        Some(CfService::SbSubscribeWakeUp) => 6,
        Some(CfService::TblReleaseAddress) => 7,
        Some(CfService::TblRegister) => 8,
        Some(CfService::TblLoad) => 9,
        Some(CfService::TblManage) => 10,
        Some(CfService::TblGetAddress) => 11,
        Some(CfService::InitEngine) => 12,
    }
}

/// What a run of start-up gives when each service answers as in `a`, from the step
/// after `last` returned `status`: the services called, in order, the final status and
/// the reports made.
pub open spec fn run_app_init(a: CfServiceResults, last: Option<CfService>, status: i32) -> (Seq<CfService>, i32, Seq<CfReport>)
    decreases 13 - service_rank(last),
{
    let (step, rep) = app_init_next(last, status);
    let here = with_report(Seq::empty(), rep);
    match step {
        CfStep::Call(s) => if service_rank(last) < service_rank(Some(s)) {
            let rest = run_app_init(a, Some(s), service_answer(a, s));
            (seq![s] + rest.0, rest.1, here + rest.2)
        } else {
            (seq![s], CFE_SUCCESS, here)
        },
        CfStep::Done(x) => (Seq::empty(), x, here),
    }
}

/// The same for the table set-up.
pub open spec fn run_table_init(a: CfServiceResults, last: Option<CfService>, status: i32) -> (Seq<CfService>, i32, Seq<CfReport>)
    decreases 13 - service_rank(last),
{
    let (step, e) = table_init_next(last, status);
    let here = with_event(Seq::empty(), e);
    match step {
        CfStep::Call(s) => if service_rank(last) < service_rank(Some(s)) {
            let rest = run_table_init(a, Some(s), service_answer(a, s));
            (seq![s] + rest.0, rest.1, here + rest.2)
        } else {
            (seq![s], CFE_SUCCESS, here)
        },
        CfStep::Done(x) => (Seq::empty(), x, here),
    }
}

/// The same for the periodic table check.
pub open spec fn run_check_tables(engine_enabled: bool, a: CfServiceResults, last: Option<CfService>, status: i32) -> (Seq<CfService>, i32, Seq<CfReport>)
    decreases 13 - service_rank(last),
{
    let (step, e) = check_tables_next(engine_enabled, last, status);
    let here = with_event(Seq::empty(), e);
    match step {
        CfStep::Call(s) => if service_rank(last) < service_rank(Some(s)) {
            let rest = run_check_tables(engine_enabled, a, Some(s), service_answer(a, s));
            (seq![s] + rest.0, rest.1, here + rest.2)
        } else {
            (seq![s], CFE_SUCCESS, here)
        },
        CfStep::Done(x) => (Seq::empty(), x, here),
    }
}

/// The services the table set-up calls, the status it ends with and the reports it
/// makes, when the services answer as in `a`.
pub open spec fn table_init_outcome(a: CfServiceResults) -> (Seq<CfService>, i32, Seq<CfReport>) {
    let reg = CfService::TblRegister;
    let load = CfService::TblLoad;
    let man = CfService::TblManage;
    let ga = CfService::TblGetAddress;
    if a.tbl_register != CFE_SUCCESS {
        (seq![reg], a.tbl_register, seq![CfReport::Event(CfEventId::InitTblRegErr)])
    } else if a.tbl_load != CFE_SUCCESS {
        (seq![reg, load], a.tbl_load, seq![CfReport::Event(CfEventId::InitTblLoadErr)])
    } else if a.tbl_manage != CFE_SUCCESS {
        (seq![reg, load, man], a.tbl_manage, seq![CfReport::Event(CfEventId::InitTblManageErr)])
    } else if !get_address_ok(a.tbl_get_address) {
        (seq![reg, load, man, ga], a.tbl_get_address, seq![CfReport::Event(CfEventId::InitTblGetAddrErr)])
    } else {
        (seq![reg, load, man, ga], CFE_SUCCESS, Seq::empty())
    }
}

/// The same for start-up.
pub open spec fn app_init_outcome(a: CfServiceResults) -> (Seq<CfService>, i32, Seq<CfReport>) {
    let head = seq![CfService::MsgInit, CfService::EvsRegister];
    let subs = seq![
        CfService::MsgInit,
        CfService::EvsRegister,
        CfService::SbCreatePipe,
        CfService::SbSubscribeCmd,
        CfService::SbSubscribeSendHk,
        CfService::SbSubscribeWakeUp,
    ];
    let t = table_init_outcome(a);
    if a.evs_register != CFE_SUCCESS {
        (head, a.evs_register, seq![CfReport::SysLog])
    } else if a.sb_create_pipe != CFE_SUCCESS {
        (head.push(CfService::SbCreatePipe), a.sb_create_pipe, seq![CfReport::Event(CfEventId::CrPipeErr)])
    } else if a.sb_subscribe_cmd != CFE_SUCCESS {
        (seq![CfService::MsgInit, CfService::EvsRegister, CfService::SbCreatePipe, CfService::SbSubscribeCmd],
            a.sb_subscribe_cmd, seq![CfReport::SysLog])
    } else if t.1 != CFE_SUCCESS {
        (subs + t.0, t.1, t.2)
    } else {
        ((subs + t.0).push(CfService::InitEngine), a.init_engine, t.2)
    }
}

/// The same for the periodic table check.
pub open spec fn check_tables_outcome(engine_enabled: bool, a: CfServiceResults) -> (Seq<CfService>, i32, Seq<CfReport>) {
    let rel = CfService::TblReleaseAddress;
    let man = CfService::TblManage;
    let ga = CfService::TblGetAddress;
    if engine_enabled {
        (Seq::empty(), CFE_SUCCESS, Seq::empty())
    } else if a.tbl_release_address != CFE_SUCCESS {
        (seq![rel], a.tbl_release_address, seq![CfReport::Event(CfEventId::InitTblCheckRelErr)])
    } else if a.tbl_manage != CFE_SUCCESS {
        (seq![rel, man], a.tbl_manage, seq![CfReport::Event(CfEventId::InitTblCheckManErr)])
    } else if !get_address_ok(a.tbl_get_address) {
        (seq![rel, man, ga], a.tbl_get_address, seq![CfReport::Event(CfEventId::InitTblCheckGaErr)])
    } else {
        (seq![rel, man, ga], CFE_SUCCESS, Seq::empty())
    }
}

/// The table set-up, driven step by step with services that answer as in `a`, calls
/// register, load, manage and get address in that order, stops at the first failure
/// with that status and one event, and ends in success, with no event, otherwise.
pub proof fn law_table_init_run(a: CfServiceResults)
    ensures
        run_table_init(a, None, CFE_SUCCESS) == table_init_outcome(a),
{
    reveal_with_fuel(run_table_init, 6);
    assert(run_table_init(a, None, CFE_SUCCESS).0 =~= table_init_outcome(a).0);
    assert(run_table_init(a, None, CFE_SUCCESS).2 =~= table_init_outcome(a).2);
}

/// Start-up, driven step by step with services that answer as in `a`, sets up the
/// housekeeping message once, then registers for events, creates the pipe, makes the
/// three subscriptions, sets up the table and the engine, in that order; it stops at the
/// first failure (the second and third subscriptions excepted, whose statuses are not
/// looked at) with that status, so that no later service is called, and makes one
/// report for a failure of event registration, pipe creation, the first subscription
/// or the table set-up, and none otherwise.
pub proof fn law_app_init_run(a: CfServiceResults)
    ensures
        run_app_init(a, None, CFE_SUCCESS) == app_init_outcome(a),
{
    reveal_with_fuel(run_app_init, 13);
    reveal_with_fuel(run_table_init, 6);
    assert(run_app_init(a, None, CFE_SUCCESS).0 =~= app_init_outcome(a).0);
    assert(run_app_init(a, None, CFE_SUCCESS).2 =~= app_init_outcome(a).2);
}

/// The periodic table check, driven step by step with services that answer as in `a`,
/// calls no service at all while the engine is enabled; otherwise it releases, manages
/// and gets the table's address in that order, stopping at the first failure with that
/// status and one event.
pub proof fn law_check_tables_run(engine_enabled: bool, a: CfServiceResults)
    ensures
        run_check_tables(engine_enabled, a, None, CFE_SUCCESS) == check_tables_outcome(engine_enabled, a),
{
    reveal_with_fuel(run_check_tables, 5);
    assert(run_check_tables(engine_enabled, a, None, CFE_SUCCESS).0 =~= check_tables_outcome(engine_enabled, a).0);
    assert(run_check_tables(engine_enabled, a, None, CFE_SUCCESS).2 =~= check_tables_outcome(engine_enabled, a).2);
}

/// What the main loop does with the status of a wait for a message.
#[derive(Clone, Copy, Debug, PartialEq, Eq)]
pub enum CfMainAction {
    /// A message arrived: route it with `cf_app_pipe`.
    Dispatch,
    /// Nothing arrived in time: go on.
    Idle,
    /// The wait failed: reported.
    ReceiveError,
}

/// The main loop's decision on the status of a wait for a message.
pub fn cf_app_main_step(receive_status: i32, reports: &mut Vec<CfReport>) -> (r: CfMainAction)
    ensures
        receive_status == CFE_SUCCESS ==> r == CfMainAction::Dispatch && final(reports)@ == old(reports)@,
        (receive_status == CFE_SB_TIME_OUT || receive_status == CFE_SB_NO_MESSAGE) ==> r
            == CfMainAction::Idle && final(reports)@ == old(reports)@,
        receive_status != CFE_SUCCESS && receive_status != CFE_SB_TIME_OUT && receive_status
            != CFE_SB_NO_MESSAGE ==> r == CfMainAction::ReceiveError && final(reports)@ == old(
            reports,
        )@.push(CfReport::Event(CfEventId::InitMsgRecvErr)),
{
    if receive_status == CFE_SUCCESS {
        CfMainAction::Dispatch
    } else if receive_status != CFE_SB_TIME_OUT && receive_status != CFE_SB_NO_MESSAGE {
        reports.push(CfReport::Event(CfEventId::InitMsgRecvErr));
        CfMainAction::ReceiveError
    } else {
        CfMainAction::Idle
    }
}

} // verus!
