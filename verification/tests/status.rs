use zashboard::process::NfqwsProcess;
use zashboard::status::{ConfigStatus, LuaDesyncStatus, LuaInitStatus, Status};

#[test]
fn builds_running_status_with_config() {
    let process = NfqwsProcess {
        pid: 123,
        cmdline: b"/opt/zapret2/nfq2/nfqws2\0\
                    --qnum=200\0\
                    --fwmark=0x10000000\0\
                    --lua-init=@/opt/zapret2/lua/zapret-lib.lua\0\
                    --lua-init=MYVAR=123\0\
                    --lua-desync=wssize:wsize=1:scale=6\0\
                    --lua-desync=multidisorder:pos=1,midsld\0"
            .to_vec(),
    };

    let status = Status::from_process(Some(process));

    assert_eq!(
        status,
        Status {
            running: true,
            pid: Some(123),
            command: Some("/opt/zapret2/nfq2/nfqws2".to_string()),
            config: Some(ConfigStatus {
                queue_number: Some(200),
                fwmark: Some(268435456),
                lua_inits: vec![
                    LuaInitStatus::File("/opt/zapret2/lua/zapret-lib.lua".to_string()),
                    LuaInitStatus::Code("MYVAR=123".to_string()),
                ],
                lua_desyncs: vec![
                    LuaDesyncStatus::Wssize {
                        wsize: Some(1),
                        scale: Some(6),
                    },
                    LuaDesyncStatus::Multidisorder {
                        positions: vec!["1".to_string(), "midsld".to_string()],
                    },
                ],
            }),
        }
    );
}

#[test]
fn builds_stopped_status_without_config() {
    let status = Status::from_process(None);

    assert_eq!(
        status,
        Status {
            running: false,
            pid: None,
            command: None,
            config: None,
        }
    );
}

#[test]
fn preserves_missing_optional_config_values() {
    let process = NfqwsProcess {
        pid: 123,
        cmdline: b"/opt/zapret2/nfq2/nfqws2\0".to_vec(),
    };

    let status = Status::from_process(Some(process));

    assert_eq!(
        status,
        Status {
            running: true,
            pid: Some(123),
            command: Some("/opt/zapret2/nfq2/nfqws2".to_string()),
            config: Some(ConfigStatus {
                queue_number: None,
                fwmark: None,
                lua_inits: vec![],
                lua_desyncs: vec![],
            }),
        }
    );
}

#[test]
fn exposes_unknown_lua_desync() {
    let process = NfqwsProcess {
        pid: 123,
        cmdline: b"/opt/zapret2/nfq2/nfqws2\0--lua-desync=custom:param=1\0".to_vec(),
    };

    let status = Status::from_process(Some(process));

    assert_eq!(
        status.config.unwrap().lua_desyncs,
        vec![LuaDesyncStatus::Unknown {
            function: "custom".to_string(),
        }]
    );
}

#[test]
fn exposes_invalid_lua_desync() {
    let process = NfqwsProcess {
        pid: 123,
        cmdline: b"/opt/zapret2/nfq2/nfqws2\0--lua-desync=multidisorder:pos=1,,midsld\0"
            .to_vec(),
    };

    let status = Status::from_process(Some(process));

    assert_eq!(
        status.config.unwrap().lua_desyncs,
        vec![LuaDesyncStatus::Invalid {
            function: "multidisorder".to_string(),
        }]
    );
}

#[test]
fn reports_running_process_without_command() {
    let process = NfqwsProcess {
        pid: 7,
        cmdline: b"\0--qnum=5\0".to_vec(),
    };

    let status = Status::from_process(Some(process));

    assert!(status.running);
    assert_eq!(status.pid, Some(7));
    assert_eq!(status.command, None);
    assert_eq!(status.config.unwrap().queue_number, Some(5));
}

#[test]
fn replaces_invalid_text_and_keeps_valid_text() {
    let process = NfqwsProcess {
        pid: 7,
        cmdline: b"nfq\xffws2\0--lua-init=@caf\xc3\xa9.lua\0".to_vec(),
    };

    let status = Status::from_process(Some(process));

    assert_eq!(status.command, Some("nfq\u{fffd}ws2".to_string()));
    assert_eq!(
        status.config.unwrap().lua_inits,
        vec![LuaInitStatus::File("caf\u{e9}.lua".to_string())]
    );
}
