use zashboard::argument::Argument;
use zashboard::config::{LuaInit, NfqwsConfig};
use zashboard::desync::{
    LuaDesync, LuaDesyncError, LuaDesyncKind, LuaDesyncParam, Multidisorder, Wssize,
};

fn arg<'a>(name: &'a [u8], value: Option<&'a [u8]>) -> Argument<'a> {
    Argument { name, value }
}

#[test]
fn returns_typed_desync_kinds() {
    let config = NfqwsConfig {
        queue_number: None,
        fwmark: None,
        lua_inits: vec![],
        lua_desyncs: vec![
            LuaDesync {
                function: b"wssize",
                params: vec![
                    LuaDesyncParam {
                        name: b"wsize",
                        value: Some(b"1"),
                    },
                    LuaDesyncParam {
                        name: b"scale",
                        value: Some(b"6"),
                    },
                ],
            },
            LuaDesync {
                function: b"multidisorder",
                params: vec![LuaDesyncParam {
                    name: b"pos",
                    value: Some(b"1,midsld"),
                }],
            },
        ],
    };

    let kinds: Vec<_> = config.desync_kinds();

    assert_eq!(
        kinds,
        [
            Ok(LuaDesyncKind::Wssize(Wssize {
                wsize: Some(1),
                scale: Some(6),
            })),
            Ok(LuaDesyncKind::Multidisorder(Multidisorder {
                positions: vec![&b"1"[..], &b"midsld"[..]],
            })),
        ]
    );
}

#[test]
fn preserves_unknown_desync_kind_in_config() {
    let config = NfqwsConfig {
        queue_number: None,
        fwmark: None,
        lua_inits: vec![],
        lua_desyncs: vec![LuaDesync {
            function: b"custom",
            params: vec![],
        }],
    };

    let kinds: Vec<_> = config.desync_kinds();

    assert_eq!(kinds, [Ok(LuaDesyncKind::Unknown(b"custom"))]);
}

#[test]
fn preserves_invalid_desync_error_in_config() {
    let config = NfqwsConfig {
        queue_number: None,
        fwmark: None,
        lua_inits: vec![],
        lua_desyncs: vec![LuaDesync {
            function: b"multidisorder",
            params: vec![LuaDesyncParam {
                name: b"pos",
                value: Some(b"1,,midsld"),
            }],
        }],
    };

    let kinds: Vec<_> = config.desync_kinds();

    assert_eq!(kinds, [Err(LuaDesyncError::InvalidParams)]);
}

#[test]
fn parses_nfqws_config() {
    let args = vec![
        arg(b"qnum", Some(b"200")),
        arg(b"fwmark", Some(b"0x10000000")),
        arg(b"lua-init", Some(b"@first.lua")),
        arg(b"lua-init", Some(b"MYVAR=123")),
        arg(b"lua-init", Some(b"@second.lua")),
        arg(b"lua-desync", Some(b"wssize:wsize=1:scale=6")),
        arg(b"lua-desync", Some(b"multidisorder:pos=1,midsld")),
    ];

    assert_eq!(
        NfqwsConfig::parse(args),
        NfqwsConfig {
            queue_number: Some(200),
            fwmark: Some(0x10000000),
            lua_inits: vec![
                LuaInit::File(b"first.lua"),
                LuaInit::Code(b"MYVAR=123"),
                LuaInit::File(b"second.lua"),
            ],
            lua_desyncs: vec![
                LuaDesync {
                    function: b"wssize",
                    params: vec![
                        LuaDesyncParam {
                            name: b"wsize",
                            value: Some(b"1"),
                        },
                        LuaDesyncParam {
                            name: b"scale",
                            value: Some(b"6"),
                        },
                    ],
                },
                LuaDesync {
                    function: b"multidisorder",
                    params: vec![LuaDesyncParam {
                        name: b"pos",
                        value: Some(b"1,midsld"),
                    }],
                },
            ],
        }
    );
}

#[test]
fn parses_config_when_optional_arguments_are_absent() {
    assert_eq!(
        NfqwsConfig::parse(Vec::<Argument<'_>>::new()),
        NfqwsConfig {
            queue_number: None,
            fwmark: None,
            lua_inits: vec![],
            lua_desyncs: vec![],
        }
    );
}

#[test]
fn ignores_invalid_scalar_values() {
    let args = vec![
        arg(b"qnum", Some(b"invalid")),
        arg(b"fwmark", Some(b"0xhello")),
        arg(b"lua-init", Some(b"@valid.lua")),
    ];

    assert_eq!(
        NfqwsConfig::parse(args),
        NfqwsConfig {
            queue_number: None,
            fwmark: None,
            lua_inits: vec![LuaInit::File(b"valid.lua")],
            lua_desyncs: vec![],
        }
    );
}

#[test]
fn ignores_lua_init_without_value() {
    let args = vec![
        arg(b"lua-init", None),
        arg(b"lua-init", Some(b"@valid.lua")),
    ];

    assert_eq!(
        NfqwsConfig::parse(args),
        NfqwsConfig {
            queue_number: None,
            fwmark: None,
            lua_inits: vec![LuaInit::File(b"valid.lua")],
            lua_desyncs: vec![],
        }
    );
}

#[test]
fn first_scalar_argument_decides() {
    let args = vec![
        arg(b"qnum", None),
        arg(b"qnum", Some(b"300")),
        arg(b"fwmark", Some(b"0XFF")),
        arg(b"fwmark", Some(b"0xff")),
    ];

    let config = NfqwsConfig::parse(args);
    assert_eq!(config.queue_number, None);
    assert_eq!(config.fwmark, None);
}

#[test]
fn reads_scalar_limits() {
    let config = NfqwsConfig::parse(vec![
        arg(b"qnum", Some(b"65535")),
        arg(b"fwmark", Some(b"0xFFFFffff")),
    ]);
    assert_eq!(config.queue_number, Some(65535));
    assert_eq!(config.fwmark, Some(u32::MAX));

    let config = NfqwsConfig::parse(vec![
        arg(b"qnum", Some(b"65536")),
        arg(b"fwmark", Some(b"0x100000000")),
    ]);
    assert_eq!(config.queue_number, None);
    assert_eq!(config.fwmark, None);

    let config = NfqwsConfig::parse(vec![
        arg(b"qnum", Some(b"+12")),
        arg(b"fwmark", Some(b"0x")),
    ]);
    assert_eq!(config.queue_number, Some(12));
    assert_eq!(config.fwmark, None);
}

#[test]
fn skips_desyncs_that_do_not_parse_and_keeps_empty_code() {
    let config = NfqwsConfig::parse(vec![
        arg(b"lua-desync", Some(b":x")),
        arg(b"lua-desync", None),
        arg(b"lua-desync", Some(b"syndata")),
        arg(b"lua-init", Some(b"")),
        arg(b"lua-init", Some(b"@")),
        arg(b"other", Some(b"@x")),
    ]);
    assert_eq!(
        config.lua_desyncs,
        vec![LuaDesync {
            function: b"syndata",
            params: vec![],
        }]
    );
    assert_eq!(config.lua_inits, vec![LuaInit::Code(b""), LuaInit::File(b"")]);
}
