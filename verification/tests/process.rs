use zashboard::argument::Argument;
use zashboard::process::{
    nfqws2_process_name, pid_of_entry, scan_entry, CommRead, NfqwsProcess, ScanStep,
};

fn process(cmdline: &[u8]) -> NfqwsProcess {
    NfqwsProcess {
        pid: 123,
        cmdline: cmdline.to_vec(),
    }
}

#[test]
fn extracts_command_from_cmdline() {
    let process = NfqwsProcess {
        pid: 123,
        cmdline: b"/opt/zapret2/nfq2/nfqws2\0--qnum=200\0".to_vec(),
    };

    let result = process.command();

    assert_eq!(result, Some(&b"/opt/zapret2/nfq2/nfqws2"[..]));
}

#[test]
fn returns_none_when_command_is_empty() {
    for cmdline in [b"".as_slice(), b"\0--qnum=200\0".as_slice()] {
        let process = NfqwsProcess {
            pid: 123,
            cmdline: cmdline.to_vec(),
        };

        let result = process.command();

        assert!(result.is_none());
    }
}

#[test]
fn extracts_arguments_from_cmdline() {
    let process = process(b"/opt/zapret2/nfq2/nfqws2\0--qnum=200\0--fwmark=0x10000000\0");

    let args: Vec<_> = process.args();

    assert_eq!(args, [&b"--qnum=200"[..], &b"--fwmark=0x10000000"[..],]);
}

#[test]
fn parses_process_arguments() {
    let process = process(b"/opt/zapret2/nfq2/nfqws2\0--qnum=200\0--debug\0");

    let args: Vec<_> = process.parsed_args();

    assert_eq!(
        args,
        [
            Argument {
                name: b"qnum",
                value: Some(b"200"),
            },
            Argument {
                name: b"debug",
                value: None,
            },
        ]
    );
}

#[test]
fn finds_argument_by_name() {
    let process = process(b"/opt/zapret2/nfq2/nfqws2\0--qnum=200\0--fwmark=0x10000000\0");

    assert_eq!(
        process.find_arg(b"qnum"),
        Some(Argument {
            name: b"qnum",
            value: Some(b"200"),
        })
    );
}

#[test]
fn finds_argument_without_value() {
    let process = process(b"/opt/zapret2/nfq2/nfqws2\0--debug\0");

    assert_eq!(
        process.find_arg(b"debug"),
        Some(Argument {
            name: b"debug",
            value: None,
        })
    );
}

#[test]
fn returns_none_when_argument_is_absent() {
    let process = process(b"/opt/zapret2/nfq2/nfqws2\0--qnum=200\0");

    assert_eq!(process.find_arg(b"fwmark"), None);
}

#[test]
fn returns_first_argument_when_name_is_repeated() {
    let process =
        process(b"/opt/zapret2/nfq2/nfqws2\0--lua-init=first.lua\0--lua-init=second.lua\0");

    assert_eq!(
        process.find_arg(b"lua-init"),
        Some(Argument {
            name: b"lua-init",
            value: Some(b"first.lua"),
        })
    );
}

#[test]
fn ignores_invalid_process_arguments() {
    let process = process(b"/opt/zapret2/nfq2/nfqws2\0--qnum=200\0invalid\0--debug\0");

    let args: Vec<_> = process.parsed_args();

    assert_eq!(
        args,
        [
            Argument {
                name: b"qnum",
                value: Some(b"200"),
            },
            Argument {
                name: b"debug",
                value: None,
            },
        ]
    );
}

#[test]
fn returns_no_parsed_arguments_when_process_has_no_arguments() {
    let process = process(b"/opt/zapret2/nfq2/nfqws2\0");

    let args: Vec<_> = process.parsed_args();

    assert!(args.is_empty());
}

#[test]
fn returns_no_arguments_when_process_has_only_command() {
    let process = process(b"/opt/zapret2/nfq2/nfqws2\0");

    let args: Vec<_> = process.args();

    assert!(args.is_empty());
}

#[test]
fn returns_no_arguments_when_cmdline_is_empty() {
    let process = NfqwsProcess {
        pid: 123,
        cmdline: Vec::new(),
    };

    let args: Vec<_> = process.args();

    assert!(args.is_empty());
}

#[test]
fn finds_all_arguments_by_name() {
    let process = process(
        b"/opt/zapret2/nfq2/nfqws2\0\
                    --lua-init=first.lua\0\
                    --qnum=200\0\
                    --lua-init=second.lua\0",
    );

    let args: Vec<_> = process.find_args(b"lua-init");

    assert_eq!(
        args,
        [
            Argument {
                name: b"lua-init",
                value: Some(b"first.lua"),
            },
            Argument {
                name: b"lua-init",
                value: Some(b"second.lua"),
            },
        ]
    );
}

#[test]
fn returns_no_arguments_when_name_is_absent() {
    let process = process(b"/opt/zapret2/nfq2/nfqws2\0--qnum=200\0");

    let args: Vec<_> = process.find_args(b"lua-init");

    assert!(args.is_empty());
}

#[test]
fn finds_repeated_arguments_without_values() {
    let process = process(b"/opt/zapret2/nfq2/nfqws2\0--debug\0--qnum=200\0--debug\0");

    let args: Vec<_> = process.find_args(b"debug");

    assert_eq!(
        args,
        [
            Argument {
                name: b"debug",
                value: None,
            },
            Argument {
                name: b"debug",
                value: None,
            },
        ]
    );
}

#[test]
fn returns_queue_number() {
    let process = process(b"/opt/zapret2/nfq2/nfqws2\0--qnum=200\0");

    assert_eq!(process.queue_number(), Some(200));
}

#[test]
fn returns_none_when_queue_number_is_absent() {
    let process = process(b"/opt/zapret2/nfq2/nfqws2\0--fwmark=0x10000000\0");

    assert_eq!(process.queue_number(), None);
}

#[test]
fn returns_none_when_queue_number_has_no_value() {
    let process = process(b"/opt/zapret2/nfq2/nfqws2\0--qnum\0");

    assert_eq!(process.queue_number(), None);
}

#[test]
fn returns_none_when_queue_number_is_invalid() {
    let process = process(b"/opt/zapret2/nfq2/nfqws2\0--qnum=abc\0");

    assert_eq!(process.queue_number(), None);
}

#[test]
fn keeps_empty_words_between_separators() {
    let process = process(b"cmd\0\0--a\0\0");

    assert_eq!(process.args(), [&b""[..], &b"--a"[..], &b""[..]]);
    assert_eq!(process.command(), Some(&b"cmd"[..]));
}

#[test]
fn line_without_final_nul_keeps_last_word() {
    let process = process(b"cmd\0--qnum=7");

    assert_eq!(process.args(), [&b"--qnum=7"[..]]);
    assert_eq!(process.queue_number(), Some(7));
}

#[test]
fn queue_number_matches_config() {
    for line in [
        &b"nfqws2\0--qnum=200\0--qnum=300\0"[..],
        &b"nfqws2\0--qnum\0--qnum=300\0"[..],
        &b"nfqws2\0--fwmark=0x1\0"[..],
    ] {
        let process = process(line);
        assert_eq!(process.queue_number(), process.config().queue_number);
    }
}

#[test]
fn find_arg_is_first_of_find_args() {
    let process = process(b"nfqws2\0--lua-init=a\0--debug\0--lua-init=b\0");
    let all = process.find_args(b"lua-init");
    assert_eq!(process.find_arg(b"lua-init"), all.first().copied());
    assert_eq!(process.find_arg(b"none"), None);
    assert!(process.find_args(b"none").is_empty());
}

#[test]
fn reads_process_table_entry_names() {
    assert_eq!(pid_of_entry(b"123"), Some(123));
    assert_eq!(pid_of_entry(b"4294967295"), Some(u32::MAX));
    assert_eq!(pid_of_entry(b"4294967296"), None);
    assert_eq!(pid_of_entry(b"self"), None);
    assert_eq!(pid_of_entry(b""), None);
}

#[test]
fn decides_each_process_table_entry() {
    let name = nfqws2_process_name();
    assert_eq!(name, b"nfqws2");
    assert_eq!(
        scan_entry(123, CommRead::Text(b"nfqws2\n"), &name),
        ScanStep::Found(123)
    );
    assert_eq!(
        scan_entry(123, CommRead::Text(b"nfqws2\n\n"), &name),
        ScanStep::Found(123)
    );
    assert_eq!(
        scan_entry(5, CommRead::Text(b"nfqws2x\n"), &name),
        ScanStep::Skip
    );
    assert_eq!(scan_entry(5, CommRead::Missing, &name), ScanStep::Skip);
    assert_eq!(scan_entry(5, CommRead::Failed, &name), ScanStep::Fail);
}

#[test]
fn args_number_the_separators_and_rebuild_the_line() {
    let line: &[u8] = b"cmd\0--a=1\0\0--b\0";
    let process = process(line);
    let body = &line[..line.len() - 1];
    let args = process.args();
    assert_eq!(args.len(), body.iter().filter(|b| **b == 0).count());
    assert!(args.iter().all(|w| !w.contains(&0)));
    let mut rebuilt = process.command().unwrap().to_vec();
    for w in &args {
        rebuilt.push(0);
        rebuilt.extend_from_slice(w);
    }
    assert_eq!(rebuilt, body);
}

#[test]
fn find_arg_parses_first_matching_word() {
    let process = process(b"cmd\0-qnum=1\0--qnum\0--qnum=2\0");
    assert_eq!(
        process.find_arg(b"qnum"),
        zashboard::argument::parse(b"--qnum")
    );
}

fn scan(entries: &[(&[u8], CommRead)], name: &[u8]) -> ScanStep {
    for (entry, comm) in entries {
        let Some(pid) = pid_of_entry(entry) else {
            continue;
        };
        let read = match comm {
            CommRead::Text(t) => CommRead::Text(t),
            CommRead::Missing => CommRead::Missing,
            CommRead::Failed => CommRead::Failed,
        };
        match scan_entry(pid, read, name) {
            ScanStep::Skip => continue,
            step => return step,
        }
    }
    ScanStep::Skip
}

#[test]
fn scan_stops_at_first_match_or_failure() {
    let name = nfqws2_process_name();
    let entries: Vec<(&[u8], CommRead)> = vec![
        (b"self", CommRead::Text(b"nfqws2\n")),
        (b"456", CommRead::Missing),
        (b"12", CommRead::Text(b"bash\n")),
        (b"123", CommRead::Text(b"nfqws2\n")),
        (b"789", CommRead::Failed),
    ];
    assert_eq!(scan(&entries, &name), ScanStep::Found(123));
    assert_eq!(scan(&entries[..3], &name), ScanStep::Skip);
    let failing: Vec<(&[u8], CommRead)> = vec![
        (b"789", CommRead::Failed),
        (b"123", CommRead::Text(b"nfqws2\n")),
    ];
    assert_eq!(scan(&failing, &name), ScanStep::Fail);
}
