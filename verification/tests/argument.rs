use zashboard::argument::{parse, Argument};

#[test]
fn parses_argument_with_value() {
    assert_eq!(
        parse(b"--qnum=200"),
        Some(Argument {
            name: b"qnum",
            value: Some(b"200"),
        })
    );
}

#[test]
fn parses_argument_without_value() {
    assert_eq!(
        parse(b"--debug"),
        Some(Argument {
            name: b"debug",
            value: None,
        })
    );
}

#[test]
fn preserves_empty_value() {
    assert_eq!(
        parse(b"--payload="),
        Some(Argument {
            name: b"payload",
            value: Some(b""),
        })
    );
}

#[test]
fn preserves_additional_equals_in_value() {
    assert_eq!(
        parse(b"--example=a=b=c"),
        Some(Argument {
            name: b"example",
            value: Some(b"a=b=c"),
        })
    );
}

#[test]
fn rejects_argument_without_double_dash() {
    assert_eq!(parse(b"qnum=200"), None);
}

#[test]
fn rejects_empty_name() {
    assert_eq!(parse(b"--"), None);
}

#[test]
fn rejects_empty_argument() {
    assert_eq!(parse(b""), None);
}

#[test]
fn rejects_single_dash() {
    assert_eq!(parse(b"-qnum=200"), None);
}

#[test]
fn rejects_empty_name_before_value() {
    assert_eq!(parse(b"--=200"), None);
}

#[test]
fn argument_text_round_trips() {
    let text: &[u8] = b"--lua-init=@a=b.lua";
    let arg = parse(text).unwrap();
    let mut rebuilt = b"--".to_vec();
    rebuilt.extend_from_slice(arg.name);
    if let Some(v) = arg.value {
        rebuilt.push(b'=');
        rebuilt.extend_from_slice(v);
    }
    assert_eq!(rebuilt, text);
    assert_eq!(arg.name, b"lua-init");
    assert_eq!(arg.value, Some(&b"@a=b.lua"[..]));
}
