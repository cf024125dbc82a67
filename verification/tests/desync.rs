use zashboard::desync::{
    parse, LuaDesync, LuaDesyncError, LuaDesyncKind, LuaDesyncParam, Multidisorder, Wssize,
};

fn param<'a>(name: &'a [u8], value: Option<&'a [u8]>) -> LuaDesyncParam<'a> {
    LuaDesyncParam { name, value }
}

#[test]
fn parses_desync_with_multiple_params() {
    assert_eq!(
        parse(b"wssize:wsize=1:scale=6"),
        Some(LuaDesync {
            function: b"wssize",
            params: vec![param(b"wsize", Some(b"1")), param(b"scale", Some(b"6"))],
        })
    );
}

#[test]
fn preserves_commas_inside_param_value() {
    assert_eq!(
        parse(b"multidisorder:pos=1,midsld"),
        Some(LuaDesync {
            function: b"multidisorder",
            params: vec![param(b"pos", Some(b"1,midsld"))],
        })
    );
}

#[test]
fn parses_desync_without_params() {
    assert_eq!(
        parse(b"syndata"),
        Some(LuaDesync {
            function: b"syndata",
            params: vec![],
        })
    );
}

#[test]
fn preserves_bare_params() {
    assert_eq!(
        parse(b"syndata:multisplit:strategy=23"),
        Some(LuaDesync {
            function: b"syndata",
            params: vec![param(b"multisplit", None), param(b"strategy", Some(b"23"))],
        })
    );
}

#[test]
fn rejects_empty_value() {
    assert_eq!(parse(b""), None);
}

#[test]
fn rejects_empty_function() {
    assert_eq!(parse(b":wsize=1"), None);
}

#[test]
fn rejects_empty_param() {
    assert_eq!(parse(b"wssize::scale=6"), None);
}

#[test]
fn rejects_trailing_empty_param() {
    assert_eq!(parse(b"wssize:wsize=1:"), None);
}

#[test]
fn keeps_further_equals_in_param_value() {
    assert_eq!(
        parse(b"fake:blob=a=b:=x"),
        Some(LuaDesync {
            function: b"fake",
            params: vec![param(b"blob", Some(b"a=b")), param(b"", Some(b"x"))],
        })
    );
}

#[test]
fn reads_wssize_kind() {
    let desync = parse(b"wssize:wsize=1:scale=6").unwrap();
    assert_eq!(
        desync.kind(),
        Ok(LuaDesyncKind::Wssize(Wssize {
            wsize: Some(1),
            scale: Some(6),
        }))
    );
}

#[test]
fn reads_wssize_kind_without_params() {
    let desync = parse(b"wssize").unwrap();
    assert_eq!(
        desync.kind(),
        Ok(LuaDesyncKind::Wssize(Wssize {
            wsize: None,
            scale: None,
        }))
    );
}

#[test]
fn wssize_uses_first_param_of_a_name() {
    let desync = parse(b"wssize:wsize=+7:wsize=9:scale=0").unwrap();
    assert_eq!(
        desync.kind(),
        Ok(LuaDesyncKind::Wssize(Wssize {
            wsize: Some(7),
            scale: Some(0),
        }))
    );
}

#[test]
fn rejects_wssize_with_unreadable_number() {
    for text in [
        &b"wssize:wsize=x"[..],
        &b"wssize:scale"[..],
        &b"wssize:wsize=4294967296"[..],
        &b"wssize:scale="[..],
    ] {
        let desync = parse(text).unwrap();
        assert_eq!(desync.kind(), Err(LuaDesyncError::InvalidParams));
    }
}

#[test]
fn reads_largest_wssize_number() {
    let desync = parse(b"wssize:wsize=4294967295").unwrap();
    assert_eq!(
        desync.kind(),
        Ok(LuaDesyncKind::Wssize(Wssize {
            wsize: Some(4294967295),
            scale: None,
        }))
    );
}

#[test]
fn reads_multidisorder_positions() {
    let desync = parse(b"multidisorder:pos=1,midsld+1").unwrap();
    assert_eq!(
        desync.kind(),
        Ok(LuaDesyncKind::Multidisorder(Multidisorder {
            positions: vec![&b"1"[..], &b"midsld+1"[..]],
        }))
    );
}

#[test]
fn multidisorder_without_pos_has_no_positions() {
    let desync = parse(b"multidisorder:repeats=2").unwrap();
    assert_eq!(
        desync.kind(),
        Ok(LuaDesyncKind::Multidisorder(Multidisorder { positions: vec![] }))
    );
}

#[test]
fn rejects_multidisorder_with_empty_position() {
    for text in [
        &b"multidisorder:pos=1,,midsld"[..],
        &b"multidisorder:pos="[..],
        &b"multidisorder:pos"[..],
        &b"multidisorder:pos=1,"[..],
    ] {
        let desync = parse(text).unwrap();
        assert_eq!(desync.kind(), Err(LuaDesyncError::InvalidParams));
    }
}

#[test]
fn reads_unknown_kind() {
    let desync = parse(b"fake:blob=x").unwrap();
    assert_eq!(desync.kind(), Ok(LuaDesyncKind::Unknown(b"fake")));
}
