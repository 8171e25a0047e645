//! JSON replies.

use scry3::json::{parse_reply, raw_reply, write_json, BadJson, Json};

#[test]
fn a_reply_is_taken_apart() {
    let j = parse_reply(br#"{"b":[1,-2,"x",null,true],"a":{"k":"v"}}"#).unwrap();
    assert_eq!(j.size(), 2);
    let list = j.get("b").unwrap();
    assert_eq!(list.count(), 5);
    assert_eq!(list.item(0).as_u64(), Some(1));
    assert_eq!(list.item(1).as_u64(), None);
    assert!(matches!(list.item(1), Json::Int(-2)));
    assert_eq!(list.item(2).as_str(), Some("x"));
    assert!(matches!(list.item(3), Json::Null));
    assert!(matches!(list.item(4), Json::Bool(true)));
    assert_eq!(j.get("a").unwrap().str_at("k"), "v");
    assert_eq!(j.get("a").unwrap().str_at("z"), "");
    // Members come in the order of their keys.
    assert_eq!(j.value(0).size(), 1);
    assert_eq!(j.value(1).count(), 5);
    assert!(j.get("c").is_none());
    assert!(Json::Null.get("a").is_none());
}

#[test]
fn an_empty_reply_is_null() {
    assert!(matches!(parse_reply(b""), Ok(Json::Null)));
    assert_eq!(raw_reply(Vec::new()).unwrap(), b"");
}

#[test]
fn a_reply_that_is_no_json() {
    assert!(matches!(parse_reply(b"{"), Err(BadJson)));
    assert!(raw_reply(b"nope".to_vec()).is_err());
}

#[test]
fn a_raw_reply_is_left_as_it_is() {
    let reply = b"{ \"b\" : [ 1.50 , 2 ],\n \"a\" : \"\\u00e4\" }\n";
    assert_eq!(raw_reply(reply.to_vec()).unwrap(), reply);
}

#[test]
fn numbers_of_each_kind() {
    let j = parse_reply(b"[18446744073709551615,-9223372036854775808,0.5]").unwrap();
    assert!(matches!(j.item(0), Json::UInt(u64::MAX)));
    assert!(matches!(j.item(1), Json::Int(i64::MIN)));
    match j.item(2) {
        Json::Float(s) => assert_eq!(s, "0.5"),
        other => panic!("{other:?}"),
    }
}

#[test]
fn json_is_written() {
    let j = Json::Object(vec![
        ("a".to_string(), Json::List(vec![Json::UInt(1), Json::Int(-1), Json::Null])),
        ("b".to_string(), Json::Text("q\"\n".to_string())),
    ]);
    assert_eq!(write_json(&j), "{\"a\":[1,-1,null],\"b\":\"q\\\"\\n\"}");
}

#[test]
fn what_is_written_reads_back() {
    let j = Json::Object(vec![("k".to_string(), Json::Bool(false))]);
    let text = write_json(&j);
    let back = parse_reply(text.as_bytes()).unwrap();
    assert!(matches!(back.get("k"), Some(Json::Bool(false))));
    assert_eq!(write_json(&back), text);
}
