use bc4py_plotter::node::{new_address_url, read_address_reply, AddressReply};
use bc4py_plotter::prompt::answer_or_default;

#[test]
fn answers() {
    assert_eq!(answer_or_default("  ./plots \n", "x"), "./plots");
    assert_eq!(answer_or_default("\n", "./plots"), "./plots");
    assert_eq!(answer_or_default("   \t\r\n", "ok"), "ok");
    assert_eq!(answer_or_default("a b\n", "ok"), "a b");
    assert_eq!(answer_or_default("\u{3000}\u{a0} x \u{2028}", "ok"), "x");
    assert_eq!(answer_or_default("\u{85}\u{2009}\u{c}", "default"), "default");
    assert_eq!(answer_or_default("", "default"), "default");
}

#[test]
fn node_url() {
    assert_eq!(
        new_address_url("http", "127.0.0.1:3000"),
        "http://127.0.0.1:3000/private/newaddress?account=@Mining"
    );
}

#[test]
fn node_replies() {
    assert!(matches!(read_address_reply(404, b"{\"address\":\"X\"}"), AddressReply::BadStatus(404)));
    match read_address_reply(200, b"{\"address\":\"NDTTLPOUBQQLC5SZ4BPKK2GK6U3RP6TUKGBCCLDV\"}") {
        AddressReply::Address(a) => assert_eq!(a, "NDTTLPOUBQQLC5SZ4BPKK2GK6U3RP6TUKGBCCLDV"),
        other => panic!("unexpected {:?}", other),
    }
    assert!(matches!(read_address_reply(200, b"{}"), AddressReply::MissingAddress));
    assert!(matches!(read_address_reply(200, b"[1, 2]"), AddressReply::MissingAddress));
    assert!(matches!(read_address_reply(200, b"{\"address\": 12}"), AddressReply::AddressNotText));
    assert!(matches!(read_address_reply(200, b"{\"address\": \"\xff\"}"), AddressReply::NotJson(_)));
    match read_address_reply(200, b"not json") {
        AddressReply::NotJson(m) => assert!(!m.is_empty()),
        other => panic!("unexpected {:?}", other),
    }
}
