use vuln_roundup::advisory::{AdvErr, Advisory};

fn cve(y: u16, n: u64) -> Advisory {
    Advisory::new(y, n)
}

#[test]
fn fmt_cve() {
    assert_eq!(cve(2019, 544).to_string(), "CVE-2019-0544");
    assert_eq!(cve(2019, 3544).to_string(), "CVE-2019-3544");
    assert_eq!(cve(2019, 1003544).to_string(), "CVE-2019-1003544");
}

#[test]
fn parse_cve() {
    assert_eq!(
        Advisory::parse("CVE-2019-20484").expect("parse error"),
        cve(2019, 20484)
    );
}

#[test]
fn parse_invalid_cves() {
    assert!(matches!(Advisory::parse(""), Err(AdvErr::ParseCVE(..))));
    assert!(matches!(Advisory::parse("foo"), Err(AdvErr::ParseCVE(..))));
    assert!(matches!(Advisory::parse("CVE-20"), Err(AdvErr::ParseCVE(..))));
    assert!(matches!(Advisory::parse("CVE-20-1"), Err(AdvErr::ParseCVE(..))));
    assert!(matches!(Advisory::parse("CVE-2014-"), Err(AdvErr::ParseCVE(..))));
}

#[test]
fn ordering() {
    assert!(cve(2019, 9999) < cve(2019, 10000));
}

#[test]
fn serialize() {
    assert_eq!(
        format!("\"{}\"", Advisory::new(2021, 134).to_string()),
        "\"CVE-2021-0134\""
    );
}

#[test]
fn deserialize() {
    assert_eq!(
        Advisory::parse("CVE-2021-12345").unwrap(),
        Advisory::new(2021, 12345)
    );
}

#[test]
fn round_trip_canonical() {
    // the rendered identifier is the canonical form of the parsed string
    let a = Advisory::parse("CVE-2019-544").unwrap();
    assert_eq!(a.to_string(), "CVE-2019-0544");
    let b = Advisory::parse(&a.to_string()).unwrap();
    assert_eq!(a, b);
}

#[test]
fn error_message() {
    match Advisory::parse("nonsense") {
        Err(e) => assert_eq!(e.message(), "Failed to parse CVE identifier `nonsense'"),
        Ok(_) => panic!("expected an error"),
    }
}

#[test]
fn as_tuple_pair() {
    assert_eq!(cve(2019, 544).as_tuple(), (2019, 544));
}
