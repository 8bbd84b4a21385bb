use vuln_roundup::package::Package;

#[test]
fn package_package_name_version() {
    let p = Package::new("openssl", "1.0.2d");
    assert_eq!("openssl", p.pname());
    assert_eq!("1.0.2d", p.version());
}

#[test]
fn package_format() {
    let p = Package::new("binutils", "2.32.1");
    assert_eq!("binutils-2.32.1", p.to_string());
}

#[test]
fn package_parse() {
    assert_eq!(
        Package::new("exiv2", "0.27.1"),
        Package::parse("exiv2-0.27.1").unwrap()
    );
    assert!(Package::parse("exiv2").is_err());
    assert!(Package::parse("linux-kernel").is_err());
    assert_eq!(
        Package::new("linux-kernel", "5.2"),
        Package::parse("linux-kernel-5.2").unwrap()
    );
}

#[test]
fn source_package_name_version() {
    let p = Package::new("openssl", "1.0.2d");
    assert_eq!("openssl", p.pname());
    assert_eq!("1.0.2d", p.version());
}

#[test]
fn source_format() {
    let p = Package::new("binutils", "2.32.1");
    assert_eq!("binutils-2.32.1", p.to_string());
}

#[test]
fn source_parse() {
    assert_eq!(
        Package::new("exiv2", "0.27.1"),
        Package::parse("exiv2-0.27.1").unwrap()
    );
    assert!(Package::parse("exiv2").is_err());
    assert!(Package::parse("linux-kernel").is_err());
    assert_eq!(
        Package::new("linux-kernel", "5.2"),
        Package::parse("linux-kernel-5.2").unwrap()
    );
}

#[test]
fn package_error_message() {
    match Package::parse("exiv2") {
        Err(e) => assert_eq!(
            e.message(),
            "Failed to find version in derivation name 'exiv2'"
        ),
        Ok(_) => panic!("expected an error"),
    }
}

#[test]
fn package_eq_str() {
    let p = Package::parse("ncurses-6.1").unwrap();
    assert!(p.eq_str("ncurses-6.1"));
    assert!(!p.eq_str("ncurses-6.2"));
    assert_eq!(p.as_str(), "ncurses-6.1");
}
