use vuln_roundup::source::{NixEnvPkg, PkgMeta};
use vuln_roundup::store::{extract_derivations, StoreContents};

// a syntactically well-formed absolute store path for the given name
fn store_path(name: &str) -> String {
    format!("/nix/store/aaaaaaaaaaaaaaaaaaaaaaaaaaaaaaaa-{}", name)
}

fn listing(names: &[&str]) -> String {
    let mut s = String::new();
    for n in names {
        s.push_str(&store_path(n));
        s.push('\n');
    }
    s
}

fn nixenvpkg(name: &str, outputs: &[&str]) -> NixEnvPkg {
    NixEnvPkg {
        pkg: name.to_string(),
        system: "x86_64-linux".to_string(),
        meta: PkgMeta {
            available: true,
            maintainers: vec![],
            outputs: outputs.iter().map(|s| s.to_string()).collect(),
            known_vulnerabilities: vec![],
        },
    }
}

fn store_from(names: &[&str]) -> StoreContents {
    let mut sc = StoreContents::new();
    sc.add_listing(&listing(names), false);
    sc
}

#[test]
fn should_contain_derivations() {
    let a = store_from(&["zsh-5.7.1", "nspr-4.21", "nodejs-8.15.1"]);
    assert!(a.contains_name("zsh-5.7.1"));
    assert!(a.contains_name("nspr-4.21"));
    assert!(a.contains_name("nodejs-8.15.1"));
    assert!(!a.contains_name("libtiff-4.0.8"));
}

#[test]
fn filter_installed() {
    let stores = store_from(&["wdiff-1.2.2", "bzip2-1.0.6.0.1-bin", "nspr-4.21"]);
    // not present at all
    assert!(!stores.is_installed(&nixenvpkg("libtiff-4.0.8", &[])));
    // present under its bare name, no outputs involved
    assert!(stores.is_installed(&nixenvpkg("wdiff-1.2.2", &[])));
    // the "bin" output is installed, but not declared here
    assert!(!stores.is_installed(&nixenvpkg("bzip2-1.0.6.0.1", &[])));
    // "bin" output properly declared
    assert!(stores.is_installed(&nixenvpkg("bzip2-1.0.6.0.1", &["bin"])));
    // outputs declared but unused
    assert!(stores.is_installed(&nixenvpkg("nspr-4.21", &["out", "lib"])));
}

#[test]
fn line_shapes() {
    // full store path, bare hash-name pair, and plain name
    let raw = format!(
        "{}\naaaaaaaaaaaaaaaaaaaaaaaaaaaaaaaa-from-hash-1.0\nplain-2.0\n  \n",
        store_path("from-path-1.0")
    );
    let names = extract_derivations(&raw);
    assert_eq!(
        names,
        vec![
            "from-path-1.0".to_string(),
            "from-hash-1.0".to_string(),
            "plain-2.0".to_string(),
        ]
    );
}

#[test]
fn output_qualified_store_dump() {
    // a dump holding an output-qualified path matches the package once the
    // output is declared, or once suffix stripping is enabled
    let raw = format!("{}\n", store_path("db-5.3.28-bin"));
    let mut plain = StoreContents::new();
    plain.add_listing(&raw, false);
    assert!(!plain.is_installed(&nixenvpkg("db-5.3.28", &[])));
    assert!(plain.is_installed(&nixenvpkg("db-5.3.28", &["bin"])));

    let mut stripped = StoreContents::new();
    stripped.add_listing(&raw, true);
    assert!(stripped.is_installed(&nixenvpkg("db-5.3.28", &[])));
}
