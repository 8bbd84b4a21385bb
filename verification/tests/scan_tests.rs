use vuln_roundup::advisory::Advisory;
use vuln_roundup::package::Package;
use vuln_roundup::scan::{scan_exit_ok, InputPkgs, Patches, VulnixRes};
use vuln_roundup::source::{
    maintainer_contacts, AllPackages, Maintainer, NixEnvPkg, PkgMeta,
};
use vuln_roundup::store::StoreContents;

fn adv(s: &str) -> Advisory {
    Advisory::parse(s).unwrap()
}

fn pkg(s: &str) -> Package {
    Package::parse(s).unwrap()
}

fn record(attr: &str, name: &str, maints: Vec<Maintainer>) -> (String, NixEnvPkg) {
    (
        attr.to_string(),
        NixEnvPkg {
            pkg: name.to_string(),
            system: "x86_64-linux".to_string(),
            meta: PkgMeta {
                available: true,
                maintainers: maints,
                outputs: vec![],
                known_vulnerabilities: vec![],
            },
        },
    )
}

#[test]
fn should_add_maintainers() {
    let pkgmap = vec![
        record(
            "ncurses",
            "ncurses-6.1",
            vec![Maintainer::new("andir"), Maintainer::new("edolstra")],
        ),
        record("binutils", "binutils-2.30", vec![Maintainer::new("ericson2314")]),
    ];
    let scan = vec![
        VulnixRes::new(pkg("ncurses-6.1"), vec![adv("CVE-2018-10754")]),
        VulnixRes::new(pkg("binutils-2.30"), vec![adv("CVE-2018-1000876")]),
    ];
    let scan: Vec<VulnixRes> = scan
        .into_iter()
        .map(|res| res.add_maintainers(&pkgmap))
        .collect();
    assert_eq!(scan[0].pkg.as_str(), "ncurses-6.1");
    assert_eq!(
        maintainer_contacts(&scan[0].maintainers),
        vec!["andir", "edolstra"]
    );
    assert_eq!(scan[1].pkg.as_str(), "binutils-2.30");
    assert_eq!(maintainer_contacts(&scan[1].maintainers), vec!["ericson2314"]);
}

#[test]
fn parse_maintainers() {
    // unstructured entries carry no contact handle; structured ones do
    let unstructured = vec![
        Maintainer::Unstructured("unstructured1".to_string()),
        Maintainer::Unstructured("unstructured2".to_string()),
    ];
    assert_eq!(maintainer_contacts(&unstructured), Vec::<String>::new());
    let structured = vec![Maintainer::Structured {
        github: Some("structured1".to_string()),
        email: Some("mail@address".to_string()),
    }];
    assert_eq!(maintainer_contacts(&structured), vec!["structured1"]);
}

#[test]
fn parse_nested_maintainers() {
    let maints = vec![
        Maintainer::Nested(vec![
            Maintainer::Structured {
                github: Some("nest1".to_string()),
                email: Some("nest1@gmail.com".to_string()),
            },
            Maintainer::Structured {
                github: Some("nest2".to_string()),
                email: Some("nest2@example.com".to_string()),
            },
        ]),
        Maintainer::Structured {
            github: Some("outer".to_string()),
            email: Some("outer@protonmail.com".to_string()),
        },
    ];
    assert_eq!(maintainer_contacts(&maints), vec!["nest1", "nest2", "outer"]);
}

#[test]
fn parse_known_vulnerabilities() {
    // known vulnerabilities are carried through to the scanner input
    let all = AllPackages {
        packages: vec![{
            let mut e = record("libav", "libav-11.12", vec![]);
            e.1.meta.known_vulnerabilities =
                vec!["CVE-2017-9051".to_string(), "CVE-2018-5684".to_string()];
            e
        }],
    };
    let input = InputPkgs::new(&all, &Patches(vec![]));
    assert_eq!(input.0.len(), 1);
    assert_eq!(
        input.0[0].1.known_vulnerabilities,
        vec!["CVE-2017-9051", "CVE-2018-5684"]
    );
}

#[test]
fn scanner_exit_codes() {
    assert!(scan_exit_ok(Some(0)));
    assert!(scan_exit_ok(Some(2)));
    assert!(!scan_exit_ok(Some(3)));
    assert!(!scan_exit_ok(None));
}

#[test]
fn retain_available_packages() {
    let mut all = AllPackages {
        packages: vec![
            record("good", "zsh-5.7.1", vec![]),
            {
                let mut e = record("unavailable", "gone-1.0", vec![]);
                e.1.meta.available = false;
                e
            },
            {
                let mut e = record("otherarch", "other-1.0", vec![]);
                e.1.system = "aarch64-linux".to_string();
                e
            },
            record("unversioned", "no-version", vec![]),
        ],
    };
    all.retain_available();
    assert_eq!(all.packages.len(), 1);
    assert_eq!(all.packages[0].0, "good");
}

#[test]
fn retain_installed_packages() {
    let mut stores = StoreContents::new();
    stores.add_listing("zsh-5.7.1\n", false);
    let mut all = AllPackages {
        packages: vec![
            record("zsh", "zsh-5.7.1", vec![]),
            record("gone", "gone-1.0", vec![]),
        ],
    };
    all.retain_installed(&stores);
    assert_eq!(all.packages.len(), 1);
    assert_eq!(all.packages[0].1.pkg, "zsh-5.7.1");
}

#[test]
fn patch_lookup() {
    let patches = Patches(vec![
        ("attr.a".to_string(), vec!["fix-a.patch".to_string()]),
        ("attr.b".to_string(), vec![]),
    ]);
    assert_eq!(patches.lookup("attr.a"), vec!["fix-a.patch"]);
    assert_eq!(patches.lookup("attr.c"), Vec::<String>::new());
}
