use std::cmp::Ordering;
use vuln_roundup::advisory::Advisory;
use vuln_roundup::branches::Branch;
use vuln_roundup::package::Package;
use vuln_roundup::scan::VulnixRes;
use vuln_roundup::source::Maintainer;
use vuln_roundup::ticket::{cmp_score, ticket_list, Detail, Ticket};

fn adv(s: &str) -> Advisory {
    Advisory::parse(s).unwrap()
}

fn pkg(s: &str) -> Package {
    Package::parse(s).unwrap()
}

fn br(s: &str) -> Branch {
    Branch::parse(s).unwrap()
}

/// Helper for quick construction of Detail structs.
fn det(branches: &[&str], score: Option<u32>) -> Detail {
    Detail {
        branches: branches.iter().map(|&b| Branch::new(b)).collect(),
        score,
        description: None,
    }
}

fn det_br(branches: &[&Branch], score: Option<u32>, desc: Option<String>) -> Detail {
    Detail {
        branches: branches.iter().map(|&b| b.clone()).collect(),
        score,
        description: desc,
    }
}

#[test]
fn decode_scan_single_branch() {
    let scan = vec![(
        Branch::new("br1"),
        vec![
            VulnixRes::new(pkg("ncurses-6.1"), vec![adv("CVE-2018-10754")]),
            VulnixRes::new(
                pkg("libtiff-4.0.9"),
                vec![
                    adv("CVE-2018-17000"),
                    adv("CVE-2018-17100"),
                    adv("CVE-2018-17101"),
                ],
            ),
        ],
    )];
    assert_eq!(
        ticket_list(1, scan),
        vec![
            Ticket {
                iteration: 1,
                pkg: pkg("libtiff-4.0.9"),
                affected: vec![
                    (adv("CVE-2018-17000"), det(&["br1"], None)),
                    (adv("CVE-2018-17100"), det(&["br1"], None)),
                    (adv("CVE-2018-17101"), det(&["br1"], None)),
                ],
                maintainers: vec![],
            },
            Ticket {
                iteration: 1,
                pkg: pkg("ncurses-6.1"),
                affected: vec![(adv("CVE-2018-10754"), det(&["br1"], None))],
                maintainers: vec![],
            },
        ]
    );
}

#[test]
fn decode_scan_multiple_branches() {
    let mut r1 = VulnixRes::new(
        pkg("libtiff-4.0.9"),
        vec![adv("CVE-2018-17100"), adv("CVE-2018-17101")],
    );
    r1.cvssv3_basescore.insert(adv("CVE-2018-17100"), 88);
    r1.cvssv3_basescore.insert(adv("CVE-2018-17101"), 87);
    let mut r2 = VulnixRes::new(pkg("libtiff-4.0.9"), vec![adv("CVE-2018-17101")]);
    r2.cvssv3_basescore.insert(adv("CVE-2018-17101"), 87);
    let scan = vec![
        (Branch::new("br1"), vec![r1]),
        (Branch::new("br2"), vec![r2]),
    ];
    assert_eq!(
        ticket_list(2, scan),
        vec![Ticket {
            iteration: 2,
            pkg: pkg("libtiff-4.0.9"),
            affected: vec![
                (adv("CVE-2018-17100"), det(&["br1"], Some(88))),
                (adv("CVE-2018-17101"), det(&["br1", "br2"], Some(87))),
            ],
            maintainers: vec![],
        }]
    );
}

#[test]
fn rendered_ticket() {
    let br = vec![
        br("br0=5d4a1a3897e2d674522bcb3aa0026c9e32d8fd7c"),
        br("br1=80738ed9dc0ce48d7796baed5364eef8072c794d"),
    ];
    let tkt = Ticket {
        iteration: 2,
        pkg: pkg("libtiff-4.0.9"),
        affected: vec![
            (adv("CVE-2018-17000"), det_br(&[&br[0]], None, None)),
            (
                adv("CVE-2018-17100"),
                det_br(&[&br[0]], Some(87), Some("Detail 17100".into())),
            ),
            (
                adv("CVE-2018-17101"),
                det_br(&[&br[0], &br[1]], Some(88), Some("Detail 17101".into())),
            ),
        ],
        maintainers: vec![],
    };
    // sorted by score in decreasing order, undefined scores last
    let out = tkt.render_full();
    println!("{}", out);
    assert_eq!(
        out,
        "\
# Vulnerability roundup 2: libtiff-4.0.9: 3 advisories [8.8]\n\
\n\
[search](https://search.nix.gsc.io/?q=libtiff&i=fosho&repos=NixOS-nixpkgs), \
[files](https://github.com/NixOS/nixpkgs/search?utf8=%E2%9C%93&q=libtiff+in%3Apath&type=Code)\n\
\n\
* [ ] [CVE-2018-17101](https://nvd.nist.gov/vuln/detail/CVE-2018-17101) CVSSv3=8.8 (br0, br1)\n\
* [ ] [CVE-2018-17100](https://nvd.nist.gov/vuln/detail/CVE-2018-17100) CVSSv3=8.7 (br0)\n\
* [ ] [CVE-2018-17000](https://nvd.nist.gov/vuln/detail/CVE-2018-17000) (br0)\n\
\n\
## CVE details\n\
\n\
### CVE-2018-17101\n\
\n\
Detail 17101\n\
\n\
### CVE-2018-17100\n\
\n\
Detail 17100\n\
\n\
-----\n\
Scanned versions: br0: 5d4a1a3897e; br1: 80738ed9dc0.\n\n\
        "
    );
}

#[test]
fn render_ticket_ping_maintainers() {
    let b = br("branch0=80738ed9dc0ce48d7796baed5364eef8072c794d");
    let tkt = Ticket {
        iteration: 3,
        pkg: pkg("libtiff-4.0.9"),
        affected: vec![(adv("CVE-2018-17000"), det_br(&[&b], None, None))],
        maintainers: vec![Maintainer::new("ericson2314")],
    };
    let out = tkt.render_full();
    println!("{}", out);
    assert!(out.contains("Cc @ericson2314"));
}

#[test]
fn print_only_relevant_branches() {
    let br = vec![
        br("nixos-18.09=5d4a1a3897e2d674522bcb3aa0026c9e32d8fd7c"),
        br("nixos-unstable=80738ed9dc0ce48d7796baed5364eef8072c794d"),
    ];
    let tkt = Ticket {
        iteration: 1,
        pkg: pkg("libtiff-4.0.9"),
        affected: vec![(adv("CVE-2018-17100"), det_br(&[&br[0]], Some(88), None))],
        maintainers: vec![],
    };
    let body = tkt.render(false);
    assert!(
        body.contains("versions: nixos-18.09: 5d4a1a3897e"),
        "branch summary not correct:\n{}",
        body
    );
    assert!(!body.contains("nixos-unstable"));
}

#[test]
fn cmp_score_ordering() {
    assert_eq!(
        cmp_score(
            &(adv("CVE-2019-0001"), det(&[], Some(51))),
            &(adv("CVE-2019-0001"), det(&[], Some(51)))
        ),
        Ordering::Equal
    );
    assert_eq!(
        cmp_score(
            &(adv("CVE-2019-0001"), det(&[], Some(50))),
            &(adv("CVE-2019-0001"), det(&[], Some(51)))
        ),
        Ordering::Greater
    );
    assert_eq!(
        cmp_score(
            &(adv("CVE-2019-0001"), det(&[], Some(0))),
            &(adv("CVE-2019-0001"), det(&[], None))
        ),
        Ordering::Less
    );
    assert_eq!(
        cmp_score(
            &(adv("CVE-2019-10000"), det(&[], Some(55))),
            &(adv("CVE-2019-9999"), det(&[], Some(55)))
        ),
        Ordering::Greater
    );
}

#[test]
fn max_score() {
    let tkt = Ticket {
        iteration: 0,
        pkg: pkg("libtiff-4.0.9"),
        affected: vec![(adv("CVE-2018-17100"), det(&[], None))],
        maintainers: vec![],
    };
    assert!(tkt.max_score().is_none());

    let tkt = Ticket {
        iteration: 0,
        pkg: pkg("libtiff-4.0.9"),
        affected: vec![
            (adv("CVE-2018-17100"), det(&[], None)),
            (adv("CVE-2020-12755"), det(&[], Some(33))),
            (adv("CVE-2020-12767"), det(&[], Some(98))),
        ],
        maintainers: vec![],
    };
    assert_eq!(tkt.max_score().unwrap(), 98);
}

#[test]
fn summary_headline() {
    let tkt = Ticket {
        iteration: 2,
        pkg: pkg("libtiff-4.0.9"),
        affected: vec![(adv("CVE-2018-17000"), det(&["br0"], None))],
        maintainers: vec![],
    };
    assert_eq!(
        tkt.summary(),
        "Vulnerability roundup 2: libtiff-4.0.9: 1 advisory"
    );
}

#[test]
fn maintainers_sorted_and_deduplicated() {
    let b = Branch::new("br1");
    let mut r1 = VulnixRes::new(pkg("libtiff-4.0.9"), vec![adv("CVE-2018-17000")]);
    r1.maintainers = vec![
        Maintainer::new("zeta"),
        Maintainer::new("alpha"),
        Maintainer::new("zeta"),
    ];
    let scan = vec![(b, vec![r1])];
    let tickets = ticket_list(1, scan);
    assert_eq!(
        tickets[0].maintainers,
        vec![Maintainer::new("alpha"), Maintainer::new("zeta")]
    );
}
