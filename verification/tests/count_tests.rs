use vuln_roundup::count::{count, count_cves, parse_title_key, Issue};

fn issue(title: &str, body: &str) -> Issue {
    Issue {
        id: 0,
        url: String::new(),
        html_url: String::new(),
        number: 0,
        title: title.to_string(),
        body: body.to_string(),
    }
}

#[test]
fn counts_unchecked_cves() {
    let body = "\
* [ ] [CVE-2018-17100](link)\n\
* [x] [CVE-2018-17101](link)\n\
* [ ] [CVE-2019-1](link)\n\
plain text [ ] [CVE-20a-1] no digits after the dash: [ ] [CVE-1-]\n";
    assert_eq!(count_cves(body), 2);
    assert_eq!(count_cves(""), 0);
    assert_eq!(count_cves("[ ] [CVE-2018-17100]"), 1);
}

#[test]
fn title_keys() {
    assert_eq!(
        parse_title_key("Vulnerability roundup 63: libtiff-4.0.9: 3 advisories"),
        Some(63)
    );
    assert_eq!(parse_title_key("something else"), None);
    assert_eq!(parse_title_key("Vulnerability roundup : broken"), None);
}

#[test]
fn counts_by_roundup() {
    let issues = vec![
        issue(
            "Vulnerability roundup 63: libtiff-4.0.9: 2 advisories",
            "* [ ] [CVE-2018-17100](l)\n* [ ] [CVE-2018-17101](l)\n",
        ),
        issue(
            "Vulnerability roundup 63: ncurses-6.1: 1 advisory",
            "* [ ] [CVE-2018-10754](l)\n",
        ),
        issue(
            "Vulnerability roundup 64: zsh-5.7.1: 1 advisory",
            "* [ ] [CVE-2019-20044](l)\n",
        ),
        issue("unrelated issue", "nothing here"),
    ];
    let counts = count(&issues);
    assert_eq!(counts.by_roundup.len(), 2);
    let c63 = counts
        .by_roundup
        .iter()
        .find(|(k, _)| *k == 63)
        .map(|(_, c)| c)
        .unwrap();
    assert_eq!(c63.issues, 2);
    assert_eq!(c63.open_cves, 3);
    let c64 = counts
        .by_roundup
        .iter()
        .find(|(k, _)| *k == 64)
        .map(|(_, c)| c)
        .unwrap();
    assert_eq!(c64.issues, 1);
    assert_eq!(c64.open_cves, 1);
    assert_eq!(counts.total.issues, 3);
    assert_eq!(counts.total.open_cves, 4);
}
