use vuln_roundup::advisory::Advisory;
use vuln_roundup::branches::Branch;
use vuln_roundup::package::Package;
use vuln_roundup::ticket::{Detail, Ticket};
use vuln_roundup::tracker::{
    json_file_name, plan_file_emission, plan_issue_batch, ticket_file_name, RepoSpec,
};

fn ticket(name: &str) -> Ticket {
    Ticket {
        iteration: 1,
        pkg: Package::parse(name).unwrap(),
        affected: vec![(
            Advisory::parse("CVE-2018-17100").unwrap(),
            Detail {
                branches: vec![Branch::new("br0")],
                score: None,
                description: None,
            },
        )],
        maintainers: vec![],
    }
}

#[test]
fn repospec_parse() {
    assert_eq!(RepoSpec::new("foo", "bar"), RepoSpec::parse("foo/bar").unwrap());
    assert!(RepoSpec::parse("").is_err());
    assert!(RepoSpec::parse("/").is_err());
    assert!(RepoSpec::parse("/foo").is_err());
    assert!(RepoSpec::parse("foo/").is_err());
    assert!(RepoSpec::parse("foo/bar/").is_err());
}

#[test]
fn repospec_string() {
    assert_eq!(RepoSpec::new("owner", "repo").to_string(), "owner/repo");
}

#[test]
fn file_names() {
    let t = ticket("libtiff-4.0.9");
    assert_eq!(ticket_file_name(&t), "ticket.libtiff-4.0.9.md");
    assert_eq!(json_file_name(&t), "github.libtiff-4.0.9.json");
}

#[test]
fn emission_skips_existing_files() {
    let tickets = vec![ticket("libtiff-4.0.9"), ticket("ncurses-6.1")];
    let existing = vec![
        "ticket.libtiff-4.0.9.md".to_string(),
        "unrelated.txt".to_string(),
    ];
    let todo = plan_file_emission(tickets, &existing);
    assert_eq!(todo.len(), 1);
    assert_eq!(todo[0].name(), "ncurses-6.1");

    // a second run against a directory with both files emits nothing
    let tickets = vec![ticket("libtiff-4.0.9"), ticket("ncurses-6.1")];
    let existing = vec![
        "ticket.libtiff-4.0.9.md".to_string(),
        "ticket.ncurses-6.1.md".to_string(),
    ];
    let todo = plan_file_emission(tickets, &existing);
    assert_eq!(todo.len(), 0);
}

#[test]
fn issue_batches_are_limited() {
    let mut tickets = Vec::new();
    for i in 0..35 {
        tickets.push(ticket(&format!("pkg{}-1.{}", i, i)));
    }
    let existing = vec![json_file_name(&ticket("pkg0-1.0"))];
    let (batch, remaining) = plan_issue_batch(tickets, &existing);
    assert_eq!(batch.len(), 30);
    assert_eq!(remaining, 4);
    assert!(batch.iter().all(|t| t.name() != "pkg0-1.0"));
}
