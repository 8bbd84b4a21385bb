use vuln_roundup::branches::{Branch, BranchErr, Branches};

fn br(spec: &str) -> Branch {
    Branch::parse(spec).unwrap()
}

#[test]
fn correct_branchspecs() {
    assert_eq!(
        Branch::parse("nixos-18.09").unwrap(),
        Branch {
            name: "nixos-18.09".to_string(),
            rev: "nixos-18.09".to_string(),
        }
    );
    assert_eq!(
        Branch::parse("nixos-18.09=55f4cd48").unwrap(),
        Branch {
            name: "nixos-18.09".to_string(),
            rev: "55f4cd48".to_string(),
        }
    );
    assert_eq!(
        Branch::parse("nixos-18.09=origin/release-18.09").unwrap(),
        Branch {
            name: "nixos-18.09".to_string(),
            rev: "origin/release-18.09".to_string(),
        }
    );
}

#[test]
fn branchspec_invalid_chars() {
    assert!(Branch::parse("nixos 18.09").is_err());
    assert!(Branch::parse("origin/nixos-18.09").is_err());
}

#[test]
fn branchspec_empty() {
    assert!(Branch::parse("nixos=").is_err());
    assert!(Branch::parse("=abcdefg").is_err());
}

#[test]
fn no_duplicate_branch_names() {
    assert!(Branches::init(&vec![br("a"), br("b")]).is_ok());
    assert!(Branches::init(&vec![br("a"), br("b"), br("a")]).is_err());
}

#[test]
fn duplicate_branch_error_names_the_branch() {
    match Branches::init(&vec![br("a"), br("b"), br("a")]) {
        Err(BranchErr::Duplicate { name }) => assert_eq!(name, "a"),
        _ => panic!("expected a duplicate-branch error"),
    }
}

#[test]
fn vulnix_json_name() {
    assert_eq!(br("nixos-18.09").vulnix_json_name(), "vulnix.nixos-18.09.json");
}
