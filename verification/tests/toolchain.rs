//! The staged toolchain.

use straw::toolchain::{check, describe, prefix, resolve, Prefix, STAGE_BINS, SYSTEM_PATH};

#[test]
fn bin_dir_sits_under_the_prefix() {
    let p = Prefix {
        root: "/w/bdd/.stage".to_string(),
    };
    assert_eq!(p.bin_dir(), "/w/bdd/.stage/bin");
    assert_eq!(p.root(), "/w/bdd/.stage");
}

#[test]
fn path_env_puts_the_stage_first() {
    let p = Prefix {
        root: "/w/bdd/.stage".to_string(),
    };
    assert_eq!(
        p.path_env(),
        format!("PATH=/w/bdd/.stage/bin:{}", SYSTEM_PATH)
    );
}

#[test]
fn a_trailing_slash_is_not_doubled() {
    let p = Prefix {
        root: "/w/".to_string(),
    };
    assert_eq!(p.bin_dir(), "/w/bin");
    let empty = Prefix {
        root: String::new(),
    };
    assert_eq!(empty.bin_dir(), "bin");
}

#[test]
fn the_environment_beats_the_stage_and_blank_is_unset() {
    assert_eq!(
        resolve(Some("  /opt/p \n"), "/w/.stage", true),
        Some(("/opt/p".to_string(), "$STRAW_BDD_PREFIX"))
    );
    assert_eq!(
        resolve(Some("   "), "/w/.stage", true),
        Some(("/w/.stage".to_string(), "the staged toolchain"))
    );
    assert_eq!(resolve(None, "/w/.stage", false), None);
}

#[test]
fn an_incomplete_stage_names_the_first_missing_binary() {
    assert_eq!(STAGE_BINS, ["straw", "strawc", "test_client"]);
    let e = check("/w".to_string(), "the staged toolchain", [true, false, false])
        .err()
        .unwrap();
    assert_eq!(
        e,
        "the staged toolchain at /w is incomplete (missing /w/bin/strawc); \
         re-run `make -C bdd stage`"
    );
    assert!(check("/w".to_string(), "x", [true, true, true]).is_ok());
    assert!(prefix(None, [false; 3]).unwrap().is_none());
    assert!(prefix(Some(("/w".to_string(), "x")), [false; 3]).is_err());
    let p = prefix(Some(("/w".to_string(), "x")), [true; 3]).unwrap().unwrap();
    assert_eq!(p.root(), "/w");
}

#[test]
fn the_description_names_the_stage_or_the_host() {
    let p = Prefix {
        root: "/w".to_string(),
    };
    assert_eq!(
        describe(Some(&p), 42),
        "toolchain: staged at /w (straw 42 bytes)"
    );
    assert!(describe(None, 0).starts_with("toolchain: host PATH"));
}
