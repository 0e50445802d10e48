use media_package::subcommand::{Package, RunError};

fn command(root: &str, output: &str) -> Package {
    Package {
        root: root.into(),
        output: output.into(),
    }
}

#[test]
fn output_in_root_error() {
    assert_eq!(
        command("foo", "foo/bar").preflight(false, true).unwrap_err(),
        RunError::OutputInRoot {
            output: "foo/bar".into(),
            root: "foo".into(),
        }
    );
}

#[test]
fn output_is_dir_error() {
    assert_eq!(
        command("foo", "/tmp/out/foo").preflight(true, true).unwrap_err(),
        RunError::OutputIsDir {
            output: "/tmp/out/foo".into(),
        }
    );
}

#[test]
fn metadata_missing_error() {
    assert_eq!(
        command("/tmp/out/root", "/tmp/out/output.package")
            .preflight(false, false)
            .unwrap_err(),
        RunError::MetadataMissing {
            root: "/tmp/out/root".into(),
        }
    );
}

#[test]
fn sibling_with_common_prefix_is_not_in_root() {
    assert_eq!(command("foo", "foobar/out.package").preflight(false, true), Ok(()));
}

#[test]
fn preflight_decides_from_given_facts() {
    let c = command("a", "b");
    assert!(matches!(
        c.preflight_with(true, true, false),
        Err(RunError::OutputInRoot { .. })
    ));
    assert!(matches!(
        c.preflight_with(false, true, false),
        Err(RunError::OutputIsDir { .. })
    ));
    assert!(matches!(
        c.preflight_with(false, false, false),
        Err(RunError::MetadataMissing { .. })
    ));
    assert_eq!(c.preflight_with(false, false, true), Ok(()));
}
