use spideog::cli::{Output, OutputFile, OutputKind};

#[test]
fn dash_and_nothing_mean_standard_output() {
    assert!(matches!(OutputKind::from_path(None), OutputKind::Stdout));
    assert!(matches!(OutputKind::from_path(Some("-".to_string())), OutputKind::Stdout));
    assert!(matches!(OutputKind::from_path(Some("out.nwk".to_string())), OutputKind::File(p) if p == "out.nwk"));
    let out = Output::from_file(OutputFile { path: Some("--".to_string()), overwrite: true });
    assert!(out.overwrite);
    assert!(matches!(out.kind, OutputKind::File(p) if p == "--"));
}
