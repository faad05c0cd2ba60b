use raytracer::log_error;

#[test]
fn reports_error_and_causes() {
    let lines = log_error(
        "pixels.render",
        "render failed",
        &vec!["surface lost".to_string(), "device gone".to_string()],
    );
    assert_eq!(
        lines,
        vec![
            "pixels.render() failed: render failed".to_string(),
            "  Caused by: surface lost".to_string(),
            "  Caused by: device gone".to_string(),
        ]
    );
}

#[test]
fn reports_error_without_cause() {
    let lines = log_error("gui.prepare", "oops", &vec![]);
    assert_eq!(lines, vec!["gui.prepare() failed: oops".to_string()]);
}
