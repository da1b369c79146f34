use beamprop::report::{
    csv, extinction_row, is_result, join, list, object, output_name, quoted, Entry, Output,
};

fn strings(parts: &[&str]) -> Vec<String> {
    parts.iter().map(|s| s.to_string()).collect()
}

#[test]
fn parts_are_joined_by_what_stands_between_them() {
    assert_eq!(join(&strings(&[]), ", "), "");
    assert_eq!(join(&strings(&["a"]), ", "), "a");
    assert_eq!(join(&strings(&["a", "b", "c"]), ", "), "a, b, c");
    assert_eq!(list(&strings(&["1", "2"])), "[1, 2]");
    assert_eq!(list(&strings(&[])), "[]");
    assert_eq!(quoted("turbulence"), "\"turbulence\"");
}

#[test]
fn an_object_has_an_entry_to_a_line() {
    let entry = |key: &str, value: &str| Entry {
        key: key.to_string(),
        value: value.to_string(),
    };
    let text = object(&[entry("case", "\"lsd\""), entry("cells", "2500")]);
    assert_eq!(text, "{\n  \"case\": \"lsd\",\n  \"cells\": 2500\n}\n");
}

#[test]
fn a_table_has_a_row_to_a_line() {
    let rows = vec![strings(&["1", "2"]), strings(&["3", "4"])];
    assert_eq!(csv("p,i\n", &rows), "p,i\n1,2\n3,4\n");
    assert_eq!(csv("p,i\n", &[]), "p,i\n");
}

#[test]
fn the_extinction_row_says_where_the_coefficient_comes_from() {
    assert_eq!(
        extinction_row(false, None, "0"),
        "| Extinction | none (vacuum) |\n"
    );
    assert_eq!(
        extinction_row(true, None, "1.0e-3"),
        "| Extinction α | 1.0e-3 1/m |\n"
    );
    assert_eq!(
        extinction_row(true, Some("5000"), "1.0e-3"),
        "| Extinction α (Kruse, visibility 5000 m) | 1.0e-3 1/m |\n"
    );
}

#[test]
fn every_output_but_the_tables_is_cleaned_away() {
    let all = [
        (Output::Plane, "run.npy"),
        (Output::SideView, "run_xz.npy"),
        (Output::SideViews, "run_xz_frames.npy"),
        (Output::Frames, "run_frames.npy"),
        (Output::FinalPlane, "run_final.npy"),
        (Output::LongExposure, "run_longexp.npy"),
        (Output::Traces, "run_ne_traces.npy"),
        (Output::Profiles, "run_profiles.npy"),
        (Output::Threshold, "run_threshold.csv"),
        (Output::Trajectory, "run_trajectory.csv"),
        (Output::Meta, "run_meta.json"),
        (Output::Notes, "run_notes.md"),
    ];
    for (output, name) in all {
        assert_eq!(output_name("run", output), name);
        assert_eq!(is_result(name), !name.ends_with(".csv"), "{name}");
    }
}

#[test]
fn what_is_not_a_result_is_kept() {
    assert!(is_result("figure.png"));
    assert!(is_result("movie.gif"));
    assert!(!is_result("README.md"));
    assert!(!is_result("notes.md"));
    assert!(!is_result("Cargo.toml"));
    assert!(!is_result("npy"));
    assert!(!is_result(""));
}
