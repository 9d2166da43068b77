use express_trainer::export::{export_plan, ExportPlan};
use express_trainer::export::{numbered_name, obsidian_file_name, sanitize_title, MAX_TITLE_CHARS};

#[test]
fn sanitize_strips_illegal_chars_and_whitespace() {
    assert_eq!(sanitize_title("  自律/练习:第一课*?  "), "自律_练习_第一课");
    assert_eq!(sanitize_title(""), "");
    assert_eq!(sanitize_title("///"), "");
}

#[test]
fn sanitize_truncates_long_titles() {
    let long = "长".repeat(80);
    assert_eq!(sanitize_title(&long).chars().count(), MAX_TITLE_CHARS);
}

#[test]
fn obsidian_names_for_kinds_and_empty_title() {
    assert_eq!(obsidian_file_name("report", "自律", "2026-08-30"), "2026-08-30-自律.md");
    assert_eq!(obsidian_file_name("transcript", "自律", "2026-08-30"), "2026-08-30-自律-逐字稿.md");
    assert_eq!(obsidian_file_name("report", "", "2026-08-30"), "2026-08-30.md");
}

#[test]
fn numbered_names_go_before_the_extension() {
    assert_eq!(numbered_name("2026-08-30-自律.md", 2), "2026-08-30-自律-2.md");
    assert_eq!(numbered_name("2026-08-30-自律.md", 3), "2026-08-30-自律-3.md");
    assert_eq!(numbered_name("notes", 2), "notes-2");
    assert_eq!(numbered_name(".hidden", 2), ".hidden-2");
    assert_eq!(numbered_name("a.tar.gz", 12), "a.tar-12.gz");
    assert_eq!(numbered_name("a.", 2), "a-2");
}

#[test]
fn export_goes_to_vault_or_dialog() {
    match export_plan("  /notes  ", "transcript", Some("  自律  "), "2026-08-29") {
        ExportPlan::Vault { vault, file_name } => {
            assert_eq!(vault, "/notes");
            assert_eq!(file_name, "2026-08-29-自律-逐字稿.md");
        },
        other => panic!("unexpected {other:?}"),
    }
    assert_eq!(
        export_plan("   ", "report", None, "2026-08-29"),
        ExportPlan::Dialog { suggested_name: "2026-08-29.md".to_string() }
    );
}
