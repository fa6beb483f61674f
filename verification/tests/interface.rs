use haucet::erofs::windows::{
    plain, symlink_target, windows_components_match, windows_path_components, OutsideTree, Part,
};
use haucet::flash::script::{FlashStep, RebootMode};
use haucet::jobs::board::{JobResult, Page};
use haucet::jobs::interface::{
    format_window_title, result_mark, AppDialog, DialogEffects, DialogInput, Interface, Settings,
};

use haucet::jobs::message::Value;
use haucet::jobs::steps::describe_tr;

fn settings(last_seen_version: Option<&str>) -> Settings {
    Settings {
        dark: true,
        transparent_window: false,
        startup_notice_accepted: false,
        last_seen_version: last_seen_version.map(|version| version.to_string()),
    }
}

fn input(transparent: Option<bool>, dark: Option<bool>, close: bool) -> DialogInput {
    DialogInput { transparent, dark, close }
}

fn effects(set_theme: bool, save: bool, restart_note: bool) -> DialogEffects {
    DialogEffects { set_theme, save, restart_note }
}

#[test]
fn new_versions_introduce_themselves_once() {
    let mut window = Interface::new(settings(Some("1.0")), true, "1.1");
    assert_eq!(window.dialog, Some(AppDialog::About));
    assert_eq!(window.current, Page::Home);
    assert!(!window.vibrancy_enabled);
    assert_eq!(window.show_dialog(input(None, None, false), "1.1"), effects(false, true, false));
    assert_eq!(window.settings.last_seen_version.as_deref(), Some("1.1"));
    assert_eq!(window.show_dialog(input(None, None, true), "1.1"), effects(false, false, false));
    assert_eq!(window.dialog, None);
    assert_eq!(window.show_dialog(input(Some(true), None, false), "1.1"), effects(false, false, false));
    assert!(!window.settings.transparent_window);
    assert_eq!(Interface::new(settings(Some("1.1")), true, "1.1").dialog, None);
    assert_eq!(Interface::new(settings(None), true, "1.1").dialog, Some(AppDialog::About));
}

#[test]
fn transparent_windows_are_light() {
    let mut window = Interface::new(settings(Some("1")), true, "1");
    window.open_dialog(AppDialog::Settings);
    assert_eq!(window.show_dialog(input(None, None, false), "1"), effects(false, false, false));
    assert_eq!(window.show_dialog(input(Some(true), None, false), "1"), effects(true, true, true));
    assert!(window.settings.transparent_window && !window.settings.dark);
    assert_eq!(window.show_dialog(input(None, Some(true), false), "1"), effects(false, false, true));
    assert!(!window.settings.dark);
    assert_eq!(window.show_dialog(input(Some(false), None, false), "1"), effects(true, true, false));
    assert_eq!(window.show_dialog(input(None, Some(true), true), "1"), effects(true, true, false));
    assert!(window.settings.dark);
    assert_eq!(window.dialog, None);
}

#[test]
fn pages_wait_for_the_notice() {
    let mut window = Interface::new(settings(None), false, "1");
    assert!(!window.shows_pages());
    window.accept_notice();
    assert!(window.shows_pages());
    window.nav(Page::Fastboot);
    assert_eq!(window.current, Page::Fastboot);
}

#[test]
fn titles_and_marks_tell_what_runs() {
    assert_eq!(format_window_title(None).key, "app-title-idle");
    let running = format_window_title(Some(7));
    assert_eq!(running.key, "app-title-running");
    assert_eq!(running.arguments.len(), 1);
    assert_eq!(running.arguments[0].name, "seconds");
    let result = |ok, cancelled| JobResult { ok, cancelled, summary: String::new(), payload: None };
    assert_eq!(result_mark(&result(true, true)).key, "job-status-cancelled");
    assert_eq!(result_mark(&result(true, false)).key, "job-status-success");
    assert_eq!(result_mark(&result(false, false)).key, "job-status-failed");
}

fn strings(parts: &[&str]) -> Vec<String> {
    parts.iter().map(|part| part.to_string()).collect()
}

fn named(name: &str) -> Part {
    Part::Named { name: name.to_string() }
}

#[test]
fn paths_of_windows_are_compared_part_by_part() {
    assert_eq!(plain("C:\\a\\b"), "C:/a/b");
    assert_eq!(plain("\\\\?\\C:\\a"), "C:/a");
    assert_eq!(plain("\\\\?\\UNC\\server\\share\\a"), "//server/share/a");
    let parts = vec![named("C:"), Part::Root, named("a"), Part::Current, named("b"), Part::Parent];
    assert_eq!(windows_path_components(&parts), strings(&["C:", "/", "a"]));
    assert_eq!(
        windows_path_components(&vec![Part::Parent, Part::Parent, named("a")]),
        strings(&["..", "..", "a"])
    );
    assert_eq!(windows_path_components(&vec![Part::Root, Part::Parent]), strings(&["/", ".."]));
    assert_eq!(windows_path_components(&vec![named("C:"), Part::Parent]), strings(&["C:", ".."]));
    assert!(windows_components_match(&strings(&["C:", "A"]), &strings(&["c:", "a"])));
    assert!(!windows_components_match(&strings(&["C:", "A"]), &strings(&["c:"])));
}

#[test]
fn links_of_windows_are_rebased_to_the_tree() {
    let root = strings(&["C:", "/", "source"]);
    let find = |observed: &str, parts: &[&str], recorded: Option<&str>, extracted: Option<&[&str]>| {
        symlink_target(
            observed,
            &strings(parts),
            &recorded.map(|target| target.to_string()),
            &extracted.map(strings),
            &root,
        )
    };
    assert_eq!(find("destination", &["destination"], None, None), Ok("destination".to_string()));
    assert_eq!(
        find("C:/source/destination", &["c:", "/", "Source", "destination"], None, None),
        Ok("/destination".to_string())
    );
    assert_eq!(
        find("C:/source/a/b", &["C:", "/", "source", "a", "b"], None, None),
        Ok("/a/b".to_string())
    );
    assert_eq!(find("C:/source", &["C:", "/", "source"], None, None), Ok("/".to_string()));
    assert_eq!(find("D:/x", &["D:", "/", "x"], None, None), Err(OutsideTree));
    assert_eq!(find("//server/x", &["//server/x", "/"], None, None), Err(OutsideTree));
    assert_eq!(
        find("D:/old/bin", &["D:", "/", "old", "bin"], Some("/bin"), Some(&["d:", "/", "OLD", "bin"])),
        Ok("/bin".to_string())
    );
    assert_eq!(
        find("D:/old/bin", &["D:", "/", "old", "bin"], Some("bin"), Some(&["D:", "/", "old", "bin"])),
        Err(OutsideTree)
    );
    assert_eq!(find("x:y", &["x:y"], Some("x:y"), None), Ok("x:y".to_string()));
}

#[test]
fn steps_are_announced() {
    let upload = describe_tr(&FlashStep::VcomUpload {
        port: "auto".to_string(),
        address: "0x23000".to_string(),
        file: "loader.bin".to_string(),
    });
    assert_eq!(upload.key, "flash-step-vcom-upload");
    assert_eq!(upload.arguments[0].name, "file");
    assert!(matches!(&upload.arguments[0].value, Value::Text { text } if text == "loader.bin"));
    assert_eq!(upload.arguments[1].name, "port");
    let reboot = describe_tr(&FlashStep::FastbootReboot { mode: RebootMode::Recovery });
    assert_eq!(reboot.key, "flash-step-reboot");
    assert!(matches!(&reboot.arguments[0].value, Value::Text { text } if text == "recovery"));
    let pause = describe_tr(&FlashStep::Sleep { millis: 500 });
    assert!(matches!(pause.arguments[0].value, Value::Number { number: 500 }));
    assert!(describe_tr(&FlashStep::Alert { message: "m".to_string() }).arguments.is_empty());
}
