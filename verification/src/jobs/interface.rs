//! The state of the window around the pages: its dialogs, the notice that is
//! shown first, and the settings that dialogs change.

use vstd::prelude::*;

use crate::jobs::board::{JobResult, Page};
use crate::jobs::message;
use crate::jobs::message::Message;
use crate::oeminfo::payload::text_of;
use crate::text;

verus! {

/// The dialogs of the window.
#[derive(Debug, Clone, Copy, PartialEq, Eq, Structural)]
pub enum AppDialog {
    About,
    Settings,
}

/// What is kept from one start to the next.
#[derive(Debug)]
pub struct Settings {
    pub dark: bool,
    pub transparent_window: bool,
    pub startup_notice_accepted: bool,
    pub last_seen_version: Option<String>,
}

/// The window around the pages.
#[derive(Debug)]
pub struct Interface {
    pub current: Page,
    pub settings: Settings,
    pub dialog: Option<AppDialog>,
    pub vibrancy_enabled: bool,
    pub transparent_window_at_startup: bool,
}

/// What the user did in the dialog that is shown: the boxes that changed, and
/// whether the dialog is closed.
#[derive(Debug, Clone, Copy, PartialEq, Eq, Structural)]
pub struct DialogInput {
    pub transparent: Option<bool>,
    pub dark: Option<bool>,
    pub close: bool,
}

/// What follows from the input: the theme is set anew, the settings are saved,
/// and a note says that a restart is needed.
#[derive(Debug, Clone, Copy, PartialEq, Eq, Structural)]
pub struct DialogEffects {
    pub set_theme: bool,
    pub save: bool,
    pub restart_note: bool,
}

/// True when the running version was not seen before.
pub open spec fn is_news(last_seen: Option<String>, version: Seq<char>) -> bool {
    text_of(last_seen) != Some(version)
}

fn check_news(last_seen: &Option<String>, version: &str) -> (news: bool)
    ensures
        news == is_news(*last_seen, version@),
{
    match last_seen {
        Some(seen) => !text::same_text(seen.as_str(), version),
        None => true,
    }
}

/// True when the dark theme can be chosen.
pub open spec fn dark_is_offered(w: Interface) -> bool {
    !w.settings.transparent_window && !w.vibrancy_enabled
}

/// The settings after changes in their dialog: a transparent window is a light
/// one, and the dark theme can be chosen for others only.
pub open spec fn changed(w: Interface, input: DialogInput) -> Interface {
    let transparent = match input.transparent {
        Some(on) => on,
        None => w.settings.transparent_window,
    };
    let dark = if input.transparent == Some(true) {
        false
    } else {
        w.settings.dark
    };
    let first = Interface {
        settings: Settings { transparent_window: transparent, dark, ..w.settings },
        ..w
    };
    match input.dark {
        Some(on) if dark_is_offered(first) => Interface {
            settings: Settings { dark: on, ..first.settings },
            ..first
        },
        _ => first,
    }
}

/// True when the input changes a box that can be changed.
pub open spec fn changes(w: Interface, input: DialogInput) -> bool {
    ||| input.transparent is Some
    ||| input.dark is Some && dark_is_offered(changed(w, input))
}

impl Interface {
    /// The window at the start: the dialog about the program is shown once for
    /// each version, and the window is only see-through where that was asked for
    /// and the system can do it.
    pub fn new(settings: Settings, can_be_transparent: bool, version: &str) -> (window: Interface)
        ensures
            window.current == Page::Home,
            window.settings == settings,
            window.dialog == if is_news(settings.last_seen_version, version@) {
                Some(AppDialog::About)
            } else {
                None
            },
            window.vibrancy_enabled == (settings.transparent_window && can_be_transparent),
            window.transparent_window_at_startup == settings.transparent_window,
    {
        let transparent = settings.transparent_window;
        let dialog = if check_news(&settings.last_seen_version, version) {
            Some(AppDialog::About)
        } else {
            None
        };
        Interface {
            current: Page::Home,
            settings,
            dialog,
            vibrancy_enabled: transparent && can_be_transparent,
            transparent_window_at_startup: transparent,
        }
    }

    /// True when pages are shown: only once the notice is accepted.
    pub fn shows_pages(&self) -> (shows: bool)
        ensures
            shows == self.settings.startup_notice_accepted,
    {
        self.settings.startup_notice_accepted
    }

    /// The user accepts the notice.
    pub fn accept_notice(&mut self)
        ensures
            *final(self) == (Interface {
                settings: Settings { startup_notice_accepted: true, ..old(self).settings },
                ..*old(self)
            }),
    {
        self.settings.startup_notice_accepted = true;
    }

    /// Goes to a page.
    pub fn nav(&mut self, page: Page)
        ensures
            *final(self) == (Interface { current: page, ..*old(self) }),
    {
        self.current = page;
    }

    /// Opens a dialog.
    pub fn open_dialog(&mut self, dialog: AppDialog)
        ensures
            *final(self) == (Interface { dialog: Some(dialog), ..*old(self) }),
    {
        self.dialog = Some(dialog);
    }

    /// Carries out what the user did in the dialog that is shown, if one is.
    pub fn show_dialog(&mut self, input: DialogInput, version: &str) -> (effects: DialogEffects)
        ensures
            match old(self).dialog {
                None => {
                    &&& *final(self) == *old(self)
                    &&& !effects.set_theme && !effects.save && !effects.restart_note
                },
                Some(AppDialog::Settings) => {
                    &&& *final(self) == (Interface {
                        dialog: if input.close {
                            None
                        } else {
                            old(self).dialog
                        },
                        ..changed(*old(self), input)
                    })
                    &&& effects.set_theme == changes(*old(self), input)
                    &&& effects.save == changes(*old(self), input)
                    &&& effects.restart_note == (final(self).settings.transparent_window
                        != old(self).transparent_window_at_startup)
                },
                Some(AppDialog::About) => {
                    let news = is_news(old(self).settings.last_seen_version, version@);
                    &&& !effects.set_theme && !effects.restart_note
                    &&& effects.save == news
                    &&& !news ==> final(self).settings == old(self).settings
                    &&& !is_news(final(self).settings.last_seen_version, version@)
                    &&& *final(self) == (Interface {
                        settings: Settings {
                            last_seen_version: final(self).settings.last_seen_version,
                            ..old(self).settings
                        },
                        dialog: if input.close {
                            None
                        } else {
                            old(self).dialog
                        },
                        ..*old(self)
                    })
                },
            },
    {
        let shown = match self.dialog {
            Some(shown) => shown,
            None => {
                return DialogEffects { set_theme: false, save: false, restart_note: false };
            },
        };
        let mut effects = DialogEffects { set_theme: false, save: false, restart_note: false };
        match shown {
            AppDialog::Settings => {
                let mut changed_any = false;
                if let Some(on) = input.transparent {
                    self.settings.transparent_window = on;
                    changed_any = true;
                    if on {
                        self.settings.dark = false;
                    }
                }
                if let Some(on) = input.dark {
                    if !self.settings.transparent_window && !self.vibrancy_enabled {
                        self.settings.dark = on;
                        changed_any = true;
                    }
                }
                effects = DialogEffects {
                    set_theme: changed_any,
                    save: changed_any,
                    restart_note: self.settings.transparent_window
                        != self.transparent_window_at_startup,
                };
            },
            AppDialog::About => {
                if check_news(&self.settings.last_seen_version, version) {
                    self.settings.last_seen_version = Some(
                        text::string_of(text::chars_of(version).as_slice()),
                    );
                    effects = DialogEffects { set_theme: false, save: true, restart_note: false };
                }
            },
        }
        if input.close {
            self.dialog = None;
        }
        effects
    }
}

/// The mark before the result of a job in the log.
pub open spec fn mark_of(result: JobResult) -> Seq<char> {
    if result.cancelled {
        "job-status-cancelled"@
    } else if result.ok {
        "job-status-success"@
    } else {
        "job-status-failed"@
    }
}

/// The mark before the result of a job in the log.
pub fn result_mark(result: &JobResult) -> (mark: Message)
    ensures
        mark@ == message::said(mark_of(*result)),
{
    if result.cancelled {
        Message::new("job-status-cancelled")
    } else if result.ok {
        Message::new("job-status-success")
    } else {
        Message::new("job-status-failed")
    }
}

/// The title of the window, with the seconds that a job has been running.
pub fn format_window_title(elapsed: Option<u64>) -> (title: Message)
    ensures
        title@ == match elapsed {
            Some(seconds) => message::said("app-title-running"@).with_number(
                "seconds"@,
                seconds,
            ),
            None => message::said("app-title-idle"@),
        },
{
    match elapsed {
        Some(seconds) => Message::new("app-title-running").number("seconds", seconds),
        None => Message::new("app-title-idle"),
    }
}

/// A window that is not dark and transparent at once does not become so by what
/// is changed in the dialog.
pub proof fn law_transparent_windows_are_light(w: Interface, input: DialogInput)
    requires
        w.settings.transparent_window ==> !w.settings.dark,
    ensures
        changed(w, input).settings.transparent_window ==> !changed(w, input).settings.dark,
{
}

/// The boxes of the settings set what they say: the window is transparent as was
/// asked; the dark theme is as was asked where it can be chosen, off where the
/// window becomes transparent, and else as before. Nothing else changes.
pub proof fn law_boxes_set_what_they_say(w: Interface, input: DialogInput)
    ensures
        ({
            let after = changed(w, input);
            let offered = !after.settings.transparent_window && !w.vibrancy_enabled;
            &&& input.transparent is Some ==> after.settings.transparent_window
                == input.transparent->0
            &&& input.transparent is None ==> after.settings.transparent_window
                == w.settings.transparent_window
            &&& input.dark is Some && offered ==> after.settings.dark == input.dark->0
            &&& input.transparent == Some(true) ==> !after.settings.dark
            &&& (input.dark is None || !offered) && input.transparent != Some(true)
                ==> after.settings.dark == w.settings.dark
            &&& after.current == w.current && after.dialog == w.dialog
            &&& after.vibrancy_enabled == w.vibrancy_enabled
            &&& after.transparent_window_at_startup == w.transparent_window_at_startup
            &&& after.settings.startup_notice_accepted == w.settings.startup_notice_accepted
            &&& after.settings.last_seen_version == w.settings.last_seen_version
            &&& changes(w, input) <==> input.transparent is Some || (input.dark is Some && offered)
        }),
{
}

/// A version is news where none was seen, or another one.
pub proof fn law_other_versions_are_news(seen: String, version: Seq<char>)
    ensures
        is_news(None, version),
        is_news(Some(seen), version) <==> seen@ != version,
{
}

/// The log marks a result as what it is.
pub proof fn law_results_are_marked(result: JobResult)
    ensures
        result.cancelled ==> mark_of(result) == "job-status-cancelled"@,
        !result.cancelled && result.ok ==> mark_of(result) == "job-status-success"@,
        !result.cancelled && !result.ok ==> mark_of(result) == "job-status-failed"@,
{
}

/// The title of the window shows the seconds that a job has been running, and none
/// where no job runs.
pub proof fn law_titles_show_seconds(elapsed: Option<u64>, title: Message)
    requires
        call_ensures(format_window_title, (elapsed,), title),
    ensures
        elapsed matches Some(seconds) ==> title@.key == "app-title-running"@
            && message::shows_number(title@, "seconds"@, seconds),
        elapsed is None ==> title@ == message::said("app-title-idle"@),
{
    if elapsed is Some {
        assert(title@.arguments[0].name == "seconds"@);
    }
}

/// A window starts at the first page with the settings that were kept; it is
/// see-through where they ask for it and the system can do it, and tells about the
/// program where the version is new.
pub proof fn law_windows_start_at_home(
    settings: Settings,
    can_be_transparent: bool,
    version: &str,
    window: Interface,
)
    requires
        call_ensures(Interface::new, (settings, can_be_transparent, version), window),
    ensures
        window.current == Page::Home && window.settings == settings,
        window.dialog == Some(AppDialog::About) <==> is_news(settings.last_seen_version, version@),
        window.dialog is None || window.dialog == Some(AppDialog::About),
        window.vibrancy_enabled <==> settings.transparent_window && can_be_transparent,
        window.transparent_window_at_startup == settings.transparent_window,
{
}

} // verus!
