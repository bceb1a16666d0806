//! The terminal frontend: what each key asks for.
use vstd::prelude::*;

use crate::app::AppState;
use crate::browse::Action;
use crate::browse::ActionView;
use crate::browse::Browser;
use crate::browse::BrowserView;
use crate::browse::Command;
use crate::browse::Dialog;
use crate::browse::DialogView;
use crate::browse::Tab;
use crate::snapshot::UiSnapshot;

verus! {

/// A key of the terminal.
#[derive(Clone, Copy, Debug, PartialEq, Eq)]
pub enum Key {
    Char(char),
    Enter,
    Esc,
    Tab,
    Up,
    Down,
    Left,
    Right,
    PageUp,
    PageDown,
    Home,
    End,
    Backspace,
    Delete,
    Other,
}

/// What a key asks for: what any frontend does, or scrolling the overview.
#[derive(Clone, Copy, Debug, PartialEq, Eq)]
pub enum TuiCommand {
    Shared(Command),
    ScrollUp,
    ScrollDown,
    ScrollPageUp,
    ScrollPageDown,
    ScrollTop,
}

/// Whether a key goes one down.
pub open spec fn is_down(key: Key) -> bool {
    key == Key::Down || key == Key::Char('j')
}

/// Whether a key goes one up.
pub open spec fn is_up(key: Key) -> bool {
    key == Key::Up || key == Key::Char('k')
}

/// What a key asks for in the listing.
pub open spec fn explorer_command(key: Key) -> Command {
    if is_down(key) {
        Command::MoveDown
    } else if is_up(key) {
        Command::MoveUp
    } else {
        match key {
            Key::PageDown => Command::PageDown,
            Key::PageUp => Command::PageUp,
            Key::Home => Command::Home,
            Key::End => Command::End,
            Key::Enter | Key::Right => Command::Enter,
            Key::Backspace | Key::Left => Command::Back,
            Key::Delete => Command::Delete,
            Key::Char(c) => if c == 'l' {
                Command::Enter
            } else if c == 'h' {
                Command::Back
            } else if c == 's' {
                Command::ToggleSort
            } else if c == 'd' {
                Command::Delete
            } else {
                Command::Nothing
            },
            _ => Command::Nothing,
        }
    }
}

/// What a key asks for in the overview.
pub open spec fn overview_command(key: Key) -> TuiCommand {
    if is_down(key) {
        TuiCommand::ScrollDown
    } else if is_up(key) {
        TuiCommand::ScrollUp
    } else {
        match key {
            Key::PageDown => TuiCommand::ScrollPageDown,
            Key::PageUp => TuiCommand::ScrollPageUp,
            Key::Home => TuiCommand::ScrollTop,
            _ => TuiCommand::Shared(Command::Nothing),
        }
    }
}

/// What a key asks for in the drive picker.
pub open spec fn picker_command(key: Key) -> Command {
    if is_down(key) {
        Command::PickDown
    } else if is_up(key) {
        Command::PickUp
    } else if key == Key::Enter {
        Command::PickSelect
    } else if key == Key::Esc || key == Key::Char('g') {
        Command::Cancel
    } else {
        Command::Nothing
    }
}

/// What a key asks for when a deletion is to be confirmed.
pub open spec fn confirm_command(key: Key) -> Command {
    if key == Key::Char('y') || key == Key::Char('Y') {
        Command::ConfirmYes
    } else if key == Key::Char('n') || key == Key::Char('N') || key == Key::Esc {
        Command::Cancel
    } else {
        Command::Nothing
    }
}

/// What a key asks for. An open dialog takes every key; any key closes a
/// result.
pub open spec fn key_command(dialog: DialogView, tab: Tab, key: Key) -> TuiCommand {
    match dialog {
        DialogView::ConfirmDelete { .. } => TuiCommand::Shared(confirm_command(key)),
        DialogView::DeleteResult { .. } => TuiCommand::Shared(Command::Cancel),
        DialogView::DrivePicker { .. } => TuiCommand::Shared(picker_command(key)),
        DialogView::Closed => if key == Key::Tab {
            TuiCommand::Shared(Command::NextTab)
        } else if key == Key::Char('q') || key == Key::Esc {
            TuiCommand::Shared(Command::Quit)
        } else if key == Key::Char('r') {
            TuiCommand::Shared(Command::Scan)
        } else if key == Key::Char('g') {
            TuiCommand::Shared(Command::Drives)
        } else {
            match tab {
                Tab::Explorer => TuiCommand::Shared(explorer_command(key)),
                Tab::Overview => overview_command(key),
            }
        },
    }
}

fn explorer_key(key: Key) -> (r: Command)
    ensures
        r == explorer_command(key),
{
    match key {
        Key::Down => Command::MoveDown,
        Key::Up => Command::MoveUp,
        Key::PageDown => Command::PageDown,
        Key::PageUp => Command::PageUp,
        Key::Home => Command::Home,
        Key::End => Command::End,
        Key::Enter => Command::Enter,
        Key::Right => Command::Enter,
        Key::Backspace => Command::Back,
        Key::Left => Command::Back,
        Key::Delete => Command::Delete,
        Key::Char(c) => if c == 'j' {
            Command::MoveDown
        } else if c == 'k' {
            Command::MoveUp
        } else if c == 'l' {
            Command::Enter
        } else if c == 'h' {
            Command::Back
        } else if c == 's' {
            Command::ToggleSort
        } else if c == 'd' {
            Command::Delete
        } else {
            Command::Nothing
        },
        _ => Command::Nothing,
    }
}

fn overview_key(key: Key) -> (r: TuiCommand)
    ensures
        r == overview_command(key),
{
    match key {
        Key::Down => TuiCommand::ScrollDown,
        Key::Up => TuiCommand::ScrollUp,
        Key::PageDown => TuiCommand::ScrollPageDown,
        Key::PageUp => TuiCommand::ScrollPageUp,
        Key::Home => TuiCommand::ScrollTop,
        Key::Char(c) => if c == 'j' {
            TuiCommand::ScrollDown
        } else if c == 'k' {
            TuiCommand::ScrollUp
        } else {
            TuiCommand::Shared(Command::Nothing)
        },
        _ => TuiCommand::Shared(Command::Nothing),
    }
}

fn picker_key(key: Key) -> (r: Command)
    ensures
        r == picker_command(key),
{
    match key {
        Key::Down => Command::PickDown,
        Key::Up => Command::PickUp,
        Key::Enter => Command::PickSelect,
        Key::Esc => Command::Cancel,
        Key::Char(c) => if c == 'j' {
            Command::PickDown
        } else if c == 'k' {
            Command::PickUp
        } else if c == 'g' {
            Command::Cancel
        } else {
            Command::Nothing
        },
        _ => Command::Nothing,
    }
}

fn confirm_key(key: Key) -> (r: Command)
    ensures
        r == confirm_command(key),
{
    match key {
        Key::Esc => Command::Cancel,
        Key::Char(c) => if c == 'y' || c == 'Y' {
            Command::ConfirmYes
        } else if c == 'n' || c == 'N' {
            Command::Cancel
        } else {
            Command::Nothing
        },
        _ => Command::Nothing,
    }
}

fn is_char(key: Key, letter: char) -> (r: bool)
    ensures
        r == (key == Key::Char(letter)),
{
    match key {
        Key::Char(c) => c == letter,
        _ => false,
    }
}

/// Computes [`key_command`].
pub fn command_for(dialog: &Dialog, tab: Tab, key: Key) -> (r: TuiCommand)
    ensures
        r == key_command(dialog@, tab, key),
{
    match dialog {
        Dialog::ConfirmDelete { .. } => TuiCommand::Shared(confirm_key(key)),
        Dialog::DeleteResult { .. } => TuiCommand::Shared(Command::Cancel),
        Dialog::DrivePicker { .. } => TuiCommand::Shared(picker_key(key)),
        Dialog::Closed => {
            match key {
                Key::Tab => {
                    return TuiCommand::Shared(Command::NextTab);
                },
                Key::Esc => {
                    return TuiCommand::Shared(Command::Quit);
                },
                _ => {},
            }
            if is_char(key, 'q') {
                TuiCommand::Shared(Command::Quit)
            } else if is_char(key, 'r') {
                TuiCommand::Shared(Command::Scan)
            } else if is_char(key, 'g') {
                TuiCommand::Shared(Command::Drives)
            } else {
                match tab {
                    Tab::Explorer => TuiCommand::Shared(explorer_key(key)),
                    Tab::Overview => overview_key(key),
                }
            }
        },
    }
}

/// What the terminal frontend holds.
#[verifier::ext_equal]
pub struct TuiView {
    pub browser: BrowserView,
    pub frame_count: usize,
    pub overview_scroll: usize,
}

/// What the terminal frontend holds.
pub struct TuiApp {
    pub browser: Browser,
    pub frame_count: usize,
    pub overview_scroll: usize,
}

impl View for TuiApp {
    type V = TuiView;

    open spec fn view(&self) -> TuiView {
        TuiView {
            browser: self.browser@,
            frame_count: self.frame_count,
            overview_scroll: self.overview_scroll,
        }
    }
}

/// The first shown line of the overview after a command.
pub open spec fn overview_scrolled(scroll: usize, command: TuiCommand, visible: usize) -> usize {
    match command {
        TuiCommand::ScrollDown => scroll.saturating_add(1),
        TuiCommand::ScrollUp => scroll.saturating_sub(1),
        TuiCommand::ScrollPageDown => scroll.saturating_add(visible),
        TuiCommand::ScrollPageUp => scroll.saturating_sub(visible),
        TuiCommand::ScrollTop => 0,
        TuiCommand::Shared(_) => scroll,
    }
}

/// The part of a command that any frontend does.
pub open spec fn shared_part(command: TuiCommand) -> Command {
    match command {
        TuiCommand::Shared(shared) => shared,
        _ => Command::Nothing,
    }
}

impl TuiApp {
    /// A terminal frontend of a controller.
    pub fn new(state: AppState) -> (r: TuiApp)
        ensures
            r@ == (TuiView {
                browser: BrowserView::fresh(state@),
                frame_count: 0,
                overview_scroll: 0,
            }),
    {
        TuiApp { browser: Browser::new(state), frame_count: 0, overview_scroll: 0 }
    }

    /// Begins a frame with the latest snapshot, if there is a new one.
    pub fn poll_snapshot(&mut self, latest: Option<UiSnapshot>)
        ensures
            final(self)@ == (TuiView {
                browser: (match latest {
                    Some(snapshot) => BrowserView {
                        snapshot: snapshot@,
                        ..old(self)@.browser
                    },
                    None => old(self)@.browser,
                }).clamped(),
                frame_count: old(self)@.frame_count.wrapping_add(1),
                ..old(self)@
            }),
    {
        self.frame_count = self.frame_count.wrapping_add(1);
        self.browser.take_snapshot(latest);
    }

    /// Does what a pressed key asks for; the answer is what is to be done
    /// outside.
    pub fn on_key(&mut self, key: Key, visible_rows: usize, now: std::time::Instant) -> (r: Action)
        requires
            old(self)@.browser.dialog.valid(),
            old(self)@.browser.command_fits(
                shared_part(
                    key_command(old(self)@.browser.dialog, old(self)@.browser.tab, key),
                ),
                visible_rows as int,
            ),
        ensures
            ({
                let command = key_command(
                    old(self)@.browser.dialog,
                    old(self)@.browser.tab,
                    key,
                );
                &&& old(self)@.browser.obeys(
                    shared_part(command),
                    visible_rows as int,
                    now,
                    final(self)@.browser,
                    r@,
                )
                &&& final(self)@.overview_scroll == overview_scrolled(
                    old(self)@.overview_scroll,
                    command,
                    visible_rows,
                )
                &&& final(self)@.frame_count == old(self)@.frame_count
            }),
            final(self)@.browser.dialog.valid(),
    {
        let command = command_for(&self.browser.dialog, self.browser.tab, key);
        match command {
            TuiCommand::Shared(shared) => {
                return self.browser.perform(shared, visible_rows, now);
            },
            TuiCommand::ScrollDown => {
                self.overview_scroll = self.overview_scroll.saturating_add(1);
            },
            TuiCommand::ScrollUp => {
                self.overview_scroll = self.overview_scroll.saturating_sub(1);
            },
            TuiCommand::ScrollPageDown => {
                self.overview_scroll = self.overview_scroll.saturating_add(visible_rows);
            },
            TuiCommand::ScrollPageUp => {
                self.overview_scroll = self.overview_scroll.saturating_sub(visible_rows);
            },
            TuiCommand::ScrollTop => {
                self.overview_scroll = 0;
            },
        }
        Action::Nothing
    }

    /// Whether [`TuiApp::on_key`] overflows no index and has a drive where it
    /// needs one.
    pub fn key_fits(&self, key: Key, visible_rows: usize) -> (r: bool)
        ensures
            r == self@.browser.command_fits(
                shared_part(key_command(self@.browser.dialog, self@.browser.tab, key)),
                visible_rows as int,
            ),
    {
        match command_for(&self.browser.dialog, self.browser.tab, key) {
            TuiCommand::Shared(shared) => self.browser.command_has_room(shared, visible_rows),
            _ => true,
        }
    }
}

/// Whatever is typed while a deletion is to be confirmed, nothing is deleted
/// unless the answer is yes.
pub proof fn law_only_yes_deletes(
    browser: BrowserView,
    key: Key,
    visible: int,
    now: std::time::Instant,
    after: BrowserView,
    action: ActionView,
)
    requires
        browser.obeys(
            shared_part(key_command(browser.dialog, browser.tab, key)),
            visible,
            now,
            after,
            action,
        ),
        action is Delete,
    ensures
        browser.dialog is ConfirmDelete,
        key == Key::Char('y') || key == Key::Char('Y'),
        action == (ActionView::Delete {
            path: browser.dialog->path,
            is_dir: browser.dialog->is_dir,
        }),
{
}

} // verus!
