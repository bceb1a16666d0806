//! Which keys ask for what.
use vstd::prelude::*;

use crate::browse::Command;
use crate::browse::DialogView;
use crate::browse::Tab;
use crate::gui::Pressed;
use crate::tui::Key;
use crate::tui::TuiCommand;

verus! {

/// In the listing each key has one meaning, and each meaning its keys: the
/// arrows and the letters h, j, k and l, Enter and Backspace move through the
/// tree, s sorts, d and Delete delete, r scans, g picks a drive, Tab switches,
/// q and Esc leave. Every other key is ignored.
pub proof fn law_keys_of_the_listing(key: Key)
    ensures
        ({
            let asks = crate::tui::key_command(DialogView::Closed, Tab::Explorer, key);
            &&& asks is Shared
            &&& asks->0 == Command::MoveDown <==> key == Key::Down || key == Key::Char('j')
            &&& asks->0 == Command::MoveUp <==> key == Key::Up || key == Key::Char('k')
            &&& asks->0 == Command::PageDown <==> key == Key::PageDown
            &&& asks->0 == Command::PageUp <==> key == Key::PageUp
            &&& asks->0 == Command::Home <==> key == Key::Home
            &&& asks->0 == Command::End <==> key == Key::End
            &&& asks->0 == Command::Enter <==> key == Key::Enter || key == Key::Right || key
                == Key::Char('l')
            &&& asks->0 == Command::Back <==> key == Key::Backspace || key == Key::Left || key
                == Key::Char('h')
            &&& asks->0 == Command::ToggleSort <==> key == Key::Char('s')
            &&& asks->0 == Command::Delete <==> key == Key::Delete || key == Key::Char('d')
            &&& asks->0 == Command::Scan <==> key == Key::Char('r')
            &&& asks->0 == Command::Drives <==> key == Key::Char('g')
            &&& asks->0 == Command::NextTab <==> key == Key::Tab
            &&& asks->0 == Command::Quit <==> key == Key::Char('q') || key == Key::Esc
            &&& asks->0 != Command::ConfirmYes && asks->0 != Command::Cancel && asks->0
                != Command::PickUp && asks->0 != Command::PickDown && asks->0
                != Command::PickSelect
        }),
{
}

/// In the overview the keys that go up and down scroll; those that scan, pick a
/// drive, switch and leave do what they do in the listing.
pub proof fn law_keys_of_the_overview(key: Key)
    ensures
        ({
            let asks = crate::tui::key_command(DialogView::Closed, Tab::Overview, key);
            let listed = crate::tui::key_command(DialogView::Closed, Tab::Explorer, key);
            &&& asks is ScrollDown <==> listed == TuiCommand::Shared(Command::MoveDown)
            &&& asks is ScrollUp <==> listed == TuiCommand::Shared(Command::MoveUp)
            &&& asks is ScrollPageDown <==> listed == TuiCommand::Shared(Command::PageDown)
            &&& asks is ScrollPageUp <==> listed == TuiCommand::Shared(Command::PageUp)
            &&& asks is ScrollTop <==> listed == TuiCommand::Shared(Command::Home)
            &&& key == Key::Tab || key == Key::Char('q') || key == Key::Esc || key == Key::Char(
                'r',
            ) || key == Key::Char('g') ==> asks == listed
            &&& asks is Shared && asks != listed ==> asks->0 == Command::Nothing
        }),
{
}

/// A dialog takes every key: a question is answered by y or n, a drive is
/// picked with the keys that go up and down and Enter, a result is closed by
/// any key.
pub proof fn law_keys_of_the_dialogs(dialog: DialogView, tab: Tab, key: Key)
    requires
        !(dialog is Closed),
    ensures
        ({
            let asks = crate::tui::key_command(dialog, tab, key);
            &&& asks is Shared
            &&& dialog is DeleteResult ==> asks->0 == Command::Cancel
            &&& dialog is ConfirmDelete ==> {
                &&& asks->0 == Command::ConfirmYes <==> key == Key::Char('y') || key == Key::Char(
                    'Y',
                )
                &&& asks->0 == Command::Cancel <==> key == Key::Char('n') || key == Key::Char('N')
                    || key == Key::Esc
                &&& asks->0 == Command::ConfirmYes || asks->0 == Command::Cancel || asks->0
                    == Command::Nothing
            }
            &&& dialog is DrivePicker ==> {
                &&& asks->0 == Command::PickDown <==> key == Key::Down || key == Key::Char('j')
                &&& asks->0 == Command::PickUp <==> key == Key::Up || key == Key::Char('k')
                &&& asks->0 == Command::PickSelect <==> key == Key::Enter
                &&& asks->0 == Command::Cancel <==> key == Key::Esc || key == Key::Char('g')
                &&& asks->0 == Command::PickDown || asks->0 == Command::PickUp || asks->0
                    == Command::PickSelect || asks->0 == Command::Cancel || asks->0
                    == Command::Nothing
            }
        }),
{
}

/// With one listing and no tabs the keys mean what they mean in the listing,
/// but for Tab, which is ignored.
pub proof fn law_keys_without_tabs(dialog: DialogView, key: Key)
    ensures
        ({
            let asks = crate::classic::key_command(dialog, key);
            let listed = crate::tui::key_command(dialog, Tab::Explorer, key);
            &&& !(dialog is Closed && key == Key::Tab) ==> listed == TuiCommand::Shared(asks)
            &&& dialog is Closed && key == Key::Tab ==> asks == Command::Nothing
        }),
{
}

/// The overview scrolls by one line or one page and stops at the top; every
/// other command leaves it where it is.
pub proof fn law_overview_scrolls(scroll: usize, visible: usize)
    ensures
        ({
            let down = crate::tui::overview_scrolled(scroll, TuiCommand::ScrollDown, visible);
            let up = crate::tui::overview_scrolled(scroll, TuiCommand::ScrollUp, visible);
            let forth = crate::tui::overview_scrolled(scroll, TuiCommand::ScrollPageDown, visible);
            let back = crate::tui::overview_scrolled(scroll, TuiCommand::ScrollPageUp, visible);
            &&& scroll < usize::MAX ==> down == scroll + 1
            &&& scroll > 0 ==> up + 1 == scroll
            &&& scroll == 0 ==> up == 0
            &&& scroll + visible <= usize::MAX ==> forth == scroll + visible
            &&& scroll >= visible ==> back + visible == scroll
            &&& scroll < visible ==> back == 0
            &&& crate::tui::overview_scrolled(scroll, TuiCommand::ScrollTop, visible) == 0
        }),
        forall|shared: Command| #[trigger]
            crate::tui::overview_scrolled(scroll, TuiCommand::Shared(shared), visible) == scroll,
{
}

/// Whether none of the keys is pressed that move through the tree.
pub open spec fn no_move(keys: Pressed) -> bool {
    &&& !keys.down && !keys.j && !keys.up && !keys.k
    &&& !keys.page_down && !keys.page_up && !keys.home && !keys.end
    &&& !keys.enter && !keys.right && !keys.l
    &&& !keys.backspace && !keys.left && !keys.h
}

/// Without a dialog a pressed key asks for what it asks for in a terminal.
pub proof fn law_pressed_keys(keys: Pressed)
    ensures
        ({
            let asks = crate::gui::keys_command(DialogView::Closed, keys);
            &&& asks == Command::Quit <==> keys.q || keys.escape
            &&& asks == Command::MoveDown ==> keys.down || keys.j
            &&& asks == Command::MoveUp ==> keys.up || keys.k
            &&& asks == Command::PageDown ==> keys.page_down
            &&& asks == Command::PageUp ==> keys.page_up
            &&& asks == Command::Home ==> keys.home
            &&& asks == Command::End ==> keys.end
            &&& asks == Command::Enter ==> keys.enter || keys.right || keys.l
            &&& asks == Command::Back ==> keys.backspace || keys.left || keys.h
            &&& asks == Command::ToggleSort ==> keys.s
            &&& asks == Command::Scan ==> keys.r
            &&& asks == Command::Delete ==> keys.d || keys.delete
            &&& asks == Command::Drives ==> keys.g
            &&& asks == Command::Nothing ==> no_move(keys) && !keys.q && !keys.escape && !keys.s
                && !keys.r && !keys.d && !keys.delete && !keys.g
            &&& asks != Command::ConfirmYes && asks != Command::Cancel && asks != Command::PickUp
                && asks != Command::PickDown && asks != Command::PickSelect && asks
                != Command::NextTab
        }),
{
}

/// In a dialog pressed keys ask for what they ask for in a terminal.
pub proof fn law_pressed_keys_of_the_dialogs(dialog: DialogView, keys: Pressed)
    requires
        !(dialog is Closed),
    ensures
        ({
            let asks = crate::gui::keys_command(dialog, keys);
            &&& dialog is DeleteResult ==> (asks == Command::Cancel <==> keys.any) && (asks
                == Command::Nothing <==> !keys.any)
            &&& dialog is ConfirmDelete ==> {
                &&& asks == Command::ConfirmYes <==> keys.y
                &&& asks == Command::Cancel <==> !keys.y && (keys.n || keys.escape)
                &&& asks == Command::ConfirmYes || asks == Command::Cancel || asks
                    == Command::Nothing
            }
            &&& dialog is DrivePicker ==> {
                &&& asks == Command::PickDown ==> keys.down || keys.j
                &&& asks == Command::PickUp ==> keys.up || keys.k
                &&& asks == Command::PickSelect ==> keys.enter
                &&& asks == Command::Cancel ==> keys.escape || keys.g
                &&& asks == Command::Nothing ==> !keys.down && !keys.j && !keys.up && !keys.k
                    && !keys.enter && !keys.escape && !keys.g
                &&& asks == Command::PickDown || asks == Command::PickUp || asks
                    == Command::PickSelect || asks == Command::Cancel || asks == Command::Nothing
            }
        }),
{
}

/// What a terminal shares with a window is what is shared; scrolling is its
/// own.
pub proof fn law_shared_commands_are_shared(command: TuiCommand)
    ensures
        command is Shared ==> crate::tui::shared_part(command) == command->0,
        !(command is Shared) ==> crate::tui::shared_part(command) == Command::Nothing,
{
}

} // verus!
