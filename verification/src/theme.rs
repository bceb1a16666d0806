//! The palettes of the frontends: styles of the terminal, colours of the
//! window.
use vstd::prelude::*;

use crate::style::Color;
use crate::style::Style;

verus! {

/// Directories.
pub const ACCENT_DIR: u8 = 111;

/// What is being scanned.
pub const ACCENT_SCAN: u8 = 215;

/// What is complete.
pub const ACCENT_DONE: u8 = 149;

/// Headings.
pub const ACCENT_HEADING: u8 = 141;

/// Errors and what destroys.
pub const WARN: u8 = 210;

/// The background of the selected row.
pub const BG_SELECTION: u8 = 24;

/// The style of headings.
pub fn heading() -> (r: Style)
    ensures
        r == crate::style::bold_in(Color::Indexed(ACCENT_HEADING)),
{
    crate::style::bold_colored(Color::Indexed(ACCENT_HEADING))
}

/// The style of directories.
pub fn dir() -> (r: Style)
    ensures
        r == crate::style::in_color(Color::Indexed(ACCENT_DIR)),
{
    crate::style::colored(Color::Indexed(ACCENT_DIR))
}

/// The style of files: as the terminal has it.
pub fn file() -> (r: Style)
    ensures
        r == crate::style::in_color(Color::Reset),
{
    crate::style::colored(Color::Reset)
}

/// The style of what is being scanned.
pub fn scanning() -> (r: Style)
    ensures
        r == crate::style::in_color(Color::Indexed(ACCENT_SCAN)),
{
    crate::style::colored(Color::Indexed(ACCENT_SCAN))
}

/// The style of what is complete.
pub fn done() -> (r: Style)
    ensures
        r == crate::style::in_color(Color::Indexed(ACCENT_DONE)),
{
    crate::style::colored(Color::Indexed(ACCENT_DONE))
}

/// The style of secondary text.
pub fn muted() -> (r: Style)
    ensures
        r == crate::style::in_color(Color::Gray),
{
    crate::style::colored(Color::Gray)
}

/// The style of errors and of what destroys.
pub fn warn() -> (r: Style)
    ensures
        r == crate::style::in_color(Color::Indexed(WARN)),
{
    crate::style::colored(Color::Indexed(WARN))
}

/// Bold text in the terminal's colours.
pub fn bold() -> (r: Style)
    ensures
        r == (Style { fg: None, bg: None, bold: true }),
{
    Style { fg: None, bg: None, bold: true }
}

/// The selected row: its text keeps its colour.
pub fn selection() -> (r: Style)
    ensures
        r == (Style { fg: None, bg: Some(Color::Indexed(BG_SELECTION)), bold: true }),
{
    Style { fg: None, bg: Some(Color::Indexed(BG_SELECTION)), bold: true }
}

/// The selected row while it is being scanned.
pub fn selection_scanning() -> (r: Style)
    ensures
        r == (Style {
            fg: Some(Color::Black),
            bg: Some(Color::Indexed(ACCENT_SCAN)),
            bold: true,
        }),
{
    Style { fg: Some(Color::Black), bg: Some(Color::Indexed(ACCENT_SCAN)), bold: true }
}

/// A colour of the window, as red, green and blue.
#[derive(Clone, Copy, Debug, PartialEq, Eq)]
pub struct Rgb {
    pub r: u8,
    pub g: u8,
    pub b: u8,
}

/// What a colour of the window is for.
#[derive(Clone, Copy, Debug, PartialEq, Eq)]
pub enum Role {
    Panel,
    Subtle,
    Inactive,
    Hover,
    Selection,
    Bar,
    Text,
    Muted,
    Dim,
    Dir,
    File,
    Scan,
    Done,
    Heading,
    Warning,
}

/// The colour for a role.
pub open spec fn role_color(role: Role) -> Rgb {
    match role {
        Role::Panel => Rgb { r: 0x10, g: 0x11, b: 0x16 },
        Role::Subtle => Rgb { r: 0x18, g: 0x1a, b: 0x21 },
        Role::Inactive => Rgb { r: 0x21, g: 0x24, b: 0x2c },
        Role::Hover => Rgb { r: 0x28, g: 0x2c, b: 0x36 },
        Role::Selection => Rgb { r: 0x1f, g: 0x29, b: 0x3f },
        Role::Bar => Rgb { r: 0x16, g: 0x18, b: 0x1d },
        Role::Text => Rgb { r: 0xc0, g: 0xca, b: 0xf5 },
        Role::Muted => Rgb { r: 0x94, g: 0x9e, b: 0xc4 },
        Role::Dim => Rgb { r: 0x56, g: 0x5f, b: 0x89 },
        Role::Dir => Rgb { r: 0x7a, g: 0xa2, b: 0xf7 },
        Role::File => Rgb { r: 0xc0, g: 0xca, b: 0xf5 },
        Role::Scan => Rgb { r: 0xe0, g: 0xaf, b: 0x68 },
        Role::Done => Rgb { r: 0x9e, g: 0xce, b: 0x6a },
        Role::Heading => Rgb { r: 0xbb, g: 0x9a, b: 0xf7 },
        Role::Warning => Rgb { r: 0xf7, g: 0x76, b: 0x8e },
    }
}

/// Computes [`role_color`].
pub fn color_of(role: Role) -> (r: Rgb)
    ensures
        r == role_color(role),
{
    match role {
        Role::Panel => Rgb { r: 0x10, g: 0x11, b: 0x16 },
        Role::Subtle => Rgb { r: 0x18, g: 0x1a, b: 0x21 },
        Role::Inactive => Rgb { r: 0x21, g: 0x24, b: 0x2c },
        Role::Hover => Rgb { r: 0x28, g: 0x2c, b: 0x36 },
        Role::Selection => Rgb { r: 0x1f, g: 0x29, b: 0x3f },
        Role::Bar => Rgb { r: 0x16, g: 0x18, b: 0x1d },
        Role::Text => Rgb { r: 0xc0, g: 0xca, b: 0xf5 },
        Role::Muted => Rgb { r: 0x94, g: 0x9e, b: 0xc4 },
        Role::Dim => Rgb { r: 0x56, g: 0x5f, b: 0x89 },
        Role::Dir => Rgb { r: 0x7a, g: 0xa2, b: 0xf7 },
        Role::File => Rgb { r: 0xc0, g: 0xca, b: 0xf5 },
        Role::Scan => Rgb { r: 0xe0, g: 0xaf, b: 0x68 },
        Role::Done => Rgb { r: 0x9e, g: 0xce, b: 0x6a },
        Role::Heading => Rgb { r: 0xbb, g: 0x9a, b: 0xf7 },
        Role::Warning => Rgb { r: 0xf7, g: 0x76, b: 0x8e },
    }
}

/// A state that a widget of the window can be in.
#[derive(Clone, Copy, Debug, PartialEq, Eq)]
pub enum WidgetState {
    Noninteractive,
    Inactive,
    Hovered,
    Active,
    Open,
}

/// The roles of a widget's surface, border and text.
#[derive(Clone, Copy, Debug, PartialEq, Eq)]
pub struct WidgetRoles {
    pub fill: Role,
    pub border: Role,
    pub text: Role,
}

/// The roles in a widget's state.
pub fn widget_roles(state: WidgetState) -> (r: WidgetRoles)
    ensures
        r.fill == match state {
            WidgetState::Noninteractive => Role::Panel,
            WidgetState::Inactive => Role::Subtle,
            WidgetState::Hovered => Role::Hover,
            WidgetState::Active => Role::Selection,
            WidgetState::Open => Role::Hover,
        },
        r.border == match state {
            WidgetState::Hovered => Role::Dir,
            WidgetState::Active => Role::Dir,
            _ => Role::Inactive,
        },
        r.text == match state {
            WidgetState::Noninteractive => Role::Muted,
            _ => Role::Text,
        },
{
    match state {
        WidgetState::Noninteractive => WidgetRoles {
            fill: Role::Panel,
            border: Role::Inactive,
            text: Role::Muted,
        },
        WidgetState::Inactive => WidgetRoles {
            fill: Role::Subtle,
            border: Role::Inactive,
            text: Role::Text,
        },
        WidgetState::Hovered => WidgetRoles {
            fill: Role::Hover,
            border: Role::Dir,
            text: Role::Text,
        },
        WidgetState::Active => WidgetRoles {
            fill: Role::Selection,
            border: Role::Dir,
            text: Role::Text,
        },
        WidgetState::Open => WidgetRoles {
            fill: Role::Hover,
            border: Role::Inactive,
            text: Role::Text,
        },
    }
}

} // verus!
