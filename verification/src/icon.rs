//! Which icon files the bar can show, and where they are looked for.

use vstd::prelude::*;

verus! {

/// The directory searched before those of the system.
pub const ICON_DIR: &'static str = "/usr/share/tiny-dfr/";

/// The size, in pixels, for which an icon file is chosen.
pub const ICON_SIZE: u16 = 16;

/// The file formats of icon themes.
#[derive(Clone, Copy, Debug, PartialEq, Eq, Structural)]
pub enum IconFileType {
    SVG,
    PNG,
    XPM,
}

/// Why an icon file cannot be shown.
#[derive(Clone, Copy, Debug, PartialEq, Eq, Structural)]
pub enum IconError {
    Png,
    Xpm,
}

impl IconError {
    /// What to tell the user.
    pub open spec fn spec_message(self) -> Seq<char> {
        match self {
            IconError::Png => "PNG icons are not support"@,
            IconError::Xpm => "Legacy XPM icons are not supported"@,
        }
    }

    /// What to tell the user.
    pub fn message(self) -> (text: &'static str)
        ensures
            text@ == self.spec_message(),
    {
        match self {
            IconError::Png => "PNG icons are not support",
            IconError::Xpm => "Legacy XPM icons are not supported",
        }
    }
}

/// Accepts vector icons and rejects bitmaps.
pub fn check_icon_type(icon_type: IconFileType) -> (r: Result<(), IconError>)
    ensures
        r == (match icon_type {
            IconFileType::SVG => Ok(()),
            IconFileType::PNG => Err(IconError::Png),
            IconFileType::XPM => Err(IconError::Xpm),
        }),
{
    match icon_type {
        IconFileType::SVG => Ok(()),
        IconFileType::PNG => Err(IconError::Png),
        IconFileType::XPM => Err(IconError::Xpm),
    }
}

/// The directories to search for icons, in this order: the bar's own, then those of the system.
pub fn icon_search_paths<P>(own: P, system: Vec<P>) -> (paths: Vec<P>)
    ensures
        paths@ == seq![own] + system@,
{
    let mut paths: Vec<P> = Vec::new();
    let mut system: Vec<P> = system;
    paths.push(own);
    paths.append(&mut system);
    paths
}

} // verus!
