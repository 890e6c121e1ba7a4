//! Built-in icon indices.

use vstd::prelude::*;

verus! {

/// The index of a built-in icon.
#[derive(Debug, Default, Clone, Copy, PartialEq, Eq, Hash, Structural)]
pub struct IconId(pub usize);

/// The largest built-in icon index.
pub const MAX_ICON_ID: usize = 68;

/// An icon index above the built-in range.
#[derive(Debug, Clone, Copy, PartialEq, Eq, Structural)]
pub struct ParseIconIdError {
    pub icon_id: usize,
}

/// The built-in icons, by index: `IconId(IconId::FOLDER)`.
impl IconId {
    pub const KEY: usize = 0;
    pub const WORLD: usize = 1;
    pub const WARNING: usize = 2;
    pub const NETWORK_SERVER: usize = 3;
    pub const MARKED_DIRECTORY: usize = 4;
    pub const USER_COMMUNICATION: usize = 5;
    pub const PARTS: usize = 6;
    pub const NOTEPAD: usize = 7;
    pub const WORLD_SOCKET: usize = 8;
    pub const IDENTITY: usize = 9;
    pub const PAPER_READY: usize = 10;
    pub const DIGICAM: usize = 11;
    pub const IRCOMMUNICATION: usize = 12;
    pub const MULTI_KEYS: usize = 13;
    pub const PLUG: usize = 14;
    pub const PDA: usize = 15;
    pub const BOOK_MARK: usize = 16;
    pub const CD_ROM: usize = 17;
    pub const MONITOR: usize = 18;
    pub const EMAIL: usize = 19;
    pub const CONFIG: usize = 20;
    pub const CLIPBOARD_READY: usize = 21;
    pub const PAPER_NEW: usize = 22;
    pub const SCREENSHOT: usize = 23;
    pub const THUNDER: usize = 24;
    pub const RADIO: usize = 25;
    pub const FLOPPY_DISK: usize = 26;
    pub const FTP: usize = 27;
    pub const FILM: usize = 28;
    pub const SECURITY_TERMINAL: usize = 29;
    pub const TERMINAL: usize = 30;
    pub const PRINTER: usize = 31;
    pub const GRID: usize = 32;
    pub const CHECKER_BOARD: usize = 33;
    pub const WRENCH: usize = 34;
    pub const INTERNET: usize = 35;
    pub const ZIP_FOLDER: usize = 36;
    pub const PERCENT: usize = 37;
    pub const WINDOWS_PC: usize = 38;
    pub const CLOCK: usize = 39;
    pub const SEARCH: usize = 40;
    pub const LANDSCAPE: usize = 41;
    pub const MEMORY: usize = 42;
    pub const RECYCLE_BIN: usize = 43;
    pub const CLIPBOARD: usize = 44;
    pub const STOP: usize = 45;
    pub const INFORMATION: usize = 46;
    pub const FILING_CABINET: usize = 47;
    pub const FOLDER: usize = 48;
    pub const FOLDER_OPEN: usize = 49;
    pub const DESKTOP: usize = 50;
    pub const LOCK_OPEN: usize = 51;
    pub const LOCKED: usize = 52;
    pub const APPROVED: usize = 53;
    pub const MARKER: usize = 54;
    pub const PICTURE_DOC: usize = 55;
    pub const CONTACT: usize = 56;
    pub const EXCEL_SHEET: usize = 57;
    pub const SECURIT_ACCOUNT: usize = 58;
    pub const REPAIR: usize = 59;
    pub const HOME: usize = 60;
    pub const STAR: usize = 61;
    pub const LINUX: usize = 62;
    pub const ANDROID: usize = 63;
    pub const APPLE: usize = 64;
    pub const WIKIPEDIA: usize = 65;
    pub const DOLLAR: usize = 66;
    pub const CERTIFICATE: usize = 67;
    pub const MOBILE_PHONE: usize = 68;

    /// The icon with index `value`, if it is a built-in one.
    pub fn try_from_index(value: usize) -> (r: Result<IconId, ParseIconIdError>)
        ensures
            value <= MAX_ICON_ID ==> r == Ok::<IconId, ParseIconIdError>(IconId(value)),
            value > MAX_ICON_ID ==> r == Err::<IconId, ParseIconIdError>(ParseIconIdError { icon_id: value }),
    {
        if value > MAX_ICON_ID {
            return Err(ParseIconIdError { icon_id: value });
        }
        Ok(IconId(value))
    }

    /// The icon's index.
    pub fn index(&self) -> (r: usize)
        ensures
            r == self.0,
    {
        self.0
    }
}

} // verus!
