//! The two things the installer can do, and how the file that marks a game
//! directory is recognised by name.
use vstd::prelude::*;
use vstd::string::StringSliceAdditionalSpecFns;

verus! {

/// What the user asked for.
#[derive(Clone, Copy, Debug, PartialEq, Eq, Structural)]
pub enum Action {
    Install,
    Uninstall,
}

impl Action {
    /// The action picked from the menu `[Install, Uninstall]` by its
    /// position; no pick means install.
    pub fn from_selection(sel: Option<usize>) -> (r: Action)
        requires
            sel matches Some(i) ==> i < 2,
        ensures
            r == (if sel == Some(1usize) {
                Action::Uninstall
            } else {
                Action::Install
            }),
    {
        match sel {
            Some(1) => Action::Uninstall,
            _ => Action::Install,
        }
    }
}

/// The name of the file whose presence marks the game directory.
pub const MARKER_FILE: &'static str = "Hearthstone.exe";

/// A byte with ASCII upper-case letters made lower-case.
pub open spec fn ascii_lower(b: u8) -> u8 {
    if 65 <= b <= 90 {
        (b + 32) as u8
    } else {
        b
    }
}

/// The two names are equal once ASCII letters are taken without case.
pub open spec fn same_name_ignoring_case(a: Seq<u8>, b: Seq<u8>) -> bool {
    a.len() == b.len() && forall|i: int| 0 <= i < a.len() ==> ascii_lower(#[trigger] a[i])
        == ascii_lower(b[i])
}

fn lower_byte(b: u8) -> (r: u8)
    ensures
        r == ascii_lower(b),
{
    if b >= 65 && b <= 90 {
        b + 32
    } else {
        b
    }
}

/// Whether `name` names the marker file, ASCII letters taken without case.
pub fn is_marker_name(name: &str) -> (r: bool)
    ensures
        r == same_name_ignoring_case(name.spec_bytes(), MARKER_FILE.spec_bytes()),
{
    names_match(name.as_bytes(), MARKER_FILE.as_bytes())
}

/// Whether two names are equal, ASCII letters taken without case.
pub fn names_match(a: &[u8], b: &[u8]) -> (r: bool)
    ensures
        r == same_name_ignoring_case(a@, b@),
{
    if a.len() != b.len() {
        return false;
    }
    let mut i: usize = 0;
    while i < a.len()
        invariant
            a@.len() == b@.len(),
            i <= a@.len(),
            forall|j: int| 0 <= j < i ==> ascii_lower(#[trigger] a@[j]) == ascii_lower(b@[j]),
        decreases a.len() - i,
    {
        if lower_byte(a[i]) != lower_byte(b[i]) {
            return false;
        }
        i = i + 1;
    }
    true
}

} // verus!
