//! Moving between pages in response to keys.
use vstd::prelude::*;

verus! {

/// What a key asks for.
#[derive(Clone, Copy, Debug, PartialEq, Eq, Structural)]
pub enum Key {
    /// Back one page (left arrow, backspace).
    Previous,
    /// On one page (right arrow, enter).
    Next,
    /// End the presentation.
    Quit,
    /// Any other key.
    Other,
}

/// What to do after a key.
#[derive(Clone, Copy, Debug, PartialEq, Eq, Structural)]
pub enum Step {
    /// Show this page, then wait for the next key.
    Show(usize),
    /// End the presentation.
    Quit,
}

/// The step after `key` on page `page` of `count` pages: back and on stop
/// at the first and the last page.
pub fn navigate(page: usize, count: usize, key: Key) -> (r: Step)
    requires
        page < count,
    ensures
        key == Key::Quit <==> r == Step::Quit,
        key == Key::Previous ==> r == Step::Show(if page > 0 { (page - 1) as usize } else { 0 }),
        key == Key::Next ==> r == Step::Show(if page + 1 < count { (page + 1) as usize } else { page }),
        key == Key::Other ==> r == Step::Show(page),
{
    match key {
        Key::Previous => Step::Show(if page > 0 { page - 1 } else { 0 }),
        Key::Next => Step::Show(if page < count - 1 { page + 1 } else { page }),
        Key::Quit => Step::Quit,
        Key::Other => Step::Show(page),
    }
}

} // verus!
