//! The hidden-entry filter.

use vstd::prelude::*;
use vstd::string::StrSliceExecFns;

verus! {

/// A name is hidden when it starts with a dot and is not the single dot that
/// stands for the current directory.
pub open spec fn is_hidden_name(name: Seq<char>) -> bool {
    name.len() > 0 && name[0] == '.' && name != seq!['.']
}

/// Whether an entry with this name passes the filter: every entry does when
/// hidden entries are shown, and an entry without a readable name is never
/// taken for hidden.
pub open spec fn passes_filter(show_hidden: bool, name: Option<Seq<char>>) -> bool {
    show_hidden || match name {
        Some(n) => !is_hidden_name(n),
        None => true,
    }
}

/// Tells whether `name` is the name of a hidden entry.
pub fn is_hidden(name: &str) -> (hidden: bool)
    ensures
        hidden == is_hidden_name(name@),
{
    let len: usize = name.unicode_len();
    if len == 0 {
        return false;
    }
    let first = name.get_char(0);
    proof {
        if len == 1 && first == '.' {
            assert(name@ =~= seq!['.']);
        }
        if len > 1 {
            assert(seq!['.'].len() == 1);
        }
    }
    first == '.' && len != 1
}

/// Tells whether an entry is visited. `name` is the entry's file name where it
/// is valid Unicode.
pub fn is_visible(show_hidden: bool, name: Option<&str>) -> (visible: bool)
    ensures
        visible == passes_filter(
            show_hidden,
            match name {
                Some(n) => Some(n@),
                None => None,
            },
        ),
{
    if show_hidden {
        return true;
    }
    match name {
        Some(n) => !is_hidden(n),
        None => true,
    }
}

} // verus!
