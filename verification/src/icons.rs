//! The icons of the interface, drawn with lines.

use vstd::prelude::*;

verus! {

#[derive(Clone, Copy, PartialEq, Eq, Debug, Structural)]
pub enum Icon {
    Plus,
    Close,
    Trash,
    Copy,
    ArrowUp,
    ArrowDown,
    Folder,
    Export,
    Lock,
    Undo,
    Redo,
    Image,
    Warning,
    Check,
    Save,
    Refresh,
    Fit,
    Minus,
    Layers,
    Info,
}

} // verus!
