//! The block-type registry: per-type flag bits that the wire layout
//! consults.  The table is fixed, process-lifetime data.
use vstd::prelude::*;
use vstd::string::StrSliceExecFns;

verus! {

/// Flag bit: the type exposes no interactive fields (name, enable states,
/// load, connections) on the wire in layouts that gate them.
pub const FLAG_NON_INTERACTABLE: u8 = 1;

/// Flag bit: the type is a tool.
pub const FLAG_TOOL: u8 = 2;

/// Flag bit: the type carries custom vector data, stored range-quantized.
pub const FLAG_CUSTOM_BLOCK: u8 = 4;

/// The block-type identifier that carries math-block settings.
pub const MATH_BLOCK_ID: u8 = 129;

/// Whether a type identifier names a non-interactable type.
pub open spec fn spec_non_interactable(id: u8) -> bool {
    id == 0 || id == 1 || id == 28 || id == 33 || id == 34 || id == 35 || id == 36 || id == 37
        || id == 38 || id == 59 || id == 62 || id == 63 || id == 64 || id == 65 || id == 66 || id
        == 67 || id == 68 || id == 69 || id == 70 || id == 71 || id == 72 || id == 73 || id == 74
        || id == 75 || id == 86 || id == 87 || id == 88
}

/// Whether a type identifier names a custom-data type.
pub open spec fn spec_custom_block(id: u8) -> bool {
    id == 109 || id == 120 || id == 121
}

/// The flag byte of a type identifier.
pub open spec fn spec_flags(id: u8) -> u8 {
    ((if spec_non_interactable(id) {
        FLAG_NON_INTERACTABLE as int
    } else {
        0
    }) + (if spec_custom_block(id) {
        FLAG_CUSTOM_BLOCK as int
    } else {
        0
    })) as u8
}

/// Returns whether `id` names a non-interactable type.
pub fn non_interactable(id: u8) -> (r: bool)
    ensures
        r == spec_non_interactable(id),
{
    match id {
        0 | 1 | 28 | 33 | 34 | 35 | 36 | 37 | 38 | 59 | 62 | 63 | 64 | 65 | 66 | 67 | 68 | 69
            | 70 | 71 | 72 | 73 | 74 | 75 | 86 | 87 | 88 => true,
        _ => false,
    }
}

/// Returns whether `id` names a custom-data type.
pub fn custom_block(id: u8) -> (r: bool)
    ensures
        r == spec_custom_block(id),
{
    match id {
        109 | 120 | 121 => true,
        _ => false,
    }
}

/// Returns the flag byte of a type identifier.
pub fn get_flags(block_id: u8) -> (r: u8)
    ensures
        r == spec_flags(block_id),
{
    let mut flags: u8 = 0;
    if non_interactable(block_id) {
        flags = flags + FLAG_NON_INTERACTABLE;
    }
    if custom_block(block_id) {
        flags = flags + FLAG_CUSTOM_BLOCK;
    }
    flags
}

/// The bit a flag name stands for.  Only the three names of the table are
/// meaningful; the original rejects any other name outright.
pub fn flag(string: &str) -> (r: u8)
    requires
        string@ == "non_interactable"@ || string@ == "tool"@ || string@ == "custom_block"@,
    ensures
        string@ == "non_interactable"@ ==> r == FLAG_NON_INTERACTABLE,
        string@ == "tool"@ ==> r == FLAG_TOOL,
        string@ == "custom_block"@ ==> r == FLAG_CUSTOM_BLOCK,
{
    let len = string.unicode_len();
    proof {
        reveal_strlit("non_interactable");
        reveal_strlit("tool");
        reveal_strlit("custom_block");
    }
    if len == 16 {
        1
    } else if len == 4 {
        2
    } else {
        4
    }
}

} // verus!
