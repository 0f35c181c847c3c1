//! The Unicode character classes that the text formats read: white space
//! (the White_Space property) and decimal digits (general category Nd).

use vstd::prelude::*;

verus! {

/// Code point `c` is Unicode white space.
pub open spec fn is_white_space(c: u32) -> bool {
    (9 <= c && c <= 13) || c == 0x20 || c == 0x85 || c == 0xa0 || c == 0x1680
        || (0x2000 <= c && c <= 0x200a) || c == 0x2028 || c == 0x2029 || c == 0x202f || c == 0x205f
        || c == 0x3000
}

/// Code point `c` is a Unicode decimal digit.
pub open spec fn is_decimal_digit(c: u32) -> bool {
    (0x30 <= c && c <= 0x39) || (0x660 <= c && c <= 0x669) || (0x6f0 <= c && c <= 0x6f9)
    || (0x7c0 <= c && c <= 0x7c9) || (0x966 <= c && c <= 0x96f)
    || (0x9e6 <= c && c <= 0x9ef) || (0xa66 <= c && c <= 0xa6f)
    || (0xae6 <= c && c <= 0xaef) || (0xb66 <= c && c <= 0xb6f)
    || (0xbe6 <= c && c <= 0xbef) || (0xc66 <= c && c <= 0xc6f)
    || (0xce6 <= c && c <= 0xcef) || (0xd66 <= c && c <= 0xd6f)
    || (0xde6 <= c && c <= 0xdef) || (0xe50 <= c && c <= 0xe59)
    || (0xed0 <= c && c <= 0xed9) || (0xf20 <= c && c <= 0xf29)
    || (0x1040 <= c && c <= 0x1049) || (0x1090 <= c && c <= 0x1099)
    || (0x17e0 <= c && c <= 0x17e9) || (0x1810 <= c && c <= 0x1819)
    || (0x1946 <= c && c <= 0x194f) || (0x19d0 <= c && c <= 0x19d9)
    || (0x1a80 <= c && c <= 0x1a89) || (0x1a90 <= c && c <= 0x1a99)
    || (0x1b50 <= c && c <= 0x1b59) || (0x1bb0 <= c && c <= 0x1bb9)
    || (0x1c40 <= c && c <= 0x1c49) || (0x1c50 <= c && c <= 0x1c59)
    || (0xa620 <= c && c <= 0xa629) || (0xa8d0 <= c && c <= 0xa8d9)
    || (0xa900 <= c && c <= 0xa909) || (0xa9d0 <= c && c <= 0xa9d9)
    || (0xa9f0 <= c && c <= 0xa9f9) || (0xaa50 <= c && c <= 0xaa59)
    || (0xabf0 <= c && c <= 0xabf9) || (0xff10 <= c && c <= 0xff19)
    || (0x104a0 <= c && c <= 0x104a9) || (0x10d30 <= c && c <= 0x10d39)
    || (0x10d40 <= c && c <= 0x10d49) || (0x11066 <= c && c <= 0x1106f)
    || (0x110f0 <= c && c <= 0x110f9) || (0x11136 <= c && c <= 0x1113f)
    || (0x111d0 <= c && c <= 0x111d9) || (0x112f0 <= c && c <= 0x112f9)
    || (0x11450 <= c && c <= 0x11459) || (0x114d0 <= c && c <= 0x114d9)
    || (0x11650 <= c && c <= 0x11659) || (0x116c0 <= c && c <= 0x116c9)
    || (0x116d0 <= c && c <= 0x116e3) || (0x11730 <= c && c <= 0x11739)
    || (0x118e0 <= c && c <= 0x118e9) || (0x11950 <= c && c <= 0x11959)
    || (0x11bf0 <= c && c <= 0x11bf9) || (0x11c50 <= c && c <= 0x11c59)
    || (0x11d50 <= c && c <= 0x11d59) || (0x11da0 <= c && c <= 0x11da9)
    || (0x11f50 <= c && c <= 0x11f59) || (0x16130 <= c && c <= 0x16139)
    || (0x16a60 <= c && c <= 0x16a69) || (0x16ac0 <= c && c <= 0x16ac9)
    || (0x16b50 <= c && c <= 0x16b59) || (0x16d70 <= c && c <= 0x16d79)
    || (0x1ccf0 <= c && c <= 0x1ccf9) || (0x1d7ce <= c && c <= 0x1d7ff)
    || (0x1e140 <= c && c <= 0x1e149) || (0x1e2f0 <= c && c <= 0x1e2f9)
    || (0x1e4f0 <= c && c <= 0x1e4f9) || (0x1e5f1 <= c && c <= 0x1e5fa)
    || (0x1e950 <= c && c <= 0x1e959) || (0x1fbf0 <= c && c <= 0x1fbf9)
}

pub fn white_space(c: u32) -> (r: bool)
    ensures
        r == is_white_space(c),
{
    (9 <= c && c <= 13) || c == 0x20 || c == 0x85 || c == 0xa0 || c == 0x1680
        || (0x2000 <= c && c <= 0x200a) || c == 0x2028 || c == 0x2029 || c == 0x202f || c == 0x205f
        || c == 0x3000
}

pub fn decimal_digit(c: u32) -> (r: bool)
    ensures
        r == is_decimal_digit(c),
{
    (0x30 <= c && c <= 0x39) || (0x660 <= c && c <= 0x669) || (0x6f0 <= c && c <= 0x6f9)
    || (0x7c0 <= c && c <= 0x7c9) || (0x966 <= c && c <= 0x96f)
    || (0x9e6 <= c && c <= 0x9ef) || (0xa66 <= c && c <= 0xa6f)
    || (0xae6 <= c && c <= 0xaef) || (0xb66 <= c && c <= 0xb6f)
    || (0xbe6 <= c && c <= 0xbef) || (0xc66 <= c && c <= 0xc6f)
    || (0xce6 <= c && c <= 0xcef) || (0xd66 <= c && c <= 0xd6f)
    || (0xde6 <= c && c <= 0xdef) || (0xe50 <= c && c <= 0xe59)
    || (0xed0 <= c && c <= 0xed9) || (0xf20 <= c && c <= 0xf29)
    || (0x1040 <= c && c <= 0x1049) || (0x1090 <= c && c <= 0x1099)
    || (0x17e0 <= c && c <= 0x17e9) || (0x1810 <= c && c <= 0x1819)
    || (0x1946 <= c && c <= 0x194f) || (0x19d0 <= c && c <= 0x19d9)
    || (0x1a80 <= c && c <= 0x1a89) || (0x1a90 <= c && c <= 0x1a99)
    || (0x1b50 <= c && c <= 0x1b59) || (0x1bb0 <= c && c <= 0x1bb9)
    || (0x1c40 <= c && c <= 0x1c49) || (0x1c50 <= c && c <= 0x1c59)
    || (0xa620 <= c && c <= 0xa629) || (0xa8d0 <= c && c <= 0xa8d9)
    || (0xa900 <= c && c <= 0xa909) || (0xa9d0 <= c && c <= 0xa9d9)
    || (0xa9f0 <= c && c <= 0xa9f9) || (0xaa50 <= c && c <= 0xaa59)
    || (0xabf0 <= c && c <= 0xabf9) || (0xff10 <= c && c <= 0xff19)
    || (0x104a0 <= c && c <= 0x104a9) || (0x10d30 <= c && c <= 0x10d39)
    || (0x10d40 <= c && c <= 0x10d49) || (0x11066 <= c && c <= 0x1106f)
    || (0x110f0 <= c && c <= 0x110f9) || (0x11136 <= c && c <= 0x1113f)
    || (0x111d0 <= c && c <= 0x111d9) || (0x112f0 <= c && c <= 0x112f9)
    || (0x11450 <= c && c <= 0x11459) || (0x114d0 <= c && c <= 0x114d9)
    || (0x11650 <= c && c <= 0x11659) || (0x116c0 <= c && c <= 0x116c9)
    || (0x116d0 <= c && c <= 0x116e3) || (0x11730 <= c && c <= 0x11739)
    || (0x118e0 <= c && c <= 0x118e9) || (0x11950 <= c && c <= 0x11959)
    || (0x11bf0 <= c && c <= 0x11bf9) || (0x11c50 <= c && c <= 0x11c59)
    || (0x11d50 <= c && c <= 0x11d59) || (0x11da0 <= c && c <= 0x11da9)
    || (0x11f50 <= c && c <= 0x11f59) || (0x16130 <= c && c <= 0x16139)
    || (0x16a60 <= c && c <= 0x16a69) || (0x16ac0 <= c && c <= 0x16ac9)
    || (0x16b50 <= c && c <= 0x16b59) || (0x16d70 <= c && c <= 0x16d79)
    || (0x1ccf0 <= c && c <= 0x1ccf9) || (0x1d7ce <= c && c <= 0x1d7ff)
    || (0x1e140 <= c && c <= 0x1e149) || (0x1e2f0 <= c && c <= 0x1e2f9)
    || (0x1e4f0 <= c && c <= 0x1e4f9) || (0x1e5f1 <= c && c <= 0x1e5fa)
    || (0x1e950 <= c && c <= 0x1e959) || (0x1fbf0 <= c && c <= 0x1fbf9)
}

} // verus!
