use vstd::prelude::*;

use crate::entry::{APP_TYPE, DATA_TYPE};
use crate::text::{chars_of, same_chars};

verus! {

/// The symbolic name of a partition type code.
pub open spec fn type_label(code: u8) -> Option<Seq<char>> {
    if code == 0x00 {
        Some(seq!['a', 'p', 'p'])
    } else if code == 0x01 {
        Some(seq!['d', 'a', 't', 'a'])
    } else {
        None
    }
}

/// The symbolic name of a subtype code under the type `ty`.
pub open spec fn subtype_label(ty: u8, code: u8) -> Option<Seq<char>> {
    if ty == APP_TYPE {
        if code == 0x00 {
            Some(seq!['f', 'a', 'c', 't', 'o', 'r', 'y'])
        } else if code == 0x10 {
            Some(seq!['o', 't', 'a', '_', '0'])
        } else if code == 0x11 {
            Some(seq!['o', 't', 'a', '_', '1'])
        } else if code == 0x12 {
            Some(seq!['o', 't', 'a', '_', '2'])
        } else if code == 0x13 {
            Some(seq!['o', 't', 'a', '_', '3'])
        } else if code == 0x14 {
            Some(seq!['o', 't', 'a', '_', '4'])
        } else if code == 0x15 {
            Some(seq!['o', 't', 'a', '_', '5'])
        } else if code == 0x16 {
            Some(seq!['o', 't', 'a', '_', '6'])
        } else if code == 0x17 {
            Some(seq!['o', 't', 'a', '_', '7'])
        } else if code == 0x18 {
            Some(seq!['o', 't', 'a', '_', '8'])
        } else if code == 0x19 {
            Some(seq!['o', 't', 'a', '_', '9'])
        } else if code == 0x1a {
            Some(seq!['o', 't', 'a', '_', '1', '0'])
        } else if code == 0x1b {
            Some(seq!['o', 't', 'a', '_', '1', '1'])
        } else if code == 0x1c {
            Some(seq!['o', 't', 'a', '_', '1', '2'])
        } else if code == 0x1d {
            Some(seq!['o', 't', 'a', '_', '1', '3'])
        } else if code == 0x1e {
            Some(seq!['o', 't', 'a', '_', '1', '4'])
        } else if code == 0x1f {
            Some(seq!['o', 't', 'a', '_', '1', '5'])
        } else if code == 0x20 {
            Some(seq!['t', 'e', 's', 't'])
        } else {
            None
        }
    } else if ty == DATA_TYPE {
        if code == 0x00 {
            Some(seq!['o', 't', 'a'])
        } else if code == 0x01 {
            Some(seq!['p', 'h', 'y'])
        } else if code == 0x02 {
            Some(seq!['n', 'v', 's'])
        } else if code == 0x03 {
            Some(seq!['c', 'o', 'r', 'e', 'd', 'u', 'm', 'p'])
        } else if code == 0x04 {
            Some(seq!['n', 'v', 's', '_', 'k', 'e', 'y', 's'])
        } else if code == 0x05 {
            Some(seq!['e', 'f', 'u', 's', 'e'])
        } else if code == 0x06 {
            Some(seq!['u', 'n', 'd', 'e', 'f', 'i', 'n', 'e', 'd'])
        } else if code == 0x80 {
            Some(seq!['e', 's', 'p', 'h', 't', 't', 'p', 'd'])
        } else if code == 0x81 {
            Some(seq!['f', 'a', 't'])
        } else if code == 0x82 {
            Some(seq!['s', 'p', 'i', 'f', 'f', 's'])
        } else if code == 0x83 {
            Some(seq!['l', 'i', 't', 't', 'l', 'e', 'f', 's'])
        } else {
            None
        }
    } else {
        None
    }
}

/// The symbolic form of a flags word.
pub open spec fn flags_label(flags: u32) -> Option<Seq<char>> {
    if flags == 0x00 {
        Some(seq![])
    } else if flags == 0x01 {
        Some(seq!['e', 'n', 'c', 'r', 'y', 'p', 't', 'e', 'd'])
    } else if flags == 0x02 {
        Some(seq!['r', 'e', 'a', 'd', 'o', 'n', 'l', 'y'])
    } else if flags == 0x03 {
        Some(seq!['e', 'n', 'c', 'r', 'y', 'p', 't', 'e', 'd', ':', 'r', 'e', 'a', 'd', 'o', 'n', 'l', 'y'])
    } else {
        None
    }
}

/// The symbolic name of a partition type code.
pub fn type_keyword(code: u8) -> (r: Option<&'static str>)
    ensures
        match r {
            Some(s) => type_label(code) == Some(s@),
            None => type_label(code) is None,
        },
{
    if code == 0x00 {
        proof {
            reveal_strlit("app");
        }
        Some("app")
    } else if code == 0x01 {
        proof {
            reveal_strlit("data");
        }
        Some("data")
    } else {
        None
    }
}

/// The symbolic name of a subtype code under the type `ty`.
pub fn subtype_keyword(ty: u8, code: u8) -> (r: Option<&'static str>)
    ensures
        match r {
            Some(s) => subtype_label(ty, code) == Some(s@),
            None => subtype_label(ty, code) is None,
        },
{
    if ty == APP_TYPE {
        if code == 0x00 {
            proof {
                reveal_strlit("factory");
            }
            Some("factory")
        } else if code == 0x10 {
            proof {
                reveal_strlit("ota_0");
            }
            Some("ota_0")
        } else if code == 0x11 {
            proof {
                reveal_strlit("ota_1");
            }
            Some("ota_1")
        } else if code == 0x12 {
            proof {
                reveal_strlit("ota_2");
            }
            Some("ota_2")
        } else if code == 0x13 {
            proof {
                reveal_strlit("ota_3");
            }
            Some("ota_3")
        } else if code == 0x14 {
            proof {
                reveal_strlit("ota_4");
            }
            Some("ota_4")
        } else if code == 0x15 {
            proof {
                reveal_strlit("ota_5");
            }
            Some("ota_5")
        } else if code == 0x16 {
            proof {
                reveal_strlit("ota_6");
            }
            Some("ota_6")
        } else if code == 0x17 {
            proof {
                reveal_strlit("ota_7");
            }
            Some("ota_7")
        } else if code == 0x18 {
            proof {
                reveal_strlit("ota_8");
            }
            Some("ota_8")
        } else if code == 0x19 {
            proof {
                reveal_strlit("ota_9");
            }
            Some("ota_9")
        } else if code == 0x1a {
            proof {
                reveal_strlit("ota_10");
            }
            Some("ota_10")
        } else if code == 0x1b {
            proof {
                reveal_strlit("ota_11");
            }
            Some("ota_11")
        } else if code == 0x1c {
            proof {
                reveal_strlit("ota_12");
            }
            Some("ota_12")
        } else if code == 0x1d {
            proof {
                reveal_strlit("ota_13");
            }
            Some("ota_13")
        } else if code == 0x1e {
            proof {
                reveal_strlit("ota_14");
            }
            Some("ota_14")
        } else if code == 0x1f {
            proof {
                reveal_strlit("ota_15");
            }
            Some("ota_15")
        } else if code == 0x20 {
            proof {
                reveal_strlit("test");
            }
            Some("test")
        } else {
            None
        }
    } else if ty == DATA_TYPE {
        if code == 0x00 {
            proof {
                reveal_strlit("ota");
            }
            Some("ota")
        } else if code == 0x01 {
            proof {
                reveal_strlit("phy");
            }
            Some("phy")
        } else if code == 0x02 {
            proof {
                reveal_strlit("nvs");
            }
            Some("nvs")
        } else if code == 0x03 {
            proof {
                reveal_strlit("coredump");
            }
            Some("coredump")
        } else if code == 0x04 {
            proof {
                reveal_strlit("nvs_keys");
            }
            Some("nvs_keys")
        } else if code == 0x05 {
            proof {
                reveal_strlit("efuse");
            }
            Some("efuse")
        } else if code == 0x06 {
            proof {
                reveal_strlit("undefined");
            }
            Some("undefined")
        } else if code == 0x80 {
            proof {
                reveal_strlit("esphttpd");
            }
            Some("esphttpd")
        } else if code == 0x81 {
            proof {
                reveal_strlit("fat");
            }
            Some("fat")
        } else if code == 0x82 {
            proof {
                reveal_strlit("spiffs");
            }
            Some("spiffs")
        } else if code == 0x83 {
            proof {
                reveal_strlit("littlefs");
            }
            Some("littlefs")
        } else {
            None
        }
    } else {
        None
    }
}

/// The symbolic form of a flags word.
pub fn flags_keyword(flags: u32) -> (r: Option<&'static str>)
    ensures
        match r {
            Some(s) => flags_label(flags) == Some(s@),
            None => flags_label(flags) is None,
        },
{
    if flags == 0x00 {
        proof {
            reveal_strlit("");
        }
        Some("")
    } else if flags == 0x01 {
        proof {
            reveal_strlit("encrypted");
        }
        Some("encrypted")
    } else if flags == 0x02 {
        proof {
            reveal_strlit("readonly");
        }
        Some("readonly")
    } else if flags == 0x03 {
        proof {
            reveal_strlit("encrypted:readonly");
        }
        Some("encrypted:readonly")
    } else {
        None
    }
}


/// The type code whose symbolic name is `name`.
pub fn type_code(name: &str) -> (r: Option<u8>)
    ensures
        match r {
            Some(c) => type_label(c) == Some(name@),
            None => forall|c: u8| #[trigger] type_label(c) != Some(name@),
        },
{
    let target = chars_of(name);
    let mut c: u16 = 0;
    while c < 256
        invariant
            target@ == name@,
            c <= 256,
            forall|d: u8| d < c ==> #[trigger] type_label(d) != Some(name@),
        decreases 256 - c,
    {
        match type_keyword(c as u8) {
            Some(k) => {
                if same_chars(&chars_of(k), &target) {
                    return Some(c as u8);
                }
            },
            None => {},
        }
        c += 1;
    }
    None
}

/// The subtype code under the type `ty` whose symbolic name is `name`.
pub fn subtype_code(ty: u8, name: &str) -> (r: Option<u8>)
    ensures
        match r {
            Some(c) => subtype_label(ty, c) == Some(name@),
            None => forall|c: u8| #[trigger] subtype_label(ty, c) != Some(name@),
        },
{
    let target = chars_of(name);
    let mut c: u16 = 0;
    while c < 256
        invariant
            target@ == name@,
            c <= 256,
            forall|d: u8| d < c ==> #[trigger] subtype_label(ty, d) != Some(name@),
        decreases 256 - c,
    {
        match subtype_keyword(ty, c as u8) {
            Some(k) => {
                if same_chars(&chars_of(k), &target) {
                    return Some(c as u8);
                }
            },
            None => {},
        }
        c += 1;
    }
    None
}

/// The subtype code under `ty` whose name has this length, first and last
/// character; no two names of one type share all three.
spec fn subtype_code_by_shape(ty: u8, len: nat, first: char, last: char) -> Option<u8> {
    if ty == APP_TYPE {
        if len == 7 && first == 'f' && last == 'y' {
            Some(0x00)
        } else if len == 5 && first == 'o' && last == '0' {
            Some(0x10)
        } else if len == 5 && first == 'o' && last == '1' {
            Some(0x11)
        } else if len == 5 && first == 'o' && last == '2' {
            Some(0x12)
        } else if len == 5 && first == 'o' && last == '3' {
            Some(0x13)
        } else if len == 5 && first == 'o' && last == '4' {
            Some(0x14)
        } else if len == 5 && first == 'o' && last == '5' {
            Some(0x15)
        } else if len == 5 && first == 'o' && last == '6' {
            Some(0x16)
        } else if len == 5 && first == 'o' && last == '7' {
            Some(0x17)
        } else if len == 5 && first == 'o' && last == '8' {
            Some(0x18)
        } else if len == 5 && first == 'o' && last == '9' {
            Some(0x19)
        } else if len == 6 && first == 'o' && last == '0' {
            Some(0x1a)
        } else if len == 6 && first == 'o' && last == '1' {
            Some(0x1b)
        } else if len == 6 && first == 'o' && last == '2' {
            Some(0x1c)
        } else if len == 6 && first == 'o' && last == '3' {
            Some(0x1d)
        } else if len == 6 && first == 'o' && last == '4' {
            Some(0x1e)
        } else if len == 6 && first == 'o' && last == '5' {
            Some(0x1f)
        } else if len == 4 && first == 't' && last == 't' {
            Some(0x20)
        } else {
            None
        }
    } else if ty == DATA_TYPE {
        if len == 3 && first == 'o' && last == 'a' {
            Some(0x00)
        } else if len == 3 && first == 'p' && last == 'y' {
            Some(0x01)
        } else if len == 3 && first == 'n' && last == 's' {
            Some(0x02)
        } else if len == 8 && first == 'c' && last == 'p' {
            Some(0x03)
        } else if len == 8 && first == 'n' && last == 's' {
            Some(0x04)
        } else if len == 5 && first == 'e' && last == 'e' {
            Some(0x05)
        } else if len == 9 && first == 'u' && last == 'd' {
            Some(0x06)
        } else if len == 8 && first == 'e' && last == 'd' {
            Some(0x80)
        } else if len == 3 && first == 'f' && last == 't' {
            Some(0x81)
        } else if len == 6 && first == 's' && last == 's' {
            Some(0x82)
        } else if len == 8 && first == 'l' && last == 's' {
            Some(0x83)
        } else {
            None
        }
    } else {
        None
    }
}

proof fn lemma_subtype_shape(ty: u8, c: u8)
    ensures
        subtype_label(ty, c) matches Some(l) ==> l.len() > 0 && l[0] != '0' && subtype_code_by_shape(
            ty,
            l.len(),
            l[0],
            l[l.len() - 1],
        ) == Some(c),
{
    if ty == APP_TYPE {
        if c == 0x00 {
        } else if c == 0x10 {
        } else if c == 0x11 {
        } else if c == 0x12 {
        } else if c == 0x13 {
        } else if c == 0x14 {
        } else if c == 0x15 {
        } else if c == 0x16 {
        } else if c == 0x17 {
        } else if c == 0x18 {
        } else if c == 0x19 {
        } else if c == 0x1a {
        } else if c == 0x1b {
        } else if c == 0x1c {
        } else if c == 0x1d {
        } else if c == 0x1e {
        } else if c == 0x1f {
        } else if c == 0x20 {
        }
    } else if ty == DATA_TYPE {
        if c == 0x00 {
        } else if c == 0x01 {
        } else if c == 0x02 {
        } else if c == 0x03 {
        } else if c == 0x04 {
        } else if c == 0x05 {
        } else if c == 0x06 {
        } else if c == 0x80 {
        } else if c == 0x81 {
        } else if c == 0x82 {
        } else if c == 0x83 {
        }
    }
}

/// No two subtype codes of one type share a name, and no name starts with `0`.
pub proof fn lemma_subtype_label_injective(ty: u8, c1: u8, c2: u8)
    ensures
        subtype_label(ty, c1) matches Some(l) ==> l.len() > 0 && l[0] != '0',
        subtype_label(ty, c1) is Some && subtype_label(ty, c1) == subtype_label(ty, c2) ==> c1
            == c2,
{
    lemma_subtype_shape(ty, c1);
    lemma_subtype_shape(ty, c2);
}

} // verus!
