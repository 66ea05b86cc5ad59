//! The wire format of inbound command payloads: a flat JSON object whose
//! fields are strings, for example `{"pane_id":"1","action":"set_status"}`.
//!
//! The accepted grammar is the JSON subset these payloads use: one object,
//! string keys and string values, optional whitespace between tokens, and
//! the single-character escape sequences inside strings. Unicode escapes and
//! non-string values are not part of the payload format and are rejected.
//!
//! The grammar is defined by a character-at-a-time machine (`step`/`run`),
//! and the executable parser is proved to compute exactly that definition.

use vstd::prelude::*;
use vstd::string::StrSliceExecFns;
use vstd::string::StringExecFns;

verus! {

pub const M_START: u8 = 0;

pub const M_FIRST_KEY: u8 = 1;

pub const M_KEY: u8 = 2;

pub const M_KEY_ESC: u8 = 3;

pub const M_AFTER_KEY: u8 = 4;

pub const M_EXPECT_VAL: u8 = 5;

pub const M_VAL: u8 = 6;

pub const M_VAL_ESC: u8 = 7;

pub const M_AFTER_VAL: u8 = 8;

pub const M_NEXT_KEY: u8 = 9;

pub const M_END: u8 = 10;

pub const M_FAIL: u8 = 11;

/// JSON insignificant whitespace.
pub open spec fn is_ws(c: char) -> bool {
    c == ' ' || c == '\t' || c == '\n' || c == '\r'
}

/// A character that may stand unescaped inside a string literal.
pub open spec fn is_plain_str_char(c: char) -> bool {
    c != '"' && c != '\\' && c as u32 >= 0x20
}

/// The character denoted by a single-character escape sequence, if the
/// escape is one the payload grammar accepts.
pub open spec fn unescape(c: char) -> Option<char> {
    if c == '"' {
        Some('"')
    } else if c == '\\' {
        Some('\\')
    } else if c == '/' {
        Some('/')
    } else if c == 'b' {
        Some('\u{8}')
    } else if c == 'f' {
        Some('\u{c}')
    } else if c == 'n' {
        Some('\n')
    } else if c == 'r' {
        Some('\r')
    } else if c == 't' {
        Some('\t')
    } else {
        None
    }
}

/// One transition of the payload machine: the mode, the pairs finished so
/// far, the partial key and the partial value, advanced over one character.
pub open spec fn step(
    m: u8,
    pairs: Seq<(Seq<char>, Seq<char>)>,
    key: Seq<char>,
    val: Seq<char>,
    c: char,
) -> (u8, Seq<(Seq<char>, Seq<char>)>, Seq<char>, Seq<char>) {
    if m == M_START {
        if is_ws(c) {
            (M_START, pairs, key, val)
        } else if c == '{' {
            (M_FIRST_KEY, pairs, key, val)
        } else {
            (M_FAIL, pairs, key, val)
        }
    } else if m == M_FIRST_KEY {
        if is_ws(c) {
            (M_FIRST_KEY, pairs, key, val)
        } else if c == '"' {
            (M_KEY, pairs, Seq::empty(), val)
        } else if c == '}' {
            (M_END, pairs, key, val)
        } else {
            (M_FAIL, pairs, key, val)
        }
    } else if m == M_KEY {
        if c == '"' {
            (M_AFTER_KEY, pairs, key, val)
        } else if c == '\\' {
            (M_KEY_ESC, pairs, key, val)
        } else if is_plain_str_char(c) {
            (M_KEY, pairs, key.push(c), val)
        } else {
            (M_FAIL, pairs, key, val)
        }
    } else if m == M_KEY_ESC {
        match unescape(c) {
            Some(u) => (M_KEY, pairs, key.push(u), val),
            None => (M_FAIL, pairs, key, val),
        }
    } else if m == M_AFTER_KEY {
        if is_ws(c) {
            (M_AFTER_KEY, pairs, key, val)
        } else if c == ':' {
            (M_EXPECT_VAL, pairs, key, val)
        } else {
            (M_FAIL, pairs, key, val)
        }
    } else if m == M_EXPECT_VAL {
        if is_ws(c) {
            (M_EXPECT_VAL, pairs, key, val)
        } else if c == '"' {
            (M_VAL, pairs, key, Seq::empty())
        } else {
            (M_FAIL, pairs, key, val)
        }
    } else if m == M_VAL {
        if c == '"' {
            (M_AFTER_VAL, pairs.push((key, val)), Seq::empty(), Seq::empty())
        } else if c == '\\' {
            (M_VAL_ESC, pairs, key, val)
        } else if is_plain_str_char(c) {
            (M_VAL, pairs, key, val.push(c))
        } else {
            (M_FAIL, pairs, key, val)
        }
    } else if m == M_VAL_ESC {
        match unescape(c) {
            Some(u) => (M_VAL, pairs, key, val.push(u)),
            None => (M_FAIL, pairs, key, val),
        }
    } else if m == M_AFTER_VAL {
        if is_ws(c) {
            (M_AFTER_VAL, pairs, key, val)
        } else if c == ',' {
            (M_NEXT_KEY, pairs, key, val)
        } else if c == '}' {
            (M_END, pairs, key, val)
        } else {
            (M_FAIL, pairs, key, val)
        }
    } else if m == M_NEXT_KEY {
        if is_ws(c) {
            (M_NEXT_KEY, pairs, key, val)
        } else if c == '"' {
            (M_KEY, pairs, Seq::empty(), val)
        } else {
            (M_FAIL, pairs, key, val)
        }
    } else if m == M_END {
        if is_ws(c) {
            (M_END, pairs, key, val)
        } else {
            (M_FAIL, pairs, key, val)
        }
    } else {
        (M_FAIL, pairs, key, val)
    }
}

/// Run the machine from position `i` to the end of the input; the parse
/// succeeds when it ends in the closed-object mode.
pub open spec fn run(
    s: Seq<char>,
    i: int,
    m: u8,
    pairs: Seq<(Seq<char>, Seq<char>)>,
    key: Seq<char>,
    val: Seq<char>,
) -> Option<Seq<(Seq<char>, Seq<char>)>>
    decreases s.len() - i,
{
    if i < 0 || i >= s.len() {
        if m == M_END {
            Some(pairs)
        } else {
            None
        }
    } else {
        let (m2, p2, k2, v2) = step(m, pairs, key, val, s[i]);
        run(s, i + 1, m2, p2, k2, v2)
    }
}

/// The key/value pairs of a payload object, in writing order, or `None`
/// when the text is not a payload object.
pub open spec fn spec_parse_pairs(s: Seq<char>) -> Option<Seq<(Seq<char>, Seq<char>)>> {
    run(s, 0, M_START, Seq::empty(), Seq::empty(), Seq::empty())
}

/// The views of an executable pair list.
pub open spec fn pairs_view(ps: Seq<(String, String)>) -> Seq<(Seq<char>, Seq<char>)> {
    ps.map_values(|p: (String, String)| (p.0@, p.1@))
}

fn unescape_exec(c: char) -> (r: Option<&'static str>)
    ensures
        r is Some <==> unescape(c) is Some,
        r matches Some(t) ==> t@ =~= seq![unescape(c)->0],
{
    proof {
        reveal_strlit("\"");
        reveal_strlit("\\");
        reveal_strlit("/");
        reveal_strlit("\u{8}");
        reveal_strlit("\u{c}");
        reveal_strlit("\n");
        reveal_strlit("\r");
        reveal_strlit("\t");
    }
    match c {
        '"' => Some("\""),
        '\\' => Some("\\"),
        '/' => Some("/"),
        'b' => Some("\u{8}"),
        'f' => Some("\u{c}"),
        'n' => Some("\n"),
        'r' => Some("\r"),
        't' => Some("\t"),
        _ => None,
    }
}

fn is_ws_exec(c: char) -> (r: bool)
    ensures
        r == is_ws(c),
{
    c == ' ' || c == '\t' || c == '\n' || c == '\r'
}

/// Parse a payload object into its key/value pairs.
pub fn parse_pairs(s: &str) -> (r: Option<Vec<(String, String)>>)
    ensures
        r is Some <==> spec_parse_pairs(s@) is Some,
        r matches Some(v) ==> Some(pairs_view(v@)) == spec_parse_pairs(s@),
{
    let n = s.unicode_len();
    let mut i: usize = 0;
    let mut mode: u8 = M_START;
    let mut pairs: Vec<(String, String)> = Vec::new();
    let mut key: String = String::new();
    let mut val: String = String::new();
    proof {
        assert(pairs_view(pairs@) =~= Seq::<(Seq<char>, Seq<char>)>::empty());
    }
    while i < n
        invariant
            0 <= i <= n,
            n == s@.len(),
            run(s@, i as int, mode, pairs_view(pairs@), key@, val@) == spec_parse_pairs(s@),
        decreases n - i,
    {
        let c = s.get_char(i);
        let ghost old_mode = mode;
        let ghost old_pairs = pairs_view(pairs@);
        let ghost old_key = key@;
        let ghost old_val = val@;
        if mode == M_START {
            if is_ws_exec(c) {
            } else if c == '{' {
                mode = M_FIRST_KEY;
            } else {
                mode = M_FAIL;
            }
        } else if mode == M_FIRST_KEY {
            if is_ws_exec(c) {
            } else if c == '"' {
                mode = M_KEY;
                key = String::new();
            } else if c == '}' {
                mode = M_END;
            } else {
                mode = M_FAIL;
            }
        } else if mode == M_KEY {
            if c == '"' {
                mode = M_AFTER_KEY;
            } else if c == '\\' {
                mode = M_KEY_ESC;
            } else if c as u32 >= 0x20 {
                let piece = s.substring_char(i, i + 1);
                proof {
                    assert(piece@ =~= seq![s@[i as int]]);
                }
                key.append(piece);
            } else {
                mode = M_FAIL;
            }
        } else if mode == M_KEY_ESC {
            match unescape_exec(c) {
                Some(t) => {
                    mode = M_KEY;
                    key.append(t);
                },
                None => {
                    mode = M_FAIL;
                },
            }
        } else if mode == M_AFTER_KEY {
            if is_ws_exec(c) {
            } else if c == ':' {
                mode = M_EXPECT_VAL;
            } else {
                mode = M_FAIL;
            }
        } else if mode == M_EXPECT_VAL {
            if is_ws_exec(c) {
            } else if c == '"' {
                mode = M_VAL;
                val = String::new();
            } else {
                mode = M_FAIL;
            }
        } else if mode == M_VAL {
            if c == '"' {
                mode = M_AFTER_VAL;
                pairs.push((key, val));
                key = String::new();
                val = String::new();
                proof {
                    assert(pairs_view(pairs@) =~= old_pairs.push((old_key, old_val)));
                }
            } else if c == '\\' {
                mode = M_VAL_ESC;
            } else if c as u32 >= 0x20 {
                let piece = s.substring_char(i, i + 1);
                proof {
                    assert(piece@ =~= seq![s@[i as int]]);
                }
                val.append(piece);
            } else {
                mode = M_FAIL;
            }
        } else if mode == M_VAL_ESC {
            match unescape_exec(c) {
                Some(t) => {
                    mode = M_VAL;
                    val.append(t);
                },
                None => {
                    mode = M_FAIL;
                },
            }
        } else if mode == M_AFTER_VAL {
            if is_ws_exec(c) {
            } else if c == ',' {
                mode = M_NEXT_KEY;
            } else if c == '}' {
                mode = M_END;
            } else {
                mode = M_FAIL;
            }
        } else if mode == M_NEXT_KEY {
            if is_ws_exec(c) {
            } else if c == '"' {
                mode = M_KEY;
                key = String::new();
            } else {
                mode = M_FAIL;
            }
        } else if mode == M_END {
            if is_ws_exec(c) {
            } else {
                mode = M_FAIL;
            }
        } else {
            mode = M_FAIL;
        }
        proof {
            assert(step(old_mode, old_pairs, old_key, old_val, s@[i as int]) == (
                mode,
                pairs_view(pairs@),
                key@,
                val@,
            ));
        }
        i = i + 1;
    }
    if mode == M_END {
        Some(pairs)
    } else {
        None
    }
}

} // verus!
