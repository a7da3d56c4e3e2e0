//! The top-level fields of the JSON object that a line holds.

use vstd::prelude::*;
use crate::json::{json_integer, json_text, json_value_len, read_integer, read_text, skip_value};

verus! {

/// One top-level field of a JSON object: its name, and its value where that
/// is an integer that fits `i64`.
pub struct Member {
    pub name: String,
    pub number: Option<i64>,
}

/// The mathematical content of a field.
pub struct Field {
    pub name: Seq<char>,
    pub number: Option<i64>,
}

impl View for Member {
    type V = Field;

    open spec fn view(&self) -> Field {
        Field { name: self.name@, number: self.number }
    }
}

/// The views of a list of members, in the list's order.
pub open spec fn fields_of(members: Seq<Member>) -> Seq<Field> {
    members.map_values(|m: Member| m@)
}

/// The bytes that frame a JSON object and set its fields apart.
pub const OPENING_BRACE: u8 = 0x7b;

pub const CLOSING_BRACE: u8 = 0x7d;

pub const COLON: u8 = 0x3a;

pub const COMMA: u8 = 0x2c;

/// The bytes of white space.
pub const SPACE: u8 = 0x20;

pub const TAB: u8 = 0x09;

pub const LINE_FEED: u8 = 0x0a;

pub const CARRIAGE_RETURN: u8 = 0x0d;

/// The white space of JSON: space, line feed, carriage return, tab.
pub open spec fn is_space(byte: u8) -> bool {
    byte == SPACE || byte == LINE_FEED || byte == CARRIAGE_RETURN || byte == TAB
}

/// The first position from `at` on that holds no white space; the length
/// of `s` where there is none.
pub open spec fn after_space(s: Seq<u8>, at: int) -> int
    decreases s.len() - at,
{
    if 0 <= at < s.len() && is_space(s[at]) {
        after_space(s, at + 1)
    } else {
        at
    }
}

/// The bytes of `s` from `at` on.
pub open spec fn rest(s: Seq<u8>, at: int) -> Seq<u8> {
    s.subrange(at, s.len() as int)
}

/// The field that begins at `at`, and the position after its value: a
/// string, a colon and a value, with white space between them as one likes.
pub open spec fn field_at(s: Seq<u8>, at: int) -> Option<(Field, int)> {
    match json_text(rest(s, at)) {
        Some((name, used)) => {
            let colon = after_space(s, at + used);
            if 0 < used <= s.len() - at && colon < s.len() && s[colon] == COLON {
                let start = after_space(s, colon + 1);
                match json_value_len(rest(s, start)) {
                    Some(len) => if 0 < len <= s.len() - start {
                        let number = json_integer(s.subrange(start, start + len));
                        Some((Field { name, number }, start + len))
                    } else {
                        None
                    },
                    None => None,
                }
            } else {
                None
            }
        },
        None => None,
    }
}

/// The fields of an object from the one that begins at `at` up to the
/// closing brace, and the position after that brace: fields with a comma
/// between each two, and white space as one likes.
pub open spec fn fields_from(s: Seq<u8>, at: int) -> Option<(Seq<Field>, int)>
    decreases s.len() - at,
{
    if 0 <= at <= s.len() {
        match field_at(s, at) {
            Some((field, stop)) => {
                let next = after_space(s, stop);
                if next < s.len() && s[next] == COMMA {
                    let more = after_space(s, next + 1);
                    if at < more <= s.len() {
                        match fields_from(s, more) {
                            Some((others, close)) => Some((seq![field] + others, close)),
                            None => None,
                        }
                    } else {
                        None
                    }
                } else if next < s.len() && s[next] == CLOSING_BRACE {
                    Some((seq![field], next + 1))
                } else {
                    None
                }
            },
            None => None,
        }
    } else {
        None
    }
}

/// The fields of the object that opens at `open`, and the position after
/// its closing brace.
pub open spec fn braced(s: Seq<u8>, open: int) -> Option<(Seq<Field>, int)> {
    if 0 <= open < s.len() && s[open] == OPENING_BRACE {
        let first = after_space(s, open + 1);
        if first < s.len() && s[first] == CLOSING_BRACE {
            Some((Seq::empty(), first + 1))
        } else {
            fields_from(s, first)
        }
    } else {
        None
    }
}

/// The top-level fields of the JSON object that `s` holds, in the order in
/// which the text has them, a name that is repeated as often as it stands.
/// `None` where `s` is not one JSON object with nothing but white space
/// around it.
pub open spec fn object_fields(s: Seq<u8>) -> Option<Seq<Field>> {
    match braced(s, after_space(s, 0)) {
        Some((fields, close)) => if after_space(s, close) == s.len() {
            Some(fields)
        } else {
            None
        },
        None => None,
    }
}

/// Fields found so far, put before those that are still to come.
spec fn joined(found: Seq<Field>, coming: Option<(Seq<Field>, int)>) -> Option<
    (Seq<Field>, int),
> {
    match coming {
        Some((others, close)) => Some((found + others, close)),
        None => None,
    }
}

/// Passes over white space.
fn skip_space(bytes: &[u8], from: usize) -> (r: usize)
    requires
        from <= bytes.len(),
    ensures
        r == after_space(bytes@, from as int),
        from <= r <= bytes.len(),
{
    let mut at = from;
    while at < bytes.len() && (bytes[at] == SPACE || bytes[at] == LINE_FEED || bytes[at]
        == CARRIAGE_RETURN || bytes[at] == TAB)
        invariant
            from <= at <= bytes.len(),
            after_space(bytes@, from as int) == after_space(bytes@, at as int),
        decreases bytes.len() - at,
    {
        at = at + 1;
    }
    at
}

/// Reads the field that begins at `at`.
fn scan_field(bytes: &[u8], at: usize) -> (r: Option<(Member, usize)>)
    requires
        at <= bytes.len(),
    ensures
        match r {
            Some((member, stop)) => field_at(bytes@, at as int) == Some((member@, stop as int))
                && at < stop <= bytes.len(),
            None => field_at(bytes@, at as int) is None,
        },
{
    let n = bytes.len();
    let (name, used) = match read_text(&bytes[at..n]) {
        Some(token) => token,
        None => {
            return None;
        },
    };
    if used == 0 || used > n - at {
        return None;
    }
    let colon = skip_space(bytes, at + used);
    if colon >= n || bytes[colon] != COLON {
        return None;
    }
    let start = skip_space(bytes, colon + 1);
    let len = match skip_value(&bytes[start..n]) {
        Some(len) => len,
        None => {
            return None;
        },
    };
    if len == 0 || len > n - start {
        return None;
    }
    let number = read_integer(&bytes[start..start + len]);
    Some((Member { name, number }, start + len))
}

/// Reads the top-level fields of the JSON object that `bytes` holds.
pub fn scan_object(bytes: &[u8]) -> (r: Option<Vec<Member>>)
    ensures
        match r {
            Some(members) => object_fields(bytes@) == Some(fields_of(members@)),
            None => object_fields(bytes@) is None,
        },
{
    let n = bytes.len();
    let open = skip_space(bytes, 0);
    if open >= n || bytes[open] != OPENING_BRACE {
        return None;
    }
    let first = skip_space(bytes, open + 1);
    let mut members: Vec<Member> = Vec::new();
    let mut at = first;
    if first < n && bytes[first] == CLOSING_BRACE {
        at = first + 1;
    } else {
        assert(joined(fields_of(members@), fields_from(bytes@, first as int)) == fields_from(
            bytes@,
            first as int,
        )) by {
            if let Some((others, close)) = fields_from(bytes@, first as int) {
                assert(Seq::<Field>::empty() + others == others);
            }
        }
        loop
            invariant_except_break
                at <= n,
                braced(bytes@, open as int) == joined(
                    fields_of(members@),
                    fields_from(bytes@, at as int),
                ),
            invariant
                n == bytes.len(),
                open == after_space(bytes@, 0),
            ensures
                at <= n,
                braced(bytes@, open as int) == Some((fields_of(members@), at as int)),
            decreases n - at,
        {
            let ghost found = fields_of(members@);
            let ghost coming = fields_from(bytes@, at as int);
            let (member, stop) = match scan_field(bytes, at) {
                Some(read) => read,
                None => {
                    return None;
                },
            };
            let ghost field = member@;
            members.push(member);
            let next = skip_space(bytes, stop);
            if next < n && bytes[next] == COMMA {
                let more = skip_space(bytes, next + 1);
                proof {
                    let later = fields_from(bytes@, more as int);
                    assert(coming == match later {
                        Some((others, close)) => Some((seq![field] + others, close)),
                        None => None,
                    });
                    if let Some((others, close)) = later {
                        assert(found + (seq![field] + others) == found.push(field) + others);
                    }
                }
                at = more;
            } else if next < n && bytes[next] == CLOSING_BRACE {
                proof {
                    assert(coming == Some((seq![field], next + 1)));
                }
                at = next + 1;
                break ;
            } else {
                return None;
            }
        }
    }
    if skip_space(bytes, at) != n {
        return None;
    }
    Some(members)
}

} // verus!
