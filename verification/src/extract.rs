//! Key extraction: the sort key of one line of input.

use vstd::prelude::*;
use vstd::string::StringExecFns;
use vstd::utf8::encode_utf8;
use crate::object::{fields_of, object_fields, scan_object, Field, Member};

verus! {

/// Why a line yields no sort key.
#[derive(Clone, Copy, Debug, PartialEq, Eq, Structural)]
pub enum ExtractError {
    /// The line is not a JSON object, or the value of the chosen field is
    /// not an integer that fits 64 bits.
    MalformedLine,
    /// The line is a JSON object, and none of its fields is in the key set.
    MissingKey,
}

/// What a warning says of each reason.
pub open spec fn reason_text(reason: ExtractError) -> Seq<char> {
    match reason {
        ExtractError::MalformedLine => "not a JSON object with an integer key"@,
        ExtractError::MissingKey => "no fields of the provided set"@,
    }
}

impl ExtractError {
    /// The reason in words, for a warning.
    pub fn describe(&self) -> (r: String)
        ensures
            r@ == reason_text(*self),
    {
        match self {
            ExtractError::MalformedLine => String::from_str("not a JSON object with an integer key"),
            ExtractError::MissingKey => String::from_str("no fields of the provided set"),
        }
    }
}

/// The names of the fields that may hold the sort key.
pub struct KeySet {
    names: Vec<String>,
}

/// The set of the names that a list of strings holds.
pub open spec fn names_of(names: Seq<String>) -> Set<Seq<char>> {
    Set::new(|name: Seq<char>| exists|i: int| 0 <= i < names.len() && #[trigger] names[i]@ == name)
}

impl View for KeySet {
    type V = Set<Seq<char>>;

    closed spec fn view(&self) -> Set<Seq<char>> {
        names_of(self.names@)
    }
}

impl KeySet {
    /// The key set of the given names; their order and repetitions are of no
    /// account.
    pub fn new(names: Vec<String>) -> (r: KeySet)
        ensures
            r@ == names_of(names@),
    {
        KeySet { names }
    }

    /// Whether `name` is one of the key names.
    pub fn contains(&self, name: &String) -> (r: bool)
        ensures
            r == self@.contains(name@),
    {
        let mut i: usize = 0;
        while i < self.names.len()
            invariant
                i <= self.names.len(),
                forall|j: int| 0 <= j < i ==> self.names[j]@ != name@,
            decreases self.names.len() - i,
        {
            if self.names[i] == *name {
                return true;
            }
            i += 1;
        }
        false
    }
}

/// The key that the members of an object give under a key set: the number
/// of the first member, in the object's own order, whose name is in the set.
/// `MissingKey` where no member's name is in the set, `MalformedLine` where
/// the first such member holds no integer.
pub open spec fn chosen(keys: Set<Seq<char>>, members: Seq<Field>) -> Result<
    i64,
    ExtractError,
>
    decreases members.len(),
{
    if members.len() == 0 {
        Err(ExtractError::MissingKey)
    } else if keys.contains(members[0].name) {
        match members[0].number {
            Some(key) => Ok(key),
            None => Err(ExtractError::MalformedLine),
        }
    } else {
        chosen(keys, members.drop_first())
    }
}

/// The sort key of a line of text under a key set: the key that the fields
/// of the line's object give, and `MalformedLine` where the line holds no
/// object.
pub open spec fn key_of(keys: Set<Seq<char>>, line: Seq<char>) -> Result<i64, ExtractError> {
    match object_fields(encode_utf8(line)) {
        Some(members) => chosen(keys, members),
        None => Err(ExtractError::MalformedLine),
    }
}

/// Key selection: where several fields of an object are named in the key
/// set, the one that comes first in the object gives the key, or makes the
/// line malformed where it holds no integer. The fields after it are of no
/// account.
pub proof fn first_named_field_decides(
    keys: Set<Seq<char>>,
    members: Seq<Field>,
    at: int,
)
    requires
        0 <= at < members.len(),
        keys.contains(members[at].name),
        forall|i: int| 0 <= i < at ==> !keys.contains(#[trigger] members[i].name),
    ensures
        chosen(keys, members) == match members[at].number {
            Some(key) => Ok::<i64, ExtractError>(key),
            None => Err(ExtractError::MalformedLine),
        },
    decreases at,
{
    if at > 0 {
        assert(!keys.contains(members[0].name));
        let rest = members.drop_first();
        assert forall|i: int| 0 <= i < at - 1 implies !keys.contains(#[trigger] rest[i].name) by {
            assert(rest[i] == members[i + 1]);
        }
        first_named_field_decides(keys, rest, at - 1);
    }
}

/// The key is missing just where no field of the object is named in the key
/// set.
pub proof fn key_is_missing_where_no_field_is_named(
    keys: Set<Seq<char>>,
    members: Seq<Field>,
)
    ensures
        chosen(keys, members) == Err::<i64, ExtractError>(ExtractError::MissingKey) <==> forall|i: int|
            0 <= i < members.len() ==> !keys.contains(#[trigger] members[i].name),
    decreases members.len(),
{
    if members.len() > 0 {
        let rest = members.drop_first();
        key_is_missing_where_no_field_is_named(keys, rest);
        if !keys.contains(members[0].name) {
            if forall|i: int| 0 <= i < rest.len() ==> !keys.contains(#[trigger] rest[i].name) {
                assert forall|i: int| 0 <= i < members.len() implies !keys.contains(
                    #[trigger] members[i].name,
                ) by {
                    if i > 0 {
                        assert(rest[i - 1] == members[i]);
                    }
                }
            } else {
                let i = choose|i: int| 0 <= i < rest.len() && keys.contains(#[trigger] rest[i].name);
                assert(rest[i] == members[i + 1]);
            }
        }
    }
}

/// The order in which the key names are given, and how often each is given,
/// is of no account: lists of the same names make the same key set, and so
/// give every line the same key.
pub proof fn order_of_key_names_is_of_no_account(a: Seq<String>, b: Seq<String>, line: Seq<char>)
    requires
        forall|i: int| 0 <= i < a.len() ==> names_of(b).contains(#[trigger] a[i]@),
        forall|j: int| 0 <= j < b.len() ==> names_of(a).contains(#[trigger] b[j]@),
    ensures
        names_of(a) == names_of(b),
        key_of(names_of(a), line) == key_of(names_of(b), line),
{
    assert forall|name: Seq<char>| names_of(a).contains(name) <==> names_of(b).contains(name) by {
        if names_of(a).contains(name) {
            let i = choose|i: int| 0 <= i < a.len() && #[trigger] a[i]@ == name;
            assert(names_of(b).contains(a[i]@));
        }
        if names_of(b).contains(name) {
            let j = choose|j: int| 0 <= j < b.len() && #[trigger] b[j]@ == name;
            assert(names_of(a).contains(b[j]@));
        }
    }
    assert(names_of(a) =~= names_of(b));
}

/// Extraction is a function of the key set and of the text: the same line
/// gives the same outcome, however often it is asked.
pub proof fn same_line_same_key(keys: Set<Seq<char>>, first: &str, second: &str)
    requires
        first@ == second@,
    ensures
        key_of(keys, first@) == key_of(keys, second@),
{
}

/// Picks the key among the members of an object.
pub fn select(keys: &KeySet, members: &Vec<Member>) -> (r: Result<i64, ExtractError>)
    ensures
        r == chosen(keys@, fields_of(members@)),
{
    let ghost all = fields_of(members@);
    let mut i: usize = 0;
    assert(all.skip(0) == all);
    while i < members.len()
        invariant
            i <= members.len(),
            all == fields_of(members@),
            chosen(keys@, all) == chosen(keys@, all.skip(i as int)),
        decreases members.len() - i,
    {
        let ghost rest = all.skip(i as int);
        assert(rest[0] == members[i as int]@);
        assert(rest.drop_first() == all.skip(i + 1));
        if keys.contains(&members[i].name) {
            return match members[i].number {
                Some(key) => Ok(key),
                None => Err(ExtractError::MalformedLine),
            };
        }
        i += 1;
    }
    assert(all.skip(i as int).len() == 0);
    Err(ExtractError::MissingKey)
}

/// Extracts the sort key of one line.
pub fn extract(keys: &KeySet, line: &str) -> (r: Result<i64, ExtractError>)
    ensures
        r == key_of(keys@, line@),
{
    match scan_object(line.as_bytes()) {
        Some(members) => select(keys, &members),
        None => Err(ExtractError::MalformedLine),
    }
}

} // verus!
