//! The record codec: commands as JSON text.
//!
//! A record is one JSON object with one member, named after the command's
//! variant, whose value is an object of the variant's fields:
//!
//! ```text
//! {"Set":{"key":"a","value":"1"}}
//! {"Remove":{"key":"a"}}
//! ```
//!
//! Records follow each other in a stream with nothing between them; white
//! space before a record is allowed and belongs to it. The JSON layer is
//! `serde_json`: it writes the string literals and reads the objects. What
//! it returns is named here, not spelled out; the framing of a record and
//! the reading of a parsed object as a command are this module's own and
//! are proved.

use crate::command::{Command, CommandView};
use crate::error::{KvsError, Result};
use vstd::prelude::*;
use vstd::slice::*;
use vstd::string::*;
use vstd::utf8::*;

verus! {

/// `String::from_utf8`, with the error dropped: the text that `bytes`
/// encode, where they are valid UTF-8, and `None` where they are not.
#[verifier::external_body]
pub(crate) fn string_from_utf8(bytes: Vec<u8>) -> (res: Option<String>)
    ensures
        res is Some <==> valid_utf8(bytes@),
        res matches Some(s) ==> encode_utf8(s@) == bytes@,
{
    String::from_utf8(bytes).ok()
}

/// Appends a copy of `src` to `dst`.
pub fn append_bytes(dst: &mut Vec<u8>, src: &[u8])
    ensures
        final(dst)@ == old(dst)@ + src@,
{
    let mut i: usize = 0;
    while i < src.len()
        invariant
            i <= src@.len(),
            dst@ == old(dst)@ + src@.subrange(0, i as int),
        decreases src@.len() - i,
    {
        dst.push(src[i]);
        i += 1;
        assert(dst@ =~= old(dst)@ + src@.subrange(0, i as int));
    }
    assert(src@.subrange(0, i as int) =~= src@);
}

/// What `serde_json` gives for the string `text`: the JSON string literal
/// for it, with its quotes and escapes, or the words of its error.
pub uninterp spec fn json_quoted(text: Seq<char>) -> core::result::Result<Seq<char>, Seq<char>>;

/// The mathematical content of what `json_quote` returns.
pub open spec fn quoted_view(res: core::result::Result<String, String>) -> core::result::Result<
    Seq<char>,
    Seq<char>,
> {
    match res {
        Ok(quoted) => Ok(quoted@),
        Err(cause) => Err(cause@),
    }
}

/// `serde_json::to_string` on a string: the JSON string literal for `text`,
/// or the error as its text. The claim is that the outcome depends on
/// `text` alone; nothing is said of what it is.
#[verifier::external_body]
pub(crate) fn json_quote(text: &str) -> (res: core::result::Result<String, String>)
    ensures
        quoted_view(res) == json_quoted(text@),
{
    match serde_json::to_string(text) {
        Ok(quoted) => Ok(quoted),
        Err(e) => Err(e.to_string()),
    }
}

/// The bytes of `{"Set":{"key":`, which open the record of a `Put`.
pub open spec fn put_head() -> Seq<u8> {
    seq![123u8, 34u8, 83u8, 101u8, 116u8, 34u8, 58u8, 123u8, 34u8, 107u8, 101u8, 121u8, 34u8, 58u8]
}

/// The bytes of `,"value":`, which stand between key and value.
pub open spec fn put_middle() -> Seq<u8> {
    seq![44u8, 34u8, 118u8, 97u8, 108u8, 117u8, 101u8, 34u8, 58u8]
}

/// The bytes of `{"Remove":{"key":`, which open the record of a `Remove`.
pub open spec fn remove_head() -> Seq<u8> {
    seq![
        123u8, 34u8, 82u8, 101u8, 109u8, 111u8, 118u8, 101u8, 34u8, 58u8, 123u8, 34u8, 107u8, 101u8,
        121u8, 34u8, 58u8,
    ]
}

/// The bytes of `}}`, which close every record.
pub open spec fn record_tail() -> Seq<u8> {
    seq![125u8, 125u8]
}

/// The record of a `Put` whose key and value have the string literals
/// `quoted_key` and `quoted_value`.
pub open spec fn put_record(quoted_key: Seq<u8>, quoted_value: Seq<u8>) -> Seq<u8> {
    put_head() + quoted_key + put_middle() + quoted_value + record_tail()
}

/// The record of a `Remove` whose key has the string literal `quoted_key`.
pub open spec fn remove_record(quoted_key: Seq<u8>) -> Seq<u8> {
    remove_head() + quoted_key + record_tail()
}

/// The record of `command`, or the words of the JSON layer where it cannot
/// write one of the strings.
pub open spec fn encode_spec(command: CommandView) -> core::result::Result<Seq<u8>, Seq<char>> {
    match command {
        CommandView::Put { key, value } => match json_quoted(key) {
            Err(cause) => Err(cause),
            Ok(quoted_key) => match json_quoted(value) {
                Err(cause) => Err(cause),
                Ok(quoted_value) => Ok(
                    put_record(encode_utf8(quoted_key), encode_utf8(quoted_value)),
                ),
            },
        },
        CommandView::Remove { key } => match json_quoted(key) {
            Err(cause) => Err(cause),
            Ok(quoted_key) => Ok(remove_record(encode_utf8(quoted_key))),
        },
    }
}

/// A record is never empty.
pub proof fn lemma_record_not_empty(command: CommandView)
    ensures
        encode_spec(command) matches Ok(record) ==> record.len() > 0,
{
    assert(put_head().len() == 14);
    assert(remove_head().len() == 17);
}

/// Frames the record of a `Put` round the string literals of its key and
/// value.
pub fn frame_put(quoted_key: &str, quoted_value: &str) -> (record: Vec<u8>)
    ensures
        record@ == put_record(encode_utf8(quoted_key@), encode_utf8(quoted_value@)),
{
    let mut record: Vec<u8> = vec![
        123u8, 34u8, 83u8, 101u8, 116u8, 34u8, 58u8, 123u8, 34u8, 107u8, 101u8, 121u8, 34u8, 58u8,
    ];
    assert(record@ =~= put_head());
    append_bytes(&mut record, quoted_key.as_bytes());
    let middle: Vec<u8> = vec![44u8, 34u8, 118u8, 97u8, 108u8, 117u8, 101u8, 34u8, 58u8];
    assert(middle@ =~= put_middle());
    append_bytes(&mut record, middle.as_slice());
    append_bytes(&mut record, quoted_value.as_bytes());
    record.push(125u8);
    record.push(125u8);
    assert(record@ =~= put_record(encode_utf8(quoted_key@), encode_utf8(quoted_value@)));
    record
}

/// Frames the record of a `Remove` round the string literal of its key.
pub fn frame_remove(quoted_key: &str) -> (record: Vec<u8>)
    ensures
        record@ == remove_record(encode_utf8(quoted_key@)),
{
    let mut record: Vec<u8> = vec![
        123u8, 34u8, 82u8, 101u8, 109u8, 111u8, 118u8, 101u8, 34u8, 58u8, 123u8, 34u8, 107u8, 101u8,
        121u8, 34u8, 58u8,
    ];
    assert(record@ =~= remove_head());
    append_bytes(&mut record, quoted_key.as_bytes());
    record.push(125u8);
    record.push(125u8);
    assert(record@ =~= remove_record(encode_utf8(quoted_key@)));
    record
}

/// Encodes `command` as one record.
///
/// Fails with `Serialization`, carrying the JSON layer's words, exactly
/// when that layer cannot write one of the strings.
pub fn encode(command: &Command) -> (res: Result<Vec<u8>>)
    ensures
        match encode_spec(command@) {
            Ok(record) => res matches Ok(bytes) && bytes@ == record,
            Err(cause) => res matches Err(KvsError::Serialization { cause: text }) && text@
                == cause,
        },
{
    match command {
        Command::Put { key, value } => {
            let quoted_key = match json_quote(key.as_str()) {
                Ok(quoted) => quoted,
                Err(cause) => {
                    return Err(KvsError::Serialization { cause });
                },
            };
            let quoted_value = match json_quote(value.as_str()) {
                Ok(quoted) => quoted,
                Err(cause) => {
                    return Err(KvsError::Serialization { cause });
                },
            };
            Ok(frame_put(quoted_key.as_str(), quoted_value.as_str()))
        },
        Command::Remove { key } => {
            match json_quote(key.as_str()) {
                Ok(quoted) => Ok(frame_remove(quoted.as_str())),
                Err(cause) => Err(KvsError::Serialization { cause }),
            }
        },
    }
}

/// One field of a parsed object: its name and its string value.
pub struct Field {
    pub name: String,
    pub value: String,
}

/// The mathematical content of a [`Field`].
pub struct FieldView {
    pub name: Seq<char>,
    pub value: Seq<char>,
}

impl View for Field {
    type V = FieldView;

    open spec fn view(&self) -> FieldView {
        FieldView { name: self.name@, value: self.value@ }
    }
}

/// One member of a parsed object: the name it goes by and the fields of the
/// object that is its value, in the order of their names.
pub struct Member {
    pub tag: String,
    pub fields: Vec<Field>,
}

/// The mathematical content of a [`Member`].
pub struct MemberView {
    pub tag: Seq<char>,
    pub fields: Seq<FieldView>,
}

impl View for Member {
    type V = MemberView;

    open spec fn view(&self) -> MemberView {
        MemberView { tag: self.tag@, fields: self.fields@.map_values(|f: Field| f@) }
    }
}

/// What the JSON layer finds at the front of a stream.
pub enum Front {
    /// Nothing but white space is left.
    End,
    /// The front is not an object of objects of strings; `cause` says why.
    Malformed { cause: String },
    /// The front is such an object. `members` are its members in the order
    /// of their names, and `length` counts the bytes up to its end, white
    /// space before it included.
    Object { members: Vec<Member>, length: usize },
}

/// The mathematical content of a [`Front`].
pub enum FrontView {
    End,
    Malformed { cause: Seq<char> },
    Object { members: Seq<MemberView>, length: usize },
}

impl View for Front {
    type V = FrontView;

    open spec fn view(&self) -> FrontView {
        match self {
            Front::End => FrontView::End,
            Front::Malformed { cause } => FrontView::Malformed { cause: cause@ },
            Front::Object { members, length } => FrontView::Object {
                members: members@.map_values(|m: Member| m@),
                length: *length,
            },
        }
    }
}

/// What `serde_json` finds at the front of `bytes`, read as a stream of
/// objects whose members are objects with string values.
pub uninterp spec fn json_front(bytes: Seq<u8>) -> FrontView;

/// The first step of `serde_json`'s stream deserializer over `bytes`, with
/// a map of maps of strings as the type to read: the end of the stream, its
/// error as text, or the object with the stream's byte offset behind it.
#[verifier::external_body]
pub(crate) fn json_next(bytes: &[u8]) -> (front: Front)
    ensures
        front@ == json_front(bytes@),
{
    let mut stream = serde_json::Deserializer::from_slice(bytes).into_iter::<
        std::collections::BTreeMap<String, std::collections::BTreeMap<String, String>>,
    >();
    match stream.next() {
        None => Front::End,
        Some(Err(e)) => Front::Malformed { cause: e.to_string() },
        Some(Ok(object)) => Front::Object {
            members: object.into_iter().map(|(tag, fields)| Member {
                tag,
                fields: fields.into_iter().map(|(name, value)| Field { name, value }).collect(),
            }).collect(),
            length: stream.byte_offset(),
        },
    }
}

/// What the front of a stream is, read as a record.
pub enum Decoded {
    /// The stream holds no further record.
    End,
    /// The front is the record of `command` and takes `length` bytes.
    Record { command: CommandView, length: usize },
    /// The front is not a record.
    Malformed { cause: Seq<char> },
    /// The front has the shape of a record, under a variant name that is
    /// not known.
    UnknownTag,
}

/// The value of the first of `fields` that is called `name`.
pub open spec fn field_value(fields: Seq<FieldView>, name: Seq<char>) -> Option<Seq<char>>
    decreases fields.len(),
{
    if fields.len() == 0 {
        None
    } else if fields[0].name == name {
        Some(fields[0].value)
    } else {
        field_value(fields.skip(1), name)
    }
}

/// What is said of an object that has not exactly one member.
pub open spec fn cause_not_one_variant() -> Seq<char> {
    "expected an object with one variant"@
}

/// What is said of a record that lacks a field of its variant.
pub open spec fn cause_missing_field() -> Seq<char> {
    "missing field"@
}

/// Reads the fields of a member called `Set`.
pub open spec fn read_put(fields: Seq<FieldView>, length: usize) -> Decoded {
    match (field_value(fields, "key"@), field_value(fields, "value"@)) {
        (Some(key), Some(value)) => Decoded::Record {
            command: CommandView::Put { key, value },
            length,
        },
        _ => Decoded::Malformed { cause: cause_missing_field() },
    }
}

/// Reads the fields of a member called `Remove`.
pub open spec fn read_remove(fields: Seq<FieldView>, length: usize) -> Decoded {
    match field_value(fields, "key"@) {
        Some(key) => Decoded::Record { command: CommandView::Remove { key }, length },
        None => Decoded::Malformed { cause: cause_missing_field() },
    }
}

/// Reads what the JSON layer found as a record.
///
/// An object with one member is a record where the member is called `Set`
/// and has the fields `key` and `value`, or is called `Remove` and has the
/// field `key`; further fields are passed over. Under one of these names
/// and without such a field it is malformed; under any other name its
/// variant is unknown. An object with no member, or with several, is
/// malformed.
pub open spec fn interpret_spec(front: FrontView) -> Decoded {
    match front {
        FrontView::End => Decoded::End,
        FrontView::Malformed { cause } => Decoded::Malformed { cause },
        FrontView::Object { members, length } => {
            if members.len() != 1 {
                Decoded::Malformed { cause: cause_not_one_variant() }
            } else if members[0].tag == "Set"@ {
                read_put(members[0].fields, length)
            } else if members[0].tag == "Remove"@ {
                read_remove(members[0].fields, length)
            } else {
                Decoded::UnknownTag
            }
        },
    }
}

/// What the front of `bytes` is, read as a record.
pub open spec fn decode_spec(bytes: Seq<u8>) -> Decoded {
    interpret_spec(json_front(bytes))
}

/// `res` reports `decoded`: the end as `Ok(None)`, a record as its command
/// and length, a malformed front as `Serialization` with its cause, an
/// unknown variant as `UnexpectedCommandType`.
pub open spec fn reports(res: Result<Option<(Command, usize)>>, decoded: Decoded) -> bool {
    match decoded {
        Decoded::End => res matches Ok(None),
        Decoded::Record { command, length } => res matches Ok(Some(found)) && found.0@ == command
            && found.1 == length,
        Decoded::Malformed { cause } => res matches Err(KvsError::Serialization { cause: text })
            && text@ == cause,
        Decoded::UnknownTag => res matches Err(KvsError::UnexpectedCommandType),
    }
}

/// The value of the first of `fields` that is called `name`.
fn find_field(fields: &Vec<Field>, name: &str) -> (res: Option<String>)
    ensures
        match field_value(fields@.map_values(|f: Field| f@), name@) {
            Some(value) => res matches Some(found) && found@ == value,
            None => res is None,
        },
{
    let ghost all = fields@.map_values(|f: Field| f@);
    let wanted = name.to_owned();
    let mut i: usize = 0;
    assert(all.skip(0) =~= all);
    while i < fields.len()
        invariant
            i <= fields.len(),
            all == fields@.map_values(|f: Field| f@),
            wanted@ == name@,
            field_value(all, name@) == field_value(all.skip(i as int), name@),
        decreases fields.len() - i,
    {
        assert(all.skip(i as int)[0] == fields@[i as int]@);
        if fields[i].name == wanted {
            return Some(fields[i].value.clone());
        }
        assert(all.skip(i as int).skip(1) =~= all.skip(i as int + 1));
        i += 1;
    }
    assert(all.skip(i as int).len() == 0);
    None
}

/// Reads what the JSON layer found as a record.
pub fn interpret(front: Front) -> (res: Result<Option<(Command, usize)>>)
    ensures
        reports(res, interpret_spec(front@)),
{
    match front {
        Front::End => Ok(None),
        Front::Malformed { cause } => Err(KvsError::Serialization { cause }),
        Front::Object { members, length } => {
            if members.len() != 1 {
                return Err(
                    KvsError::Serialization {
                        cause: "expected an object with one variant".to_owned(),
                    },
                );
            }
            let member = &members[0];
            assert(members@.map_values(|m: Member| m@)[0] == member@);
            if member.tag == "Set".to_owned() {
                match (find_field(&member.fields, "key"), find_field(&member.fields, "value")) {
                    (Some(key), Some(value)) => Ok(Some((Command::Put { key, value }, length))),
                    _ => Err(KvsError::Serialization { cause: "missing field".to_owned() }),
                }
            } else if member.tag == "Remove".to_owned() {
                match find_field(&member.fields, "key") {
                    Some(key) => Ok(Some((Command::Remove { key }, length))),
                    None => Err(KvsError::Serialization { cause: "missing field".to_owned() }),
                }
            } else {
                Err(KvsError::UnexpectedCommandType)
            }
        },
    }
}

/// Decodes the record at the front of `bytes`.
///
/// Returns `Ok(None)` where nothing but white space is left, and otherwise
/// the command with the number of bytes its record takes, `Serialization`
/// where the front is no record, or `UnexpectedCommandType` where it is a
/// record of an unknown variant.
pub fn decode(bytes: &[u8]) -> (res: Result<Option<(Command, usize)>>)
    ensures
        reports(res, decode_spec(bytes@)),
{
    interpret(json_next(bytes))
}

} // verus!
