//! Generating typed message wrappers from a dictionary, as Rust source text.
use vstd::prelude::*;
use vstd::string::StringExecFns;
use crate::dictionary::{DataType, Dictionary, Field, FieldRef, Message};
use crate::text::{decimal_text, push_decimal, string_push};

verus! {

/// `c` is an ASCII capital letter.
pub open spec fn is_upper(c: char) -> bool {
    0x41 <= (c as u32) <= 0x5a
}

/// `c` is an ASCII small letter.
pub open spec fn is_lower(c: char) -> bool {
    0x61 <= (c as u32) <= 0x7a
}

/// `c` is an ASCII digit.
pub open spec fn is_ascii_digit(c: char) -> bool {
    0x30 <= (c as u32) <= 0x39
}

/// `c` with an ASCII capital letter lowered.
pub open spec fn lowered(c: char) -> char {
    if is_upper(c) {
        ((c as u32) + 0x20) as char
    } else {
        c
    }
}

/// The underscore.
pub open spec fn underscore() -> char {
    0x5f as char
}

/// A new word starts at the capital `cs[i]`: it follows a small letter or
/// a digit, or it is the last capital of an acronym run followed by a small
/// letter.
pub open spec fn starts_word(cs: Seq<char>, i: int) -> bool {
    &&& is_upper(cs[i])
    &&& i > 0
    &&& (is_lower(cs[i - 1]) || is_ascii_digit(cs[i - 1]) || (is_upper(cs[i - 1]) && i + 1
        < cs.len() && is_lower(cs[i + 1])))
}

/// What the character at `i` becomes: itself lowered, after an underscore
/// when a word starts there.
pub open spec fn snake_piece(cs: Seq<char>, i: int) -> Seq<char> {
    if starts_word(cs, i) {
        seq![underscore(), lowered(cs[i])]
    } else {
        seq![lowered(cs[i])]
    }
}

/// The snake_case form of the first `n` characters of `cs`.
pub open spec fn snake_prefix(cs: Seq<char>, n: int) -> Seq<char>
    decreases n,
{
    if n <= 0 {
        seq![]
    } else {
        snake_prefix(cs, n - 1) + snake_piece(cs, n - 1)
    }
}

/// The snake_case form of `cs`.
pub open spec fn spec_snake_case(cs: Seq<char>) -> Seq<char> {
    snake_prefix(cs, cs.len() as int)
}

/// No capital letter is left in a snake_case form.
proof fn lemma_snake_prefix_lower(cs: Seq<char>, n: int)
    requires
        0 <= n <= cs.len(),
    ensures
        forall|k: int| 0 <= k < snake_prefix(cs, n).len() ==> !is_upper(#[trigger] snake_prefix(cs, n)[k]),
    decreases n,
{
    if n > 0 {
        lemma_snake_prefix_lower(cs, n - 1);
        let c = cs[n - 1];
        if is_upper(c) {
            let l = ((c as u32) + 0x20) as char;
            assert(l as u32 == (c as u32) + 0x20);
        }
        let prev = snake_prefix(cs, n - 1);
        let piece = snake_piece(cs, n - 1);
        assert forall|k: int| 0 <= k < piece.len() implies !is_upper(#[trigger] piece[k]) by {
            if is_upper(c) {
                let l = ((c as u32) + 0x20) as char;
                assert(l as u32 == (c as u32) + 0x20);
            }
        }
        assert forall|k: int| 0 <= k < snake_prefix(cs, n).len() implies !is_upper(
            #[trigger] snake_prefix(cs, n)[k],
        ) by {
            if k < prev.len() {
                assert(snake_prefix(cs, n)[k] == prev[k]);
            } else {
                assert(snake_prefix(cs, n)[k] == piece[k - prev.len()]);
            }
        }
    }
}

/// A name with no capital letter is its own snake_case form.
proof fn lemma_snake_prefix_of_lower(cs: Seq<char>, n: int)
    requires
        0 <= n <= cs.len(),
        forall|k: int| 0 <= k < cs.len() ==> !is_upper(#[trigger] cs[k]),
    ensures
        snake_prefix(cs, n) == cs.take(n),
    decreases n,
{
    if n > 0 {
        lemma_snake_prefix_of_lower(cs, n - 1);
        assert(!is_upper(cs[n - 1]));
        assert(cs.take(n) =~= cs.take(n - 1) + seq![cs[n - 1]]);
    } else {
        assert(cs.take(0) =~= Seq::<char>::empty());
    }
}

/// Converting to snake_case twice is converting once: the first pass
/// leaves no capital letter for the second to act on.
pub proof fn lemma_snake_case_idempotent(cs: Seq<char>)
    ensures
        spec_snake_case(spec_snake_case(cs)) == spec_snake_case(cs),
{
    let once = spec_snake_case(cs);
    lemma_snake_prefix_lower(cs, cs.len() as int);
    lemma_snake_prefix_of_lower(once, once.len() as int);
    assert(once.take(once.len() as int) =~= once);
}

fn char_is_upper(c: char) -> (r: bool)
    ensures
        r == is_upper(c),
{
    let code = c as u32;
    0x41 <= code && code <= 0x5a
}

fn char_is_lower(c: char) -> (r: bool)
    ensures
        r == is_lower(c),
{
    let code = c as u32;
    0x61 <= code && code <= 0x7a
}

fn char_is_digit(c: char) -> (r: bool)
    ensures
        r == is_ascii_digit(c),
{
    let code = c as u32;
    0x30 <= code && code <= 0x39
}

/// The characters of `s`.
pub(crate) fn chars_of(s: &str) -> (chars: Vec<char>)
    ensures
        chars@ == s@,
{
    let mut chars: Vec<char> = Vec::new();
    for c in it: s.chars()
        invariant
            chars@ == it.seq().take(it.index() as int),
    {
        chars.push(c);
    }
    chars
}

/// `c`, an ASCII capital letter, lowered.
fn lower(c: char) -> (r: char)
    requires
        is_upper(c),
    ensures
        r == lowered(c),
{
    let code = c as u8;
    (code + 0x20) as char
}

/// Converts a FIX PascalCase name to a snake_case identifier.
///
/// Acronym runs stay together, with the last capital starting the next
/// word when lowercase follows (`ClOrdID` -> `cl_ord_id`, `MDEntryPx` ->
/// `md_entry_px`). Digits attach to the preceding word (`Nested2PartyID`
/// -> `nested2_party_id`).
pub fn snake_case(name: &str) -> (converted: String)
    ensures
        converted@ == spec_snake_case(name@),
{
    let chars = chars_of(name);
    let mut converted = String::new();
    let mut i: usize = 0;
    while i < chars.len()
        invariant
            i <= chars@.len(),
            chars@ == name@,
            converted@ == snake_prefix(chars@, i as int),
        decreases chars@.len() - i,
    {
        let current = chars[i];
        if char_is_upper(current) {
            let after_word = i > 0 && (char_is_lower(chars[i - 1]) || char_is_digit(chars[i - 1]));
            let ends_acronym = i > 0 && char_is_upper(chars[i - 1]) && i + 1 < chars.len()
                && char_is_lower(chars[i + 1]);
            if after_word || ends_acronym {
                string_push(&mut converted, 0x5fu8 as char);
            }
            string_push(&mut converted, lower(current));
        } else {
            string_push(&mut converted, current);
        }
        proof {
            assert(converted@ =~= snake_prefix(chars@, i as int) + snake_piece(chars@, i as int));
        }
        i = i + 1;
    }
    converted
}

// ---------------------------------------------------------------------------
// Emitting wrappers
// ---------------------------------------------------------------------------

/// Why wrappers can't be generated from a dictionary.
#[derive(Debug)]
pub enum Error {
    /// A message refers to a tag that has no field definition.
    UnknownTag { message: String, tag: u32 },
}

/// The position of the definition of `tag` among `fields`: the last one,
/// when a tag is defined more than once.
pub open spec fn definition_of(fields: Seq<Field>, tag: u32) -> Option<int>
    decreases fields.len(),
{
    if fields.len() == 0 {
        None
    } else if fields.last().tag == tag {
        Some(fields.len() - 1)
    } else {
        definition_of(fields.drop_last(), tag)
    }
}

/// `parts` joined by `separator`.
pub open spec fn join(parts: Seq<Seq<char>>, separator: Seq<char>) -> Seq<char>
    decreases parts.len(),
{
    if parts.len() == 0 {
        seq![]
    } else if parts.len() == 1 {
        parts[0]
    } else {
        join(parts.drop_last(), separator) + separator + parts.last()
    }
}

/// The Rust type an accessor returns for a field of this data type.
pub open spec fn rust_type_text(data_type: DataType) -> Seq<char> {
    match data_type {
        DataType::String => "Result<Option<&str>, InvalidValue>"@,
        DataType::Int => "Result<Option<i64>, InvalidValue>"@,
        DataType::Other(_) => "Option<&[u8]>"@,
    }
}

/// The name of a field's accessor: the field's name in snake_case, with a
/// `_raw` suffix for a field whose value is handed out undecoded.
pub open spec fn accessor_name(field: Field) -> Seq<char> {
    match field.data_type {
        DataType::Other(_) => spec_snake_case(field.name@) + "_raw"@,
        _ => spec_snake_case(field.name@),
    }
}

/// The `RawMessage` method that reads a field of this data type.
pub open spec fn read_method(data_type: DataType) -> Seq<char> {
    match data_type {
        DataType::String => "get_str"@,
        DataType::Int => "get_int"@,
        DataType::Other(_) => "get"@,
    }
}

/// The accessor method for a field, preceded by a blank line.
pub open spec fn accessor_text(field: Field) -> Seq<char> {
    "\n    pub fn "@ + accessor_name(field) + "(&self) -> "@ + rust_type_text(field.data_type)
        + " {\n        self.0."@ + read_method(field.data_type) + "("@ + decimal_text(
        field.tag as nat,
    ) + ")\n    }\n"@
}

/// The wrapper struct for a message.
pub open spec fn struct_text(message: Message) -> Seq<char> {
    "pub struct "@ + message.name@ + "(RawMessage);\n"@
}

/// The members every wrapper has: its `MsgType(35)` value, and conversions
/// from and to the raw message.
pub open spec fn preamble_text(message: Message) -> Seq<char> {
    "    pub const MSG_TYPE: &'static [u8] = b\""@ + message.msg_type@
        + "\";\n\n    pub fn from_raw(raw: RawMessage) -> Self {\n        Self(raw)\n    }\n\n    pub fn raw(&self) -> &RawMessage {\n        &self.0\n    }\n"@
}

/// The head of the generated module: which dictionary it comes from, and
/// the imports the wrappers use.
pub open spec fn header_text(source: Seq<char>) -> Seq<char> {
    "//! Typed messages of the `"@ + source + "` dictionary.\n\nuse refix::{InvalidValue, RawMessage};\n\n"@
}

/// The first of `refs` at or after `i` that has no definition in `fields`.
pub open spec fn first_unknown(fields: Seq<Field>, refs: Seq<FieldRef>, i: int) -> Option<int>
    decreases refs.len() - i,
{
    if i < 0 || i >= refs.len() {
        None
    } else if definition_of(fields, refs[i].tag) is None {
        Some(i)
    } else {
        first_unknown(fields, refs, i + 1)
    }
}

/// The accessors of a message whose references all have definitions.
pub open spec fn accessors(fields: Seq<Field>, refs: Seq<FieldRef>) -> Seq<Seq<char>> {
    Seq::new(refs.len(), |i: int| accessor_text(fields[definition_of(fields, refs[i].tag)->0]))
}

/// The impl block of a message's wrapper.
pub open spec fn impl_text(message: Message, fields: Seq<Field>) -> Seq<char> {
    "impl "@ + message.name@ + " {\n"@ + preamble_text(message) + join(
        accessors(fields, message.fields@),
        ""@,
    ) + "}\n"@
}

/// The wrapper struct and impl of a message.
pub open spec fn message_text(message: Message, fields: Seq<Field>) -> Seq<char> {
    struct_text(message) + "\n"@ + impl_text(message, fields)
}

/// The first message at or after `i` that refers to an undefined tag.
pub open spec fn first_failing(messages: Seq<Message>, fields: Seq<Field>, i: int) -> Option<int>
    decreases messages.len() - i,
{
    if i < 0 || i >= messages.len() {
        None
    } else if first_unknown(fields, messages[i].fields@, 0) is Some {
        Some(i)
    } else {
        first_failing(messages, fields, i + 1)
    }
}

/// The generated module for the dictionary read from `source`: the header,
/// then every message's wrapper, in order, separated by blank lines.
pub open spec fn module_text(source: Seq<char>, messages: Seq<Message>, fields: Seq<Field>) -> Seq<char> {
    header_text(source) + join(
        Seq::new(messages.len(), |i: int| message_text(messages[i], fields)),
        "\n"@,
    )
}

/// Joining one more part.
proof fn lemma_join_push(parts: Seq<Seq<char>>, separator: Seq<char>, i: int)
    requires
        0 <= i < parts.len(),
    ensures
        join(parts.take(i + 1), separator) == if i == 0 {
            parts[0]
        } else {
            join(parts.take(i), separator) + separator + parts[i]
        },
{
    assert(parts.take(i + 1).drop_last() =~= parts.take(i));
}

/// The position of the definition of `tag`.
fn definition_index(fields: &Vec<Field>, tag: u32) -> (index: Option<usize>)
    ensures
        match definition_of(fields@, tag) {
            Some(i) => index is Some && index->0 as int == i && 0 <= i < fields@.len(),
            None => index is None,
        },
{
    let mut found: Option<usize> = None;
    let mut i: usize = 0;
    assert(fields@.take(0) =~= Seq::<Field>::empty());
    while i < fields.len()
        invariant
            i <= fields@.len(),
            match definition_of(fields@.take(i as int), tag) {
                Some(k) => found is Some && found->0 as int == k && 0 <= k < i,
                None => found is None,
            },
        decreases fields@.len() - i,
    {
        assert(fields@.take(i + 1).drop_last() =~= fields@.take(i as int));
        if fields[i].tag == tag {
            found = Some(i);
        }
        i = i + 1;
    }
    assert(fields@.take(i as int) =~= fields@);
    found
}

/// The Rust type an accessor returns for a field of this data type.
fn data_type_to_rust_type(data_type: &DataType) -> (text: String)
    ensures
        text@ == rust_type_text(*data_type),
{
    match data_type {
        DataType::String => String::from_str("Result<Option<&str>, InvalidValue>"),
        DataType::Int => String::from_str("Result<Option<i64>, InvalidValue>"),
        DataType::Other(_) => String::from_str("Option<&[u8]>"),
    }
}

/// The `RawMessage` method that reads a field of this data type.
fn read_method_name(data_type: &DataType) -> (name: &'static str)
    ensures
        name@ == read_method(*data_type),
{
    match data_type {
        DataType::String => "get_str",
        DataType::Int => "get_int",
        DataType::Other(_) => "get",
    }
}

/// The accessor method for a field.
fn emit_accessor(field: &Field) -> (code: String)
    ensures
        code@ == accessor_text(*field),
{
    let mut code = String::from_str("\n    pub fn ");
    let name = snake_case(field.name.as_str());
    code.append(name.as_str());
    let ghost before_suffix = code@;
    match &field.data_type {
        DataType::Other(_) => code.append("_raw"),
        _ => {},
    }
    assert(code@ == "\n    pub fn "@ + accessor_name(*field));
    code.append("(&self) -> ");
    let rust_type = data_type_to_rust_type(&field.data_type);
    code.append(rust_type.as_str());
    code.append(" {\n        self.0.");
    code.append(read_method_name(&field.data_type));
    code.append("(");
    push_decimal(&mut code, field.tag);
    code.append(")\n    }\n");
    code
}

/// The wrapper struct for a message.
fn emit_message_struct(message: &Message) -> (code: String)
    ensures
        code@ == struct_text(*message),
{
    let mut code = String::from_str("pub struct ");
    code.append(message.name.as_str());
    code.append("(RawMessage);\n");
    code
}

/// The members every wrapper has.
fn emit_preamble(message: &Message) -> (code: String)
    ensures
        code@ == preamble_text(*message),
{
    let mut code = String::from_str("    pub const MSG_TYPE: &'static [u8] = b\"");
    code.append(message.msg_type.as_str());
    code.append(
        "\";\n\n    pub fn from_raw(raw: RawMessage) -> Self {\n        Self(raw)\n    }\n\n    pub fn raw(&self) -> &RawMessage {\n        &self.0\n    }\n",
    );
    code
}

/// The impl block of a message's wrapper, or the first tag it refers to
/// that has no definition.
fn emit_message_impl(message: &Message, fields: &Vec<Field>) -> (code: Result<String, Error>)
    ensures
        match first_unknown(fields@, message.fields@, 0) {
            Some(k) => code matches Err(Error::UnknownTag { message: name, tag }) && name@
                == message.name@ && tag == message.fields@[k].tag,
            None => code matches Ok(text) && text@ == impl_text(*message, fields@),
        },
{
    let refs = &message.fields;
    let mut found: Vec<usize> = Vec::new();
    let mut i: usize = 0;
    while i < refs.len()
        invariant
            i <= refs@.len(),
            refs@ == message.fields@,
            first_unknown(fields@, refs@, 0) == first_unknown(fields@, refs@, i as int),
            found@.len() == i,
            forall|j: int|
                0 <= j < i ==> definition_of(fields@, refs@[j].tag) == Some(
                    #[trigger] found@[j] as int,
                ) && found@[j] < fields@.len(),
        decreases refs@.len() - i,
    {
        let tag = refs[i].tag;
        match definition_index(fields, tag) {
            Some(index) => {
                let ghost before = found@;
                found.push(index);
                assert forall|j: int| 0 <= j < i + 1 implies definition_of(
                    fields@,
                    refs@[j].tag,
                ) == Some(#[trigger] found@[j] as int) && found@[j] < fields@.len() by {
                    if j == i {
                        assert(found@[j] == index);
                    } else {
                        assert(found@[j] == before[j]);
                    }
                }
            },
            None => {
                return Err(Error::UnknownTag { message: message.name.clone(), tag });
            },
        }
        i = i + 1;
    }
    let ghost parts = accessors(fields@, refs@);
    let mut body = String::new();
    let mut k: usize = 0;
    while k < found.len()
        invariant
            k <= found@.len(),
            found@.len() == refs@.len(),
            parts == accessors(fields@, refs@),
            forall|j: int|
                0 <= j < found@.len() ==> definition_of(fields@, refs@[j].tag) == Some(
                    #[trigger] found@[j] as int,
                ) && found@[j] < fields@.len(),
            body@ == join(parts.take(k as int), ""@),
        decreases found@.len() - k,
    {
        proof {
            lemma_join_push(parts, ""@, k as int);
            reveal_strlit("");
            assert(join(parts.take(k as int), ""@) + ""@ =~= join(parts.take(k as int), ""@));
        }
        let accessor = emit_accessor(&fields[found[k]]);
        body.append(accessor.as_str());
        k = k + 1;
    }
    assert(parts.take(found@.len() as int) =~= parts);
    let mut code = String::from_str("impl ");
    code.append(message.name.as_str());
    code.append(" {\n");
    let preamble = emit_preamble(message);
    code.append(preamble.as_str());
    code.append(body.as_str());
    code.append("}\n");
    Ok(code)
}

/// The wrapper struct and impl of a message.
fn emit_message(message: &Message, fields: &Vec<Field>) -> (code: Result<String, Error>)
    ensures
        match first_unknown(fields@, message.fields@, 0) {
            Some(k) => code matches Err(Error::UnknownTag { message: name, tag }) && name@
                == message.name@ && tag == message.fields@[k].tag,
            None => code matches Ok(text) && text@ == message_text(*message, fields@),
        },
{
    let message_struct = emit_message_struct(message);
    let message_impl = match emit_message_impl(message, fields) {
        Ok(code) => code,
        Err(error) => return Err(error),
    };
    let mut code = message_struct;
    code.append("\n");
    code.append(message_impl.as_str());
    Ok(code)
}

/// The head of the generated module for the dictionary read from `source`.
fn emit_header(source: &str) -> (code: String)
    ensures
        code@ == header_text(source@),
{
    let mut code = String::from_str("//! Typed messages of the `");
    code.append(source);
    code.append("` dictionary.\n\nuse refix::{InvalidValue, RawMessage};\n\n");
    code
}

/// Generates the typed message wrappers for every message of `dictionary`,
/// read from `source`, in order, or reports the first message that refers
/// to a tag the dictionary does not define.
pub fn generate(dictionary: &Dictionary, source: &str) -> (code: Result<String, Error>)
    ensures
        match first_failing(dictionary.messages@, dictionary.fields@, 0) {
            Some(m) => code matches Err(Error::UnknownTag { message: name, tag }) && name@
                == dictionary.messages@[m].name@ && tag == dictionary.messages@[m].fields@[first_unknown(
                dictionary.fields@,
                dictionary.messages@[m].fields@,
                0,
            )->0].tag,
            None => code matches Ok(text) && text@ == module_text(
                source@,
                dictionary.messages@,
                dictionary.fields@,
            ),
        },
{
    let messages = &dictionary.messages;
    let fields = &dictionary.fields;
    let ghost parts = Seq::new(messages@.len(), |i: int| message_text(messages@[i], fields@));
    let ghost header = header_text(source@);
    let mut code = emit_header(source);
    let mut i: usize = 0;
    assert(header + join(parts.take(0), "\n"@) =~= header);
    while i < messages.len()
        invariant
            i <= messages@.len(),
            messages@ == dictionary.messages@,
            fields@ == dictionary.fields@,
            header == header_text(source@),
            parts == Seq::new(messages@.len(), |i: int| message_text(messages@[i], fields@)),
            first_failing(messages@, fields@, 0) == first_failing(messages@, fields@, i as int),
            code@ == header + join(parts.take(i as int), "\n"@),
        decreases messages@.len() - i,
    {
        let text = match emit_message(&messages[i], fields) {
            Ok(text) => text,
            Err(error) => return Err(error),
        };
        proof {
            lemma_join_push(parts, "\n"@, i as int);
        }
        let ghost before = code@;
        if i > 0 {
            code.append("\n");
        }
        code.append(text.as_str());
        proof {
            if i > 0 {
                assert(code@ =~= header + (join(parts.take(i as int), "\n"@) + "\n"@ + parts[i as int]));
            } else {
                assert(code@ =~= header + parts[0]);
            }
        }
        i = i + 1;
    }
    assert(parts.take(messages@.len() as int) =~= parts);
    Ok(code)
}

} // verus!
