//! The QuickFIX XML dictionary frontend.
//!
//! A QuickFIX dictionary is an XML document: a `<fix>` root carrying the
//! version, with a `<messages>` section of `<message>` elements that refer
//! to fields by name, and a `<fields>` section of `<field>` definitions with
//! their enum `<value>`s. The frontend reads that document in two steps:
//! [`tokens_from`] states how the text splits into tags, and
//! [`spec_parse`] how the tags make up a dictionary. What the dictionary
//! does not model (the header, trailer and components sections, and
//! component and group references inside messages) is reported as a
//! [`Warning`]. Attribute values are taken verbatim (character references
//! are not decoded), and a comment or declaration ends at its first `>`.
use vstd::prelude::*;
use vstd::string::StringExecFns;
use crate::codegen::chars_of;
use crate::dictionary::{
    Category, DataType, DataTypeView, Dictionary, DictionaryView, EnumValue, EnumValueView, Field,
    FieldRef, FieldView, Message, MessageView, Protocol, Version,
};
use crate::text::string_push;

verus! {

// ---------------------------------------------------------------------------
// Tags
// ---------------------------------------------------------------------------

/// XML whitespace.
pub open spec fn is_space(c: char) -> bool {
    c == ' ' || c == '\t' || c == '\n' || c == '\r'
}

/// A character that ends an element or attribute name.
pub open spec fn ends_name(c: char) -> bool {
    is_space(c) || c == '=' || c == '/' || c == '>'
}

/// The first position in `i..end` holding `c`, or `end`.
pub open spec fn find_char(cs: Seq<char>, i: int, end: int, c: char) -> int
    decreases end - i,
{
    if i >= end {
        end
    } else if cs[i] == c {
        i
    } else {
        find_char(cs, i + 1, end, c)
    }
}

/// The first position in `i..end` that is not whitespace, or `end`.
pub open spec fn skip_space(cs: Seq<char>, i: int, end: int) -> int
    decreases end - i,
{
    if i >= end {
        end
    } else if is_space(cs[i]) {
        skip_space(cs, i + 1, end)
    } else {
        i
    }
}

/// The first position in `i..end` that ends a name, or `end`.
pub open spec fn name_end(cs: Seq<char>, i: int, end: int) -> int
    decreases end - i,
{
    if i >= end {
        end
    } else if ends_name(cs[i]) {
        i
    } else {
        name_end(cs, i + 1, end)
    }
}

pub proof fn lemma_find_char(cs: Seq<char>, i: int, end: int, c: char)
    requires
        i <= end,
    ensures
        i <= find_char(cs, i, end, c) <= end,
    decreases end - i,
{
    if i < end && cs[i] != c {
        lemma_find_char(cs, i + 1, end, c);
    }
}

pub proof fn lemma_skip_space(cs: Seq<char>, i: int, end: int)
    requires
        i <= end,
    ensures
        i <= skip_space(cs, i, end) <= end,
    decreases end - i,
{
    if i < end && is_space(cs[i]) {
        lemma_skip_space(cs, i + 1, end);
    }
}

pub proof fn lemma_name_end(cs: Seq<char>, i: int, end: int)
    requires
        i <= end,
    ensures
        i <= name_end(cs, i, end) <= end,
    decreases end - i,
{
    if i < end && !ends_name(cs[i]) {
        lemma_name_end(cs, i + 1, end);
    }
}

/// A tag as the model sees it.
pub enum TokenView {
    /// `<name a="v" ...>`, or `<name ... />` when `empty`.
    Open { name: Seq<char>, attrs: Seq<(Seq<char>, Seq<char>)>, empty: bool },
    /// `</name>`.
    Close { name: Seq<char> },
}

/// The attributes `name="value"` (or with single quotes) in `i..end`, or
/// `None` when that text is not a list of attributes.
pub open spec fn attrs_from(cs: Seq<char>, i: int, end: int) -> Option<Seq<(Seq<char>, Seq<char>)>>
    decreases end - i,
{
    if i >= end {
        Some(seq![])
    } else {
        let j = skip_space(cs, i, end);
        if j >= end {
            Some(seq![])
        } else {
            let ne = name_end(cs, j, end);
            if ne <= j || ne >= end - 1 || cs[ne] != '=' || (cs[ne + 1] != '"' && cs[ne + 1]
                != '\'') {
                None
            } else {
                let close = find_char(cs, ne + 2, end, cs[ne + 1]);
                if close >= end {
                    None
                } else {
                    proof {
                        lemma_skip_space(cs, i, end);
                        lemma_find_char(cs, ne + 2, end, cs[ne + 1]);
                    }
                    match attrs_from(cs, close + 1, end) {
                        None => None,
                        Some(rest) => Some(
                            seq![(cs.subrange(j, ne), cs.subrange(ne + 2, close))] + rest,
                        ),
                    }
                }
            }
        }
    }
}

/// The markup that opens at `lt` (a `<`): the tag it is, or `None` for a
/// declaration or comment, and the position after its `>`; `None` when it
/// is not a well-formed tag.
pub open spec fn tag_at(cs: Seq<char>, lt: int) -> Option<(Option<TokenView>, int)> {
    let k = find_char(cs, lt + 1, cs.len() as int, '>');
    if k >= cs.len() || k <= lt + 1 {
        None
    } else if cs[lt + 1] == '?' || cs[lt + 1] == '!' {
        Some((None, k + 1))
    } else if cs[lt + 1] == '/' {
        let ne = name_end(cs, lt + 2, k);
        if ne <= lt + 2 || skip_space(cs, ne, k) != k {
            None
        } else {
            Some((Some(TokenView::Close { name: cs.subrange(lt + 2, ne) }), k + 1))
        }
    } else {
        let empty = cs[k - 1] == '/';
        let body_end = if empty {
            k - 1
        } else {
            k
        };
        let ne = name_end(cs, lt + 1, body_end);
        if ne <= lt + 1 {
            None
        } else {
            match attrs_from(cs, ne, body_end) {
                None => None,
                Some(attrs) => Some(
                    (Some(TokenView::Open { name: cs.subrange(lt + 1, ne), attrs, empty }), k + 1),
                ),
            }
        }
    }
}

/// The tags of `cs` from `i` on, in order; text between tags is ignored.
/// `None` when some markup is not a well-formed tag.
pub open spec fn tokens_from(cs: Seq<char>, i: int) -> Option<Seq<TokenView>>
    decreases cs.len() - i,
{
    if i >= cs.len() {
        Some(seq![])
    } else {
        let lt = find_char(cs, i, cs.len() as int, '<');
        if lt >= cs.len() {
            Some(seq![])
        } else {
            match tag_at(cs, lt) {
                None => None,
                Some((token, next)) => {
                    proof {
                        lemma_find_char(cs, i, cs.len() as int, '<');
                        lemma_find_char(cs, lt + 1, cs.len() as int, '>');
                    }
                    match tokens_from(cs, next) {
                        None => None,
                        Some(rest) => Some(
                            match token {
                                Some(t) => seq![t] + rest,
                                None => rest,
                            },
                        ),
                    }
                },
            }
        }
    }
}

/// `Some(prefix + rest)` when there is a rest.
pub open spec fn prepend<A>(prefix: Seq<A>, rest: Option<Seq<A>>) -> Option<Seq<A>> {
    match rest {
        Some(r) => Some(prefix + r),
        None => None,
    }
}

/// A tag, with its names and values as strings.
enum Token {
    Open { name: String, attrs: Vec<(String, String)>, empty: bool },
    Close { name: String },
}

spec fn attrs_view(attrs: Seq<(String, String)>) -> Seq<(Seq<char>, Seq<char>)> {
    attrs.map_values(|a: (String, String)| (a.0@, a.1@))
}

impl View for Token {
    type V = TokenView;

    closed spec fn view(&self) -> TokenView {
        match self {
            Token::Open { name, attrs, empty } => TokenView::Open {
                name: name@,
                attrs: attrs_view(attrs@),
                empty: *empty,
            },
            Token::Close { name } => TokenView::Close { name: name@ },
        }
    }
}

spec fn tokens_view(tokens: Seq<Token>) -> Seq<TokenView> {
    tokens.map_values(|t: Token| t@)
}

fn find_char_at(cs: &Vec<char>, i: usize, end: usize, c: char) -> (r: usize)
    requires
        i <= end <= cs@.len(),
    ensures
        r == find_char(cs@, i as int, end as int, c),
        i <= r <= end,
{
    let mut k = i;
    while k < end
        invariant
            i <= k <= end <= cs@.len(),
            find_char(cs@, i as int, end as int, c) == find_char(cs@, k as int, end as int, c),
        decreases end - k,
    {
        if cs[k] == c {
            return k;
        }
        k = k + 1;
    }
    k
}

fn skip_space_at(cs: &Vec<char>, i: usize, end: usize) -> (r: usize)
    requires
        i <= end <= cs@.len(),
    ensures
        r == skip_space(cs@, i as int, end as int),
        i <= r <= end,
{
    let mut k = i;
    while k < end
        invariant
            i <= k <= end <= cs@.len(),
            skip_space(cs@, i as int, end as int) == skip_space(cs@, k as int, end as int),
        decreases end - k,
    {
        let c = cs[k];
        if !(c == ' ' || c == '\t' || c == '\n' || c == '\r') {
            return k;
        }
        k = k + 1;
    }
    k
}

fn name_end_at(cs: &Vec<char>, i: usize, end: usize) -> (r: usize)
    requires
        i <= end <= cs@.len(),
    ensures
        r == name_end(cs@, i as int, end as int),
        i <= r <= end,
{
    let mut k = i;
    while k < end
        invariant
            i <= k <= end <= cs@.len(),
            name_end(cs@, i as int, end as int) == name_end(cs@, k as int, end as int),
        decreases end - k,
    {
        let c = cs[k];
        if c == ' ' || c == '\t' || c == '\n' || c == '\r' || c == '=' || c == '/' || c == '>' {
            return k;
        }
        k = k + 1;
    }
    k
}

/// The characters `cs[from..to]` as a string.
fn string_of(cs: &Vec<char>, from: usize, to: usize) -> (s: String)
    requires
        from <= to <= cs@.len(),
    ensures
        s@ == cs@.subrange(from as int, to as int),
{
    let mut s = String::new();
    let mut k = from;
    while k < to
        invariant
            from <= k <= to <= cs@.len(),
            s@ == cs@.subrange(from as int, k as int),
        decreases to - k,
    {
        string_push(&mut s, cs[k]);
        k = k + 1;
        assert(s@ =~= cs@.subrange(from as int, k as int));
    }
    s
}

fn attrs_at(cs: &Vec<char>, i: usize, end: usize) -> (r: Option<Vec<(String, String)>>)
    requires
        i <= end <= cs@.len(),
    ensures
        match attrs_from(cs@, i as int, end as int) {
            Some(attrs) => r matches Some(v) && attrs_view(v@) == attrs,
            None => r is None,
        },
{
    let mut attrs: Vec<(String, String)> = Vec::new();
    let mut k = i;
    assert(attrs_view(attrs@) =~= seq![]);
    while k < end
        invariant
            i <= k <= end <= cs@.len(),
            attrs_from(cs@, i as int, end as int) == prepend(
                attrs_view(attrs@),
                attrs_from(cs@, k as int, end as int),
            ),
        decreases end - k,
    {
        let j = skip_space_at(cs, k, end);
        if j >= end {
            assert(attrs_view(attrs@) + seq![] =~= attrs_view(attrs@));
            return Some(attrs);
        }
        let ne = name_end_at(cs, j, end);
        if ne <= j || ne >= end - 1 || cs[ne] != '=' || (cs[ne + 1] != '"' && cs[ne + 1] != '\'') {
            return None;
        }
        let quote = cs[ne + 1];
        let close = find_char_at(cs, ne + 2, end, quote);
        if close >= end {
            return None;
        }
        let name = string_of(cs, j, ne);
        let value = string_of(cs, ne + 2, close);
        let ghost before = attrs_view(attrs@);
        attrs.push((name, value));
        proof {
            assert(attrs_view(attrs@) =~= before + seq![
                (cs@.subrange(j as int, ne as int), cs@.subrange(ne + 2, close as int)),
            ]);
            match attrs_from(cs@, close + 1, end as int) {
                Some(rest) => {
                    assert(before + (seq![
                        (cs@.subrange(j as int, ne as int), cs@.subrange(ne + 2, close as int)),
                    ] + rest) =~= attrs_view(attrs@) + rest);
                },
                None => {},
            }
        }
        k = close + 1;
    }
    assert(attrs_view(attrs@) + seq![] =~= attrs_view(attrs@));
    Some(attrs)
}

fn tag_at_exec(cs: &Vec<char>, lt: usize) -> (r: Option<(Option<Token>, usize)>)
    requires
        lt < cs@.len(),
    ensures
        match tag_at(cs@, lt as int) {
            Some((token, next)) => r matches Some((t, n)) && n == next && lt < n <= cs@.len()
                && match token {
                Some(tv) => t matches Some(tok) && tok@ == tv,
                None => t is None,
            },
            None => r is None,
        },
{
    let len = cs.len();
    let k = find_char_at(cs, lt + 1, len, '>');
    if k >= len || k <= lt + 1 {
        return None;
    }
    let first = cs[lt + 1];
    if first == '?' || first == '!' {
        return Some((None, k + 1));
    }
    if first == '/' {
        let ne = name_end_at(cs, lt + 2, k);
        if ne <= lt + 2 || skip_space_at(cs, ne, k) != k {
            return None;
        }
        let name = string_of(cs, lt + 2, ne);
        let token = Token::Close { name };
        proof {
            reveal(<Token as View>::view);
        }
        return Some((Some(token), k + 1));
    }
    let empty = cs[k - 1] == '/';
    let body_end = if empty {
        k - 1
    } else {
        k
    };
    let ne = name_end_at(cs, lt + 1, body_end);
    if ne <= lt + 1 {
        return None;
    }
    match attrs_at(cs, ne, body_end) {
        None => None,
        Some(attrs) => {
            let name = string_of(cs, lt + 1, ne);
            let token = Token::Open { name, attrs, empty };
            Some((Some(token), k + 1))
        },
    }
}

/// The tags of `cs`.
fn lex(cs: &Vec<char>) -> (r: Option<Vec<Token>>)
    ensures
        match tokens_from(cs@, 0) {
            Some(ts) => r matches Some(v) && tokens_view(v@) == ts,
            None => r is None,
        },
{
    let mut tokens: Vec<Token> = Vec::new();
    let mut i: usize = 0;
    let len = cs.len();
    assert(tokens_view(tokens@) =~= seq![]);
    assert(seq![] + tokens_from(cs@, 0)->0 =~= tokens_from(cs@, 0)->0);
    while i < len
        invariant
            i <= len == cs@.len(),
            tokens_from(cs@, 0) == prepend(tokens_view(tokens@), tokens_from(cs@, i as int)),
        decreases len - i,
    {
        let lt = find_char_at(cs, i, len, '<');
        if lt >= len {
            assert(tokens_view(tokens@) + seq![] =~= tokens_view(tokens@));
            return Some(tokens);
        }
        match tag_at_exec(cs, lt) {
            None => return None,
            Some((token, next)) => {
                let ghost before = tokens_view(tokens@);
                match token {
                    Some(t) => {
                        let ghost tv = t@;
                        tokens.push(t);
                        proof {
                            assert(tokens_view(tokens@) =~= before + seq![tv]);
                            match tokens_from(cs@, next as int) {
                                Some(rest) => {
                                    assert(before + (seq![tv] + rest) =~= tokens_view(tokens@)
                                        + rest);
                                },
                                None => {},
                            }
                        }
                    },
                    None => {},
                }
                i = next;
            },
        }
    }
    assert(tokens_view(tokens@) + seq![] =~= tokens_view(tokens@));
    Some(tokens)
}

// ---------------------------------------------------------------------------
// Attributes
// ---------------------------------------------------------------------------

/// The value of the first attribute at or after `i` named `key`.
pub open spec fn attr_from(attrs: Seq<(Seq<char>, Seq<char>)>, key: Seq<char>, i: int) -> Option<Seq<char>>
    decreases attrs.len() - i,
{
    if i < 0 || i >= attrs.len() {
        None
    } else if attrs[i].0 == key {
        Some(attrs[i].1)
    } else {
        attr_from(attrs, key, i + 1)
    }
}

/// The value of the attribute named `key`, the first when there are several.
pub open spec fn attr(attrs: Seq<(Seq<char>, Seq<char>)>, key: Seq<char>) -> Option<Seq<char>> {
    attr_from(attrs, key, 0)
}

/// `c` is an ASCII digit.
pub open spec fn is_digit_char(c: char) -> bool {
    0x30 <= (c as u32) <= 0x39
}

/// The decimal value of a run of ASCII digits.
pub open spec fn digits_value(s: Seq<char>) -> nat
    decreases s.len(),
{
    if s.len() == 0 {
        0
    } else {
        digits_value(s.drop_last()) * 10 + ((s.last() as u32) - 0x30) as nat
    }
}

/// `s` read as a decimal number of at most `max`: one or more ASCII digits.
pub open spec fn number(s: Seq<char>, max: nat) -> Option<nat> {
    if s.len() > 0 && (forall|k: int| 0 <= k < s.len() ==> is_digit_char(#[trigger] s[k]))
        && digits_value(s) <= max {
        Some(digits_value(s))
    } else {
        None
    }
}

/// The version a `<fix>` element declares: its `type` (`FIX` or `FIXT`),
/// `major` and `minor`, and `servicepack`, which defaults to 0.
pub open spec fn version_of(attrs: Seq<(Seq<char>, Seq<char>)>) -> Option<Version> {
    let protocol = match attr(attrs, "type"@) {
        Some(t) => if t == "FIX"@ {
            Some(Protocol::Fix)
        } else if t == "FIXT"@ {
            Some(Protocol::Fixt)
        } else {
            None
        },
        None => None,
    };
    let major = match attr(attrs, "major"@) {
        Some(v) => number(v, 255),
        None => None,
    };
    let minor = match attr(attrs, "minor"@) {
        Some(v) => number(v, 255),
        None => None,
    };
    let service_pack = match attr(attrs, "servicepack"@) {
        Some(v) => number(v, 255),
        None => Some(0),
    };
    if protocol is Some && major is Some && minor is Some && service_pack is Some {
        Some(
            Version {
                protocol: protocol->0,
                major: major->0 as u8,
                minor: minor->0 as u8,
                service_pack: service_pack->0 as u8,
            },
        )
    } else {
        None
    }
}

/// The category a `msgcat` names.
pub open spec fn category_of(msgcat: Seq<char>) -> Option<Category> {
    if msgcat == "admin"@ {
        Some(Category::Admin)
    } else if msgcat == "app"@ {
        Some(Category::App)
    } else {
        None
    }
}

/// The data type a field's `type` names.
pub open spec fn data_type_of(name: Seq<char>) -> DataTypeView {
    if name == "STRING"@ {
        DataTypeView::String
    } else if name == "INT"@ {
        DataTypeView::Int
    } else {
        DataTypeView::Other(name)
    }
}

/// A reference is required when its `required` attribute is `Y`.
pub open spec fn required_of(attrs: Seq<(Seq<char>, Seq<char>)>) -> bool {
    attr(attrs, "required"@) == Some("Y"@)
}

// ---------------------------------------------------------------------------
// Reading the tags
// ---------------------------------------------------------------------------

/// Where in the document the reader is.
pub enum ContextView {
    /// Before the `<fix>` root.
    Start,
    /// Inside `<fix>`, between sections.
    Fix,
    /// Inside an unmodelled section, `depth` elements deep.
    Section { depth: nat },
    /// Inside `<messages>`.
    Messages,
    /// Inside a `<message>`.
    Message,
    /// Inside a component or group of a message, `depth` elements deep.
    MessageChild { depth: nat },
    /// Inside `<fields>`.
    Fields,
    /// Inside a `<field>` definition.
    Field,
    /// After the `<fix>` root.
    End,
}

/// A message as read, referring to its fields by name.
#[verifier::ext_equal]
pub struct PendingView {
    pub name: Seq<char>,
    pub msg_type: Seq<char>,
    pub category: Category,
    pub refs: Seq<(Seq<char>, bool)>,
}

/// A warning as the model sees it.
pub enum WarningView {
    UnsupportedSection { section: Seq<char> },
    UnsupportedComponent { message: Seq<char>, component: Seq<char> },
    UnsupportedGroup { message: Seq<char>, group: Seq<char> },
}

/// What the reader has gathered so far.
#[verifier::ext_equal]
pub struct StateView {
    pub context: ContextView,
    pub version: Version,
    pub messages: Seq<PendingView>,
    /// The message being read, inside a `<message>`.
    pub message: PendingView,
    pub fields: Seq<FieldView>,
    /// The field being read, inside a `<field>` definition.
    pub field: FieldView,
    pub warnings: Seq<WarningView>,
}

/// The reader before the first tag.
pub open spec fn initial() -> StateView {
    StateView {
        context: ContextView::Start,
        version: Version { protocol: Protocol::Fix, major: 0, minor: 0, service_pack: 0 },
        messages: seq![],
        message: PendingView {
            name: seq![],
            msg_type: seq![],
            category: Category::Admin,
            refs: seq![],
        },
        fields: seq![],
        field: FieldView { name: seq![], tag: 0, data_type: DataTypeView::String, values: seq![] },
        warnings: seq![],
    }
}

/// Reading one tag of an unmodelled element, `depth` elements deep: the
/// depth inside it afterwards, or `None` when the tag closes it.
pub open spec fn skip_depth(depth: nat, t: TokenView) -> Option<nat> {
    match t {
        TokenView::Open { empty, .. } => Some(
            if empty {
                depth
            } else {
                depth + 1
            },
        ),
        TokenView::Close { .. } => if depth == 0 {
            None
        } else {
            Some((depth - 1) as nat)
        },
    }
}

/// Reading tag `t` in state `s`: the next state, or `None` when the tag is
/// out of place or lacks what its element needs.
pub open spec fn step(s: StateView, t: TokenView) -> Option<StateView> {
    match s.context {
        ContextView::Start => match t {
            TokenView::Open { name, attrs, empty } => if name == "fix"@ {
                match version_of(attrs) {
                    Some(version) => Some(
                        StateView {
                            context: if empty {
                                ContextView::End
                            } else {
                                ContextView::Fix
                            },
                            version,
                            ..s
                        },
                    ),
                    None => None,
                }
            } else {
                None
            },
            TokenView::Close { .. } => None,
        },
        ContextView::Fix => match t {
            TokenView::Open { name, empty, .. } => if name == "messages"@ {
                Some(
                    StateView {
                        context: if empty {
                            ContextView::Fix
                        } else {
                            ContextView::Messages
                        },
                        ..s
                    },
                )
            } else if name == "fields"@ {
                Some(
                    StateView {
                        context: if empty {
                            ContextView::Fix
                        } else {
                            ContextView::Fields
                        },
                        ..s
                    },
                )
            } else {
                Some(
                    StateView {
                        context: if empty {
                            ContextView::Fix
                        } else {
                            ContextView::Section { depth: 0 }
                        },
                        warnings: s.warnings.push(WarningView::UnsupportedSection { section: name }),
                        ..s
                    },
                )
            },
            TokenView::Close { name } => if name == "fix"@ {
                Some(StateView { context: ContextView::End, ..s })
            } else {
                None
            },
        },
        ContextView::Section { depth } => Some(
            StateView {
                context: match skip_depth(depth, t) {
                    Some(d) => ContextView::Section { depth: d },
                    None => ContextView::Fix,
                },
                ..s
            },
        ),
        ContextView::Messages => match t {
            TokenView::Open { name, attrs, empty } => if name == "message"@ {
                match (attr(attrs, "name"@), attr(attrs, "msgtype"@), attr(attrs, "msgcat"@)) {
                    (Some(message_name), Some(msg_type), Some(msgcat)) => match category_of(msgcat) {
                        Some(category) => {
                            let message = PendingView {
                                name: message_name,
                                msg_type,
                                category,
                                refs: seq![],
                            };
                            if empty {
                                Some(StateView { messages: s.messages.push(message), ..s })
                            } else {
                                Some(StateView { context: ContextView::Message, message, ..s })
                            }
                        },
                        None => None,
                    },
                    _ => None,
                }
            } else {
                None
            },
            TokenView::Close { name } => if name == "messages"@ {
                Some(StateView { context: ContextView::Fix, ..s })
            } else {
                None
            },
        },
        ContextView::Message => match t {
            TokenView::Open { name, attrs, empty } => match attr(attrs, "name"@) {
                None => None,
                Some(ref_name) => if name == "field"@ && empty {
                    Some(
                        StateView {
                            message: PendingView {
                                refs: s.message.refs.push((ref_name, required_of(attrs))),
                                ..s.message
                            },
                            ..s
                        },
                    )
                } else if name == "component"@ || name == "group"@ {
                    Some(
                        StateView {
                            context: if empty {
                                ContextView::Message
                            } else {
                                ContextView::MessageChild { depth: 0 }
                            },
                            warnings: s.warnings.push(
                                if name == "component"@ {
                                    WarningView::UnsupportedComponent {
                                        message: s.message.name,
                                        component: ref_name,
                                    }
                                } else {
                                    WarningView::UnsupportedGroup {
                                        message: s.message.name,
                                        group: ref_name,
                                    }
                                },
                            ),
                            ..s
                        },
                    )
                } else {
                    None
                },
            },
            TokenView::Close { name } => if name == "message"@ {
                Some(
                    StateView {
                        context: ContextView::Messages,
                        messages: s.messages.push(s.message),
                        message: initial().message,
                        ..s
                    },
                )
            } else {
                None
            },
        },
        ContextView::MessageChild { depth } => Some(
            StateView {
                context: match skip_depth(depth, t) {
                    Some(d) => ContextView::MessageChild { depth: d },
                    None => ContextView::Message,
                },
                ..s
            },
        ),
        ContextView::Fields => match t {
            TokenView::Open { name, attrs, empty } => if name == "field"@ {
                match (attr(attrs, "number"@), attr(attrs, "name"@), attr(attrs, "type"@)) {
                    (Some(n), Some(field_name), Some(declared_type)) => match number(
                        n,
                        u32::MAX as nat,
                    ) {
                        Some(tag) => {
                            let field = FieldView {
                                name: field_name,
                                tag: tag as u32,
                                data_type: data_type_of(declared_type),
                                values: seq![],
                            };
                            if empty {
                                Some(StateView { fields: s.fields.push(field), ..s })
                            } else {
                                Some(StateView { context: ContextView::Field, field, ..s })
                            }
                        },
                        None => None,
                    },
                    _ => None,
                }
            } else {
                None
            },
            TokenView::Close { name } => if name == "fields"@ {
                Some(StateView { context: ContextView::Fix, ..s })
            } else {
                None
            },
        },
        ContextView::Field => match t {
            TokenView::Open { name, attrs, empty } => if name == "value"@ && empty {
                match (attr(attrs, "enum"@), attr(attrs, "description"@)) {
                    (Some(value), Some(description)) => Some(
                        StateView {
                            field: FieldView {
                                values: s.field.values.push(EnumValueView { value, description }),
                                ..s.field
                            },
                            ..s
                        },
                    ),
                    _ => None,
                }
            } else {
                None
            },
            TokenView::Close { name } => if name == "field"@ {
                Some(
                    StateView {
                        context: ContextView::Fields,
                        fields: s.fields.push(s.field),
                        field: initial().field,
                        ..s
                    },
                )
            } else {
                None
            },
        },
        ContextView::End => None,
    }
}

/// Reading the first `n` tags.
pub open spec fn run(tokens: Seq<TokenView>, n: int) -> Option<StateView>
    decreases n,
{
    if n <= 0 {
        Some(initial())
    } else {
        match run(tokens, n - 1) {
            Some(s) => step(s, tokens[n - 1]),
            None => None,
        }
    }
}

/// How many elements a run of tags leaves open: one for each element it
/// opens and does not close, less one for each it closes that it did not
/// open.
pub open spec fn nesting(ts: Seq<TokenView>) -> int
    decreases ts.len(),
{
    if ts.len() == 0 {
        0
    } else {
        nesting(ts.drop_last()) + match ts.last() {
            TokenView::Open { empty, .. } => if empty {
                0int
            } else {
                1int
            },
            TokenView::Close { .. } => -1int,
        }
    }
}

/// No prefix of `ts` closes an element it did not open.
pub open spec fn never_unbalanced(ts: Seq<TokenView>) -> bool {
    forall|k: int| 0 <= k <= ts.len() ==> nesting(#[trigger] ts.take(k)) >= 0
}

/// Reading the tags `ts` one at a time from state `s`.
pub open spec fn steps(s: StateView, ts: Seq<TokenView>) -> Option<StateView>
    decreases ts.len(),
{
    if ts.len() == 0 {
        Some(s)
    } else {
        match steps(s, ts.drop_last()) {
            Some(t) => step(t, ts.last()),
            None => None,
        }
    }
}

proof fn lemma_prefix_never_unbalanced(ts: Seq<TokenView>)
    requires
        ts.len() > 0,
        never_unbalanced(ts),
    ensures
        never_unbalanced(ts.drop_last()),
        nesting(ts.drop_last()) >= 0,
        nesting(ts) >= 0,
{
    let p = ts.drop_last();
    assert forall|k: int| 0 <= k <= p.len() implies nesting(#[trigger] p.take(k)) >= 0 by {
        assert(p.take(k) =~= ts.take(k));
    }
    assert(p.take(p.len() as int) =~= p);
    assert(ts.take(ts.len() as int) =~= ts);
}

/// Skipping an unmodelled section reads any run of tags that never closes
/// more than it opened, of any depth, and leaves the reader exactly as many
/// elements deeper as the run leaves open, with nothing else changed.
pub proof fn lemma_section_skip_depth(s: StateView, d: nat, ts: Seq<TokenView>)
    requires
        s.context == (ContextView::Section { depth: d }),
        never_unbalanced(ts),
    ensures
        nesting(ts) >= 0,
        steps(s, ts) == Some(StateView { context: ContextView::Section { depth: (d + nesting(ts)) as nat }, ..s }),
    decreases ts.len(),
{
    if ts.len() == 0 {
        assert(ts.take(0) =~= ts);
    } else {
        lemma_prefix_never_unbalanced(ts);
        lemma_section_skip_depth(s, d, ts.drop_last());
    }
}

/// A section is skipped whole: after a balanced run of tags of any depth,
/// the tag that closes the section returns the reader to between sections,
/// with nothing else changed.
pub proof fn lemma_section_skipped_whole(s: StateView, ts: Seq<TokenView>, name: Seq<char>)
    requires
        s.context == (ContextView::Section { depth: 0 }),
        never_unbalanced(ts),
        nesting(ts) == 0,
    ensures
        steps(s, ts.push(TokenView::Close { name })) == Some(StateView { context: ContextView::Fix, ..s }),
{
    lemma_section_skip_depth(s, 0, ts);
    assert(ts.push(TokenView::Close { name }).drop_last() =~= ts);
}

/// Skipping a component or group of a message reads any run of tags that
/// never closes more than it opened, of any depth, and leaves the reader
/// exactly as many elements deeper as the run leaves open.
pub proof fn lemma_message_child_skip_depth(s: StateView, d: nat, ts: Seq<TokenView>)
    requires
        s.context == (ContextView::MessageChild { depth: d }),
        never_unbalanced(ts),
    ensures
        nesting(ts) >= 0,
        steps(s, ts) == Some(StateView { context: ContextView::MessageChild { depth: (d + nesting(ts)) as nat }, ..s }),
    decreases ts.len(),
{
    if ts.len() == 0 {
        assert(ts.take(0) =~= ts);
    } else {
        lemma_prefix_never_unbalanced(ts);
        lemma_message_child_skip_depth(s, d, ts.drop_last());
    }
}

/// A component or group of a message is skipped whole: after a balanced run
/// of tags of any depth, the tag that closes it returns the reader to the
/// message, with nothing else changed.
pub proof fn lemma_message_child_skipped_whole(s: StateView, ts: Seq<TokenView>, name: Seq<char>)
    requires
        s.context == (ContextView::MessageChild { depth: 0 }),
        never_unbalanced(ts),
        nesting(ts) == 0,
    ensures
        steps(s, ts.push(TokenView::Close { name })) == Some(StateView { context: ContextView::Message, ..s }),
{
    lemma_message_child_skip_depth(s, 0, ts);
    assert(ts.push(TokenView::Close { name }).drop_last() =~= ts);
}

// ---------------------------------------------------------------------------
// Resolving field references
// ---------------------------------------------------------------------------

/// The position of the first field at or after `i` named `name`.
pub open spec fn field_named_from(fields: Seq<FieldView>, name: Seq<char>, i: int) -> Option<int>
    decreases fields.len() - i,
{
    if i < 0 || i >= fields.len() {
        None
    } else if fields[i].name == name {
        Some(i)
    } else {
        field_named_from(fields, name, i + 1)
    }
}

/// The first of `refs` at or after `k` that names no field.
pub open spec fn first_unnamed(refs: Seq<(Seq<char>, bool)>, fields: Seq<FieldView>, k: int) -> Option<int>
    decreases refs.len() - k,
{
    if k < 0 || k >= refs.len() {
        None
    } else if field_named_from(fields, refs[k].0, 0) is None {
        Some(k)
    } else {
        first_unnamed(refs, fields, k + 1)
    }
}

/// The first message at or after `i` that refers to a field no definition
/// names.
pub open spec fn first_unresolved(messages: Seq<PendingView>, fields: Seq<FieldView>, i: int) -> Option<int>
    decreases messages.len() - i,
{
    if i < 0 || i >= messages.len() {
        None
    } else if first_unnamed(messages[i].refs, fields, 0) is Some {
        Some(i)
    } else {
        first_unresolved(messages, fields, i + 1)
    }
}

/// A message with its references resolved to the tags of the fields they
/// name (the first definition of a name).
pub open spec fn resolved(message: PendingView, fields: Seq<FieldView>) -> MessageView {
    MessageView {
        name: message.name,
        msg_type: message.msg_type,
        fields: Seq::new(
            message.refs.len(),
            |k: int|
                FieldRef {
                    tag: fields[field_named_from(fields, message.refs[k].0, 0)->0].tag,
                    is_required: message.refs[k].1,
                },
        ),
        category: message.category,
    }
}

/// A parse result as the model sees it.
pub enum ParseView {
    Parsed { dictionary: DictionaryView, warnings: Seq<WarningView> },
    Malformed,
    UnknownField { message: Seq<char>, field: Seq<char> },
}

/// The dictionary the text `xml` describes, or why it describes none.
pub open spec fn spec_parse(xml: Seq<char>) -> ParseView {
    match tokens_from(xml, 0) {
        None => ParseView::Malformed,
        Some(tokens) => match run(tokens, tokens.len() as int) {
            None => ParseView::Malformed,
            Some(s) => if !(s.context is End) {
                ParseView::Malformed
            } else {
                match first_unresolved(s.messages, s.fields, 0) {
                    Some(i) => ParseView::UnknownField {
                        message: s.messages[i].name,
                        field: s.messages[i].refs[first_unnamed(
                            s.messages[i].refs,
                            s.fields,
                            0,
                        )->0].0,
                    },
                    None => ParseView::Parsed {
                        dictionary: DictionaryView {
                            version: s.version,
                            messages: s.messages.map_values(|m: PendingView| resolved(m, s.fields)),
                            fields: s.fields,
                        },
                        warnings: s.warnings,
                    },
                }
            }
        },
    }
}

// ---------------------------------------------------------------------------
// The dictionary
// ---------------------------------------------------------------------------

/// A parsed dictionary, with a warning for anything not yet modelled.
pub struct Parsed {
    pub dictionary: Dictionary,
    pub warnings: Vec<Warning>,
}

/// Something in the source that the dictionary does not model.
#[derive(Clone, Debug, Eq, PartialEq)]
pub enum Warning {
    /// A top-level section of the dictionary that is skipped.
    UnsupportedSection { section: String },
    /// A component reference inside a message, which is skipped.
    UnsupportedComponent { message: String, component: String },
    /// A repeating group inside a message, which is skipped.
    UnsupportedGroup { message: String, group: String },
}

/// Parses a QuickFIX-format dictionary.
///
/// The result is what [`spec_parse`] says of the text: the version, fields
/// and messages it defines, with message field references resolved by
/// name, and a warning for each unmodelled section, component reference
/// and group; or [`Error::Malformed`], or the first reference to a field
/// the fields section does not define.
pub fn parse(xml: &str) -> (parsed: Result<Parsed, Error>)
    ensures
        parse_result_matches(parsed, spec_parse(xml@)),
{
    let cs = chars_of(xml);
    let tokens = match lex(&cs) {
        Some(tokens) => tokens,
        None => return Err(Error::Malformed),
    };
    let ghost ts = tokens_view(tokens@);
    let mut state = State::new();
    let mut i: usize = 0;
    while i < tokens.len()
        invariant
            i <= tokens@.len(),
            ts == tokens_view(tokens@),
            cs@ == xml@,
            tokens_from(cs@, 0) == Some(ts),
            run(ts, i as int) == Some(state@),
            state.context.depth() <= i,
        decreases tokens@.len() - i,
    {
        assert(ts[i as int] == tokens@[i as int]@);
        if !state.read(&tokens[i]) {
            proof {
                lemma_run_fails_on(ts, i + 1, ts.len() as int);
            }
            return Err(Error::Malformed);
        }
        i = i + 1;
    }
    match state.context {
        Context::End => {},
        _ => {
            proof {
                reveal(<Context as View>::view);
            }
            return Err(Error::Malformed);
        },
    }
    let ghost st = state@;
    assert(st.context is End);
    let State { version, messages: pendings, fields, warnings, .. } = state;
    let ghost pv = pendings_view(pendings@);
    let ghost fv = fields_view(fields@);
    let mut messages: Vec<Message> = Vec::new();
    let mut m: usize = 0;
    while m < pendings.len()
        invariant
            m <= pendings@.len(),
            pv == pendings_view(pendings@),
            fv == fields_view(fields@),
            cs@ == xml@,
            tokens_from(cs@, 0) == Some(ts),
            run(ts, ts.len() as int) == Some(st),
            st.context is End,
            pv == st.messages,
            fv == st.fields,
            first_unresolved(pv, fv, 0) == first_unresolved(pv, fv, m as int),
            messages@.len() == m,
            forall|j: int| 0 <= j < m ==> (#[trigger] messages@[j])@ == resolved(pv[j], fv),
        decreases pendings@.len() - m,
    {
        assert(pv[m as int] == pendings@[m as int]@);
        match resolve(&pendings[m], &fields) {
            Ok(message) => {
                let ghost before = messages@;
                messages.push(message);
                assert forall|j: int| 0 <= j < m + 1 implies (#[trigger] messages@[j])@ == resolved(
                    pv[j],
                    fv,
                ) by {
                    if j < m {
                        assert(messages@[j] == before[j]);
                    }
                }
            },
            Err(error) => return Err(error),
        }
        m = m + 1;
    }
    let dictionary = Dictionary { version, messages, fields };
    assert(dictionary@.messages =~= pv.map_values(|p: PendingView| resolved(p, fv)));
    Ok(Parsed { dictionary, warnings })
}

/// A dictionary that cannot be parsed.
#[derive(Clone, Debug, Eq, PartialEq)]
pub enum Error {
    /// The XML is not a QuickFIX dictionary: markup that is not a tag, an
    /// element out of place, or an attribute missing or out of range.
    Malformed,
    /// A message refers to a field that the fields section does not define.
    UnknownField { message: String, field: String },
}


impl View for Warning {
    type V = WarningView;

    open spec fn view(&self) -> WarningView {
        match self {
            Warning::UnsupportedSection { section } => WarningView::UnsupportedSection {
                section: section@,
            },
            Warning::UnsupportedComponent { message, component } =>
                WarningView::UnsupportedComponent { message: message@, component: component@ },
            Warning::UnsupportedGroup { message, group } => WarningView::UnsupportedGroup {
                message: message@,
                group: group@,
            },
        }
    }
}

/// The warnings as the model sees them.
pub open spec fn warnings_view(warnings: Seq<Warning>) -> Seq<WarningView> {
    warnings.map_values(|w: Warning| w@)
}

/// Where in the document the reader is.
#[derive(Clone, Copy)]
enum Context {
    Start,
    Fix,
    Section(usize),
    Messages,
    Message,
    MessageChild(usize),
    Fields,
    Field,
    End,
}

impl View for Context {
    type V = ContextView;

    closed spec fn view(&self) -> ContextView {
        match *self {
            Context::Start => ContextView::Start,
            Context::Fix => ContextView::Fix,
            Context::Section(d) => ContextView::Section { depth: d as nat },
            Context::Messages => ContextView::Messages,
            Context::Message => ContextView::Message,
            Context::MessageChild(d) => ContextView::MessageChild { depth: d as nat },
            Context::Fields => ContextView::Fields,
            Context::Field => ContextView::Field,
            Context::End => ContextView::End,
        }
    }
}

impl Context {
    spec fn depth(&self) -> nat {
        match *self {
            Context::Section(d) => d as nat,
            Context::MessageChild(d) => d as nat,
            _ => 0,
        }
    }
}

/// A message as read, referring to its fields by name.
struct Pending {
    name: String,
    msg_type: String,
    category: Category,
    refs: Vec<(String, bool)>,
}

spec fn refs_view(refs: Seq<(String, bool)>) -> Seq<(Seq<char>, bool)> {
    refs.map_values(|r: (String, bool)| (r.0@, r.1))
}

impl View for Pending {
    type V = PendingView;

    closed spec fn view(&self) -> PendingView {
        PendingView {
            name: self.name@,
            msg_type: self.msg_type@,
            category: self.category,
            refs: refs_view(self.refs@),
        }
    }
}

spec fn pendings_view(messages: Seq<Pending>) -> Seq<PendingView> {
    messages.map_values(|m: Pending| m@)
}

spec fn fields_view(fields: Seq<Field>) -> Seq<FieldView> {
    fields.map_values(|f: Field| f@)
}

/// What the reader has gathered so far.
struct State {
    context: Context,
    version: Version,
    messages: Vec<Pending>,
    message: Pending,
    fields: Vec<Field>,
    field: Field,
    warnings: Vec<Warning>,
}

impl View for State {
    type V = StateView;

    closed spec fn view(&self) -> StateView {
        StateView {
            context: self.context@,
            version: self.version,
            messages: pendings_view(self.messages@),
            message: self.message@,
            fields: fields_view(self.fields@),
            field: self.field@,
            warnings: warnings_view(self.warnings@),
        }
    }
}

fn empty_pending() -> (p: Pending)
    ensures
        p@ == initial().message,
{
    let p = Pending {
        name: String::new(),
        msg_type: String::new(),
        category: Category::Admin,
        refs: Vec::new(),
    };
    assert(p@ =~= initial().message);
    p
}

fn empty_field() -> (f: Field)
    ensures
        f@ == initial().field,
{
    let f = Field { name: String::new(), tag: 0, data_type: DataType::String, values: Vec::new() };
    assert(f@ =~= initial().field);
    f
}

/// Whether `s` is the text `lit`.
fn is_named(s: &String, lit: &str) -> (r: bool)
    ensures
        r == (s@ == lit@),
{
    *s == String::from_str(lit)
}

/// The value of the attribute named `key`.
fn attr_value(attrs: &Vec<(String, String)>, key: &str) -> (r: Option<String>)
    ensures
        match attr(attrs_view(attrs@), key@) {
            Some(v) => r matches Some(x) && x@ == v,
            None => r is None,
        },
{
    let ghost view = attrs_view(attrs@);
    let mut k: usize = 0;
    while k < attrs.len()
        invariant
            k <= attrs@.len(),
            view == attrs_view(attrs@),
            attr_from(view, key@, 0) == attr_from(view, key@, k as int),
        decreases attrs@.len() - k,
    {
        assert(view[k as int] == (attrs@[k as int].0@, attrs@[k as int].1@));
        if is_named(&attrs[k].0, key) {
            return Some(attrs[k].1.clone());
        }
        k = k + 1;
    }
    None
}

/// The decimal value of the digits `s`, when it is at most `max`.
fn number_of(s: &String, max: u32) -> (r: Option<u32>)
    ensures
        match number(s@, max as nat) {
            Some(n) => r == Some(n as u32),
            None => r is None,
        },
{
    let cs = chars_of(s.as_str());
    let len = cs.len();
    if len == 0 {
        return None;
    }
    let mut k: usize = 0;
    while k < len
        invariant
            k <= len == cs@.len(),
            cs@ == s@,
            forall|j: int| 0 <= j < k ==> is_digit_char(#[trigger] cs@[j]),
        decreases len - k,
    {
        let code = cs[k] as u32;
        if !(0x30 <= code && code <= 0x39) {
            assert(!is_digit_char(cs@[k as int]));
            return None;
        }
        k = k + 1;
    }
    let mut value: u64 = 0;
    k = 0;
    assert(cs@.take(0) =~= Seq::<char>::empty());
    while k < len
        invariant
            k <= len == cs@.len(),
            cs@ == s@,
            forall|j: int| 0 <= j < len ==> is_digit_char(#[trigger] cs@[j]),
            value == digits_value(cs@.take(k as int)),
            value <= max,
        decreases len - k,
    {
        assert(cs@.take(k + 1).drop_last() =~= cs@.take(k as int));
        let digit = (cs[k] as u32 - 0x30) as u64;
        value = value * 10 + digit;
        k = k + 1;
        if value > max as u64 {
            proof {
                lemma_digits_prefix_le(cs@, k as int);
                assert(cs@.take(len as int) =~= cs@);
            }
            return None;
        }
    }
    assert(cs@.take(len as int) =~= cs@);
    Some(value as u32)
}

/// A prefix of a digit run is worth no more than the run.
proof fn lemma_digits_prefix_le(s: Seq<char>, k: int)
    requires
        0 <= k <= s.len(),
    ensures
        digits_value(s.take(k)) <= digits_value(s),
    decreases s.len() - k,
{
    if k < s.len() {
        lemma_digits_prefix_le(s, k + 1);
        assert(s.take(k + 1).drop_last() =~= s.take(k));
    } else {
        assert(s.take(k) =~= s);
    }
}

fn version_from(attrs: &Vec<(String, String)>) -> (r: Option<Version>)
    ensures
        r == version_of(attrs_view(attrs@)),
{
    let protocol = match attr_value(attrs, "type") {
        Some(t) => if is_named(&t, "FIX") {
            Some(Protocol::Fix)
        } else if is_named(&t, "FIXT") {
            Some(Protocol::Fixt)
        } else {
            None
        },
        None => None,
    };
    let major = match attr_value(attrs, "major") {
        Some(v) => number_of(&v, 255),
        None => None,
    };
    let minor = match attr_value(attrs, "minor") {
        Some(v) => number_of(&v, 255),
        None => None,
    };
    let service_pack = match attr_value(attrs, "servicepack") {
        Some(v) => number_of(&v, 255),
        None => Some(0),
    };
    match (protocol, major, minor, service_pack) {
        (Some(protocol), Some(major), Some(minor), Some(service_pack)) => Some(
            Version {
                protocol,
                major: major as u8,
                minor: minor as u8,
                service_pack: service_pack as u8,
            },
        ),
        _ => None,
    }
}

fn category_from(msgcat: &String) -> (r: Option<Category>)
    ensures
        r == category_of(msgcat@),
{
    if is_named(msgcat, "admin") {
        Some(Category::Admin)
    } else if is_named(msgcat, "app") {
        Some(Category::App)
    } else {
        None
    }
}

fn data_type_from(name: &String) -> (r: DataType)
    ensures
        r@ == data_type_of(name@),
{
    if is_named(name, "STRING") {
        DataType::String
    } else if is_named(name, "INT") {
        DataType::Int
    } else {
        DataType::Other(name.clone())
    }
}

fn required_from(attrs: &Vec<(String, String)>) -> (r: bool)
    ensures
        r == required_of(attrs_view(attrs@)),
{
    match attr_value(attrs, "required") {
        Some(v) => {
            let yes = is_named(&v, "Y");
            proof {
                if !yes {
                    assert(Some(v@) != Some("Y"@));
                }
            }
            yes
        },
        None => false,
    }
}

impl State {
    fn new() -> (s: State)
        ensures
            s@ == initial(),
            s.context.depth() == 0,
    {
        let s = State {
            context: Context::Start,
            version: Version { protocol: Protocol::Fix, major: 0, minor: 0, service_pack: 0 },
            messages: Vec::new(),
            message: empty_pending(),
            fields: Vec::new(),
            field: empty_field(),
            warnings: Vec::new(),
        };
        assert(s@ =~= initial());
        s
    }

    /// Reads one tag: `false` when it is out of place.
    fn read(&mut self, t: &Token) -> (ok: bool)
        requires
            old(self).context.depth() < usize::MAX,
        ensures
            ok == (step(old(self)@, t@) is Some),
            ok ==> final(self)@ == step(old(self)@, t@)->0,
            ok ==> final(self).context.depth() <= old(self).context.depth() + 1,
    {
        let ghost s = self@;
        let context = self.context;
        match context {
            Context::Start => match t {
                Token::Open { name, attrs, empty } => {
                    if !is_named(name, "fix") {
                        return false;
                    }
                    match version_from(attrs) {
                        Some(version) => {
                            self.version = version;
                            self.context = if *empty {
                                Context::End
                            } else {
                                Context::Fix
                            };
                            assert(self@ =~= step(s, t@)->0);
                            true
                        },
                        None => false,
                    }
                },
                Token::Close { .. } => false,
            },
            Context::Fix => match t {
                Token::Open { name, empty, .. } => {
                    if is_named(name, "messages") {
                        self.context = if *empty {
                            Context::Fix
                        } else {
                            Context::Messages
                        };
                    } else if is_named(name, "fields") {
                        self.context = if *empty {
                            Context::Fix
                        } else {
                            Context::Fields
                        };
                    } else {
                        let warning = Warning::UnsupportedSection { section: name.clone() };
                        self.warnings.push(warning);
                        self.context = if *empty {
                            Context::Fix
                        } else {
                            Context::Section(0)
                        };
                        assert(self@.warnings =~= s.warnings.push(
                            WarningView::UnsupportedSection { section: name@ },
                        ));
                    }
                    assert(self@ =~= step(s, t@)->0);
                    true
                },
                Token::Close { name } => {
                    if is_named(name, "fix") {
                        self.context = Context::End;
                        assert(self@ =~= step(s, t@)->0);
                        true
                    } else {
                        false
                    }
                },
            },
            Context::Section(depth) => {
                match t {
                    Token::Open { empty, .. } => {
                        if !*empty {
                            self.context = Context::Section(depth + 1);
                        }
                    },
                    Token::Close { .. } => {
                        self.context = if depth == 0 {
                            Context::Fix
                        } else {
                            Context::Section(depth - 1)
                        };
                    },
                }
                assert(self@ =~= step(s, t@)->0);
                true
            },
            Context::MessageChild(depth) => {
                match t {
                    Token::Open { empty, .. } => {
                        if !*empty {
                            self.context = Context::MessageChild(depth + 1);
                        }
                    },
                    Token::Close { .. } => {
                        self.context = if depth == 0 {
                            Context::Message
                        } else {
                            Context::MessageChild(depth - 1)
                        };
                    },
                }
                assert(self@ =~= step(s, t@)->0);
                true
            },
            Context::Messages => match t {
                Token::Open { name, attrs, empty } => {
                    if !is_named(name, "message") {
                        return false;
                    }
                    let message_name = match attr_value(attrs, "name") {
                        Some(v) => v,
                        None => return false,
                    };
                    let msg_type = match attr_value(attrs, "msgtype") {
                        Some(v) => v,
                        None => return false,
                    };
                    let msgcat = match attr_value(attrs, "msgcat") {
                        Some(v) => v,
                        None => return false,
                    };
                    let category = match category_from(&msgcat) {
                        Some(c) => c,
                        None => return false,
                    };
                    let message = Pending { name: message_name, msg_type, category, refs: Vec::new() };
                    let ghost mv = message@;
                    assert(mv.refs =~= seq![]);
                    if *empty {
                        self.messages.push(message);
                        assert(self@.messages =~= s.messages.push(mv));
                    } else {
                        self.message = message;
                        self.context = Context::Message;
                    }
                    assert(self@ =~= step(s, t@)->0);
                    true
                },
                Token::Close { name } => {
                    if is_named(name, "messages") {
                        self.context = Context::Fix;
                        assert(self@ =~= step(s, t@)->0);
                        true
                    } else {
                        false
                    }
                },
            },
            Context::Message => match t {
                Token::Open { name, attrs, empty } => {
                    let ref_name = match attr_value(attrs, "name") {
                        Some(v) => v,
                        None => return false,
                    };
                    if is_named(name, "field") && *empty {
                        let required = required_from(attrs);
                        let ghost before = self.message.refs@;
                        self.message.refs.push((ref_name, required));
                        assert(refs_view(self.message.refs@) =~= refs_view(before).push(
                            (ref_name@, required),
                        ));
                        assert(self@ =~= step(s, t@)->0);
                        true
                    } else {
                        let is_component = is_named(name, "component");
                        if !is_component && !is_named(name, "group") {
                            return false;
                        }
                        let warning = if is_component {
                            Warning::UnsupportedComponent {
                                message: self.message.name.clone(),
                                component: ref_name,
                            }
                        } else {
                            Warning::UnsupportedGroup {
                                message: self.message.name.clone(),
                                group: ref_name,
                            }
                        };
                        let ghost wv = warning@;
                        self.warnings.push(warning);
                        self.context = if *empty {
                            Context::Message
                        } else {
                            Context::MessageChild(0)
                        };
                        assert(self@.warnings =~= s.warnings.push(wv));
                        assert(self@ =~= step(s, t@)->0);
                        true
                    }
                },
                Token::Close { name } => {
                    if !is_named(name, "message") {
                        return false;
                    }
                    let mut message = empty_pending();
                    std::mem::swap(&mut message, &mut self.message);
                    let ghost mv = message@;
                    self.messages.push(message);
                    self.context = Context::Messages;
                    assert(self@.messages =~= s.messages.push(mv));
                    assert(self@ =~= step(s, t@)->0);
                    true
                },
            },
            Context::Fields => match t {
                Token::Open { name, attrs, empty } => {
                    if !is_named(name, "field") {
                        return false;
                    }
                    let n = match attr_value(attrs, "number") {
                        Some(v) => v,
                        None => return false,
                    };
                    let field_name = match attr_value(attrs, "name") {
                        Some(v) => v,
                        None => return false,
                    };
                    let declared = match attr_value(attrs, "type") {
                        Some(v) => v,
                        None => return false,
                    };
                    let tag = match number_of(&n, u32::MAX) {
                        Some(tag) => tag,
                        None => return false,
                    };
                    let field = Field {
                        name: field_name,
                        tag,
                        data_type: data_type_from(&declared),
                        values: Vec::new(),
                    };
                    let ghost fv = field@;
                    assert(fv.values =~= seq![]);
                    if *empty {
                        self.fields.push(field);
                        assert(self@.fields =~= s.fields.push(fv));
                    } else {
                        self.field = field;
                        self.context = Context::Field;
                    }
                    assert(self@ =~= step(s, t@)->0);
                    true
                },
                Token::Close { name } => {
                    if is_named(name, "fields") {
                        self.context = Context::Fix;
                        assert(self@ =~= step(s, t@)->0);
                        true
                    } else {
                        false
                    }
                },
            },
            Context::Field => match t {
                Token::Open { name, attrs, empty } => {
                    if !(is_named(name, "value") && *empty) {
                        return false;
                    }
                    let value = match attr_value(attrs, "enum") {
                        Some(v) => v,
                        None => return false,
                    };
                    let description = match attr_value(attrs, "description") {
                        Some(v) => v,
                        None => return false,
                    };
                    let entry = EnumValue { value, description };
                    let ghost ev = entry@;
                    let ghost before = self.field.values@;
                    self.field.values.push(entry);
                    assert(self.field.values@.map_values(|v: EnumValue| v@) =~= before.map_values(
                        |v: EnumValue| v@,
                    ).push(ev));
                    assert(self@ =~= step(s, t@)->0);
                    true
                },
                Token::Close { name } => {
                    if !is_named(name, "field") {
                        return false;
                    }
                    let mut field = empty_field();
                    std::mem::swap(&mut field, &mut self.field);
                    let ghost fv = field@;
                    self.fields.push(field);
                    self.context = Context::Fields;
                    assert(self@.fields =~= s.fields.push(fv));
                    assert(self@ =~= step(s, t@)->0);
                    true
                },
            },
            Context::End => false,
        }
    }
}

/// Once reading has failed, it stays failed.
proof fn lemma_run_fails_on(tokens: Seq<TokenView>, k: int, n: int)
    requires
        0 <= k <= n,
        run(tokens, k) is None,
    ensures
        run(tokens, n) is None,
    decreases n - k,
{
    if k < n {
        lemma_run_fails_on(tokens, k + 1, n);
    }
}

/// The position of the first field named `name`.
fn field_named(fields: &Vec<Field>, name: &String) -> (r: Option<usize>)
    ensures
        match r {
            Some(i) => field_named_from(fields_view(fields@), name@, 0) == Some(i as int) && i
                < fields@.len(),
            None => field_named_from(fields_view(fields@), name@, 0) is None,
        },
{
    let ghost view = fields_view(fields@);
    let mut k: usize = 0;
    while k < fields.len()
        invariant
            k <= fields@.len(),
            view == fields_view(fields@),
            field_named_from(view, name@, 0) == field_named_from(view, name@, k as int),
        decreases fields@.len() - k,
    {
        assert(view[k as int] == fields@[k as int]@);
        if fields[k].name == *name {
            return Some(k);
        }
        k = k + 1;
    }
    None
}

/// Resolves a message's references to the tags of the fields they name, or
/// reports the first that names no field.
fn resolve(message: &Pending, fields: &Vec<Field>) -> (r: Result<Message, Error>)
    ensures
        match first_unnamed(message@.refs, fields_view(fields@), 0) {
            Some(k) => r matches Err(Error::UnknownField { message: m, field: f }) && m@
                == message@.name && f@ == message@.refs[k].0,
            None => r matches Ok(resolved_message) && resolved_message@ == resolved(
                message@,
                fields_view(fields@),
            ),
        },
{
    let ghost refs = message@.refs;
    let ghost view = fields_view(fields@);
    let mut tags: Vec<FieldRef> = Vec::new();
    let mut k: usize = 0;
    while k < message.refs.len()
        invariant
            k <= message.refs@.len() == refs.len(),
            refs == message@.refs,
            view == fields_view(fields@),
            first_unnamed(refs, view, 0) == first_unnamed(refs, view, k as int),
            tags@.len() == k,
            forall|j: int|
                0 <= j < k ==> #[trigger] tags@[j] == resolved(message@, view).fields[j],
        decreases message.refs@.len() - k,
    {
        assert(refs[k as int] == (message.refs@[k as int].0@, message.refs@[k as int].1));
        match field_named(fields, &message.refs[k].0) {
            Some(i) => {
                let ghost before = tags@;
                tags.push(FieldRef { tag: fields[i].tag, is_required: message.refs[k].1 });
                assert forall|j: int| 0 <= j < k + 1 implies #[trigger] tags@[j] == resolved(
                    message@,
                    view,
                ).fields[j] by {
                    if j < k {
                        assert(tags@[j] == before[j]);
                    }
                }
            },
            None => {
                return Err(
                    Error::UnknownField {
                        message: message.name.clone(),
                        field: message.refs[k].0.clone(),
                    },
                );
            },
        }
        k = k + 1;
    }
    let resolved_message = Message {
        name: message.name.clone(),
        msg_type: message.msg_type.clone(),
        fields: tags,
        category: message.category,
    };
    assert(resolved_message@.fields =~= resolved(message@, view).fields);
    assert(resolved_message@ =~= resolved(message@, view));
    Ok(resolved_message)
}

/// The model of a parse result, for the contract of [`parse`].
pub open spec fn parse_result_matches(parsed: Result<Parsed, Error>, expected: ParseView) -> bool {
    match expected {
        ParseView::Parsed { dictionary, warnings } => parsed matches Ok(p) && p.dictionary@
            == dictionary && warnings_view(p.warnings@) == warnings,
        ParseView::Malformed => parsed matches Err(Error::Malformed),
        ParseView::UnknownField { message, field } => parsed matches Err(
            Error::UnknownField { message: m, field: f },
        ) && m@ == message && f@ == field,
    }
}

} // verus!
