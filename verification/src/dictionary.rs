//! FIX data dictionaries: the field and message definitions of one FIX
//! version or venue dialect.
use vstd::prelude::*;

verus! {

/// A FIX data dictionary.
///
/// This contains the field and message definitions of one FIX version
/// or venue dialect.
#[derive(Clone, Debug, Eq, PartialEq)]
pub struct Dictionary {
    pub version: Version,
    pub messages: Vec<Message>,
    pub fields: Vec<Field>,
}

/// The definition of a FIX message type.
#[derive(Clone, Debug, Eq, PartialEq)]
pub struct Message {
    /// The name of the message type.
    pub name: String,
    /// The wire value of `MsgType(35)`, verbatim, e.g. `"D"`.
    pub msg_type: String,
    /// The message's fields in source order.
    pub fields: Vec<FieldRef>,
    /// The category of this message.
    pub category: Category,
}

/// A field definition, as listed in the dictionary's fields section.
#[derive(Clone, Debug, Eq, PartialEq)]
pub struct Field {
    pub name: String,
    pub tag: u32,
    pub data_type: DataType,
    pub values: Vec<EnumValue>,
}

/// A field as used by one message (Orchestra's `fieldRef`).
#[derive(Clone, Debug, Eq, PartialEq)]
pub struct FieldRef {
    /// Tag of the referenced [`Field`] definition.
    pub tag: u32,
    pub is_required: bool,
}

/// An enum variant's value.
///
/// This models the `<value enum="..." description="..." />` elements in a
/// field definition.
#[derive(Clone, Debug, Eq, PartialEq)]
pub struct EnumValue {
    pub value: String,
    pub description: String,
}

/// The FIX data type of a field, as declared in the dictionary.
#[derive(Clone, Debug, Eq, PartialEq)]
pub enum DataType {
    String,
    Int,
    /// A type no consumer interprets yet, e.g. `"PRICE"`.
    Other(String),
}

/// The FIX version a dictionary describes, e.g. FIX 4.4 or FIXT 1.1.
#[derive(Clone, Copy, Debug, Eq, PartialEq)]
pub struct Version {
    pub protocol: Protocol,
    pub major: u8,
    pub minor: u8,
    pub service_pack: u8,
}

/// The protocol family a dictionary belongs to.
#[derive(Clone, Copy, Debug, Eq, PartialEq)]
pub enum Protocol {
    /// Classic FIX (4.x and earlier), session and application layers in
    /// one dictionary.
    Fix,
    /// The FIXT transport (FIX 5.x onwards), where the session layer is
    /// versioned separately from application semantics.
    Fixt,
}

/// Whether a message belongs to the session layer or the application layer.
#[derive(Clone, Copy, Debug, Eq, PartialEq)]
pub enum Category {
    /// Session-level machinery: Logon, Heartbeat, Reject, etc.
    Admin,
    /// Business messages: orders, executions, market data.
    App,
}

/// A data type as the model sees it.
pub enum DataTypeView {
    String,
    Int,
    Other(Seq<char>),
}

/// An enum value as the model sees it.
pub struct EnumValueView {
    pub value: Seq<char>,
    pub description: Seq<char>,
}

/// A field definition as the model sees it.
#[verifier::ext_equal]
pub struct FieldView {
    pub name: Seq<char>,
    pub tag: u32,
    pub data_type: DataTypeView,
    pub values: Seq<EnumValueView>,
}

/// A message definition as the model sees it.
#[verifier::ext_equal]
pub struct MessageView {
    pub name: Seq<char>,
    pub msg_type: Seq<char>,
    pub fields: Seq<FieldRef>,
    pub category: Category,
}

/// A dictionary as the model sees it.
#[verifier::ext_equal]
pub struct DictionaryView {
    pub version: Version,
    pub messages: Seq<MessageView>,
    pub fields: Seq<FieldView>,
}

impl View for DataType {
    type V = DataTypeView;

    open spec fn view(&self) -> DataTypeView {
        match self {
            DataType::String => DataTypeView::String,
            DataType::Int => DataTypeView::Int,
            DataType::Other(name) => DataTypeView::Other(name@),
        }
    }
}

impl View for EnumValue {
    type V = EnumValueView;

    open spec fn view(&self) -> EnumValueView {
        EnumValueView { value: self.value@, description: self.description@ }
    }
}

impl View for Field {
    type V = FieldView;

    open spec fn view(&self) -> FieldView {
        FieldView {
            name: self.name@,
            tag: self.tag,
            data_type: self.data_type@,
            values: self.values@.map_values(|v: EnumValue| v@),
        }
    }
}

impl View for Message {
    type V = MessageView;

    open spec fn view(&self) -> MessageView {
        MessageView {
            name: self.name@,
            msg_type: self.msg_type@,
            fields: self.fields@,
            category: self.category,
        }
    }
}

impl View for Dictionary {
    type V = DictionaryView;

    open spec fn view(&self) -> DictionaryView {
        DictionaryView {
            version: self.version,
            messages: self.messages@.map_values(|m: Message| m@),
            fields: self.fields@.map_values(|f: Field| f@),
        }
    }
}

} // verus!
