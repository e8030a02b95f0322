use bytes::Bytes;
use refix::codegen::Error;
use refix::quickfix::{self, Warning};
use refix::{generate, snake_case};
use refix::{
    Category, DataType, Dictionary, EnumValue, Field, FieldRef, InvalidValue, Message, Protocol,
    RawMessage, Tokenizer, Version,
};

// Case conversion.

#[test]
fn lowercases_a_single_word() {
    assert_eq!(snake_case("Account"), "account");
}

#[test]
fn splits_words_at_case_changes() {
    assert_eq!(snake_case("OrderQty"), "order_qty");
}

#[test]
fn keeps_a_trailing_acronym_together() {
    assert_eq!(snake_case("ClOrdID"), "cl_ord_id");
}

#[test]
fn keeps_a_name_that_is_one_acronym_run_together() {
    assert_eq!(snake_case("IOIID"), "ioiid");
}

#[test]
fn splits_a_leading_acronym_before_its_last_capital() {
    assert_eq!(snake_case("MDEntryPx"), "md_entry_px");
}

#[test]
fn splits_an_acronym_in_the_middle_of_a_name() {
    assert_eq!(snake_case("NoMDEntries"), "no_md_entries");
}

#[test]
fn splits_after_an_acronym_at_the_start() {
    assert_eq!(snake_case("XMLData"), "xml_data");
}

#[test]
fn attaches_digits_to_the_preceding_word() {
    assert_eq!(snake_case("Nested2PartyID"), "nested2_party_id");
}

#[test]
fn snake_case_edges() {
    assert_eq!(snake_case(""), "");
    assert_eq!(snake_case("A"), "a");
    assert_eq!(snake_case("already_snake"), "already_snake");
    assert_eq!(snake_case("Ünïcode"), "Ünïcode");
    assert_eq!(snake_case("aB"), "a_b");
    assert_eq!(snake_case("ABc"), "a_bc");
}

// The dictionary frontend and the generator, end to end.

const TOY_XML: &str = "<?xml version='1.0' encoding='UTF-8'?>
<!-- a toy dictionary -->
<fix type='FIX' major='4' minor='4' servicepack='0'>
 <header>
  <field name='BeginString' required='Y'/>
  <group name='NoHops' required='N'>
   <field name='HopCompID' required='N'/>
  </group>
 </header>
 <trailer>
  <field name='CheckSum' required='Y'/>
 </trailer>
 <messages>
  <message name='NewOrderSingle' msgtype='D' msgcat='app'>
   <field name='ClOrdID' required='Y'/>
   <field name='OrderQty' required='N'/>
   <field name='Price' required='N'/>
  </message>
 </messages>
 <components>
 </components>
 <fields>
  <field number='11' name='ClOrdID' type='STRING'/>
  <field number='38' name='OrderQty' type='INT'/>
  <field number='44' name='Price' type='PRICE'/>
  <field number='54' name='Side' type='CHAR'>
   <value enum='1' description='BUY'/>
   <value enum='2' description='SELL'/>
  </field>
 </fields>
</fix>
";

const TOY_GENERATED: &str = "//! Typed messages of the `toy.xml` dictionary.

use refix::{InvalidValue, RawMessage};

pub struct NewOrderSingle(RawMessage);

impl NewOrderSingle {
    pub const MSG_TYPE: &'static [u8] = b\"D\";

    pub fn from_raw(raw: RawMessage) -> Self {
        Self(raw)
    }

    pub fn raw(&self) -> &RawMessage {
        &self.0
    }

    pub fn cl_ord_id(&self) -> Result<Option<&str>, InvalidValue> {
        self.0.get_str(11)
    }

    pub fn order_qty(&self) -> Result<Option<i64>, InvalidValue> {
        self.0.get_int(38)
    }

    pub fn price_raw(&self) -> Option<&[u8]> {
        self.0.get(44)
    }
}
";

// The module above, as the checked-in code that uses it would hold it.
pub struct NewOrderSingle(RawMessage);

impl NewOrderSingle {
    pub const MSG_TYPE: &'static [u8] = b"D";

    pub fn from_raw(raw: RawMessage) -> Self {
        Self(raw)
    }

    pub fn raw(&self) -> &RawMessage {
        &self.0
    }

    pub fn cl_ord_id(&self) -> Result<Option<&str>, InvalidValue> {
        self.0.get_str(11)
    }

    pub fn order_qty(&self) -> Result<Option<i64>, InvalidValue> {
        self.0.get_int(38)
    }

    pub fn price_raw(&self) -> Option<&[u8]> {
        self.0.get(44)
    }
}

#[test]
fn the_checked_in_module_is_fresh() {
    let parsed = quickfix::parse(TOY_XML).unwrap();
    let generated = generate(&parsed.dictionary, "toy.xml").unwrap();
    assert_eq!(generated, TOY_GENERATED);
}

/// A complete frame around the `|`-delimited `body`, with correct
/// BodyLength and CheckSum.
fn frame(body: &str) -> Bytes {
    let body = body.replace('|', "\x01");
    let mut bytes = format!("8=FIX.4.4\x019={}\x01", body.len()).into_bytes();
    bytes.extend_from_slice(body.as_bytes());
    let sum = bytes.iter().fold(0u8, |acc, &b| acc.wrapping_add(b));
    bytes.extend_from_slice(format!("10={sum:03}\x01").as_bytes());
    Bytes::from(bytes)
}

#[test]
fn typed_reads_over_a_tokenized_frame() {
    let raw = Tokenizer::default().tokenize(frame("35=D|11=ORDER-1|38=200|44=101.5|")).unwrap();

    let order = NewOrderSingle::from_raw(raw);

    assert_eq!(NewOrderSingle::MSG_TYPE, b"D");
    assert_eq!(order.raw().get(35), Some(b"D".as_slice()));
    assert_eq!(order.cl_ord_id(), Ok(Some("ORDER-1")));
    assert_eq!(order.order_qty(), Ok(Some(200)));
    assert_eq!(order.price_raw(), Some(b"101.5".as_slice()));
}

#[test]
fn an_absent_field_reads_as_none() {
    let raw = Tokenizer::default().tokenize(frame("35=D|11=ORDER-1|")).unwrap();

    let order = NewOrderSingle::from_raw(raw);

    assert_eq!(order.order_qty(), Ok(None));
    assert_eq!(order.price_raw(), None);
}

#[test]
fn a_malformed_value_reads_as_an_error() {
    let raw = Tokenizer::default().tokenize(frame("35=D|38=12x3|")).unwrap();

    let order = NewOrderSingle::from_raw(raw);

    assert_eq!(order.order_qty(), Err(InvalidValue { tag: 38 }));
}

#[test]
fn the_toy_dictionary_parses() {
    let parsed = quickfix::parse(TOY_XML).unwrap();
    let dictionary = &parsed.dictionary;
    assert_eq!(
        dictionary.version,
        Version { protocol: Protocol::Fix, major: 4, minor: 4, service_pack: 0 }
    );
    assert_eq!(dictionary.fields.len(), 4);
    assert_eq!(
        dictionary.fields[0],
        Field { name: "ClOrdID".to_owned(), tag: 11, data_type: DataType::String, values: vec![] }
    );
    assert_eq!(dictionary.fields[2].data_type, DataType::Other("PRICE".to_owned()));
    assert_eq!(
        dictionary.fields[3].values,
        vec![
            EnumValue { value: "1".to_owned(), description: "BUY".to_owned() },
            EnumValue { value: "2".to_owned(), description: "SELL".to_owned() },
        ]
    );
    assert_eq!(
        dictionary.messages,
        vec![Message {
            name: "NewOrderSingle".to_owned(),
            msg_type: "D".to_owned(),
            fields: vec![
                FieldRef { tag: 11, is_required: true },
                FieldRef { tag: 38, is_required: false },
                FieldRef { tag: 44, is_required: false },
            ],
            category: Category::App,
        }]
    );
    assert_eq!(
        parsed.warnings,
        vec![
            Warning::UnsupportedSection { section: "header".to_owned() },
            Warning::UnsupportedSection { section: "trailer".to_owned() },
            Warning::UnsupportedSection { section: "components".to_owned() },
        ]
    );
}

#[test]
fn components_and_groups_in_messages_are_warnings() {
    let xml = "<fix type=\"FIXT\" major=\"1\" minor=\"1\">\
        <messages>\
        <message name=\"Heartbeat\" msgtype=\"0\" msgcat=\"admin\">\
        <field name=\"TestReqID\" required=\"N\"/>\
        <component name=\"Instrument\" required=\"Y\"/>\
        <group name=\"NoLegs\" required=\"N\"><field name=\"LegSymbol\" required=\"N\"/></group>\
        </message>\
        </messages>\
        <fields><field number=\"112\" name=\"TestReqID\" type=\"STRING\"/></fields>\
        </fix>";
    let parsed = quickfix::parse(xml).unwrap();
    assert_eq!(
        parsed.dictionary.version,
        Version { protocol: Protocol::Fixt, major: 1, minor: 1, service_pack: 0 }
    );
    assert_eq!(
        parsed.dictionary.messages,
        vec![Message {
            name: "Heartbeat".to_owned(),
            msg_type: "0".to_owned(),
            fields: vec![FieldRef { tag: 112, is_required: false }],
            category: Category::Admin,
        }]
    );
    assert_eq!(
        parsed.warnings,
        vec![
            Warning::UnsupportedComponent {
                message: "Heartbeat".to_owned(),
                component: "Instrument".to_owned(),
            },
            Warning::UnsupportedGroup { message: "Heartbeat".to_owned(), group: "NoLegs".to_owned() },
        ]
    );
}

#[test]
fn a_reference_to_an_undefined_field_is_an_error() {
    let xml = "<fix type='FIX' major='4' minor='2'><messages>\
        <message name='Logon' msgtype='A' msgcat='admin'><field name='HeartBtInt' required='Y'/></message>\
        </messages><fields/></fix>";
    assert_eq!(
        quickfix::parse(xml).err(),
        Some(quickfix::Error::UnknownField {
            message: "Logon".to_owned(),
            field: "HeartBtInt".to_owned(),
        })
    );
}

#[test]
fn malformed_documents_are_rejected() {
    for xml in [
        "",
        "<fix type='FIX' major='4' minor='4'>",
        "<fix type='FIX' major='4' minor='4'></fix><fix/>",
        "<fix type='FIX' major='4'/>",
        "<fix type='FIX' major='400' minor='4'/>",
        "<fix type='FOO' major='4' minor='4'/>",
        "<fix type='FIX' major='4' minor='4'><messages><message name='A' msgtype='A' msgcat='x'/></messages></fix>",
        "<fix type='FIX' major='4' minor='4'><fields><field number='x' name='A' type='INT'/></fields></fix>",
        "<fix type='FIX' major='4' minor='4' <",
        "<fix type=FIX major='4' minor='4'/>",
        "<dictionary/>",
    ] {
        assert_eq!(quickfix::parse(xml).err(), Some(quickfix::Error::Malformed), "{xml:?}");
    }
}

#[test]
fn an_empty_root_is_an_empty_dictionary() {
    let parsed = quickfix::parse("<fix type='FIX' major='4' minor='0' servicepack='2'/>").unwrap();
    assert_eq!(
        parsed.dictionary,
        Dictionary {
            version: Version { protocol: Protocol::Fix, major: 4, minor: 0, service_pack: 2 },
            messages: vec![],
            fields: vec![],
        }
    );
    assert!(parsed.warnings.is_empty());
    assert_eq!(
        generate(&parsed.dictionary, "empty.xml").unwrap(),
        "//! Typed messages of the `empty.xml` dictionary.\n\nuse refix::{InvalidValue, RawMessage};\n\n"
    );
}

// Wrapper generation on hand-built dictionaries.

fn field(name: &str, tag: u32, data_type: DataType) -> Field {
    Field { name: name.to_owned(), tag, data_type, values: vec![] }
}

fn message(name: &str, tags: &[u32]) -> Message {
    Message {
        name: name.to_owned(),
        msg_type: "D".to_owned(),
        fields: tags.iter().map(|&tag| FieldRef { tag, is_required: false }).collect(),
        category: Category::App,
    }
}

fn dictionary(messages: Vec<Message>, fields: Vec<Field>) -> Dictionary {
    Dictionary {
        version: Version { protocol: Protocol::Fix, major: 4, minor: 4, service_pack: 0 },
        messages,
        fields,
    }
}

const HEADER: &str = "//! Typed messages of the `t.xml` dictionary.\n\nuse refix::{InvalidValue, RawMessage};\n\n";

const PREAMBLE: &str = "    pub const MSG_TYPE: &'static [u8] = b\"D\";\n\n    pub fn from_raw(raw: RawMessage) -> Self {\n        Self(raw)\n    }\n\n    pub fn raw(&self) -> &RawMessage {\n        &self.0\n    }\n";

#[test]
fn joins_messages_with_a_blank_line() {
    let dict = dictionary(
        vec![message("Heartbeat", &[]), message("Order", &[38])],
        vec![field("OrderQty", 38, DataType::Int)],
    );
    let code = generate(&dict, "t.xml").unwrap();
    assert_eq!(
        code,
        format!(
            "{HEADER}pub struct Heartbeat(RawMessage);\n\nimpl Heartbeat {{\n{PREAMBLE}}}\n\n\
             pub struct Order(RawMessage);\n\nimpl Order {{\n{PREAMBLE}\n    \
             pub fn order_qty(&self) -> Result<Option<i64>, InvalidValue> {{\n        \
             self.0.get_int(38)\n    }}\n}}\n"
        )
    );
}

#[test]
fn the_last_definition_of_a_tag_wins() {
    let fields = vec![field("First", 7, DataType::Int), field("Second", 7, DataType::String)];
    let code = generate(&dictionary(vec![message("M", &[7])], fields), "t.xml").unwrap();
    assert!(code.contains("pub fn second(&self) -> Result<Option<&str>, InvalidValue> {\n        self.0.get_str(7)\n    }"));
    assert!(!code.contains("first"));
}

#[test]
fn an_unknown_tag_is_reported_with_its_message() {
    let dict = dictionary(
        vec![message("Good", &[11]), message("Bad", &[38, 999, 998]), message("Worse", &[997])],
        vec![field("ClOrdID", 11, DataType::String), field("OrderQty", 38, DataType::Int)],
    );
    match generate(&dict, "t.xml") {
        Err(Error::UnknownTag { message, tag }) => {
            assert_eq!(message, "Bad");
            assert_eq!(tag, 999);
        }
        Ok(_) => panic!("expected an unknown tag"),
    }
}
