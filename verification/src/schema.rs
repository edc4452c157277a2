//! The schema of API messages: an index of message types by full name, read
//! from a descriptor set.
use crate::fields::{
    all_bytes, contents, find_all_bytes, find_last_varint, last_numbered, last_varint,
    law_absent_field_gives_nothing, law_last_field_counts, lemma_last_numbered, merge_payloads,
    merged_fields, read_fields, split_fields, views, FieldView, ValueView, WireField,
};
use crate::layout::{
    check_fields, embeds, law_descriptor_set_layout, lemma_payload_well_laid, read_text, text_of,
    well_laid, FieldLayout, Layout,
};
use crate::text::{join, str_eq};
use crate::wire::RECURSION_LIMIT;
use vstd::prelude::*;
use vstd::utf8::decode_utf8;

verus! {

/// Field type `double`.
pub const KIND_DOUBLE: u32 = 1;

/// Field type `float`.
pub const KIND_FLOAT: u32 = 2;

/// Field type `int64`.
pub const KIND_INT64: u32 = 3;

/// Field type `uint64`.
pub const KIND_UINT64: u32 = 4;

/// Field type `int32`.
pub const KIND_INT32: u32 = 5;

/// Field type `fixed64`.
pub const KIND_FIXED64: u32 = 6;

/// Field type `fixed32`.
pub const KIND_FIXED32: u32 = 7;

/// Field type `bool`.
pub const KIND_BOOL: u32 = 8;

/// Field type `string`.
pub const KIND_STRING: u32 = 9;

/// Field type group.
pub const KIND_GROUP: u32 = 10;

/// Field type message.
pub const KIND_MESSAGE: u32 = 11;

/// Field type `bytes`.
pub const KIND_BYTES: u32 = 12;

/// Field type `uint32`.
pub const KIND_UINT32: u32 = 13;

/// Field type of an enumeration.
pub const KIND_ENUM: u32 = 14;

/// Field type `sfixed32`.
pub const KIND_SFIXED32: u32 = 15;

/// Field type `sfixed64`.
pub const KIND_SFIXED64: u32 = 16;

/// Field type `sint32`.
pub const KIND_SINT32: u32 = 17;

/// Field type `sint64`.
pub const KIND_SINT64: u32 = 18;

/// Label of a repeated field.
pub const LABEL_REPEATED: u32 = 3;

/// The model of a field of a message type.
pub struct FieldModel {
    pub name: Seq<char>,
    pub json_name: Seq<char>,
    pub number: u32,
    pub label: u32,
    pub kind: u32,
    pub message_type: Seq<char>,
}

/// The model of a message type.
pub struct MessageModel {
    pub fields: Seq<FieldModel>,
    pub map_entry: bool,
}

/// The model of an index: message types by full name.
pub type IndexView = Map<Seq<char>, MessageModel>;

/// A field of a message type.
pub struct FieldSchema {
    pub name: String,
    pub json_name: String,
    pub number: u32,
    pub label: u32,
    pub kind: u32,
    /// The full name of the message type of a message field, with a leading
    /// dot.
    pub message_type: String,
}

impl View for FieldSchema {
    type V = FieldModel;

    open spec fn view(&self) -> FieldModel {
        FieldModel {
            name: self.name@,
            json_name: self.json_name@,
            number: self.number,
            label: self.label,
            kind: self.kind,
            message_type: self.message_type@,
        }
    }
}

/// The models of a sequence of fields.
pub open spec fn field_models(fields: Seq<FieldSchema>) -> Seq<FieldModel> {
    Seq::new(fields.len(), |i: int| fields[i]@)
}

/// A message type.
pub struct MessageSchema {
    /// The full name, with a leading dot.
    pub name: String,
    pub fields: Vec<FieldSchema>,
    /// Whether it is the synthetic entry type of a map field.
    pub map_entry: bool,
}

impl View for MessageSchema {
    type V = MessageModel;

    open spec fn view(&self) -> MessageModel {
        MessageModel { fields: field_models(self.fields@), map_entry: self.map_entry }
    }
}

/// The message types by name; of two with one name the later one counts.
pub open spec fn index_view(messages: Seq<MessageSchema>) -> IndexView
    decreases messages.len(),
{
    if messages.len() == 0 {
        Map::empty()
    } else {
        index_view(messages.drop_last()).insert(messages.last().name@, messages.last()@)
    }
}

/// An index of message types by full name.
pub struct MessageIndex {
    pub messages: Vec<MessageSchema>,
}

impl View for MessageIndex {
    type V = IndexView;

    open spec fn view(&self) -> IndexView {
        index_view(self.messages@)
    }
}

impl MessageIndex {
    /// An index without message types.
    pub fn new() -> (r: MessageIndex)
        ensures
            r@ == Map::<Seq<char>, MessageModel>::empty(),
    {
        MessageIndex { messages: Vec::new() }
    }

    /// Registers a message type under its name.
    pub fn insert(&mut self, message: MessageSchema)
        ensures
            final(self)@ == old(self)@.insert(message.name@, message@),
    {
        self.messages.push(message);
        assert(self.messages@.drop_last() =~= old(self).messages@);
    }

    /// Finds a message type by its full name.
    pub fn get(&self, name: &str) -> (r: Option<&MessageSchema>)
        ensures
            match r {
                Some(m) => self@.contains_key(name@) && m@ == self@[name@],
                None => !self@.contains_key(name@),
            },
    {
        let mut i: usize = self.messages.len();
        assert(self.messages@.take(i as int) =~= self.messages@);
        while i > 0
            invariant
                i <= self.messages@.len(),
                self@.contains_key(name@) == index_view(self.messages@.take(i as int)).contains_key(
                    name@,
                ),
                self@.contains_key(name@) ==> self@[name@] == index_view(
                    self.messages@.take(i as int),
                )[name@],
            decreases i,
        {
            proof {
                let front = self.messages@.take(i as int);
                assert(front.drop_last() =~= self.messages@.take(i - 1));
                assert(front.last() == self.messages@[i - 1]);
            }
            if str_eq(self.messages[i - 1].name.as_str(), name) {
                return Some(&self.messages[i - 1]);
            }
            i -= 1;
        }
        None
    }
}

/// The low 32 bits of a varint field; `default` where the field is absent.
pub open spec fn low32(v: Option<u64>, default: u32) -> u32 {
    match v {
        None => default,
        Some(v) => (v % 0x1_0000_0000) as u32,
    }
}

/// The type of a field, from its descriptor: the first one where the descriptor
/// gives none or one that there is not.
pub open spec fn described_kind(v: Option<u64>) -> u32 {
    let kind = low32(v, KIND_DOUBLE);
    if KIND_DOUBLE <= kind <= KIND_SINT64 {
        kind
    } else {
        KIND_DOUBLE
    }
}

/// A field of a message type as its descriptor states it. A descriptor without
/// a label is that of an optional field.
pub open spec fn described_field(fields: Seq<FieldView>) -> FieldModel {
    FieldModel {
        name: text_of(fields, 1),
        json_name: text_of(fields, 10),
        number: low32(last_varint(fields, 3), 0),
        label: low32(last_varint(fields, 4), 1),
        kind: described_kind(last_varint(fields, 5)),
        message_type: text_of(fields, 6),
    }
}

/// The fields of a message that a payload holds; none where it is malformed.
pub open spec fn payload_fields(payload: Seq<u8>, depth: nat) -> Seq<FieldView> {
    match read_fields(payload, Seq::empty(), depth) {
        None => Seq::empty(),
        Some(fs) => fs,
    }
}

/// The depth that is left for the messages inside a message.
pub open spec fn depth_below(depth: nat) -> nat {
    if depth == 0 {
        0
    } else {
        (depth - 1) as nat
    }
}

/// A message type as its descriptor states it.
pub open spec fn described_message(fields: Seq<FieldView>, depth: nat) -> MessageModel {
    let below = depth_below(depth);
    let payloads = all_bytes(fields, 2);
    let options = merged_fields(all_bytes(fields, 7), Seq::empty(), below);
    MessageModel {
        fields: Seq::new(
            payloads.len(),
            |i: int| described_field(payload_fields(payloads[i], below)),
        ),
        map_entry: match last_varint(options, 7) {
            Some(v) => v != 0,
            None => false,
        },
    }
}

/// The index after a message type and the types nested in it were registered.
/// A nested type's name starts with the name of the type around it.
pub open spec fn with_message(
    index: IndexView,
    prefix: Seq<char>,
    fields: Seq<FieldView>,
    depth: nat,
) -> IndexView
    decreases depth, 1nat, 0nat,
{
    let full_name = prefix + "."@ + text_of(fields, 1);
    let nested = all_bytes(fields, 3);
    with_messages(index, full_name, nested, depth, nested.len()).insert(
        full_name,
        described_message(fields, depth),
    )
}

/// The index after the first `n` of the message types that the payloads
/// describe were registered.
pub open spec fn with_messages(
    index: IndexView,
    prefix: Seq<char>,
    payloads: Seq<Seq<u8>>,
    depth: nat,
    n: nat,
) -> IndexView
    decreases depth, 0nat, n,
{
    if n == 0 || depth == 0 {
        index
    } else {
        let below = depth_below(depth);
        with_message(
            with_messages(index, prefix, payloads, depth, (n - 1) as nat),
            prefix,
            payload_fields(payloads[n - 1], below),
            below,
        )
    }
}

/// The index after the message types of the first `n` files were registered.
/// The names start with a dot and the file's package.
pub open spec fn with_files(files: Seq<Seq<u8>>, depth: nat, n: nat) -> IndexView
    decreases n,
{
    if n == 0 {
        Map::empty()
    } else {
        let below = depth_below(depth);
        let file = payload_fields(files[n - 1], below);
        let messages = all_bytes(file, 4);
        with_messages(
            with_files(files, depth, (n - 1) as nat),
            "."@ + text_of(file, 2),
            messages,
            below,
            messages.len(),
        )
    }
}

/// The index of the message types in a descriptor set; `None` where the set is
/// malformed or does not hold to its layout.
pub open spec fn index_of_set(set: Seq<u8>) -> Option<IndexView> {
    let depth = RECURSION_LIMIT as nat;
    match read_fields(set, Seq::empty(), depth) {
        None => None,
        Some(fields) => if well_laid(Layout::DescriptorSet, fields, depth) {
            let files = all_bytes(fields, 1);
            Some(with_files(files, depth, files.len()))
        } else {
            None
        },
    }
}

fn low32_or(v: Option<u64>, default: u32) -> (r: u32)
    ensures
        r == low32(v, default),
{
    match v {
        None => default,
        Some(v) => (v % 0x1_0000_0000) as u32,
    }
}

fn read_kind(v: Option<u64>) -> (r: u32)
    ensures
        r == described_kind(v),
{
    let kind: u32 = low32_or(v, KIND_DOUBLE);
    if KIND_DOUBLE <= kind && kind <= KIND_SINT64 {
        kind
    } else {
        KIND_DOUBLE
    }
}

/// Splits the payload of a message field that holds to its layout.
fn split_payload<'a>(
    payload: &'a [u8],
    Ghost(outer): Ghost<Layout>,
    Ghost(fields): Ghost<Seq<FieldView>>,
    Ghost(number): Ghost<u32>,
    Ghost(inner): Ghost<Layout>,
    depth: u32,
    Ghost(k): Ghost<int>,
) -> (r: Vec<WireField<'a>>)
    requires
        well_laid(outer, fields, depth as nat),
        outer.spec_field(number) == FieldLayout::Message(inner),
        inner != Layout::ObjectMeta,
        0 <= k < all_bytes(fields, number).len(),
        payload@ == all_bytes(fields, number)[k],
    ensures
        depth > 0,
        views(r@) == payload_fields(payload@, (depth - 1) as nat),
        well_laid(inner, views(r@), (depth - 1) as nat),
{
    proof {
        lemma_payload_well_laid(outer, fields, number, inner, depth as nat, k);
        assert(inner.spec_maps() =~= Seq::<u32>::empty());
    }
    let none: Vec<u32> = Vec::new();
    assert(none@ =~= Seq::<u32>::empty());
    match split_fields(payload, none.as_slice(), depth - 1) {
        Some(fs) => fs,
        None => Vec::new(),
    }
}

/// Reads the descriptor of a field.
fn read_field_schema(fields: &[WireField], Ghost(depth): Ghost<nat>) -> (r: FieldSchema)
    requires
        well_laid(Layout::FieldDescriptor, views(fields@), depth),
    ensures
        r@ == described_field(views(fields@)),
{
    let layout: Ghost<Layout> = Ghost(Layout::FieldDescriptor);
    FieldSchema {
        name: read_text(layout, fields, 1, Ghost(depth)),
        json_name: read_text(layout, fields, 10, Ghost(depth)),
        number: low32_or(find_last_varint(fields, 3), 0),
        label: low32_or(find_last_varint(fields, 4), 1),
        kind: read_kind(find_last_varint(fields, 5)),
        message_type: read_text(layout, fields, 6, Ghost(depth)),
    }
}

/// Reads the descriptors of the fields of a message type.
fn read_field_schemas(fields: &[WireField], depth: u32) -> (r: Vec<FieldSchema>)
    requires
        well_laid(Layout::MessageDescriptor, views(fields@), depth as nat),
    ensures
        field_models(r@) == described_message(views(fields@), depth as nat).fields,
{
    let payloads = find_all_bytes(fields, 2);
    let ghost fs = views(fields@);
    let ghost all = all_bytes(fs, 2);
    let ghost below = depth_below(depth as nat);
    let mut out: Vec<FieldSchema> = Vec::new();
    let mut i: usize = 0;
    while i < payloads.len()
        invariant
            i <= payloads@.len(),
            out@.len() == i,
            below == depth_below(depth as nat),
            fs == views(fields@),
            well_laid(Layout::MessageDescriptor, fs, depth as nat),
            all == all_bytes(fs, 2),
            contents(payloads@) == all,
            forall|j: int|
                0 <= j < i ==> #[trigger] out@[j]@ == described_field(
                    payload_fields(all[j], below),
                ),
        decreases payloads@.len() - i,
    {
        assert(all[i as int] == payloads@[i as int]@);
        let field = split_payload(
            payloads[i],
            Ghost(Layout::MessageDescriptor),
            Ghost(fs),
            Ghost(2),
            Ghost(Layout::FieldDescriptor),
            depth,
            Ghost(i as int),
        );
        out.push(read_field_schema(field.as_slice(), Ghost(below)));
        i += 1;
    }
    assert(field_models(out@) =~= described_message(fs, depth as nat).fields);
    out
}

/// Registers a message type and, before it, the types nested in it.
pub(crate) fn insert_message(
    index: &mut MessageIndex,
    prefix: &str,
    message: &[WireField],
    depth: u32,
)
    requires
        well_laid(Layout::MessageDescriptor, views(message@), depth as nat),
    ensures
        final(index)@ == with_message(old(index)@, prefix@, views(message@), depth as nat),
    decreases depth, 1nat,
{
    let ghost layout = Layout::MessageDescriptor;
    let name = read_text(Ghost(layout), message, 1, Ghost(depth as nat));
    let full_name = join(prefix, ".", name.as_str());
    let nested = find_all_bytes(message, 3);
    insert_messages(
        index,
        full_name.as_str(),
        nested.as_slice(),
        depth,
        Ghost(Layout::MessageDescriptor),
        Ghost(views(message@)),
        Ghost(3),
    );
    let fields = read_field_schemas(message, depth);
    let option_payloads = find_all_bytes(message, 7);
    let none: Vec<u32> = Vec::new();
    assert(none@ =~= Seq::<u32>::empty());
    let inner_depth: u32 = if depth == 0 {
        0
    } else {
        depth - 1
    };
    let options = merge_payloads(option_payloads.as_slice(), none.as_slice(), inner_depth);
    let map_entry: bool = match find_last_varint(options.as_slice(), 7) {
        Some(v) => v != 0,
        None => false,
    };
    index.insert(MessageSchema { name: full_name, fields, map_entry });
}

/// Registers the message types that the payloads describe.
fn insert_messages(
    index: &mut MessageIndex,
    prefix: &str,
    payloads: &[&[u8]],
    depth: u32,
    Ghost(outer): Ghost<Layout>,
    Ghost(fields): Ghost<Seq<FieldView>>,
    Ghost(number): Ghost<u32>,
)
    requires
        well_laid(outer, fields, depth as nat),
        outer.spec_field(number) == FieldLayout::Message(Layout::MessageDescriptor),
        contents(payloads@) == all_bytes(fields, number),
    ensures
        final(index)@ == with_messages(
            old(index)@,
            prefix@,
            all_bytes(fields, number),
            depth as nat,
            all_bytes(fields, number).len(),
        ),
    decreases depth, 0nat,
{
    let ghost all = all_bytes(fields, number);
    let ghost start = index@;
    let mut i: usize = 0;
    while i < payloads.len()
        invariant
            i <= payloads@.len(),
            all == all_bytes(fields, number),
            contents(payloads@) == all,
            well_laid(outer, fields, depth as nat),
            outer.spec_field(number) == FieldLayout::Message(Layout::MessageDescriptor),
            index@ == with_messages(start, prefix@, all, depth as nat, i as nat),
        decreases payloads@.len() - i,
    {
        assert(all[i as int] == payloads@[i as int]@);
        let message = split_payload(
            payloads[i],
            Ghost(outer),
            Ghost(fields),
            Ghost(number),
            Ghost(Layout::MessageDescriptor),
            depth,
            Ghost(i as int),
        );
        insert_message(index, prefix, message.as_slice(), depth - 1);
        i += 1;
    }
}

/// Indexes the message types of a descriptor set.
pub fn index_descriptor_set(set: &[u8]) -> (r: Option<MessageIndex>)
    ensures
        match index_of_set(set@) {
            None => r is None,
            Some(index) => r matches Some(built) && built@ == index,
        },
{
    let none: Vec<u32> = Vec::new();
    assert(none@ =~= Seq::<u32>::empty());
    let fields = match split_fields(set, none.as_slice(), RECURSION_LIMIT) {
        None => {
            return None;
        },
        Some(fields) => fields,
    };
    if !check_fields(Layout::DescriptorSet, fields.as_slice(), RECURSION_LIMIT) {
        return None;
    }
    let ghost depth = RECURSION_LIMIT as nat;
    let ghost fs = views(fields@);
    let ghost all = all_bytes(fs, 1);
    let files = find_all_bytes(fields.as_slice(), 1);
    let mut index = MessageIndex::new();
    let mut i: usize = 0;
    while i < files.len()
        invariant
            i <= files@.len(),
            depth == RECURSION_LIMIT,
            fs == views(fields@),
            all == all_bytes(fs, 1),
            contents(files@) == all,
            well_laid(Layout::DescriptorSet, fs, depth),
            index@ == with_files(all, depth, i as nat),
        decreases files@.len() - i,
    {
        assert(all[i as int] == files@[i as int]@);
        let file = split_payload(
            files[i],
            Ghost(Layout::DescriptorSet),
            Ghost(fs),
            Ghost(1),
            Ghost(Layout::FileDescriptor),
            RECURSION_LIMIT,
            Ghost(i as int),
        );
        let package = read_text(
            Ghost(Layout::FileDescriptor),
            file.as_slice(),
            2,
            Ghost(depth_below(depth)),
        );
        let prefix = join(".", package.as_str(), "");
        proof {
            reveal_strlit("");
            assert(prefix@ =~= "."@ + package@);
        }
        let messages = find_all_bytes(file.as_slice(), 4);
        insert_messages(
            &mut index,
            prefix.as_str(),
            messages.as_slice(),
            RECURSION_LIMIT - 1,
            Ghost(Layout::FileDescriptor),
            Ghost(views(file@)),
            Ghost(4),
        );
        i += 1;
    }
    Some(index)
}

/// `prost_types::FileDescriptorSet::decode` followed by `encode_to_vec`, as one
/// name: the bytes of the set that was decoded.
pub uninterp spec fn canonical_set(bytes: Seq<u8>) -> Option<Seq<u8>>;

/// `prost_types::FileDescriptorSet::decode`, with the decoded set written back
/// to bytes by `prost::Message::encode_to_vec`: `None` where prost refuses the
/// bytes, else the bytes of the same set. Both depend on the bytes alone. What
/// the bytes of the set are is not stated.
#[verifier::external_body]
fn decode_descriptor_set(bytes: &[u8]) -> (r: Option<Vec<u8>>)
    ensures
        match canonical_set(bytes@) {
            None => r is None,
            Some(set) => r matches Some(v) && v@ == set,
        },
{
    match <prost_types::FileDescriptorSet as prost::Message>::decode(bytes) {
        Ok(set) => Some(prost::Message::encode_to_vec(&set)),
        Err(_) => None,
    }
}

/// Every message type of a compiled descriptor set, indexed by full name with a
/// leading dot; `None` where the bytes are no descriptor set.
pub fn message_index(descriptor_bytes: &[u8]) -> (r: Option<MessageIndex>)
    ensures
        match canonical_set(descriptor_bytes@) {
            None => r is None,
            Some(set) => match index_of_set(set) {
                None => r is None,
                Some(index) => r matches Some(built) && built@ == index,
            },
        },
{
    match decode_descriptor_set(descriptor_bytes) {
        None => None,
        Some(set) => index_descriptor_set(set.as_slice()),
    }
}

/// Registering a message type keeps every name that was there, and adds the
/// type's own.
pub proof fn law_registering_keeps_names(
    index: IndexView,
    prefix: Seq<char>,
    fields: Seq<FieldView>,
    depth: nat,
)
    ensures
        index.dom().subset_of(with_message(index, prefix, fields, depth).dom()),
        with_message(index, prefix, fields, depth).contains_pair(
            prefix + "."@ + text_of(fields, 1),
            described_message(fields, depth),
        ),
    decreases depth, 1nat, 0nat,
{
    let nested = all_bytes(fields, 3);
    lemma_registering_all_keeps_names(
        index,
        prefix + "."@ + text_of(fields, 1),
        nested,
        depth,
        nested.len(),
    );
}

proof fn lemma_registering_all_keeps_names(
    index: IndexView,
    prefix: Seq<char>,
    payloads: Seq<Seq<u8>>,
    depth: nat,
    n: nat,
)
    ensures
        index.dom().subset_of(with_messages(index, prefix, payloads, depth, n).dom()),
    decreases depth, 0nat, n,
{
    if n > 0 && depth > 0 {
        let below = depth_below(depth);
        lemma_registering_all_keeps_names(index, prefix, payloads, depth, (n - 1) as nat);
        law_registering_keeps_names(
            with_messages(index, prefix, payloads, depth, (n - 1) as nat),
            prefix,
            payload_fields(payloads[n - 1], below),
            below,
        );
    }
}

/// Whether a text is that of the last field with a number; empty where there is
/// none.
pub open spec fn text_is(fields: Seq<FieldView>, number: u32, text: Seq<char>) -> bool {
    &&& forall|i: int| #[trigger]
        last_numbered(fields, number, i) && fields[i].value is Bytes ==> text == decode_utf8(
            fields[i].value->Bytes_0,
        )
    &&& (forall|k: int| 0 <= k < fields.len() ==> (#[trigger] fields[k]).number != number) ==> text
        == Seq::<char>::empty()
}

/// Whether a number is that of the last field with a number, its low 32 bits; a
/// default where there is none.
pub open spec fn number_is(fields: Seq<FieldView>, number: u32, default: u32, v: u32) -> bool {
    &&& forall|i: int| #[trigger]
        last_numbered(fields, number, i) && fields[i].value is Varint ==> v
            == fields[i].value->Varint_0 % 0x1_0000_0000
    &&& (forall|k: int| 0 <= k < fields.len() ==> (#[trigger] fields[k]).number != number) ==> v
        == default
}

proof fn lemma_text_is(fields: Seq<FieldView>, number: u32)
    ensures
        text_is(fields, number, text_of(fields, number)),
{
    assert forall|i: int| #[trigger]
        last_numbered(fields, number, i) && fields[i].value is Bytes implies text_of(fields, number)
        == decode_utf8(fields[i].value->Bytes_0) by {
        law_last_field_counts(fields, number, i);
    }
    if forall|k: int| 0 <= k < fields.len() ==> (#[trigger] fields[k]).number != number {
        law_absent_field_gives_nothing(fields, number);
    }
}

proof fn lemma_number_is(fields: Seq<FieldView>, number: u32, default: u32)
    ensures
        number_is(fields, number, default, low32(last_varint(fields, number), default)),
{
    assert forall|i: int| #[trigger]
        last_numbered(fields, number, i) && fields[i].value is Varint implies low32(
        last_varint(fields, number),
        default,
    ) == fields[i].value->Varint_0 % 0x1_0000_0000 by {
        law_last_field_counts(fields, number, i);
    }
    if forall|k: int| 0 <= k < fields.len() ==> (#[trigger] fields[k]).number != number {
        law_absent_field_gives_nothing(fields, number);
    }
}

/// A field is what its descriptor says: name in field 1, number in 3, label in 4,
/// type in 5, type name in 6 and JSON name in 10.
pub proof fn law_fields_are_as_described(fields: Seq<FieldView>)
    ensures
        ({
            let field = described_field(fields);
            &&& text_is(fields, 1, field.name)
            &&& text_is(fields, 10, field.json_name)
            &&& text_is(fields, 6, field.message_type)
            &&& number_is(fields, 3, 0, field.number)
            &&& number_is(fields, 4, 1, field.label)
            &&& 1 <= field.kind <= 18
            &&& field.kind != 1 ==> number_is(fields, 5, 1, field.kind)
            &&& forall|k: u32|
                1 <= k <= 18 && #[trigger] number_is(fields, 5, 1, k) && fields_are_numbers(
                    fields,
                    5,
                ) ==> field.kind == k
        }),
{
    lemma_text_is(fields, 1);
    lemma_text_is(fields, 6);
    lemma_text_is(fields, 10);
    lemma_number_is(fields, 3, 0);
    lemma_number_is(fields, 4, 1);
    lemma_number_is(fields, 5, 1);
    let kind = low32(last_varint(fields, 5), 1);
    assert forall|k: u32|
        1 <= k <= 18 && #[trigger] number_is(fields, 5, 1, k) && fields_are_numbers(
            fields,
            5,
        ) implies described_field(fields).kind == k by {
        let i = lemma_last_numbered(fields, 5);
        if i >= 0 {
            assert(last_numbered(fields, 5, i));
        }
        assert(kind == k);
    }
}

/// Whether all fields with a number carry varints.
pub open spec fn fields_are_numbers(fields: Seq<FieldView>, number: u32) -> bool {
    forall|k: int|
        0 <= k < fields.len() && (#[trigger] fields[k]).number == number
            ==> fields[k].value is Varint
}

/// A message type has all fields of its descriptor, in order, and is one of map
/// entries where its options say so.
pub proof fn law_messages_are_as_described(fields: Seq<FieldView>, depth: nat, i: int)
    requires
        depth > 0,
        0 <= i < all_bytes(fields, 2).len(),
    ensures
        described_message(fields, depth).fields.len() == all_bytes(fields, 2).len(),
        read_fields(all_bytes(fields, 2)[i], Seq::empty(), (depth - 1) as nat) matches Some(fs)
            ==> described_message(fields, depth).fields[i] == described_field(fs),
        ({
            let options = merged_fields(all_bytes(fields, 7), Seq::empty(), (depth - 1) as nat);
            &&& forall|k: int| #[trigger]
                last_numbered(options, 7, k) && options[k].value is Varint ==> (described_message(
                    fields,
                    depth,
                ).map_entry <==> options[k].value != ValueView::Varint(0))
            &&& (forall|k: int| 0 <= k < options.len() ==> (#[trigger] options[k]).number != 7)
                ==> !described_message(fields, depth).map_entry
        }),
{
    let options = merged_fields(all_bytes(fields, 7), Seq::empty(), (depth - 1) as nat);
    assert forall|k: int| #[trigger]
        last_numbered(options, 7, k) && options[k].value is Varint implies (described_message(
        fields,
        depth,
    ).map_entry <==> options[k].value != ValueView::Varint(0)) by {
        law_last_field_counts(options, 7, k);
    }
    if forall|k: int| 0 <= k < options.len() ==> (#[trigger] options[k]).number != 7 {
        law_absent_field_gives_nothing(options, 7);
    }
}

/// Registering a message type, with the types nested in it, touches no name but
/// its own and those that start with it.
pub proof fn law_registering_leaves_others(
    index: IndexView,
    prefix: Seq<char>,
    fields: Seq<FieldView>,
    depth: nat,
    other: Seq<char>,
)
    requires
        !(prefix + "."@ + text_of(fields, 1)).is_prefix_of(other),
    ensures
        with_message(index, prefix, fields, depth).contains_key(other) == index.contains_key(other),
        index.contains_key(other) ==> with_message(index, prefix, fields, depth)[other]
            == index[other],
    decreases depth, 1nat, 0nat,
{
    let full_name = prefix + "."@ + text_of(fields, 1);
    let nested = all_bytes(fields, 3);
    lemma_registering_all_leaves_others(index, full_name, nested, depth, nested.len(), other);
    assert(full_name.is_prefix_of(full_name)) by {
        assert(full_name =~= full_name.subrange(0, full_name.len() as int));
    }
}

proof fn lemma_registering_all_leaves_others(
    index: IndexView,
    prefix: Seq<char>,
    payloads: Seq<Seq<u8>>,
    depth: nat,
    n: nat,
    other: Seq<char>,
)
    requires
        !prefix.is_prefix_of(other),
    ensures
        with_messages(index, prefix, payloads, depth, n).contains_key(other) == index.contains_key(
            other,
        ),
        index.contains_key(other) ==> with_messages(index, prefix, payloads, depth, n)[other]
            == index[other],
    decreases depth, 0nat, n,
{
    if n > 0 && depth > 0 {
        let below = depth_below(depth);
        let fields = payload_fields(payloads[n - 1], below);
        let full_name = prefix + "."@ + text_of(fields, 1);
        lemma_registering_all_leaves_others(
            index,
            prefix,
            payloads,
            depth,
            (n - 1) as nat,
            other,
        );
        if full_name.is_prefix_of(other) {
            assert(prefix =~= other.subrange(0, prefix.len() as int)) by {
                assert forall|i: int| 0 <= i < prefix.len() implies prefix[i] == other[i] by {
                    assert(full_name[i] == other.subrange(0, full_name.len() as int)[i]);
                }
            }
        }
        law_registering_leaves_others(
            with_messages(index, prefix, payloads, depth, (n - 1) as nat),
            prefix,
            fields,
            below,
            other,
        );
    }
}

/// Every message type that is described is registered under the name around it, a
/// dot and its own name, and the last one with what its descriptor says.
pub proof fn law_every_message_type_is_registered(
    index: IndexView,
    prefix: Seq<char>,
    payloads: Seq<Seq<u8>>,
    depth: nat,
    n: nat,
    i: int,
    fields: Seq<FieldView>,
)
    requires
        depth > 0,
        0 <= i < n <= payloads.len(),
        read_fields(payloads[i], Seq::empty(), (depth - 1) as nat) == Some(fields),
    ensures
        with_messages(index, prefix, payloads, depth, n).contains_key(
            prefix + "."@ + text_of(fields, 1),
        ),
        i == n - 1 ==> with_messages(index, prefix, payloads, depth, n)[prefix + "."@ + text_of(
            fields,
            1,
        )] == described_message(fields, (depth - 1) as nat),
    decreases n,
{
    let below = depth_below(depth);
    let before = with_messages(index, prefix, payloads, depth, (n - 1) as nat);
    let last = payload_fields(payloads[n - 1], below);
    law_registering_keeps_names(before, prefix, last, below);
    if i < n - 1 {
        law_every_message_type_is_registered(
            index,
            prefix,
            payloads,
            depth,
            (n - 1) as nat,
            i,
            fields,
        );
    }
}

/// Every message type nested in another one is registered under the name of the
/// type around it, a dot and its own name.
pub proof fn law_nested_types_are_registered(
    index: IndexView,
    prefix: Seq<char>,
    fields: Seq<FieldView>,
    depth: nat,
    i: int,
    inner: Seq<FieldView>,
)
    requires
        depth > 0,
        0 <= i < all_bytes(fields, 3).len(),
        read_fields(all_bytes(fields, 3)[i], Seq::empty(), (depth - 1) as nat) == Some(inner),
    ensures
        with_message(index, prefix, fields, depth).contains_key(
            prefix + "."@ + text_of(fields, 1) + "."@ + text_of(inner, 1),
        ),
{
    law_every_message_type_is_registered(
        index,
        prefix + "."@ + text_of(fields, 1),
        all_bytes(fields, 3),
        depth,
        all_bytes(fields, 3).len(),
        i,
        inner,
    );
}

/// Every message type of every file of a descriptor set is indexed under a dot,
/// the package, a dot and its name.
pub proof fn law_every_message_type_is_indexed(
    set: Seq<u8>,
    fields: Seq<FieldView>,
    i: int,
    file: Seq<FieldView>,
    j: int,
    message: Seq<FieldView>,
)
    requires
        read_fields(set, Seq::empty(), 100) == Some(fields),
        0 <= i < all_bytes(fields, 1).len(),
        read_fields(all_bytes(fields, 1)[i], Seq::empty(), 99) == Some(file),
        0 <= j < all_bytes(file, 4).len(),
        read_fields(all_bytes(file, 4)[j], Seq::empty(), 98) == Some(message),
        index_of_set(set) is Some,
    ensures
        index_of_set(set)->0.contains_key("."@ + text_of(file, 2) + "."@ + text_of(message, 1)),
{
    lemma_files_are_indexed(
        all_bytes(fields, 1),
        all_bytes(fields, 1).len(),
        i,
        file,
        j,
        message,
    );
}

proof fn lemma_files_are_indexed(
    files: Seq<Seq<u8>>,
    n: nat,
    i: int,
    file: Seq<FieldView>,
    j: int,
    message: Seq<FieldView>,
)
    requires
        0 <= i < n <= files.len(),
        read_fields(files[i], Seq::empty(), 99) == Some(file),
        0 <= j < all_bytes(file, 4).len(),
        read_fields(all_bytes(file, 4)[j], Seq::empty(), 98) == Some(message),
    ensures
        with_files(files, 100, n).contains_key(
            "."@ + text_of(file, 2) + "."@ + text_of(message, 1),
        ),
    decreases n,
{
    let before = with_files(files, 100, (n - 1) as nat);
    let last = payload_fields(files[n - 1], 99);
    let messages = all_bytes(last, 4);
    let prefix = "."@ + text_of(last, 2);
    lemma_registering_all_keeps_names(before, prefix, messages, 99, messages.len());
    assert(with_files(files, 100, n) == with_messages(
        before,
        prefix,
        messages,
        99,
        messages.len(),
    ));
    if i < n - 1 {
        lemma_files_are_indexed(files, (n - 1) as nat, i, file, j, message);
    } else {
        law_every_message_type_is_registered(
            before,
            prefix,
            messages,
            99,
            messages.len(),
            j,
            message,
        );
    }
}

/// A descriptor set is indexed exactly where it is well-formed and made of files
/// that hold to their layout.
pub proof fn law_descriptor_set_is_accepted_exactly(set: Seq<u8>)
    ensures
        index_of_set(set) is Some <==> (read_fields(set, Seq::empty(), 100) matches Some(fields)
            && forall|i: int|
            0 <= i < fields.len() ==> ((#[trigger] fields[i]).number == 1 ==> embeds(
                fields[i],
                Layout::FileDescriptor,
                Seq::empty(),
                100,
            ))),
{
    if let Some(fields) = read_fields(set, Seq::empty(), 100) {
        law_descriptor_set_layout(fields, 100);
    }
}

} // verus!
