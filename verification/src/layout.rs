//! The messages whose layout is fixed in this crate: the envelope and the token
//! request with everything they embed, and the parts of a descriptor set that
//! are read.
use crate::fields::{
    all_bytes, contents, find_all_bytes, find_last_bytes, last_bytes, merge_payloads,
    merged_fields, read_fields, split_fields, views, FieldView, ValueView, WireField, WireValue,
};
use crate::text::{texts, utf8_text};
use vstd::prelude::*;
use vstd::utf8::{decode_utf8, valid_utf8};

verus! {

/// A message with a fixed layout.
#[derive(Clone, Copy, PartialEq, Eq, Structural)]
pub enum Layout {
    Unknown,
    TypeMeta,
    Time,
    StringEntry,
    ObjectMeta,
    BoundObjectReference,
    TokenRequestSpec,
    TokenRequestStatus,
    TokenRequest,
    DescriptorSet,
    FileDescriptor,
    MessageDescriptor,
    FieldDescriptor,
    MessageOptions,
}

/// What a field of a message with a fixed layout carries.
#[derive(Clone, Copy, PartialEq, Eq, Structural)]
pub enum FieldLayout {
    /// A number the message does not declare.
    Undeclared,
    Varint,
    Bytes,
    Text,
    Message(Layout),
}

impl Layout {
    /// The layout of field `number`.
    pub open spec fn spec_field(self, number: u32) -> FieldLayout {
        match self {
            Layout::Unknown => if number == 1 {
                FieldLayout::Message(Layout::TypeMeta)
            } else if number == 2 {
                FieldLayout::Bytes
            } else if number == 3 || number == 4 {
                FieldLayout::Text
            } else {
                FieldLayout::Undeclared
            },
            Layout::TypeMeta | Layout::StringEntry => if number == 1 || number == 2 {
                FieldLayout::Text
            } else {
                FieldLayout::Undeclared
            },
            Layout::Time => if number == 1 || number == 2 {
                FieldLayout::Varint
            } else {
                FieldLayout::Undeclared
            },
            Layout::ObjectMeta => if 1 <= number <= 6 || number == 14 {
                FieldLayout::Text
            } else if number == 7 || number == 10 {
                FieldLayout::Varint
            } else if number == 8 || number == 9 {
                FieldLayout::Message(Layout::Time)
            } else if number == 11 || number == 12 {
                FieldLayout::Message(Layout::StringEntry)
            } else if number == 13 {
                FieldLayout::Bytes
            } else {
                FieldLayout::Undeclared
            },
            Layout::BoundObjectReference => if 1 <= number <= 4 {
                FieldLayout::Text
            } else {
                FieldLayout::Undeclared
            },
            Layout::TokenRequestSpec => if number == 1 {
                FieldLayout::Text
            } else if number == 3 {
                FieldLayout::Message(Layout::BoundObjectReference)
            } else if number == 4 {
                FieldLayout::Varint
            } else {
                FieldLayout::Undeclared
            },
            Layout::TokenRequestStatus => if number == 1 {
                FieldLayout::Text
            } else {
                FieldLayout::Undeclared
            },
            Layout::TokenRequest => if number == 1 {
                FieldLayout::Message(Layout::ObjectMeta)
            } else if number == 2 {
                FieldLayout::Message(Layout::TokenRequestSpec)
            } else if number == 3 {
                FieldLayout::Message(Layout::TokenRequestStatus)
            } else {
                FieldLayout::Undeclared
            },
            Layout::DescriptorSet => if number == 1 {
                FieldLayout::Message(Layout::FileDescriptor)
            } else {
                FieldLayout::Undeclared
            },
            Layout::FileDescriptor => if number == 2 {
                FieldLayout::Text
            } else if number == 4 {
                FieldLayout::Message(Layout::MessageDescriptor)
            } else {
                FieldLayout::Undeclared
            },
            Layout::MessageDescriptor => if number == 1 {
                FieldLayout::Text
            } else if number == 2 {
                FieldLayout::Message(Layout::FieldDescriptor)
            } else if number == 3 {
                FieldLayout::Message(Layout::MessageDescriptor)
            } else if number == 7 {
                FieldLayout::Message(Layout::MessageOptions)
            } else {
                FieldLayout::Undeclared
            },
            Layout::FieldDescriptor => if number == 1 || number == 6 || number == 10 {
                FieldLayout::Text
            } else if 3 <= number <= 5 {
                FieldLayout::Varint
            } else {
                FieldLayout::Undeclared
            },
            Layout::MessageOptions => if number == 7 {
                FieldLayout::Varint
            } else {
                FieldLayout::Undeclared
            },
        }
    }

    /// The layout of field `number`.
    pub fn field(self, number: u32) -> (r: FieldLayout)
        ensures
            r == self.spec_field(number),
    {
        match self {
            Layout::Unknown => match number {
                1 => FieldLayout::Message(Layout::TypeMeta),
                2 => FieldLayout::Bytes,
                3 | 4 => FieldLayout::Text,
                _ => FieldLayout::Undeclared,
            },
            Layout::TypeMeta | Layout::StringEntry => match number {
                1 | 2 => FieldLayout::Text,
                _ => FieldLayout::Undeclared,
            },
            Layout::Time => match number {
                1 | 2 => FieldLayout::Varint,
                _ => FieldLayout::Undeclared,
            },
            Layout::ObjectMeta => match number {
                1 | 2 | 3 | 4 | 5 | 6 | 14 => FieldLayout::Text,
                7 | 10 => FieldLayout::Varint,
                8 | 9 => FieldLayout::Message(Layout::Time),
                11 | 12 => FieldLayout::Message(Layout::StringEntry),
                13 => FieldLayout::Bytes,
                _ => FieldLayout::Undeclared,
            },
            Layout::BoundObjectReference => match number {
                1 | 2 | 3 | 4 => FieldLayout::Text,
                _ => FieldLayout::Undeclared,
            },
            Layout::TokenRequestSpec => match number {
                1 => FieldLayout::Text,
                3 => FieldLayout::Message(Layout::BoundObjectReference),
                4 => FieldLayout::Varint,
                _ => FieldLayout::Undeclared,
            },
            Layout::TokenRequestStatus => match number {
                1 => FieldLayout::Text,
                _ => FieldLayout::Undeclared,
            },
            Layout::TokenRequest => match number {
                1 => FieldLayout::Message(Layout::ObjectMeta),
                2 => FieldLayout::Message(Layout::TokenRequestSpec),
                3 => FieldLayout::Message(Layout::TokenRequestStatus),
                _ => FieldLayout::Undeclared,
            },
            Layout::DescriptorSet => match number {
                1 => FieldLayout::Message(Layout::FileDescriptor),
                _ => FieldLayout::Undeclared,
            },
            Layout::FileDescriptor => match number {
                2 => FieldLayout::Text,
                4 => FieldLayout::Message(Layout::MessageDescriptor),
                _ => FieldLayout::Undeclared,
            },
            Layout::MessageDescriptor => match number {
                1 => FieldLayout::Text,
                2 => FieldLayout::Message(Layout::FieldDescriptor),
                3 => FieldLayout::Message(Layout::MessageDescriptor),
                7 => FieldLayout::Message(Layout::MessageOptions),
                _ => FieldLayout::Undeclared,
            },
            Layout::FieldDescriptor => match number {
                1 | 6 | 10 => FieldLayout::Text,
                3 | 4 | 5 => FieldLayout::Varint,
                _ => FieldLayout::Undeclared,
            },
            Layout::MessageOptions => match number {
                7 => FieldLayout::Varint,
                _ => FieldLayout::Undeclared,
            },
        }
    }

    /// Whether the layout lists only the fields that are read, so that a field it
    /// does not list says nothing of the message.
    pub open spec fn spec_partial(self) -> bool {
        match self {
            Layout::DescriptorSet
            | Layout::FileDescriptor
            | Layout::MessageDescriptor
            | Layout::FieldDescriptor
            | Layout::MessageOptions => true,
            _ => false,
        }
    }

    /// Whether the layout lists only the fields that are read.
    pub fn partial(self) -> (r: bool)
        ensures
            r == self.spec_partial(),
    {
        match self {
            Layout::DescriptorSet
            | Layout::FileDescriptor
            | Layout::MessageDescriptor
            | Layout::FieldDescriptor
            | Layout::MessageOptions => true,
            _ => false,
        }
    }

    /// The numbers of the map fields, whose wire type is not looked at.
    pub open spec fn spec_maps(self) -> Seq<u32> {
        if self == Layout::ObjectMeta {
            seq![11u32, 12u32]
        } else {
            Seq::empty()
        }
    }

    /// The numbers of the map fields, whose wire type is not looked at.
    pub fn maps(self) -> (r: Vec<u32>)
        ensures
            r@ == self.spec_maps(),
    {
        let mut r: Vec<u32> = Vec::new();
        if self == Layout::ObjectMeta {
            r.push(11);
            r.push(12);
        }
        assert(r@ =~= self.spec_maps());
        r
    }
}

/// Whether every field of a message carries what its layout declares, and so
/// on in the messages it embeds. Undeclared fields are stepped over, except
/// where the recursion limit is used up and the layout lists every field.
pub open spec fn well_laid(layout: Layout, fields: Seq<FieldView>, depth: nat) -> bool
    decreases depth, fields.len() + 1,
{
    fields.len() > 0 ==> well_laid(layout, fields.drop_last(), depth) && well_laid_field(
        layout,
        fields.last(),
        depth,
    )
}

/// Whether one field carries what its layout declares.
pub open spec fn well_laid_field(layout: Layout, field: FieldView, depth: nat) -> bool
    decreases depth, 0nat,
{
    match layout.spec_field(field.number) {
        FieldLayout::Undeclared => depth > 0 || layout.spec_partial(),
        FieldLayout::Varint => field.value is Varint,
        FieldLayout::Bytes => field.value is Bytes,
        FieldLayout::Text => match field.value {
            ValueView::Bytes(p) => valid_utf8(p),
            _ => false,
        },
        FieldLayout::Message(inner) => match field.value {
            ValueView::Bytes(p) => if depth == 0 {
                false
            } else {
                match read_fields(p, inner.spec_maps(), (depth - 1) as nat) {
                    None => false,
                    Some(fs) => well_laid(inner, fs, (depth - 1) as nat),
                }
            },
            _ => false,
        },
    }
}

/// Each field of a message that holds to its layout does so.
pub proof fn lemma_well_laid_at(layout: Layout, fields: Seq<FieldView>, depth: nat, i: int)
    requires
        well_laid(layout, fields, depth),
        0 <= i < fields.len(),
    ensures
        well_laid_field(layout, fields[i], depth),
    decreases fields.len(),
{
    if i < fields.len() - 1 {
        lemma_well_laid_at(layout, fields.drop_last(), depth, i);
    }
}

/// A message whose fields all hold to the layout does so.
pub proof fn lemma_well_laid_all(layout: Layout, fields: Seq<FieldView>, depth: nat)
    requires
        forall|i: int|
            0 <= i < fields.len() ==> #[trigger] well_laid_field(layout, fields[i], depth),
    ensures
        well_laid(layout, fields, depth),
    decreases fields.len(),
{
    if fields.len() > 0 {
        let front = fields.drop_last();
        assert forall|i: int| 0 <= i < front.len() implies #[trigger] well_laid_field(
            layout,
            front[i],
            depth,
        ) by {
            assert(well_laid_field(layout, fields[i], depth));
        }
        lemma_well_laid_all(layout, front, depth);
        assert(well_laid_field(layout, fields[fields.len() - 1], depth));
    }
}

/// Two lists of fields that hold to a layout do so together.
pub proof fn lemma_well_laid_concat(
    layout: Layout,
    a: Seq<FieldView>,
    b: Seq<FieldView>,
    depth: nat,
)
    requires
        well_laid(layout, a, depth),
        well_laid(layout, b, depth),
    ensures
        well_laid(layout, a + b, depth),
    decreases b.len(),
{
    if b.len() == 0 {
        assert(a + b =~= a);
    } else {
        lemma_well_laid_concat(layout, a, b.drop_last(), depth);
        assert((a + b).drop_last() =~= a + b.drop_last());
        assert((a + b).last() == b.last());
    }
}

/// Checks every field of a message against its layout.
pub fn check_fields(layout: Layout, fields: &[WireField], depth: u32) -> (r: bool)
    ensures
        r == well_laid(layout, views(fields@), depth as nat),
    decreases depth, 1nat,
{
    let mut i: usize = 0;
    while i < fields.len()
        invariant
            i <= fields@.len(),
            forall|j: int|
                0 <= j < i ==> #[trigger] well_laid_field(
                    layout,
                    views(fields@)[j],
                    depth as nat,
                ),
        decreases fields@.len() - i,
    {
        let field: WireField = fields[i];
        if !check_field(layout, field, depth) {
            proof {
                if well_laid(layout, views(fields@), depth as nat) {
                    lemma_well_laid_at(layout, views(fields@), depth as nat, i as int);
                }
            }
            return false;
        }
        i += 1;
    }
    proof {
        lemma_well_laid_all(layout, views(fields@), depth as nat);
    }
    true
}

/// Checks one field against its layout.
fn check_field(layout: Layout, field: WireField, depth: u32) -> (r: bool)
    ensures
        r == well_laid_field(layout, field@, depth as nat),
    decreases depth, 0nat,
{
    match layout.field(field.number) {
        FieldLayout::Undeclared => depth > 0 || layout.partial(),
        FieldLayout::Varint => match field.value {
            WireValue::Varint(_) => true,
            _ => false,
        },
        FieldLayout::Bytes => match field.value {
            WireValue::Bytes(_) => true,
            _ => false,
        },
        FieldLayout::Text => match field.value {
            WireValue::Bytes(p) => utf8_text(p).is_some(),
            _ => false,
        },
        FieldLayout::Message(inner) => match field.value {
            WireValue::Bytes(p) => {
                if depth == 0 {
                    return false;
                }
                let maps = inner.maps();
                match split_fields(p, maps.as_slice(), depth - 1) {
                    None => false,
                    Some(fs) => check_fields(inner, fs.as_slice(), depth - 1),
                }
            },
            _ => false,
        },
    }
}

/// The text of field `number`; empty where the field is absent.
pub open spec fn text_of(fields: Seq<FieldView>, number: u32) -> Seq<char> {
    match last_bytes(fields, number) {
        None => Seq::empty(),
        Some(p) => decode_utf8(p),
    }
}

/// The payload that the last length-delimited field `number` carries belongs to
/// one of the fields.
pub proof fn lemma_last_bytes_is_a_field(fields: Seq<FieldView>, number: u32)
    ensures
        last_bytes(fields, number) matches Some(p) ==> exists|i: int|
            0 <= i < fields.len() && fields[i].number == number && #[trigger] fields[i].value
                == ValueView::Bytes(p),
    decreases fields.len(),
{
    if fields.len() > 0 {
        lemma_last_bytes_is_a_field(fields.drop_last(), number);
        if let Some(p) = last_bytes(fields, number) {
            let last = fields.last();
            if last.number == number && last.value is Bytes {
                assert(fields[fields.len() - 1].value == ValueView::Bytes(p));
            } else {
                let i = choose|i: int|
                    0 <= i < fields.drop_last().len() && fields.drop_last()[i].number == number
                        && #[trigger] fields.drop_last()[i].value == ValueView::Bytes(p);
                assert(fields[i].value == ValueView::Bytes(p));
            }
        }
    }
}

/// Reads the text of field `number` of a message that holds to its layout.
pub(crate) fn read_text(
    Ghost(layout): Ghost<Layout>,
    fields: &[WireField],
    number: u32,
    Ghost(depth): Ghost<nat>,
) -> (r: String)
    requires
        well_laid(layout, views(fields@), depth),
        layout.spec_field(number) == FieldLayout::Text,
    ensures
        r@ == text_of(views(fields@), number),
{
    match find_last_bytes(fields, number) {
        None => String::new(),
        Some(p) => {
            proof {
                lemma_last_bytes_is_a_field(views(fields@), number);
                let i = choose|i: int|
                    0 <= i < views(fields@).len() && views(fields@)[i].number == number
                        && #[trigger] views(fields@)[i].value == ValueView::Bytes(p@);
                lemma_well_laid_at(layout, views(fields@), depth, i);
            }
            match utf8_text(p) {
                Some(s) => s,
                None => String::new(),
            }
        },
    }
}

/// A message that is merged from occurrences that each hold to a layout holds
/// to it as well.
pub proof fn lemma_merged_well_laid(
    outer: Layout,
    fields: Seq<FieldView>,
    number: u32,
    inner: Layout,
    depth: nat,
)
    requires
        depth > 0,
        well_laid(outer, fields, depth),
        outer.spec_field(number) == FieldLayout::Message(inner),
    ensures
        well_laid(
            inner,
            merged_fields(all_bytes(fields, number), inner.spec_maps(), (depth - 1) as nat),
            (depth - 1) as nat,
        ),
    decreases fields.len(),
{
    let below = (depth - 1) as nat;
    if fields.len() > 0 {
        let front = fields.drop_last();
        assert forall|i: int| 0 <= i < front.len() implies #[trigger] well_laid_field(
            outer,
            front[i],
            depth,
        ) by {
            lemma_well_laid_at(outer, fields, depth, i);
        }
        lemma_well_laid_all(outer, front, depth);
        lemma_merged_well_laid(outer, front, number, inner, depth);
        let last = fields.last();
        if last.number == number {
            lemma_well_laid_at(outer, fields, depth, fields.len() - 1);
            if let ValueView::Bytes(p) = last.value {
                let all = all_bytes(fields, number);
                assert(all.drop_last() =~= all_bytes(front, number));
                assert(all.last() == p);
                let before = merged_fields(all_bytes(front, number), inner.spec_maps(), below);
                let added = read_fields(p, inner.spec_maps(), below)->0;
                let merged = merged_fields(all, inner.spec_maps(), below);
                assert(merged == before + added);
                assert forall|i: int| 0 <= i < merged.len() implies #[trigger] well_laid_field(
                    inner,
                    merged[i],
                    below,
                ) by {
                    if i < before.len() {
                        lemma_well_laid_at(inner, before, below, i);
                    } else {
                        lemma_well_laid_at(inner, added, below, i - before.len());
                    }
                }
                lemma_well_laid_all(inner, merged, below);
            }
        }
    }
}

/// Merges the occurrences of a message field of a message that holds to its
/// layout.
pub(crate) fn read_message<'a>(
    Ghost(outer): Ghost<Layout>,
    fields: &[WireField<'a>],
    number: u32,
    inner: Layout,
    depth: u32,
) -> (r: Vec<WireField<'a>>)
    requires
        depth > 0,
        well_laid(outer, views(fields@), depth as nat),
        outer.spec_field(number) == FieldLayout::Message(inner),
    ensures
        views(r@) == merged_fields(
            all_bytes(views(fields@), number),
            inner.spec_maps(),
            (depth - 1) as nat,
        ),
        well_laid(inner, views(r@), (depth - 1) as nat),
{
    let payloads = find_all_bytes(fields, number);
    let maps = inner.maps();
    proof {
        lemma_merged_well_laid(outer, views(fields@), number, inner, depth as nat);
    }
    merge_payloads(payloads.as_slice(), maps.as_slice(), depth - 1)
}

/// The texts of all fields `number`, in order.
pub open spec fn texts_of(fields: Seq<FieldView>, number: u32) -> Seq<Seq<char>> {
    let all = all_bytes(fields, number);
    Seq::new(all.len(), |i: int| decode_utf8(all[i]))
}

/// Each payload of field `number` belongs to one of the fields.
pub proof fn lemma_all_bytes_are_fields(fields: Seq<FieldView>, number: u32, k: int)
    requires
        0 <= k < all_bytes(fields, number).len(),
    ensures
        exists|i: int|
            0 <= i < fields.len() && fields[i].number == number && #[trigger] fields[i].value
                == ValueView::Bytes(all_bytes(fields, number)[k]),
    decreases fields.len(),
{
    if fields.len() > 0 {
        let front = fields.drop_last();
        let p = all_bytes(fields, number)[k];
        if k < all_bytes(front, number).len() {
            lemma_all_bytes_are_fields(front, number, k);
            let i = choose|i: int|
                0 <= i < front.len() && front[i].number == number && #[trigger] front[i].value
                    == ValueView::Bytes(p);
            assert(fields[i].value == ValueView::Bytes(p));
        } else {
            assert(fields[fields.len() - 1].value == ValueView::Bytes(p));
        }
    }
}

/// The payload of a message field of a message that holds to its layout is a
/// message that holds to its own.
pub proof fn lemma_payload_well_laid(
    outer: Layout,
    fields: Seq<FieldView>,
    number: u32,
    inner: Layout,
    depth: nat,
    k: int,
)
    requires
        well_laid(outer, fields, depth),
        outer.spec_field(number) == FieldLayout::Message(inner),
        0 <= k < all_bytes(fields, number).len(),
    ensures
        depth > 0,
        read_fields(all_bytes(fields, number)[k], inner.spec_maps(), (depth - 1) as nat) is Some,
        well_laid(
            inner,
            read_fields(
                all_bytes(fields, number)[k],
                inner.spec_maps(),
                (depth - 1) as nat,
            )->0,
            (depth - 1) as nat,
        ),
{
    lemma_all_bytes_are_fields(fields, number, k);
    let i = choose|i: int|
        0 <= i < fields.len() && fields[i].number == number && #[trigger] fields[i].value
            == ValueView::Bytes(all_bytes(fields, number)[k]);
    lemma_well_laid_at(outer, fields, depth, i);
}

/// Reads the texts of all fields `number` of a message that holds to its
/// layout.
pub(crate) fn read_texts(
    Ghost(layout): Ghost<Layout>,
    fields: &[WireField],
    number: u32,
    Ghost(depth): Ghost<nat>,
) -> (r: Vec<String>)
    requires
        well_laid(layout, views(fields@), depth),
        layout.spec_field(number) == FieldLayout::Text,
    ensures
        texts(r@) == texts_of(views(fields@), number),
{
    let payloads = find_all_bytes(fields, number);
    let ghost fs = views(fields@);
    let ghost all = all_bytes(fs, number);
    let mut out: Vec<String> = Vec::new();
    let mut i: usize = 0;
    while i < payloads.len()
        invariant
            i <= payloads@.len(),
            out@.len() == i,
            fs == views(fields@),
            well_laid(layout, fs, depth),
            layout.spec_field(number) == FieldLayout::Text,
            all == all_bytes(fs, number),
            contents(payloads@) == all,
            forall|j: int| 0 <= j < i ==> #[trigger] out@[j]@ == decode_utf8(all[j]),
        decreases payloads@.len() - i,
    {
        let payload = payloads[i];
        proof {
            assert(all[i as int] == payload@);
            lemma_all_bytes_are_fields(fs, number, i as int);
            let k = choose|k: int|
                0 <= k < fs.len() && fs[k].number == number && #[trigger] fs[k].value
                    == ValueView::Bytes(payload@);
            lemma_well_laid_at(layout, fs, depth, k);
        }
        match utf8_text(payload) {
            Some(s) => out.push(s),
            None => out.push(String::new()),
        }
        i += 1;
    }
    assert(texts(out@) =~= texts_of(fs, number));
    out
}

/// Whether a field is well-formed text.
pub open spec fn is_text(field: FieldView) -> bool {
    match field.value {
        ValueView::Bytes(p) => valid_utf8(p),
        _ => false,
    }
}

/// Whether a field embeds a message with a layout.
pub open spec fn embeds(field: FieldView, inner: Layout, maps: Seq<u32>, depth: nat) -> bool {
    match field.value {
        ValueView::Bytes(p) => depth > 0 && (read_fields(p, maps, (depth - 1) as nat) matches Some(
            fs,
        ) && well_laid(inner, fs, (depth - 1) as nat)),
        _ => false,
    }
}

proof fn lemma_well_laid_pointwise(layout: Layout, fields: Seq<FieldView>, depth: nat)
    ensures
        well_laid(layout, fields, depth) <==> forall|i: int|
            0 <= i < fields.len() ==> #[trigger] well_laid_field(layout, fields[i], depth),
{
    if well_laid(layout, fields, depth) {
        assert forall|i: int| 0 <= i < fields.len() implies #[trigger] well_laid_field(
            layout,
            fields[i],
            depth,
        ) by {
            lemma_well_laid_at(layout, fields, depth, i);
        }
    }
    if forall|i: int|
        0 <= i < fields.len() ==> #[trigger] well_laid_field(layout, fields[i], depth) {
        lemma_well_laid_all(layout, fields, depth);
    }
}

/// Only object metadata has map fields.
proof fn lemma_no_maps()
    ensures
        Layout::ObjectMeta.spec_maps() == seq![11u32, 12u32],
        forall|inner: Layout|
            inner != Layout::ObjectMeta ==> #[trigger] inner.spec_maps() == Seq::<u32>::empty(),
{
}

/// Which `Unknown` messages hold to their layout: the type in field 1 is a
/// `TypeMeta`, field 2 is bytes, and the content encoding in field 3 and the
/// content type in field 4 are texts.
pub proof fn law_unknown_layout(fields: Seq<FieldView>, depth: nat)
    requires
        depth > 0,
    ensures
        well_laid(Layout::Unknown, fields, depth) <==> forall|i: int|
            0 <= i < fields.len() ==> {
                let f = #[trigger] fields[i];
                &&& f.number == 1 ==> embeds(f, Layout::TypeMeta, Seq::empty(), depth)
                &&& f.number == 2 ==> f.value is Bytes
                &&& f.number == 3 || f.number == 4 ==> is_text(f)
            },
{
    let layout = Layout::Unknown;
    lemma_well_laid_pointwise(layout, fields, depth);
    lemma_no_maps();
    if well_laid(layout, fields, depth) {
        assert forall|i: int| 0 <= i < fields.len() implies {
            let f = #[trigger] fields[i];
            &&& f.number == 1 ==> embeds(f, Layout::TypeMeta, Seq::empty(), depth)
            &&& f.number == 2 ==> f.value is Bytes
            &&& f.number == 3 || f.number == 4 ==> is_text(f)
        } by {
            assert(well_laid_field(layout, fields[i], depth));
        }
    } else {
        let i = choose|i: int|
            0 <= i < fields.len() && !#[trigger] well_laid_field(layout, fields[i], depth);
        let f = fields[i];
        assert(!well_laid_field(layout, f, depth));
    }
}

/// Which `TypeMeta` messages hold to their layout: API version and kind are
/// texts.
pub proof fn law_type_meta_layout(fields: Seq<FieldView>, depth: nat)
    requires
        depth > 0,
    ensures
        well_laid(Layout::TypeMeta, fields, depth) <==> forall|i: int|
            0 <= i < fields.len() ==> {
                let f = #[trigger] fields[i];
                &&& f.number == 1 || f.number == 2 ==> is_text(f)
            },
{
    let layout = Layout::TypeMeta;
    lemma_well_laid_pointwise(layout, fields, depth);
    lemma_no_maps();
    if well_laid(layout, fields, depth) {
        assert forall|i: int| 0 <= i < fields.len() implies {
            let f = #[trigger] fields[i];
            &&& f.number == 1 || f.number == 2 ==> is_text(f)
        } by {
            assert(well_laid_field(layout, fields[i], depth));
        }
    } else {
        let i = choose|i: int|
            0 <= i < fields.len() && !#[trigger] well_laid_field(layout, fields[i], depth);
        let f = fields[i];
        assert(!well_laid_field(layout, f, depth));
    }
}

/// Which instants hold to their layout: seconds and nanoseconds are numbers.
pub proof fn law_time_layout(fields: Seq<FieldView>, depth: nat)
    requires
        depth > 0,
    ensures
        well_laid(Layout::Time, fields, depth) <==> forall|i: int|
            0 <= i < fields.len() ==> {
                let f = #[trigger] fields[i];
                &&& f.number == 1 || f.number == 2 ==> f.value is Varint
            },
{
    let layout = Layout::Time;
    lemma_well_laid_pointwise(layout, fields, depth);
    lemma_no_maps();
    if well_laid(layout, fields, depth) {
        assert forall|i: int| 0 <= i < fields.len() implies {
            let f = #[trigger] fields[i];
            &&& f.number == 1 || f.number == 2 ==> f.value is Varint
        } by {
            assert(well_laid_field(layout, fields[i], depth));
        }
    } else {
        let i = choose|i: int|
            0 <= i < fields.len() && !#[trigger] well_laid_field(layout, fields[i], depth);
        let f = fields[i];
        assert(!well_laid_field(layout, f, depth));
    }
}

/// Which map entries of texts hold to their layout: key and value are texts.
pub proof fn law_string_entry_layout(fields: Seq<FieldView>, depth: nat)
    requires
        depth > 0,
    ensures
        well_laid(Layout::StringEntry, fields, depth) <==> forall|i: int|
            0 <= i < fields.len() ==> {
                let f = #[trigger] fields[i];
                &&& f.number == 1 || f.number == 2 ==> is_text(f)
            },
{
    let layout = Layout::StringEntry;
    lemma_well_laid_pointwise(layout, fields, depth);
    lemma_no_maps();
    if well_laid(layout, fields, depth) {
        assert forall|i: int| 0 <= i < fields.len() implies {
            let f = #[trigger] fields[i];
            &&& f.number == 1 || f.number == 2 ==> is_text(f)
        } by {
            assert(well_laid_field(layout, fields[i], depth));
        }
    } else {
        let i = choose|i: int|
            0 <= i < fields.len() && !#[trigger] well_laid_field(layout, fields[i], depth);
        let f = fields[i];
        assert(!well_laid_field(layout, f, depth));
    }
}

/// Which object metadata holds to its layout: names, namespace, link, uid,
/// resource version and finalizers are texts, generation and grace period are
/// numbers, the two timestamps are instants, labels and annotations are entries
/// of texts, and owner references are bytes.
pub proof fn law_object_meta_layout(fields: Seq<FieldView>, depth: nat)
    requires
        depth > 0,
    ensures
        well_laid(Layout::ObjectMeta, fields, depth) <==> forall|i: int|
            0 <= i < fields.len() ==> {
                let f = #[trigger] fields[i];
                &&& 1 <= f.number <= 6 || f.number == 14 ==> is_text(f)
                &&& f.number == 7 || f.number == 10 ==> f.value is Varint
                &&& f.number == 8 || f.number == 9 ==> embeds(f, Layout::Time, Seq::empty(), depth)
                &&& f.number == 11 || f.number == 12 ==> embeds(
                    f,
                    Layout::StringEntry,
                    Seq::empty(),
                    depth,
                )
                &&& f.number == 13 ==> f.value is Bytes
            },
{
    let layout = Layout::ObjectMeta;
    lemma_well_laid_pointwise(layout, fields, depth);
    lemma_no_maps();
    if well_laid(layout, fields, depth) {
        assert forall|i: int| 0 <= i < fields.len() implies {
            let f = #[trigger] fields[i];
            &&& 1 <= f.number <= 6 || f.number == 14 ==> is_text(f)
            &&& f.number == 7 || f.number == 10 ==> f.value is Varint
            &&& f.number == 8 || f.number == 9 ==> embeds(f, Layout::Time, Seq::empty(), depth)
            &&& f.number == 11 || f.number == 12 ==> embeds(
                f,
                Layout::StringEntry,
                Seq::empty(),
                depth,
            )
            &&& f.number == 13 ==> f.value is Bytes
        } by {
            assert(well_laid_field(layout, fields[i], depth));
        }
    } else {
        let i = choose|i: int|
            0 <= i < fields.len() && !#[trigger] well_laid_field(layout, fields[i], depth);
        let f = fields[i];
        assert(!well_laid_field(layout, f, depth));
    }
}

/// Which references to bound objects hold to their layout: kind, API version,
/// name and uid are texts.
pub proof fn law_reference_layout(fields: Seq<FieldView>, depth: nat)
    requires
        depth > 0,
    ensures
        well_laid(Layout::BoundObjectReference, fields, depth) <==> forall|i: int|
            0 <= i < fields.len() ==> {
                let f = #[trigger] fields[i];
                &&& 1 <= f.number <= 4 ==> is_text(f)
            },
{
    let layout = Layout::BoundObjectReference;
    lemma_well_laid_pointwise(layout, fields, depth);
    lemma_no_maps();
    if well_laid(layout, fields, depth) {
        assert forall|i: int| 0 <= i < fields.len() implies {
            let f = #[trigger] fields[i];
            &&& 1 <= f.number <= 4 ==> is_text(f)
        } by {
            assert(well_laid_field(layout, fields[i], depth));
        }
    } else {
        let i = choose|i: int|
            0 <= i < fields.len() && !#[trigger] well_laid_field(layout, fields[i], depth);
        let f = fields[i];
        assert(!well_laid_field(layout, f, depth));
    }
}

/// Which specs of token requests hold to their layout: the audiences are texts,
/// the bound object is a reference, and the lifetime is a number.
pub proof fn law_token_request_spec_layout(fields: Seq<FieldView>, depth: nat)
    requires
        depth > 0,
    ensures
        well_laid(Layout::TokenRequestSpec, fields, depth) <==> forall|i: int|
            0 <= i < fields.len() ==> {
                let f = #[trigger] fields[i];
                &&& f.number == 1 ==> is_text(f)
                &&& f.number == 3 ==> embeds(f, Layout::BoundObjectReference, Seq::empty(), depth)
                &&& f.number == 4 ==> f.value is Varint
            },
{
    let layout = Layout::TokenRequestSpec;
    lemma_well_laid_pointwise(layout, fields, depth);
    lemma_no_maps();
    if well_laid(layout, fields, depth) {
        assert forall|i: int| 0 <= i < fields.len() implies {
            let f = #[trigger] fields[i];
            &&& f.number == 1 ==> is_text(f)
            &&& f.number == 3 ==> embeds(f, Layout::BoundObjectReference, Seq::empty(), depth)
            &&& f.number == 4 ==> f.value is Varint
        } by {
            assert(well_laid_field(layout, fields[i], depth));
        }
    } else {
        let i = choose|i: int|
            0 <= i < fields.len() && !#[trigger] well_laid_field(layout, fields[i], depth);
        let f = fields[i];
        assert(!well_laid_field(layout, f, depth));
    }
}

/// Which token requests hold to their layout: field 1 is object metadata, whose
/// labels and annotations are maps, field 2 is the spec, field 3 the status.
pub proof fn law_token_request_layout(fields: Seq<FieldView>, depth: nat)
    requires
        depth > 0,
    ensures
        well_laid(Layout::TokenRequest, fields, depth) <==> forall|i: int|
            0 <= i < fields.len() ==> {
                let f = #[trigger] fields[i];
                &&& f.number == 1 ==> embeds(f, Layout::ObjectMeta, seq![11u32, 12u32], depth)
                &&& f.number == 2 ==> embeds(f, Layout::TokenRequestSpec, Seq::empty(), depth)
                &&& f.number == 3 ==> embeds(f, Layout::TokenRequestStatus, Seq::empty(), depth)
            },
{
    let layout = Layout::TokenRequest;
    lemma_well_laid_pointwise(layout, fields, depth);
    lemma_no_maps();
    if well_laid(layout, fields, depth) {
        assert forall|i: int| 0 <= i < fields.len() implies {
            let f = #[trigger] fields[i];
            &&& f.number == 1 ==> embeds(f, Layout::ObjectMeta, seq![11u32, 12u32], depth)
            &&& f.number == 2 ==> embeds(f, Layout::TokenRequestSpec, Seq::empty(), depth)
            &&& f.number == 3 ==> embeds(f, Layout::TokenRequestStatus, Seq::empty(), depth)
        } by {
            assert(well_laid_field(layout, fields[i], depth));
        }
    } else {
        let i = choose|i: int|
            0 <= i < fields.len() && !#[trigger] well_laid_field(layout, fields[i], depth);
        let f = fields[i];
        assert(!well_laid_field(layout, f, depth));
    }
}

/// Which statuses of token requests hold to their layout: the token is a text.
pub proof fn law_token_request_status_layout(fields: Seq<FieldView>, depth: nat)
    requires
        depth > 0,
    ensures
        well_laid(Layout::TokenRequestStatus, fields, depth) <==> forall|i: int|
            0 <= i < fields.len() ==> {
                let f = #[trigger] fields[i];
                &&& f.number == 1 ==> is_text(f)
            },
{
    let layout = Layout::TokenRequestStatus;
    lemma_well_laid_pointwise(layout, fields, depth);
    lemma_no_maps();
    if well_laid(layout, fields, depth) {
        assert forall|i: int| 0 <= i < fields.len() implies {
            let f = #[trigger] fields[i];
            &&& f.number == 1 ==> is_text(f)
        } by {
            assert(well_laid_field(layout, fields[i], depth));
        }
    } else {
        let i = choose|i: int|
            0 <= i < fields.len() && !#[trigger] well_laid_field(layout, fields[i], depth);
        let f = fields[i];
        assert(!well_laid_field(layout, f, depth));
    }
}

/// Which descriptor sets hold to their layout: they are made of files.
pub proof fn law_descriptor_set_layout(fields: Seq<FieldView>, depth: nat)
    ensures
        well_laid(Layout::DescriptorSet, fields, depth) <==> forall|i: int|
            0 <= i < fields.len() ==> {
                let f = #[trigger] fields[i];
                &&& f.number == 1 ==> embeds(f, Layout::FileDescriptor, Seq::empty(), depth)
            },
{
    let layout = Layout::DescriptorSet;
    lemma_well_laid_pointwise(layout, fields, depth);
    lemma_no_maps();
    if well_laid(layout, fields, depth) {
        assert forall|i: int| 0 <= i < fields.len() implies {
            let f = #[trigger] fields[i];
            &&& f.number == 1 ==> embeds(f, Layout::FileDescriptor, Seq::empty(), depth)
        } by {
            assert(well_laid_field(layout, fields[i], depth));
        }
    } else {
        let i = choose|i: int|
            0 <= i < fields.len() && !#[trigger] well_laid_field(layout, fields[i], depth);
        let f = fields[i];
        assert(!well_laid_field(layout, f, depth));
    }
}

/// Which files of a descriptor set hold to their layout: the package is a text,
/// field 4 is a message type.
pub proof fn law_file_layout(fields: Seq<FieldView>, depth: nat)
    ensures
        well_laid(Layout::FileDescriptor, fields, depth) <==> forall|i: int|
            0 <= i < fields.len() ==> {
                let f = #[trigger] fields[i];
                &&& f.number == 2 ==> is_text(f)
                &&& f.number == 4 ==> embeds(f, Layout::MessageDescriptor, Seq::empty(), depth)
            },
{
    let layout = Layout::FileDescriptor;
    lemma_well_laid_pointwise(layout, fields, depth);
    lemma_no_maps();
    if well_laid(layout, fields, depth) {
        assert forall|i: int| 0 <= i < fields.len() implies {
            let f = #[trigger] fields[i];
            &&& f.number == 2 ==> is_text(f)
            &&& f.number == 4 ==> embeds(f, Layout::MessageDescriptor, Seq::empty(), depth)
        } by {
            assert(well_laid_field(layout, fields[i], depth));
        }
    } else {
        let i = choose|i: int|
            0 <= i < fields.len() && !#[trigger] well_laid_field(layout, fields[i], depth);
        let f = fields[i];
        assert(!well_laid_field(layout, f, depth));
    }
}

/// Which message types hold to their layout: the name is a text, field 2 is a
/// field, field 3 a nested type, and field 7 holds the options.
pub proof fn law_message_descriptor_layout(fields: Seq<FieldView>, depth: nat)
    ensures
        well_laid(Layout::MessageDescriptor, fields, depth) <==> forall|i: int|
            0 <= i < fields.len() ==> {
                let f = #[trigger] fields[i];
                &&& f.number == 1 ==> is_text(f)
                &&& f.number == 2 ==> embeds(f, Layout::FieldDescriptor, Seq::empty(), depth)
                &&& f.number == 3 ==> embeds(f, Layout::MessageDescriptor, Seq::empty(), depth)
                &&& f.number == 7 ==> embeds(f, Layout::MessageOptions, Seq::empty(), depth)
            },
{
    let layout = Layout::MessageDescriptor;
    lemma_well_laid_pointwise(layout, fields, depth);
    lemma_no_maps();
    if well_laid(layout, fields, depth) {
        assert forall|i: int| 0 <= i < fields.len() implies {
            let f = #[trigger] fields[i];
            &&& f.number == 1 ==> is_text(f)
            &&& f.number == 2 ==> embeds(f, Layout::FieldDescriptor, Seq::empty(), depth)
            &&& f.number == 3 ==> embeds(f, Layout::MessageDescriptor, Seq::empty(), depth)
            &&& f.number == 7 ==> embeds(f, Layout::MessageOptions, Seq::empty(), depth)
        } by {
            assert(well_laid_field(layout, fields[i], depth));
        }
    } else {
        let i = choose|i: int|
            0 <= i < fields.len() && !#[trigger] well_laid_field(layout, fields[i], depth);
        let f = fields[i];
        assert(!well_laid_field(layout, f, depth));
    }
}

/// Which descriptors of fields hold to their layout: name, type name and JSON
/// name are texts; number, label and type are numbers.
pub proof fn law_field_descriptor_layout(fields: Seq<FieldView>, depth: nat)
    ensures
        well_laid(Layout::FieldDescriptor, fields, depth) <==> forall|i: int|
            0 <= i < fields.len() ==> {
                let f = #[trigger] fields[i];
                &&& f.number == 1 || f.number == 6 || f.number == 10 ==> is_text(f)
                &&& 3 <= f.number <= 5 ==> f.value is Varint
            },
{
    let layout = Layout::FieldDescriptor;
    lemma_well_laid_pointwise(layout, fields, depth);
    lemma_no_maps();
    if well_laid(layout, fields, depth) {
        assert forall|i: int| 0 <= i < fields.len() implies {
            let f = #[trigger] fields[i];
            &&& f.number == 1 || f.number == 6 || f.number == 10 ==> is_text(f)
            &&& 3 <= f.number <= 5 ==> f.value is Varint
        } by {
            assert(well_laid_field(layout, fields[i], depth));
        }
    } else {
        let i = choose|i: int|
            0 <= i < fields.len() && !#[trigger] well_laid_field(layout, fields[i], depth);
        let f = fields[i];
        assert(!well_laid_field(layout, f, depth));
    }
}

/// Which options of message types hold to their layout: the mark of map entries
/// is a number.
pub proof fn law_message_options_layout(fields: Seq<FieldView>, depth: nat)
    ensures
        well_laid(Layout::MessageOptions, fields, depth) <==> forall|i: int|
            0 <= i < fields.len() ==> {
                let f = #[trigger] fields[i];
                &&& f.number == 7 ==> f.value is Varint
            },
{
    let layout = Layout::MessageOptions;
    lemma_well_laid_pointwise(layout, fields, depth);
    lemma_no_maps();
    if well_laid(layout, fields, depth) {
        assert forall|i: int| 0 <= i < fields.len() implies {
            let f = #[trigger] fields[i];
            &&& f.number == 7 ==> f.value is Varint
        } by {
            assert(well_laid_field(layout, fields[i], depth));
        }
    } else {
        let i = choose|i: int|
            0 <= i < fields.len() && !#[trigger] well_laid_field(layout, fields[i], depth);
        let f = fields[i];
        assert(!well_laid_field(layout, f, depth));
    }
}

} // verus!
