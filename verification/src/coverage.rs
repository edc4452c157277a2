//! The decoder covers the schema: every key that is derived for a message type
//! is found in the JSON form of a message in which every field was sent. Groups
//! have no JSON form, so no message of a type with a group counts as such.
use crate::descriptor::{
    holds_message, json_keys, lemma_entry_path, lemma_walked_step, map_value, path_below, room,
    walked, walked_field, walked_fields,
};
use crate::exceptions::kubernetes_exceptions;
use crate::fields::{all_bytes, last_bytes, merged_fields, FieldView};
use crate::json::{
    lemma_member_index, lookup, member_index, set_member, set_members, JsonView,
};
use crate::keys::{
    apart, distinct, distinct_field, distinct_fields, expands, members_of_field,
    members_of_fields, named, named_field, named_fields,
};
use crate::object::{
    all_numbers, bytes_json, contribution, elements, entries, entry_value, field_json,
    field_numbered, fields_in, fields_of, is_map, is_number_kind, last_number,
    law_opaque_types_are_single_values, maps_of, members, message_json, number_json,
    repeated_json, single_value, text_at, value_json, SchemaView,
};
use crate::presence::{presence_of, Presence};
use crate::schema::{FieldModel, KIND_BYTES, KIND_MESSAGE, KIND_STRING, LABEL_REPEATED};
use vstd::prelude::*;

verus! {

/// Whether a path leads to a place in a JSON value that stands at the path
/// `parent`. The items of an array stand at the path of the array.
pub open spec fn reaches(v: JsonView, parent: Seq<char>, key: Seq<char>) -> bool
    decreases v, 0nat,
{
    match v {
        JsonView::Object(list) => reaches_member(list, parent, key, list.len()),
        JsonView::Array(items) => reaches_item(items, parent, key, items.len()),
        _ => false,
    }
}

/// Whether a path leads to or below one of the first `n` members.
pub open spec fn reaches_member(
    list: Seq<(Seq<char>, JsonView)>,
    parent: Seq<char>,
    key: Seq<char>,
    n: nat,
) -> bool
    decreases list, n,
{
    0 < n <= list.len() && (reaches_member(list, parent, key, (n - 1) as nat) || key == path_below(
        parent,
        list[n - 1].0,
    ) || reaches(list[n - 1].1, path_below(parent, list[n - 1].0), key))
}

/// Whether a path leads into one of the first `n` items.
pub open spec fn reaches_item(
    items: Seq<JsonView>,
    parent: Seq<char>,
    key: Seq<char>,
    n: nat,
) -> bool
    decreases items, n,
{
    0 < n <= items.len() && (reaches_item(items, parent, key, (n - 1) as nat) || reaches(
        items[n - 1],
        parent,
        key,
    ))
}

/// Whether the names of members are all different.
pub open spec fn distinct_names(list: Seq<(Seq<char>, JsonView)>) -> bool {
    forall|i: int, j: int|
        0 <= i < j < list.len() ==> (#[trigger] list[i]).0 != (#[trigger] list[j]).0
}

/// Whether none of the members that are added is there yet.
spec fn fresh(
    before: Seq<(Seq<char>, JsonView)>,
    added: Seq<(Seq<char>, JsonView)>,
) -> bool {
    forall|i: int| 0 <= i < added.len() ==> lookup(before, (#[trigger] added[i]).0) is None
}

/// Whether the message types with a JSON form of a single value are those that
/// the exceptions list as such.
pub open spec fn coherent(s: SchemaView) -> bool {
    forall|message: Seq<char>, fields: Seq<FieldView>|
        s.exceptions.is_opaque(message) <==> (#[trigger] single_value(message, fields)) is Some
}

/// Whether a scalar field was sent: at least one value where it is repeated,
/// else a value.
pub open spec fn scalar_sent(field: FieldModel, fields: Seq<FieldView>) -> bool {
    if field.kind == KIND_STRING || field.kind == KIND_BYTES {
        if field.label == LABEL_REPEATED {
            all_bytes(fields, field.number).len() > 0
        } else {
            last_bytes(fields, field.number) is Some
        }
    } else if field.label == LABEL_REPEATED {
        is_number_kind(field.kind) && all_numbers(field.kind, fields, field.number).len() > 0
    } else {
        is_number_kind(field.kind) && last_number(field.kind, fields, field.number) is Some
    }
}

/// What stands in the JSON form for a scalar field that was sent.
pub open spec fn scalar_form(field: FieldModel, fields: Seq<FieldView>) -> JsonView {
    if field.kind == KIND_STRING || field.kind == KIND_BYTES {
        if field.label == LABEL_REPEATED {
            let sent = all_bytes(fields, field.number);
            JsonView::Array(Seq::new(sent.len(), |i: int| bytes_json(field.kind, sent[i])))
        } else {
            bytes_json(field.kind, last_bytes(fields, field.number)->0)
        }
    } else if field.label == LABEL_REPEATED {
        let sent = all_numbers(field.kind, fields, field.number);
        JsonView::Array(Seq::new(sent.len(), |i: int| number_json(field.kind, sent[i])))
    } else {
        number_json(field.kind, last_number(field.kind, fields, field.number)->0)
    }
}

/// A scalar that was sent is shown, whatever its kind; as it was sent, where no
/// default takes the place of an empty value.
pub proof fn law_sent_scalars_are_shown(
    s: SchemaView,
    message: Seq<char>,
    field: FieldModel,
    fields: Seq<FieldView>,
    depth: nat,
)
    requires
        scalar_sent(field, fields),
    ensures
        field_json(s, message, field, fields, depth) is Some,
        presence_of(message, field.name) == Presence::AsSent ==> field_json(
            s,
            message,
            field,
            fields,
            depth,
        ) == Some(scalar_form(field, fields)),
{
    let form = Some(scalar_form(field, fields));
    if field.label == LABEL_REPEATED {
        assert(repeated_json(s, field, fields, depth) == form);
    } else {
        assert(value_json(s, field, fields, depth) == form);
    }
}

/// Whether a message is fully populated, inside the message types on the stack:
/// every field was sent, every map with one entry, and so on in the messages it
/// holds, down to types that are on the stack already.
pub open spec fn populated(
    s: SchemaView,
    message: Seq<char>,
    fields: Seq<FieldView>,
    stack: Seq<Seq<char>>,
    depth: nat,
) -> bool
    decreases room(s.index, stack), 0nat, 0nat,
{
    if s.exceptions.is_opaque(message) || stack.contains(message) || !s.index.contains_key(message)
        || s.index[message].map_entry || stack.len() >= s.index.dom().len() {
        true
    } else {
        populated_fields(
            s,
            message,
            fields,
            stack.push(message),
            depth,
            s.index[message].fields.len(),
        )
    }
}

/// Whether the first `n` fields of a message are populated.
pub open spec fn populated_fields(
    s: SchemaView,
    message: Seq<char>,
    fields: Seq<FieldView>,
    stack: Seq<Seq<char>>,
    depth: nat,
    n: nat,
) -> bool
    decreases room(s.index, stack), 2nat, n,
{
    n > 0 ==> {
        let field = s.index[message].fields[n - 1];
        &&& populated_fields(s, message, fields, stack, depth, (n - 1) as nat)
        &&& populated_field(s, message, field, fields, stack, depth)
    }
}

/// Whether one field is populated: a scalar or a message was sent, the first of
/// a repeated one is populated, and a map has one entry under the key that
/// stands for all of them. An inline embed is of a type that is expanded.
pub open spec fn populated_field(
    s: SchemaView,
    message: Seq<char>,
    field: FieldModel,
    fields: Seq<FieldView>,
    stack: Seq<Seq<char>>,
    depth: nat,
) -> bool
    decreases room(s.index, stack), 1nat, 0nat,
{
    let payloads = all_bytes(fields, field.number);
    let inner = field.message_type;
    if s.exceptions.is_excluded(message, field.name) {
        true
    } else if !holds_message(field) {
        s.exceptions.is_inline_embed(message, field.name) || scalar_sent(field, fields)
    } else if field.kind != KIND_MESSAGE || depth == 0 || payloads.len() == 0 {
        false
    } else if s.exceptions.is_inline_embed(message, field.name) {
        let merged = merged_fields(payloads, maps_of(s.index, inner), (depth - 1) as nat);
        expands(s.index, s.exceptions, inner, stack) && populated(
            s,
            inner,
            merged,
            stack,
            (depth - 1) as nat,
        )
    } else {
        match map_value(s.index, inner) {
            Some(None) => field.label == LABEL_REPEATED && payloads.len() == 1 && text_at(
                fields_in(payloads[0], maps_of(s.index, inner), (depth - 1) as nat),
                1,
            ) == "__sentinel__"@,
            Some(Some(value_type)) => {
                let entry = fields_in(payloads[0], maps_of(s.index, inner), (depth - 1) as nat);
                let values = all_bytes(entry, 2);
                let merged = merged_fields(
                    values,
                    maps_of(s.index, value_type),
                    (depth - 2) as nat,
                );
                &&& depth >= 2
                &&& field.label == LABEL_REPEATED
                &&& payloads.len() == 1
                &&& text_at(entry, 1) == "__sentinel__"@
                &&& field_numbered(fields_of(s.index, inner), 2) matches Some(value) && value.kind
                    == KIND_MESSAGE && value.message_type == value_type && value.number == 2
                &&& values.len() > 0
                &&& populated(s, value_type, merged, stack, (depth - 2) as nat)
            },
            None => if field.label == LABEL_REPEATED {
                let first = fields_in(payloads[0], maps_of(s.index, inner), (depth - 1) as nat);
                !is_map(s.index, field) && populated(s, inner, first, stack, (depth - 1) as nat)
            } else {
                let merged = merged_fields(payloads, maps_of(s.index, inner), (depth - 1) as nat);
                populated(s, inner, merged, stack, (depth - 1) as nat)
            },
        }
    }
}

proof fn lemma_member_prefix(
    a: Seq<(Seq<char>, JsonView)>,
    b: Seq<(Seq<char>, JsonView)>,
    parent: Seq<char>,
    key: Seq<char>,
    n: nat,
)
    requires
        n <= a.len(),
        reaches_member(a, parent, key, n),
    ensures
        reaches_member(a + b, parent, key, n),
    decreases n,
{
    assert((a + b)[n - 1] == a[n - 1]);
    if reaches_member(a, parent, key, (n - 1) as nat) {
        lemma_member_prefix(a, b, parent, key, (n - 1) as nat);
    }
}

proof fn lemma_member_grows(
    a: Seq<(Seq<char>, JsonView)>,
    parent: Seq<char>,
    key: Seq<char>,
    n: nat,
    m: nat,
)
    requires
        n <= m <= a.len(),
        reaches_member(a, parent, key, n),
    ensures
        reaches_member(a, parent, key, m),
    decreases m,
{
    if n < m {
        lemma_member_grows(a, parent, key, n, (m - 1) as nat);
    }
}

proof fn lemma_member_suffix(
    a: Seq<(Seq<char>, JsonView)>,
    b: Seq<(Seq<char>, JsonView)>,
    parent: Seq<char>,
    key: Seq<char>,
    n: nat,
)
    requires
        n <= b.len(),
        reaches_member(b, parent, key, n),
    ensures
        reaches_member(a + b, parent, key, a.len() + n),
    decreases n,
{
    assert((a + b)[a.len() + n - 1] == b[n - 1]);
    if reaches_member(b, parent, key, (n - 1) as nat) {
        lemma_member_suffix(a, b, parent, key, (n - 1) as nat);
    }
}

/// A path that leads into one of two lists of members leads into both together.
proof fn lemma_member_concat(
    a: Seq<(Seq<char>, JsonView)>,
    b: Seq<(Seq<char>, JsonView)>,
    parent: Seq<char>,
    key: Seq<char>,
)
    requires
        reaches_member(a, parent, key, a.len()) || reaches_member(b, parent, key, b.len()),
    ensures
        reaches_member(a + b, parent, key, (a + b).len()),
{
    if reaches_member(a, parent, key, a.len()) {
        lemma_member_prefix(a, b, parent, key, a.len());
        lemma_member_grows(a + b, parent, key, a.len(), (a + b).len());
    } else {
        lemma_member_suffix(a, b, parent, key, b.len());
    }
}

proof fn lemma_set_member_distinct(
    list: Seq<(Seq<char>, JsonView)>,
    name: Seq<char>,
    value: JsonView,
)
    requires
        distinct_names(list),
    ensures
        distinct_names(set_member(list, name, value)),
{
    lemma_member_index(list, name);
    let after = set_member(list, name, value);
    let k = member_index(list, name);
    assert forall|i: int, j: int| 0 <= i < j < after.len() implies (#[trigger] after[i]).0 != (
    #[trigger] after[j]).0 by {
        if j < list.len() {
            assert(list[i].0 != list[j].0);
        } else {
            assert(list[i].0 != name);
        }
    }
}

proof fn lemma_set_members_distinct(
    list: Seq<(Seq<char>, JsonView)>,
    added: Seq<(Seq<char>, JsonView)>,
)
    requires
        distinct_names(list),
    ensures
        distinct_names(set_members(list, added)),
    decreases added.len(),
{
    if added.len() > 0 {
        let (name, value) = added.last();
        lemma_set_members_distinct(list, added.drop_last());
        lemma_set_member_distinct(set_members(list, added.drop_last()), name, value);
    }
}

/// The members of a JSON form have different names.
pub proof fn law_members_have_distinct_names(
    s: SchemaView,
    message: Seq<char>,
    fields: Seq<FieldView>,
    depth: nat,
    n: nat,
)
    ensures
        distinct_names(members(s, message, fields, depth, n)),
    decreases n,
{
    if n > 0 {
        law_members_have_distinct_names(s, message, fields, depth, (n - 1) as nat);
        lemma_set_members_distinct(
            members(s, message, fields, depth, (n - 1) as nat),
            contribution(s, message, fields_of(s.index, message)[n - 1], fields, depth),
        );
    }
}

proof fn lemma_contribution_distinct(
    s: SchemaView,
    message: Seq<char>,
    field: FieldModel,
    fields: Seq<FieldView>,
    depth: nat,
)
    ensures
        distinct_names(contribution(s, message, field, fields, depth)),
{
    let payloads = all_bytes(fields, field.number);
    if depth > 0 {
        let inner = field.message_type;
        let below = (depth - 1) as nat;
        law_members_have_distinct_names(
            s,
            inner,
            merged_fields(payloads, maps_of(s.index, inner), below),
            below,
            fields_of(s.index, inner).len(),
        );
    }
}

/// Members that are not there yet are added at the end.
proof fn lemma_fresh_members_are_appended(
    before: Seq<(Seq<char>, JsonView)>,
    added: Seq<(Seq<char>, JsonView)>,
)
    requires
        fresh(before, added),
        distinct_names(added),
    ensures
        set_members(before, added) == before + added,
    decreases added.len(),
{
    if added.len() == 0 {
        assert(before + added =~= before);
    } else {
        let front = added.drop_last();
        let (name, value) = added.last();
        assert forall|i: int| 0 <= i < front.len() implies lookup(
            before,
            (#[trigger] front[i]).0,
        ) is None by {
            assert(front[i] == added[i]);
        }
        assert forall|i: int, j: int| 0 <= i < j < front.len() implies (#[trigger] front[i]).0 != (
        #[trigger] front[j]).0 by {
            assert(added[i].0 != added[j].0);
        }
        lemma_fresh_members_are_appended(before, front);
        let list = before + front;
        let k = member_index(list, name);
        lemma_member_index(list, name);
        lemma_member_index(before, name);
        assert(lookup(before, added[added.len() - 1].0) is None);
        if k >= 0 {
            if k < before.len() {
                assert(before[k].0 == name);
            } else {
                assert(added[k - before.len()].0 != added[added.len() - 1].0);
            }
        }
        assert(list.push((name, value)) =~= before + added);
    }
}

/// Whether the names of members are all in a set.
spec fn names_in(list: Seq<(Seq<char>, JsonView)>, names: Set<Seq<char>>) -> bool {
    forall|i: int| 0 <= i < list.len() ==> names.contains((#[trigger] list[i]).0)
}

proof fn lemma_set_members_names(
    list: Seq<(Seq<char>, JsonView)>,
    added: Seq<(Seq<char>, JsonView)>,
    names: Set<Seq<char>>,
)
    requires
        names_in(list, names),
        names_in(added, names),
    ensures
        names_in(set_members(list, added), names),
    decreases added.len(),
{
    if added.len() > 0 {
        let front = added.drop_last();
        let (name, value) = added.last();
        assert forall|i: int| 0 <= i < front.len() implies names.contains(
            (#[trigger] front[i]).0,
        ) by {
            assert(front[i] == added[i]);
        }
        lemma_set_members_names(list, front, names);
        let before = set_members(list, front);
        let after = set_member(before, name, value);
        assert(names.contains(added[added.len() - 1].0));
        assert forall|i: int| 0 <= i < after.len() implies names.contains(
            (#[trigger] after[i]).0,
        ) by {
            if i < before.len() && i != member_index(before, name) {
                assert(after[i] == before[i]);
            }
        }
    }
}

/// The members that the fields of a populated message give are those that the
/// schema gives them.
proof fn lemma_names_of_fields(
    s: SchemaView,
    message: Seq<char>,
    fields: Seq<FieldView>,
    stack: Seq<Seq<char>>,
    depth: nat,
    n: nat,
)
    requires
        s.index.contains_key(message),
        n <= s.index[message].fields.len(),
        populated_fields(s, message, fields, stack, depth, n),
    ensures
        names_in(
            members(s, message, fields, depth, n),
            members_of_fields(s.index, s.exceptions, message, stack, n),
        ),
    decreases room(s.index, stack), 2nat, n,
{
    if n > 0 {
        let field = s.index[message].fields[n - 1];
        let front = (n - 1) as nat;
        let list = members(s, message, fields, depth, front);
        let given = contribution(s, message, field, fields, depth);
        let first = members_of_fields(s.index, s.exceptions, message, stack, front);
        let next = members_of_field(s.index, s.exceptions, message, field, stack);
        let both = members_of_fields(s.index, s.exceptions, message, stack, n);
        lemma_names_of_fields(s, message, fields, stack, depth, front);
        lemma_names_of_field(s, message, field, fields, stack, depth);
        assert(both == first.union(next));
        assert forall|i: int| 0 <= i < list.len() implies both.contains((#[trigger] list[i]).0) by {
            assert(first.contains(list[i].0));
        }
        assert forall|i: int| 0 <= i < given.len() implies both.contains(
            (#[trigger] given[i]).0,
        ) by {
            assert(next.contains(given[i].0));
        }
        lemma_set_members_names(list, given, both);
    }
}

proof fn lemma_names_of_field(
    s: SchemaView,
    message: Seq<char>,
    field: FieldModel,
    fields: Seq<FieldView>,
    stack: Seq<Seq<char>>,
    depth: nat,
)
    requires
        populated_field(s, message, field, fields, stack, depth),
    ensures
        names_in(
            contribution(s, message, field, fields, depth),
            members_of_field(s.index, s.exceptions, message, field, stack),
        ),
    decreases room(s.index, stack), 1nat, 0nat,
{
    let inner = field.message_type;
    let payloads = all_bytes(fields, field.number);
    if !s.exceptions.is_excluded(message, field.name) && s.exceptions.is_inline_embed(
        message,
        field.name,
    ) && holds_message(field) {
        let below = (depth - 1) as nat;
        let merged = merged_fields(payloads, maps_of(s.index, inner), below);
        let own = stack.push(inner);
        let count = s.index[inner].fields.len();
        lemma_names_of_fields(s, inner, merged, own, below, count);
        assert(members_of_field(s.index, s.exceptions, message, field, stack)
            == members_of_fields(s.index, s.exceptions, inner, own, count));
        assert(contribution(s, message, field, fields, depth) == members(
            s,
            inner,
            merged,
            below,
            count,
        ));
    }
}

/// Where the schema gives fields distinct keys, each field adds members that are
/// not there yet.
proof fn lemma_distinct_is_fresh(
    s: SchemaView,
    message: Seq<char>,
    fields: Seq<FieldView>,
    stack: Seq<Seq<char>>,
    depth: nat,
    n: nat,
)
    requires
        0 < n <= s.index[message].fields.len(),
        s.index.contains_key(message),
        populated_fields(s, message, fields, stack, depth, n),
        distinct_fields(s.index, s.exceptions, message, stack, n),
    ensures
        fresh(
            members(s, message, fields, depth, (n - 1) as nat),
            contribution(s, message, s.index[message].fields[n - 1], fields, depth),
        ),
{
    let front = (n - 1) as nat;
    let field = s.index[message].fields[n - 1];
    let list = members(s, message, fields, depth, front);
    let given = contribution(s, message, field, fields, depth);
    let first = members_of_fields(s.index, s.exceptions, message, stack, front);
    let next = members_of_field(s.index, s.exceptions, message, field, stack);
    lemma_names_of_fields(s, message, fields, stack, depth, front);
    lemma_names_of_field(s, message, field, fields, stack, depth);
    assert forall|i: int| 0 <= i < given.len() implies lookup(
        list,
        (#[trigger] given[i]).0,
    ) is None by {
        let name = given[i].0;
        lemma_member_index(list, name);
        let k = member_index(list, name);
        if k >= 0 {
            assert(first.contains(list[k].0));
            assert(next.contains(name));
            assert(apart(list[k].0, name));
        }
    }
}

/// A path that leads below a single member leads into the list of it.
proof fn lemma_single_member(name: Seq<char>, v: JsonView, parent: Seq<char>, key: Seq<char>)
    requires
        key == path_below(parent, name) || reaches(v, path_below(parent, name), key),
    ensures
        reaches_member(seq![(name, v)], parent, key, 1),
        reaches(JsonView::Object(seq![(name, v)]), parent, key),
{
    let list = seq![(name, v)];
    assert(list[0] == (name, v));
    assert(reaches_member(list, parent, key, 1));
}

proof fn lemma_item_grows(
    items: Seq<JsonView>,
    parent: Seq<char>,
    key: Seq<char>,
    n: nat,
    m: nat,
)
    requires
        n <= m <= items.len(),
        reaches_item(items, parent, key, n),
    ensures
        reaches_item(items, parent, key, m),
    decreases m,
{
    if n < m {
        lemma_item_grows(items, parent, key, n, (m - 1) as nat);
    }
}

/// The first item of a repeated field is the JSON form of its first message.
proof fn lemma_first_element(
    s: SchemaView,
    message: Seq<char>,
    payloads: Seq<Seq<u8>>,
    depth: nat,
    n: nat,
)
    requires
        depth > 0,
        0 < n <= payloads.len(),
    ensures
        elements(s, message, payloads, depth, n).len() == n,
        elements(s, message, payloads, depth, n)[0] == message_json(
            s,
            message,
            fields_in(payloads[0], maps_of(s.index, message), (depth - 1) as nat),
            (depth - 1) as nat,
        ),
    decreases n,
{
    if n > 1 {
        lemma_first_element(s, message, payloads, depth, (n - 1) as nat);
    } else {
        assert(elements(s, message, payloads, depth, 0).len() == 0);
    }
}

/// A map with one entry is an object with one member.
proof fn lemma_single_entry(s: SchemaView, entry: Seq<char>, payload: Seq<u8>, depth: nat)
    requires
        depth > 0,
    ensures
        entries(s, entry, seq![payload], depth, 1) == seq![
            (
                text_at(fields_in(payload, maps_of(s.index, entry), (depth - 1) as nat), 1),
                entry_value(
                    s,
                    entry,
                    fields_in(payload, maps_of(s.index, entry), (depth - 1) as nat),
                    (depth - 1) as nat,
                ),
            ),
        ],
{
    let none = Seq::<(Seq<char>, JsonView)>::empty();
    let fields = fields_in(payload, maps_of(s.index, entry), (depth - 1) as nat);
    let name = text_at(fields, 1);
    let value = entry_value(s, entry, fields, (depth - 1) as nat);
    assert(seq![payload][0] == payload);
    assert(entries(s, entry, seq![payload], depth, 0) == none);
    assert(member_index(none, name) == -1);
    assert(none.push((name, value)) =~= seq![(name, value)]);
}

/// The JSON form of a message field that was sent is what was sent.
proof fn lemma_sent_message(
    s: SchemaView,
    message: Seq<char>,
    field: FieldModel,
    fields: Seq<FieldView>,
    depth: nat,
)
    requires
        depth > 0,
        field.kind == KIND_MESSAGE,
        all_bytes(fields, field.number).len() > 0,
        !s.exceptions.is_opaque(field.message_type) || field.label == LABEL_REPEATED,
        coherent(s),
    ensures
        field.label == LABEL_REPEATED ==> field_json(s, message, field, fields, depth)
            == repeated_json(s, field, fields, depth),
        field.label == LABEL_REPEATED && is_map(s.index, field) ==> repeated_json(
            s,
            field,
            fields,
            depth,
        ) == Some(
            JsonView::Object(
                entries(
                    s,
                    field.message_type,
                    all_bytes(fields, field.number),
                    depth,
                    all_bytes(fields, field.number).len(),
                ),
            ),
        ),
        field.label == LABEL_REPEATED && !is_map(s.index, field) ==> repeated_json(
            s,
            field,
            fields,
            depth,
        ) == Some(
            JsonView::Array(
                elements(
                    s,
                    field.message_type,
                    all_bytes(fields, field.number),
                    depth,
                    all_bytes(fields, field.number).len(),
                ),
            ),
        ),
        field.label != LABEL_REPEATED ==> field_json(s, message, field, fields, depth) == Some(
            message_json(
                s,
                field.message_type,
                merged_fields(
                    all_bytes(fields, field.number),
                    maps_of(s.index, field.message_type),
                    (depth - 1) as nat,
                ),
                (depth - 1) as nat,
            ),
        ),
{
    let inner = field.message_type;
    let below = (depth - 1) as nat;
    let merged = merged_fields(
        all_bytes(fields, field.number),
        maps_of(s.index, inner),
        below,
    );
    if field.label != LABEL_REPEATED {
        assert(single_value(inner, merged) is None);
        assert(value_json(s, field, fields, depth) == Some(message_json(s, inner, merged, below)));
        assert(message_json(s, inner, merged, below) is Object);
    } else {
        let sent = repeated_json(s, field, fields, depth);
        assert(sent is Some);
        assert(sent->0 is Object || sent->0 is Array);
    }
}

/// A key that walking a message type adds leads into the JSON form of a
/// populated message of that type.
proof fn lemma_walk_reaches(
    s: SchemaView,
    message: Seq<char>,
    fields: Seq<FieldView>,
    parent: Seq<char>,
    before: Set<Seq<char>>,
    stack: Seq<Seq<char>>,
    depth: nat,
    key: Seq<char>,
)
    requires
        coherent(s),
        named(s.index, s.exceptions, message, stack),
        distinct(s.index, s.exceptions, message, stack),
        populated(s, message, fields, stack, depth),
        walked(s.index, s.exceptions, message, parent, before, stack) matches Some(after)
            && after.contains(key),
        !before.contains(key),
    ensures
        !s.exceptions.is_opaque(message),
        reaches(message_json(s, message, fields, depth), parent, key),
    decreases room(s.index, stack), 0nat, 0nat,
{
    let inner = stack.push(message);
    let count = s.index[message].fields.len();
    assert(single_value(message, fields) is None);
    assert(walked(s.index, s.exceptions, message, parent, before, stack) == walked_fields(
        s.index,
        s.exceptions,
        message,
        parent,
        before,
        inner,
        count,
    ));
    lemma_fields_reach(s, message, fields, parent, before, inner, depth, count, key);
    assert(message_json(s, message, fields, depth) == JsonView::Object(
        members(s, message, fields, depth, count),
    ));
}

/// A key that walking the first `n` fields adds leads into the members that
/// they give.
proof fn lemma_fields_reach(
    s: SchemaView,
    message: Seq<char>,
    fields: Seq<FieldView>,
    parent: Seq<char>,
    keys: Set<Seq<char>>,
    stack: Seq<Seq<char>>,
    depth: nat,
    n: nat,
    key: Seq<char>,
)
    requires
        coherent(s),
        s.index.contains_key(message),
        n <= s.index[message].fields.len(),
        named_fields(s.index, s.exceptions, message, stack, n),
        distinct_fields(s.index, s.exceptions, message, stack, n),
        populated_fields(s, message, fields, stack, depth, n),
        walked_fields(s.index, s.exceptions, message, parent, keys, stack, n) matches Some(after)
            && after.contains(key),
        !keys.contains(key),
    ensures
        reaches_member(
            members(s, message, fields, depth, n),
            parent,
            key,
            members(s, message, fields, depth, n).len(),
        ),
    decreases room(s.index, stack), 2nat, n,
{
    if n > 0 {
        let field = s.index[message].fields[n - 1];
        let list = members(s, message, fields, depth, (n - 1) as nat);
        let given = contribution(s, message, field, fields, depth);
        let before = walked_fields(
            s.index,
            s.exceptions,
            message,
            parent,
            keys,
            stack,
            (n - 1) as nat,
        )->0;
        lemma_walked_step(s.index, s.exceptions, message, parent, keys, stack, n, before);
        lemma_contribution_distinct(s, message, field, fields, depth);
        lemma_distinct_is_fresh(s, message, fields, stack, depth, n);
        lemma_fresh_members_are_appended(list, given);
        assert(members(s, message, fields, depth, n) == list + given);
        if before.contains(key) {
            lemma_fields_reach(
                s,
                message,
                fields,
                parent,
                keys,
                stack,
                depth,
                (n - 1) as nat,
                key,
            );
        } else {
            lemma_field_reaches(s, message, field, fields, parent, before, stack, depth, key);
        }
        lemma_member_concat(list, given, parent, key);
    }
}

/// A key that walking one field adds leads into the members that it gives.
proof fn lemma_field_reaches(
    s: SchemaView,
    message: Seq<char>,
    field: FieldModel,
    fields: Seq<FieldView>,
    parent: Seq<char>,
    before: Set<Seq<char>>,
    stack: Seq<Seq<char>>,
    depth: nat,
    key: Seq<char>,
)
    requires
        coherent(s),
        named_field(s.index, s.exceptions, message, field, stack),
        distinct_field(s.index, s.exceptions, message, field, stack),
        populated_field(s, message, field, fields, stack, depth),
        walked_field(s.index, s.exceptions, message, field, parent, before, stack) matches Some(
            after,
        ) && after.contains(key),
        !before.contains(key),
    ensures
        reaches_member(
            contribution(s, message, field, fields, depth),
            parent,
            key,
            contribution(s, message, field, fields, depth).len(),
        ),
    decreases room(s.index, stack), 1nat, 0nat,
{
    let payloads = all_bytes(fields, field.number);
    let inner = field.message_type;
    let name = s.exceptions.json_key(message, field);
    let path = path_below(parent, name);
    let given = contribution(s, message, field, fields, depth);
    if !holds_message(field) {
        law_sent_scalars_are_shown(s, message, field, fields, depth);
        let v = field_json(s, message, field, fields, depth)->0;
        assert(given == seq![(name, v)]);
        lemma_single_member(name, v, parent, key);
    } else if s.exceptions.is_inline_embed(message, field.name) {
        let below = (depth - 1) as nat;
        let merged = merged_fields(payloads, maps_of(s.index, inner), below);
        lemma_walk_reaches(s, inner, merged, parent, before, stack, below, key);
        assert(single_value(inner, merged) is None);
        assert(message_json(s, inner, merged, below) == JsonView::Object(given));
    } else {
        lemma_message_field_reaches(
            s,
            message,
            field,
            fields,
            parent,
            before,
            stack,
            depth,
            key,
        );
    }
}

/// A key that walking a message field adds leads to its member or below it.
proof fn lemma_message_field_reaches(
    s: SchemaView,
    message: Seq<char>,
    field: FieldModel,
    fields: Seq<FieldView>,
    parent: Seq<char>,
    before: Set<Seq<char>>,
    stack: Seq<Seq<char>>,
    depth: nat,
    key: Seq<char>,
)
    requires
        coherent(s),
        holds_message(field),
        !s.exceptions.is_excluded(message, field.name),
        !s.exceptions.is_inline_embed(message, field.name),
        named_field(s.index, s.exceptions, message, field, stack),
        distinct_field(s.index, s.exceptions, message, field, stack),
        populated_field(s, message, field, fields, stack, depth),
        walked_field(s.index, s.exceptions, message, field, parent, before, stack) matches Some(
            after,
        ) && after.contains(key),
        !before.contains(key),
    ensures
        reaches_member(
            contribution(s, message, field, fields, depth),
            parent,
            key,
            contribution(s, message, field, fields, depth).len(),
        ),
    decreases room(s.index, stack), 0nat, 1nat,
{
    let payloads = all_bytes(fields, field.number);
    let inner = field.message_type;
    let name = s.exceptions.json_key(message, field);
    let path = path_below(parent, name);
    let below = (depth - 1) as nat;
    let sent = field_json(s, message, field, fields, depth);
    law_sent_messages_are_shown(s, message, field, fields, depth);
    let v = sent->0;
    assert(contribution(s, message, field, fields, depth) == seq![(name, v)]);
    if key != path {
        match map_value(s.index, inner) {
            Some(value) => {
                let entry = fields_in(payloads[0], maps_of(s.index, inner), below);
                let entry_path = path + ".__sentinel__"@;
                let item = entry_value(s, inner, entry, below);
                assert(path.len() > 0) by {
                    reveal_strlit(".");
                }
                lemma_entry_path(path);
                lemma_sent_message(s, message, field, fields, depth);
                assert(payloads =~= seq![payloads[0]]);
                lemma_single_entry(s, inner, payloads[0], depth);
                assert(v == JsonView::Object(seq![("__sentinel__"@, item)]));
                if key != entry_path {
                    let value_type = value->0;
                    let lowest = (depth - 2) as nat;
                    let merged = merged_fields(
                        all_bytes(entry, 2),
                        maps_of(s.index, value_type),
                        lowest,
                    );
                    lemma_walk_reaches(
                        s,
                        value_type,
                        merged,
                        entry_path,
                        before,
                        stack,
                        lowest,
                        key,
                    );
                    let value_field = field_numbered(fields_of(s.index, inner), 2)->0;
                    assert(value_json(s, value_field, entry, below) == Some(
                        message_json(s, value_type, merged, lowest),
                    ));
                    assert(item == message_json(s, value_type, merged, lowest));
                }
                lemma_single_member("__sentinel__"@, item, path, key);
            },
            None => {
                if field.label == LABEL_REPEATED {
                    let first = fields_in(payloads[0], maps_of(s.index, inner), below);
                    lemma_walk_reaches(s, inner, first, path, before, stack, below, key);
                    lemma_sent_message(s, message, field, fields, depth);
                    let items = elements(s, inner, payloads, depth, payloads.len());
                    lemma_first_element(s, inner, payloads, depth, payloads.len());
                    assert(reaches_item(items, path, key, 1));
                    lemma_item_grows(items, path, key, 1, items.len());
                    assert(v == JsonView::Array(items));
                } else {
                    let merged = merged_fields(payloads, maps_of(s.index, inner), below);
                    lemma_walk_reaches(s, inner, merged, path, before, stack, below, key);
                    lemma_sent_message(s, message, field, fields, depth);
                }
            },
        }
    }
    lemma_single_member(name, v, parent, key);
}

/// A message field that was sent is shown.
pub proof fn law_sent_messages_are_shown(
    s: SchemaView,
    message: Seq<char>,
    field: FieldModel,
    fields: Seq<FieldView>,
    depth: nat,
)
    requires
        depth > 0,
        field.kind == KIND_MESSAGE,
        all_bytes(fields, field.number).len() > 0,
    ensures
        field_json(s, message, field, fields, depth) is Some,
{
    assert(value_json(s, field, fields, depth) is Some);
    assert(repeated_json(s, field, fields, depth) is Some);
}

/// The decoder covers the schema: where every type that is reached has distinct
/// keys, every key that is derived for a message type is found in the JSON form
/// of a fully populated message of that type. What counts as populated is what
/// was sent; a group never does, since it has no JSON form.
pub proof fn law_populated_message_shows_every_derived_key(
    s: SchemaView,
    message: Seq<char>,
    fields: Seq<FieldView>,
    depth: nat,
    key: Seq<char>,
)
    requires
        coherent(s),
        named(s.index, s.exceptions, message, Seq::empty()),
        distinct(s.index, s.exceptions, message, Seq::empty()),
        populated(s, message, fields, Seq::empty(), depth),
        json_keys(s.index, s.exceptions, message) matches Some(keys) && keys.contains(key),
    ensures
        reaches(message_json(s, message, fields, depth), Seq::empty(), key),
{
    lemma_walk_reaches(
        s,
        message,
        fields,
        Seq::empty(),
        Set::empty(),
        Seq::empty(),
        depth,
        key,
    );
}

/// With the exceptions of the Kubernetes API the keys and the JSON forms agree
/// on which message types are single values.
pub proof fn law_kubernetes_exceptions_are_coherent(s: SchemaView)
    requires
        s.exceptions == kubernetes_exceptions(),
    ensures
        coherent(s),
{
    assert forall|message: Seq<char>, fields: Seq<FieldView>|
        s.exceptions.is_opaque(message) <==> (#[trigger] single_value(message, fields)) is Some by {
        law_opaque_types_are_single_values(message, fields);
    }
}

} // verus!
