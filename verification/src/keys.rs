//! What holds of the keys of a message type as a whole: every field contributes
//! its own, and no key lies below another.
use crate::descriptor::{
    holds_message, json_keys, lemma_entry_path, lemma_field_resolved, lemma_fields_resolved,
    lemma_more_fields_keep_keys, lemma_stack_has_room, lemma_walked_step, map_value, or_itself,
    path_below, room, value_field, walked, walked_field, walked_fields,
};
use crate::exceptions::{
    kubernetes_exceptions, law_kubernetes_leaves_nothing_out, ExceptionsView,
};
use crate::schema::{FieldModel, IndexView};
use vstd::prelude::*;

verus! {

/// Whether a message type adds the keys of its fields, inside the message types
/// on the stack.
pub open spec fn expands(
    index: IndexView,
    exceptions: ExceptionsView,
    message: Seq<char>,
    stack: Seq<Seq<char>>,
) -> bool {
    &&& index.contains_key(message)
    &&& !index[message].map_entry
    &&& !exceptions.is_opaque(message)
    &&& !stack.contains(message)
    &&& stack.len() < index.dom().len()
}

/// Whether a field holds a message under a key of its own, not inline and not
/// as a map.
pub open spec fn nests(
    index: IndexView,
    exceptions: ExceptionsView,
    message: Seq<char>,
    field: FieldModel,
) -> bool {
    &&& holds_message(field)
    &&& !exceptions.is_excluded(message, field.name)
    &&& !exceptions.is_inline_embed(message, field.name)
    &&& map_value(index, field.message_type) is None
}

/// Walking from more keys ends in more keys, and adds nothing where walking
/// from fewer keys added nothing.
proof fn lemma_walk_grows(
    index: IndexView,
    exceptions: ExceptionsView,
    message: Seq<char>,
    parent: Seq<char>,
    fewer: Set<Seq<char>>,
    more: Set<Seq<char>>,
    stack: Seq<Seq<char>>,
)
    requires
        fewer.subset_of(more),
        walked(index, exceptions, message, parent, fewer, stack) is Some,
    ensures
        walked(index, exceptions, message, parent, more, stack) is Some,
        walked(index, exceptions, message, parent, fewer, stack)->0.subset_of(
            walked(index, exceptions, message, parent, more, stack)->0,
        ),
        walked(index, exceptions, message, parent, fewer, stack)->0 == fewer ==> walked(
            index,
            exceptions,
            message,
            parent,
            more,
            stack,
        )->0 == more,
    decreases room(index, stack), 0nat, 0nat,
{
    if expands(index, exceptions, message, stack) {
        lemma_fields_grow(
            index,
            exceptions,
            message,
            parent,
            fewer,
            more,
            stack.push(message),
            index[message].fields.len(),
        );
    }
}

proof fn lemma_fields_grow(
    index: IndexView,
    exceptions: ExceptionsView,
    message: Seq<char>,
    parent: Seq<char>,
    fewer: Set<Seq<char>>,
    more: Set<Seq<char>>,
    stack: Seq<Seq<char>>,
    n: nat,
)
    requires
        fewer.subset_of(more),
        walked_fields(index, exceptions, message, parent, fewer, stack, n) is Some,
    ensures
        walked_fields(index, exceptions, message, parent, more, stack, n) is Some,
        walked_fields(index, exceptions, message, parent, fewer, stack, n)->0.subset_of(
            walked_fields(index, exceptions, message, parent, more, stack, n)->0,
        ),
        walked_fields(index, exceptions, message, parent, fewer, stack, n)->0 == fewer
            ==> walked_fields(index, exceptions, message, parent, more, stack, n)->0 == more,
    decreases room(index, stack), 2nat, n,
{
    if n > 0 {
        let front = (n - 1) as nat;
        let field = index[message].fields[n - 1];
        lemma_more_fields_keep_keys(
            index,
            exceptions,
            message,
            parent,
            fewer,
            stack,
            front,
            n,
        );
        lemma_more_fields_keep_keys(index, exceptions, message, parent, fewer, stack, 0, front);
        lemma_fields_grow(index, exceptions, message, parent, fewer, more, stack, front);
        let a = walked_fields(index, exceptions, message, parent, fewer, stack, front)->0;
        let b = walked_fields(index, exceptions, message, parent, more, stack, front)->0;
        lemma_walked_step(index, exceptions, message, parent, fewer, stack, n, a);
        lemma_walked_step(index, exceptions, message, parent, more, stack, n, b);
        lemma_field_grows(index, exceptions, message, field, parent, a, b, stack);
        assert(walked_fields(index, exceptions, message, parent, fewer, stack, 0) == Some(fewer));
        if walked_fields(index, exceptions, message, parent, fewer, stack, n)->0 == fewer {
            assert(a =~= fewer);
        }
    }
}

proof fn lemma_field_grows(
    index: IndexView,
    exceptions: ExceptionsView,
    message: Seq<char>,
    field: FieldModel,
    parent: Seq<char>,
    fewer: Set<Seq<char>>,
    more: Set<Seq<char>>,
    stack: Seq<Seq<char>>,
)
    requires
        fewer.subset_of(more),
        walked_field(index, exceptions, message, field, parent, fewer, stack) is Some,
    ensures
        walked_field(index, exceptions, message, field, parent, more, stack) is Some,
        walked_field(index, exceptions, message, field, parent, fewer, stack)->0.subset_of(
            walked_field(index, exceptions, message, field, parent, more, stack)->0,
        ),
        walked_field(index, exceptions, message, field, parent, fewer, stack)->0 == fewer
            ==> walked_field(index, exceptions, message, field, parent, more, stack)->0 == more,
    decreases room(index, stack), 1nat, 0nat,
{
    let path = path_below(parent, exceptions.json_key(message, field));
    let entry_path = path + ".__sentinel__"@;
    if exceptions.is_excluded(message, field.name) {
    } else if exceptions.is_inline_embed(message, field.name) {
        if holds_message(field) {
            lemma_walk_grows(
                index,
                exceptions,
                field.message_type,
                parent,
                fewer,
                more,
                stack,
            );
        }
    } else if !holds_message(field) {
        lemma_insert_grows(fewer, more, path);
    } else {
        match map_value(index, field.message_type) {
            Some(None) => {
                lemma_insert_grows(fewer, more, entry_path);
            },
            Some(Some(value_type)) => {
                lemma_walk_grows(
                    index,
                    exceptions,
                    value_type,
                    entry_path,
                    fewer,
                    more,
                    stack,
                );
                lemma_insert_grows(fewer, more, entry_path);
            },
            None => {
                lemma_walk_grows(
                    index,
                    exceptions,
                    field.message_type,
                    path,
                    fewer,
                    more,
                    stack,
                );
                lemma_insert_grows(fewer, more, path);
            },
        }
    }
}

/// A key that is put into both of two sets, one inside the other.
proof fn lemma_insert_grows(fewer: Set<Seq<char>>, more: Set<Seq<char>>, key: Seq<char>)
    requires
        fewer.subset_of(more),
    ensures
        fewer.insert(key).subset_of(more.insert(key)),
        fewer.insert(key) == fewer ==> more.insert(key) == more,
{
    if fewer.insert(key) == fewer {
        assert(fewer.insert(key).contains(key));
        assert(more.insert(key) =~= more);
    }
}

/// Every field of a message type contributes the keys it has on its own,
/// whatever its siblings add.
pub proof fn law_every_field_contributes(
    index: IndexView,
    exceptions: ExceptionsView,
    message: Seq<char>,
    parent: Seq<char>,
    keys: Set<Seq<char>>,
    stack: Seq<Seq<char>>,
    j: int,
)
    requires
        expands(index, exceptions, message, stack),
        walked(index, exceptions, message, parent, keys, stack) is Some,
        0 <= j < index[message].fields.len(),
    ensures
        walked_field(
            index,
            exceptions,
            message,
            index[message].fields[j],
            parent,
            Set::empty(),
            stack.push(message),
        ) is Some,
        walked_field(
            index,
            exceptions,
            message,
            index[message].fields[j],
            parent,
            Set::empty(),
            stack.push(message),
        )->0.subset_of(walked(index, exceptions, message, parent, keys, stack)->0),
{
    let own = stack.push(message);
    let count = index[message].fields.len();
    let field = index[message].fields[j];
    let none = Set::<Seq<char>>::empty();
    lemma_more_fields_keep_keys(
        index,
        exceptions,
        message,
        parent,
        keys,
        own,
        (j + 1) as nat,
        count,
    );
    lemma_more_fields_keep_keys(
        index,
        exceptions,
        message,
        parent,
        keys,
        own,
        j as nat,
        (j + 1) as nat,
    );
    let before = walked_fields(index, exceptions, message, parent, keys, own, j as nat)->0;
    lemma_walked_step(
        index,
        exceptions,
        message,
        parent,
        keys,
        own,
        (j + 1) as nat,
        before,
    );
    lemma_field_resolved(index, exceptions, message, field, parent, before, own);
    lemma_field_resolved(index, exceptions, message, field, parent, none, own);
    lemma_field_grows(index, exceptions, message, field, parent, none, before, own);
}

/// Every message field expands on its own, whatever its type: it contributes the
/// keys of a walk of that type below its own path, and its own path where the
/// type has none. So two fields of one type are both followed.
pub proof fn law_message_fields_expand(
    index: IndexView,
    exceptions: ExceptionsView,
    message: Seq<char>,
    parent: Seq<char>,
    keys: Set<Seq<char>>,
    stack: Seq<Seq<char>>,
    j: int,
)
    requires
        expands(index, exceptions, message, stack),
        walked(index, exceptions, message, parent, keys, stack) is Some,
        0 <= j < index[message].fields.len(),
        nests(index, exceptions, message, index[message].fields[j]),
    ensures
        ({
            let field = index[message].fields[j];
            let path = path_below(parent, exceptions.json_key(message, field));
            let after = walked(index, exceptions, message, parent, keys, stack)->0;
            let alone = walked(
                index,
                exceptions,
                field.message_type,
                path,
                Set::empty(),
                stack.push(message),
            );
            &&& alone is Some
            &&& alone->0.subset_of(after)
            &&& alone->0 == Set::<Seq<char>>::empty() ==> after.contains(path)
        }),
{
    let field = index[message].fields[j];
    let path = path_below(parent, exceptions.json_key(message, field));
    let own = stack.push(message);
    let none = Set::<Seq<char>>::empty();
    law_every_field_contributes(index, exceptions, message, parent, keys, stack, j);
    let alone = walked(index, exceptions, field.message_type, path, none, own);
    let taken = walked_field(index, exceptions, message, field, parent, none, own);
    assert(taken == or_itself(none, alone, path));
    if alone->0 == none {
        assert(taken->0.contains(path));
    }
}

/// A field whose type is opaque, or is being expanded further up, is expected
/// under its own path.
pub proof fn law_closed_fields_are_expected_themselves(
    index: IndexView,
    exceptions: ExceptionsView,
    message: Seq<char>,
    parent: Seq<char>,
    keys: Set<Seq<char>>,
    stack: Seq<Seq<char>>,
    j: int,
)
    requires
        expands(index, exceptions, message, stack),
        walked(index, exceptions, message, parent, keys, stack) is Some,
        0 <= j < index[message].fields.len(),
        nests(index, exceptions, message, index[message].fields[j]),
        exceptions.is_opaque(index[message].fields[j].message_type) || stack.push(
            message,
        ).contains(index[message].fields[j].message_type),
    ensures
        walked(index, exceptions, message, parent, keys, stack)->0.contains(
            path_below(parent, exceptions.json_key(message, index[message].fields[j])),
        ),
{
    law_message_fields_expand(index, exceptions, message, parent, keys, stack, j);
}

/// Whether a key lies below another: it begins with the other and a dot.
pub open spec fn below(key: Seq<char>, other: Seq<char>) -> bool {
    (other + "."@).is_prefix_of(key)
}

/// Whether two keys differ and neither lies below the other.
pub open spec fn apart(a: Seq<char>, b: Seq<char>) -> bool {
    a != b && !below(a, b) && !below(b, a)
}

/// Whether every key of one set is apart from every key of another.
pub open spec fn all_apart(a: Set<Seq<char>>, b: Set<Seq<char>>) -> bool {
    forall|x: Seq<char>, y: Seq<char>| a.contains(x) && b.contains(y) ==> #[trigger] apart(x, y)
}

/// The JSON members that a message type gives the object it stands in: those of
/// its fields, and for an inline embed those of the embedded type.
pub open spec fn members(
    index: IndexView,
    exceptions: ExceptionsView,
    message: Seq<char>,
    stack: Seq<Seq<char>>,
) -> Set<Seq<char>>
    decreases room(index, stack), 0nat, 0nat,
{
    if expands(index, exceptions, message, stack) {
        members_of_fields(
            index,
            exceptions,
            message,
            stack.push(message),
            index[message].fields.len(),
        )
    } else {
        Set::empty()
    }
}

/// The JSON members that the first `n` fields of a message type give.
pub open spec fn members_of_fields(
    index: IndexView,
    exceptions: ExceptionsView,
    message: Seq<char>,
    stack: Seq<Seq<char>>,
    n: nat,
) -> Set<Seq<char>>
    decreases room(index, stack), 2nat, n,
{
    if n == 0 {
        Set::empty()
    } else {
        members_of_fields(index, exceptions, message, stack, (n - 1) as nat).union(
            members_of_field(
                index,
                exceptions,
                message,
                index[message].fields[n - 1],
                stack,
            ),
        )
    }
}

/// The JSON members that a field gives.
pub open spec fn members_of_field(
    index: IndexView,
    exceptions: ExceptionsView,
    message: Seq<char>,
    field: FieldModel,
    stack: Seq<Seq<char>>,
) -> Set<Seq<char>>
    decreases room(index, stack), 1nat, 0nat,
{
    if exceptions.is_excluded(message, field.name) {
        Set::empty()
    } else if exceptions.is_inline_embed(message, field.name) {
        if holds_message(field) {
            members(index, exceptions, field.message_type, stack)
        } else {
            Set::empty()
        }
    } else {
        Set::empty().insert(exceptions.json_key(message, field))
    }
}

/// Whether no field has an empty JSON key, in a message type and in every type
/// that is reached from it.
pub open spec fn named(
    index: IndexView,
    exceptions: ExceptionsView,
    message: Seq<char>,
    stack: Seq<Seq<char>>,
) -> bool
    decreases room(index, stack), 0nat, 0nat,
{
    expands(index, exceptions, message, stack) ==> named_fields(
        index,
        exceptions,
        message,
        stack.push(message),
        index[message].fields.len(),
    )
}

/// Whether the first `n` fields have no empty JSON key, nor do the types that
/// are reached from them.
pub open spec fn named_fields(
    index: IndexView,
    exceptions: ExceptionsView,
    message: Seq<char>,
    stack: Seq<Seq<char>>,
    n: nat,
) -> bool
    decreases room(index, stack), 2nat, n,
{
    n > 0 ==> named_fields(index, exceptions, message, stack, (n - 1) as nat) && named_field(
        index,
        exceptions,
        message,
        index[message].fields[n - 1],
        stack,
    )
}

/// Whether a field has no empty JSON key, nor do the types that are reached from
/// it.
pub open spec fn named_field(
    index: IndexView,
    exceptions: ExceptionsView,
    message: Seq<char>,
    field: FieldModel,
    stack: Seq<Seq<char>>,
) -> bool
    decreases room(index, stack), 1nat, 0nat,
{
    if exceptions.is_excluded(message, field.name) {
        true
    } else if exceptions.is_inline_embed(message, field.name) {
        holds_message(field) ==> named(index, exceptions, field.message_type, stack)
    } else {
        exceptions.json_key(message, field).len() > 0 && (holds_message(field) ==> match map_value(
            index,
            field.message_type,
        ) {
            Some(None) => true,
            Some(Some(value_type)) => named(index, exceptions, value_type, stack),
            None => named(index, exceptions, field.message_type, stack),
        })
    }
}

/// Whether the JSON members of a message type have distinct keys, and so in
/// every type that is reached from it.
pub open spec fn distinct(
    index: IndexView,
    exceptions: ExceptionsView,
    message: Seq<char>,
    stack: Seq<Seq<char>>,
) -> bool
    decreases room(index, stack), 0nat, 0nat,
{
    expands(index, exceptions, message, stack) ==> distinct_fields(
        index,
        exceptions,
        message,
        stack.push(message),
        index[message].fields.len(),
    )
}

/// Whether the first `n` fields give members with distinct keys, and so in every
/// type that is reached from them.
pub open spec fn distinct_fields(
    index: IndexView,
    exceptions: ExceptionsView,
    message: Seq<char>,
    stack: Seq<Seq<char>>,
    n: nat,
) -> bool
    decreases room(index, stack), 2nat, n,
{
    n > 0 ==> {
        let field = index[message].fields[n - 1];
        &&& distinct_fields(index, exceptions, message, stack, (n - 1) as nat)
        &&& distinct_field(index, exceptions, message, field, stack)
        &&& all_apart(
            members_of_fields(index, exceptions, message, stack, (n - 1) as nat),
            members_of_field(index, exceptions, message, field, stack),
        )
    }
}

/// Whether the types that are reached from a field have members with distinct
/// keys.
pub open spec fn distinct_field(
    index: IndexView,
    exceptions: ExceptionsView,
    message: Seq<char>,
    field: FieldModel,
    stack: Seq<Seq<char>>,
) -> bool
    decreases room(index, stack), 1nat, 0nat,
{
    if exceptions.is_excluded(message, field.name) || !holds_message(field) {
        true
    } else if exceptions.is_inline_embed(message, field.name) {
        distinct(index, exceptions, field.message_type, stack)
    } else {
        match map_value(index, field.message_type) {
            Some(None) => true,
            Some(Some(value_type)) => distinct(index, exceptions, value_type, stack),
            None => distinct(index, exceptions, field.message_type, stack),
        }
    }
}

/// What it is to lie below a key, character by character.
proof fn lemma_below(key: Seq<char>, other: Seq<char>)
    ensures
        below(key, other) <==> {
            &&& other.len() < key.len()
            &&& key[other.len() as int] == '.'
            &&& forall|i: int| 0 <= i < other.len() ==> #[trigger] key[i] == other[i]
        },
{
    reveal_strlit(".");
    let start = other + "."@;
    if below(key, other) {
        let head = key.subrange(0, start.len() as int);
        assert(start =~= head);
        assert(head[other.len() as int] == key[other.len() as int]);
        assert(start[other.len() as int] == '.');
        assert forall|i: int| 0 <= i < other.len() implies #[trigger] key[i] == other[i] by {
            assert(start[i] == head[i]);
        }
    }
    if other.len() < key.len() && key[other.len() as int] == '.' && (forall|i: int|
        0 <= i < other.len() ==> #[trigger] key[i] == other[i]) {
        assert(start =~= key.subrange(0, start.len() as int));
    }
}

/// What lies below a key that lies below another lies below that one too.
proof fn lemma_below_twice(a: Seq<char>, b: Seq<char>, c: Seq<char>)
    requires
        below(a, b),
        below(b, c),
    ensures
        below(a, c),
{
    lemma_below(a, b);
    lemma_below(b, c);
    lemma_below(a, c);
    assert(a[c.len() as int] == b[c.len() as int]);
    assert forall|i: int| 0 <= i < c.len() implies #[trigger] a[i] == c[i] by {
        assert(a[i] == b[i]);
    }
}

/// A key below a path lies below it.
proof fn lemma_path_is_below(path: Seq<char>, key: Seq<char>)
    requires
        path.len() > 0,
    ensures
        below(path_below(path, key), path),
{
    reveal_strlit(".");
    lemma_below(path_below(path, key), path);
}

/// Whether a key is a path or lies below it.
spec fn at_or_below(key: Seq<char>, path: Seq<char>) -> bool {
    key == path || below(key, path)
}

/// What is apart from a path is apart from all that lies below it.
proof fn lemma_apart_below(a: Seq<char>, path: Seq<char>, key: Seq<char>)
    requires
        apart(a, path),
        at_or_below(key, path),
    ensures
        apart(a, key),
        apart(key, a),
{
    if key != path {
        lemma_below(key, path);
        if below(a, key) {
            lemma_below_twice(a, key, path);
        }
        if below(key, a) {
            lemma_below(key, a);
            lemma_below(path, a);
            lemma_below(a, path);
            if a.len() < path.len() {
                assert(path[a.len() as int] == key[a.len() as int]);
                assert forall|i: int| 0 <= i < a.len() implies #[trigger] path[i] == a[i] by {
                    assert(key[i] == path[i]);
                }
            } else if a.len() == path.len() {
                assert forall|i: int| 0 <= i < a.len() implies path[i] == a[i] by {
                    assert(key[i] == path[i]);
                }
                assert(a =~= path);
            } else {
                assert(a[path.len() as int] == key[path.len() as int]);
                assert forall|i: int| 0 <= i < path.len() implies #[trigger] a[i] == path[i] by {
                    assert(key[i] == path[i]);
                }
            }
        }
    }
}

/// Keys that are apart are so below any path.
proof fn lemma_apart_under(parent: Seq<char>, a: Seq<char>, b: Seq<char>)
    requires
        apart(a, b),
    ensures
        apart(path_below(parent, a), path_below(parent, b)),
{
    if parent.len() > 0 {
        if below(path_below(parent, a), path_below(parent, b)) {
            lemma_below_under(parent, a, b);
        }
        if below(path_below(parent, b), path_below(parent, a)) {
            lemma_below_under(parent, b, a);
        }
        if path_below(parent, a) == path_below(parent, b) {
            lemma_tail(parent, a);
            lemma_tail(parent, b);
        }
    }
}

/// A key is what follows the path it was put below.
proof fn lemma_tail(parent: Seq<char>, key: Seq<char>)
    ensures
        (parent + "."@ + key).subrange(
            parent.len() as int + 1,
            (parent + "."@ + key).len() as int,
        ) == key,
        (parent + "."@ + key).len() == parent.len() + 1 + key.len(),
{
    reveal_strlit(".");
    let whole = parent + "."@ + key;
    assert(whole.subrange(parent.len() as int + 1, whole.len() as int) =~= key);
}

proof fn lemma_below_under(parent: Seq<char>, a: Seq<char>, b: Seq<char>)
    requires
        parent.len() > 0,
        below(path_below(parent, a), path_below(parent, b)),
    ensures
        below(a, b),
{
    reveal_strlit(".");
    let x = path_below(parent, a);
    let y = path_below(parent, b);
    let skip: int = parent.len() as int + 1;
    lemma_below(x, y);
    lemma_below(a, b);
    assert(x[y.len() as int] == a[b.len() as int]);
    assert forall|i: int| 0 <= i < b.len() implies #[trigger] a[i] == b[i] by {
        assert(x[skip + i] == y[skip + i]);
    }
}

/// Keys without a dot are apart where they differ.
pub proof fn law_plain_keys_are_apart(a: Seq<char>, b: Seq<char>)
    requires
        !a.contains('.'),
        !b.contains('.'),
    ensures
        apart(a, b) <==> a != b,
{
    lemma_below(a, b);
    lemma_below(b, a);
    if below(a, b) {
        assert(a.contains(a[b.len() as int]));
    }
    if below(b, a) {
        assert(b.contains(b[a.len() as int]));
    }
}

/// Whether no key of a set lies below another one.
pub open spec fn none_below(keys: Set<Seq<char>>) -> bool {
    forall|a: Seq<char>, b: Seq<char>|
        keys.contains(a) && keys.contains(b) ==> !#[trigger] below(a, b)
}

/// Whether all keys of a set are apart from the members at a path.
spec fn clear(keys: Set<Seq<char>>, parent: Seq<char>, names: Set<Seq<char>>) -> bool {
    forall|k: Seq<char>, m: Seq<char>|
        keys.contains(k) && names.contains(m) ==> #[trigger] apart(k, path_below(parent, m))
}

/// Whether a key is that of a member at a path, or lies below it.
spec fn under(key: Seq<char>, parent: Seq<char>, names: Set<Seq<char>>) -> bool {
    exists|m: Seq<char>| names.contains(m) && #[trigger] at_or_below(key, path_below(parent, m))
}

/// Whether all keys that were added are under the members at a path.
spec fn added_under(
    before: Set<Seq<char>>,
    after: Set<Seq<char>>,
    parent: Seq<char>,
    names: Set<Seq<char>>,
) -> bool {
    forall|k: Seq<char>| #[trigger] after.contains(k) ==> before.contains(k) || under(
        k,
        parent,
        names,
    )
}

/// Putting a key into a set whose keys are all apart from it.
proof fn lemma_none_below_insert(keys: Set<Seq<char>>, key: Seq<char>)
    requires
        none_below(keys),
        forall|k: Seq<char>| #[trigger] keys.contains(k) ==> apart(k, key),
    ensures
        none_below(keys.insert(key)),
{
    lemma_below(key, key);
    assert forall|a: Seq<char>, b: Seq<char>|
        keys.insert(key).contains(a) && keys.insert(key).contains(b) implies !#[trigger] below(
        a,
        b,
    ) by {
        if keys.contains(a) {
            assert(apart(a, key));
        }
        if keys.contains(b) {
            assert(apart(b, key));
        }
    }
}

/// A walk keeps a set free of keys below others.
proof fn lemma_walk_none_below(
    index: IndexView,
    exceptions: ExceptionsView,
    message: Seq<char>,
    parent: Seq<char>,
    keys: Set<Seq<char>>,
    stack: Seq<Seq<char>>,
)
    requires
        named(index, exceptions, message, stack),
        distinct(index, exceptions, message, stack),
        none_below(keys),
        clear(keys, parent, members(index, exceptions, message, stack)),
        walked(index, exceptions, message, parent, keys, stack) is Some,
    ensures
        none_below(walked(index, exceptions, message, parent, keys, stack)->0),
        added_under(
            keys,
            walked(index, exceptions, message, parent, keys, stack)->0,
            parent,
            members(index, exceptions, message, stack),
        ),
    decreases room(index, stack), 0nat, 0nat,
{
    if expands(index, exceptions, message, stack) {
        lemma_fields_none_below(
            index,
            exceptions,
            message,
            parent,
            keys,
            stack.push(message),
            index[message].fields.len(),
        );
    }
}

/// Keys that were added under some members are clear of others.
proof fn lemma_added_are_clear(
    keys: Set<Seq<char>>,
    after: Set<Seq<char>>,
    parent: Seq<char>,
    first: Set<Seq<char>>,
    next: Set<Seq<char>>,
)
    requires
        added_under(keys, after, parent, first),
        clear(keys, parent, first.union(next)),
        all_apart(first, next),
    ensures
        clear(after, parent, next),
{
    assert forall|k: Seq<char>, m: Seq<char>|
        after.contains(k) && next.contains(m) implies #[trigger] apart(
        k,
        path_below(parent, m),
    ) by {
        assert(first.union(next).contains(m));
        if !keys.contains(k) {
            let h = choose|h: Seq<char>|
                first.contains(h) && #[trigger] at_or_below(k, path_below(parent, h));
            assert(apart(h, m));
            lemma_apart_under(parent, h, m);
            lemma_apart_below(path_below(parent, m), path_below(parent, h), k);
        }
    }
}

proof fn lemma_fields_none_below(
    index: IndexView,
    exceptions: ExceptionsView,
    message: Seq<char>,
    parent: Seq<char>,
    keys: Set<Seq<char>>,
    stack: Seq<Seq<char>>,
    n: nat,
)
    requires
        named_fields(index, exceptions, message, stack, n),
        distinct_fields(index, exceptions, message, stack, n),
        none_below(keys),
        clear(keys, parent, members_of_fields(index, exceptions, message, stack, n)),
        walked_fields(index, exceptions, message, parent, keys, stack, n) is Some,
    ensures
        none_below(walked_fields(index, exceptions, message, parent, keys, stack, n)->0),
        added_under(
            keys,
            walked_fields(index, exceptions, message, parent, keys, stack, n)->0,
            parent,
            members_of_fields(index, exceptions, message, stack, n),
        ),
    decreases room(index, stack), 2nat, n,
{
    if n > 0 {
        let front = (n - 1) as nat;
        let field = index[message].fields[n - 1];
        let first = members_of_fields(index, exceptions, message, stack, front);
        let next = members_of_field(index, exceptions, message, field, stack);
        let both = members_of_fields(index, exceptions, message, stack, n);
        assert(both == first.union(next));
        lemma_more_fields_keep_keys(index, exceptions, message, parent, keys, stack, front, n);
        assert(clear(keys, parent, first)) by {
            assert forall|k: Seq<char>, m: Seq<char>|
                keys.contains(k) && first.contains(m) implies #[trigger] apart(
                k,
                path_below(parent, m),
            ) by {
                assert(both.contains(m));
            }
        }
        lemma_fields_none_below(index, exceptions, message, parent, keys, stack, front);
        let before = walked_fields(index, exceptions, message, parent, keys, stack, front)->0;
        lemma_walked_step(index, exceptions, message, parent, keys, stack, n, before);
        lemma_added_are_clear(keys, before, parent, first, next);
        lemma_field_none_below(index, exceptions, message, field, parent, before, stack);
        let after = walked_fields(index, exceptions, message, parent, keys, stack, n)->0;
        assert forall|k: Seq<char>| #[trigger] after.contains(k) implies keys.contains(k) || under(
            k,
            parent,
            both,
        ) by {
            if before.contains(k) {
                if !keys.contains(k) {
                    let h = choose|h: Seq<char>|
                        first.contains(h) && #[trigger] at_or_below(k, path_below(parent, h));
                    assert(both.contains(h));
                }
            } else {
                let h = choose|h: Seq<char>|
                    next.contains(h) && #[trigger] at_or_below(k, path_below(parent, h));
                assert(both.contains(h));
            }
        }
    }
}

proof fn lemma_field_none_below(
    index: IndexView,
    exceptions: ExceptionsView,
    message: Seq<char>,
    field: FieldModel,
    parent: Seq<char>,
    before: Set<Seq<char>>,
    stack: Seq<Seq<char>>,
)
    requires
        named_field(index, exceptions, message, field, stack),
        distinct_field(index, exceptions, message, field, stack),
        none_below(before),
        clear(before, parent, members_of_field(index, exceptions, message, field, stack)),
        walked_field(index, exceptions, message, field, parent, before, stack) is Some,
    ensures
        none_below(walked_field(index, exceptions, message, field, parent, before, stack)->0),
        added_under(
            before,
            walked_field(index, exceptions, message, field, parent, before, stack)->0,
            parent,
            members_of_field(index, exceptions, message, field, stack),
        ),
    decreases room(index, stack), 1nat, 1nat,
{
    let name = exceptions.json_key(message, field);
    let path = path_below(parent, name);
    let entry_path = path + ".__sentinel__"@;
    if exceptions.is_excluded(message, field.name) {
    } else if exceptions.is_inline_embed(message, field.name) {
        if holds_message(field) {
            lemma_walk_none_below(
                index,
                exceptions,
                field.message_type,
                parent,
                before,
                stack,
            );
        }
    } else {
        let names = members_of_field(index, exceptions, message, field, stack);
        assert(names.contains(name));
        assert(path.len() > 0) by {
            reveal_strlit(".");
        }
        lemma_entry_path(path);
        lemma_path_is_below(path, "__sentinel__"@);
        assert forall|k: Seq<char>| #[trigger] before.contains(k) implies apart(k, path) && apart(
            k,
            entry_path,
        ) by {
            assert(apart(k, path_below(parent, name)));
            lemma_apart_below(k, path, entry_path);
        }
        assert forall|k: Seq<char>| at_or_below(k, path) implies #[trigger] under(
            k,
            parent,
            names,
        ) by {
            assert(at_or_below(k, path_below(parent, name)));
        }
        lemma_none_below_insert(before, path);
        lemma_none_below_insert(before, entry_path);
        if holds_message(field) {
            match map_value(index, field.message_type) {
                Some(None) => {},
                Some(Some(value_type)) => {
                    lemma_nested_none_below(
                        index,
                        exceptions,
                        value_type,
                        entry_path,
                        before,
                        stack,
                    );
                    let after = walked(
                        index,
                        exceptions,
                        value_type,
                        entry_path,
                        before,
                        stack,
                    )->0;
                    assert forall|k: Seq<char>| #[trigger]
                        after.contains(k) implies before.contains(k) || under(
                        k,
                        parent,
                        names,
                    ) by {
                        if !before.contains(k) {
                            lemma_below_twice(k, entry_path, path);
                        }
                    }
                },
                None => {
                    lemma_nested_none_below(
                        index,
                        exceptions,
                        field.message_type,
                        path,
                        before,
                        stack,
                    );
                },
            }
        }
    }
}

/// A walk at a path that all keys are apart from.
proof fn lemma_nested_none_below(
    index: IndexView,
    exceptions: ExceptionsView,
    message: Seq<char>,
    path: Seq<char>,
    before: Set<Seq<char>>,
    stack: Seq<Seq<char>>,
)
    requires
        path.len() > 0,
        named(index, exceptions, message, stack),
        distinct(index, exceptions, message, stack),
        none_below(before),
        forall|k: Seq<char>| #[trigger] before.contains(k) ==> apart(k, path),
        walked(index, exceptions, message, path, before, stack) is Some,
    ensures
        none_below(walked(index, exceptions, message, path, before, stack)->0),
        forall|k: Seq<char>| #[trigger]
            walked(index, exceptions, message, path, before, stack)->0.contains(k)
                ==> before.contains(k) || below(k, path),
    decreases room(index, stack), 1nat, 0nat,
{
    let names = members(index, exceptions, message, stack);
    assert forall|k: Seq<char>, m: Seq<char>|
        before.contains(k) && names.contains(m) implies #[trigger] apart(
        k,
        path_below(path, m),
    ) by {
        lemma_path_is_below(path, m);
        lemma_apart_below(k, path, path_below(path, m));
    }
    lemma_walk_none_below(index, exceptions, message, path, before, stack);
    let after = walked(index, exceptions, message, path, before, stack)->0;
    assert forall|k: Seq<char>| #[trigger] after.contains(k) implies before.contains(k) || below(
        k,
        path,
    ) by {
        if !before.contains(k) {
            let m = choose|m: Seq<char>|
                names.contains(m) && #[trigger] at_or_below(k, path_below(path, m));
            lemma_path_is_below(path, m);
            if k != path_below(path, m) {
                lemma_below_twice(k, path_below(path, m), path);
            }
        }
    }
}

/// Where every type that is reached has distinct keys, no key lies below another:
/// the path of a message field is a key only where nothing below it is.
pub proof fn law_no_key_lies_below_another(
    index: IndexView,
    exceptions: ExceptionsView,
    root: Seq<char>,
    a: Seq<char>,
    b: Seq<char>,
)
    requires
        named(index, exceptions, root, Seq::empty()),
        distinct(index, exceptions, root, Seq::empty()),
        json_keys(index, exceptions, root) is Some,
        json_keys(index, exceptions, root)->0.contains(a),
        json_keys(index, exceptions, root)->0.contains(b),
    ensures
        !below(a, b),
{
    lemma_walk_none_below(
        index,
        exceptions,
        root,
        Seq::empty(),
        Set::empty(),
        Seq::empty(),
    );
}

/// Where all keys are apart from its members, a walk adds what it adds alone.
proof fn lemma_walk_alone(
    index: IndexView,
    exceptions: ExceptionsView,
    message: Seq<char>,
    parent: Seq<char>,
    keys: Set<Seq<char>>,
    stack: Seq<Seq<char>>,
)
    requires
        named(index, exceptions, message, stack),
        distinct(index, exceptions, message, stack),
        none_below(keys),
        clear(keys, parent, members(index, exceptions, message, stack)),
        walked(index, exceptions, message, parent, keys, stack) is Some,
    ensures
        walked(index, exceptions, message, parent, Set::empty(), stack) is Some,
        walked(index, exceptions, message, parent, keys, stack)->0 == keys.union(
            walked(index, exceptions, message, parent, Set::empty(), stack)->0,
        ),
    decreases room(index, stack), 0nat, 0nat,
{
    if expands(index, exceptions, message, stack) {
        lemma_fields_alone(
            index,
            exceptions,
            message,
            parent,
            keys,
            stack.push(message),
            index[message].fields.len(),
        );
    } else {
        assert(keys.union(Set::empty()) =~= keys);
    }
}

proof fn lemma_fields_alone(
    index: IndexView,
    exceptions: ExceptionsView,
    message: Seq<char>,
    parent: Seq<char>,
    keys: Set<Seq<char>>,
    stack: Seq<Seq<char>>,
    n: nat,
)
    requires
        named_fields(index, exceptions, message, stack, n),
        distinct_fields(index, exceptions, message, stack, n),
        none_below(keys),
        clear(keys, parent, members_of_fields(index, exceptions, message, stack, n)),
        walked_fields(index, exceptions, message, parent, keys, stack, n) is Some,
    ensures
        walked_fields(index, exceptions, message, parent, Set::empty(), stack, n) is Some,
        walked_fields(index, exceptions, message, parent, keys, stack, n)->0 == keys.union(
            walked_fields(index, exceptions, message, parent, Set::empty(), stack, n)->0,
        ),
    decreases room(index, stack), 2nat, n,
{
    let none = Set::<Seq<char>>::empty();
    if n == 0 {
        assert(keys.union(none) =~= keys);
    } else {
        let front = (n - 1) as nat;
        let field = index[message].fields[n - 1];
        lemma_fields_resolved(index, exceptions, message, parent, keys, stack, n);
        lemma_fields_resolved(index, exceptions, message, parent, none, stack, n);
        lemma_field_is_clear(index, exceptions, message, parent, keys, stack, n);
        lemma_field_is_clear(index, exceptions, message, parent, none, stack, n);
        lemma_fields_alone(index, exceptions, message, parent, keys, stack, front);
        let before = walked_fields(index, exceptions, message, parent, keys, stack, front)->0;
        let first = walked_fields(index, exceptions, message, parent, none, stack, front)->0;
        lemma_walked_step(index, exceptions, message, parent, keys, stack, n, before);
        lemma_walked_step(index, exceptions, message, parent, none, stack, n, first);
        lemma_field_alone(index, exceptions, message, field, parent, before, stack);
        lemma_field_alone(index, exceptions, message, field, parent, first, stack);
        let own = walked_field(index, exceptions, message, field, parent, none, stack)->0;
        assert(before.union(own) =~= keys.union(first.union(own)));
    }
}

/// What was walked before a field is clear of it.
proof fn lemma_field_is_clear(
    index: IndexView,
    exceptions: ExceptionsView,
    message: Seq<char>,
    parent: Seq<char>,
    keys: Set<Seq<char>>,
    stack: Seq<Seq<char>>,
    n: nat,
)
    requires
        n > 0,
        named_fields(index, exceptions, message, stack, n),
        distinct_fields(index, exceptions, message, stack, n),
        none_below(keys),
        clear(keys, parent, members_of_fields(index, exceptions, message, stack, n)),
        walked_fields(index, exceptions, message, parent, keys, stack, n) is Some,
    ensures
        clear(
            keys,
            parent,
            members_of_fields(index, exceptions, message, stack, (n - 1) as nat),
        ),
        walked_fields(index, exceptions, message, parent, keys, stack, (n - 1) as nat) is Some,
        none_below(
            walked_fields(index, exceptions, message, parent, keys, stack, (n - 1) as nat)->0,
        ),
        clear(
            walked_fields(index, exceptions, message, parent, keys, stack, (n - 1) as nat)->0,
            parent,
            members_of_field(
                index,
                exceptions,
                message,
                index[message].fields[n - 1],
                stack,
            ),
        ),
{
    let front = (n - 1) as nat;
    let field = index[message].fields[n - 1];
    let first = members_of_fields(index, exceptions, message, stack, front);
    let next = members_of_field(index, exceptions, message, field, stack);
    let both = members_of_fields(index, exceptions, message, stack, n);
    assert(both == first.union(next));
    lemma_more_fields_keep_keys(index, exceptions, message, parent, keys, stack, front, n);
    assert forall|k: Seq<char>, m: Seq<char>|
        keys.contains(k) && first.contains(m) implies #[trigger] apart(
        k,
        path_below(parent, m),
    ) by {
        assert(both.contains(m));
    }
    lemma_fields_none_below(index, exceptions, message, parent, keys, stack, front);
    let before = walked_fields(index, exceptions, message, parent, keys, stack, front)->0;
    lemma_added_are_clear(keys, before, parent, first, next);
}

proof fn lemma_field_alone(
    index: IndexView,
    exceptions: ExceptionsView,
    message: Seq<char>,
    field: FieldModel,
    parent: Seq<char>,
    before: Set<Seq<char>>,
    stack: Seq<Seq<char>>,
)
    requires
        named_field(index, exceptions, message, field, stack),
        distinct_field(index, exceptions, message, field, stack),
        none_below(before),
        clear(before, parent, members_of_field(index, exceptions, message, field, stack)),
        walked_field(index, exceptions, message, field, parent, before, stack) is Some,
    ensures
        walked_field(index, exceptions, message, field, parent, Set::empty(), stack) is Some,
        walked_field(index, exceptions, message, field, parent, before, stack)->0 == before.union(
            walked_field(index, exceptions, message, field, parent, Set::empty(), stack)->0,
        ),
    decreases room(index, stack), 1nat, 1nat,
{
    let none = Set::<Seq<char>>::empty();
    let name = exceptions.json_key(message, field);
    let path = path_below(parent, name);
    let entry_path = path + ".__sentinel__"@;
    assert(before.union(none) =~= before);
    assert(before.insert(path) =~= before.union(none.insert(path)));
    assert(before.insert(entry_path) =~= before.union(none.insert(entry_path)));
    if exceptions.is_excluded(message, field.name) {
    } else if exceptions.is_inline_embed(message, field.name) {
        if holds_message(field) {
            lemma_walk_alone(index, exceptions, field.message_type, parent, before, stack);
        }
    } else if holds_message(field) {
        let names = members_of_field(index, exceptions, message, field, stack);
        assert(names.contains(name));
        assert(path.len() > 0) by {
            reveal_strlit(".");
        }
        lemma_entry_path(path);
        lemma_path_is_below(path, "__sentinel__"@);
        assert forall|k: Seq<char>| #[trigger] before.contains(k) implies apart(k, path) && apart(
            k,
            entry_path,
        ) by {
            assert(apart(k, path_below(parent, name)));
            lemma_apart_below(k, path, entry_path);
        }
        match map_value(index, field.message_type) {
            Some(None) => {},
            Some(Some(value_type)) => {
                lemma_nested_alone(index, exceptions, value_type, entry_path, before, stack);
            },
            None => {
                lemma_nested_alone(
                    index,
                    exceptions,
                    field.message_type,
                    path,
                    before,
                    stack,
                );
            },
        }
    }
}

/// A walk at a path that all keys are apart from adds what it adds alone.
proof fn lemma_nested_alone(
    index: IndexView,
    exceptions: ExceptionsView,
    message: Seq<char>,
    path: Seq<char>,
    before: Set<Seq<char>>,
    stack: Seq<Seq<char>>,
)
    requires
        path.len() > 0,
        named(index, exceptions, message, stack),
        distinct(index, exceptions, message, stack),
        none_below(before),
        forall|k: Seq<char>| #[trigger] before.contains(k) ==> apart(k, path),
        walked(index, exceptions, message, path, before, stack) is Some,
    ensures
        walked(index, exceptions, message, path, Set::empty(), stack) is Some,
        or_itself(
            before,
            walked(index, exceptions, message, path, before, stack),
            path,
        )->0 == before.union(
            or_itself(
                Set::empty(),
                walked(index, exceptions, message, path, Set::empty(), stack),
                path,
            )->0,
        ),
    decreases room(index, stack), 1nat, 0nat,
{
    let none = Set::<Seq<char>>::empty();
    let names = members(index, exceptions, message, stack);
    assert forall|k: Seq<char>, m: Seq<char>|
        before.contains(k) && names.contains(m) implies #[trigger] apart(
        k,
        path_below(path, m),
    ) by {
        lemma_path_is_below(path, m);
        lemma_apart_below(k, path, path_below(path, m));
    }
    lemma_walk_alone(index, exceptions, message, path, before, stack);
    lemma_nested_none_below(index, exceptions, message, path, none, stack);
    let own = walked(index, exceptions, message, path, none, stack)->0;
    let after = walked(index, exceptions, message, path, before, stack)->0;
    if own == none {
        assert(after =~= before);
        assert(before.insert(path) =~= before.union(none.insert(path)));
    } else {
        assert(exists|k: Seq<char>| own.contains(k)) by {
            if forall|k: Seq<char>| !own.contains(k) {
                assert(own =~= none);
            }
        }
        let k = choose|k: Seq<char>| own.contains(k);
        assert(below(k, path));
        assert(!before.contains(k));
        assert(after.contains(k));
    }
}

/// Where every type that is reached has distinct keys, the keys of a message
/// type are those that its fields have on their own: all of them, and no others.
pub proof fn law_keys_are_those_of_the_fields(
    index: IndexView,
    exceptions: ExceptionsView,
    message: Seq<char>,
    parent: Seq<char>,
    stack: Seq<Seq<char>>,
    key: Seq<char>,
)
    requires
        expands(index, exceptions, message, stack),
        named(index, exceptions, message, stack),
        distinct(index, exceptions, message, stack),
        walked(index, exceptions, message, parent, Set::empty(), stack) is Some,
    ensures
        walked(index, exceptions, message, parent, Set::empty(), stack)->0.contains(key)
            <==> exists|j: int|
            0 <= j < index[message].fields.len() && field_has_key(
                index,
                exceptions,
                message,
                #[trigger] index[message].fields[j],
                parent,
                stack.push(message),
                key,
            ),
{
    lemma_keys_of_first_fields(
        index,
        exceptions,
        message,
        parent,
        stack.push(message),
        index[message].fields.len(),
        key,
    );
}

/// Whether a field has a key on its own.
pub open spec fn field_has_key(
    index: IndexView,
    exceptions: ExceptionsView,
    message: Seq<char>,
    field: FieldModel,
    parent: Seq<char>,
    stack: Seq<Seq<char>>,
    key: Seq<char>,
) -> bool {
    walked_field(index, exceptions, message, field, parent, Set::empty(), stack) matches Some(keys)
        && keys.contains(key)
}

proof fn lemma_keys_of_first_fields(
    index: IndexView,
    exceptions: ExceptionsView,
    message: Seq<char>,
    parent: Seq<char>,
    stack: Seq<Seq<char>>,
    n: nat,
    key: Seq<char>,
)
    requires
        named_fields(index, exceptions, message, stack, n),
        distinct_fields(index, exceptions, message, stack, n),
        walked_fields(index, exceptions, message, parent, Set::empty(), stack, n) is Some,
    ensures
        walked_fields(index, exceptions, message, parent, Set::empty(), stack, n)->0.contains(key)
            <==> exists|j: int|
            0 <= j < n && field_has_key(
                index,
                exceptions,
                message,
                #[trigger] index[message].fields[j],
                parent,
                stack,
                key,
            ),
    decreases n,
{
    if n > 0 {
        let none = Set::<Seq<char>>::empty();
        let front = (n - 1) as nat;
        let field = index[message].fields[n - 1];
        lemma_field_is_clear(index, exceptions, message, parent, none, stack, n);
        let before = walked_fields(index, exceptions, message, parent, none, stack, front)->0;
        lemma_walked_step(index, exceptions, message, parent, none, stack, n, before);
        lemma_field_alone(index, exceptions, message, field, parent, before, stack);
        lemma_keys_of_first_fields(index, exceptions, message, parent, stack, front, key);
        if field_has_key(index, exceptions, message, field, parent, stack, key) {
            assert(field_has_key(
                index,
                exceptions,
                message,
                index[message].fields[n - 1],
                parent,
                stack,
                key,
            ));
        }
    }
}

/// The keys of a set, each below a path.
pub open spec fn rebased(path: Seq<char>, keys: Set<Seq<char>>) -> Set<Seq<char>> {
    Set::new(
        |k: Seq<char>|
            below(k, path) && keys.contains(k.subrange(path.len() as int + 1, k.len() as int)),
    )
}

/// A key is in a set exactly where it is, below the path, in the rebased one.
pub proof fn law_rebased_keys(path: Seq<char>, keys: Set<Seq<char>>, key: Seq<char>)
    ensures
        rebased(path, keys).contains(path + "."@ + key) <==> keys.contains(key),
{
    reveal_strlit(".");
    lemma_tail(path, key);
    lemma_below(path + "."@ + key, path);
}

proof fn lemma_rebased_insert(path: Seq<char>, keys: Set<Seq<char>>, key: Seq<char>)
    ensures
        rebased(path, keys.insert(key)) == rebased(path, keys).insert(path + "."@ + key),
{
    reveal_strlit(".");
    let whole = path + "."@ + key;
    law_rebased_keys(path, keys.insert(key), key);
    assert forall|k: Seq<char>| rebased(path, keys.insert(key)).contains(k) implies rebased(
        path,
        keys,
    ).insert(whole).contains(k) by {
        lemma_below(k, path);
        let tail = k.subrange(path.len() as int + 1, k.len() as int);
        if tail == key {
            assert(k =~= whole) by {
                assert forall|i: int| 0 <= i < k.len() implies k[i] == whole[i] by {
                    if i > path.len() {
                        assert(tail[i - path.len() - 1] == k[i]);
                    }
                }
            }
        }
    }
    assert(rebased(path, keys.insert(key)) =~= rebased(path, keys).insert(whole));
}

proof fn lemma_rebased_same(path: Seq<char>, a: Set<Seq<char>>, b: Set<Seq<char>>)
    ensures
        rebased(path, a) == rebased(path, b) <==> a == b,
{
    if rebased(path, a) == rebased(path, b) {
        assert forall|k: Seq<char>| a.contains(k) <==> b.contains(k) by {
            law_rebased_keys(path, a, k);
            law_rebased_keys(path, b, k);
        }
        assert(a =~= b);
    }
}

/// A path moved below another; that one itself at the root.
spec fn moved(path: Seq<char>, parent: Seq<char>) -> Seq<char> {
    if parent.len() == 0 {
        path
    } else {
        path + "."@ + parent
    }
}

proof fn lemma_moved(path: Seq<char>, parent: Seq<char>, key: Seq<char>)
    requires
        path.len() > 0,
        key.len() > 0,
    ensures
        path_below(moved(path, parent), key) == moved(path, path_below(parent, key)),
        path_below(parent, key).len() > 0,
        moved(path, path_below(parent, key)) == path + "."@ + path_below(parent, key),
{
    reveal_strlit(".");
    assert(path_below(moved(path, parent), key) =~= path + "."@ + path_below(parent, key));
}

proof fn lemma_walk_moved(
    index: IndexView,
    exceptions: ExceptionsView,
    message: Seq<char>,
    path: Seq<char>,
    parent: Seq<char>,
    keys: Set<Seq<char>>,
    stack: Seq<Seq<char>>,
)
    requires
        path.len() > 0,
        named(index, exceptions, message, stack),
        walked(index, exceptions, message, parent, keys, stack) is Some,
    ensures
        walked(
            index,
            exceptions,
            message,
            moved(path, parent),
            rebased(path, keys),
            stack,
        ) == Some(rebased(path, walked(index, exceptions, message, parent, keys, stack)->0)),
    decreases room(index, stack), 0nat, 0nat,
{
    if expands(index, exceptions, message, stack) {
        lemma_fields_moved(
            index,
            exceptions,
            message,
            path,
            parent,
            keys,
            stack.push(message),
            index[message].fields.len(),
        );
    }
}

proof fn lemma_fields_moved(
    index: IndexView,
    exceptions: ExceptionsView,
    message: Seq<char>,
    path: Seq<char>,
    parent: Seq<char>,
    keys: Set<Seq<char>>,
    stack: Seq<Seq<char>>,
    n: nat,
)
    requires
        path.len() > 0,
        named_fields(index, exceptions, message, stack, n),
        walked_fields(index, exceptions, message, parent, keys, stack, n) is Some,
    ensures
        walked_fields(
            index,
            exceptions,
            message,
            moved(path, parent),
            rebased(path, keys),
            stack,
            n,
        ) == Some(
            rebased(path, walked_fields(index, exceptions, message, parent, keys, stack, n)->0),
        ),
    decreases room(index, stack), 2nat, n,
{
    if n > 0 {
        let front = (n - 1) as nat;
        let field = index[message].fields[n - 1];
        let base = moved(path, parent);
        let start = rebased(path, keys);
        lemma_more_fields_keep_keys(index, exceptions, message, parent, keys, stack, front, n);
        let before = walked_fields(index, exceptions, message, parent, keys, stack, front)->0;
        lemma_fields_moved(index, exceptions, message, path, parent, keys, stack, front);
        lemma_walked_step(index, exceptions, message, parent, keys, stack, n, before);
        lemma_walked_step(
            index,
            exceptions,
            message,
            base,
            start,
            stack,
            n,
            rebased(path, before),
        );
        lemma_field_moved(index, exceptions, message, field, path, parent, before, stack);
    }
}

proof fn lemma_field_moved(
    index: IndexView,
    exceptions: ExceptionsView,
    message: Seq<char>,
    field: FieldModel,
    path: Seq<char>,
    parent: Seq<char>,
    before: Set<Seq<char>>,
    stack: Seq<Seq<char>>,
)
    requires
        path.len() > 0,
        named_field(index, exceptions, message, field, stack),
        walked_field(index, exceptions, message, field, parent, before, stack) is Some,
    ensures
        walked_field(
            index,
            exceptions,
            message,
            field,
            moved(path, parent),
            rebased(path, before),
            stack,
        ) == Some(
            rebased(
                path,
                walked_field(index, exceptions, message, field, parent, before, stack)->0,
            ),
        ),
    decreases room(index, stack), 1nat, 0nat,
{
    let name = exceptions.json_key(message, field);
    let at = path_below(parent, name);
    let entry = at + ".__sentinel__"@;
    if exceptions.is_excluded(message, field.name) {
    } else if exceptions.is_inline_embed(message, field.name) {
        if holds_message(field) {
            lemma_walk_moved(
                index,
                exceptions,
                field.message_type,
                path,
                parent,
                before,
                stack,
            );
        }
    } else {
        lemma_moved(path, parent, name);
        assert(path + "."@ + at + ".__sentinel__"@ =~= path + "."@ + entry);
        assert(moved(path, entry) == path + "."@ + entry);
        lemma_rebased_insert(path, before, at);
        lemma_rebased_insert(path, before, entry);
        if holds_message(field) {
            match map_value(index, field.message_type) {
                Some(None) => {},
                Some(Some(value_type)) => {
                    lemma_walk_moved(
                        index,
                        exceptions,
                        value_type,
                        path,
                        entry,
                        before,
                        stack,
                    );
                    lemma_rebased_same(
                        path,
                        walked(index, exceptions, value_type, entry, before, stack)->0,
                        before,
                    );
                },
                None => {
                    let inner = field.message_type;
                    lemma_walk_moved(index, exceptions, inner, path, at, before, stack);
                    lemma_rebased_same(
                        path,
                        walked(index, exceptions, inner, at, before, stack)->0,
                        before,
                    );
                },
            }
        }
    }
}

/// A message type has the same keys wherever it stands, each below the path.
pub proof fn law_keys_do_not_depend_on_the_path(
    index: IndexView,
    exceptions: ExceptionsView,
    message: Seq<char>,
    path: Seq<char>,
    stack: Seq<Seq<char>>,
)
    requires
        path.len() > 0,
        named(index, exceptions, message, stack),
        walked(index, exceptions, message, Seq::empty(), Set::empty(), stack) is Some,
    ensures
        walked(index, exceptions, message, path, Set::empty(), stack) == Some(
            rebased(
                path,
                walked(index, exceptions, message, Seq::empty(), Set::empty(), stack)->0,
            ),
        ),
{
    lemma_walk_moved(
        index,
        exceptions,
        message,
        path,
        Seq::empty(),
        Set::empty(),
        stack,
    );
    assert(rebased(path, Set::empty()) =~= Set::empty());
}

/// Two message fields of one type are both followed: each has every key of the
/// type, below its own path.
pub proof fn law_fields_of_one_type_have_the_same_keys(
    index: IndexView,
    exceptions: ExceptionsView,
    root: Seq<char>,
    i: int,
    j: int,
    key: Seq<char>,
)
    requires
        index.dom().finite(),
        index.contains_key(root),
        !index[root].map_entry,
        !exceptions.is_opaque(root),
        named(index, exceptions, root, Seq::empty()),
        json_keys(index, exceptions, root) is Some,
        0 <= i < index[root].fields.len(),
        0 <= j < index[root].fields.len(),
        nests(index, exceptions, root, index[root].fields[i]),
        nests(index, exceptions, root, index[root].fields[j]),
        index[root].fields[i].message_type == index[root].fields[j].message_type,
        walked(
            index,
            exceptions,
            index[root].fields[i].message_type,
            Seq::empty(),
            Set::empty(),
            seq![root],
        ) matches Some(keys) && keys.contains(key),
    ensures
        ({
            let keys = json_keys(index, exceptions, root)->0;
            &&& keys.contains(
                exceptions.json_key(root, index[root].fields[i]) + "."@ + key,
            )
            &&& keys.contains(exceptions.json_key(root, index[root].fields[j]) + "."@ + key)
        }),
{
    lemma_field_has_keys_of_its_type(index, exceptions, root, i, key);
    lemma_field_has_keys_of_its_type(index, exceptions, root, j, key);
}

proof fn lemma_field_has_keys_of_its_type(
    index: IndexView,
    exceptions: ExceptionsView,
    root: Seq<char>,
    j: int,
    key: Seq<char>,
)
    requires
        index.dom().finite(),
        index.contains_key(root),
        !index[root].map_entry,
        !exceptions.is_opaque(root),
        named(index, exceptions, root, Seq::empty()),
        json_keys(index, exceptions, root) is Some,
        0 <= j < index[root].fields.len(),
        nests(index, exceptions, root, index[root].fields[j]),
        walked(
            index,
            exceptions,
            index[root].fields[j].message_type,
            Seq::empty(),
            Set::empty(),
            seq![root],
        ) matches Some(keys) && keys.contains(key),
    ensures
        json_keys(index, exceptions, root)->0.contains(
            exceptions.json_key(root, index[root].fields[j]) + "."@ + key,
        ),
{
    let stack = Seq::<Seq<char>>::empty();
    let none = Set::<Seq<char>>::empty();
    let own = stack.push(root);
    let field = index[root].fields[j];
    let path = exceptions.json_key(root, field);
    assert(own =~= seq![root]);
    lemma_stack_has_room(index, stack, root);
    lemma_named_at(index, exceptions, root, own, index[root].fields.len(), j);
    law_message_fields_expand(index, exceptions, root, Seq::empty(), none, stack, j);
    law_keys_do_not_depend_on_the_path(index, exceptions, field.message_type, path, own);
    law_rebased_keys(
        path,
        walked(index, exceptions, field.message_type, Seq::empty(), none, own)->0,
        key,
    );
}

/// Where no field has an empty key, each one has none.
proof fn lemma_named_at(
    index: IndexView,
    exceptions: ExceptionsView,
    message: Seq<char>,
    stack: Seq<Seq<char>>,
    n: nat,
    j: int,
)
    requires
        0 <= j < n,
        named_fields(index, exceptions, message, stack, n),
    ensures
        named_field(index, exceptions, message, index[message].fields[j], stack),
    decreases n,
{
    if j < n - 1 {
        lemma_named_at(index, exceptions, message, stack, (n - 1) as nat, j);
    }
}

/// The keys that a field has on its own: none where it is left out; those of its
/// type at the same path where it is an inline embed; its own path where it is a
/// scalar; the keys of its type below its path, or the path where there are none,
/// where it is a message; and for a map the same below the one entry that stands
/// for all.
pub proof fn law_keys_of_a_field(
    index: IndexView,
    exceptions: ExceptionsView,
    message: Seq<char>,
    field: FieldModel,
    parent: Seq<char>,
    stack: Seq<Seq<char>>,
    keys: Set<Seq<char>>,
)
    requires
        walked_field(index, exceptions, message, field, parent, Set::empty(), stack) == Some(keys),
    ensures
        ({
            let name = exceptions.json_key(message, field);
            let path = if parent.len() == 0 {
                name
            } else {
                parent + "."@ + name
            };
            let entry = path + ".__sentinel__"@;
            let inner = field.message_type;
            let embeds = field.kind == 11 || field.kind == 10;
            let none = Set::<Seq<char>>::empty();
            let nested = walked(index, exceptions, inner, path, none, stack);
            if exceptions.is_excluded(message, field.name) {
                keys == none
            } else if exceptions.is_inline_embed(message, field.name) {
                if embeds {
                    walked(index, exceptions, inner, parent, none, stack) == Some(keys)
                } else {
                    keys == none
                }
            } else if !embeds {
                keys == none.insert(path)
            } else if map_value(index, inner) is None {
                &&& nested is Some
                &&& keys == if nested->0 == none {
                    none.insert(path)
                } else {
                    nested->0
                }
            } else if map_value(index, inner)->0 is None {
                keys == none.insert(entry)
            } else {
                let below_entry = walked(
                    index,
                    exceptions,
                    map_value(index, inner)->0->0,
                    entry,
                    none,
                    stack,
                );
                &&& below_entry is Some
                &&& keys == if below_entry->0 == none {
                    none.insert(entry)
                } else {
                    below_entry->0
                }
            }
        }),
{
}

/// A type that is a single value, is being expanded further up or is that of map
/// entries adds no keys.
pub proof fn law_closed_types_add_no_keys(
    index: IndexView,
    exceptions: ExceptionsView,
    message: Seq<char>,
    parent: Seq<char>,
    keys: Set<Seq<char>>,
    stack: Seq<Seq<char>>,
)
    requires
        exceptions.is_opaque(message) || stack.contains(message) || (index.contains_key(message)
            && index[message].map_entry),
    ensures
        walked(index, exceptions, message, parent, keys, stack) == Some(keys),
{
}

/// What a map holds: its entry type is marked as such, and the first field called
/// "value" tells the message type, if it is one.
pub proof fn law_map_values_are_told_by_the_entry(
    index: IndexView,
    message_type: Seq<char>,
    j: int,
)
    requires
        index.contains_key(message_type),
        0 <= j < index[message_type].fields.len(),
        index[message_type].fields[j].name == "value"@,
        forall|k: int|
            0 <= k < j ==> (#[trigger] index[message_type].fields[k]).name != "value"@,
    ensures
        ({
            let value = index[message_type].fields[j];
            map_value(index, message_type) == if !index[message_type].map_entry {
                None
            } else if value.kind == 11 || value.kind == 10 {
                Some(Some(value.message_type))
            } else {
                Some(None)
            }
        }),
{
    let fields = index[message_type].fields;
    lemma_value_field(fields, fields.len(), j);
}

proof fn lemma_value_field(fields: Seq<FieldModel>, n: nat, j: int)
    requires
        0 <= j < n <= fields.len(),
        fields[j].name == "value"@,
        forall|k: int| 0 <= k < j ==> (#[trigger] fields[k]).name != "value"@,
    ensures
        value_field(fields, n) == Some(fields[j]),
    decreases n,
{
    if j < n - 1 {
        lemma_value_field(fields, (n - 1) as nat, j);
    } else {
        lemma_no_value_field(fields, (n - 1) as nat);
    }
}

proof fn lemma_no_value_field(fields: Seq<FieldModel>, n: nat)
    requires
        n <= fields.len(),
        forall|k: int| 0 <= k < n ==> (#[trigger] fields[k]).name != "value"@,
    ensures
        value_field(fields, n) is None,
    decreases n,
{
    if n > 0 {
        assert(fields[n - 1].name != "value"@);
        lemma_no_value_field(fields, (n - 1) as nat);
    }
}

/// A walk at a path adds only keys below it.
proof fn lemma_walk_stays_below(
    index: IndexView,
    exceptions: ExceptionsView,
    message: Seq<char>,
    parent: Seq<char>,
    keys: Set<Seq<char>>,
    stack: Seq<Seq<char>>,
    key: Seq<char>,
)
    requires
        parent.len() > 0,
        walked(index, exceptions, message, parent, keys, stack) matches Some(after)
            && after.contains(key),
        !keys.contains(key),
    ensures
        below(key, parent),
    decreases room(index, stack), 0nat, 0nat,
{
    if expands(index, exceptions, message, stack) {
        lemma_fields_stay_below(
            index,
            exceptions,
            message,
            parent,
            keys,
            stack.push(message),
            index[message].fields.len(),
            key,
        );
    }
}

proof fn lemma_fields_stay_below(
    index: IndexView,
    exceptions: ExceptionsView,
    message: Seq<char>,
    parent: Seq<char>,
    keys: Set<Seq<char>>,
    stack: Seq<Seq<char>>,
    n: nat,
    key: Seq<char>,
)
    requires
        parent.len() > 0,
        walked_fields(index, exceptions, message, parent, keys, stack, n) matches Some(after)
            && after.contains(key),
        !keys.contains(key),
    ensures
        below(key, parent),
    decreases room(index, stack), 2nat, n,
{
    if n > 0 {
        let front = (n - 1) as nat;
        lemma_more_fields_keep_keys(index, exceptions, message, parent, keys, stack, front, n);
        let before = walked_fields(index, exceptions, message, parent, keys, stack, front)->0;
        lemma_walked_step(index, exceptions, message, parent, keys, stack, n, before);
        if before.contains(key) {
            lemma_fields_stay_below(index, exceptions, message, parent, keys, stack, front, key);
        } else {
            lemma_field_stays_below(
                index,
                exceptions,
                message,
                index[message].fields[n - 1],
                parent,
                before,
                stack,
                key,
            );
        }
    }
}

proof fn lemma_field_stays_below(
    index: IndexView,
    exceptions: ExceptionsView,
    message: Seq<char>,
    field: FieldModel,
    parent: Seq<char>,
    before: Set<Seq<char>>,
    stack: Seq<Seq<char>>,
    key: Seq<char>,
)
    requires
        parent.len() > 0,
        walked_field(index, exceptions, message, field, parent, before, stack) matches Some(after)
            && after.contains(key),
        !before.contains(key),
    ensures
        below(key, parent),
    decreases room(index, stack), 1nat, 0nat,
{
    let name = exceptions.json_key(message, field);
    let path = path_below(parent, name);
    let entry = path + ".__sentinel__"@;
    let inner = field.message_type;
    lemma_path_is_below(parent, name);
    assert(path.len() > 0) by {
        reveal_strlit(".");
    }
    lemma_entry_path(path);
    lemma_path_is_below(path, "__sentinel__"@);
    lemma_below_twice(entry, path, parent);
    if exceptions.is_inline_embed(message, field.name) {
        lemma_walk_stays_below(index, exceptions, inner, parent, before, stack, key);
    } else if holds_message(field) {
        match map_value(index, inner) {
            Some(None) => {},
            Some(Some(value_type)) => {
                if key != entry {
                    lemma_walk_stays_below(
                        index,
                        exceptions,
                        value_type,
                        entry,
                        before,
                        stack,
                        key,
                    );
                    lemma_below_twice(key, entry, parent);
                }
            },
            None => {
                if key != path {
                    lemma_walk_stays_below(index, exceptions, inner, path, before, stack, key);
                    lemma_below_twice(key, path, parent);
                }
            },
        }
    }
}

/// No field is forgotten: every field of a Kubernetes message type that is no
/// inline embed has a key of its own among those expected, its path or one below
/// it, whatever its name and type.
pub proof fn law_no_field_is_forgotten(
    index: IndexView,
    message: Seq<char>,
    parent: Seq<char>,
    keys: Set<Seq<char>>,
    stack: Seq<Seq<char>>,
    j: int,
)
    requires
        expands(index, kubernetes_exceptions(), message, stack),
        walked(index, kubernetes_exceptions(), message, parent, keys, stack) is Some,
        0 <= j < index[message].fields.len(),
        !kubernetes_exceptions().is_inline_embed(message, index[message].fields[j].name),
        kubernetes_exceptions().json_key(message, index[message].fields[j]).len() > 0,
    ensures
        ({
            let path = path_below(
                parent,
                kubernetes_exceptions().json_key(message, index[message].fields[j]),
            );
            exists|key: Seq<char>| #[trigger]
                walked(
                    index,
                    kubernetes_exceptions(),
                    message,
                    parent,
                    keys,
                    stack,
                )->0.contains(key) && (key == path || below(key, path))
        }),
{
    let exceptions = kubernetes_exceptions();
    let field = index[message].fields[j];
    let path = path_below(parent, exceptions.json_key(message, field));
    let entry = path + ".__sentinel__"@;
    let own = stack.push(message);
    let none = Set::<Seq<char>>::empty();
    let after = walked(index, exceptions, message, parent, keys, stack)->0;
    law_kubernetes_leaves_nothing_out(message, field.name);
    law_every_field_contributes(index, exceptions, message, parent, keys, stack, j);
    let alone = walked_field(index, exceptions, message, field, parent, none, own)->0;
    law_keys_of_a_field(index, exceptions, message, field, parent, own, alone);
    assert(path.len() > 0) by {
        reveal_strlit(".");
    }
    lemma_entry_path(path);
    lemma_path_is_below(path, "__sentinel__"@);
    if alone.contains(path) {
        assert(after.contains(path));
    } else if alone.contains(entry) {
        assert(after.contains(entry) && below(entry, path));
    } else {
        assert(exists|k: Seq<char>| alone.contains(k)) by {
            if forall|k: Seq<char>| !alone.contains(k) {
                assert(alone =~= none);
            }
        }
        let k = choose|k: Seq<char>| alone.contains(k);
        match map_value(index, field.message_type) {
            Some(Some(value_type)) => {
                lemma_walk_stays_below(index, exceptions, value_type, entry, none, own, k);
                lemma_below_twice(k, entry, path);
            },
            _ => {
                lemma_walk_stays_below(
                    index,
                    exceptions,
                    field.message_type,
                    path,
                    none,
                    own,
                    k,
                );
            },
        }
        assert(after.contains(k) && below(k, path));
    }
}

/// The keys of a message type are those of a walk of it from the root, with
/// nothing left out and nothing added.
pub proof fn law_keys_are_those_of_the_walk(
    index: IndexView,
    exceptions: ExceptionsView,
    root: Seq<char>,
)
    ensures
        json_keys(index, exceptions, root) == walked(
            index,
            exceptions,
            root,
            Seq::empty(),
            Set::empty(),
            Seq::empty(),
        ),
{
}

/// A message type that the index lacks has no keys that could be told, unless it
/// is not looked into.
pub proof fn law_unknown_types_have_no_keys(
    index: IndexView,
    exceptions: ExceptionsView,
    message: Seq<char>,
    parent: Seq<char>,
    keys: Set<Seq<char>>,
    stack: Seq<Seq<char>>,
)
    requires
        !index.contains_key(message),
        !exceptions.is_opaque(message),
        !stack.contains(message),
    ensures
        walked(index, exceptions, message, parent, keys, stack) is None,
{
}

/// No field is forgotten anywhere below a root: every field of the root that is
/// no inline embed has its path or a key below it among the keys.
pub proof fn law_every_field_of_a_root_is_expected(
    index: IndexView,
    root: Seq<char>,
    j: int,
)
    requires
        index.dom().finite(),
        index.contains_key(root),
        !index[root].map_entry,
        !kubernetes_exceptions().is_opaque(root),
        json_keys(index, kubernetes_exceptions(), root) is Some,
        0 <= j < index[root].fields.len(),
        !kubernetes_exceptions().is_inline_embed(root, index[root].fields[j].name),
        kubernetes_exceptions().json_key(root, index[root].fields[j]).len() > 0,
    ensures
        exists|key: Seq<char>| #[trigger]
            json_keys(index, kubernetes_exceptions(), root)->0.contains(key) && (key
                == kubernetes_exceptions().json_key(root, index[root].fields[j]) || below(
                key,
                kubernetes_exceptions().json_key(root, index[root].fields[j]),
            )),
{
    let none = Seq::<Seq<char>>::empty();
    lemma_stack_has_room(index, none, root);
    law_no_field_is_forgotten(index, root, Seq::empty(), Set::empty(), none, j);
    law_keys_are_those_of_the_walk(index, kubernetes_exceptions(), root);
    let path = kubernetes_exceptions().json_key(root, index[root].fields[j]);
    let after = walked(
        index,
        kubernetes_exceptions(),
        root,
        Seq::empty(),
        Set::empty(),
        none,
    )->0;
    let key = choose|key: Seq<char>| #[trigger]
        after.contains(key) && (key == path || below(key, path));
    assert(json_keys(index, kubernetes_exceptions(), root)->0.contains(key));
}

/// A known type that is no map entry, is looked into and is not being expanded
/// further up is always expanded, however deep it stands.
pub proof fn law_open_types_are_expanded(
    index: IndexView,
    exceptions: ExceptionsView,
    message: Seq<char>,
    parent: Seq<char>,
    keys: Set<Seq<char>>,
    stack: Seq<Seq<char>>,
)
    requires
        index.dom().finite(),
        stack.no_duplicates(),
        forall|i: int| 0 <= i < stack.len() ==> index.contains_key(#[trigger] stack[i]),
        index.contains_key(message),
        !index[message].map_entry,
        !exceptions.is_opaque(message),
        !stack.contains(message),
    ensures
        expands(index, exceptions, message, stack),
        walked(index, exceptions, message, parent, keys, stack) == walked_fields(
            index,
            exceptions,
            message,
            parent,
            keys,
            stack.push(message),
            index[message].fields.len(),
        ),
{
    lemma_stack_has_room(index, stack, message);
}

} // verus!
