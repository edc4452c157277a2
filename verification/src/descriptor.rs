//! The JSON keys that a fully populated message produces, derived from the
//! schema alone.
use crate::exceptions::{Exceptions, ExceptionsView};
use crate::schema::{
    index_view, FieldModel, FieldSchema, IndexView, MessageIndex, MessageSchema, KIND_GROUP,
    KIND_MESSAGE,
};
use crate::text::{has_text, join, law_text_order, str_eq, str_less, text_less, texts};
use vstd::prelude::*;

verus! {

/// A set of keys: a list in ascending order, in which nothing occurs twice.
pub struct KeySet {
    keys: Vec<String>,
}

/// Whether texts are in ascending order, each one only once.
pub open spec fn ascending(keys: Seq<Seq<char>>) -> bool {
    forall|i: int, j: int|
        0 <= i < j < keys.len() ==> text_less(#[trigger] keys[i], #[trigger] keys[j])
}

impl View for KeySet {
    type V = Set<Seq<char>>;

    closed spec fn view(&self) -> Set<Seq<char>> {
        texts(self.keys@).to_set()
    }
}

/// A list in ascending order has as many texts as its set.
proof fn lemma_ascending_unique(keys: Seq<Seq<char>>)
    requires
        ascending(keys),
    ensures
        keys.no_duplicates(),
        keys.to_set().finite(),
        keys.to_set().len() == keys.len(),
{
    assert forall|i: int, j: int|
        0 <= i < keys.len() && 0 <= j < keys.len() && i != j implies keys[i] != keys[j] by {
        law_text_order(keys[i], keys[i], keys[i]);
        if i < j {
            assert(text_less(keys[i], keys[j]));
        } else {
            assert(text_less(keys[j], keys[i]));
        }
    }
    keys.unique_seq_to_set();
}

impl KeySet {
    /// The keys are in ascending order.
    pub closed spec fn wf(self) -> bool {
        ascending(texts(self.keys@))
    }

    /// A set without keys.
    pub fn new() -> (r: KeySet)
        ensures
            r.wf(),
            r@ == Set::<Seq<char>>::empty(),
    {
        let r = KeySet { keys: Vec::new() };
        assert(r@ =~= Set::<Seq<char>>::empty());
        r
    }

    /// How many keys there are.
    pub fn len(&self) -> (r: usize)
        requires
            self.wf(),
        ensures
            self@.finite(),
            r == self@.len(),
    {
        proof {
            lemma_ascending_unique(texts(self.keys@));
        }
        self.keys.len()
    }

    /// Whether a key is there.
    pub fn contains(&self, key: &str) -> (r: bool)
        ensures
            r == self@.contains(key@),
    {
        has_text(&self.keys, key)
    }

    /// Adds a key.
    pub fn insert(&mut self, key: String)
        requires
            old(self).wf(),
        ensures
            final(self).wf(),
            final(self)@ == old(self)@.insert(key@),
    {
        let ghost before = texts(self.keys@);
        let mut i: usize = 0;
        while i < self.keys.len() && str_less(self.keys[i].as_str(), key.as_str())
            invariant
                i <= self.keys@.len(),
                before == texts(self.keys@),
                *self == *old(self),
                forall|j: int| 0 <= j < i ==> text_less(#[trigger] before[j], key@),
            decreases self.keys@.len() - i,
        {
            assert(before[i as int] == self.keys@[i as int]@);
            i += 1;
        }
        if i < self.keys.len() && str_eq(self.keys[i].as_str(), key.as_str()) {
            assert(before[i as int] == key@);
            assert(self@ =~= old(self)@.insert(key@));
            return;
        }
        proof {
            if i < before.len() {
                assert(before[i as int] == self.keys@[i as int]@);
                law_text_order(before[i as int], key@, key@);
            }
        }
        self.keys.insert(i, key);
        proof {
            let after = texts(self.keys@);
            assert(after =~= before.insert(i as int, key@));
            lemma_insert_ascending(before, i as int, key@);
            assert forall|k: Seq<char>| self@.contains(k) <==> old(self)@.insert(key@).contains(
                k,
            ) by {
                if before.contains(k) {
                    let j = before.index_of(k);
                    if j < i {
                        assert(after[j] == k);
                    } else {
                        assert(after[j + 1] == k);
                    }
                }
                if k == key@ {
                    assert(after[i as int] == k);
                }
                if after.contains(k) && k != key@ {
                    let j = after.index_of(k);
                    if j < i {
                        assert(before[j] == k);
                    } else {
                        assert(before[j - 1] == k);
                    }
                }
            }
            assert(self@ =~= old(self)@.insert(key@));
        }
    }

    /// Adds all keys of another set.
    pub fn insert_all(&mut self, other: &KeySet)
        requires
            old(self).wf(),
        ensures
            final(self).wf(),
            final(self)@ == old(self)@.union(other@),
    {
        let mut i: usize = 0;
        let ghost added = texts(other.keys@);
        assert(added.take(0).to_set() =~= Set::<Seq<char>>::empty());
        assert(self@ =~= old(self)@.union(added.take(0).to_set()));
        while i < other.keys.len()
            invariant
                i <= other.keys@.len(),
                added == texts(other.keys@),
                self.wf(),
                self@ == old(self)@.union(added.take(i as int).to_set()),
            decreases other.keys@.len() - i,
        {
            self.insert(other.keys[i].clone());
            proof {
                let next = added.take(i + 1);
                assert(next =~= added.take(i as int).push(added[i as int]));
                assert(next.to_set() =~= added.take(i as int).to_set().insert(added[i as int])) by {
                    assert forall|k: Seq<char>| next.contains(k) <==> added.take(
                        i as int,
                    ).contains(k) || k == added[i as int] by {
                        if added.take(i as int).contains(k) {
                            let j = added.take(i as int).index_of(k);
                            assert(next[j] == k);
                        }
                        if k == added[i as int] {
                            assert(next[i as int] == k);
                        }
                    }
                }
                assert(self@ =~= old(self)@.union(next.to_set()));
            }
            i += 1;
        }
        assert(added.take(added.len() as int) =~= added);
    }

    /// The keys in ascending order.
    pub fn to_vec(&self) -> (r: Vec<String>)
        requires
            self.wf(),
        ensures
            texts(r@).to_set() == self@,
            ascending(texts(r@)),
    {
        let r = self.keys.clone();
        assert(texts(r@) =~= texts(self.keys@));
        r
    }
}

/// A text inserted between the smaller and the greater ones keeps the order.
proof fn lemma_insert_ascending(keys: Seq<Seq<char>>, i: int, key: Seq<char>)
    requires
        ascending(keys),
        0 <= i <= keys.len(),
        forall|j: int| 0 <= j < i ==> text_less(#[trigger] keys[j], key),
        i < keys.len() ==> text_less(key, keys[i]),
    ensures
        ascending(keys.insert(i, key)),
{
    let after = keys.insert(i, key);
    assert forall|a: int, b: int| 0 <= a < b < after.len() implies text_less(
        #[trigger] after[a],
        #[trigger] after[b],
    ) by {
        let x = if a < i {
            a
        } else {
            a - 1
        };
        let y = if b < i {
            b
        } else {
            b - 1
        };
        if a != i && b != i {
            assert(text_less(keys[x], keys[y]));
        } else if b == i {
            assert(text_less(keys[a], key));
        } else {
            if y > i {
                assert(text_less(keys[i], keys[y]));
                law_text_order(key, keys[i], keys[y]);
            }
        }
    }
}

/// Whether a field holds a message.
pub open spec fn holds_message(field: FieldModel) -> bool {
    field.kind == KIND_MESSAGE || field.kind == KIND_GROUP
}

/// The first field called "value".
pub open spec fn value_field(fields: Seq<FieldModel>, n: nat) -> Option<FieldModel>
    decreases n,
{
    if n == 0 || n > fields.len() {
        None
    } else {
        match value_field(fields, (n - 1) as nat) {
            Some(f) => Some(f),
            None => if fields[n - 1].name == "value"@ {
                Some(fields[n - 1])
            } else {
                None
            },
        }
    }
}

/// What the entries of a map field hold: `None` where the type is not that of a
/// map's entries, `Some(None)` for a scalar, else the message type.
pub open spec fn map_value(index: IndexView, message_type: Seq<char>) -> Option<Option<Seq<char>>> {
    if index.contains_key(message_type) && index[message_type].map_entry {
        let fields = index[message_type].fields;
        match value_field(fields, fields.len()) {
            None => None,
            Some(f) => if holds_message(f) {
                Some(Some(f.message_type))
            } else {
                Some(None)
            },
        }
    } else {
        None
    }
}

/// A key below a path; the key itself at the root.
pub open spec fn path_below(parent: Seq<char>, key: Seq<char>) -> Seq<char> {
    if parent.len() == 0 {
        key
    } else {
        parent + "."@ + key
    }
}

/// The path of the one entry of a map.
pub proof fn lemma_entry_path(path: Seq<char>)
    requires
        path.len() > 0,
    ensures
        path_below(path, "__sentinel__"@) == path + ".__sentinel__"@,
{
    reveal_strlit(".__sentinel__");
    reveal_strlit("__sentinel__");
    reveal_strlit(".");
    assert("."@ + "__sentinel__"@ =~= ".__sentinel__"@);
    assert(path + "."@ + "__sentinel__"@ =~= path + ".__sentinel__"@);
}

/// How many more message types a stack of them can take.
pub open spec fn room(index: IndexView, stack: Seq<Seq<char>>) -> nat {
    if stack.len() <= index.dom().len() {
        (index.dom().len() - stack.len()) as nat
    } else {
        0
    }
}

/// The keys after a message type was walked at the path `parent`, inside the
/// message types on the stack. Types with a JSON form of a single value, types
/// that are already on the stack and the entry types of maps add nothing.
/// `None` where a message type is reached that the index lacks.
pub open spec fn walked(
    index: IndexView,
    exceptions: ExceptionsView,
    message: Seq<char>,
    parent: Seq<char>,
    keys: Set<Seq<char>>,
    stack: Seq<Seq<char>>,
) -> Option<Set<Seq<char>>>
    decreases room(index, stack), 0nat, 0nat,
{
    if exceptions.is_opaque(message) || stack.contains(message) {
        Some(keys)
    } else if !index.contains_key(message) {
        None
    } else if index[message].map_entry || stack.len() >= index.dom().len() {
        Some(keys)
    } else {
        walked_fields(
            index,
            exceptions,
            message,
            parent,
            keys,
            stack.push(message),
            index[message].fields.len(),
        )
    }
}

/// The keys after the first `n` fields of a message type were walked.
pub open spec fn walked_fields(
    index: IndexView,
    exceptions: ExceptionsView,
    message: Seq<char>,
    parent: Seq<char>,
    keys: Set<Seq<char>>,
    stack: Seq<Seq<char>>,
    n: nat,
) -> Option<Set<Seq<char>>>
    decreases room(index, stack), 2nat, n,
{
    if n == 0 {
        Some(keys)
    } else {
        match walked_fields(index, exceptions, message, parent, keys, stack, (n - 1) as nat) {
            None => None,
            Some(before) => walked_field(
                index,
                exceptions,
                message,
                index[message].fields[n - 1],
                parent,
                before,
                stack,
            ),
        }
    }
}

/// The keys after one field of a message type was walked. A scalar adds its own
/// path. A message adds what its type adds, and its own path where that is
/// nothing. An inline embed adds what its type adds at the same path. A map
/// stands for one entry.
pub open spec fn walked_field(
    index: IndexView,
    exceptions: ExceptionsView,
    message: Seq<char>,
    field: FieldModel,
    parent: Seq<char>,
    before: Set<Seq<char>>,
    stack: Seq<Seq<char>>,
) -> Option<Set<Seq<char>>>
    decreases room(index, stack), 1nat, 0nat,
{
    let path = path_below(parent, exceptions.json_key(message, field));
    if exceptions.is_excluded(message, field.name) {
        Some(before)
    } else if exceptions.is_inline_embed(message, field.name) {
        if holds_message(field) {
            walked(index, exceptions, field.message_type, parent, before, stack)
        } else {
            Some(before)
        }
    } else if !holds_message(field) {
        Some(before.insert(path))
    } else {
        match map_value(index, field.message_type) {
            Some(None) => Some(before.insert(path + ".__sentinel__"@)),
            Some(Some(value_type)) => or_itself(
                before,
                walked(
                    index,
                    exceptions,
                    value_type,
                    path + ".__sentinel__"@,
                    before,
                    stack,
                ),
                path + ".__sentinel__"@,
            ),
            None => or_itself(
                before,
                walked(index, exceptions, field.message_type, path, before, stack),
                path,
            ),
        }
    }
}

/// Whether every message type that is reached from one, inside the message types
/// on the stack, is in the index.
pub open spec fn resolved(
    index: IndexView,
    exceptions: ExceptionsView,
    message: Seq<char>,
    stack: Seq<Seq<char>>,
) -> bool
    decreases room(index, stack), 0nat, 0nat,
{
    if exceptions.is_opaque(message) || stack.contains(message) {
        true
    } else if !index.contains_key(message) {
        false
    } else if index[message].map_entry || stack.len() >= index.dom().len() {
        true
    } else {
        resolved_fields(
            index,
            exceptions,
            message,
            stack.push(message),
            index[message].fields.len(),
        )
    }
}

/// Whether every message type that is reached from the first `n` fields of one
/// is in the index.
pub open spec fn resolved_fields(
    index: IndexView,
    exceptions: ExceptionsView,
    message: Seq<char>,
    stack: Seq<Seq<char>>,
    n: nat,
) -> bool
    decreases room(index, stack), 2nat, n,
{
    n > 0 ==> resolved_fields(index, exceptions, message, stack, (n - 1) as nat) && resolved_field(
        index,
        exceptions,
        message,
        index[message].fields[n - 1],
        stack,
    )
}

/// Whether every message type that is reached from a field is in the index.
pub open spec fn resolved_field(
    index: IndexView,
    exceptions: ExceptionsView,
    message: Seq<char>,
    field: FieldModel,
    stack: Seq<Seq<char>>,
) -> bool
    decreases room(index, stack), 1nat, 0nat,
{
    if exceptions.is_excluded(message, field.name) || !holds_message(field) {
        true
    } else if exceptions.is_inline_embed(message, field.name) {
        resolved(index, exceptions, field.message_type, stack)
    } else {
        match map_value(index, field.message_type) {
            Some(None) => true,
            Some(Some(value_type)) => resolved(index, exceptions, value_type, stack),
            None => resolved(index, exceptions, field.message_type, stack),
        }
    }
}

/// What was added; the path itself where nothing was.
pub open spec fn or_itself(
    before: Set<Seq<char>>,
    after: Option<Set<Seq<char>>>,
    path: Seq<char>,
) -> Option<Set<Seq<char>>> {
    match after {
        None => None,
        Some(keys) => if keys == before {
            Some(before.insert(path))
        } else {
            Some(keys)
        },
    }
}

/// The keys that a fully populated message of a type produces.
pub open spec fn json_keys(
    index: IndexView,
    exceptions: ExceptionsView,
    root: Seq<char>,
) -> Option<Set<Seq<char>>> {
    walked(index, exceptions, root, Seq::empty(), Set::empty(), Seq::empty())
}

/// The keys of the first `n` of several message types.
pub open spec fn json_keys_for(
    index: IndexView,
    exceptions: ExceptionsView,
    roots: Seq<Seq<char>>,
    n: nat,
) -> Option<Set<Seq<char>>>
    decreases n,
{
    if n == 0 {
        Some(Set::empty())
    } else {
        match json_keys_for(index, exceptions, roots, (n - 1) as nat) {
            None => None,
            Some(keys) => match json_keys(index, exceptions, roots[n - 1]) {
                None => None,
                Some(more) => Some(keys.union(more)),
            },
        }
    }
}

/// Whether the message types on a stack are all different and all known.
pub open spec fn stack_ok(index: IndexView, stack: Seq<Seq<char>>) -> bool {
    stack.no_duplicates() && forall|i: int|
        0 <= i < stack.len() ==> index.contains_key(#[trigger] stack[i])
}

/// A stack that lacks a known message type has room for it.
pub proof fn lemma_stack_has_room(index: IndexView, stack: Seq<Seq<char>>, message: Seq<char>)
    requires
        stack_ok(index, stack),
        index.dom().finite(),
        index.contains_key(message),
        !stack.contains(message),
    ensures
        stack.len() < index.dom().len(),
        stack_ok(index, stack.push(message)),
{
    let grown = stack.push(message);
    assert(grown.no_duplicates());
    grown.unique_seq_to_set();
    assert(grown.to_set().subset_of(index.dom())) by {
        assert forall|k: Seq<char>| grown.to_set().contains(k) implies index.dom().contains(k) by {
            let i = grown.index_of(k);
            assert(grown[i] == k);
        }
    }
    vstd::set_lib::lemma_len_subset(grown.to_set(), index.dom());
}

/// An index of finitely many message types.
pub proof fn lemma_index_finite(messages: Seq<MessageSchema>)
    ensures
        index_view(messages).dom().finite(),
    decreases messages.len(),
{
    if messages.len() > 0 {
        lemma_index_finite(messages.drop_last());
    }
}

/// Walking one more field is walking that field after the others.
pub proof fn lemma_walked_step(
    index: IndexView,
    exceptions: ExceptionsView,
    message: Seq<char>,
    parent: Seq<char>,
    keys: Set<Seq<char>>,
    stack: Seq<Seq<char>>,
    n: nat,
    before: Set<Seq<char>>,
)
    requires
        n > 0,
        walked_fields(index, exceptions, message, parent, keys, stack, (n - 1) as nat) == Some(
            before,
        ),
    ensures
        walked_fields(index, exceptions, message, parent, keys, stack, n) == walked_field(
            index,
            exceptions,
            message,
            index[message].fields[n - 1],
            parent,
            before,
            stack,
        ),
{
}

/// A message type has keys exactly where every type reached from it is known.
pub proof fn law_keys_exist_where_types_are_known(
    index: IndexView,
    exceptions: ExceptionsView,
    message: Seq<char>,
    parent: Seq<char>,
    keys: Set<Seq<char>>,
    stack: Seq<Seq<char>>,
)
    ensures
        walked(index, exceptions, message, parent, keys, stack) is Some <==> resolved(
            index,
            exceptions,
            message,
            stack,
        ),
    decreases room(index, stack), 0nat, 0nat,
{
    if !exceptions.is_opaque(message) && !stack.contains(message) && index.contains_key(message)
        && !index[message].map_entry && stack.len() < index.dom().len() {
        lemma_fields_resolved(
            index,
            exceptions,
            message,
            parent,
            keys,
            stack.push(message),
            index[message].fields.len(),
        );
    }
}

/// The first fields have keys exactly where every message type reached from
/// them is known.
pub proof fn lemma_fields_resolved(
    index: IndexView,
    exceptions: ExceptionsView,
    message: Seq<char>,
    parent: Seq<char>,
    keys: Set<Seq<char>>,
    stack: Seq<Seq<char>>,
    n: nat,
)
    ensures
        walked_fields(index, exceptions, message, parent, keys, stack, n) is Some
            <==> resolved_fields(index, exceptions, message, stack, n),
    decreases room(index, stack), 2nat, n,
{
    if n > 0 {
        lemma_fields_resolved(
            index,
            exceptions,
            message,
            parent,
            keys,
            stack,
            (n - 1) as nat,
        );
        if let Some(before) = walked_fields(
            index,
            exceptions,
            message,
            parent,
            keys,
            stack,
            (n - 1) as nat,
        ) {
            lemma_walked_step(index, exceptions, message, parent, keys, stack, n, before);
            lemma_field_resolved(
                index,
                exceptions,
                message,
                index[message].fields[n - 1],
                parent,
                before,
                stack,
            );
        }
    }
}

/// A field has keys exactly where every message type reached from it is known.
pub proof fn lemma_field_resolved(
    index: IndexView,
    exceptions: ExceptionsView,
    message: Seq<char>,
    field: FieldModel,
    parent: Seq<char>,
    before: Set<Seq<char>>,
    stack: Seq<Seq<char>>,
)
    ensures
        walked_field(index, exceptions, message, field, parent, before, stack) is Some
            <==> resolved_field(index, exceptions, message, field, stack),
    decreases room(index, stack), 1nat, 0nat,
{
    let inner = field.message_type;
    let path = path_below(parent, exceptions.json_key(message, field));
    law_keys_exist_where_types_are_known(index, exceptions, inner, parent, before, stack);
    law_keys_exist_where_types_are_known(index, exceptions, inner, path, before, stack);
    if let Some(Some(value_type)) = map_value(index, inner) {
        law_keys_exist_where_types_are_known(
            index,
            exceptions,
            value_type,
            path + ".__sentinel__"@,
            before,
            stack,
        );
    }
}

/// Where all fields reach known types only, each one does.
pub proof fn lemma_resolved_at(
    index: IndexView,
    exceptions: ExceptionsView,
    message: Seq<char>,
    stack: Seq<Seq<char>>,
    n: nat,
    j: int,
)
    requires
        0 <= j < n,
        resolved_fields(index, exceptions, message, stack, n),
    ensures
        resolved_field(index, exceptions, message, index[message].fields[j], stack),
    decreases n,
{
    if j < n - 1 {
        lemma_resolved_at(index, exceptions, message, stack, (n - 1) as nat, j);
    }
}

/// Walking only ever adds keys.
pub proof fn law_walking_keeps_keys(
    index: IndexView,
    exceptions: ExceptionsView,
    message: Seq<char>,
    parent: Seq<char>,
    keys: Set<Seq<char>>,
    stack: Seq<Seq<char>>,
)
    ensures
        walked(index, exceptions, message, parent, keys, stack) matches Some(after)
            ==> keys.subset_of(after),
    decreases room(index, stack), 0nat, 0nat,
{
    let inner = stack.push(message);
    let count = index[message].fields.len();
    if !exceptions.is_opaque(message) && !stack.contains(message) && index.contains_key(message)
        && !index[message].map_entry && stack.len() < index.dom().len() && walked_fields(
        index,
        exceptions,
        message,
        parent,
        keys,
        inner,
        count,
    ) is Some {
        lemma_more_fields_keep_keys(
            index,
            exceptions,
            message,
            parent,
            keys,
            inner,
            0,
            count,
        );
    }
}

/// Walking one more field only adds keys.
proof fn lemma_one_field_keeps_keys(
    index: IndexView,
    exceptions: ExceptionsView,
    message: Seq<char>,
    parent: Seq<char>,
    keys: Set<Seq<char>>,
    stack: Seq<Seq<char>>,
    n: nat,
)
    requires
        n > 0,
    ensures
        walked_fields(index, exceptions, message, parent, keys, stack, (n - 1) as nat) matches Some(
            before,
        ) ==> walked_fields(index, exceptions, message, parent, keys, stack, n) matches Some(after)
            ==> before.subset_of(after),
    decreases room(index, stack), n, 0nat,
{
    if let Some(before) = walked_fields(
        index,
        exceptions,
        message,
        parent,
        keys,
        stack,
        (n - 1) as nat,
    ) {
        let field = index[message].fields[n - 1];
        let path = path_below(parent, exceptions.json_key(message, field));
        lemma_walked_step(index, exceptions, message, parent, keys, stack, n, before);
        law_walking_keeps_keys(index, exceptions, field.message_type, parent, before, stack);
        law_walking_keeps_keys(index, exceptions, field.message_type, path, before, stack);
        if let Some(Some(value_type)) = map_value(index, field.message_type) {
            law_walking_keeps_keys(
                index,
                exceptions,
                value_type,
                path + ".__sentinel__"@,
                before,
                stack,
            );
        }
    }
}

/// Walking more fields only adds keys.
pub proof fn lemma_more_fields_keep_keys(
    index: IndexView,
    exceptions: ExceptionsView,
    message: Seq<char>,
    parent: Seq<char>,
    keys: Set<Seq<char>>,
    stack: Seq<Seq<char>>,
    a: nat,
    b: nat,
)
    requires
        a <= b,
        walked_fields(index, exceptions, message, parent, keys, stack, b) is Some,
    ensures
        walked_fields(index, exceptions, message, parent, keys, stack, a) is Some,
        walked_fields(index, exceptions, message, parent, keys, stack, a)->0.subset_of(
            walked_fields(index, exceptions, message, parent, keys, stack, b)->0,
        ),
    decreases room(index, stack), b, 1nat,
{
    if a < b {
        lemma_one_field_keeps_keys(index, exceptions, message, parent, keys, stack, b);
        lemma_more_fields_keep_keys(
            index,
            exceptions,
            message,
            parent,
            keys,
            stack,
            a,
            (b - 1) as nat,
        );
    }
}

/// Whether a field holds a message.
fn is_message(field: &FieldSchema) -> (r: bool)
    ensures
        r == holds_message(field@),
{
    field.kind == KIND_MESSAGE || field.kind == KIND_GROUP
}

/// What the entries of a map field hold: `None` where the type is not that of a
/// map's entries, `Some(None)` for a scalar, else the message type.
pub fn map_value_type<'a>(index: &'a MessageIndex, message_type: &str) -> (r: Option<
    Option<&'a str>,
>)
    ensures
        match map_value(index@, message_type@) {
            None => r is None,
            Some(None) => r == Some(None::<&'a str>),
            Some(Some(t)) => r matches Some(Some(s)) && s@ == t,
        },
{
    match index.get(message_type) {
        None => None,
        Some(entry) => {
            if !entry.map_entry {
                return None;
            }
            let mut i: usize = 0;
            let ghost models = entry@.fields;
            while i < entry.fields.len()
                invariant
                    i <= entry.fields@.len(),
                    models == entry@.fields,
                    value_field(models, i as nat) is None,
                    index@.contains_key(message_type@),
                    index@[message_type@] == entry@,
                    entry@.map_entry,
                decreases entry.fields@.len() - i,
            {
                let field = &entry.fields[i];
                if str_eq(field.name.as_str(), "value") {
                    proof {
                        lemma_value_field_stays(models, (i + 1) as nat, models.len());
                    }
                    if is_message(field) {
                        return Some(Some(field.message_type.as_str()));
                    }
                    return Some(None);
                }
                i += 1;
            }
            None
        },
    }
}

proof fn lemma_value_field_stays(fields: Seq<FieldModel>, a: nat, b: nat)
    requires
        a <= b <= fields.len(),
        value_field(fields, a) is Some,
    ensures
        value_field(fields, b) == value_field(fields, a),
    decreases b - a,
{
    if a < b {
        lemma_value_field_stays(fields, a, (b - 1) as nat);
    }
}

/// Adds the path where nothing was added since the set had `before` keys.
fn insert_if_unchanged(
    keys: &mut KeySet,
    before: usize,
    path: String,
    Ghost(start): Ghost<Set<Seq<char>>>,
)
    requires
        old(keys).wf(),
        start.finite(),
        start.len() == before,
        start.subset_of(old(keys)@),
    ensures
        final(keys).wf(),
        old(keys)@.subset_of(final(keys)@),
        Some(final(keys)@) == or_itself(start, Some(old(keys)@), path@),
{
    if keys.len() == before {
        proof {
            vstd::set_lib::lemma_subset_equality(start, keys@);
        }
        keys.insert(path);
    }
}

/// Adds the keys of a message type at the path `parent`. Every message type that
/// is reached must be in the index.
fn walk(
    index: &MessageIndex,
    exceptions: &Exceptions,
    message_name: &str,
    parent: &str,
    keys: &mut KeySet,
    stack: &mut Vec<String>,
)
    requires
        old(keys).wf(),
        stack_ok(index@, texts(old(stack)@)),
        resolved(index@, exceptions@, message_name@, texts(old(stack)@)),
    ensures
        final(keys).wf(),
        old(keys)@.subset_of(final(keys)@),
        walked(
            index@,
            exceptions@,
            message_name@,
            parent@,
            old(keys)@,
            texts(old(stack)@),
        ) == Some(final(keys)@),
        texts(final(stack)@) == texts(old(stack)@),
    decreases room(index@, texts(old(stack)@)), 0nat,
{
    let ghost held = texts(stack@);
    let ghost start = *keys;
    if exceptions.is_opaque(message_name) || has_text(stack, message_name) {
        return;
    }
    let message = match index.get(message_name) {
        None => {
            return;
        },
        Some(message) => message,
    };
    proof {
        lemma_index_finite(index.messages@);
        lemma_stack_has_room(index@, held, message_name@);
    }
    if message.map_entry {
        return;
    }
    stack.push(message_name.to_owned());
    let ghost inner = held.push(message_name@);
    assert(texts(stack@) =~= inner);
    let mut i: usize = 0;
    while i < message.fields.len()
        invariant
            i <= message.fields@.len(),
            message@ == index@[message_name@],
            index@.contains_key(message_name@),
            !message.map_entry,
            !exceptions@.is_opaque(message_name@),
            !held.contains(message_name@),
            held.len() < index@.dom().len(),
            inner == held.push(message_name@),
            held == texts(old(stack)@),
            start == *old(keys),
            texts(stack@) == inner,
            stack_ok(index@, inner),
            resolved_fields(
                index@,
                exceptions@,
                message_name@,
                inner,
                message.fields@.len() as nat,
            ),
            keys.wf(),
            start@.subset_of(keys@),
            walked_fields(
                index@,
                exceptions@,
                message_name@,
                parent@,
                start@,
                inner,
                i as nat,
            ) == Some(keys@),
        decreases message.fields@.len() - i,
    {
        let field = &message.fields[i];
        let ghost model = index@[message_name@].fields[i as int];
        assert(model == field@);
        let ghost before = keys@;
        proof {
            lemma_resolved_at(
                index@,
                exceptions@,
                message_name@,
                inner,
                message.fields@.len() as nat,
                i as int,
            );
            lemma_walked_step(
                index@,
                exceptions@,
                message_name@,
                parent@,
                start@,
                inner,
                (i + 1) as nat,
                before,
            );
        }
        if exceptions.is_excluded(message_name, field.name.as_str()) {
            i += 1;
            continue;
        }
        if exceptions.is_inline_embed(message_name, field.name.as_str()) {
            if is_message(field) {
                walk(index, exceptions, field.message_type.as_str(), parent, keys, stack);
            }
            i += 1;
            continue;
        }
        let key = exceptions.json_key(message_name, field);
        let path = if parent.is_empty() {
            key
        } else {
            join(parent, ".", key.as_str())
        };
        if !is_message(field) {
            keys.insert(path);
            i += 1;
            continue;
        }
        match map_value_type(index, field.message_type.as_str()) {
            Some(value_type) => {
                let entry_path = join(path.as_str(), ".__sentinel__", "");
                proof {
                    reveal_strlit("");
                    assert(entry_path@ =~= path@ + ".__sentinel__"@);
                }
                match value_type {
                    None => {
                        keys.insert(entry_path);
                    },
                    Some(value_type_name) => {
                        let count_before: usize = keys.len();
                        walk(
                            index,
                            exceptions,
                            value_type_name,
                            entry_path.as_str(),
                            keys,
                            stack,
                        );
                        insert_if_unchanged(keys, count_before, entry_path, Ghost(before));
                    },
                }
            },
            None => {
                let count_before: usize = keys.len();
                walk(
                    index,
                    exceptions,
                    field.message_type.as_str(),
                    path.as_str(),
                    keys,
                    stack,
                );
                insert_if_unchanged(keys, count_before, path, Ghost(before));
            },
        }
        i += 1;
    }
    let ghost full = stack@;
    assert(texts(full).len() == held.len() + 1);
    stack.pop();
    proof {
        assert(texts(stack@).len() == held.len());
        assert forall|j: int| 0 <= j < held.len() implies texts(stack@)[j] == held[j] by {
            assert(texts(full)[j] == inner[j]);
        }
        assert(texts(stack@) =~= held);
    }
}

/// The JSON keys that a fully populated message of type `root` produces, as
/// dotted paths, following message fields all the way down. A message type is
/// expanded once on each path into the schema. Every message type that is
/// reached must be in the index, as `types_are_known` tells.
pub fn expected_json_keys(index: &MessageIndex, exceptions: &Exceptions, root: &str) -> (r: KeySet)
    requires
        resolved(index@, exceptions@, root@, Seq::empty()),
    ensures
        r.wf(),
        json_keys(index@, exceptions@, root@) == Some(r@),
{
    let mut keys = KeySet::new();
    let mut stack: Vec<String> = Vec::new();
    proof {
        reveal_strlit("");
        assert(""@ =~= Seq::<char>::empty());
        assert(texts(stack@) =~= Seq::<Seq<char>>::empty());
    }
    walk(index, exceptions, root, "", &mut keys, &mut stack);
    keys
}

/// The characters of a sequence of string slices.
pub open spec fn slice_texts(strings: Seq<&str>) -> Seq<Seq<char>> {
    Seq::new(strings.len(), |i: int| strings[i]@)
}

/// The keys of several message types together.
pub fn expected_json_keys_for(index: &MessageIndex, exceptions: &Exceptions, roots: &[&str]) -> (r:
    KeySet)
    requires
        forall|i: int|
            0 <= i < roots@.len() ==> resolved(
                index@,
                exceptions@,
                (#[trigger] roots@[i])@,
                Seq::empty(),
            ),
    ensures
        r.wf(),
        json_keys_for(index@, exceptions@, slice_texts(roots@), roots@.len()) == Some(r@),
{
    let mut keys = KeySet::new();
    let ghost names = slice_texts(roots@);
    let mut i: usize = 0;
    while i < roots.len()
        invariant
            i <= roots@.len(),
            names == slice_texts(roots@),
            forall|j: int|
                0 <= j < roots@.len() ==> resolved(
                    index@,
                    exceptions@,
                    (#[trigger] roots@[j])@,
                    Seq::empty(),
                ),
            keys.wf(),
            json_keys_for(index@, exceptions@, names, i as nat) == Some(keys@),
        decreases roots@.len() - i,
    {
        let root: &str = roots[i];
        assert(names[i as int] == root@);
        let more = expected_json_keys(index, exceptions, root);
        keys.insert_all(&more);
        i += 1;
    }
    keys
}

/// Whether every message type that is reached from one is in the index.
fn resolves(
    index: &MessageIndex,
    exceptions: &Exceptions,
    message_name: &str,
    stack: &mut Vec<String>,
) -> (r: bool)
    requires
        stack_ok(index@, texts(old(stack)@)),
    ensures
        r == resolved(index@, exceptions@, message_name@, texts(old(stack)@)),
        r ==> texts(final(stack)@) == texts(old(stack)@),
    decreases room(index@, texts(old(stack)@)), 0nat,
{
    let ghost held = texts(stack@);
    if exceptions.is_opaque(message_name) || has_text(stack, message_name) {
        return true;
    }
    let message = match index.get(message_name) {
        None => {
            return false;
        },
        Some(message) => message,
    };
    proof {
        lemma_index_finite(index.messages@);
        lemma_stack_has_room(index@, held, message_name@);
    }
    if message.map_entry {
        return true;
    }
    stack.push(message_name.to_owned());
    let ghost inner = held.push(message_name@);
    assert(texts(stack@) =~= inner);
    let mut i: usize = 0;
    while i < message.fields.len()
        invariant
            i <= message.fields@.len(),
            message@ == index@[message_name@],
            index@.contains_key(message_name@),
            !message.map_entry,
            !exceptions@.is_opaque(message_name@),
            !held.contains(message_name@),
            held.len() < index@.dom().len(),
            inner == held.push(message_name@),
            held == texts(old(stack)@),
            texts(stack@) == inner,
            stack_ok(index@, inner),
            resolved_fields(index@, exceptions@, message_name@, inner, i as nat),
        decreases message.fields@.len() - i,
    {
        let field = &message.fields[i];
        let ghost count = message.fields@.len() as nat;
        proof {
            assert(index@[message_name@].fields[i as int] == field@);
            if resolved_fields(index@, exceptions@, message_name@, inner, count) {
                lemma_resolved_at(index@, exceptions@, message_name@, inner, count, i as int);
            }
        }
        if !exceptions.is_excluded(message_name, field.name.as_str()) && is_message(field) {
            let mut next: Option<&str> = Some(field.message_type.as_str());
            if !exceptions.is_inline_embed(message_name, field.name.as_str()) {
                match map_value_type(index, field.message_type.as_str()) {
                    Some(value_type) => {
                        next = value_type;
                    },
                    None => {},
                }
            }
            match next {
                Some(reached) => {
                    if !resolves(index, exceptions, reached, stack) {
                        return false;
                    }
                },
                None => {},
            }
        }
        assert(resolved_field(index@, exceptions@, message_name@, field@, inner));
        i += 1;
    }
    let ghost full = stack@;
    assert(texts(full).len() == held.len() + 1);
    stack.pop();
    proof {
        assert(texts(stack@).len() == held.len());
        assert forall|j: int| 0 <= j < held.len() implies texts(stack@)[j] == held[j] by {
            assert(texts(full)[j] == inner[j]);
        }
        assert(texts(stack@) =~= held);
    }
    true
}

/// Whether every message type that is reached from `root` is in the index, so
/// that its keys can be derived.
pub fn types_are_known(index: &MessageIndex, exceptions: &Exceptions, root: &str) -> (r: bool)
    ensures
        r == resolved(index@, exceptions@, root@, Seq::empty()),
{
    let mut stack: Vec<String> = Vec::new();
    assert(texts(stack@) =~= Seq::<Seq<char>>::empty());
    resolves(index, exceptions, root, &mut stack)
}

/// Whether a message type is flat: its fields are scalars under keys of their
/// own.
pub open spec fn is_flat(index: IndexView, exceptions: ExceptionsView, message: Seq<char>) -> bool {
    &&& index.contains_key(message)
    &&& !index[message].map_entry
    &&& !exceptions.is_opaque(message)
    &&& forall|j: int|
        0 <= j < index[message].fields.len() ==> {
            let field = #[trigger] index[message].fields[j];
            &&& !holds_message(field)
            &&& !exceptions.is_excluded(message, field.name)
            &&& !exceptions.is_inline_embed(message, field.name)
        }
}

/// The paths of the first `n` fields of a message type below a path.
pub open spec fn field_paths(
    index: IndexView,
    exceptions: ExceptionsView,
    message: Seq<char>,
    parent: Seq<char>,
    n: nat,
) -> Set<Seq<char>> {
    Set::new(
        |k: Seq<char>|
            exists|j: int|
                0 <= j < n && k == path_below(
                    parent,
                    exceptions.json_key(message, #[trigger] index[message].fields[j]),
                ),
    )
}

/// The keys of a flat message type are those of its fields: all of them, and no
/// others.
pub proof fn law_keys_of_a_flat_message(
    index: IndexView,
    exceptions: ExceptionsView,
    message: Seq<char>,
)
    requires
        index.dom().finite(),
        is_flat(index, exceptions, message),
    ensures
        json_keys(index, exceptions, message) == Some(
            field_paths(index, exceptions, message, Seq::empty(), index[message].fields.len()),
        ),
{
    let stack = Seq::<Seq<char>>::empty();
    let count = index[message].fields.len();
    let none = Set::<Seq<char>>::empty();
    lemma_stack_has_room(index, stack, message);
    lemma_flat_fields(
        index,
        exceptions,
        message,
        Seq::empty(),
        none,
        stack.push(message),
        count,
    );
    let paths = field_paths(index, exceptions, message, Seq::empty(), count);
    assert(none.union(paths) =~= paths);
}

proof fn lemma_flat_fields(
    index: IndexView,
    exceptions: ExceptionsView,
    message: Seq<char>,
    parent: Seq<char>,
    keys: Set<Seq<char>>,
    stack: Seq<Seq<char>>,
    n: nat,
)
    requires
        is_flat(index, exceptions, message),
        n <= index[message].fields.len(),
    ensures
        walked_fields(index, exceptions, message, parent, keys, stack, n) == Some(
            keys.union(field_paths(index, exceptions, message, parent, n)),
        ),
    decreases n,
{
    let fields = index[message].fields;
    let paths = field_paths(index, exceptions, message, parent, n);
    if n == 0 {
        assert(keys.union(paths) =~= keys);
    } else {
        lemma_flat_fields(index, exceptions, message, parent, keys, stack, (n - 1) as nat);
        let fewer = field_paths(index, exceptions, message, parent, (n - 1) as nat);
        let path = path_below(parent, exceptions.json_key(message, fields[n - 1]));
        lemma_walked_step(
            index,
            exceptions,
            message,
            parent,
            keys,
            stack,
            n,
            keys.union(fewer),
        );
        assert forall|k: Seq<char>| fewer.insert(path).contains(k) implies paths.contains(k) by {
            if fewer.contains(k) {
                let j = choose|j: int|
                    0 <= j < n - 1 && k == path_below(
                        parent,
                        exceptions.json_key(message, #[trigger] fields[j]),
                    );
                assert(0 <= j < n && k == path_below(
                    parent,
                    exceptions.json_key(message, fields[j]),
                ));
            } else {
                assert(k == path_below(parent, exceptions.json_key(message, fields[n - 1])));
            }
        }
        assert forall|k: Seq<char>| paths.contains(k) implies fewer.insert(path).contains(k) by {
            let j = choose|j: int|
                0 <= j < n && k == path_below(
                    parent,
                    exceptions.json_key(message, #[trigger] fields[j]),
                );
            if j < n - 1 {
                assert(fewer.contains(k));
            }
        }
        assert(keys.union(fewer).insert(path) =~= keys.union(paths));
    }
}

/// The keys of several message types are those of each of them together.
pub proof fn law_keys_of_several_messages(
    index: IndexView,
    exceptions: ExceptionsView,
    roots: Seq<Seq<char>>,
    n: nat,
    key: Seq<char>,
)
    requires
        n <= roots.len(),
        json_keys_for(index, exceptions, roots, n) is Some,
    ensures
        json_keys_for(index, exceptions, roots, n)->0.contains(key) <==> exists|i: int|
            0 <= i < n && (json_keys(index, exceptions, #[trigger] roots[i]) matches Some(keys)
                && keys.contains(key)),
    decreases n,
{
    if n > 0 {
        law_keys_of_several_messages(index, exceptions, roots, (n - 1) as nat, key);
        let more = json_keys(index, exceptions, roots[n - 1]);
        if more->0.contains(key) {
            assert(json_keys(index, exceptions, roots[n - 1]) matches Some(keys) && keys.contains(
                key,
            ));
        }
    }
}

} // verus!
