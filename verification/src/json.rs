//! JSON documents built by the decoders.
use crate::text::str_eq;
use vstd::prelude::*;

verus! {

/// A JSON value. An object lists its members in order; where a name is listed
/// twice, the later one counts.
#[derive(Debug, PartialEq)]
pub enum Json {
    Null,
    Bool(bool),
    Int(i64),
    /// A whole number beyond the range of `Int`.
    UInt(u64),
    /// A real number, as the bits of its binary form of 64 bits.
    Double(u64),
    /// A real number, as the bits of its binary form of 32 bits.
    Float(u32),
    Str(String),
    /// JSON text that is carried as it was sent.
    Raw(String),
    Array(Vec<Json>),
    Object(Vec<(String, Json)>),
}

/// The model of a JSON value.
pub enum JsonView {
    Null,
    Bool(bool),
    Int(int),
    Double(u64),
    Float(u32),
    Str(Seq<char>),
    Raw(Seq<char>),
    Array(Seq<JsonView>),
    Object(Seq<(Seq<char>, JsonView)>),
}

impl View for Json {
    type V = JsonView;

    open spec fn view(&self) -> JsonView
        decreases self,
    {
        match self {
            Json::Null => JsonView::Null,
            Json::Bool(b) => JsonView::Bool(*b),
            Json::Int(i) => JsonView::Int(*i as int),
            Json::UInt(i) => JsonView::Int(*i as int),
            Json::Double(bits) => JsonView::Double(*bits),
            Json::Float(bits) => JsonView::Float(*bits),
            Json::Str(s) => JsonView::Str(s@),
            Json::Raw(s) => JsonView::Raw(s@),
            Json::Array(a) => JsonView::Array(
                Seq::new(
                    a@.len(),
                    |i: int|
                        if 0 <= i < a@.len() {
                            a[i].view()
                        } else {
                            JsonView::Null
                        },
                ),
            ),
            Json::Object(m) => JsonView::Object(
                Seq::new(
                    m@.len(),
                    |i: int|
                        if 0 <= i < m@.len() {
                            (m[i].0@, m[i].1.view())
                        } else {
                            (Seq::empty(), JsonView::Null)
                        },
                ),
            ),
        }
    }
}

/// The models of a sequence of JSON values.
pub open spec fn json_views(items: Seq<Json>) -> Seq<JsonView> {
    Seq::new(items.len(), |i: int| items[i]@)
}

/// The models of the members of an object.
pub open spec fn member_views(members: Seq<(String, Json)>) -> Seq<(Seq<char>, JsonView)> {
    Seq::new(members.len(), |i: int| (members[i].0@, members[i].1@))
}

pub proof fn lemma_array_view(items: Vec<Json>)
    ensures
        Json::Array(items)@ == JsonView::Array(json_views(items@)),
{
    reveal_with_fuel(<Json as View>::view, 3);
    let a = Json::Array(items)@->Array_0;
    assert forall|i: int| 0 <= i < items@.len() implies a[i] == json_views(items@)[i] by {
        assert(a[i] == items@[i]@);
    }
    assert(a =~= json_views(items@));
}

pub proof fn lemma_object_view(members: Vec<(String, Json)>)
    ensures
        Json::Object(members)@ == JsonView::Object(member_views(members@)),
{
    reveal_with_fuel(<Json as View>::view, 3);
    let o = Json::Object(members)@->Object_0;
    assert forall|i: int| 0 <= i < members@.len() implies o[i] == member_views(members@)[i] by {
        assert(o[i].0 == members@[i].0@);
        assert(o[i].1 == members@[i].1@);
    }
    assert(o =~= member_views(members@));
}

/// The place of the last member with a name; -1 where there is none.
pub open spec fn member_index(members: Seq<(Seq<char>, JsonView)>, name: Seq<char>) -> int
    decreases members.len(),
{
    if members.len() == 0 {
        -1
    } else if members.last().0 == name {
        members.len() - 1
    } else {
        member_index(members.drop_last(), name)
    }
}

/// The value of the last member with a name.
pub open spec fn lookup(members: Seq<(Seq<char>, JsonView)>, name: Seq<char>) -> Option<JsonView> {
    let i = member_index(members, name);
    if 0 <= i < members.len() {
        Some(members[i].1)
    } else {
        None
    }
}

/// The members after `name` was set: in its place where it was there, else at
/// the end.
pub open spec fn set_member(
    members: Seq<(Seq<char>, JsonView)>,
    name: Seq<char>,
    value: JsonView,
) -> Seq<(Seq<char>, JsonView)> {
    let i = member_index(members, name);
    if 0 <= i < members.len() {
        members.update(i, (name, value))
    } else {
        members.push((name, value))
    }
}

/// The members after those of `added` were set, one after the other.
pub open spec fn set_members(
    members: Seq<(Seq<char>, JsonView)>,
    added: Seq<(Seq<char>, JsonView)>,
) -> Seq<(Seq<char>, JsonView)>
    decreases added.len(),
{
    if added.len() == 0 {
        members
    } else {
        let (name, value) = added.last();
        set_member(set_members(members, added.drop_last()), name, value)
    }
}

pub proof fn lemma_member_index(members: Seq<(Seq<char>, JsonView)>, name: Seq<char>)
    ensures
        -1 <= member_index(members, name) < members.len(),
        member_index(members, name) >= 0 ==> members[member_index(members, name)].0 == name,
        forall|j: int|
            member_index(members, name) < j < members.len() ==> #[trigger] members[j].0 != name,
    decreases members.len(),
{
    if members.len() > 0 && members.last().0 != name {
        lemma_member_index(members.drop_last(), name);
        assert forall|j: int|
            member_index(members, name) < j < members.len() implies #[trigger] members[j].0
            != name by {
            if j < members.len() - 1 {
                assert(members.drop_last()[j].0 != name);
            }
        }
    }
}

/// Where a place holds a name and no later one does, it is the last one.
proof fn lemma_index_is_last(members: Seq<(Seq<char>, JsonView)>, name: Seq<char>, i: int)
    requires
        0 <= i < members.len(),
        members[i].0 == name,
        forall|j: int| i < j < members.len() ==> #[trigger] members[j].0 != name,
    ensures
        member_index(members, name) == i,
{
    lemma_member_index(members, name);
    let k = member_index(members, name);
    if k < i {
        assert(members[i].0 != name);
    }
    if k > i {
        assert(members[k].0 != name);
    }
}

/// A member that was set is found again with its value.
pub proof fn law_set_then_lookup(
    members: Seq<(Seq<char>, JsonView)>,
    name: Seq<char>,
    value: JsonView,
)
    ensures
        lookup(set_member(members, name, value), name) == Some(value),
{
    lemma_member_index(members, name);
    let i = member_index(members, name);
    let after = set_member(members, name, value);
    if i >= 0 {
        assert forall|j: int| i < j < after.len() implies #[trigger] after[j].0 != name by {
            assert(members[j].0 != name);
        }
        lemma_index_is_last(after, name, i);
    } else {
        lemma_index_is_last(after, name, members.len() as int);
    }
}

/// Setting a member leaves the others as they were.
pub proof fn law_set_keeps_others(
    members: Seq<(Seq<char>, JsonView)>,
    name: Seq<char>,
    value: JsonView,
    other: Seq<char>,
)
    requires
        other != name,
    ensures
        lookup(set_member(members, name, value), other) == lookup(members, other),
{
    lemma_member_index(members, name);
    lemma_member_index(members, other);
    let after = set_member(members, name, value);
    lemma_member_index(after, other);
    let k = member_index(members, other);
    if k >= 0 {
        assert(after[k].0 == other);
        assert forall|j: int| k < j < after.len() implies #[trigger] after[j].0 != other by {
            if j < members.len() && j != member_index(members, name) {
                assert(members[j].0 != other);
            }
        }
        lemma_index_is_last(after, other, k);
    } else {
        let m = member_index(after, other);
        if m >= 0 {
            assert(after[m].0 == other);
            assert(m < members.len() && m != member_index(members, name));
            assert(members[m].0 != other);
        }
    }
}

/// After members were set, each name has the value that was set last, and its
/// old one where none was.
pub proof fn law_set_members_lookup(
    members: Seq<(Seq<char>, JsonView)>,
    added: Seq<(Seq<char>, JsonView)>,
    name: Seq<char>,
)
    ensures
        lookup(set_members(members, added), name) == match lookup(added, name) {
            Some(v) => Some(v),
            None => lookup(members, name),
        },
    decreases added.len(),
{
    if added.len() > 0 {
        let front = added.drop_last();
        let (last, value) = added.last();
        law_set_members_lookup(members, front, name);
        lemma_member_index(front, name);
        if last == name {
            law_set_then_lookup(set_members(members, front), last, value);
        } else {
            law_set_keeps_others(set_members(members, front), last, value, name);
        }
    }
}

/// Setting a list of one member sets that member.
pub proof fn lemma_set_one(
    members: Seq<(Seq<char>, JsonView)>,
    name: Seq<char>,
    value: JsonView,
)
    ensures
        set_members(members, seq![(name, value)]) == set_member(members, name, value),
{
    let none = Seq::<(Seq<char>, JsonView)>::empty();
    assert(seq![(name, value)].drop_last() =~= none);
    assert(set_members(members, none) == members);
}

/// Finds the last member with a name.
fn find_member(members: &Vec<(String, Json)>, name: &str) -> (r: Option<usize>)
    ensures
        match r {
            Some(i) => i < members@.len() && member_index(member_views(members@), name@) == i,
            None => member_index(member_views(members@), name@) == -1,
        },
{
    let mut i: usize = members.len();
    assert(members@.take(i as int) =~= members@);
    while i > 0
        invariant
            i <= members@.len(),
            member_index(member_views(members@), name@) == member_index(
                member_views(members@.take(i as int)),
                name@,
            ),
        decreases i,
    {
        proof {
            let front = member_views(members@.take(i as int));
            assert(front.last() == (members@[i - 1].0@, members@[i - 1].1@));
            assert(front.drop_last() =~= member_views(members@.take(i - 1)));
        }
        if str_eq(members[i - 1].0.as_str(), name) {
            return Some(i - 1);
        }
        i -= 1;
    }
    None
}

/// Sets a member of an object.
pub fn put_member(members: &mut Vec<(String, Json)>, name: String, value: Json)
    ensures
        member_views(final(members)@) == set_member(member_views(old(members)@), name@, value@),
{
    match find_member(members, name.as_str()) {
        Some(i) => {
            members.set(i, (name, value));
            assert(member_views(members@) =~= member_views(old(members)@).update(
                i as int,
                (name@, value@),
            ));
        },
        None => {
            members.push((name, value));
            assert(member_views(members@) =~= member_views(old(members)@).push((name@, value@)));
        },
    }
}

impl Json {
    /// The member of an object with a name; `None` for other values and where
    /// the name is not there.
    pub fn member(&self, name: &str) -> (r: Option<&Json>)
        ensures
            match self@ {
                JsonView::Object(members) => match lookup(members, name@) {
                    Some(value) => r matches Some(v) && v@ == value,
                    None => r is None,
                },
                _ => r is None,
            },
    {
        match self {
            Json::Object(members) => {
                proof {
                    lemma_object_view(*members);
                }
                match find_member(members, name) {
                    Some(i) => Some(&members[i].1),
                    None => None,
                }
            },
            _ => None,
        }
    }
}

/// Where a name is listed more than once, the last member counts; a name that is
/// not listed has no value.
pub proof fn law_last_member_counts(
    members: Seq<(Seq<char>, JsonView)>,
    name: Seq<char>,
    i: int,
)
    requires
        -1 <= i < members.len(),
        i >= 0 ==> members[i].0 == name,
        forall|j: int| i < j < members.len() ==> (#[trigger] members[j]).0 != name,
    ensures
        lookup(members, name) == if i >= 0 {
            Some(members[i].1)
        } else {
            None
        },
{
    lemma_member_index(members, name);
    if i >= 0 {
        lemma_index_is_last(members, name, i);
    } else {
        let k = member_index(members, name);
        if k >= 0 {
            assert(members[k].0 != name);
        }
    }
}

} // verus!
