//! The tree of values that a document denotes.
use vstd::prelude::*;

verus! {

/// A node of a document tree.
///
/// The members of an object are kept in the order in which their keys were
/// first inserted; [`insert_member`] keeps the keys distinct, and the parser
/// gives no other trees. `==` compares two trees member by member in that
/// order; [`JsonValue::equivalent_to`] compares objects as mappings.
#[derive(Debug, PartialEq, Eq)]
pub enum JsonValue {
    Object { members: Vec<(String, JsonValue)> },
    Array(Vec<JsonValue>),
    String(String),
    Number(usize),
    Boolean(bool),
    Null,
}

/// The mathematical value of a [`JsonValue`].
pub enum Json {
    Object(Seq<(Seq<char>, Json)>),
    Array(Seq<Json>),
    String(Seq<char>),
    Number(nat),
    Boolean(bool),
    Null,
}

/// The mathematical value of a tree, node by node.
pub open spec fn json_of(v: JsonValue) -> Json
    decreases v,
{
    match v {
        JsonValue::Object { members } => Json::Object(
            Seq::new(
                members@.len(),
                |i: int|
                    if 0 <= i < members@.len() {
                        (members@[i].0@, json_of(members@[i].1))
                    } else {
                        (Seq::empty(), Json::Null)
                    },
            ),
        ),
        JsonValue::Array(values) => Json::Array(
            Seq::new(
                values@.len(),
                |i: int|
                    if 0 <= i < values@.len() {
                        json_of(values@[i])
                    } else {
                        Json::Null
                    },
            ),
        ),
        JsonValue::String(s) => Json::String(s@),
        JsonValue::Number(n) => Json::Number(n as nat),
        JsonValue::Boolean(b) => Json::Boolean(b),
        JsonValue::Null => Json::Null,
    }
}

impl View for JsonValue {
    type V = Json;

    open spec fn view(&self) -> Json {
        json_of(*self)
    }
}

impl Clone for JsonValue {
    fn clone(&self) -> (r: JsonValue)
        ensures
            r@ == self@,
    {
        self.duplicate()
    }
}

impl JsonValue {
    /// A tree with the same value.
    pub fn duplicate(&self) -> (r: JsonValue)
        ensures
            r@ == self@,
        decreases self,
    {
        match self {
            JsonValue::Object { members } => {
                let mut copy: Vec<(String, JsonValue)> = Vec::new();
                let n = members.len();
                let mut i: usize = 0;
                while i < n
                    invariant
                        i <= n,
                        n == members.len(),
                        *self == (JsonValue::Object { members: *members }),
                        copy.len() == i,
                        forall|j: int|
                            0 <= j < i ==> (#[trigger] copy[j]).0@ == members[j].0@ && copy[j].1@
                                == members[j].1@,
                    decreases n - i,
                {
                    let key = members[i].0.clone();
                    assert(self->members == *members);
                    let value = members[i].1.duplicate();
                    copy.push((key, value));
                    i += 1;
                }
                proof {
                    lemma_object_view(copy);
                    lemma_object_view(*members);
                    assert(members_view(copy@) =~= members_view(members@));
                }
                JsonValue::Object { members: copy }
            },
            JsonValue::Array(values) => {
                let mut copy: Vec<JsonValue> = Vec::new();
                let n = values.len();
                let mut i: usize = 0;
                while i < n
                    invariant
                        i <= n,
                        n == values.len(),
                        *self == JsonValue::Array(*values),
                        copy.len() == i,
                        forall|j: int| 0 <= j < i ==> (#[trigger] copy[j])@ == values[j]@,
                    decreases n - i,
                {
                    assert(self->Array_0 == *values);
                    let value = values[i].duplicate();
                    copy.push(value);
                    i += 1;
                }
                proof {
                    lemma_array_view(copy);
                    lemma_array_view(*values);
                    assert(values_view(copy@) =~= values_view(values@));
                }
                JsonValue::Array(copy)
            },
            JsonValue::String(s) => JsonValue::String(s.clone()),
            JsonValue::Number(n) => JsonValue::Number(*n),
            JsonValue::Boolean(b) => JsonValue::Boolean(*b),
            JsonValue::Null => JsonValue::Null,
        }
    }
}

/// The views of a list of members, in order.
pub open spec fn members_view(members: Seq<(String, JsonValue)>) -> Seq<(Seq<char>, Json)> {
    Seq::new(members.len(), |i: int| (members[i].0@, members[i].1@))
}

/// The views of a list of values, in order.
pub open spec fn values_view(values: Seq<JsonValue>) -> Seq<Json> {
    Seq::new(values.len(), |i: int| values[i]@)
}

/// The view of an object is the views of its members, in order.
pub proof fn lemma_object_view(members: Vec<(String, JsonValue)>)
    ensures
        (JsonValue::Object { members })@ == Json::Object(members_view(members@)),
{
    let v = JsonValue::Object { members };
    assert(v@->Object_0 =~= members_view(members@));
}

/// The view of an array is the views of its elements, in order.
pub proof fn lemma_array_view(values: Vec<JsonValue>)
    ensures
        JsonValue::Array(values)@ == Json::Array(values_view(values@)),
{
    let v = JsonValue::Array(values);
    assert(v@->Array_0 =~= values_view(values@));
}

/// No key occurs twice among `members`.
pub open spec fn distinct_keys(members: Seq<(Seq<char>, Json)>) -> bool {
    forall|i: int, j: int| 0 <= i < j < members.len() ==> members[i].0 != members[j].0
}

/// The keys are distinct and every value is well formed.
pub open spec fn well_formed_members(members: Seq<(Seq<char>, Json)>) -> bool
    decreases members,
{
    &&& distinct_keys(members)
    &&& forall|i: int| 0 <= i < members.len() ==> well_formed((#[trigger] members[i]).1)
}

/// Every value is well formed.
pub open spec fn well_formed_elements(values: Seq<Json>) -> bool
    decreases values,
{
    forall|i: int| 0 <= i < values.len() ==> well_formed(#[trigger] values[i])
}

/// Every object in the tree has distinct keys.
pub open spec fn well_formed(v: Json) -> bool
    decreases v,
{
    match v {
        Json::Object(members) => well_formed_members(members),
        Json::Array(values) => well_formed_elements(values),
        _ => true,
    }
}

/// The least index at or after `from` whose key is `key`, or the length of
/// `members` where there is none.
pub open spec fn key_index(members: Seq<(Seq<char>, Json)>, key: Seq<char>, from: int) -> int
    decreases members.len() - from,
{
    if from < 0 || from >= members.len() {
        members.len() as int
    } else if members[from].0 == key {
        from
    } else {
        key_index(members, key, from + 1)
    }
}

/// `members` after `key` is given `value`: a member with that key has its
/// value replaced where it stands, otherwise the new member goes last.
pub open spec fn put(members: Seq<(Seq<char>, Json)>, key: Seq<char>, value: Json) -> Seq<
    (Seq<char>, Json),
> {
    let i = key_index(members, key, 0);
    if i < members.len() {
        members.update(i, (key, value))
    } else {
        members.push((key, value))
    }
}

/// The value that `key` has among `members`, if it has one.
pub open spec fn lookup(members: Seq<(Seq<char>, Json)>, key: Seq<char>) -> Option<Json> {
    let i = key_index(members, key, 0);
    if i < members.len() {
        Some(members[i].1)
    } else {
        None
    }
}

/// Where `key_index` points: at the first member from `from` on with that
/// key, or past the end where there is none.
pub proof fn lemma_key_index(members: Seq<(Seq<char>, Json)>, key: Seq<char>, from: int)
    requires
        0 <= from <= members.len(),
    ensures
        from <= key_index(members, key, from) <= members.len(),
        key_index(members, key, from) < members.len() ==> members[key_index(
            members,
            key,
            from,
        )].0 == key,
        forall|j: int|
            from <= j < key_index(members, key, from) ==> (#[trigger] members[j]).0 != key,
    decreases members.len() - from,
{
    if from < members.len() && members[from].0 != key {
        lemma_key_index(members, key, from + 1);
    }
}

/// `key_index` is `at` where no member from `from` up to `at` has the key and
/// the member at `at`, if there is one, has it.
pub proof fn lemma_key_index_is(
    members: Seq<(Seq<char>, Json)>,
    key: Seq<char>,
    from: int,
    at: int,
)
    requires
        0 <= from <= at <= members.len(),
        forall|j: int| from <= j < at ==> (#[trigger] members[j]).0 != key,
        at < members.len() ==> members[at].0 == key,
    ensures
        key_index(members, key, from) == at,
    decreases at - from,
{
    if from < at {
        assert(members[from].0 != key);
        lemma_key_index_is(members, key, from + 1, at);
    }
}

/// The last value given to a key is the one it has, and the other keys keep
/// theirs.
pub proof fn lemma_put_lookup(
    members: Seq<(Seq<char>, Json)>,
    key: Seq<char>,
    value: Json,
    other: Seq<char>,
)
    ensures
        lookup(put(members, key, value), key) == Some(value),
        other != key ==> lookup(put(members, key, value), other) == lookup(members, other),
{
    let i = key_index(members, key, 0);
    let after = put(members, key, value);
    lemma_key_index(members, key, 0);
    assert forall|j: int| 0 <= j < i implies (#[trigger] after[j]).0 != key by {
        assert(after[j] == members[j]);
    }
    lemma_key_index_is(after, key, 0, i);
    if other != key {
        let r = key_index(members, other, 0);
        lemma_key_index(members, other, 0);
        assert forall|j: int| 0 <= j < r implies (#[trigger] after[j]).0 != other by {
            assert(after[j].0 == members[j].0);
        }
        if r < members.len() {
            assert(r != i);
            assert(after[r] == members[r]);
            lemma_key_index_is(after, other, 0, r);
        } else {
            assert forall|j: int| 0 <= j < after.len() implies (#[trigger] after[j]).0
                != other by {
                if j < members.len() {
                    assert(after[j].0 == members[j].0);
                }
            }
            lemma_key_index_is(after, other, 0, after.len() as int);
        }
    }
}

/// Every member of `a` from index `i` on has its key in `b`, with an
/// equivalent value.
pub open spec fn members_within(
    a: Seq<(Seq<char>, Json)>,
    b: Seq<(Seq<char>, Json)>,
    i: int,
) -> bool
    decreases a, a.len() - i,
{
    if i < 0 || i >= a.len() {
        true
    } else {
        &&& match lookup(b, a[i].0) {
            Some(w) => equivalent(a[i].1, w),
            None => false,
        }
        &&& members_within(a, b, i + 1)
    }
}

/// Every element of `a` from index `i` on is equivalent to the element of `b`
/// at the same index.
pub open spec fn elements_match(a: Seq<Json>, b: Seq<Json>, i: int) -> bool
    decreases a, a.len() - i,
{
    if i < 0 || i >= a.len() {
        true
    } else {
        i < b.len() && equivalent(a[i], b[i]) && elements_match(a, b, i + 1)
    }
}

/// Two trees are the same up to the order of the members of their objects:
/// objects have as many members and each key of the one has an equivalent
/// value in the other, arrays are equivalent element by element, and strings,
/// numbers, booleans and null are equal.
pub open spec fn equivalent(a: Json, b: Json) -> bool
    decreases a, 0int,
{
    match a {
        Json::Object(ms) => b is Object && ms.len() == b->Object_0.len() && members_within(
            ms,
            b->Object_0,
            0,
        ),
        Json::Array(xs) => b is Array && xs.len() == b->Array_0.len() && elements_match(
            xs,
            b->Array_0,
            0,
        ),
        _ => a == b,
    }
}

/// A well-formed tree is equivalent to itself.
pub proof fn lemma_equivalent_reflexive(v: Json)
    requires
        well_formed(v),
    ensures
        equivalent(v, v),
    decreases v, 0int,
{
    match v {
        Json::Object(members) => lemma_members_within_self(members, 0),
        Json::Array(values) => lemma_elements_match_self(values, 0),
        _ => {},
    }
}

/// Each member of a well-formed object is found under its own key.
proof fn lemma_members_within_self(members: Seq<(Seq<char>, Json)>, i: int)
    requires
        well_formed(Json::Object(members)),
        0 <= i <= members.len(),
    ensures
        members_within(members, members, i),
    decreases members, members.len() - i,
{
    if i < members.len() {
        assert forall|j: int| 0 <= j < i implies (#[trigger] members[j]).0 != members[i].0 by {}
        lemma_key_index_is(members, members[i].0, 0, i);
        lemma_equivalent_reflexive(members[i].1);
        lemma_members_within_self(members, i + 1);
    }
}

/// Each element of a well-formed array is equivalent to itself.
proof fn lemma_elements_match_self(values: Seq<Json>, i: int)
    requires
        well_formed(Json::Array(values)),
        0 <= i <= values.len(),
    ensures
        elements_match(values, values, i),
    decreases values, values.len() - i,
{
    if i < values.len() {
        lemma_equivalent_reflexive(values[i]);
        lemma_elements_match_self(values, i + 1);
    }
}

impl JsonValue {
    /// Whether two trees are the same up to the order of the members of their
    /// objects.
    pub fn equivalent_to(&self, other: &JsonValue) -> (r: bool)
        ensures
            r == equivalent(self@, other@),
        decreases self,
    {
        match self {
            JsonValue::Object { members } => {
                let others = match other {
                    JsonValue::Object { members } => members,
                    _ => {
                        return false;
                    },
                };
                let ghost a = members_view(members@);
                let ghost b = members_view(others@);
                proof {
                    lemma_object_view(*members);
                    lemma_object_view(*others);
                }
                if members.len() != others.len() {
                    return false;
                }
                let n = members.len();
                let mut i: usize = 0;
                while i < n
                    invariant
                        i <= n,
                        n == members.len(),
                        n == others.len(),
                        *self == (JsonValue::Object { members: *members }),
                        self@ == Json::Object(a),
                        other@ == Json::Object(b),
                        a == members_view(members@),
                        b == members_view(others@),
                        members_within(a, b, 0) == members_within(a, b, i as int),
                    decreases n - i,
                {
                    let mut j: usize = 0;
                    while j < n && others[j].0 != members[i].0
                        invariant
                            j <= n,
                            i < n,
                            n == members.len(),
                            n == others.len(),
                            a == members_view(members@),
                            b == members_view(others@),
                            key_index(b, a[i as int].0, 0) == key_index(b, a[i as int].0, j as int),
                        decreases n - j,
                    {
                        j += 1;
                    }
                    if j >= n {
                        return false;
                    }
                    assert(self->members == *members);
                    if !members[i].1.equivalent_to(&others[j].1) {
                        return false;
                    }
                    i += 1;
                }
                true
            },
            JsonValue::Array(values) => {
                let others = match other {
                    JsonValue::Array(values) => values,
                    _ => {
                        return false;
                    },
                };
                let ghost a = values_view(values@);
                let ghost b = values_view(others@);
                proof {
                    lemma_array_view(*values);
                    lemma_array_view(*others);
                }
                if values.len() != others.len() {
                    return false;
                }
                let n = values.len();
                let mut i: usize = 0;
                while i < n
                    invariant
                        i <= n,
                        n == values.len(),
                        n == others.len(),
                        *self == JsonValue::Array(*values),
                        self@ == Json::Array(a),
                        other@ == Json::Array(b),
                        a == values_view(values@),
                        b == values_view(others@),
                        elements_match(a, b, 0) == elements_match(a, b, i as int),
                    decreases n - i,
                {
                    assert(self->Array_0 == *values);
                    if !values[i].equivalent_to(&others[i]) {
                        return false;
                    }
                    i += 1;
                }
                true
            },
            JsonValue::String(s) => match other {
                JsonValue::String(t) => *s == *t,
                _ => false,
            },
            JsonValue::Number(n) => match other {
                JsonValue::Number(m) => *n == *m,
                _ => false,
            },
            JsonValue::Boolean(x) => match other {
                JsonValue::Boolean(y) => *x == *y,
                _ => false,
            },
            JsonValue::Null => match other {
                JsonValue::Null => true,
                _ => false,
            },
        }
    }
}

/// Gives `key` the value `value` in `members`; a later assignment of a key
/// overwrites the earlier one.
pub fn insert_member(members: &mut Vec<(String, JsonValue)>, key: String, value: JsonValue)
    ensures
        members_view(final(members)@) == put(members_view(old(members)@), key@, value@),
{
    let ghost before = members_view(members@);
    let n = members.len();
    let mut i: usize = 0;
    while i < n && members[i].0 != key
        invariant
            n == members.len(),
            i <= n,
            before == members_view(members@),
            key_index(before, key@, 0) == key_index(before, key@, i as int),
        decreases n - i,
    {
        i += 1;
    }
    if i < n {
        members.set(i, (key, value));
        assert(members_view(members@) =~= before.update(i as int, (key@, value@)));
    } else {
        members.push((key, value));
        assert(members_view(members@) =~= before.push((key@, value@)));
    }
}

} // verus!
