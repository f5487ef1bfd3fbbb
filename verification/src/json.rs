//! The JSON values that conversation messages are made of, and their
//! mathematical model.
use vstd::prelude::*;

verus! {

/// A JSON value, as a message of a conversation history holds it.
///
/// A number is held by its JSON text (`5`, `-3`, `2.5`), so that `5` and
/// `5.0` stay distinct just as their JSON texts do. An object is held as its
/// entries in order; an object read from a JSON map lists each name once.
#[derive(Debug)]
pub enum Json {
    Null,
    Bool(bool),
    Number(String),
    Str(String),
    Array(Vec<Json>),
    Object(Vec<(String, Json)>),
}

/// The mathematical model of a [`Json`] value: strings become sequences of
/// characters, arrays and objects become sequences.
pub enum JsonView {
    Null,
    Bool(bool),
    Number(Seq<char>),
    Str(Seq<char>),
    Array(Seq<JsonView>),
    Object(Seq<(Seq<char>, JsonView)>),
}

/// The model of a JSON value.
pub open spec fn json_view(j: Json) -> JsonView
    decreases j,
{
    match j {
        Json::Null => JsonView::Null,
        Json::Bool(b) => JsonView::Bool(b),
        Json::Number(n) => JsonView::Number(n@),
        Json::Str(s) => JsonView::Str(s@),
        Json::Array(items) => JsonView::Array(
            Seq::new(
                items.len() as nat,
                |i: int|
                    if 0 <= i < items.len() {
                        json_view(items[i])
                    } else {
                        JsonView::Null
                    },
            ),
        ),
        Json::Object(entries) => JsonView::Object(
            Seq::new(
                entries.len() as nat,
                |i: int|
                    if 0 <= i < entries.len() {
                        (entries[i].0@, json_view(entries[i].1))
                    } else {
                        (Seq::empty(), JsonView::Null)
                    },
            ),
        ),
    }
}

impl View for Json {
    type V = JsonView;

    open spec fn view(&self) -> JsonView {
        json_view(*self)
    }
}

/// The value that the first entry named `name` holds, if any entry has that name.
pub open spec fn lookup(entries: Seq<(Seq<char>, JsonView)>, name: Seq<char>) -> Option<JsonView>
    decreases entries.len(),
{
    if entries.len() == 0 {
        None
    } else if entries[0].0 == name {
        Some(entries[0].1)
    } else {
        lookup(entries.drop_first(), name)
    }
}

/// The member `name` of a JSON value: present only where the value is an
/// object with an entry of that name.
pub open spec fn field(value: JsonView, name: Seq<char>) -> Option<JsonView> {
    match value {
        JsonView::Object(entries) => lookup(entries, name),
        _ => None,
    }
}

/// Looks up the member `name` of `value`.
pub fn get_field<'a>(value: &'a Json, name: &String) -> (found: Option<&'a Json>)
    ensures
        match found {
            Some(v) => field(value@, name@) == Some(v@),
            None => field(value@, name@) is None,
        },
{
    match value {
        Json::Object(entries) => {
            let ghost es = value@->Object_0;
            assert(es.skip(0) =~= es);
            assert(field(value@, name@) == lookup(es, name@));
            let mut i: usize = 0;
            while i < entries.len()
                invariant
                    0 <= i <= entries.len(),
                    es.len() == entries.len(),
                    forall|k: int| 0 <= k < es.len() ==> #[trigger] es[k] == (entries@[k].0@, entries@[k].1@),
                    field(value@, name@) == lookup(es.skip(i as int), name@),
                decreases entries.len() - i,
            {
                assert(es.skip(i as int)[0] == es[i as int]);
                if entries[i].0 == *name {
                    assert(lookup(es.skip(i as int), name@) == Some(es[i as int].1));
                    return Some(&entries[i].1);
                }
                assert(es.skip(i as int).drop_first() =~= es.skip(i + 1));
                i += 1;
            }
            None
        },
        _ => None,
    }
}

impl Json {
    /// The member `name` of this value, where it is an object with an entry
    /// of that name.
    pub fn get(&self, name: &str) -> (found: Option<&Json>)
        ensures
            match found {
                Some(v) => field(self@, name@) == Some(v@),
                None => field(self@, name@) is None,
            },
    {
        let key = String::from_str(name);
        get_field(self, &key)
    }
}

/// Compares two JSON values: true exactly when their models are equal.
pub fn json_eq(a: &Json, b: &Json) -> (same: bool)
    ensures
        same == (a@ == b@),
    decreases a,
{
    match (a, b) {
        (Json::Null, Json::Null) => true,
        (Json::Bool(x), Json::Bool(y)) => *x == *y,
        (Json::Number(x), Json::Number(y)) => *x == *y,
        (Json::Str(x), Json::Str(y)) => *x == *y,
        (Json::Array(xs), Json::Array(ys)) => {
            if xs.len() != ys.len() {
                assert(a@->Array_0.len() != b@->Array_0.len());
                return false;
            }
            let ghost va = a@->Array_0;
            let ghost vb = b@->Array_0;
            let mut i: usize = 0;
            while i < xs.len()
                invariant
                    0 <= i <= xs.len(),
                    xs.len() == ys.len(),
                    *a == Json::Array(*xs),
                    va == a@->Array_0,
                    vb == b@->Array_0,
                    va.len() == xs.len(),
                    vb.len() == ys.len(),
                    forall|k: int| 0 <= k < xs.len() ==> #[trigger] va[k] == xs@[k]@,
                    forall|k: int| 0 <= k < ys.len() ==> #[trigger] vb[k] == ys@[k]@,
                    forall|k: int| 0 <= k < i ==> va[k] == vb[k],
                decreases xs.len() - i,
            {
                if !json_eq(&xs[i], &ys[i]) {
                    assert(va[i as int] != vb[i as int]);
                    return false;
                }
                i += 1;
            }
            assert(va =~= vb);
            true
        },
        (Json::Object(xs), Json::Object(ys)) => {
            if xs.len() != ys.len() {
                assert(a@->Object_0.len() != b@->Object_0.len());
                return false;
            }
            let ghost va = a@->Object_0;
            let ghost vb = b@->Object_0;
            let mut i: usize = 0;
            while i < xs.len()
                invariant
                    0 <= i <= xs.len(),
                    xs.len() == ys.len(),
                    *a == Json::Object(*xs),
                    va == a@->Object_0,
                    vb == b@->Object_0,
                    va.len() == xs.len(),
                    vb.len() == ys.len(),
                    forall|k: int| 0 <= k < xs.len() ==> #[trigger] va[k] == (xs@[k].0@, xs@[k].1@),
                    forall|k: int| 0 <= k < ys.len() ==> #[trigger] vb[k] == (ys@[k].0@, ys@[k].1@),
                    forall|k: int| 0 <= k < i ==> va[k] == vb[k],
                decreases xs.len() - i,
            {
                if xs[i].0 != ys[i].0 {
                    assert(va[i as int] != vb[i as int]);
                    return false;
                }
                if !json_eq(&xs[i].1, &ys[i].1) {
                    assert(va[i as int] != vb[i as int]);
                    return false;
                }
                i += 1;
            }
            assert(va =~= vb);
            true
        },
        _ => false,
    }
}

/// Copies a JSON value; the copy has the same model.
pub fn json_copy(value: &Json) -> (copy: Json)
    ensures
        copy@ == value@,
    decreases value,
{
    match value {
        Json::Null => Json::Null,
        Json::Bool(b) => Json::Bool(*b),
        Json::Number(n) => Json::Number(n.clone()),
        Json::Str(s) => Json::Str(s.clone()),
        Json::Array(items) => {
            let mut copied: Vec<Json> = Vec::new();
            let mut i: usize = 0;
            while i < items.len()
                invariant
                    0 <= i <= items.len(),
                    *value == Json::Array(*items),
                    copied.len() == i,
                    forall|k: int| 0 <= k < i ==> #[trigger] copied@[k]@ == items@[k]@,
                decreases items.len() - i,
            {
                assert(decreases_to!(*value => value->Array_0[i as int]));
                copied.push(json_copy(&items[i]));
                i += 1;
            }
            let result = Json::Array(copied);
            assert forall|k: int| 0 <= k < items.len() implies #[trigger] result@->Array_0[k] == value@->Array_0[k] by {
                assert(copied@[k]@ == items@[k]@);
            }
            assert(result@->Array_0 =~= value@->Array_0);
            result
        },
        Json::Object(entries) => {
            let mut copied: Vec<(String, Json)> = Vec::new();
            let mut i: usize = 0;
            while i < entries.len()
                invariant
                    0 <= i <= entries.len(),
                    *value == Json::Object(*entries),
                    copied.len() == i,
                    forall|k: int|
                        0 <= k < i ==> #[trigger] copied@[k].0@ == entries@[k].0@ && copied@[k].1@
                            == entries@[k].1@,
                decreases entries.len() - i,
            {
                assert(decreases_to!(*value => value->Object_0[i as int].1));
                copied.push((entries[i].0.clone(), json_copy(&entries[i].1)));
                i += 1;
            }
            let result = Json::Object(copied);
            assert(result@->Object_0 =~= value@->Object_0);
            result
        },
    }
}

impl Clone for Json {
    fn clone(&self) -> (copy: Self)
        ensures
            copy@ == self@,
    {
        json_copy(self)
    }
}

impl PartialEq for Json {
    fn eq(&self, other: &Self) -> (same: bool) {
        json_eq(self, other)
    }
}

impl vstd::std_specs::cmp::PartialEqSpecImpl for Json {
    open spec fn obeys_eq_spec() -> bool {
        true
    }

    open spec fn eq_spec(&self, other: &Self) -> bool {
        self@ == other@
    }
}

} // verus!
