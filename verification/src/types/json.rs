//! JSON values as the library holds them: plain Rust data with a spec view.
//!
//! A number is an `Int` when it fits in `i64`, a `UInt` when it is a larger
//! unsigned integer, and a `Float` otherwise, held as the text serde_json writes
//! for it. Object
//! members keep the order in which they were given (serde_json gives them in key
//! order).
use vstd::prelude::*;

verus! {

/// A JSON value.
#[derive(Debug)]
pub enum JsonValue {
    Null,
    Bool(bool),
    Int(i64),
    UInt(u64),
    /// A floating-point number, as the text that serde_json writes for it.
    Float(String),
    Str(String),
    Array(Vec<JsonValue>),
    Object(Vec<(String, JsonValue)>),
}

/// The mathematical view of a JSON value.
pub enum JsonView {
    Null,
    Bool(bool),
    Int(i64),
    UInt(u64),
    Float(Seq<char>),
    Str(Seq<char>),
    Array(Seq<JsonView>),
    Object(Seq<(Seq<char>, JsonView)>),
}

/// View of a JSON value.
pub open spec fn jview(j: JsonValue) -> JsonView
    decreases j,
{
    match j {
        JsonValue::Null => JsonView::Null,
        JsonValue::Bool(b) => JsonView::Bool(b),
        JsonValue::Int(n) => JsonView::Int(n),
        JsonValue::UInt(n) => JsonView::UInt(n),
        JsonValue::Float(t) => JsonView::Float(t@),
        JsonValue::Str(s) => JsonView::Str(s@),
        JsonValue::Array(v) => JsonView::Array(element_views(v@)),
        JsonValue::Object(v) => JsonView::Object(member_views(v@)),
    }
}

/// Views of the elements of an array.
pub open spec fn element_views(s: Seq<JsonValue>) -> Seq<JsonView>
    decreases s,
{
    if s.len() == 0 {
        Seq::empty()
    } else {
        seq![jview(s[0])] + element_views(s.drop_first())
    }
}

/// Views of the members of an object.
pub open spec fn member_views(s: Seq<(String, JsonValue)>) -> Seq<(Seq<char>, JsonView)>
    decreases s,
{
    if s.len() == 0 {
        Seq::empty()
    } else {
        seq![(s[0].0@, jview(s[0].1))] + member_views(s.drop_first())
    }
}

/// Zero as serde_json writes it: `0.0` or `-0.0`.
pub open spec fn zero_text(x: Seq<char>) -> bool {
    x == "0.0"@ || x == "-0.0"@
}

/// Two float texts name equal numbers: the same text, or both zero (`-0.0 == 0.0`).
pub open spec fn float_same(x: Seq<char>, y: Seq<char>) -> bool {
    x == y || (zero_text(x) && zero_text(y))
}

/// `Value`'s `==`: the same structure and parts, integers and floats compared as
/// numbers (an `Int` and a `UInt` of the same value are equal).
pub open spec fn json_same(a: JsonView, b: JsonView) -> bool
    decreases a,
{
    match a {
        JsonView::Int(x) => match b {
            JsonView::Int(y) => x == y,
            JsonView::UInt(y) => x >= 0 && x == y,
            _ => false,
        },
        JsonView::UInt(x) => match b {
            JsonView::UInt(y) => x == y,
            JsonView::Int(y) => y >= 0 && x == y,
            _ => false,
        },
        JsonView::Float(x) => match b {
            JsonView::Float(y) => float_same(x, y),
            _ => false,
        },
        JsonView::Array(xs) => match b {
            JsonView::Array(ys) => elements_same(xs, ys),
            _ => false,
        },
        JsonView::Object(xs) => match b {
            JsonView::Object(ys) => members_same(xs, ys),
            _ => false,
        },
        _ => a == b,
    }
}

/// Arrays of the same length whose elements are pairwise `json_same`.
pub open spec fn elements_same(xs: Seq<JsonView>, ys: Seq<JsonView>) -> bool
    decreases xs,
{
    if xs.len() == 0 {
        ys.len() == 0
    } else {
        &&& ys.len() > 0
        &&& json_same(xs[0], ys[0])
        &&& elements_same(xs.subrange(1, xs.len() as int), ys.subrange(1, ys.len() as int))
    }
}

/// Members of the same length, pairwise with the same name and `json_same` values.
pub open spec fn members_same(xs: Seq<(Seq<char>, JsonView)>, ys: Seq<(Seq<char>, JsonView)>) -> bool
    decreases xs,
{
    if xs.len() == 0 {
        ys.len() == 0
    } else {
        &&& ys.len() > 0
        &&& xs[0].0 == ys[0].0
        &&& json_same(xs[0].1, ys[0].1)
        &&& members_same(xs.subrange(1, xs.len() as int), ys.subrange(1, ys.len() as int))
    }
}

proof fn lemma_elements_same(xs: Seq<JsonView>, ys: Seq<JsonView>)
    ensures
        elements_same(xs, ys) == (xs.len() == ys.len() && forall|i: int|
            0 <= i < xs.len() ==> json_same(#[trigger] xs[i], ys[i])),
    decreases xs.len(),
{
    if xs.len() > 0 && ys.len() > 0 {
        let xt = xs.subrange(1, xs.len() as int);
        let yt = ys.subrange(1, ys.len() as int);
        lemma_elements_same(xt, yt);
        if elements_same(xs, ys) {
            assert forall|i: int| 0 <= i < xs.len() implies json_same(#[trigger] xs[i], ys[i]) by {
                if i > 0 {
                    assert(xt[i - 1] == xs[i]);
                    assert(yt[i - 1] == ys[i]);
                }
            }
        }
        if xs.len() == ys.len() && forall|i: int| 0 <= i < xs.len() ==> json_same(#[trigger] xs[i], ys[i]) {
            assert forall|i: int| 0 <= i < xt.len() implies json_same(#[trigger] xt[i], yt[i]) by {
                assert(xt[i] == xs[i + 1]);
                assert(yt[i] == ys[i + 1]);
            }
        }
    }
}

proof fn lemma_members_same(xs: Seq<(Seq<char>, JsonView)>, ys: Seq<(Seq<char>, JsonView)>)
    ensures
        members_same(xs, ys) == (xs.len() == ys.len() && forall|i: int|
            0 <= i < xs.len() ==> (#[trigger] xs[i]).0 == ys[i].0 && json_same(xs[i].1, ys[i].1)),
    decreases xs.len(),
{
    if xs.len() > 0 && ys.len() > 0 {
        let xt = xs.subrange(1, xs.len() as int);
        let yt = ys.subrange(1, ys.len() as int);
        lemma_members_same(xt, yt);
        if members_same(xs, ys) {
            assert forall|i: int| 0 <= i < xs.len() implies (#[trigger] xs[i]).0 == ys[i].0 && json_same(xs[i].1, ys[i].1) by {
                if i > 0 {
                    assert(xt[i - 1] == xs[i]);
                    assert(yt[i - 1] == ys[i]);
                }
            }
        }
        if xs.len() == ys.len() && forall|i: int| 0 <= i < xs.len() ==> (#[trigger] xs[i]).0 == ys[i].0 && json_same(xs[i].1, ys[i].1) {
            assert forall|i: int| 0 <= i < xt.len() implies (#[trigger] xt[i]).0 == yt[i].0 && json_same(xt[i].1, yt[i].1) by {
                assert(xt[i] == xs[i + 1]);
                assert(yt[i] == ys[i + 1]);
            }
        }
    }
}

/// Every value is `json_same` as itself.
pub proof fn lemma_json_same_refl(a: JsonView)
    ensures
        json_same(a, a),
    decreases a,
{
    match a {
        JsonView::Array(xs) => {
            assert forall|i: int| 0 <= i < xs.len() implies json_same(#[trigger] xs[i], xs[i]) by {
                lemma_json_same_refl(xs[i]);
            }
            lemma_elements_same(xs, xs);
        },
        JsonView::Object(xs) => {
            assert forall|i: int| 0 <= i < xs.len() implies (#[trigger] xs[i]).0 == xs[i].0 && json_same(xs[i].1, xs[i].1) by {
                lemma_json_same_refl(xs[i].1);
            }
            lemma_members_same(xs, xs);
        },
        _ => {},
    }
}

/// Some value of `d` equals `v` (as `Value`'s `==` compares).
pub open spec fn has_same(d: Seq<JsonView>, v: JsonView) -> bool {
    exists|j: int| 0 <= j < d.len() && #[trigger] json_same(d[j], v)
}

fn is_zero_text(t: &String) -> (r: bool)
    ensures
        r == zero_text(t@),
{
    crate::text::str_eq(t.as_str(), "0.0") || crate::text::str_eq(t.as_str(), "-0.0")
}

impl Clone for JsonValue {
    fn clone(&self) -> (r: JsonValue)
        ensures
            r@ == self@,
    {
        self.deep_clone()
    }
}

impl View for JsonValue {
    type V = JsonView;

    open spec fn view(&self) -> JsonView {
        jview(*self)
    }
}

/// Length and elements of `element_views`.
pub proof fn lemma_element_views(s: Seq<JsonValue>)
    ensures
        element_views(s).len() == s.len(),
        forall|i: int| 0 <= i < s.len() ==> #[trigger] element_views(s)[i] == jview(s[i]),
    decreases s.len(),
{
    if s.len() > 0 {
        lemma_element_views(s.drop_first());
        assert forall|i: int| 0 <= i < s.len() implies #[trigger] element_views(s)[i] == jview(
            s[i],
        ) by {
            if i > 0 {
                assert(s.drop_first()[i - 1] == s[i]);
            }
        }
    }
}

/// Length and members of `member_views`.
pub proof fn lemma_member_views(s: Seq<(String, JsonValue)>)
    ensures
        member_views(s).len() == s.len(),
        forall|i: int|
            0 <= i < s.len() ==> #[trigger] member_views(s)[i] == (s[i].0@, jview(s[i].1)),
    decreases s.len(),
{
    if s.len() > 0 {
        lemma_member_views(s.drop_first());
        assert forall|i: int| 0 <= i < s.len() implies #[trigger] member_views(s)[i] == (
            s[i].0@,
            jview(s[i].1),
        ) by {
            if i > 0 {
                assert(s.drop_first()[i - 1] == s[i]);
            }
        }
    }
}

/// The string a value holds, if it is a string (`Value::as_str`).
pub open spec fn view_as_str(v: JsonView) -> Option<Seq<char>> {
    match v {
        JsonView::Str(s) => Some(s),
        _ => None,
    }
}

/// The integer a value holds, if it is a number that fits in `i64` (`Value::as_i64`).
pub open spec fn view_as_i64(v: JsonView) -> Option<i64> {
    match v {
        JsonView::Int(n) => Some(n),
        _ => None,
    }
}

/// The value of the first member named `key` (from position `i` on).
pub open spec fn member_get_from(ms: Seq<(Seq<char>, JsonView)>, key: Seq<char>, i: int) -> Option<
    JsonView,
>
    decreases ms.len() - i,
{
    if i < 0 || i >= ms.len() {
        None
    } else if ms[i].0 == key {
        Some(ms[i].1)
    } else {
        member_get_from(ms, key, i + 1)
    }
}

/// `Value::get(key)`: the member named `key` of an object (`None` for any other
/// value).
pub open spec fn json_get(v: JsonView, key: Seq<char>) -> Option<JsonView> {
    match v {
        JsonView::Object(ms) => member_get_from(ms, key, 0),
        _ => None,
    }
}

impl JsonValue {
    /// The member named `key` of an object (`None` for any other value).
    pub fn get(&self, key: &str) -> (r: Option<&JsonValue>)
        ensures
            match r {
                Some(v) => json_get(self@, key@) == Some(v@),
                None => json_get(self@, key@) is None,
            },
    {
        match self {
            JsonValue::Object(ms) => {
                proof {
                    lemma_member_views(ms@);
                }
                let ghost mv = member_views(ms@);
                let mut i: usize = 0;
                while i < ms.len()
                    invariant
                        i <= ms@.len(),
                        mv == member_views(ms@),
                        self@ == JsonView::Object(mv),
                        mv.len() == ms@.len(),
                        forall|k: int| 0 <= k < mv.len() ==> #[trigger] mv[k] == (ms@[k].0@, jview(ms@[k].1)),
                        member_get_from(mv, key@, 0) == member_get_from(mv, key@, i as int),
                    decreases ms.len() - i,
                {
                    assert(mv[i as int] == (ms@[i as int].0@, jview(ms@[i as int].1)));
                    if crate::text::str_eq(ms[i].0.as_str(), key) {
                        return Some(&ms[i].1);
                    }
                    i = i + 1;
                }
                None
            },
            _ => None,
        }
    }

    /// The elements of an array.
    pub fn as_array(&self) -> (r: Option<&Vec<JsonValue>>)
        ensures
            match r {
                Some(a) => self@ == JsonView::Array(element_views(a@)),
                None => !(self@ is Array),
            },
    {
        match self {
            JsonValue::Array(a) => Some(a),
            _ => None,
        }
    }

    /// The members of an object.
    pub fn as_object(&self) -> (r: Option<&Vec<(String, JsonValue)>>)
        ensures
            match r {
                Some(ms) => self@ == JsonView::Object(member_views(ms@)),
                None => !(self@ is Object),
            },
    {
        match self {
            JsonValue::Object(ms) => Some(ms),
            _ => None,
        }
    }

    /// Deep equality of two JSON values (`Value`'s `==`): numbers are compared as
    /// numbers, so `0.0` equals `-0.0` and `Int(5)` equals `UInt(5)`.
    pub fn equals(&self, other: &JsonValue) -> (r: bool)
        ensures
            r == json_same(self@, other@),
        decreases self,
    {
        match self {
            JsonValue::Null => match other {
                JsonValue::Null => true,
                _ => false,
            },
            JsonValue::Bool(a) => match other {
                JsonValue::Bool(b) => *a == *b,
                _ => false,
            },
            JsonValue::Int(a) => match other {
                JsonValue::Int(b) => *a == *b,
                JsonValue::UInt(b) => *a >= 0 && *a as u64 == *b,
                _ => false,
            },
            JsonValue::UInt(a) => match other {
                JsonValue::UInt(b) => *a == *b,
                JsonValue::Int(b) => *b >= 0 && *b as u64 == *a,
                _ => false,
            },
            JsonValue::Float(a) => match other {
                JsonValue::Float(b) => *a == *b || (is_zero_text(a) && is_zero_text(b)),
                _ => false,
            },
            JsonValue::Str(a) => match other {
                JsonValue::Str(b) => *a == *b,
                _ => false,
            },
            JsonValue::Array(a) => match other {
                JsonValue::Array(b) => {
                    proof {
                        lemma_element_views(a@);
                        lemma_element_views(b@);
                        lemma_elements_same(element_views(a@), element_views(b@));
                    }
                    if a.len() != b.len() {
                        return false;
                    }
                    assert(decreases_to!(*self => *a));
                    let mut i: usize = 0;
                    while i < a.len()
                        invariant
                            *self == JsonValue::Array(*a),
                            *other == JsonValue::Array(*b),
                            decreases_to!(*self => *a),
                            a.len() == b.len(),
                            i <= a.len(),
                            forall|k: int| 0 <= k < i ==> json_same(jview(a@[k]), jview(b@[k])),
                        decreases a.len() - i,
                    {
                        proof {
                            assert(decreases_to!(*a => a[i as int]));
                        }
                        if !a[i].equals(&b[i]) {
                            proof {
                                lemma_element_views(a@);
                                lemma_element_views(b@);
                                lemma_elements_same(element_views(a@), element_views(b@));
                            }
                            assert(!json_same(element_views(a@)[i as int], element_views(b@)[i as int]));
                            return false;
                        }
                        i = i + 1;
                    }
                    proof {
                        lemma_element_views(a@);
                        lemma_element_views(b@);
                        lemma_elements_same(element_views(a@), element_views(b@));
                        assert forall|k: int| 0 <= k < element_views(a@).len() implies json_same(
                            #[trigger] element_views(a@)[k],
                            element_views(b@)[k],
                        ) by {
                            assert(json_same(jview(a@[k]), jview(b@[k])));
                        }
                    }
                    true
                },
                _ => false,
            },
            JsonValue::Object(a) => match other {
                JsonValue::Object(b) => {
                    proof {
                        lemma_member_views(a@);
                        lemma_member_views(b@);
                        lemma_members_same(member_views(a@), member_views(b@));
                    }
                    if a.len() != b.len() {
                        return false;
                    }
                    assert(decreases_to!(*self => *a));
                    let mut i: usize = 0;
                    while i < a.len()
                        invariant
                            *self == JsonValue::Object(*a),
                            *other == JsonValue::Object(*b),
                            decreases_to!(*self => *a),
                            a.len() == b.len(),
                            i <= a.len(),
                            forall|k: int|
                                0 <= k < i ==> a@[k].0@ == b@[k].0@ && json_same(
                                    jview(a@[k].1),
                                    jview(b@[k].1),
                                ),
                        decreases a.len() - i,
                    {
                        proof {
                            assert(decreases_to!(*a => a[i as int]));
                            assert(decreases_to!(a[i as int] => a[i as int].1));
                        }
                        if a[i].0 != b[i].0 || !a[i].1.equals(&b[i].1) {
                            proof {
                                lemma_member_views(a@);
                                lemma_member_views(b@);
                                lemma_members_same(member_views(a@), member_views(b@));
                            }
                            assert(member_views(a@)[i as int] == (a@[i as int].0@, jview(a@[i as int].1)));
                            assert(member_views(b@)[i as int] == (b@[i as int].0@, jview(b@[i as int].1)));
                            return false;
                        }
                        i = i + 1;
                    }
                    proof {
                        lemma_member_views(a@);
                        lemma_member_views(b@);
                        lemma_members_same(member_views(a@), member_views(b@));
                        assert forall|k: int| 0 <= k < member_views(a@).len() implies (
                            #[trigger] member_views(a@)[k]).0 == member_views(b@)[k].0 && json_same(
                            member_views(a@)[k].1,
                            member_views(b@)[k].1,
                        ) by {
                            assert(a@[k].0@ == b@[k].0@);
                        }
                    }
                    true
                },
                _ => false,
            },
        }
    }

    /// A copy of the value.
    pub fn deep_clone(&self) -> (r: JsonValue)
        ensures
            r@ == self@,
        decreases self,
    {
        match self {
            JsonValue::Null => JsonValue::Null,
            JsonValue::Bool(b) => JsonValue::Bool(*b),
            JsonValue::Int(n) => JsonValue::Int(*n),
            JsonValue::UInt(n) => JsonValue::UInt(*n),
            JsonValue::Float(t) => JsonValue::Float(t.clone()),
            JsonValue::Str(s) => JsonValue::Str(s.clone()),
            JsonValue::Array(a) => {
                let mut out: Vec<JsonValue> = Vec::new();
                assert(decreases_to!(*self => *a));
                let mut i: usize = 0;
                while i < a.len()
                    invariant
                        *self == JsonValue::Array(*a),
                            decreases_to!(*self => *a),
                        i <= a.len(),
                        out.len() == i,
                        forall|k: int| 0 <= k < i ==> jview(out@[k]) == jview(a@[k]),
                    decreases a.len() - i,
                {
                    proof {
                        assert(decreases_to!(*a => a[i as int]));
                    }
                    out.push(a[i].deep_clone());
                    i = i + 1;
                }
                proof {
                    lemma_element_views(a@);
                    lemma_element_views(out@);
                    assert(element_views(a@) =~= element_views(out@));
                }
                JsonValue::Array(out)
            },
            JsonValue::Object(a) => {
                let mut out: Vec<(String, JsonValue)> = Vec::new();
                assert(decreases_to!(*self => *a));
                let mut i: usize = 0;
                while i < a.len()
                    invariant
                        *self == JsonValue::Object(*a),
                            decreases_to!(*self => *a),
                        i <= a.len(),
                        out.len() == i,
                        forall|k: int|
                            0 <= k < i ==> out@[k].0@ == a@[k].0@ && jview(out@[k].1) == jview(
                                a@[k].1,
                            ),
                    decreases a.len() - i,
                {
                    proof {
                        assert(decreases_to!(*a => a[i as int]));
                        assert(decreases_to!(a[i as int] => a[i as int].1));
                    }
                    out.push((a[i].0.clone(), a[i].1.deep_clone()));
                    i = i + 1;
                }
                proof {
                    lemma_member_views(a@);
                    lemma_member_views(out@);
                    assert(member_views(a@) =~= member_views(out@));
                }
                JsonValue::Object(out)
            },
        }
    }

    /// Whether the value is `null`.
    pub fn is_null(&self) -> (r: bool)
        ensures
            r == (self@ == JsonView::Null),
    {
        match self {
            JsonValue::Null => true,
            _ => false,
        }
    }

    /// The string, if the value is a string.
    pub fn as_str(&self) -> (r: Option<&str>)
        ensures
            match r {
                Some(s) => view_as_str(self@) == Some(s@),
                None => view_as_str(self@) is None,
            },
    {
        match self {
            JsonValue::Str(s) => Some(s.as_str()),
            _ => None,
        }
    }

    /// The integer, if the value is a number that fits in `i64`.
    pub fn as_i64(&self) -> (r: Option<i64>)
        ensures
            r == view_as_i64(self@),
    {
        match self {
            JsonValue::Int(n) => Some(*n),
            _ => None,
        }
    }

    /// A string value.
    pub fn from_str(s: &str) -> (r: JsonValue)
        ensures
            r@ == JsonView::Str(s@),
    {
        JsonValue::Str(s.to_owned())
    }
}

} // verus!
