//! The tree value model: an owned, immutable, JSON-like sum type.
//!
//! The navigator never interprets scalar payloads; numbers are carried as
//! their rendered text, so no arithmetic is ever performed on them.

use vstd::prelude::*;

verus! {

/// An owned JSON-like tree value. Arrays index children by position; objects
/// keep their entries in insertion order and index them by position as well.
#[derive(Debug)]
pub enum Value {
    Null,
    Bool(bool),
    /// A number, carried as its rendered text.
    Number(String),
    String(String),
    Array(Vec<Value>),
    Object(Vec<(String, Value)>),
}

/// The mathematical model of a [`Value`].
pub ghost enum JsonView {
    Null,
    Bool(bool),
    Number(Seq<char>),
    String(Seq<char>),
    Array(Seq<JsonView>),
    Object(Seq<(Seq<char>, JsonView)>),
}

/// Model of a sequence of array children.
pub open spec fn view_seq(s: Seq<Value>) -> Seq<JsonView>
    decreases s,
{
    if s.len() == 0 {
        Seq::empty()
    } else {
        view_seq(s.drop_last()).push(s.last()@)
    }
}

/// Model of a sequence of object entries.
pub open spec fn view_entries(s: Seq<(String, Value)>) -> Seq<(Seq<char>, JsonView)>
    decreases s,
{
    if s.len() == 0 {
        Seq::empty()
    } else {
        view_entries(s.drop_last()).push((s.last().0@, s.last().1@))
    }
}

impl View for Value {
    type V = JsonView;

    open spec fn view(&self) -> JsonView
        decreases self,
    {
        match self {
            Value::Null => JsonView::Null,
            Value::Bool(b) => JsonView::Bool(*b),
            Value::Number(s) => JsonView::Number(s@),
            Value::String(s) => JsonView::String(s@),
            Value::Array(items) => JsonView::Array(view_seq(items@)),
            Value::Object(entries) => JsonView::Object(view_entries(entries@)),
        }
    }
}

pub broadcast proof fn lemma_view_seq(s: Seq<Value>)
    ensures
        (#[trigger] view_seq(s)).len() == s.len(),
        forall|i: int| 0 <= i < s.len() ==> view_seq(s)[i] == s[i]@,
    decreases s.len(),
{
    if s.len() > 0 {
        lemma_view_seq(s.drop_last());
        assert(view_seq(s) == view_seq(s.drop_last()).push(s.last()@));
        assert forall|i: int| 0 <= i < s.len() implies view_seq(s)[i] == s[i]@ by {
            if i < s.len() - 1 {
                assert(view_seq(s)[i] == view_seq(s.drop_last())[i]);
                assert(s.drop_last()[i] == s[i]);
            } else {
                assert(view_seq(s)[i] == s.last()@);
                assert(s.last() == s[i]);
            }
        }
    }
}

pub broadcast proof fn lemma_view_entries(s: Seq<(String, Value)>)
    ensures
        (#[trigger] view_entries(s)).len() == s.len(),
        forall|i: int| 0 <= i < s.len() ==> view_entries(s)[i] == (s[i].0@, s[i].1@),
    decreases s.len(),
{
    if s.len() > 0 {
        lemma_view_entries(s.drop_last());
        assert(view_entries(s) == view_entries(s.drop_last()).push((s.last().0@, s.last().1@)));
        assert forall|i: int| 0 <= i < s.len() implies view_entries(s)[i] == (
        s[i].0@,
        s[i].1@,
        ) by {
            if i < s.len() - 1 {
                assert(view_entries(s)[i] == view_entries(s.drop_last())[i]);
                assert(s.drop_last()[i] == s[i]);
            } else {
                assert(view_entries(s)[i] == (s.last().0@, s.last().1@));
                assert(s.last() == s[i]);
            }
        }
    }
}

impl JsonView {
    /// Containers are the values rendered as an opening and a closing line.
    pub open spec fn is_container(self) -> bool {
        self is Array || self is Object
    }

    /// How many children a value has; scalars have none.
    pub open spec fn child_count(self) -> int {
        match self {
            JsonView::Array(cs) => cs.len() as int,
            JsonView::Object(es) => es.len() as int,
            _ => 0,
        }
    }

    /// The `i`-th child of a container.
    pub open spec fn child(self, i: int) -> JsonView {
        match self {
            JsonView::Array(cs) => cs[i],
            JsonView::Object(es) => es[i].1,
            _ => arbitrary(),
        }
    }

    /// The key of the `i`-th entry, for objects.
    pub open spec fn key(self, i: int) -> Option<Seq<char>> {
        match self {
            JsonView::Object(es) => Some(es[i].0),
            _ => None,
        }
    }
}

impl Value {
    /// Whether this value is an array or an object.
    pub fn is_container(&self) -> (r: bool)
        ensures
            r == self@.is_container(),
    {
        match self {
            Value::Array(_) => true,
            Value::Object(_) => true,
            _ => false,
        }
    }

    /// The number of children (zero for scalars).
    pub fn child_count(&self) -> (r: usize)
        ensures
            r as int == self@.child_count(),
    {
        broadcast use lemma_view_seq, lemma_view_entries;

        match self {
            Value::Array(items) => {
                proof {
                    lemma_view_seq(items@);
                }
                items.len()
            },
            Value::Object(entries) => {
                proof {
                    lemma_view_entries(entries@);
                }
                entries.len()
            },
            _ => 0,
        }
    }

    /// A structurally equal copy of this value.
    #[verifier::loop_isolation(false)]
    pub fn duplicate(&self) -> (r: Value)
        ensures
            r@ == self@,
        decreases self,
    {
        broadcast use lemma_view_seq, lemma_view_entries;

        match self {
            Value::Null => Value::Null,
            Value::Bool(b) => Value::Bool(*b),
            Value::Number(s) => Value::Number(s.clone()),
            Value::String(s) => Value::String(s.clone()),
            Value::Array(items) => {
                let mut out: Vec<Value> = Vec::new();
                let mut i: usize = 0;
                while i < items.len()
                    invariant
                        i <= items.len(),
                        out@.len() == i,
                        forall|j: int| 0 <= j < i ==> out@[j]@ == items@[j]@,
                    decreases items.len() - i,
                {
                    proof {
                        assert(decreases_to!(*self => self->Array_0));
                        assert(decreases_to!(self->Array_0 => self->Array_0@[i as int]));
                        assert(items@[i as int] == self->Array_0@[i as int]);
                    }
                    let d = items[i].duplicate();
                    out.push(d);
                    i = i + 1;
                }
                proof {
                    assert(view_seq(out@) =~= view_seq(items@)) by {
                        lemma_view_seq(out@);
                        lemma_view_seq(items@);
                    }
                }
                Value::Array(out)
            },
            Value::Object(entries) => {
                let mut out: Vec<(String, Value)> = Vec::new();
                let mut i: usize = 0;
                while i < entries.len()
                    invariant
                        i <= entries.len(),
                        out@.len() == i,
                        forall|j: int| 0 <= j < i ==> out@[j].0@ == entries@[j].0@
                            && out@[j].1@ == entries@[j].1@,
                    decreases entries.len() - i,
                {
                    proof {
                        assert(decreases_to!(*self => self->Object_0));
                        assert(decreases_to!(self->Object_0 => self->Object_0@[i as int]));
                        assert(decreases_to!(self->Object_0@[i as int] => self->Object_0@[i as int].1));
                        assert(entries@[i as int].1 == self->Object_0@[i as int].1);
                    }
                    let k = entries[i].0.clone();
                    let d = entries[i].1.duplicate();
                    out.push((k, d));
                    i = i + 1;
                }
                proof {
                    assert(view_entries(out@) =~= view_entries(entries@)) by {
                        lemma_view_entries(out@);
                        lemma_view_entries(entries@);
                    }
                }
                Value::Object(out)
            },
        }
    }
}

/// Structural equality of two values, decided recursively.
#[verifier::loop_isolation(false)]
pub fn value_eq(a: &Value, b: &Value) -> (r: bool)
    ensures
        r == (a@ == b@),
    decreases a,
{
    broadcast use lemma_view_seq, lemma_view_entries;

    match (a, b) {
        (Value::Null, Value::Null) => true,
        (Value::Bool(x), Value::Bool(y)) => *x == *y,
        (Value::Number(x), Value::Number(y)) => *x == *y,
        (Value::String(x), Value::String(y)) => *x == *y,
        (Value::Array(xs), Value::Array(ys)) => {
            if xs.len() != ys.len() {
                proof {
                    assert(view_seq(xs@).len() != view_seq(ys@).len());
                }
                return false;
            }
            let mut i: usize = 0;
            while i < xs.len()
                invariant
                    i <= xs.len(),
                    forall|j: int| 0 <= j < i ==> view_seq(xs@)[j] == view_seq(ys@)[j],
                decreases xs.len() - i,
            {
                proof {
                    assert(decreases_to!(*a => a->Array_0));
                    assert(decreases_to!(a->Array_0 => a->Array_0@[i as int]));
                }
                if !value_eq(&xs[i], &ys[i]) {
                    proof {
                        assert(view_seq(xs@)[i as int] != view_seq(ys@)[i as int]);
                    }
                    return false;
                }
                i = i + 1;
            }
            proof {
                assert(view_seq(xs@) =~= view_seq(ys@));
            }
            true
        },
        (Value::Object(xs), Value::Object(ys)) => {
            if xs.len() != ys.len() {
                proof {
                    assert(view_entries(xs@).len() != view_entries(ys@).len());
                }
                return false;
            }
            let mut i: usize = 0;
            while i < xs.len()
                invariant
                    i <= xs.len(),
                    forall|j: int| 0 <= j < i ==> view_entries(xs@)[j] == view_entries(ys@)[j],
                decreases xs.len() - i,
            {
                proof {
                    assert(decreases_to!(*a => a->Object_0));
                    assert(decreases_to!(a->Object_0 => a->Object_0@[i as int]));
                    assert(decreases_to!(a->Object_0@[i as int] => a->Object_0@[i as int].1));
                }
                let keys_same = xs[i].0 == ys[i].0;
                if !keys_same || !value_eq(&xs[i].1, &ys[i].1) {
                    proof {
                        assert(view_entries(xs@)[i as int] != view_entries(ys@)[i as int]);
                    }
                    return false;
                }
                i = i + 1;
            }
            proof {
                assert(view_entries(xs@) =~= view_entries(ys@));
            }
            true
        },
        _ => {
            proof {
                assert(a@ != b@);
            }
            false
        },
    }
}

impl PartialEq for Value {
    fn eq(&self, other: &Self) -> (r: bool) {
        value_eq(self, other)
    }
}

impl vstd::std_specs::cmp::PartialEqSpecImpl for Value {
    open spec fn obeys_eq_spec() -> bool {
        true
    }

    open spec fn eq_spec(&self, other: &Self) -> bool {
        self@ == other@
    }
}

} // verus!
