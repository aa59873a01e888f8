use vstd::prelude::*;

verus! {

/// The mathematical model of a JSON value.
pub enum Json {
    Null,
    Bool(bool),
    Int(int),
    /// A floating-point number, held as its shortest decimal text.
    Float(Seq<char>),
    Str(Seq<char>),
    Array(Seq<Json>),
    Object(Seq<(Seq<char>, Json)>),
}

/// A JSON number: an integer, or a floating-point number held as the
/// shortest decimal text that reads back to it.
#[derive(Debug, Clone, PartialEq)]
pub enum Number {
    Int(i128),
    Float(String),
}

/// A JSON value. Object members keep their order of insertion.
#[derive(Debug, PartialEq)]
pub enum Value {
    Null,
    Bool(bool),
    Number(Number),
    String(String),
    Array(Vec<Value>),
    Object(Vec<(String, Value)>),
}

impl Value {
    pub open spec fn view(&self) -> Json
        decreases self,
    {
        match self {
            Value::Null => Json::Null,
            Value::Bool(b) => Json::Bool(*b),
            Value::Number(Number::Int(i)) => Json::Int(*i as int),
            Value::Number(Number::Float(t)) => Json::Float(t@),
            Value::String(s) => Json::Str(s@),
            Value::Array(items) => Json::Array(view_items(items@)),
            Value::Object(members) => Json::Object(view_members(members@)),
        }
    }
}

pub open spec fn view_items(items: Seq<Value>) -> Seq<Json>
    decreases items,
{
    if items.len() == 0 {
        Seq::empty()
    } else {
        view_items(items.drop_last()).push(items.last().view())
    }
}

pub open spec fn view_members(members: Seq<(String, Value)>) -> Seq<(Seq<char>, Json)>
    decreases members,
{
    if members.len() == 0 {
        Seq::empty()
    } else {
        view_members(members.drop_last()).push((members.last().0@, members.last().1.view()))
    }
}


pub proof fn lemma_view_items(items: Seq<Value>)
    ensures
        view_items(items).len() == items.len(),
        forall|i: int| 0 <= i < items.len() ==> #[trigger] view_items(items)[i] == items[i].view(),
    decreases items.len(),
{
    if items.len() > 0 {
        lemma_view_items(items.drop_last());
    }
}

pub proof fn lemma_view_members(members: Seq<(String, Value)>)
    ensures
        view_members(members).len() == members.len(),
        forall|i: int|
            0 <= i < members.len() ==> #[trigger] view_members(members)[i] == (
                members[i].0@,
                members[i].1.view(),
            ),
    decreases members.len(),
{
    if members.len() > 0 {
        lemma_view_members(members.drop_last());
    }
}

impl Value {
    /// A copy of the value, with the same model.
    pub fn deep_copy(&self) -> (r: Value)
        ensures
            r.view() == self.view(),
        decreases self,
    {
        match self {
            Value::Null => Value::Null,
            Value::Bool(b) => Value::Bool(*b),
            Value::Number(Number::Int(i)) => Value::Number(Number::Int(*i)),
            Value::Number(Number::Float(t)) => Value::Number(Number::Float(t.clone())),
            Value::String(s) => Value::String(s.clone()),
            Value::Array(items) => {
                let mut copy: Vec<Value> = Vec::new();
                let mut i: usize = 0;
                while i < items.len()
                    invariant
                        *self == Value::Array(*items),
                        i <= items.len(),
                        view_items(copy@) == view_items(items@.subrange(0, i as int)),
                    decreases items.len() - i,
                {
                    proof {
                        assert(decreases_to!(items => items[i as int]));
                        assert(decreases_to!(*self => self->Array_0));
                        assert(decreases_to!(*self => items[i as int]));
                    }
                    let c = items[i].deep_copy();
                    proof {
                        assert(copy@.push(c).drop_last() =~= copy@);
                        assert(items@.subrange(0, i + 1).drop_last() =~= items@.subrange(0, i as int));
                    }
                    copy.push(c);
                    i = i + 1;
                }
                assert(items@.subrange(0, i as int) =~= items@);
                Value::Array(copy)
            },
            Value::Object(members) => {
                let mut copy: Vec<(String, Value)> = Vec::new();
                let mut i: usize = 0;
                while i < members.len()
                    invariant
                        *self == Value::Object(*members),
                        i <= members.len(),
                        view_members(copy@) == view_members(members@.subrange(0, i as int)),
                    decreases members.len() - i,
                {
                    proof {
                        assert(decreases_to!(members => members[i as int]));
                        assert(decreases_to!(members[i as int] => members[i as int].1));
                        assert(decreases_to!(*self => self->Object_0));
                        assert(decreases_to!(*self => members[i as int].1));
                    }
                    let c = (members[i].0.clone(), members[i].1.deep_copy());
                    proof {
                        assert(copy@.push(c).drop_last() =~= copy@);
                        assert(members@.subrange(0, i + 1).drop_last() =~= members@.subrange(
                            0,
                            i as int,
                        ));
                    }
                    copy.push(c);
                    i = i + 1;
                }
                assert(members@.subrange(0, i as int) =~= members@);
                Value::Object(copy)
            },
        }
    }
}

} // verus!
