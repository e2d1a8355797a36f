use vstd::prelude::*;

verus! {

broadcast use vstd::seq::group_seq_axioms;

/// A number as written in a document.
pub enum Number {
    Int(i64),
    UInt(u64),
    Decimal(String),
}

pub enum Value {
    Null,
    Bool(bool),
    Number(Number),
    String(String),
    Array(Vec<Value>),
    Object(Vec<(String, Value)>),
}

pub enum NumberModel {
    Int(i64),
    UInt(u64),
    Decimal(Seq<char>),
}

pub enum Json {
    Null,
    Bool(bool),
    Number(NumberModel),
    Str(Seq<char>),
    Array(Seq<Json>),
    Object(Seq<(Seq<char>, Json)>),
}

impl View for Number {
    type V = NumberModel;
    open spec fn view(&self) -> NumberModel {
        match self {
            Number::Int(i) => NumberModel::Int(*i),
            Number::UInt(u) => NumberModel::UInt(*u),
            Number::Decimal(t) => NumberModel::Decimal(t@),
        }
    }
}

impl View for Value {
    type V = Json;

    open spec fn view(&self) -> Json {
        model(*self)
    }
}

/// The model of a value: its strings as character sequences.
pub open spec fn model(v: Value) -> Json
    decreases v, 1nat,
{
    match v {
        Value::Null => Json::Null,
        Value::Bool(b) => Json::Bool(b),
        Value::Number(n) => Json::Number(n@),
        Value::String(s) => Json::Str(s@),
        Value::Array(items) => {
            proof {
                assert(decreases_to!(items => items@));
            }
            Json::Array(values_view(items@))
        },
        Value::Object(entries) => {
            proof {
                assert(decreases_to!(entries => entries@));
            }
            Json::Object(entries_view(entries@))
        },
    }
}

/// The models of a sequence of values.
pub open spec fn values_view(s: Seq<Value>) -> Seq<Json>
    decreases s, 0nat,
{
    if s.len() == 0 {
        Seq::empty()
    } else {
        proof {
            assert(decreases_to!(s => s[s.len() - 1]));
        }
        values_view(s.drop_last()).push(model(s[s.len() - 1]))
    }
}

/// The models of the entries of an object.
pub open spec fn entries_view(s: Seq<(String, Value)>) -> Seq<(Seq<char>, Json)>
    decreases s, 0nat,
{
    if s.len() == 0 {
        Seq::empty()
    } else {
        proof {
            assert(decreases_to!(s => s[s.len() - 1]));
            assert(decreases_to!(s[s.len() - 1] => s[s.len() - 1].1));
        }
        entries_view(s.drop_last()).push((s[s.len() - 1].0@, model(s[s.len() - 1].1)))
    }
}

pub proof fn lemma_array_view(items: Vec<Value>)
    ensures
        Value::Array(items)@ == Json::Array(values_view(items@)),
{
}

pub proof fn lemma_object_view(entries: Vec<(String, Value)>)
    ensures
        Value::Object(entries)@ == Json::Object(entries_view(entries@)),
{
}

pub proof fn lemma_values_view_push(s: Seq<Value>, x: Value)
    ensures
        values_view(s.push(x)) == values_view(s).push(x@),
{
    assert(s.push(x).drop_last() =~= s);
}

pub proof fn lemma_entries_view_push(s: Seq<(String, Value)>, e: (String, Value))
    ensures
        entries_view(s.push(e)) == entries_view(s).push((e.0@, e.1@)),
{
    assert(s.push(e).drop_last() =~= s);
}

pub proof fn lemma_values_view(s: Seq<Value>)
    ensures
        values_view(s).len() == s.len(),
        forall|i: int| 0 <= i < s.len() ==> #[trigger] values_view(s)[i] == s[i]@,
    decreases s.len(),
{
    if s.len() > 0 {
        lemma_values_view(s.drop_last());
    }
}

pub proof fn lemma_entries_view(s: Seq<(String, Value)>)
    ensures
        entries_view(s).len() == s.len(),
        forall|i: int| 0 <= i < s.len() ==> #[trigger] entries_view(s)[i] == (s[i].0@, s[i].1@),
    decreases s.len(),
{
    if s.len() > 0 {
        lemma_entries_view(s.drop_last());
    }
}

/// The index of the entry of `o` whose key is `k`.
pub open spec fn key_index(o: Seq<(Seq<char>, Json)>, k: Seq<char>) -> Option<int>
    decreases o.len(),
{
    if o.len() == 0 {
        None
    } else if o[0].0 == k {
        Some(0)
    } else {
        match key_index(o.drop_first(), k) {
            Some(i) => Some(i + 1),
            None => None,
        }
    }
}

pub proof fn lemma_key_index(o: Seq<(Seq<char>, Json)>, k: Seq<char>)
    ensures
        match key_index(o, k) {
            Some(i) => 0 <= i < o.len() && o[i].0 == k && forall|j: int|
                0 <= j < i ==> #[trigger] o[j].0 != k,
            None => forall|j: int| 0 <= j < o.len() ==> #[trigger] o[j].0 != k,
        },
    decreases o.len(),
{
    if o.len() > 0 && o[0].0 != k {
        lemma_key_index(o.drop_first(), k);
        assert forall|j: int| 0 < j < o.len() implies #[trigger] o[j] == o.drop_first()[j - 1] by {}
    }
}

/// `o` with `k` bound to `v`: an entry with key `k` keeps its place and takes
/// the new value, else the entry goes at the end. This is what a JSON object
/// does with a key that it already holds: the last value given wins.
pub open spec fn insert(o: Seq<(Seq<char>, Json)>, k: Seq<char>, v: Json) -> Seq<(Seq<char>, Json)> {
    match key_index(o, k) {
        Some(i) => o.update(i, (k, v)),
        None => o.push((k, v)),
    }
}

/// Every entry of `extra` inserted into `o`, in order.
pub open spec fn extend(o: Seq<(Seq<char>, Json)>, extra: Seq<(Seq<char>, Json)>) -> Seq<(Seq<char>, Json)>
    decreases extra.len(),
{
    if extra.len() == 0 {
        o
    } else {
        extend(insert(o, extra[0].0, extra[0].1), extra.drop_first())
    }
}

/// Binds `k` to `v` in the entries of an object.
pub fn insert_entry(o: &mut Vec<(String, Value)>, k: String, v: Value)
    ensures
        entries_view(final(o)@) == insert(entries_view(old(o)@), k@, v@),
{
    let ghost before = entries_view(o@);
    proof {
        lemma_entries_view(o@);
    }
    let mut i: usize = 0;
    while i < o.len()
        invariant
            i <= o@.len(),
            o@ == old(o)@,
            before == entries_view(o@),
            before.len() == o@.len(),
            forall|j: int| 0 <= j < o@.len() ==> #[trigger] before[j] == (o@[j].0@, o@[j].1@),
            forall|j: int| 0 <= j < i ==> #[trigger] before[j].0 != k@,
        decreases o@.len() - i,
    {
        if o[i].0 == k {
            proof {
                lemma_key_index(before, k@);
                assert(before[i as int].0 == k@);
                match key_index(before, k@) {
                    Some(m) => {
                        if m < i {
                            assert(before[m].0 != k@);
                        }
                        if m > i {
                            assert(before[i as int].0 != k@);
                        }
                    },
                    None => {
                        assert(before[i as int].0 != k@);
                    },
                }
            }
            o.set(i, (k, v));
            proof {
                lemma_entries_view(o@);
                assert(entries_view(o@) =~= insert(before, k@, v@));
            }
            return;
        }
        i = i + 1;
    }
    proof {
        lemma_key_index(before, k@);
        match key_index(before, k@) {
            Some(m) => {
                assert(before[m].0 != k@);
            },
            None => {},
        }
    }
    let ghost old_o = o@;
    o.push((k, v));
    proof {
        lemma_entries_view_push(old_o, (k, v));
    }
}

/// Inserts every entry of `extra`, in order.
pub fn extend_entries(o: &mut Vec<(String, Value)>, extra: Vec<(String, Value)>)
    ensures
        entries_view(final(o)@) == extend(entries_view(old(o)@), entries_view(extra@)),
{
    let mut rest = extra;
    let ghost goal = extend(entries_view(o@), entries_view(rest@));
    while rest.len() > 0
        invariant
            goal == extend(entries_view(o@), entries_view(rest@)),
        decreases rest@.len(),
    {
        let ghost before = rest@;
        let (k, v) = rest.remove(0);
        proof {
            lemma_entries_view(before);
            lemma_entries_view(rest@);
            assert(entries_view(rest@) =~= entries_view(before).drop_first());
        }
        insert_entry(o, k, v);
    }
    proof {
        lemma_entries_view(rest@);
        assert(entries_view(rest@) =~= Seq::<(Seq<char>, Json)>::empty());
    }
}

} // verus!
