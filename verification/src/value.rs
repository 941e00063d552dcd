//! The structured payload value model.

use vstd::prelude::*;

verus! {

/// A structured payload value: null, boolean, integer, string,
/// ordered list, or string-keyed map, arbitrarily nested.
///
/// Numbers are 64-bit signed integers; narrowing every numeric width
/// to this one form is the codec's accepted, documented exception to
/// exact round-tripping of arbitrary documents.
#[derive(Debug, PartialEq)]
pub enum Value {
    Null,
    Bool(bool),
    Int(i64),
    Str(String),
    Arr(Vec<Value>),
    Obj(Vec<(String, Value)>),
}

/// The mathematical form of a [`Value`]: strings are character
/// sequences, integers are unbounded, lists and maps are sequences.
pub enum SpecValue {
    Null,
    Bool(bool),
    Int(int),
    Str(Seq<char>),
    Arr(Seq<SpecValue>),
    Obj(Seq<(Seq<char>, SpecValue)>),
}

impl View for Value {
    type V = SpecValue;

    open spec fn view(&self) -> SpecValue
        decreases self,
    {
        match self {
            Value::Null => SpecValue::Null,
            Value::Bool(b) => SpecValue::Bool(*b),
            Value::Int(i) => SpecValue::Int(*i as int),
            Value::Str(s) => SpecValue::Str(s@),
            Value::Arr(a) => SpecValue::Arr(seq_views(a@)),
            Value::Obj(o) => SpecValue::Obj(pair_views(o@)),
        }
    }
}

/// The views of a sequence of values, element by element.
pub open spec fn seq_views(a: Seq<Value>) -> Seq<SpecValue>
    decreases a,
{
    if a.len() == 0 {
        Seq::empty()
    } else {
        seq_views(a.drop_last()).push(a.last()@)
    }
}

/// The views of a sequence of key-value entries, entry by entry.
pub open spec fn pair_views(o: Seq<(String, Value)>) -> Seq<(Seq<char>, SpecValue)>
    decreases o,
{
    if o.len() == 0 {
        Seq::empty()
    } else {
        pair_views(o.drop_last()).push((o.last().0@, o.last().1@))
    }
}

/// `seq_views` keeps the length and maps each element to its view.
pub proof fn lemma_seq_views_index(a: Seq<Value>)
    ensures
        seq_views(a).len() == a.len(),
        forall|i: int| 0 <= i < a.len() ==> seq_views(a)[i] == #[trigger] a[i]@,
    decreases a.len(),
{
    if a.len() > 0 {
        lemma_seq_views_index(a.drop_last());
        assert(seq_views(a) == seq_views(a.drop_last()).push(a.last()@));
        assert forall|i: int| 0 <= i < a.len() implies seq_views(a)[i] == #[trigger] a[i]@ by {
            if i < a.len() - 1 {
                assert(seq_views(a.drop_last())[i] == a.drop_last()[i]@);
                assert(a.drop_last()[i] == a[i]);
            } else {
                assert(a[i] == a.last());
            }
        }
    }
}

/// `pair_views` keeps the length and maps each entry to its views.
pub proof fn lemma_pair_views_index(o: Seq<(String, Value)>)
    ensures
        pair_views(o).len() == o.len(),
        forall|i: int| 0 <= i < o.len() ==> pair_views(o)[i] == (
            #[trigger] o[i].0@,
            o[i].1@,
        ),
    decreases o.len(),
{
    if o.len() > 0 {
        lemma_pair_views_index(o.drop_last());
        assert(pair_views(o) == pair_views(o.drop_last()).push((o.last().0@, o.last().1@)));
        assert forall|i: int| 0 <= i < o.len() implies pair_views(o)[i] == (
            #[trigger] o[i].0@,
            o[i].1@,
        ) by {
            if i < o.len() - 1 {
                assert(pair_views(o.drop_last())[i] == (o.drop_last()[i].0@, o.drop_last()[i].1@));
                assert(o.drop_last()[i] == o[i]);
            } else {
                assert(o[i] == o.last());
            }
        }
    }
}

/// Whether every integer in the value fits the 64-bit signed width
/// that [`Value`] can represent.
pub open spec fn wf_value(v: SpecValue) -> bool
    decreases v,
{
    match v {
        SpecValue::Null => true,
        SpecValue::Bool(_) => true,
        SpecValue::Int(i) => i64::MIN <= i <= i64::MAX,
        SpecValue::Str(_) => true,
        SpecValue::Arr(a) => forall|i: int| 0 <= i < a.len() ==> wf_value(#[trigger] a[i]),
        SpecValue::Obj(o) => forall|i: int| 0 <= i < o.len() ==> wf_value(#[trigger] o[i].1),
    }
}

/// The view of every representable value is well formed.
pub proof fn lemma_view_wf(v: Value)
    ensures
        wf_value(v@),
    decreases v,
{
    match v {
        Value::Arr(a) => {
            lemma_seq_views_index(a@);
            assert forall|i: int| 0 <= i < v@->Arr_0.len() implies wf_value(
                #[trigger] v@->Arr_0[i],
            ) by {
                lemma_view_wf(a@[i]);
            }
        },
        Value::Obj(o) => {
            lemma_pair_views_index(o@);
            assert forall|i: int| 0 <= i < v@->Obj_0.len() implies wf_value(
                #[trigger] v@->Obj_0[i].1,
            ) by {
                assert(pair_views(o@)[i] == (o@[i].0@, o@[i].1@));
                lemma_view_wf(o@[i].1);
            }
        },
        _ => {},
    }
}


/// Prepending a value prepends its view.
pub proof fn lemma_seq_views_cons(v: Value, t: Seq<Value>)
    ensures
        seq_views(seq![v] + t) == seq![v@] + seq_views(t),
{
    lemma_seq_views_index(seq![v] + t);
    lemma_seq_views_index(t);
    assert(seq_views(seq![v] + t) =~= seq![v@] + seq_views(t)) by {
        assert forall|k: int| 0 <= k < t.len() + 1 implies seq_views(seq![v] + t)[k] == (seq![v@]
            + seq_views(t))[k] by {
            assert(seq_views(seq![v] + t)[k] == (seq![v] + t)[k]@);
            if k == 0 {
                assert((seq![v] + t)[0] == v);
            } else {
                assert((seq![v] + t)[k] == t[k - 1]);
                assert(seq_views(t)[k - 1] == t[k - 1]@);
            }
        }
    }
}

/// Prepending an entry prepends its views.
pub proof fn lemma_pair_views_cons(e: (String, Value), t: Seq<(String, Value)>)
    ensures
        pair_views(seq![e] + t) == seq![(e.0@, e.1@)] + pair_views(t),
{
    lemma_pair_views_index(seq![e] + t);
    lemma_pair_views_index(t);
    assert(pair_views(seq![e] + t) =~= seq![(e.0@, e.1@)] + pair_views(t)) by {
        assert forall|k: int| 0 <= k < t.len() + 1 implies pair_views(seq![e] + t)[k] == (seq![
            (e.0@, e.1@),
        ] + pair_views(t))[k] by {
            assert(pair_views(seq![e] + t)[k] == ((seq![e] + t)[k].0@, (seq![e] + t)[k].1@));
            if k == 0 {
                assert((seq![e] + t)[0] == e);
            } else {
                assert((seq![e] + t)[k] == t[k - 1]);
                assert(pair_views(t)[k - 1] == (t[k - 1].0@, t[k - 1].1@));
            }
        }
    }
}

} // verus!
