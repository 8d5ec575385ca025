//! The dynamic value exchanged with commands: arguments and results.
//!
//! `ScriptValue` is the executable representation; its view is the
//! mathematical model `Val`, over which all contracts are stated.

use vstd::prelude::*;

verus! {

broadcast use vstd::std_specs::vec::group_vec_axioms;

/// The dynamic argument/result value: a small structured datatype that
/// commands receive and return.
#[derive(PartialEq, Eq, Debug)]
pub enum ScriptValue {
    Null,
    Bool(bool),
    Int(i64),
    Str(String),
    List(Vec<ScriptValue>),
    Dict(Vec<(String, ScriptValue)>),
}

/// The mathematical model of a `ScriptValue`.
#[verifier::ext_equal]
pub enum Val {
    Null,
    Bool(bool),
    Int(int),
    Str(Seq<char>),
    List(Seq<Val>),
    Dict(Seq<(Seq<char>, Val)>),
}

/// The model of one dictionary entry.
pub open spec fn pair_model(p: (String, ScriptValue)) -> (Seq<char>, Val)
    decreases p,
{
    (p.0@, p.1@)
}

/// The model of a sequence of list elements.
pub open spec fn items_model(items: Seq<ScriptValue>) -> Seq<Val>
    decreases items,
{
    Seq::new(
        items.len(),
        |i: int|
            if 0 <= i < items.len() {
                items[i]@
            } else {
                Val::Null
            },
    )
}

/// The model of a sequence of dictionary entries.
pub open spec fn pairs_model(pairs: Seq<(String, ScriptValue)>) -> Seq<(Seq<char>, Val)>
    decreases pairs,
{
    Seq::new(
        pairs.len(),
        |i: int|
            if 0 <= i < pairs.len() {
                pair_model(pairs[i])
            } else {
                (Seq::empty(), Val::Null)
            },
    )
}

impl View for ScriptValue {
    type V = Val;

    open spec fn view(&self) -> Val
        decreases self,
    {
        match self {
            ScriptValue::Null => Val::Null,
            ScriptValue::Bool(b) => Val::Bool(*b),
            ScriptValue::Int(i) => Val::Int(*i as int),
            ScriptValue::Str(s) => Val::Str(s@),
            ScriptValue::List(items) => Val::List(items_model(items@)),
            ScriptValue::Dict(pairs) => Val::Dict(pairs_model(pairs@)),
        }
    }
}

/// A model value is well formed when every integer in it fits in `i64`,
/// which holds of the view of every executable value.
pub open spec fn wf(v: Val) -> bool
    decreases v,
{
    match v {
        Val::Null => true,
        Val::Bool(_) => true,
        Val::Int(i) => i64::MIN <= i <= i64::MAX,
        Val::Str(_) => true,
        Val::List(items) => forall|i: int| 0 <= i < items.len() ==> wf(#[trigger] items[i]),
        Val::Dict(pairs) => forall|i: int|
            0 <= i < pairs.len() ==> wf(#[trigger] pairs[i].1),
    }
}

/// The view of an executable value is always well formed.
pub proof fn lemma_view_wf(v: ScriptValue)
    ensures
        wf(v@),
    decreases v,
{
    match v {
        ScriptValue::List(items) => {
            assert forall|i: int| 0 <= i < v@->List_0.len() implies wf(
                #[trigger] v@->List_0[i],
            ) by {
                assert(v@->List_0.len() == items@.len());
                assert(decreases_to!(v => items));
                assert(decreases_to!(items => items@));
                assert(decreases_to!(items@ => items@[i]));
                lemma_view_wf(items@[i]);
                assert(v@->List_0[i] == items@[i]@);
            }
        },
        ScriptValue::Dict(pairs) => {
            assert forall|i: int| 0 <= i < v@->Dict_0.len() implies wf(
                #[trigger] v@->Dict_0[i].1,
            ) by {
                assert(v@->Dict_0.len() == pairs@.len());
                assert(decreases_to!(v => pairs));
                assert(decreases_to!(pairs => pairs@));
                assert(decreases_to!(pairs@ => pairs@[i]));
                lemma_view_wf(pairs@[i].1);
                assert(v@->Dict_0[i] == pair_model(pairs@[i]));
                assert(pair_model(pairs@[i]).1 == pairs@[i].1@);
            }
        },
        _ => {},
    }
}

impl Clone for ScriptValue {
    /// A deep copy: the duplicate has the same model as the original.
    #[verifier::loop_isolation(false)]
    fn clone(&self) -> (r: Self)
        ensures
            r@ == self@,
        decreases self,
    {
        match self {
            ScriptValue::Null => ScriptValue::Null,
            ScriptValue::Bool(b) => ScriptValue::Bool(*b),
            ScriptValue::Int(i) => ScriptValue::Int(*i),
            ScriptValue::Str(s) => ScriptValue::Str(s.clone()),
            ScriptValue::List(items) => {
                let mut copy: Vec<ScriptValue> = Vec::new();
                let mut j: usize = 0;
                while j < items.len()
                    invariant
                        j <= items.len(),
                        copy@.len() == j,
                        forall|k: int| 0 <= k < j ==> copy@[k]@ == items@[k]@,
                    decreases items.len() - j,
                {
                    proof {
                        assert(decreases_to!(*self => *items));
                        assert(decreases_to!(*items => items@));
                        assert(decreases_to!(items@ => items@[j as int]));
                    }
                    copy.push(items[j].clone());
                    j = j + 1;
                }
                let r = ScriptValue::List(copy);
                proof {
                    assert(r@->List_0 =~= self@->List_0);
                    assert(r@ =~= self@);
                }
                r
            },
            ScriptValue::Dict(pairs) => {
                let mut copy: Vec<(String, ScriptValue)> = Vec::new();
                let mut j: usize = 0;
                while j < pairs.len()
                    invariant
                        j <= pairs.len(),
                        copy@.len() == j,
                        forall|k: int| 0 <= k < j ==> copy@[k].0@ == pairs@[k].0@
                            && copy@[k].1@ == pairs@[k].1@,
                    decreases pairs.len() - j,
                {
                    proof {
                        assert(decreases_to!(*self => *pairs));
                        assert(decreases_to!(*pairs => pairs@));
                        assert(decreases_to!(pairs@ => pairs@[j as int]));
                        assert(decreases_to!(pairs@[j as int] => pairs@[j as int].1));
                    }
                    let (key, val) = &pairs[j];
                    copy.push((key.clone(), val.clone()));
                    j = j + 1;
                }
                let r = ScriptValue::Dict(copy);
                proof {
                    assert forall|k: int| 0 <= k < pairs@.len() implies r@->Dict_0[k]
                        == self@->Dict_0[k] by {
                        assert(r@->Dict_0[k] == pair_model(copy@[k]));
                        assert(self@->Dict_0[k] == pair_model(pairs@[k]));
                    }
                    assert(r@->Dict_0 =~= self@->Dict_0);
                    assert(r@ =~= self@);
                }
                r
            },
        }
    }
}

} // verus!
