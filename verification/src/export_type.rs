//! The values that travel over the wire in RESP2.
use vstd::prelude::*;

verus! {

/// One RESP2 value.
#[derive(Debug, PartialEq, Eq)]
pub enum RespValue {
    SimpleString(String),
    Integer(i64),
    BulkString(Vec<u8>),
    Array(Vec<RespValue>),
    Null,
    Error(String),
}

/// The mathematical model of a [`RespValue`]: texts as character sequences,
/// byte strings as byte sequences, integers as `int`.
pub enum SpecResp {
    SimpleString(Seq<char>),
    Integer(int),
    BulkString(Seq<u8>),
    Array(Seq<SpecResp>),
    Null,
    Error(Seq<char>),
}

impl View for RespValue {
    type V = SpecResp;

    open spec fn view(&self) -> SpecResp
        decreases self,
    {
        match self {
            RespValue::SimpleString(s) => SpecResp::SimpleString(s@),
            RespValue::Integer(i) => SpecResp::Integer(*i as int),
            RespValue::BulkString(b) => SpecResp::BulkString(b@),
            RespValue::Array(items) => SpecResp::Array(view_items(items@)),
            RespValue::Null => SpecResp::Null,
            RespValue::Error(s) => SpecResp::Error(s@),
        }
    }
}

/// The models of a sequence of values, in order.
pub open spec fn view_items(items: Seq<RespValue>) -> Seq<SpecResp>
    decreases items,
{
    if items.len() == 0 {
        Seq::empty()
    } else {
        seq![items[0]@] + view_items(items.drop_first())
    }
}

/// `view_items` keeps the length and models each element in place.
pub proof fn lemma_view_items(items: Seq<RespValue>)
    ensures
        view_items(items).len() == items.len(),
        forall|i: int| 0 <= i < items.len() ==> #[trigger] view_items(items)[i] == items[i]@,
    decreases items.len(),
{
    if items.len() > 0 {
        lemma_view_items(items.drop_first());
        assert(view_items(items) == seq![items[0]@] + view_items(items.drop_first()));
        assert forall|i: int| 0 <= i < items.len() implies #[trigger] view_items(items)[i]
            == items[i]@ by {
            let rest = view_items(items.drop_first());
            assert(view_items(items) == seq![items[0]@] + rest);
            if i > 0 {
                assert(items.drop_first()[i - 1] == items[i]);
                assert(rest[i - 1] == items.drop_first()[i - 1]@);
                assert(view_items(items)[i] == rest[i - 1]);
            } else {
                assert(view_items(items)[0] == items[0]@);
            }
        }
    }
}

} // verus!
