use vstd::prelude::*;

use crate::json_value::JsonValue;
use crate::json_value::JsonValueSpec;

verus! {

/// Caller-supplied structured payload merged into the serialized body
/// alongside the mandatory `error` field.
///
/// Construction through [`ExtraData::new`] rejects payloads whose keys would
/// collide with the reserved field names `error` and `internal_error`, and
/// payloads with duplicate keys: both would make the serialized object
/// ambiguous.
#[derive(Clone, Debug, PartialEq)]
pub struct ExtraData {
    pub(crate) pairs: Vec<(String, JsonValue)>,
}

/// The model of a sequence of key-value pairs.
pub open spec fn pairs_view(pairs: Seq<(String, JsonValue)>) -> Seq<(Seq<char>, JsonValueSpec)> {
    pairs.map_values(|p: (String, JsonValue)| (p.0@, p.1@))
}

/// Holds when a pair sequence has distinct keys, none of them one of the
/// reserved field names of the serialized body.
pub open spec fn extra_keys_ok(ps: Seq<(Seq<char>, JsonValueSpec)>) -> bool {
    &&& forall|i: int, j: int| 0 <= i < j < ps.len() ==> ps[i].0 != ps[j].0
    &&& forall|i: int| 0 <= i < ps.len() ==> ps[i].0 != "error"@ && ps[i].0 != "internal_error"@
}

impl View for ExtraData {
    type V = Seq<(Seq<char>, JsonValueSpec)>;

    open(crate) spec fn view(&self) -> Seq<(Seq<char>, JsonValueSpec)> {
        pairs_view(self.pairs@)
    }
}

impl ExtraData {
    /// Validates and wraps a key-value payload.  Returns `Some` exactly when
    /// the keys are distinct and none is a reserved field name.
    pub fn new(pairs: Vec<(String, JsonValue)>) -> (r: Option<ExtraData>)
        ensures
            match r {
                Some(d) => d@ == pairs_view(pairs@) && extra_keys_ok(pairs_view(pairs@)),
                None => !extra_keys_ok(pairs_view(pairs@)),
            },
    {
        let reserved_error = String::from_str("error");
        let reserved_internal = String::from_str("internal_error");
        let n = pairs.len();
        let mut i: usize = 0;
        while i < n
            invariant
                i <= n,
                n == pairs.len(),
                reserved_error@ == "error"@,
                reserved_internal@ == "internal_error"@,
                forall|p: int, q: int|
                    0 <= p < q < i ==> pairs_view(pairs@)[p].0 != pairs_view(pairs@)[q].0,
                forall|p: int|
                    0 <= p < i ==> pairs_view(pairs@)[p].0 != "error"@ && pairs_view(pairs@)[p].0
                        != "internal_error"@,
            decreases n - i,
        {
            if pairs[i].0 == reserved_error || pairs[i].0 == reserved_internal {
                proof {
                    assert(pairs_view(pairs@)[i as int].0 == pairs@[i as int].0@);
                }
                return None;
            }
            let mut j: usize = 0;
            while j < i
                invariant
                    j <= i < n,
                    n == pairs.len(),
                    forall|p: int|
                        0 <= p < j ==> pairs_view(pairs@)[p].0 != pairs_view(pairs@)[i as int].0,
                decreases i - j,
            {
                if pairs[j].0 == pairs[i].0 {
                    proof {
                        assert(pairs_view(pairs@)[j as int].0 == pairs@[j as int].0@);
                        assert(pairs_view(pairs@)[i as int].0 == pairs@[i as int].0@);
                    }
                    return None;
                }
                j += 1;
            }
            i += 1;
        }
        Some(ExtraData { pairs })
    }

    /// Releases the validated key-value pairs.
    pub fn into_pairs(self) -> (r: Vec<(String, JsonValue)>)
        ensures
            pairs_view(r@) == self@,
    {
        self.pairs
    }

    /// The number of key-value pairs held.
    pub fn len(&self) -> (r: usize)
        ensures
            r == self@.len(),
    {
        self.pairs.len()
    }
}

} // verus!
