//! The trace event model.
//!
//! A trace event is one JSON object from a log line. The exporter only ever
//! reads string-valued fields, so an event is held as an association list
//! from field name to `Some(text)` for string values and `None` for fields
//! whose JSON value is not a string (such fields behave like missing ones,
//! except where a bucket field is required to be textual). Keys are unique.

use vstd::prelude::*;
use crate::text::str_eq;

verus! {

/// One field as the abstract pair (name, optional string content).
pub type FieldView = (Seq<char>, Option<Seq<char>>);

pub open spec fn opt_str_view(o: Option<String>) -> Option<Seq<char>> {
    match o {
        Some(s) => Some(s@),
        None => None,
    }
}

pub open spec fn pairs_view(v: Seq<(String, Option<String>)>) -> Seq<FieldView> {
    v.map(|i: int, p: (String, Option<String>)| (p.0@, opt_str_view(p.1)))
}

pub open spec fn unique_keys(s: Seq<FieldView>) -> bool {
    forall|i: int, j: int| 0 <= i < j < s.len() ==> #[trigger] s[i].0 != #[trigger] s[j].0
}

/// The map induced by an association list; later entries win.
pub open spec fn fields_map(s: Seq<FieldView>) -> Map<Seq<char>, Option<Seq<char>>>
    decreases s.len(),
{
    if s.len() == 0 {
        Map::empty()
    } else {
        fields_map(s.drop_last()).insert(s.last().0, s.last().1)
    }
}

/// Membership in the induced map is membership among the fields.
pub proof fn lemma_fields_map_contains(s: Seq<FieldView>, k: Seq<char>)
    ensures
        fields_map(s).contains_key(k) == exists|i: int|
            0 <= i < s.len() && (#[trigger] s[i]).0 == k,
    decreases s.len(),
{
    if s.len() > 0 {
        lemma_fields_map_contains(s.drop_last(), k);
        if fields_map(s).contains_key(k) {
            if k == s.last().0 {
                assert(s[s.len() - 1].0 == k);
            } else {
                let i = choose|i: int|
                    0 <= i < s.drop_last().len() && (#[trigger] s.drop_last()[i]).0 == k;
                assert(s[i].0 == k);
            }
        }
        if exists|i: int| 0 <= i < s.len() && (#[trigger] s[i]).0 == k {
            let i = choose|i: int| 0 <= i < s.len() && (#[trigger] s[i]).0 == k;
            if i < s.len() - 1 {
                assert(s.drop_last()[i].0 == k);
            } else {
                assert(fields_map(s).contains_key(k));
            }
        }
    }
}

/// With unique keys, each field is the map entry for its name.
pub proof fn lemma_fields_map_index(s: Seq<FieldView>, i: int)
    requires
        unique_keys(s),
        0 <= i < s.len(),
    ensures
        fields_map(s).contains_key(s[i].0),
        fields_map(s)[s[i].0] == s[i].1,
    decreases s.len(),
{
    if i == s.len() - 1 {
    } else {
        assert(unique_keys(s.drop_last()));
        lemma_fields_map_index(s.drop_last(), i);
        assert(s[i].0 != s.last().0);
    }
}

/// Replacing the field at `i` updates the induced map at that key.
proof fn lemma_fields_map_update(s: Seq<FieldView>, i: int, v: Option<Seq<char>>)
    requires
        unique_keys(s),
        0 <= i < s.len(),
    ensures
        fields_map(s.update(i, (s[i].0, v))) =~= fields_map(s).insert(s[i].0, v),
    decreases s.len(),
{
    let s2 = s.update(i, (s[i].0, v));
    if i == s.len() - 1 {
        assert(s2.drop_last() =~= s.drop_last());
    } else {
        assert(unique_keys(s.drop_last()));
        lemma_fields_map_update(s.drop_last(), i, v);
        assert(s2.drop_last() =~= s.drop_last().update(i, (s[i].0, v)));
        assert(s2.last() == s.last());
        assert(s[i].0 != s.last().0);
    }
}

/// The string content of a field: `Some` exactly when the field is present
/// with a string value.
pub open spec fn field_str(ev: Map<Seq<char>, Option<Seq<char>>>, name: Seq<char>) -> Option<
    Seq<char>,
> {
    if ev.contains_key(name) && ev[name] is Some {
        ev[name]
    } else {
        None
    }
}

/// A trace event: unique-keyed fields, abstractly a map from field name to
/// optional string content.
pub struct TraceEvent {
    pub fields: Vec<(String, Option<String>)>,
}

impl View for TraceEvent {
    type V = Map<Seq<char>, Option<Seq<char>>>;

    open spec fn view(&self) -> Map<Seq<char>, Option<Seq<char>>> {
        fields_map(pairs_view(self.fields@))
    }
}

impl TraceEvent {
    pub open spec fn wf(self) -> bool {
        unique_keys(pairs_view(self.fields@))
    }

    /// The fields in order; the order matters only to histogram-bucket
    /// collection, where it breaks ties between distinct keys that convert
    /// to the same bucket bound.
    pub open spec fn fields_seq(self) -> Seq<FieldView> {
        pairs_view(self.fields@)
    }

    pub fn new() -> (r: TraceEvent)
        ensures
            r.wf(),
            r@ =~= Map::<Seq<char>, Option<Seq<char>>>::empty(),
            r.fields_seq() =~= Seq::<FieldView>::empty(),
    {
        TraceEvent { fields: Vec::new() }
    }

    pub fn len(&self) -> (r: usize)
        ensures
            r == self.fields_seq().len(),
    {
        self.fields.len()
    }

    pub fn key_at(&self, i: usize) -> (r: String)
        requires
            i < self.fields_seq().len(),
        ensures
            r@ == self.fields_seq()[i as int].0,
    {
        self.fields[i].0.clone()
    }

    pub fn val_at(&self, i: usize) -> (r: Option<String>)
        requires
            i < self.fields_seq().len(),
        ensures
            opt_str_view(r) == self.fields_seq()[i as int].1,
    {
        match &self.fields[i].1 {
            Some(s) => Some(s.clone()),
            None => None,
        }
    }

    /// Insert or replace a field, as inserting into a JSON object would.
    #[verifier::loop_isolation(false)]
    pub fn insert(&mut self, key: String, value: Option<String>)
        requires
            old(self).wf(),
        ensures
            final(self).wf(),
            final(self)@ =~= old(self)@.insert(key@, opt_str_view(value)),
    {
        let n = self.fields.len();
        let mut i: usize = 0;
        while i < n
            invariant
                0 <= i <= n,
                n == self.fields@.len(),
                self == old(self),
                forall|j: int| 0 <= j < i ==> pairs_view(self.fields@)[j].0 != key@,
            decreases n - i,
        {
            if str_eq(self.fields[i].0.as_str(), key.as_str()) {
                proof {
                    lemma_fields_map_update(pairs_view(self.fields@), i as int, opt_str_view(value));
                }
                self.fields.set(i, (key, value));
                proof {
                    let oldp = pairs_view(old(self).fields@);
                    let newp = pairs_view(self.fields@);
                    assert(newp =~= oldp.update(i as int, (oldp[i as int].0, opt_str_view(value))));
                    assert forall|a: int, b: int| 0 <= a < b < newp.len() implies (#[trigger] newp[a]).0
                        != (#[trigger] newp[b]).0 by {
                        assert(oldp[a].0 == newp[a].0 && oldp[b].0 == newp[b].0);
                    }
                }
                return ;
            }
            i = i + 1;
        }
        self.fields.push((key, value));
        proof {
            let oldp = pairs_view(old(self).fields@);
            let newp = pairs_view(self.fields@);
            assert(newp =~= oldp.push((key@, opt_str_view(value))));
            assert(newp.drop_last() =~= oldp);
            assert forall|a: int, b: int| 0 <= a < b < newp.len() implies (#[trigger] newp[a]).0
                != (#[trigger] newp[b]).0 by {
                if b < newp.len() - 1 {
                    assert(oldp[a].0 == newp[a].0 && oldp[b].0 == newp[b].0);
                } else {
                    assert(newp[a].0 == oldp[a].0);
                }
            }
        }
    }

    /// Look up a field's string content: `Some` exactly when the field is
    /// present with a string value.
    #[verifier::loop_isolation(false)]
    pub fn get_str(&self, name: &str) -> (r: Option<String>)
        requires
            self.wf(),
        ensures
            opt_str_view(r) == field_str(self@, name@),
            match r {
                Some(v) => self@.contains_key(name@) && self@[name@] == Some(v@),
                None => !self@.contains_key(name@) || self@[name@] is None,
            },
    {
        let n = self.fields.len();
        let mut i: usize = 0;
        while i < n
            invariant
                0 <= i <= n,
                n == self.fields@.len(),
                self.wf(),
                forall|j: int| 0 <= j < i ==> pairs_view(self.fields@)[j].0 != name@,
            decreases n - i,
        {
            if str_eq(self.fields[i].0.as_str(), name) {
                proof {
                    lemma_fields_map_index(pairs_view(self.fields@), i as int);
                }
                return match &self.fields[i].1 {
                    Some(s) => Some(s.clone()),
                    None => None,
                };
            }
            i = i + 1;
        }
        proof {
            lemma_fields_map_contains(pairs_view(self.fields@), name@);
        }
        None
    }

    /// Whether a field is present at all, string-valued or not.
    #[verifier::loop_isolation(false)]
    pub fn has_field(&self, name: &str) -> (r: bool)
        requires
            self.wf(),
        ensures
            r == self@.contains_key(name@),
    {
        let n = self.fields.len();
        let mut i: usize = 0;
        while i < n
            invariant
                0 <= i <= n,
                forall|j: int| 0 <= j < i ==> pairs_view(self.fields@)[j].0 != name@,
            decreases n - i,
        {
            if str_eq(self.fields[i].0.as_str(), name) {
                proof {
                    lemma_fields_map_index(pairs_view(self.fields@), i as int);
                }
                return true;
            }
            i = i + 1;
        }
        proof {
            lemma_fields_map_contains(pairs_view(self.fields@), name@);
        }
        false
    }

    /// Whether a field is present with a string value.
    pub fn has_str(&self, name: &str) -> (r: bool)
        requires
            self.wf(),
        ensures
            r == (self@.contains_key(name@) && self@[name@] is Some),
    {
        match self.get_str(name) {
            Some(_) => true,
            None => false,
        }
    }
}

/// The event a JSON line denotes, if it is one JSON object: each field name
/// mapped to its value's string content, or `None` for a non-string value.
pub uninterp spec fn json_fields_of(s: Seq<char>) -> Option<Seq<FieldView>>;

/// Relies on `serde_json::from_str::<serde_json::Map<String, serde_json::Value>>`:
/// it parses a line as one JSON object, deterministically in the input text
/// alone, with unique keys; each value is kept as its text when it is a JSON
/// string and discarded otherwise.
#[verifier::external_body]
fn parse_json_fields(line: &str) -> (r: Option<Vec<(String, Option<String>)>>)
    ensures
        match r {
            Some(v) => json_fields_of(line@) == Some(pairs_view(v@)) && unique_keys(pairs_view(v@)),
            None => json_fields_of(line@) is None,
        },
{
    match serde_json::from_str::<serde_json::Map<String, serde_json::Value>>(line) {
        Ok(m) => Some(
            m.into_iter().map(
                |(k, v)| match v {
                    serde_json::Value::String(text) => (k, Some(text)),
                    _ => (k, None),
                },
            ).collect(),
        ),
        Err(_) => None,
    }
}

/// Decode one log line into a trace event.
pub fn parse_trace_event(line: &str) -> (r: Option<TraceEvent>)
    ensures
        match r {
            Some(ev) => ev.wf() && json_fields_of(line@) == Some(ev.fields_seq()),
            None => json_fields_of(line@) is None,
        },
{
    match parse_json_fields(line) {
        Some(fields) => Some(TraceEvent { fields }),
        None => None,
    }
}

} // verus!
