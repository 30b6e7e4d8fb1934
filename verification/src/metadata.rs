//! Free-form metadata: the members of a JSON object.
use std::collections::BTreeMap;
use vstd::prelude::*;
use crate::text::{
    chars_of, decimal, format_number, parse_number, parsed_number, same_text, string_of,
};

verus! {

/// A member's value: a string, a number in its JSON notation, or the JSON
/// text of anything else.
#[derive(Debug)]
pub enum MetaValue {
    Text(String),
    Number(String),
    Json(String),
}

#[verifier::ext_equal]
pub ghost enum MetaView {
    Text(Seq<char>),
    Number(Seq<char>),
    Json(Seq<char>),
}

impl DeepView for MetaValue {
    type V = MetaView;

    open spec fn deep_view(&self) -> MetaView {
        match self {
            MetaValue::Text(s) => MetaView::Text(s@),
            MetaValue::Number(s) => MetaView::Number(s@),
            MetaValue::Json(s) => MetaView::Json(s@),
        }
    }
}

impl Clone for MetaValue {
    fn clone(&self) -> (r: Self)
        ensures
            r == *self,
    {
        match self {
            MetaValue::Text(s) => MetaValue::Text(s.clone()),
            MetaValue::Number(s) => MetaValue::Number(s.clone()),
            MetaValue::Json(s) => MetaValue::Json(s.clone()),
        }
    }
}

/// The members of an object.
pub type Metadata = Vec<(String, MetaValue)>;

pub type MetadataView = Seq<(Seq<char>, MetaView)>;

/// What `serde_json::from_str` makes of a text as an object, its members in
/// the order of their names.
pub uninterp spec fn json_object(text: Seq<char>) -> Option<Seq<(Seq<char>, MetaView)>>;

/// `serde_json::from_str` into a map of JSON values: the text alone decides
/// whether it succeeds and what the members are. Values that are neither
/// strings nor numbers come as their JSON text.
#[verifier::external_body]
fn parse_object(text: &str) -> (r: Option<Metadata>)
    ensures
        r.deep_view() == json_object(text@),
{
    let object: BTreeMap<String, serde_json::Value> = serde_json::from_str(text).ok()?;
    let members = object.into_iter().map(|(name, value)| match value {
        serde_json::Value::String(s) => (name, MetaValue::Text(s)),
        serde_json::Value::Number(n) => (name, MetaValue::Number(n.to_string())),
        other => (name, MetaValue::Json(other.to_string())),
    });
    Some(members.collect())
}

/// The JSON text that `serde_json::to_string` gives for the members of an object.
pub uninterp spec fn json_text(members: Seq<(Seq<char>, MetaView)>) -> Seq<char>;

/// The members of an object without those of some names.
pub open spec fn all_but(members: Seq<(Seq<char>, MetaView)>, names: Seq<Seq<char>>) -> Seq<
    (Seq<char>, MetaView),
> {
    members.filter(|m: (Seq<char>, MetaView)| !names.contains(m.0))
}

/// Members that were read from an object, all of them or all but some names.
pub open spec fn from_json(members: Seq<(Seq<char>, MetaView)>) -> bool {
    exists|text: Seq<char>, names: Seq<Seq<char>>|
        json_object(text) is Some && members == #[trigger] all_but(json_object(text)->0, names)
}

/// `serde_json::to_string` on a map of JSON values: the members alone
/// determine the text, in which they are ordered by name. Members that were
/// read from an object are read back from it, numbers included: with its
/// feature `float_roundtrip`, serde_json reads the numbers that it writes as
/// what they were.
#[verifier::external_body]
fn render_object(members: &Metadata) -> (r: String)
    ensures
        r@ == json_text(members.deep_view()),
        from_json(members.deep_view()) ==> json_object(r@) == Some(members.deep_view()),
{
    let values = members.iter().map(|(name, value)| match value {
        MetaValue::Text(s) => (name, serde_json::Value::String(s.clone())),
        MetaValue::Number(n) => (name, serde_json::from_str(n).unwrap_or_default()),
        MetaValue::Json(j) => (name, serde_json::from_str(j).unwrap_or_default()),
    });
    let object: BTreeMap<&String, serde_json::Value> = values.collect();
    serde_json::to_string(&object).unwrap_or_default()
}

/// The members of the object that a text holds; none where it holds no object.
pub open spec fn members_in(text: Seq<char>) -> MetadataView {
    match json_object(text) {
        Some(m) => m,
        None => Seq::empty(),
    }
}

/// The text of the members is read as the members, if they came from JSON.
pub open spec fn reads_back(members: MetadataView) -> bool {
    from_json(members) ==> json_object(json_text(members)) == Some(members)
}

/// Reads the members of an object; none where the text holds no object.
pub fn parse_members(text: &str) -> (r: Metadata)
    ensures
        r.deep_view() == members_in(text@),
{
    match parse_object(text) {
        Some(m) => m,
        None => {
            let none: Metadata = Vec::new();
            assert(none.deep_view() =~= Seq::empty());
            none
        },
    }
}

/// The JSON text of an object with these members.
pub fn render_members(members: &Metadata) -> (r: String)
    ensures
        r@ == json_text(members.deep_view()),
        reads_back(members.deep_view()),
{
    render_object(members)
}

/// The value of the first member of a name.
pub open spec fn member(members: MetadataView, name: Seq<char>) -> Option<MetaView>
    decreases members.len(),
{
    if members.len() == 0 {
        None
    } else if members[0].0 == name {
        Some(members[0].1)
    } else {
        member(members.skip(1), name)
    }
}

/// The members that do not have the name.
pub open spec fn without(members: MetadataView, name: Seq<char>) -> MetadataView {
    members.filter(|m: (Seq<char>, MetaView)| m.0 != name)
}

/// The text of a member that is a string.
pub open spec fn text_member(members: MetadataView, name: Seq<char>) -> Option<Seq<char>> {
    match member(members, name) {
        Some(MetaView::Text(s)) => Some(s),
        _ => None,
    }
}

/// The value of a member that is an unsigned number of 64 bits.
pub open spec fn number_member(members: MetadataView, name: Seq<char>) -> Option<u64> {
    match member(members, name) {
        Some(MetaView::Number(s)) => match parsed_number(s, u64::MAX as nat) {
            Some(n) => Some(n as u64),
            None => None,
        },
        _ => None,
    }
}

fn find<'a>(members: &'a Metadata, name: &str) -> (r: Option<&'a MetaValue>)
    ensures
        match r {
            Some(v) => member(members.deep_view(), name@) == Some(v.deep_view()),
            None => member(members.deep_view(), name@) is None,
        },
{
    let ghost all = members.deep_view();
    let mut i: usize = 0;
    assert(all.skip(0) =~= all);
    while i < members.len()
        invariant
            i <= members@.len(),
            all == members.deep_view(),
            member(all.skip(i as int), name@) == member(all, name@),
        decreases members@.len() - i,
    {
        assert(all.skip(i as int)[0] == members@[i as int].deep_view());
        if same_text(members[i].0.as_str(), name) {
            return Some(&members[i].1);
        }
        assert(all.skip(i as int).skip(1) =~= all.skip(i + 1));
        i += 1;
    }
    None
}

/// The text of a member that is a string.
pub fn get_text(members: &Metadata, name: &str) -> (r: Option<String>)
    ensures
        r.deep_view() == text_member(members.deep_view(), name@),
{
    match find(members, name) {
        Some(MetaValue::Text(s)) => Some(s.clone()),
        _ => None,
    }
}

/// The value of a member that is an unsigned number of 64 bits.
pub fn get_number(members: &Metadata, name: &str) -> (r: Option<u64>)
    ensures
        r == number_member(members.deep_view(), name@),
{
    match find(members, name) {
        Some(MetaValue::Number(s)) => {
            let chars = chars_of(s.as_str());
            parse_number(chars.as_slice(), u64::MAX)
        },
        _ => None,
    }
}

/// The members that do not have the name.
pub fn remove(members: &Metadata, name: &str) -> (r: Metadata)
    ensures
        r.deep_view() == without(members.deep_view(), name@),
{
    let ghost all = members.deep_view();
    let ghost other = |m: (Seq<char>, MetaView)| m.0 != name@;
    let mut out: Metadata = Vec::new();
    let mut i: usize = 0;
    assert(all.take(0) =~= Seq::empty());
    proof {
        reveal(Seq::filter);
    }
    assert(out.deep_view() =~= all.take(0).filter(other));
    while i < members.len()
        invariant
            i <= members@.len(),
            all == members.deep_view(),
            other == (|m: (Seq<char>, MetaView)| m.0 != name@),
            out.deep_view() == all.take(i as int).filter(other),
        decreases members@.len() - i,
    {
        let ghost before = out.deep_view();
        proof {
            let t = all.take(i + 1);
            assert(t.drop_last() =~= all.take(i as int));
            assert(t.last() == members@[i as int].deep_view());
            reveal(Seq::filter);
        }
        if !same_text(members[i].0.as_str(), name) {
            out.push((members[i].0.clone(), members[i].1.clone()));
            assert(out.deep_view() =~= before.push(all[i as int]));
        }
        i += 1;
    }
    assert(all.take(i as int) =~= all);
    out
}

/// The members with one more at the end.
pub fn push_text(members: &mut Metadata, name: &str, value: &String)
    ensures
        final(members).deep_view() == old(members).deep_view().push(
            (name@, MetaView::Text(value@)),
        ),
{
    let ghost before = members.deep_view();
    members.push((name.to_owned(), MetaValue::Text(value.clone())));
    assert(members.deep_view() =~= before.push((name@, MetaView::Text(value@))));
}

/// The members with one more at the end, a number.
pub fn push_number(members: &mut Metadata, name: &str, value: u64)
    ensures
        final(members).deep_view() == old(members).deep_view().push(
            (name@, MetaView::Number(decimal(value as nat))),
        ),
{
    let ghost before = members.deep_view();
    let digits = string_of(format_number(value).as_slice());
    members.push((name.to_owned(), MetaValue::Number(digits)));
    assert(members.deep_view() =~= before.push((name@, MetaView::Number(decimal(value as nat)))));
}

/// A copy of the members.
pub fn clone_members(members: &Metadata) -> (r: Metadata)
    ensures
        r.deep_view() == members.deep_view(),
{
    let mut out: Metadata = Vec::new();
    let mut i: usize = 0;
    while i < members.len()
        invariant
            i <= members@.len(),
            out@.len() == i,
            forall|k: int| 0 <= k < i ==> (#[trigger] out@[k]).deep_view() == members@[k].deep_view(),
        decreases members@.len() - i,
    {
        out.push((members[i].0.clone(), members[i].1.clone()));
        i += 1;
    }
    assert(out.deep_view() =~= members.deep_view());
    out
}

} // verus!
