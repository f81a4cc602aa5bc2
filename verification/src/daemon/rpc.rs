//! XML-RPC: the values of a call and of its answer, and their documents.
use crate::bytes::bytes_equal;
use crate::daemon::xml::{
    document_bytes, new_document, read_events, write_event, XmlEvent, XmlOut, XmlOutView, XmlView,
};
#[allow(unused_imports)]
use crate::daemon::rpc_round_trip;
#[allow(unused_imports)]
use crate::daemon::xml;
#[allow(unused_imports)]
use crate::text;
use crate::text::{
    chars_of, parse_signed_32, push_signed_decimal, text_equal, text_of_bytes, trim_text,
};
use vstd::prelude::*;
#[allow(unused_imports)]
use vstd::utf8::*;

verus! {

/// Why a document is no call.
#[derive(Debug)]
pub enum RpcError {
    /// The document is no XML: what the reader or the writer says.
    Xml(String),
    /// The document is XML, but no call.
    Message(String),
}

/// What an error holds.
#[verifier::ext_equal]
pub enum RpcFailure {
    Xml(Seq<char>),
    Message(Seq<char>),
}

impl View for RpcError {
    type V = RpcFailure;

    open spec fn view(&self) -> RpcFailure {
        match self {
            RpcError::Xml(s) => RpcFailure::Xml(s@),
            RpcError::Message(s) => RpcFailure::Message(s@),
        }
    }
}

impl RpcFailure {
    /// The error in words.
    pub open spec fn text(self) -> Seq<char> {
        match self {
            RpcFailure::Xml(s) => "XML error: "@ + s,
            RpcFailure::Message(s) => s,
        }
    }
}

impl RpcError {
    /// The error in words.
    pub fn to_text(&self) -> (r: String)
        ensures
            r@ == self@.text(),
    {
        match self {
            RpcError::Xml(s) => {
                let mut r = "XML error: ".to_owned();
                r.append(s.as_str());
                r
            },
            RpcError::Message(s) => s.clone(),
        }
    }
}

/// A value of a call or of an answer.
#[derive(Debug)]
pub enum RpcValue {
    Int(i32),
    Bool(bool),
    String(String),
    Array(Vec<RpcValue>),
    Struct(RpcStruct),
}

/// The members of a structure, in the order of their names.
#[derive(Debug)]
pub struct RpcStruct {
    pub members: Vec<RpcMember>,
}

/// One member of a structure.
#[derive(Debug)]
pub struct RpcMember {
    pub name: String,
    pub value: RpcValue,
}

/// What a value holds.
#[verifier::ext_equal]
pub enum RpcView {
    Int(int),
    Bool(bool),
    Text(Seq<char>),
    Array(Seq<RpcView>),
    Struct(Seq<MemberView>),
}

/// What a member holds.
#[verifier::ext_equal]
pub struct MemberView {
    pub name: Seq<char>,
    pub value: RpcView,
}

/// What a value holds.
pub open spec fn value_view(v: RpcValue) -> RpcView
    decreases v,
{
    match v {
        RpcValue::Int(n) => RpcView::Int(n as int),
        RpcValue::Bool(b) => RpcView::Bool(b),
        RpcValue::String(s) => RpcView::Text(s@),
        RpcValue::Array(a) => RpcView::Array(values_view(a@)),
        RpcValue::Struct(m) => RpcView::Struct(members_view(m.members@)),
    }
}

/// What a list of values holds.
pub open spec fn values_view(s: Seq<RpcValue>) -> Seq<RpcView>
    decreases s,
{
    if s.len() == 0 {
        Seq::empty()
    } else {
        values_view(s.drop_last()).push(value_view(s.last()))
    }
}

/// What a list of members holds.
pub open spec fn members_view(s: Seq<RpcMember>) -> Seq<MemberView>
    decreases s,
{
    if s.len() == 0 {
        Seq::empty()
    } else {
        members_view(s.drop_last()).push(
            MemberView { name: s.last().name@, value: value_view(s.last().value) },
        )
    }
}

impl View for RpcValue {
    type V = RpcView;

    open spec fn view(&self) -> RpcView {
        value_view(*self)
    }
}

impl View for RpcStruct {
    type V = Seq<MemberView>;

    open spec fn view(&self) -> Seq<MemberView> {
        members_view(self.members@)
    }
}

/// A list of values holds what its values hold.
pub proof fn lemma_values_view(s: Seq<RpcValue>)
    ensures
        values_view(s).len() == s.len(),
        forall|i: int| 0 <= i < s.len() ==> values_view(s)[i] == value_view(#[trigger] s[i]),
    decreases s.len(),
{
    if s.len() > 0 {
        lemma_values_view(s.drop_last());
        assert forall|i: int| 0 <= i < s.len() implies values_view(s)[i] == value_view(
            #[trigger] s[i],
        ) by {
            if i < s.len() - 1 {
                assert(s.drop_last()[i] == s[i]);
            }
        }
    }
}

proof fn lemma_members_view(s: Seq<RpcMember>)
    ensures
        members_view(s).len() == s.len(),
        forall|i: int|
            0 <= i < s.len() ==> members_view(s)[i].name == (#[trigger] s[i]).name@
                && members_view(s)[i].value == value_view(s[i].value),
    decreases s.len(),
{
    if s.len() > 0 {
        lemma_members_view(s.drop_last());
        assert forall|i: int| 0 <= i < s.len() implies members_view(s)[i].name == (
        #[trigger] s[i]).name@ && members_view(s)[i].value == value_view(s[i].value) by {
            if i < s.len() - 1 {
                assert(s.drop_last()[i] == s[i]);
            }
        }
    }
}

/// A copy of a value.
fn copy_value(val: &RpcValue) -> (r: RpcValue)
    ensures
        r@ == val@,
    decreases val,
{
    match val {
        RpcValue::Int(n) => RpcValue::Int(*n),
        RpcValue::Bool(b) => RpcValue::Bool(*b),
        RpcValue::String(s) => RpcValue::String(s.clone()),
        RpcValue::Array(arr) => {
            let mut items: Vec<RpcValue> = Vec::new();
            let mut i: usize = 0;
            while i < arr.len()
                invariant
                    i <= arr@.len(),
                    val == RpcValue::Array(*arr),
                    values_view(items@) == values_view(arr@.subrange(0, i as int)),
                decreases arr.len() - i,
            {
                proof {
                    assert(decreases_to!(val => val->Array_0));
                    assert(decreases_to!(arr => arr@));
                    assert(decreases_to!(arr@ => arr@[i as int]));
                }
                let ghost had = items@;
                items.push(copy_value(&arr[i]));
                proof {
                    assert(items@.drop_last() =~= had);
                    assert(arr@.subrange(0, i + 1).drop_last() =~= arr@.subrange(0, i as int));
                }
                i += 1;
            }
            proof {
                assert(arr@.subrange(0, i as int) =~= arr@);
            }
            RpcValue::Array(items)
        },
        RpcValue::Struct(map) => {
            let mut members: Vec<RpcMember> = Vec::new();
            let mut i: usize = 0;
            while i < map.members.len()
                invariant
                    i <= map.members@.len(),
                    val == RpcValue::Struct(*map),
                    members_view(members@) == members_view(map.members@.subrange(0, i as int)),
                decreases map.members.len() - i,
            {
                proof {
                    let m = map.members@[i as int];
                    assert(decreases_to!(val => val->Struct_0));
                    assert(decreases_to!(map => map.members));
                    assert(decreases_to!(map.members => map.members@));
                    assert(decreases_to!(map.members@ => map.members@[i as int]));
                    assert(decreases_to!(m => m.value));
                }
                let ghost had = members@;
                members.push(
                    RpcMember {
                        name: map.members[i].name.clone(),
                        value: copy_value(&map.members[i].value),
                    },
                );
                proof {
                    assert(members@.drop_last() =~= had);
                    assert(map.members@.subrange(0, i + 1).drop_last() =~= map.members@.subrange(
                        0,
                        i as int,
                    ));
                }
                i += 1;
            }
            proof {
                assert(map.members@.subrange(0, i as int) =~= map.members@);
            }
            RpcValue::Struct(RpcStruct { members })
        },
    }
}

impl Clone for RpcValue {
    fn clone(&self) -> (r: RpcValue)
        ensures
            r@ == self@,
    {
        copy_value(self)
    }
}

/// Whether `a` comes before `b` in the order of texts.
pub open spec fn text_less(a: Seq<char>, b: Seq<char>) -> bool
    decreases a.len(),
{
    if a.len() == 0 || b.len() == 0 {
        b.len() > 0
    } else if a[0] != b[0] {
        a[0] < b[0]
    } else {
        text_less(a.drop_first(), b.drop_first())
    }
}

/// Whether `a` comes before `b` in the order of texts.
fn text_before(a: &str, b: &str) -> (r: bool)
    ensures
        r == text_less(a@, b@),
{
    let x = chars_of(a);
    let y = chars_of(b);
    let mut i: usize = 0;
    proof {
        assert(x@.skip(0) =~= x@);
        assert(y@.skip(0) =~= y@);
    }
    while i < x.len() && i < y.len()
        invariant
            i <= x@.len(),
            i <= y@.len(),
            x@ == a@,
            y@ == b@,
            text_less(x@.skip(i as int), y@.skip(i as int)) == text_less(a@, b@),
        decreases x.len() - i,
    {
        proof {
            assert(x@.skip(i as int).drop_first() =~= x@.skip(i + 1));
            assert(y@.skip(i as int).drop_first() =~= y@.skip(i + 1));
        }
        if x[i] != y[i] {
            return x[i] < y[i];
        }
        i += 1;
    }
    i < y.len()
}

/// How many members stand before the place of `name`.
pub open spec fn rank(m: Seq<MemberView>, name: Seq<char>) -> int
    decreases m.len(),
{
    if m.len() > 0 && text_less(m[0].name, name) {
        1 + rank(m.drop_first(), name)
    } else {
        0
    }
}

/// The members with `name` set to `value`.
pub open spec fn with_member(m: Seq<MemberView>, name: Seq<char>, value: RpcView) -> Seq<
    MemberView,
> {
    let i = rank(m, name);
    let new = MemberView { name, value };
    if i < m.len() && m[i].name == name {
        m.update(i, new)
    } else {
        m.insert(i, new)
    }
}

/// Whether the names of the members are in their order, each once.
pub open spec fn in_order(m: Seq<MemberView>) -> bool {
    forall|i: int, j: int| 0 <= i < j < m.len() ==> text_less(#[trigger] m[i].name, #[trigger] m[j].name)
}

/// The value of the first member called `name`.
pub open spec fn member_value(m: Seq<MemberView>, name: Seq<char>) -> Option<RpcView>
    decreases m.len(),
{
    if m.len() == 0 {
        None
    } else if m[0].name == name {
        Some(m[0].value)
    } else {
        member_value(m.drop_first(), name)
    }
}

proof fn lemma_rank_bounds(m: Seq<MemberView>, name: Seq<char>)
    ensures
        0 <= rank(m, name) <= m.len(),
        forall|i: int| 0 <= i < rank(m, name) ==> text_less(#[trigger] m[i].name, name),
        rank(m, name) < m.len() ==> !text_less(m[rank(m, name)].name, name),
    decreases m.len(),
{
    if m.len() > 0 && text_less(m[0].name, name) {
        lemma_rank_bounds(m.drop_first(), name);
        assert forall|i: int| 0 <= i < rank(m, name) implies text_less(#[trigger] m[i].name, name) by {
            if i > 0 {
                assert(m.drop_first()[i - 1] == m[i]);
            }
        }
    }
}

proof fn lemma_less_trichotomy(a: Seq<char>, b: Seq<char>)
    ensures
        !text_less(a, a),
        text_less(a, b) ==> !text_less(b, a),
        a != b ==> text_less(a, b) || text_less(b, a),
    decreases a.len(),
{
    if a.len() == 0 {
        if b.len() == 0 {
            assert(a =~= b);
        }
    } else if b.len() > 0 {
        lemma_less_trichotomy(a.drop_first(), b.drop_first());
        if a[0] == b[0] && a.drop_first() == b.drop_first() {
            assert(a =~= seq![a[0]] + a.drop_first());
            assert(b =~= seq![b[0]] + b.drop_first());
        }
    }
    if a.len() > 0 {
        lemma_less_irreflexive(a);
    }
}

proof fn lemma_less_irreflexive(a: Seq<char>)
    ensures
        !text_less(a, a),
    decreases a.len(),
{
    if a.len() > 0 {
        lemma_less_irreflexive(a.drop_first());
    }
}

proof fn lemma_less_transitive(a: Seq<char>, b: Seq<char>, c: Seq<char>)
    requires
        text_less(a, b),
        text_less(b, c),
    ensures
        text_less(a, c),
    decreases a.len(),
{
    if a.len() > 0 && b.len() > 0 && c.len() > 0 && a[0] == b[0] && b[0] == c[0] {
        lemma_less_transitive(a.drop_first(), b.drop_first(), c.drop_first());
    }
}

/// Setting a member keeps the names in their order, each once.
pub proof fn law_members_stay_in_order(m: Seq<MemberView>, name: Seq<char>, value: RpcView)
    requires
        in_order(m),
    ensures
        in_order(with_member(m, name, value)),
{
    let k = rank(m, name);
    let n = with_member(m, name, value);
    lemma_rank_bounds(m, name);
    if !(k < m.len() && m[k].name == name) {
        assert forall|i: int, j: int| 0 <= i < j < n.len() implies text_less(
            #[trigger] n[i].name,
            #[trigger] n[j].name,
        ) by {
            if j < k {
                assert(n[i] == m[i] && n[j] == m[j]);
            } else if j == k {
                assert(n[i] == m[i]);
            } else if i < k {
                assert(n[i] == m[i] && n[j] == m[j - 1]);
            } else if i == k {
                assert(n[j] == m[j - 1]);
                lemma_less_trichotomy(m[k].name, name);
                if j - 1 > k {
                    lemma_less_transitive(name, m[k].name, m[j - 1].name);
                }
            } else {
                assert(n[i] == m[i - 1] && n[j] == m[j - 1]);
            }
        }
    } else {
        assert forall|i: int, j: int| 0 <= i < j < n.len() implies text_less(
            #[trigger] n[i].name,
            #[trigger] n[j].name,
        ) by {
            assert(n[i].name == m[i].name && n[j].name == m[j].name);
        }
    }
}

proof fn lemma_member_value_at(m: Seq<MemberView>, name: Seq<char>, k: int)
    requires
        0 <= k < m.len(),
        m[k].name == name,
        forall|i: int| 0 <= i < k ==> (#[trigger] m[i]).name != name,
    ensures
        member_value(m, name) == Some(m[k].value),
    decreases m.len(),
{
    if k > 0 {
        assert(m[0].name != name);
        assert forall|i: int| 0 <= i < k - 1 implies (#[trigger] m.drop_first()[i]).name != name by {
            assert(m[i + 1].name != name);
        }
        lemma_member_value_at(m.drop_first(), name, k - 1);
    }
}

/// A member that was set is found, with the value it was set to.
pub proof fn law_set_member_is_found(m: Seq<MemberView>, name: Seq<char>, value: RpcView)
    ensures
        member_value(with_member(m, name, value), name) == Some(value),
{
    let k = rank(m, name);
    let n = with_member(m, name, value);
    lemma_rank_bounds(m, name);
    assert forall|i: int| 0 <= i < k implies (#[trigger] n[i]).name != name by {
        assert(n[i] == m[i]);
        lemma_less_irreflexive(name);
    }
    lemma_member_value_at(n, name, k);
}

impl RpcStruct {
    /// A structure without members.
    pub fn new() -> (r: RpcStruct)
        ensures
            r@ == Seq::<MemberView>::empty(),
    {
        RpcStruct { members: Vec::new() }
    }

    /// Sets a member: one of that name is replaced, a new one takes its place in
    /// the order of names.
    pub fn insert(&mut self, name: String, value: RpcValue)
        ensures
            final(self)@ == with_member(old(self)@, name@, value@),
    {
        let ghost m = members_view(self.members@);
        let mut i: usize = 0;
        proof {
            lemma_members_view(self.members@);
            assert(m.skip(0) =~= m);
        }
        while i < self.members.len() && text_before(self.members[i].name.as_str(), name.as_str())
            invariant
                i <= self.members@.len(),
                self.members@ == old(self).members@,
                m == members_view(self.members@),
                m.len() == self.members@.len(),
                forall|k: int|
                    0 <= k < m.len() ==> m[k].name == (#[trigger] self.members@[k]).name@,
                rank(m, name@) == i + rank(m.skip(i as int), name@),
            ensures
                i == rank(m, name@),
                i <= self.members@.len(),
                self.members@ == old(self).members@,
            decreases self.members.len() - i,
        {
            proof {
                assert(m.skip(i as int).drop_first() =~= m.skip(i + 1));
            }
            i += 1;
        }
        let ghost had = self.members@;
        let new = RpcMember { name, value };
        let ghost added = new;
        if i < self.members.len() && text_equal(self.members[i].name.as_str(), new.name.as_str()) {
            self.members.set(i, new);
            proof {
                lemma_members_view(had);
                lemma_members_view(self.members@);
                assert forall|k: int| 0 <= k < self.members@.len() implies members_view(
                    self.members@,
                )[k] == #[trigger] with_member(m, added.name@, added.value@)[k] by {
                    let e = self.members@[k];
                    if k != i {
                        assert(e == had[k]);
                    }
                }
                assert(members_view(self.members@) =~= with_member(m, added.name@, added.value@));
            }
        } else {
            self.members.insert(i, new);
            proof {
                lemma_members_view(had);
                lemma_members_view(self.members@);
                assert forall|k: int| 0 <= k < self.members@.len() implies members_view(
                    self.members@,
                )[k] == #[trigger] with_member(m, added.name@, added.value@)[k] by {
                    let e = self.members@[k];
                    if k < i {
                        assert(e == had[k]);
                    } else if k > i {
                        assert(e == had[k - 1]);
                    }
                }
                assert(members_view(self.members@) =~= with_member(m, added.name@, added.value@));
            }
        }
    }

    /// The value of the member called `key`.
    pub fn get(&self, key: &str) -> (r: Option<&RpcValue>)
        ensures
            match r {
                Some(v) => member_value(self@, key@) == Some(v@),
                None => member_value(self@, key@) is None,
            },
    {
        let ghost m = self@;
        proof {
            lemma_members_view(self.members@);
            assert(m.skip(0) =~= m);
        }
        let mut i: usize = 0;
        while i < self.members.len()
            invariant
                i <= self.members@.len(),
                m == members_view(self.members@),
                m.len() == self.members@.len(),
                forall|k: int|
                    0 <= k < m.len() ==> m[k].name == (#[trigger] self.members@[k]).name@
                        && m[k].value == value_view(self.members@[k].value),
                member_value(m, key@) == member_value(m.skip(i as int), key@),
            decreases self.members.len() - i,
        {
            proof {
                assert(m.skip(i as int).drop_first() =~= m.skip(i + 1));
                assert(self.members@[i as int].name@ == m[i as int].name);
            }
            if text_equal(self.members[i].name.as_str(), key) {
                return Some(&self.members[i].value);
            }
            i += 1;
        }
        None
    }
}

impl RpcValue {
    /// The text of a text value.
    pub fn as_str(&self) -> (r: Option<&str>)
        ensures
            match r {
                Some(s) => self@ == RpcView::Text(s@),
                None => !(self@ is Text),
            },
    {
        match self {
            RpcValue::String(s) => Some(s.as_str()),
            _ => None,
        }
    }

    /// The number of an integer value.
    pub fn as_i32(&self) -> (r: Option<i32>)
        ensures
            match r {
                Some(n) => self@ == RpcView::Int(n as int),
                None => !(self@ is Int),
            },
    {
        match self {
            RpcValue::Int(n) => Some(*n),
            _ => None,
        }
    }

    /// The truth value of a boolean value.
    pub fn as_bool(&self) -> (r: Option<bool>)
        ensures
            match r {
                Some(b) => self@ == RpcView::Bool(b),
                None => !(self@ is Bool),
            },
    {
        match self {
            RpcValue::Bool(b) => Some(*b),
            _ => None,
        }
    }

    /// The items of an array.
    pub fn as_array(&self) -> (r: Option<&[RpcValue]>)
        ensures
            match r {
                Some(a) => self@ == RpcView::Array(values_view(a@)),
                None => !(self@ is Array),
            },
    {
        match self {
            RpcValue::Array(a) => Some(a.as_slice()),
            _ => None,
        }
    }

    /// The members of a structure.
    pub fn as_struct(&self) -> (r: Option<&RpcStruct>)
        ensures
            match r {
                Some(m) => self@ == RpcView::Struct(m@),
                None => !(self@ is Struct),
            },
    {
        match self {
            RpcValue::Struct(m) => Some(m),
            _ => None,
        }
    }

    /// The value of the member called `key`, where this is a structure that has one.
    pub fn get(&self, key: &str) -> (r: Option<&RpcValue>)
        ensures
            match r {
                Some(v) => self@ matches RpcView::Struct(m) && member_value(m, key@) == Some(v@),
                None => self@ matches RpcView::Struct(m) ==> member_value(m, key@) is None,
            },
    {
        match self.as_struct() {
            Some(m) => m.get(key),
            None => None,
        }
    }
}

/// A call: the name of a method and its parameters.
#[derive(Debug)]
pub struct RpcMethodCall {
    pub method_name: String,
    pub params: Vec<RpcValue>,
}

/// What a call holds.
#[verifier::ext_equal]
pub struct CallView {
    pub method_name: Seq<char>,
    pub params: Seq<RpcView>,
}

impl View for RpcMethodCall {
    type V = CallView;

    open spec fn view(&self) -> CallView {
        CallView { method_name: self.method_name@, params: values_view(self.params@) }
    }
}

/// The answer to a call.
#[derive(Debug)]
pub struct RpcMethodResponse {
    pub value: RpcValue,
}

/// The events of one element that holds only text.
pub open spec fn leaf_events(tag: Seq<char>, text: Seq<char>) -> Seq<XmlOutView> {
    seq![XmlOutView::Start(tag), XmlOutView::Text(text), XmlOutView::End(tag)]
}

/// The events of a value: its type's tag around its content.
pub open spec fn value_events(v: RpcView) -> Seq<XmlOutView>
    decreases v,
{
    match v {
        RpcView::Int(n) => leaf_events("int"@, text::signed_decimal(n)),
        RpcView::Bool(b) => leaf_events("boolean"@, if b { "1"@ } else { "0"@ }),
        RpcView::Text(s) => leaf_events("string"@, s),
        RpcView::Array(items) => seq![XmlOutView::Start("array"@), XmlOutView::Start("data"@)]
            + items_events(items) + seq![XmlOutView::End("data"@), XmlOutView::End("array"@)],
        RpcView::Struct(members) => seq![XmlOutView::Start("struct"@)] + members_events(members)
            + seq![XmlOutView::End("struct"@)],
    }
}

/// The events of the items of an array, each in a `value` element.
pub open spec fn items_events(items: Seq<RpcView>) -> Seq<XmlOutView>
    decreases items,
{
    if items.len() == 0 {
        Seq::empty()
    } else {
        items_events(items.drop_last()) + seq![XmlOutView::Start("value"@)] + value_events(
            items.last(),
        ) + seq![XmlOutView::End("value"@)]
    }
}

/// The events of the members of a structure, each a `member` element with its name
/// and its value.
pub open spec fn members_events(members: Seq<MemberView>) -> Seq<XmlOutView>
    decreases members,
{
    if members.len() == 0 {
        Seq::empty()
    } else {
        members_events(members.drop_last()) + seq![XmlOutView::Start("member"@)] + leaf_events(
            "name"@,
            members.last().name,
        ) + seq![XmlOutView::Start("value"@)] + value_events(members.last().value) + seq![
            XmlOutView::End("value"@),
            XmlOutView::End("member"@),
        ]
    }
}

/// The events of the document that answers a call.
pub open spec fn response_events(v: RpcView) -> Seq<XmlOutView> {
    seq![
        XmlOutView::Decl("1.0"@, "utf-8"@),
        XmlOutView::Start("methodResponse"@),
        XmlOutView::Start("params"@),
        XmlOutView::Start("param"@),
        XmlOutView::Start("value"@),
    ] + value_events(v) + seq![
        XmlOutView::End("value"@),
        XmlOutView::End("param"@),
        XmlOutView::End("params"@),
        XmlOutView::End("methodResponse"@),
    ]
}

/// The structure that describes a fault.
pub open spec fn fault_view(code: int, message: Seq<char>) -> RpcView {
    RpcView::Struct(
        with_member(
            with_member(Seq::empty(), "faultCode"@, RpcView::Int(code)),
            "faultString"@,
            RpcView::Text(message),
        ),
    )
}

/// The events of the document that reports a fault.
pub open spec fn fault_events(code: int, message: Seq<char>) -> Seq<XmlOutView> {
    seq![
        XmlOutView::Decl("1.0"@, "utf-8"@),
        XmlOutView::Start("methodResponse"@),
        XmlOutView::Start("fault"@),
        XmlOutView::Start("value"@),
    ] + value_events(fault_view(code, message)) + seq![
        XmlOutView::End("value"@),
        XmlOutView::End("fault"@),
        XmlOutView::End("methodResponse"@),
    ]
}

/// Writes one event.
fn put(writer: &mut quick_xml::Writer<Vec<u8>>, out: XmlOut<'_>) -> (r: Result<(), RpcError>)
    ensures
        r is Ok,
        xml::written_events(*final(writer)) == xml::written_events(*old(writer)).push(out@),
{
    match write_event(writer, out) {
        Ok(()) => Ok(()),
        Err(reason) => Err(RpcError::Xml(reason)),
    }
}

/// Writes an element that holds only text.
fn put_leaf(writer: &mut quick_xml::Writer<Vec<u8>>, tag: &str, content: &str) -> (r: Result<
    (),
    RpcError,
>)
    ensures
        r is Ok,
        xml::written_events(*final(writer)) == xml::written_events(*old(writer)) + leaf_events(
            tag@,
            content@,
        ),
{
    let ghost had = xml::written_events(*writer);
    put(writer, XmlOut::Start(tag))?;
    put(writer, XmlOut::Text(content))?;
    put(writer, XmlOut::End(tag))?;
    proof {
        assert(xml::written_events(*writer) =~= had + leaf_events(tag@, content@));
    }
    Ok(())
}

/// Writes a value.
fn write_value(writer: &mut quick_xml::Writer<Vec<u8>>, val: &RpcValue) -> (r: Result<
    (),
    RpcError,
>)
    ensures
        r is Ok,
        xml::written_events(*final(writer)) == xml::written_events(*old(writer)) + value_events(
            val@,
        ),
    decreases val,
{
    let ghost had = xml::written_events(*writer);
    match val {
        RpcValue::Int(n) => {
            let mut s = String::new();
            push_signed_decimal(&mut s, *n as i64);
            proof {
                assert(s@ =~= text::signed_decimal(*n as int));
            }
            put_leaf(writer, "int", s.as_str())?;
        },
        RpcValue::Bool(b) => {
            put_leaf(
                writer,
                "boolean",
                if *b {
                    "1"
                } else {
                    "0"
                },
            )?;
        },
        RpcValue::String(s) => {
            put_leaf(writer, "string", s.as_str())?;
        },
        RpcValue::Array(arr) => {
            put(writer, XmlOut::Start("array"))?;
            put(writer, XmlOut::Start("data"))?;
            let ghost open = xml::written_events(*writer);
            let mut i: usize = 0;
            proof {
                assert(arr@.subrange(0, 0) =~= Seq::<RpcValue>::empty());
                assert(open =~= open + items_events(values_view(arr@.subrange(0, 0))));
            }
            while i < arr.len()
                invariant
                    i <= arr@.len(),
                    val == RpcValue::Array(*arr),
                    xml::written_events(*writer) == open + items_events(
                        values_view(arr@.subrange(0, i as int)),
                    ),
                decreases arr.len() - i,
            {
                let ghost done = arr@.subrange(0, i as int);
                let ghost more = arr@.subrange(0, i + 1);
                put(writer, XmlOut::Start("value"))?;
                proof {
                    assert(decreases_to!(val => val->Array_0));
                    assert(decreases_to!(arr => arr@));
                    assert(decreases_to!(arr@ => arr@[i as int]));
                }
                write_value(writer, &arr[i])?;
                put(writer, XmlOut::End("value"))?;
                proof {
                    assert(more.drop_last() =~= done);
                    assert(values_view(more).drop_last() =~= values_view(done));
                    assert(xml::written_events(*writer) =~= open + items_events(values_view(more)));
                }
                i += 1;
            }
            put(writer, XmlOut::End("data"))?;
            put(writer, XmlOut::End("array"))?;
            proof {
                assert(arr@.subrange(0, i as int) =~= arr@);
                assert(xml::written_events(*writer) =~= had + value_events(val@));
            }
        },
        RpcValue::Struct(map) => {
            put(writer, XmlOut::Start("struct"))?;
            let ghost open = xml::written_events(*writer);
            let mut i: usize = 0;
            proof {
                assert(map.members@.subrange(0, 0) =~= Seq::<RpcMember>::empty());
                assert(open =~= open + members_events(members_view(map.members@.subrange(0, 0))));
            }
            while i < map.members.len()
                invariant
                    i <= map.members@.len(),
                    val == RpcValue::Struct(*map),
                    xml::written_events(*writer) == open + members_events(
                        members_view(map.members@.subrange(0, i as int)),
                    ),
                decreases map.members.len() - i,
            {
                let ghost done = map.members@.subrange(0, i as int);
                let ghost more = map.members@.subrange(0, i + 1);
                put(writer, XmlOut::Start("member"))?;
                put_leaf(writer, "name", map.members[i].name.as_str())?;
                put(writer, XmlOut::Start("value"))?;
                proof {
                    let m = map.members@[i as int];
                    assert(decreases_to!(val => val->Struct_0));
                    assert(decreases_to!(map => map.members));
                    assert(decreases_to!(map.members => map.members@));
                    assert(decreases_to!(map.members@ => map.members@[i as int]));
                    assert(decreases_to!(m => m.value));
                }
                write_value(writer, &map.members[i].value)?;
                put(writer, XmlOut::End("value"))?;
                put(writer, XmlOut::End("member"))?;
                proof {
                    assert(more.drop_last() =~= done);
                    assert(members_view(more).drop_last() =~= members_view(done));
                    assert(xml::written_events(*writer) =~= open + members_events(
                        members_view(more),
                    ));
                }
                i += 1;
            }
            put(writer, XmlOut::End("struct"))?;
            proof {
                assert(map.members@.subrange(0, i as int) =~= map.members@);
                assert(xml::written_events(*writer) =~= had + value_events(val@));
            }
        },
    }
    Ok(())
}

/// The document that answers a call with a value. Read back, it gives the value.
pub fn serialize_response(resp: &RpcMethodResponse) -> (r: Result<Vec<u8>, RpcError>)
    ensures
        r matches Ok(doc) && doc@ == xml::xml_document(response_events(resp.value@)),
        rpc_round_trip::sendable(resp.value@) ==> (r matches Ok(doc)
            && rpc_round_trip::answered_value(xml::until_end(xml::xml_events(doc@))) == Ok::<
            RpcView,
            RpcFailure,
        >(resp.value@)),
{
    let mut writer = new_document();
    put(&mut writer, XmlOut::Decl("1.0", "utf-8"))?;
    put(&mut writer, XmlOut::Start("methodResponse"))?;
    put(&mut writer, XmlOut::Start("params"))?;
    put(&mut writer, XmlOut::Start("param"))?;
    put(&mut writer, XmlOut::Start("value"))?;
    write_value(&mut writer, &resp.value)?;
    put(&mut writer, XmlOut::End("value"))?;
    put(&mut writer, XmlOut::End("param"))?;
    put(&mut writer, XmlOut::End("params"))?;
    put(&mut writer, XmlOut::End("methodResponse"))?;
    proof {
        assert(xml::written_events(writer) =~= response_events(resp.value@));
    }
    let doc = document_bytes(writer);
    proof {
        if rpc_round_trip::sendable(resp.value@) {
            rpc_round_trip::lemma_response_makes_document(resp.value@);
            let ev = xml::xml_events(doc@);
            let pos = choose|pos: Seq<int>| #[trigger]
                xml::laid_out(response_events(resp.value@), ev, pos) && pos[0] == 0;
            rpc_round_trip::law_response_is_read_back(resp.value@, ev, pos);
        }
    }
    Ok(doc)
}

/// The document that reports a fault.
pub fn serialize_fault(code: i32, message: &str) -> (r: Result<Vec<u8>, RpcError>)
    ensures
        r matches Ok(doc) && doc@ == xml::xml_document(fault_events(code as int, message@)),
{
    let mut fault = RpcStruct::new();
    fault.insert("faultCode".to_owned(), RpcValue::Int(code));
    fault.insert("faultString".to_owned(), RpcValue::String(message.to_owned()));
    let value = RpcValue::Struct(fault);
    let mut writer = new_document();
    put(&mut writer, XmlOut::Decl("1.0", "utf-8"))?;
    put(&mut writer, XmlOut::Start("methodResponse"))?;
    put(&mut writer, XmlOut::Start("fault"))?;
    put(&mut writer, XmlOut::Start("value"))?;
    write_value(&mut writer, &value)?;
    put(&mut writer, XmlOut::End("value"))?;
    put(&mut writer, XmlOut::End("fault"))?;
    put(&mut writer, XmlOut::End("methodResponse"))?;
    proof {
        assert(value@ == fault_view(code as int, message@));
        assert(xml::written_events(writer) =~= fault_events(code as int, message@));
    }
    Ok(document_bytes(writer))
}

/// What `std::num::ParseIntError` says of a text that spells no 32-bit number.
pub uninterp spec fn int_error_text(s: Seq<char>) -> Seq<char>;

/// `str::parse::<i32>`: the message of its error.
#[verifier::external_body]
fn int_error(s: &str) -> (r: String)
    requires
        text::signed_value_32(s@) is None,
    ensures
        r@ == int_error_text(s@),
{
    match s.parse::<i32>() {
        Ok(n) => n.to_string(),
        Err(e) => e.to_string(),
    }
}

/// The rendering of an event that stands where it is not expected.
pub open spec fn shown(e: XmlView) -> Seq<char> {
    match e {
        XmlView::Start(_, s) => s,
        XmlView::End(_, s) => s,
        XmlView::Empty(_, s) => s,
        XmlView::Text(_, s) => s,
        XmlView::CharData(s) => s,
        XmlView::DocumentType(s) => s,
        XmlView::DocumentEnd(s) => s,
        _ => Seq::empty(),
    }
}

/// The complaint that `e` stands where `what` is expected.
pub open spec fn expected(what: Seq<char>, e: XmlView) -> RpcFailure {
    RpcFailure::Message("expected "@ + what + ", got "@ + shown(e))
}

/// The complaint that there are no events left; a list with an end never meets it.
pub open spec fn exhausted() -> RpcFailure {
    RpcFailure::Xml(Seq::empty())
}

/// The next event that is neither blank text nor skipped. Other text is an error.
pub open spec fn significant(ev: Seq<XmlView>, at: int) -> Result<int, RpcFailure>
    decreases ev.len() - at,
{
    if at < 0 || at >= ev.len() {
        Err(exhausted())
    } else {
        match ev[at] {
            XmlView::Comment | XmlView::Declaration | XmlView::Instruction => significant(ev, at + 1),
            XmlView::Text(t, _) => if text::trimmed(t).len() == 0 {
                significant(ev, at + 1)
            } else {
                Err(RpcFailure::Message("unexpected text: "@ + t))
            },
            XmlView::Failed(reason) => Err(RpcFailure::Xml(reason)),
            _ => Ok(at),
        }
    }
}

/// Whether an event opens the element `name`.
pub open spec fn opens(e: XmlView, name: Seq<char>) -> bool {
    e matches XmlView::Start(n, _) && n == encode_utf8(name)
}

/// Whether an event closes the element `name`.
pub open spec fn closes(e: XmlView, name: Seq<char>) -> bool {
    e matches XmlView::End(n, _) && n == encode_utf8(name)
}

/// Whether an event is the empty element `name`.
pub open spec fn is_empty_element(e: XmlView, name: Seq<char>) -> bool {
    e matches XmlView::Empty(n, _) && n == encode_utf8(name)
}

/// Behind the tag that opens `name`; an empty element counts as one.
pub open spec fn start_of(ev: Seq<XmlView>, at: int, name: Seq<char>) -> Result<int, RpcFailure> {
    match significant(ev, at) {
        Err(e) => Err(e),
        Ok(i) => if opens(ev[i], name) || is_empty_element(ev[i], name) {
            Ok(i + 1)
        } else {
            Err(expected("<"@ + name + ">"@, ev[i]))
        },
    }
}

/// Behind the tag that closes `name`.
pub open spec fn end_of(ev: Seq<XmlView>, at: int, name: Seq<char>) -> Result<int, RpcFailure> {
    match significant(ev, at) {
        Err(e) => Err(e),
        Ok(i) => if closes(ev[i], name) {
            Ok(i + 1)
        } else {
            Err(expected("</"@ + name + ">"@, ev[i]))
        },
    }
}

/// The next text, blank or not, and what stands behind it.
pub open spec fn next_text(ev: Seq<XmlView>, at: int) -> Result<(Seq<char>, int), RpcFailure>
    decreases ev.len() - at,
{
    if at < 0 || at >= ev.len() {
        Err(exhausted())
    } else {
        match ev[at] {
            XmlView::Comment | XmlView::Declaration | XmlView::Instruction => next_text(ev, at + 1),
            XmlView::Text(t, _) => Ok((t, at + 1)),
            XmlView::Failed(reason) => Err(RpcFailure::Xml(reason)),
            _ => Err(expected("text"@, ev[at])),
        }
    }
}

/// The text of the rest of an element, behind its closing tag.
pub open spec fn text_element(ev: Seq<XmlView>, at: int, tag: Seq<char>) -> Result<
    (Seq<char>, int),
    RpcFailure,
> {
    match next_text(ev, at) {
        Err(e) => Err(e),
        Ok((t, i)) => match end_of(ev, i, tag) {
            Err(e) => Err(e),
            Ok(j) => Ok((t, j)),
        },
    }
}

/// Reading on never goes back, and stops inside the list.
pub proof fn lemma_moves(ev: Seq<XmlView>, at: int)
    requires
        0 <= at,
    ensures
        significant(ev, at) matches Ok(i) ==> at <= i < ev.len() && !xml::skipped(ev[i])
            && !(ev[i] is Text) && !(ev[i] is Failed),
        next_text(ev, at) matches Ok((_, i)) ==> at < i <= ev.len() && ev[i - 1] is Text,
    decreases ev.len() - at,
{
    if at < ev.len() {
        lemma_moves(ev, at + 1);
    }
}

/// Reading a tag or a text goes on by at least one event.
pub proof fn lemma_steps(ev: Seq<XmlView>, at: int, name: Seq<char>)
    requires
        0 <= at,
    ensures
        start_of(ev, at, name) matches Ok(i) ==> at < i <= ev.len() && !xml::ends(ev[i - 1]),
        end_of(ev, at, name) matches Ok(i) ==> at < i <= ev.len() && !xml::ends(ev[i - 1]),
        text_element(ev, at, name) matches Ok((_, i)) ==> at < i <= ev.len() && !xml::ends(
            ev[i - 1],
        ),
{
    lemma_moves(ev, at);
    if let Ok((t, i)) = next_text(ev, at) {
        lemma_moves(ev, i);
    }
}

/// The value whose element's content starts here: bare text, or an element that
/// names its type.
pub open spec fn parsed_value(ev: Seq<XmlView>, at: int) -> Result<(RpcView, int), RpcFailure>
    decreases ev.len() - at, 2int,
{
    if at < 0 || at >= ev.len() {
        Err(exhausted())
    } else {
        match ev[at] {
            XmlView::Comment | XmlView::Declaration | XmlView::Instruction => parsed_value(ev, at + 1),
            XmlView::Text(t, _) => if text::trimmed(t).len() == 0 {
                parsed_value(ev, at + 1)
            } else {
                Ok((RpcView::Text(t), at + 1))
            },
            XmlView::Start(n, _) => parsed_typed(ev, at + 1, text::text_from_bytes(n)),
            XmlView::Failed(reason) => Err(RpcFailure::Xml(reason)),
            _ => Err(expected("<value>"@, ev[at])),
        }
    }
}

/// The value of type `tag` whose content starts here.
pub open spec fn parsed_typed(ev: Seq<XmlView>, at: int, tag: Seq<char>) -> Result<
    (RpcView, int),
    RpcFailure,
>
    decreases ev.len() - at, 1int,
{
    if at < 0 || at > ev.len() {
        Err(exhausted())
    } else if tag == "int"@ || tag == "i4"@ {
        match next_text(ev, at) {
            Err(e) => Err(e),
            Ok((t, i)) => match text::signed_value_32(t) {
                None => Err(RpcFailure::Message("invalid int: "@ + int_error_text(t))),
                Some(n) => match end_of(ev, i, tag) {
                    Err(e) => Err(e),
                    Ok(j) => Ok((RpcView::Int(n), j)),
                },
            },
        }
    } else if tag == "boolean"@ {
        match text_element(ev, at, tag) {
            Err(e) => Err(e),
            Ok((t, i)) => Ok((RpcView::Bool(t == "1"@), i)),
        }
    } else if tag == "string"@ {
        match text_element(ev, at, tag) {
            Err(e) => Err(e),
            Ok((t, i)) => Ok((RpcView::Text(t), i)),
        }
    } else if tag == "array"@ {
        match start_of(ev, at, "data"@) {
            Err(e) => Err(e),
            Ok(i) => {
                proof {
                    lemma_steps(ev, at, "data"@);
                }
                match parsed_items(ev, i, Seq::empty()) {
                    Err(e) => Err(e),
                    Ok((items, j)) => match end_of(ev, j, "array"@) {
                        Err(e) => Err(e),
                        Ok(k) => Ok((RpcView::Array(items), k)),
                    },
                }
            },
        }
    } else if tag == "struct"@ {
        match parsed_members(ev, at, Seq::empty()) {
            Err(e) => Err(e),
            Ok((members, i)) => Ok((RpcView::Struct(members), i)),
        }
    } else {
        Err(RpcFailure::Message("unknown XML-RPC type: "@ + tag))
    }
}

/// The items of an array from here to the tag that closes its data, behind those
/// in `acc`.
pub open spec fn parsed_items(ev: Seq<XmlView>, at: int, acc: Seq<RpcView>) -> Result<
    (Seq<RpcView>, int),
    RpcFailure,
>
    decreases ev.len() - at, 0int,
{
    if at < 0 || at > ev.len() {
        Err(exhausted())
    } else {
        match significant(ev, at) {
            Err(e) => Err(e),
            Ok(i) => {
                proof {
                    lemma_moves(ev, at);
                }
                if opens(ev[i], "value"@) {
                    match parsed_value(ev, i + 1) {
                        Err(e) => Err(e),
                        Ok((v, j)) => match end_of(ev, j, "value"@) {
                            Err(e) => Err(e),
                            Ok(k) => if at < k <= ev.len() {
                                parsed_items(ev, k, acc.push(v))
                            } else {
                                Err(exhausted())
                            },
                        },
                    }
                } else if closes(ev[i], "data"@) {
                    Ok((acc, i + 1))
                } else {
                    Err(expected("<value> or </data>"@, ev[i]))
                }
            },
        }
    }
}

/// A member from behind its opening tag to behind its closing tag.
pub open spec fn parsed_member(ev: Seq<XmlView>, at: int) -> Result<(MemberView, int), RpcFailure>
    decreases ev.len() - at, 4int,
{
    match start_of(ev, at, "name"@) {
        Err(e) => Err(e),
        Ok(i) => match text_element(ev, i, "name"@) {
            Err(e) => Err(e),
            Ok((name, j)) => match start_of(ev, j, "value"@) {
                Err(e) => Err(e),
                Ok(k) => if at < k <= ev.len() {
                    match parsed_value(ev, k) {
                        Err(e) => Err(e),
                        Ok((value, l)) => match end_of(ev, l, "value"@) {
                            Err(e) => Err(e),
                            Ok(m) => match end_of(ev, m, "member"@) {
                                Err(e) => Err(e),
                                Ok(n) => Ok((MemberView { name, value }, n)),
                            },
                        },
                    }
                } else {
                    Err(exhausted())
                },
            },
        },
    }
}

/// The members of a structure from here to its closing tag, over those in `acc`.
pub open spec fn parsed_members(ev: Seq<XmlView>, at: int, acc: Seq<MemberView>) -> Result<
    (Seq<MemberView>, int),
    RpcFailure,
>
    decreases ev.len() - at, 0int,
{
    if at < 0 || at > ev.len() {
        Err(exhausted())
    } else {
        match significant(ev, at) {
            Err(e) => Err(e),
            Ok(i) => {
                proof {
                    lemma_moves(ev, at);
                }
                if opens(ev[i], "member"@) {
                    match parsed_member(ev, i + 1) {
                        Err(e) => Err(e),
                        Ok((m, k)) => if at < k <= ev.len() {
                            parsed_members(ev, k, with_member(acc, m.name, m.value))
                        } else {
                            Err(exhausted())
                        },
                    }
                } else if closes(ev[i], "struct"@) {
                    Ok((acc, i + 1))
                } else {
                    Err(expected("<member> or </struct>"@, ev[i]))
                }
            },
        }
    }
}

/// The parameters of a call from here to the tag that closes them, behind those in
/// `acc`.
pub open spec fn parsed_params(ev: Seq<XmlView>, at: int, acc: Seq<RpcView>) -> Result<
    (Seq<RpcView>, int),
    RpcFailure,
>
    decreases ev.len() - at,
{
    if at < 0 || at > ev.len() {
        Err(exhausted())
    } else {
        match significant(ev, at) {
            Err(e) => Err(e),
            Ok(i) => if opens(ev[i], "param"@) {
                match parsed_param(ev, i + 1) {
                    Err(e) => Err(e),
                    Ok((v, k)) => if at < k <= ev.len() {
                        parsed_params(ev, k, acc.push(v))
                    } else {
                        Err(exhausted())
                    },
                }
            } else if closes(ev[i], "params"@) {
                Ok((acc, i + 1))
            } else {
                Err(expected("<param> or </params>"@, ev[i]))
            },
        }
    }
}

/// A parameter from behind its opening tag to behind its closing tag.
pub open spec fn parsed_param(ev: Seq<XmlView>, at: int) -> Result<(RpcView, int), RpcFailure> {
    match start_of(ev, at, "value"@) {
        Err(e) => Err(e),
        Ok(i) => match parsed_value(ev, i) {
            Err(e) => Err(e),
            Ok((v, j)) => match end_of(ev, j, "value"@) {
                Err(e) => Err(e),
                Ok(k) => match end_of(ev, k, "param"@) {
                    Err(e) => Err(e),
                    Ok(l) => Ok((v, l)),
                },
            },
        },
    }
}

/// The call that a list of events spells.
pub open spec fn parsed_call(ev: Seq<XmlView>) -> Result<CallView, RpcFailure> {
    match significant(ev, 0) {
        Err(e) => Err(e),
        Ok(i) => if !opens(ev[i], "methodCall"@) {
            Err(expected("<methodCall>"@, ev[i]))
        } else {
            match start_of(ev, i + 1, "methodName"@) {
                Err(e) => Err(e),
                Ok(j) => match text_element(ev, j, "methodName"@) {
                    Err(e) => Err(e),
                    Ok((method_name, k)) => match significant(ev, k) {
                        Err(e) => Err(e),
                        Ok(l) => if opens(ev[l], "params"@) {
                            match parsed_params(ev, l + 1, Seq::empty()) {
                                Err(e) => Err(e),
                                Ok((params, m)) => match end_of(ev, m, "methodCall"@) {
                                    Err(e) => Err(e),
                                    Ok(_) => Ok(CallView { method_name, params }),
                                },
                            }
                        } else if closes(ev[l], "methodCall"@) {
                            Ok(CallView { method_name, params: Seq::empty() })
                        } else {
                            Err(expected("<params> or </methodCall>"@, ev[l]))
                        },
                    },
                },
            }
        },
    }
}

/// The members of a structure that was read stand in the order of their names, each
/// once.
pub proof fn law_parsed_members_in_order(ev: Seq<XmlView>, at: int, acc: Seq<MemberView>)
    requires
        in_order(acc),
    ensures
        parsed_members(ev, at, acc) matches Ok((m, _)) ==> in_order(m),
    decreases ev.len() - at,
{
    if 0 <= at <= ev.len() {
        if let Ok(i) = significant(ev, at) {
            if opens(ev[i], "member"@) {
                if let Ok((m, k)) = parsed_member(ev, i + 1) {
                    if at < k <= ev.len() {
                        law_members_stay_in_order(acc, m.name, m.value);
                        law_parsed_members_in_order(ev, k, with_member(acc, m.name, m.value));
                    }
                }
            }
        }
    }
}

/// A place in the events, or why there is none.
pub open spec fn place_view(r: Result<usize, RpcError>) -> Result<int, RpcFailure> {
    match r {
        Ok(i) => Ok(i as int),
        Err(e) => Err(e@),
    }
}

/// A text and the place behind it, or why there is none.
pub open spec fn text_place_view(r: Result<(String, usize), RpcError>) -> Result<
    (Seq<char>, int),
    RpcFailure,
> {
    match r {
        Ok((t, i)) => Ok((t@, i as int)),
        Err(e) => Err(e@),
    }
}

/// A value and the place behind it, or why there is none.
pub open spec fn value_place_view(r: Result<(RpcValue, usize), RpcError>) -> Result<
    (RpcView, int),
    RpcFailure,
> {
    match r {
        Ok((v, i)) => Ok((v@, i as int)),
        Err(e) => Err(e@),
    }
}

/// Values and the place behind them, or why there are none.
pub open spec fn values_place_view(r: Result<(Vec<RpcValue>, usize), RpcError>) -> Result<
    (Seq<RpcView>, int),
    RpcFailure,
> {
    match r {
        Ok((v, i)) => Ok((values_view(v@), i as int)),
        Err(e) => Err(e@),
    }
}

/// A member and the place behind it, or why there is none.
pub open spec fn member_place_view(r: Result<(RpcMember, usize), RpcError>) -> Result<
    (MemberView, int),
    RpcFailure,
> {
    match r {
        Ok((m, i)) => Ok((MemberView { name: m.name@, value: m.value@ }, i as int)),
        Err(e) => Err(e@),
    }
}

/// A structure and the place behind it, or why there is none.
pub open spec fn struct_place_view(r: Result<(RpcStruct, usize), RpcError>) -> Result<
    (Seq<MemberView>, int),
    RpcFailure,
> {
    match r {
        Ok((m, i)) => Ok((m@, i as int)),
        Err(e) => Err(e@),
    }
}

/// The complaint that an event stands where `what` is expected.
fn unexpected(what: &str, e: &XmlEvent) -> (r: RpcError)
    requires
        !(e is Failed),
    ensures
        r@ == expected(what@, e@),
{
    let mut s = "expected ".to_owned();
    s.append(what);
    s.append(", got ");
    match e {
        XmlEvent::Start(_, t) => s.append(t.as_str()),
        XmlEvent::End(_, t) => s.append(t.as_str()),
        XmlEvent::Empty(_, t) => s.append(t.as_str()),
        XmlEvent::Text(_, t) => s.append(t.as_str()),
        XmlEvent::CharData(t) => s.append(t.as_str()),
        XmlEvent::DocumentType(t) => s.append(t.as_str()),
        XmlEvent::DocumentEnd(t) => s.append(t.as_str()),
        _ => {},
    }
    RpcError::Message(s)
}

/// Whether a text is nothing but white space.
fn is_blank(s: &str) -> (r: bool)
    ensures
        r == (text::trimmed(s@).len() == 0),
{
    let t = trim_text(s);
    proof {
        reveal_strlit("");
        if t@.len() == 0 {
            assert(t@ =~= ""@);
        }
    }
    text_equal(t.as_str(), "")
}

/// The next event that is neither blank text nor skipped.
fn find_significant(events: &Vec<XmlEvent>, at: usize) -> (r: Result<usize, RpcError>)
    requires
        at < events@.len(),
        xml::ended(xml::events_view(events@)),
    ensures
        place_view(r) == significant(xml::events_view(events@), at as int),
        r matches Ok(i) ==> at <= i < events@.len() && !xml::skipped(events@[i as int]@)
            && !(events@[i as int] is Text) && !(events@[i as int] is Failed),
{
    let ghost ev = xml::events_view(events@);
    let mut i: usize = at;
    loop
        invariant
            at <= i < events@.len(),
            ev == xml::events_view(events@),
            xml::ended(ev),
            significant(ev, i as int) == significant(ev, at as int),
        decreases events@.len() - i,
    {
        proof {
            assert(ev[i as int] == events@[i as int]@);
            assert(events.len() == events@.len());
        }
        match &events[i] {
            XmlEvent::Comment | XmlEvent::Declaration | XmlEvent::Instruction => {},
            XmlEvent::Text(t, _) => {
                if !is_blank(t.as_str()) {
                    let mut s = "unexpected text: ".to_owned();
                    s.append(t.as_str());
                    return Err(RpcError::Message(s));
                }
            },
            XmlEvent::Failed(reason) => {
                return Err(RpcError::Xml(reason.clone()));
            },
            _ => {
                return Ok(i);
            },
        }
        proof {
            assert(i != events@.len() - 1);
        }
        i += 1;
    }
}

/// Whether an event opens the element `name`.
fn event_opens(e: &XmlEvent, name: &str) -> (r: bool)
    ensures
        r == opens(e@, name@),
{
    match e {
        XmlEvent::Start(n, _) => bytes_equal(n.as_slice(), name.as_bytes()),
        _ => false,
    }
}

/// Whether an event closes the element `name`.
fn event_closes(e: &XmlEvent, name: &str) -> (r: bool)
    ensures
        r == closes(e@, name@),
{
    match e {
        XmlEvent::End(n, _) => bytes_equal(n.as_slice(), name.as_bytes()),
        _ => false,
    }
}

/// Whether an event is the empty element `name`.
fn event_is_empty_element(e: &XmlEvent, name: &str) -> (r: bool)
    ensures
        r == is_empty_element(e@, name@),
{
    match e {
        XmlEvent::Empty(n, _) => bytes_equal(n.as_slice(), name.as_bytes()),
        _ => false,
    }
}

/// A name between an opening and a closing mark.
fn bracketed(left: &str, name: &str) -> (r: String)
    ensures
        r@ == left@ + name@ + ">"@,
{
    let mut s = left.to_owned();
    s.append(name);
    s.append(">");
    s
}

/// Goes behind the tag that opens `name`.
fn expect_start(events: &Vec<XmlEvent>, at: usize, name: &str) -> (r: Result<usize, RpcError>)
    requires
        at < events@.len(),
        xml::ended(xml::events_view(events@)),
    ensures
        place_view(r) == start_of(xml::events_view(events@), at as int, name@),
        r matches Ok(i) ==> at < i < events@.len(),
{
    let i: usize = find_significant(events, at)?;
    proof {
        assert(xml::events_view(events@)[i as int] == events@[i as int]@);
        assert(events.len() == events@.len());
    }
    if event_opens(&events[i], name) || event_is_empty_element(&events[i], name) {
        Ok(i + 1)
    } else {
        let what = bracketed("<", name);
        Err(unexpected(what.as_str(), &events[i]))
    }
}

/// Goes behind the tag that closes `name`.
fn expect_end(events: &Vec<XmlEvent>, at: usize, name: &str) -> (r: Result<usize, RpcError>)
    requires
        at < events@.len(),
        xml::ended(xml::events_view(events@)),
    ensures
        place_view(r) == end_of(xml::events_view(events@), at as int, name@),
        r matches Ok(i) ==> at < i < events@.len(),
{
    let i: usize = find_significant(events, at)?;
    proof {
        assert(xml::events_view(events@)[i as int] == events@[i as int]@);
        assert(events.len() == events@.len());
    }
    if event_closes(&events[i], name) {
        Ok(i + 1)
    } else {
        let what = bracketed("</", name);
        Err(unexpected(what.as_str(), &events[i]))
    }
}

/// Reads the next text, blank or not.
fn read_text(events: &Vec<XmlEvent>, at: usize) -> (r: Result<(String, usize), RpcError>)
    requires
        at < events@.len(),
        xml::ended(xml::events_view(events@)),
    ensures
        text_place_view(r) == next_text(xml::events_view(events@), at as int),
        r matches Ok((_, i)) ==> at < i < events@.len(),
{
    let ghost ev = xml::events_view(events@);
    let mut i: usize = at;
    loop
        invariant
            at <= i < events@.len(),
            ev == xml::events_view(events@),
            xml::ended(ev),
            next_text(ev, i as int) == next_text(ev, at as int),
        decreases events@.len() - i,
    {
        proof {
            assert(ev[i as int] == events@[i as int]@);
            assert(events.len() == events@.len());
        }
        match &events[i] {
            XmlEvent::Comment | XmlEvent::Declaration | XmlEvent::Instruction => {},
            XmlEvent::Text(t, _) => {
                return Ok((t.clone(), i + 1));
            },
            XmlEvent::Failed(reason) => {
                return Err(RpcError::Xml(reason.clone()));
            },
            _ => {
                return Err(unexpected("text", &events[i]));
            },
        }
        proof {
            assert(i != events@.len() - 1);
        }
        i += 1;
    }
}

/// Reads the text of the rest of an element, and goes behind its closing tag.
fn read_text_element(events: &Vec<XmlEvent>, at: usize, tag: &str) -> (r: Result<
    (String, usize),
    RpcError,
>)
    requires
        at < events@.len(),
        xml::ended(xml::events_view(events@)),
    ensures
        text_place_view(r) == text_element(xml::events_view(events@), at as int, tag@),
        r matches Ok((_, i)) ==> at < i < events@.len(),
{
    let (t, i) = read_text(events, at)?;
    let j: usize = expect_end(events, i, tag)?;
    Ok((t, j))
}

/// Reads a value: bare text, or an element that names its type.
pub fn parse_value(events: &Vec<XmlEvent>, at: usize) -> (r: Result<(RpcValue, usize), RpcError>)
    requires
        at < events@.len(),
        xml::ended(xml::events_view(events@)),
    ensures
        value_place_view(r) == parsed_value(xml::events_view(events@), at as int),
        r matches Ok((_, i)) ==> at < i < events@.len(),
    decreases events@.len() - at, 2int,
{
    let ghost ev = xml::events_view(events@);
    let mut i: usize = at;
    loop
        invariant
            at <= i < events@.len(),
            ev == xml::events_view(events@),
            xml::ended(ev),
            parsed_value(ev, i as int) == parsed_value(ev, at as int),
        decreases events@.len() - i,
    {
        proof {
            assert(ev[i as int] == events@[i as int]@);
            assert(events.len() == events@.len());
        }
        match &events[i] {
            XmlEvent::Comment | XmlEvent::Declaration | XmlEvent::Instruction => {},
            XmlEvent::Text(t, _) => {
                if !is_blank(t.as_str()) {
                    return Ok((RpcValue::String(t.clone()), i + 1));
                }
            },
            XmlEvent::Start(n, _) => {
                let tag = text_of_bytes(n.as_slice());
                return parse_typed(events, i + 1, tag.as_str());
            },
            XmlEvent::Failed(reason) => {
                return Err(RpcError::Xml(reason.clone()));
            },
            _ => {
                return Err(unexpected("<value>", &events[i]));
            },
        }
        proof {
            assert(i != events@.len() - 1);
        }
        i += 1;
    }
}

/// Reads the value of type `tag` whose content starts here.
fn parse_typed(events: &Vec<XmlEvent>, at: usize, tag: &str) -> (r: Result<
    (RpcValue, usize),
    RpcError,
>)
    requires
        at < events@.len(),
        xml::ended(xml::events_view(events@)),
    ensures
        value_place_view(r) == parsed_typed(xml::events_view(events@), at as int, tag@),
        r matches Ok((_, i)) ==> at < i < events@.len(),
    decreases events@.len() - at, 1int,
{
    if text_equal(tag, "int") || text_equal(tag, "i4") {
        let (t, i) = read_text(events, at)?;
        match parse_signed_32(t.as_str()) {
            None => {
                let mut s = "invalid int: ".to_owned();
                s.append(int_error(t.as_str()).as_str());
                Err(RpcError::Message(s))
            },
            Some(n) => {
                let j: usize = expect_end(events, i, tag)?;
                Ok((RpcValue::Int(n), j))
            },
        }
    } else if text_equal(tag, "boolean") {
        let (t, i) = read_text_element(events, at, tag)?;
        Ok((RpcValue::Bool(text_equal(t.as_str(), "1")), i))
    } else if text_equal(tag, "string") {
        let (t, i) = read_text_element(events, at, tag)?;
        Ok((RpcValue::String(t), i))
    } else if text_equal(tag, "array") {
        let i: usize = expect_start(events, at, "data")?;
        let (items, j) = parse_items(events, i)?;
        let k: usize = expect_end(events, j, "array")?;
        Ok((RpcValue::Array(items), k))
    } else if text_equal(tag, "struct") {
        let (members, i) = parse_members(events, at)?;
        Ok((RpcValue::Struct(members), i))
    } else {
        let mut s = "unknown XML-RPC type: ".to_owned();
        s.append(tag);
        Err(RpcError::Message(s))
    }
}

/// Reads the items of an array, to behind the tag that closes its data.
fn parse_items(events: &Vec<XmlEvent>, at: usize) -> (r: Result<(Vec<RpcValue>, usize), RpcError>)
    requires
        at < events@.len(),
        xml::ended(xml::events_view(events@)),
    ensures
        values_place_view(r) == parsed_items(xml::events_view(events@), at as int, Seq::empty()),
        r matches Ok((_, i)) ==> at < i < events@.len(),
    decreases events@.len() - at, 0int,
{
    let ghost ev = xml::events_view(events@);
    let mut items: Vec<RpcValue> = Vec::new();
    let mut pos: usize = at;
    loop
        invariant
            at <= pos < events@.len(),
            ev == xml::events_view(events@),
            xml::ended(ev),
            parsed_items(ev, pos as int, values_view(items@)) == parsed_items(
                ev,
                at as int,
                Seq::empty(),
            ),
        decreases events@.len() - pos,
    {
        let i: usize = find_significant(events, pos)?;
        proof {
            assert(ev[i as int] == events@[i as int]@);
            assert(events.len() == events@.len());
        }
        if event_opens(&events[i], "value") {
            let (v, j) = parse_value(events, i + 1)?;
            let k: usize = expect_end(events, j, "value")?;
            let ghost had = items@;
            items.push(v);
            proof {
                assert(items@.drop_last() =~= had);
            }
            pos = k;
        } else if event_closes(&events[i], "data") {
            return Ok((items, i + 1));
        } else {
            return Err(unexpected("<value> or </data>", &events[i]));
        }
    }
}

/// Reads a member, from behind its opening tag to behind its closing tag.
fn parse_member(events: &Vec<XmlEvent>, at: usize) -> (r: Result<(RpcMember, usize), RpcError>)
    requires
        at < events@.len(),
        xml::ended(xml::events_view(events@)),
    ensures
        member_place_view(r) == parsed_member(xml::events_view(events@), at as int),
        r matches Ok((_, i)) ==> at < i < events@.len(),
    decreases events@.len() - at, 4int,
{
    let i: usize = expect_start(events, at, "name")?;
    let (name, j) = read_text_element(events, i, "name")?;
    let k: usize = expect_start(events, j, "value")?;
    let (value, l) = parse_value(events, k)?;
    let m: usize = expect_end(events, l, "value")?;
    let n: usize = expect_end(events, m, "member")?;
    Ok((RpcMember { name, value }, n))
}

/// Reads the members of a structure, to behind its closing tag.
fn parse_members(events: &Vec<XmlEvent>, at: usize) -> (r: Result<(RpcStruct, usize), RpcError>)
    requires
        at < events@.len(),
        xml::ended(xml::events_view(events@)),
    ensures
        struct_place_view(r) == parsed_members(xml::events_view(events@), at as int, Seq::empty()),
        r matches Ok((_, i)) ==> at < i < events@.len(),
    decreases events@.len() - at, 0int,
{
    let ghost ev = xml::events_view(events@);
    let mut members = RpcStruct::new();
    let mut pos: usize = at;
    loop
        invariant
            at <= pos < events@.len(),
            ev == xml::events_view(events@),
            xml::ended(ev),
            parsed_members(ev, pos as int, members@) == parsed_members(
                ev,
                at as int,
                Seq::empty(),
            ),
        decreases events@.len() - pos,
    {
        let i: usize = find_significant(events, pos)?;
        proof {
            assert(ev[i as int] == events@[i as int]@);
            assert(events.len() == events@.len());
        }
        if event_opens(&events[i], "member") {
            let (m, k) = parse_member(events, i + 1)?;
            members.insert(m.name, m.value);
            pos = k;
        } else if event_closes(&events[i], "struct") {
            return Ok((members, i + 1));
        } else {
            return Err(unexpected("<member> or </struct>", &events[i]));
        }
    }
}

/// Reads a parameter, from behind its opening tag to behind its closing tag.
fn parse_param(events: &Vec<XmlEvent>, at: usize) -> (r: Result<(RpcValue, usize), RpcError>)
    requires
        at < events@.len(),
        xml::ended(xml::events_view(events@)),
    ensures
        value_place_view(r) == parsed_param(xml::events_view(events@), at as int),
        r matches Ok((_, i)) ==> at < i < events@.len(),
{
    let i: usize = expect_start(events, at, "value")?;
    let (v, j) = parse_value(events, i)?;
    let k: usize = expect_end(events, j, "value")?;
    let l: usize = expect_end(events, k, "param")?;
    Ok((v, l))
}

/// Reads the parameters of a call, to behind the tag that closes them.
fn parse_params(events: &Vec<XmlEvent>, at: usize) -> (r: Result<(Vec<RpcValue>, usize), RpcError>)
    requires
        at < events@.len(),
        xml::ended(xml::events_view(events@)),
    ensures
        values_place_view(r) == parsed_params(xml::events_view(events@), at as int, Seq::empty()),
        r matches Ok((_, i)) ==> at < i < events@.len(),
{
    let ghost ev = xml::events_view(events@);
    let mut params: Vec<RpcValue> = Vec::new();
    let mut pos: usize = at;
    loop
        invariant
            at <= pos < events@.len(),
            ev == xml::events_view(events@),
            xml::ended(ev),
            parsed_params(ev, pos as int, values_view(params@)) == parsed_params(
                ev,
                at as int,
                Seq::empty(),
            ),
        decreases events@.len() - pos,
    {
        let i: usize = find_significant(events, pos)?;
        proof {
            assert(ev[i as int] == events@[i as int]@);
            assert(events.len() == events@.len());
        }
        if event_opens(&events[i], "param") {
            let (v, k) = parse_param(events, i + 1)?;
            let ghost had = params@;
            params.push(v);
            proof {
                assert(params@.drop_last() =~= had);
            }
            pos = k;
        } else if event_closes(&events[i], "params") {
            return Ok((params, i + 1));
        } else {
            return Err(unexpected("<param> or </params>", &events[i]));
        }
    }
}

/// The call that a list of events spells.
pub fn parse_events(events: &Vec<XmlEvent>) -> (r: Result<RpcMethodCall, RpcError>)
    requires
        xml::ended(xml::events_view(events@)),
    ensures
        match r {
            Ok(call) => parsed_call(xml::events_view(events@)) == Ok::<_, RpcFailure>(call@),
            Err(e) => parsed_call(xml::events_view(events@)) == Err::<CallView, _>(e@),
        },
{
    let ghost ev = xml::events_view(events@);
    let i: usize = find_significant(events, 0)?;
    proof {
        assert(ev[i as int] == events@[i as int]@);
        assert(events.len() == events@.len());
    }
    if !event_opens(&events[i], "methodCall") {
        return Err(unexpected("<methodCall>", &events[i]));
    }
    let j: usize = expect_start(events, i + 1, "methodName")?;
    let (method_name, k) = read_text_element(events, j, "methodName")?;
    let l: usize = find_significant(events, k)?;
    proof {
        assert(ev[l as int] == events@[l as int]@);
        assert(events.len() == events@.len());
    }
    if event_opens(&events[l], "params") {
        let (params, m) = parse_params(events, l + 1)?;
        expect_end(events, m, "methodCall")?;
        Ok(RpcMethodCall { method_name, params })
    } else if event_closes(&events[l], "methodCall") {
        Ok(RpcMethodCall { method_name, params: Vec::new() })
    } else {
        Err(unexpected("<params> or </methodCall>", &events[l]))
    }
}

/// The call that a document spells.
pub fn parse_request(data: &[u8]) -> (r: Result<RpcMethodCall, RpcError>)
    ensures
        ({
            let call = parsed_call(xml::until_end(xml::xml_events(data@)));
            match r {
                Ok(c) => call == Ok::<_, RpcFailure>(c@),
                Err(e) => call == Err::<CallView, _>(e@),
            }
        }),
{
    let events = read_events(data);
    parse_events(&events)
}

proof fn lemma_member_value_update(m: Seq<MemberView>, i: int, new: MemberView, other: Seq<char>)
    requires
        0 <= i < m.len(),
        m[i].name == new.name,
        new.name != other,
    ensures
        member_value(m.update(i, new), other) == member_value(m, other),
    decreases m.len(),
{
    let n = m.update(i, new);
    if i > 0 {
        lemma_member_value_update(m.drop_first(), i - 1, new, other);
        assert(n.drop_first() =~= m.drop_first().update(i - 1, new));
    } else {
        assert(n.drop_first() =~= m.drop_first());
    }
}

proof fn lemma_member_value_insert(m: Seq<MemberView>, i: int, new: MemberView, other: Seq<char>)
    requires
        0 <= i <= m.len(),
        new.name != other,
    ensures
        member_value(m.insert(i, new), other) == member_value(m, other),
    decreases m.len(),
{
    let n = m.insert(i, new);
    if i > 0 {
        lemma_member_value_insert(m.drop_first(), i - 1, new, other);
        assert(n.drop_first() =~= m.drop_first().insert(i - 1, new));
    } else {
        assert(n.drop_first() =~= m);
    }
}

/// Setting a member leaves every other member as it was, and adds one at most.
pub proof fn law_other_members_stay(
    m: Seq<MemberView>,
    name: Seq<char>,
    value: RpcView,
    other: Seq<char>,
)
    requires
        other != name,
    ensures
        member_value(with_member(m, name, value), other) == member_value(m, other),
        m.len() <= with_member(m, name, value).len() <= m.len() + 1,
        member_value(Seq::empty(), other) is None,
{
    let k = rank(m, name);
    let new = MemberView { name, value };
    lemma_rank_bounds(m, name);
    if k < m.len() && m[k].name == name {
        lemma_member_value_update(m, k, new, other);
    } else {
        lemma_member_value_insert(m, k, new, other);
    }
}

/// A text comes before another exactly if, at the first place where they differ, it has
/// the lesser character or ends.
pub proof fn law_order_of_texts(a: Seq<char>, b: Seq<char>, k: int)
    requires
        0 <= k <= a.len(),
        k <= b.len(),
        a.subrange(0, k) == b.subrange(0, k),
    ensures
        k < a.len() && k < b.len() && a[k] < b[k] ==> text_less(a, b) && !text_less(b, a),
        k == a.len() && k < b.len() ==> text_less(a, b) && !text_less(b, a),
        k == a.len() && k == b.len() ==> !text_less(a, b),
    decreases k,
{
    if k > 0 {
        assert(a.subrange(0, k)[0] == a[0] && b.subrange(0, k)[0] == b[0]);
        assert(a.drop_first().subrange(0, k - 1) =~= a.subrange(0, k).subrange(1, k));
        assert(b.drop_first().subrange(0, k - 1) =~= b.subrange(0, k).subrange(1, k));
        law_order_of_texts(a.drop_first(), b.drop_first(), k - 1);
        if k < a.len() && k < b.len() {
            assert(a.drop_first()[k - 1] == a[k] && b.drop_first()[k - 1] == b[k]);
        }
        assert(a[0] == b[0]);
        assert(text_less(a, b) == text_less(a.drop_first(), b.drop_first()));
        assert(text_less(b, a) == text_less(b.drop_first(), a.drop_first()));
    }
}

/// Comments, declarations, instructions and blank text in front of a tag or a value do
/// not decide what is read there. In front of a text the same holds of all but text.
pub proof fn law_blank_events_do_not_decide(ev: Seq<XmlView>, at: int)
    requires
        0 <= at < ev.len(),
        ev[at] is Comment || ev[at] is Declaration || ev[at] is Instruction || (
        ev[at] matches XmlView::Text(t, _) && text::trimmed(t).len() == 0),
    ensures
        significant(ev, at) == significant(ev, at + 1),
        parsed_value(ev, at) == parsed_value(ev, at + 1),
        !(ev[at] is Text) ==> next_text(ev, at) == next_text(ev, at + 1),
{
}

/// Text that is not blank is a value of its own, and out of place in front of a tag.
pub proof fn law_bare_text_is_a_value(
    ev: Seq<XmlView>,
    at: int,
    t: Seq<char>,
    shown: Seq<char>,
)
    requires
        0 <= at < ev.len(),
        ev[at] == XmlView::Text(t, shown),
        text::trimmed(t).len() > 0,
    ensures
        parsed_value(ev, at) == Ok::<(RpcView, int), RpcFailure>((RpcView::Text(t), at + 1)),
        significant(ev, at) is Err,
        next_text(ev, at) == Ok::<(Seq<char>, int), RpcFailure>((t, at + 1)),
{
}

/// A text between the tags of its type is read as a value of that type: a string is the
/// text, a truth value holds exactly if the text is a lone one, a number is what its
/// digits say.
#[verifier::spinoff_prover]
#[verifier::rlimit(30)]
pub proof fn law_leaf_is_read_by_its_type(
    ev: Seq<XmlView>,
    at: int,
    tag: Seq<char>,
    t: Seq<char>,
    shown: Seq<char>,
    shown_end: Seq<char>,
)
    requires
        0 <= at,
        at + 1 < ev.len(),
        ev[at] == XmlView::Text(t, shown),
        ev[at + 1] == XmlView::End(encode_utf8(tag), shown_end),
    ensures
        tag == "string"@ ==> parsed_typed(ev, at, tag) == Ok::<(RpcView, int), RpcFailure>(
            (RpcView::Text(t), at + 2),
        ),
        tag == "boolean"@ ==> parsed_typed(ev, at, tag) == Ok::<(RpcView, int), RpcFailure>(
            (RpcView::Bool(t == seq!['1']), at + 2),
        ),
        tag == "int"@ || tag == "i4"@ ==> match text::signed_value_32(t) {
            Some(n) => parsed_typed(ev, at, tag) == Ok::<(RpcView, int), RpcFailure>(
                (RpcView::Int(n), at + 2),
            ),
            None => parsed_typed(ev, at, tag) is Err,
        },
{
    reveal_strlit("string");
    reveal_strlit("boolean");
    reveal_strlit("int");
    reveal_strlit("i4");
    reveal_strlit("1");
    assert("1"@ =~= seq!['1']);
    assert("string"@.len() == 6 && "boolean"@.len() == 7 && "int"@.len() == 3 && "i4"@.len() == 2);
    assert(next_text(ev, at) == Ok::<(Seq<char>, int), RpcFailure>((t, at + 1)));
    assert(significant(ev, at + 1) == Ok::<int, RpcFailure>(at + 1));
    assert(end_of(ev, at + 1, tag) == Ok::<int, RpcFailure>(at + 2));
}

/// A value of a type that there is not is refused.
pub proof fn law_unknown_type_is_refused(ev: Seq<XmlView>, at: int, tag: Seq<char>)
    requires
        tag != "int"@ && tag != "i4"@ && tag != "boolean"@ && tag != "string"@ && tag != "array"@
            && tag != "struct"@,
    ensures
        parsed_typed(ev, at, tag) is Err,
{
}

/// The items of an array keep their order: those that are read on stand behind those that
/// were read before.
#[verifier::spinoff_prover]
#[verifier::rlimit(30)]
pub proof fn law_items_keep_their_order(ev: Seq<XmlView>, at: int, acc: Seq<RpcView>)
    ensures
        match parsed_items(ev, at, Seq::empty()) {
            Err(e) => parsed_items(ev, at, acc) == Err::<(Seq<RpcView>, int), RpcFailure>(e),
            Ok((items, end)) => parsed_items(ev, at, acc) == Ok::<
                (Seq<RpcView>, int),
                RpcFailure,
            >((acc + items, end)),
        },
    decreases ev.len() - at,
{
    if 0 <= at <= ev.len() {
        if let Ok(i) = significant(ev, at) {
            lemma_moves(ev, at);
            if opens(ev[i], "value"@) {
                if let Ok((v, j)) = parsed_value(ev, i + 1) {
                    if let Ok(k) = end_of(ev, j, "value"@) {
                        if at < k <= ev.len() {
                            law_items_keep_their_order(ev, k, acc.push(v));
                            law_items_keep_their_order(ev, k, Seq::<RpcView>::empty().push(v));
                            if let Ok((items, end)) = parsed_items(ev, k, Seq::empty()) {
                                assert(acc.push(v) + items =~= acc + (Seq::<RpcView>::empty().push(
                                    v,
                                ) + items));
                            }
                        }
                    }
                }
            } else {
                assert(acc + Seq::<RpcView>::empty() =~= acc);
            }
        }
    }
}

/// The parameters of a call keep their order: those that are read on stand behind those
/// that were read before.
pub proof fn law_parameters_keep_their_order(ev: Seq<XmlView>, at: int, acc: Seq<RpcView>)
    ensures
        match parsed_params(ev, at, Seq::empty()) {
            Err(e) => parsed_params(ev, at, acc) == Err::<(Seq<RpcView>, int), RpcFailure>(e),
            Ok((params, end)) => parsed_params(ev, at, acc) == Ok::<
                (Seq<RpcView>, int),
                RpcFailure,
            >((acc + params, end)),
        },
    decreases ev.len() - at,
{
    if 0 <= at <= ev.len() {
        if let Ok(i) = significant(ev, at) {
            if opens(ev[i], "param"@) {
                if let Ok((v, k)) = parsed_param(ev, i + 1) {
                    if at < k <= ev.len() {
                        law_parameters_keep_their_order(ev, k, acc.push(v));
                        law_parameters_keep_their_order(ev, k, Seq::<RpcView>::empty().push(v));
                        if let Ok((params, end)) = parsed_params(ev, k, Seq::empty()) {
                            assert(acc.push(v) + params =~= acc + (Seq::<RpcView>::empty().push(v)
                                + params));
                        }
                    }
                }
            } else {
                assert(acc + Seq::<RpcView>::empty() =~= acc);
            }
        }
    }
}

/// A fault tells its code and its message under their own names, and nothing else.
pub proof fn law_fault_members(code: int, message: Seq<char>)
    ensures
        fault_view(code, message) matches RpcView::Struct(m) ==> {
            &&& m.len() == 2
            &&& member_value(m, "faultCode"@) == Some(RpcView::Int(code))
            &&& member_value(m, "faultString"@) == Some(RpcView::Text(message))
        },
        fault_view(code, message) is Struct,
{
    reveal_strlit("faultCode");
    reveal_strlit("faultString");
    assert("faultCode"@.len() == 9 && "faultString"@.len() == 11);
    let m1 = with_member(Seq::empty(), "faultCode"@, RpcView::Int(code));
    let m2 = with_member(m1, "faultString"@, RpcView::Text(message));
    assert(rank(Seq::<MemberView>::empty(), "faultCode"@) == 0);
    assert(m1.len() == 1);
    lemma_rank_bounds(m1, "faultString"@);
    assert(in_order(Seq::<MemberView>::empty()));
    law_members_stay_in_order(Seq::empty(), "faultCode"@, RpcView::Int(code));
    law_set_member_is_found(Seq::empty(), "faultCode"@, RpcView::Int(code));
    law_set_member_is_found(m1, "faultString"@, RpcView::Text(message));
    law_other_members_stay(m1, "faultString"@, RpcView::Text(message), "faultCode"@);
}

/// The answer to a call stands in the elements of a response, which are opened and closed
/// in their order around it.
pub proof fn law_response_layout(v: RpcView)
    ensures
        ({
            let e = response_events(v);
            let n = value_events(v).len() as int;
            &&& e.len() == n + 9
            &&& e[0] == XmlOutView::Decl("1.0"@, "utf-8"@)
            &&& e[1] == XmlOutView::Start("methodResponse"@)
            &&& e[2] == XmlOutView::Start("params"@)
            &&& e[3] == XmlOutView::Start("param"@)
            &&& e[4] == XmlOutView::Start("value"@)
            &&& e.subrange(5, 5 + n) == value_events(v)
            &&& e[5 + n] == XmlOutView::End("value"@)
            &&& e[6 + n] == XmlOutView::End("param"@)
            &&& e[7 + n] == XmlOutView::End("params"@)
            &&& e[8 + n] == XmlOutView::End("methodResponse"@)
        }),
{
    let e = response_events(v);
    let n = value_events(v).len() as int;
    assert(e.subrange(5, 5 + n) =~= value_events(v));
}

/// A fault stands in the elements of a fault, which are opened and closed in their order
/// around what describes it.
pub proof fn law_fault_layout(code: int, message: Seq<char>)
    ensures
        ({
            let e = fault_events(code, message);
            let v = value_events(fault_view(code, message));
            let n = v.len() as int;
            &&& e.len() == n + 7
            &&& e[0] == XmlOutView::Decl("1.0"@, "utf-8"@)
            &&& e[1] == XmlOutView::Start("methodResponse"@)
            &&& e[2] == XmlOutView::Start("fault"@)
            &&& e[3] == XmlOutView::Start("value"@)
            &&& e.subrange(4, 4 + n) == v
            &&& e[4 + n] == XmlOutView::End("value"@)
            &&& e[5 + n] == XmlOutView::End("fault"@)
            &&& e[6 + n] == XmlOutView::End("methodResponse"@)
        }),
{
    let e = fault_events(code, message);
    let v = value_events(fault_view(code, message));
    assert(e.subrange(4, 4 + v.len() as int) =~= v);
}

/// The items of an array are written in their order, each inside an element of its own.
#[verifier::spinoff_prover]
#[verifier::rlimit(30)]
pub proof fn law_items_are_written_in_order(a: Seq<RpcView>, b: Seq<RpcView>)
    ensures
        items_events(a + b) == items_events(a) + items_events(b),
        a.len() == 1 ==> items_events(a) == seq![XmlOutView::Start("value"@)] + value_events(a[0])
            + seq![XmlOutView::End("value"@)],
    decreases b.len(),
{
    if a.len() == 1 {
        assert(a.drop_last() =~= Seq::empty());
        assert(items_events(a.drop_last()) =~= Seq::empty());
        assert(items_events(a) =~= seq![XmlOutView::Start("value"@)] + value_events(a[0]) + seq![
            XmlOutView::End("value"@),
        ]);
    }
    if b.len() == 0 {
        assert(a + b =~= a);
        assert(items_events(a) + items_events(b) =~= items_events(a));
    } else {
        law_items_are_written_in_order(a, b.drop_last());
        assert((a + b).drop_last() =~= a + b.drop_last());
        assert(items_events(a + b) =~= items_events(a) + items_events(b));
    }
}

/// The members of a structure are written in their order, each with its name in front of
/// its value.
#[verifier::spinoff_prover]
#[verifier::rlimit(30)]
pub proof fn law_members_are_written_in_order(a: Seq<MemberView>, b: Seq<MemberView>)
    ensures
        members_events(a + b) == members_events(a) + members_events(b),
        a.len() == 1 ==> members_events(a) == seq![
            XmlOutView::Start("member"@),
            XmlOutView::Start("name"@),
            XmlOutView::Text(a[0].name),
            XmlOutView::End("name"@),
            XmlOutView::Start("value"@),
        ] + value_events(a[0].value) + seq![
            XmlOutView::End("value"@),
            XmlOutView::End("member"@),
        ],
    decreases b.len(),
{
    if a.len() == 1 {
        assert(a.drop_last() =~= Seq::empty());
        assert(members_events(a.drop_last()) =~= Seq::empty());
        assert(members_events(a) =~= seq![
            XmlOutView::Start("member"@),
            XmlOutView::Start("name"@),
            XmlOutView::Text(a[0].name),
            XmlOutView::End("name"@),
            XmlOutView::Start("value"@),
        ] + value_events(a[0].value) + seq![
            XmlOutView::End("value"@),
            XmlOutView::End("member"@),
        ]);
    }
    if b.len() == 0 {
        assert(a + b =~= a);
        assert(members_events(a) + members_events(b) =~= members_events(a));
    } else {
        law_members_are_written_in_order(a, b.drop_last());
        assert((a + b).drop_last() =~= a + b.drop_last());
        assert(members_events(a + b) =~= members_events(a) + members_events(b));
    }
}

/// A value without parts is written between the tags of its type: a number as its digits,
/// a truth value as a one or a zero, a text as it is.
pub proof fn law_leaf_layout(n: int, b: bool, s: Seq<char>)
    ensures
        value_events(RpcView::Int(n)) == seq![
            XmlOutView::Start("int"@),
            XmlOutView::Text(text::signed_decimal(n)),
            XmlOutView::End("int"@),
        ],
        value_events(RpcView::Bool(b)) == seq![
            XmlOutView::Start("boolean"@),
            XmlOutView::Text(if b { seq!['1'] } else { seq!['0'] }),
            XmlOutView::End("boolean"@),
        ],
        value_events(RpcView::Text(s)) == seq![
            XmlOutView::Start("string"@),
            XmlOutView::Text(s),
            XmlOutView::End("string"@),
        ],
{
    reveal_strlit("1");
    reveal_strlit("0");
    assert("1"@ =~= seq!['1']);
    assert("0"@ =~= seq!['0']);
}

/// A call that gives its method's name and nothing else is read as a call of that method
/// without parameters; one with parameters as a call with what they hold.
#[verifier::spinoff_prover]
#[verifier::rlimit(30)]
pub proof fn law_call_is_read(ev: Seq<XmlView>, name: Seq<char>, shown: Seq<Seq<char>>)
    requires
        ev.len() >= 5,
        shown.len() == 5,
        ev[0] == XmlView::Start(encode_utf8("methodCall"@), shown[0]),
        ev[1] == XmlView::Start(encode_utf8("methodName"@), shown[1]),
        ev[2] == XmlView::Text(name, shown[2]),
        ev[3] == XmlView::End(encode_utf8("methodName"@), shown[3]),
    ensures
        ev[4] == XmlView::End(encode_utf8("methodCall"@), shown[4]) ==> parsed_call(ev) == Ok::<
            _,
            RpcFailure,
        >(CallView { method_name: name, params: Seq::empty() }),
        ev[4] == XmlView::Start(encode_utf8("params"@), shown[4]) ==> (parsed_params(
            ev,
            5,
            Seq::empty(),
        ) matches Ok(x) ==> (x.1 < ev.len() && ev[x.1] == XmlView::End(
            encode_utf8("methodCall"@),
            shown[0],
        ) && x.1 >= 0 ==> parsed_call(ev) == Ok::<_, RpcFailure>(
            CallView { method_name: name, params: x.0 },
        ))),
{
    assert(significant(ev, 0) == Ok::<int, RpcFailure>(0));
    assert(significant(ev, 1) == Ok::<int, RpcFailure>(1));
    assert(start_of(ev, 1, "methodName"@) == Ok::<int, RpcFailure>(2));
    assert(next_text(ev, 2) == Ok::<(Seq<char>, int), RpcFailure>((name, 3)));
    assert(significant(ev, 3) == Ok::<int, RpcFailure>(3));
    assert(end_of(ev, 3, "methodName"@) == Ok::<int, RpcFailure>(4));
    assert(text_element(ev, 2, "methodName"@) == Ok::<(Seq<char>, int), RpcFailure>((name, 4)));
}

} // verus!
