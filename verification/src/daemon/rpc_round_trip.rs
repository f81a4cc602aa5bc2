//! What is read back of a value that was written as a document.
use vstd::prelude::*;
#[allow(unused_imports)]
use vstd::utf8::*;

#[allow(unused_imports)]
use crate::daemon::rpc;
#[allow(unused_imports)]
use crate::daemon::rpc::{MemberView, RpcFailure, RpcView};
#[allow(unused_imports)]
use crate::daemon::xml;
#[allow(unused_imports)]
use crate::daemon::xml::{XmlOutView, XmlView};
#[allow(unused_imports)]
use crate::text;

verus! {

/// Whether a value comes back whole: its numbers have 32 bits, its texts and the names
/// of its members are not empty, and its members are in the order of their names.
pub open spec fn sendable(v: RpcView) -> bool
    decreases v,
{
    match v {
        RpcView::Int(n) => i32::MIN <= n <= i32::MAX,
        RpcView::Bool(_) => true,
        RpcView::Text(s) => s.len() > 0,
        RpcView::Array(items) => items_sendable(items),
        RpcView::Struct(members) => rpc::in_order(members) && members_sendable(members),
    }
}

/// Whether each of these values comes back whole.
pub open spec fn items_sendable(items: Seq<RpcView>) -> bool
    decreases items,
{
    items.len() > 0 ==> sendable(items[0]) && items_sendable(items.drop_first())
}

/// Whether each of these members comes back whole.
pub open spec fn members_sendable(members: Seq<MemberView>) -> bool
    decreases members,
{
    members.len() > 0 ==> members[0].name.len() > 0 && sendable(members[0].value)
        && members_sendable(members.drop_first())
}

/// The events of one item.
pub open spec fn item_events(v: RpcView) -> Seq<XmlOutView> {
    seq![XmlOutView::Start("value"@)] + rpc::value_events(v) + seq![XmlOutView::End("value"@)]
}

/// The events of one member.
pub open spec fn member_events(m: MemberView) -> Seq<XmlOutView> {
    seq![XmlOutView::Start("member"@)] + (rpc::leaf_events("name"@, m.name) + (item_events(m.value)
        + seq![XmlOutView::End("member"@)]))
}

proof fn lemma_items_front(items: Seq<RpcView>)
    requires
        items.len() > 0,
    ensures
        rpc::items_events(items) == item_events(items[0]) + rpc::items_events(items.drop_first()),
    decreases items.len(),
{
    let init = items.drop_last();
    let last = item_events(items.last());
    assert(rpc::items_events(items) =~= rpc::items_events(init) + last);
    if items.len() == 1 {
        assert(init =~= Seq::<RpcView>::empty());
        assert(items.drop_first() =~= Seq::<RpcView>::empty());
        assert(rpc::items_events(items) =~= item_events(items[0]) + rpc::items_events(
            items.drop_first(),
        ));
    } else {
        lemma_items_front(init);
        assert(init.drop_first() =~= items.drop_first().drop_last());
        assert(rpc::items_events(items.drop_first()) =~= rpc::items_events(init.drop_first())
            + last);
        assert(rpc::items_events(items) =~= item_events(items[0]) + rpc::items_events(
            items.drop_first(),
        ));
    }
}

proof fn lemma_members_front(members: Seq<MemberView>)
    requires
        members.len() > 0,
    ensures
        rpc::members_events(members) == member_events(members[0]) + rpc::members_events(
            members.drop_first(),
        ),
    decreases members.len(),
{
    let init = members.drop_last();
    let last = member_events(members.last());
    assert(rpc::members_events(members) =~= rpc::members_events(init) + last);
    if members.len() == 1 {
        assert(init =~= Seq::<MemberView>::empty());
        assert(members.drop_first() =~= Seq::<MemberView>::empty());
        assert(rpc::members_events(members) =~= member_events(members[0]) + rpc::members_events(
            members.drop_first(),
        ));
    } else {
        lemma_members_front(init);
        assert(init.drop_first() =~= members.drop_first().drop_last());
        assert(rpc::members_events(members.drop_first()) =~= rpc::members_events(init.drop_first())
            + last);
        assert(rpc::members_events(members) =~= member_events(members[0]) + rpc::members_events(
            members.drop_first(),
        ));
    }
}

/// A value's events start with a tag.
proof fn lemma_value_events_ends(v: RpcView)
    ensures
        rpc::value_events(v).len() > 0,
        rpc::value_events(v)[0] is Start,
        rpc::value_events(v).last() is End,
{
}

/// What is known of one event and the next.
proof fn lemma_at(outs: Seq<XmlOutView>, ev: Seq<XmlView>, pos: Seq<int>, i: int)
    requires
        xml::laid_out(outs, ev, pos),
        0 <= i < outs.len(),
    ensures
        pos.len() == outs.len(),
        0 <= pos[i] < ev.len(),
        xml::same_event(outs[i], ev[pos[i]]),
        i + 1 < outs.len() ==> pos[i] < pos[i + 1] && xml::gap(ev, pos[i] + 1, pos[i + 1]) && (
        outs[i] is Text || outs[i + 1] is Text ==> pos[i + 1] == pos[i] + 1),
{
    reveal(xml::laid_out);
    reveal(xml::gap);
    if i + 1 < outs.len() {
        assert(outs[i] == outs[i]);
    }
}

proof fn lemma_laid_len(outs: Seq<XmlOutView>, ev: Seq<XmlView>, pos: Seq<int>)
    requires
        xml::laid_out(outs, ev, pos),
    ensures
        pos.len() == outs.len(),
{
    reveal(xml::laid_out);
}

/// What passes over the gap before an event comes to the event.
proof fn lemma_over_gap(ev: Seq<XmlView>, from: int, to: int)
    requires
        0 <= from,
        to < ev.len(),
        xml::gap(ev, from, to),
    ensures
        from <= to,
        rpc::significant(ev, from) == rpc::significant(ev, to),
        rpc::parsed_value(ev, from) == rpc::parsed_value(ev, to),
    decreases to - from,
{
    reveal(xml::gap);
    if from < to {
        assert(xml::ignorable(ev[from]));
        lemma_over_gap(ev, from + 1, to);
    }
}

proof fn lemma_opens(ev: Seq<XmlView>, from: int, to: int, name: Seq<char>)
    requires
        0 <= from,
        to < ev.len(),
        xml::gap(ev, from, to),
        xml::same_event(XmlOutView::Start(name), ev[to]),
    ensures
        rpc::significant(ev, from) == Ok::<int, RpcFailure>(to),
        rpc::opens(ev[to], name),
        rpc::start_of(ev, from, name) == Ok::<int, RpcFailure>(to + 1),
{
    lemma_over_gap(ev, from, to);
}

proof fn lemma_closes(ev: Seq<XmlView>, from: int, to: int, name: Seq<char>)
    requires
        0 <= from,
        to < ev.len(),
        xml::gap(ev, from, to),
        xml::same_event(XmlOutView::End(name), ev[to]),
    ensures
        rpc::significant(ev, from) == Ok::<int, RpcFailure>(to),
        rpc::closes(ev[to], name),
        rpc::end_of(ev, from, name) == Ok::<int, RpcFailure>(to + 1),
{
    lemma_over_gap(ev, from, to);
}

/// Events that stand one behind the other stand each for themselves.
proof fn lemma_split(a: Seq<XmlOutView>, b: Seq<XmlOutView>, ev: Seq<XmlView>, pos: Seq<int>)
    requires
        xml::laid_out(a + b, ev, pos),
    ensures
        pos.len() == a.len() + b.len(),
        xml::laid_out(a, ev, pos.subrange(0, a.len() as int)),
        xml::laid_out(b, ev, pos.subrange(a.len() as int, pos.len() as int)),
        a.len() > 0 && b.len() > 0 ==> xml::gap(ev, pos[a.len() - 1] + 1, pos[a.len() as int]),
{
    reveal(xml::laid_out);
    let n = a.len() as int;
    let all = a + b;
    let pa = pos.subrange(0, n);
    let pb = pos.subrange(n, pos.len() as int);
    assert forall|i: int| 0 <= i < a.len() implies 0 <= #[trigger] pa[i] < ev.len()
        && xml::same_event(a[i], ev[pa[i]]) by {
        assert(pa[i] == pos[i] && all[i] == a[i]);
    }
    assert forall|i: int|
        #![trigger a[i]]
        0 <= i < a.len() - 1 implies xml::gap(ev, pa[i] + 1, pa[i + 1]) && (a[i] is Text || a[i
        + 1] is Text ==> pa[i + 1] == pa[i] + 1) by {
        assert(all[i] == a[i] && all[i + 1] == a[i + 1]);
    }
    assert forall|i: int| 0 <= i < b.len() implies 0 <= #[trigger] pb[i] < ev.len()
        && xml::same_event(b[i], ev[pb[i]]) by {
        assert(pb[i] == pos[n + i] && all[n + i] == b[i]);
    }
    assert forall|i: int|
        #![trigger b[i]]
        0 <= i < b.len() - 1 implies xml::gap(ev, pb[i] + 1, pb[i + 1]) && (b[i] is Text || b[i
        + 1] is Text ==> pb[i + 1] == pb[i] + 1) by {
        assert(all[n + i] == b[i] && all[n + i + 1] == b[i + 1]);
    }
    if a.len() > 0 && b.len() > 0 {
        assert(all[n - 1] == a[n - 1]);
    }
}

/// The tags of values are told apart.
proof fn lemma_tags()
    ensures
        "boolean"@ != "int"@,
        "boolean"@ != "i4"@,
        "string"@ != "int"@,
        "string"@ != "i4"@,
        "string"@ != "boolean"@,
        "array"@ != "int"@,
        "array"@ != "i4"@,
        "array"@ != "boolean"@,
        "array"@ != "string"@,
        "struct"@ != "int"@,
        "struct"@ != "i4"@,
        "struct"@ != "boolean"@,
        "struct"@ != "string"@,
        "struct"@ != "array"@,
        "0"@ != "1"@,
{
    reveal_strlit("int");
    reveal_strlit("i4");
    reveal_strlit("boolean");
    reveal_strlit("string");
    reveal_strlit("array");
    reveal_strlit("struct");
    reveal_strlit("0");
    reveal_strlit("1");
    assert("int"@.len() == 3 && "i4"@.len() == 2 && "boolean"@.len() == 7 && "string"@.len() == 6
        && "array"@.len() == 5 && "struct"@.len() == 6);
    assert("string"@[3] == 'i' && "struct"@[3] == 'u');
    assert("0"@[0] == '0' && "1"@[0] == '1');
}

proof fn lemma_tag_text(tag: Seq<char>)
    ensures
        text::text_from_bytes(encode_utf8(tag)) == tag,
{
    broadcast use {encode_utf8_valid_utf8, encode_utf8_decode_utf8};

}

/// The text of an element that holds only text.
proof fn lemma_leaf_read(ev: Seq<XmlView>, pos: Seq<int>, tag: Seq<char>, content: Seq<char>)
    requires
        xml::laid_out(rpc::leaf_events(tag, content), ev, pos),
    ensures
        pos.len() == 3,
        rpc::next_text(ev, pos[0] + 1) == Ok::<(Seq<char>, int), RpcFailure>((content, pos[1] + 1)),
        rpc::end_of(ev, pos[1] + 1, tag) == Ok::<int, RpcFailure>(pos[2] + 1),
        rpc::text_element(ev, pos[0] + 1, tag) == Ok::<(Seq<char>, int), RpcFailure>(
            (content, pos[2] + 1),
        ),
{
    let outs = rpc::leaf_events(tag, content);
    lemma_at(outs, ev, pos, 0);
    lemma_at(outs, ev, pos, 1);
    lemma_at(outs, ev, pos, 2);
    lemma_closes(ev, pos[1] + 1, pos[2], tag);
}

/// Members in order go in one behind the other.
proof fn lemma_goes_last(m: Seq<MemberView>, name: Seq<char>, value: RpcView)
    requires
        forall|i: int| 0 <= i < m.len() ==> rpc::text_less(#[trigger] m[i].name, name),
    ensures
        rpc::with_member(m, name, value) == m.push(MemberView { name, value }),
{
    lemma_rank_last(m, name);
    assert(rpc::with_member(m, name, value) =~= m.push(MemberView { name, value }));
}

proof fn lemma_rank_last(m: Seq<MemberView>, name: Seq<char>)
    requires
        forall|i: int| 0 <= i < m.len() ==> rpc::text_less(#[trigger] m[i].name, name),
    ensures
        rpc::rank(m, name) == m.len(),
    decreases m.len(),
{
    if m.len() > 0 {
        let d = m.drop_first();
        assert(rpc::text_less(m[0].name, name));
        assert forall|i: int| 0 <= i < d.len() implies rpc::text_less(#[trigger] d[i].name, name) by {
            assert(d[i] == m[i + 1]);
        }
        lemma_rank_last(d, name);
    }
}

/// One more item of an array.
proof fn lemma_items_step(
    ev: Seq<XmlView>,
    at: int,
    acc: Seq<RpcView>,
    i: int,
    v: RpcView,
    j: int,
    k: int,
)
    requires
        0 <= at <= i < ev.len(),
        rpc::significant(ev, at) == Ok::<int, RpcFailure>(i),
        rpc::opens(ev[i], "value"@),
        rpc::parsed_value(ev, i + 1) == Ok::<(RpcView, int), RpcFailure>((v, j)),
        rpc::end_of(ev, j, "value"@) == Ok::<int, RpcFailure>(k),
        at < k <= ev.len(),
    ensures
        rpc::parsed_items(ev, at, acc) == rpc::parsed_items(ev, k, acc.push(v)),
{
}

/// One more member of a structure.
proof fn lemma_members_step(
    ev: Seq<XmlView>,
    at: int,
    acc: Seq<MemberView>,
    i: int,
    m: MemberView,
    k: int,
)
    requires
        0 <= at <= i < ev.len(),
        rpc::significant(ev, at) == Ok::<int, RpcFailure>(i),
        rpc::opens(ev[i], "member"@),
        rpc::parsed_member(ev, i + 1) == Ok::<(MemberView, int), RpcFailure>((m, k)),
        at < k <= ev.len(),
    ensures
        rpc::parsed_members(ev, at, acc) == rpc::parsed_members(
            ev,
            k,
            rpc::with_member(acc, m.name, m.value),
        ),
{
}

/// A member, part by part.
proof fn lemma_member_parts(
    ev: Seq<XmlView>,
    at: int,
    i: int,
    name: Seq<char>,
    j: int,
    k: int,
    value: RpcView,
    l: int,
    m: int,
    n: int,
)
    requires
        rpc::start_of(ev, at, "name"@) == Ok::<int, RpcFailure>(i),
        rpc::text_element(ev, i, "name"@) == Ok::<(Seq<char>, int), RpcFailure>((name, j)),
        rpc::start_of(ev, j, "value"@) == Ok::<int, RpcFailure>(k),
        at < k <= ev.len(),
        rpc::parsed_value(ev, k) == Ok::<(RpcView, int), RpcFailure>((value, l)),
        rpc::end_of(ev, l, "value"@) == Ok::<int, RpcFailure>(m),
        rpc::end_of(ev, m, "member"@) == Ok::<int, RpcFailure>(n),
    ensures
        rpc::parsed_member(ev, at) == Ok::<(MemberView, int), RpcFailure>(
            (MemberView { name, value }, n),
        ),
{
}

/// A value whose type's tag stands here.
proof fn lemma_value_at_tag(ev: Seq<XmlView>, at: int, p: int, tag: Seq<char>)
    requires
        0 <= at,
        p < ev.len(),
        xml::gap(ev, at, p),
        xml::same_event(XmlOutView::Start(tag), ev[p]),
    ensures
        at <= p,
        rpc::parsed_value(ev, at) == rpc::parsed_typed(ev, p + 1, tag),
{
    lemma_over_gap(ev, at, p);
    lemma_tag_text(tag);
}

/// A number, a truth value or a text, whose element stands here.
proof fn lemma_leaf_value(v: RpcView, ev: Seq<XmlView>, pos: Seq<int>)
    requires
        sendable(v),
        v is Int || v is Bool || v is Text,
        xml::laid_out(rpc::value_events(v), ev, pos),
    ensures
        pos.len() == 3,
        0 <= pos[0] < ev.len(),
        rpc::value_events(v)[0] is Start,
        rpc::parsed_typed(ev, pos[0] + 1, rpc::value_events(v)[0]->Start_0) == Ok::<
            (RpcView, int),
            RpcFailure,
        >((v, pos[2] + 1)),
{
    lemma_tags();
    lemma_laid_len(rpc::value_events(v), ev, pos);
    lemma_at(rpc::value_events(v), ev, pos, 0);
    match v {
        RpcView::Int(n) => {
            lemma_leaf_read(ev, pos, "int"@, text::signed_decimal(n));
            text::law_signed_decimal_round_trip(n as i32);
        },
        RpcView::Bool(b) => {
            lemma_leaf_read(ev, pos, "boolean"@, if b { "1"@ } else { "0"@ });
        },
        _ => {
            lemma_leaf_read(ev, pos, "string"@, v->Text_0);
        },
    }
}

/// An array, part by part.
proof fn lemma_array_parts(ev: Seq<XmlView>, at: int, i: int, items: Seq<RpcView>, j: int, k: int)
    requires
        0 <= at <= ev.len(),
        rpc::start_of(ev, at, "data"@) == Ok::<int, RpcFailure>(i),
        rpc::parsed_items(ev, i, Seq::empty()) == Ok::<(Seq<RpcView>, int), RpcFailure>((items, j)),
        rpc::end_of(ev, j, "array"@) == Ok::<int, RpcFailure>(k),
    ensures
        rpc::parsed_typed(ev, at, "array"@) == Ok::<(RpcView, int), RpcFailure>(
            (RpcView::Array(items), k),
        ),
{
    lemma_tags();
}

/// A structure, part by part.
proof fn lemma_struct_parts(ev: Seq<XmlView>, at: int, members: Seq<MemberView>, i: int)
    requires
        0 <= at <= ev.len(),
        rpc::parsed_members(ev, at, Seq::empty()) == Ok::<(Seq<MemberView>, int), RpcFailure>(
            (members, i),
        ),
    ensures
        rpc::parsed_typed(ev, at, "struct"@) == Ok::<(RpcView, int), RpcFailure>(
            (RpcView::Struct(members), i),
        ),
{
    lemma_tags();
}

/// Where the events of a value stand in a document, the value is read there.
#[verifier::spinoff_prover]
pub proof fn law_value_is_read_back(v: RpcView, ev: Seq<XmlView>, pos: Seq<int>, at: int)
    requires
        sendable(v),
        xml::laid_out(rpc::value_events(v), ev, pos),
        0 <= at,
        xml::gap(ev, at, pos[0]),
    ensures
        rpc::parsed_value(ev, at) == Ok::<(RpcView, int), RpcFailure>((v, pos.last() + 1)),
    decreases v, 0int,
{
    let outs = rpc::value_events(v);
    lemma_value_events_ends(v);
    lemma_laid_len(outs, ev, pos);
    lemma_at(outs, ev, pos, 0);
    lemma_value_at_tag(ev, at, pos[0], outs[0]->Start_0);
    match v {
        RpcView::Array(items) => {
            lemma_array_read(items, ev, pos);
        },
        RpcView::Struct(members) => {
            let head = seq![XmlOutView::Start("struct"@)];
            let rest = rpc::members_events(members) + seq![XmlOutView::End("struct"@)];
            assert(outs =~= head + rest);
            lemma_split(head, rest, ev, pos);
            let p = pos.subrange(1, pos.len() as int);
            assert(p[0] == pos[1]);
            assert(p.last() == pos.last());
            assert(Seq::<MemberView>::empty() + members =~= members);
            lemma_members_read(members, ev, p, pos[0] + 1, Seq::empty());
            lemma_struct_parts(ev, pos[0] + 1, members, pos.last() + 1);
        },
        _ => {
            lemma_leaf_value(v, ev, pos);
        },
    }
}

/// An array is read.
#[verifier::spinoff_prover]
proof fn lemma_array_read(items: Seq<RpcView>, ev: Seq<XmlView>, pos: Seq<int>)
    requires
        items_sendable(items),
        xml::laid_out(rpc::value_events(RpcView::Array(items)), ev, pos),
    ensures
        pos.len() > 0,
        0 <= pos[0] < ev.len(),
        rpc::parsed_typed(ev, pos[0] + 1, "array"@) == Ok::<(RpcView, int), RpcFailure>(
            (RpcView::Array(items), pos.last() + 1),
        ),
    decreases items, 3int,
{
    let outs = rpc::value_events(RpcView::Array(items));
    let head = seq![XmlOutView::Start("array"@), XmlOutView::Start("data"@)];
    let rest = rpc::items_events(items) + seq![XmlOutView::End("data"@)];
    let tail = seq![XmlOutView::End("array"@)];
    assert(outs =~= head + (rest + tail));
    lemma_split(head, rest + tail, ev, pos);
    let p = pos.subrange(2, pos.len() as int);
    lemma_split(rest, tail, ev, p);
    let q = p.subrange(0, rest.len() as int);
    assert(outs[0] == head[0] && outs[1] == head[1] && outs.last() == tail[0]);
    lemma_at(outs, ev, pos, 0);
    lemma_at(outs, ev, pos, 1);
    lemma_at(outs, ev, pos, outs.len() - 1);
    lemma_opens(ev, pos[0] + 1, pos[1], "data"@);
    assert(q[0] == pos[2]);
    lemma_items_read(items, ev, q, pos[1] + 1, Seq::empty());
    assert(Seq::<RpcView>::empty() + items =~= items);
    assert(p[rest.len() as int] == pos.last());
    assert(q.last() == p[rest.len() - 1]);
    lemma_at(rest, ev, q, rest.len() - 1);
    lemma_closes(ev, q.last() + 1, pos.last(), "array"@);
    lemma_array_parts(ev, pos[0] + 1, pos[1] + 1, items, q.last() + 1, pos.last() + 1);
}

/// The items of an array are read, up to the tag that closes its data.
#[verifier::spinoff_prover]
proof fn lemma_items_read(
    items: Seq<RpcView>,
    ev: Seq<XmlView>,
    pos: Seq<int>,
    at: int,
    acc: Seq<RpcView>,
)
    requires
        items_sendable(items),
        xml::laid_out(rpc::items_events(items) + seq![XmlOutView::End("data"@)], ev, pos),
        0 <= at,
        xml::gap(ev, at, pos[0]),
    ensures
        rpc::parsed_items(ev, at, acc) == Ok::<(Seq<RpcView>, int), RpcFailure>(
            (acc + items, pos.last() + 1),
        ),
    decreases items, 2int,
{
    let tail = seq![XmlOutView::End("data"@)];
    let outs = rpc::items_events(items) + tail;
    lemma_laid_len(outs, ev, pos);
    if items.len() == 0 {
        assert(outs =~= tail);
        lemma_at(outs, ev, pos, 0);
        lemma_closes(ev, at, pos[0], "data"@);
        lemma_over_gap(ev, at, pos[0]);
        assert(acc + items =~= acc);
    } else {
        let v = items[0];
        let rest = rpc::items_events(items.drop_first()) + tail;
        lemma_items_front(items);
        assert(outs =~= item_events(v) + rest);
        lemma_split(item_events(v), rest, ev, pos);
        let n = item_events(v).len() as int;
        let p = pos.subrange(0, n);
        let q = pos.subrange(n, pos.len() as int);
        assert(p[0] == pos[0]);
        assert(decreases_to!(items => items[0]));
        let j = lemma_item_read(v, ev, p, at);
        assert(p.last() == pos[n - 1] && q[0] == pos[n]);
        lemma_items_step(ev, at, acc, pos[0], v, j, p.last() + 1);
        lemma_items_read(items.drop_first(), ev, q, p.last() + 1, acc.push(v));
        assert(acc.push(v) + items.drop_first() =~= acc + items);
        assert(q.last() == pos.last());
    }
}

/// A value in its element is read, up to the place that is returned.
#[verifier::spinoff_prover]
proof fn lemma_item_read(v: RpcView, ev: Seq<XmlView>, pos: Seq<int>, at: int) -> (j: int)
    requires
        sendable(v),
        xml::laid_out(item_events(v), ev, pos),
        0 <= at,
        xml::gap(ev, at, pos[0]),
    ensures
        pos.len() > 1,
        at <= pos[0] < pos.last() < ev.len(),
        rpc::significant(ev, at) == Ok::<int, RpcFailure>(pos[0]),
        rpc::opens(ev[pos[0]], "value"@),
        rpc::start_of(ev, at, "value"@) == Ok::<int, RpcFailure>(pos[0] + 1),
        rpc::parsed_value(ev, pos[0] + 1) == Ok::<(RpcView, int), RpcFailure>((v, j)),
        rpc::end_of(ev, j, "value"@) == Ok::<int, RpcFailure>(pos.last() + 1),
    decreases v, 1int,
{
    let head = seq![XmlOutView::Start("value"@)];
    let body = rpc::value_events(v);
    let tail = seq![XmlOutView::End("value"@)];
    let outs = item_events(v);
    lemma_value_events_ends(v);
    assert(outs =~= head + (body + tail));
    lemma_split(head, body + tail, ev, pos);
    let p = pos.subrange(1, pos.len() as int);
    lemma_split(body, tail, ev, p);
    let q = p.subrange(0, body.len() as int);
    assert(outs[0] == head[0] && outs.last() == tail[0]);
    lemma_at(outs, ev, pos, 0);
    lemma_at(outs, ev, pos, outs.len() - 1);
    lemma_opens(ev, at, pos[0], "value"@);
    lemma_over_gap(ev, at, pos[0]);
    assert(q[0] == pos[1]);
    law_value_is_read_back(v, ev, q, pos[0] + 1);
    assert(q.last() == p[body.len() - 1] && p[body.len() as int] == pos.last());
    lemma_at(body, ev, q, body.len() - 1);
    lemma_closes(ev, q.last() + 1, pos.last(), "value"@);
    lemma_rising(outs, ev, pos, 0, outs.len() - 1);
    q.last() + 1
}

/// Later events stand at later places.
proof fn lemma_rising(outs: Seq<XmlOutView>, ev: Seq<XmlView>, pos: Seq<int>, i: int, j: int)
    requires
        xml::laid_out(outs, ev, pos),
        0 <= i < j < outs.len(),
    ensures
        pos.len() == outs.len(),
        pos[i] < pos[j],
    decreases j - i,
{
    lemma_at(outs, ev, pos, j - 1);
    if i < j - 1 {
        lemma_rising(outs, ev, pos, i, j - 1);
    }
}

/// The members of a structure are read, up to the tag that closes it.
#[verifier::spinoff_prover]
proof fn lemma_members_read(
    members: Seq<MemberView>,
    ev: Seq<XmlView>,
    pos: Seq<int>,
    at: int,
    acc: Seq<MemberView>,
)
    requires
        members_sendable(members),
        rpc::in_order(acc + members),
        xml::laid_out(rpc::members_events(members) + seq![XmlOutView::End("struct"@)], ev, pos),
        0 <= at,
        xml::gap(ev, at, pos[0]),
    ensures
        rpc::parsed_members(ev, at, acc) == Ok::<(Seq<MemberView>, int), RpcFailure>(
            (acc + members, pos.last() + 1),
        ),
    decreases members, 2int,
{
    let tail = seq![XmlOutView::End("struct"@)];
    let outs = rpc::members_events(members) + tail;
    lemma_laid_len(outs, ev, pos);
    if members.len() == 0 {
        assert(outs =~= tail);
        lemma_at(outs, ev, pos, 0);
        lemma_closes(ev, at, pos[0], "struct"@);
        lemma_over_gap(ev, at, pos[0]);
        assert(acc + members =~= acc);
    } else {
        let m = members[0];
        let rest = rpc::members_events(members.drop_first()) + tail;
        lemma_members_front(members);
        assert(outs =~= member_events(m) + rest);
        lemma_split(member_events(m), rest, ev, pos);
        let n = member_events(m).len() as int;
        let p = pos.subrange(0, n);
        let q = pos.subrange(n, pos.len() as int);
        assert(p[0] == pos[0]);
        assert(decreases_to!(members => members[0]));
        assert(decreases_to!(m => m.value));
        lemma_member_read(m, ev, p, at);
        assert(p.last() == pos[n - 1] && q[0] == pos[n]);
        assert forall|i: int| 0 <= i < acc.len() implies rpc::text_less(
            #[trigger] acc[i].name,
            m.name,
        ) by {
            let all = acc + members;
            assert(all[i] == acc[i] && all[acc.len() as int] == m);
            assert(rpc::text_less(all[i].name, all[acc.len() as int].name));
        }
        lemma_goes_last(acc, m.name, m.value);
        lemma_members_step(ev, at, acc, pos[0], m, p.last() + 1);
        assert(acc.push(m) + members.drop_first() =~= acc + members);
        lemma_members_read(members.drop_first(), ev, q, p.last() + 1, acc.push(m));
        assert(q.last() == pos.last());
    }
}

/// A member is read.
#[verifier::spinoff_prover]
proof fn lemma_member_read(m: MemberView, ev: Seq<XmlView>, pos: Seq<int>, at: int)
    requires
        m.name.len() > 0,
        sendable(m.value),
        xml::laid_out(member_events(m), ev, pos),
        0 <= at,
        xml::gap(ev, at, pos[0]),
    ensures
        pos.len() > 1,
        at <= pos[0] < pos.last() < ev.len(),
        rpc::significant(ev, at) == Ok::<int, RpcFailure>(pos[0]),
        rpc::opens(ev[pos[0]], "member"@),
        rpc::parsed_member(ev, pos[0] + 1) == Ok::<(MemberView, int), RpcFailure>(
            (m, pos.last() + 1),
        ),
    decreases m.value, 2int,
{
    let head = seq![XmlOutView::Start("member"@)];
    let leaf = rpc::leaf_events("name"@, m.name);
    let item = item_events(m.value);
    let tail = seq![XmlOutView::End("member"@)];
    let outs = member_events(m);
    lemma_split(head, leaf + (item + tail), ev, pos);
    let p = pos.subrange(1, pos.len() as int);
    lemma_split(leaf, item + tail, ev, p);
    let pl = p.subrange(0, 3);
    let q = p.subrange(3, p.len() as int);
    lemma_split(item, tail, ev, q);
    let pi = q.subrange(0, item.len() as int);
    assert(outs[0] == head[0] && outs.last() == tail[0] && outs[1] == leaf[0]);
    lemma_at(outs, ev, pos, 0);
    lemma_at(outs, ev, pos, outs.len() - 1);
    lemma_opens(ev, at, pos[0], "member"@);
    lemma_over_gap(ev, at, pos[0]);
    assert(pl[0] == pos[1] && pl[2] == pos[3] && q[0] == pos[4] && pi[0] == pos[4]);
    lemma_at(leaf, ev, pl, 0);
    lemma_at(leaf, ev, pl, 2);
    lemma_opens(ev, pos[0] + 1, pl[0], "name"@);
    lemma_leaf_read(ev, pl, "name"@, m.name);
    let l = lemma_item_read(m.value, ev, pi, pl[2] + 1);
    assert(pi.last() == q[item.len() - 1] && q[item.len() as int] == pos.last());
    lemma_closes(ev, pi.last() + 1, pos.last(), "member"@);
    lemma_rising(outs, ev, pos, 0, 4);
    lemma_rising(outs, ev, pos, 0, outs.len() - 1);
    lemma_member_parts(
        ev,
        pos[0] + 1,
        pl[0] + 1,
        m.name,
        pl[2] + 1,
        pi[0] + 1,
        m.value,
        l,
        pi.last() + 1,
        pos.last() + 1,
    );
}

/// Nothing up to the place of a written event ends the reading.
proof fn lemma_nothing_ends(outs: Seq<XmlOutView>, ev: Seq<XmlView>, pos: Seq<int>, j: int)
    requires
        xml::laid_out(outs, ev, pos),
        pos[0] == 0,
        0 <= j < outs.len(),
    ensures
        pos.len() == outs.len(),
        0 <= pos[j] < ev.len(),
        forall|k: int| 0 <= k <= pos[j] ==> !xml::ends(#[trigger] ev[k]),
    decreases j,
{
    lemma_at(outs, ev, pos, j);
    if j > 0 {
        lemma_nothing_ends(outs, ev, pos, j - 1);
        lemma_at(outs, ev, pos, j - 1);
        reveal(xml::gap);
    }
}

/// What stands before the first event that ends the reading is read.
proof fn lemma_until_end_prefix(ev: Seq<XmlView>, m: int)
    requires
        0 <= m <= ev.len(),
        forall|k: int| 0 <= k < m ==> !xml::ends(#[trigger] ev[k]),
    ensures
        xml::until_end(ev).len() >= m,
        forall|k: int| 0 <= k < m ==> #[trigger] xml::until_end(ev)[k] == ev[k],
    decreases m,
{
    if m > 0 {
        let rest = ev.drop_first();
        assert forall|k: int| 0 <= k < m - 1 implies !xml::ends(#[trigger] rest[k]) by {
            assert(rest[k] == ev[k + 1]);
        }
        lemma_until_end_prefix(rest, m - 1);
        assert forall|k: int| 0 <= k < m implies #[trigger] xml::until_end(ev)[k] == ev[k] by {
            if k > 0 {
                assert(xml::until_end(ev)[k] == xml::until_end(rest)[k - 1]);
            }
        }
    }
}

/// Written events that are in a document, from its start on, are among those that are
/// read.
proof fn lemma_all_are_read(outs: Seq<XmlOutView>, ev: Seq<XmlView>, pos: Seq<int>)
    requires
        xml::laid_out(outs, ev, pos),
        outs.len() > 0,
        pos[0] == 0,
    ensures
        xml::laid_out(outs, xml::until_end(ev), pos),
{
    let n = outs.len() as int;
    let read = xml::until_end(ev);
    lemma_nothing_ends(outs, ev, pos, n - 1);
    lemma_until_end_prefix(ev, pos[n - 1] + 1);
    let last = pos[n - 1];
    assert forall|i: int| 0 <= i < n implies #[trigger] pos[i] <= last by {
        if i < n - 1 {
            lemma_rising(outs, ev, pos, i, n - 1);
        }
    }
    assert forall|i: int| 0 <= i < n implies 0 <= #[trigger] pos[i] < read.len()
        && xml::same_event(outs[i], read[pos[i]]) by {
        lemma_at(outs, ev, pos, i);
    }
    assert forall|i: int|
        #![trigger outs[i]]
        0 <= i < n - 1 implies xml::gap(read, pos[i] + 1, pos[i + 1]) && (outs[i] is Text || outs[i
        + 1] is Text ==> pos[i + 1] == pos[i] + 1) by {
        lemma_at(outs, ev, pos, i);
        reveal(xml::gap);
        assert(pos[i + 1] <= pos[n - 1]);
    }
    reveal(xml::laid_out);
}

/// The value in a document that answers a call.
pub open spec fn answered_value(ev: Seq<XmlView>) -> Result<RpcView, RpcFailure> {
    match rpc::start_of(ev, 0, "methodResponse"@) {
        Err(e) => Err(e),
        Ok(i) => match rpc::start_of(ev, i, "params"@) {
            Err(e) => Err(e),
            Ok(j) => match rpc::start_of(ev, j, "param"@) {
                Err(e) => Err(e),
                Ok(k) => match rpc::parsed_param(ev, k) {
                    Err(e) => Err(e),
                    Ok((v, _)) => Ok(v),
                },
            },
        },
    }
}

/// Where the events of an answer stand in a document, from its start on, the value is
/// read back of the events that are read of the document.
pub proof fn law_response_is_read_back(v: RpcView, ev: Seq<XmlView>, pos: Seq<int>)
    requires
        sendable(v),
        xml::laid_out(rpc::response_events(v), ev, pos),
        pos[0] == 0,
    ensures
        answered_value(xml::until_end(ev)) == Ok::<RpcView, RpcFailure>(v),
{
    lemma_all_are_read(rpc::response_events(v), ev, pos);
    lemma_response_read(v, xml::until_end(ev), pos);
}

#[verifier::spinoff_prover]
proof fn lemma_response_read(v: RpcView, ev: Seq<XmlView>, pos: Seq<int>)
    requires
        sendable(v),
        xml::laid_out(rpc::response_events(v), ev, pos),
        pos[0] == 0,
    ensures
        answered_value(ev) == Ok::<RpcView, RpcFailure>(v),
{
    let outs = rpc::response_events(v);
    let head = seq![
        XmlOutView::Decl("1.0"@, "utf-8"@),
        XmlOutView::Start("methodResponse"@),
        XmlOutView::Start("params"@),
        XmlOutView::Start("param"@),
    ];
    let item = item_events(v);
    let tail = seq![
        XmlOutView::End("param"@),
        XmlOutView::End("params"@),
        XmlOutView::End("methodResponse"@),
    ];
    assert(outs =~= head + (item + tail));
    lemma_split(head, item + tail, ev, pos);
    let p = pos.subrange(4, pos.len() as int);
    lemma_split(item, tail, ev, p);
    let q = p.subrange(0, item.len() as int);
    let t = p.subrange(item.len() as int, p.len() as int);
    let h = pos.subrange(0, 4);
    assert(h[0] == pos[0] && h[1] == pos[1] && h[2] == pos[2] && h[3] == pos[3]);
    lemma_at(head, ev, h, 0);
    lemma_at(head, ev, h, 1);
    lemma_at(head, ev, h, 2);
    lemma_at(head, ev, h, 3);
    lemma_at(tail, ev, t, 0);
    assert(xml::gap(ev, 0, pos[1])) by {
        reveal(xml::gap);
        assert forall|k: int| 0 <= k < pos[1] implies xml::ignorable(#[trigger] ev[k]) by {
            if k == 0 {
                assert(xml::same_event(head[0], ev[0]));
            }
        }
    }
    lemma_opens(ev, 0, pos[1], "methodResponse"@);
    lemma_opens(ev, pos[1] + 1, pos[2], "params"@);
    lemma_opens(ev, pos[2] + 1, pos[3], "param"@);
    assert(q[0] == p[0] && p[0] == pos[4]);
    let j = lemma_item_read(v, ev, q, pos[3] + 1);
    assert(q.last() == p[item.len() - 1] && t[0] == p[item.len() as int]);
    lemma_closes(ev, q.last() + 1, t[0], "param"@);
}

/// The names of the elements are plain.
proof fn lemma_plain_names()
    ensures
        xml::plain_name("methodResponse"@),
        xml::plain_name("params"@),
        xml::plain_name("param"@),
        xml::plain_name("value"@),
        xml::plain_name("int"@),
        xml::plain_name("boolean"@),
        xml::plain_name("string"@),
        xml::plain_name("array"@),
        xml::plain_name("data"@),
        xml::plain_name("struct"@),
        xml::plain_name("member"@),
        xml::plain_name("name"@),
{
    reveal_strlit("methodResponse");
    reveal_strlit("params");
    reveal_strlit("param");
    reveal_strlit("value");
    reveal_strlit("int");
    reveal_strlit("boolean");
    reveal_strlit("string");
    reveal_strlit("array");
    reveal_strlit("data");
    reveal_strlit("struct");
    reveal_strlit("member");
    reveal_strlit("name");
}

/// A value's events open and close the same elements.
proof fn lemma_value_closes(v: RpcView, rest: Seq<XmlOutView>, open: Seq<Seq<char>>)
    requires
        sendable(v),
        !xml::text_next(rest),
    ensures
        xml::closes_all(rpc::value_events(v) + rest, open) == xml::closes_all(rest, open),
    decreases v, 0int,
{
    lemma_plain_names();
    match v {
        RpcView::Int(n) => {
            lemma_decimal_not_empty(n);
            lemma_leaf_closes("int"@, text::signed_decimal(n), rest, open);
        },
        RpcView::Bool(b) => {
            reveal_strlit("0");
            reveal_strlit("1");
            lemma_leaf_closes("boolean"@, if b { "1"@ } else { "0"@ }, rest, open);
        },
        RpcView::Text(t) => {
            lemma_leaf_closes("string"@, t, rest, open);
        },
        RpcView::Array(items) => {
            let a = XmlOutView::End("array"@);
            let d = XmlOutView::End("data"@);
            let inner = rpc::items_events(items) + (seq![d] + (seq![a] + rest));
            lemma_front(d, seq![a] + rest);
            lemma_front(a, rest);
            lemma_front(XmlOutView::Start("data"@), inner);
            lemma_front(XmlOutView::Start("array"@), seq![XmlOutView::Start("data"@)] + inner);
            assert(rpc::value_events(v) + rest =~= seq![XmlOutView::Start("array"@)] + (seq![
                XmlOutView::Start("data"@),
            ] + inner));
            let o = open.push("array"@);
            lemma_items_close(items, seq![d] + (seq![a] + rest), o.push("data"@));
            assert(o.push("data"@).drop_last() =~= o);
            assert(o.drop_last() =~= open);
            assert(xml::closes_all(seq![a] + rest, o) == xml::closes_all(rest, open));
            assert(xml::closes_all(seq![d] + (seq![a] + rest), o.push("data"@)) == xml::closes_all(
                rest,
                open,
            ));
            assert(xml::closes_all(seq![XmlOutView::Start("data"@)] + inner, o) == xml::closes_all(
                rest,
                open,
            ));
        },
        RpcView::Struct(members) => {
            let e = XmlOutView::End("struct"@);
            let inner = rpc::members_events(members) + (seq![e] + rest);
            lemma_front(e, rest);
            lemma_front(XmlOutView::Start("struct"@), inner);
            assert(rpc::value_events(v) + rest =~= seq![XmlOutView::Start("struct"@)] + inner);
            lemma_members_close(members, seq![e] + rest, open.push("struct"@));
            assert(open.push("struct"@).drop_last() =~= open);
            assert(xml::closes_all(seq![e] + rest, open.push("struct"@)) == xml::closes_all(
                rest,
                open,
            ));
        },
    }
}

/// The first event and the rest.
proof fn lemma_front(e: XmlOutView, rest: Seq<XmlOutView>)
    ensures
        (seq![e] + rest).len() == rest.len() + 1,
        (seq![e] + rest)[0] == e,
        (seq![e] + rest).drop_first() == rest,
{
    assert((seq![e] + rest).drop_first() =~= rest);
}

proof fn lemma_decimal_not_empty(n: int)
    ensures
        text::signed_decimal(n).len() > 0,
{
    if n >= 0 {
        assert(text::decimal(n as nat).len() > 0);
    }
}

proof fn lemma_leaf_closes(
    tag: Seq<char>,
    content: Seq<char>,
    rest: Seq<XmlOutView>,
    open: Seq<Seq<char>>,
)
    requires
        xml::plain_name(tag),
        content.len() > 0,
        !xml::text_next(rest),
    ensures
        xml::closes_all(rpc::leaf_events(tag, content) + rest, open) == xml::closes_all(rest, open),
{
    let s = XmlOutView::Start(tag);
    let t = XmlOutView::Text(content);
    let e = XmlOutView::End(tag);
    lemma_front(e, rest);
    lemma_front(t, seq![e] + rest);
    lemma_front(s, seq![t] + (seq![e] + rest));
    assert(rpc::leaf_events(tag, content) + rest =~= seq![s] + (seq![t] + (seq![e] + rest)));
    assert(open.push(tag).drop_last() =~= open);
    assert(xml::closes_all(seq![e] + rest, open.push(tag)) == xml::closes_all(rest, open));
    assert(xml::closes_all(seq![t] + (seq![e] + rest), open.push(tag)) == xml::closes_all(
        rest,
        open,
    ));
}

/// An item's events open and close the same elements.
proof fn lemma_item_closes(v: RpcView, rest: Seq<XmlOutView>, open: Seq<Seq<char>>)
    requires
        sendable(v),
        !xml::text_next(rest),
    ensures
        xml::closes_all(item_events(v) + rest, open) == xml::closes_all(rest, open),
    decreases v, 1int,
{
    lemma_plain_names();
    let s = XmlOutView::Start("value"@);
    let e = XmlOutView::End("value"@);
    let inner = rpc::value_events(v) + (seq![e] + rest);
    lemma_front(e, rest);
    lemma_front(s, inner);
    assert(item_events(v) + rest =~= seq![s] + inner);
    lemma_value_closes(v, seq![e] + rest, open.push("value"@));
    assert(open.push("value"@).drop_last() =~= open);
}

proof fn lemma_items_close(items: Seq<RpcView>, rest: Seq<XmlOutView>, open: Seq<Seq<char>>)
    requires
        items_sendable(items),
        !xml::text_next(rest),
    ensures
        xml::closes_all(rpc::items_events(items) + rest, open) == xml::closes_all(rest, open),
    decreases items, 2int,
{
    if items.len() == 0 {
        assert(rpc::items_events(items) + rest =~= rest);
    } else {
        let more = rpc::items_events(items.drop_first()) + rest;
        lemma_items_front(items);
        assert(rpc::items_events(items) + rest =~= item_events(items[0]) + more);
        if items.len() > 1 {
            lemma_items_front(items.drop_first());
            assert(more[0] == item_events(items.drop_first()[0])[0]);
        } else {
            assert(more =~= rest);
        }
        assert(decreases_to!(items => items[0]));
        lemma_item_closes(items[0], more, open);
        lemma_items_close(items.drop_first(), rest, open);
    }
}

proof fn lemma_members_close(members: Seq<MemberView>, rest: Seq<XmlOutView>, open: Seq<Seq<char>>)
    requires
        members_sendable(members),
        !xml::text_next(rest),
    ensures
        xml::closes_all(rpc::members_events(members) + rest, open) == xml::closes_all(rest, open),
    decreases members, 2int,
{
    if members.len() == 0 {
        assert(rpc::members_events(members) + rest =~= rest);
    } else {
        let m = members[0];
        let more = rpc::members_events(members.drop_first()) + rest;
        lemma_members_front(members);
        assert(rpc::members_events(members) + rest =~= member_events(m) + more);
        if members.len() > 1 {
            lemma_members_front(members.drop_first());
            assert(more[0] == member_events(members.drop_first()[0])[0]);
        } else {
            assert(more =~= rest);
        }
        lemma_plain_names();
        let s = XmlOutView::Start("member"@);
        let e = XmlOutView::End("member"@);
        let leaf = rpc::leaf_events("name"@, m.name);
        let item = item_events(m.value);
        let o = open.push("member"@);
        lemma_front(e, more);
        lemma_front(s, leaf + (item + (seq![e] + more)));
        assert(member_events(m) + more =~= seq![s] + (leaf + (item + (seq![e] + more))));
        assert((item + (seq![e] + more))[0] == item[0]);
        lemma_leaf_closes("name"@, m.name, item + (seq![e] + more), o);
        assert(decreases_to!(members => members[0]));
        assert(decreases_to!(m => m.value));
        lemma_item_closes(m.value, seq![e] + more, o);
        assert(o.drop_last() =~= open);
        lemma_members_close(members.drop_first(), rest, open);
    }
}

/// The events of an answer make a document.
pub proof fn lemma_response_makes_document(v: RpcView)
    requires
        sendable(v),
    ensures
        xml::makes_document(rpc::response_events(v)),
{
    lemma_plain_names();
    let none = Seq::<XmlOutView>::empty();
    let r = XmlOutView::End("methodResponse"@);
    let ps = XmlOutView::End("params"@);
    let p = XmlOutView::End("param"@);
    let tail = seq![p] + (seq![ps] + (seq![r] + none));
    lemma_front(r, none);
    lemma_front(ps, seq![r] + none);
    lemma_front(p, seq![ps] + (seq![r] + none));
    let o1 = Seq::<Seq<char>>::empty().push("methodResponse"@);
    let o2 = o1.push("params"@);
    let o3 = o2.push("param"@);
    assert(o3.drop_last() =~= o2 && o2.drop_last() =~= o1 && o1.drop_last() =~= Seq::<
        Seq<char>,
    >::empty());
    assert(xml::closes_all(none, Seq::<Seq<char>>::empty()));
    assert(xml::closes_all(seq![r] + none, o1));
    assert(xml::closes_all(seq![ps] + (seq![r] + none), o2));
    assert(xml::closes_all(tail, o3));
    lemma_item_closes(v, tail, o3);
    let body = item_events(v) + tail;
    let b3 = seq![XmlOutView::Start("param"@)] + body;
    let b2 = seq![XmlOutView::Start("params"@)] + b3;
    let b1 = seq![XmlOutView::Start("methodResponse"@)] + b2;
    lemma_front(XmlOutView::Start("param"@), body);
    lemma_front(XmlOutView::Start("params"@), b3);
    lemma_front(XmlOutView::Start("methodResponse"@), b2);
    lemma_front(XmlOutView::Decl("1.0"@, "utf-8"@), b1);
    assert(rpc::response_events(v) =~= seq![XmlOutView::Decl("1.0"@, "utf-8"@)] + b1);
    assert(xml::closes_all(b3, o2));
    assert(xml::closes_all(b2, o1));
    assert(xml::closes_all(b1, Seq::empty()));
}

} // verus!
