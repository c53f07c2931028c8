//! The write path: the XML tree a domain value serializes to, its flattening
//! into balanced start/end markup events, and the encoding into bytes.
//!
//! The parser reads `DateTime` attributes from elements tagged `datetime`;
//! this writer emits the same tag, so that a serialized log re-parses to the
//! value it came from.

use vstd::prelude::*;
use crate::ontology::{
    Attribute, AttrV, Event, EventV, Extension, ExtensionV, Log, LogV, Trace, TraceV,
    entries_seq_view, lemma_entries_seq_view,
};
use crate::text::{join_commas, join_features, render_bool, render_bool_spec, render_i64,
    render_i64_spec, strings_view};
use crate::xml::{events_view, MarkupEvent, MarkupEventV, XmlNodeV};

verus! {

broadcast use vstd::seq::group_seq_axioms, vstd::std_specs::vec::group_vec_axioms;

// ---------------------------------------------------------------------------
// The XML tree a domain value serializes to.
// ---------------------------------------------------------------------------
/// A scalar attribute element: `key` and `value`, no children.
pub open spec fn scalar_node(tag: Seq<char>, key: Seq<char>, value: Seq<char>) -> XmlNodeV {
    XmlNodeV { tag, attributes: seq![("key"@, key), ("value"@, value)], children: Seq::empty() }
}

/// The element one keyed attribute serializes to: scalars render their value
/// text, a list carries its `key` and holds its children.
pub open spec fn xml_of_attr(key: Seq<char>, v: AttrV) -> XmlNodeV
    decreases v,
{
    match v {
        AttrV::List(es) => XmlNodeV {
            tag: "list"@,
            attributes: seq![("key"@, key)],
            children: xml_of_entries(es),
        },
        AttrV::String(s) => scalar_node("string"@, key, s),
        AttrV::DateTime(s) => scalar_node("datetime"@, key, s),
        AttrV::Long(n) => scalar_node("long"@, key, render_i64_spec(n)),
        AttrV::Double(s) => scalar_node("double"@, key, s),
        AttrV::Boolean(b) => scalar_node("boolean"@, key, render_bool_spec(b)),
        AttrV::ID(s) => scalar_node("id"@, key, s),
    }
}

/// The elements a keyed collection serializes to, in stored order.
pub open spec fn xml_of_entries(es: Seq<(Seq<char>, AttrV)>) -> Seq<XmlNodeV>
    decreases es,
{
    if es.len() == 0 {
        Seq::empty()
    } else {
        xml_of_entries(es.drop_last()).push(xml_of_attr(es.last().0, es.last().1))
    }
}

/// `xml_of_entries` maps the collection entry by entry.
pub proof fn lemma_xml_of_entries(es: Seq<(Seq<char>, AttrV)>)
    ensures
        xml_of_entries(es).len() == es.len(),
        forall|i: int|
            0 <= i < es.len() ==> #[trigger] xml_of_entries(es)[i] == xml_of_attr(
                es[i].0,
                es[i].1,
            ),
    decreases es.len(),
{
    if es.len() > 0 {
        lemma_xml_of_entries(es.drop_last());
        assert(xml_of_entries(es) == xml_of_entries(es.drop_last()).push(
            xml_of_attr(es.last().0, es.last().1),
        ));
        assert forall|i: int| 0 <= i < es.len() implies #[trigger] xml_of_entries(es)[i]
            == xml_of_attr(es[i].0, es[i].1) by {
            if i < es.len() - 1 {
                assert(xml_of_entries(es)[i] == xml_of_entries(es.drop_last())[i]);
                assert(es.drop_last()[i] == es[i]);
            } else {
                assert(es.last() == es[i]);
            }
        }
    }
}

pub open spec fn xml_of_event(e: EventV) -> XmlNodeV {
    XmlNodeV { tag: "event"@, attributes: Seq::empty(), children: xml_of_entries(e.attributes) }
}

pub open spec fn xml_of_trace(t: TraceV) -> XmlNodeV {
    XmlNodeV {
        tag: "trace"@,
        attributes: Seq::empty(),
        children: xml_of_entries(t.attributes) + t.events.map_values(|e: EventV| xml_of_event(e)),
    }
}

pub open spec fn xml_of_extension(e: ExtensionV) -> XmlNodeV {
    XmlNodeV {
        tag: "extension"@,
        attributes: seq![("name"@, e.name), ("prefix"@, e.prefix), ("uri"@, e.uri)],
        children: Seq::empty(),
    }
}

/// The element a log serializes to: `version` and the rejoined `features`
/// on the start tag, then extensions, attributes, traces and events.
pub open spec fn xml_of_log(l: LogV) -> XmlNodeV {
    XmlNodeV {
        tag: "log"@,
        attributes: seq![("version"@, l.version), ("features"@, join_commas(l.features))],
        children: l.extensions.map_values(|e: ExtensionV| xml_of_extension(e)) + xml_of_entries(
            l.attributes,
        ) + l.traces.map_values(|t: TraceV| xml_of_trace(t)) + l.events.map_values(
            |e: EventV| xml_of_event(e),
        ),
    }
}

// ---------------------------------------------------------------------------
// Flattening a tree into balanced markup events.
// ---------------------------------------------------------------------------
/// The markup events of one element: its start tag, its flattened children,
/// its end tag. Never self-closing.
pub open spec fn markup_of(x: XmlNodeV) -> Seq<MarkupEventV>
    decreases x, 0int,
{
    seq![MarkupEventV::Start { tag: x.tag, attributes: x.attributes }] + markup_of_nodes(
        x.children,
        0,
    ) + seq![MarkupEventV::End { tag: x.tag }]
}

/// The markup events of the nodes from index `i` on, in order.
pub open spec fn markup_of_nodes(ns: Seq<XmlNodeV>, i: int) -> Seq<MarkupEventV>
    decreases ns, ns.len() - i, 1int,
{
    if !(0 <= i < ns.len()) {
        Seq::empty()
    } else {
        markup_of(ns[i]) + markup_of_nodes(ns, i + 1)
    }
}

// ---------------------------------------------------------------------------
// The executable serializer.
// ---------------------------------------------------------------------------
/// Appends one start event.
fn push_start(tag: &str, attributes: Vec<(String, String)>, events: &mut Vec<MarkupEvent>)
    ensures
        events_view(final(events)@) == events_view(old(events)@) + seq![
            MarkupEventV::Start {
                tag: tag@,
                attributes: attributes@.map_values(|p: (String, String)| (p.0@, p.1@)),
            },
        ],
{
    let ghost attrs_v = attributes@.map_values(|p: (String, String)| (p.0@, p.1@));
    events.push(MarkupEvent::Start { tag: String::from_str(tag), attributes });
    proof {
        assert(events_view(final(events)@) =~= events_view(old(events)@) + seq![
            MarkupEventV::Start { tag: tag@, attributes: attrs_v },
        ]);
    }
}

/// Appends one end event.
fn push_end(tag: &str, events: &mut Vec<MarkupEvent>)
    ensures
        events_view(final(events)@) == events_view(old(events)@) + seq![
            MarkupEventV::End { tag: tag@ },
        ],
{
    events.push(MarkupEvent::End { tag: String::from_str(tag) });
    proof {
        assert(events_view(final(events)@) =~= events_view(old(events)@) + seq![
            MarkupEventV::End { tag: tag@ },
        ]);
    }
}

/// Appends the two events of a scalar attribute element.
fn push_scalar(tag: &str, key: &String, value: String, events: &mut Vec<MarkupEvent>)
    ensures
        events_view(final(events)@) == events_view(old(events)@) + markup_of(
            scalar_node(tag@, key@, value@),
        ),
{
    let ghost x = scalar_node(tag@, key@, value@);
    let mut attrs: Vec<(String, String)> = Vec::new();
    attrs.push((String::from_str("key"), key.clone()));
    attrs.push((String::from_str("value"), value));
    proof {
        assert(attrs@.map_values(|p: (String, String)| (p.0@, p.1@)) =~= x.attributes);
    }
    push_start(tag, attrs, events);
    push_end(tag, events);
    proof {
        assert(markup_of_nodes(x.children, 0) =~= Seq::<MarkupEventV>::empty());
        assert(events_view(final(events)@) =~= events_view(old(events)@) + markup_of(x));
    }
}

/// Serializes one keyed attribute: scalars as a single element carrying
/// `key` and `value`, a list as a `list` element holding its children.
pub fn write_attribute(key: &String, value: &Attribute, events: &mut Vec<MarkupEvent>)
    ensures
        events_view(final(events)@) == events_view(old(events)@) + markup_of(
            xml_of_attr(key@, value@),
        ),
    decreases value,
{
    match value {
        Attribute::List(entries) => {
            let ghost x = xml_of_attr(key@, value@);
            let ghost es = entries_seq_view(entries@);
            let ghost ns = xml_of_entries(es);
            proof {
                lemma_entries_seq_view(entries@);
                lemma_xml_of_entries(es);
            }
            let mut attrs: Vec<(String, String)> = Vec::new();
            attrs.push((String::from_str("key"), key.clone()));
            proof {
                assert(attrs@.map_values(|p: (String, String)| (p.0@, p.1@)) =~= x.attributes);
            }
            push_start("list", attrs, events);
            let n = entries.len();
            let mut i: usize = 0;
            while i < n
                invariant
                    0 <= i <= n,
                    n == entries.len(),
                    *value == Attribute::List(*entries),
                    es == entries_seq_view(entries@),
                    ns == xml_of_entries(es),
                    es.len() == n,
                    ns.len() == n,
                    forall|k: int|
                        0 <= k < n ==> #[trigger] es[k] == (entries@[k].0@, entries@[k].1@),
                    forall|k: int| 0 <= k < n ==> #[trigger] ns[k] == xml_of_attr(es[k].0, es[k].1),
                    events_view(events@) + markup_of_nodes(ns, i as int) == events_view(
                        old(events)@,
                    ) + seq![
                        MarkupEventV::Start { tag: "list"@, attributes: x.attributes },
                    ] + markup_of_nodes(ns, 0),
                decreases n - i,
            {
                let entry = &entries[i];
                proof {
                    assert(decreases_to!(*value => value->List_0));
                    assert(value->List_0 == *entries);
                    assert(decreases_to!(*value => *entries));
                    assert(decreases_to!(*entries => entries@[i as int]));
                    assert(decreases_to!(entries@[i as int] => entries@[i as int].1));
                    assert(decreases_to!(*value => entries@[i as int].1));
                }
                write_attribute(&entry.0, &entry.1, events);
                proof {
                    assert(markup_of_nodes(ns, i as int) =~= markup_of(ns[i as int])
                        + markup_of_nodes(ns, i + 1));
                    assert(events_view(events@) + markup_of_nodes(ns, i + 1) =~= events_view(
                        old(events)@,
                    ) + seq![
                        MarkupEventV::Start { tag: "list"@, attributes: x.attributes },
                    ] + markup_of_nodes(ns, 0));
                }
                i = i + 1;
            }
            push_end("list", events);
            proof {
                assert(markup_of_nodes(ns, n as int) =~= Seq::<MarkupEventV>::empty());
                assert(x.children == ns);
                assert(events_view(final(events)@) =~= events_view(old(events)@) + markup_of(x));
            }
        },
        Attribute::String(s) => {
            push_scalar("string", key, s.clone(), events);
        },
        Attribute::DateTime(s) => {
            push_scalar("datetime", key, s.clone(), events);
        },
        Attribute::Long(n) => {
            push_scalar("long", key, render_i64(*n), events);
        },
        Attribute::Double(s) => {
            push_scalar("double", key, s.clone(), events);
        },
        Attribute::Boolean(b) => {
            push_scalar("boolean", key, render_bool(*b), events);
        },
        Attribute::ID(s) => {
            push_scalar("id", key, s.clone(), events);
        },
    }
}

/// Serializes the entries of a keyed collection, in stored order, appending
/// the flattening of `xml_of_entries`.
fn write_entries(entries: &Vec<(String, Attribute)>, events: &mut Vec<MarkupEvent>)
    ensures
        events_view(final(events)@) == events_view(old(events)@) + markup_of_nodes(
            xml_of_entries(entries_seq_view(entries@)),
            0,
        ),
{
    let ghost es = entries_seq_view(entries@);
    let ghost ns = xml_of_entries(es);
    proof {
        lemma_entries_seq_view(entries@);
        lemma_xml_of_entries(es);
    }
    let n = entries.len();
    let mut i: usize = 0;
    while i < n
        invariant
            0 <= i <= n,
            n == entries.len(),
            es == entries_seq_view(entries@),
            ns == xml_of_entries(es),
            es.len() == n,
            ns.len() == n,
            forall|k: int| 0 <= k < n ==> #[trigger] es[k] == (entries@[k].0@, entries@[k].1@),
            forall|k: int| 0 <= k < n ==> #[trigger] ns[k] == xml_of_attr(es[k].0, es[k].1),
            events_view(events@) + markup_of_nodes(ns, i as int) == events_view(old(events)@)
                + markup_of_nodes(ns, 0),
        decreases n - i,
    {
        let entry = &entries[i];
        write_attribute(&entry.0, &entry.1, events);
        proof {
            assert(markup_of_nodes(ns, i as int) =~= markup_of(ns[i as int]) + markup_of_nodes(
                ns,
                i + 1,
            ));
            assert(events_view(events@) + markup_of_nodes(ns, i + 1) =~= events_view(old(events)@)
                + markup_of_nodes(ns, 0));
        }
        i = i + 1;
    }
    proof {
        assert(markup_of_nodes(ns, n as int) =~= Seq::<MarkupEventV>::empty());
        assert(events_view(final(events)@) =~= events_view(old(events)@) + markup_of_nodes(ns, 0));
    }
}

/// Serializes one event element: its attributes between `event` tags.
pub fn write_event(event: &Event, events: &mut Vec<MarkupEvent>)
    ensures
        events_view(final(events)@) == events_view(old(events)@) + markup_of(xml_of_event(event@)),
{
    let ghost x = xml_of_event(event@);
    push_start("event", Vec::new(), events);
    proof {
        assert(Seq::<(String, String)>::empty().map_values(|p: (String, String)| (p.0@, p.1@))
            =~= x.attributes);
    }
    write_entries(&event.attributes, events);
    push_end("event", events);
    proof {
        assert(events_view(final(events)@) =~= events_view(old(events)@) + markup_of(x));
    }
}

/// Serializes one trace element: its attributes, then its events in order.
pub fn write_trace(trace: &Trace, events: &mut Vec<MarkupEvent>)
    ensures
        events_view(final(events)@) == events_view(old(events)@) + markup_of(xml_of_trace(trace@)),
{
    let ghost x = xml_of_trace(trace@);
    let ghost ns = x.children;
    let ghost ents = xml_of_entries(entries_seq_view(trace.attributes@));
    let ghost evs = trace@.events.map_values(|e: EventV| xml_of_event(e));
    push_start("trace", Vec::new(), events);
    proof {
        assert(Seq::<(String, String)>::empty().map_values(|p: (String, String)| (p.0@, p.1@))
            =~= x.attributes);
    }
    write_entries(&trace.attributes, events);
    proof {
        lemma_markup_of_nodes_concat(ents, evs);
        assert(ns == ents + evs);
        assert(events_view(events@) + markup_of_nodes(evs, 0) =~= events_view(old(events)@)
            + seq![
            MarkupEventV::Start { tag: "trace"@, attributes: x.attributes },
        ] + markup_of_nodes(ns, 0));
    }
    let n = trace.events.len();
    let mut i: usize = 0;
    while i < n
        invariant
            0 <= i <= n,
            n == trace.events.len(),
            evs == trace@.events.map_values(|e: EventV| xml_of_event(e)),
            evs.len() == n,
            forall|k: int|
                0 <= k < n ==> #[trigger] evs[k] == xml_of_event(trace.events@[k]@),
            events_view(events@) + markup_of_nodes(evs, i as int) == events_view(old(events)@)
                + seq![
                MarkupEventV::Start { tag: "trace"@, attributes: x.attributes },
            ] + markup_of_nodes(ns, 0),
        decreases n - i,
    {
        write_event(&trace.events[i], events);
        proof {
            assert(markup_of_nodes(evs, i as int) =~= markup_of(evs[i as int]) + markup_of_nodes(
                evs,
                i + 1,
            ));
            assert(events_view(events@) + markup_of_nodes(evs, i + 1) =~= events_view(
                old(events)@,
            ) + seq![
                MarkupEventV::Start { tag: "trace"@, attributes: x.attributes },
            ] + markup_of_nodes(ns, 0));
        }
        i = i + 1;
    }
    push_end("trace", events);
    proof {
        assert(markup_of_nodes(evs, n as int) =~= Seq::<MarkupEventV>::empty());
        assert(events_view(final(events)@) =~= events_view(old(events)@) + markup_of(x));
    }
}

/// Flattening a concatenation of nodes concatenates the flattenings.
pub proof fn lemma_markup_of_nodes_concat(xs: Seq<XmlNodeV>, ys: Seq<XmlNodeV>)
    ensures
        markup_of_nodes(xs + ys, 0) == markup_of_nodes(xs, 0) + markup_of_nodes(ys, 0),
{
    lemma_markup_of_nodes_concat_from(xs, ys, 0);
    assert(markup_of_nodes(xs + ys, 0) =~= markup_of_nodes(xs, 0) + markup_of_nodes(ys, 0));
}

proof fn lemma_markup_of_nodes_concat_from(xs: Seq<XmlNodeV>, ys: Seq<XmlNodeV>, i: int)
    requires
        0 <= i <= xs.len(),
    ensures
        markup_of_nodes(xs + ys, i) == markup_of_nodes(xs, i) + markup_of_nodes(ys, 0),
    decreases xs.len() + ys.len() - i,
{
    let zs = xs + ys;
    if i < xs.len() {
        lemma_markup_of_nodes_concat_from(xs, ys, i + 1);
        assert(zs[i] == xs[i]);
        assert(markup_of_nodes(zs, i) =~= markup_of(zs[i]) + markup_of_nodes(zs, i + 1));
        assert(markup_of_nodes(xs, i) =~= markup_of(xs[i]) + markup_of_nodes(xs, i + 1));
        assert(markup_of_nodes(zs, i) =~= markup_of_nodes(xs, i) + markup_of_nodes(ys, 0));
    } else {
        lemma_markup_of_nodes_shift(ys, zs, i);
    }
}

/// Flattening `zs` from `i` equals flattening `ys` from 0, when `zs` from
/// `i` on holds exactly `ys`.
proof fn lemma_markup_of_nodes_shift(ys: Seq<XmlNodeV>, zs: Seq<XmlNodeV>, i: int)
    requires
        0 <= i <= zs.len(),
        zs.len() - i == ys.len(),
        forall|k: int| 0 <= k < ys.len() ==> #[trigger] ys[k] == zs[k + i],
    ensures
        markup_of_nodes(zs, i) == markup_of_nodes(ys, 0),
{
    lemma_markup_of_nodes_shift_from(ys, zs, i, 0);
}

proof fn lemma_markup_of_nodes_shift_from(ys: Seq<XmlNodeV>, zs: Seq<XmlNodeV>, i: int, j: int)
    requires
        0 <= i <= zs.len(),
        zs.len() - i == ys.len(),
        forall|k: int| 0 <= k < ys.len() ==> #[trigger] ys[k] == zs[k + i],
        0 <= j <= ys.len(),
    ensures
        markup_of_nodes(zs, i + j) == markup_of_nodes(ys, j),
    decreases ys.len() - j,
{
    if j < ys.len() {
        lemma_markup_of_nodes_shift_from(ys, zs, i, j + 1);
        assert(ys[j] == zs[j + i]);
        assert(markup_of_nodes(zs, i + j) =~= markup_of(zs[i + j]) + markup_of_nodes(
            zs,
            i + j + 1,
        ));
        assert(markup_of_nodes(ys, j) =~= markup_of(ys[j]) + markup_of_nodes(ys, j + 1));
    }
}

/// Serializes one extension element.
pub fn write_extension(extension: &Extension, events: &mut Vec<MarkupEvent>)
    ensures
        events_view(final(events)@) == events_view(old(events)@) + markup_of(
            xml_of_extension(extension@),
        ),
{
    let ghost x = xml_of_extension(extension@);
    let mut attrs: Vec<(String, String)> = Vec::new();
    attrs.push((String::from_str("name"), extension.name.clone()));
    attrs.push((String::from_str("prefix"), extension.prefix.clone()));
    attrs.push((String::from_str("uri"), extension.uri.clone()));
    proof {
        assert(attrs@.map_values(|p: (String, String)| (p.0@, p.1@)) =~= x.attributes);
    }
    push_start("extension", attrs, events);
    push_end("extension", events);
    proof {
        assert(markup_of_nodes(x.children, 0) =~= Seq::<MarkupEventV>::empty());
        assert(events_view(final(events)@) =~= events_view(old(events)@) + markup_of(x));
    }
}

/// Serializes one log element: `version` and the rejoined `features` on the
/// start tag, then its extensions, attributes, traces and events in order.
pub fn write_log(log: &Log, events: &mut Vec<MarkupEvent>)
    ensures
        events_view(final(events)@) == events_view(old(events)@) + markup_of(xml_of_log(log@)),
{
    let ghost x = xml_of_log(log@);
    let ghost ns = x.children;
    let ghost exts = log@.extensions.map_values(|e: ExtensionV| xml_of_extension(e));
    let ghost ents = xml_of_entries(entries_seq_view(log.attributes@));
    let ghost trs = log@.traces.map_values(|t: TraceV| xml_of_trace(t));
    let ghost evs = log@.events.map_values(|e: EventV| xml_of_event(e));

    let mut attrs: Vec<(String, String)> = Vec::new();
    attrs.push((String::from_str("version"), log.version.clone()));
    attrs.push((String::from_str("features"), join_features(&log.features)));
    proof {
        assert(attrs@.map_values(|p: (String, String)| (p.0@, p.1@)) =~= x.attributes);
    }
    push_start("log", attrs, events);

    // Extensions.
    let mut i: usize = 0;
    let n1 = log.extensions.len();
    while i < n1
        invariant
            0 <= i <= n1,
            n1 == log.extensions.len(),
            exts == log@.extensions.map_values(|e: ExtensionV| xml_of_extension(e)),
            exts.len() == n1,
            forall|k: int|
                0 <= k < n1 ==> #[trigger] exts[k] == xml_of_extension(log.extensions@[k]@),
            events_view(events@) + markup_of_nodes(exts, i as int) == events_view(old(events)@)
                + seq![MarkupEventV::Start { tag: "log"@, attributes: x.attributes }]
                + markup_of_nodes(exts, 0),
        decreases n1 - i,
    {
        write_extension(&log.extensions[i], events);
        proof {
            assert(markup_of_nodes(exts, i as int) =~= markup_of(exts[i as int])
                + markup_of_nodes(exts, i + 1));
            assert(events_view(events@) + markup_of_nodes(exts, i + 1) =~= events_view(
                old(events)@,
            ) + seq![MarkupEventV::Start { tag: "log"@, attributes: x.attributes }]
                + markup_of_nodes(exts, 0));
        }
        i = i + 1;
    }
    proof {
        assert(markup_of_nodes(exts, n1 as int) =~= Seq::<MarkupEventV>::empty());
    }

    // Attributes.
    write_entries(&log.attributes, events);

    // Traces.
    let mut i2: usize = 0;
    let n2 = log.traces.len();
    while i2 < n2
        invariant
            0 <= i2 <= n2,
            n2 == log.traces.len(),
            trs == log@.traces.map_values(|t: TraceV| xml_of_trace(t)),
            trs.len() == n2,
            forall|k: int| 0 <= k < n2 ==> #[trigger] trs[k] == xml_of_trace(log.traces@[k]@),
            events_view(events@) + markup_of_nodes(trs, i2 as int) == events_view(old(events)@)
                + seq![MarkupEventV::Start { tag: "log"@, attributes: x.attributes }]
                + markup_of_nodes(exts, 0) + markup_of_nodes(ents, 0) + markup_of_nodes(trs, 0),
        decreases n2 - i2,
    {
        write_trace(&log.traces[i2], events);
        proof {
            assert(markup_of_nodes(trs, i2 as int) =~= markup_of(trs[i2 as int])
                + markup_of_nodes(trs, i2 + 1));
            assert(events_view(events@) + markup_of_nodes(trs, i2 + 1) =~= events_view(
                old(events)@,
            ) + seq![MarkupEventV::Start { tag: "log"@, attributes: x.attributes }]
                + markup_of_nodes(exts, 0) + markup_of_nodes(ents, 0) + markup_of_nodes(trs, 0));
        }
        i2 = i2 + 1;
    }
    proof {
        assert(markup_of_nodes(trs, n2 as int) =~= Seq::<MarkupEventV>::empty());
    }

    // Top-level events.
    let mut i3: usize = 0;
    let n3 = log.events.len();
    while i3 < n3
        invariant
            0 <= i3 <= n3,
            n3 == log.events.len(),
            evs == log@.events.map_values(|e: EventV| xml_of_event(e)),
            evs.len() == n3,
            forall|k: int| 0 <= k < n3 ==> #[trigger] evs[k] == xml_of_event(log.events@[k]@),
            events_view(events@) + markup_of_nodes(evs, i3 as int) == events_view(old(events)@)
                + seq![MarkupEventV::Start { tag: "log"@, attributes: x.attributes }]
                + markup_of_nodes(exts, 0) + markup_of_nodes(ents, 0) + markup_of_nodes(trs, 0)
                + markup_of_nodes(evs, 0),
        decreases n3 - i3,
    {
        write_event(&log.events[i3], events);
        proof {
            assert(markup_of_nodes(evs, i3 as int) =~= markup_of(evs[i3 as int])
                + markup_of_nodes(evs, i3 + 1));
            assert(events_view(events@) + markup_of_nodes(evs, i3 + 1) =~= events_view(
                old(events)@,
            ) + seq![MarkupEventV::Start { tag: "log"@, attributes: x.attributes }]
                + markup_of_nodes(exts, 0) + markup_of_nodes(ents, 0) + markup_of_nodes(trs, 0)
                + markup_of_nodes(evs, 0));
        }
        i3 = i3 + 1;
    }
    push_end("log", events);
    proof {
        assert(markup_of_nodes(evs, n3 as int) =~= Seq::<MarkupEventV>::empty());
        lemma_markup_of_nodes_concat(exts + ents + trs, evs);
        lemma_markup_of_nodes_concat(exts + ents, trs);
        lemma_markup_of_nodes_concat(exts, ents);
        assert(ns =~= exts + ents + trs + evs);
        assert((exts + ents + trs) + evs =~= ns);
        assert((exts + ents) + trs =~= exts + ents + trs);
        assert(markup_of_nodes(ns, 0) == markup_of_nodes(exts, 0) + markup_of_nodes(ents, 0)
            + markup_of_nodes(trs, 0) + markup_of_nodes(evs, 0));
        assert(events_view(final(events)@) =~= events_view(old(events)@) + markup_of(x));
    }
}

// ---------------------------------------------------------------------------
// Encoding the markup events as bytes.
// ---------------------------------------------------------------------------
/// The bytes that `quick_xml`'s writer emits for a markup event list.
pub uninterp spec fn xml_bytes_of(events: Seq<MarkupEventV>) -> Seq<u8>;

/// Relies on `quick_xml::Writer::write_event` over a byte-vector sink: each
/// start or end event is encoded in order and the sink never fails. The
/// event list is converted pair by pair into `quick_xml`'s event type.
#[verifier::external_body]
fn render_markup(events: &Vec<MarkupEvent>) -> (r: Vec<u8>)
    ensures
        r@ == xml_bytes_of(events_view(events@)),
{
    let mut writer = quick_xml::Writer::new(Vec::new());
    for ev in events.iter() {
        match ev {
            MarkupEvent::Start { tag, attributes } => {
                let mut start = quick_xml::events::BytesStart::new(tag.as_str());
                for (k, v) in attributes.iter() { start.push_attribute((k.as_str(), v.as_str())); }
                writer.write_event(quick_xml::events::Event::Start(start)).unwrap();
            },
            MarkupEvent::End { tag } => writer.write_event(quick_xml::events::Event::End(quick_xml::events::BytesEnd::new(tag.as_str()))).unwrap(),
        }
    }
    writer.into_inner()
}

/// Serializes a log to the bytes of its XES document: the markup events of
/// its element tree, encoded by the XML writer.
pub fn log_to_bytes(log: &Log) -> (r: Vec<u8>)
    ensures
        r@ == xml_bytes_of(markup_of(xml_of_log(log@))),
{
    let mut events: Vec<MarkupEvent> = Vec::new();
    write_log(log, &mut events);
    proof {
        assert(events_view(events@) =~= markup_of(xml_of_log(log@)));
    }
    render_markup(&events)
}

} // verus!
