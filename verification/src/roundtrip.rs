//! The round-trip laws: parsing what the serializer emits yields the value
//! it came from. Stated over the serialized element tree, whose flattening
//! is exactly the markup event list the writer produces.

use vstd::prelude::*;
use crate::ontology::{
    AttrV, EventV, ExtensionV, LogV, TraceV, XesErrorV, attr_wf, entries_values_wf, entries_wf,
    event_wf, first_key_index, insert_entry_spec, keys_distinct, lemma_entries_values_wf,
    lemma_first_key_index, log_wf, trace_wf,
};
use crate::parser::{
    is_attribute_tag, parse_attr_spec, parse_entries_spec, parse_event_spec, parse_events_spec,
    parse_extensions_spec, parse_log_spec, parse_logs_spec, parse_trace_spec, parse_traces_spec,
};
use crate::text::{
    all_digits, count_char, dec_str, digit_val, digits_val, first_index_match, has_minus,
    is_digit, is_double_lexeme, is_space, join_commas, lemma_first_index_match, parse_bool_spec,
    parse_i64_spec, render_bool_spec, render_i64_spec, split_commas, strip_sign, trim_spec,
    features_of,
};
use crate::writer::{
    lemma_xml_of_entries, scalar_node, xml_of_attr, xml_of_entries, xml_of_event,
    xml_of_extension, xml_of_log, xml_of_trace,
};
use crate::xml::{attr_of, XmlNodeV};

verus! {

broadcast use vstd::seq::group_seq_axioms;

/// The element tag and XML attribute names are pairwise distinct wherever a
/// walk of serialized output compares them.
proof fn lemma_tag_literals()
    ensures
        !is_attribute_tag("extension"@),
        !is_attribute_tag("trace"@),
        !is_attribute_tag("event"@),
        !is_attribute_tag("log"@),
        "extension"@ != "trace"@ && "extension"@ != "event"@ && "extension"@ != "log"@,
        "trace"@ != "event"@ && "trace"@ != "log"@,
        "event"@ != "log"@,
        "list"@ != "extension"@ && "list"@ != "trace"@ && "list"@ != "event"@ && "list"@
            != "log"@,
        "string"@ != "extension"@ && "string"@ != "trace"@ && "string"@ != "event"@ && "string"@
            != "log"@,
        "datetime"@ != "extension"@ && "datetime"@ != "trace"@ && "datetime"@ != "event"@
            && "datetime"@ != "log"@,
        "long"@ != "extension"@ && "long"@ != "trace"@ && "long"@ != "event"@ && "long"@
            != "log"@,
        "double"@ != "extension"@ && "double"@ != "trace"@ && "double"@ != "event"@ && "double"@
            != "log"@,
        "boolean"@ != "extension"@ && "boolean"@ != "trace"@ && "boolean"@ != "event"@
            && "boolean"@ != "log"@,
        "id"@ != "extension"@ && "id"@ != "trace"@ && "id"@ != "event"@ && "id"@ != "log"@,
        "key"@ != "value"@,
        "datetime"@ != "string"@,
        "long"@ != "string"@ && "long"@ != "datetime"@,
        "double"@ != "string"@ && "double"@ != "datetime"@ && "double"@ != "long"@,
        "boolean"@ != "string"@ && "boolean"@ != "datetime"@ && "boolean"@ != "long"@
            && "boolean"@ != "double"@,
        "id"@ != "string"@ && "id"@ != "datetime"@ && "id"@ != "long"@ && "id"@ != "double"@
            && "id"@ != "boolean"@,
        "list"@ != "string"@ && "list"@ != "datetime"@ && "list"@ != "long"@ && "list"@
            != "double"@ && "list"@ != "boolean"@ && "list"@ != "id"@,
        "name"@ != "prefix"@ && "name"@ != "uri"@ && "prefix"@ != "uri"@,
        "version"@ != "features"@,
        "true"@ != "false"@,
{
    reveal_strlit("list");
    reveal_strlit("string");
    reveal_strlit("datetime");
    reveal_strlit("long");
    reveal_strlit("double");
    reveal_strlit("boolean");
    reveal_strlit("id");
    reveal_strlit("extension");
    reveal_strlit("trace");
    reveal_strlit("event");
    reveal_strlit("log");
    reveal_strlit("key");
    reveal_strlit("value");
    reveal_strlit("version");
    reveal_strlit("features");
    reveal_strlit("name");
    reveal_strlit("prefix");
    reveal_strlit("uri");
    reveal_strlit("true");
    reveal_strlit("false");
    assert("list"@.len() == 4 && "string"@.len() == 6 && "datetime"@.len() == 8 && "long"@.len()
        == 4 && "double"@.len() == 6 && "boolean"@.len() == 7 && "id"@.len() == 2);
    assert("extension"@.len() == 9 && "trace"@.len() == 5 && "event"@.len() == 5 && "log"@.len()
        == 3);
    assert("key"@.len() == 3 && "value"@.len() == 5 && "version"@.len() == 7 && "features"@.len()
        == 8);
    assert("name"@.len() == 4 && "prefix"@.len() == 6 && "uri"@.len() == 3);
    assert("true"@.len() == 4 && "false"@.len() == 5);
    assert("string"@[0] != "double"@[0]);
    assert("trace"@[0] != "event"@[0]);
    assert("list"@[1] != "long"@[1]);
}

// ---------------------------------------------------------------------------
// Scalar round trips.
// ---------------------------------------------------------------------------
/// The decimal digits of a nonnegative number read back to that number.
proof fn lemma_dec_str_value(m: int)
    requires
        m >= 0,
    ensures
        dec_str(m).len() >= 1,
        all_digits(dec_str(m)),
        digits_val(dec_str(m)) == m,
    decreases m,
{
    if m < 10 {
        let s = dec_str(m);
        assert(s == seq![crate::text::digit_char(m)]);
        assert(is_digit(s[0]));
        assert(s.drop_last() =~= Seq::<char>::empty());
        assert(digits_val(s.drop_last()) == 0);
        assert(digits_val(s) == digits_val(s.drop_last()) * 10 + digit_val(s.last()));
        assert(digits_val(s) == digit_val(s[0]));
    } else {
        lemma_dec_str_value(m / 10);
        let s = dec_str(m);
        let p = dec_str(m / 10);
        assert(s == p.push(crate::text::digit_char(m % 10)));
        assert(s.drop_last() =~= p);
        assert(s.last() == crate::text::digit_char(m % 10));
        assert(is_digit(s.last()));
        assert forall|i: int| 0 <= i < s.len() implies is_digit(#[trigger] s[i]) by {
            if i < p.len() {
                assert(s[i] == p[i]);
            }
        }
        vstd::arithmetic::div_mod::lemma_fundamental_div_mod(m, 10);
        assert(digits_val(s) == digits_val(p) * 10 + digit_val(s.last()));
    }
}

/// Rendering a signed 64-bit integer and parsing it back is the identity.
pub proof fn lemma_i64_round_trip(n: i64)
    ensures
        parse_i64_spec(render_i64_spec(n)) == Option::Some(n),
{
    if n >= 0 {
        let s = render_i64_spec(n);
        lemma_dec_str_value(n as int);
        assert(s == dec_str(n as int));
        assert(is_digit(s[0]));
        assert(s[0] as u32 != '+' as u32 && s[0] as u32 != '-' as u32);
        assert(strip_sign(s) == s);
        assert(!has_minus(s));
        assert(digits_val(s) == n as int);
    } else {
        let s = render_i64_spec(n);
        let d = dec_str(-(n as int));
        lemma_dec_str_value(-(n as int));
        assert(s == seq!['-'] + d);
        assert(s[0] == '-');
        assert(s.drop_first() =~= d);
        assert(strip_sign(s) == d);
        assert(has_minus(s));
        assert(digits_val(d) == -(n as int));
        assert(digits_val(d) <= 0x8000_0000_0000_0000);
        assert((-digits_val(d)) as i64 == n);
    }
}

/// Rendering a boolean and parsing it back is the identity.
pub proof fn lemma_bool_round_trip(b: bool)
    ensures
        parse_bool_spec(render_bool_spec(b)) == Option::Some(b),
{
    lemma_tag_literals();
}

// ---------------------------------------------------------------------------
// Attribute round trip.
// ---------------------------------------------------------------------------
/// Looking up `key` and `value` on a serialized scalar element.
proof fn lemma_scalar_attrs(tag: Seq<char>, key: Seq<char>, value: Seq<char>)
    ensures
        attr_of(scalar_node(tag, key, value).attributes, "key"@) == Option::Some(key),
        attr_of(scalar_node(tag, key, value).attributes, "value"@) == Option::Some(value),
{
    lemma_tag_literals();
    let attrs = scalar_node(tag, key, value).attributes;
    assert(attrs[0] == ("key"@, key));
    let rest = attrs.drop_first();
    assert(rest =~= seq![("value"@, value)]);
    assert(rest[0] == ("value"@, value));
    assert(attr_of(rest, "value"@) == Option::Some(value));
    assert(attr_of(attrs, "value"@) == attr_of(rest, "value"@));
}

/// Parsing the element a well-formed attribute serializes to yields the
/// attribute back, key and value alike.
pub proof fn lemma_attr_round_trip(key: Seq<char>, v: AttrV)
    requires
        attr_wf(v),
    ensures
        parse_attr_spec(xml_of_attr(key, v)) == Result::Ok::<_, XesErrorV>((key, v)),
    decreases v, 0int, 0int,
{
    lemma_tag_literals();
    let x = xml_of_attr(key, v);
    match v {
        AttrV::List(es) => {
            assert(x.attributes[0] == ("key"@, key));
            assert(attr_of(x.attributes, "key"@) == Option::Some(key));
            let rest = x.attributes.drop_first();
            assert(rest =~= Seq::<(Seq<char>, Seq<char>)>::empty());
            assert(attr_of(rest, "value"@) is None);
            assert(attr_of(x.attributes, "value"@) == attr_of(rest, "value"@));
            lemma_xml_of_entries(es);
            lemma_entries_block(x.children, 0, es, 0);
            assert(es.take(0) =~= Seq::<(Seq<char>, AttrV)>::empty());
            assert(parse_entries_spec(x.children, 0, Seq::empty()) == Result::Ok::<
                _,
                XesErrorV,
            >(es));
        },
        AttrV::String(s) => {
            lemma_scalar_attrs("string"@, key, s);
        },
        AttrV::DateTime(s) => {
            lemma_scalar_attrs("datetime"@, key, s);
        },
        AttrV::Long(n) => {
            lemma_scalar_attrs("long"@, key, render_i64_spec(n));
            lemma_i64_round_trip(n);
        },
        AttrV::Double(s) => {
            lemma_scalar_attrs("double"@, key, s);
        },
        AttrV::Boolean(b) => {
            lemma_scalar_attrs("boolean"@, key, render_bool_spec(b));
            lemma_bool_round_trip(b);
        },
        AttrV::ID(s) => {
            lemma_scalar_attrs("id"@, key, s);
        },
    }
}

/// A serialized attribute element carries an attribute tag.
proof fn lemma_attr_node_tag(key: Seq<char>, v: AttrV)
    ensures
        is_attribute_tag(xml_of_attr(key, v).tag),
{
}

/// The attribute fold ignores every node from `i` to `j` whose tag is not
/// an attribute tag.
proof fn lemma_entries_skip(ns: Seq<XmlNodeV>, i: int, j: int, acc: Seq<(Seq<char>, AttrV)>)
    requires
        0 <= i <= j <= ns.len(),
        forall|k: int| i <= k < j ==> !is_attribute_tag((#[trigger] ns[k]).tag),
    ensures
        parse_entries_spec(ns, i, acc) == parse_entries_spec(ns, j, acc),
    decreases j - i,
{
    if i < j {
        lemma_entries_skip(ns, i + 1, j, acc);
    }
}

/// Folding over a contiguous block of serialized entries with distinct keys
/// rebuilds the collection, with nothing else attribute-tagged in sight.
proof fn lemma_entries_block(ns: Seq<XmlNodeV>, b: int, es: Seq<(Seq<char>, AttrV)>, j: int)
    requires
        0 <= b,
        b + es.len() <= ns.len(),
        0 <= j <= es.len(),
        forall|k: int|
            0 <= k < es.len() ==> #[trigger] ns[b + k] == xml_of_attr(es[k].0, es[k].1),
        forall|k: int|
            b + es.len() <= k < ns.len() ==> !is_attribute_tag((#[trigger] ns[k]).tag),
        keys_distinct(es),
        entries_values_wf(es),
    ensures
        parse_entries_spec(ns, b + j, es.take(j)) == Result::Ok::<_, XesErrorV>(es),
    decreases es, es.len() - j, 1int,
{
    lemma_entries_values_wf(es);
    if j == es.len() {
        lemma_entries_skip(ns, b + j, ns.len() as int, es.take(j));
        assert(es.take(j) =~= es);
    } else {
        assert(ns[b + j] == xml_of_attr(es[j].0, es[j].1));
        lemma_attr_node_tag(es[j].0, es[j].1);
        lemma_attr_round_trip(es[j].0, es[j].1);
        lemma_first_key_index(es.take(j), es[j].0);
        let fki = first_key_index(es.take(j), es[j].0);
        if fki >= 0 {
            assert(es.take(j)[fki] == es[fki]);
            assert(es[fki].0 == es[j].0);
            assert(false);
        }
        assert(insert_entry_spec(es.take(j), es[j].0, es[j].1) =~= es.take(j + 1));
        lemma_entries_block(ns, b, es, j + 1);
    }
}

// ---------------------------------------------------------------------------
// Event, trace and extension round trips.
// ---------------------------------------------------------------------------
/// Parsing the element a well-formed event serializes to yields it back.
pub proof fn lemma_event_round_trip(e: EventV)
    requires
        event_wf(e),
    ensures
        parse_event_spec(xml_of_event(e)) == Result::Ok::<_, XesErrorV>(e),
{
    let x = xml_of_event(e);
    lemma_xml_of_entries(e.attributes);
    lemma_entries_block(x.children, 0, e.attributes, 0);
    assert(e.attributes.take(0) =~= Seq::<(Seq<char>, AttrV)>::empty());
    assert(parse_entries_spec(x.children, 0, Seq::empty()) == Result::Ok::<_, XesErrorV>(
        e.attributes,
    ));
}

/// The event fold ignores every node from `i` to `j` not tagged `event`.
proof fn lemma_events_skip(ns: Seq<XmlNodeV>, i: int, j: int, acc: Seq<EventV>)
    requires
        0 <= i <= j <= ns.len(),
        forall|k: int| i <= k < j ==> (#[trigger] ns[k]).tag != "event"@,
    ensures
        parse_events_spec(ns, i, acc) == parse_events_spec(ns, j, acc),
    decreases j - i,
{
    if i < j {
        lemma_events_skip(ns, i + 1, j, acc);
    }
}

/// Folding over a contiguous block of serialized events rebuilds the
/// sequence, with nothing else `event`-tagged in sight.
proof fn lemma_events_block(ns: Seq<XmlNodeV>, b: int, evs: Seq<EventV>, j: int)
    requires
        0 <= b,
        b + evs.len() <= ns.len(),
        0 <= j <= evs.len(),
        forall|k: int| 0 <= k < evs.len() ==> #[trigger] ns[b + k] == xml_of_event(evs[k]),
        forall|k: int| b + evs.len() <= k < ns.len() ==> (#[trigger] ns[k]).tag != "event"@,
        forall|k: int| 0 <= k < evs.len() ==> event_wf(#[trigger] evs[k]),
    ensures
        parse_events_spec(ns, b + j, evs.take(j)) == Result::Ok::<_, XesErrorV>(evs),
    decreases evs.len() - j,
{
    if j == evs.len() {
        lemma_events_skip(ns, b + j, ns.len() as int, evs.take(j));
        assert(evs.take(j) =~= evs);
    } else {
        assert(ns[b + j] == xml_of_event(evs[j]));
        lemma_event_round_trip(evs[j]);
        assert(evs.take(j).push(evs[j]) =~= evs.take(j + 1));
        lemma_events_block(ns, b, evs, j + 1);
    }
}

/// Parsing the element a well-formed trace serializes to yields it back,
/// its attributes and its events in their stored order.
pub proof fn lemma_trace_round_trip(t: TraceV)
    requires
        trace_wf(t),
    ensures
        parse_trace_spec(xml_of_trace(t)) == Result::Ok::<_, XesErrorV>(t),
{
    lemma_tag_literals();
    let x = xml_of_trace(t);
    let ns = x.children;
    let ents = xml_of_entries(t.attributes);
    let evs = t.events.map_values(|e: EventV| xml_of_event(e));
    let a = ents.len() as int;
    lemma_xml_of_entries(t.attributes);
    assert(ns == ents + evs);
    assert(a == t.attributes.len());
    assert forall|k: int| 0 <= k < t.attributes.len() implies #[trigger] ns[k] == xml_of_attr(
        t.attributes[k].0,
        t.attributes[k].1,
    ) by {
        assert(ns[k] == ents[k]);
    }
    assert forall|k: int| 0 <= k < t.events.len() implies #[trigger] ns[a + k] == xml_of_event(
        t.events[k],
    ) by {
        assert(ns[a + k] == evs[k]);
    }
    // The attribute fold sees only the attribute block.
    assert forall|k: int| a <= k < ns.len() implies !is_attribute_tag((#[trigger] ns[k]).tag) by {
        assert(ns[k] == xml_of_event(t.events[k - a]));
    }
    lemma_entries_block(ns, 0, t.attributes, 0);
    assert(t.attributes.take(0) =~= Seq::<(Seq<char>, AttrV)>::empty());
    // The event fold skips the attribute block.
    assert forall|k: int| 0 <= k < a implies (#[trigger] ns[k]).tag != "event"@ by {
        assert(ns[k] == xml_of_attr(t.attributes[k].0, t.attributes[k].1));
        lemma_attr_node_tag(t.attributes[k].0, t.attributes[k].1);
    }
    lemma_events_skip(ns, 0, a, Seq::empty());
    assert(t.events.take(0) =~= Seq::<EventV>::empty());
    lemma_events_block(ns, a, t.events, 0);
    assert(parse_events_spec(ns, 0, Seq::empty()) == Result::Ok::<_, XesErrorV>(t.events));
}

/// The trace fold ignores every node from `i` to `j` not tagged `trace`.
proof fn lemma_traces_skip(ns: Seq<XmlNodeV>, i: int, j: int, acc: Seq<TraceV>)
    requires
        0 <= i <= j <= ns.len(),
        forall|k: int| i <= k < j ==> (#[trigger] ns[k]).tag != "trace"@,
    ensures
        parse_traces_spec(ns, i, acc) == parse_traces_spec(ns, j, acc),
    decreases j - i,
{
    if i < j {
        lemma_traces_skip(ns, i + 1, j, acc);
    }
}

/// Folding over a contiguous block of serialized traces rebuilds the
/// sequence.
proof fn lemma_traces_block(ns: Seq<XmlNodeV>, b: int, trs: Seq<TraceV>, j: int)
    requires
        0 <= b,
        b + trs.len() <= ns.len(),
        0 <= j <= trs.len(),
        forall|k: int| 0 <= k < trs.len() ==> #[trigger] ns[b + k] == xml_of_trace(trs[k]),
        forall|k: int| b + trs.len() <= k < ns.len() ==> (#[trigger] ns[k]).tag != "trace"@,
        forall|k: int| 0 <= k < trs.len() ==> trace_wf(#[trigger] trs[k]),
    ensures
        parse_traces_spec(ns, b + j, trs.take(j)) == Result::Ok::<_, XesErrorV>(trs),
    decreases trs.len() - j,
{
    if j == trs.len() {
        lemma_traces_skip(ns, b + j, ns.len() as int, trs.take(j));
        assert(trs.take(j) =~= trs);
    } else {
        assert(ns[b + j] == xml_of_trace(trs[j]));
        lemma_trace_round_trip(trs[j]);
        assert(trs.take(j).push(trs[j]) =~= trs.take(j + 1));
        lemma_traces_block(ns, b, trs, j + 1);
    }
}

/// The extension fold ignores every node from `i` to `j` not tagged
/// `extension`.
proof fn lemma_extensions_skip(ns: Seq<XmlNodeV>, i: int, j: int, acc: Seq<ExtensionV>)
    requires
        0 <= i <= j <= ns.len(),
        forall|k: int| i <= k < j ==> (#[trigger] ns[k]).tag != "extension"@,
    ensures
        parse_extensions_spec(ns, i, acc) == parse_extensions_spec(ns, j, acc),
    decreases j - i,
{
    if i < j {
        lemma_extensions_skip(ns, i + 1, j, acc);
    }
}

/// Looking up `name`, `prefix` and `uri` on a serialized extension element.
proof fn lemma_extension_attrs(e: ExtensionV)
    ensures
        attr_of(xml_of_extension(e).attributes, "name"@) == Option::Some(e.name),
        attr_of(xml_of_extension(e).attributes, "prefix"@) == Option::Some(e.prefix),
        attr_of(xml_of_extension(e).attributes, "uri"@) == Option::Some(e.uri),
{
    lemma_tag_literals();
    let attrs = xml_of_extension(e).attributes;
    assert(attrs[0] == ("name"@, e.name));
    let r1 = attrs.drop_first();
    assert(r1 =~= seq![("prefix"@, e.prefix), ("uri"@, e.uri)]);
    assert(r1[0] == ("prefix"@, e.prefix));
    let r2 = r1.drop_first();
    assert(r2 =~= seq![("uri"@, e.uri)]);
    assert(r2[0] == ("uri"@, e.uri));
    assert(attr_of(r2, "uri"@) == Option::Some(e.uri));
    assert(attr_of(r1, "uri"@) == attr_of(r2, "uri"@));
    assert(attr_of(r1, "prefix"@) == Option::Some(e.prefix));
    assert(attr_of(attrs, "prefix"@) == attr_of(r1, "prefix"@));
    assert(attr_of(attrs, "uri"@) == attr_of(r1, "uri"@));
}

/// Folding over a contiguous block of serialized extensions rebuilds the
/// sequence.
proof fn lemma_extensions_block(ns: Seq<XmlNodeV>, b: int, exts: Seq<ExtensionV>, j: int)
    requires
        0 <= b,
        b + exts.len() <= ns.len(),
        0 <= j <= exts.len(),
        forall|k: int| 0 <= k < exts.len() ==> #[trigger] ns[b + k] == xml_of_extension(exts[k]),
        forall|k: int| b + exts.len() <= k < ns.len() ==> (#[trigger] ns[k]).tag != "extension"@,
    ensures
        parse_extensions_spec(ns, b + j, exts.take(j)) == Result::Ok::<_, XesErrorV>(exts),
    decreases exts.len() - j,
{
    if j == exts.len() {
        lemma_extensions_skip(ns, b + j, ns.len() as int, exts.take(j));
        assert(exts.take(j) =~= exts);
    } else {
        assert(ns[b + j] == xml_of_extension(exts[j]));
        lemma_extension_attrs(exts[j]);
        assert(ExtensionV { name: exts[j].name, prefix: exts[j].prefix, uri: exts[j].uri }
            == exts[j]);
        assert(exts.take(j).push(exts[j]) =~= exts.take(j + 1));
        lemma_extensions_block(ns, b, exts, j + 1);
    }
}

// ---------------------------------------------------------------------------
// The feature list round trip.
// ---------------------------------------------------------------------------
/// No comma anywhere in the token.
pub open spec fn no_commas(t: Seq<char>) -> bool {
    forall|i: int| 0 <= i < t.len() ==> #[trigger] t[i] != ','
}

/// A feature token that survives the declaration round trip: it holds no
/// comma and carries no leading or trailing whitespace.
pub open spec fn feature_token_wf(t: Seq<char>) -> bool {
    no_commas(t) && trim_spec(t) == t
}

/// Splitting the joined declaration recovers the tokens.
proof fn lemma_split_join(fs: Seq<Seq<char>>)
    requires
        fs.len() >= 1,
        forall|k: int| 0 <= k < fs.len() ==> no_commas(#[trigger] fs[k]),
    ensures
        split_commas(join_commas(fs)) == fs,
    decreases fs.len(),
{
    let s = join_commas(fs);
    lemma_first_index_match(s, ',', ',');
    let fim = first_index_match(s, ',', ',');
    if fs.len() == 1 {
        assert(s == fs[0]);
        if fim >= 0 {
            assert(s[fim] == ',');
            assert(false);
        }
        assert(split_commas(s) =~= seq![s]);
    } else {
        let head = fs[0];
        let rest = join_commas(fs.drop_first());
        assert(s == head + seq![','] + rest);
        let hl = head.len() as int;
        assert(s[hl] == ',');
        assert forall|k: int| 0 <= k < hl implies #[trigger] s[k] != ',' by {
            assert(s[k] == head[k]);
        }
        if fim < 0 {
            assert(false);
        }
        if fim < hl {
            assert(s[fim] != ',');
            assert(false);
        }
        if fim > hl {
            assert(s[hl] != ',');
            assert(false);
        }
        assert(fim == hl);
        assert(s.take(hl) =~= head);
        assert(s.skip(hl + 1) =~= rest);
        lemma_split_join(fs.drop_first());
        assert(split_commas(s) == seq![head] + split_commas(rest));
        assert(seq![head] + fs.drop_first() =~= fs);
    }
}

/// Joining well-formed feature tokens and splitting the result back, with
/// trimming, is the identity.
pub proof fn lemma_features_round_trip(fs: Seq<Seq<char>>)
    requires
        fs.len() >= 1,
        forall|k: int| 0 <= k < fs.len() ==> feature_token_wf(#[trigger] fs[k]),
    ensures
        features_of(join_commas(fs)) == fs,
{
    lemma_split_join(fs);
    assert(features_of(join_commas(fs)) =~= fs);
}

// ---------------------------------------------------------------------------
// The log round trip.
// ---------------------------------------------------------------------------
/// A log whose serialized document re-parses to the very same value: well
/// formed, with at least one feature token and each token round-trippable.
pub open spec fn log_round_trippable(l: LogV) -> bool {
    &&& log_wf(l)
    &&& l.features.len() >= 1
    &&& forall|k: int| 0 <= k < l.features.len() ==> feature_token_wf(#[trigger] l.features[k])
}

/// Parsing the element a round-trippable log serializes to yields the log
/// back: every field, with traces and events in their stored order and
/// attribute collections entry for entry.
pub proof fn lemma_log_round_trip(l: LogV)
    requires
        log_round_trippable(l),
    ensures
        parse_log_spec(xml_of_log(l)) == Result::Ok::<_, XesErrorV>(l),
{
    lemma_tag_literals();
    let x = xml_of_log(l);
    let ns = x.children;
    let exts = l.extensions.map_values(|e: ExtensionV| xml_of_extension(e));
    let ents = xml_of_entries(l.attributes);
    let trs = l.traces.map_values(|t: TraceV| xml_of_trace(t));
    let evs = l.events.map_values(|e: EventV| xml_of_event(e));
    let ne = exts.len() as int;
    let na = ents.len() as int;
    let nt = trs.len() as int;
    let nv = evs.len() as int;
    lemma_xml_of_entries(l.attributes);
    assert(ns == exts + ents + trs + evs);

    // The version and features lookups on the start tag.
    assert(x.attributes[0] == ("version"@, l.version));
    assert(attr_of(x.attributes, "version"@) == Option::Some(l.version));
    let rest = x.attributes.drop_first();
    assert(rest =~= seq![("features"@, join_commas(l.features))]);
    assert(rest[0] == ("features"@, join_commas(l.features)));
    assert(attr_of(rest, "features"@) == Option::Some(join_commas(l.features)));
    assert(attr_of(x.attributes, "features"@) == attr_of(rest, "features"@));
    lemma_features_round_trip(l.features);

    // Where each region of the children sits.
    assert forall|k: int| 0 <= k < ne implies #[trigger] ns[k] == xml_of_extension(
        l.extensions[k],
    ) by {
        assert(ns[k] == exts[k]);
    }
    assert forall|k: int| 0 <= k < na implies #[trigger] ns[ne + k] == xml_of_attr(
        l.attributes[k].0,
        l.attributes[k].1,
    ) by {
        assert(ns[ne + k] == ents[k]);
    }
    assert forall|k: int| 0 <= k < nt implies #[trigger] ns[ne + na + k] == xml_of_trace(
        l.traces[k],
    ) by {
        assert(ns[ne + na + k] == trs[k]);
    }
    assert forall|k: int| 0 <= k < nv implies #[trigger] ns[ne + na + nt + k] == xml_of_event(
        l.events[k],
    ) by {
        assert(ns[ne + na + nt + k] == evs[k]);
    }

    // Extensions: everything after the extension block carries another tag.
    assert forall|k: int| ne <= k < ns.len() implies (#[trigger] ns[k]).tag != "extension"@ by {
        if k < ne + na {
            assert(ns[k] == xml_of_attr(l.attributes[k - ne].0, l.attributes[k - ne].1));
            lemma_attr_node_tag(l.attributes[k - ne].0, l.attributes[k - ne].1);
        } else if k < ne + na + nt {
            assert(ns[k] == xml_of_trace(l.traces[k - ne - na]));
        } else {
            assert(ns[k] == xml_of_event(l.events[k - ne - na - nt]));
        }
    }
    assert(l.extensions.take(0) =~= Seq::<ExtensionV>::empty());
    lemma_extensions_block(ns, 0, l.extensions, 0);

    // Attributes: the extension prefix is skipped, the rest carries no
    // attribute tag.
    assert forall|k: int| 0 <= k < ne implies !is_attribute_tag((#[trigger] ns[k]).tag) by {
        assert(ns[k] == xml_of_extension(l.extensions[k]));
    }
    assert forall|k: int| ne + na <= k < ns.len() implies !is_attribute_tag(
        (#[trigger] ns[k]).tag,
    ) by {
        if k < ne + na + nt {
            assert(ns[k] == xml_of_trace(l.traces[k - ne - na]));
        } else {
            assert(ns[k] == xml_of_event(l.events[k - ne - na - nt]));
        }
    }
    lemma_entries_skip(ns, 0, ne, Seq::empty());
    assert(l.attributes.take(0) =~= Seq::<(Seq<char>, AttrV)>::empty());
    lemma_entries_block(ns, ne, l.attributes, 0);

    // Traces: everything else carries another tag.
    assert forall|k: int| 0 <= k < ne + na implies (#[trigger] ns[k]).tag != "trace"@ by {
        if k < ne {
            assert(ns[k] == xml_of_extension(l.extensions[k]));
        } else {
            assert(ns[k] == xml_of_attr(l.attributes[k - ne].0, l.attributes[k - ne].1));
            lemma_attr_node_tag(l.attributes[k - ne].0, l.attributes[k - ne].1);
        }
    }
    assert forall|k: int| ne + na + nt <= k < ns.len() implies (#[trigger] ns[k]).tag
        != "trace"@ by {
        assert(ns[k] == xml_of_event(l.events[k - ne - na - nt]));
    }
    lemma_traces_skip(ns, 0, ne + na, Seq::empty());
    assert(l.traces.take(0) =~= Seq::<TraceV>::empty());
    lemma_traces_block(ns, ne + na, l.traces, 0);

    // Events: everything else carries another tag.
    assert forall|k: int| 0 <= k < ne + na + nt implies (#[trigger] ns[k]).tag != "event"@ by {
        if k < ne {
            assert(ns[k] == xml_of_extension(l.extensions[k]));
        } else if k < ne + na {
            assert(ns[k] == xml_of_attr(l.attributes[k - ne].0, l.attributes[k - ne].1));
            lemma_attr_node_tag(l.attributes[k - ne].0, l.attributes[k - ne].1);
        } else {
            assert(ns[k] == xml_of_trace(l.traces[k - ne - na]));
        }
    }
    lemma_events_skip(ns, 0, ne + na + nt, Seq::empty());
    assert(l.events.take(0) =~= Seq::<EventV>::empty());
    lemma_events_block(ns, ne + na + nt, l.events, 0);

    assert(parse_log_spec(xml_of_log(l)) == Result::Ok::<_, XesErrorV>(
        LogV {
            version: l.version,
            features: l.features,
            extensions: l.extensions,
            attributes: l.attributes,
            traces: l.traces,
            events: l.events,
        },
    ));
}

// ---------------------------------------------------------------------------
// Further laws of the parser.
// ---------------------------------------------------------------------------
/// A log element without a `version` XML attribute fails with exactly the
/// missing-`version` error; no default is supplied.
pub proof fn lemma_missing_version(x: XmlNodeV)
    requires
        attr_of(x.attributes, "version"@) is None,
    ensures
        parse_log_spec(x) == Result::Err::<LogV, _>(XesErrorV::MissingAttribute("version"@)),
{
}

/// A document root with exactly two `log` children yields exactly the two
/// logs they parse to, in document order, each from its own subtree.
pub proof fn lemma_two_logs(root: XmlNodeV, la: LogV, lb: LogV)
    requires
        root.children.len() == 2,
        root.children[0].tag == "log"@,
        root.children[1].tag == "log"@,
        parse_log_spec(root.children[0]) == Result::Ok::<_, XesErrorV>(la),
        parse_log_spec(root.children[1]) == Result::Ok::<_, XesErrorV>(lb),
    ensures
        parse_logs_spec(root.children, 0, Seq::empty()) == Result::Ok::<_, XesErrorV>(
            seq![la, lb],
        ),
{
    let ns = root.children;
    assert(parse_logs_spec(ns, 2, seq![la, lb]) == Result::Ok::<_, XesErrorV>(seq![la, lb]));
    assert(Seq::<LogV>::empty().push(la) =~= seq![la]);
    assert(seq![la].push(lb) =~= seq![la, lb]);
    assert(parse_logs_spec(ns, 1, seq![la]) == parse_logs_spec(ns, 2, seq![la].push(lb)));
    assert(parse_logs_spec(ns, 0, Seq::empty()) == parse_logs_spec(
        ns,
        1,
        Seq::<LogV>::empty().push(la),
    ));
}

/// A trace element whose children are three events in document order parses
/// to exactly those events, in the same order.
pub proof fn lemma_event_order(x: XmlNodeV, e1: EventV, e2: EventV, e3: EventV)
    requires
        x.children.len() == 3,
        x.children[0].tag == "event"@,
        x.children[1].tag == "event"@,
        x.children[2].tag == "event"@,
        parse_event_spec(x.children[0]) == Result::Ok::<_, XesErrorV>(e1),
        parse_event_spec(x.children[1]) == Result::Ok::<_, XesErrorV>(e2),
        parse_event_spec(x.children[2]) == Result::Ok::<_, XesErrorV>(e3),
    ensures
        parse_events_spec(x.children, 0, Seq::empty()) == Result::Ok::<_, XesErrorV>(
            seq![e1, e2, e3],
        ),
{
    let ns = x.children;
    let s0 = Seq::<EventV>::empty();
    assert(s0.push(e1) =~= seq![e1]);
    assert(seq![e1].push(e2) =~= seq![e1, e2]);
    assert(seq![e1, e2].push(e3) =~= seq![e1, e2, e3]);
    assert(parse_events_spec(ns, 3, seq![e1, e2, e3]) == Result::Ok::<_, XesErrorV>(
        seq![e1, e2, e3],
    ));
    assert(parse_events_spec(ns, 2, seq![e1, e2]) == parse_events_spec(
        ns,
        3,
        seq![e1, e2].push(e3),
    ));
    assert(parse_events_spec(ns, 1, seq![e1]) == parse_events_spec(ns, 2, seq![e1].push(e2)));
    assert(parse_events_spec(ns, 0, s0) == parse_events_spec(ns, 1, s0.push(e1)));
}

/// Two attribute children sharing one key collapse to a single entry
/// holding the later child's value: last write wins.
pub proof fn lemma_duplicate_key(ns: Seq<XmlNodeV>, k: Seq<char>, v1: AttrV, v2: AttrV)
    requires
        ns.len() == 2,
        is_attribute_tag(ns[0].tag),
        is_attribute_tag(ns[1].tag),
        parse_attr_spec(ns[0]) == Result::Ok::<_, XesErrorV>((k, v1)),
        parse_attr_spec(ns[1]) == Result::Ok::<_, XesErrorV>((k, v2)),
    ensures
        parse_entries_spec(ns, 0, Seq::empty()) == Result::Ok::<_, XesErrorV>(seq![(k, v2)]),
{
    let empty = Seq::<(Seq<char>, AttrV)>::empty();
    assert(first_key_index(empty, k) < 0);
    let once = insert_entry_spec(empty, k, v1);
    assert(once == empty.push((k, v1)));
    assert(once[0].0 == k);
    assert(first_key_index(once, k) == 0);
    let twice = insert_entry_spec(once, k, v2);
    assert(twice =~= seq![(k, v2)]);
    assert(parse_entries_spec(ns, 2, twice) == Result::Ok::<_, XesErrorV>(twice));
    assert(parse_entries_spec(ns, 1, once) == parse_entries_spec(ns, 2, twice));
    assert(parse_entries_spec(ns, 0, empty) == parse_entries_spec(ns, 1, once));
}

} // verus!
