//! The read path: walking a parsed XML tree and building the domain tree,
//! dispatching on element tag names, with fail-fast error reporting.

use vstd::prelude::*;
use crate::ontology::{
    Attribute, AttrV, Event, EventV, Extension, ExtensionV, Log, LogV, Trace, TraceV, XesError,
    XesErrorV, entries_seq_view, insert_entry, insert_entry_spec,
};
use crate::text::{
    check_double_lexeme, features_of, is_double_lexeme, parse_bool, parse_bool_spec, parse_i64,
    parse_i64_spec, split_features, str_eq,
};
use crate::xml::{attr_of, lemma_nodes_seq_view, XmlElement, XmlNodeV};

verus! {

broadcast use vstd::seq::group_seq_axioms, vstd::std_specs::vec::group_vec_axioms;

/// The recognized attribute element tags.
pub open spec fn is_attribute_tag(t: Seq<char>) -> bool {
    ||| t == "list"@
    ||| t == "string"@
    ||| t == "datetime"@
    ||| t == "long"@
    ||| t == "double"@
    ||| t == "boolean"@
    ||| t == "id"@
}

/// Decides membership in the recognized attribute tag set.
pub fn tag_is_attribute(t: &str) -> (r: bool)
    ensures
        r == is_attribute_tag(t@),
{
    str_eq(t, "list") || str_eq(t, "string") || str_eq(t, "datetime") || str_eq(t, "long")
        || str_eq(t, "double") || str_eq(t, "boolean") || str_eq(t, "id")
}

// ---------------------------------------------------------------------------
// What parsing returns, spelled out over the views.
// ---------------------------------------------------------------------------
/// Parsing one attribute element: the mandatory `key`, then either a scalar
/// interpreted by the element's own tag, or, with no `value` present, a list
/// collecting every attribute-tagged child with last-write-wins keys.
pub open spec fn parse_attr_spec(x: XmlNodeV) -> Result<(Seq<char>, AttrV), XesErrorV>
    decreases x, 0int, 0int,
{
    match attr_of(x.attributes, "key"@) {
        Option::None => Result::Err(XesErrorV::MissingAttribute("key"@)),
        Option::Some(key) => match attr_of(x.attributes, "value"@) {
            Option::Some(value) => if x.tag == "string"@ {
                Result::Ok((key, AttrV::String(value)))
            } else if x.tag == "datetime"@ {
                Result::Ok((key, AttrV::DateTime(value)))
            } else if x.tag == "long"@ {
                match parse_i64_spec(value) {
                    Option::Some(n) => Result::Ok((key, AttrV::Long(n))),
                    Option::None => Result::Err(XesErrorV::ScalarLexical(value)),
                }
            } else if x.tag == "double"@ {
                if is_double_lexeme(value) {
                    Result::Ok((key, AttrV::Double(value)))
                } else {
                    Result::Err(XesErrorV::ScalarLexical(value))
                }
            } else if x.tag == "boolean"@ {
                match parse_bool_spec(value) {
                    Option::Some(b) => Result::Ok((key, AttrV::Boolean(b))),
                    Option::None => Result::Err(XesErrorV::ScalarLexical(value)),
                }
            } else if x.tag == "id"@ {
                Result::Ok((key, AttrV::ID(value)))
            } else {
                Result::Err(XesErrorV::UnrecognizedTag(x.tag))
            },
            Option::None => match parse_entries_spec(x.children, 0, Seq::empty()) {
                Result::Ok(es) => Result::Ok((key, AttrV::List(es))),
                Result::Err(e) => Result::Err(e),
            },
        },
    }
}

/// Folding the attribute-tagged children from index `i` on into a keyed
/// collection, later keys overwriting earlier ones.
pub open spec fn parse_entries_spec(
    children: Seq<XmlNodeV>,
    i: int,
    acc: Seq<(Seq<char>, AttrV)>,
) -> Result<Seq<(Seq<char>, AttrV)>, XesErrorV>
    decreases children, children.len() - i, 1int,
{
    if !(0 <= i < children.len()) {
        Result::Ok(acc)
    } else if is_attribute_tag(children[i].tag) {
        match parse_attr_spec(children[i]) {
            Result::Ok(kv) => parse_entries_spec(children, i + 1, insert_entry_spec(acc, kv.0, kv.1)),
            Result::Err(e) => Result::Err(e),
        }
    } else {
        parse_entries_spec(children, i + 1, acc)
    }
}

/// Parsing an event element: its attribute-tagged children.
pub open spec fn parse_event_spec(x: XmlNodeV) -> Result<EventV, XesErrorV> {
    match parse_entries_spec(x.children, 0, Seq::empty()) {
        Result::Ok(es) => Result::Ok(EventV { attributes: es }),
        Result::Err(e) => Result::Err(e),
    }
}

/// Folding the `event`-tagged children from index `i` on, in document order.
pub open spec fn parse_events_spec(
    children: Seq<XmlNodeV>,
    i: int,
    acc: Seq<EventV>,
) -> Result<Seq<EventV>, XesErrorV>
    decreases children.len() - i,
{
    if !(0 <= i < children.len()) {
        Result::Ok(acc)
    } else if children[i].tag == "event"@ {
        match parse_event_spec(children[i]) {
            Result::Ok(e) => parse_events_spec(children, i + 1, acc.push(e)),
            Result::Err(e) => Result::Err(e),
        }
    } else {
        parse_events_spec(children, i + 1, acc)
    }
}

/// Parsing a trace element: its attributes, then its events in order.
pub open spec fn parse_trace_spec(x: XmlNodeV) -> Result<TraceV, XesErrorV> {
    match parse_entries_spec(x.children, 0, Seq::empty()) {
        Result::Err(e) => Result::Err(e),
        Result::Ok(attrs) => match parse_events_spec(x.children, 0, Seq::empty()) {
            Result::Err(e) => Result::Err(e),
            Result::Ok(events) => Result::Ok(TraceV { attributes: attrs, events }),
        },
    }
}

/// Folding the `trace`-tagged children from index `i` on, in document order.
pub open spec fn parse_traces_spec(
    children: Seq<XmlNodeV>,
    i: int,
    acc: Seq<TraceV>,
) -> Result<Seq<TraceV>, XesErrorV>
    decreases children.len() - i,
{
    if !(0 <= i < children.len()) {
        Result::Ok(acc)
    } else if children[i].tag == "trace"@ {
        match parse_trace_spec(children[i]) {
            Result::Ok(t) => parse_traces_spec(children, i + 1, acc.push(t)),
            Result::Err(e) => Result::Err(e),
        }
    } else {
        parse_traces_spec(children, i + 1, acc)
    }
}

/// Folding the `extension`-tagged children from index `i` on; each needs all
/// of `name`, `prefix` and `uri`.
pub open spec fn parse_extensions_spec(
    children: Seq<XmlNodeV>,
    i: int,
    acc: Seq<ExtensionV>,
) -> Result<Seq<ExtensionV>, XesErrorV>
    decreases children.len() - i,
{
    if !(0 <= i < children.len()) {
        Result::Ok(acc)
    } else if children[i].tag == "extension"@ {
        match attr_of(children[i].attributes, "name"@) {
            Option::None => Result::Err(XesErrorV::MissingAttribute("name"@)),
            Option::Some(name) => match attr_of(children[i].attributes, "prefix"@) {
                Option::None => Result::Err(XesErrorV::MissingAttribute("prefix"@)),
                Option::Some(prefix) => match attr_of(children[i].attributes, "uri"@) {
                    Option::None => Result::Err(XesErrorV::MissingAttribute("uri"@)),
                    Option::Some(uri) => parse_extensions_spec(
                        children,
                        i + 1,
                        acc.push(ExtensionV { name, prefix, uri }),
                    ),
                },
            },
        }
    } else {
        parse_extensions_spec(children, i + 1, acc)
    }
}

/// Parsing a log element: mandatory `version` and `features`, then its
/// extensions, attributes, traces and top-level events, each in document
/// order within its tag.
pub open spec fn parse_log_spec(x: XmlNodeV) -> Result<LogV, XesErrorV> {
    match attr_of(x.attributes, "version"@) {
        Option::None => Result::Err(XesErrorV::MissingAttribute("version"@)),
        Option::Some(version) => match attr_of(x.attributes, "features"@) {
            Option::None => Result::Err(XesErrorV::MissingAttribute("features"@)),
            Option::Some(fdecl) => match parse_extensions_spec(x.children, 0, Seq::empty()) {
                Result::Err(e) => Result::Err(e),
                Result::Ok(extensions) => match parse_entries_spec(x.children, 0, Seq::empty()) {
                    Result::Err(e) => Result::Err(e),
                    Result::Ok(attributes) => match parse_traces_spec(x.children, 0, Seq::empty()) {
                        Result::Err(e) => Result::Err(e),
                        Result::Ok(traces) => match parse_events_spec(x.children, 0, Seq::empty()) {
                            Result::Err(e) => Result::Err(e),
                            Result::Ok(events) => Result::Ok(
                                LogV {
                                    version,
                                    features: features_of(fdecl),
                                    extensions,
                                    attributes,
                                    traces,
                                    events,
                                },
                            ),
                        },
                    },
                },
            },
        },
    }
}

/// Folding the `log`-tagged children of the document root from index `i` on.
pub open spec fn parse_logs_spec(
    children: Seq<XmlNodeV>,
    i: int,
    acc: Seq<LogV>,
) -> Result<Seq<LogV>, XesErrorV>
    decreases children.len() - i,
{
    if !(0 <= i < children.len()) {
        Result::Ok(acc)
    } else if children[i].tag == "log"@ {
        match parse_log_spec(children[i]) {
            Result::Ok(l) => parse_logs_spec(children, i + 1, acc.push(l)),
            Result::Err(e) => Result::Err(e),
        }
    } else {
        parse_logs_spec(children, i + 1, acc)
    }
}

// ---------------------------------------------------------------------------
// Result views.
// ---------------------------------------------------------------------------
pub open spec fn kv_result_view(
    r: Result<(String, Attribute), XesError>,
) -> Result<(Seq<char>, AttrV), XesErrorV> {
    match r {
        Result::Ok(kv) => Result::Ok((kv.0@, kv.1@)),
        Result::Err(e) => Result::Err(e@),
    }
}

pub open spec fn event_result_view(r: Result<Event, XesError>) -> Result<EventV, XesErrorV> {
    match r {
        Result::Ok(e) => Result::Ok(e@),
        Result::Err(e) => Result::Err(e@),
    }
}

pub open spec fn trace_result_view(r: Result<Trace, XesError>) -> Result<TraceV, XesErrorV> {
    match r {
        Result::Ok(t) => Result::Ok(t@),
        Result::Err(e) => Result::Err(e@),
    }
}

pub open spec fn log_result_view(r: Result<Log, XesError>) -> Result<LogV, XesErrorV> {
    match r {
        Result::Ok(l) => Result::Ok(l@),
        Result::Err(e) => Result::Err(e@),
    }
}

pub open spec fn logs_result_view(
    r: Result<Vec<Log>, XesError>,
) -> Result<Seq<LogV>, XesErrorV> {
    match r {
        Result::Ok(ls) => Result::Ok(ls@.map_values(|l: Log| l@)),
        Result::Err(e) => Result::Err(e@),
    }
}

// ---------------------------------------------------------------------------
// The executable parser.
// ---------------------------------------------------------------------------
/// Collects the attribute-tagged children of `x` into `entries`, reporting
/// the first failure.
fn collect_entries(x: &XmlElement, entries: &mut Vec<(String, Attribute)>) -> (r: Result<
    (),
    XesError,
>)
    requires
        old(entries)@.len() == 0,
    ensures
        match r {
            Result::Ok(()) => parse_entries_spec(x@.children, 0, Seq::empty()) == Result::Ok::<
                _,
                XesErrorV,
            >(entries_seq_view(final(entries)@)),
            Result::Err(e) => parse_entries_spec(x@.children, 0, Seq::empty()) == Result::Err::<
                Seq<(Seq<char>, AttrV)>,
                _,
            >(e@),
        },
    decreases x, 0int,
{
    let ghost ch = x@.children;
    proof {
        lemma_nodes_seq_view(x.children@);
        assert(entries_seq_view(entries@) =~= Seq::<(Seq<char>, AttrV)>::empty());
    }
    let n = x.children.len();
    let mut j: usize = 0;
    while j < n
        invariant
            0 <= j <= n,
            n == x.children.len(),
            ch == x@.children,
            ch.len() == n,
            forall|k: int| 0 <= k < n ==> #[trigger] ch[k] == x.children@[k]@,
            parse_entries_spec(ch, 0, Seq::empty()) == parse_entries_spec(
                ch,
                j as int,
                entries_seq_view(entries@),
            ),
        decreases n - j,
    {
        let child = &x.children[j];
        let ghost acc0 = entries_seq_view(entries@);
        proof {
            assert(ch[j as int] == x.children@[j as int]@);
        }
        if tag_is_attribute(child.tag.as_str()) {
            match parse_attribute(child) {
                Result::Ok(kv) => {
                    insert_entry(entries, kv.0, kv.1);
                    proof {
                        assert(parse_entries_spec(ch, j as int, acc0) == parse_entries_spec(
                            ch,
                            j + 1,
                            entries_seq_view(entries@),
                        ));
                    }
                },
                Result::Err(e) => {
                    proof {
                        assert(parse_entries_spec(ch, j as int, acc0) == Result::Err::<
                            Seq<(Seq<char>, AttrV)>,
                            _,
                        >(e@));
                    }
                    return Result::Err(e);
                },
            }
        }
        j = j + 1;
    }
    Result::Ok(())
}

/// Parses one attribute element into its key and typed value.
pub fn parse_attribute(x: &XmlElement) -> (r: Result<(String, Attribute), XesError>)
    ensures
        kv_result_view(r) == parse_attr_spec(x@),
    decreases x, 1int,
{
    let key = match x.attribute("key") {
        Option::Some(k) => k.clone(),
        Option::None => {
            return Result::Err(XesError::MissingAttribute(String::from_str("key")));
        },
    };
    match x.attribute("value") {
        Option::Some(value_ref) => {
            let value = value_ref.clone();
            let tag = x.tag.as_str();
            if str_eq(tag, "string") {
                Result::Ok((key, Attribute::String(value)))
            } else if str_eq(tag, "datetime") {
                Result::Ok((key, Attribute::DateTime(value)))
            } else if str_eq(tag, "long") {
                match parse_i64(value.as_str()) {
                    Option::Some(n) => Result::Ok((key, Attribute::Long(n))),
                    Option::None => Result::Err(XesError::ScalarLexical(value)),
                }
            } else if str_eq(tag, "double") {
                if check_double_lexeme(value.as_str()) {
                    Result::Ok((key, Attribute::Double(value)))
                } else {
                    Result::Err(XesError::ScalarLexical(value))
                }
            } else if str_eq(tag, "boolean") {
                match parse_bool(value.as_str()) {
                    Option::Some(b) => Result::Ok((key, Attribute::Boolean(b))),
                    Option::None => Result::Err(XesError::ScalarLexical(value)),
                }
            } else if str_eq(tag, "id") {
                Result::Ok((key, Attribute::ID(value)))
            } else {
                Result::Err(XesError::UnrecognizedTag(x.tag.clone()))
            }
        },
        Option::None => {
            let mut entries: Vec<(String, Attribute)> = Vec::new();
            match collect_entries(x, &mut entries) {
                Result::Ok(()) => Result::Ok((key, Attribute::List(entries))),
                Result::Err(e) => Result::Err(e),
            }
        },
    }
}

/// Parses an event element.
pub fn parse_event(x: &XmlElement) -> (r: Result<Event, XesError>)
    ensures
        event_result_view(r) == parse_event_spec(x@),
{
    let mut entries: Vec<(String, Attribute)> = Vec::new();
    match collect_entries(x, &mut entries) {
        Result::Ok(()) => Result::Ok(Event { attributes: entries }),
        Result::Err(e) => Result::Err(e),
    }
}

/// Parses a trace element: attributes, then its events in document order.
pub fn parse_trace(x: &XmlElement) -> (r: Result<Trace, XesError>)
    ensures
        trace_result_view(r) == parse_trace_spec(x@),
{
    let ghost ch = x@.children;
    let mut entries: Vec<(String, Attribute)> = Vec::new();
    match collect_entries(x, &mut entries) {
        Result::Ok(()) => {},
        Result::Err(e) => {
            return Result::Err(e);
        },
    }
    let mut events: Vec<Event> = Vec::new();
    proof {
        lemma_nodes_seq_view(x.children@);
        assert(events@.map_values(|e: Event| e@) =~= Seq::<EventV>::empty());
    }
    let n = x.children.len();
    let mut j: usize = 0;
    while j < n
        invariant
            0 <= j <= n,
            n == x.children.len(),
            ch == x@.children,
            ch.len() == n,
            forall|k: int| 0 <= k < n ==> #[trigger] ch[k] == x.children@[k]@,
            parse_entries_spec(ch, 0, Seq::empty()) == Result::Ok::<_, XesErrorV>(
                entries_seq_view(entries@),
            ),
            parse_events_spec(ch, 0, Seq::empty()) == parse_events_spec(
                ch,
                j as int,
                events@.map_values(|e: Event| e@),
            ),
        decreases n - j,
    {
        let child = &x.children[j];
        let ghost acc0 = events@.map_values(|e: Event| e@);
        proof {
            assert(ch[j as int] == x.children@[j as int]@);
        }
        if str_eq(child.tag.as_str(), "event") {
            match parse_event(child) {
                Result::Ok(e) => {
                    events.push(e);
                    proof {
                        assert(events@.map_values(|e: Event| e@) =~= acc0.push(
                            events@.last()@,
                        ));
                    }
                },
                Result::Err(e) => {
                    return Result::Err(e);
                },
            }
        }
        j = j + 1;
    }
    Result::Ok(Trace { attributes: entries, events })
}

/// Parses a log element: mandatory `version` and `features`, then its
/// extensions, attributes, traces and events.
pub fn parse_log(x: &XmlElement) -> (r: Result<Log, XesError>)
    ensures
        log_result_view(r) == parse_log_spec(x@),
{
    let ghost ch = x@.children;
    let version = match x.attribute("version") {
        Option::Some(v) => v.clone(),
        Option::None => {
            return Result::Err(XesError::MissingAttribute(String::from_str("version")));
        },
    };
    let fdecl = match x.attribute("features") {
        Option::Some(f) => f.clone(),
        Option::None => {
            return Result::Err(XesError::MissingAttribute(String::from_str("features")));
        },
    };
    let features = split_features(fdecl.as_str());
    proof {
        lemma_nodes_seq_view(x.children@);
    }
    let n = x.children.len();

    // Extensions, in document order.
    let mut extensions: Vec<Extension> = Vec::new();
    proof {
        assert(extensions@.map_values(|e: Extension| e@) =~= Seq::<ExtensionV>::empty());
    }
    let mut j: usize = 0;
    while j < n
        invariant
            0 <= j <= n,
            n == x.children.len(),
            ch == x@.children,
            ch.len() == n,
            forall|k: int| 0 <= k < n ==> #[trigger] ch[k] == x.children@[k]@,
            attr_of(x@.attributes, "version"@) == Option::Some(version@),
            attr_of(x@.attributes, "features"@) == Option::Some(fdecl@),
            parse_extensions_spec(ch, 0, Seq::empty()) == parse_extensions_spec(
                ch,
                j as int,
                extensions@.map_values(|e: Extension| e@),
            ),
        decreases n - j,
    {
        let child = &x.children[j];
        let ghost acc0 = extensions@.map_values(|e: Extension| e@);
        proof {
            assert(ch[j as int] == x.children@[j as int]@);
        }
        if str_eq(child.tag.as_str(), "extension") {
            let name = match child.attribute("name") {
                Option::Some(v) => v.clone(),
                Option::None => {
                    return Result::Err(XesError::MissingAttribute(String::from_str("name")));
                },
            };
            let prefix = match child.attribute("prefix") {
                Option::Some(v) => v.clone(),
                Option::None => {
                    return Result::Err(XesError::MissingAttribute(String::from_str("prefix")));
                },
            };
            let uri = match child.attribute("uri") {
                Option::Some(v) => v.clone(),
                Option::None => {
                    return Result::Err(XesError::MissingAttribute(String::from_str("uri")));
                },
            };
            extensions.push(Extension { name, prefix, uri });
            proof {
                assert(extensions@.map_values(|e: Extension| e@) =~= acc0.push(
                    extensions@.last()@,
                ));
            }
        }
        j = j + 1;
    }

    // Attributes.
    let mut entries: Vec<(String, Attribute)> = Vec::new();
    match collect_entries(x, &mut entries) {
        Result::Ok(()) => {},
        Result::Err(e) => {
            return Result::Err(e);
        },
    }

    // Traces, in document order.
    let mut traces: Vec<Trace> = Vec::new();
    proof {
        assert(traces@.map_values(|t: Trace| t@) =~= Seq::<TraceV>::empty());
    }
    let mut j2: usize = 0;
    while j2 < n
        invariant
            0 <= j2 <= n,
            n == x.children.len(),
            ch == x@.children,
            ch.len() == n,
            forall|k: int| 0 <= k < n ==> #[trigger] ch[k] == x.children@[k]@,
            attr_of(x@.attributes, "version"@) == Option::Some(version@),
            attr_of(x@.attributes, "features"@) == Option::Some(fdecl@),
            parse_extensions_spec(ch, 0, Seq::empty()) == Result::Ok::<_, XesErrorV>(
                extensions@.map_values(|e: Extension| e@),
            ),
            parse_entries_spec(ch, 0, Seq::empty()) == Result::Ok::<_, XesErrorV>(
                entries_seq_view(entries@),
            ),
            parse_traces_spec(ch, 0, Seq::empty()) == parse_traces_spec(
                ch,
                j2 as int,
                traces@.map_values(|t: Trace| t@),
            ),
        decreases n - j2,
    {
        let child = &x.children[j2];
        let ghost acc0 = traces@.map_values(|t: Trace| t@);
        proof {
            assert(ch[j2 as int] == x.children@[j2 as int]@);
        }
        if str_eq(child.tag.as_str(), "trace") {
            match parse_trace(child) {
                Result::Ok(t) => {
                    traces.push(t);
                    proof {
                        assert(traces@.map_values(|t: Trace| t@) =~= acc0.push(
                            traces@.last()@,
                        ));
                    }
                },
                Result::Err(e) => {
                    return Result::Err(e);
                },
            }
        }
        j2 = j2 + 1;
    }

    // Top-level events, in document order.
    let mut events: Vec<Event> = Vec::new();
    proof {
        assert(events@.map_values(|e: Event| e@) =~= Seq::<EventV>::empty());
    }
    let mut j3: usize = 0;
    while j3 < n
        invariant
            0 <= j3 <= n,
            n == x.children.len(),
            ch == x@.children,
            ch.len() == n,
            forall|k: int| 0 <= k < n ==> #[trigger] ch[k] == x.children@[k]@,
            attr_of(x@.attributes, "version"@) == Option::Some(version@),
            attr_of(x@.attributes, "features"@) == Option::Some(fdecl@),
            parse_extensions_spec(ch, 0, Seq::empty()) == Result::Ok::<_, XesErrorV>(
                extensions@.map_values(|e: Extension| e@),
            ),
            parse_entries_spec(ch, 0, Seq::empty()) == Result::Ok::<_, XesErrorV>(
                entries_seq_view(entries@),
            ),
            parse_traces_spec(ch, 0, Seq::empty()) == Result::Ok::<_, XesErrorV>(
                traces@.map_values(|t: Trace| t@),
            ),
            parse_events_spec(ch, 0, Seq::empty()) == parse_events_spec(
                ch,
                j3 as int,
                events@.map_values(|e: Event| e@),
            ),
        decreases n - j3,
    {
        let child = &x.children[j3];
        let ghost acc0 = events@.map_values(|e: Event| e@);
        proof {
            assert(ch[j3 as int] == x.children@[j3 as int]@);
        }
        if str_eq(child.tag.as_str(), "event") {
            match parse_event(child) {
                Result::Ok(e) => {
                    events.push(e);
                    proof {
                        assert(events@.map_values(|e: Event| e@) =~= acc0.push(
                            events@.last()@,
                        ));
                    }
                },
                Result::Err(e) => {
                    return Result::Err(e);
                },
            }
        }
        j3 = j3 + 1;
    }

    let log = Log { version, features, extensions, attributes: entries, traces, events };
    Result::Ok(log)
}

/// Parses every `log`-tagged child of the document root, in document order.
/// A document without any yields an empty result, not an error.
pub fn parse_logs(root: &XmlElement) -> (r: Result<Vec<Log>, XesError>)
    ensures
        logs_result_view(r) == parse_logs_spec(root@.children, 0, Seq::empty()),
{
    let ghost ch = root@.children;
    let mut logs: Vec<Log> = Vec::new();
    proof {
        lemma_nodes_seq_view(root.children@);
        assert(logs@.map_values(|l: Log| l@) =~= Seq::<LogV>::empty());
    }
    let n = root.children.len();
    let mut j: usize = 0;
    while j < n
        invariant
            0 <= j <= n,
            n == root.children.len(),
            ch == root@.children,
            ch.len() == n,
            forall|k: int| 0 <= k < n ==> #[trigger] ch[k] == root.children@[k]@,
            parse_logs_spec(ch, 0, Seq::empty()) == parse_logs_spec(
                ch,
                j as int,
                logs@.map_values(|l: Log| l@),
            ),
        decreases n - j,
    {
        let child = &root.children[j];
        let ghost acc0 = logs@.map_values(|l: Log| l@);
        if str_eq(child.tag.as_str(), "log") {
            match parse_log(child) {
                Result::Ok(l) => {
                    logs.push(l);
                    proof {
                        assert(logs@.map_values(|l: Log| l@) =~= acc0.push(logs@.last()@));
                    }
                },
                Result::Err(e) => {
                    return Result::Err(e);
                },
            }
        }
        j = j + 1;
    }
    Result::Ok(logs)
}

// ---------------------------------------------------------------------------
// The trusted XML front end.
// ---------------------------------------------------------------------------
#[verifier::external_type_specification]
#[verifier::external_body]
pub struct ExNode<'a, 'input: 'a>(roxmltree::Node<'a, 'input>);

/// The element tree that XML parsing yields for the given text, rooted at
/// the document root, or nothing when the text is not well-formed markup.
pub uninterp spec fn xml_doc_of(text: Seq<char>) -> Option<XmlNodeV>;

/// Relies on `roxmltree::Node`: `tag_name().name()` (empty for non-element
/// nodes), `attributes()` in document order, and `children()` in document
/// order; the node is copied into a plain element.
#[verifier::external_body]
fn element_of_node(node: roxmltree::Node) -> XmlElement {
    let mut attributes: Vec<(String, String)> = Vec::new();
    for a in node.attributes() {
        attributes.push((a.name().to_string(), a.value().to_string()));
    }
    let mut children: Vec<XmlElement> = Vec::new();
    for c in node.children() {
        children.push(element_of_node(c));
    }
    XmlElement { tag: node.tag_name().name().to_string(), attributes, children }
}

/// Relies on `roxmltree::Document::parse`: it accepts exactly well-formed
/// XML and yields the document tree, converted here element by element.
#[verifier::external_body]
fn parse_xml_tree(text: &str) -> (r: Option<XmlElement>)
    ensures
        r is Some <==> xml_doc_of(text@) is Some,
        r is Some ==> r.unwrap()@ == xml_doc_of(text@).unwrap(),
{
    match roxmltree::Document::parse(text) {
        Ok(doc) => Some(element_of_node(doc.root())),
        Err(_) => None,
    }
}

/// What reading a whole document returns: a malformed-markup failure, or
/// every `log` element parsed in order.
pub open spec fn parse_document_spec(text: Seq<char>) -> Result<Seq<LogV>, XesErrorV> {
    match xml_doc_of(text) {
        Option::None => Result::Err(XesErrorV::MalformedXml),
        Option::Some(root) => parse_logs_spec(root.children, 0, Seq::empty()),
    }
}

/// Parses a whole XES document from its text: the XML front end reads the
/// markup, and every `log` element of the document root becomes one log.
pub fn parse_document(text: &str) -> (r: Result<Vec<Log>, XesError>)
    ensures
        logs_result_view(r) == parse_document_spec(text@),
{
    match parse_xml_tree(text) {
        Option::Some(root) => parse_logs(&root),
        Option::None => Result::Err(XesError::MalformedXml),
    }
}

} // verus!
