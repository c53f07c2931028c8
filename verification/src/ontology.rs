//! The domain tree: attributes, extensions, events, traces and logs, together
//! with their mathematical views and well-formedness conditions.

use vstd::prelude::*;

verus! {

broadcast use vstd::seq::group_seq_axioms, vstd::std_specs::vec::group_vec_axioms;

/// A typed XES attribute value. Scalar variants carry the textual or parsed
/// value; `List` carries a keyed collection of child attributes whose keys are
/// unique (see [`entries_wf`]).
///
/// `Double` holds the textual form of the number, which must satisfy
/// [`crate::text::is_double_lexeme`] for the attribute to be well formed.
#[derive(Debug, PartialEq)]
pub enum Attribute {
    List(Vec<(String, Attribute)>),
    String(String),
    DateTime(String),
    Long(i64),
    Double(String),
    Boolean(bool),
    ID(String),
}

/// The mathematical view of an [`Attribute`]: strings become sequences of
/// characters, and list entries become a sequence of key/value pairs.
pub enum AttrV {
    List(Seq<(Seq<char>, AttrV)>),
    String(Seq<char>),
    DateTime(Seq<char>),
    Long(i64),
    Double(Seq<char>),
    Boolean(bool),
    ID(Seq<char>),
}

/// View of a sequence of key/attribute entries, pair by pair.
pub open spec fn entries_seq_view(v: Seq<(String, Attribute)>) -> Seq<(Seq<char>, AttrV)>
    decreases v,
{
    if v.len() == 0 {
        Seq::empty()
    } else {
        entries_seq_view(v.drop_last()).push((v.last().0@, v.last().1@))
    }
}

/// `entries_seq_view` maps the sequence element by element.
pub proof fn lemma_entries_seq_view(v: Seq<(String, Attribute)>)
    ensures
        entries_seq_view(v).len() == v.len(),
        forall|i: int|
            0 <= i < v.len() ==> #[trigger] entries_seq_view(v)[i] == (v[i].0@, v[i].1@),
    decreases v.len(),
{
    if v.len() > 0 {
        lemma_entries_seq_view(v.drop_last());
        assert(entries_seq_view(v) == entries_seq_view(v.drop_last()).push(
            (v.last().0@, v.last().1@),
        ));
        assert forall|i: int| 0 <= i < v.len() implies #[trigger] entries_seq_view(v)[i] == (
        v[i].0@,
        v[i].1@,
        ) by {
            if i < v.len() - 1 {
                assert(entries_seq_view(v)[i] == entries_seq_view(v.drop_last())[i]);
                assert(v.drop_last()[i] == v[i]);
            } else {
                assert(v.last() == v[i]);
            }
        }
    }
}

impl View for Attribute {
    type V = AttrV;

    open spec fn view(&self) -> AttrV
        decreases self,
    {
        match self {
            Attribute::List(entries) => AttrV::List(entries_seq_view(entries@)),
            Attribute::String(s) => AttrV::String(s@),
            Attribute::DateTime(s) => AttrV::DateTime(s@),
            Attribute::Long(n) => AttrV::Long(*n),
            Attribute::Double(s) => AttrV::Double(s@),
            Attribute::Boolean(b) => AttrV::Boolean(*b),
            Attribute::ID(s) => AttrV::ID(s@),
        }
    }
}

// ---------------------------------------------------------------------------
// Keyed attribute collections.
// ---------------------------------------------------------------------------
/// First index holding `k` as its key, or a negative value if none does.
pub open spec fn first_key_index(es: Seq<(Seq<char>, AttrV)>, k: Seq<char>) -> int
    decreases es.len(),
{
    if es.len() == 0 {
        -1
    } else if es[0].0 == k {
        0
    } else {
        let r = first_key_index(es.drop_first(), k);
        if r < 0 {
            -1
        } else {
            r + 1
        }
    }
}

/// Characterization of `first_key_index`.
pub proof fn lemma_first_key_index(es: Seq<(Seq<char>, AttrV)>, k: Seq<char>)
    ensures
        first_key_index(es, k) < 0 ==> forall|j: int| 0 <= j < es.len() ==> (#[trigger] es[j]).0 != k,
        first_key_index(es, k) >= 0 ==> {
            let r = first_key_index(es, k);
            &&& r < es.len()
            &&& es[r].0 == k
            &&& forall|j: int| 0 <= j < r ==> (#[trigger] es[j]).0 != k
        },
    decreases es.len(),
{
    if es.len() > 0 && es[0].0 != k {
        lemma_first_key_index(es.drop_first(), k);
        assert(forall|j: int| 1 <= j < es.len() ==> #[trigger] es[j] == es.drop_first()[j - 1]);
    }
}

/// Inserting under a key: the later value wins, and a key already present
/// keeps its position.
pub open spec fn insert_entry_spec(
    es: Seq<(Seq<char>, AttrV)>,
    k: Seq<char>,
    v: AttrV,
) -> Seq<(Seq<char>, AttrV)> {
    let i = first_key_index(es, k);
    if i < 0 {
        es.push((k, v))
    } else {
        es.update(i, (k, v))
    }
}

/// Inserts a key/attribute pair with last-write-wins semantics.
pub fn insert_entry(entries: &mut Vec<(String, Attribute)>, key: String, value: Attribute)
    ensures
        entries_seq_view(final(entries)@) == insert_entry_spec(
            entries_seq_view(old(entries)@),
            key@,
            value@,
        ),
{
    let ghost es = entries_seq_view(old(entries)@);
    proof {
        lemma_entries_seq_view(old(entries)@);
        lemma_first_key_index(es, key@);
    }
    let mut i: usize = 0;
    let n = entries.len();
    while i < n
        invariant
            0 <= i <= n,
            n == entries.len(),
            entries@ == old(entries)@,
            es == entries_seq_view(old(entries)@),
            es.len() == n,
            forall|j: int| 0 <= j < es.len() ==> #[trigger] es[j] == (entries@[j].0@, entries@[j].1@),
            forall|j: int| 0 <= j < i ==> (#[trigger] es[j]).0 != key@,
        decreases n - i,
    {
        if crate::text::str_eq(entries[i].0.as_str(), key.as_str()) {
            proof {
                lemma_first_key_index(es, key@);
                assert(es[i as int].0 == key@);
                assert(first_key_index(es, key@) == i);
            }
            entries.remove(i);
            entries.insert(i, (key, value));
            proof {
                lemma_entries_seq_view(final(entries)@);
                assert(final(entries)@ =~= old(entries)@.update(i as int, final(entries)@[i as int]));
                assert(entries_seq_view(final(entries)@) =~= es.update(i as int, (key@, value@)));
            }
            return ;
        }
        i = i + 1;
    }
    proof {
        assert(first_key_index(es, key@) < 0);
    }
    entries.push((key, value));
    proof {
        lemma_entries_seq_view(final(entries)@);
        assert(entries_seq_view(final(entries)@) =~= es.push((key@, value@)));
    }
}

// ---------------------------------------------------------------------------
// Well-formedness.
// ---------------------------------------------------------------------------
/// No two entries share a key.
pub open spec fn keys_distinct(es: Seq<(Seq<char>, AttrV)>) -> bool {
    forall|i: int, j: int| 0 <= i < j < es.len() ==> (#[trigger] es[i]).0 != (#[trigger] es[j]).0
}

/// Every attribute value of the collection is well formed.
pub open spec fn entries_values_wf(es: Seq<(Seq<char>, AttrV)>) -> bool
    decreases es,
{
    if es.len() == 0 {
        true
    } else {
        entries_values_wf(es.drop_last()) && attr_wf(es.last().1)
    }
}

/// A well-formed attribute: lists hold distinct keys and well-formed
/// children, and a double's text is a valid double literal.
pub open spec fn attr_wf(v: AttrV) -> bool
    decreases v,
{
    match v {
        AttrV::List(es) => keys_distinct(es) && entries_values_wf(es),
        AttrV::Double(s) => crate::text::is_double_lexeme(s),
        _ => true,
    }
}

/// A well-formed collection of attributes.
pub open spec fn entries_wf(es: Seq<(Seq<char>, AttrV)>) -> bool {
    keys_distinct(es) && entries_values_wf(es)
}

/// `entries_values_wf` holds entry by entry.
pub proof fn lemma_entries_values_wf(es: Seq<(Seq<char>, AttrV)>)
    requires
        entries_values_wf(es),
    ensures
        forall|i: int| 0 <= i < es.len() ==> attr_wf((#[trigger] es[i]).1),
    decreases es.len(),
{
    if es.len() > 0 {
        lemma_entries_values_wf(es.drop_last());
        assert(forall|i: int| 0 <= i < es.len() - 1 ==> #[trigger] es[i] == es.drop_last()[i]);
        assert(es.last() == es[es.len() - 1]);
    }
}

// ---------------------------------------------------------------------------
// The domain entities.
// ---------------------------------------------------------------------------
/// An XES extension declaration.
#[derive(Debug, Clone, PartialEq)]
pub struct Extension {
    pub name: String,
    pub prefix: String,
    pub uri: String,
}

pub struct ExtensionV {
    pub name: Seq<char>,
    pub prefix: Seq<char>,
    pub uri: Seq<char>,
}

impl View for Extension {
    type V = ExtensionV;

    open spec fn view(&self) -> ExtensionV {
        ExtensionV { name: self.name@, prefix: self.prefix@, uri: self.uri@ }
    }
}

/// An event: an attribute collection.
#[derive(Debug, PartialEq)]
pub struct Event {
    pub attributes: Vec<(String, Attribute)>,
}

pub struct EventV {
    pub attributes: Seq<(Seq<char>, AttrV)>,
}

impl View for Event {
    type V = EventV;

    open spec fn view(&self) -> EventV {
        EventV { attributes: entries_seq_view(self.attributes@) }
    }
}

/// A trace: an attribute collection and an ordered sequence of events.
#[derive(Debug, PartialEq)]
pub struct Trace {
    pub attributes: Vec<(String, Attribute)>,
    pub events: Vec<Event>,
}

pub struct TraceV {
    pub attributes: Seq<(Seq<char>, AttrV)>,
    pub events: Seq<EventV>,
}

impl View for Trace {
    type V = TraceV;

    open spec fn view(&self) -> TraceV {
        TraceV {
            attributes: entries_seq_view(self.attributes@),
            events: self.events@.map_values(|e: Event| e@),
        }
    }
}

/// A log: version and feature declarations, extensions, attributes, traces
/// and top-level events.
#[derive(Debug, PartialEq)]
pub struct Log {
    pub version: String,
    pub features: Vec<String>,
    pub extensions: Vec<Extension>,
    pub attributes: Vec<(String, Attribute)>,
    pub traces: Vec<Trace>,
    pub events: Vec<Event>,
}

pub struct LogV {
    pub version: Seq<char>,
    pub features: Seq<Seq<char>>,
    pub extensions: Seq<ExtensionV>,
    pub attributes: Seq<(Seq<char>, AttrV)>,
    pub traces: Seq<TraceV>,
    pub events: Seq<EventV>,
}

impl View for Log {
    type V = LogV;

    open spec fn view(&self) -> LogV {
        LogV {
            version: self.version@,
            features: crate::text::strings_view(self.features@),
            extensions: self.extensions@.map_values(|e: Extension| e@),
            attributes: entries_seq_view(self.attributes@),
            traces: self.traces@.map_values(|t: Trace| t@),
            events: self.events@.map_values(|e: Event| e@),
        }
    }
}

impl Log {
    /// A log with the given version and features and no further content.
    pub fn new(version: String, features: Vec<String>) -> (r: Log)
        ensures
            r@.version == version@,
            r@.features == crate::text::strings_view(features@),
            r@.extensions == Seq::<ExtensionV>::empty(),
            r@.attributes == Seq::<(Seq<char>, AttrV)>::empty(),
            r@.traces == Seq::<TraceV>::empty(),
            r@.events == Seq::<EventV>::empty(),
    {
        let r = Log {
            version,
            features,
            extensions: Vec::new(),
            attributes: Vec::new(),
            traces: Vec::new(),
            events: Vec::new(),
        };
        proof {
            assert(r@.extensions =~= Seq::<ExtensionV>::empty());
            assert(r@.attributes =~= Seq::<(Seq<char>, AttrV)>::empty());
            assert(r@.traces =~= Seq::<TraceV>::empty());
            assert(r@.events =~= Seq::<EventV>::empty());
        }
        r
    }
}

pub open spec fn event_wf(e: EventV) -> bool {
    entries_wf(e.attributes)
}

pub open spec fn trace_wf(t: TraceV) -> bool {
    entries_wf(t.attributes) && forall|i: int|
        0 <= i < t.events.len() ==> event_wf(#[trigger] t.events[i])
}

pub open spec fn log_wf(l: LogV) -> bool {
    &&& entries_wf(l.attributes)
    &&& forall|i: int| 0 <= i < l.traces.len() ==> trace_wf(#[trigger] l.traces[i])
    &&& forall|i: int| 0 <= i < l.events.len() ==> event_wf(#[trigger] l.events[i])
}

// ---------------------------------------------------------------------------
// Errors.
// ---------------------------------------------------------------------------
/// Why a read fails: malformed markup, a mandatory XML attribute missing
/// from the element that requires it, an element posing as an attribute
/// under an unknown tag, or scalar text outside its lexical grammar.
#[derive(Debug, Clone, PartialEq)]
pub enum XesError {
    MalformedXml,
    MissingAttribute(String),
    UnrecognizedTag(String),
    ScalarLexical(String),
}

pub enum XesErrorV {
    MalformedXml,
    MissingAttribute(Seq<char>),
    UnrecognizedTag(Seq<char>),
    ScalarLexical(Seq<char>),
}

impl View for XesError {
    type V = XesErrorV;

    open spec fn view(&self) -> XesErrorV {
        match self {
            XesError::MalformedXml => XesErrorV::MalformedXml,
            XesError::MissingAttribute(s) => XesErrorV::MissingAttribute(s@),
            XesError::UnrecognizedTag(s) => XesErrorV::UnrecognizedTag(s@),
            XesError::ScalarLexical(s) => XesErrorV::ScalarLexical(s@),
        }
    }
}

} // verus!
