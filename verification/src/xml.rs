//! A plain model of parsed XML: an element tree for the read path, and a
//! flat sequence of start/end markup events for the write path.

use vstd::prelude::*;

verus! {

broadcast use vstd::seq::group_seq_axioms, vstd::std_specs::vec::group_vec_axioms;

/// One node of a parsed XML document: its tag name, its XML attributes in
/// document order, and its child nodes in document order. Non-element nodes
/// (text, comments) appear as children with an empty tag name and are
/// ignored by every tag-driven walk.
#[derive(Debug, PartialEq)]
pub struct XmlElement {
    pub tag: String,
    pub attributes: Vec<(String, String)>,
    pub children: Vec<XmlElement>,
}

/// The mathematical view of an [`XmlElement`].
pub struct XmlNodeV {
    pub tag: Seq<char>,
    pub attributes: Seq<(Seq<char>, Seq<char>)>,
    pub children: Seq<XmlNodeV>,
}

/// View of a sequence of elements, node by node.
pub open spec fn nodes_seq_view(v: Seq<XmlElement>) -> Seq<XmlNodeV>
    decreases v,
{
    if v.len() == 0 {
        Seq::empty()
    } else {
        nodes_seq_view(v.drop_last()).push(v.last()@)
    }
}

/// `nodes_seq_view` maps the sequence element by element.
pub proof fn lemma_nodes_seq_view(v: Seq<XmlElement>)
    ensures
        nodes_seq_view(v).len() == v.len(),
        forall|i: int| 0 <= i < v.len() ==> #[trigger] nodes_seq_view(v)[i] == v[i]@,
    decreases v.len(),
{
    if v.len() > 0 {
        lemma_nodes_seq_view(v.drop_last());
        assert(nodes_seq_view(v) == nodes_seq_view(v.drop_last()).push(v.last()@));
        assert forall|i: int| 0 <= i < v.len() implies #[trigger] nodes_seq_view(v)[i]
            == v[i]@ by {
            if i < v.len() - 1 {
                assert(nodes_seq_view(v)[i] == nodes_seq_view(v.drop_last())[i]);
                assert(v.drop_last()[i] == v[i]);
            } else {
                assert(v.last() == v[i]);
            }
        }
    }
}

impl View for XmlElement {
    type V = XmlNodeV;

    open spec fn view(&self) -> XmlNodeV
        decreases self,
    {
        XmlNodeV {
            tag: self.tag@,
            attributes: self.attributes@.map_values(|p: (String, String)| (p.0@, p.1@)),
            children: nodes_seq_view(self.children@),
        }
    }
}

/// The first XML attribute named `name`, as the tree parser reports it.
pub open spec fn attr_of(attrs: Seq<(Seq<char>, Seq<char>)>, name: Seq<char>) -> Option<Seq<char>>
    decreases attrs.len(),
{
    if attrs.len() == 0 {
        Option::None
    } else if attrs[0].0 == name {
        Option::Some(attrs[0].1)
    } else {
        attr_of(attrs.drop_first(), name)
    }
}

impl XmlElement {
    /// Looks up an XML attribute by name.
    pub fn attribute(&self, name: &str) -> (r: Option<&String>)
        ensures
            match r {
                Option::Some(v) => attr_of(self@.attributes, name@) == Option::Some(v@),
                Option::None => attr_of(self@.attributes, name@) is None,
            },
    {
        let ghost attrs = self@.attributes;
        let n = self.attributes.len();
        let mut i: usize = 0;
        proof {
            assert(attrs.skip(0) =~= attrs);
        }
        while i < n
            invariant
                0 <= i <= n,
                n == self.attributes.len(),
                attrs == self@.attributes,
                attrs.len() == n,
                forall|j: int|
                    0 <= j < n ==> #[trigger] attrs[j] == (self.attributes@[j].0@,
                    self.attributes@[j].1@),
                attr_of(attrs, name@) == attr_of(attrs.skip(i as int), name@),
            decreases n - i,
        {
            let p = &self.attributes[i];
            if crate::text::str_eq(p.0.as_str(), name) {
                proof {
                    assert(attrs.skip(i as int)[0] == attrs[i as int]);
                }
                return Option::Some(&p.1);
            }
            proof {
                assert(attrs.skip(i as int)[0] == attrs[i as int]);
                assert(attrs.skip(i as int).drop_first() =~= attrs.skip(i + 1));
            }
            i = i + 1;
        }
        proof {
            assert(attrs.skip(n as int) =~= Seq::<(Seq<char>, Seq<char>)>::empty());
        }
        Option::None
    }
}

/// One markup event of the write path: balanced start and end tags, the
/// start tag carrying its XML attributes in order.
#[derive(Debug, Clone, PartialEq)]
pub enum MarkupEvent {
    Start { tag: String, attributes: Vec<(String, String)> },
    End { tag: String },
}

/// The mathematical view of a [`MarkupEvent`].
pub enum MarkupEventV {
    Start { tag: Seq<char>, attributes: Seq<(Seq<char>, Seq<char>)> },
    End { tag: Seq<char> },
}

impl View for MarkupEvent {
    type V = MarkupEventV;

    open spec fn view(&self) -> MarkupEventV {
        match self {
            MarkupEvent::Start { tag, attributes } => MarkupEventV::Start {
                tag: tag@,
                attributes: attributes@.map_values(|p: (String, String)| (p.0@, p.1@)),
            },
            MarkupEvent::End { tag } => MarkupEventV::End { tag: tag@ },
        }
    }
}

/// View of a markup event list, event by event.
pub open spec fn events_view(v: Seq<MarkupEvent>) -> Seq<MarkupEventV> {
    v.map_values(|e: MarkupEvent| e@)
}

} // verus!
