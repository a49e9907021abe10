//! The attribute extractor: from document text to the viewBox and the
//! ordered list of drawable elements.
//!
//! The markup is pull-parsed by an outside event reader behind one trusted
//! wrapper; everything read out of the event stream - which element starts
//! matter, which attributes they carry, what the viewBox holds - is
//! verified logic over plain values.

use vstd::prelude::*;
use crate::model::{Element, SvgError};
use crate::num::{parse_fx, parse_fixed};
use crate::scan::{split_ch, split_str};

verus! {

/// One attribute of a start element, as plain text.
#[derive(Clone, Debug)]
pub struct Attr {
    pub name: String,
    pub value: String,
}

/// One event of the document stream reduced to what the extractor reads:
/// a start element with its attributes, anything else, or a place where
/// the reader refused the markup.
#[derive(Clone, Debug)]
pub enum RawEvent {
    Start(String, Vec<Attr>),
    Other,
    Fault,
}

/// The event stream of a document: a function of the text alone.
pub uninterp spec fn xml_events_of(doc: Seq<char>) -> Seq<RawEvent>;

/// Relies on xml::reader::EventReader: pull-parses the markup into the
/// event stream, deterministically from the document text alone.
#[verifier::external_body]
pub(crate) fn parse_xml_events(doc: &str) -> (r: Vec<RawEvent>)
    ensures
        r@ == xml_events_of(doc@),
{
    let mut out: Vec<RawEvent> = Vec::new();
    for ev in xml::reader::EventReader::from_str(doc) {
        out.push(match ev {
            Ok(xml::reader::XmlEvent::StartElement { name, attributes, .. }) => RawEvent::Start(
                name.local_name,
                attributes.into_iter().map(|a| Attr { name: a.name.local_name, value: a.value }).collect(),
            ),
            Ok(_) => RawEvent::Other,
            Err(_) => RawEvent::Fault,
        });
    }
    out
}

/// An element with its attribute text, as the specification sees it.
pub enum SpecElement {
    Path { d: Seq<char>, style: Seq<char>, transform: Seq<char> },
    Rect { x: Seq<char>, y: Seq<char>, w: Seq<char>, h: Seq<char>, style: Seq<char> },
    Line { x1: Seq<char>, y1: Seq<char>, x2: Seq<char>, y2: Seq<char>, style: Seq<char> },
}

/// The view of an extracted element.
pub open spec fn elem_view(e: Element) -> SpecElement {
    match e {
        Element::Path { d, style, transform } => SpecElement::Path {
            d: d@,
            style: style@,
            transform: transform@,
        },
        Element::Rect { x, y, w, h, style } => SpecElement::Rect {
            x: x@,
            y: y@,
            w: w@,
            h: h@,
            style: style@,
        },
        Element::Line { x1, y1, x2, y2, style } => SpecElement::Line {
            x1: x1@,
            y1: y1@,
            x2: x2@,
            y2: y2@,
            style: style@,
        },
    }
}

/// The value of the last attribute with this name, or empty text: a later
/// occurrence of a repeated attribute wins.
pub open spec fn attr_of(attrs: Seq<Attr>, name: Seq<char>) -> Seq<char>
    decreases attrs.len(),
{
    if attrs.len() == 0 {
        Seq::<char>::empty()
    } else if attrs.last().name@ == name {
        attrs.last().value@
    } else {
        attr_of(attrs.drop_last(), name)
    }
}

/// Is an attribute with this name present at all?
pub open spec fn has_attr(attrs: Seq<Attr>, name: Seq<char>) -> bool
    decreases attrs.len(),
{
    if attrs.len() == 0 {
        false
    } else {
        attrs.last().name@ == name || has_attr(attrs.drop_last(), name)
    }
}

/// The viewBox dimensions read from an `svg` start element: the third and
/// fourth of at least four numeric space-separated tokens.
pub open spec fn spec_viewbox(attrs: Seq<Attr>) -> Option<(i64, i64)> {
    if !has_attr(attrs, "viewBox"@) {
        None
    } else {
        let toks = split_ch(attr_of(attrs, "viewBox"@), ' ');
        if toks.len() < 4 {
            None
        } else {
            match (parse_fx(toks[0]), parse_fx(toks[1]), parse_fx(toks[2]), parse_fx(toks[3])) {
                (Some(_), Some(_), Some(w), Some(h)) => Some((w as i64, h as i64)),
                _ => None,
            }
        }
    }
}

/// Walk the event stream: remember the first svg element's viewBox and
/// collect the drawable elements in document order.  A reader fault or a
/// missing or unreadable viewBox refuses the document.
pub open spec fn spec_extract(
    events: Seq<RawEvent>,
    k: int,
    vb: Option<(i64, i64)>,
    acc: Seq<SpecElement>,
) -> Result<((i64, i64), Seq<SpecElement>), SvgError>
    decreases events.len() - k,
{
    if k < 0 || k >= events.len() {
        match vb {
            None => Err(SvgError::MalformedDocument),
            Some(v) => Ok((v, acc)),
        }
    } else {
        match events[k] {
            RawEvent::Fault => Err(SvgError::MalformedDocument),
            RawEvent::Other => spec_extract(events, k + 1, vb, acc),
            RawEvent::Start(name, attrs) => {
                if name@ == "svg"@ && vb is None {
                    match spec_viewbox(attrs@) {
                        None => Err(SvgError::MalformedDocument),
                        Some(v) => spec_extract(events, k + 1, Some(v), acc),
                    }
                } else if name@ == "path"@ {
                    spec_extract(
                        events,
                        k + 1,
                        vb,
                        acc.push(
                            SpecElement::Path {
                                d: attr_of(attrs@, "d"@),
                                style: attr_of(attrs@, "style"@),
                                transform: attr_of(attrs@, "transform"@),
                            },
                        ),
                    )
                } else if name@ == "rect"@ {
                    spec_extract(
                        events,
                        k + 1,
                        vb,
                        acc.push(
                            SpecElement::Rect {
                                x: attr_of(attrs@, "x"@),
                                y: attr_of(attrs@, "y"@),
                                w: attr_of(attrs@, "width"@),
                                h: attr_of(attrs@, "height"@),
                                style: attr_of(attrs@, "style"@),
                            },
                        ),
                    )
                } else if name@ == "line"@ {
                    spec_extract(
                        events,
                        k + 1,
                        vb,
                        acc.push(
                            SpecElement::Line {
                                x1: attr_of(attrs@, "x1"@),
                                y1: attr_of(attrs@, "y1"@),
                                x2: attr_of(attrs@, "x2"@),
                                y2: attr_of(attrs@, "y2"@),
                                style: attr_of(attrs@, "style"@),
                            },
                        ),
                    )
                } else {
                    spec_extract(events, k + 1, vb, acc)
                }
            },
        }
    }
}

/// A parsed document: its viewBox dimensions and its drawable elements.
pub struct Document {
    pub width: i64,
    pub height: i64,
    pub elements: Vec<Element>,
}

/// The view of an element list.
pub open spec fn elems_view(es: Seq<Element>) -> Seq<SpecElement> {
    es.map_values(|e: Element| elem_view(e))
}

/// Look up the last attribute with a name, as the extractor reads them.
fn attr_lookup(attrs: &Vec<Attr>, name: &str) -> (r: String)
    ensures
        r@ == attr_of(attrs@, name@),
{
    let n: usize = attrs.len();
    let mut k: usize = n;
    proof {
        assert(attrs@.subrange(0, n as int) =~= attrs@);
    }
    while k > 0
        invariant
            0 <= k <= n,
            n == attrs.len(),
            attr_of(attrs@, name@) == attr_of(attrs@.subrange(0, k as int), name@),
        decreases k,
    {
        let a: &Attr = &attrs[k - 1];
        proof {
            let pre = attrs@.subrange(0, k as int);
            assert(pre.last() == attrs@[k - 1]);
            assert(pre.drop_last() =~= attrs@.subrange(0, k - 1));
        }
        if crate::scan::str_eq(a.name.as_str(), name) {
            return a.value.clone();
        }
        k -= 1;
    }
    proof {
        assert(attrs@.subrange(0, 0) =~= Seq::<Attr>::empty());
    }
    String::new()
}

/// Is an attribute with this name present?
fn attr_present(attrs: &Vec<Attr>, name: &str) -> (r: bool)
    ensures
        r == has_attr(attrs@, name@),
{
    let n: usize = attrs.len();
    let mut k: usize = n;
    proof {
        assert(attrs@.subrange(0, n as int) =~= attrs@);
    }
    while k > 0
        invariant
            0 <= k <= n,
            n == attrs.len(),
            has_attr(attrs@, name@) == has_attr(attrs@.subrange(0, k as int), name@),
        decreases k,
    {
        let a: &Attr = &attrs[k - 1];
        proof {
            let pre = attrs@.subrange(0, k as int);
            assert(pre.last() == attrs@[k - 1]);
            assert(pre.drop_last() =~= attrs@.subrange(0, k - 1));
        }
        if crate::scan::str_eq(a.name.as_str(), name) {
            return true;
        }
        k -= 1;
    }
    proof {
        assert(attrs@.subrange(0, 0) =~= Seq::<Attr>::empty());
    }
    false
}

/// Read the viewBox dimensions out of an svg element's attributes.
fn read_viewbox(attrs: &Vec<Attr>) -> (r: Option<(i64, i64)>)
    ensures
        r == spec_viewbox(attrs@),
{
    if !attr_present(attrs, "viewBox") {
        return None;
    }
    let vb: String = attr_lookup(attrs, "viewBox");
    let toks: Vec<String> = split_str(vb.as_str(), ' ');
    if toks.len() < 4 {
        proof {
            assert(toks.deep_view().len() == toks.len());
        }
        return None;
    }
    proof {
        assert(toks.deep_view()[0] == toks@[0]@);
        assert(toks.deep_view()[1] == toks@[1]@);
        assert(toks.deep_view()[2] == toks@[2]@);
        assert(toks.deep_view()[3] == toks@[3]@);
    }
    let t0 = parse_fixed(toks[0].as_str());
    let t1 = parse_fixed(toks[1].as_str());
    let t2 = parse_fixed(toks[2].as_str());
    let t3 = parse_fixed(toks[3].as_str());
    match (t0, t1, t2, t3) {
        (Some(_), Some(_), Some(w), Some(h)) => Some((w, h)),
        _ => None,
    }
}

/// Extract the viewBox and the drawable elements from an event stream.
#[verifier::loop_isolation(false)]
pub fn extract_document(events: &Vec<RawEvent>) -> (r: Result<Document, SvgError>)
    ensures
        match r {
            Ok(doc) => spec_extract(events@, 0, None, Seq::<SpecElement>::empty()) == Ok::<
                _,
                SvgError,
            >(((doc.width, doc.height), elems_view(doc.elements@))),
            Err(e) => spec_extract(events@, 0, None, Seq::<SpecElement>::empty()) == Err::<
                ((i64, i64), Seq<SpecElement>),
                _,
            >(e),
        },
{
    let n: usize = events.len();
    let mut vb: Option<(i64, i64)> = None;
    let mut elems: Vec<Element> = Vec::new();
    let mut k: usize = 0;
    proof {
        assert(elems_view(elems@) =~= Seq::<SpecElement>::empty());
    }
    while k < n
        invariant
            0 <= k <= n,
            spec_extract(events@, 0, None, Seq::<SpecElement>::empty()) == spec_extract(
                events@,
                k as int,
                vb,
                elems_view(elems@),
            ),
        decreases n - k,
    {
        let ev: &RawEvent = &events[k];
        match ev {
            RawEvent::Fault => {
                return Err(SvgError::MalformedDocument);
            },
            RawEvent::Other => {},
            RawEvent::Start(name, attrs) => {
                let is_svg: bool = crate::scan::str_eq(name.as_str(), "svg");
                if is_svg && vb.is_none() {
                    match read_viewbox(attrs) {
                        None => {
                            return Err(SvgError::MalformedDocument);
                        },
                        Some(v) => {
                            vb = Some(v);
                        },
                    }
                } else if crate::scan::str_eq(name.as_str(), "path") {
                    let e = Element::Path {
                        d: attr_lookup(attrs, "d"),
                        style: attr_lookup(attrs, "style"),
                        transform: attr_lookup(attrs, "transform"),
                    };
                    let ghost old_ev = elems_view(elems@);
                    elems.push(e);
                    proof {
                        assert(elems_view(elems@) =~= old_ev.push(elem_view(e)));
                    }
                } else if crate::scan::str_eq(name.as_str(), "rect") {
                    let e = Element::Rect {
                        x: attr_lookup(attrs, "x"),
                        y: attr_lookup(attrs, "y"),
                        w: attr_lookup(attrs, "width"),
                        h: attr_lookup(attrs, "height"),
                        style: attr_lookup(attrs, "style"),
                    };
                    let ghost old_ev = elems_view(elems@);
                    elems.push(e);
                    proof {
                        assert(elems_view(elems@) =~= old_ev.push(elem_view(e)));
                    }
                } else if crate::scan::str_eq(name.as_str(), "line") {
                    let e = Element::Line {
                        x1: attr_lookup(attrs, "x1"),
                        y1: attr_lookup(attrs, "y1"),
                        x2: attr_lookup(attrs, "x2"),
                        y2: attr_lookup(attrs, "y2"),
                        style: attr_lookup(attrs, "style"),
                    };
                    let ghost old_ev = elems_view(elems@);
                    elems.push(e);
                    proof {
                        assert(elems_view(elems@) =~= old_ev.push(elem_view(e)));
                    }
                }
            },
        }
        k += 1;
    }
    match vb {
        None => Err(SvgError::MalformedDocument),
        Some(v) => Ok(Document { width: v.0, height: v.1, elements: elems }),
    }
}

} // verus!
