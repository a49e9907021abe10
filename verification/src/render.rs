//! The whole pipeline for one document: extract, interpret, rasterize,
//! and aggregate into an ordered record sequence.
//!
//! Records appear in document order; an element's fill record, when its
//! style declares a fill, immediately follows its outline record.  A
//! malformed element is skipped with a diagnostic and never aborts the
//! document; only a malformed document or a zero viewBox dimension does.

use vstd::prelude::*;
use crate::extract::{
    extract_document, elems_view, parse_xml_events, spec_extract, xml_events_of, Document,
    RawEvent, SpecElement,
};
use crate::fill::spec_fill_points;
use crate::fx::{fadd, fnorm, fsub, fx_add, fx_sub, norm_coord, HUNDRED};
use crate::model::{Element, ElementIssue, FxPoint, PathError, RenderRecord, SvgError};
use crate::num::{parse_fx, parse_fixed};
use crate::path::{draw_path, spec_draw_path};
use crate::style::{fill_match, style_has_fill};

verus! {

/// A record as the specification sees it: points, style text, fill flag.
pub open spec fn recs_view(rs: Seq<RenderRecord>) -> Seq<(Seq<FxPoint>, Seq<char>, bool)> {
    rs.map_values(|r: RenderRecord| (r.points@, r.style@, r.is_fill))
}

/// The five corner points of a rectangle's closed outline, already
/// normalized and flipped.
pub open spec fn rect_outline(xn: int, yn: int, wn: int, hn: int) -> Seq<FxPoint> {
    seq![
        FxPoint { x: xn as i64, y: fsub(HUNDRED as int, yn) as i64, connect: true },
        FxPoint { x: fadd(xn, wn) as i64, y: fsub(HUNDRED as int, yn) as i64, connect: true },
        FxPoint {
            x: fadd(xn, wn) as i64,
            y: fsub(HUNDRED as int, fadd(yn, hn)) as i64,
            connect: true,
        },
        FxPoint { x: xn as i64, y: fsub(HUNDRED as int, fadd(yn, hn)) as i64, connect: true },
        FxPoint { x: xn as i64, y: fsub(HUNDRED as int, yn) as i64, connect: true },
    ]
}

/// The records and diagnostics of one element at its document position.
pub open spec fn spec_render_element(e: SpecElement, w: int, h: int, idx: int) -> (
    Seq<(Seq<FxPoint>, Seq<char>, bool)>,
    Seq<ElementIssue>,
) {
    match e {
        SpecElement::Path { d, style, transform } => {
            match spec_draw_path(d, transform, fill_match(style), w, h) {
                Err(er) => (
                    Seq::<(Seq<FxPoint>, Seq<char>, bool)>::empty(),
                    seq![ElementIssue { element: idx as usize, error: er }],
                ),
                Ok(p) => (
                    seq![(p.0, style, false)] + match p.1 {
                        Some(f) => seq![(f, style, true)],
                        None => Seq::<(Seq<FxPoint>, Seq<char>, bool)>::empty(),
                    },
                    Seq::<ElementIssue>::empty(),
                ),
            }
        },
        SpecElement::Rect { x, y, w: rw, h: rh, style } => {
            match (parse_fx(x), parse_fx(y), parse_fx(rw), parse_fx(rh)) {
                (Some(xv), Some(yv), Some(wv), Some(hv)) => {
                    let pts = rect_outline(fnorm(xv, w), fnorm(yv, h), fnorm(wv, w), fnorm(hv, h));
                    (
                        seq![(pts, style, false)] + if fill_match(style) {
                            seq![(spec_fill_points(pts), style, true)]
                        } else {
                            Seq::<(Seq<FxPoint>, Seq<char>, bool)>::empty()
                        },
                        Seq::<ElementIssue>::empty(),
                    )
                },
                _ => (
                    Seq::<(Seq<FxPoint>, Seq<char>, bool)>::empty(),
                    seq![ElementIssue { element: idx as usize, error: PathError::BadNumber }],
                ),
            }
        },
        SpecElement::Line { x1, y1, x2, y2, style } => {
            match (parse_fx(x1), parse_fx(y1), parse_fx(x2), parse_fx(y2)) {
                (Some(av), Some(bv), Some(cv), Some(dv)) => {
                    let pts = seq![
                        FxPoint {
                            x: fnorm(av, w) as i64,
                            y: fsub(HUNDRED as int, fnorm(bv, h)) as i64,
                            connect: true,
                        },
                        FxPoint {
                            x: fnorm(cv, w) as i64,
                            y: fsub(HUNDRED as int, fnorm(dv, h)) as i64,
                            connect: true,
                        },
                    ];
                    (seq![(pts, style, false)], Seq::<ElementIssue>::empty())
                },
                _ => (
                    Seq::<(Seq<FxPoint>, Seq<char>, bool)>::empty(),
                    seq![ElementIssue { element: idx as usize, error: PathError::BadNumber }],
                ),
            }
        },
    }
}

/// Records and diagnostics of all elements from position `k` on.
pub open spec fn spec_render_elems(es: Seq<SpecElement>, k: int, w: int, h: int) -> (
    Seq<(Seq<FxPoint>, Seq<char>, bool)>,
    Seq<ElementIssue>,
)
    decreases es.len() - k,
{
    if k < 0 || k >= es.len() {
        (Seq::<(Seq<FxPoint>, Seq<char>, bool)>::empty(), Seq::<ElementIssue>::empty())
    } else {
        let this = spec_render_element(es[k], w, h, k);
        let rest = spec_render_elems(es, k + 1, w, h);
        (this.0 + rest.0, this.1 + rest.1)
    }
}

/// What a whole document renders to: the ordered records and the skipped
/// elements, or the failure that aborts the document.
pub open spec fn spec_render_doc(doc: Seq<char>) -> Result<
    (Seq<(Seq<FxPoint>, Seq<char>, bool)>, Seq<ElementIssue>),
    SvgError,
> {
    match spec_extract(xml_events_of(doc), 0, None, Seq::<SpecElement>::empty()) {
        Err(e) => Err(e),
        Ok(d) => if d.0.0 == 0 || d.0.1 == 0 {
            Err(SvgError::DegenerateGeometry)
        } else {
            Ok(spec_render_elems(d.1, 0, d.0.0 as int, d.0.1 as int))
        },
    }
}

/// The outcome of a render pass: the ordered records, and one diagnostic
/// for each element that was skipped.
#[derive(Debug)]
pub struct RenderOutput {
    pub records: Vec<RenderRecord>,
    pub issues: Vec<ElementIssue>,
}

/// Render one element into records, or one diagnostic.
fn render_element(e: &Element, w: i64, h: i64, idx: usize) -> (r: (
    Vec<RenderRecord>,
    Vec<ElementIssue>,
))
    requires
        w != 0,
        h != 0,
    ensures
        (recs_view(r.0@), r.1@) == spec_render_element(
            crate::extract::elem_view(*e),
            w as int,
            h as int,
            idx as int,
        ),
{
    let mut recs: Vec<RenderRecord> = Vec::new();
    let mut issues: Vec<ElementIssue> = Vec::new();
    match e {
        Element::Path { d, style, transform } => {
            match draw_path(d.as_str(), transform.as_str(), style.as_str(), w, h) {
                Err(er) => {
                    issues.push(ElementIssue { element: idx, error: er });
                    proof {
                        assert(issues@ =~= seq![
                            ElementIssue { element: idx, error: er },
                        ]);
                        assert(recs_view(recs@) =~= Seq::<(Seq<FxPoint>, Seq<char>, bool)>::empty());
                    }
                },
                Ok(p) => {
                    let (pts, fill) = p;
                    recs.push(RenderRecord { points: pts, style: style.clone(), is_fill: false });
                    match fill {
                        Some(f) => {
                            recs.push(
                                RenderRecord { points: f, style: style.clone(), is_fill: true },
                            );
                        },
                        None => {},
                    }
                    proof {
                        let sr = spec_render_element(
                            crate::extract::elem_view(*e),
                            w as int,
                            h as int,
                            idx as int,
                        );
                        assert(recs_view(recs@) =~~= sr.0);
                        assert(issues@ =~= sr.1);
                    }
                },
            }
        },
        Element::Rect { x, y, w: rw, h: rh, style } => {
            let xv = parse_fixed(x.as_str());
            let yv = parse_fixed(y.as_str());
            let wv = parse_fixed(rw.as_str());
            let hv = parse_fixed(rh.as_str());
            match (xv, yv, wv, hv) {
                (Some(xa), Some(ya), Some(wa), Some(ha)) => {
                    let xn: i64 = norm_coord(xa, w);
                    let yn: i64 = norm_coord(ya, h);
                    let wn: i64 = norm_coord(wa, w);
                    let hn: i64 = norm_coord(ha, h);
                    let xw: i64 = fx_add(xn, wn);
                    let yh: i64 = fx_add(yn, hn);
                    let top: i64 = fx_sub(HUNDRED, yn);
                    let bot: i64 = fx_sub(HUNDRED, yh);
                    let mut pts: Vec<FxPoint> = Vec::new();
                    pts.push(FxPoint { x: xn, y: top, connect: true });
                    pts.push(FxPoint { x: xw, y: top, connect: true });
                    pts.push(FxPoint { x: xw, y: bot, connect: true });
                    pts.push(FxPoint { x: xn, y: bot, connect: true });
                    pts.push(FxPoint { x: xn, y: top, connect: true });
                    let ghost outline = rect_outline(
                        fnorm(xa as int, w as int),
                        fnorm(ya as int, h as int),
                        fnorm(wa as int, w as int),
                        fnorm(ha as int, h as int),
                    );
                    proof {
                        assert(pts@ =~~= outline);
                    }
                    let has_fill: bool = style_has_fill(style.as_str());
                    if has_fill {
                        let f: Vec<FxPoint> = crate::fill::fill_points(&pts);
                        recs.push(
                            RenderRecord { points: pts, style: style.clone(), is_fill: false },
                        );
                        recs.push(RenderRecord { points: f, style: style.clone(), is_fill: true });
                    } else {
                        recs.push(
                            RenderRecord { points: pts, style: style.clone(), is_fill: false },
                        );
                    }
                    proof {
                        let sr = spec_render_element(
                            crate::extract::elem_view(*e),
                            w as int,
                            h as int,
                            idx as int,
                        );
                        assert(recs_view(recs@) =~~= sr.0);
                        assert(issues@ =~= sr.1);
                    }
                },
                _ => {
                    issues.push(ElementIssue { element: idx, error: PathError::BadNumber });
                    proof {
                        assert(issues@ =~= seq![
                            ElementIssue { element: idx, error: PathError::BadNumber },
                        ]);
                        assert(recs_view(recs@) =~= Seq::<(Seq<FxPoint>, Seq<char>, bool)>::empty());
                    }
                },
            }
        },
        Element::Line { x1, y1, x2, y2, style } => {
            let av = parse_fixed(x1.as_str());
            let bv = parse_fixed(y1.as_str());
            let cv = parse_fixed(x2.as_str());
            let dv = parse_fixed(y2.as_str());
            match (av, bv, cv, dv) {
                (Some(aa), Some(ba), Some(ca), Some(da)) => {
                    let mut pts: Vec<FxPoint> = Vec::new();
                    pts.push(
                        FxPoint {
                            x: norm_coord(aa, w),
                            y: fx_sub(HUNDRED, norm_coord(ba, h)),
                            connect: true,
                        },
                    );
                    pts.push(
                        FxPoint {
                            x: norm_coord(ca, w),
                            y: fx_sub(HUNDRED, norm_coord(da, h)),
                            connect: true,
                        },
                    );
                    recs.push(RenderRecord { points: pts, style: style.clone(), is_fill: false });
                    proof {
                        let sr = spec_render_element(
                            crate::extract::elem_view(*e),
                            w as int,
                            h as int,
                            idx as int,
                        );
                        assert(recs_view(recs@) =~~= sr.0);
                        assert(issues@ =~= sr.1);
                    }
                },
                _ => {
                    issues.push(ElementIssue { element: idx, error: PathError::BadNumber });
                    proof {
                        assert(issues@ =~= seq![
                            ElementIssue { element: idx, error: PathError::BadNumber },
                        ]);
                        assert(recs_view(recs@) =~= Seq::<(Seq<FxPoint>, Seq<char>, bool)>::empty());
                    }
                },
            }
        },
    }
    (recs, issues)
}

/// Render a whole document into its ordered record sequence.
#[verifier::rlimit(100)]
#[verifier::loop_isolation(false)]
pub fn render_svg(doc: &str) -> (r: Result<RenderOutput, SvgError>)
    ensures
        match r {
            Ok(out) => spec_render_doc(doc@) == Ok::<_, SvgError>(
                (recs_view(out.records@), out.issues@),
            ),
            Err(e) => spec_render_doc(doc@) == Err::<
                (Seq<(Seq<FxPoint>, Seq<char>, bool)>, Seq<ElementIssue>),
                _,
            >(e),
        },
{
    let events: Vec<RawEvent> = parse_xml_events(doc);
    let document: Document = match extract_document(&events) {
        Err(e) => {
            return Err(e);
        },
        Ok(d) => d,
    };
    if document.width == 0 || document.height == 0 {
        return Err(SvgError::DegenerateGeometry);
    }
    let w: i64 = document.width;
    let h: i64 = document.height;
    let ghost ev = elems_view(document.elements@);
    let n: usize = document.elements.len();
    let mut records: Vec<RenderRecord> = Vec::new();
    let mut issues: Vec<ElementIssue> = Vec::new();
    let mut k: usize = 0;
    proof {
        assert(recs_view(records@) =~= Seq::<(Seq<FxPoint>, Seq<char>, bool)>::empty());
    }
    while k < n
        invariant
            0 <= k <= n,
            spec_render_elems(ev, 0, w as int, h as int).0 == recs_view(records@)
                + spec_render_elems(ev, k as int, w as int, h as int).0,
            spec_render_elems(ev, 0, w as int, h as int).1 == issues@ + spec_render_elems(
                ev,
                k as int,
                w as int,
                h as int,
            ).1,
        decreases n - k,
    {
        let e: &Element = &document.elements[k];
        proof {
            assert(ev[k as int] == crate::extract::elem_view(*e));
        }
        let (mut recs, mut iss) = render_element(e, w, h, k);
        let ghost recsv = recs_view(recs@);
        let ghost issv = iss@;
        let ghost old_records = recs_view(records@);
        let ghost old_issues = issues@;
        records.append(&mut recs);
        issues.append(&mut iss);
        proof {
            assert(recs_view(records@) =~= old_records + recsv);
            let this = spec_render_element(ev[k as int], w as int, h as int, k as int);
            let rest = spec_render_elems(ev, k + 1, w as int, h as int);
            assert(spec_render_elems(ev, k as int, w as int, h as int).0 == this.0 + rest.0);
            assert((old_records + recsv) + rest.0 =~= old_records + (recsv + rest.0));
            assert((old_issues + issv) + rest.1 =~= old_issues + (issv + rest.1));
        }
        k += 1;
    }
    proof {
        assert(spec_render_elems(ev, n as int, w as int, h as int).0 =~= Seq::<
            (Seq<FxPoint>, Seq<char>, bool),
        >::empty());
        assert(recs_view(records@) + Seq::<(Seq<FxPoint>, Seq<char>, bool)>::empty() =~= recs_view(
            records@,
        ));
        assert(issues@ + Seq::<ElementIssue>::empty() =~= issues@);
    }
    Ok(RenderOutput { records, issues })
}

/// Rectangle fill containment: every fill cell enumerated for a rectangle
/// lies strictly inside the rectangle's own box - strictly between its
/// left and right edges and strictly between its bottom and top edges in
/// the flipped frame - and so no cell outside the box is ever emitted.
#[verifier::rlimit(100)]
pub proof fn lemma_rect_fill_within(xn: int, yn: int, wn: int, hn: int, k: int)
    requires
        crate::fx::fx_ok(xn),
        crate::fx::fx_ok(yn),
        0 <= k < spec_fill_points(rect_outline(xn, yn, wn, hn)).len(),
    ensures
        ({
            let c = spec_fill_points(rect_outline(xn, yn, wn, hn))[k];
            let xe = fadd(xn, wn);
            let yt = fsub(HUNDRED as int, yn);
            let yb = fsub(HUNDRED as int, fadd(yn, hn));
            let lo_x = if xn <= xe {
                xn
            } else {
                xe
            };
            let hi_x = if xn <= xe {
                xe
            } else {
                xn
            };
            let lo_y = if yb <= yt {
                yb
            } else {
                yt
            };
            let hi_y = if yb <= yt {
                yt
            } else {
                yb
            };
            lo_x < c.x < hi_x && lo_y < c.y < hi_y
        }),
{
    let pts = rect_outline(xn, yn, wn, hn);
    let xe = fadd(xn, wn);
    let yt = fsub(HUNDRED as int, yn);
    let yb = fsub(HUNDRED as int, fadd(yn, hn));
    assert(pts.len() == 5);
    assert forall|i: int| 0 <= i < 5 implies (pts[i].x as int == xn || pts[i].x as int == xe) && (
    pts[i].y as int == yt || pts[i].y as int == yb) by {
        assert(xn as i64 as int == xn);
        assert(xe as i64 as int == xe);
        assert(yt as i64 as int == yt);
        assert(yb as i64 as int == yb);
    }
    let i1 = crate::fill::lemma_min_xs_at(pts);
    let i2 = crate::fill::lemma_max_xs_at(pts);
    let i3 = crate::fill::lemma_min_ys_at(pts);
    let i4 = crate::fill::lemma_max_ys_at(pts);
    assert(crate::fx::fx_ok(crate::fill::min_xs(pts)));
    assert(crate::fx::fx_ok(crate::fill::max_xs(pts)));
    assert(crate::fx::fx_ok(crate::fill::min_ys(pts)));
    assert(crate::fx::fx_ok(crate::fill::max_ys(pts)));
    crate::fill::lemma_fill_within_bbox(pts, k);
}

/// The concatenation of a list of text lines.
pub open spec fn concat_lines(ls: Seq<Seq<char>>) -> Seq<char>
    decreases ls.len(),
{
    if ls.len() == 0 {
        Seq::<char>::empty()
    } else {
        ls[0] + concat_lines(ls.drop_first())
    }
}

proof fn lemma_concat_snoc(ls: Seq<Seq<char>>, i: int)
    requires
        0 <= i < ls.len(),
    ensures
        concat_lines(ls.take(i + 1)) == concat_lines(ls.take(i)) + ls[i],
    decreases i,
{
    if i == 0 {
        let t1 = ls.take(1);
        assert(t1.len() == 1);
        assert(t1[0] == ls[0]);
        assert(t1.drop_first() =~= Seq::<Seq<char>>::empty());
        assert(concat_lines(t1.drop_first()) == Seq::<char>::empty());
        assert(concat_lines(t1) == ls[0] + Seq::<char>::empty());
        assert(ls[0] + Seq::<char>::empty() =~= ls[0]);
        assert(ls.take(0).len() == 0);
        assert(concat_lines(ls.take(0)) + ls[0] =~= ls[0]);
    } else {
        let head = ls[0];
        let rest = ls.drop_first();
        lemma_concat_snoc(rest, i - 1);
        assert(ls.take(i + 1)[0] == head);
        assert(ls.take(i + 1).drop_first() =~= rest.take(i));
        assert(ls.take(i)[0] == head);
        assert(ls.take(i).drop_first() =~= rest.take(i - 1));
        assert(rest[i - 1] == ls[i]);
        assert(head + (concat_lines(rest.take(i - 1)) + ls[i]) =~= (head + concat_lines(
            rest.take(i - 1),
        )) + ls[i]);
    }
}

/// A standalone document wrapped around stored element lines: the
/// declaration, an svg root spanning the whole canonical box, the lines,
/// and the closing tag.
pub open spec fn spec_compose(ls: Seq<Seq<char>>) -> Seq<char> {
    "<?xml version=\"1.0\" encoding=\"utf-8\"?>"@
        + "<svg viewBox=\"0 0 100 100\" xmlns=\"http://www.w3.org/2000/svg\">"@ + concat_lines(ls)
        + "</svg>"@
}

/// Compose stored element lines into a standalone renderable document.
#[verifier::loop_isolation(false)]
pub fn compose_document(lines: &Vec<String>) -> (r: String)
    ensures
        r@ == spec_compose(lines.deep_view()),
{
    let ghost dv = lines.deep_view();
    let mut out: String = String::new();
    out.append("<?xml version=\"1.0\" encoding=\"utf-8\"?>");
    out.append("<svg viewBox=\"0 0 100 100\" xmlns=\"http://www.w3.org/2000/svg\">");
    let ghost header = out@;
    let n: usize = lines.len();
    let mut i: usize = 0;
    proof {
        assert(dv.take(0) =~= Seq::<Seq<char>>::empty());
        assert(header + concat_lines(dv.take(0)) =~= header);
    }
    while i < n
        invariant
            0 <= i <= n,
            n == lines.len(),
            out@ == header + concat_lines(dv.take(i as int)),
        decreases n - i,
    {
        let line: &String = &lines[i];
        proof {
            assert(dv[i as int] == line@);
            lemma_concat_snoc(dv, i as int);
        }
        out.append(line.as_str());
        proof {
            assert((header + concat_lines(dv.take(i as int))) + line@ =~= header + (concat_lines(
                dv.take(i as int),
            ) + line@));
        }
        i += 1;
    }
    proof {
        assert(dv.take(n as int) =~= dv);
    }
    out.append("</svg>");
    out
}

/// Re-rendering is idempotent: any two outcomes of the same document text
/// are the same, records, order, flags and diagnostics alike.
pub proof fn lemma_render_idempotent(
    doc: Seq<char>,
    r1: Result<(Seq<(Seq<FxPoint>, Seq<char>, bool)>, Seq<ElementIssue>), SvgError>,
    r2: Result<(Seq<(Seq<FxPoint>, Seq<char>, bool)>, Seq<ElementIssue>), SvgError>,
)
    requires
        r1 == spec_render_doc(doc),
        r2 == spec_render_doc(doc),
    ensures
        r1 == r2,
{
}

/// A document whose viewBox has a zero width or height fails with the
/// degenerate-geometry error, never with a silent division by zero.
pub proof fn lemma_zero_viewbox_fails(doc: Seq<char>)
    requires
        spec_extract(xml_events_of(doc), 0, None, Seq::<SpecElement>::empty()) matches Ok(d) && (
        d.0.0 == 0 || d.0.1 == 0),
    ensures
        spec_render_doc(doc) == Err::<
            (Seq<(Seq<FxPoint>, Seq<char>, bool)>, Seq<ElementIssue>),
            SvgError,
        >(SvgError::DegenerateGeometry),
{
}

} // verus!
