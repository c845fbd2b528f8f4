//! The section extractor: walks a document's event stream, splits it into
//! sections at heading boundaries up to a configured depth, tracks the
//! breadcrumb trail of ancestor headings, assigns URL anchors and footnote
//! ordinals, and emits one text bundle per section.

use vstd::prelude::*;
use vstd::string::StringExecFns;

use crate::events::clean_html;
use crate::events::clean_of;
use crate::events::document_events;
use crate::events::events_of;
use crate::events::events_view;
use crate::events::MdEvent;
use crate::events::MdEventV;
use crate::filter::IndexBuildError;
use crate::locator::Locator;
use crate::text::chars_vec;
use crate::text::dec_string;
use crate::text::id_from_content;
use crate::text::join_strings;
use crate::text::spec_collapse;
use crate::text::spec_dec;
use crate::text::spec_id;
use crate::text::spec_join;
use crate::text::spec_trim;
use crate::text::tidy;

verus! {

/// One heading-bounded unit of a document: the locator parts (document
/// title, section URL, breadcrumb trail) together with the text fragments
/// that feed the section's filter.
pub struct Section {
    pub title: String,
    pub url: String,
    pub breadcrumb: String,
    pub heading: String,
    pub body: String,
}

/// The mathematical shape of a section.
#[verifier::ext_equal]
pub struct SectionV {
    pub title: Seq<char>,
    pub url: Seq<char>,
    pub breadcrumb: Seq<char>,
    pub heading: Seq<char>,
    pub body: Seq<char>,
}

impl View for Section {
    type V = SectionV;

    open spec fn view(&self) -> SectionV {
        SectionV {
            title: self.title@,
            url: self.url@,
            breadcrumb: self.breadcrumb@,
            heading: self.heading@,
            body: self.body@,
        }
    }
}

impl Section {
    /// The locator under which this section is retrieved.
    pub fn locator(&self) -> (r: Locator)
        ensures
            r@ == (self.title@, self.url@, self.breadcrumb@),
    {
        Locator::new(self.title.clone(), self.url.clone(), self.breadcrumb.clone())
    }
}

/// The views of a sequence of sections.
pub open spec fn sections_view(ss: Seq<Section>) -> Seq<SectionV> {
    ss.map_values(|s: Section| s@)
}

/// The separator between breadcrumb levels.
pub open spec fn crumb_sep() -> Seq<char> {
    " » "@
}

/// The extractor's running state.
#[verifier::ext_equal]
pub struct ExtState {
    pub in_heading: bool,
    pub section_id: Option<Seq<char>>,
    pub heading: Seq<char>,
    pub body: Seq<char>,
    pub crumbs: Seq<(u32, Seq<char>)>,
    pub notes: Seq<Seq<char>>,
    pub pending_crumb: Seq<char>,
    pub out: Seq<SectionV>,
}

pub open spec fn init_state(parents: Seq<Seq<char>>) -> ExtState {
    ExtState {
        in_heading: false,
        section_id: None,
        heading: Seq::empty(),
        body: Seq::empty(),
        crumbs: Seq::empty(),
        notes: Seq::empty(),
        pending_crumb: spec_join(parents, crumb_sep()),
        out: Seq::empty(),
    }
}

/// The URL of a section: the document's anchor base, the section's own
/// anchor if it has one, tidied as the locator carries it.
pub open spec fn spec_url(base: Seq<char>, id: Option<Seq<char>>) -> Seq<char> {
    match id {
        Some(s) => spec_collapse(spec_trim(base + seq!['#'] + s)),
        None => spec_collapse(spec_trim(base)),
    }
}

/// The section the current state stands for.
pub open spec fn emit(st: ExtState, title: Seq<char>, base: Seq<char>) -> SectionV {
    SectionV {
        title: title,
        url: spec_url(base, st.section_id),
        breadcrumb: st.pending_crumb,
        heading: st.heading,
        body: st.body,
    }
}

/// Finalizes the current section and clears the buffers for the next one.
pub open spec fn finish_section(st: ExtState, title: Seq<char>, base: Seq<char>) -> ExtState {
    ExtState {
        out: st.out.push(emit(st, title, base)),
        section_id: None,
        heading: Seq::empty(),
        body: Seq::empty(),
        ..st
    }
}

/// The breadcrumb stack cut back to the ancestors of a heading of depth
/// `d`: entries at depth `d` or deeper are popped.
pub open spec fn keep_below(crumbs: Seq<(u32, Seq<char>)>, d: u32) -> Seq<(u32, Seq<char>)>
    decreases crumbs.len(),
{
    if crumbs.len() > 0 && crumbs.last().0 >= d {
        keep_below(crumbs.drop_last(), d)
    } else {
        crumbs
    }
}

pub open spec fn crumb_texts(crumbs: Seq<(u32, Seq<char>)>) -> Seq<Seq<char>> {
    crumbs.map_values(|p: (u32, Seq<char>)| p.1)
}

/// Routes text into whichever buffer is active.
pub open spec fn put_text(st: ExtState, t: Seq<char>) -> ExtState {
    if st.in_heading {
        ExtState { heading: st.heading + t, ..st }
    } else {
        ExtState { body: st.body + t, ..st }
    }
}

/// The position of a footnote name in first-seen order, or none.
pub open spec fn note_index(notes: Seq<Seq<char>>, name: Seq<char>) -> int
    decreases notes.len(),
{
    if notes.len() == 0 {
        -1
    } else if notes[0] == name {
        0
    } else {
        let r = note_index(notes.drop_first(), name);
        if r == -1 {
            -1
        } else {
            r + 1
        }
    }
}

/// How a footnote reference is rendered inline: a bracketed ordinal.
pub open spec fn note_text(n: nat) -> Seq<char> {
    seq![' ', '['] + spec_dec(n) + seq![']', ' ']
}

/// One extractor step for a single event (raw HTML runs are handled by
/// `run`, which coalesces them first).
pub open spec fn step(
    st: ExtState,
    ev: MdEventV,
    title: Seq<char>,
    base: Seq<char>,
    parents: Seq<Seq<char>>,
    maxd: u32,
) -> ExtState {
    match ev {
        MdEventV::HeadingStart(d) => {
            if d <= maxd {
                let st1 = if st.heading.len() > 0 {
                    finish_section(st, title, base)
                } else {
                    st
                };
                ExtState { in_heading: true, ..st1 }
            } else {
                put_text(st, seq![' '])
            }
        },
        MdEventV::HeadingEnd(d) => {
            if d <= maxd {
                let kept = keep_below(st.crumbs, d);
                ExtState {
                    in_heading: false,
                    section_id: Some(spec_id(st.heading)),
                    crumbs: kept.push((d, st.heading)),
                    pending_crumb: spec_join(parents + crumb_texts(kept), crumb_sep()),
                    ..st
                }
            } else {
                put_text(st, seq![' '])
            }
        },
        MdEventV::Text(t) => put_text(st, t),
        MdEventV::Html(h) => ExtState { body: st.body + clean_of(h), ..st },
        MdEventV::FootnoteDef(name) => {
            if note_index(st.notes, name) == -1 {
                ExtState { notes: st.notes.push(name), ..st }
            } else {
                st
            }
        },
        MdEventV::FootnoteRef(name) => {
            let idx = note_index(st.notes, name);
            if idx == -1 {
                ExtState {
                    notes: st.notes.push(name),
                    body: st.body + note_text((st.notes.len() + 1) as nat),
                    ..st
                }
            } else {
                ExtState { body: st.body + note_text((idx + 1) as nat), ..st }
            }
        },
        MdEventV::Break => put_text(st, seq![' ']),
        MdEventV::Skip => st,
    }
}

/// The content of an HTML event, empty for any other.
pub open spec fn html_content(ev: MdEventV) -> Seq<char> {
    match ev {
        MdEventV::Html(h) => h,
        _ => Seq::empty(),
    }
}

/// The length of the run of HTML events at the front of the stream.
pub open spec fn html_run(evs: Seq<MdEventV>) -> nat
    decreases evs.len(),
{
    if evs.len() > 0 && (evs[0] matches MdEventV::Html(_)) {
        1 + html_run(evs.drop_first())
    } else {
        0
    }
}

/// The first `k` events' HTML contents, chained into one block.
pub open spec fn html_text(evs: Seq<MdEventV>, k: nat) -> Seq<char>
    decreases k,
{
    if k > 0 && evs.len() > 0 {
        html_content(evs[0]) + html_text(evs.drop_first(), (k - 1) as nat)
    } else {
        Seq::empty()
    }
}

proof fn lemma_html_run_bound(evs: Seq<MdEventV>)
    ensures
        html_run(evs) <= evs.len(),
    decreases evs.len(),
{
    if evs.len() > 0 && (evs[0] matches MdEventV::Html(_)) {
        lemma_html_run_bound(evs.drop_first());
    }
}

/// The whole extractor: walks the events in order, coalescing each run of
/// consecutive raw-HTML events into one block that is sanitized once.
pub open spec fn run(
    st: ExtState,
    evs: Seq<MdEventV>,
    title: Seq<char>,
    base: Seq<char>,
    parents: Seq<Seq<char>>,
    maxd: u32,
) -> ExtState
    decreases evs.len(),
    via run_decreases
{
    if evs.len() == 0 {
        st
    } else if evs[0] matches MdEventV::Html(_) {
        let k = html_run(evs);
        let st1 = ExtState { body: st.body + clean_of(html_text(evs, k)), ..st };
        run(st1, evs.skip(k as int), title, base, parents, maxd)
    } else {
        run(step(st, evs[0], title, base, parents, maxd), evs.drop_first(), title, base, parents, maxd)
    }
}

#[via_fn]
proof fn run_decreases(
    st: ExtState,
    evs: Seq<MdEventV>,
    title: Seq<char>,
    base: Seq<char>,
    parents: Seq<Seq<char>>,
    maxd: u32,
) {
    if evs.len() > 0 && (evs[0] matches MdEventV::Html(_)) {
        lemma_html_run_bound(evs);
    }
}

/// The view of an optional string.
pub open spec fn opt_view(o: Option<String>) -> Option<Seq<char>> {
    match o {
        Some(s) => Some(s@),
        None => None,
    }
}

/// The views of a breadcrumb stack.
pub open spec fn crumbs_view(v: Seq<(u32, String)>) -> Seq<(u32, Seq<char>)> {
    v.map_values(|p: (u32, String)| (p.0, p.1@))
}

/// The extractor state the given buffers stand for.
pub open spec fn st_of(
    in_heading: bool,
    section_id: Option<Seq<char>>,
    heading: Seq<char>,
    body: Seq<char>,
    crumbs: Seq<(u32, Seq<char>)>,
    notes: Seq<Seq<char>>,
    pending_crumb: Seq<char>,
    out: Seq<SectionV>,
) -> ExtState {
    ExtState { in_heading, section_id, heading, body, crumbs, notes, pending_crumb, out }
}

/// Every section a document's event stream yields, in document order.
pub open spec fn spec_extract(
    evs: Seq<MdEventV>,
    title: Seq<char>,
    base: Seq<char>,
    parents: Seq<Seq<char>>,
    maxd: u32,
) -> Seq<SectionV> {
    let st = run(init_state(parents), evs, title, base, parents, maxd);
    if st.heading.len() > 0 {
        st.out.push(emit(st, title, base))
    } else {
        st.out
    }
}

/// Finds a footnote name in the first-seen list.
fn find_note(notes: &Vec<String>, name: &String) -> (r: Option<usize>)
    ensures
        match r {
            Some(k) => k < notes@.len() && note_index(notes.deep_view(), name@) == k as int,
            None => note_index(notes.deep_view(), name@) == -1,
        },
{
    let ghost nv = notes.deep_view();
    proof {
        assert(forall|j: int| 0 <= j < nv.len() ==> nv[j] == #[trigger] notes@[j]@);
    }
    let n = notes.len();
    let mut k: usize = 0;
    proof {
        assert(nv.skip(0) =~= nv);
    }
    while k < n
        invariant
            nv == notes.deep_view(),
            nv.len() == notes@.len(),
            forall|j: int| 0 <= j < nv.len() ==> nv[j] == #[trigger] notes@[j]@,
            k <= n == notes@.len(),
            note_index(nv.skip(k as int), name@) == -1 ==> note_index(nv, name@) == -1,
            note_index(nv.skip(k as int), name@) >= 0 ==> note_index(nv, name@) == note_index(
                nv.skip(k as int),
                name@,
            ) + k,
        decreases n - k,
    {
        proof {
            assert(nv.skip(k as int)[0] == nv[k as int]);
            assert(nv.skip(k as int).drop_first() =~= nv.skip(k as int + 1));
        }
        if notes[k].eq(name) {
            proof {
                assert(note_index(nv.skip(k as int), name@) == 0);
            }
            return Some(k);
        }
        proof {
            assert(nv.skip(k as int)[0] != name@);
        }
        k += 1;
    }
    proof {
        assert(nv.skip(n as int) =~= Seq::<Seq<char>>::empty());
    }
    None
}

/// Builds the tidied URL of a section from the anchor base and the
/// optional section identifier.
fn make_url(base: &str, id: &Option<String>) -> (r: String)
    ensures
        r@ == spec_url(base@, opt_view(*id)),
{
    match id {
        Some(s) => {
            let mut u = base.to_owned();
            u.append("#");
            u.append(s.as_str());
            proof {
                reveal_strlit("#");
                assert(u@ =~= base@ + seq!['#'] + s@);
            }
            tidy(u.as_str())
        },
        None => tidy(base),
    }
}

/// Appends the finished section for the given buffers.
fn push_section(
    out: &mut Vec<Section>,
    title: &str,
    base: &str,
    section_id: &Option<String>,
    pending: &String,
    heading: &String,
    body: &String,
)
    ensures
        sections_view(final(out)@) == sections_view(old(out)@).push(
            emit(
                st_of(
                    false,
                    opt_view(*section_id),
                    heading@,
                    body@,
                    Seq::empty(),
                    Seq::empty(),
                    pending@,
                    Seq::empty(),
                ),
                title@,
                base@,
            ),
        ),
{
    let url = make_url(base, section_id);
    let ghost out0 = out@;
    out.push(
        Section {
            title: title.to_owned(),
            url,
            breadcrumb: pending.clone(),
            heading: heading.clone(),
            body: body.clone(),
        },
    );
    proof {
        assert(sections_view(out@) =~= sections_view(out0).push(out@.last()@));
    }
}

/// Walks a document's events and returns its sections in document order.
pub fn extract_sections(
    events: &Vec<MdEvent>,
    title: &str,
    anchor_base: &str,
    parents: &Vec<String>,
    max_depth: u32,
) -> (r: Vec<Section>)
    ensures
        sections_view(r@) == spec_extract(
            events_view(events@),
            title@,
            anchor_base@,
            parents.deep_view(),
            max_depth,
        ),
{
    let ghost evsv = events_view(events@);
    let ghost pv = parents.deep_view();
    let ghost tv = title@;
    let ghost bv = anchor_base@;
    let ghost full = run(init_state(pv), evsv, tv, bv, pv, max_depth);

    let mut in_heading = false;
    let mut section_id: Option<String> = None;
    let mut heading = String::new();
    let mut body = String::new();
    let mut crumbs: Vec<(u32, String)> = Vec::new();
    let mut notes: Vec<String> = Vec::new();
    let mut pending = join_strings(parents, " » ");
    let mut out: Vec<Section> = Vec::new();

    proof {
        assert(crumbs_view(crumbs@) =~= Seq::<(u32, Seq<char>)>::empty());
        assert(notes.deep_view() =~= Seq::<Seq<char>>::empty());
        assert(sections_view(out@) =~= Seq::<SectionV>::empty());
        assert(st_of(
            in_heading,
            opt_view(section_id),
            heading@,
            body@,
            crumbs_view(crumbs@),
            notes.deep_view(),
            pending@,
            sections_view(out@),
        ) =~= init_state(pv));
        assert(evsv.skip(0) =~= evsv);
    }

    let n = events.len();
    let mut i: usize = 0;
    while i < n
        invariant
            n == events@.len(),
            evsv == events_view(events@),
            evsv.len() == n,
            pv == parents.deep_view(),
            tv == title@,
            bv == anchor_base@,
            i <= n,
            full == run(init_state(pv), evsv, tv, bv, pv, max_depth),
            run(
                st_of(
                    in_heading,
                    opt_view(section_id),
                    heading@,
                    body@,
                    crumbs_view(crumbs@),
                    notes.deep_view(),
                    pending@,
                    sections_view(out@),
                ),
                evsv.skip(i as int),
                tv,
                bv,
                pv,
                max_depth,
            ) == full,
        decreases n - i,
    {
        let ghost cur = st_of(
            in_heading,
            opt_view(section_id),
            heading@,
            body@,
            crumbs_view(crumbs@),
            notes.deep_view(),
            pending@,
            sections_view(out@),
        );
        proof {
            assert(evsv[i as int] == events@[i as int]@);
            assert(evsv.skip(i as int)[0] == evsv[i as int]);
            assert(evsv.skip(i as int).drop_first() =~= evsv.skip(i as int + 1));
        }
        match &events[i] {
            MdEvent::Html(h) => {
                let ghost tail = evsv.skip(i as int);
                let mut block = h.clone();
                let mut j = i + 1;
                proof {
                    assert(tail[0] == evsv[i as int]);
                    assert(evsv[i as int] == MdEventV::Html(h@));
                    assert(html_content(tail[0]) == h@);
                    assert(html_run(tail) >= 1);
                    assert(tail.drop_first() =~= evsv.skip(i as int + 1));
                    assert(tail.len() > 0);
                    assert(html_text(tail.drop_first(), 0) =~= Seq::<char>::empty());
                    assert(html_text(tail, 1) == html_content(tail[0]) + html_text(
                        tail.drop_first(),
                        0,
                    ));
                    assert(html_text(tail, 1) =~= h@);
                    assert(block@ == html_text(tail, (1) as nat));
                }
                while j < n && (matches!(&events[j], MdEvent::Html(_)))
                    invariant
                        n == events@.len(),
                        evsv == events_view(events@),
                        evsv.len() == n,
                        i < j <= n,
                        tail == evsv.skip(i as int),
                        block@ == html_text(tail, (j - i) as nat),
                        html_run(tail) >= j - i,
                        forall|m: int| i <= m < j ==> (#[trigger] evsv[m] matches MdEventV::Html(_)),
                    decreases n - j,
                {
                    let ghost block0 = block@;
                    if let MdEvent::Html(h2) = &events[j] {
                        block.append(h2.as_str());
                        proof {
                            assert(evsv[j as int] == events@[j as int]@);
                            lemma_html_text_snoc(tail, (j - i) as nat);
                            assert(tail[(j - i) as int] == evsv[j as int]);
                            assert(html_content(evsv[j as int]) == h2@);
                            lemma_html_run_ge(tail, (j + 1 - i) as nat);
                        }
                    }
                    j += 1;
                }
                proof {
                    // the run stops exactly at j
                    if j < n {
                        assert(evsv[j as int] == events@[j as int]@);
                        assert(!(evsv[j as int] matches MdEventV::Html(_)));
                    }
                    lemma_html_run_exact(tail, (j - i) as nat);
                    assert(html_run(tail) == (j - i) as nat);
                }
                let cleaned = clean_html(block.as_str());
                let ghost body0 = body@;
                body.append(cleaned.as_str());
                proof {
                    let k = html_run(tail);
                    let st1 = ExtState { body: cur.body + clean_of(html_text(tail, k)), ..cur };
                    assert(run(cur, tail, tv, bv, pv, max_depth) == run(
                        st1,
                        tail.skip(k as int),
                        tv,
                        bv,
                        pv,
                        max_depth,
                    ));
                    assert(tail.skip(k as int) =~= evsv.skip(j as int));
                    assert(st_of(
                        in_heading,
                        opt_view(section_id),
                        heading@,
                        body@,
                        crumbs_view(crumbs@),
                        notes.deep_view(),
                        pending@,
                        sections_view(out@),
                    ) =~= st1);
                }
                i = j;
            },
            MdEvent::HeadingStart(d) => {
                let d = *d;
                if d <= max_depth {
                    if !heading.as_str().is_empty() {
                        push_section(
                            &mut out,
                            title,
                            anchor_base,
                            &section_id,
                            &pending,
                            &heading,
                            &body,
                        );
                        section_id = None;
                        heading = String::new();
                        body = String::new();
                        proof {
                            assert(emit(
                                st_of(
                                    false,
                                    cur.section_id,
                                    cur.heading,
                                    cur.body,
                                    Seq::empty(),
                                    Seq::empty(),
                                    cur.pending_crumb,
                                    Seq::empty(),
                                ),
                                tv,
                                bv,
                            ) =~= emit(cur, tv, bv));
                        }
                    }
                    in_heading = true;
                    proof {
                        assert(st_of(
                            in_heading,
                            opt_view(section_id),
                            heading@,
                            body@,
                            crumbs_view(crumbs@),
                            notes.deep_view(),
                            pending@,
                            sections_view(out@),
                        ) =~= step(cur, evsv[i as int], tv, bv, pv, max_depth));
                    }
                } else {
                    if in_heading {
                        heading.append(" ");
                    } else {
                        body.append(" ");
                    }
                    proof {
                        reveal_strlit(" ");
                        assert(" "@ =~= seq![' ']);
                        assert(st_of(
                            in_heading,
                            opt_view(section_id),
                            heading@,
                            body@,
                            crumbs_view(crumbs@),
                            notes.deep_view(),
                            pending@,
                            sections_view(out@),
                        ) =~= step(cur, evsv[i as int], tv, bv, pv, max_depth));
                    }
                }
                i += 1;
            },
            MdEvent::HeadingEnd(d) => {
                let d = *d;
                if d <= max_depth {
                    in_heading = false;
                    let ghost c0 = crumbs_view(crumbs@);
                    while crumbs.len() > 0 && crumbs[crumbs.len() - 1].0 >= d
                        invariant
                            keep_below(c0, d) == keep_below(crumbs_view(crumbs@), d),
                        decreases crumbs@.len(),
                    {
                        proof {
                            let cv = crumbs_view(crumbs@);
                            assert(cv.last() == (
                                crumbs@.last().0,
                                crumbs@.last().1@,
                            ));
                            assert(cv.drop_last() =~= crumbs_view(crumbs@.drop_last()));
                        }
                        crumbs.pop();
                    }
                    proof {
                        let cv = crumbs_view(crumbs@);
                        if crumbs@.len() > 0 {
                            assert(cv.last() == (crumbs@.last().0, crumbs@.last().1@));
                        }
                        assert(keep_below(c0, d) == cv);
                    }
                    // breadcrumb trail for the section this heading opens
                    let mut all: Vec<String> = Vec::new();
                    let mut a: usize = 0;
                    proof {
                        assert(all.deep_view() =~= pv.take(0));
                    }
                    while a < parents.len()
                        invariant
                            pv == parents.deep_view(),
                            pv.len() == parents@.len(),
                            a <= parents@.len(),
                            all.deep_view() == pv.take(a as int),
                        decreases parents@.len() - a,
                    {
                        let ghost all0 = all@;
                        let ghost dv0 = all.deep_view();
                        all.push(parents[a].clone());
                        proof {
                            assert(all@ =~= all0.push(parents@[a as int]));
                            assert(dv0.len() == all0.len());
                            assert(all0.len() == a as int);
                            assert forall|j: int| 0 <= j < all@.len() implies all.deep_view()[j]
                                == pv.take(a as int + 1)[j] by {
                                if j < a as int {
                                    assert(all@[j] == all0[j]);
                                    assert(dv0[j] == pv.take(a as int)[j]);
                                } else {
                                    assert(all@[j] == parents@[a as int]);
                                }
                            }
                            assert(all.deep_view() =~= pv.take(a as int + 1));
                        }
                        a += 1;
                    }
                    proof {
                        assert(pv.take(pv.len() as int) =~= pv);
                    }
                    let mut c: usize = 0;
                    while c < crumbs.len()
                        invariant
                            pv == parents.deep_view(),
                            c <= crumbs@.len(),
                            all.deep_view() == pv + crumb_texts(
                                crumbs_view(crumbs@),
                            ).take(c as int),
                        decreases crumbs@.len() - c,
                    {
                        let ghost all0 = all@;
                        let ghost dv0 = all.deep_view();
                        let ghost ct = crumb_texts(crumbs_view(crumbs@));
                        all.push(crumbs[c].1.clone());
                        proof {
                            assert(all@ =~= all0.push(crumbs@[c as int].1));
                            assert(dv0.len() == all0.len());
                            assert(ct[c as int] == crumbs@[c as int].1@);
                            assert forall|j: int| 0 <= j < all@.len() implies all.deep_view()[j]
                                == (pv + ct.take(c as int + 1))[j] by {
                                if j < dv0.len() {
                                    assert(all@[j] == all0[j]);
                                    assert(dv0[j] == (pv + ct.take(c as int))[j]);
                                } else {
                                    assert(all@[j] == crumbs@[c as int].1);
                                }
                            }
                            assert(all.deep_view() =~= pv + ct.take(c as int + 1));
                        }
                        c += 1;
                    }
                    proof {
                        let ct = crumb_texts(crumbs_view(crumbs@));
                        assert(ct.take(ct.len() as int) =~= ct);
                    }
                    pending = join_strings(&all, " » ");
                    let sid = id_from_content(heading.as_str());
                    section_id = Some(sid);
                    let ghost kept = crumbs_view(crumbs@);
                    crumbs.push((d, heading.clone()));
                    proof {
                        assert(crumbs_view(crumbs@) =~= kept.push((d, heading@)));
                        assert(st_of(
                            in_heading,
                            opt_view(section_id),
                            heading@,
                            body@,
                            crumbs_view(crumbs@),
                            notes.deep_view(),
                            pending@,
                            sections_view(out@),
                        ) =~= step(cur, evsv[i as int], tv, bv, pv, max_depth));
                    }
                } else {
                    if in_heading {
                        heading.append(" ");
                    } else {
                        body.append(" ");
                    }
                    proof {
                        reveal_strlit(" ");
                        assert(" "@ =~= seq![' ']);
                        assert(st_of(
                            in_heading,
                            opt_view(section_id),
                            heading@,
                            body@,
                            crumbs_view(crumbs@),
                            notes.deep_view(),
                            pending@,
                            sections_view(out@),
                        ) =~= step(cur, evsv[i as int], tv, bv, pv, max_depth));
                    }
                }
                i += 1;
            },
            MdEvent::Text(t) => {
                if in_heading {
                    heading.append(t.as_str());
                } else {
                    body.append(t.as_str());
                }
                proof {
                    assert(st_of(
                        in_heading,
                        opt_view(section_id),
                        heading@,
                        body@,
                        crumbs_view(crumbs@),
                        notes.deep_view(),
                        pending@,
                        sections_view(out@),
                    ) =~= step(cur, evsv[i as int], tv, bv, pv, max_depth));
                }
                i += 1;
            },
            MdEvent::FootnoteDef(name) => {
                if find_note(&notes, name).is_none() {
                    let ghost n0 = notes.deep_view();
                    notes.push(name.clone());
                    proof {
                        assert(notes.deep_view() =~= n0.push(name@));
                    }
                }
                proof {
                    assert(st_of(
                        in_heading,
                        opt_view(section_id),
                        heading@,
                        body@,
                        crumbs_view(crumbs@),
                        notes.deep_view(),
                        pending@,
                        sections_view(out@),
                    ) =~= step(cur, evsv[i as int], tv, bv, pv, max_depth));
                }
                i += 1;
            },
            MdEvent::FootnoteRef(name) => {
                let num: u128 = match find_note(&notes, name) {
                    Some(idx) => idx as u128 + 1,
                    None => {
                        let ghost n0 = notes.deep_view();
                        notes.push(name.clone());
                        proof {
                            assert(notes.deep_view() =~= n0.push(name@));
                        }
                        notes.len() as u128
                    },
                };
                let ds = dec_string(num);
                let ghost body0 = body@;
                body.append(" [");
                body.append(ds.as_str());
                body.append("] ");
                proof {
                    reveal_strlit(" [");
                    reveal_strlit("] ");
                    assert(" ["@ =~= seq![' ', '[']);
                    assert("] "@ =~= seq![']', ' ']);
                    assert(body@ =~= body0 + note_text(num as nat));
                    assert(st_of(
                        in_heading,
                        opt_view(section_id),
                        heading@,
                        body@,
                        crumbs_view(crumbs@),
                        notes.deep_view(),
                        pending@,
                        sections_view(out@),
                    ) =~= step(cur, evsv[i as int], tv, bv, pv, max_depth));
                }
                i += 1;
            },
            MdEvent::Break => {
                if in_heading {
                    heading.append(" ");
                } else {
                    body.append(" ");
                }
                proof {
                    reveal_strlit(" ");
                    assert(" "@ =~= seq![' ']);
                    assert(st_of(
                        in_heading,
                        opt_view(section_id),
                        heading@,
                        body@,
                        crumbs_view(crumbs@),
                        notes.deep_view(),
                        pending@,
                        sections_view(out@),
                    ) =~= step(cur, evsv[i as int], tv, bv, pv, max_depth));
                }
                i += 1;
            },
            MdEvent::Skip => {
                proof {
                    assert(st_of(
                        in_heading,
                        opt_view(section_id),
                        heading@,
                        body@,
                        crumbs_view(crumbs@),
                        notes.deep_view(),
                        pending@,
                        sections_view(out@),
                    ) =~= step(cur, evsv[i as int], tv, bv, pv, max_depth));
                }
                i += 1;
            },
        }
    }
    proof {
        assert(evsv.skip(n as int) =~= Seq::<MdEventV>::empty());
    }
    if !heading.as_str().is_empty() {
        let ghost cur = st_of(
            in_heading,
            opt_view(section_id),
            heading@,
            body@,
            crumbs_view(crumbs@),
            notes.deep_view(),
            pending@,
            sections_view(out@),
        );
        push_section(&mut out, title, anchor_base, &section_id, &pending, &heading, &body);
        proof {
            assert(emit(
                st_of(
                    false,
                    cur.section_id,
                    cur.heading,
                    cur.body,
                    Seq::empty(),
                    Seq::empty(),
                    cur.pending_crumb,
                    Seq::empty(),
                ),
                tv,
                bv,
            ) =~= emit(cur, tv, bv));
        }
    }
    out
}

/// Backslashes normalized to forward slashes.
pub open spec fn spec_slashes(s: Seq<char>) -> Seq<char> {
    s.map_values(|c: char| if c == '\\' { '/' } else { c })
}

/// The position of the last occurrence of `c`, or none.
pub open spec fn last_index_of(s: Seq<char>, c: char) -> int
    decreases s.len(),
{
    if s.len() == 0 {
        -1
    } else if s.last() == c {
        s.len() - 1
    } else {
        last_index_of(s.drop_last(), c)
    }
}

/// The anchor base a source path yields: slashes normalized, the final
/// component's extension replaced by `html` (appended if there is none).
pub open spec fn spec_anchor_base(path: Seq<char>) -> Seq<char> {
    let n = spec_slashes(path);
    let dot = last_index_of(n, '.');
    let slash = last_index_of(n, '/');
    if dot > slash {
        n.take(dot) + ".html"@
    } else {
        n + ".html"@
    }
}

fn rfind_char(cv: &Vec<char>, c: char) -> (r: Option<usize>)
    ensures
        match r {
            Some(k) => k < cv@.len() && last_index_of(cv@, c) == k as int,
            None => last_index_of(cv@, c) == -1,
        },
{
    let n = cv.len();
    let mut k = n;
    proof {
        assert(cv@.take(n as int) =~= cv@);
    }
    while k > 0
        invariant
            k <= n == cv@.len(),
            last_index_of(cv@, c) == last_index_of(cv@.take(k as int), c),
        decreases k,
    {
        if cv[k - 1] == c {
            proof {
                assert(cv@.take(k as int).last() == cv@[k as int - 1]);
            }
            return Some(k - 1);
        }
        proof {
            assert(cv@.take(k as int).last() == cv@[k as int - 1]);
            assert(cv@.take(k as int).drop_last() =~= cv@.take(k as int - 1));
        }
        k -= 1;
    }
    proof {
        assert(cv@.take(0) =~= Seq::<char>::empty());
    }
    None
}

/// The anchor base for a document's source path.
pub fn html_anchor_base(path: &str) -> (r: String)
    ensures
        r@ == spec_anchor_base(path@),
{
    let cv = chars_vec(path);
    let n = cv.len();
    let mut norm: Vec<char> = Vec::new();
    let mut i: usize = 0;
    while i < n
        invariant
            n == cv@.len(),
            cv@ == path@,
            i <= n,
            norm@ == spec_slashes(path@).take(i as int),
        decreases n - i,
    {
        let c = cv[i];
        if c == '\\' {
            norm.push('/');
        } else {
            norm.push(c);
        }
        proof {
            assert(spec_slashes(path@)[i as int] == (if path@[i as int] == '\\' {
                '/'
            } else {
                path@[i as int]
            }));
            assert(norm@ =~= spec_slashes(path@).take(i as int + 1));
        }
        i += 1;
    }
    proof {
        assert(spec_slashes(path@).len() == n);
        assert(spec_slashes(path@).take(n as int) =~= spec_slashes(path@));
    }
    let dot = rfind_char(&norm, '.');
    let slash = rfind_char(&norm, '/');
    let keep: usize = match (dot, slash) {
        (Some(d), Some(sl)) => if d > sl {
            d
        } else {
            n
        },
        (Some(d), None) => d,
        (None, _) => n,
    };
    proof {
        if keep < n {
            assert(keep as int == last_index_of(spec_slashes(path@), '.'));
        }
    }
    let mut stem: Vec<char> = Vec::new();
    let mut j: usize = 0;
    while j < keep
        invariant
            keep <= n == norm@.len(),
            norm@ == spec_slashes(path@),
            j <= keep,
            stem@ == norm@.take(j as int),
        decreases keep - j,
    {
        stem.push(norm[j]);
        proof {
            assert(stem@ =~= norm@.take(j as int + 1));
        }
        j += 1;
    }
    let mut out = crate::text::string_from_chars(&stem);
    out.append(".html");
    proof {
        reveal_strlit(".html");
        if keep < n {
            assert(out@ =~= spec_slashes(path@).take(keep as int) + ".html"@);
        } else {
            assert(norm@.take(n as int) =~= norm@);
            assert(out@ =~= spec_slashes(path@) + ".html"@);
        }
    }
    out
}

/// One source document as the build walks it: its display title, its
/// source path (the input contract demands one for anything that is not a
/// draft), the ancestor names that seed the breadcrumb trail, the raw
/// markdown content, and the draft flag.
pub struct Document {
    pub title: String,
    pub source_path: Option<String>,
    pub parent_names: Vec<String>,
    pub content: String,
    pub is_draft: bool,
}

/// The sections of one document, in document order.  A draft yields no
/// sections; a missing source path on a non-draft breaks the input
/// contract and fails the build.
pub fn document_sections(doc: &Document, max_depth: u32) -> (r: Result<
    Vec<Section>,
    IndexBuildError,
>)
    ensures
        doc.is_draft ==> (r matches Ok(ss) && ss@.len() == 0),
        !doc.is_draft ==> match doc.source_path {
            Some(p) => (r matches Ok(ss) && sections_view(ss@) == spec_extract(
                events_of(doc.content@),
                doc.title@,
                spec_anchor_base(p@),
                doc.parent_names.deep_view(),
                max_depth,
            )),
            None => (r matches Err(e) && e == IndexBuildError::MissingSourcePath),
        },
{
    if doc.is_draft {
        return Ok(Vec::new());
    }
    let path = match &doc.source_path {
        Some(p) => p,
        None => {
            return Err(IndexBuildError::MissingSourcePath);
        },
    };
    let base = html_anchor_base(path.as_str());
    let events = document_events(doc.content.as_str());
    let sections = extract_sections(
        &events,
        doc.title.as_str(),
        base.as_str(),
        &doc.parent_names,
        max_depth,
    );
    Ok(sections)
}

proof fn lemma_html_text_snoc(evs: Seq<MdEventV>, m: nat)
    requires
        m < evs.len(),
    ensures
        html_text(evs, m + 1) == html_text(evs, m) + html_content(evs[m as int]),
    decreases m,
{
    if m == 0 {
        assert(html_text(evs, 1) =~= html_content(evs[0]) + html_text(evs.drop_first(), 0));
        assert(html_text(evs, 0) + html_content(evs[0]) =~= html_content(evs[0]));
    } else {
        lemma_html_text_snoc(evs.drop_first(), (m - 1) as nat);
        assert(evs.drop_first()[m - 1] == evs[m as int]);
        assert((html_content(evs[0]) + html_text(evs.drop_first(), (m - 1) as nat)) + html_content(
            evs[m as int],
        ) =~= html_content(evs[0]) + (html_text(evs.drop_first(), (m - 1) as nat) + html_content(
            evs[m as int],
        )));
    }
}

proof fn lemma_html_run_ge(evs: Seq<MdEventV>, k: nat)
    requires
        k <= evs.len(),
        forall|m: int| 0 <= m < k ==> (#[trigger] evs[m] matches MdEventV::Html(_)),
    ensures
        html_run(evs) >= k,
    decreases k,
{
    if k > 0 {
        assert(evs[0] matches MdEventV::Html(_));
        assert(forall|m: int|
            0 <= m < k - 1 ==> (#[trigger] evs.drop_first()[m] == evs[m + 1]));
        lemma_html_run_ge(evs.drop_first(), (k - 1) as nat);
    }
}

proof fn lemma_html_run_exact(evs: Seq<MdEventV>, k: nat)
    requires
        k <= evs.len(),
        forall|m: int| 0 <= m < k ==> (#[trigger] evs[m] matches MdEventV::Html(_)),
        k == evs.len() || !(evs[k as int] matches MdEventV::Html(_)),
    ensures
        html_run(evs) == k,
    decreases k,
{
    if k == 0 {
    } else {
        assert(evs[0] matches MdEventV::Html(_));
        assert(forall|m: int|
            0 <= m < k - 1 ==> (#[trigger] evs.drop_first()[m] == evs[m + 1]));
        if k < evs.len() {
            assert(evs.drop_first()[k - 1] == evs[k as int]);
        }
        lemma_html_run_exact(evs.drop_first(), (k - 1) as nat);
    }
}

} // verus!
