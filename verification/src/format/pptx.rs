//! PowerPoint presentations: the text of each slide.
use vstd::prelude::*;
use crate::format::archive::{opt_string, read_zip_entry, zip_entry_names, zip_entry_text, zip_names, EntryText, EntryTextView};
use crate::format::contains_chars;
use crate::format::image::has_prefix;
use crate::format::occurs_in;
use crate::format::pdf::{to_lowercase, unicode_lowercase};
use crate::format::rtf::narrative_blocks;
use crate::format::text::{
    event_views, local_name, local_name_of, read_xml_events, xml_reader_events, XmlEvent, XmlEventView,
};
use crate::model::{block_views, plain_block, Block, BlockView, ElementType};
use crate::strings::{
    all_digits, chars_of, chars_start_with, digits_value, is_ascii_digit, is_digit_spec, starts_with,
    string_of, trim_chars, trim_spec,
};
use crate::{Error, ErrorView};

verus! {

/// PowerPoint presentations.
pub struct PptxParser;

/// Whether `s` ends with `p`.
pub open spec fn ends_with(s: Seq<char>, p: Seq<char>) -> bool {
    p.len() <= s.len() && s.skip(s.len() - p.len()) == p
}

/// Whether an archive entry holds a slide: lower-cased, its name starts with
/// `ppt/slides/slide`, ends with `.xml` and does not mention `layout`.
pub open spec fn is_slide_name(name: Seq<char>) -> bool {
    let l = unicode_lowercase(name);
    starts_with(l, "ppt/slides/slide"@) && ends_with(l, ".xml"@) && !occurs_in(l, "layout"@)
}

/// Whether an archive entry holds a slide.
pub fn is_slide_file(name: &str) -> (b: bool)
    ensures
        b == is_slide_name(name@),
{
    let lower = chars_of(to_lowercase(name).as_str());
    let prefix = chars_of("ppt/slides/slide");
    let suffix = chars_of(".xml");
    let layout = chars_of("layout");
    if !chars_start_with(lower.as_slice(), prefix.as_slice()) {
        return false;
    }
    if suffix.len() > lower.len() {
        return false;
    }
    let mut k: usize = 0;
    let n = lower.len();
    let off = n - suffix.len();
    while k < suffix.len()
        invariant
            n == lower@.len(),
            suffix@.len() <= n,
            off == lower@.len() - suffix@.len(),
            suffix@ == ".xml"@,
            lower@ == unicode_lowercase(name@),
            starts_with(lower@, "ppt/slides/slide"@),
            k <= suffix@.len(),
            forall|j: int| 0 <= j < k ==> lower@[off + j] == suffix@[j],
        decreases suffix@.len() - k,
    {
        if lower[off + k] != suffix[k] {
            assert(lower@.skip(off as int)[k as int] != suffix@[k as int]);
            assert(lower@.skip(off as int) != suffix@);
            assert(!ends_with(lower@, ".xml"@));
            return false;
        }
        k += 1;
    }
    assert(lower@.skip(off as int) =~= suffix@);
    !contains_chars(&lower, &layout)
}

/// The ASCII digits that open `s`.
pub open spec fn digit_prefix(s: Seq<char>) -> Seq<char>
    decreases s.len(),
{
    if s.len() > 0 && is_digit_spec(s[0]) { seq![s[0]] + digit_prefix(s.drop_first()) } else { seq![] }
}

/// The last position of `p` in `s` at or before `i`.
pub open spec fn find_last_from(s: Seq<char>, p: Seq<char>, i: int) -> Option<int>
    decreases i + 1,
{
    if i < 0 {
        None
    } else if i + p.len() <= s.len() && s.subrange(i, i + p.len()) == p {
        Some(i)
    } else {
        find_last_from(s, p, i - 1)
    }
}

/// The number of a slide entry such as `ppt/slides/slide12.xml`: the digits
/// right after the last `slide` of the lower-cased name, or 0 when there are
/// none or they do not fit a `u32`.
pub open spec fn slide_number(name: Seq<char>) -> u32 {
    let l = unicode_lowercase(name);
    match find_last_from(l, "slide"@, l.len() as int) {
        Some(start) => {
            let d = digit_prefix(l.skip(start + 5));
            if d.len() > 0 && digits_value(d) <= u32::MAX { digits_value(d) as u32 } else { 0 }
        },
        None => 0,
    }
}

/// The last position of `p` in `s`.
fn find_last_chars(s: &Vec<char>, p: &Vec<char>) -> (r: Option<usize>)
    ensures
        match r {
            Some(i) => find_last_from(s@, p@, s@.len() as int) == Some(i as int) && i + p@.len() <= s@.len(),
            None => find_last_from(s@, p@, s@.len() as int) is None,
        },
{
    let n = s.len();
    let mut i: usize = n;
    loop
        invariant
            n == s@.len(),
            i <= n,
            find_last_from(s@, p@, n as int) == find_last_from(s@, p@, i as int),
        decreases i,
    {
        if p.len() <= n - i && crate::format::matches_at(s, p, i) {
            return Some(i);
        }
        if i == 0 {
            return None;
        }
        i -= 1;
    }
}

/// The number of a slide entry.
pub fn extract_slide_number(name: &str) -> (n: u32)
    ensures
        n == slide_number(name@),
{
    let lower = chars_of(to_lowercase(name).as_str());
    let key = chars_of("slide");
    proof {
        reveal_strlit("slide");
    }
    match find_last_chars(&lower, &key) {
        Some(start) => {
            let n = lower.len();
            let mut k: usize = start + 5;
            let ghost rest = lower@.skip(start + 5);
            let mut v: u64 = 0;
            let mut fits = true;
            assert(lower@.skip(k as int) =~= rest);
            assert(rest.take(0) =~= seq![]);
            while k < n && is_ascii_digit(lower[k])
                invariant
                    n == lower@.len(),
                    start + 5 <= k <= lower@.len(),
                    rest == lower@.skip(start + 5),
                    digit_prefix(rest) == rest.take(k - start - 5) + digit_prefix(lower@.skip(k as int)),
                    all_digits(rest.take(k - start - 5)),
                    fits ==> v == digits_value(rest.take(k - start - 5)) && v <= u32::MAX,
                    !fits ==> digits_value(rest.take(k - start - 5)) > u32::MAX,
                decreases lower@.len() - k,
            {
                let c = lower[k];
                let ghost done = rest.take(k - start - 5);
                assert(digit_prefix(lower@.skip(k as int)) =~= seq![c] + digit_prefix(lower@.skip(k + 1))) by {
                    assert(lower@.skip(k as int).drop_first() =~= lower@.skip(k + 1));
                };
                assert(done + (seq![c] + digit_prefix(lower@.skip(k + 1))) =~= done.push(c) + digit_prefix(lower@.skip(k + 1)));
                assert(rest.take(k + 1 - start - 5) =~= done.push(c));
                assert(lower@.skip(k as int) =~= seq![c] + lower@.skip(k + 1));
                assert(digits_value(done.push(c)) == digits_value(done) * 10 + (c as u32 - '0' as u32) as nat) by {
                    assert(done.push(c).drop_last() =~= done);
                };
                if fits {
                    let nv = v * 10 + (c as u32 - '0' as u32) as u64;
                    if nv > 0xFFFF_FFFF {
                        fits = false;
                    } else {
                        v = nv;
                    }
                } else {
                    assert(digits_value(done) * 10 >= digits_value(done)) by (nonlinear_arith);
                }
                k += 1;
            }
            assert(digit_prefix(lower@.skip(k as int)) =~= seq![]);
            assert(digit_prefix(rest) =~= rest.take(k - start - 5));
            if k > start + 5 && fits {
                v as u32
            } else {
                0
            }
        },
        None => 0,
    }
}


/// The state of the slide text reader: the paragraphs so far, the paragraph
/// being read, and whether a text run (`a:t`) is open.
#[verifier::ext_equal]
pub struct SlideStateView {
    pub paras: Seq<Seq<char>>,
    pub cur: Seq<char>,
    pub in_t: bool,
}

/// Whether a qualified element name is in the `a:` namespace prefix.
pub open spec fn is_drawing_name(q: Seq<u8>) -> bool {
    has_prefix(q, seq![0x61u8, 0x3Au8])
}

/// The state after one event: `a:p` opens and closes paragraphs, `a:t` text
/// runs; runs of a paragraph are joined with a space; a closed paragraph is
/// kept, trimmed, when not blank.
pub open spec fn slide_event(st: SlideStateView, e: XmlEventView) -> SlideStateView {
    match e {
        XmlEventView::Open(q, _, empty) => {
            if empty {
                st
            } else {
                let l = local_name(q);
                let s1 = if l == seq![0x70u8] && is_drawing_name(q) { SlideStateView { cur: seq![], ..st } } else { st };
                if l == seq![0x74u8] && is_drawing_name(q) { SlideStateView { in_t: true, ..s1 } } else { s1 }
            }
        },
        XmlEventView::Text(t) => {
            if st.in_t {
                SlideStateView {
                    cur: if st.cur.len() > 0 && t.len() > 0 { st.cur.push(' ') + t } else { st.cur + t },
                    ..st
                }
            } else {
                st
            }
        },
        XmlEventView::CData(_) => st,
        XmlEventView::End(q) => {
            let l = local_name(q);
            let s1 = if l == seq![0x74u8] && is_drawing_name(q) { SlideStateView { in_t: false, ..st } } else { st };
            if l == seq![0x70u8] && is_drawing_name(q) {
                let tr = trim_spec(s1.cur);
                SlideStateView { paras: if tr.len() > 0 { s1.paras.push(tr) } else { s1.paras }, cur: seq![], ..s1 }
            } else {
                s1
            }
        },
    }
}

/// The state after the first `k` events.
pub open spec fn slide_events(evs: Seq<XmlEventView>, k: int) -> SlideStateView
    decreases k,
{
    if k <= 0 {
        SlideStateView { paras: seq![], cur: seq![], in_t: false }
    } else {
        slide_event(slide_events(evs, k - 1), evs[k - 1])
    }
}

/// The paragraphs of a slide's XML, or the message of the reader's error.
pub open spec fn slide_paragraphs(xml: Seq<char>) -> Result<Seq<Seq<char>>, Seq<char>> {
    match xml_reader_events(xml) {
        Ok(evs) => Ok(slide_events(evs, evs.len() as int).paras),
        Err(m) => Err("PPTX XML error: "@ + m),
    }
}

struct SlideState {
    paras: Vec<Vec<char>>,
    cur: Vec<char>,
    in_t: bool,
}

impl View for SlideState {
    type V = SlideStateView;

    closed spec fn view(&self) -> SlideStateView {
        SlideStateView { paras: crate::strings::views_of(self.paras@), cur: self.cur@, in_t: self.in_t }
    }
}

/// Whether a name's bytes are exactly `b`.
fn name_is(n: &Vec<u8>, b: u8) -> (r: bool)
    ensures
        r == (n@ == seq![b]),
{
    if n.len() != 1 {
        return false;
    }
    assert(n@ =~= seq![n@[0]]);
    n[0] == b
}

/// Whether a qualified name has the `a:` prefix.
fn drawing_name(q: &Vec<u8>) -> (r: bool)
    ensures
        r == is_drawing_name(q@),
{
    let p: [u8; 2] = [0x61, 0x3A];
    assert(p@ =~= seq![0x61u8, 0x3Au8]);
    crate::format::image::bytes_start_with(q.as_slice(), &p)
}

fn slide_step(st: &mut SlideState, e: &XmlEvent)
    ensures
        final(st)@ == slide_event(old(st)@, e@),
{
    match e {
        XmlEvent::Open(q, _, empty) => {
            if !*empty {
                let a = drawing_name(q);
                let l = local_name_of(q);
                if name_is(&l, 0x70) && a {
                    st.cur = Vec::new();
                }
                if name_is(&l, 0x74) && a {
                    st.in_t = true;
                }
            }
            assert(st@ =~= slide_event(old(st)@, e@));
        },
        XmlEvent::Text(t) => {
            if st.in_t {
                let tc = chars_of(t.as_str());
                if st.cur.len() > 0 && tc.len() > 0 {
                    st.cur.push(' ');
                }
                let ghost base = st.cur@;
                let mut k: usize = 0;
                while k < tc.len()
                    invariant
                        k <= tc@.len(),
                        st.cur@ == base + tc@.take(k as int),
                        st.paras@ == old(st).paras@,
                        st.in_t == old(st).in_t,
                    decreases tc@.len() - k,
                {
                    st.cur.push(tc[k]);
                    k += 1;
                    assert(st.cur@ =~= base + tc@.take(k as int));
                }
                assert(tc@.take(tc@.len() as int) =~= tc@);
                assert(st@ =~= slide_event(old(st)@, e@));
            }
        },
        XmlEvent::CData(_) => {},
        XmlEvent::End(q) => {
            let a = drawing_name(q);
            let l = local_name_of(q);
            if name_is(&l, 0x74) && a {
                st.in_t = false;
            }
            if name_is(&l, 0x70) && a {
                let tr = trim_chars(st.cur.as_slice());
                if tr.len() > 0 {
                    let ghost before = crate::strings::views_of(st.paras@);
                    st.paras.push(tr);
                    assert(crate::strings::views_of(st.paras@) =~= before.push(trim_spec(old(st).cur@)));
                }
                st.cur = Vec::new();
            }
            assert(st@ =~= slide_event(old(st)@, e@));
        },
    }
}

/// The paragraphs of a slide's XML.
pub fn extract_paragraphs(xml: &str) -> (r: Result<Vec<String>, Error>)
    ensures
        match slide_paragraphs(xml@) {
            Ok(ps) => r matches Ok(v) && v.deep_view() == ps,
            Err(m) => r matches Err(Error::Parse(pm)) && pm@ == m,
        },
{
    let evs = match read_xml_events(xml) {
        Ok(evs) => evs,
        Err(m) => return Err(Error::Parse(String::from_str("PPTX XML error: ").concat(m.as_str()))),
    };
    let ghost ev = event_views(evs@);
    let mut st = SlideState { paras: Vec::new(), cur: Vec::new(), in_t: false };
    assert(st@ =~= slide_events(ev, 0));
    let mut k: usize = 0;
    while k < evs.len()
        invariant
            k <= evs@.len(),
            ev == event_views(evs@),
            st@ == slide_events(ev, k as int),
        decreases evs@.len() - k,
    {
        slide_step(&mut st, &evs[k]);
        k += 1;
    }
    let ghost ps = st@.paras;
    let mut out: Vec<String> = Vec::new();
    let mut i: usize = 0;
    while i < st.paras.len()
        invariant
            i <= st.paras@.len(),
            ps == crate::strings::views_of(st.paras@),
            out.deep_view() == ps.take(i as int),
        decreases st.paras@.len() - i,
    {
        let ghost before = out.deep_view();
        out.push(string_of(st.paras[i].as_slice()));
        assert(out.deep_view() =~= before.push(ps[i as int]));
        i += 1;
        assert(ps.take(i as int) =~= ps.take(i - 1).push(ps[i - 1]));
    }
    assert(ps.take(i as int) =~= ps);
    Ok(out)
}


/// Inserts a slide name after every name of the sorted list whose number is not larger.
pub open spec fn insert_by_number(s: Seq<Seq<char>>, x: Seq<char>) -> Seq<Seq<char>>
    decreases s.len(),
{
    if s.len() == 0 {
        seq![x]
    } else if slide_number(s.last()) <= slide_number(x) {
        s.push(x)
    } else {
        insert_by_number(s.drop_last(), x).push(s.last())
    }
}

/// Slide names in order of their number; names of equal number keep their order.
pub open spec fn sort_by_number(s: Seq<Seq<char>>) -> Seq<Seq<char>>
    decreases s.len(),
{
    if s.len() == 0 { seq![] } else { insert_by_number(sort_by_number(s.drop_last()), s.last()) }
}

/// Where `insert_by_number` puts a name of number `k`.
pub open spec fn insert_pos(s: Seq<Seq<char>>, k: u32) -> int
    decreases s.len(),
{
    if s.len() == 0 {
        0
    } else if slide_number(s.last()) <= k {
        s.len() as int
    } else {
        insert_pos(s.drop_last(), k)
    }
}

proof fn lemma_insert_by_number(s: Seq<Seq<char>>, x: Seq<char>)
    ensures
        0 <= insert_pos(s, slide_number(x)) <= s.len(),
        insert_by_number(s, x) == s.take(insert_pos(s, slide_number(x))).push(x) + s.skip(insert_pos(s, slide_number(x))),
        forall|j: int| insert_pos(s, slide_number(x)) <= j < s.len() ==> slide_number(#[trigger] s[j]) > slide_number(x),
    decreases s.len(),
{
    let p = insert_pos(s, slide_number(x));
    if s.len() == 0 {
        assert(s.take(0).push(x) + s.skip(0) =~= seq![x]);
    } else if slide_number(s.last()) <= slide_number(x) {
        assert(s.take(s.len() as int).push(x) + s.skip(s.len() as int) =~= s.push(x));
    } else {
        lemma_insert_by_number(s.drop_last(), x);
        let d = s.drop_last();
        assert(insert_by_number(s, x) =~= s.take(p).push(x) + s.skip(p));
        assert forall|j: int| p <= j < s.len() implies slide_number(#[trigger] s[j]) > slide_number(x) by {
            if j < s.len() - 1 {
                assert(s[j] == d[j]);
            }
        }
    }
}

/// The slide entries of an archive's names, in order of their number.
pub open spec fn slide_entries(names: Seq<Option<Seq<char>>>) -> Seq<Seq<char>>
    decreases names.len(),
{
    if names.len() == 0 {
        seq![]
    } else {
        let before = slide_entries(names.drop_last());
        match names.last() {
            Some(n) => if is_slide_name(n) { before.push(n) } else { before },
            None => before,
        }
    }
}

/// Orders slide names by their number, keeping the order of names of equal number.
fn order_slides(names: Vec<String>) -> (r: Vec<String>)
    ensures
        r.deep_view() == sort_by_number(names.deep_view()),
{
    let ghost all = names.deep_view();
    let mut out: Vec<String> = Vec::new();
    let mut keys: Vec<u32> = Vec::new();
    let mut i: usize = 0;
    while i < names.len()
        invariant
            i <= names@.len(),
            all == names.deep_view(),
            out.deep_view() == sort_by_number(all.take(i as int)),
            keys@.len() == out@.len(),
            forall|j: int| 0 <= j < keys@.len() ==> keys@[j] == slide_number(#[trigger] out.deep_view()[j]),
        decreases names@.len() - i,
    {
        let x = names[i].clone();
        let kx = extract_slide_number(x.as_str());
        let ghost s = out.deep_view();
        proof {
            lemma_insert_by_number(s, x@);
            assert(all.take(i + 1).drop_last() =~= all.take(i as int));
        }
        let mut pos: usize = out.len();
        assert(s.take(pos as int) =~= s);
        while pos > 0 && keys[pos - 1] > kx
            invariant
                pos <= out@.len(),
                keys@.len() == out@.len(),
                s == out.deep_view(),
                kx == slide_number(x@),
                forall|j: int| 0 <= j < keys@.len() ==> keys@[j] == slide_number(#[trigger] out.deep_view()[j]),
                insert_pos(s, kx) == insert_pos(s.take(pos as int), kx),
            decreases pos,
        {
            assert(s.take(pos as int).drop_last() =~= s.take(pos - 1));
            pos -= 1;
        }
        proof {
            if pos > 0 {
                assert(s.take(pos as int).last() == s[pos - 1]);
            }
            assert(insert_pos(s.take(pos as int), kx) == pos);
        }
        let ghost before = out.deep_view();
        out.insert(pos, x);
        keys.insert(pos, kx);
        assert(out.deep_view() =~= before.take(pos as int).push(x@) + before.skip(pos as int));
        assert forall|j: int| 0 <= j < keys@.len() implies keys@[j] == slide_number(#[trigger] out.deep_view()[j]) by {
            if j < pos {
            } else if j == pos {
            } else {
                assert(out.deep_view()[j] == before[j - 1]);
            }
        }
        i += 1;
    }
    assert(all.take(i as int) =~= all);
    out
}

/// The blocks of a slide's paragraphs: the first non-empty one is the slide's
/// title, the others narrative text, all on the slide's page.
pub open spec fn slide_blocks(ps: Seq<Seq<char>>, page: u32) -> Seq<BlockView>
    decreases ps.len(),
{
    if ps.len() == 0 {
        seq![]
    } else {
        let before = slide_blocks(ps.drop_last(), page);
        let p = ps.last();
        if p.len() == 0 {
            before
        } else if before.len() == 0 {
            seq![plain_block(ElementType::Title, p, page)]
        } else {
            before.push(plain_block(ElementType::NarrativeText, p, page))
        }
    }
}

/// The page of the slide at position `k`: its position from one, wrapping at 2^32.
pub open spec fn slide_page(k: int) -> u32 {
    ((k + 1) % 0x1_0000_0000) as u32
}

/// The blocks of the slides `0..k`, or the first error.
pub open spec fn slides_result(bytes: Seq<u8>, slides: Seq<Seq<char>>, k: int) -> Result<Seq<BlockView>, ErrorView>
    decreases k,
{
    if k <= 0 {
        Ok(seq![])
    } else {
        match slides_result(bytes, slides, k - 1) {
            Err(e) => Err(e),
            Ok(before) => match zip_entry_text(bytes, slides[k - 1]) {
                EntryTextView::Missing(m) => Err(ErrorView::Parse(m)),
                EntryTextView::Unreadable(m) => Err(ErrorView::Io(m)),
                EntryTextView::Text(xml) => match slide_paragraphs(xml) {
                    Err(m) => Err(ErrorView::Parse(m)),
                    Ok(ps) => Ok(before + slide_blocks(ps, slide_page(k - 1))),
                },
            },
        }
    }
}


/// Once a slide fails, the presentation fails with that error.
proof fn lemma_slides_error_stays(bytes: Seq<u8>, slides: Seq<Seq<char>>, k: int, n: int)
    requires
        0 <= k <= n,
        slides_result(bytes, slides, k) is Err,
    ensures
        slides_result(bytes, slides, n) == slides_result(bytes, slides, k),
    decreases n - k,
{
    if n > k {
        lemma_slides_error_stays(bytes, slides, k, n - 1);
    }
}

/// What reading a presentation gives: the blocks of its slides in slide order,
/// or "Empty presentation" when they hold no text; the first error otherwise.
pub open spec fn pptx_result(bytes: Seq<u8>) -> Result<Seq<BlockView>, ErrorView> {
    match zip_entry_names(bytes) {
        Err(m) => Err(ErrorView::Parse(m)),
        Ok(names) => {
            let slides = sort_by_number(slide_entries(names));
            match slides_result(bytes, slides, slides.len() as int) {
                Err(e) => Err(e),
                Ok(bs) => Ok(
                    if bs.len() == 0 {
                        seq![plain_block(ElementType::NarrativeText, "Empty presentation"@, 1)]
                    } else {
                        bs
                    },
                ),
            }
        },
    }
}

/// The blocks of one slide's paragraphs.
fn slide_blocks_exec(ps: &Vec<String>, page: u32, out: &mut Vec<Block>)
    ensures
        block_views(final(out)@) == block_views(old(out)@) + slide_blocks(ps.deep_view(), page),
{
    let ghost start = block_views(out@);
    let ghost pv = ps.deep_view();
    let mut first = true;
    let mut i: usize = 0;
    assert(block_views(out@) =~= start + slide_blocks(pv.take(0), page));
    while i < ps.len()
        invariant
            i <= ps@.len(),
            pv == ps.deep_view(),
            block_views(out@) == start + slide_blocks(pv.take(i as int), page),
            first == (slide_blocks(pv.take(i as int), page).len() == 0),
        decreases ps@.len() - i,
    {
        assert(pv.take(i + 1).drop_last() =~= pv.take(i as int));
        let ghost before = block_views(out@);
        if ps[i].as_str().is_empty() {
        } else if first {
            out.push(Block::on_page(ElementType::Title, ps[i].clone(), page));
            assert(block_views(out@) =~= before.push(plain_block(ElementType::Title, pv[i as int], page)));
            first = false;
        } else {
            out.push(Block::on_page(ElementType::NarrativeText, ps[i].clone(), page));
            assert(block_views(out@) =~= before.push(plain_block(ElementType::NarrativeText, pv[i as int], page)));
        }
        proof {
            if !first && slide_blocks(pv.take(i as int), page).len() == 0 {
                assert(slide_blocks(pv.take(i + 1), page) =~= seq![plain_block(ElementType::Title, pv[i as int], page)]);
            }
        }
        i += 1;
    }
    assert(pv.take(i as int) =~= pv);
}

impl PptxParser {
    /// The blocks of a presentation given the bytes of its file.
    pub fn parse_bytes(&self, bytes: &[u8]) -> (r: Result<Vec<Block>, Error>)
        ensures
            match pptx_result(bytes@) {
                Ok(bs) => r matches Ok(blocks) && block_views(blocks@) == bs,
                Err(e) => r matches Err(err) && err@ == e,
            },
    {
        let names = match zip_names(bytes) {
            Ok(ns) => ns,
            Err(m) => return Err(Error::Parse(m)),
        };
        let ghost nv = names@.map_values(|o: Option<String>| opt_string(o));
        let mut entries: Vec<String> = Vec::new();
        let mut i: usize = 0;
        while i < names.len()
            invariant
                i <= names@.len(),
                nv == names@.map_values(|o: Option<String>| opt_string(o)),
                entries.deep_view() == slide_entries(nv.take(i as int)),
            decreases names@.len() - i,
        {
            assert(nv.take(i + 1).drop_last() =~= nv.take(i as int));
            match &names[i] {
                Some(n) => {
                    if is_slide_file(n.as_str()) {
                        let ghost before = entries.deep_view();
                        entries.push(n.clone());
                        assert(entries.deep_view() =~= before.push(n@));
                    }
                },
                None => {},
            }
            i += 1;
        }
        assert(nv.take(names@.len() as int) =~= nv);
        let slides = order_slides(entries);
        let ghost sv = slides.deep_view();
        let mut blocks: Vec<Block> = Vec::new();
        assert(block_views(blocks@) =~= seq![]);
        let mut k: usize = 0;
        while k < slides.len()
            invariant
                k <= slides@.len(),
                sv == slides.deep_view(),
                zip_entry_names(bytes@) == Ok::<Seq<Option<Seq<char>>>, Seq<char>>(nv),
                sv == sort_by_number(slide_entries(nv)),
                slides_result(bytes@, sv, k as int) == Ok::<Seq<BlockView>, ErrorView>(block_views(blocks@)),
            decreases slides@.len() - k,
        {
            let xml = match read_zip_entry(bytes, slides[k].as_str()) {
                EntryText::Text(t) => t,
                EntryText::Missing(m) => {
                    proof { lemma_slides_error_stays(bytes@, sv, k + 1, sv.len() as int); }
                    return Err(Error::Parse(m));
                },
                EntryText::Unreadable(m) => {
                    proof { lemma_slides_error_stays(bytes@, sv, k + 1, sv.len() as int); }
                    return Err(Error::Io(m));
                },
            };
            let ps = match extract_paragraphs(xml.as_str()) {
                Ok(ps) => ps,
                Err(e) => {
                    proof { lemma_slides_error_stays(bytes@, sv, k + 1, sv.len() as int); }
                    return Err(e);
                },
            };
            let page: u32 = ((k as u64 + 1) % 0x1_0000_0000) as u32;
            slide_blocks_exec(&ps, page, &mut blocks);
            k += 1;
        }
        if blocks.len() == 0 {
            blocks.push(Block::on_page(ElementType::NarrativeText, String::from_str("Empty presentation"), 1));
            assert(block_views(blocks@) =~= seq![plain_block(ElementType::NarrativeText, "Empty presentation"@, 1)]);
        }
        Ok(blocks)
    }
}

} // verus!
