//! Pages ready for display: their sections, and the footnotes to list below
//! them.
use vstd::prelude::*;
use crate::area::Rect;
use crate::configuration::Configuration;
use crate::document::Document;
use crate::footnotes::{Footnotes, superscript};
use crate::layout::stack_height;
use crate::page::Page;
use crate::section::Sections;
use crate::transform::{Context, TransformError, blocks_ok, blocks_refd, blocks_refs, indices_of, page_blocks, page_in, blocks_match, blocks_names_in, lemma_blocks_refd_in, lemma_blocks_stable, lemma_indices_stable};
use crate::wrap::clamp16;
use vstd::string::StrSliceExecFns;

verus! {

/// The indices of the footnotes referenced on a page.
pub struct FootnoteIndices(pub Vec<usize>);

impl FootnoteIndices {
    /// The indices, in ascending order.
    pub fn into_iter(self) -> (r: std::vec::IntoIter<usize>)
        ensures
            vstd::std_specs::iter::IteratorSpec::remaining(&r) == self.0@,
    {
        self.0.into_iter()
    }
}

/// A page ready for display.
pub struct PageWidget {
    /// The sections of the page.
    pub sections: Sections,
    /// The label and index of each footnote referenced on the page that has
    /// content, in ascending order of index.
    pub footnotes: Vec<(String, usize)>,
}

/// Pages being transformed.
pub struct PageCollector<'a> {
    pub context: Context<'a>,
    pub sections: Vec<Sections>,
    pub footnotes: Vec<FootnoteIndices>,
}

/// The footnote references and definitions of the first `k` pages.
pub open spec fn pages_refs(document: Document, pages: Seq<Page>, k: int) -> nat
    decreases k,
{
    if k <= 0 {
        0
    } else {
        pages_refs(document, pages, k - 1) + blocks_refs(page_blocks(document, pages[k - 1]))
    }
}

impl<'a> PageCollector<'a> {
    /// Transforms the pages in order, with one footnote table, and records
    /// the footnotes that each page refers to.
    #[verifier::spinoff_prover]
    pub fn collect(configuration: &'a Configuration, document: &Document, pages: &Vec<Page>) -> (r: Result<
        PageCollector<'a>,
        TransformError,
    >)
        requires
            configuration.wf(),
            forall|k: int| 0 <= k < pages@.len() ==> page_in(*document, #[trigger] pages@[k]),
            pages_refs(*document, pages@, pages@.len() as int) < usize::MAX,
        ensures
            r is Ok <==> forall|k: int| 0 <= k < pages@.len() ==> blocks_ok(page_blocks(*document, #[trigger] pages@[k])),
            r is Ok ==> ({
                let c = r->Ok_0;
                &&& c.context.configuration == configuration
                &&& c.context.footnotes.wf()
                &&& c.sections@.len() == pages@.len()
                &&& c.footnotes@.len() == pages@.len()
                &&& forall|k: int| 0 <= k < pages@.len() ==> (#[trigger] c.sections@[k]).inner_margin == 1
                &&& forall|k: int|
                    0 <= k < pages@.len() ==> blocks_match(
                        page_blocks(*document, pages@[k]),
                        (#[trigger] c.sections@[k]).sections@,
                        configuration.default_style,
                        *configuration,
                        c.context.footnotes.names(),
                    )
                &&& forall|k: int|
                    #![trigger c.footnotes@[k]]
                    0 <= k < pages@.len() ==> forall|a: int, b: int|
                        0 <= a < b < c.footnotes@[k].0@.len() ==> c.footnotes@[k].0@[a] < c.footnotes@[k].0@[b]
                &&& forall|k: int|
                    0 <= k < pages@.len() ==> (#[trigger] c.footnotes@[k]).0@.to_set() == indices_of(
                        c.context.footnotes.names(),
                        blocks_refd(page_blocks(*document, pages@[k])),
                    )
            }),
    {
        let mut context = Context::new(configuration);
        let mut sections: Vec<Sections> = Vec::new();
        let mut footnotes: Vec<FootnoteIndices> = Vec::new();
        let mut k: usize = 0;
        while k < pages.len()
            invariant
                k <= pages@.len(),
                context.configuration == configuration,
                configuration.wf(),
                context.footnotes.wf(),
                context.footnotes.names().len() <= pages_refs(*document, pages@, k as int),
                pages_refs(*document, pages@, pages@.len() as int) < usize::MAX,
                forall|t: int| 0 <= t < pages@.len() ==> page_in(*document, #[trigger] pages@[t]),
                forall|t: int| 0 <= t < k ==> blocks_ok(page_blocks(*document, #[trigger] pages@[t])),
                sections@.len() == k,
                footnotes@.len() == k,
                forall|t: int| 0 <= t < k ==> (#[trigger] sections@[t]).inner_margin == 1,
                forall|t: int| 0 <= t < k ==> blocks_names_in(page_blocks(*document, #[trigger] pages@[t]), context.footnotes.names()),
                forall|t: int|
                    0 <= t < k ==> blocks_match(
                        page_blocks(*document, pages@[t]),
                        (#[trigger] sections@[t]).sections@,
                        configuration.default_style,
                        *configuration,
                        context.footnotes.names(),
                    ),
                forall|t: int|
                    #![trigger footnotes@[t]]
                    0 <= t < k ==> forall|a: int, b: int|
                        0 <= a < b < footnotes@[t].0@.len() ==> footnotes@[t].0@[a] < footnotes@[t].0@[b],
                forall|t: int|
                    0 <= t < k ==> (#[trigger] footnotes@[t]).0@.to_set() == indices_of(
                        context.footnotes.names(),
                        blocks_refd(page_blocks(*document, pages@[t])),
                    ),
                context.footnotes.referenced().is_empty(),
            decreases pages@.len() - k,
        {
            proof {
                lemma_pages_refs_mono(*document, pages@, k + 1, pages@.len() as int);
            }
            let ghost before = context.footnotes;
            let ghost prev = sections@;
            let ghost mid_refs = context.footnotes.referenced();
            let res = Sections::from_page(&mut context, document, &pages[k]);
            match res {
                Ok(s) => {
                    sections.push(s);
                    proof {
                        assert forall|t: int| 0 <= t < k + 1 implies blocks_names_in(page_blocks(*document, pages@[t]), context.footnotes.names())
                            && blocks_match(
                            page_blocks(*document, pages@[t]),
                            (#[trigger] sections@[t]).sections@,
                            configuration.default_style,
                            *configuration,
                            context.footnotes.names(),
                        ) by {
                            if t < k {
                            assert(sections@[t] == prev[t]);
                            lemma_blocks_stable(
                                page_blocks(*document, pages@[t]),
                                prev[t].sections@,
                                configuration.default_style,
                                *configuration,
                                before,
                                context.footnotes,
                            );
                            }
                        }
                    }
                },
                Err(e) => {
                    return Err(e);
                },
            }
            let indices = context.footnotes.extract_references();
            let ghost names_now = context.footnotes.names();
            let ghost fprev = footnotes@;
            proof {
                assert(mid_refs.union(indices_of(names_now, blocks_refd(page_blocks(*document, pages@[k as int])))) =~= indices_of(
                    names_now,
                    blocks_refd(page_blocks(*document, pages@[k as int])),
                ));
                assert forall|t: int| 0 <= t < k implies (#[trigger] fprev[t]).0@.to_set() == indices_of(
                    names_now,
                    blocks_refd(page_blocks(*document, pages@[t])),
                ) by {
                    assert(blocks_names_in(page_blocks(*document, pages@[t]), before.names()));
                    lemma_blocks_refd_in(page_blocks(*document, pages@[t]), before.names());
                    lemma_indices_stable(before, context.footnotes, blocks_refd(page_blocks(*document, pages@[t])));
                }
            }
            footnotes.push(FootnoteIndices(indices));
            k += 1;
            proof {
                assert forall|t: int| 0 <= t < k implies (#[trigger] footnotes@[t]).0@.to_set() == indices_of(
                    context.footnotes.names(),
                    blocks_refd(page_blocks(*document, pages@[t])),
                ) by {
                    if t < k - 1 {
                        assert(footnotes@[t] == fprev[t]);
                    }
                }
                assert(context.footnotes.names() == names_now);
                assert forall|t: int| 0 <= t < k implies blocks_names_in(page_blocks(*document, pages@[t]), context.footnotes.names())
                    && blocks_match(
                    page_blocks(*document, pages@[t]),
                    (#[trigger] sections@[t]).sections@,
                    configuration.default_style,
                    *configuration,
                    context.footnotes.names(),
                ) by {
                    assert(0 <= t < (k - 1) + 1);
                    assert(blocks_match(
                        page_blocks(*document, pages@[t]),
                        sections@[t].sections@,
                        configuration.default_style,
                        *configuration,
                        names_now,
                    ));
                }
                assert forall|t: int| 0 <= t < k implies blocks_names_in(
                    page_blocks(*document, #[trigger] pages@[t]),
                    context.footnotes.names(),
                ) by {
                    assert(blocks_match(
                        page_blocks(*document, pages@[t]),
                        sections@[t].sections@,
                        configuration.default_style,
                        *configuration,
                        names_now,
                    ));
                }
            }
        }
        Ok(PageCollector { context, sections, footnotes })
    }

    /// The context, with the footnote table of all pages.
    pub fn clone_context(&self) -> (r: &Context<'a>)
        ensures
            r == &self.context,
    {
        &self.context
    }

    /// The pages, each with the labels of its footnotes that have content.
    pub fn finish(self) -> (r: (Context<'a>, Vec<PageWidget>))
        requires
            self.sections@.len() == self.footnotes@.len(),
        ensures
            r.1@.len() == self.sections@.len(),
            forall|k: int|
                #![trigger r.1@[k]]
                0 <= k < r.1@.len() ==> {
                    let entries = r.1@[k].footnotes@;
                    &&& r.1@[k].sections == self.sections@[k]
                    &&& entries.map_values(|e: (String, usize)| e.1) == self.footnotes@[k].0@.filter(
                        |i: usize| defined_at(self.context.footnotes, i),
                    )
                    &&& forall|e: int| 0 <= e < entries.len() ==> (#[trigger] entries[e]).0@ == superscript(entries[e].1 as nat + 1)
                },
    {
        let PageCollector { context, sections, footnotes } = self;
        let ghost all_sections = sections@;
        let ghost all_indices = footnotes@;
        let mut out: Vec<PageWidget> = Vec::new();
        let mut sections = sections;
        let mut footnotes = footnotes;
        // Pages are taken from the back and put in order at the end.
        let mut rev: Vec<PageWidget> = Vec::new();
        let n = sections.len();
        while sections.len() > 0
            invariant
                sections@.len() == footnotes@.len(),
                sections@.len() <= n,
                n == all_sections.len(),
                all_sections.len() == all_indices.len(),
                sections@ == all_sections.subrange(0, sections@.len() as int),
                footnotes@ == all_indices.subrange(0, footnotes@.len() as int),
                rev@.len() == n - sections@.len(),
                forall|j: int|
                    #![trigger rev@[j]]
                    0 <= j < rev@.len() ==> {
                        let k = n - 1 - j;
                        let entries = rev@[j].footnotes@;
                        &&& rev@[j].sections == all_sections[k]
                        &&& entries.map_values(|e: (String, usize)| e.1) == all_indices[k].0@.filter(
                            |i: usize| defined_at(context.footnotes, i),
                        )
                        &&& forall|e: int| 0 <= e < entries.len() ==> (#[trigger] entries[e]).0@ == superscript(entries[e].1 as nat + 1)
                    },
            decreases sections@.len(),
        {
            let s = sections.pop().unwrap();
            let f = footnotes.pop().unwrap();
            let entries = listing(&context.footnotes, &f.0);
            rev.push(PageWidget { sections: s, footnotes: entries });
        }
        while rev.len() > 0
            invariant
                rev@.len() + out@.len() == n,
                forall|j: int|
                    #![trigger rev@[j]]
                    0 <= j < rev@.len() ==> {
                        let k = n - 1 - j;
                        let entries = rev@[j].footnotes@;
                        &&& 0 <= k < n
                        &&& rev@[j].sections == all_sections[k]
                        &&& entries.map_values(|e: (String, usize)| e.1) == all_indices[k].0@.filter(
                            |i: usize| defined_at(context.footnotes, i),
                        )
                        &&& forall|e: int| 0 <= e < entries.len() ==> (#[trigger] entries[e]).0@ == superscript(entries[e].1 as nat + 1)
                    },
                forall|k: int|
                    #![trigger out@[k]]
                    0 <= k < out@.len() ==> {
                        let entries = out@[k].footnotes@;
                        &&& out@[k].sections == all_sections[k]
                        &&& entries.map_values(|e: (String, usize)| e.1) == all_indices[k].0@.filter(
                            |i: usize| defined_at(context.footnotes, i),
                        )
                        &&& forall|e: int| 0 <= e < entries.len() ==> (#[trigger] entries[e]).0@ == superscript(entries[e].1 as nat + 1)
                    },
            decreases rev@.len(),
        {
            let w = rev.pop().unwrap();
            out.push(w);
        }
        (context, out)
    }
}

proof fn lemma_pages_refs_mono(document: Document, pages: Seq<Page>, j: int, k: int)
    requires
        j <= k,
    ensures
        pages_refs(document, pages, j) <= pages_refs(document, pages, k),
    decreases k - j,
{
    if j < k {
        lemma_pages_refs_mono(document, pages, j, k - 1);
    }
}

/// Whether footnote `i` has content.
pub open spec fn defined_at(f: Footnotes, i: usize) -> bool {
    (i as int) < f.contents().len() && f.contents()[i as int] is Some
}

/// The label and index of each of `indices` whose footnote has content.
pub fn listing(footnotes: &Footnotes, indices: &Vec<usize>) -> (r: Vec<(String, usize)>)
    ensures
        r@.map_values(|e: (String, usize)| e.1) == indices@.filter(
            |i: usize| defined_at(*footnotes, i),
        ),
        forall|e: int| 0 <= e < r@.len() ==> (#[trigger] r@[e]).0@ == superscript(r@[e].1 as nat + 1),
{
    let ghost keep = |i: usize| defined_at(*footnotes, i);
    let mut out: Vec<(String, usize)> = Vec::new();
    let mut k: usize = 0;
    proof {
        reveal(Seq::filter);
        assert(out@.map_values(|e: (String, usize)| e.1) =~= indices@.subrange(0, 0).filter(keep));
    }
    while k < indices.len()
        invariant
            k <= indices@.len(),
            keep == (|i: usize| defined_at(*footnotes, i)),
            out@.map_values(|e: (String, usize)| e.1) == indices@.subrange(0, k as int).filter(keep),
            forall|e: int| 0 <= e < out@.len() ==> (#[trigger] out@[e]).0@ == superscript(out@[e].1 as nat + 1),
        decreases indices@.len() - k,
    {
        let index = indices[k];
        let ghost before = out@;
        proof {
            assert(indices@.subrange(0, k + 1).drop_last() =~= indices@.subrange(0, k as int));
            reveal(Seq::filter);
            let next = indices@.subrange(0, k + 1);
            assert(next.last() == index);
            assert(next.filter(keep) == if keep(index) {
                next.drop_last().filter(keep).push(index)
            } else {
                next.drop_last().filter(keep)
            });
        }
        let total = footnotes.len();
        if footnotes.lookup(index).is_some() {
            proof {
                crate::footnotes::lemma_contents_len(*footnotes);
            }
            let label = Footnotes::index_to_superscript(index);
            out.push((label, index));
            proof {
                assert(out@.map_values(|e: (String, usize)| e.1) =~= before.map_values(|e: (String, usize)| e.1).push(index));
            }
        }
        k += 1;
    }
    proof {
        assert(indices@.subrange(0, k as int) =~= indices@);
    }
    out
}

/// The columns that the labels of a footnote panel take: the longest label
/// and one more.
pub open spec fn label_margin(entries: Seq<(String, usize)>) -> nat
    decreases entries.len(),
{
    if entries.len() == 0 {
        0
    } else {
        let m = label_margin(entries.drop_last());
        let l = crate::section::saturate(entries.last().0@.len() + 1int) as nat;
        if l > m {
            l
        } else {
            m
        }
    }
}

/// The rows of the content of footnote `index` at width `w`; none where it
/// has no content.
pub open spec fn footnote_rows(f: Footnotes, index: usize, w: nat) -> nat {
    if defined_at(f, index) {
        clamp16(stack_height(f.contents()[index as int]->0.sections@, f.contents()[index as int]->0.inner_margin as nat, w) as int) as nat
    } else {
        0
    }
}

/// The rows of the first `k` footnotes of a panel.
pub open spec fn panel_rows(f: Footnotes, entries: Seq<(String, usize)>, w: nat, k: int) -> nat
    decreases k,
{
    if k <= 0 {
        0
    } else {
        panel_rows(f, entries, w, k - 1) + footnote_rows(f, entries[k - 1].1, w)
    }
}

/// The label and content rectangles of a footnote panel in `area`: the
/// footnotes stacked at the bottom of the area, each label in a left
/// gutter as wide as the longest label and one more. Where the footnotes
/// do not fit, there is no panel.
pub fn footnote_panel(footnotes: &Footnotes, entries: &Vec<(String, usize)>, area: Rect) -> (r: Vec<(Rect, Rect)>)
    requires
        area.wf(),
    ensures
        ({
            let g = if label_margin(entries@) < area.width { label_margin(entries@) } else { area.width as nat };
            let w = (area.width - g) as nat;
            let total = panel_rows(*footnotes, entries@, w, entries@.len() as int);
            &&& total <= area.height ==> r@.len() == entries@.len()
            &&& total > area.height ==> r@.len() == 0
            &&& forall|k: int|
                0 <= k < r@.len() ==> {
                    let y = area.bottom() - total + panel_rows(*footnotes, entries@, w, k);
                    let h = footnote_rows(*footnotes, entries@[k].1, w);
                    &&& (#[trigger] r@[k]).0 == (Rect { x: area.x, y: y as u16, width: g as u16, height: h as u16 })
                    &&& r@[k].1 == (Rect { x: (area.x + g) as u16, y: y as u16, width: w as u16, height: h as u16 })
                }
        }),
{
    let n = entries.len();
    let mut margin: usize = 0;
    let mut k: usize = 0;
    while k < n
        invariant
            n == entries@.len(),
            k <= n,
            margin == label_margin(entries@.subrange(0, k as int)),
        decreases n - k,
    {
        proof {
            assert(entries@.subrange(0, k + 1).drop_last() =~= entries@.subrange(0, k as int));
        }
        let l = entries[k].0.as_str().unicode_len().saturating_add(1);
        if l > margin {
            margin = l;
        }
        k += 1;
    }
    proof {
        assert(entries@.subrange(0, n as int) =~= entries@);
    }
    let g: u16 = if margin < area.width as usize { margin as u16 } else { area.width };
    let w: u16 = area.width - g;
    let ghost wn = w as nat;
    let mut heights: Vec<u16> = Vec::new();
    let mut total: u32 = 0;
    let mut k: usize = 0;
    while k < n
        invariant
            n == entries@.len(),
            k <= n,
            heights@.len() == k,
            total as int == panel_rows(*footnotes, entries@, wn, k as int),
            total <= area.height,
            wn == w as nat,
            w == area.width - g,
            g as nat == (if label_margin(entries@) < area.width { label_margin(entries@) } else { area.width as nat }),
            forall|t: int| 0 <= t < k ==> #[trigger] heights@[t] as nat == footnote_rows(*footnotes, entries@[t].1, wn),
        decreases n - k,
    {
        let h: u16 = match footnotes.lookup(entries[k].1) {
            Some(content) => content.height(w),
            None => 0,
        };
        if total + h as u32 > area.height as u32 {
            proof {
                lemma_panel_rows_mono(*footnotes, entries@, wn, k + 1, n as int);
            }
            return Vec::new();
        }
        total = total + h as u32;
        heights.push(h);
        k += 1;
    }
    let mut out: Vec<(Rect, Rect)> = Vec::new();
    let mut y: u32 = area.y as u32 + area.height as u32 - total;
    let mut k: usize = 0;
    while k < n
        invariant
            n == entries@.len(),
            k <= n,
            heights@.len() == n,
            wn == w as nat,
            total as int == panel_rows(*footnotes, entries@, wn, n as int),
            total <= area.height,
            area.wf(),
            g <= area.width,
            w == area.width - g,
            g as nat == (if label_margin(entries@) < area.width { label_margin(entries@) } else { area.width as nat }),
            forall|t: int| 0 <= t < n ==> #[trigger] heights@[t] as nat == footnote_rows(*footnotes, entries@[t].1, wn),
            y == area.bottom() - total + panel_rows(*footnotes, entries@, wn, k as int),
            out@.len() == k,
            forall|t: int|
                0 <= t < k ==> {
                    let yy = area.bottom() - total + panel_rows(*footnotes, entries@, wn, t);
                    let h = footnote_rows(*footnotes, entries@[t].1, wn);
                    &&& (#[trigger] out@[t]).0 == (Rect { x: area.x, y: yy as u16, width: g, height: h as u16 })
                    &&& out@[t].1 == (Rect { x: (area.x + g) as u16, y: yy as u16, width: w, height: h as u16 })
                },
        decreases n - k,
    {
        proof {
            lemma_panel_rows_mono(*footnotes, entries@, wn, k + 1, n as int);
        }
        let h = heights[k];
        out.push((Rect { x: area.x, y: y as u16, width: g, height: h }, Rect { x: area.x + g, y: y as u16, width: w, height: h }));
        y = y + h as u32;
        k += 1;
    }
    out
}

proof fn lemma_panel_rows_mono(f: Footnotes, entries: Seq<(String, usize)>, w: nat, j: int, k: int)
    requires
        j <= k,
    ensures
        panel_rows(f, entries, w, j) <= panel_rows(f, entries, w, k),
    decreases k - j,
{
    if j < k {
        lemma_panel_rows_mono(f, entries, w, j, k - 1);
    }
}

} // verus!
