//! Transformation of a page's elements into sections.
use vstd::prelude::*;
use vstd::string::StringExecFns;
use crate::document::{Block, Document, Inline, ListDelimiter, ListKind, TableRowNode};
use crate::code::{code_lines, split_lines, truncate_spans};
use crate::configuration::Configuration;
use crate::highlight::{bundled_theme, default_syntaxes, highlight_line, highlighter, token_spans};
use crate::page::Page;
use crate::section::{Section, Sections, TableRow, renumbered};
use crate::text::{Line, Text, chars_of_spans, line_chars, string_of};
use syntect::highlighting::Theme;
use syntect::parsing::SyntaxSet;
use crate::footnotes::{Footnotes, superscript};
use crate::style::{Color, Modifier, Style};
use crate::text::Span;

verus! {

/// Why a document cannot be presented.
#[derive(Clone, Debug, PartialEq, Eq)]
pub enum TransformError {
    /// An element that the presentation does not support, and its line.
    Unsupported { kind: String, line: usize },
    /// A heading whose level lies outside 1 to 6.
    HeadingLevel { level: u8 },
}

/// A styled run as a value: its characters and its style.
pub type Run = (Seq<char>, Style);

/// The value of a span.
pub open spec fn run_of(s: Span) -> Run {
    (s.content@, s.style)
}

/// The values of spans.
pub open spec fn runs_of(v: Seq<Span>) -> Seq<Run> {
    v.map_values(|s: Span| run_of(s))
}

/// The index of `name` in `names` (the names hold it once).
pub open spec fn index_of(names: Seq<Seq<char>>, name: Seq<char>) -> int {
    choose|k: int| 0 <= k < names.len() && names[k] == name
}

/// An error as a value.
pub enum ErrorView {
    Unsupported { kind: Seq<char>, line: usize },
    HeadingLevel { level: u8 },
}

pub open spec fn error_view(e: TransformError) -> ErrorView {
    match e {
        TransformError::Unsupported { kind, line } => ErrorView::Unsupported { kind: kind@, line },
        TransformError::HeadingLevel { level } => ErrorView::HeadingLevel { level },
    }
}

/// The first error in an inline element, in document order.
pub open spec fn inline_err(i: Inline) -> Option<ErrorView>
    decreases i,
{
    match i {
        Inline::Emph { children } => inlines_err(children@),
        Inline::Link { children, .. } => inlines_err(children@),
        Inline::Strong { children } => inlines_err(children@),
        Inline::Strikethrough { children } => inlines_err(children@),
        Inline::Unsupported { kind, line } => Some(ErrorView::Unsupported { kind: kind@, line }),
        _ => None,
    }
}

pub open spec fn inlines_err(xs: Seq<Inline>) -> Option<ErrorView>
    decreases xs,
{
    if xs.len() == 0 {
        None
    } else {
        match inlines_err(xs.drop_last()) {
            Some(e) => Some(e),
            None => inline_err(xs.last()),
        }
    }
}

proof fn lemma_inlines_err_prefix(xs: Seq<Inline>, n: int)
    requires
        0 <= n <= xs.len(),
        inlines_err(xs.subrange(0, n)) is Some,
    ensures
        inlines_err(xs) == inlines_err(xs.subrange(0, n)),
    decreases xs.len(),
{
    if n < xs.len() {
        assert(xs.drop_last().subrange(0, n) =~= xs.subrange(0, n));
        lemma_inlines_err_prefix(xs.drop_last(), n);
    } else {
        assert(xs.subrange(0, n) =~= xs);
    }
}

/// Whether an inline element and those inside it are all supported.
pub open spec fn inline_ok(i: Inline) -> bool
    decreases i,
{
    match i {
        Inline::Emph { children } => inlines_ok(children@),
        Inline::Link { children, .. } => inlines_ok(children@),
        Inline::Strong { children } => inlines_ok(children@),
        Inline::Strikethrough { children } => inlines_ok(children@),
        Inline::Unsupported { .. } => false,
        _ => true,
    }
}

pub open spec fn inlines_ok(xs: Seq<Inline>) -> bool
    decreases xs,
{
    if xs.len() == 0 {
        true
    } else {
        inlines_ok(xs.drop_last()) && inline_ok(xs.last())
    }
}

/// The number of footnote references in an inline element.
pub open spec fn inline_refs(i: Inline) -> nat
    decreases i,
{
    match i {
        Inline::Emph { children } => inlines_refs(children@),
        Inline::Link { children, .. } => inlines_refs(children@),
        Inline::Strong { children } => inlines_refs(children@),
        Inline::Strikethrough { children } => inlines_refs(children@),
        Inline::FootnoteReference { .. } => 1,
        _ => 0,
    }
}

pub open spec fn inlines_refs(xs: Seq<Inline>) -> nat
    decreases xs,
{
    if xs.len() == 0 {
        0
    } else {
        inlines_refs(xs.drop_last()) + inline_refs(xs.last())
    }
}

/// The names of the footnotes that an inline element refers to.
pub open spec fn inline_refd(i: Inline) -> Set<Seq<char>>
    decreases i,
{
    match i {
        Inline::Emph { children } => inlines_refd(children@),
        Inline::Link { children, .. } => inlines_refd(children@),
        Inline::Strong { children } => inlines_refd(children@),
        Inline::Strikethrough { children } => inlines_refd(children@),
        Inline::FootnoteReference { name } => set![name@],
        _ => Set::empty(),
    }
}

pub open spec fn inlines_refd(xs: Seq<Inline>) -> Set<Seq<char>>
    decreases xs,
{
    if xs.len() == 0 {
        Set::empty()
    } else {
        inlines_refd(xs.drop_last()).union(inline_refd(xs.last()))
    }
}

/// The indices in `names` of the names in `s`.
pub open spec fn indices_of(names: Seq<Seq<char>>, s: Set<Seq<char>>) -> Set<usize> {
    Set::new(|k: usize| (k as int) < names.len() && s.contains(names[k as int]))
}

/// `after` has recorded, besides the references of `before`, a reference
/// to each footnote named in `s`.
pub open spec fn marks(before: Footnotes, after: Footnotes, s: Set<Seq<char>>) -> bool {
    after.referenced() == before.referenced().union(indices_of(after.names(), s))
}

/// Whether every footnote that an inline element refers to is in `names`.
pub open spec fn inline_names_in(i: Inline, names: Seq<Seq<char>>) -> bool
    decreases i,
{
    match i {
        Inline::Emph { children } => inlines_names_in(children@, names),
        Inline::Link { children, .. } => inlines_names_in(children@, names),
        Inline::Strong { children } => inlines_names_in(children@, names),
        Inline::Strikethrough { children } => inlines_names_in(children@, names),
        Inline::FootnoteReference { name } => names.contains(name@),
        _ => true,
    }
}

pub open spec fn inlines_names_in(xs: Seq<Inline>, names: Seq<Seq<char>>) -> bool
    decreases xs,
{
    if xs.len() == 0 {
        true
    } else {
        inlines_names_in(xs.drop_last(), names) && inline_names_in(xs.last(), names)
    }
}

/// The style of a link's text: underlined, in blue.
pub open spec fn link_style(style: Style) -> Style {
    Style { fg: Some(Color::Blue), ..style.with_modifier(Modifier::Underlined) }
}

/// The runs of an inline element in `style`; a footnote reference reads as
/// the label of its index in `names`. Styles add up as elements nest.
pub open spec fn inline_runs(i: Inline, style: Style, names: Seq<Seq<char>>) -> Seq<Run>
    decreases i,
{
    match i {
        Inline::Code { literal } => seq![(literal@, Style::plain_spec())],
        Inline::Emph { children } => inlines_runs(children@, style.with_modifier(Modifier::Italic), names),
        Inline::FootnoteReference { name } => seq![
            (superscript((index_of(names, name@) + 1) as nat), Style::plain_spec()),
        ],
        Inline::LineBreak => seq![(seq!['\n'], Style::plain_spec())],
        Inline::Link { url, children } => inlines_runs(children@, link_style(style), names).push(
            (seq![' ', '<'] + url@ + seq!['>'], style),
        ),
        Inline::SoftBreak => seq![(seq![' '], Style::plain_spec())],
        Inline::Strong { children } => inlines_runs(children@, style.with_modifier(Modifier::Bold), names),
        Inline::Strikethrough { children } => inlines_runs(
            children@,
            style.with_modifier(Modifier::CrossedOut),
            names,
        ),
        Inline::Text { text } => seq![(text@, style)],
        Inline::Unsupported { .. } => Seq::empty(),
    }
}

pub open spec fn inlines_runs(xs: Seq<Inline>, style: Style, names: Seq<Seq<char>>) -> Seq<Run>
    decreases xs,
{
    if xs.len() == 0 {
        Seq::empty()
    } else {
        inlines_runs(xs.drop_last(), style, names) + inline_runs(xs.last(), style, names)
    }
}

/// `after` keeps the contents of `before`.
pub open spec fn keeps_contents(before: Footnotes, after: Footnotes) -> bool {
    forall|k: int| 0 <= k < before.contents().len() ==> after.contents()[k] == before.contents()[k]
}

/// `after` extends `before`: indices stay.
pub open spec fn grows(before: Footnotes, after: Footnotes) -> bool {
    &&& before.names().len() <= after.names().len()
    &&& forall|k: int| 0 <= k < before.names().len() ==> after.names()[k] == before.names()[k]
}

proof fn lemma_inlines_refs_prefix(xs: Seq<Inline>, k: int)
    requires
        0 <= k <= xs.len(),
    ensures
        inlines_refs(xs.subrange(0, k)) <= inlines_refs(xs),
    decreases xs.len(),
{
    if k < xs.len() {
        lemma_inlines_refs_prefix(xs.drop_last(), k);
        assert(xs.drop_last().subrange(0, k) =~= xs.subrange(0, k));
    } else {
        assert(xs.subrange(0, k) =~= xs);
    }
}

proof fn lemma_index_stable(f1: Footnotes, f2: Footnotes, name: Seq<char>)
    requires
        f2.wf(),
        grows(f1, f2),
        f1.names().contains(name),
    ensures
        index_of(f1.names(), name) == index_of(f2.names(), name),
        f2.names().contains(name),
{
    let k1 = index_of(f1.names(), name);
    assert(f2.names()[k1] == name);
    let k2 = index_of(f2.names(), name);
    crate::footnotes::lemma_names_unique(f2, k1, k2);
}

/// Runs stay the same as the footnote table grows, once their references
/// are in it.
proof fn lemma_inline_stable(i: Inline, style: Style, f1: Footnotes, f2: Footnotes)
    requires
        f2.wf(),
        grows(f1, f2),
        inline_names_in(i, f1.names()),
    ensures
        inline_runs(i, style, f1.names()) == inline_runs(i, style, f2.names()),
        inline_names_in(i, f2.names()),
    decreases i,
{
    match i {
        Inline::Emph { children } => lemma_inlines_stable(children@, style.with_modifier(Modifier::Italic), f1, f2),
        Inline::Link { children, .. } => lemma_inlines_stable(children@, link_style(style), f1, f2),
        Inline::Strong { children } => lemma_inlines_stable(children@, style.with_modifier(Modifier::Bold), f1, f2),
        Inline::Strikethrough { children } => lemma_inlines_stable(
            children@,
            style.with_modifier(Modifier::CrossedOut),
            f1,
            f2,
        ),
        Inline::FootnoteReference { name } => lemma_index_stable(f1, f2, name@),
        _ => {},
    }
}

proof fn lemma_inlines_stable(xs: Seq<Inline>, style: Style, f1: Footnotes, f2: Footnotes)
    requires
        f2.wf(),
        grows(f1, f2),
        inlines_names_in(xs, f1.names()),
    ensures
        inlines_runs(xs, style, f1.names()) == inlines_runs(xs, style, f2.names()),
        inlines_names_in(xs, f2.names()),
    decreases xs,
{
    if xs.len() > 0 {
        lemma_inlines_stable(xs.drop_last(), style, f1, f2);
        lemma_inline_stable(xs.last(), style, f1, f2);
    }
}

proof fn lemma_inline_refd_in(i: Inline, names: Seq<Seq<char>>)
    requires
        inline_names_in(i, names),
    ensures
        forall|n: Seq<char>| #[trigger] inline_refd(i).contains(n) ==> names.contains(n),
    decreases i,
{
    match i {
        Inline::Emph { children } => lemma_inlines_refd_in(children@, names),
        Inline::Link { children, .. } => lemma_inlines_refd_in(children@, names),
        Inline::Strong { children } => lemma_inlines_refd_in(children@, names),
        Inline::Strikethrough { children } => lemma_inlines_refd_in(children@, names),
        _ => {},
    }
    assert forall|n: Seq<char>| #[trigger] inline_refd(i).contains(n) implies names.contains(n) by {
        match i {
            Inline::Emph { children } => assert(inlines_refd(children@).contains(n)),
            Inline::Link { children, .. } => assert(inlines_refd(children@).contains(n)),
            Inline::Strong { children } => assert(inlines_refd(children@).contains(n)),
            Inline::Strikethrough { children } => assert(inlines_refd(children@).contains(n)),
            _ => {},
        }
    }
}

proof fn lemma_inlines_refd_in(xs: Seq<Inline>, names: Seq<Seq<char>>)
    requires
        inlines_names_in(xs, names),
    ensures
        forall|n: Seq<char>| #[trigger] inlines_refd(xs).contains(n) ==> names.contains(n),
    decreases xs,
{
    if xs.len() > 0 {
        lemma_inlines_refd_in(xs.drop_last(), names);
        lemma_inline_refd_in(xs.last(), names);
        assert forall|n: Seq<char>| #[trigger] inlines_refd(xs).contains(n) implies names.contains(n) by {
            if inlines_refd(xs.drop_last()).contains(n) {
            } else {
                assert(inline_refd(xs.last()).contains(n));
            }
        }
    }
}

/// The indices of names already in the table stay as it grows.
pub proof fn lemma_indices_stable(f1: Footnotes, f2: Footnotes, s: Set<Seq<char>>)
    requires
        f2.wf(),
        grows(f1, f2),
        forall|n: Seq<char>| #[trigger] s.contains(n) ==> f1.names().contains(n),
    ensures
        indices_of(f1.names(), s) == indices_of(f2.names(), s),
{
    assert forall|k: usize| #[trigger] indices_of(f2.names(), s).contains(k) implies indices_of(f1.names(), s).contains(k) by {
        let n = f2.names()[k as int];
        assert(s.contains(n));
        let j = choose|j: int| 0 <= j < f1.names().len() && f1.names()[j] == n;
        assert(f2.names()[j] == n);
        crate::footnotes::lemma_names_unique(f2, j, k as int);
    }
    assert(indices_of(f1.names(), s) =~= indices_of(f2.names(), s));
}

proof fn lemma_indices_union(names: Seq<Seq<char>>, a: Set<Seq<char>>, b: Set<Seq<char>>)
    ensures
        indices_of(names, a.union(b)) == indices_of(names, a).union(indices_of(names, b)),
{
    assert(indices_of(names, a.union(b)) =~= indices_of(names, a).union(indices_of(names, b)));
}

/// Appends the runs of the inline elements `sources` in `style` to `target`.
#[verifier::spinoff_prover]
pub fn inlines(
    footnotes: &mut Footnotes,
    sources: &Vec<Inline>,
    target: &mut Vec<Span>,
    style: Style,
) -> (r: Result<(), TransformError>)
    requires
        old(footnotes).wf(),
        old(footnotes).names().len() + inlines_refs(sources@) < usize::MAX,
    ensures
        final(footnotes).wf(),
        grows(*old(footnotes), *final(footnotes)),
        keeps_contents(*old(footnotes), *final(footnotes)),
        final(footnotes).names().len() <= old(footnotes).names().len() + inlines_refs(sources@),
        r is Ok <==> inlines_ok(sources@),
        r is Ok ==> inlines_names_in(sources@, final(footnotes).names()) && runs_of(final(target)@)
            == runs_of(old(target)@) + inlines_runs(sources@, style, final(footnotes).names()),
        r is Ok ==> marks(*old(footnotes), *final(footnotes), inlines_refd(sources@)),
        appended(old(target)@, final(target)@),
        r is Ok ==> inlines_err(sources@) is None,
        r is Err ==> inlines_err(sources@) == Some(error_view(r->Err_0)),
    decreases sources, 1nat,
{
    let n = sources.len();
    let mut k: usize = 0;
    proof {
        assert(target@.subrange(0, target@.len() as int) =~= target@);
        assert(indices_of(footnotes.names(), inlines_refd(sources@.subrange(0, 0))) =~= Set::empty());
        assert(footnotes.referenced() =~= footnotes.referenced().union(Set::empty()));
    }
    while k < n
        invariant
            n == sources@.len(),
            k <= n,
            footnotes.wf(),
            grows(*old(footnotes), *footnotes),
            keeps_contents(*old(footnotes), *footnotes),
            footnotes.names().len() <= old(footnotes).names().len() + inlines_refs(sources@.subrange(0, k as int)),
            old(footnotes).names().len() + inlines_refs(sources@) < usize::MAX,
            inlines_ok(sources@.subrange(0, k as int)),
            inlines_names_in(sources@.subrange(0, k as int), footnotes.names()),
            runs_of(target@) == runs_of(old(target)@) + inlines_runs(sources@.subrange(0, k as int), style, footnotes.names()),
            marks(*old(footnotes), *footnotes, inlines_refd(sources@.subrange(0, k as int))),
            appended(old(target)@, target@),
            inlines_err(sources@.subrange(0, k as int)) is None,
        decreases n - k,
    {
        let ghost before = *footnotes;
        let ghost prefix = sources@.subrange(0, k as int);
        let ghost tgt = target@;
        proof {
            assert(sources@.subrange(0, k + 1).drop_last() =~= prefix);
            lemma_inlines_refs_prefix(sources@, k + 1);
            assert(decreases_to!(sources => sources@[k as int]));
        }
        let res = inline(footnotes, &sources[k as usize], target, style);
        proof {
            assert(target@.subrange(0, old(target)@.len() as int) =~= old(target)@) by {
                assert(target@.subrange(0, tgt.len() as int) == tgt);
                assert(tgt.subrange(0, old(target)@.len() as int) == old(target)@);
            }
        }
        if res.is_err() {
            proof {
                lemma_inlines_err_prefix(sources@, k + 1);
                lemma_inlines_ok_prefix(sources@, k as int);
                crate::footnotes::lemma_contents_len(*old(footnotes));
                crate::footnotes::lemma_contents_len(before);
            }
            return res;
        }
        proof {
            lemma_inlines_stable(prefix, style, before, *footnotes);
            crate::footnotes::lemma_contents_len(*old(footnotes));
            crate::footnotes::lemma_contents_len(before);
            lemma_inlines_refd_in(prefix, before.names());
            lemma_indices_stable(before, *footnotes, inlines_refd(prefix));
            lemma_indices_union(footnotes.names(), inlines_refd(prefix), inline_refd(sources@[k as int]));
            assert(footnotes.referenced() =~= old(footnotes).referenced().union(
                indices_of(footnotes.names(), inlines_refd(sources@.subrange(0, k + 1))),
            ));
        }
        k += 1;
    }
    proof {
        assert(sources@.subrange(0, n as int) =~= sources@);
    }
    Ok(())
}

proof fn lemma_inlines_ok_prefix(xs: Seq<Inline>, k: int)
    requires
        0 <= k < xs.len(),
        !inline_ok(xs[k]),
    ensures
        !inlines_ok(xs),
    decreases xs.len(),
{
    if k < xs.len() - 1 {
        lemma_inlines_ok_prefix(xs.drop_last(), k);
    }
}

/// Appends the runs of the inline element `source` in `style` to `target`.
#[verifier::spinoff_prover]
pub fn inline(
    footnotes: &mut Footnotes,
    source: &Inline,
    target: &mut Vec<Span>,
    style: Style,
) -> (r: Result<(), TransformError>)
    requires
        old(footnotes).wf(),
        old(footnotes).names().len() + inline_refs(*source) < usize::MAX,
    ensures
        final(footnotes).wf(),
        grows(*old(footnotes), *final(footnotes)),
        keeps_contents(*old(footnotes), *final(footnotes)),
        final(footnotes).names().len() <= old(footnotes).names().len() + inline_refs(*source),
        r is Ok <==> inline_ok(*source),
        r is Ok ==> inline_names_in(*source, final(footnotes).names()) && runs_of(final(target)@)
            == runs_of(old(target)@) + inline_runs(*source, style, final(footnotes).names()),
        r is Ok ==> marks(*old(footnotes), *final(footnotes), inline_refd(*source)),
        appended(old(target)@, final(target)@),
        r is Ok ==> inline_err(*source) is None,
        r is Err ==> inline_err(*source) == Some(error_view(r->Err_0)),
    decreases source, 0nat,
{
    let ghost tgt = target@;
    proof {
        assert(target@.subrange(0, target@.len() as int) =~= target@);
        crate::footnotes::lemma_contents_len(*footnotes);
        assert(indices_of(footnotes.names(), Set::empty()) =~= Set::empty());
        assert(footnotes.referenced() =~= footnotes.referenced().union(Set::empty()));
    }
    match source {
        Inline::Code { literal } => {
            let span = Span { content: literal.clone(), style: Style::plain() };
            target.push(span);
            proof {
                assert(runs_of(target@) =~= runs_of(tgt).push(run_of(span)));
                assert(runs_of(target@) =~= runs_of(tgt) + inline_runs(*source, style, footnotes.names()));
            }
        },
        Inline::Emph { children } => {
            return inlines(footnotes, children, target, style.add_modifier(Modifier::Italic));
        },
        Inline::FootnoteReference { name } => {
            let index = footnotes.reference(name.as_str());
            let label = Footnotes::index_to_superscript(index);
            let span = Span { content: label, style: Style::plain() };
            target.push(span);
            proof {
                assert(footnotes.names().contains(name@)) by {
                    assert(footnotes.names()[index as int] == name@);
                }
                let k2 = index_of(footnotes.names(), name@);
                crate::footnotes::lemma_names_unique(*footnotes, index as int, k2);
                assert(runs_of(target@) =~= runs_of(tgt).push(run_of(span)));
                assert forall|k: usize| #[trigger] indices_of(footnotes.names(), set![name@]).contains(k) implies k == index by {
                    crate::footnotes::lemma_names_unique(*footnotes, index as int, k as int);
                }
                assert(indices_of(footnotes.names(), set![name@]) =~= set![index]);
                assert(footnotes.referenced() =~= old(footnotes).referenced().union(set![index]));
                crate::footnotes::lemma_contents_len(*old(footnotes));
                assert(runs_of(target@) == runs_of(tgt) + inline_runs(*source, style, footnotes.names()));
                assert(inline_names_in(*source, footnotes.names()));
            }
        },
        Inline::LineBreak => {
            let span = Span::raw("\n");
            target.push(span);
            proof {
                reveal_strlit("\n");
                assert("\n"@ =~= seq!['\n']);
                assert(runs_of(target@) =~= runs_of(tgt).push(run_of(span)));
                assert(runs_of(target@) =~= runs_of(tgt) + inline_runs(*source, style, footnotes.names()));
            }
        },
        Inline::Link { url, children } => {
            let res = inlines(footnotes, children, target, style.add_modifier(Modifier::Underlined).fg(Color::Blue));
            if res.is_err() {
                return res;
            }
            let ghost mid = target@;
            let mut text = String::from_str(" <");
            text.append(url.as_str());
            text.append(">");
            let span = Span { content: text, style };
            target.push(span);
            proof {
                reveal_strlit(" <");
                reveal_strlit(">");
                assert(" <"@ =~= seq![' ', '<']);
                assert(">"@ =~= seq!['>']);
                assert(runs_of(target@) =~= runs_of(mid).push(run_of(span)));
                assert(runs_of(target@) =~= runs_of(tgt) + inline_runs(*source, style, footnotes.names()));
                assert(inline_names_in(*source, footnotes.names()));
            }
        },
        Inline::SoftBreak => {
            let span = Span::raw(" ");
            target.push(span);
            proof {
                reveal_strlit(" ");
                assert(" "@ =~= seq![' ']);
                assert(runs_of(target@) =~= runs_of(tgt).push(run_of(span)));
                assert(runs_of(target@) =~= runs_of(tgt) + inline_runs(*source, style, footnotes.names()));
            }
        },
        Inline::Strong { children } => {
            return inlines(footnotes, children, target, style.add_modifier(Modifier::Bold));
        },
        Inline::Strikethrough { children } => {
            return inlines(footnotes, children, target, style.add_modifier(Modifier::CrossedOut));
        },
        Inline::Text { text } => {
            let span = Span { content: text.clone(), style };
            target.push(span);
            proof {
                assert(runs_of(target@) =~= runs_of(tgt).push(run_of(span)));
                assert(runs_of(target@) =~= runs_of(tgt) + inline_runs(*source, style, footnotes.names()));
            }
        },
        Inline::Unsupported { kind, line } => {
            return Err(TransformError::Unsupported { kind: kind.clone(), line: *line });
        },
    }
    proof {
        assert forall|t: int| 0 <= t < tgt.len() implies target@[t] == tgt[t] by {}
        assert(target@.subrange(0, tgt.len() as int) =~= tgt);
    }
    Ok(())
}

// ---------------------------------------------------------------------------
// Blocks
// ---------------------------------------------------------------------------

/// Whether every cell of every row is supported.
pub open spec fn rows_ok(rows: Seq<TableRowNode>) -> bool {
    forall|r: int, c: int|
        0 <= r < rows.len() && 0 <= c < rows[r].cells@.len() ==> inlines_ok(#[trigger] rows[r].cells@[c]@)
}

/// Whether every footnote that a table refers to is in `names`.
pub open spec fn rows_names_in(rows: Seq<TableRowNode>, names: Seq<Seq<char>>) -> bool {
    forall|r: int, c: int|
        0 <= r < rows.len() && 0 <= c < rows[r].cells@.len() ==> inlines_names_in(
            #[trigger] rows[r].cells@[c]@,
            names,
        )
}

pub open spec fn cells_refs(cells: Seq<Vec<Inline>>) -> nat
    decreases cells.len(),
{
    if cells.len() == 0 {
        0
    } else {
        cells_refs(cells.drop_last()) + inlines_refs(cells.last()@)
    }
}

pub open spec fn rows_refs(rows: Seq<TableRowNode>) -> nat
    decreases rows.len(),
{
    if rows.len() == 0 {
        0
    } else {
        rows_refs(rows.drop_last()) + cells_refs(rows.last().cells@)
    }
}

/// A table cell becomes one line of the runs of its inlines.
pub open spec fn cell_matches(cell: Seq<Inline>, text: Text, style: Style, names: Seq<Seq<char>>) -> bool {
    &&& text.lines@.len() == 1
    &&& runs_of(text.lines@[0].spans@) == inlines_runs(cell, style, names)
}

/// Each row keeps its header flag, and each cell becomes its line.
pub open spec fn rows_match(rows: Seq<TableRowNode>, out: Seq<TableRow>, style: Style, names: Seq<Seq<char>>) -> bool {
    &&& out.len() == rows.len()
    &&& forall|r: int|
        0 <= r < rows.len() ==> (#[trigger] out[r]).is_header() == rows[r].header && out[r].cells_spec().len()
            == rows[r].cells@.len()
    &&& forall|r: int, c: int|
        0 <= r < rows.len() && 0 <= c < rows[r].cells@.len() ==> cell_matches(
            #[trigger] rows[r].cells@[c]@,
            out[r].cells_spec()[c],
            style,
            names,
        )
}

pub open spec fn cells_refd(cells: Seq<Vec<Inline>>) -> Set<Seq<char>>
    decreases cells.len(),
{
    if cells.len() == 0 {
        Set::empty()
    } else {
        cells_refd(cells.drop_last()).union(inlines_refd(cells.last()@))
    }
}

/// The names of the footnotes that the cells of a table refer to.
pub open spec fn rows_refd(rows: Seq<TableRowNode>) -> Set<Seq<char>>
    decreases rows.len(),
{
    if rows.len() == 0 {
        Set::empty()
    } else {
        rows_refd(rows.drop_last()).union(cells_refd(rows.last().cells@))
    }
}

/// The names of the footnotes that a block refers to, in its own text and
/// in footnote definitions inside it.
pub open spec fn block_refd(b: Block) -> Set<Seq<char>>
    decreases b,
{
    match b {
        Block::BlockQuote { children } => blocks_refd(children@),
        Block::FootnoteDefinition { children, .. } => blocks_refd(children@),
        Block::Heading { children, .. } => inlines_refd(children@),
        Block::Item { children, .. } => blocks_refd(children@),
        Block::List { children, .. } => blocks_refd(children@),
        Block::Paragraph { children } => inlines_refd(children@),
        Block::Table { rows } => rows_refd(rows@),
        _ => Set::empty(),
    }
}

pub open spec fn blocks_refd(bs: Seq<Block>) -> Set<Seq<char>>
    decreases bs,
{
    if bs.len() == 0 {
        Set::empty()
    } else {
        blocks_refd(bs.drop_last()).union(block_refd(bs.last()))
    }
}

pub open spec fn cells_err(cells: Seq<Vec<Inline>>) -> Option<ErrorView>
    decreases cells.len(),
{
    if cells.len() == 0 {
        None
    } else {
        match cells_err(cells.drop_last()) {
            Some(e) => Some(e),
            None => inlines_err(cells.last()@),
        }
    }
}

/// The first error in the cells of a table, row by row.
pub open spec fn rows_err(rows: Seq<TableRowNode>) -> Option<ErrorView>
    decreases rows.len(),
{
    if rows.len() == 0 {
        None
    } else {
        match rows_err(rows.drop_last()) {
            Some(e) => Some(e),
            None => cells_err(rows.last().cells@),
        }
    }
}

/// The first error in a block, in document order: an unsupported element,
/// or a heading whose level lies outside 1 to 6.
pub open spec fn block_err(b: Block) -> Option<ErrorView>
    decreases b,
{
    match b {
        Block::BlockQuote { children } => blocks_err(children@),
        Block::FootnoteDefinition { children, .. } => blocks_err(children@),
        Block::Heading { level, children } => if level < 1 || level > 6 {
            Some(ErrorView::HeadingLevel { level })
        } else {
            inlines_err(children@)
        },
        Block::Item { children, .. } => blocks_err(children@),
        Block::List { children, .. } => blocks_err(children@),
        Block::Paragraph { children } => inlines_err(children@),
        Block::Table { rows } => rows_err(rows@),
        Block::Unsupported { kind, line } => Some(ErrorView::Unsupported { kind: kind@, line }),
        _ => None,
    }
}

pub open spec fn blocks_err(bs: Seq<Block>) -> Option<ErrorView>
    decreases bs,
{
    if bs.len() == 0 {
        None
    } else {
        match blocks_err(bs.drop_last()) {
            Some(e) => Some(e),
            None => block_err(bs.last()),
        }
    }
}

proof fn lemma_cells_err_prefix(xs: Seq<Vec<Inline>>, n: int)
    requires
        0 <= n <= xs.len(),
        cells_err(xs.subrange(0, n)) is Some,
    ensures
        cells_err(xs) == cells_err(xs.subrange(0, n)),
    decreases xs.len(),
{
    if n < xs.len() {
        assert(xs.drop_last().subrange(0, n) =~= xs.subrange(0, n));
        lemma_cells_err_prefix(xs.drop_last(), n);
    } else {
        assert(xs.subrange(0, n) =~= xs);
    }
}

proof fn lemma_rows_err_prefix(xs: Seq<TableRowNode>, n: int)
    requires
        0 <= n <= xs.len(),
        rows_err(xs.subrange(0, n)) is Some,
    ensures
        rows_err(xs) == rows_err(xs.subrange(0, n)),
    decreases xs.len(),
{
    if n < xs.len() {
        assert(xs.drop_last().subrange(0, n) =~= xs.subrange(0, n));
        lemma_rows_err_prefix(xs.drop_last(), n);
    } else {
        assert(xs.subrange(0, n) =~= xs);
    }
}

proof fn lemma_blocks_err_prefix(xs: Seq<Block>, n: int)
    requires
        0 <= n <= xs.len(),
        blocks_err(xs.subrange(0, n)) is Some,
    ensures
        blocks_err(xs) == blocks_err(xs.subrange(0, n)),
    decreases xs.len(),
{
    if n < xs.len() {
        assert(xs.drop_last().subrange(0, n) =~= xs.subrange(0, n));
        lemma_blocks_err_prefix(xs.drop_last(), n);
    } else {
        assert(xs.subrange(0, n) =~= xs);
    }
}

/// Whether a block, and all inside it, can be presented: every element is
/// supported and headings have levels 1 to 6.
pub open spec fn block_ok(b: Block) -> bool
    decreases b,
{
    match b {
        Block::BlockQuote { children } => blocks_ok(children@),
        Block::FootnoteDefinition { children, .. } => blocks_ok(children@),
        Block::Heading { level, children } => 1 <= level <= 6 && inlines_ok(children@),
        Block::Item { children, .. } => blocks_ok(children@),
        Block::List { children, .. } => blocks_ok(children@),
        Block::Paragraph { children } => inlines_ok(children@),
        Block::Table { rows } => rows_ok(rows@),
        Block::Unsupported { .. } => false,
        _ => true,
    }
}

pub open spec fn blocks_ok(bs: Seq<Block>) -> bool
    decreases bs,
{
    if bs.len() == 0 {
        true
    } else {
        blocks_ok(bs.drop_last()) && block_ok(bs.last())
    }
}

/// The number of footnote references and definitions in a block.
pub open spec fn block_refs(b: Block) -> nat
    decreases b,
{
    match b {
        Block::BlockQuote { children } => blocks_refs(children@),
        Block::FootnoteDefinition { children, .. } => 1 + blocks_refs(children@),
        Block::Heading { children, .. } => inlines_refs(children@),
        Block::Item { children, .. } => blocks_refs(children@),
        Block::List { children, .. } => blocks_refs(children@),
        Block::Paragraph { children } => inlines_refs(children@),
        Block::Table { rows } => rows_refs(rows@),
        _ => 0,
    }
}

pub open spec fn blocks_refs(bs: Seq<Block>) -> nat
    decreases bs,
{
    if bs.len() == 0 {
        0
    } else {
        blocks_refs(bs.drop_last()) + block_refs(bs.last())
    }
}

/// Whether every footnote that a block refers to or defines is in `names`.
pub open spec fn block_names_in(b: Block, names: Seq<Seq<char>>) -> bool
    decreases b,
{
    match b {
        Block::BlockQuote { children } => blocks_names_in(children@, names),
        Block::FootnoteDefinition { name, children } => names.contains(name@) && blocks_names_in(children@, names),
        Block::Heading { children, .. } => inlines_names_in(children@, names),
        Block::Item { children, .. } => blocks_names_in(children@, names),
        Block::List { children, .. } => blocks_names_in(children@, names),
        Block::Paragraph { children } => inlines_names_in(children@, names),
        Block::Table { rows } => rows_names_in(rows@, names),
        _ => true,
    }
}

pub open spec fn blocks_names_in(bs: Seq<Block>, names: Seq<Seq<char>>) -> bool
    decreases bs,
{
    if bs.len() == 0 {
        true
    } else {
        blocks_names_in(bs.drop_last(), names) && block_names_in(bs.last(), names)
    }
}

/// How many sections a block yields: none for front matter and footnote
/// definitions, one otherwise.
pub open spec fn yields(b: Block) -> nat {
    match b {
        Block::FrontMatter { .. } => 0,
        Block::FootnoteDefinition { .. } => 0,
        _ => 1,
    }
}

pub open spec fn blocks_yield(bs: Seq<Block>) -> nat
    decreases bs.len(),
{
    if bs.len() == 0 {
        0
    } else {
        blocks_yield(bs.drop_last()) + yields(bs.last())
    }
}

/// The delimiter character of an ordered list item.
pub open spec fn delimiter_char(d: ListDelimiter) -> char {
    match d {
        ListDelimiter::Period => '.',
        ListDelimiter::Paren => ')',
    }
}

/// Whether `out` holds the sections that block `b` yields in `style`, with
/// footnote labels from `names`.
pub open spec fn block_matches(
    b: Block,
    out: Seq<Section>,
    style: Style,
    cfg: Configuration,
    names: Seq<Seq<char>>,
) -> bool
    decreases b,
{
    &&& out.len() == yields(b)
    &&& match b {
        Block::BlockQuote { children } => match out[0] {
            Section::BlockQuote { content } => content.inner_margin == 1 && blocks_match(
                children@,
                content.sections@,
                style.with_modifier(Modifier::Dim).with_modifier(Modifier::Italic),
                cfg,
                names,
            ),
            _ => false,
        },
        Block::CodeBlock { literal, .. } => match out[0] {
            Section::Code { text } => text.lines@.len() == code_lines(literal@).len() && forall|j: int|
                0 <= j < text.lines@.len() ==> line_chars(#[trigger] text.lines@[j]) == code_lines(literal@)[j],
            _ => false,
        },
        Block::Heading { level, children } => match out[0] {
            Section::Heading { text, level: l } => l == level && runs_of(text.spans@) == seq![
                (cfg.heading_styles@[level - 1].prefix@, Style::plain_spec()),
            ] + inlines_runs(children@, cfg.heading_styles@[level - 1].style, names),
            _ => false,
        },
        Block::Item { kind, delimiter, children } => match (kind, out[0]) {
            (ListKind::Ordered, Section::ListItemOrdered { content, ordinal, delimiter: d }) => ordinal == 0 && d
                == delimiter_char(delimiter) && content.inner_margin == 1 && blocks_match(
                children@,
                content.sections@,
                style,
                cfg,
                names,
            ),
            (ListKind::Bullet(c), Section::ListItemUnordered { content, bullet }) => bullet == c
                && content.inner_margin == 1 && blocks_match(children@, content.sections@, style, cfg, names),
            _ => false,
        },
        Block::List { start, children } => match out[0] {
            Section::List { content } => content.inner_margin == 0 && exists|pre: Seq<Section>|
                blocks_match(children@, pre, style, cfg, names) && #[trigger] renumbered(
                    pre,
                    content.sections@,
                    start as int,
                ),
            _ => false,
        },
        Block::Paragraph { children } => match out[0] {
            Section::Paragraph { text } => text.lines@.len() == 1 && runs_of(text.lines@[0].spans@)
                == inlines_runs(children@, style, names),
            _ => false,
        },
        Block::Table { rows } => match out[0] {
            Section::Table { rows: t } => rows_match(rows@, t@, style, names),
            _ => false,
        },
        Block::ThematicBreak => out[0] is ThematicBreak,
        _ => true,
    }
}

/// Whether `out` holds, in order, the sections that the blocks `bs` yield.
pub open spec fn blocks_match(
    bs: Seq<Block>,
    out: Seq<Section>,
    style: Style,
    cfg: Configuration,
    names: Seq<Seq<char>>,
) -> bool
    decreases bs,
{
    if bs.len() == 0 {
        out.len() == 0
    } else {
        let k = out.len() - yields(bs.last());
        &&& k >= 0
        &&& blocks_match(bs.drop_last(), out.subrange(0, k), style, cfg, names)
        &&& block_matches(bs.last(), out.subrange(k, out.len() as int), style, cfg, names)
    }
}

/// The names of the footnotes that a block defines, at any depth.
pub open spec fn block_defined(b: Block) -> Set<Seq<char>>
    decreases b,
{
    match b {
        Block::BlockQuote { children } => blocks_defined(children@),
        Block::FootnoteDefinition { name, children } => blocks_defined(children@).insert(name@),
        Block::Item { children, .. } => blocks_defined(children@),
        Block::List { children, .. } => blocks_defined(children@),
        _ => Set::empty(),
    }
}

pub open spec fn blocks_defined(bs: Seq<Block>) -> Set<Seq<char>>
    decreases bs,
{
    if bs.len() == 0 {
        Set::empty()
    } else {
        blocks_defined(bs.drop_last()).union(block_defined(bs.last()))
    }
}

/// Every name in `s` has an index in `f`, with content.
pub open spec fn has_content(f: Footnotes, s: Set<Seq<char>>) -> bool {
    forall|n: Seq<char>|
        #[trigger] s.contains(n) ==> f.names().contains(n) && f.contents()[index_of(f.names(), n)] is Some
}

proof fn lemma_has_content_stable(f1: Footnotes, f2: Footnotes, s: Set<Seq<char>>)
    requires
        f2.wf(),
        extends(f1, f2),
        has_content(f1, s),
    ensures
        has_content(f2, s),
{
    assert forall|n: Seq<char>| #[trigger] s.contains(n) implies f2.names().contains(n) && f2.contents()[index_of(
        f2.names(),
        n,
    )] is Some by {
        lemma_index_stable(f1, f2, n);
        crate::footnotes::lemma_contents_len(f1);
    }
}

/// For a footnote definition, `f` holds its name, with the sections of its
/// content, transformed in `style` made dim, as the name's content.
pub open spec fn defines(b: Block, f: Footnotes, style: Style, cfg: Configuration) -> bool {
    match b {
        Block::FootnoteDefinition { name, children } => {
            &&& f.names().contains(name@)
            &&& f.contents()[index_of(f.names(), name@)] is Some
            &&& f.contents()[index_of(f.names(), name@)]->0.inner_margin == 1
            &&& blocks_match(
                children@,
                f.contents()[index_of(f.names(), name@)]->0.sections@,
                style.with_modifier(Modifier::Dim),
                cfg,
                f.names(),
            )
        },
        _ => true,
    }
}

/// `after` keeps the names of `before` at their indices, and every content
/// defined in `before`.
pub open spec fn extends(before: Footnotes, after: Footnotes) -> bool {
    &&& grows(before, after)
    &&& forall|k: int|
        0 <= k < before.contents().len() && before.contents()[k] is Some ==> (
        #[trigger] after.contents()[k]) is Some
}

proof fn lemma_contains_grows(f1: Footnotes, f2: Footnotes, name: Seq<char>)
    requires
        grows(f1, f2),
        f1.names().contains(name),
    ensures
        f2.names().contains(name),
{
    let k = choose|k: int| 0 <= k < f1.names().len() && f1.names()[k] == name;
    assert(f2.names()[k] == name);
}

proof fn lemma_rows_stable(rows: Seq<TableRowNode>, out: Seq<TableRow>, style: Style, f1: Footnotes, f2: Footnotes)
    requires
        f2.wf(),
        grows(f1, f2),
        rows_names_in(rows, f1.names()),
        rows_match(rows, out, style, f1.names()),
    ensures
        rows_names_in(rows, f2.names()),
        rows_match(rows, out, style, f2.names()),
{
    assert forall|r: int, c: int| 0 <= r < rows.len() && 0 <= c < rows[r].cells@.len() implies inlines_names_in(
        #[trigger] rows[r].cells@[c]@,
        f2.names(),
    ) && cell_matches(rows[r].cells@[c]@, out[r].cells_spec()[c], style, f2.names()) by {
        lemma_inlines_stable(rows[r].cells@[c]@, style, f1, f2);
    }
}

/// What a block yields stays the same as the footnote table grows, once its
/// references are in it.
pub proof fn lemma_block_stable(b: Block, out: Seq<Section>, style: Style, cfg: Configuration, f1: Footnotes, f2: Footnotes)
    requires
        f2.wf(),
        grows(f1, f2),
        block_names_in(b, f1.names()),
        block_matches(b, out, style, cfg, f1.names()),
    ensures
        block_names_in(b, f2.names()),
        block_matches(b, out, style, cfg, f2.names()),
    decreases b,
{
    match b {
        Block::BlockQuote { children } => {
            if let Section::BlockQuote { content } = out[0] {
                lemma_blocks_stable(
                    children@,
                    content.sections@,
                    style.with_modifier(Modifier::Dim).with_modifier(Modifier::Italic),
                    cfg,
                    f1,
                    f2,
                );
            }
        },
        Block::FootnoteDefinition { name, children } => {
            lemma_contains_grows(f1, f2, name@);
            lemma_blocks_names_stable(children@, f1, f2);
        },
        Block::Heading { level, children } => {
            lemma_inlines_stable(children@, cfg.heading_styles@[level - 1].style, f1, f2);
        },
        Block::Item { kind, children, .. } => {
            match out[0] {
                Section::ListItemOrdered { content, .. } => lemma_blocks_stable(children@, content.sections@, style, cfg, f1, f2),
                Section::ListItemUnordered { content, .. } => lemma_blocks_stable(children@, content.sections@, style, cfg, f1, f2),
                _ => {},
            }
        },
        Block::List { start, children } => {
            if let Section::List { content } = out[0] {
                let pre = choose|pre: Seq<Section>|
                    blocks_match(children@, pre, style, cfg, f1.names()) && #[trigger] renumbered(pre, content.sections@, start as int);
                lemma_blocks_stable(children@, pre, style, cfg, f1, f2);
            }
        },
        Block::Paragraph { children } => {
            lemma_inlines_stable(children@, style, f1, f2);
        },
        Block::Table { rows } => {
            if let Section::Table { rows: t } = out[0] {
                lemma_rows_stable(rows@, t@, style, f1, f2);
            }
        },
        _ => {},
    }
}

pub proof fn lemma_blocks_stable(bs: Seq<Block>, out: Seq<Section>, style: Style, cfg: Configuration, f1: Footnotes, f2: Footnotes)
    requires
        f2.wf(),
        grows(f1, f2),
        blocks_names_in(bs, f1.names()),
        blocks_match(bs, out, style, cfg, f1.names()),
    ensures
        blocks_names_in(bs, f2.names()),
        blocks_match(bs, out, style, cfg, f2.names()),
    decreases bs,
{
    if bs.len() > 0 {
        let k = out.len() - yields(bs.last());
        lemma_blocks_stable(bs.drop_last(), out.subrange(0, k), style, cfg, f1, f2);
        lemma_block_stable(bs.last(), out.subrange(k, out.len() as int), style, cfg, f1, f2);
    }
}

/// Names referred to stay in the table as it grows.
proof fn lemma_block_names_stable(b: Block, f1: Footnotes, f2: Footnotes)
    requires
        f2.wf(),
        grows(f1, f2),
        block_names_in(b, f1.names()),
    ensures
        block_names_in(b, f2.names()),
    decreases b,
{
    match b {
        Block::BlockQuote { children } => lemma_blocks_names_stable(children@, f1, f2),
        Block::FootnoteDefinition { name, children } => {
            lemma_contains_grows(f1, f2, name@);
            lemma_blocks_names_stable(children@, f1, f2);
        },
        Block::Heading { children, .. } => lemma_inlines_stable(children@, Style::plain_spec(), f1, f2),
        Block::Item { children, .. } => lemma_blocks_names_stable(children@, f1, f2),
        Block::List { children, .. } => lemma_blocks_names_stable(children@, f1, f2),
        Block::Paragraph { children } => lemma_inlines_stable(children@, Style::plain_spec(), f1, f2),
        Block::Table { rows } => {
            assert forall|r: int, c: int| 0 <= r < rows@.len() && 0 <= c < rows@[r].cells@.len() implies inlines_names_in(
                #[trigger] rows@[r].cells@[c]@,
                f2.names(),
            ) by {
                lemma_inlines_stable(rows@[r].cells@[c]@, Style::plain_spec(), f1, f2);
            }
        },
        _ => {},
    }
}

proof fn lemma_blocks_names_stable(bs: Seq<Block>, f1: Footnotes, f2: Footnotes)
    requires
        f2.wf(),
        grows(f1, f2),
        blocks_names_in(bs, f1.names()),
    ensures
        blocks_names_in(bs, f2.names()),
    decreases bs,
{
    if bs.len() > 0 {
        lemma_blocks_names_stable(bs.drop_last(), f1, f2);
        lemma_block_names_stable(bs.last(), f1, f2);
    }
}

proof fn lemma_cells_refd_in(cells: Seq<Vec<Inline>>, names: Seq<Seq<char>>)
    requires
        forall|c: int| 0 <= c < cells.len() ==> inlines_names_in(#[trigger] cells[c]@, names),
    ensures
        forall|n: Seq<char>| #[trigger] cells_refd(cells).contains(n) ==> names.contains(n),
    decreases cells.len(),
{
    if cells.len() > 0 {
        lemma_cells_refd_in(cells.drop_last(), names);
        assert(inlines_names_in(cells[cells.len() - 1]@, names));
        lemma_inlines_refd_in(cells.last()@, names);
        assert forall|n: Seq<char>| #[trigger] cells_refd(cells).contains(n) implies names.contains(n) by {
            if !cells_refd(cells.drop_last()).contains(n) {
                assert(inlines_refd(cells.last()@).contains(n));
            }
        }
    }
}

proof fn lemma_rows_refd_in(rows: Seq<TableRowNode>, names: Seq<Seq<char>>)
    requires
        rows_names_in(rows, names),
    ensures
        forall|n: Seq<char>| #[trigger] rows_refd(rows).contains(n) ==> names.contains(n),
    decreases rows.len(),
{
    if rows.len() > 0 {
        let last = rows.len() - 1;
        assert(rows_names_in(rows.drop_last(), names)) by {
            assert forall|r: int, c: int| 0 <= r < rows.drop_last().len() && 0 <= c < rows.drop_last()[r].cells@.len() implies inlines_names_in(
                #[trigger] rows.drop_last()[r].cells@[c]@,
                names,
            ) by {
                assert(rows.drop_last()[r] == rows[r]);
                assert(inlines_names_in(rows[r].cells@[c]@, names));
            }
        }
        lemma_rows_refd_in(rows.drop_last(), names);
        assert forall|c: int| 0 <= c < rows.last().cells@.len() implies inlines_names_in(#[trigger] rows.last().cells@[c]@, names) by {
            assert(inlines_names_in(rows[last].cells@[c]@, names));
        }
        lemma_cells_refd_in(rows.last().cells@, names);
        assert forall|n: Seq<char>| #[trigger] rows_refd(rows).contains(n) implies names.contains(n) by {
            if !rows_refd(rows.drop_last()).contains(n) {
                assert(cells_refd(rows.last().cells@).contains(n));
            }
        }
    }
}

proof fn lemma_block_refd_in(b: Block, names: Seq<Seq<char>>)
    requires
        block_names_in(b, names),
    ensures
        forall|n: Seq<char>| #[trigger] block_refd(b).contains(n) ==> names.contains(n),
    decreases b,
{
    match b {
        Block::BlockQuote { children } => lemma_blocks_refd_in(children@, names),
        Block::FootnoteDefinition { children, .. } => lemma_blocks_refd_in(children@, names),
        Block::Heading { children, .. } => lemma_inlines_refd_in(children@, names),
        Block::Item { children, .. } => lemma_blocks_refd_in(children@, names),
        Block::List { children, .. } => lemma_blocks_refd_in(children@, names),
        Block::Paragraph { children } => lemma_inlines_refd_in(children@, names),
        Block::Table { rows } => lemma_rows_refd_in(rows@, names),
        _ => {},
    }
    assert forall|n: Seq<char>| #[trigger] block_refd(b).contains(n) implies names.contains(n) by {
        match b {
            Block::BlockQuote { children } => assert(blocks_refd(children@).contains(n)),
            Block::FootnoteDefinition { children, .. } => assert(blocks_refd(children@).contains(n)),
            Block::Heading { children, .. } => assert(inlines_refd(children@).contains(n)),
            Block::Item { children, .. } => assert(blocks_refd(children@).contains(n)),
            Block::List { children, .. } => assert(blocks_refd(children@).contains(n)),
            Block::Paragraph { children } => assert(inlines_refd(children@).contains(n)),
            Block::Table { rows } => assert(rows_refd(rows@).contains(n)),
            _ => {},
        }
    }
}

pub proof fn lemma_blocks_refd_in(bs: Seq<Block>, names: Seq<Seq<char>>)
    requires
        blocks_names_in(bs, names),
    ensures
        forall|n: Seq<char>| #[trigger] blocks_refd(bs).contains(n) ==> names.contains(n),
    decreases bs,
{
    if bs.len() > 0 {
        lemma_blocks_refd_in(bs.drop_last(), names);
        lemma_block_refd_in(bs.last(), names);
        assert forall|n: Seq<char>| #[trigger] blocks_refd(bs).contains(n) implies names.contains(n) by {
            if !blocks_refd(bs.drop_last()).contains(n) {
                assert(block_refd(bs.last()).contains(n));
            }
        }
    }
}

/// The state shared by the transformation of all pages of a document.
pub struct Context<'a> {
    pub configuration: &'a Configuration,
    pub footnotes: Footnotes,
    pub syntaxes: SyntaxSet,
    pub theme: Option<Theme>,
}

/// The name of the bundled theme that code is highlighted with.
pub const CODE_THEME: &'static str = "base16-ocean.dark";

impl<'a> Context<'a> {
    /// A context with an empty footnote table.
    pub fn new(configuration: &'a Configuration) -> (r: Context<'a>)
        ensures
            r.configuration == configuration,
            r.footnotes.wf(),
            r.footnotes.names().len() == 0,
            r.footnotes.referenced().is_empty(),
    {
        Context {
            configuration,
            footnotes: Footnotes::new(),
            syntaxes: default_syntaxes(),
            theme: bundled_theme(CODE_THEME),
        }
    }

    /// The lines of a code block, highlighted for the syntax that `info`
    /// names where highlighting succeeds, and unstyled otherwise.
    pub fn code(&self, info: &String, literal: &String) -> (r: Text)
        ensures
            r.lines@.len() == code_lines(literal@).len(),
            forall|j: int| 0 <= j < r.lines@.len() ==> line_chars(#[trigger] r.lines@[j]) == code_lines(literal@)[j],
    {
        let lines = split_lines(literal.as_str());
        let mut highlighted: Option<Vec<Vec<Span>>> = None;
        if let Some(theme) = &self.theme {
            let mut h = highlighter(&self.syntaxes, theme, info.as_str());
            let mut out: Vec<Vec<Span>> = Vec::new();
            let mut ok = true;
            let mut j: usize = 0;
            while j < lines.len() && ok
                invariant
                    j <= lines@.len(),
                    out@.len() == j,
                    forall|t: int| 0 <= t < j ==> chars_of_spans((#[trigger] out@[t])@) == lines@[t]@.push('\n'),
                decreases lines@.len() - j + if ok { 1int } else { 0int },
            {
                let mut text = string_of(&lines[j]);
                text.append("\n");
                proof {
                    reveal_strlit("\n");
                    assert(text@ =~= lines@[j as int]@.push('\n'));
                }
                match highlight_line(&mut h, text.as_str(), &self.syntaxes) {
                    Some(tokens) => {
                        out.push(token_spans(tokens));
                        j += 1;
                    },
                    None => {
                        ok = false;
                    },
                }
            }
            if ok {
                highlighted = Some(out);
            }
        }
        let r = code_text(&lines, highlighted);
        proof {
            assert forall|j: int| 0 <= j < r.lines@.len() implies line_chars(#[trigger] r.lines@[j]) == code_lines(literal@)[j] by {
                assert(code_lines(literal@)[j] == lines@[j]@);
            }
        }
        r
    }
}

/// The lines of a code block from its source lines and, where every line
/// was highlighted, the highlighted runs of each line with its line feed.
/// Highlighted runs are cut before the line feed and keep their styles;
/// without highlighting each line is one unstyled run.
pub fn code_text(lines: &Vec<Vec<char>>, highlighted: Option<Vec<Vec<Span>>>) -> (r: Text)
    requires
        highlighted is Some ==> highlighted->0@.len() == lines@.len() && forall|j: int|
            0 <= j < lines@.len() ==> chars_of_spans((#[trigger] highlighted->0@[j])@) == lines@[j]@.push('\n'),
    ensures
        r.lines@.len() == lines@.len(),
        forall|j: int| 0 <= j < r.lines@.len() ==> line_chars(#[trigger] r.lines@[j]) == lines@[j]@,
        highlighted is None ==> forall|j: int|
            0 <= j < r.lines@.len() ==> (#[trigger] r.lines@[j]).spans@.len() == 1 && r.lines@[j].spans@[0].style
                == Style::plain_spec(),
        highlighted is Some ==> forall|j: int|
            0 <= j < r.lines@.len() ==> (#[trigger] r.lines@[j]).spans@.len() == highlighted->0@[j]@.len() && forall|k: int|
                0 <= k < r.lines@[j].spans@.len() ==> r.lines@[j].spans@[k].style == highlighted->0@[j]@[k].style,
{
    let mut out: Vec<Line> = Vec::new();
    let mut j: usize = 0;
    match &highlighted {
        Some(h) => {
            while j < lines.len()
                invariant
                    j <= lines@.len(),
                    h@.len() == lines@.len(),
                    forall|t: int| 0 <= t < lines@.len() ==> chars_of_spans((#[trigger] h@[t])@) == lines@[t]@.push('\n'),
                    out@.len() == j,
                    forall|t: int| 0 <= t < j ==> line_chars(#[trigger] out@[t]) == lines@[t]@,
                    forall|t: int|
                        0 <= t < j ==> (#[trigger] out@[t]).spans@.len() == h@[t]@.len() && forall|k: int|
                            0 <= k < out@[t].spans@.len() ==> out@[t].spans@[k].style == h@[t]@[k].style,
                decreases lines@.len() - j,
            {
                let cut = truncate_spans(&h[j], lines[j].len());
                proof {
                    assert(lines@[j as int]@.push('\n').subrange(0, lines@[j as int]@.len() as int) =~= lines@[j as int]@);
                }
                out.push(Line { spans: cut });
                j += 1;
            }
        },
        None => {
            while j < lines.len()
                invariant
                    j <= lines@.len(),
                    out@.len() == j,
                    forall|t: int| 0 <= t < j ==> line_chars(#[trigger] out@[t]) == lines@[t]@,
                    forall|t: int|
                        0 <= t < j ==> (#[trigger] out@[t]).spans@.len() == 1 && out@[t].spans@[0].style == Style::plain_spec(),
                decreases lines@.len() - j,
            {
                let span = Span { content: string_of(&lines[j]), style: Style::plain() };
                let line = Line { spans: vec![span] };
                proof {
                    assert(line.spans@.len() == 1);
                    assert(line.spans@.drop_last() =~= Seq::<Span>::empty());
                    assert(line.spans@.last() == span);
                    assert(chars_of_spans(Seq::<Span>::empty()) == Seq::<char>::empty());
                    assert(chars_of_spans(line.spans@.drop_last()) == Seq::<char>::empty());
                    assert(Seq::<char>::empty() + span.content@ =~= span.content@);
                    assert(chars_of_spans(line.spans@) == span.content@);
                }
                out.push(line);
                j += 1;
            }
        },
    }
    Text { lines: out }
}

proof fn lemma_cells_refs_prefix(cells: Seq<Vec<Inline>>, k: int)
    requires
        0 <= k < cells.len(),
    ensures
        cells_refs(cells.subrange(0, k + 1)) == cells_refs(cells.subrange(0, k)) + inlines_refs(cells[k]@),
        cells_refs(cells.subrange(0, k + 1)) <= cells_refs(cells),
    decreases cells.len(),
{
    assert(cells.subrange(0, k + 1).drop_last() =~= cells.subrange(0, k));
    if k + 1 < cells.len() {
        lemma_cells_refs_prefix(cells.drop_last(), k);
        assert(cells.drop_last().subrange(0, k + 1) =~= cells.subrange(0, k + 1));
    } else {
        assert(cells.subrange(0, k + 1) =~= cells);
    }
}

proof fn lemma_rows_refs_prefix(rows: Seq<TableRowNode>, k: int)
    requires
        0 <= k < rows.len(),
    ensures
        rows_refs(rows.subrange(0, k + 1)) == rows_refs(rows.subrange(0, k)) + cells_refs(rows[k].cells@),
        rows_refs(rows.subrange(0, k + 1)) <= rows_refs(rows),
    decreases rows.len(),
{
    assert(rows.subrange(0, k + 1).drop_last() =~= rows.subrange(0, k));
    if k + 1 < rows.len() {
        lemma_rows_refs_prefix(rows.drop_last(), k);
        assert(rows.drop_last().subrange(0, k + 1) =~= rows.subrange(0, k + 1));
    } else {
        assert(rows.subrange(0, k + 1) =~= rows);
    }
}

/// The line of one table cell.
fn cell(footnotes: &mut Footnotes, source: &Vec<Inline>, style: Style) -> (r: Result<Text, TransformError>)
    requires
        old(footnotes).wf(),
        old(footnotes).names().len() + inlines_refs(source@) < usize::MAX,
    ensures
        final(footnotes).wf(),
        grows(*old(footnotes), *final(footnotes)),
        keeps_contents(*old(footnotes), *final(footnotes)),
        final(footnotes).names().len() <= old(footnotes).names().len() + inlines_refs(source@),
        r is Ok <==> inlines_ok(source@),
        r is Ok ==> inlines_names_in(source@, final(footnotes).names()) && cell_matches(
            source@,
            r->Ok_0,
            style,
            final(footnotes).names(),
        ),
        r is Ok ==> marks(*old(footnotes), *final(footnotes), inlines_refd(source@)),
        r is Ok ==> inlines_err(source@) is None,
        r is Err ==> inlines_err(source@) == Some(error_view(r->Err_0)),
{
    let mut spans: Vec<Span> = Vec::new();
    let res = inlines(footnotes, source, &mut spans, style);
    match res {
        Ok(()) => {
            proof {
                assert(runs_of(Seq::<Span>::empty()) =~= Seq::<Run>::empty());
                assert(Seq::<Run>::empty() + inlines_runs(source@, style, footnotes.names()) =~= inlines_runs(source@, style, footnotes.names()));
            }
            Ok(Text { lines: vec![Line { spans }] })
        },
        Err(e) => Err(e),
    }
}

/// The rows of a table.
#[verifier::spinoff_prover]
fn table_rows(footnotes: &mut Footnotes, rows: &Vec<TableRowNode>, style: Style) -> (r: Result<Vec<TableRow>, TransformError>)
    requires
        old(footnotes).wf(),
        old(footnotes).names().len() + rows_refs(rows@) < usize::MAX,
    ensures
        final(footnotes).wf(),
        grows(*old(footnotes), *final(footnotes)),
        keeps_contents(*old(footnotes), *final(footnotes)),
        final(footnotes).names().len() <= old(footnotes).names().len() + rows_refs(rows@),
        r is Ok <==> rows_ok(rows@),
        r is Ok ==> rows_names_in(rows@, final(footnotes).names()) && rows_match(
            rows@,
            r->Ok_0@,
            style,
            final(footnotes).names(),
        ),
        r is Ok ==> marks(*old(footnotes), *final(footnotes), rows_refd(rows@)),
        r is Ok ==> rows_err(rows@) is None,
        r is Err ==> rows_err(rows@) == Some(error_view(r->Err_0)),
{
    let mut out: Vec<TableRow> = Vec::new();
    let mut i: usize = 0;
    proof {
        assert(rows@.subrange(0, 0) =~= Seq::<TableRowNode>::empty());
        assert(indices_of(footnotes.names(), rows_refd(rows@.subrange(0, 0))) =~= Set::empty());
        assert(footnotes.referenced() =~= footnotes.referenced().union(Set::empty()));
    }
    while i < rows.len()
        invariant
            i <= rows@.len(),
            footnotes.wf(),
            grows(*old(footnotes), *footnotes),
            keeps_contents(*old(footnotes), *footnotes),
            footnotes.names().len() <= old(footnotes).names().len() + rows_refs(rows@.subrange(0, i as int)),
            old(footnotes).names().len() + rows_refs(rows@) < usize::MAX,
            rows_ok(rows@.subrange(0, i as int)),
            rows_names_in(rows@.subrange(0, i as int), footnotes.names()),
            rows_match(rows@.subrange(0, i as int), out@, style, footnotes.names()),
            marks(*old(footnotes), *footnotes, rows_refd(rows@.subrange(0, i as int))),
            rows_err(rows@.subrange(0, i as int)) is None,
        decreases rows@.len() - i,
    {
        proof {
            lemma_rows_refs_prefix(rows@, i as int);
        }
        let src = &rows[i];
        let mut row = TableRow::new(src.header);
        let ghost start = *footnotes;
        let mut c: usize = 0;
        proof {
            assert(src.cells@.subrange(0, 0) =~= Seq::<Vec<Inline>>::empty());
            assert(indices_of(footnotes.names(), cells_refd(src.cells@.subrange(0, 0))) =~= Set::empty());
            assert(footnotes.referenced() =~= footnotes.referenced().union(Set::empty()));
        }
        while c < src.cells.len()
            invariant
                i < rows@.len(),
                *src == rows@[i as int],
                c <= src.cells@.len(),
                footnotes.wf(),
                grows(start, *footnotes),
                keeps_contents(start, *footnotes),
                grows(*old(footnotes), start),
                keeps_contents(*old(footnotes), start),
                start.wf(),
                footnotes.names().len() <= start.names().len() + cells_refs(src.cells@.subrange(0, c as int)),
                start.names().len() + cells_refs(src.cells@) <= old(footnotes).names().len() + rows_refs(rows@),
                old(footnotes).names().len() + rows_refs(rows@) < usize::MAX,
                row.is_header() == src.header,
                row.cells_spec().len() == c,
                forall|t: int| 0 <= t < c ==> inlines_ok(#[trigger] src.cells@[t]@),
                forall|t: int| 0 <= t < c ==> inlines_names_in(#[trigger] src.cells@[t]@, footnotes.names()),
                forall|t: int| 0 <= t < c ==> cell_matches(#[trigger] src.cells@[t]@, row.cells_spec()[t], style, footnotes.names()),
                marks(start, *footnotes, cells_refd(src.cells@.subrange(0, c as int))),
                cells_err(src.cells@.subrange(0, c as int)) is None,
                rows_err(rows@.subrange(0, i as int)) is None,
            decreases src.cells@.len() - c,
        {
            proof {
                lemma_cells_refs_prefix(src.cells@, c as int);
            }
            let ghost before = *footnotes;
            let res = cell(footnotes, &src.cells[c], style);
            match res {
                Ok(text) => {
                    proof {
                        assert forall|t: int| 0 <= t < c implies inlines_names_in(#[trigger] src.cells@[t]@, footnotes.names())
                            && cell_matches(src.cells@[t]@, row.cells_spec()[t], style, footnotes.names()) by {
                            lemma_inlines_stable(src.cells@[t]@, style, before, *footnotes);
                        }
                        let pre = src.cells@.subrange(0, c as int);
                        assert(src.cells@.subrange(0, c + 1).drop_last() =~= pre);
                        assert(cells_err(src.cells@.subrange(0, c + 1)) is None);
                        assert forall|t: int| 0 <= t < pre.len() implies inlines_names_in(#[trigger] pre[t]@, before.names()) by {
                            assert(pre[t] == src.cells@[t]);
                        }
                        lemma_cells_refd_in(pre, before.names());
                        lemma_indices_stable(before, *footnotes, cells_refd(pre));
                        lemma_indices_union(footnotes.names(), cells_refd(pre), inlines_refd(src.cells@[c as int]@));
                        assert(footnotes.referenced() =~= start.referenced().union(
                            indices_of(footnotes.names(), cells_refd(src.cells@.subrange(0, c + 1))),
                        ));
                        crate::footnotes::lemma_contents_len(start);
                        crate::footnotes::lemma_contents_len(before);
                    }
                    row.push(text);
                },
                Err(e) => {
                    proof {
                        assert(src.cells@.subrange(0, c + 1).drop_last() =~= src.cells@.subrange(0, c as int));
                        lemma_cells_err_prefix(src.cells@, c + 1);
                        assert(rows@.subrange(0, i + 1).drop_last() =~= rows@.subrange(0, i as int));
                        lemma_rows_err_prefix(rows@, i + 1);
                        assert(!rows_ok(rows@)) by {
                            assert(!inlines_ok(rows@[i as int].cells@[c as int]@));
                        }
                        crate::footnotes::lemma_contents_len(*old(footnotes));
                        crate::footnotes::lemma_contents_len(start);
                        crate::footnotes::lemma_contents_len(before);
                    }
                    return Err(e);
                },
            }
            c += 1;
        }
        proof {
            let pre = rows@.subrange(0, i as int);
            let next = rows@.subrange(0, i + 1);
            lemma_rows_stable(pre, out@, style, start, *footnotes);
            assert(src.cells@.subrange(0, c as int) =~= src.cells@);
            assert(next.drop_last() =~= pre);
            assert(rows_err(next) is None);
            lemma_rows_refd_in(pre, start.names());
            lemma_indices_stable(start, *footnotes, rows_refd(pre));
            lemma_indices_union(footnotes.names(), rows_refd(pre), cells_refd(src.cells@));
            assert(footnotes.referenced() =~= old(footnotes).referenced().union(
                indices_of(footnotes.names(), rows_refd(next)),
            ));
            crate::footnotes::lemma_contents_len(*old(footnotes));
            crate::footnotes::lemma_contents_len(start);
            assert(cells_refs(src.cells@.subrange(0, c as int)) == cells_refs(src.cells@)) by {
                assert(src.cells@.subrange(0, c as int) =~= src.cells@);
            }
            assert forall|r: int, k: int| 0 <= r < next.len() && 0 <= k < next[r].cells@.len() implies inlines_ok(#[trigger] next[r].cells@[k]@) by {
                if r < i {
                    assert(pre[r] == next[r]);
                }
            }
            assert forall|r: int, k: int| 0 <= r < next.len() && 0 <= k < next[r].cells@.len() implies inlines_names_in(#[trigger] next[r].cells@[k]@, footnotes.names()) by {
                if r < i {
                    assert(pre[r] == next[r]);
                }
            }
        }
        let ghost prev = out@;
        out.push(row);
        proof {
            let pre = rows@.subrange(0, i as int);
            let next = rows@.subrange(0, i + 1);
            assert forall|r: int| 0 <= r < next.len() implies (#[trigger] out@[r]).is_header() == next[r].header && out@[r].cells_spec().len()
                == next[r].cells@.len() by {
                if r < i {
                    assert(pre[r] == next[r]);
                    assert(out@[r] == prev[r]);
                }
            }
            assert forall|r: int, k: int| 0 <= r < next.len() && 0 <= k < next[r].cells@.len() implies cell_matches(
                #[trigger] next[r].cells@[k]@,
                out@[r].cells_spec()[k],
                style,
                footnotes.names(),
            ) by {
                if r < i {
                    assert(pre[r] == next[r]);
                    assert(out@[r] == prev[r]);
                }
            }
        }
        i += 1;
    }
    proof {
        assert(rows@.subrange(0, i as int) =~= rows@);
    }
    Ok(out)
}

/// `after` is `before` with more at its end.
pub open spec fn appended<T>(before: Seq<T>, after: Seq<T>) -> bool {
    before.len() <= after.len() && after.subrange(0, before.len() as int) == before
}

/// What `after` has gained on `before`.
pub open spec fn gained<T>(before: Seq<T>, after: Seq<T>) -> Seq<T> {
    after.subrange(before.len() as int, after.len() as int)
}

/// The transformation of elements holding at most `refs` footnote
/// references and definitions took the context from `before` to `after`.
pub open spec fn advanced(before: Context, after: Context, refs: nat) -> bool {
    &&& after.configuration == before.configuration
    &&& after.footnotes.wf()
    &&& extends(before.footnotes, after.footnotes)
    &&& after.footnotes.names().len() <= before.footnotes.names().len() + refs
}

proof fn lemma_keeps_extends(f1: Footnotes, f2: Footnotes)
    requires
        grows(f1, f2),
        keeps_contents(f1, f2),
    ensures
        extends(f1, f2),
{
}

proof fn lemma_extends_trans(f1: Footnotes, f2: Footnotes, f3: Footnotes)
    requires
        extends(f1, f2),
        extends(f2, f3),
    ensures
        extends(f1, f3),
{
    crate::footnotes::lemma_contents_len(f1);
    crate::footnotes::lemma_contents_len(f2);
}

proof fn lemma_blocks_refs_prefix(bs: Seq<Block>, k: int)
    requires
        0 <= k < bs.len(),
    ensures
        blocks_refs(bs.subrange(0, k + 1)) == blocks_refs(bs.subrange(0, k)) + block_refs(bs[k]),
        blocks_refs(bs.subrange(0, k + 1)) <= blocks_refs(bs),
    decreases bs.len(),
{
    assert(bs.subrange(0, k + 1).drop_last() =~= bs.subrange(0, k));
    if k + 1 < bs.len() {
        lemma_blocks_refs_prefix(bs.drop_last(), k);
        assert(bs.drop_last().subrange(0, k + 1) =~= bs.subrange(0, k + 1));
    } else {
        assert(bs.subrange(0, k + 1) =~= bs);
    }
}

proof fn lemma_blocks_ok_prefix(bs: Seq<Block>, k: int)
    requires
        0 <= k < bs.len(),
        !block_ok(bs[k]),
    ensures
        !blocks_ok(bs),
    decreases bs.len(),
{
    if k < bs.len() - 1 {
        lemma_blocks_ok_prefix(bs.drop_last(), k);
    }
}

/// Appends to `target` the sections that the blocks `sources` yield in
/// `style`.
#[verifier::spinoff_prover]
pub fn sections(
    ctx: &mut Context,
    sources: &Vec<Block>,
    target: &mut Vec<Section>,
    style: Style,
) -> (r: Result<(), TransformError>)
    requires
        old(ctx).footnotes.wf(),
        old(ctx).configuration.wf(),
        old(ctx).footnotes.names().len() + blocks_refs(sources@) < usize::MAX,
    ensures
        advanced(*old(ctx), *final(ctx), blocks_refs(sources@)),
        r is Ok <==> blocks_ok(sources@),
        r is Ok ==> appended(old(target)@, final(target)@) && blocks_names_in(sources@, final(ctx).footnotes.names())
            && blocks_match(
            sources@,
            gained(old(target)@, final(target)@),
            style,
            *final(ctx).configuration,
            final(ctx).footnotes.names(),
        ),
        r is Ok ==> marks(old(ctx).footnotes, final(ctx).footnotes, blocks_refd(sources@)),
        r is Ok ==> blocks_err(sources@) is None,
        r is Err ==> blocks_err(sources@) == Some(error_view(r->Err_0)),
        r is Ok ==> has_content(final(ctx).footnotes, blocks_defined(sources@)),
    decreases sources, 1nat,
{
    let ghost t0 = target@;
    let n = sources.len();
    let mut k: usize = 0;
    proof {
        assert(gained(t0, target@) =~= Seq::<Section>::empty());
        assert(target@.subrange(0, t0.len() as int) =~= t0);
        assert(sources@.subrange(0, 0) =~= Seq::<Block>::empty());
        assert(indices_of(ctx.footnotes.names(), blocks_refd(sources@.subrange(0, 0))) =~= Set::empty());
        assert(ctx.footnotes.referenced() =~= ctx.footnotes.referenced().union(Set::empty()));
    }
    while k < n
        invariant
            n == sources@.len(),
            k <= n,
            ctx.configuration == old(ctx).configuration,
            ctx.configuration.wf(),
            ctx.footnotes.wf(),
            extends(old(ctx).footnotes, ctx.footnotes),
            ctx.footnotes.names().len() <= old(ctx).footnotes.names().len() + blocks_refs(sources@.subrange(0, k as int)),
            old(ctx).footnotes.names().len() + blocks_refs(sources@) < usize::MAX,
            t0 == old(target)@,
            appended(t0, target@),
            blocks_ok(sources@.subrange(0, k as int)),
            blocks_names_in(sources@.subrange(0, k as int), ctx.footnotes.names()),
            blocks_match(sources@.subrange(0, k as int), gained(t0, target@), style, *ctx.configuration, ctx.footnotes.names()),
            marks(old(ctx).footnotes, ctx.footnotes, blocks_refd(sources@.subrange(0, k as int))),
            blocks_err(sources@.subrange(0, k as int)) is None,
            has_content(ctx.footnotes, blocks_defined(sources@.subrange(0, k as int))),
        decreases n - k,
    {
        let ghost before = ctx.footnotes;
        let ghost tb = target@;
        let ghost prefix = sources@.subrange(0, k as int);
        proof {
            assert(sources@.subrange(0, k + 1).drop_last() =~= prefix);
            lemma_blocks_refs_prefix(sources@, k as int);
            assert(decreases_to!(sources => sources@[k as int]));
        }
        let res = section(ctx, &sources[k], target, style);
        if res.is_err() {
            proof {
                lemma_blocks_err_prefix(sources@, k + 1);
                lemma_blocks_ok_prefix(sources@, k as int);
                lemma_extends_trans(old(ctx).footnotes, before, ctx.footnotes);
            }
            return res;
        }
        proof {
            lemma_extends_trans(old(ctx).footnotes, before, ctx.footnotes);
            lemma_blocks_stable(prefix, gained(t0, tb), style, *ctx.configuration, before, ctx.footnotes);
            lemma_has_content_stable(before, ctx.footnotes, blocks_defined(prefix));
            lemma_blocks_refd_in(prefix, before.names());
            lemma_indices_stable(before, ctx.footnotes, blocks_refd(prefix));
            lemma_indices_union(ctx.footnotes.names(), blocks_refd(prefix), block_refd(sources@[k as int]));
            assert(ctx.footnotes.referenced() =~= old(ctx).footnotes.referenced().union(
                indices_of(ctx.footnotes.names(), blocks_refd(sources@.subrange(0, k + 1))),
            ));
            let next = sources@.subrange(0, k + 1);
            let all = gained(t0, target@);
            let y = yields(sources@[k as int]);
            assert(all.len() - y == gained(t0, tb).len());
            assert(all.subrange(0, all.len() - y) =~= gained(t0, tb));
            assert(all.subrange(all.len() - y, all.len() as int) =~= gained(tb, target@));
            assert(target@.subrange(0, t0.len() as int) =~= t0) by {
                assert(target@.subrange(0, tb.len() as int) == tb);
                assert(tb.subrange(0, t0.len() as int) == t0);
            }
        }
        k += 1;
    }
    proof {
        assert(sources@.subrange(0, n as int) =~= sources@);
    }
    Ok(())
}

/// Appends to `target` the section that the block `source` yields in
/// `style`, if any; a footnote definition goes to the footnote table.
#[verifier::rlimit(80)]
#[verifier::spinoff_prover]
pub fn section(
    ctx: &mut Context,
    source: &Block,
    target: &mut Vec<Section>,
    style: Style,
) -> (r: Result<(), TransformError>)
    requires
        old(ctx).footnotes.wf(),
        old(ctx).configuration.wf(),
        old(ctx).footnotes.names().len() + block_refs(*source) < usize::MAX,
    ensures
        advanced(*old(ctx), *final(ctx), block_refs(*source)),
        r is Ok <==> block_ok(*source),
        r is Ok ==> appended(old(target)@, final(target)@) && block_names_in(*source, final(ctx).footnotes.names())
            && block_matches(
            *source,
            gained(old(target)@, final(target)@),
            style,
            *final(ctx).configuration,
            final(ctx).footnotes.names(),
        ),
        r is Ok ==> marks(old(ctx).footnotes, final(ctx).footnotes, block_refd(*source)),
        r is Ok ==> block_err(*source) is None,
        r is Err ==> block_err(*source) == Some(error_view(r->Err_0)),
        r is Ok ==> defines(*source, final(ctx).footnotes, style, *final(ctx).configuration),
        r is Ok ==> has_content(final(ctx).footnotes, block_defined(*source)),
    decreases source, 0nat,
{
    let ghost t0 = target@;
    let cfg = ctx.configuration;
    proof {
        crate::footnotes::lemma_contents_len(ctx.footnotes);
        assert(indices_of(ctx.footnotes.names(), Set::empty()) =~= Set::empty());
        assert(ctx.footnotes.referenced() =~= ctx.footnotes.referenced().union(Set::empty()));
    }
    match source {
        Block::BlockQuote { children } => {
            let mut content: Vec<Section> = Vec::new();
            let res = sections(ctx, children, &mut content, style.add_modifier(Modifier::Dim).add_modifier(Modifier::Italic));
            if res.is_err() {
                return res;
            }
            let sec = Section::BlockQuote { content: Sections::from_vec(content) };
            target.push(sec);
            proof {
                assert(gained(Seq::<Section>::empty(), content@) =~= content@);
                assert(gained(t0, target@) =~= seq![sec]);
                assert(target@.subrange(0, t0.len() as int) =~= t0);
            }
        },
        Block::CodeBlock { info, literal } => {
            let text = ctx.code(info, literal);
            let sec = Section::Code { text };
            target.push(sec);
            proof {
                assert(gained(t0, target@) =~= seq![sec]);
                assert(target@.subrange(0, t0.len() as int) =~= t0);
            }
        },
        Block::FrontMatter { .. } => {
            proof {
                assert(gained(t0, target@) =~= Seq::<Section>::empty());
                assert(target@.subrange(0, t0.len() as int) =~= t0);
            }
        },
        Block::FootnoteDefinition { name, children } => {
            let mut content: Vec<Section> = Vec::new();
            let res = sections(ctx, children, &mut content, style.add_modifier(Modifier::Dim));
            if res.is_err() {
                return res;
            }
            let ghost mid = ctx.footnotes;
            let ghost cv = content@;
            let defined = Sections::from_vec(content);
            let ghost dv = defined;
            let index = ctx.footnotes.definition(name.as_str(), defined);
            proof {
                crate::footnotes::lemma_contents_len(mid);
                crate::footnotes::lemma_contents_len(ctx.footnotes);
                assert(extends(mid, ctx.footnotes)) by {
                    if mid.names().contains(name@) {
                        assert forall|k: int| 0 <= k < mid.contents().len() && mid.contents()[k] is Some implies (
                        #[trigger] ctx.footnotes.contents()[k]) is Some by {
                            if k != index {
                                assert(ctx.footnotes.contents()[k] == mid.contents()[k]);
                            }
                        }
                    } else {
                        assert forall|k: int| 0 <= k < mid.contents().len() && mid.contents()[k] is Some implies (
                        #[trigger] ctx.footnotes.contents()[k]) is Some by {
                            assert(ctx.footnotes.contents()[k] == mid.contents()[k]);
                        }
                        assert forall|k: int| 0 <= k < mid.names().len() implies ctx.footnotes.names()[k] == mid.names()[k] by {
                            assert(ctx.footnotes.names()[k] == mid.names().push(name@)[k]);
                        }
                    }
                }
                lemma_extends_trans(old(ctx).footnotes, mid, ctx.footnotes);
                lemma_blocks_names_stable(children@, mid, ctx.footnotes);
                lemma_blocks_refd_in(children@, mid.names());
                lemma_indices_stable(mid, ctx.footnotes, blocks_refd(children@));
                assert(gained(Seq::<Section>::empty(), cv) =~= cv);
                lemma_blocks_stable(children@, cv, style.with_modifier(Modifier::Dim), *cfg, mid, ctx.footnotes);
                let k2 = index_of(ctx.footnotes.names(), name@);
                crate::footnotes::lemma_names_unique(ctx.footnotes, index as int, k2);
                crate::footnotes::lemma_contents_len(ctx.footnotes);
                assert(ctx.footnotes.contents()[index as int] == Some(dv));
                lemma_has_content_stable(mid, ctx.footnotes, blocks_defined(children@));
                assert(ctx.footnotes.names().contains(name@)) by {
                    assert(ctx.footnotes.names()[index as int] == name@);
                }
                assert(gained(t0, target@) =~= Seq::<Section>::empty());
                assert(target@.subrange(0, t0.len() as int) =~= t0);
            }
        },
        Block::Heading { level, children } => {
            if *level < 1 || *level > 6 {
                return Err(TransformError::HeadingLevel { level: *level });
            }
            let hs = &cfg.heading_styles[(*level - 1) as usize];
            let prefix = Span { content: hs.prefix.clone(), style: Style::plain() };
            let mut spans: Vec<Span> = vec![prefix];
            let ghost first = spans@;
            let res = inlines(&mut ctx.footnotes, children, &mut spans, hs.style);
            if res.is_err() {
                proof {
                    lemma_keeps_extends(old(ctx).footnotes, ctx.footnotes);
                }
                return res;
            }
            let sec = Section::Heading { text: Line { spans }, level: *level };
            target.push(sec);
            proof {
                lemma_keeps_extends(old(ctx).footnotes, ctx.footnotes);
                assert(runs_of(first) =~= seq![(hs.prefix@, Style::plain_spec())]);
                assert(gained(t0, target@) =~= seq![sec]);
                assert(target@.subrange(0, t0.len() as int) =~= t0);
            }
        },
        Block::Item { kind, delimiter, children } => {
            let mut content: Vec<Section> = Vec::new();
            let res = sections(ctx, children, &mut content, style);
            if res.is_err() {
                return res;
            }
            let content = Sections::from_vec(content);
            let sec = match kind {
                ListKind::Ordered => Section::ListItemOrdered {
                    content,
                    ordinal: 0,
                    delimiter: match delimiter {
                        ListDelimiter::Period => '.',
                        ListDelimiter::Paren => ')',
                    },
                },
                ListKind::Bullet(c) => Section::ListItemUnordered { content, bullet: *c },
            };
            target.push(sec);
            proof {
                assert(gained(Seq::<Section>::empty(), content.sections@) =~= content.sections@);
                assert(gained(t0, target@) =~= seq![sec]);
                assert(target@.subrange(0, t0.len() as int) =~= t0);
            }
        },
        Block::List { start, children } => {
            let mut content: Vec<Section> = Vec::new();
            let res = sections(ctx, children, &mut content, style);
            if res.is_err() {
                return res;
            }
            let ghost pre = content@;
            let mut content = Sections::from_vec(content);
            content.inner_margin = 0;
            content.list_item_reorder(*start);
            let sec = Section::List { content };
            target.push(sec);
            proof {
                assert(gained(Seq::<Section>::empty(), pre) =~= pre);
                assert(blocks_match(children@, pre, style, *cfg, ctx.footnotes.names()) && renumbered(pre, content.sections@, *start as int));
                assert(gained(t0, target@) =~= seq![sec]);
                assert(target@.subrange(0, t0.len() as int) =~= t0);
            }
        },
        Block::Paragraph { children } => {
            let mut spans: Vec<Span> = Vec::new();
            let res = inlines(&mut ctx.footnotes, children, &mut spans, style);
            if res.is_err() {
                proof {
                    lemma_keeps_extends(old(ctx).footnotes, ctx.footnotes);
                }
                return res;
            }
            let sec = Section::Paragraph { text: Text { lines: vec![Line { spans }] } };
            target.push(sec);
            proof {
                lemma_keeps_extends(old(ctx).footnotes, ctx.footnotes);
                assert(runs_of(Seq::<Span>::empty()) =~= Seq::<Run>::empty());
                assert(Seq::<Run>::empty() + inlines_runs(children@, style, ctx.footnotes.names()) =~= inlines_runs(children@, style, ctx.footnotes.names()));
                assert(gained(t0, target@) =~= seq![sec]);
                assert(target@.subrange(0, t0.len() as int) =~= t0);
            }
        },
        Block::Table { rows } => {
            let res = table_rows(&mut ctx.footnotes, rows, style);
            proof {
                lemma_keeps_extends(old(ctx).footnotes, ctx.footnotes);
            }
            match res {
                Ok(rows) => {
                    let sec = Section::Table { rows };
                    target.push(sec);
                    proof {
                        assert(gained(t0, target@) =~= seq![sec]);
                        assert(target@.subrange(0, t0.len() as int) =~= t0);
                    }
                },
                Err(e) => {
                    return Err(e);
                },
            }
        },
        Block::ThematicBreak => {
            target.push(Section::ThematicBreak);
            proof {
                assert(gained(t0, target@) =~= seq![Section::ThematicBreak]);
                assert(target@.subrange(0, t0.len() as int) =~= t0);
            }
        },
        Block::Unsupported { kind, line } => {
            return Err(TransformError::Unsupported { kind: kind.clone(), line: *line });
        },
    }
    Ok(())
}

/// The top-level elements of `page`, in order.
pub open spec fn page_blocks(document: Document, page: Page) -> Seq<Block> {
    page.nodes@.map_values(|i: usize| document.nodes@[i as int].block)
}

/// Whether every index of `page` names an element of `document`.
pub open spec fn page_in(document: Document, page: Page) -> bool {
    forall|k: int| 0 <= k < page.nodes@.len() ==> (#[trigger] page.nodes@[k]) < document.nodes@.len()
}

impl Sections {
    /// The sections of a page, in the configured default style, separated
    /// by one row.
    #[verifier::spinoff_prover]
    pub fn from_page(ctx: &mut Context, document: &Document, page: &Page) -> (r: Result<Sections, TransformError>)
        requires
            old(ctx).footnotes.wf(),
            old(ctx).configuration.wf(),
            page_in(*document, *page),
            old(ctx).footnotes.names().len() + blocks_refs(page_blocks(*document, *page)) < usize::MAX,
        ensures
            advanced(*old(ctx), *final(ctx), blocks_refs(page_blocks(*document, *page))),
            r is Ok <==> blocks_ok(page_blocks(*document, *page)),
            r is Ok ==> r->Ok_0.inner_margin == 1 && blocks_names_in(page_blocks(*document, *page), final(ctx).footnotes.names())
                && blocks_match(
                page_blocks(*document, *page),
                r->Ok_0.sections@,
                old(ctx).configuration.default_style,
                *final(ctx).configuration,
                final(ctx).footnotes.names(),
            ),
            r is Ok ==> marks(old(ctx).footnotes, final(ctx).footnotes, blocks_refd(page_blocks(*document, *page))),
            r is Err ==> blocks_err(page_blocks(*document, *page)) == Some(error_view(r->Err_0)),
            r is Ok ==> has_content(final(ctx).footnotes, blocks_defined(page_blocks(*document, *page))),
    {
        let ghost bs = page_blocks(*document, *page);
        let style = ctx.configuration.default_style;
        let mut target: Vec<Section> = Vec::new();
        let n = page.nodes.len();
        let mut k: usize = 0;
        proof {
            assert(bs.subrange(0, 0) =~= Seq::<Block>::empty());
            assert(indices_of(ctx.footnotes.names(), blocks_refd(bs.subrange(0, 0))) =~= Set::empty());
            assert(ctx.footnotes.referenced() =~= ctx.footnotes.referenced().union(Set::empty()));
        }
        while k < n
            invariant
                n == bs.len(),
                bs == page_blocks(*document, *page),
                page_in(*document, *page),
                style == old(ctx).configuration.default_style,
                k <= n,
                ctx.configuration == old(ctx).configuration,
                ctx.configuration.wf(),
                ctx.footnotes.wf(),
                extends(old(ctx).footnotes, ctx.footnotes),
                ctx.footnotes.names().len() <= old(ctx).footnotes.names().len() + blocks_refs(bs.subrange(0, k as int)),
                old(ctx).footnotes.names().len() + blocks_refs(bs) < usize::MAX,
                blocks_ok(bs.subrange(0, k as int)),
                blocks_names_in(bs.subrange(0, k as int), ctx.footnotes.names()),
                blocks_match(bs.subrange(0, k as int), target@, style, *ctx.configuration, ctx.footnotes.names()),
                marks(old(ctx).footnotes, ctx.footnotes, blocks_refd(bs.subrange(0, k as int))),
                blocks_err(bs.subrange(0, k as int)) is None,
                has_content(ctx.footnotes, blocks_defined(bs.subrange(0, k as int))),
            decreases n - k,
        {
            let ghost before = ctx.footnotes;
            let ghost tb = target@;
            let ghost prefix = bs.subrange(0, k as int);
            proof {
                assert(bs.subrange(0, k + 1).drop_last() =~= prefix);
                lemma_blocks_refs_prefix(bs, k as int);
            }
            let index = page.nodes[k];
            let res = section(ctx, &document.nodes[index].block, &mut target, style);
            if res.is_err() {
                proof {
                    lemma_blocks_err_prefix(bs, k + 1);
                    lemma_blocks_ok_prefix(bs, k as int);
                    lemma_extends_trans(old(ctx).footnotes, before, ctx.footnotes);
                }
                return Err(res.unwrap_err());
            }
            proof {
                lemma_extends_trans(old(ctx).footnotes, before, ctx.footnotes);
                lemma_blocks_stable(prefix, tb, style, *ctx.configuration, before, ctx.footnotes);
                lemma_has_content_stable(before, ctx.footnotes, blocks_defined(prefix));
                lemma_blocks_refd_in(prefix, before.names());
                lemma_indices_stable(before, ctx.footnotes, blocks_refd(prefix));
                lemma_indices_union(ctx.footnotes.names(), blocks_refd(prefix), block_refd(bs[k as int]));
                assert(ctx.footnotes.referenced() =~= old(ctx).footnotes.referenced().union(
                    indices_of(ctx.footnotes.names(), blocks_refd(bs.subrange(0, k + 1))),
                ));
                let all = target@;
                let y = yields(bs[k as int]);
                assert(all.subrange(0, all.len() - y) =~= tb);
                assert(all.subrange(all.len() - y, all.len() as int) =~= gained(tb, target@));
            }
            k += 1;
        }
        proof {
            assert(bs.subrange(0, n as int) =~= bs);
        }
        Ok(Sections::from_vec(target))
    }
}

} // verus!
