//! The report on a difference: what it says, line by line, and with which
//! emphasis. Painting is left to the caller.
use crate::diff::ConfigDiff;
use crate::path_map::PathMap;
use crate::render::{digits, get_val_string, rendered};
use crate::value::{Doc, Value};
use vstd::prelude::*;
use vstd::string::StringExecFns;

verus! {

/// The emphasis of a piece of text.
#[derive(Clone, Copy, Debug, PartialEq, Eq, Structural)]
pub enum Style {
    Plain,
    Bold,
    BlueBold,
    Green,
    GreenBold,
    Red,
    RedBold,
    Yellow,
    YellowBold,
}

/// A piece of the report: a text with its emphasis, or the end of a line.
#[derive(Debug)]
pub enum Piece {
    Text(Style, String),
    LineEnd,
}

/// The mathematical view of a [`Piece`].
pub ghost enum PieceView {
    Text(Style, Seq<char>),
    LineEnd,
}

impl View for Piece {
    type V = PieceView;

    open spec fn view(&self) -> PieceView {
        match self {
            Piece::Text(style, text) => PieceView::Text(*style, text@),
            Piece::LineEnd => PieceView::LineEnd,
        }
    }
}

/// The views of a list of pieces.
pub open spec fn piece_views(pieces: Seq<Piece>) -> Seq<PieceView> {
    Seq::new(pieces.len(), |i: int| pieces[i]@)
}

/// The three parts of a report.
#[derive(Clone, Copy, Debug, PartialEq, Eq, Structural)]
pub enum Part {
    Added,
    Removed,
    Modified,
}

/// The emphasis of the entries of a part.
pub open spec fn part_style(part: Part) -> Style {
    match part {
        Part::Added => Style::Green,
        Part::Removed => Style::Red,
        Part::Modified => Style::Yellow,
    }
}

/// The emphasis of the heading of a part.
pub open spec fn heading_style(part: Part) -> Style {
    match part {
        Part::Added => Style::GreenBold,
        Part::Removed => Style::RedBold,
        Part::Modified => Style::YellowBold,
    }
}

/// The label of a part in the summary.
pub open spec fn count_label(part: Part) -> Seq<char> {
    match part {
        Part::Added => "  新增: "@,
        Part::Removed => "  删除: "@,
        Part::Modified => "  修改: "@,
    }
}

/// The heading of a part.
pub open spec fn heading(part: Part) -> Seq<char> {
    match part {
        Part::Added => "新增的配置项:"@,
        Part::Removed => "删除的配置项:"@,
        Part::Modified => "修改的配置项:"@,
    }
}

/// The mark before an added or a removed entry.
pub open spec fn entry_mark(part: Part) -> Seq<char> {
    match part {
        Part::Added => "  + "@,
        _ => "  - "@,
    }
}

/// The line of the summary that counts the entries of a part.
pub open spec fn count_line(part: Part, count: nat) -> Seq<PieceView> {
    seq![
        PieceView::Text(Style::Plain, count_label(part)),
        PieceView::Text(part_style(part), digits(count)),
        PieceView::LineEnd,
    ]
}

/// The title, and the summary with the number of entries of each part.
pub open spec fn summary(added: nat, removed: nat, modified: nat) -> Seq<PieceView> {
    seq![
        PieceView::Text(Style::Bold, "=== YAML 配置文件差异报告 ==="@),
        PieceView::LineEnd,
        PieceView::LineEnd,
        PieceView::Text(Style::BlueBold, "统计信息:"@),
        PieceView::LineEnd,
    ] + count_line(Part::Added, added) + count_line(Part::Removed, removed) + count_line(
        Part::Modified,
        modified,
    ) + seq![PieceView::LineEnd]
}

/// The line of an added or a removed entry: the mark, the path, a colon and
/// the text of the leaf.
pub open spec fn entry_line(part: Part, e: (Seq<char>, Doc)) -> Seq<PieceView> {
    seq![
        PieceView::Text(Style::Plain, entry_mark(part)),
        PieceView::Text(part_style(part), e.0),
        PieceView::Text(Style::Plain, ": "@),
        PieceView::Text(part_style(part), rendered(e.1)),
        PieceView::LineEnd,
    ]
}

/// The lines of the first `n` entries of an added or a removed part.
pub open spec fn entry_lines(part: Part, l: Seq<(Seq<char>, Doc)>, n: nat) -> Seq<PieceView>
    decreases n,
{
    if n == 0 || n > l.len() {
        Seq::empty()
    } else {
        entry_lines(part, l, (n - 1) as nat) + entry_line(part, l[n - 1])
    }
}

/// The three lines of a modified entry: the path, the text of the old leaf
/// and the text of the new one.
pub open spec fn change_line(e: (Seq<char>, (Doc, Doc))) -> Seq<PieceView> {
    seq![
        PieceView::Text(Style::Plain, "  ~ "@),
        PieceView::Text(Style::Yellow, e.0),
        PieceView::LineEnd,
        PieceView::Text(Style::Plain, "  修改前 "@),
        PieceView::Text(Style::Yellow, rendered(e.1.0)),
        PieceView::LineEnd,
        PieceView::Text(Style::Plain, "  修改后 "@),
        PieceView::Text(Style::Yellow, rendered(e.1.1)),
        PieceView::LineEnd,
    ]
}

/// The lines of the first `n` modified entries.
pub open spec fn change_lines(l: Seq<(Seq<char>, (Doc, Doc))>, n: nat) -> Seq<PieceView>
    decreases n,
{
    if n == 0 || n > l.len() {
        Seq::empty()
    } else {
        change_lines(l, (n - 1) as nat) + change_line(l[n - 1])
    }
}

/// A part of `count` entries with its heading before it and an empty line
/// after it, or nothing where the part has no entry.
pub open spec fn section(part: Part, count: nat, lines: Seq<PieceView>) -> Seq<PieceView> {
    if count == 0 {
        Seq::empty()
    } else {
        seq![PieceView::Text(heading_style(part), heading(part)), PieceView::LineEnd] + lines
            + seq![PieceView::LineEnd]
    }
}

/// The whole report on the three listings of a difference: the summary,
/// then the parts that have entries, each in the order of its listing, and
/// one line that says so where nothing differs.
pub open spec fn report_of(
    added: Seq<(Seq<char>, Doc)>,
    removed: Seq<(Seq<char>, Doc)>,
    modified: Seq<(Seq<char>, (Doc, Doc))>,
) -> Seq<PieceView> {
    summary(added.len(), removed.len(), modified.len()) + section(
        Part::Added,
        added.len(),
        entry_lines(Part::Added, added, added.len()),
    ) + section(
        Part::Removed,
        removed.len(),
        entry_lines(Part::Removed, removed, removed.len()),
    ) + section(Part::Modified, modified.len(), change_lines(modified, modified.len())) + if added.len() == 0 && removed.len() == 0 && modified.len() == 0 {
        seq![PieceView::Text(Style::Green, "没有发现配置差异"@), PieceView::LineEnd]
    } else {
        Seq::empty()
    }
}

/// The documents that the values of a listing stand for.
pub open spec fn listed_docs<'a>(l: Seq<(Seq<char>, &'a Value)>) -> Seq<(Seq<char>, Doc)> {
    Seq::new(l.len(), |i: int| (l[i].0, l[i].1@))
}

/// The pairs of documents that the values of a listing stand for.
pub open spec fn listed_pairs<'a>(l: Seq<(Seq<char>, (&'a Value, &'a Value))>) -> Seq<
    (Seq<char>, (Doc, Doc)),
> {
    Seq::new(l.len(), |i: int| (l[i].0, (l[i].1.0@, l[i].1.1@)))
}

/// Asks the standard library's `to_string` for the text of an unsigned
/// integer. Taken on trust: that the text is the decimal digits of the
/// integer, without leading zeros.
#[verifier::external_body]
fn count_text(n: usize) -> (r: String)
    ensures
        r@ == digits(n as nat),
{
    n.to_string()
}

/// The emphasis of the entries of a part.
fn part_style_of(part: Part) -> (r: Style)
    ensures
        r == part_style(part),
{
    match part {
        Part::Added => Style::Green,
        Part::Removed => Style::Red,
        Part::Modified => Style::Yellow,
    }
}

/// The emphasis of the heading of a part.
fn heading_style_of(part: Part) -> (r: Style)
    ensures
        r == heading_style(part),
{
    match part {
        Part::Added => Style::GreenBold,
        Part::Removed => Style::RedBold,
        Part::Modified => Style::YellowBold,
    }
}

/// The label of a part in the summary.
fn count_label_of(part: Part) -> (r: &'static str)
    ensures
        r@ == count_label(part),
{
    match part {
        Part::Added => "  新增: ",
        Part::Removed => "  删除: ",
        Part::Modified => "  修改: ",
    }
}

/// The heading of a part.
fn heading_of(part: Part) -> (r: &'static str)
    ensures
        r@ == heading(part),
{
    match part {
        Part::Added => "新增的配置项:",
        Part::Removed => "删除的配置项:",
        Part::Modified => "修改的配置项:",
    }
}

/// The mark before an added or a removed entry.
fn entry_mark_of(part: Part) -> (r: &'static str)
    ensures
        r@ == entry_mark(part),
{
    match part {
        Part::Added => "  + ",
        _ => "  - ",
    }
}

/// Adds a text to the report.
fn put(out: &mut Vec<Piece>, style: Style, text: &str)
    ensures
        piece_views(final(out)@) == piece_views(old(out)@).push(PieceView::Text(style, text@)),
{
    out.push(Piece::Text(style, String::from_str(text)));
    proof {
        assert(piece_views(out@) =~= piece_views(old(out)@).push(PieceView::Text(style, text@)));
    }
}

/// Ends a line of the report.
fn end_line(out: &mut Vec<Piece>)
    ensures
        piece_views(final(out)@) == piece_views(old(out)@).push(PieceView::LineEnd),
{
    out.push(Piece::LineEnd);
    proof {
        assert(piece_views(out@) =~= piece_views(old(out)@).push(PieceView::LineEnd));
    }
}

/// Adds the line of the summary that counts the entries of a part.
fn put_count(out: &mut Vec<Piece>, part: Part, count: usize)
    ensures
        piece_views(final(out)@) == piece_views(old(out)@) + count_line(part, count as nat),
{
    let number = count_text(count);
    put(out, Style::Plain, count_label_of(part));
    put(out, part_style_of(part), number.as_str());
    end_line(out);
    proof {
        assert(piece_views(out@) =~= piece_views(old(out)@) + count_line(part, count as nat));
    }
}

/// Adds an added or a removed part.
fn put_entries<'a>(out: &mut Vec<Piece>, part: Part, entries: &PathMap<&'a Value>)
    ensures
        piece_views(final(out)@) == piece_views(old(out)@) + section(
            part,
            entries.listing().len(),
            entry_lines(part, listed_docs(entries.listing()), entries.listing().len()),
        ),
{
    let ghost start = piece_views(out@);
    let ghost l = listed_docs(entries.listing());
    if entries.is_empty() {
        proof {
            assert(piece_views(out@) =~= start + Seq::<PieceView>::empty());
        }
        return ;
    }
    put(out, heading_style_of(part), heading_of(part));
    end_line(out);
    let ghost top = piece_views(out@);
    let mut i: usize = 0;
    proof {
        assert(piece_views(out@) =~= top + entry_lines(part, l, 0));
    }
    while i < entries.len()
        invariant
            i <= entries.listing().len(),
            l == listed_docs(entries.listing()),
            piece_views(out@) == top + entry_lines(part, l, i as nat),
        decreases entries.listing().len() - i,
    {
        if let Some((key, value)) = entries.entry(i) {
            let shown = get_val_string(*value);
            let ghost before = piece_views(out@);
            proof {
                reveal_strlit(": ");
            }
            put(out, Style::Plain, entry_mark_of(part));
            put(out, part_style_of(part), key.0.as_str());
            put(out, Style::Plain, ": ");
            put(out, part_style_of(part), shown.as_str());
            end_line(out);
            proof {
                assert(l[i as int] == (key@, value@));
                assert(piece_views(out@) =~= before + entry_line(part, l[i as int]));
                assert(piece_views(out@) =~= top + entry_lines(part, l, (i + 1) as nat));
            }
        }
        i = i + 1;
    }
    end_line(out);
    proof {
        assert(piece_views(out@) =~= start + section(
            part,
            entries.listing().len(),
            entry_lines(part, l, entries.listing().len()),
        ));
    }
}

/// Adds the modified part.
fn put_changes<'a>(out: &mut Vec<Piece>, entries: &PathMap<(&'a Value, &'a Value)>)
    ensures
        piece_views(final(out)@) == piece_views(old(out)@) + section(
            Part::Modified,
            entries.listing().len(),
            change_lines(listed_pairs(entries.listing()), entries.listing().len()),
        ),
{
    let ghost start = piece_views(out@);
    let ghost l = listed_pairs(entries.listing());
    if entries.is_empty() {
        proof {
            assert(piece_views(out@) =~= start + Seq::<PieceView>::empty());
        }
        return ;
    }
    put(out, heading_style_of(Part::Modified), heading_of(Part::Modified));
    end_line(out);
    let ghost top = piece_views(out@);
    let mut i: usize = 0;
    proof {
        assert(piece_views(out@) =~= top + change_lines(l, 0));
    }
    while i < entries.len()
        invariant
            i <= entries.listing().len(),
            l == listed_pairs(entries.listing()),
            piece_views(out@) == top + change_lines(l, i as nat),
        decreases entries.listing().len() - i,
    {
        if let Some((key, pair)) = entries.entry(i) {
            let before_text = get_val_string(pair.0);
            let after_text = get_val_string(pair.1);
            let ghost before = piece_views(out@);
            put(out, Style::Plain, "  ~ ");
            put(out, Style::Yellow, key.0.as_str());
            end_line(out);
            put(out, Style::Plain, "  修改前 ");
            put(out, Style::Yellow, before_text.as_str());
            end_line(out);
            put(out, Style::Plain, "  修改后 ");
            put(out, Style::Yellow, after_text.as_str());
            end_line(out);
            proof {
                assert(l[i as int] == (key@, (pair.0@, pair.1@)));
                assert(piece_views(out@) =~= before + change_line(l[i as int]));
                assert(piece_views(out@) =~= top + change_lines(l, (i + 1) as nat));
            }
        }
        i = i + 1;
    }
    end_line(out);
    proof {
        assert(piece_views(out@) =~= start + section(
            Part::Modified,
            entries.listing().len(),
            change_lines(l, entries.listing().len()),
        ));
    }
}

/// The report on a difference.
pub fn report<'a>(diff: &ConfigDiff<'a>) -> (r: Vec<Piece>)
    ensures
        piece_views(r@) == report_of(
            listed_docs(diff.added.listing()),
            listed_docs(diff.removed.listing()),
            listed_pairs(diff.modified.listing()),
        ),
{
    let mut out: Vec<Piece> = Vec::new();
    put(&mut out, Style::Bold, "=== YAML 配置文件差异报告 ===");
    end_line(&mut out);
    end_line(&mut out);
    put(&mut out, Style::BlueBold, "统计信息:");
    end_line(&mut out);
    put_count(&mut out, Part::Added, diff.added.len());
    put_count(&mut out, Part::Removed, diff.removed.len());
    put_count(&mut out, Part::Modified, diff.modified.len());
    end_line(&mut out);
    proof {
        assert(piece_views(out@) =~= summary(
            diff.added.listing().len(),
            diff.removed.listing().len(),
            diff.modified.listing().len(),
        ));
    }
    put_entries(&mut out, Part::Added, &diff.added);
    put_entries(&mut out, Part::Removed, &diff.removed);
    put_changes(&mut out, &diff.modified);
    let ghost body = piece_views(out@);
    if diff.added.is_empty() && diff.removed.is_empty() && diff.modified.is_empty() {
        put(&mut out, Style::Green, "没有发现配置差异");
        end_line(&mut out);
        proof {
            assert(piece_views(out@) =~= body + seq![
                PieceView::Text(Style::Green, "没有发现配置差异"@),
                PieceView::LineEnd,
            ]);
        }
    } else {
        proof {
            assert(piece_views(out@) =~= body + Seq::<PieceView>::empty());
        }
    }
    out
}

} // verus!
