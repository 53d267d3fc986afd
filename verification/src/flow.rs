//! Inline-embed flow layout: splitting processed markup into lines of text
//! runs and embed slots, plus the attribute lookup the embed renderers use.

use vstd::prelude::*;
use crate::markup::{attrs_view, AttrsView, EMBED_PLACEHOLDER};
use crate::strings::{chars_of, str_eq};

verus! {

/// `s` split at every `sep`, as `str::split` does: `k` separators give `k + 1`
/// pieces, empty pieces included.
pub open spec fn split_at_char(s: Seq<char>, sep: char) -> Seq<Seq<char>>
    decreases s.len(),
{
    if s.len() == 0 {
        seq![Seq::empty()]
    } else {
        let p = split_at_char(s.drop_last(), sep);
        if s.last() == sep {
            p.push(Seq::empty())
        } else {
            p.update(p.len() - 1, p.last().push(s.last()))
        }
    }
}

pub proof fn lemma_split_nonempty(s: Seq<char>, sep: char)
    ensures
        split_at_char(s, sep).len() >= 1,
    decreases s.len(),
{
    if s.len() > 0 {
        lemma_split_nonempty(s.drop_last(), sep);
    }
}

/// One element of a flow line: a text run, or a reference to an embed (by
/// index into the processed content's embeds).
#[derive(Debug, Clone, PartialEq, Eq)]
pub enum FlowItem<'a> {
    Text(&'a str),
    Embed(usize),
}

pub enum FlowItemView {
    Text(Seq<char>),
    Embed(nat),
}

impl<'a> View for FlowItem<'a> {
    type V = FlowItemView;

    open spec fn view(&self) -> FlowItemView {
        match self {
            FlowItem::Text(t) => FlowItemView::Text(t@),
            FlowItem::Embed(i) => FlowItemView::Embed(*i as nat),
        }
    }
}

/// The items of a line whose placeholder-separated segments are `segs`, the
/// line's first placeholder being embed number `base`: each non-empty segment
/// is a text run, and each placeholder between two segments an embed slot.
pub open spec fn line_items(segs: Seq<Seq<char>>, base: nat) -> Seq<FlowItemView>
    decreases segs.len(),
{
    if segs.len() == 0 {
        Seq::empty()
    } else {
        let j = (segs.len() - 1) as nat;
        let pre = line_items(segs.drop_last(), base);
        let with_embed = if j > 0 { pre.push(FlowItemView::Embed((base + j - 1) as nat)) } else { pre };
        if segs.last().len() > 0 {
            with_embed.push(FlowItemView::Text(segs.last()))
        } else {
            with_embed
        }
    }
}

/// The number of embed placeholders in the first `k` lines.
pub open spec fn placeholders_before(lines: Seq<Seq<char>>, k: int) -> nat
    decreases k,
{
    if k <= 0 {
        0
    } else {
        placeholders_before(lines, k - 1) + (split_at_char(lines[k - 1], EMBED_PLACEHOLDER).len() - 1) as nat
    }
}

/// The flow lines of `m`: one per `\n`-separated line, embeds numbered in
/// document order across all lines.
pub open spec fn flow_spec(m: Seq<char>) -> Seq<Seq<FlowItemView>> {
    let lines = split_at_char(m, '\n');
    Seq::new(
        lines.len(),
        |i: int| line_items(split_at_char(lines[i], EMBED_PLACEHOLDER), placeholders_before(lines, i)),
    )
}

proof fn lemma_line_items_text_nonempty(segs: Seq<Seq<char>>, base: nat)
    ensures
        forall|j: int|
            0 <= j < line_items(segs, base).len() ==> match #[trigger] line_items(segs, base)[j] {
                FlowItemView::Text(t) => t.len() > 0,
                FlowItemView::Embed(_) => true,
            },
    decreases segs.len(),
{
    if segs.len() > 0 {
        lemma_line_items_text_nonempty(segs.drop_last(), base);
        let pre = line_items(segs.drop_last(), base);
        assert forall|j: int| 0 <= j < line_items(segs, base).len() implies match #[trigger] line_items(
            segs,
            base,
        )[j] {
            FlowItemView::Text(t) => t.len() > 0,
            FlowItemView::Embed(_) => true,
        } by {
            if j < pre.len() {
                assert(line_items(segs, base)[j] == pre[j]);
            }
        }
    }
}

/// Flow lines never hold an empty text run: leading, trailing and adjacent
/// placeholders give embed slots only.
pub proof fn flow_text_runs_nonempty(m: Seq<char>)
    ensures
        forall|i: int, j: int|
            0 <= i < flow_spec(m).len() && 0 <= j < flow_spec(m)[i].len() ==> match #[trigger] flow_spec(
                m,
            )[i][j] {
                FlowItemView::Text(t) => t.len() > 0,
                FlowItemView::Embed(_) => true,
            },
{
    let lines = split_at_char(m, '\n');
    assert forall|i: int, j: int|
        0 <= i < flow_spec(m).len() && 0 <= j < flow_spec(m)[i].len() implies match #[trigger] flow_spec(
            m,
        )[i][j] {
            FlowItemView::Text(t) => t.len() > 0,
            FlowItemView::Embed(_) => true,
        } by {
        lemma_line_items_text_nonempty(
            split_at_char(lines[i], EMBED_PLACEHOLDER),
            placeholders_before(lines, i),
        );
    }
}

/// The embed indices of a flow line, in order.
pub open spec fn embed_slots(items: Seq<FlowItemView>) -> Seq<nat>
    decreases items.len(),
{
    if items.len() == 0 {
        Seq::empty()
    } else {
        let pre = embed_slots(items.drop_last());
        match items.last() {
            FlowItemView::Embed(i) => pre.push(i),
            FlowItemView::Text(_) => pre,
        }
    }
}

/// `n` consecutive numbers from `base`.
pub open spec fn count_from(base: nat, n: nat) -> Seq<nat> {
    Seq::new(n, |t: int| (base + t) as nat)
}

proof fn lemma_line_items_slots(segs: Seq<Seq<char>>, base: nat)
    ensures
        embed_slots(line_items(segs, base)) == count_from(
            base,
            if segs.len() == 0 { 0 } else { (segs.len() - 1) as nat },
        ),
    decreases segs.len(),
{
    if segs.len() > 0 {
        let j = (segs.len() - 1) as nat;
        lemma_line_items_slots(segs.drop_last(), base);
        let pre = line_items(segs.drop_last(), base);
        let with_embed = if j > 0 { pre.push(FlowItemView::Embed((base + j - 1) as nat)) } else { pre };
        if j > 0 {
            assert(with_embed.drop_last() == pre);
            assert(embed_slots(with_embed) =~= count_from(base, j));
        }
        if segs.last().len() > 0 {
            let full = with_embed.push(FlowItemView::Text(segs.last()));
            assert(full.drop_last() == with_embed);
        }
    }
}

/// Embeds are numbered in document order: line `i`'s embed slots are the
/// consecutive numbers that follow the placeholders of the lines before it,
/// one per placeholder of the line.
pub proof fn flow_numbers_embeds_in_order(m: Seq<char>, i: int)
    requires
        0 <= i < split_at_char(m, '\n').len(),
    ensures
        embed_slots(flow_spec(m)[i]) == count_from(
            placeholders_before(split_at_char(m, '\n'), i),
            (split_at_char(split_at_char(m, '\n')[i], EMBED_PLACEHOLDER).len() - 1) as nat,
        ),
{
    let lines = split_at_char(m, '\n');
    let segs = split_at_char(lines[i], EMBED_PLACEHOLDER);
    lemma_split_nonempty(lines[i], EMBED_PLACEHOLDER);
    lemma_line_items_slots(segs, placeholders_before(lines, i));
}

/// `parts` joined with `sep` between neighbours (as `join` does).
pub open spec fn join_with(parts: Seq<Seq<char>>, sep: char) -> Seq<char>
    decreases parts.len(),
{
    if parts.len() == 0 {
        Seq::empty()
    } else if parts.len() == 1 {
        parts[0]
    } else {
        join_with(parts.drop_last(), sep) + seq![sep] + parts.last()
    }
}

/// The text a flow line stands for: its runs, with the placeholder where each
/// embed slot is.
pub open spec fn line_text(items: Seq<FlowItemView>) -> Seq<char>
    decreases items.len(),
{
    if items.len() == 0 {
        Seq::empty()
    } else {
        line_text(items.drop_last()) + match items.last() {
            FlowItemView::Text(t) => t,
            FlowItemView::Embed(_) => seq![EMBED_PLACEHOLDER],
        }
    }
}

proof fn lemma_join_extend_last(p: Seq<Seq<char>>, sep: char, c: char)
    requires
        p.len() > 0,
    ensures
        join_with(p.update(p.len() - 1, p.last().push(c)), sep) == join_with(p, sep).push(c),
{
    let q = p.update(p.len() - 1, p.last().push(c));
    if p.len() > 1 {
        assert(q.drop_last() =~= p.drop_last());
        assert(join_with(q, sep) =~= join_with(p, sep).push(c));
    } else {
        assert(join_with(q, sep) =~= join_with(p, sep).push(c));
    }
}

/// Splitting at a character and joining the pieces with it gives the text back.
pub proof fn split_then_join(s: Seq<char>, sep: char)
    ensures
        join_with(split_at_char(s, sep), sep) == s,
    decreases s.len(),
{
    if s.len() > 0 {
        split_then_join(s.drop_last(), sep);
        lemma_split_nonempty(s.drop_last(), sep);
        let p = split_at_char(s.drop_last(), sep);
        if s.last() == sep {
            let q = p.push(Seq::empty());
            assert(q.drop_last() =~= p);
            assert(join_with(q, sep) =~= join_with(p, sep) + seq![sep] + Seq::<char>::empty());
            assert(s.drop_last().push(sep) =~= s);
        } else {
            lemma_join_extend_last(p, sep, s.last());
            assert(s.drop_last().push(s.last()) =~= s);
        }
    }
}

proof fn lemma_line_items_text(segs: Seq<Seq<char>>, base: nat)
    requires
        segs.len() > 0,
    ensures
        line_text(line_items(segs, base)) == join_with(segs, EMBED_PLACEHOLDER),
    decreases segs.len(),
{
    let j = (segs.len() - 1) as nat;
    let pre = line_items(segs.drop_last(), base);
    let with_embed = if j > 0 { pre.push(FlowItemView::Embed((base + j - 1) as nat)) } else { pre };
    if j > 0 {
        lemma_line_items_text(segs.drop_last(), base);
        assert(with_embed.drop_last() == pre);
        assert(line_text(with_embed) == line_text(pre) + seq![EMBED_PLACEHOLDER]);
    } else {
        assert(pre.len() == 0);
    }
    if segs.last().len() > 0 {
        let full = with_embed.push(FlowItemView::Text(segs.last()));
        assert(full.drop_last() == with_embed);
        assert(line_text(full) == line_text(with_embed) + segs.last());
    }
    if j == 0 {
        assert(join_with(segs, EMBED_PLACEHOLDER) == segs[0]);
        assert(segs.last() == segs[0]);
        assert(line_text(line_items(segs, base)) =~= segs[0]);
    } else {
        assert(line_text(line_items(segs, base)) =~= join_with(segs, EMBED_PLACEHOLDER));
    }
}

/// The flow lines rebuild the markup: each line's runs, with the placeholder
/// for each embed slot, joined with newlines give the markup back; there is
/// one line per `\n`-separated line of it.
pub proof fn flow_rebuilds_markup(m: Seq<char>)
    ensures
        flow_spec(m).len() == split_at_char(m, '\n').len(),
        join_with(Seq::new(flow_spec(m).len(), |i: int| line_text(flow_spec(m)[i])), '\n') == m,
{
    let lines = split_at_char(m, '\n');
    let texts = Seq::new(flow_spec(m).len(), |i: int| line_text(flow_spec(m)[i]));
    assert forall|i: int| 0 <= i < lines.len() implies texts[i] == lines[i] by {
        let segs = split_at_char(lines[i], EMBED_PLACEHOLDER);
        lemma_split_nonempty(lines[i], EMBED_PLACEHOLDER);
        lemma_line_items_text(segs, placeholders_before(lines, i));
        split_then_join(lines[i], EMBED_PLACEHOLDER);
    }
    assert(texts =~= lines);
    split_then_join(m, '\n');
}

/// How many times `c` occurs in `s`.
pub open spec fn count_char(s: Seq<char>, c: char) -> nat
    decreases s.len(),
{
    if s.len() == 0 {
        0
    } else {
        count_char(s.drop_last(), c) + if s.last() == c { 1nat } else { 0nat }
    }
}

proof fn lemma_count_concat(a: Seq<char>, b: Seq<char>, c: char)
    ensures
        count_char(a + b, c) == count_char(a, c) + count_char(b, c),
    decreases b.len(),
{
    if b.len() == 0 {
        assert(a + b =~= a);
    } else {
        lemma_count_concat(a, b.drop_last(), c);
        assert((a + b).drop_last() =~= a + b.drop_last());
    }
}

proof fn lemma_split_count(s: Seq<char>, c: char)
    ensures
        split_at_char(s, c).len() == count_char(s, c) + 1,
    decreases s.len(),
{
    if s.len() > 0 {
        lemma_split_count(s.drop_last(), c);
    }
}

proof fn lemma_placeholders_count(lines: Seq<Seq<char>>, k: int)
    requires
        0 <= k <= lines.len(),
    ensures
        placeholders_before(lines, k) == count_char(
            join_with(lines.take(k), '\n'),
            EMBED_PLACEHOLDER,
        ),
    decreases k,
{
    if k > 0 {
        lemma_placeholders_count(lines, k - 1);
        lemma_split_count(lines[k - 1], EMBED_PLACEHOLDER);
        let t = lines.take(k);
        assert(t.drop_last() =~= lines.take(k - 1));
        assert(t.last() == lines[k - 1]);
        if k == 1 {
            assert(lines.take(0) =~= Seq::<Seq<char>>::empty());
            assert(join_with(t, '\n') == lines[0]);
        } else {
            let j = join_with(lines.take(k - 1), '\n');
            lemma_count_concat(j, seq!['\n'], EMBED_PLACEHOLDER);
            lemma_count_concat(j + seq!['\n'], lines[k - 1], EMBED_PLACEHOLDER);
            assert(count_char(seq!['\n'], EMBED_PLACEHOLDER) == 0) by {
                let nl = seq!['\n'];
                assert(nl.drop_last() =~= Seq::<char>::empty());
                assert(nl.last() == '\n');
                assert('\n' != EMBED_PLACEHOLDER);
                assert(count_char(nl.drop_last(), EMBED_PLACEHOLDER) == 0);
            }
        }
    }
}

/// Every placeholder of the markup gets an embed slot: the slots of all flow
/// lines together number as many as the markup holds placeholders (and, by
/// [`flow_numbers_embeds_in_order`], they are `0, 1, ...` in document order).
pub proof fn flow_counts_every_placeholder(m: Seq<char>)
    ensures
        placeholders_before(split_at_char(m, '\n'), split_at_char(m, '\n').len() as int) == count_char(
            m,
            EMBED_PLACEHOLDER,
        ),
{
    let lines = split_at_char(m, '\n');
    lemma_placeholders_count(lines, lines.len() as int);
    assert(lines.take(lines.len() as int) =~= lines);
    split_then_join(m, '\n');
}

pub open spec fn items_view<'a>(v: Seq<FlowItem<'a>>) -> Seq<FlowItemView> {
    v.map_values(|it: FlowItem<'a>| it@)
}

pub open spec fn lines_view<'a>(v: Seq<Vec<FlowItem<'a>>>) -> Seq<Seq<FlowItemView>> {
    v.map_values(|l: Vec<FlowItem<'a>>| items_view(l@))
}

/// The items of the completed segments of a line in progress (all but the
/// last, open segment), including the embed slot that closed the last one.
pub open spec fn partial_items(segs: Seq<Seq<char>>, base: nat) -> Seq<FlowItemView> {
    let pre = line_items(segs.drop_last(), base);
    if segs.len() >= 2 {
        pre.push(FlowItemView::Embed((base + segs.len() - 2) as nat))
    } else {
        pre
    }
}

proof fn lemma_placeholders_prefix(lines: Seq<Seq<char>>, other: Seq<Seq<char>>, k: int)
    requires
        0 <= k <= lines.len(),
        k <= other.len(),
        forall|i: int| 0 <= i < k ==> lines[i] == other[i],
    ensures
        placeholders_before(lines, k) == placeholders_before(other, k),
    decreases k,
{
    if k > 0 {
        lemma_placeholders_prefix(lines, other, k - 1);
    }
}


/// The line items once the open segment `last` is closed.
proof fn lemma_line_items_close(segs: Seq<Seq<char>>, base: nat)
    requires
        segs.len() >= 1,
    ensures
        line_items(segs, base) == (if segs.last().len() > 0 {
            partial_items(segs, base).push(FlowItemView::Text(segs.last()))
        } else {
            partial_items(segs, base)
        }),
{
}

/// The state of a flow walk after the characters `seen`.
pub open spec fn flow_walk_ok<'a>(
    seen: Seq<char>,
    done: Seq<Vec<FlowItem<'a>>>,
    cur: Seq<FlowItem<'a>>,
    open_seg: Seq<char>,
    embed_idx: nat,
) -> bool {
    let lines = split_at_char(seen, '\n');
    let segs = split_at_char(lines.last(), EMBED_PLACEHOLDER);
    let base = placeholders_before(lines, lines.len() - 1);
    &&& lines.len() >= 1
    &&& segs.len() >= 1
    &&& lines_view(done) =~= Seq::new(
        (lines.len() - 1) as nat,
        |k: int| line_items(split_at_char(lines[k], EMBED_PLACEHOLDER), placeholders_before(lines, k)),
    )
    &&& items_view(cur) == partial_items(segs, base)
    &&& segs.last() == open_seg
    &&& embed_idx == base + segs.len() - 1
}

proof fn lemma_flow_newline<'a>(
    seen: Seq<char>,
    done: Seq<Vec<FlowItem<'a>>>,
    cur: Seq<FlowItem<'a>>,
    fin: Vec<FlowItem<'a>>,
    open_seg: Seq<char>,
    embed_idx: nat,
)
    requires
        flow_walk_ok(seen, done, cur, open_seg, embed_idx),
        items_view(fin@) == (if open_seg.len() > 0 {
            items_view(cur).push(FlowItemView::Text(open_seg))
        } else {
            items_view(cur)
        }),
    ensures
        flow_walk_ok(seen.push('\n'), done.push(fin), Seq::empty(), Seq::empty(), embed_idx),
{
    let lines = split_at_char(seen, '\n');
    let segs = split_at_char(lines.last(), EMBED_PLACEHOLDER);
    let base = placeholders_before(lines, lines.len() - 1);
    let seen2 = seen.push('\n');
    assert(seen2.drop_last() =~= seen);
    let lines2 = split_at_char(seen2, '\n');
    assert(lines2 == lines.push(Seq::empty()));
    lemma_line_items_close(segs, base);
    assert(items_view(fin@) == line_items(segs, base));
    lemma_placeholders_prefix(lines, lines2, lines.len() - 1);
    assert(placeholders_before(lines2, lines.len() as int) == base + segs.len() - 1);
    assert forall|k: int| 0 <= k < lines.len() implies placeholders_before(lines2, k) == placeholders_before(lines, k) by {
        lemma_placeholders_prefix(lines, lines2, k);
    }
    let segs2 = split_at_char(lines2.last(), EMBED_PLACEHOLDER);
    assert(segs2 == seq![Seq::<char>::empty()]);
    assert(items_view(Seq::<FlowItem<'a>>::empty()) =~= partial_items(segs2, placeholders_before(lines2, lines2.len() - 1)));
    let target = Seq::new(
        (lines2.len() - 1) as nat,
        |k: int| line_items(split_at_char(lines2[k], EMBED_PLACEHOLDER), placeholders_before(lines2, k)),
    );
    let old_target = Seq::new(
        (lines.len() - 1) as nat,
        |k: int| line_items(split_at_char(lines[k], EMBED_PLACEHOLDER), placeholders_before(lines, k)),
    );
    assert(lines_view(done) == old_target);
    assert forall|k: int| 0 <= k < target.len() implies #[trigger] lines_view(done.push(fin))[k] == target[k] by {
        if k < lines.len() - 1 {
            assert(lines_view(done.push(fin))[k] == lines_view(done)[k]);
            assert(lines2[k] == lines[k]);
            assert(old_target[k] == target[k]);
        } else {
            assert(lines_view(done.push(fin))[k] == items_view(fin@));
            assert(lines2[k] == lines.last());
        }
    }
    assert(lines_view(done.push(fin)) =~= target);
}


proof fn lemma_flow_placeholder<'a>(
    seen: Seq<char>,
    done: Seq<Vec<FlowItem<'a>>>,
    cur: Seq<FlowItem<'a>>,
    cur2: Seq<FlowItem<'a>>,
    open_seg: Seq<char>,
    embed_idx: nat,
)
    requires
        flow_walk_ok(seen, done, cur, open_seg, embed_idx),
        items_view(cur2) == (if open_seg.len() > 0 {
            items_view(cur).push(FlowItemView::Text(open_seg))
        } else {
            items_view(cur)
        }).push(FlowItemView::Embed(embed_idx)),
    ensures
        flow_walk_ok(seen.push(EMBED_PLACEHOLDER), done, cur2, Seq::empty(), embed_idx + 1),
{
    let lines = split_at_char(seen, '\n');
    let segs = split_at_char(lines.last(), EMBED_PLACEHOLDER);
    let base = placeholders_before(lines, lines.len() - 1);
    let seen2 = seen.push(EMBED_PLACEHOLDER);
    assert(seen2.drop_last() =~= seen);
    let lines2 = split_at_char(seen2, '\n');
    assert(lines2 == lines.update(lines.len() - 1, lines.last().push(EMBED_PLACEHOLDER)));
    let last2 = lines.last().push(EMBED_PLACEHOLDER);
    assert(last2.drop_last() =~= lines.last());
    let segs2 = split_at_char(last2, EMBED_PLACEHOLDER);
    assert(segs2 == segs.push(Seq::empty()));
    assert(segs2.drop_last() =~= segs);
    lemma_line_items_close(segs, base);
    assert forall|k: int| 0 <= k < lines.len() implies placeholders_before(lines2, k) == placeholders_before(lines, k) by {
        lemma_placeholders_prefix(lines, lines2, k);
    }
    assert(lines2.last() == last2);
    let target = Seq::new(
        (lines2.len() - 1) as nat,
        |k: int| line_items(split_at_char(lines2[k], EMBED_PLACEHOLDER), placeholders_before(lines2, k)),
    );
    let old_target = Seq::new(
        (lines.len() - 1) as nat,
        |k: int| line_items(split_at_char(lines[k], EMBED_PLACEHOLDER), placeholders_before(lines, k)),
    );
    assert forall|k: int| 0 <= k < target.len() implies #[trigger] old_target[k] == target[k] by {
        assert(lines2[k] == lines[k]);
    }
    assert(target =~= old_target);
}

proof fn lemma_flow_other<'a>(
    seen: Seq<char>,
    done: Seq<Vec<FlowItem<'a>>>,
    cur: Seq<FlowItem<'a>>,
    open_seg: Seq<char>,
    embed_idx: nat,
    c: char,
)
    requires
        flow_walk_ok(seen, done, cur, open_seg, embed_idx),
        c != '\n',
        c != EMBED_PLACEHOLDER,
    ensures
        flow_walk_ok(seen.push(c), done, cur, open_seg.push(c), embed_idx),
{
    let lines = split_at_char(seen, '\n');
    let segs = split_at_char(lines.last(), EMBED_PLACEHOLDER);
    let base = placeholders_before(lines, lines.len() - 1);
    let seen2 = seen.push(c);
    assert(seen2.drop_last() =~= seen);
    let lines2 = split_at_char(seen2, '\n');
    assert(lines2 == lines.update(lines.len() - 1, lines.last().push(c)));
    let last2 = lines.last().push(c);
    assert(last2.drop_last() =~= lines.last());
    let segs2 = split_at_char(last2, EMBED_PLACEHOLDER);
    assert(segs2 == segs.update(segs.len() - 1, segs.last().push(c)));
    assert(segs2.drop_last() =~= segs.drop_last());
    assert forall|k: int| 0 <= k < lines.len() implies placeholders_before(lines2, k) == placeholders_before(lines, k) by {
        lemma_placeholders_prefix(lines, lines2, k);
    }
    assert(lines2.last() == last2);
    let target = Seq::new(
        (lines2.len() - 1) as nat,
        |k: int| line_items(split_at_char(lines2[k], EMBED_PLACEHOLDER), placeholders_before(lines2, k)),
    );
    let old_target = Seq::new(
        (lines.len() - 1) as nat,
        |k: int| line_items(split_at_char(lines[k], EMBED_PLACEHOLDER), placeholders_before(lines, k)),
    );
    assert forall|k: int| 0 <= k < target.len() implies #[trigger] old_target[k] == target[k] by {
        assert(lines2[k] == lines[k]);
    }
    assert(target =~= old_target);
}


proof fn lemma_flow_start<'a>(done: Seq<Vec<FlowItem<'a>>>, cur: Seq<FlowItem<'a>>)
    requires
        done.len() == 0,
        cur.len() == 0,
    ensures
        flow_walk_ok(Seq::empty(), done, cur, Seq::empty(), 0),
{
    let lines = split_at_char(Seq::<char>::empty(), '\n');
    assert(lines == seq![Seq::<char>::empty()]);
    let segs = split_at_char(lines.last(), EMBED_PLACEHOLDER);
    assert(segs == seq![Seq::<char>::empty()]);
    assert(segs.drop_last() =~= Seq::<Seq<char>>::empty());
    assert(items_view(cur) =~= partial_items(segs, 0));
    assert(lines_view(done) =~= Seq::<Seq<FlowItemView>>::empty());
}

proof fn lemma_flow_finish<'a>(
    seen: Seq<char>,
    done: Seq<Vec<FlowItem<'a>>>,
    cur: Seq<FlowItem<'a>>,
    fin: Vec<FlowItem<'a>>,
    open_seg: Seq<char>,
    embed_idx: nat,
)
    requires
        flow_walk_ok(seen, done, cur, open_seg, embed_idx),
        items_view(fin@) == (if open_seg.len() > 0 {
            items_view(cur).push(FlowItemView::Text(open_seg))
        } else {
            items_view(cur)
        }),
    ensures
        lines_view(done.push(fin)) == flow_spec(seen),
{
    let lines = split_at_char(seen, '\n');
    let segs = split_at_char(lines.last(), EMBED_PLACEHOLDER);
    let base = placeholders_before(lines, lines.len() - 1);
    lemma_line_items_close(segs, base);
    let target = flow_spec(seen);
    let old_target = Seq::new(
        (lines.len() - 1) as nat,
        |k: int| line_items(split_at_char(lines[k], EMBED_PLACEHOLDER), placeholders_before(lines, k)),
    );
    assert(lines_view(done) == old_target);
    assert forall|k: int| 0 <= k < target.len() implies #[trigger] lines_view(done.push(fin))[k] == target[k] by {
        if k < lines.len() - 1 {
            assert(lines_view(done.push(fin))[k] == lines_view(done)[k]);
            assert(old_target[k] == target[k]);
        } else {
            assert(lines_view(done.push(fin))[k] == items_view(fin@));
        }
    }
    assert(lines_view(done.push(fin)) =~= target);
}

/// Split flow `markup` into lines of [`FlowItem`]s, preserving document order.
/// `markup` keeps literal `\n` and the embed placeholders in order, and the
/// processed content's embeds are in that same order — so embed slots are
/// numbered as the placeholders are met (top→bottom, left→right). N
/// placeholders split a line into N+1 segments with an embed in each gap;
/// empty segments (adjacent embeds, a leading placeholder) emit no text item.
pub fn flow_layout<'a>(markup: &'a str) -> (r: Vec<Vec<FlowItem<'a>>>)
    ensures
        lines_view(r@) == flow_spec(markup@),
{
    let cs = chars_of(markup);
    let n = cs.len();
    let mut done: Vec<Vec<FlowItem<'a>>> = Vec::new();
    let mut cur: Vec<FlowItem<'a>> = Vec::new();
    let mut seg_start: usize = 0;
    let mut embed_idx: usize = 0;
    let mut i: usize = 0;
    proof {
        lemma_flow_start(done@, cur@);
        assert(cs@.take(0) =~= Seq::<char>::empty());
        assert(cs@.subrange(0, 0) =~= Seq::<char>::empty());
    }
    while i < n
        invariant
            cs@ == markup@,
            n == cs@.len(),
            seg_start <= i <= n,
            embed_idx <= i,
            flow_walk_ok(cs@.take(i as int), done@, cur@, cs@.subrange(seg_start as int, i as int), embed_idx as nat),
        decreases n - i,
    {
        let c = cs[i];
        let ghost seen = cs@.take(i as int);
        let ghost open_seg = cs@.subrange(seg_start as int, i as int);
        assert(cs@.take(i + 1) =~= seen.push(c));
        if c == '\n' {
            let ghost old_cur = cur@;
            if seg_start < i {
                cur.push(FlowItem::Text(markup.substring_char(seg_start, i)));
            }
            assert(items_view(cur@) =~= (if open_seg.len() > 0 {
                items_view(old_cur).push(FlowItemView::Text(open_seg))
            } else {
                items_view(old_cur)
            }));
            proof {
                lemma_flow_newline(seen, done@, old_cur, cur, open_seg, embed_idx as nat);
            }
            done.push(cur);
            cur = Vec::new();
            seg_start = i + 1;
            assert(cur@ =~= Seq::<FlowItem<'a>>::empty());
            assert(cs@.subrange(seg_start as int, i + 1) =~= Seq::<char>::empty());
        } else if c == EMBED_PLACEHOLDER {
            let ghost old_cur = cur@;
            if seg_start < i {
                cur.push(FlowItem::Text(markup.substring_char(seg_start, i)));
            }
            cur.push(FlowItem::Embed(embed_idx));
            assert(items_view(cur@) =~= (if open_seg.len() > 0 {
                items_view(old_cur).push(FlowItemView::Text(open_seg))
            } else {
                items_view(old_cur)
            }).push(FlowItemView::Embed(embed_idx as nat)));
            proof {
                lemma_flow_placeholder(seen, done@, old_cur, cur@, open_seg, embed_idx as nat);
            }
            embed_idx += 1;
            seg_start = i + 1;
            assert(cs@.subrange(seg_start as int, i + 1) =~= Seq::<char>::empty());
        } else {
            proof {
                lemma_flow_other(seen, done@, cur@, open_seg, embed_idx as nat, c);
            }
            assert(cs@.subrange(seg_start as int, i + 1) =~= open_seg.push(c));
        }
        i += 1;
    }
    let ghost seen = cs@.take(n as int);
    let ghost open_seg = cs@.subrange(seg_start as int, n as int);
    let ghost old_cur = cur@;
    if seg_start < n {
        cur.push(FlowItem::Text(markup.substring_char(seg_start, n)));
    }
    assert(items_view(cur@) =~= (if open_seg.len() > 0 {
        items_view(old_cur).push(FlowItemView::Text(open_seg))
    } else {
        items_view(old_cur)
    }));
    proof {
        lemma_flow_finish(seen, done@, old_cur, cur, open_seg, embed_idx as nat);
        assert(seen =~= markup@);
    }
    done.push(cur);
    done
}


/// The value of the first attribute named `key`.
pub open spec fn attr_spec(attrs: AttrsView, key: Seq<char>) -> Option<Seq<char>>
    decreases attrs.len(),
{
    if attrs.len() == 0 {
        None
    } else if attrs[0].0 == key {
        Some(attrs[0].1)
    } else {
        attr_spec(attrs.drop_first(), key)
    }
}

/// Value of attribute `key`, if present (the first one, if repeated).
pub fn attr<'a>(attrs: &'a [(String, String)], key: &str) -> (r: Option<&'a str>)
    ensures
        match r {
            Some(v) => attr_spec(attrs_view(attrs@), key@) == Some(v@),
            None => attr_spec(attrs_view(attrs@), key@) is None,
        },
{
    let ghost a = attrs_view(attrs@);
    let mut i: usize = 0;
    assert(a.skip(0) =~= a);
    while i < attrs.len()
        invariant
            i <= attrs@.len(),
            a == attrs_view(attrs@),
            attr_spec(a, key@) == attr_spec(a.skip(i as int), key@),
        decreases attrs.len() - i,
    {
        let ghost rest = a.skip(i as int);
        assert(rest[0] == (attrs@[i as int].0@, attrs@[i as int].1@));
        if str_eq(attrs[i].0.as_str(), key) {
            return Some(attrs[i].1.as_str());
        }
        assert(rest.drop_first() =~= a.skip(i + 1));
        i += 1;
    }
    assert(a.skip(i as int) =~= Seq::<(Seq<char>, Seq<char>)>::empty());
    None
}

} // verus!
