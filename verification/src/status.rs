//! What a tile's status indicator and flow lines show, decided from the
//! processed markup: which indicator a `<status>` element asks for, how far an
//! idle session has decayed, and which embeds lead or wrap a flow line. The
//! drawing itself happens in the host.

use vstd::prelude::*;
use crate::flow::{attr, attr_spec, FlowItem, FlowItemView};
use crate::markup::{attrs_view, Embed, EmbedView};
use crate::strings::{chars_of, is_white_space, push_char, str_eq, white_space};

verus! {

/// Per-level idle colour: a fade from bright white (just idled) to dim grey
/// (long idle), one per step of the 7-step decay.
pub const IDLE_LEVELS: [&'static str; 7] = [
    "#ffffff", "#d8d8d8", "#b0b0b0", "#888888", "#686868", "#505050", "#3a3a3a",
];

/// The dimmest idle level (the last of [`IDLE_LEVELS`]).
pub const LAST_IDLE_LEVEL: usize = 6;

/// The value of a run of decimal digits.
pub open spec fn digits_value(d: Seq<char>) -> nat
    decreases d.len(),
{
    if d.len() == 0 {
        0
    } else {
        digits_value(d.drop_last()) * 10 + (d.last() as nat - '0' as nat) as nat
    }
}

/// Whether every character of `d` is an ASCII digit.
pub open spec fn all_digits(d: Seq<char>) -> bool {
    forall|i: int| 0 <= i < d.len() ==> '0' <= #[trigger] d[i] && d[i] <= '9'
}

/// `s` as `usize::from_str` reads it: an optional `+`, then one or more ASCII
/// digits whose value fits in a `usize`.
pub open spec fn parse_usize_spec(s: Seq<char>) -> Option<nat> {
    let d = if s.len() > 0 && s[0] == '+' { s.drop_first() } else { s };
    if d.len() > 0 && all_digits(d) && digits_value(d) <= usize::MAX {
        Some(digits_value(d))
    } else {
        None
    }
}

proof fn lemma_digits_prefix_grows(d: Seq<char>, i: int, j: int)
    requires
        0 <= i <= j <= d.len(),
        all_digits(d),
    ensures
        digits_value(d.take(i)) <= digits_value(d.take(j)),
    decreases j - i,
{
    if i < j {
        lemma_digits_prefix_grows(d, i, j - 1);
        assert(d.take(j).drop_last() =~= d.take(j - 1));
        assert(d.take(j).last() == d[j - 1]);
    }
}

/// Parse `s` as `usize::from_str` does (see [`parse_usize_spec`]).
pub fn parse_usize(s: &str) -> (r: Option<usize>)
    ensures
        match r {
            Some(n) => parse_usize_spec(s@) == Some(n as nat),
            None => parse_usize_spec(s@) is None,
        },
{
    let cs = chars_of(s);
    let start: usize = if cs.len() > 0 && cs[0] == '+' { 1 } else { 0 };
    let ghost d = if s@.len() > 0 && s@[0] == '+' { s@.drop_first() } else { s@ };
    assert(d =~= cs@.skip(start as int));
    if start == cs.len() {
        return None;
    }
    let mut acc: usize = 0;
    let mut i: usize = start;
    while i < cs.len()
        invariant
            start <= i <= cs@.len(),
            d == cs@.skip(start as int),
            d.len() > 0,
            parse_usize_spec(s@) == (if all_digits(d) && digits_value(d) <= usize::MAX {
                Some(digits_value(d))
            } else {
                None
            }),
            all_digits(d.take(i - start)),
            acc as nat == digits_value(d.take(i - start)),
        decreases cs.len() - i,
    {
        let c = cs[i];
        let ghost k = (i - start) as int;
        assert(d[k] == c);
        if c < '0' || c > '9' {
            assert(!all_digits(d));
            return None;
        }
        let dig = (c as u32 - '0' as u32) as usize;
        assert(d.take(k + 1).drop_last() =~= d.take(k));
        assert(d.take(k + 1).last() == c);
        assert(all_digits(d.take(k + 1)));
        let ghost next = digits_value(d.take(k + 1));
        assert(next == acc * 10 + dig);
        match acc.checked_mul(10) {
            None => {
                proof {
                    if all_digits(d) {
                        lemma_digits_prefix_grows(d, k + 1, d.len() as int);
                        assert(d.take(d.len() as int) =~= d);
                    }
                }
                return None;
            },
            Some(m) => match m.checked_add(dig) {
                None => {
                    proof {
                        if all_digits(d) {
                            lemma_digits_prefix_grows(d, k + 1, d.len() as int);
                            assert(d.take(d.len() as int) =~= d);
                        }
                    }
                    return None;
                },
                Some(v) => {
                    acc = v;
                },
            },
        }
        i += 1;
    }
    assert(d.take((i - start) as int) =~= d);
    Some(acc)
}

/// The indicator a `<status>` element asks for.
#[derive(Debug, Clone, Copy, PartialEq, Eq)]
pub enum StatusKind {
    /// A session at work: a blinking face.
    Working,
    /// A shell in the foreground: a blinking face in another colour.
    Shell,
    /// Waiting for an answer: a `?`.
    Prompt,
    /// Idle: decay cells at `level` (0 fresh .. 6 dimmest), with the age label
    /// beside them when `badge` is set.
    Idle { level: usize, badge: bool },
    /// An empty desktop: a hollow ring.
    Empty,
    /// Any other state: nothing is drawn.
    Unknown,
}

/// How far an idle session has decayed: its `level` attribute read as a
/// `usize`, capped at the dimmest level; 0 when missing or unreadable.
pub open spec fn idle_level_spec(attrs: Seq<(Seq<char>, Seq<char>)>) -> usize {
    match attr_spec(attrs, "level"@) {
        Some(v) => match parse_usize_spec(v) {
            Some(n) => if n <= LAST_IDLE_LEVEL { n as usize } else { LAST_IDLE_LEVEL },
            None => 0,
        },
        None => 0,
    }
}

/// The indicator for a `<status>` element with attributes `attrs`: its
/// `state` (`idle` when missing) picks the kind; an idle one carries its
/// decay level and shows a badge when a non-empty `ago` label is given.
pub open spec fn status_spec(attrs: Seq<(Seq<char>, Seq<char>)>) -> StatusKind {
    let state = match attr_spec(attrs, "state"@) {
        Some(v) => v,
        None => "idle"@,
    };
    if state == "working"@ {
        StatusKind::Working
    } else if state == "shell"@ {
        StatusKind::Shell
    } else if state == "prompt"@ {
        StatusKind::Prompt
    } else if state == "idle"@ {
        StatusKind::Idle {
            level: idle_level_spec(attrs),
            badge: match attr_spec(attrs, "ago"@) {
                Some(a) => a.len() > 0,
                None => false,
            },
        }
    } else if state == "empty"@ {
        StatusKind::Empty
    } else {
        StatusKind::Unknown
    }
}

/// The decay level of an idle `<status>` (see [`idle_level_spec`]).
pub fn idle_level(attrs: &[(String, String)]) -> (r: usize)
    ensures
        r == idle_level_spec(attrs_view(attrs@)),
        r <= LAST_IDLE_LEVEL,
{
    match attr(attrs, "level") {
        Some(v) => match parse_usize(v) {
            Some(n) => if n <= LAST_IDLE_LEVEL { n } else { LAST_IDLE_LEVEL },
            None => 0,
        },
        None => 0,
    }
}

/// The indicator a `<status>` element with attributes `attrs` asks for.
pub fn status_of(attrs: &[(String, String)]) -> (r: StatusKind)
    ensures
        r == status_spec(attrs_view(attrs@)),
{
    let state: &str = match attr(attrs, "state") {
        Some(v) => v,
        None => "idle",
    };
    if str_eq(state, "working") {
        StatusKind::Working
    } else if str_eq(state, "shell") {
        StatusKind::Shell
    } else if str_eq(state, "prompt") {
        StatusKind::Prompt
    } else if str_eq(state, "idle") {
        let badge = match attr(attrs, "ago") {
            Some(a) => chars_of(a).len() > 0,
            None => false,
        };
        StatusKind::Idle { level: idle_level(attrs), badge }
    } else if str_eq(state, "empty") {
        StatusKind::Empty
    } else {
        StatusKind::Unknown
    }
}

/// What the first item of a tile's first flow line makes of it.
#[derive(Debug, Clone, Copy, PartialEq, Eq)]
pub enum Lead {
    /// `<icon watermark>`: a big dimmed icon behind the text, which keeps the
    /// full width.
    Watermark(usize),
    /// `<icon hero>`: a big icon in a left gutter the lines indent past.
    Hero(usize),
    /// `<gutter>`: big text in a left gutter the lines indent past.
    Gutter(usize),
    /// Nothing special leads; every item is laid out in its line.
    Plain,
}

/// The lead of a tile whose flow lines are `lines` and embeds `embeds`: the
/// embed that is the first item of the first line, if it is an icon marked
/// `watermark` (checked first) or `hero`, or a gutter.
pub open spec fn lead_spec(lines: Seq<Seq<FlowItemView>>, embeds: Seq<EmbedView>) -> Lead {
    if lines.len() > 0 && lines[0].len() > 0 {
        match lines[0][0] {
            FlowItemView::Embed(i) => if i < embeds.len() {
                let e = embeds[i as int];
                if e.tag == "icon"@ && attr_spec(e.attrs, "watermark"@) is Some {
                    Lead::Watermark(i as usize)
                } else if e.tag == "icon"@ && attr_spec(e.attrs, "hero"@) is Some {
                    Lead::Hero(i as usize)
                } else if e.tag == "gutter"@ {
                    Lead::Gutter(i as usize)
                } else {
                    Lead::Plain
                }
            } else {
                Lead::Plain
            },
            FlowItemView::Text(_) => Lead::Plain,
        }
    } else {
        Lead::Plain
    }
}

pub open spec fn embeds_view(embeds: Seq<Embed>) -> Seq<EmbedView> {
    embeds.map_values(|e: Embed| e@)
}

/// The lead of a tile (see [`lead_spec`]).
pub fn lead_of(lines: &[Vec<FlowItem>], embeds: &[Embed]) -> (r: Lead)
    ensures
        r == lead_spec(crate::flow::lines_view(lines@), embeds_view(embeds@)),
{
    if lines.len() == 0 || lines[0].len() == 0 {
        return Lead::Plain;
    }
    proof {
        assert(crate::flow::lines_view(lines@)[0] == crate::flow::items_view(lines@[0]@));
        assert(crate::flow::items_view(lines@[0]@)[0] == lines@[0]@[0]@);
    }
    match lines[0][0] {
        FlowItem::Embed(i) => {
            if i >= embeds.len() {
                return Lead::Plain;
            }
            let e = &embeds[i];
            assert(embeds_view(embeds@)[i as int] == e@);
            let icon = str_eq(e.tag.as_str(), "icon");
            if icon && attr(e.attrs.as_slice(), "watermark").is_some() {
                Lead::Watermark(i)
            } else if icon && attr(e.attrs.as_slice(), "hero").is_some() {
                Lead::Hero(i)
            } else if str_eq(e.tag.as_str(), "gutter") {
                Lead::Gutter(i)
            } else {
                Lead::Plain
            }
        },
        FlowItem::Text(_) => Lead::Plain,
    }
}

/// The first embed of a flow line that is a `<wrap>` block, by its index.
pub open spec fn wrap_spec(items: Seq<FlowItemView>, embeds: Seq<EmbedView>) -> Option<nat>
    decreases items.len(),
{
    if items.len() == 0 {
        None
    } else {
        match items[0] {
            FlowItemView::Embed(i) => if i < embeds.len() && embeds[i as int].tag == "wrap"@ {
                Some(i)
            } else {
                wrap_spec(items.drop_first(), embeds)
            },
            FlowItemView::Text(_) => wrap_spec(items.drop_first(), embeds),
        }
    }
}

/// Slot `k` of a flow line names an in-range embed tagged `wrap`.
pub open spec fn is_wrap_slot(items: Seq<FlowItemView>, embeds: Seq<EmbedView>, k: int) -> bool {
    0 <= k < items.len() && match items[k] {
        FlowItemView::Embed(i) => i < embeds.len() && embeds[i as int].tag == "wrap"@,
        FlowItemView::Text(_) => false,
    }
}

/// A line's wrap block is found wherever it stands on the line: the answer is
/// the embed of the first slot that names a `<wrap>` embed, and there is none
/// only when no slot of the line does.
pub proof fn wrap_is_first_wrap_slot(items: Seq<FlowItemView>, embeds: Seq<EmbedView>)
    ensures
        wrap_spec(items, embeds) is None <==> (forall|k: int| !#[trigger] is_wrap_slot(items, embeds, k)),
        match wrap_spec(items, embeds) {
            Some(i) => exists|k: int|
                #[trigger] is_wrap_slot(items, embeds, k) && items[k] == FlowItemView::Embed(i) && forall|j: int|
                    0 <= j < k ==> !#[trigger] is_wrap_slot(items, embeds, j),
            None => true,
        },
    decreases items.len(),
{
    if items.len() > 0 {
        let rest = items.drop_first();
        wrap_is_first_wrap_slot(rest, embeds);
        assert forall|k: int| 0 <= k < rest.len() implies is_wrap_slot(rest, embeds, k) == is_wrap_slot(
            items,
            embeds,
            k + 1,
        ) by {
            assert(rest[k] == items[k + 1]);
        }
        if is_wrap_slot(items, embeds, 0) {
            match items[0] {
                FlowItemView::Embed(i) => {
                    assert(wrap_spec(items, embeds) == Some(i));
                    assert(is_wrap_slot(items, embeds, 0) && items[0] == FlowItemView::Embed(i));
                },
                FlowItemView::Text(_) => {},
            }
        } else {
            assert(wrap_spec(items, embeds) == wrap_spec(rest, embeds));
            if forall|k: int| !#[trigger] is_wrap_slot(rest, embeds, k) {
                assert forall|k: int| !#[trigger] is_wrap_slot(items, embeds, k) by {
                    if 1 <= k < items.len() {
                        assert(!is_wrap_slot(rest, embeds, k - 1));
                    }
                }
            } else {
                let k0 = choose|k: int| #[trigger] is_wrap_slot(rest, embeds, k);
                assert(is_wrap_slot(items, embeds, k0 + 1));
            }
            match wrap_spec(rest, embeds) {
                Some(i) => {
                    let k = choose|k: int|
                        #[trigger] is_wrap_slot(rest, embeds, k) && rest[k] == FlowItemView::Embed(i) && forall|
                            j: int,
                        | 0 <= j < k ==> !#[trigger] is_wrap_slot(rest, embeds, j);
                    assert(is_wrap_slot(items, embeds, k + 1));
                    assert(items[k + 1] == FlowItemView::Embed(i));
                    assert forall|j: int| 0 <= j < k + 1 implies !#[trigger] is_wrap_slot(items, embeds, j) by {
                        if j >= 1 {
                            assert(!is_wrap_slot(rest, embeds, j - 1));
                        }
                    }
                },
                None => {},
            }
        }
    } else {
        assert forall|k: int| !#[trigger] is_wrap_slot(items, embeds, k) by {}
    }
}

/// The `<wrap>` block of a flow line, if it has one: such a line word-wraps to
/// the width left and is as tall as it needs.
pub fn wrap_of(items: &[FlowItem], embeds: &[Embed]) -> (r: Option<usize>)
    ensures
        match r {
            Some(i) => wrap_spec(crate::flow::items_view(items@), embeds_view(embeds@)) == Some(i as nat),
            None => wrap_spec(crate::flow::items_view(items@), embeds_view(embeds@)) is None,
        },
{
    let ghost iv = crate::flow::items_view(items@);
    let ghost ev = embeds_view(embeds@);
    let mut k: usize = 0;
    assert(iv.skip(0) =~= iv);
    while k < items.len()
        invariant
            k <= items@.len(),
            iv == crate::flow::items_view(items@),
            ev == embeds_view(embeds@),
            wrap_spec(iv, ev) == wrap_spec(iv.skip(k as int), ev),
        decreases items.len() - k,
    {
        let ghost rest = iv.skip(k as int);
        assert(rest[0] == items@[k as int]@);
        assert(rest.drop_first() =~= iv.skip(k + 1));
        if let FlowItem::Embed(i) = items[k] {
            if i < embeds.len() {
                assert(ev[i as int] == embeds@[i as int]@);
                if str_eq(embeds[i].tag.as_str(), "wrap") {
                    return Some(i);
                }
            }
        }
        k += 1;
    }
    assert(iv.skip(k as int).len() == 0);
    None
}

/// `s` without leading white space.
pub open spec fn trim_start(s: Seq<char>) -> Seq<char>
    decreases s.len(),
{
    if s.len() > 0 && is_white_space(s[0]) {
        trim_start(s.drop_first())
    } else {
        s
    }
}

/// `s` without trailing white space.
pub open spec fn trim_end(s: Seq<char>) -> Seq<char>
    decreases s.len(),
{
    if s.len() > 0 && is_white_space(s.last()) {
        trim_end(s.drop_last())
    } else {
        s
    }
}

/// `s` without leading and trailing white space (as `str::trim`).
pub open spec fn trim(s: Seq<char>) -> Seq<char> {
    trim_end(trim_start(s))
}

/// The bounds of `cs[lo..hi]` with white space trimmed off both ends.
fn trim_range(cs: &Vec<char>, lo: usize, hi: usize) -> (r: (usize, usize))
    requires
        lo <= hi <= cs@.len(),
    ensures
        lo <= r.0 <= r.1 <= hi,
        cs@.subrange(r.0 as int, r.1 as int) == trim(cs@.subrange(lo as int, hi as int)),
{
    let mut a = lo;
    while a < hi && white_space(cs[a])
        invariant
            lo <= a <= hi <= cs@.len(),
            trim_start(cs@.subrange(lo as int, hi as int)) == trim_start(cs@.subrange(a as int, hi as int)),
        decreases hi - a,
    {
        assert(cs@.subrange(a as int, hi as int).drop_first() =~= cs@.subrange(a + 1, hi as int));
        a += 1;
    }
    let mut b = hi;
    while b > a && white_space(cs[b - 1])
        invariant
            a <= b <= hi,
            hi <= cs@.len(),
            trim_end(cs@.subrange(a as int, hi as int)) == trim_end(cs@.subrange(a as int, b as int)),
        decreases b - a,
    {
        assert(cs@.subrange(a as int, b as int).drop_last() =~= cs@.subrange(a as int, b - 1));
        b -= 1;
    }
    (a, b)
}

/// The unit of an idle-age label.
#[derive(Debug, Clone, Copy, PartialEq, Eq)]
pub enum AgeUnit {
    Seconds,
    Minutes,
    Hours,
    Days,
}

/// The number of leading ASCII digits of `s`.
pub open spec fn digit_run(s: Seq<char>) -> nat
    decreases s.len(),
{
    if s.len() > 0 && '0' <= s[0] && s[0] <= '9' {
        1 + digit_run(s.drop_first())
    } else {
        0
    }
}

/// The unit a label's suffix names: `h`/`hr`/`hrs` hours, `d` days, `s`/`sec`
/// seconds; anything else (`m`, or nothing) minutes.
pub open spec fn age_unit_spec(suffix: Seq<char>) -> AgeUnit {
    if suffix == "h"@ || suffix == "hr"@ || suffix == "hrs"@ {
        AgeUnit::Hours
    } else if suffix == "d"@ {
        AgeUnit::Days
    } else if suffix == "s"@ || suffix == "sec"@ {
        AgeUnit::Seconds
    } else {
        AgeUnit::Minutes
    }
}

/// A short idle-age label like `45s`, `12m` or `2h`, trimmed, as its leading
/// digits and the unit its (trimmed) suffix names.
pub open spec fn age_label_spec(ago: Seq<char>) -> (Seq<char>, AgeUnit) {
    let t = trim(ago);
    let n = digit_run(t);
    (t.take(n as int), age_unit_spec(trim(t.skip(n as int))))
}

proof fn lemma_digit_run_prefix(s: Seq<char>, k: int)
    requires
        0 <= k <= s.len(),
        forall|j: int| 0 <= j < k ==> '0' <= #[trigger] s[j] && s[j] <= '9',
        k == s.len() || !('0' <= s[k] && s[k] <= '9'),
    ensures
        digit_run(s) == k,
    decreases k,
{
    if k > 0 {
        let t = s.drop_first();
        assert forall|j: int| 0 <= j < k - 1 implies '0' <= #[trigger] t[j] && t[j] <= '9' by {
            assert(t[j] == s[j + 1]);
        }
        if k < s.len() {
            assert(t[k - 1] == s[k]);
        }
        lemma_digit_run_prefix(t, k - 1);
    }
}

/// Read an idle-age label (see [`age_label_spec`]): the digits to count, and
/// their unit. The caller scales the count to minutes.
pub fn age_label(ago: &str) -> (r: (String, AgeUnit))
    ensures
        r.0@ == age_label_spec(ago@).0,
        r.1 == age_label_spec(ago@).1,
{
    let cs = chars_of(ago);
    let (a, b) = trim_range(&cs, 0, cs.len());
    assert(cs@.subrange(0, cs@.len() as int) =~= ago@);
    let ghost t = cs@.subrange(a as int, b as int);
    let mut split = a;
    let mut digits = String::new();
    while split < b && '0' <= cs[split] && cs[split] <= '9'
        invariant
            a <= split <= b <= cs@.len(),
            t == cs@.subrange(a as int, b as int),
            digits@ == t.take(split - a),
            forall|j: int| 0 <= j < split - a ==> '0' <= #[trigger] t[j] && t[j] <= '9',
        decreases b - split,
    {
        assert(t[split - a] == cs[split as int]);
        push_char(&mut digits, cs[split]);
        assert(digits@ =~= t.take(split - a + 1));
        split += 1;
    }
    proof {
        if split < b {
            assert(t[split - a] == cs[split as int]);
        }
        lemma_digit_run_prefix(t, split - a);
    }
    let (c, d) = trim_range(&cs, split, b);
    assert(cs@.subrange(split as int, b as int) =~= t.skip(split - a));
    let mut suffix = String::new();
    let mut k = c;
    while k < d
        invariant
            c <= k <= d <= cs@.len(),
            suffix@ == cs@.subrange(c as int, k as int),
        decreases d - k,
    {
        push_char(&mut suffix, cs[k]);
        assert(suffix@ =~= cs@.subrange(c as int, k + 1));
        k += 1;
    }
    let sfx = suffix.as_str();
    let unit = if str_eq(sfx, "h") || str_eq(sfx, "hr") || str_eq(sfx, "hrs") {
        AgeUnit::Hours
    } else if str_eq(sfx, "d") {
        AgeUnit::Days
    } else if str_eq(sfx, "s") || str_eq(sfx, "sec") {
        AgeUnit::Seconds
    } else {
        AgeUnit::Minutes
    };
    (digits, unit)
}

/// The indicator follows the `state` attribute alone: each named state
/// gives its own kind, a missing state counts as idle, any other state shows
/// nothing. An idle indicator's level is the `level` attribute when it reads
/// as a number up to the dimmest level, the dimmest level above that, and 0
/// otherwise; it shows its age badge exactly when a non-empty `ago` is given.
pub proof fn status_follows_state(attrs: Seq<(Seq<char>, Seq<char>)>)
    ensures
        (status_spec(attrs) == StatusKind::Working) == (attr_spec(attrs, "state"@) == Some("working"@)),
        (status_spec(attrs) == StatusKind::Shell) == (attr_spec(attrs, "state"@) == Some("shell"@)),
        (status_spec(attrs) == StatusKind::Prompt) == (attr_spec(attrs, "state"@) == Some("prompt"@)),
        (status_spec(attrs) == StatusKind::Empty) == (attr_spec(attrs, "state"@) == Some("empty"@)),
        (status_spec(attrs) is Idle) == (attr_spec(attrs, "state"@) is None || attr_spec(attrs, "state"@) == Some(
            "idle"@,
        )),
        status_spec(attrs) is Idle ==> {
            let lv = status_spec(attrs)->level;
            &&& lv <= LAST_IDLE_LEVEL
            &&& lv == match attr_spec(attrs, "level"@) {
                Some(v) => match parse_usize_spec(v) {
                    Some(n) => if n <= 6 { n as usize } else { 6usize },
                    None => 0usize,
                },
                None => 0usize,
            }
            &&& status_spec(attrs)->badge == (attr_spec(attrs, "ago"@) is Some && attr_spec(attrs, "ago"@)->0.len()
                > 0)
        },
{
    reveal_strlit("working");
    reveal_strlit("shell");
    reveal_strlit("prompt");
    reveal_strlit("empty");
    reveal_strlit("idle");
    let names = seq!["working"@, "shell"@, "prompt"@, "idle"@, "empty"@];
    assert(forall|i: int, j: int| 0 <= i < j < 5 ==> names[i][0] != names[j][0] || names[i][1] != names[j][1]);
    assert("working"@ != "shell"@ && "working"@ != "prompt"@ && "working"@ != "idle"@ && "working"@ != "empty"@);
    assert("shell"@ != "prompt"@ && "shell"@ != "idle"@ && "shell"@ != "empty"@);
    assert("prompt"@ != "idle"@ && "prompt"@ != "empty"@ && "idle"@ != "empty"@) by {
        assert("prompt"@[0] != "idle"@[0]);
        assert("prompt"@[0] != "empty"@[0]);
        assert("idle"@[0] != "empty"@[0]);
    }
    assert("working"@[0] != "shell"@[0] && "working"@[0] != "prompt"@[0] && "working"@[0] != "idle"@[0]
        && "working"@[0] != "empty"@[0]);
    assert("shell"@[0] != "prompt"@[0] && "shell"@[0] != "idle"@[0] && "shell"@[0] != "empty"@[0]);
}

/// A number reads the same with or without a leading `+`, and what is read
/// is the value of its digits: a `+` alone, an empty string, or any
/// character other than a digit after the optional sign gives nothing.
pub proof fn parse_usize_reads_digits(d: Seq<char>)
    ensures
        d.len() > 0 && all_digits(d) ==> parse_usize_spec(seq!['+'] + d) == parse_usize_spec(d),
        parse_usize_spec(d) is Some ==> {
            let e = if d[0] == '+' { d.drop_first() } else { d };
            &&& e.len() > 0
            &&& all_digits(e)
            &&& parse_usize_spec(d)->0 == digits_value(e)
        },
        !all_digits(if d.len() > 0 && d[0] == '+' { d.drop_first() } else { d }) ==> parse_usize_spec(d) is None,
        parse_usize_spec(Seq::empty()) is None,
        parse_usize_spec(seq!['+']) is None,
{
    if d.len() > 0 && all_digits(d) {
        let pd = seq!['+'] + d;
        assert(pd.drop_first() =~= d);
        assert(d[0] != '+');
    }
    assert(seq!['+'].drop_first() =~= Seq::<char>::empty());
}

/// The lead of a tile is always the first item of its first line: a
/// watermark, hero or gutter names that item's embed, which carries the tag
/// and attribute the kind asks for (a watermark wins over a hero).
pub proof fn lead_is_first_item(lines: Seq<Seq<FlowItemView>>, embeds: Seq<EmbedView>)
    requires
        embeds.len() <= usize::MAX,
    ensures
        match lead_spec(lines, embeds) {
            Lead::Watermark(i) => lines.len() > 0 && lines[0].len() > 0 && lines[0][0] == FlowItemView::Embed(i as nat)
                && i < embeds.len() && embeds[i as int].tag == "icon"@ && attr_spec(embeds[i as int].attrs, "watermark"@) is Some,
            Lead::Hero(i) => lines.len() > 0 && lines[0].len() > 0 && lines[0][0] == FlowItemView::Embed(i as nat)
                && i < embeds.len() && embeds[i as int].tag == "icon"@ && attr_spec(embeds[i as int].attrs, "hero"@) is Some
                && attr_spec(embeds[i as int].attrs, "watermark"@) is None,
            Lead::Gutter(i) => lines.len() > 0 && lines[0].len() > 0 && lines[0][0] == FlowItemView::Embed(i as nat)
                && i < embeds.len() && embeds[i as int].tag == "gutter"@,
            Lead::Plain => !(lines.len() > 0 && lines[0].len() > 0 && (lines[0][0] matches FlowItemView::Embed(i)
                && i < embeds.len() && (embeds[i as int].tag == "gutter"@ || (embeds[i as int].tag == "icon"@ && (
                attr_spec(embeds[i as int].attrs, "watermark"@) is Some || attr_spec(embeds[i as int].attrs, "hero"@) is Some))))),
        },
{
    reveal_strlit("icon");
    reveal_strlit("gutter");
    assert("icon"@[0] != "gutter"@[0]);
}

proof fn lemma_digit_run(s: Seq<char>)
    ensures
        digit_run(s) <= s.len(),
        forall|i: int| 0 <= i < digit_run(s) ==> '0' <= #[trigger] s[i] && s[i] <= '9',
        digit_run(s) < s.len() ==> !('0' <= s[digit_run(s) as int] && s[digit_run(s) as int] <= '9'),
    decreases s.len(),
{
    if s.len() > 0 && '0' <= s[0] && s[0] <= '9' {
        let t = s.drop_first();
        lemma_digit_run(t);
        assert forall|i: int| 0 <= i < digit_run(s) implies '0' <= #[trigger] s[i] && s[i] <= '9' by {
            if i > 0 {
                assert(s[i] == t[i - 1]);
            }
        }
        if digit_run(s) < s.len() {
            assert(s[digit_run(s) as int] == t[digit_run(t) as int]);
        }
    }
}

/// An age label is read as the longest run of digits at the start of the
/// trimmed label, then a unit named by the trimmed rest: `h`, `hr` or `hrs`
/// hours, `d` days, `s` or `sec` seconds, anything else minutes.
pub proof fn age_label_reads_count_then_unit(ago: Seq<char>)
    ensures
        ({
            let t = trim(ago);
            let (d, u) = age_label_spec(ago);
            let rest = trim(t.skip(d.len() as int));
            &&& d.len() <= t.len() && t.take(d.len() as int) == d
            &&& all_digits(d)
            &&& d.len() < t.len() ==> !('0' <= t[d.len() as int] && t[d.len() as int] <= '9')
            &&& (u == AgeUnit::Hours) == (rest == "h"@ || rest == "hr"@ || rest == "hrs"@)
            &&& (u == AgeUnit::Days) == (rest == "d"@)
            &&& (u == AgeUnit::Seconds) == (rest == "s"@ || rest == "sec"@)
        }),
{
    let t = trim(ago);
    lemma_digit_run(t);
    let d = t.take(digit_run(t) as int);
    assert forall|i: int| 0 <= i < d.len() implies '0' <= #[trigger] d[i] && d[i] <= '9' by {
        assert(d[i] == t[i]);
    }
    reveal_strlit("h");
    reveal_strlit("hr");
    reveal_strlit("hrs");
    reveal_strlit("d");
    reveal_strlit("s");
    reveal_strlit("sec");
    let hs = seq!["h"@, "hr"@, "hrs"@];
    let ss = seq!["s"@, "sec"@];
    assert(forall|i: int| 0 <= i < 3 ==> hs[i][0] == 'h');
    assert(forall|i: int| 0 <= i < 2 ==> ss[i][0] == 's');
    assert("d"@[0] == 'd');
    assert("h"@ != "d"@ && "hr"@ != "d"@ && "hrs"@ != "d"@);
    assert("h"@ != "s"@ && "hr"@ != "s"@ && "hrs"@ != "s"@ && "h"@ != "sec"@ && "hr"@ != "sec"@ && "hrs"@ != "sec"@);
    assert("d"@ != "s"@ && "d"@ != "sec"@);
}

} // verus!
