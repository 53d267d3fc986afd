//! Tile content markup processing.

use vstd::prelude::*;
use crate::strings::{byte_len, chars_of, decimal, push_char, push_decimal, str_eq};
use vstd::utf8::encode_utf8;
use roxmltree::NodeType;

verus! {

/// The escape of one character for Pango markup (text and attribute values).
pub open spec fn escape_char(c: char) -> Seq<char> {
    if c == '&' {
        seq!['&', 'a', 'm', 'p', ';']
    } else if c == '<' {
        seq!['&', 'l', 't', ';']
    } else if c == '>' {
        seq!['&', 'g', 't', ';']
    } else if c == '"' {
        seq!['&', 'q', 'u', 'o', 't', ';']
    } else if c == '\'' {
        seq!['&', '#', '3', '9', ';']
    } else {
        seq![c]
    }
}

/// `s` with every special character replaced by its entity.
pub open spec fn escape_spec(s: Seq<char>) -> Seq<char>
    decreases s.len(),
{
    if s.len() == 0 {
        Seq::empty()
    } else {
        escape_spec(s.drop_last()) + escape_char(s.last())
    }
}

/// A character that markup gives a meaning to (tags and attribute quotes).
pub open spec fn markup_special(c: char) -> bool {
    c == '<' || c == '>' || c == '"' || c == '\''
}

/// Escaped text holds no character that markup would read as a tag or as
/// the end of an attribute value, and escaping text without special
/// characters (`&` included) leaves it as it is.
pub proof fn escape_is_markup_safe(s: Seq<char>)
    ensures
        forall|i: int| 0 <= i < escape_spec(s).len() ==> !markup_special(#[trigger] escape_spec(s)[i]),
        (forall|i: int| 0 <= i < s.len() ==> !markup_special(#[trigger] s[i]) && s[i] != '&')
            ==> escape_spec(s) == s,
    decreases s.len(),
{
    if s.len() > 0 {
        escape_is_markup_safe(s.drop_last());
        let a = escape_spec(s.drop_last());
        let b = escape_char(s.last());
        assert(escape_spec(s) == a + b);
        assert forall|i: int| 0 <= i < escape_spec(s).len() implies !markup_special(
            #[trigger] escape_spec(s)[i],
        ) by {
            if i >= a.len() {
                assert(escape_spec(s)[i] == b[i - a.len()]);
            } else {
                assert(escape_spec(s)[i] == a[i]);
            }
        }
        if forall|i: int| 0 <= i < s.len() ==> !markup_special(#[trigger] s[i]) && s[i] != '&' {
            assert forall|i: int| 0 <= i < s.drop_last().len() implies !markup_special(
                #[trigger] s.drop_last()[i],
            ) && s.drop_last()[i] != '&' by {
                assert(s.drop_last()[i] == s[i]);
            }
            assert(s[s.len() - 1] == s.last());
            assert(s.drop_last().push(s.last()) =~= s);
        }
    } else {
        assert(escape_spec(s) =~= s);
    }
}

fn push_escaped(out: &mut String, c: char)
    ensures
        final(out)@ == old(out)@ + escape_char(c),
{
    if c == '&' {
        out.append("&amp;");
        proof { reveal_strlit("&amp;"); }
    } else if c == '<' {
        out.append("&lt;");
        proof { reveal_strlit("&lt;"); }
    } else if c == '>' {
        out.append("&gt;");
        proof { reveal_strlit("&gt;"); }
    } else if c == '"' {
        out.append("&quot;");
        proof { reveal_strlit("&quot;"); }
    } else if c == '\'' {
        out.append("&#39;");
        proof { reveal_strlit("&#39;"); }
    } else {
        push_char(out, c);
    }
}

/// Escape for safe insertion into Pango markup — text *and* attribute values
/// (hence quotes too).
pub fn escape(s: &str) -> (r: String)
    ensures
        r@ == escape_spec(s@),
{
    let cs = chars_of(s);
    let mut out = String::new();
    let mut i: usize = 0;
    while i < cs.len()
        invariant
            i <= cs.len(),
            out@ == escape_spec(cs@.take(i as int)),
        decreases cs.len() - i,
    {
        push_escaped(&mut out, cs[i]);
        assert(cs@.take(i + 1).drop_last() =~= cs@.take(i as int));
        i += 1;
    }
    assert(cs@.take(cs.len() as int) =~= cs@);
    out
}


/// A custom (non-Pango) tag, covering a byte range of the laid-out plain text
/// (offsets into [`Processed::plain`], which matches Pango's layout text).
#[derive(Debug, Clone, PartialEq, Eq)]
pub struct EffectSpan {
    pub tag: String,
    pub attrs: Vec<(String, String)>,
    pub start: usize,
    pub end: usize,
}

/// An inline embed — a sized element placed *in* the text flow (e.g.
/// `<tickerbox>`). It reserves a box over a single placeholder char at `start`
/// that surrounding text flows around; its `inner` markup is drawn into that
/// box by the caller, not laid out inline.
#[derive(Debug, Clone, PartialEq, Eq)]
pub struct Embed {
    pub tag: String,
    pub attrs: Vec<(String, String)>,
    /// Inner Pango markup, rendered into the reserved box.
    pub inner: String,
    /// Byte offset (in [`Processed::plain`]/markup) of the placeholder char.
    pub start: usize,
}

/// The placeholder character an embed occupies in the laid-out text (the Unicode
/// object-replacement character, 3 bytes in UTF-8).
pub const EMBED_PLACEHOLDER: char = '\u{FFFC}';

/// Structural tag that flags the whole tile to pulse (see [`Processed::pulse`]).
pub const PULSE_TAG: &'static str = "pulse";
/// Structural marker tag that flags the tile as the active desktop.
pub const ACTIVE_TAG: &'static str = "active";

/// Result of processing tile content.
#[derive(Debug, Clone, Default, PartialEq, Eq)]
pub struct Processed {
    /// Pango-safe markup (standard tags only) to hand to Pango.
    pub markup: String,
    /// Plain text with all tags removed; effect/embed offsets index this.
    pub plain: String,
    /// Custom effect tags (decorations behind a span).
    pub effects: Vec<EffectSpan>,
    /// Inline embeds (sized elements placed in the text flow).
    pub embeds: Vec<Embed>,
    /// Whether the content was wrapped in `<pulse>…</pulse>` — the whole tile's
    /// opacity should oscillate. The wrapper itself emits no markup.
    pub pulse: bool,
    /// Whether the content contained an `<active/>` marker — this desktop is the
    /// focused one.
    pub active: bool,
}

/// The kind of a parsed XML node.
#[derive(Debug, Clone, Copy, PartialEq, Eq)]
pub enum XmlKind {
    Root,
    Element,
    Pi,
    Comment,
    Text,
}

/// One node of a parsed XML document, listed in document (pre-)order. `depth`
/// is the number of the node's ancestors, itself included: a node's children
/// follow it with a larger depth, its next sibling has the same depth.
#[derive(Debug, Clone, PartialEq, Eq)]
pub struct XmlNode {
    pub kind: XmlKind,
    pub depth: usize,
    /// Local tag name (elements only; empty otherwise).
    pub name: String,
    /// Text content (text nodes).
    pub text: String,
    /// Attributes in document order (elements only).
    pub attrs: Vec<(String, String)>,
}

/// Attribute list as character sequences.
pub type AttrsView = Seq<(Seq<char>, Seq<char>)>;

pub open spec fn attrs_view(a: Seq<(String, String)>) -> AttrsView {
    a.map_values(|p: (String, String)| (p.0@, p.1@))
}

pub struct EffectView {
    pub tag: Seq<char>,
    pub attrs: AttrsView,
    pub start: nat,
    pub end: nat,
}

pub struct EmbedView {
    pub tag: Seq<char>,
    pub attrs: AttrsView,
    pub inner: Seq<char>,
    pub start: nat,
}

pub struct ProcessedView {
    pub markup: Seq<char>,
    pub plain: Seq<char>,
    pub effects: Seq<EffectView>,
    pub embeds: Seq<EmbedView>,
    pub pulse: bool,
    pub active: bool,
}

impl View for EffectSpan {
    type V = EffectView;

    open spec fn view(&self) -> EffectView {
        EffectView { tag: self.tag@, attrs: attrs_view(self.attrs@), start: self.start as nat, end: self.end as nat }
    }
}

impl View for Embed {
    type V = EmbedView;

    open spec fn view(&self) -> EmbedView {
        EmbedView { tag: self.tag@, attrs: attrs_view(self.attrs@), inner: self.inner@, start: self.start as nat }
    }
}

impl View for Processed {
    type V = ProcessedView;

    open spec fn view(&self) -> ProcessedView {
        ProcessedView {
            markup: self.markup@,
            plain: self.plain@,
            effects: self.effects@.map_values(|e: EffectSpan| e@),
            embeds: self.embeds@.map_values(|e: Embed| e@),
            pulse: self.pulse,
            active: self.active,
        }
    }
}

/// Length in UTF-8 bytes of a character sequence.
pub open spec fn utf8_len(s: Seq<char>) -> nat {
    encode_utf8(s).len()
}

/// ` k1="v1" k2="v2"` with escaped values.
pub open spec fn attrs_markup(attrs: AttrsView) -> Seq<char>
    decreases attrs.len(),
{
    if attrs.len() == 0 {
        Seq::empty()
    } else {
        attrs_markup(attrs.drop_last()) + seq![' '] + attrs.last().0 + seq!['=', '"']
            + escape_spec(attrs.last().1) + seq!['"']
    }
}

/// `<tag k="v" ...>`
pub open spec fn open_tag(tag: Seq<char>, attrs: AttrsView) -> Seq<char> {
    seq!['<'] + tag + attrs_markup(attrs) + seq!['>']
}

/// `</tag>`
pub open spec fn close_tag(tag: Seq<char>) -> Seq<char> {
    seq!['<', '/'] + tag + seq!['>']
}


/// A still-open element while walking a document: what its closing does.
pub enum FrameView {
    /// A standard Pango tag, re-emitted into the markup.
    Std(Seq<char>),
    /// A tag nested inside an embed, re-emitted into the embed's inner markup.
    Inner(Seq<char>),
    /// A custom effect tag opened at plain byte offset `start`.
    Effect(Seq<char>, AttrsView, nat),
    /// A structural wrapper (`<pulse>`, `<active>`): no markup of its own.
    Flag,
    /// An inline embed; its inner markup is being collected.
    EmbedRoot,
}

/// The state of a document walk.
pub struct WalkView {
    pub out: ProcessedView,
    /// Open elements, innermost last, each with its depth.
    pub frames: Seq<(nat, FrameView)>,
    /// Whether an embed is open (its children are collected, not laid out).
    pub in_embed: bool,
    /// The open embed's inner markup so far.
    pub inner: Seq<char>,
}

pub open spec fn walk_start() -> WalkView {
    WalkView {
        out: ProcessedView {
            markup: Seq::empty(),
            plain: Seq::empty(),
            effects: Seq::empty(),
            embeds: Seq::empty(),
            pulse: false,
            active: false,
        },
        frames: Seq::empty(),
        in_embed: false,
        inner: Seq::empty(),
    }
}

/// Close the innermost open element.
pub open spec fn close_top(st: WalkView) -> WalkView
    recommends
        st.frames.len() > 0,
{
    let f = st.frames.last().1;
    let st1 = WalkView { frames: st.frames.drop_last(), ..st };
    match f {
        FrameView::Std(tag) => WalkView {
            out: ProcessedView { markup: st.out.markup + close_tag(tag), ..st.out },
            ..st1
        },
        FrameView::Inner(tag) => WalkView { inner: st.inner + close_tag(tag), ..st1 },
        FrameView::Effect(tag, attrs, start) => WalkView {
            out: ProcessedView {
                effects: st.out.effects.push(
                    EffectView { tag, attrs, start, end: utf8_len(st.out.plain) },
                ),
                ..st.out
            },
            ..st1
        },
        FrameView::Flag => st1,
        FrameView::EmbedRoot => {
            let n = st.out.embeds.len();
            if n > 0 {
                WalkView {
                    out: ProcessedView {
                        embeds: st.out.embeds.update(
                            n - 1,
                            EmbedView { inner: st.inner, ..st.out.embeds[n - 1] },
                        ),
                        ..st.out
                    },
                    in_embed: false,
                    inner: Seq::empty(),
                    ..st1
                }
            } else {
                WalkView { in_embed: false, inner: Seq::empty(), ..st1 }
            }
        },
    }
}

/// Close every open element whose depth is at least `d`, innermost first.
pub open spec fn close_to(st: WalkView, d: nat) -> WalkView
    decreases st.frames.len(),
{
    if st.frames.len() > 0 && st.frames.last().0 >= d {
        close_to(close_top(st), d)
    } else {
        st
    }
}

/// Handle the start of node `n` (all elements it closes already closed).
pub open spec fn open_node(st: WalkView, n: XmlNode, effect_tags: Seq<Seq<char>>, embed_tags: Seq<Seq<char>>) -> WalkView {
    let d = n.depth as nat;
    match n.kind {
        XmlKind::Text => if st.in_embed {
            WalkView { inner: st.inner + escape_spec(n.text@), ..st }
        } else {
            WalkView {
                out: ProcessedView {
                    markup: st.out.markup + escape_spec(n.text@),
                    plain: st.out.plain + n.text@,
                    ..st.out
                },
                ..st
            }
        },
        XmlKind::Element => {
            let tag = n.name@;
            let attrs = attrs_view(n.attrs@);
            if st.in_embed {
                WalkView {
                    inner: st.inner + open_tag(tag, attrs),
                    frames: st.frames.push((d, FrameView::Inner(tag))),
                    ..st
                }
            } else if tag == ACTIVE_TAG@ {
                WalkView {
                    out: ProcessedView { active: true, ..st.out },
                    frames: st.frames.push((d, FrameView::Flag)),
                    ..st
                }
            } else if tag == PULSE_TAG@ {
                WalkView {
                    out: ProcessedView { pulse: true, ..st.out },
                    frames: st.frames.push((d, FrameView::Flag)),
                    ..st
                }
            } else if embed_tags.contains(tag) {
                WalkView {
                    out: ProcessedView {
                        markup: st.out.markup.push(EMBED_PLACEHOLDER),
                        plain: st.out.plain.push(EMBED_PLACEHOLDER),
                        embeds: st.out.embeds.push(
                            EmbedView { tag, attrs, inner: Seq::empty(), start: utf8_len(st.out.plain) },
                        ),
                        ..st.out
                    },
                    frames: st.frames.push((d, FrameView::EmbedRoot)),
                    in_embed: true,
                    inner: Seq::empty(),
                }
            } else if effect_tags.contains(tag) {
                WalkView {
                    frames: st.frames.push((d, FrameView::Effect(tag, attrs, utf8_len(st.out.plain)))),
                    ..st
                }
            } else {
                WalkView {
                    out: ProcessedView { markup: st.out.markup + open_tag(tag, attrs), ..st.out },
                    frames: st.frames.push((d, FrameView::Std(tag))),
                    ..st
                }
            }
        },
        _ => st,
    }
}

/// One node of the walk: close what it ends, then open it.
pub open spec fn walk_step(st: WalkView, n: XmlNode, effect_tags: Seq<Seq<char>>, embed_tags: Seq<Seq<char>>) -> WalkView {
    open_node(close_to(st, n.depth as nat), n, effect_tags, embed_tags)
}

/// The walk state after the first `k` nodes.
pub open spec fn walk_prefix(nodes: Seq<XmlNode>, k: nat, effect_tags: Seq<Seq<char>>, embed_tags: Seq<Seq<char>>) -> WalkView
    decreases k,
{
    if k == 0 || k > nodes.len() {
        walk_start()
    } else {
        walk_step(walk_prefix(nodes, (k - 1) as nat, effect_tags, embed_tags), nodes[k - 1], effect_tags, embed_tags)
    }
}

/// The processed form of a document given as its nodes (the children of its
/// root element, in document order): standard tags re-serialized, custom
/// effect tags turned into spans over the plain text, embed tags into
/// placeholders with their inner markup pulled out, structural tags into flags.
pub open spec fn process_nodes_spec(nodes: Seq<XmlNode>, effect_tags: Seq<Seq<char>>, embed_tags: Seq<Seq<char>>) -> ProcessedView {
    close_to(walk_prefix(nodes, nodes.len(), effect_tags, embed_tags), 0).out
}


/// Append `escape(s)` to `out`.
fn push_escaped_str(out: &mut String, s: &str)
    ensures
        final(out)@ == old(out)@ + escape_spec(s@),
{
    let cs = chars_of(s);
    let ghost start = out@;
    let mut i: usize = 0;
    while i < cs.len()
        invariant
            i <= cs.len(),
            out@ == start + escape_spec(cs@.take(i as int)),
        decreases cs.len() - i,
    {
        push_escaped(out, cs[i]);
        assert(cs@.take(i + 1).drop_last() =~= cs@.take(i as int));
        i += 1;
    }
    assert(cs@.take(cs.len() as int) =~= cs@);
}

/// Append `<tag k="v" ...>` to `out`.
fn push_open_tag(out: &mut String, tag: &str, attrs: &Vec<(String, String)>)
    ensures
        final(out)@ == old(out)@ + open_tag(tag@, attrs_view(attrs@)),
{
    let ghost start = out@;
    push_char(out, '<');
    out.append(tag);
    let mut i: usize = 0;
    while i < attrs.len()
        invariant
            i <= attrs.len(),
            out@ == start + seq!['<'] + tag@ + attrs_markup(attrs_view(attrs@.take(i as int))),
        decreases attrs.len() - i,
    {
        let ghost before = out@;
        push_char(out, ' ');
        out.append(attrs[i].0.as_str());
        push_char(out, '=');
        push_char(out, '"');
        push_escaped_str(out, attrs[i].1.as_str());
        push_char(out, '"');
        proof {
            let a = attrs_view(attrs@.take(i + 1));
            assert(a.drop_last() =~= attrs_view(attrs@.take(i as int)));
            assert(a.last() == (attrs@[i as int].0@, attrs@[i as int].1@));
            assert(out@ =~= before + seq![' '] + a.last().0 + seq!['=', '"'] + escape_spec(a.last().1) + seq!['"']);
        }
        i += 1;
    }
    assert(attrs@.take(attrs.len() as int) =~= attrs@);
    push_char(out, '>');
    assert(out@ =~= start + open_tag(tag@, attrs_view(attrs@)));
}

/// Append `</tag>` to `out`.
fn push_close_tag(out: &mut String, tag: &str)
    ensures
        final(out)@ == old(out)@ + close_tag(tag@),
{
    let ghost start = out@;
    push_char(out, '<');
    push_char(out, '/');
    out.append(tag);
    push_char(out, '>');
    assert(out@ =~= start + close_tag(tag@));
}

/// Whether `tag` is one of `tags`.
fn tag_in(tags: &[&str], tag: &str) -> (r: bool)
    ensures
        r == tags@.map_values(|t: &str| t@).contains(tag@),
{
    let ghost tv = tags@.map_values(|t: &str| t@);
    let mut i: usize = 0;
    while i < tags.len()
        invariant
            i <= tags@.len(),
            tv == tags@.map_values(|t: &str| t@),
            forall|k: int| 0 <= k < i ==> tv[k] != tag@,
        decreases tags.len() - i,
    {
        if str_eq(tags[i], tag) {
            assert(tv[i as int] == tag@);
            return true;
        }
        i += 1;
    }
    false
}

/// A copy of an attribute list.
fn copy_attrs(a: &Vec<(String, String)>) -> (r: Vec<(String, String)>)
    ensures
        attrs_view(r@) == attrs_view(a@),
{
    let mut r: Vec<(String, String)> = Vec::new();
    let mut i: usize = 0;
    while i < a.len()
        invariant
            i <= a.len(),
            r@.len() == i,
            attrs_view(r@) == attrs_view(a@.take(i as int)),
        decreases a.len() - i,
    {
        let ghost old_r = r@;
        let k = a[i].0.clone();
        let v = a[i].1.clone();
        r.push((k, v));
        assert(r@ == old_r.push((k, v)));
        assert forall|j: int| 0 <= j < i + 1 implies #[trigger] attrs_view(r@)[j] == attrs_view(a@.take(i + 1))[j] by {
            assert(a@.take(i + 1)[j] == a@[j]);
            if j < i {
                assert(a@.take(i as int)[j] == a@[j]);
                assert(attrs_view(old_r)[j] == attrs_view(a@.take(i as int))[j]);
                assert(r@[j] == old_r[j]);
            } else {
                assert(r@[j] == (k, v));
                assert(k == a@[i as int].0);
                assert(v == a@[i as int].1);
            }
        }
        assert(attrs_view(r@) =~= attrs_view(a@.take(i + 1)));
        i += 1;
    }
    assert(a@.take(a.len() as int) =~= a@);
    r
}

enum Frame {
    Std(String),
    Inner(String),
    Effect(String, Vec<(String, String)>, usize),
    Flag,
    EmbedRoot,
}

impl View for Frame {
    type V = FrameView;

    closed spec fn view(&self) -> FrameView {
        match self {
            Frame::Std(t) => FrameView::Std(t@),
            Frame::Inner(t) => FrameView::Inner(t@),
            Frame::Effect(t, a, s) => FrameView::Effect(t@, attrs_view(a@), *s as nat),
            Frame::Flag => FrameView::Flag,
            Frame::EmbedRoot => FrameView::EmbedRoot,
        }
    }
}

struct Walker {
    out: Processed,
    frames: Vec<(usize, Frame)>,
    in_embed: bool,
    inner: String,
}

impl View for Walker {
    type V = WalkView;

    closed spec fn view(&self) -> WalkView {
        WalkView {
            out: self.out@,
            frames: self.frames@.map_values(|p: (usize, Frame)| (p.0 as nat, p.1@)),
            in_embed: self.in_embed,
            inner: self.inner@,
        }
    }
}

fn close_top_exec(w: &mut Walker)
    requires
        old(w).frames@.len() > 0,
    ensures
        final(w)@ == close_top(old(w)@),
        final(w).frames@.len() == old(w).frames@.len() - 1,
{
    let ghost st = w@;
    let top = w.frames.pop().unwrap();
    assert(w@.frames =~= st.frames.drop_last());
    assert(top.1@ == st.frames.last().1);
    match top.1 {
        Frame::Std(tag) => {
            push_close_tag(&mut w.out.markup, tag.as_str());
        },
        Frame::Inner(tag) => {
            push_close_tag(&mut w.inner, tag.as_str());
        },
        Frame::Effect(tag, attrs, start) => {
            let end = byte_len(w.out.plain.as_str());
            w.out.effects.push(EffectSpan { tag, attrs, start, end });
            assert(w@.out.effects =~= st.out.effects.push(
                EffectView { tag: tag@, attrs: attrs_view(attrs@), start: start as nat, end: utf8_len(st.out.plain) },
            ));
        },
        Frame::Flag => {},
        Frame::EmbedRoot => {
            if w.out.embeds.len() > 0 {
                let mut e = w.out.embeds.pop().unwrap();
                e.inner = w.inner.clone();
                w.out.embeds.push(e);
                proof {
                    let n = st.out.embeds.len();
                    assert(w@.out.embeds =~= st.out.embeds.update(
                        n - 1,
                        EmbedView { inner: st.inner, ..st.out.embeds[n - 1] },
                    ));
                }
            }
            w.in_embed = false;
            w.inner = String::new();
        },
    }
}

fn close_to_exec(w: &mut Walker, d: usize)
    ensures
        final(w)@ == close_to(old(w)@, d as nat),
{
    while w.frames.len() > 0 && w.frames[w.frames.len() - 1].0 >= d
        invariant
            close_to(w@, d as nat) == close_to(old(w)@, d as nat),
        decreases w.frames@.len(),
    {
        close_top_exec(w);
    }
}


fn open_node_exec(w: &mut Walker, n: &XmlNode, effect_tags: &[&str], embed_tags: &[&str])
    ensures
        final(w)@ == open_node(
            old(w)@,
            *n,
            effect_tags@.map_values(|t: &str| t@),
            embed_tags@.map_values(|t: &str| t@),
        ),
{
    let ghost st = w@;
    match n.kind {
        XmlKind::Text => {
            if w.in_embed {
                push_escaped_str(&mut w.inner, n.text.as_str());
            } else {
                push_escaped_str(&mut w.out.markup, n.text.as_str());
                w.out.plain.append(n.text.as_str());
            }
        },
        XmlKind::Element => {
            let tag = n.name.as_str();
            let d = n.depth;
            if w.in_embed {
                push_open_tag(&mut w.inner, tag, &n.attrs);
                w.frames.push((d, Frame::Inner(n.name.clone())));
                assert(w@.frames =~= st.frames.push((d as nat, FrameView::Inner(n.name@))));
            } else if str_eq(tag, ACTIVE_TAG) {
                w.out.active = true;
                w.frames.push((d, Frame::Flag));
                assert(w@.frames =~= st.frames.push((d as nat, FrameView::Flag)));
            } else if str_eq(tag, PULSE_TAG) {
                w.out.pulse = true;
                w.frames.push((d, Frame::Flag));
                assert(w@.frames =~= st.frames.push((d as nat, FrameView::Flag)));
            } else if tag_in(embed_tags, tag) {
                let start = byte_len(w.out.plain.as_str());
                push_char(&mut w.out.markup, EMBED_PLACEHOLDER);
                push_char(&mut w.out.plain, EMBED_PLACEHOLDER);
                let e = Embed { tag: n.name.clone(), attrs: copy_attrs(&n.attrs), inner: String::new(), start };
                w.out.embeds.push(e);
                w.frames.push((d, Frame::EmbedRoot));
                w.in_embed = true;
                w.inner = String::new();
                assert(w@.frames =~= st.frames.push((d as nat, FrameView::EmbedRoot)));
                assert(w@.out.embeds =~= st.out.embeds.push(
                    EmbedView { tag: n.name@, attrs: attrs_view(n.attrs@), inner: Seq::empty(), start: utf8_len(st.out.plain) },
                ));
            } else if tag_in(effect_tags, tag) {
                let start = byte_len(w.out.plain.as_str());
                w.frames.push((d, Frame::Effect(n.name.clone(), copy_attrs(&n.attrs), start)));
                assert(w@.frames =~= st.frames.push(
                    (d as nat, FrameView::Effect(n.name@, attrs_view(n.attrs@), utf8_len(st.out.plain))),
                ));
            } else {
                push_open_tag(&mut w.out.markup, tag, &n.attrs);
                w.frames.push((d, Frame::Std(n.name.clone())));
                assert(w@.frames =~= st.frames.push((d as nat, FrameView::Std(n.name@))));
            }
        },
        _ => {},
    }
}

/// Turn a document, given as the nodes under its root element in document
/// order, into Pango-safe markup plus extracted effects and embeds.
/// `effect_tags` are decorations drawn behind a span (e.g. `box`, `glow`): the
/// tag is dropped and its text keeps flowing, recorded as a byte range of the
/// plain text. `embed_tags` are inline sized elements (e.g. `tickerbox`): each
/// becomes one placeholder char, with its inner markup pulled out. `<pulse>`
/// and `<active>` set flags and emit nothing of their own; every other tag is
/// standard Pango markup and is re-emitted with its attributes escaped.
pub fn process_nodes(nodes: &Vec<XmlNode>, effect_tags: &[&str], embed_tags: &[&str]) -> (r: Processed)
    ensures
        r@ == process_nodes_spec(
            nodes@,
            effect_tags@.map_values(|t: &str| t@),
            embed_tags@.map_values(|t: &str| t@),
        ),
{
    let ghost eff = effect_tags@.map_values(|t: &str| t@);
    let ghost emb = embed_tags@.map_values(|t: &str| t@);
    let mut w = Walker {
        out: Processed {
            markup: String::new(),
            plain: String::new(),
            effects: Vec::new(),
            embeds: Vec::new(),
            pulse: false,
            active: false,
        },
        frames: Vec::new(),
        in_embed: false,
        inner: String::new(),
    };
    assert(w@.out.effects =~= Seq::<EffectView>::empty());
    assert(w@.out.embeds =~= Seq::<EmbedView>::empty());
    assert(w@.frames =~= Seq::<(nat, FrameView)>::empty());
    assert(w@ == walk_start());
    let mut i: usize = 0;
    while i < nodes.len()
        invariant
            i <= nodes@.len(),
            eff == effect_tags@.map_values(|t: &str| t@),
            emb == embed_tags@.map_values(|t: &str| t@),
            w@ == walk_prefix(nodes@, i as nat, eff, emb),
        decreases nodes.len() - i,
    {
        close_to_exec(&mut w, nodes[i].depth);
        open_node_exec(&mut w, &nodes[i], effect_tags, embed_tags);
        i += 1;
    }
    close_to_exec(&mut w, 0);
    w.out
}


/// The root element of the XML document `text` and the nodes under it, in
/// document order, as `roxmltree::Document::parse` reads it; `None` when it
/// rejects the text.
pub uninterp spec fn xml_tree_nodes(text: Seq<char>) -> Option<Seq<XmlNode>>;

/// Parses `text` with `roxmltree::Document::parse` and lists the root element
/// and its descendants in document order with their kind, depth
/// (`ancestors().count()`), local tag name, text and attributes. The contract
/// claims only that the result is fixed by `text`: it names it
/// [`xml_tree_nodes`] and says nothing of how the parser reads markup.
#[verifier::external_body]
fn parse_xml_nodes(text: &str) -> (r: Option<Vec<XmlNode>>)
    ensures
        match r {
            Some(v) => xml_tree_nodes(text@) == Some(v@),
            None => xml_tree_nodes(text@) is None,
        },
{
    let doc = roxmltree::Document::parse(text).ok()?;
    let mut out = Vec::new();
    for n in doc.root_element().descendants() {
        let kind = match n.node_type() {
            NodeType::Root => XmlKind::Root, NodeType::Element => XmlKind::Element, NodeType::PI => XmlKind::Pi,
            NodeType::Comment => XmlKind::Comment, NodeType::Text => XmlKind::Text,
        };
        let attrs = n.attributes().map(|a| (a.name().to_string(), a.value().to_string())).collect();
        let name = n.tag_name().name().to_string();
        out.push(XmlNode { kind, depth: n.ancestors().count(), name, text: n.text().unwrap_or("").to_string(), attrs });
    }
    Some(out)
}

/// `<r>content</r>`: content wrapped in a root element so that it parses as
/// one document.
pub open spec fn wrap_in_root(content: Seq<char>) -> Seq<char> {
    seq!['<', 'r', '>'] + content + seq!['<', '/', 'r', '>']
}

/// The nodes after the first (the root element's own node).
pub open spec fn under_root(nodes: Seq<XmlNode>) -> Seq<XmlNode> {
    if nodes.len() == 0 {
        nodes
    } else {
        nodes.drop_first()
    }
}

/// What malformed content becomes: escaped text, no effects.
pub open spec fn fallback_view(content: Seq<char>) -> ProcessedView {
    ProcessedView {
        markup: escape_spec(content),
        plain: content,
        effects: Seq::empty(),
        embeds: Seq::empty(),
        pulse: false,
        active: false,
    }
}

/// The processed form of tile `content` (see [`process_nodes`]): the content is
/// parsed as the children of one root element; if that fails, the whole
/// content becomes escaped text with no effects.
pub open spec fn process_spec(content: Seq<char>, effect_tags: Seq<Seq<char>>, embed_tags: Seq<Seq<char>>) -> ProcessedView {
    match xml_tree_nodes(wrap_in_root(content)) {
        Some(nodes) => process_nodes_spec(under_root(nodes), effect_tags, embed_tags),
        None => fallback_view(content),
    }
}

/// Process tile content into Pango-safe markup plus extracted effects and
/// embeds. `effect_tags` are decorations drawn behind a span (e.g. `box`,
/// `glow`); `embed_tags` are inline sized elements (e.g. `tickerbox`) — each
/// becomes one placeholder char in the flow, with its inner markup pulled out.
/// Everything else is standard Pango markup. Malformed input falls back to
/// escaped text.
pub fn process(content: &str, effect_tags: &[&str], embed_tags: &[&str]) -> (r: Processed)
    ensures
        r@ == process_spec(
            content@,
            effect_tags@.map_values(|t: &str| t@),
            embed_tags@.map_values(|t: &str| t@),
        ),
{
    let mut wrapped = String::new();
    wrapped.append("<r>");
    wrapped.append(content);
    wrapped.append("</r>");
    proof {
        reveal_strlit("<r>");
        reveal_strlit("</r>");
        assert(wrapped@ =~= wrap_in_root(content@));
    }
    match parse_xml_nodes(wrapped.as_str()) {
        Some(mut nodes) => {
            let ghost all = nodes@;
            if nodes.len() > 0 {
                nodes.remove(0);
            }
            assert(nodes@ =~= under_root(all));
            process_nodes(&nodes, effect_tags, embed_tags)
        },
        None => {
            let r = Processed {
                markup: escape(content),
                plain: content.to_owned(),
                effects: Vec::new(),
                embeds: Vec::new(),
                pulse: false,
                active: false,
            };
            assert(r@.effects =~= Seq::<EffectView>::empty());
            assert(r@.embeds =~= Seq::<EmbedView>::empty());
            r
        },
    }
}


/// `<span size="{pct}%" rise="{rise}">{escaped icon}</span>`.
pub open spec fn icon_span_spec(icon: Seq<char>, pct: int, rise: int) -> Seq<char> {
    "<span size=\""@ + decimal(pct) + "%\" rise=\""@ + decimal(rise) + "\">"@ + escape_spec(icon)
        + "</span>"@
}

/// Wrap an `icon` glyph in a Pango span sized `pct` percent of the base text
/// and raised by `rise` Pango units (negative lowers it), so a larger glyph
/// can sit vertically centered on the text line. The glyph is escaped.
pub fn icon_span_markup(icon: &str, pct: i32, rise: i32) -> (r: String)
    ensures
        r@ == icon_span_spec(icon@, pct as int, rise as int),
{
    let mut s = String::new();
    s.append("<span size=\"");
    push_decimal(&mut s, pct);
    s.append("%\" rise=\"");
    push_decimal(&mut s, rise);
    s.append("\">");
    push_escaped_str(&mut s, icon);
    s.append("</span>");
    assert(s@ =~= icon_span_spec(icon@, pct as int, rise as int));
    s
}

/// The UTF-8 bytes of `plain` at byte offset `start` spell the embed placeholder.
pub open spec fn placeholder_at(plain: Seq<char>, start: nat) -> bool {
    let ph = seq![EMBED_PLACEHOLDER];
    &&& start + utf8_len(ph) <= utf8_len(plain)
    &&& encode_utf8(plain).subrange(start as int, (start + utf8_len(ph)) as int) == encode_utf8(ph)
}

/// Every effect covers a byte range of the plain text, and every embed's
/// offset points at its placeholder in the plain text.
pub open spec fn offsets_index_plain(p: ProcessedView) -> bool {
    &&& forall|i: int|
        0 <= i < p.effects.len() ==> #[trigger] p.effects[i].start <= p.effects[i].end <= utf8_len(p.plain)
    &&& forall|i: int| 0 <= i < p.embeds.len() ==> placeholder_at(p.plain, #[trigger] p.embeds[i].start)
}

/// What holds of every state of a walk: the output's offsets index its plain
/// text, and every open effect started within it.
pub open spec fn walk_ok(st: WalkView) -> bool {
    &&& offsets_index_plain(st.out)
    &&& forall|i: int|
        0 <= i < st.frames.len() ==> match #[trigger] st.frames[i].1 {
            FrameView::Effect(_, _, start) => start <= utf8_len(st.out.plain),
            _ => true,
        }
}

proof fn lemma_encode_concat(a: Seq<char>, b: Seq<char>)
    ensures
        encode_utf8(a + b) == encode_utf8(a) + encode_utf8(b),
    decreases a.len(),
{
    if a.len() == 0 {
        assert(a + b =~= b);
        assert(encode_utf8(a) + encode_utf8(b) =~= encode_utf8(b));
    } else {
        lemma_encode_concat(a.drop_first(), b);
        assert((a + b).drop_first() =~= a.drop_first() + b);
        assert((a + b)[0] == a[0]);
        assert(encode_utf8(a + b) =~= encode_utf8(a) + encode_utf8(b));
    }
}

proof fn lemma_plain_grows(st: WalkView, q: Seq<char>, out2: ProcessedView)
    requires
        walk_ok(st),
        out2.plain == st.out.plain + q,
        out2.effects == st.out.effects,
        out2.embeds == st.out.embeds,
    ensures
        offsets_index_plain(out2),
        utf8_len(st.out.plain) <= utf8_len(out2.plain),
        walk_ok(WalkView { out: out2, ..st }),
{
    let p = st.out.plain;
    lemma_encode_concat(p, q);
    let ph = seq![EMBED_PLACEHOLDER];
    assert(utf8_len(p) <= utf8_len(out2.plain));
    assert forall|i: int| 0 <= i < out2.effects.len() implies #[trigger] out2.effects[i].start
        <= out2.effects[i].end <= utf8_len(out2.plain) by {
        assert(st.out.effects[i] == out2.effects[i]);
    }
    assert forall|i: int| 0 <= i < out2.embeds.len() implies placeholder_at(
        out2.plain,
        #[trigger] out2.embeds[i].start,
    ) by {
        let s = out2.embeds[i].start;
        assert(placeholder_at(p, s));
        assert(encode_utf8(out2.plain).subrange(s as int, (s + utf8_len(ph)) as int) =~= encode_utf8(p).subrange(
            s as int,
            (s + utf8_len(ph)) as int,
        ));
    }
}

proof fn lemma_close_top_ok(st: WalkView)
    requires
        walk_ok(st),
        st.frames.len() > 0,
    ensures
        walk_ok(close_top(st)),
{
    let n = st.frames.len();
    let f = st.frames[n - 1].1;
    assert(st.frames.last() == st.frames[n - 1]);
    let r = close_top(st);
    assert(r.out.plain == st.out.plain);
    assert forall|i: int| 0 <= i < r.frames.len() implies match #[trigger] r.frames[i].1 {
        FrameView::Effect(_, _, start) => start <= utf8_len(r.out.plain),
        _ => true,
    } by {
        assert(r.frames[i] == st.frames[i]);
    }
    match f {
        FrameView::Effect(tag, attrs, start) => {
            assert(start <= utf8_len(st.out.plain));
            assert(r.out.effects == st.out.effects.push(
                EffectView { tag, attrs, start, end: utf8_len(st.out.plain) },
            ));
            assert(r.out.embeds == st.out.embeds);
            assert forall|i: int| 0 <= i < r.out.effects.len() implies #[trigger] r.out.effects[i].start
                <= r.out.effects[i].end <= utf8_len(r.out.plain) by {
                if i < st.out.effects.len() {
                    assert(r.out.effects[i] == st.out.effects[i]);
                }
            }
        },
        FrameView::EmbedRoot => {
            assert(r.out.effects == st.out.effects);
            let e = st.out.embeds;
            assert forall|i: int| 0 <= i < r.out.embeds.len() implies placeholder_at(
                r.out.plain,
                #[trigger] r.out.embeds[i].start,
            ) by {
                assert(r.out.embeds[i].start == e[i].start);
            }
        },
        _ => {
            assert(r.out.effects == st.out.effects);
            assert(r.out.embeds == st.out.embeds);
        },
    }
}

proof fn lemma_close_to_ok(st: WalkView, d: nat)
    requires
        walk_ok(st),
    ensures
        walk_ok(close_to(st, d)),
    decreases st.frames.len(),
{
    if st.frames.len() > 0 && st.frames.last().0 >= d {
        lemma_close_top_ok(st);
        lemma_close_to_ok(close_top(st), d);
    }
}

#[verifier::spinoff_prover]
#[verifier::rlimit(40)]
proof fn lemma_open_node_ok(
    st: WalkView,
    n: XmlNode,
    effect_tags: Seq<Seq<char>>,
    embed_tags: Seq<Seq<char>>,
)
    requires
        walk_ok(st),
    ensures
        walk_ok(open_node(st, n, effect_tags, embed_tags)),
{
    let r = open_node(st, n, effect_tags, embed_tags);
    let d = n.depth as nat;
    let tag = n.name@;
    let attrs = attrs_view(n.attrs@);
    let ph = seq![EMBED_PLACEHOLDER];
    let p = st.out.plain;
    match n.kind {
        XmlKind::Text => {
            if st.in_embed {
                assert(r.out == st.out && r.frames == st.frames);
            } else {
                lemma_plain_grows(st, n.text@, r.out);
                assert(r.frames == st.frames);
                assert(r == WalkView { out: r.out, ..st });
            }
        },
        XmlKind::Element => {
            if st.in_embed || tag == ACTIVE_TAG@ || tag == PULSE_TAG@ || !embed_tags.contains(tag) {
                assert(r.out.plain == p);
                assert forall|i: int| 0 <= i < r.frames.len() implies match #[trigger] r.frames[i].1 {
                    FrameView::Effect(_, _, start) => start <= utf8_len(r.out.plain),
                    _ => true,
                } by {
                    if i < st.frames.len() {
                        assert(r.frames[i] == st.frames[i]);
                    }
                }
                assert forall|i: int| 0 <= i < r.out.embeds.len() implies placeholder_at(
                    r.out.plain,
                    #[trigger] r.out.embeds[i].start,
                ) by {
                    assert(r.out.embeds[i] == st.out.embeds[i]);
                }
                assert forall|i: int| 0 <= i < r.out.effects.len() implies #[trigger] r.out.effects[i].start
                    <= r.out.effects[i].end <= utf8_len(r.out.plain) by {
                    assert(r.out.effects[i] == st.out.effects[i]);
                }
            } else {
                let out_mid = ProcessedView { plain: p + ph, ..st.out };
                assert(p.push(EMBED_PLACEHOLDER) =~= p + ph);
                lemma_plain_grows(st, ph, out_mid);
                lemma_encode_concat(p, ph);
                let len = utf8_len(p);
                assert(encode_utf8(p + ph).subrange(len as int, (len + utf8_len(ph)) as int) =~= encode_utf8(ph));
                assert forall|i: int| 0 <= i < r.out.embeds.len() implies placeholder_at(
                    r.out.plain,
                    #[trigger] r.out.embeds[i].start,
                ) by {
                    if i < st.out.embeds.len() {
                        assert(r.out.embeds[i] == st.out.embeds[i]);
                        assert(placeholder_at(out_mid.plain, out_mid.embeds[i].start));
                    }
                }
                assert forall|i: int| 0 <= i < r.frames.len() implies match #[trigger] r.frames[i].1 {
                    FrameView::Effect(_, _, start) => start <= utf8_len(r.out.plain),
                    _ => true,
                } by {
                    if i < st.frames.len() {
                        assert(r.frames[i] == st.frames[i]);
                    }
                }
                assert forall|i: int| 0 <= i < r.out.effects.len() implies #[trigger] r.out.effects[i].start
                    <= r.out.effects[i].end <= utf8_len(r.out.plain) by {
                    assert(r.out.effects[i] == st.out.effects[i]);
                }
            }
        },
        _ => {},
    }
}

proof fn lemma_walk_prefix_ok(
    nodes: Seq<XmlNode>,
    k: nat,
    effect_tags: Seq<Seq<char>>,
    embed_tags: Seq<Seq<char>>,
)
    ensures
        walk_ok(walk_prefix(nodes, k, effect_tags, embed_tags)),
    decreases k,
{
    if k == 0 || k > nodes.len() {
        assert(walk_ok(walk_start()));
    } else {
        let prev = walk_prefix(nodes, (k - 1) as nat, effect_tags, embed_tags);
        lemma_walk_prefix_ok(nodes, (k - 1) as nat, effect_tags, embed_tags);
        lemma_close_to_ok(prev, nodes[k - 1].depth as nat);
        lemma_open_node_ok(close_to(prev, nodes[k - 1].depth as nat), nodes[k - 1], effect_tags, embed_tags);
    }
}

/// The offsets that processing hands out index its plain text: each effect
/// covers a byte range of it, and each embed's offset is where its placeholder
/// character is, whatever the content and tag lists.
pub proof fn process_offsets_index_plain(
    content: Seq<char>,
    effect_tags: Seq<Seq<char>>,
    embed_tags: Seq<Seq<char>>,
)
    ensures
        offsets_index_plain(process_spec(content, effect_tags, embed_tags)),
{
    match xml_tree_nodes(wrap_in_root(content)) {
        Some(nodes) => {
            let ns = under_root(nodes);
            lemma_walk_prefix_ok(ns, ns.len(), effect_tags, embed_tags);
            lemma_close_to_ok(walk_prefix(ns, ns.len(), effect_tags, embed_tags), 0);
        },
        None => {},
    }
}

/// `b` is the UTF-8 length of a prefix of `plain`: a character boundary.
pub open spec fn on_boundary(plain: Seq<char>, b: nat) -> bool {
    exists|k: int| 0 <= k <= plain.len() && #[trigger] utf8_len(plain.take(k)) == b
}

/// The spans processing hands out are well placed: effect ranges lie on
/// character boundaries of the plain text, come in order of their ends, and
/// any two are nested or disjoint; embed offsets strictly increase.
pub open spec fn spans_well_placed(p: ProcessedView) -> bool {
    &&& forall|i: int|
        0 <= i < p.effects.len() ==> on_boundary(p.plain, #[trigger] p.effects[i].start) && on_boundary(
            p.plain,
            p.effects[i].end,
        )
    &&& forall|i: int, j: int|
        0 <= i < j < p.effects.len() ==> #[trigger] p.effects[i].end <= #[trigger] p.effects[j].end
    &&& forall|i: int, j: int|
        0 <= i < j < p.effects.len() ==> (#[trigger] p.effects[i].end <= #[trigger] p.effects[j].start || (
        p.effects[j].start <= p.effects[i].start && p.effects[i].end <= p.effects[j].end))
    &&& forall|i: int, j: int|
        0 <= i < j < p.embeds.len() ==> #[trigger] p.embeds[i].start < #[trigger] p.embeds[j].start
}

pub open spec fn frame_start(f: FrameView) -> Option<nat> {
    match f {
        FrameView::Effect(_, _, start) => Some(start),
        _ => None,
    }
}

/// The ordering facts that hold of every state of a walk: the output's spans
/// are well placed, the open effects started on boundaries in stack order,
/// and every closed effect lies before or inside each open one.
pub open spec fn walk_ordered(st: WalkView) -> bool {
    &&& spans_well_placed(st.out)
    &&& forall|i: int|
        0 <= i < st.frames.len() && (#[trigger] frame_start(st.frames[i].1)) is Some ==> on_boundary(
            st.out.plain,
            frame_start(st.frames[i].1)->0,
        )
    &&& forall|i: int, j: int|
        0 <= i < j < st.frames.len() && (#[trigger] frame_start(st.frames[i].1)) is Some && (#[trigger] frame_start(
            st.frames[j].1,
        )) is Some ==> frame_start(st.frames[i].1)->0 <= frame_start(st.frames[j].1)->0
    &&& forall|i: int, e: int|
        0 <= i < st.frames.len() && 0 <= e < st.out.effects.len() && (#[trigger] frame_start(
            st.frames[i].1,
        )) is Some ==> (#[trigger] st.out.effects[e]).end <= frame_start(st.frames[i].1)->0 || frame_start(
            st.frames[i].1,
        )->0 <= st.out.effects[e].start
}

proof fn lemma_boundary_grows(p: Seq<char>, q: Seq<char>, b: nat)
    requires
        on_boundary(p, b),
    ensures
        on_boundary(p + q, b),
{
    let k = choose|k: int| 0 <= k <= p.len() && #[trigger] utf8_len(p.take(k)) == b;
    assert((p + q).take(k) =~= p.take(k));
}

proof fn lemma_boundary_end(p: Seq<char>)
    ensures
        on_boundary(p, utf8_len(p)),
{
    assert(p.take(p.len() as int) =~= p);
}

proof fn lemma_one_char_len(c: char)
    ensures
        utf8_len(seq![c]) >= 1,
{
    assert(seq![c][0] == c);
}

proof fn lemma_plain_grows_ordered(st: WalkView, q: Seq<char>, out2: ProcessedView)
    requires
        walk_ok(st),
        walk_ordered(st),
        out2.plain == st.out.plain + q,
        out2.effects == st.out.effects,
        out2.embeds == st.out.embeds,
    ensures
        walk_ordered(WalkView { out: out2, ..st }),
{
    let p = st.out.plain;
    assert forall|i: int| 0 <= i < out2.effects.len() implies on_boundary(
        out2.plain,
        #[trigger] out2.effects[i].start,
    ) && on_boundary(out2.plain, out2.effects[i].end) by {
        lemma_boundary_grows(p, q, out2.effects[i].start);
        lemma_boundary_grows(p, q, out2.effects[i].end);
    }
    assert forall|i: int|
        0 <= i < st.frames.len() && (#[trigger] frame_start(st.frames[i].1)) is Some implies on_boundary(
        out2.plain,
        frame_start(st.frames[i].1)->0,
    ) by {
        lemma_boundary_grows(p, q, frame_start(st.frames[i].1)->0);
    }
}

#[verifier::spinoff_prover]
#[verifier::rlimit(40)]
proof fn lemma_close_top_ordered(st: WalkView)
    requires
        walk_ok(st),
        walk_ordered(st),
        st.frames.len() > 0,
    ensures
        walk_ordered(close_top(st)),
{
    let n = st.frames.len();
    let f = st.frames[n - 1].1;
    assert(st.frames.last() == st.frames[n - 1]);
    let r = close_top(st);
    assert(r.out.plain == st.out.plain);
    assert(r.frames =~= st.frames.drop_last());
    match f {
        FrameView::Effect(tag, attrs, start) => {
            let len = utf8_len(st.out.plain);
            let ne = EffectView { tag, attrs, start, end: len };
            assert(frame_start(st.frames[n - 1].1) == Some(start));
            assert(r.out.effects == st.out.effects.push(ne));
            assert(start <= len);
            lemma_boundary_end(st.out.plain);
            let m = st.out.effects.len() as int;
            assert forall|i: int| 0 <= i < r.out.effects.len() implies on_boundary(
                r.out.plain,
                #[trigger] r.out.effects[i].start,
            ) && on_boundary(r.out.plain, r.out.effects[i].end) by {
                if i < m {
                    assert(r.out.effects[i] == st.out.effects[i]);
                }
            }
            assert forall|i: int, j: int| 0 <= i < j < r.out.effects.len() implies #[trigger] r.out.effects[i].end
                <= #[trigger] r.out.effects[j].end by {
                assert(r.out.effects[i] == st.out.effects[i]);
                if j < m {
                    assert(r.out.effects[j] == st.out.effects[j]);
                }
            }
            assert forall|i: int, j: int| 0 <= i < j < r.out.effects.len() implies (
            #[trigger] r.out.effects[i].end <= #[trigger] r.out.effects[j].start || (r.out.effects[j].start
                <= r.out.effects[i].start && r.out.effects[i].end <= r.out.effects[j].end)) by {
                assert(r.out.effects[i] == st.out.effects[i]);
                if j < m {
                    assert(r.out.effects[j] == st.out.effects[j]);
                } else {
                    assert(r.out.effects[j] == ne);
                    assert(st.out.effects[i].end <= start || start <= st.out.effects[i].start);
                }
            }
            assert forall|i: int|
                0 <= i < r.frames.len() && (#[trigger] frame_start(r.frames[i].1)) is Some implies on_boundary(
                r.out.plain,
                frame_start(r.frames[i].1)->0,
            ) by {
                assert(r.frames[i] == st.frames[i]);
            }
            assert forall|i: int, j: int|
                0 <= i < j < r.frames.len() && (#[trigger] frame_start(r.frames[i].1)) is Some && (
                #[trigger] frame_start(r.frames[j].1)) is Some implies frame_start(r.frames[i].1)->0
                <= frame_start(r.frames[j].1)->0 by {
                assert(r.frames[i] == st.frames[i]);
                assert(r.frames[j] == st.frames[j]);
            }
            assert forall|i: int, e: int|
                0 <= i < r.frames.len() && 0 <= e < r.out.effects.len() && (#[trigger] frame_start(
                    r.frames[i].1,
                )) is Some implies (#[trigger] r.out.effects[e]).end <= frame_start(r.frames[i].1)->0
                || frame_start(r.frames[i].1)->0 <= r.out.effects[e].start by {
                assert(r.frames[i] == st.frames[i]);
                if e < m {
                    assert(r.out.effects[e] == st.out.effects[e]);
                } else {
                    assert(r.out.effects[e] == ne);
                    assert(frame_start(st.frames[i].1)->0 <= start);
                }
            }
        },
        _ => {
            assert(r.out.effects == st.out.effects);
            assert forall|i: int, j: int| 0 <= i < j < r.out.embeds.len() implies #[trigger] r.out.embeds[i].start
                < #[trigger] r.out.embeds[j].start by {
                assert(r.out.embeds[i].start == st.out.embeds[i].start);
                assert(r.out.embeds[j].start == st.out.embeds[j].start);
            }
            assert forall|i: int|
                0 <= i < r.frames.len() && (#[trigger] frame_start(r.frames[i].1)) is Some implies on_boundary(
                r.out.plain,
                frame_start(r.frames[i].1)->0,
            ) by {
                assert(r.frames[i] == st.frames[i]);
            }
            assert forall|i: int, j: int|
                0 <= i < j < r.frames.len() && (#[trigger] frame_start(r.frames[i].1)) is Some && (
                #[trigger] frame_start(r.frames[j].1)) is Some implies frame_start(r.frames[i].1)->0
                <= frame_start(r.frames[j].1)->0 by {
                assert(r.frames[i] == st.frames[i]);
                assert(r.frames[j] == st.frames[j]);
            }
            assert forall|i: int, e: int|
                0 <= i < r.frames.len() && 0 <= e < r.out.effects.len() && (#[trigger] frame_start(
                    r.frames[i].1,
                )) is Some implies (#[trigger] r.out.effects[e]).end <= frame_start(r.frames[i].1)->0
                || frame_start(r.frames[i].1)->0 <= r.out.effects[e].start by {
                assert(r.frames[i] == st.frames[i]);
            }
        },
    }
}

proof fn lemma_push_frame_ordered(st: WalkView, r: WalkView, x: (nat, FrameView))
    requires
        walk_ok(st),
        walk_ordered(st),
        r.out.plain == st.out.plain,
        r.out.effects == st.out.effects,
        r.out.embeds == st.out.embeds,
        r.frames == st.frames.push(x),
        frame_start(x.1) is None || frame_start(x.1) == Some(utf8_len(st.out.plain)),
    ensures
        walk_ordered(r),
{
    let n = st.frames.len() as int;
    lemma_boundary_end(st.out.plain);
    assert forall|i: int|
        0 <= i < r.frames.len() && (#[trigger] frame_start(r.frames[i].1)) is Some implies on_boundary(
        r.out.plain,
        frame_start(r.frames[i].1)->0,
    ) by {
        if i < n {
            assert(r.frames[i] == st.frames[i]);
        }
    }
    assert forall|i: int, j: int|
        0 <= i < j < r.frames.len() && (#[trigger] frame_start(r.frames[i].1)) is Some && (
        #[trigger] frame_start(r.frames[j].1)) is Some implies frame_start(r.frames[i].1)->0 <= frame_start(
        r.frames[j].1,
    )->0 by {
        assert(r.frames[i] == st.frames[i]);
        if j < n {
            assert(r.frames[j] == st.frames[j]);
        } else {
            assert(match st.frames[i].1 {
                FrameView::Effect(_, _, start) => start <= utf8_len(st.out.plain),
                _ => true,
            });
        }
    }
    assert forall|i: int, e: int|
        0 <= i < r.frames.len() && 0 <= e < r.out.effects.len() && (#[trigger] frame_start(
            r.frames[i].1,
        )) is Some implies (#[trigger] r.out.effects[e]).end <= frame_start(r.frames[i].1)->0 || frame_start(
        r.frames[i].1,
    )->0 <= r.out.effects[e].start by {
        if i < n {
            assert(r.frames[i] == st.frames[i]);
        } else {
            assert(st.out.effects[e].end <= utf8_len(st.out.plain));
        }
    }
}

#[verifier::spinoff_prover]
#[verifier::rlimit(40)]
proof fn lemma_open_node_ordered(
    st: WalkView,
    n: XmlNode,
    effect_tags: Seq<Seq<char>>,
    embed_tags: Seq<Seq<char>>,
)
    requires
        walk_ok(st),
        walk_ordered(st),
    ensures
        walk_ordered(open_node(st, n, effect_tags, embed_tags)),
{
    let r = open_node(st, n, effect_tags, embed_tags);
    let d = n.depth as nat;
    let tag = n.name@;
    let attrs = attrs_view(n.attrs@);
    let ph = seq![EMBED_PLACEHOLDER];
    let p = st.out.plain;
    match n.kind {
        XmlKind::Text => {
            if !st.in_embed {
                lemma_plain_grows_ordered(st, n.text@, r.out);
                assert(r == WalkView { out: r.out, ..st });
            }
        },
        XmlKind::Element => {
            if st.in_embed {
                lemma_push_frame_ordered(st, r, (d, FrameView::Inner(tag)));
            } else if tag == ACTIVE_TAG@ || tag == PULSE_TAG@ {
                lemma_push_frame_ordered(st, r, (d, FrameView::Flag));
            } else if embed_tags.contains(tag) {
                let out_mid = ProcessedView { plain: p + ph, ..st.out };
                assert(p.push(EMBED_PLACEHOLDER) =~= p + ph);
                lemma_plain_grows(st, ph, out_mid);
                lemma_plain_grows_ordered(st, ph, out_mid);
                let st2 = WalkView { out: out_mid, ..st };
                lemma_one_char_len(EMBED_PLACEHOLDER);
                let len = utf8_len(p);
                let m = st.out.embeds.len() as int;
                assert forall|i: int, j: int| 0 <= i < j < r.out.embeds.len() implies #[trigger] r.out.embeds[i].start
                    < #[trigger] r.out.embeds[j].start by {
                    assert(r.out.embeds[i] == st.out.embeds[i]);
                    if j < m {
                        assert(r.out.embeds[j] == st.out.embeds[j]);
                    } else {
                        assert(placeholder_at(p, st.out.embeds[i].start));
                        assert(r.out.embeds[j].start == len);
                    }
                }
                assert(r.out.effects == st2.out.effects);
                assert(r.out.plain == st2.out.plain);
                assert(r.frames == st2.frames.push((d, FrameView::EmbedRoot)));
                let n2 = st.frames.len() as int;
                assert forall|i: int|
                    0 <= i < r.frames.len() && (#[trigger] frame_start(r.frames[i].1)) is Some implies on_boundary(
                    r.out.plain,
                    frame_start(r.frames[i].1)->0,
                ) by {
                    if i < n2 {
                        assert(r.frames[i] == st2.frames[i]);
                    }
                }
                assert forall|i: int, j: int|
                    0 <= i < j < r.frames.len() && (#[trigger] frame_start(r.frames[i].1)) is Some && (
                    #[trigger] frame_start(r.frames[j].1)) is Some implies frame_start(r.frames[i].1)->0
                    <= frame_start(r.frames[j].1)->0 by {
                    assert(r.frames[i] == st2.frames[i]);
                    assert(r.frames[j] == st2.frames[j]);
                }
                assert forall|i: int, e: int|
                    0 <= i < r.frames.len() && 0 <= e < r.out.effects.len() && (#[trigger] frame_start(
                        r.frames[i].1,
                    )) is Some implies (#[trigger] r.out.effects[e]).end <= frame_start(r.frames[i].1)->0
                    || frame_start(r.frames[i].1)->0 <= r.out.effects[e].start by {
                    assert(r.frames[i] == st2.frames[i]);
                }
            } else if effect_tags.contains(tag) {
                lemma_push_frame_ordered(st, r, (d, FrameView::Effect(tag, attrs, utf8_len(p))));
            } else {
                lemma_push_frame_ordered(st, r, (d, FrameView::Std(tag)));
            }
        },
        _ => {},
    }
}

proof fn lemma_close_to_ordered(st: WalkView, d: nat)
    requires
        walk_ok(st),
        walk_ordered(st),
    ensures
        walk_ordered(close_to(st, d)),
    decreases st.frames.len(),
{
    if st.frames.len() > 0 && st.frames.last().0 >= d {
        lemma_close_top_ok(st);
        lemma_close_top_ordered(st);
        lemma_close_to_ordered(close_top(st), d);
    }
}

proof fn lemma_walk_prefix_ordered(
    nodes: Seq<XmlNode>,
    k: nat,
    effect_tags: Seq<Seq<char>>,
    embed_tags: Seq<Seq<char>>,
)
    ensures
        walk_ordered(walk_prefix(nodes, k, effect_tags, embed_tags)),
    decreases k,
{
    lemma_walk_prefix_ok(nodes, k, effect_tags, embed_tags);
    if k == 0 || k > nodes.len() {
    } else {
        let prev = walk_prefix(nodes, (k - 1) as nat, effect_tags, embed_tags);
        lemma_walk_prefix_ok(nodes, (k - 1) as nat, effect_tags, embed_tags);
        lemma_walk_prefix_ordered(nodes, (k - 1) as nat, effect_tags, embed_tags);
        let d = nodes[k - 1].depth as nat;
        lemma_close_to_ok(prev, d);
        lemma_close_to_ordered(prev, d);
        lemma_open_node_ordered(close_to(prev, d), nodes[k - 1], effect_tags, embed_tags);
    }
}

/// The spans processing hands out are well placed, whatever the content and
/// tag lists: effect ranges start and end on character boundaries of the
/// plain text, come in order of their ends, and any two are nested or
/// disjoint; embed offsets strictly increase.
pub proof fn process_spans_well_placed(
    content: Seq<char>,
    effect_tags: Seq<Seq<char>>,
    embed_tags: Seq<Seq<char>>,
)
    ensures
        spans_well_placed(process_spec(content, effect_tags, embed_tags)),
{
    match xml_tree_nodes(wrap_in_root(content)) {
        Some(nodes) => {
            let ns = under_root(nodes);
            lemma_walk_prefix_ok(ns, ns.len(), effect_tags, embed_tags);
            lemma_walk_prefix_ordered(ns, ns.len(), effect_tags, embed_tags);
            lemma_close_to_ordered(walk_prefix(ns, ns.len(), effect_tags, embed_tags), 0);
        },
        None => {},
    }
}

/// `<` or `>`: the characters that open and close a tag.
pub open spec fn is_angle(c: char) -> bool {
    c == '<' || c == '>'
}

/// `s` holds no `<` or `>`.
pub open spec fn no_angle(s: Seq<char>) -> bool {
    forall|i: int| 0 <= i < s.len() ==> !is_angle(#[trigger] s[i])
}

/// Whether markup `m` ends inside a tag (after a `<` not yet closed by `>`).
pub open spec fn in_tag_at_end(m: Seq<char>) -> bool
    decreases m.len(),
{
    if m.len() == 0 {
        false
    } else if m.last() == '<' {
        true
    } else if m.last() == '>' {
        false
    } else {
        in_tag_at_end(m.drop_last())
    }
}

/// Markup `m` with every tag (`<` up to the next `>`) removed.
pub open spec fn strip_tags(m: Seq<char>) -> Seq<char>
    decreases m.len(),
{
    if m.len() == 0 {
        Seq::empty()
    } else if is_angle(m.last()) || in_tag_at_end(m.drop_last()) {
        strip_tags(m.drop_last())
    } else {
        strip_tags(m.drop_last()).push(m.last())
    }
}

proof fn lemma_strip_text(a: Seq<char>, t: Seq<char>)
    requires
        !in_tag_at_end(a),
        no_angle(t),
    ensures
        strip_tags(a + t) == strip_tags(a) + t,
        !in_tag_at_end(a + t),
    decreases t.len(),
{
    if t.len() == 0 {
        assert(a + t =~= a);
        assert(strip_tags(a) + t =~= strip_tags(a));
    } else {
        let t1 = t.drop_last();
        assert(no_angle(t1)) by {
            assert forall|i: int| 0 <= i < t1.len() implies !is_angle(#[trigger] t1[i]) by {
                assert(t1[i] == t[i]);
            }
        }
        lemma_strip_text(a, t1);
        assert((a + t).drop_last() =~= a + t1);
        assert((a + t).last() == t[t.len() - 1]);
        assert(!is_angle(t[t.len() - 1]));
        assert(strip_tags(a + t) =~= strip_tags(a) + t);
    }
}

proof fn lemma_strip_in_tag(a: Seq<char>, x: Seq<char>)
    requires
        in_tag_at_end(a),
        no_angle(x),
    ensures
        strip_tags(a + x) == strip_tags(a),
        in_tag_at_end(a + x),
    decreases x.len(),
{
    if x.len() == 0 {
        assert(a + x =~= a);
    } else {
        let x1 = x.drop_last();
        assert(no_angle(x1)) by {
            assert forall|i: int| 0 <= i < x1.len() implies !is_angle(#[trigger] x1[i]) by {
                assert(x1[i] == x[i]);
            }
        }
        lemma_strip_in_tag(a, x1);
        assert((a + x).drop_last() =~= a + x1);
        assert((a + x).last() == x[x.len() - 1]);
        assert(!is_angle(x[x.len() - 1]));
    }
}

/// Appending a whole tag `<x>` (no `<` or `>` inside) adds nothing to the
/// stripped markup.
proof fn lemma_strip_tag(a: Seq<char>, x: Seq<char>)
    requires
        !in_tag_at_end(a),
        no_angle(x),
    ensures
        strip_tags(a + (seq!['<'] + x + seq!['>'])) == strip_tags(a),
        !in_tag_at_end(a + (seq!['<'] + x + seq!['>'])),
{
    let a1 = a.push('<');
    assert(a1.drop_last() =~= a);
    assert(in_tag_at_end(a1));
    assert(strip_tags(a1) == strip_tags(a));
    lemma_strip_in_tag(a1, x);
    let a2 = (a1 + x).push('>');
    assert(a2.drop_last() =~= a1 + x);
    assert(a + (seq!['<'] + x + seq!['>']) =~= a2);
}

proof fn lemma_no_angle_concat(a: Seq<char>, b: Seq<char>)
    requires
        no_angle(a),
        no_angle(b),
    ensures
        no_angle(a + b),
{
    assert forall|i: int| 0 <= i < (a + b).len() implies !is_angle(#[trigger] (a + b)[i]) by {
        if i < a.len() {
            assert((a + b)[i] == a[i]);
        } else {
            assert((a + b)[i] == b[i - a.len()]);
        }
    }
}

proof fn lemma_escape_no_angle(s: Seq<char>)
    ensures
        no_angle(escape_spec(s)),
{
    escape_is_markup_safe(s);
    assert forall|i: int| 0 <= i < escape_spec(s).len() implies !is_angle(#[trigger] escape_spec(s)[i]) by {
        assert(!markup_special(escape_spec(s)[i]));
    }
}

proof fn lemma_escape_concat(a: Seq<char>, b: Seq<char>)
    ensures
        escape_spec(a + b) == escape_spec(a) + escape_spec(b),
    decreases b.len(),
{
    if b.len() == 0 {
        assert(a + b =~= a);
        assert(escape_spec(a) + escape_spec(b) =~= escape_spec(a));
    } else {
        lemma_escape_concat(a, b.drop_last());
        assert((a + b).drop_last() =~= a + b.drop_last());
        assert((a + b).last() == b.last());
        assert(escape_spec(a + b) =~= escape_spec(a) + escape_spec(b));
    }
}

/// Every element and attribute name of `nodes` is free of `<` and `>` (as XML
/// names are).
pub open spec fn names_ok(nodes: Seq<XmlNode>) -> bool {
    forall|i: int|
        0 <= i < nodes.len() ==> no_angle((#[trigger] nodes[i]).name@) && forall|j: int|
            0 <= j < nodes[i].attrs@.len() ==> no_angle((#[trigger] nodes[i].attrs@[j]).0@)
}

proof fn lemma_attrs_no_angle(attrs: AttrsView)
    requires
        forall|j: int| 0 <= j < attrs.len() ==> no_angle((#[trigger] attrs[j]).0),
    ensures
        no_angle(attrs_markup(attrs)),
    decreases attrs.len(),
{
    if attrs.len() > 0 {
        let a = attrs.drop_last();
        assert forall|j: int| 0 <= j < a.len() implies no_angle((#[trigger] a[j]).0) by {
            assert(a[j] == attrs[j]);
        }
        lemma_attrs_no_angle(a);
        let last = attrs.last();
        assert(no_angle(last.0)) by {
            assert(attrs[attrs.len() - 1] == last);
        }
        lemma_escape_no_angle(last.1);
        assert(no_angle(seq![' ']));
        assert(no_angle(seq!['=', '"']));
        assert(no_angle(seq!['"']));
        lemma_no_angle_concat(attrs_markup(a), seq![' ']);
        lemma_no_angle_concat(attrs_markup(a) + seq![' '], last.0);
        lemma_no_angle_concat(attrs_markup(a) + seq![' '] + last.0, seq!['=', '"']);
        lemma_no_angle_concat(attrs_markup(a) + seq![' '] + last.0 + seq!['=', '"'], escape_spec(last.1));
        lemma_no_angle_concat(
            attrs_markup(a) + seq![' '] + last.0 + seq!['=', '"'] + escape_spec(last.1),
            seq!['"'],
        );
    }
}

/// The markup of a walk state, stripped of its tags, is its plain text
/// escaped; the markup ends outside a tag, and the standard tags still open
/// have names free of `<` and `>`.
pub open spec fn markup_tracks_plain(st: WalkView) -> bool {
    &&& strip_tags(st.out.markup) == escape_spec(st.out.plain)
    &&& !in_tag_at_end(st.out.markup)
    &&& forall|i: int|
        0 <= i < st.frames.len() ==> match #[trigger] st.frames[i].1 {
            FrameView::Std(tag) => no_angle(tag),
            _ => true,
        }
}

#[verifier::spinoff_prover]
#[verifier::rlimit(40)]
proof fn lemma_close_top_tracks(st: WalkView)
    requires
        markup_tracks_plain(st),
        st.frames.len() > 0,
    ensures
        markup_tracks_plain(close_top(st)),
{
    let n = st.frames.len();
    assert(st.frames.last() == st.frames[n - 1]);
    let r = close_top(st);
    assert(r.out.plain == st.out.plain);
    assert forall|i: int| 0 <= i < r.frames.len() implies match #[trigger] r.frames[i].1 {
        FrameView::Std(tag) => no_angle(tag),
        _ => true,
    } by {
        assert(r.frames[i] == st.frames[i]);
    }
    match st.frames[n - 1].1 {
        FrameView::Std(tag) => {
            let x = seq!['/'] + tag;
            assert(no_angle(seq!['/']));
            lemma_no_angle_concat(seq!['/'], tag);
            lemma_strip_tag(st.out.markup, x);
            assert(close_tag(tag) =~= seq!['<'] + x + seq!['>']);
            assert(r.out.markup == st.out.markup + close_tag(tag));
        },
        _ => {
            assert(r.out.markup == st.out.markup);
        },
    }
}

proof fn lemma_close_to_tracks(st: WalkView, d: nat)
    requires
        markup_tracks_plain(st),
    ensures
        markup_tracks_plain(close_to(st, d)),
    decreases st.frames.len(),
{
    if st.frames.len() > 0 && st.frames.last().0 >= d {
        lemma_close_top_tracks(st);
        lemma_close_to_tracks(close_top(st), d);
    }
}

#[verifier::spinoff_prover]
#[verifier::rlimit(40)]
proof fn lemma_open_node_tracks(
    st: WalkView,
    n: XmlNode,
    effect_tags: Seq<Seq<char>>,
    embed_tags: Seq<Seq<char>>,
)
    requires
        markup_tracks_plain(st),
        no_angle(n.name@),
        forall|j: int| 0 <= j < n.attrs@.len() ==> no_angle((#[trigger] n.attrs@[j]).0@),
    ensures
        markup_tracks_plain(open_node(st, n, effect_tags, embed_tags)),
{
    let r = open_node(st, n, effect_tags, embed_tags);
    let d = n.depth as nat;
    let tag = n.name@;
    let attrs = attrs_view(n.attrs@);
    let m = st.out.markup;
    let p = st.out.plain;
    let nf = st.frames.len() as int;
    match n.kind {
        XmlKind::Text => {
            if !st.in_embed {
                let t = n.text@;
                lemma_escape_no_angle(t);
                lemma_strip_text(m, escape_spec(t));
                lemma_escape_concat(p, t);
                assert(r.out.markup == m + escape_spec(t));
                assert(r.out.plain == p + t);
                assert(r.frames == st.frames);
            } else {
                assert(r.out == st.out && r.frames == st.frames);
            }
        },
        XmlKind::Element => {
            if st.in_embed || tag == ACTIVE_TAG@ || tag == PULSE_TAG@ || (!embed_tags.contains(tag)
                && effect_tags.contains(tag)) {
                assert(r.out.markup == m && r.out.plain == p);
                assert forall|i: int| 0 <= i < r.frames.len() implies match #[trigger] r.frames[i].1 {
                    FrameView::Std(tg) => no_angle(tg),
                    _ => true,
                } by {
                    if i < nf {
                        assert(r.frames[i] == st.frames[i]);
                    }
                }
            } else if embed_tags.contains(tag) {
                let ph = seq![EMBED_PLACEHOLDER];
                assert(no_angle(ph));
                lemma_strip_text(m, ph);
                lemma_escape_concat(p, ph);
                assert(ph.drop_last() =~= Seq::<char>::empty());
                assert(ph.last() == EMBED_PLACEHOLDER);
                assert(escape_spec(ph.drop_last()) =~= Seq::<char>::empty());
                assert(escape_char(EMBED_PLACEHOLDER) =~= ph);
                assert(escape_spec(ph) =~= ph);
                assert(r.out.markup =~= m + ph);
                assert(r.out.plain =~= p + ph);
                assert forall|i: int| 0 <= i < r.frames.len() implies match #[trigger] r.frames[i].1 {
                    FrameView::Std(tg) => no_angle(tg),
                    _ => true,
                } by {
                    if i < nf {
                        assert(r.frames[i] == st.frames[i]);
                    }
                }
            } else {
                assert forall|j: int| 0 <= j < attrs.len() implies no_angle((#[trigger] attrs[j]).0) by {
                    assert(attrs[j].0 == n.attrs@[j].0@);
                }
                lemma_attrs_no_angle(attrs);
                lemma_no_angle_concat(tag, attrs_markup(attrs));
                lemma_strip_tag(m, tag + attrs_markup(attrs));
                assert(open_tag(tag, attrs) =~= seq!['<'] + (tag + attrs_markup(attrs)) + seq!['>']);
                assert(r.out.markup == m + open_tag(tag, attrs));
                assert(r.out.plain == p);
                assert forall|i: int| 0 <= i < r.frames.len() implies match #[trigger] r.frames[i].1 {
                    FrameView::Std(tg) => no_angle(tg),
                    _ => true,
                } by {
                    if i < nf {
                        assert(r.frames[i] == st.frames[i]);
                    }
                }
            }
        },
        _ => {},
    }
}

proof fn lemma_walk_prefix_tracks(
    nodes: Seq<XmlNode>,
    k: nat,
    effect_tags: Seq<Seq<char>>,
    embed_tags: Seq<Seq<char>>,
)
    requires
        names_ok(nodes),
    ensures
        markup_tracks_plain(walk_prefix(nodes, k, effect_tags, embed_tags)),
    decreases k,
{
    if k == 0 || k > nodes.len() {
        assert(escape_spec(Seq::<char>::empty()) == Seq::<char>::empty());
    } else {
        let prev = walk_prefix(nodes, (k - 1) as nat, effect_tags, embed_tags);
        lemma_walk_prefix_tracks(nodes, (k - 1) as nat, effect_tags, embed_tags);
        let nd = nodes[k - 1];
        lemma_close_to_tracks(prev, nd.depth as nat);
        assert(no_angle(nd.name@));
        lemma_open_node_tracks(close_to(prev, nd.depth as nat), nd, effect_tags, embed_tags);
    }
}

/// Processing keeps text and markup in step: the markup with its tags
/// removed is exactly the plain text escaped, so decoding its entities gives
/// the plain text back. This holds whenever the parsed element and attribute
/// names hold no `<` or `>`, as XML names never do; malformed content falls
/// back to escaped text, for which it holds too.
pub proof fn process_markup_strips_to_plain(
    content: Seq<char>,
    effect_tags: Seq<Seq<char>>,
    embed_tags: Seq<Seq<char>>,
)
    requires
        match xml_tree_nodes(wrap_in_root(content)) {
            Some(nodes) => names_ok(nodes),
            None => true,
        },
    ensures
        strip_tags(process_spec(content, effect_tags, embed_tags).markup) == escape_spec(
            process_spec(content, effect_tags, embed_tags).plain,
        ),
{
    match xml_tree_nodes(wrap_in_root(content)) {
        Some(nodes) => {
            let ns = under_root(nodes);
            assert(names_ok(ns)) by {
                if nodes.len() > 0 {
                    assert forall|i: int| 0 <= i < ns.len() implies no_angle((#[trigger] ns[i]).name@) && forall|
                        j: int,
                    | 0 <= j < ns[i].attrs@.len() ==> no_angle((#[trigger] ns[i].attrs@[j]).0@) by {
                        assert(ns[i] == nodes[i + 1]);
                    }
                }
            }
            lemma_walk_prefix_tracks(ns, ns.len(), effect_tags, embed_tags);
            lemma_close_to_tracks(walk_prefix(ns, ns.len(), effect_tags, embed_tags), 0);
        },
        None => {
            lemma_escape_no_angle(content);
            lemma_strip_text(Seq::empty(), escape_spec(content));
            assert(Seq::<char>::empty() + escape_spec(content) =~= escape_spec(content));
            assert(strip_tags(Seq::<char>::empty()) =~= Seq::<char>::empty());
        },
    }
}

/// Some node is an element named `name`.
pub open spec fn has_element(nodes: Seq<XmlNode>, name: Seq<char>) -> bool {
    exists|j: int| 0 <= j < nodes.len() && (#[trigger] nodes[j]).kind == XmlKind::Element && nodes[j].name@ == name
}

proof fn lemma_close_to_flags(st: WalkView, d: nat)
    ensures
        close_to(st, d).out.pulse == st.out.pulse,
        close_to(st, d).out.active == st.out.active,
        !st.in_embed ==> !close_to(st, d).in_embed,
    decreases st.frames.len(),
{
    if st.frames.len() > 0 && st.frames.last().0 >= d {
        let c = close_top(st);
        assert(c.out.pulse == st.out.pulse && c.out.active == st.out.active);
        assert(!st.in_embed ==> !c.in_embed);
        lemma_close_to_flags(c, d);
    }
}

proof fn lemma_walk_flags(nodes: Seq<XmlNode>, k: nat, effect_tags: Seq<Seq<char>>, embed_tags: Seq<Seq<char>>)
    requires
        k <= nodes.len(),
    ensures
        walk_prefix(nodes, k, effect_tags, embed_tags).out.pulse ==> has_element(nodes.take(k as int), PULSE_TAG@),
        walk_prefix(nodes, k, effect_tags, embed_tags).out.active ==> has_element(nodes.take(k as int), ACTIVE_TAG@),
        embed_tags.len() == 0 ==> !walk_prefix(nodes, k, effect_tags, embed_tags).in_embed && (walk_prefix(
            nodes,
            k,
            effect_tags,
            embed_tags,
        ).out.pulse == has_element(nodes.take(k as int), PULSE_TAG@)) && (walk_prefix(
            nodes,
            k,
            effect_tags,
            embed_tags,
        ).out.active == has_element(nodes.take(k as int), ACTIVE_TAG@)),
    decreases k,
{
    reveal_strlit("pulse");
    reveal_strlit("active");
    assert(PULSE_TAG@ != ACTIVE_TAG@) by {
        assert(PULSE_TAG@[0] != ACTIVE_TAG@[0]);
    }
    let t = nodes.take(k as int);
    if k == 0 {
        assert(!has_element(t, PULSE_TAG@));
        assert(!has_element(t, ACTIVE_TAG@));
    } else {
        let prev = walk_prefix(nodes, (k - 1) as nat, effect_tags, embed_tags);
        lemma_walk_flags(nodes, (k - 1) as nat, effect_tags, embed_tags);
        let n = nodes[k - 1];
        let c = close_to(prev, n.depth as nat);
        lemma_close_to_flags(prev, n.depth as nat);
        let r = open_node(c, n, effect_tags, embed_tags);
        assert(walk_prefix(nodes, k, effect_tags, embed_tags) == r);
        let t1 = nodes.take(k - 1);
        assert forall|name: Seq<char>| has_element(t, name) == (has_element(t1, name) || (n.kind
            == XmlKind::Element && n.name@ == name)) by {
            if has_element(t1, name) {
                let j = choose|j: int| 0 <= j < t1.len() && (#[trigger] t1[j]).kind == XmlKind::Element
                    && t1[j].name@ == name;
                assert(t[j] == t1[j]);
            }
            if n.kind == XmlKind::Element && n.name@ == name {
                assert(t[k - 1] == n);
            }
            if has_element(t, name) {
                let j = choose|j: int| 0 <= j < t.len() && (#[trigger] t[j]).kind == XmlKind::Element
                    && t[j].name@ == name;
                if j < k - 1 {
                    assert(t1[j] == t[j]);
                } else {
                    assert(t[j] == n);
                }
            }
        }
        assert(r.out.pulse == (c.out.pulse || (n.kind == XmlKind::Element && !c.in_embed && n.name@
            != ACTIVE_TAG@ && n.name@ == PULSE_TAG@)));
        assert(r.out.active == (c.out.active || (n.kind == XmlKind::Element && !c.in_embed && n.name@
            == ACTIVE_TAG@)));
        if embed_tags.len() == 0 {
            assert(!embed_tags.contains(n.name@));
            assert(!r.in_embed);
        }
    }
}

/// The whole tile pulses only for a `<pulse>` element and is marked active
/// only for an `<active>` element: the two flags are set by their own tags
/// alone (an `<active/>` marker leaves `pulse` false). With no embed tags,
/// each flag is set exactly when its element occurs.
pub proof fn process_flags_follow_their_tags(
    nodes: Seq<XmlNode>,
    effect_tags: Seq<Seq<char>>,
    embed_tags: Seq<Seq<char>>,
)
    ensures
        process_nodes_spec(nodes, effect_tags, embed_tags).pulse ==> has_element(nodes, PULSE_TAG@),
        process_nodes_spec(nodes, effect_tags, embed_tags).active ==> has_element(nodes, ACTIVE_TAG@),
        embed_tags.len() == 0 ==> process_nodes_spec(nodes, effect_tags, embed_tags).pulse == has_element(
            nodes,
            PULSE_TAG@,
        ),
        embed_tags.len() == 0 ==> process_nodes_spec(nodes, effect_tags, embed_tags).active == has_element(
            nodes,
            ACTIVE_TAG@,
        ),
{
    lemma_walk_flags(nodes, nodes.len(), effect_tags, embed_tags);
    assert(nodes.take(nodes.len() as int) =~= nodes);
    lemma_close_to_flags(walk_prefix(nodes, nodes.len(), effect_tags, embed_tags), 0);
}

} // verus!
