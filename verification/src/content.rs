//! Tile content: what a tile displays, and the state shared with the renderer.

use vstd::prelude::*;
use crate::strings::{chars_of, contains_chars, contains_seq, is_white_space, white_space};
use crate::markup::{escape_spec, icon_span_spec, escape, icon_span_markup};
use vstd::utf8::{valid_utf8, decode_utf8};

verus! {

/// Whether `m` carries a `state` attribute with value `s`, in either quote style.
pub open spec fn has_state(m: Seq<char>, single: Seq<char>, double: Seq<char>) -> bool {
    contains_seq(m, single) || contains_seq(m, double)
}

/// Whether rendered tile markup `m` contains a continuously-animated element: a
/// blinking status (`working`/`prompt`/`shell`), a recently-idle status (any
/// idle level but the dimmest, `6`), a `<pulse>`, a `<tickerbox>`, or a `<bg>`.
pub open spec fn animates_spec(m: Seq<char>) -> bool {
    let idle_recent = has_state(m, "state='idle'"@, "state=\"idle\""@)
        && !contains_seq(m, "level='6'"@) && !contains_seq(m, "level=\"6\""@);
    ||| idle_recent
    ||| has_state(m, "state='working'"@, "state=\"working\""@)
    ||| has_state(m, "state='prompt'"@, "state=\"prompt\""@)
    ||| has_state(m, "state='shell'"@, "state=\"shell\""@)
    ||| contains_seq(m, "<pulse"@)
    ||| contains_seq(m, "<tickerbox"@)
    ||| contains_seq(m, "<bg"@)
}

/// Whether rendered tile `markup` contains a continuously-animated element.
/// Idle/`empty`/`shell`-less static content is not animated; a blinking status
/// (`working`/`prompt`/`shell`), a `<pulse>`, or a `<tickerbox>` is. Quote
/// styles are both recognised (`state='working'` and `state="working"`).
pub fn content_animates(markup: &str) -> (r: bool)
    ensures
        r == animates_spec(markup@),
{
    let m = chars_of(markup);
    let idle = contains_chars(&m, "state='idle'") || contains_chars(&m, "state=\"idle\"");
    let idle_recent = idle && !contains_chars(&m, "level='6'") && !contains_chars(&m, "level=\"6\"");
    idle_recent
        || contains_chars(&m, "state='working'") || contains_chars(&m, "state=\"working\"")
        || contains_chars(&m, "state='prompt'") || contains_chars(&m, "state=\"prompt\"")
        || contains_chars(&m, "state='shell'") || contains_chars(&m, "state=\"shell\"")
        || contains_chars(&m, "<pulse")
        || contains_chars(&m, "<tickerbox")
        || contains_chars(&m, "<bg")
}


/// Which markers make content animate, in either quote style: a working,
/// prompt or shell status, written `state='…'` or `state="…"`, always
/// animates; so do `<pulse`, `<tickerbox` and `<bg`; an idle status animates
/// unless it is at the dimmest level (`level='6'` / `level="6"`). Content
/// with none of these markers does not animate.
pub proof fn animation_markers(m: Seq<char>)
    ensures
        contains_seq(m, "state='working'"@) || contains_seq(m, "state=\"working\""@) ==> animates_spec(m),
        contains_seq(m, "state='prompt'"@) || contains_seq(m, "state=\"prompt\""@) ==> animates_spec(m),
        contains_seq(m, "state='shell'"@) || contains_seq(m, "state=\"shell\""@) ==> animates_spec(m),
        contains_seq(m, "<pulse"@) || contains_seq(m, "<tickerbox"@) || contains_seq(m, "<bg"@) ==> animates_spec(m),
        (contains_seq(m, "state='idle'"@) || contains_seq(m, "state=\"idle\""@)) && !contains_seq(m, "level='6'"@)
            && !contains_seq(m, "level=\"6\""@) ==> animates_spec(m),
        animates_spec(m) ==> contains_seq(m, "state='working'"@) || contains_seq(m, "state=\"working\""@)
            || contains_seq(m, "state='prompt'"@) || contains_seq(m, "state=\"prompt\""@) || contains_seq(
            m,
            "state='shell'"@,
        ) || contains_seq(m, "state=\"shell\""@) || contains_seq(m, "state='idle'"@) || contains_seq(
            m,
            "state=\"idle\""@,
        ) || contains_seq(m, "<pulse"@) || contains_seq(m, "<tickerbox"@) || contains_seq(m, "<bg"@),
{
}

/// The animation decision does not depend on the quote style of a state
/// attribute: replacing one quoted form by the other, where the rest of the
/// content stays, gives the same answer for the blinking states.
pub proof fn animation_is_quote_agnostic(pre: Seq<char>, post: Seq<char>)
    ensures
        animates_spec(pre + "state='working'"@ + post) && animates_spec(pre + "state=\"working\""@ + post),
        animates_spec(pre + "state='prompt'"@ + post) && animates_spec(pre + "state=\"prompt\""@ + post),
        animates_spec(pre + "state='shell'"@ + post) && animates_spec(pre + "state=\"shell\""@ + post),
{
    let ws = seq![
        "state='working'"@, "state=\"working\""@, "state='prompt'"@, "state=\"prompt\""@,
        "state='shell'"@, "state=\"shell\""@
    ];
    assert forall|i: int| 0 <= i < 6 implies contains_seq(pre + #[trigger] ws[i] + post, ws[i]) by {
        let m = pre + ws[i] + post;
        assert(m.subrange(pre.len() as int, (pre.len() + ws[i].len()) as int) =~= ws[i]);
    }
    assert(contains_seq(pre + ws[0] + post, ws[0]));
    assert(contains_seq(pre + ws[1] + post, ws[1]));
    assert(contains_seq(pre + ws[2] + post, ws[2]));
    assert(contains_seq(pre + ws[3] + post, ws[3]));
    assert(contains_seq(pre + ws[4] + post, ws[4]));
    assert(contains_seq(pre + ws[5] + post, ws[5]));
    animation_markers(pre + ws[0] + post);
    animation_markers(pre + ws[1] + post);
    animation_markers(pre + ws[2] + post);
    animation_markers(pre + ws[3] + post);
    animation_markers(pre + ws[4] + post);
    animation_markers(pre + ws[5] + post);
}

/// What a tile currently displays: a Pango-markup string and the float
/// uniforms (resolved from the data) for the background shader, each value as
/// its IEEE-754 `f32` bit pattern.
#[derive(Debug, Clone, Default)]
pub struct TileContent {
    pub markup: String,
    pub uniforms: Vec<(String, u32)>,
}

/// Uniform list as character sequences.
pub open spec fn uniforms_view(u: Seq<(String, u32)>) -> Seq<(Seq<char>, u32)> {
    u.map_values(|p: (String, u32)| (p.0@, p.1))
}

/// The observable state of a [`ContentStore`].
pub struct StoreView {
    pub markup: Seq<char>,
    pub uniforms: Seq<(Seq<char>, u32)>,
    /// Content changed since the renderer last looked.
    pub dirty: bool,
    /// The current content animates (see [`content_animates`]).
    pub animating: bool,
    /// Teardown was requested; producers stop.
    pub shutdown: bool,
    /// Pid of the running stream producer, 0 if none.
    pub child_pid: u32,
}

/// The current tile content plus the flags the renderer and the producers
/// share. One store exists per tile; the host shares it between the GTK
/// thread and the producer thread behind a lock.
pub struct ContentStore {
    content: TileContent,
    dirty: bool,
    animating: bool,
    shutdown: bool,
    child_pid: u32,
}

impl View for ContentStore {
    type V = StoreView;

    closed spec fn view(&self) -> StoreView {
        StoreView {
            markup: self.content.markup@,
            uniforms: uniforms_view(self.content.uniforms@),
            dirty: self.dirty,
            animating: self.animating,
            shutdown: self.shutdown,
            child_pid: self.child_pid,
        }
    }
}

/// The store right after [`ContentStore::new`]: dirty, so the first frame draws.
pub open spec fn store_new_spec(c: TileContent) -> StoreView {
    StoreView {
        markup: c.markup@,
        uniforms: uniforms_view(c.uniforms@),
        dirty: true,
        animating: animates_spec(c.markup@),
        shutdown: false,
        child_pid: 0,
    }
}

/// The store after [`ContentStore::set`]: new content, dirty.
pub open spec fn store_set_spec(v: StoreView, c: TileContent) -> StoreView {
    StoreView {
        markup: c.markup@,
        uniforms: uniforms_view(c.uniforms@),
        dirty: true,
        animating: animates_spec(c.markup@),
        ..v
    }
}

/// What [`ContentStore::take_dirty`] returns and the store it leaves.
pub open spec fn store_take_dirty_spec(v: StoreView) -> (bool, StoreView) {
    (v.dirty, StoreView { dirty: false, ..v })
}

/// The store after [`ContentStore::shutdown`].
pub open spec fn store_shutdown_spec(v: StoreView) -> StoreView {
    StoreView { shutdown: true, ..v }
}

fn copy_uniforms(u: &Vec<(String, u32)>) -> (r: Vec<(String, u32)>)
    ensures
        uniforms_view(r@) == uniforms_view(u@),
{
    let mut r: Vec<(String, u32)> = Vec::new();
    let mut i: usize = 0;
    while i < u.len()
        invariant
            i <= u.len(),
            r@.len() == i,
            uniforms_view(r@) == uniforms_view(u@.take(i as int)),
        decreases u.len() - i,
    {
        let ghost old_r = r@;
        let k = u[i].0.clone();
        r.push((k, u[i].1));
        assert forall|j: int| 0 <= j < i + 1 implies #[trigger] uniforms_view(r@)[j] == uniforms_view(u@.take(i + 1))[j] by {
            assert(u@.take(i + 1)[j] == u@[j]);
            if j < i {
                assert(u@.take(i as int)[j] == u@[j]);
                assert(uniforms_view(old_r)[j] == uniforms_view(u@.take(i as int))[j]);
                assert(r@[j] == old_r[j]);
            } else {
                assert(r@[j] == (k, u@[i as int].1));
            }
        }
        assert(uniforms_view(r@) =~= uniforms_view(u@.take(i + 1)));
        i += 1;
    }
    assert(u@.take(u.len() as int) =~= u@);
    r
}

impl ContentStore {
    #[verifier::type_invariant]
    spec fn animating_tracks_markup(&self) -> bool {
        self.animating == animates_spec(self.content.markup@)
    }

    /// A store holding `initial`, marked dirty so the first frame draws it.
    pub fn new(initial: TileContent) -> (s: Self)
        ensures
            s@ == store_new_spec(initial),
    {
        let animating = content_animates(initial.markup.as_str());
        ContentStore { content: initial, dirty: true, animating, shutdown: false, child_pid: 0 }
    }

    /// Replace the content and mark it dirty (a redraw is due).
    pub fn set(&mut self, content: TileContent)
        ensures
            final(self)@ == store_set_spec(old(self)@, content),
    {
        let animating = content_animates(content.markup.as_str());
        let shutdown = self.shutdown;
        let child_pid = self.child_pid;
        *self = ContentStore { content, dirty: true, animating, shutdown, child_pid };
    }

    /// Whether the current content animates (see [`content_animates`]).
    pub fn animating(&self) -> (r: bool)
        ensures
            r == self@.animating,
            r == animates_spec(self@.markup),
    {
        proof {
            use_type_invariant(self);
        }
        self.animating
    }

    /// The current markup string.
    pub fn markup(&self) -> (r: String)
        ensures
            r@ == self@.markup,
    {
        self.content.markup.clone()
    }

    /// The current shader uniform values (resolved from the data).
    pub fn uniforms(&self) -> (r: Vec<(String, u32)>)
        ensures
            uniforms_view(r@) == self@.uniforms,
    {
        copy_uniforms(&self.content.uniforms)
    }

    /// Clear and return the dirty flag — true if content changed since last call.
    pub fn take_dirty(&mut self) -> (r: bool)
        ensures
            (r, final(self)@) == store_take_dirty_spec(old(self)@),
    {
        proof {
            use_type_invariant(&*self);
        }
        let r = self.dirty;
        self.dirty = false;
        r
    }

    /// True once [`shutdown`](Self::shutdown) has been called.
    pub fn is_shutdown(&self) -> (r: bool)
        ensures
            r == self@.shutdown,
    {
        self.shutdown
    }

    /// Tear down: flag the producers to stop and hand back the pid of the
    /// running stream producer, if any, for the caller to terminate.
    pub fn shutdown(&mut self) -> (pid: Option<u32>)
        ensures
            final(self)@ == store_shutdown_spec(old(self)@),
            pid == (if old(self)@.child_pid != 0 { Some(old(self)@.child_pid) } else { None::<u32> }),
    {
        proof {
            use_type_invariant(&*self);
        }
        self.shutdown = true;
        if self.child_pid != 0 {
            Some(self.child_pid)
        } else {
            None
        }
    }

    /// Record the pid of the stream producer currently being read.
    pub fn set_child_pid(&mut self, pid: u32)
        ensures
            final(self)@ == (StoreView { child_pid: pid, ..old(self)@ }),
    {
        proof {
            use_type_invariant(&*self);
        }
        self.child_pid = pid;
    }

    /// Clear the recorded producer pid once it is no longer live.
    pub fn clear_child_pid(&mut self)
        ensures
            final(self)@ == (StoreView { child_pid: 0, ..old(self)@ }),
    {
        proof {
            use_type_invariant(&*self);
        }
        self.child_pid = 0;
    }

    /// The recorded stream producer pid (0 = none).
    pub fn child_pid(&self) -> (r: u32)
        ensures
            r == self@.child_pid,
    {
        self.child_pid
    }
}

/// A new store is dirty, so the first frame draws its content.
pub proof fn new_store_starts_dirty(c: TileContent)
    ensures
        store_take_dirty_spec(store_new_spec(c)).0,
        store_new_spec(c).markup == c.markup@,
        !store_new_spec(c).shutdown,
{
}

/// Reading the dirty flag clears it: a second read right after the first
/// reports no change.
pub proof fn take_dirty_clears(v: StoreView)
    ensures
        !store_take_dirty_spec(store_take_dirty_spec(v).1).0,
        store_take_dirty_spec(v).1.markup == v.markup,
        store_take_dirty_spec(v).1.uniforms == v.uniforms,
{
}

/// A write marks the store dirty, and a read after it gives back what was
/// written; whether the tile animates follows the new markup.
pub proof fn set_then_read(v: StoreView, c: TileContent)
    ensures
        store_take_dirty_spec(store_set_spec(v, c)).0,
        store_set_spec(v, c).markup == c.markup@,
        store_set_spec(v, c).uniforms == uniforms_view(c.uniforms@),
        store_set_spec(v, c).animating == animates_spec(c.markup@),
{
}

/// Teardown is final: neither new content nor a redraw check undoes it.
pub proof fn shutdown_is_sticky(v: StoreView, c: TileContent)
    ensures
        store_shutdown_spec(v).shutdown,
        store_set_spec(store_shutdown_spec(v), c).shutdown,
        store_take_dirty_spec(store_shutdown_spec(v)).1.shutdown,
{
}

/// The markup shown for a template that failed to render: its error message,
/// escaped, in red.
pub open spec fn template_error_markup(msg: Seq<char>) -> Seq<char> {
    "<span foreground=\"#f38ba8\">template error: "@ + escape_spec(msg) + "</span>"@
}

/// A tile's markup from its rendered template (`Ok`) or the template's error
/// message (`Err`), with the icon glyph, if set and non-empty, prepended as a
/// sized span (`icon_pct`, `icon_rise`; see [`icon_span_markup`]) and two spaces.
pub open spec fn compose_spec(body: Result<String, String>, icon: Option<String>, icon_pct: int, icon_rise: int) -> Seq<char> {
    let b = match body {
        Ok(s) => s@,
        Err(e) => template_error_markup(e@),
    };
    match icon {
        Some(i) => if i@.len() > 0 {
            icon_span_spec(i@, icon_pct, icon_rise) + seq![' ', ' '] + b
        } else {
            b
        },
        None => b,
    }
}

/// Build a tile's markup: the rendered template, or — when rendering failed —
/// the error surfaced inline so it is visible on the bar; then the `icon`
/// glyph prepended if set and non-empty.
pub fn compose_tile_markup(body: Result<String, String>, icon: &Option<String>, icon_pct: i32, icon_rise: i32) -> (r: String)
    ensures
        r@ == compose_spec(body, *icon, icon_pct as int, icon_rise as int),
{
    let b = match body {
        Ok(s) => s,
        Err(e) => {
            let mut m = String::new();
            m.append("<span foreground=\"#f38ba8\">template error: ");
            m.append(escape(e.as_str()).as_str());
            m.append("</span>");
            assert(m@ =~= template_error_markup(e@));
            m
        },
    };
    match icon {
        Some(i) => {
            if i.as_str().is_empty() {
                b
            } else {
                let mut m = icon_span_markup(i.as_str(), icon_pct, icon_rise);
                m.append("  ");
                m.append(b.as_str());
                proof {
                    reveal_strlit("  ");
                }
                assert(m@ =~= icon_span_spec(i@, icon_pct as int, icon_rise as int) + seq![' ', ' '] + b@);
                m
            }
        },
        None => b,
    }
}

/// Where a tile's content comes from.
#[derive(Debug, Clone, PartialEq, Eq)]
pub enum ContentSource {
    /// A long-lived command whose every stdout line becomes new content.
    Stream(String),
    /// A command re-run every `interval` seconds (0: run once).
    Poll(String, u64),
    /// Fixed text.
    Static(String),
    /// Nothing configured: the demo tile is shown.
    Absent,
}

/// The content source a config selects: a command (`exec`) wins over static
/// `text`; a command streams when `stream` is set and is polled otherwise.
pub open spec fn content_source_spec(exec: Option<String>, stream: bool, interval: u64, text: Option<String>) -> ContentSource {
    match exec {
        Some(cmd) => if stream { ContentSource::Stream(cmd) } else { ContentSource::Poll(cmd, interval) },
        None => match text {
            Some(t) => ContentSource::Static(t),
            None => ContentSource::Absent,
        },
    }
}

/// Pick the content source for a config (see [`content_source_spec`]).
pub fn content_source(exec: &Option<String>, stream: bool, interval: u64, text: &Option<String>) -> (r: ContentSource)
    ensures
        r == content_source_spec(*exec, stream, interval, *text),
{
    match exec {
        Some(cmd) => if stream { ContentSource::Stream(cmd.clone()) } else { ContentSource::Poll(cmd.clone(), interval) },
        None => match text {
            Some(t) => ContentSource::Static(t.clone()),
            None => ContentSource::Absent,
        },
    }
}

/// Cap on a single stream line in bytes: a producer that never emits `\n`
/// must not grow host memory unboundedly.
pub const LINE_CAP: usize = 65536;

/// What one read from a streaming producer amounts to.
#[derive(Debug, Clone, PartialEq, Eq)]
pub enum StreamLine {
    /// Nothing was read: the producer closed its output.
    Eof,
    /// The read hit the cap without a line end: a framing violation.
    Overlong,
    /// The bytes are not UTF-8.
    Undecodable,
    /// Only white space: keep the current content.
    Blank,
    /// A line of content, its line ending removed.
    Content(String),
}

/// `s` without its trailing `\n` and `\r` characters.
pub open spec fn trim_line_end(s: Seq<char>) -> Seq<char>
    decreases s.len(),
{
    if s.len() > 0 && (s.last() == '\n' || s.last() == '\r') {
        trim_line_end(s.drop_last())
    } else {
        s
    }
}

/// [`StreamLine`] with its content as characters.
pub enum StreamLineView {
    Eof,
    Overlong,
    Undecodable,
    Blank,
    Content(Seq<char>),
}

impl View for StreamLine {
    type V = StreamLineView;

    open spec fn view(&self) -> StreamLineView {
        match self {
            StreamLine::Eof => StreamLineView::Eof,
            StreamLine::Overlong => StreamLineView::Overlong,
            StreamLine::Undecodable => StreamLineView::Undecodable,
            StreamLine::Blank => StreamLineView::Blank,
            StreamLine::Content(s) => StreamLineView::Content(s@),
        }
    }
}

/// Whether every character of `s` is white space.
pub open spec fn all_white_space(s: Seq<char>) -> bool {
    forall|i: int| 0 <= i < s.len() ==> is_white_space(#[trigger] s[i])
}

/// What the bytes `b` of one capped, newline-delimited read amount to: none at
/// all is the end of the stream; a cap-length read without a final `\n` is an
/// overlong line; bytes that are not UTF-8 are undecodable; a line of only
/// white space is blank; anything else is content, minus its line ending.
pub open spec fn stream_line_spec(b: Seq<u8>) -> StreamLineView {
    if b.len() == 0 {
        StreamLineView::Eof
    } else if b.last() != 10u8 && b.len() >= LINE_CAP {
        StreamLineView::Overlong
    } else if !valid_utf8(b) {
        StreamLineView::Undecodable
    } else {
        let t = trim_line_end(decode_utf8(b));
        if all_white_space(t) {
            StreamLineView::Blank
        } else {
            StreamLineView::Content(t)
        }
    }
}

/// Decodes `b` with `std::str::from_utf8`, which succeeds exactly when `b` is
/// well-formed UTF-8, and copies the text into a `String`.
#[verifier::external_body]
fn decode_utf8_bytes(b: &[u8]) -> (r: Option<String>)
    ensures
        match r {
            Some(s) => valid_utf8(b@) && s@ == decode_utf8(b@),
            None => !valid_utf8(b@),
        },
{
    std::str::from_utf8(b).ok().map(|s| s.to_string())
}

/// Classify the bytes of one read from a streaming producer (a read of at
/// most [`LINE_CAP`] bytes, up to and including a `\n`).
pub fn classify_stream_line(buf: &[u8]) -> (r: StreamLine)
    ensures
        r@ == stream_line_spec(buf@),
{
    if buf.len() == 0 {
        return StreamLine::Eof;
    }
    if buf[buf.len() - 1] != 10u8 && buf.len() >= LINE_CAP {
        return StreamLine::Overlong;
    }
    match decode_utf8_bytes(buf) {
        None => StreamLine::Undecodable,
        Some(text) => {
            let cs = chars_of(text.as_str());
            let mut end = cs.len();
            assert(cs@.take(end as int) =~= cs@);
            while end > 0 && (cs[end - 1] == '\n' || cs[end - 1] == '\r')
                invariant
                    end <= cs@.len(),
                    trim_line_end(cs@) == trim_line_end(cs@.take(end as int)),
                decreases end,
            {
                assert(cs@.take(end as int).drop_last() =~= cs@.take(end - 1));
                end -= 1;
            }
            let ghost t = cs@.take(end as int);
            assert(trim_line_end(t) == t);
            let mut i: usize = 0;
            let mut blank = true;
            while i < end
                invariant
                    i <= end <= cs@.len(),
                    t == cs@.take(end as int),
                    blank == (forall|j: int| 0 <= j < i ==> is_white_space(#[trigger] t[j])),
                decreases end - i,
            {
                assert(t[i as int] == cs@[i as int]);
                if !white_space(cs[i]) {
                    blank = false;
                }
                i += 1;
            }
            if blank {
                StreamLine::Blank
            } else {
                let line = text.as_str().substring_char(0, end).to_owned();
                assert(line@ =~= t);
                StreamLine::Content(line)
            }
        },
    }
}

/// A command wins over static text, and runs as a stream exactly when
/// `stream` is set (its interval only matters when polled); without a
/// command, static text is shown when given, else nothing.
pub proof fn content_source_roles(exec: Option<String>, stream: bool, interval: u64, text: Option<String>, text2: Option<String>)
    ensures
        exec is Some ==> content_source_spec(exec, stream, interval, text) == content_source_spec(exec, stream, interval, text2),
        exec is Some && stream ==> content_source_spec(exec, stream, interval, text) == ContentSource::Stream(exec->0),
        exec is Some && !stream ==> content_source_spec(exec, stream, interval, text) == ContentSource::Poll(exec->0, interval),
        exec is None ==> (content_source_spec(exec, stream, interval, text) is Absent) == (text is None),
        exec is None && text is Some ==> content_source_spec(exec, stream, interval, text) == ContentSource::Static(text->0),
{
}

/// The rendered body always ends the tile markup: it stands alone without a
/// (non-empty) icon, and follows the icon span and two spaces with one; a
/// failed template shows its escaped message in place of the body.
pub proof fn tile_markup_ends_with_body(body: Result<String, String>, icon: Option<String>, pct: int, rise: int)
    ensures
        ({
            let b = match body {
                Ok(s) => s@,
                Err(e) => "<span foreground=\"#f38ba8\">template error: "@ + escape_spec(e@) + "</span>"@,
            };
            let r = compose_spec(body, icon, pct, rise);
            &&& r.len() >= b.len()
            &&& r.subrange(r.len() - b.len(), r.len() as int) == b
            &&& (icon is None || icon->0@.len() == 0) ==> r == b
            &&& (icon is Some && icon->0@.len() > 0) ==> r == icon_span_spec(icon->0@, pct, rise) + seq![' ', ' '] + b
        }),
{
    let b = match body {
        Ok(s) => s@,
        Err(e) => "<span foreground=\"#f38ba8\">template error: "@ + escape_spec(e@) + "</span>"@,
    };
    let r = compose_spec(body, icon, pct, rise);
    if icon is Some && icon->0@.len() > 0 {
        let pre = icon_span_spec(icon->0@, pct, rise) + seq![' ', ' '];
        assert(r == pre + b);
        assert(r.subrange(r.len() - b.len(), r.len() as int) =~= b);
    } else {
        assert(r.subrange(r.len() - b.len(), r.len() as int) =~= b);
    }
}

/// How a stream read is framed: nothing read is the end of the stream; a
/// content line is never blank and never ends in a line break, and is the
/// decoded read with only line-break characters removed from its end.
pub proof fn stream_line_framing(b: Seq<u8>)
    ensures
        (stream_line_spec(b) is Eof) == (b.len() == 0),
        stream_line_spec(b) is Overlong ==> b.len() >= LINE_CAP && b.last() != 10u8,
        stream_line_spec(b) is Undecodable ==> !valid_utf8(b),
        valid_utf8(b) && b.len() > 0 && b.last() == 10u8 ==> !(stream_line_spec(b) is Undecodable) && !(stream_line_spec(b) is Overlong),
        match stream_line_spec(b) {
            StreamLineView::Content(t) => {
                let d = decode_utf8(b);
                &&& t.len() > 0
                &&& !all_white_space(t)
                &&& t.last() != '\n' && t.last() != '\r'
                &&& t.len() <= d.len() && d.subrange(0, t.len() as int) == t
                &&& forall|i: int| t.len() <= i < d.len() ==> d[i] == '\n' || d[i] == '\r'
            },
            _ => true,
        },
{
    if let StreamLineView::Content(t) = stream_line_spec(b) {
        lemma_trim_line_end(decode_utf8(b));
        if t.len() == 0 {
            assert(all_white_space(t));
        }
    }
}

proof fn lemma_trim_line_end(s: Seq<char>)
    ensures
        trim_line_end(s).len() <= s.len(),
        s.subrange(0, trim_line_end(s).len() as int) == trim_line_end(s),
        forall|i: int| trim_line_end(s).len() <= i < s.len() ==> s[i] == '\n' || s[i] == '\r',
        trim_line_end(s).len() > 0 ==> trim_line_end(s).last() != '\n' && trim_line_end(s).last() != '\r',
    decreases s.len(),
{
    if s.len() > 0 && (s.last() == '\n' || s.last() == '\r') {
        let s1 = s.drop_last();
        lemma_trim_line_end(s1);
        let t = trim_line_end(s1);
        assert(s.subrange(0, t.len() as int) =~= s1.subrange(0, t.len() as int));
        assert forall|i: int| t.len() <= i < s.len() implies s[i] == '\n' || s[i] == '\r' by {
            if i < s1.len() {
                assert(s[i] == s1[i]);
            }
        }
    } else {
        assert(s.subrange(0, s.len() as int) =~= s);
    }
}

} // verus!
