//! Tile templates: a command's output is read as JSON where it is JSON (plain
//! text otherwise) and bound into a minijinja template whose values are
//! HTML-escaped. A JSON object exposes its fields at the top level; any other
//! value is available as `{{ value }}`. The bundled presets are checked
//! against their schemas and samples the same way.

use vstd::prelude::*;
use crate::strings::{chars_of, push_char};
use crate::tiles::TilePreset;

verus! {

/// A lowercase hexadecimal digit, as written in a JSON `\u` escape.
pub open spec fn hex_nibble(d: int) -> char {
    if d < 10 {
        ((d + 48) as u8) as char
    } else {
        ((d + 87) as u8) as char
    }
}

/// One character inside a JSON string literal.
pub open spec fn json_char(c: char) -> Seq<char> {
    if c == '"' {
        seq!['\\', '"']
    } else if c == '\\' {
        seq!['\\', '\\']
    } else if (c as u32) < 0x20 {
        seq!['\\', 'u', '0', '0', hex_nibble((c as u32 / 16) as int), hex_nibble((c as u32 % 16) as int)]
    } else {
        seq![c]
    }
}

/// The characters of `s`, each written as inside a JSON string literal.
pub open spec fn json_chars(s: Seq<char>) -> Seq<char>
    decreases s.len(),
{
    if s.len() == 0 {
        Seq::empty()
    } else {
        json_chars(s.drop_last()) + json_char(s.last())
    }
}

/// `s` as a JSON string literal.
pub open spec fn json_quote(s: Seq<char>) -> Seq<char> {
    seq!['"'] + json_chars(s) + seq!['"']
}

fn nibble(d: u32) -> (c: char)
    requires
        d < 16,
    ensures
        c == hex_nibble(d as int),
{
    if d < 10 {
        ((d + 48) as u8) as char
    } else {
        ((d + 87) as u8) as char
    }
}

/// Append `s` as a JSON string literal to `out`.
fn push_json_quoted(out: &mut String, s: &str)
    ensures
        final(out)@ == old(out)@ + json_quote(s@),
{
    let cs = chars_of(s);
    let ghost start = out@;
    push_char(out, '"');
    let mut i: usize = 0;
    while i < cs.len()
        invariant
            i <= cs.len(),
            out@ == start + seq!['"'] + json_chars(cs@.take(i as int)),
        decreases cs.len() - i,
    {
        let c = cs[i];
        let ghost before = out@;
        if c == '"' {
            push_char(out, '\\');
            push_char(out, '"');
        } else if c == '\\' {
            push_char(out, '\\');
            push_char(out, '\\');
        } else if (c as u32) < 0x20 {
            push_char(out, '\\');
            push_char(out, 'u');
            push_char(out, '0');
            push_char(out, '0');
            push_char(out, nibble(c as u32 / 16));
            push_char(out, nibble(c as u32 % 16));
        } else {
            push_char(out, c);
        }
        assert(out@ =~= before + json_char(c));
        assert(cs@.take(i + 1).drop_last() =~= cs@.take(i as int));
        i += 1;
    }
    assert(cs@.take(cs.len() as int) =~= cs@);
    push_char(out, '"');
    assert(out@ =~= start + json_quote(s@));
}

/// How `serde_json::from_str` reads `text` as a JSON value: whether it is an
/// object, or the parse error's message.
pub uninterp spec fn json_shape_of(text: Seq<char>) -> Result<bool, Seq<char>>;

/// Parses `text` with `serde_json::from_str` into a `serde_json::Value` and
/// reports whether it is an object, or the error's message. The contract
/// names the outcome [`json_shape_of`] and says nothing of how JSON is read.
#[verifier::external_body]
fn json_shape(text: &str) -> (r: Result<bool, String>)
    ensures
        match r {
            Ok(b) => json_shape_of(text@) == Ok::<bool, Seq<char>>(b),
            Err(e) => json_shape_of(text@) == Err::<bool, Seq<char>>(e@),
        },
{
    match serde_json::from_str::<serde_json::Value>(text) {
        Ok(v) => Ok(v.is_object()),
        Err(e) => Err(e.to_string()),
    }
}

/// What minijinja renders for `template` with HTML autoescaping against the
/// JSON `context`, or the error's message.
pub uninterp spec fn rendered(template: Seq<char>, context: Seq<char>) -> Result<Seq<char>, Seq<char>>;

/// Reads the JSON text `context` into a `minijinja::Value` (through
/// `serde_json::from_str`) and renders `template` against it with
/// `Environment::render_str`, every value HTML-escaped
/// (`AutoEscape::Html`); errors become their messages. The contract names
/// the outcome [`rendered`] and says nothing of the template language.
#[verifier::external_body]
fn render_html(template: &str, context: &str) -> (r: Result<String, String>)
    ensures
        match r {
            Ok(s) => rendered(template@, context@) == Ok::<Seq<char>, Seq<char>>(s@),
            Err(e) => rendered(template@, context@) == Err::<Seq<char>, Seq<char>>(e@),
        },
{
    let ctx: minijinja::Value = serde_json::from_str(context).map_err(|e| e.to_string())?;
    let mut env = minijinja::Environment::new();
    env.set_auto_escape_callback(|_| minijinja::AutoEscape::Html);
    env.render_str(template, ctx).map_err(|e| e.to_string())
}

/// The JSON context a template sees for a command's output `data`: the
/// output itself when it is a JSON object; `{"value": <the output>}` when it
/// is another JSON value; `{"value": "<the output as a string>"}` when it is
/// not JSON at all.
pub open spec fn render_context(data: Seq<char>, shape: Result<bool, Seq<char>>) -> Seq<char> {
    match shape {
        Ok(true) => data,
        Ok(false) => "{\"value\":"@ + data + "}"@,
        Err(_) => "{\"value\":"@ + json_quote(data) + "}"@,
    }
}

/// The rendering context for `data`, given how it reads as JSON (see
/// [`render_context`]).
pub fn context_for(data: &str, shape: &Result<bool, String>) -> (r: String)
    ensures
        r@ == render_context(
            data@,
            match shape {
                Ok(b) => Ok(*b),
                Err(e) => Err(e@),
            },
        ),
{
    match shape {
        Ok(true) => data.to_string(),
        Ok(false) => {
            let mut s = String::new();
            s.append("{\"value\":");
            s.append(data);
            s.append("}");
            s
        },
        Err(_) => {
            let mut s = String::new();
            s.append("{\"value\":");
            push_json_quoted(&mut s, data);
            s.append("}");
            s
        },
    }
}

/// Render a tile `template` (Jinja-ish: `{{ expr }}`, `{% if %}`, filters)
/// against a command's output `data`, read as JSON where it is JSON and as a
/// plain string otherwise, producing Pango markup. Bound values are
/// HTML-escaped, so they are safe in markup text and attributes alike, while
/// the template's own markup is left intact. A JSON object exposes its fields
/// at the top level (`{{ host }}`, `{{ cpu.pct }}`); any other value is
/// available as `{{ value }}`.
pub fn render_template(template: &str, data: &str) -> (r: Result<String, String>)
    ensures
        match r {
            Ok(s) => rendered(template@, render_context(data@, json_shape_of(data@))) == Ok::<
                Seq<char>,
                Seq<char>,
            >(s@),
            Err(e) => rendered(template@, render_context(data@, json_shape_of(data@))) == Err::<
                Seq<char>,
                Seq<char>,
            >(e@),
        },
{
    let shape = json_shape(data);
    let ctx = context_for(data, &shape);
    render_html(template, ctx.as_str())
}

/// The variables a template reads without setting them (nested attribute
/// lookups included, as `cpu.pct`), or the template's parse error message.
pub uninterp spec fn template_vars_of(template: Seq<char>) -> Result<Set<Seq<char>>, Seq<char>>;

pub open spec fn strings_view(v: Seq<String>) -> Seq<Seq<char>> {
    v.map_values(|s: String| s@)
}

/// Adds `template` to a `minijinja::Environment` and lists
/// `Template::undeclared_variables(true)`; a parse error becomes its message.
/// The set is named [`template_vars_of`]; the contract also claims the list
/// holds each variable once (it comes from a `HashSet`) and leaves its order
/// open, as the hash set does.
#[verifier::external_body]
fn template_var_names(template: &str) -> (r: Result<Vec<String>, String>)
    ensures
        match r {
            Ok(v) => template_vars_of(template@) == Ok::<Set<Seq<char>>, Seq<char>>(
                strings_view(v@).to_set(),
            ) && strings_view(v@).no_duplicates(),
            Err(e) => template_vars_of(template@) == Err::<Set<Seq<char>>, Seq<char>>(e@),
        },
{
    let mut env = minijinja::Environment::new();
    env.add_template("t", template).map_err(|e| e.to_string())?;
    let t = env.get_template("t").map_err(|e| e.to_string())?;
    Ok(t.undeclared_variables(true).into_iter().collect())
}

/// The keys of the object held by member `member` of the JSON `text`, in
/// `serde_json`'s map order; empty when `text` is not JSON or that member is
/// missing or not an object.
pub uninterp spec fn member_keys_of(text: Seq<char>, member: Seq<char>) -> Seq<Seq<char>>;

/// Parses `text` with `serde_json::from_str` and lists the keys of the object
/// at `member` (none when parsing fails or there is no such object). The
/// contract names the list [`member_keys_of`].
#[verifier::external_body]
fn json_member_keys(text: &str, member: &str) -> (r: Vec<String>)
    ensures
        strings_view(r@) == member_keys_of(text@, member@),
{
    serde_json::from_str::<serde_json::Value>(text)
        .ok()
        .and_then(|v| v.get(member).and_then(|p| p.as_object()).map(|o| o.keys().cloned().collect()))
        .unwrap_or_default()
}

/// What a sample payload does under a template.
#[derive(Debug, Clone, PartialEq, Eq)]
pub enum SampleCheck {
    /// The payload is not JSON (the parse error).
    NotJson(String),
    /// The template fails to render against it (the error).
    RenderError(String),
    /// It renders.
    Renders,
}

pub enum SampleCheckView {
    NotJson(Seq<char>),
    RenderError(Seq<char>),
    Renders,
}

impl View for SampleCheck {
    type V = SampleCheckView;

    open spec fn view(&self) -> SampleCheckView {
        match self {
            SampleCheck::NotJson(e) => SampleCheckView::NotJson(e@),
            SampleCheck::RenderError(e) => SampleCheckView::RenderError(e@),
            SampleCheck::Renders => SampleCheckView::Renders,
        }
    }
}

/// What the sample `sample` does under `template`.
pub open spec fn sample_check_spec(template: Seq<char>, sample: Seq<char>) -> SampleCheckView {
    match json_shape_of(sample) {
        Err(e) => SampleCheckView::NotJson(e),
        Ok(_) => match rendered(template, render_context(sample, json_shape_of(sample))) {
            Ok(_) => SampleCheckView::Renders,
            Err(e) => SampleCheckView::RenderError(e),
        },
    }
}

/// Check one sample payload against a template.
pub fn check_sample(template: &str, sample: &str) -> (r: SampleCheck)
    ensures
        r@ == sample_check_spec(template@, sample@),
{
    match json_shape(sample) {
        Err(e) => SampleCheck::NotJson(e),
        Ok(_) => match render_template(template, sample) {
            Ok(_) => SampleCheck::Renders,
            Err(e) => SampleCheck::RenderError(e),
        },
    }
}

/// How a bundled preset's template, schema and samples agree.
pub struct PresetReport {
    /// The variables the template reads, or its parse error.
    pub vars: Result<Vec<String>, String>,
    /// Template variables the schema does not declare.
    pub undeclared: Vec<String>,
    /// Schema properties the template does not read.
    pub unused: Vec<String>,
    /// What each sample does, in the preset's order.
    pub samples: Vec<SampleCheck>,
}

fn contains_string(v: &Vec<String>, s: &str) -> (r: bool)
    ensures
        r == strings_view(v@).contains(s@),
{
    let mut i: usize = 0;
    while i < v.len()
        invariant
            i <= v.len(),
            forall|j: int| 0 <= j < i ==> strings_view(v@)[j] != s@,
        decreases v.len() - i,
    {
        if crate::strings::str_eq(v[i].as_str(), s) {
            assert(strings_view(v@)[i as int] == s@);
            return true;
        }
        i += 1;
    }
    false
}

/// `v` without the strings that `drop` holds, in order.
fn without(v: &Vec<String>, drop: &Vec<String>) -> (r: Vec<String>)
    ensures
        strings_view(r@) == strings_view(v@).filter(|x: Seq<char>| !strings_view(drop@).contains(x)),
{
    let ghost keep = |x: Seq<char>| !strings_view(drop@).contains(x);
    let mut r: Vec<String> = Vec::new();
    proof {
        reveal(Seq::filter);
        assert(strings_view(v@).take(0) =~= Seq::<Seq<char>>::empty());
    }
    let mut i: usize = 0;
    while i < v.len()
        invariant
            i <= v.len(),
            keep == (|x: Seq<char>| !strings_view(drop@).contains(x)),
            strings_view(r@) == strings_view(v@).take(i as int).filter(keep),
        decreases v.len() - i,
    {
        let ghost before = r@;
        proof {
            reveal(Seq::filter);
        }
        assert(strings_view(v@).take(i + 1).drop_last() =~= strings_view(v@).take(i as int));
        assert(strings_view(v@).take(i + 1).last() == v@[i as int]@);
        if !contains_string(drop, v[i].as_str()) {
            r.push(v[i].clone());
            assert(strings_view(r@) =~= strings_view(before).push(v@[i as int]@));
        } else {
            assert(strings_view(r@) =~= strings_view(before));
        }
        i += 1;
    }
    assert(strings_view(v@).take(v.len() as int) =~= strings_view(v@));
    r
}

/// Check a bundled preset whose config resolves to `template`: the template's
/// variables against the schema's `properties`, and each sample against the
/// template.
pub fn check_preset(p: &TilePreset, template: &str) -> (r: PresetReport)
    ensures
        match r.vars {
            Ok(v) => template_vars_of(template@) == Ok::<Set<Seq<char>>, Seq<char>>(strings_view(v@).to_set())
                && strings_view(r.undeclared@) == strings_view(v@).filter(
                |x: Seq<char>| !member_keys_of(p.schema@, "properties"@).contains(x),
            ) && strings_view(r.unused@) == member_keys_of(p.schema@, "properties"@).filter(
                |x: Seq<char>| !strings_view(v@).contains(x),
            ),
            Err(e) => template_vars_of(template@) == Err::<Set<Seq<char>>, Seq<char>>(e@)
                && r.undeclared@.len() == 0 && r.unused@.len() == 0,
        },
        r.samples@.len() == p.samples@.len(),
        forall|i: int|
            0 <= i < p.samples@.len() ==> (#[trigger] r.samples@[i])@ == sample_check_spec(
                template@,
                p.samples@[i].1@,
            ),
{
    let props = json_member_keys(p.schema, "properties");
    let vars = template_var_names(template);
    let (undeclared, unused) = match &vars {
        Ok(v) => (without(v, &props), without(&props, v)),
        Err(_) => (Vec::new(), Vec::new()),
    };
    let mut samples: Vec<SampleCheck> = Vec::new();
    let mut i: usize = 0;
    while i < p.samples.len()
        invariant
            i <= p.samples@.len(),
            samples@.len() == i,
            forall|j: int| 0 <= j < i ==> (#[trigger] samples@[j])@ == sample_check_spec(template@, p.samples@[j].1@),
        decreases p.samples.len() - i,
    {
        let c = check_sample(template, p.samples[i].1);
        samples.push(c);
        i += 1;
    }
    PresetReport { vars, undeclared, unused, samples }
}

} // verus!
