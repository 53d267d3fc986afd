//! Bundled tile presets — the "pretty half" of a tile config, shipped inside
//! the module. A waybar module references one by name (`"tile": "session"`) and
//! the preset is merged underneath the module's own config (the module wins;
//! see [`crate::config::merge`]). Each preset also carries its data contract
//! (JSON Schema) plus mocked sample payloads and docs.

use vstd::prelude::*;
use crate::strings::str_eq;

verus! {

/// A bundled tile: its visual config preset plus its documented data contract.
#[derive(Clone, Copy)]
pub struct TilePreset {
    /// Lookup name (the `"tile"` value).
    pub name: &'static str,
    /// Visual config (plain JSON), merged *under* the waybar module config.
    pub config: &'static str,
    /// Draft-07 JSON Schema of the data object the template binds to.
    pub schema: &'static str,
    /// Human-readable binding contract (Markdown).
    pub doc: &'static str,
    /// Named mocked data payloads (JSON).
    pub samples: &'static [(&'static str, &'static str)],
}

pub const SESSION_CONFIG: &'static str = "{
  \"width\": 300,
  \"height\": 96,
  \"fps\": 0,
  \"font_size\": 18.0,
  \"format\": \"<status state='{{ state }}' level='{{ level }}' ago='{{ ago }}'/> <b>{{ desktop }}</b>  <span foreground='#9399b2'>{{ folder }}</span>\\n<wrap>{{ title }}</wrap>\"
}
";

pub const SESSION_SCHEMA: &'static str = "{
  \"$schema\": \"http://json-schema.org/draft-07/schema#\",
  \"title\": \"session tile data\",
  \"type\": \"object\",
  \"properties\": {
    \"state\": { \"enum\": [\"working\", \"prompt\", \"idle\", \"shell\", \"empty\"] },
    \"level\": { \"type\": \"integer\", \"minimum\": 0, \"maximum\": 6 },
    \"ago\": { \"type\": \"string\" },
    \"desktop\": { \"type\": \"string\" },
    \"folder\": { \"type\": \"string\" },
    \"title\": { \"type\": \"string\" }
  },
  \"required\": [\"state\", \"desktop\"]
}
";

pub const SESSION_DOC: &'static str = "# session

A desktop tile for a coding-agent session: a status indicator, the desktop
number, the working folder, and the window title wrapped underneath.

- `state`: `working` (blinking), `prompt` (attention), `idle` (decaying), `shell`, `empty`
- `level`: idle decay step, 0 (fresh) to 6 (over an hour)
- `ago`: short idle age such as `12m`
";

pub const SESSION_SAMPLES: [(&'static str, &'static str); 5] = [
    ("working", "{\"state\": \"working\", \"level\": 0, \"ago\": \"\", \"desktop\": \"2\", \"folder\": \"pwetty-box\", \"title\": \"Refactoring the markup walker\"}"),
    ("prompt", "{\"state\": \"prompt\", \"level\": 0, \"ago\": \"\", \"desktop\": \"3\", \"folder\": \"notes\", \"title\": \"Allow this command?\"}"),
    ("idle", "{\"state\": \"idle\", \"level\": 2, \"ago\": \"12m\", \"desktop\": \"4\", \"folder\": \"api\", \"title\": \"Waiting for input\"}"),
    ("shell", "{\"state\": \"shell\", \"level\": 0, \"ago\": \"\", \"desktop\": \"5\", \"folder\": \"infra\", \"title\": \"cargo test\"}"),
    ("window", "{\"state\": \"idle\", \"level\": 6, \"ago\": \"3h\", \"desktop\": \"6\", \"folder\": \"home\", \"title\": \"A long window title that wraps onto a second line\"}"),
];

pub const EMPTY_CONFIG: &'static str = "{
  \"width\": 48,
  \"height\": 96,
  \"fps\": 0,
  \"font_size\": 18.0,
  \"align\": \"center\",
  \"format\": \"{% if active %}<active/>{% endif %}<status state='empty'/> {{ desktop }}\"
}
";

pub const EMPTY_SCHEMA: &'static str = "{
  \"$schema\": \"http://json-schema.org/draft-07/schema#\",
  \"title\": \"empty desktop tile data\",
  \"type\": \"object\",
  \"properties\": {
    \"desktop\": { \"type\": \"string\" },
    \"active\": { \"type\": \"boolean\" }
  },
  \"required\": [\"desktop\"]
}
";

pub const EMPTY_DOC: &'static str = "# empty

Compact tile for an empty (windowless) desktop: a dim ring and the desktop
number, with the accent card when the desktop is focused.

- `desktop`: desktop label
- `active`: whether this desktop is the focused one
";

pub const EMPTY_SAMPLES: [(&'static str, &'static str); 2] = [
    ("empty", "{\"desktop\": \"7\", \"active\": false}"),
    ("active", "{\"desktop\": \"7\", \"active\": true}"),
];

/// The `session` preset: a coding-agent session tile.
pub open spec fn session_spec() -> TilePreset {
    TilePreset { name: "session", config: SESSION_CONFIG, schema: SESSION_SCHEMA, doc: SESSION_DOC, samples: &SESSION_SAMPLES }
}

/// The `empty` preset: a compact tile for an empty (windowless) desktop.
pub open spec fn empty_spec() -> TilePreset {
    TilePreset { name: "empty", config: EMPTY_CONFIG, schema: EMPTY_SCHEMA, doc: EMPTY_DOC, samples: &EMPTY_SAMPLES }
}

/// The bundled preset named `name`.
pub open spec fn get_spec(name: Seq<char>) -> Option<TilePreset> {
    if name == "session"@ {
        Some(session_spec())
    } else if name == "empty"@ {
        Some(empty_spec())
    } else {
        None
    }
}

fn session() -> (p: TilePreset)
    ensures
        p == session_spec(),
{
    TilePreset { name: "session", config: SESSION_CONFIG, schema: SESSION_SCHEMA, doc: SESSION_DOC, samples: &SESSION_SAMPLES }
}

fn empty() -> (p: TilePreset)
    ensures
        p == empty_spec(),
{
    TilePreset { name: "empty", config: EMPTY_CONFIG, schema: EMPTY_SCHEMA, doc: EMPTY_DOC, samples: &EMPTY_SAMPLES }
}

/// Look up a bundled preset by name.
pub fn get(name: &str) -> (r: Option<TilePreset>)
    ensures
        r == get_spec(name@),
{
    if str_eq(name, "session") {
        Some(session())
    } else if str_eq(name, "empty") {
        Some(empty())
    } else {
        None
    }
}

/// The bundled presets, in lookup order.
pub open spec fn all_spec() -> Seq<TilePreset> {
    seq![session_spec(), empty_spec()]
}

/// All bundled presets (for `pwetty list`), in lookup order.
pub fn all() -> (r: Vec<TilePreset>)
    ensures
        r@ == all_spec(),
{
    let mut v = Vec::new();
    v.push(session());
    v.push(empty());
    assert(v@ =~= seq![session_spec(), empty_spec()]);
    v
}

/// Every listed preset is found by its own name.
pub proof fn every_preset_resolves_by_name()
    ensures
        forall|i: int| 0 <= i < all_spec().len() ==> get_spec((#[trigger] all_spec()[i]).name@) == Some(all_spec()[i]),
{
    reveal_strlit("session");
    reveal_strlit("empty");
    assert("empty"@ != "session"@) by {
        assert("empty"@[0] != "session"@[0]);
    }
    assert forall|i: int| 0 <= i < all_spec().len() implies get_spec((#[trigger] all_spec()[i]).name@) == Some(
        all_spec()[i],
    ) by {
        if i == 0 {
            assert(all_spec()[i] == session_spec());
        } else {
            assert(all_spec()[i] == empty_spec());
        }
    }
}

/// A lookup only ever finds the preset of the name asked for, and the
/// bundled presets have distinct names.
pub proof fn lookup_finds_that_name(name: Seq<char>)
    ensures
        get_spec(name) is Some ==> get_spec(name)->0.name@ == name,
        all_spec()[0].name@ != all_spec()[1].name@,
        get_spec(name) is Some <==> exists|i: int| 0 <= i < all_spec().len() && (#[trigger] all_spec()[i]).name@ == name,
{
    reveal_strlit("session");
    reveal_strlit("empty");
    assert("empty"@[0] != "session"@[0]);
    if get_spec(name) is Some {
        if name == "session"@ {
            assert(all_spec()[0].name@ == name);
        } else {
            assert(all_spec()[1].name@ == name);
        }
    }
}

} // verus!
