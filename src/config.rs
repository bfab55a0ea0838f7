//! Visual style options of the diagram.
use vstd::prelude::*;
use crate::elements::STROKE_COLOR;
use crate::text::{starts_with, str_eq};

verus! {

pub const DEFAULT_CONFIG_PATH: &'static str = "excalidocker-config.yaml";

/// The configuration used when no configuration file overrides it, as YAML.
pub const DEFAULT_CONFIG: &'static str = r###"
font:
  size: 16
  family: 1
services:
  background_color: "#b2f2bb"
  fill: "hachure"
  edge: "round"
ports:
  background_color: "#a5d8ff"
  fill: "hachure"
connections:
  visible: true
  edge: "sharp"
alignment:
  mode: "stepped"
network:
  visible: true
"###;

#[derive(Clone, Debug)]
pub struct Font {
    pub size: i32,
    pub family: i32,
}

#[derive(Clone, Debug)]
pub struct Services {
    pub background_color: String,
    pub fill: String,
    pub edge: String,
}

#[derive(Clone, Debug)]
pub struct Ports {
    pub background_color: String,
    pub fill: String,
}

#[derive(Clone, Debug)]
pub struct Connections {
    pub visible: bool,
    pub edge: String,
}

#[derive(Clone, Debug)]
pub struct Network {
    pub visible: bool,
}

#[derive(Clone, Debug)]
pub struct Alignment {
    pub mode: String,
}

#[derive(Clone, Debug)]
pub struct ExcalidrawConfig {
    pub font: Font,
    pub services: Services,
    pub ports: Ports,
    pub connections: Connections,
    pub alignment: Alignment,
    pub network: Network,
}

/// The configuration that `DEFAULT_CONFIG` describes.
pub fn default_config() -> (r: ExcalidrawConfig)
    ensures
        r.font.size == 16,
        r.font.family == 1,
        r.services.background_color@ == "#b2f2bb"@,
        r.services.fill@ == "hachure"@,
        r.services.edge@ == "round"@,
        r.ports.background_color@ == "#a5d8ff"@,
        r.ports.fill@ == "hachure"@,
        r.connections.visible,
        r.connections.edge@ == "sharp"@,
        r.alignment.mode@ == "stepped"@,
        r.network.visible,
{
    ExcalidrawConfig {
        font: Font { size: 16, family: 1 },
        services: Services {
            background_color: String::from_str("#b2f2bb"),
            fill: String::from_str("hachure"),
            edge: String::from_str("round"),
        },
        ports: Ports { background_color: String::from_str("#a5d8ff"), fill: String::from_str("hachure") },
        connections: Connections { visible: true, edge: String::from_str("sharp") },
        alignment: Alignment { mode: String::from_str("stepped") },
        network: Network { visible: true },
    }
}

/// The hex code of a named color, for the basic color keywords.
pub open spec fn named_color_hex(name: Seq<char>) -> Option<Seq<char>> {
    if name == "black"@ {
        Some("#000000"@)
    } else if name == "silver"@ {
        Some("#c0c0c0"@)
    } else if name == "gray"@ {
        Some("#808080"@)
    } else if name == "white"@ {
        Some("#ffffff"@)
    } else if name == "maroon"@ {
        Some("#800000"@)
    } else if name == "red"@ {
        Some("#ff0000"@)
    } else if name == "purple"@ {
        Some("#800080"@)
    } else if name == "fuchsia"@ {
        Some("#ff00ff"@)
    } else if name == "green"@ {
        Some("#008000"@)
    } else if name == "lime"@ {
        Some("#00ff00"@)
    } else if name == "olive"@ {
        Some("#808000"@)
    } else if name == "yellow"@ {
        Some("#ffff00"@)
    } else if name == "navy"@ {
        Some("#000080"@)
    } else if name == "blue"@ {
        Some("#0000ff"@)
    } else if name == "teal"@ {
        Some("#008080"@)
    } else if name == "aqua"@ {
        Some("#00ffff"@)
    } else {
        None
    }
}

/// The color a style option stands for: a `#` code as written, a known color
/// name as its hex code, and anything else as the default stroke color.
pub open spec fn color_spec(input: Seq<char>) -> Seq<char> {
    if input.len() > 0 && input[0] == '#' {
        input
    } else {
        match named_color_hex(input) {
            Some(hex) => hex,
            None => STROKE_COLOR@,
        }
    }
}

fn named_color(name: &str) -> (r: Option<&'static str>)
    ensures
        r matches Some(h) ==> named_color_hex(name@) == Some(h@),
        r is None ==> named_color_hex(name@) is None,
{
    if str_eq(name, "black") {
        Some("#000000")
    } else if str_eq(name, "silver") {
        Some("#c0c0c0")
    } else if str_eq(name, "gray") {
        Some("#808080")
    } else if str_eq(name, "white") {
        Some("#ffffff")
    } else if str_eq(name, "maroon") {
        Some("#800000")
    } else if str_eq(name, "red") {
        Some("#ff0000")
    } else if str_eq(name, "purple") {
        Some("#800080")
    } else if str_eq(name, "fuchsia") {
        Some("#ff00ff")
    } else if str_eq(name, "green") {
        Some("#008000")
    } else if str_eq(name, "lime") {
        Some("#00ff00")
    } else if str_eq(name, "olive") {
        Some("#808000")
    } else if str_eq(name, "yellow") {
        Some("#ffff00")
    } else if str_eq(name, "navy") {
        Some("#000080")
    } else if str_eq(name, "blue") {
        Some("#0000ff")
    } else if str_eq(name, "teal") {
        Some("#008080")
    } else if str_eq(name, "aqua") {
        Some("#00ffff")
    } else {
        None
    }
}

/// The color that a style option stands for, as a hex code where it is known.
pub fn resolve_color(input: &str) -> (r: String)
    ensures
        r@ == color_spec(input@),
{
    proof {
        reveal_strlit("#");
        assert("#"@.len() == 1 && "#"@[0] == '#');
    }
    if starts_with(input, "#") {
        assert(input@[0] == input@.subrange(0, 1)[0]);
        return input.to_owned();
    }
    proof {
        if input@.len() > 0 && input@[0] == '#' {
            assert(input@.subrange(0, 1) =~= "#"@);
        }
    }
    match named_color(input) {
        Some(hex) => hex.to_owned(),
        None => String::from_str(STROKE_COLOR),
    }
}

} // verus!
