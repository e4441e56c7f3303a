//! The settings of the minimap.

use vstd::prelude::*;
use crate::paths::{join, joined};
use crate::scalar::{fraction, ratio, Scalar};
use crate::text::{same_bytes, same_text};
use vstd::string::StringSliceAdditionalSpecFns;

verus! {

#[derive(Debug)]
pub struct Config<S> {
    pub display: DisplayConfig<S>,
    pub appearance: AppearanceConfig<S>,
}

#[derive(Debug)]
pub struct DisplayConfig<S> {
    /// Height of the row of one workspace in logical pixels.
    pub height: u32,
    /// Greatest width as a fraction of the width of the output.
    pub max_width_percent: S,
    /// Greatest height as a fraction of the height of the output (stacked
    /// view).
    pub max_height_percent: S,
    /// Where the widget sits: top-left, top-center, top-right, bottom-left,
    /// bottom-center, bottom-right, center.
    pub anchor: String,
    /// Horizontal distance from the anchored edge in logical pixels.
    pub margin_x: i32,
    /// Vertical distance from the anchored edge in logical pixels.
    pub margin_y: i32,
    /// "current" shows the focused workspace, "all" stacks every workspace.
    pub mode: String,
    /// Follow the focused output; otherwise stay on the first one.
    pub follow_focus: bool,
}

#[derive(Debug)]
pub struct AppearanceConfig<S> {
    pub background: String,
    pub background_opacity: S,
    pub window_color: String,
    pub focused_color: String,
    pub border_color: String,
    pub border_width: S,
    pub border_radius: S,
    pub gap: S,
    pub window_opacity: S,
    pub focused_opacity: S,
    /// Draw the icon of the application in each tile. Windows without one are
    /// left out.
    pub show_icons: bool,
    pub workspace_gap: S,
    pub active_workspace_border_color: String,
    pub active_workspace_border_width: S,
    /// Colour of the border of the window that had the focus last.
    pub active_window_border_color: String,
    /// Width of the border of the window that had the focus last.
    pub active_window_border_width: S,
}

impl<S: Scalar> AppearanceConfig<S> {
    /// The appearance without any settings.
    pub open spec fn is_default(self) -> bool {
        &&& self.background@ == "#1e1e2e"@
        &&& self.background_opacity == S::spec_from_u64(0)
        &&& self.window_color@ == "#45475a"@
        &&& self.focused_color@ == "#89b4fa"@
        &&& self.border_color@ == "#6c7086"@
        &&& self.border_width == S::spec_from_u64(1)
        &&& self.border_radius == S::spec_from_u64(2)
        &&& self.gap == S::spec_from_u64(2)
        &&& self.window_opacity == ratio::<S>(7, 10)
        &&& self.focused_opacity == S::spec_from_u64(1)
        &&& self.show_icons
        &&& self.workspace_gap == S::spec_from_u64(4)
        &&& self.active_workspace_border_color@ == "#89b4fa"@
        &&& self.active_workspace_border_width == S::spec_from_u64(2)
        &&& self.active_window_border_color@ == "#f38ba8"@
        &&& self.active_window_border_width == S::spec_from_u64(2)
    }
}

impl<S: Scalar> Config<S> {
    /// The configuration without any settings.
    pub open spec fn is_default(self) -> bool {
        &&& self.display.height == 100
        &&& self.display.max_width_percent == ratio::<S>(5, 10)
        &&& self.display.max_height_percent == ratio::<S>(8, 10)
        &&& self.display.anchor@ == "top-right"@
        &&& self.display.margin_x == 10
        &&& self.display.margin_y == 10
        &&& self.display.mode@ == "current"@
        &&& self.display.follow_focus
        &&& self.appearance.is_default()
    }
}

impl<S: Scalar> Default for AppearanceConfig<S> {
    fn default() -> (r: Self)
        ensures
            r.is_default(),
    {
        AppearanceConfig {
            background: "#1e1e2e".to_owned(),
            background_opacity: S::from_u64(0),
            window_color: "#45475a".to_owned(),
            focused_color: "#89b4fa".to_owned(),
            border_color: "#6c7086".to_owned(),
            border_width: S::from_u64(1),
            border_radius: S::from_u64(2),
            gap: S::from_u64(2),
            window_opacity: fraction(7, 10),
            focused_opacity: S::from_u64(1),
            show_icons: default_true(),
            workspace_gap: S::from_u64(4),
            active_workspace_border_color: "#89b4fa".to_owned(),
            active_workspace_border_width: S::from_u64(2),
            active_window_border_color: default_active_window_border_color(),
            active_window_border_width: default_active_window_border_width(),
        }
    }
}

/// What a `[display]` table leaves out is zero, empty or off.
impl<S: Scalar> Default for DisplayConfig<S> {
    fn default() -> (r: Self)
        ensures
            r.height == 0,
            r.max_width_percent == S::spec_from_u64(0),
            r.max_height_percent == S::spec_from_u64(0),
            r.anchor@ == Seq::<char>::empty(),
            r.margin_x == 0,
            r.margin_y == 0,
            r.mode@ == Seq::<char>::empty(),
            !r.follow_focus,
    {
        DisplayConfig {
            height: 0,
            max_width_percent: S::from_u64(0),
            max_height_percent: S::from_u64(0),
            anchor: String::new(),
            margin_x: 0,
            margin_y: 0,
            mode: String::new(),
            follow_focus: false,
        }
    }
}

impl<S: Scalar> Default for Config<S> {
    fn default() -> (r: Self)
        ensures
            r.is_default(),
    {
        Config {
            display: DisplayConfig {
                height: 100,
                max_width_percent: fraction(5, 10),
                max_height_percent: fraction(8, 10),
                anchor: "top-right".to_owned(),
                margin_x: 10,
                margin_y: 10,
                mode: "current".to_owned(),
                follow_focus: true,
            },
            appearance: AppearanceConfig::default(),
        }
    }
}

/// The configuration file that is written where there is none yet: all settings,
/// each with its default.
pub const DEFAULT_CONFIG: &'static str = r##"# nirimap configuration

[display]
# Height of one workspace row (logical pixels).
height = 100
# Maximum widget width as a fraction of the output width.
max_width_percent = 0.5
# Maximum widget height as a fraction of the output height ("all" mode only).
max_height_percent = 0.8
# Widget position: top-left, top-center, top-right, bottom-left, bottom-center,
# bottom-right, center.
anchor = "top-right"
margin_x = 10
margin_y = 10
# "current" = show only the focused workspace; "all" = stack every workspace.
mode = "current"
# Follow the focused output. When false, the first output is used.
follow_focus = true

[appearance]
background = "#1e1e2e"
background_opacity = 0.0
window_color = "#45475a"
focused_color = "#89b4fa"
border_color = "#6c7086"
border_width = 1
border_radius = 2
gap = 2
window_opacity = 0.7
focused_opacity = 1.0
show_icons = true
workspace_gap = 4
active_workspace_border_color = "#89b4fa"
active_workspace_border_width = 2
# Border marking the workspace's last-focused window in the "all" preview.
active_window_border_color = "#f38ba8"
active_window_border_width = 2
"##;

/// Icons are drawn unless a setting says otherwise.
pub fn default_true() -> (r: bool)
    ensures
        r,
{
    true
}

/// Colour of the border of the window that had the focus last.
pub fn default_active_window_border_color() -> (r: String)
    ensures
        r@ == "#f38ba8"@,
{
    "#f38ba8".to_owned()
}

/// Width of the border of the window that had the focus last.
pub fn default_active_window_border_width<S: Scalar>() -> (r: S)
    ensures
        r == S::spec_from_u64(2),
{
    S::from_u64(2)
}

impl<S: Scalar> Config<S> {
    /// Path of the configuration file in the directory of configurations, or,
    /// where there is none, from the current directory.
    pub fn path(config_dir: Option<&str>) -> (r: String)
        ensures
            r@ == joined(
                joined(
                    match config_dir {
                        Some(dir) => dir@,
                        None => "."@,
                    },
                    "nirimap"@,
                ),
                "config.toml"@,
            ),
    {
        let dir: &str = match config_dir {
            Some(dir) => dir,
            None => ".",
        };
        join(join(dir, "nirimap").as_str(), "config.toml")
    }

    /// The configuration to run with: what the file holds, or, where it could
    /// not be read as one, the default. A broken edit never stops the minimap.
    pub fn load(parsed: Option<Config<S>>) -> (r: Config<S>)
        ensures
            match parsed {
                Some(config) => r == config,
                None => r.is_default(),
            },
    {
        match parsed {
            Some(config) => config,
            None => Config::default(),
        }
    }

    /// Whether the stacked view is asked for.
    pub open spec fn spec_is_stacked(self) -> bool {
        self.display.mode@ == "all"@
    }

    /// Whether the stacked view is asked for.
    pub fn is_stacked(&self) -> (r: bool)
        ensures
            r == self.spec_is_stacked(),
    {
        same_text(self.display.mode.as_str(), "all")
    }

    /// Whether a change of the configuration moves the widget, so that it needs
    /// a new surface.
    pub open spec fn moves_widget(self, old: Self) -> bool {
        ||| self.display.anchor@ != old.display.anchor@
        ||| self.display.margin_x != old.display.margin_x
        ||| self.display.margin_y != old.display.margin_y
    }

    /// Whether a change of the configuration moves the widget.
    pub fn placement_changed(&self, previous: &Config<S>) -> (r: bool)
        ensures
            r == self.moves_widget(*previous),
    {
        !same_text(self.display.anchor.as_str(), previous.display.anchor.as_str())
            || self.display.margin_x != previous.display.margin_x || self.display.margin_y
            != previous.display.margin_y
    }
}

/// The value of a hexadecimal digit.
pub open spec fn hex_digit(b: u8) -> Option<int> {
    if 0x30 <= b <= 0x39 {
        Some(b - 0x30)
    } else if 0x41 <= b <= 0x46 {
        Some(b - 0x41 + 10)
    } else if 0x61 <= b <= 0x66 {
        Some(b - 0x61 + 10)
    } else {
        None
    }
}

/// The number that hexadecimal digits write.
pub open spec fn hex_number(digits: Seq<u8>) -> Option<int>
    decreases digits.len(),
{
    if digits.len() == 0 {
        Some(0)
    } else {
        match (hex_number(digits.drop_last()), hex_digit(digits.last())) {
            (Some(high), Some(low)) => Some(high * 16 + low),
            _ => None,
        }
    }
}

/// `s` without the `#` at its start.
pub open spec fn without_hashes(s: Seq<u8>) -> Seq<u8>
    decreases s.len(),
{
    if s.len() > 0 && s[0] == 0x23 {
        without_hashes(s.drop_first())
    } else {
        s
    }
}

/// The red, green and blue parts (0 to 255) that a colour such as `#rrggbb`
/// names. A plus sign may stand in place of the first digit.
pub open spec fn hex_color(s: Seq<u8>) -> Option<(int, int, int)> {
    let t = without_hashes(s);
    let digits = if t.len() > 0 && t[0] == 0x2b {
        t.drop_first()
    } else {
        t
    };
    if t.len() != 6 {
        None
    } else {
        match hex_number(digits) {
            Some(v) => Some((v / 0x10000, v / 0x100 % 0x100, v % 0x100)),
            None => None,
        }
    }
}

fn hex_digit_value(b: u8) -> (r: Option<u32>)
    ensures
        match (r, hex_digit(b)) {
            (Some(v), Some(d)) => v == d && v < 16,
            (None, None) => true,
            _ => false,
        },
{
    if 0x30 <= b && b <= 0x39 {
        Some((b - 0x30) as u32)
    } else if 0x41 <= b && b <= 0x46 {
        Some((b - 0x41 + 10) as u32)
    } else if 0x61 <= b && b <= 0x66 {
        Some((b - 0x61 + 10) as u32)
    } else {
        None
    }
}

proof fn lemma_hex_prefix(s: Seq<u8>, n: int)
    requires
        0 <= n <= s.len(),
        hex_number(s.take(n)) is None,
    ensures
        hex_number(s) is None,
    decreases s.len(),
{
    if n < s.len() {
        assert(s.drop_last().take(n) =~= s.take(n));
        lemma_hex_prefix(s.drop_last(), n);
    } else {
        assert(s.take(n) =~= s);
    }
}

/// The number that up to six hexadecimal digits write.
fn parse_hex_number(digits: &[u8]) -> (r: Option<u32>)
    requires
        digits@.len() <= 6,
    ensures
        match (r, hex_number(digits@)) {
            (Some(v), Some(d)) => v == d && v < 0x100_0000,
            (None, None) => true,
            _ => false,
        },
{
    let mut value: u32 = 0;
    let mut i: usize = 0;
    let ghost mut bound: int = 1;
    while i < digits.len()
        invariant
            i <= digits@.len() <= 6,
            hex_number(digits@.take(i as int)) == Some(value as int),
            value < bound,
            bound == (if i == 0 {
                1int
            } else if i == 1 {
                0x10
            } else if i == 2 {
                0x100
            } else if i == 3 {
                0x1000
            } else if i == 4 {
                0x1_0000
            } else if i == 5 {
                0x10_0000
            } else {
                0x100_0000
            }),
        decreases digits@.len() - i,
    {
        assert(digits@.take(i + 1).drop_last() =~= digits@.take(i as int));
        assert(digits@.take(i + 1).last() == digits@[i as int]);
        match hex_digit_value(digits[i]) {
            Some(d) => {
                value = value * 16 + d;
                proof {
                    bound = bound * 16;
                }
            },
            None => {
                proof {
                    lemma_hex_prefix(digits@, i + 1);
                }
                return None;
            },
        }
        i = i + 1;
    }
    assert(digits@.take(i as int) =~= digits@);
    Some(value)
}

/// The red, green and blue that a colour names, as fractions of full red,
/// green and blue.
pub open spec fn named_color<N: Scalar>(s: Seq<char>) -> Option<(N, N, N)> {
    match hex_color(vstd::utf8::encode_utf8(s)) {
        Some(c) => Some(
            (
                ratio::<N>(c.0 as u64, 255),
                ratio::<N>(c.1 as u64, 255),
                ratio::<N>(c.2 as u64, 255),
            ),
        ),
        None => None,
    }
}

/// Reads a colour such as `#rrggbb` as fractions of full red, green and blue.
pub fn parse_hex<N: Scalar>(s: &str) -> (r: Option<(N, N, N)>)
    ensures
        r == named_color::<N>(s@),
{
    let bytes: &[u8] = s.as_bytes();
    let mut from: usize = 0;
    assert(bytes@.skip(0) =~= bytes@);
    while from < bytes.len() && bytes[from] == 0x23
        invariant
            from <= bytes@.len(),
            without_hashes(bytes@) == without_hashes(bytes@.skip(from as int)),
        ensures
            from <= bytes@.len(),
            without_hashes(bytes@) == without_hashes(bytes@.skip(from as int)),
            from == bytes@.len() || bytes@[from as int] != 0x23,
        decreases bytes@.len() - from,
    {
        assert(bytes@.skip(from as int).drop_first() =~= bytes@.skip(from + 1));
        from = from + 1;
    }
    let ghost t = bytes@.skip(from as int);
    assert(without_hashes(bytes@) == t);
    if bytes.len() - from != 6 {
        return None;
    }
    if bytes[from] == 0x2b {
        from = from + 1;
        assert(bytes@.subrange(from as int, bytes@.len() as int) =~= t.drop_first());
    } else {
        assert(bytes@.subrange(from as int, bytes@.len() as int) =~= t);
    }
    match parse_hex_number(vstd::slice::slice_subrange(bytes, from, bytes.len())) {
        Some(v) => Some(
            (
                fraction((v / 0x10000) as u64, 255),
                fraction((v / 0x100 % 0x100) as u64, 255),
                fraction((v % 0x100) as u64, 255),
            ),
        ),
        None => None,
    }
}

/// The hexadecimal digit for a value below 16.
pub open spec fn hex_char(v: int) -> u8 {
    if v < 10 {
        (0x30 + v) as u8
    } else {
        (0x61 + v - 10) as u8
    }
}

proof fn lemma_hex_push(digits: Seq<u8>, v: int)
    requires
        0 <= v < 16,
        hex_number(digits) is Some,
    ensures
        hex_number(digits.push(hex_char(v))) == Some(hex_number(digits)->0 * 16 + v),
{
    assert(digits.push(hex_char(v)).drop_last() =~= digits);
    assert(hex_digit(hex_char(v)) == Some(v));
}

/// A byte as two hexadecimal digits behind others.
pub open spec fn push_hex(digits: Seq<u8>, v: u8) -> Seq<u8> {
    digits.push(hex_char(v as int / 16)).push(hex_char(v as int % 16))
}

proof fn lemma_hex_byte(digits: Seq<u8>, v: u8)
    requires
        hex_number(digits) is Some,
    ensures
        hex_number(push_hex(digits, v)) == Some(hex_number(digits)->0 * 256 + v),
{
    lemma_hex_push(digits, v as int / 16);
    lemma_hex_push(digits.push(hex_char(v as int / 16)), v as int % 16);
}

/// A colour written as `#rrggbb` is read back as it was written.
pub proof fn colors_read_back(r: u8, g: u8, b: u8)
    ensures
        hex_color(
            seq![0x23u8] + push_hex(push_hex(push_hex(Seq::empty(), r), g), b),
        ) == Some((r as int, g as int, b as int)),
{
    let rs = push_hex(Seq::empty(), r);
    let gs = push_hex(rs, g);
    lemma_hex_byte(Seq::empty(), r);
    lemma_hex_byte(rs, g);
    lemma_hex_byte(gs, b);
    lemma_hex_color(push_hex(gs, b), (r * 256 + g) * 256 + b);
    lemma_parts(r, g, b);
}

proof fn lemma_parts(r: u8, g: u8, b: u8)
    ensures
        ((r * 256 + g) * 256 + b) / 0x10000 == r as int,
        ((r * 256 + g) * 256 + b) / 0x100 % 0x100 == g as int,
        ((r * 256 + g) * 256 + b) % 0x100 == b as int,
{
}

proof fn lemma_hex_color(digits: Seq<u8>, v: int)
    requires
        digits.len() == 6,
        digits[0] != 0x23,
        digits[0] != 0x2b,
        hex_number(digits) == Some(v),
    ensures
        hex_color(seq![0x23u8] + digits) == Some((v / 0x10000, v / 0x100 % 0x100, v % 0x100)),
{
    let s = seq![0x23u8] + digits;
    assert(s.drop_first() =~= digits);
    assert(without_hashes(digits) == digits);
    assert(without_hashes(s) == digits);
}

/// The edges of the output that the widget is held to.
#[derive(Clone, Copy, Debug, PartialEq, Eq, Structural)]
pub struct Edges {
    pub top: bool,
    pub bottom: bool,
    pub left: bool,
    pub right: bool,
}

/// A letter of an anchor: case does not matter, and `_` is as good as `-`.
pub open spec fn anchor_byte(b: u8) -> u8 {
    if 0x41 <= b <= 0x5a {
        (b + 0x20) as u8
    } else if b == 0x5f {
        0x2d
    } else {
        b
    }
}

/// The edges that an anchor names. What is not an anchor means top right.
pub open spec fn edges_of(anchor: Seq<u8>) -> Edges {
    let n = anchor.map_values(|b: u8| anchor_byte(b));
    let edges = |top: bool, bottom: bool, left: bool, right: bool| Edges {
        top,
        bottom,
        left,
        right,
    };
    if n == "top-left".spec_bytes() {
        edges(true, false, true, false)
    } else if n == "top-center".spec_bytes() || n == "top".spec_bytes() {
        edges(true, false, false, false)
    } else if n == "top-right".spec_bytes() {
        edges(true, false, false, true)
    } else if n == "bottom-left".spec_bytes() {
        edges(false, true, true, false)
    } else if n == "bottom-center".spec_bytes() || n == "bottom".spec_bytes() {
        edges(false, true, false, false)
    } else if n == "bottom-right".spec_bytes() {
        edges(false, true, false, true)
    } else if n == "left".spec_bytes() {
        edges(false, false, true, false)
    } else if n == "right".spec_bytes() {
        edges(false, false, false, true)
    } else if n == "center".spec_bytes() || n == "center-center".spec_bytes() {
        edges(false, false, false, false)
    } else {
        edges(true, false, false, true)
    }
}

/// The edges that an anchor names.
pub fn anchor_bits(anchor: &str) -> (r: Edges)
    ensures
        r == edges_of(anchor.spec_bytes()),
{
    let bytes: &[u8] = anchor.as_bytes();
    let mut name: Vec<u8> = Vec::new();
    let mut i: usize = 0;
    while i < bytes.len()
        invariant
            i <= bytes@.len(),
            name@ == bytes@.take(i as int).map_values(|b: u8| anchor_byte(b)),
        decreases bytes@.len() - i,
    {
        let b: u8 = bytes[i];
        let c: u8 = if 0x41 <= b && b <= 0x5a {
            b + 0x20
        } else if b == 0x5f {
            0x2d
        } else {
            b
        };
        name.push(c);
        i = i + 1;
        assert(name@ =~= bytes@.take(i as int).map_values(|b: u8| anchor_byte(b)));
    }
    assert(bytes@.take(i as int) =~= bytes@);
    let n: &[u8] = name.as_slice();
    let (top, bottom, left, right): (bool, bool, bool, bool) = if same_bytes(
        n,
        "top-left".as_bytes(),
    ) {
        (true, false, true, false)
    } else if same_bytes(n, "top-center".as_bytes()) || same_bytes(n, "top".as_bytes()) {
        (true, false, false, false)
    } else if same_bytes(n, "top-right".as_bytes()) {
        (true, false, false, true)
    } else if same_bytes(n, "bottom-left".as_bytes()) {
        (false, true, true, false)
    } else if same_bytes(n, "bottom-center".as_bytes()) || same_bytes(n, "bottom".as_bytes()) {
        (false, true, false, false)
    } else if same_bytes(n, "bottom-right".as_bytes()) {
        (false, true, false, true)
    } else if same_bytes(n, "left".as_bytes()) {
        (false, false, true, false)
    } else if same_bytes(n, "right".as_bytes()) {
        (false, false, false, true)
    } else if same_bytes(n, "center".as_bytes()) || same_bytes(n, "center-center".as_bytes()) {
        (false, false, false, false)
    } else {
        (true, false, false, true)
    };
    Edges { top, bottom, left, right }
}

} // verus!
