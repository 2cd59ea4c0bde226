//! User-facing settings: keyboard layout, keyboard shortcuts and output
//! placement.
//!
//! Reading the settings file is left to the caller; this module turns what
//! was read into a [`Config`], parses shortcut specs such as
//! `"ctrl+shift+left"`, and decides where a connecting output is placed.

use vstd::prelude::*;
use crate::geometry::{Point, Rect, Size, in_i32};
use crate::text::{
    chars_of, string_from_chars, string_views, trim, trim_chars, seq_eq, seq_ascii_lower, ascii_lower_all, ascii_lower,
    ascii_upper, ascii_is_alphabetic, spec_ascii_lower, spec_ascii_upper, spec_is_ascii_alphabetic,
    spec_is_ascii_upper, spec_is_ascii_lower, spec_is_whitespace,
};

verus! {

/// Keyboard layout settings, handed to the keymap compiler unchanged. An
/// empty field lets it fall back to its own default.
#[derive(Debug, Clone)]
pub struct KeyboardSettings {
    pub rules: String,
    pub model: String,
    pub layout: String,
    pub variant: String,
    pub options: String,
}

impl Default for KeyboardSettings {
    fn default() -> (r: Self)
        ensures
            r.rules@.len() == 0,
            r.model@.len() == 0,
            r.layout@.len() == 0,
            r.variant@.len() == 0,
            r.options@.len() == 0,
    {
        KeyboardSettings {
            rules: String::new(),
            model: String::new(),
            layout: String::new(),
            variant: String::new(),
            options: String::new(),
        }
    }
}

impl KeyboardSettings {
    /// The options to pass to the keymap compiler: none when the field is
    /// empty, so that its default applies.
    pub fn xkb_options(&self) -> (r: Option<String>)
        ensures
            self.options@.len() == 0 ==> r is None,
            self.options@.len() > 0 ==> (r matches Some(o) && o@ == self.options@),
    {
        if self.options.as_str().is_empty() {
            None
        } else {
            Some(self.options.clone())
        }
    }
}

/// Which modifiers a keybinding requires. Lock keys are not part of a
/// binding's identity: only ctrl, alt, shift and logo tell shortcuts apart.
#[derive(Debug, Clone, Copy, Default, PartialEq, Eq, Structural)]
pub struct KeyModifiers {
    pub ctrl: bool,
    pub alt: bool,
    pub shift: bool,
    pub logo: bool,
}

/// The modifier state of the keyboard at a key press.
#[derive(Debug, Clone, Copy, Default, PartialEq, Eq, Structural)]
pub struct HeldModifiers {
    pub ctrl: bool,
    pub alt: bool,
    pub shift: bool,
    pub logo: bool,
    pub caps_lock: bool,
    pub num_lock: bool,
}

impl KeyModifiers {
    /// A binding fires when exactly its modifiers are held; the lock keys
    /// play no part.
    pub fn matches(&self, mods: &HeldModifiers) -> (r: bool)
        ensures
            r == (self.ctrl == mods.ctrl && self.alt == mods.alt && self.shift == mods.shift
                && self.logo == mods.logo),
    {
        self.ctrl == mods.ctrl && self.alt == mods.alt && self.shift == mods.shift && self.logo
            == mods.logo
    }
}

/// Where to place an output: next to another, already placed output, or at
/// an explicit logical position. Mirroring (`OutputSettings::mirror_of`)
/// takes priority over this when both are set.
#[derive(Debug, Clone, PartialEq)]
pub enum OutputPosition {
    RightOf { right_of: String },
    LeftOf { left_of: String },
    Above { above: String },
    Below { below: String },
    Absolute { x: i32, y: i32 },
}

/// The value of an [`OutputPosition`], with output names as character
/// sequences.
pub enum Placement {
    RightOf(Seq<char>),
    LeftOf(Seq<char>),
    Above(Seq<char>),
    Below(Seq<char>),
    Absolute(i32, i32),
}

impl View for OutputPosition {
    type V = Placement;

    open spec fn view(&self) -> Placement {
        match self {
            OutputPosition::RightOf { right_of } => Placement::RightOf(right_of@),
            OutputPosition::LeftOf { left_of } => Placement::LeftOf(left_of@),
            OutputPosition::Above { above } => Placement::Above(above@),
            OutputPosition::Below { below } => Placement::Below(below@),
            OutputPosition::Absolute { x, y } => Placement::Absolute(*x, *y),
        }
    }
}

impl OutputPosition {
    pub fn duplicate(&self) -> (r: OutputPosition)
        ensures
            r@ == self@,
    {
        match self {
            OutputPosition::RightOf { right_of } => OutputPosition::RightOf { right_of: right_of.clone() },
            OutputPosition::LeftOf { left_of } => OutputPosition::LeftOf { left_of: left_of.clone() },
            OutputPosition::Above { above } => OutputPosition::Above { above: above.clone() },
            OutputPosition::Below { below } => OutputPosition::Below { below: below.clone() },
            OutputPosition::Absolute { x, y } => OutputPosition::Absolute { x: *x, y: *y },
        }
    }
}

/// Per-output settings, keyed by connector name (e.g. `"eDP-1"`).
#[derive(Debug, Clone, PartialEq)]
pub struct OutputSettings {
    /// Marks this the primary monitor.
    pub primary: bool,
    /// Name of another output to mirror, by placing this one at that
    /// output's position. Takes priority over `position`.
    pub mirror_of: Option<String>,
    /// Where to place this output when it does not mirror another; `None`
    /// stacks it to the right of every placed output.
    pub position: Option<OutputPosition>,
}

/// The value of an [`OutputSettings`].
pub struct OutputSettingsView {
    pub primary: bool,
    pub mirror_of: Option<Seq<char>>,
    pub position: Option<Placement>,
}

impl View for OutputSettings {
    type V = OutputSettingsView;

    open spec fn view(&self) -> OutputSettingsView {
        OutputSettingsView {
            primary: self.primary,
            mirror_of: match self.mirror_of {
                Some(m) => Some(m@),
                None => None,
            },
            position: match self.position {
                Some(p) => Some(p@),
                None => None,
            },
        }
    }
}

/// Auto-placed, extended, not primary.
pub open spec fn default_output_settings() -> OutputSettingsView {
    OutputSettingsView { primary: false, mirror_of: None, position: None }
}

impl Default for OutputSettings {
    fn default() -> (r: Self)
        ensures
            r@ == default_output_settings(),
    {
        OutputSettings { primary: false, mirror_of: None, position: None }
    }
}

impl OutputSettings {
    pub fn duplicate(&self) -> (r: OutputSettings)
        ensures
            r@ == self@,
    {
        OutputSettings {
            primary: self.primary,
            mirror_of: match &self.mirror_of {
                Some(m) => Some(m.clone()),
                None => None,
            },
            position: match &self.position {
                Some(p) => Some(p.duplicate()),
                None => None,
            },
        }
    }
}

/// The `i`th placed output is the first one named `target`.
pub open spec fn first_named(placed: Seq<(String, Rect)>, target: Seq<char>, i: int) -> bool {
    &&& 0 <= i < placed.len()
    &&& placed[i].0@ == target
    &&& forall|j: int| 0 <= j < i ==> placed[j].0@ != target
}

/// The geometry of the first placed output named `target`.
pub open spec fn placed_rect(placed: Seq<(String, Rect)>, target: Seq<char>) -> Option<Rect> {
    if exists|i: int| first_named(placed, target, i) {
        Some(placed[choose|i: int| first_named(placed, target, i)].1)
    } else {
        None
    }
}

pub open spec fn right_edge(r: Rect) -> int {
    r.loc.x + r.size.w
}

/// The largest right edge among the placed outputs, 0 when there are none.
pub open spec fn max_right_edge(placed: Seq<(String, Rect)>) -> int
    decreases placed.len(),
{
    if placed.len() == 0 {
        0
    } else if placed.len() == 1 {
        right_edge(placed[0].1)
    } else {
        let rest = max_right_edge(placed.drop_last());
        let last = right_edge(placed.last().1);
        if last > rest {
            last
        } else {
            rest
        }
    }
}

/// The position that the settings pin an output to, if the output they
/// refer to is placed: the mirrored output's position, an absolute one, or
/// one next to the referenced output.
pub open spec fn anchored_position(settings: OutputSettingsView, size: Size, placed: Seq<(String, Rect)>) -> Option<(int, int)> {
    if settings.mirror_of is Some && placed_rect(placed, settings.mirror_of->0) is Some {
        let r = placed_rect(placed, settings.mirror_of->0)->0;
        Some((r.loc.x as int, r.loc.y as int))
    } else {
        match settings.position {
            Some(Placement::Absolute(x, y)) => Some((x as int, y as int)),
            Some(Placement::RightOf(t)) => match placed_rect(placed, t) {
                Some(r) => Some((r.loc.x + r.size.w, r.loc.y as int)),
                None => None,
            },
            Some(Placement::LeftOf(t)) => match placed_rect(placed, t) {
                Some(r) => Some((r.loc.x - size.w, r.loc.y as int)),
                None => None,
            },
            Some(Placement::Above(t)) => match placed_rect(placed, t) {
                Some(r) => Some((r.loc.x as int, r.loc.y - size.h)),
                None => None,
            },
            Some(Placement::Below(t)) => match placed_rect(placed, t) {
                Some(r) => Some((r.loc.x as int, r.loc.y + r.size.h)),
                None => None,
            },
            None => None,
        }
    }
}

/// Where an output is placed: where its settings pin it, or else to the
/// right of everything already placed, at the top.
pub open spec fn spec_output_position(settings: OutputSettingsView, size: Size, placed: Seq<(String, Rect)>) -> (int, int) {
    match anchored_position(settings, size, placed) {
        Some(p) => p,
        None => (max_right_edge(placed), 0),
    }
}

/// The arithmetic of placing the output stays within `i32`: the resulting
/// coordinates, and on auto-placement every right edge it compares.
pub open spec fn placement_in_range(settings: OutputSettingsView, size: Size, placed: Seq<(String, Rect)>) -> bool {
    &&& in_i32(spec_output_position(settings, size, placed).0)
    &&& in_i32(spec_output_position(settings, size, placed).1)
    &&& anchored_position(settings, size, placed) is None ==> forall|i: int|
        0 <= i < placed.len() ==> in_i32(#[trigger] right_edge(placed[i].1))
}

fn find_placed(placed: &[(String, Rect)], target: &String) -> (r: Option<Rect>)
    ensures
        r == placed_rect(placed@, target@),
{
    for i in 0..placed.len()
        invariant
            forall|j: int| 0 <= j < i ==> placed@[j].0@ != target@,
    {
        if placed[i].0 == *target {
            proof {
                assert(first_named(placed@, target@, i as int));
                let k = choose|k: int| first_named(placed@, target@, k);
                assert(k == i);
            }
            return Some(placed[i].1);
        }
    }
    None
}

/// Resolves where a connecting output named `name`, of logical size `size`,
/// is placed, given its settings and the outputs already placed (name and
/// geometry). A mirror or position that refers to an output that has not
/// connected yet falls back to auto-placement.
pub fn resolve_output_position(
    settings: &OutputSettings,
    name: &str,
    size: Size,
    placed: &[(String, Rect)],
) -> (p: Point)
    requires
        placement_in_range(settings@, size, placed@),
    ensures
        (p.x as int, p.y as int) == spec_output_position(settings@, size, placed@),
{
    if let Some(target) = &settings.mirror_of {
        if let Some(rect) = find_placed(placed, target) {
            return rect.loc;
        }
    }
    match &settings.position {
        Some(OutputPosition::Absolute { x, y }) => {
            return Point { x: *x, y: *y };
        },
        Some(OutputPosition::RightOf { right_of }) => {
            if let Some(rect) = find_placed(placed, right_of) {
                return Point { x: rect.loc.x + rect.size.w, y: rect.loc.y };
            }
        },
        Some(OutputPosition::LeftOf { left_of }) => {
            if let Some(rect) = find_placed(placed, left_of) {
                return Point { x: rect.loc.x - size.w, y: rect.loc.y };
            }
        },
        Some(OutputPosition::Above { above }) => {
            if let Some(rect) = find_placed(placed, above) {
                return Point { x: rect.loc.x, y: rect.loc.y - size.h };
            }
        },
        Some(OutputPosition::Below { below }) => {
            if let Some(rect) = find_placed(placed, below) {
                return Point { x: rect.loc.x, y: rect.loc.y + rect.size.h };
            }
        },
        None => {},
    }
    assert(anchored_position(settings@, size, placed@) is None);
    let mut x: i32 = 0;
    for i in 0..placed.len()
        invariant
            forall|k: int| 0 <= k < placed@.len() ==> in_i32(#[trigger] right_edge(placed@[k].1)),
            x as int == max_right_edge(placed@.take(i as int)),
    {
        proof {
            let t = placed@.take(i + 1);
            assert(t.drop_last() == placed@.take(i as int));
            assert(t.last() == placed@[i as int]);
            assert(in_i32(right_edge(placed@[i as int].1)));
        }
        let edge = placed[i].1.loc.x + placed[i].1.size.w;
        if i == 0 || edge > x {
            x = edge;
        }
    }
    assert(placed@.take(placed@.len() as int) == placed@);
    Point { x, y: 0 }
}

/// How to look a key name up in the keysym table: which name to ask for,
/// and whether case may be ignored.
#[derive(Debug, Clone)]
pub struct KeyLookup {
    pub name: String,
    pub case_insensitive: bool,
}

/// A shortcut spec split into its `+`-separated parts so far: the trimmed,
/// non-empty parts before the last `+`, and the text after it.
pub open spec fn scan_plus(s: Seq<char>) -> (Seq<Seq<char>>, Seq<char>)
    decreases s.len(),
{
    if s.len() == 0 {
        (seq![], seq![])
    } else {
        let (done, cur) = scan_plus(s.drop_last());
        if s.last() == '+' {
            (keep_part(done, cur), seq![])
        } else {
            (done, cur.push(s.last()))
        }
    }
}

pub open spec fn keep_part(done: Seq<Seq<char>>, raw: Seq<char>) -> Seq<Seq<char>> {
    if trim(raw).len() > 0 {
        done.push(trim(raw))
    } else {
        done
    }
}

/// The parts of a shortcut spec: split at `+`, trimmed, empty ones dropped.
pub open spec fn binding_parts(s: Seq<char>) -> Seq<Seq<char>> {
    keep_part(scan_plus(s).0, scan_plus(s).1)
}

/// Adds one modifier name (any ASCII case) to a modifier set; `None` for an
/// unknown name.
pub open spec fn add_modifier(m: Option<KeyModifiers>, part: Seq<char>) -> Option<KeyModifiers> {
    let lower = seq_ascii_lower(part);
    match m {
        None => None,
        Some(m) => if lower == "ctrl"@ || lower == "control"@ {
            Some(KeyModifiers { ctrl: true, ..m })
        } else if lower == "alt"@ {
            Some(KeyModifiers { alt: true, ..m })
        } else if lower == "shift"@ {
            Some(KeyModifiers { shift: true, ..m })
        } else if lower == "super"@ || lower == "logo"@ || lower == "meta"@ || lower == "win"@ {
            Some(KeyModifiers { logo: true, ..m })
        } else {
            None
        },
    }
}

pub open spec fn no_modifiers() -> KeyModifiers {
    KeyModifiers { ctrl: false, alt: false, shift: false, logo: false }
}

pub open spec fn modifiers_of(parts: Seq<Seq<char>>) -> Option<KeyModifiers>
    decreases parts.len(),
{
    if parts.len() == 0 {
        Some(no_modifiers())
    } else {
        add_modifier(modifiers_of(parts.drop_last()), parts.last())
    }
}

/// The name to look a key up by. A single ASCII letter is looked up exactly,
/// in upper case when Shift is held (the keysym a shifted key reports) and
/// in lower case otherwise; any other name is looked up ignoring case.
pub open spec fn lookup_of(name: Seq<char>, shift: bool) -> (Seq<char>, bool) {
    if name.len() == 1 && spec_is_ascii_alphabetic(name[0]) {
        (seq![if shift { spec_ascii_upper(name[0]) } else { spec_ascii_lower(name[0]) }], false)
    } else {
        (name, true)
    }
}

/// The modifiers of a shortcut spec and the lookup for its key (the last
/// part), or `None` if it has no parts or an unknown modifier.
pub open spec fn spec_parse_binding(s: Seq<char>) -> Option<(KeyModifiers, Seq<char>, bool)> {
    let parts = binding_parts(s);
    if parts.len() == 0 {
        None
    } else {
        match modifiers_of(parts.drop_last()) {
            None => None,
            Some(m) => Some((m, lookup_of(parts.last(), m.shift).0, lookup_of(parts.last(), m.shift).1)),
        }
    }
}

fn keep_part_exec(done: &mut Vec<Vec<char>>, raw: &Vec<char>)
    ensures
        final(done)@.map_values(|p: Vec<char>| p@) == keep_part(old(done)@.map_values(|p: Vec<char>| p@), raw@),
{
    let t = trim_chars(raw.as_slice());
    if t.len() > 0 {
        let ghost before = done@;
        done.push(t);
        assert(done@.map_values(|p: Vec<char>| p@) =~= before.map_values(|p: Vec<char>| p@).push(trim(raw@)));
    }
}

fn add_modifier_exec(m: KeyModifiers, part: &Vec<char>) -> (r: Option<KeyModifiers>)
    ensures
        r == add_modifier(Some(m), part@),
{
    let lower = ascii_lower_all(part);
    if seq_eq(&lower, &chars_of("ctrl")) || seq_eq(&lower, &chars_of("control")) {
        Some(KeyModifiers { ctrl: true, ..m })
    } else if seq_eq(&lower, &chars_of("alt")) {
        Some(KeyModifiers { alt: true, ..m })
    } else if seq_eq(&lower, &chars_of("shift")) {
        Some(KeyModifiers { shift: true, ..m })
    } else if seq_eq(&lower, &chars_of("super")) || seq_eq(&lower, &chars_of("logo")) || seq_eq(
        &lower,
        &chars_of("meta"),
    ) || seq_eq(&lower, &chars_of("win")) {
        Some(KeyModifiers { logo: true, ..m })
    } else {
        None
    }
}

proof fn lemma_max_right_edge_in_range(placed: Seq<(String, Rect)>)
    requires
        forall|i: int| 0 <= i < placed.len() ==> in_i32(#[trigger] right_edge(placed[i].1)),
    ensures
        in_i32(max_right_edge(placed)),
    decreases placed.len(),
{
    if placed.len() > 1 {
        let d = placed.drop_last();
        assert forall|i: int| 0 <= i < d.len() implies in_i32(#[trigger] right_edge(d[i].1)) by {
            assert(d[i] == placed[i]);
        }
        lemma_max_right_edge_in_range(d);
        assert(in_i32(right_edge(placed[placed.len() - 1].1)));
    } else if placed.len() == 1 {
        assert(in_i32(right_edge(placed[0].1)));
    }
}

/// Whether placing an output stays within `i32` (`placement_in_range`),
/// computed, for callers that must establish it before calling
/// [`resolve_output_position`].
pub fn placement_fits(settings: &OutputSettings, size: Size, placed: &[(String, Rect)]) -> (r: bool)
    ensures
        r == placement_in_range(settings@, size, placed@),
{
    let anchored: Option<(i64, i64)> = match &settings.mirror_of {
        Some(target) => match find_placed(placed, target) {
            Some(rect) => Some((rect.loc.x as i64, rect.loc.y as i64)),
            None => None,
        },
        None => None,
    };
    let anchored: Option<(i64, i64)> = match anchored {
        Some(p) => Some(p),
        None => match &settings.position {
            Some(OutputPosition::Absolute { x, y }) => Some((*x as i64, *y as i64)),
            Some(OutputPosition::RightOf { right_of }) => match find_placed(placed, right_of) {
                Some(rect) => Some((rect.loc.x as i64 + rect.size.w as i64, rect.loc.y as i64)),
                None => None,
            },
            Some(OutputPosition::LeftOf { left_of }) => match find_placed(placed, left_of) {
                Some(rect) => Some((rect.loc.x as i64 - size.w as i64, rect.loc.y as i64)),
                None => None,
            },
            Some(OutputPosition::Above { above }) => match find_placed(placed, above) {
                Some(rect) => Some((rect.loc.x as i64, rect.loc.y as i64 - size.h as i64)),
                None => None,
            },
            Some(OutputPosition::Below { below }) => match find_placed(placed, below) {
                Some(rect) => Some((rect.loc.x as i64, rect.loc.y as i64 + rect.size.h as i64)),
                None => None,
            },
            None => None,
        },
    };
    match anchored {
        Some((x, y)) => {
            assert(anchored_position(settings@, size, placed@) == Some((x as int, y as int)));
            i32::MIN as i64 <= x && x <= i32::MAX as i64 && i32::MIN as i64 <= y && y <= i32::MAX as i64
        },
        None => {
            assert(anchored_position(settings@, size, placed@) is None);
            for i in 0..placed.len()
                invariant
                    anchored_position(settings@, size, placed@) is None,
                    forall|k: int| 0 <= k < i ==> in_i32(#[trigger] right_edge(placed@[k].1)),
            {
                let edge: i64 = placed[i].1.loc.x as i64 + placed[i].1.size.w as i64;
                if edge < i32::MIN as i64 || edge > i32::MAX as i64 {
                    assert(!in_i32(right_edge(placed@[i as int].1)));
                    return false;
                }
            }
            proof {
                lemma_max_right_edge_in_range(placed@);
            }
            true
        },
    }
}

/// How to look up the keysym for the key name `name` of a binding that does
/// or does not hold Shift.
pub fn key_lookup(name: &str, shift: bool) -> (r: KeyLookup)
    ensures
        (r.name@, r.case_insensitive) == lookup_of(name@, shift),
{
    let chars = chars_of(name);
    if chars.len() == 1 && ascii_is_alphabetic(chars[0]) {
        let c = if shift { ascii_upper(chars[0]) } else { ascii_lower(chars[0]) };
        let v: Vec<char> = vec![c];
        assert(v@ == seq![c]);
        KeyLookup { name: string_from_chars(v.as_slice()), case_insensitive: false }
    } else {
        KeyLookup { name: name.to_owned(), case_insensitive: true }
    }
}

/// Parses a shortcut spec like `"ctrl+shift+left"` into its modifiers and
/// the lookup for its key. The last `+`-separated part is the key; the ones
/// before it are modifier names (`ctrl`/`control`, `alt`, `shift`,
/// `super`/`logo`/`meta`/`win`, in any ASCII case).
pub fn parse_binding(spec: &str) -> (r: Option<(KeyModifiers, KeyLookup)>)
    ensures
        match spec_parse_binding(spec@) {
            None => r is None,
            Some((m, name, ci)) => r matches Some((rm, k)) && rm == m && k.name@ == name
                && k.case_insensitive == ci,
        },
{
    let chars = chars_of(spec);
    let mut parts: Vec<Vec<char>> = Vec::new();
    let mut cur: Vec<char> = Vec::new();
    for i in 0..chars.len()
        invariant
            chars@ == spec@,
            (parts@.map_values(|p: Vec<char>| p@), cur@) == scan_plus(chars@.take(i as int)),
    {
        let c = chars[i];
        proof {
            assert(chars@.take(i + 1).drop_last() == chars@.take(i as int));
            assert(chars@.take(i + 1).last() == c);
        }
        if c == '+' {
            keep_part_exec(&mut parts, &cur);
            cur = Vec::new();
        } else {
            cur.push(c);
        }
    }
    assert(chars@.take(chars.len() as int) == chars@);
    keep_part_exec(&mut parts, &cur);
    let ghost all = parts@.map_values(|p: Vec<char>| p@);
    assert(all == binding_parts(spec@));
    if parts.len() == 0 {
        return None;
    }
    let last = parts.len() - 1;
    let mut mods = KeyModifiers { ctrl: false, alt: false, shift: false, logo: false };
    for i in 0..last
        invariant
            last + 1 == parts@.len(),
            all == parts@.map_values(|p: Vec<char>| p@),
            all == binding_parts(spec@),
            modifiers_of(all.take(i as int)) == Some(mods),
    {
        proof {
            assert(all.take(i + 1).drop_last() == all.take(i as int));
            assert(all.take(i + 1).last() == parts@[i as int]@);
        }
        match add_modifier_exec(mods, &parts[i]) {
            Some(m) => {
                mods = m;
            },
            None => {
                proof {
                    lemma_modifiers_stay_unknown(all, i as int + 1);
                    assert(modifiers_of(all.take(last as int)) is None);
                    assert(all.drop_last() == all.take(last as int));
                }
                return None;
            },
        }
    }
    assert(all.drop_last() == all.take(last as int));
    let key = string_from_chars(parts[last].as_slice());
    let lookup = key_lookup(key.as_str(), mods.shift);
    Some((mods, lookup))
}

/// Once a modifier part is unknown, no longer prefix has modifiers either.
proof fn lemma_modifiers_stay_unknown(parts: Seq<Seq<char>>, k: int)
    requires
        0 <= k <= parts.len(),
        modifiers_of(parts.take(k)) is None,
    ensures
        forall|j: int| k <= j <= parts.len() ==> modifiers_of(#[trigger] parts.take(j)) is None,
    decreases parts.len() - k,
{
    if k < parts.len() {
        assert(parts.take(k + 1).drop_last() == parts.take(k));
        lemma_modifiers_stay_unknown(parts, k + 1);
    }
    assert forall|j: int| k <= j <= parts.len() implies modifiers_of(#[trigger] parts.take(j)) is None by {
        if j == k {
        } else {
            assert(parts.take(j) == parts.take(j));
        }
    }
}

/// A key binding with its key resolved: the modifiers and keysym it fires
/// on, and the name of the action it runs.
#[derive(Debug, Clone)]
pub struct Keybinding {
    pub modifiers: KeyModifiers,
    pub keysym: u32,
    pub action: String,
}

/// A configured binding whose key still has to be looked up.
#[derive(Debug, Clone)]
pub struct BindingRequest {
    pub modifiers: KeyModifiers,
    pub key: KeyLookup,
    pub action: String,
}

impl Keybinding {
    /// Completes a binding with the keysym its lookup returned; a lookup
    /// that found nothing (keysym 0) leaves no binding.
    pub fn from_lookup(request: BindingRequest, keysym: u32) -> (r: Option<Keybinding>)
        ensures
            keysym == 0 ==> r is None,
            keysym != 0 ==> (r matches Some(b) && b.modifiers == request.modifiers && b.keysym == keysym
                && b.action@ == request.action@),
    {
        if keysym == 0 {
            None
        } else {
            Some(Keybinding { modifiers: request.modifiers, keysym, action: request.action })
        }
    }
}

/// A table keyed by name, read as a sequence of (name, value) pairs.
pub open spec fn keyed<V>(e: Seq<(String, V)>) -> Seq<(Seq<char>, V)> {
    e.map_values(|p: (String, V)| (p.0@, p.1))
}

/// The value stored under `key`, the last entry winning, as in a map that
/// each entry was inserted into in turn.
pub open spec fn lookup<V>(e: Seq<(Seq<char>, V)>, key: Seq<char>) -> Option<V>
    decreases e.len(),
{
    if e.len() == 0 {
        None
    } else if e.last().0 == key {
        Some(e.last().1)
    } else {
        lookup(e.drop_last(), key)
    }
}

/// No name occurs twice.
pub open spec fn distinct_keys<V>(e: Seq<(Seq<char>, V)>) -> bool {
    forall|i: int, j: int| 0 <= i < j < e.len() ==> e[i].0 != e[j].0
}

pub proof fn lemma_lookup_index<V>(e: Seq<(Seq<char>, V)>, key: Seq<char>)
    ensures
        lookup(e, key) is Some <==> exists|i: int| 0 <= i < e.len() && e[i].0 == key,
        distinct_keys(e) ==> forall|i: int| 0 <= i < e.len() && e[i].0 == key
            ==> lookup(e, key) == Some(e[i].1),
    decreases e.len(),
{
    if e.len() > 0 {
        let d = e.drop_last();
        lemma_lookup_index(d, key);
        if e.last().0 != key {
            if exists|i: int| 0 <= i < e.len() && e[i].0 == key {
                let i = choose|i: int| 0 <= i < e.len() && e[i].0 == key;
                assert(d[i].0 == key);
            }
        } else {
            assert(e[e.len() - 1].0 == key);
        }
        if distinct_keys(e) {
            assert(distinct_keys(d));
            assert forall|i: int| 0 <= i < e.len() && e[i].0 == key implies lookup(e, key) == Some(e[i].1) by {
                if i < e.len() - 1 {
                    assert(e[i].0 != e[e.len() - 1].0);
                    assert(d[i] == e[i]);
                }
            }
        }
    }
}

/// Looking up in a table whose values were all mapped through `f` gives the
/// mapped value.
pub proof fn lemma_lookup_map<V, W>(e: Seq<(Seq<char>, V)>, f: spec_fn(V) -> W, key: Seq<char>)
    ensures
        lookup(e.map_values(|p: (Seq<char>, V)| (p.0, f(p.1))), key) == match lookup(e, key) {
            Some(v) => Some(f(v)),
            None => None,
        },
    decreases e.len(),
{
    let m = e.map_values(|p: (Seq<char>, V)| (p.0, f(p.1)));
    if e.len() > 0 {
        lemma_lookup_map(e.drop_last(), f, key);
        assert(m.drop_last() == e.drop_last().map_values(|p: (Seq<char>, V)| (p.0, f(p.1))));
    }
}

/// Looking up `key` gives the last entry named `key`.
fn find_last<V>(entries: &Vec<(String, V)>, key: &String) -> (r: Option<usize>)
    ensures
        match r {
            Some(i) => i < entries@.len() && entries@[i as int].0@ == key@
                && lookup(keyed(entries@), key@) == Some(entries@[i as int].1),
            None => lookup(keyed(entries@), key@) is None,
        },
{
    let mut i = entries.len();
    assert(entries@.take(i as int) == entries@);
    while i > 0
        invariant
            i <= entries@.len(),
            lookup(keyed(entries@), key@) == lookup(keyed(entries@.take(i as int)), key@),
        decreases i,
    {
        let ghost t = entries@.take(i as int);
        proof {
            assert(keyed(t).drop_last() == keyed(entries@.take(i - 1)));
            assert(keyed(t).last() == (entries@[i - 1].0@, entries@[i - 1].1));
        }
        if entries[i - 1].0 == *key {
            return Some(i - 1);
        }
        i = i - 1;
    }
    None
}

/// Inserts `value` under `key`, replacing the value already stored there.
fn insert_entry<V>(entries: &mut Vec<(String, V)>, key: String, value: V)
    requires
        distinct_keys(keyed(old(entries)@)),
    ensures
        distinct_keys(keyed(final(entries)@)),
        forall|k: Seq<char>| #[trigger] lookup(keyed(final(entries)@), k) == if k == key@ {
            Some(value)
        } else {
            lookup(keyed(old(entries)@), k)
        },
{
    let ghost before = keyed(entries@);
    proof {
        lemma_lookup_index(before, key@);
    }
    match find_last(entries, &key) {
        Some(i) => {
            let ghost k0 = key@;
            entries.set(i, (key, value));
            let ghost after = keyed(entries@);
            assert(after == before.update(i as int, (k0, value)));
            assert forall|a: int, b: int| 0 <= a < b < after.len() implies after[a].0 != after[b].0 by {
                assert(after[a].0 == before[a].0);
                assert(after[b].0 == before[b].0);
            }
            assert forall|k: Seq<char>| #[trigger] lookup(after, k) == if k == k0 {
                Some(value)
            } else {
                lookup(before, k)
            } by {
                lemma_lookup_index(after, k);
                lemma_lookup_index(before, k);
                if k == k0 {
                    assert(after[i as int].0 == k);
                } else {
                    if lookup(before, k) is Some {
                        let j = choose|j: int| 0 <= j < before.len() && before[j].0 == k;
                        assert(after[j] == before[j]);
                    }
                    if lookup(after, k) is Some {
                        let j = choose|j: int| 0 <= j < after.len() && after[j].0 == k;
                        assert(after[j] == before[j]);
                    }
                }
            }
        },
        None => {
            let ghost k0 = key@;
            entries.push((key, value));
            let ghost after = keyed(entries@);
            assert(after == before.push((k0, value)));
            assert(after.drop_last() == before);
            assert forall|i: int, j: int| 0 <= i < j < after.len() implies after[i].0 != after[j].0 by {
                if j == after.len() - 1 {
                    assert(before[i].0 != k0);
                }
            }
        },
    }
}

/// Inserts every entry of `src`, in order, into `dst`.
fn merge_entries<V>(dst: &mut Vec<(String, V)>, src: Vec<(String, V)>)
    requires
        distinct_keys(keyed(old(dst)@)),
    ensures
        distinct_keys(keyed(final(dst)@)),
        forall|k: Seq<char>| #[trigger] lookup(keyed(final(dst)@), k) == match lookup(keyed(src@), k) {
            Some(v) => Some(v),
            None => lookup(keyed(old(dst)@), k),
        },
{
    let ghost orig = src@;
    let ghost start = keyed(dst@);
    let n = src.len();
    let mut rest = src;
    let mut i: usize = 0;
    while rest.len() > 0
        invariant
            i + rest@.len() == orig.len(),
            orig.len() == n,
            rest@ == orig.skip(i as int),
            distinct_keys(keyed(dst@)),
            forall|k: Seq<char>| #[trigger] lookup(keyed(dst@), k) == match lookup(keyed(orig.take(i as int)), k) {
                Some(v) => Some(v),
                None => lookup(start, k),
            },
        decreases rest@.len(),
    {
        let (key, value) = rest.remove(0);
        proof {
            assert(orig[i as int] == (key, value));
            assert(keyed(orig.take(i + 1)).drop_last() == keyed(orig.take(i as int)));
            assert(keyed(orig.take(i + 1)).last() == (key@, value));
            assert(rest@ == orig.skip(i + 1));
        }
        insert_entry(dst, key, value);
        i = i + 1;
    }
    assert(orig.take(i as int) == orig);
}

/// The terminal run by `run_terminal` unless the settings name another.
pub open spec fn spec_default_terminal() -> Seq<char> {
    "weston-terminal"@
}

pub fn default_terminal() -> (r: String)
    ensures
        r@ == spec_default_terminal(),
{
    "weston-terminal".to_owned()
}

/// A shortcut table with names and key combinations as character sequences.
pub open spec fn shortcut_table(e: Seq<(String, Vec<String>)>) -> Seq<(Seq<char>, Seq<Seq<char>>)> {
    e.map_values(|p: (String, Vec<String>)| (p.0@, string_views(p.1@)))
}

/// The built-in shortcuts: what an empty, missing or partial settings file
/// leaves in place.
pub open spec fn spec_default_shortcuts() -> Seq<(Seq<char>, Seq<Seq<char>>)> {
    seq![
        ("quit"@, seq!["super+alt+backspace"@, "super+q"@]),
        ("run_terminal"@, seq!["super+c"@]),
        ("toggle_launcher"@, seq!["super+space"@]),
        ("toggle_floating"@, seq!["super+shift+space"@]),
        ("kill_window"@, seq!["super+x"@]),
        ("focus_left"@, seq!["super+left"@]),
        ("focus_right"@, seq!["super+right"@]),
        ("focus_up"@, seq!["super+up"@]),
        ("focus_down"@, seq!["super+down"@]),
        ("swap_left"@, seq!["super+shift+left"@]),
        ("swap_right"@, seq!["super+shift+right"@]),
        ("swap_up"@, seq!["super+shift+up"@]),
        ("swap_down"@, seq!["super+shift+down"@]),
        ("resize_left"@, seq!["super+alt+left"@]),
        ("resize_right"@, seq!["super+alt+right"@]),
        ("resize_up"@, seq!["super+alt+up"@]),
        ("resize_down"@, seq!["super+alt+down"@]),
        ("scale_up"@, seq!["super+shift+p"@]),
        ("scale_down"@, seq!["super+shift+m"@]),
        ("toggle_preview"@, seq!["super+shift+w"@]),
        ("rotate_output"@, seq!["super+shift+r"@]),
        ("toggle_tint"@, seq!["super+shift+t"@]),
        ("toggle_decorations"@, seq!["super+shift+d"@])
    ]
}

/// Every action name the compositor understands.
pub open spec fn spec_known_actions() -> Seq<Seq<char>> {
    seq![
        "quit"@,
        "run_terminal"@,
        "toggle_launcher"@,
        "toggle_floating"@,
        "kill_window"@,
        "focus_left"@,
        "focus_right"@,
        "focus_up"@,
        "focus_down"@,
        "swap_left"@,
        "swap_right"@,
        "swap_up"@,
        "swap_down"@,
        "resize_left"@,
        "resize_right"@,
        "resize_up"@,
        "resize_down"@,
        "scale_up"@,
        "scale_down"@,
        "toggle_preview"@,
        "rotate_output"@,
        "toggle_tint"@,
        "toggle_decorations"@
    ]
}

fn shortcut(action: &str, key: &str) -> (r: (String, Vec<String>))
    ensures
        r.0@ == action@,
        string_views(r.1@) == seq![key@],
{
    let mut keys: Vec<String> = Vec::new();
    keys.push(key.to_owned());
    assert(string_views(keys@) =~= seq![key@]);
    (action.to_owned(), keys)
}

/// The built-in shortcuts, one entry per action.
pub fn default_shortcuts() -> (r: Vec<(String, Vec<String>)>)
    ensures
        shortcut_table(r@) == spec_default_shortcuts(),
{
    let mut v: Vec<(String, Vec<String>)> = Vec::new();
    v.push(shortcut("quit", "super+alt+backspace"));
    v.push(shortcut("run_terminal", "super+c"));
    v.push(shortcut("toggle_launcher", "super+space"));
    v.push(shortcut("toggle_floating", "super+shift+space"));
    v.push(shortcut("kill_window", "super+x"));
    v.push(shortcut("focus_left", "super+left"));
    v.push(shortcut("focus_right", "super+right"));
    v.push(shortcut("focus_up", "super+up"));
    v.push(shortcut("focus_down", "super+down"));
    v.push(shortcut("swap_left", "super+shift+left"));
    v.push(shortcut("swap_right", "super+shift+right"));
    v.push(shortcut("swap_up", "super+shift+up"));
    v.push(shortcut("swap_down", "super+shift+down"));
    v.push(shortcut("resize_left", "super+alt+left"));
    v.push(shortcut("resize_right", "super+alt+right"));
    v.push(shortcut("resize_up", "super+alt+up"));
    v.push(shortcut("resize_down", "super+alt+down"));
    v.push(shortcut("scale_up", "super+shift+p"));
    v.push(shortcut("scale_down", "super+shift+m"));
    v.push(shortcut("toggle_preview", "super+shift+w"));
    v.push(shortcut("rotate_output", "super+shift+r"));
    v.push(shortcut("toggle_tint", "super+shift+t"));
    v.push(shortcut("toggle_decorations", "super+shift+d"));
    let ghost before = v@[0].1@;
    let second = "super+q".to_owned();
    v[0].1.push(second);
    proof {
        assert(v@[0].1@ == before.push(second));
        assert(string_views(before) == seq!["super+alt+backspace"@]);
        assert(string_views(before).len() == 1);
        assert(string_views(before)[0] == before[0]@);
        assert(string_views(v@[0].1@) =~= seq!["super+alt+backspace"@, "super+q"@]);
    }
    assert(shortcut_table(v@) =~= spec_default_shortcuts());
    v
}

/// All action names the compositor understands, in the order of the
/// built-in shortcut table.
pub fn known_actions() -> (r: Vec<&'static str>)
    ensures
        r@.map_values(|a: &str| a@) == spec_known_actions(),
{
    let mut v: Vec<&'static str> = Vec::new();
    v.push("quit");
    v.push("run_terminal");
    v.push("toggle_launcher");
    v.push("toggle_floating");
    v.push("kill_window");
    v.push("focus_left");
    v.push("focus_right");
    v.push("focus_up");
    v.push("focus_down");
    v.push("swap_left");
    v.push("swap_right");
    v.push("swap_up");
    v.push("swap_down");
    v.push("resize_left");
    v.push("resize_right");
    v.push("resize_up");
    v.push("resize_down");
    v.push("scale_up");
    v.push("scale_down");
    v.push("toggle_preview");
    v.push("rotate_output");
    v.push("toggle_tint");
    v.push("toggle_decorations");
    assert(v@.map_values(|a: &str| a@) =~= spec_known_actions());
    v
}

/// The settings file as written: every key optional.
#[derive(Debug, Clone)]
pub struct RawConfig {
    pub keyboard: KeyboardSettings,
    pub terminal: Option<String>,
    pub top_bar: bool,
    pub shortcuts: Vec<(String, Vec<String>)>,
    pub outputs: Vec<(String, OutputSettings)>,
}

/// The settings in effect.
#[derive(Debug, Clone)]
pub struct Config {
    pub keyboard: KeyboardSettings,
    pub terminal: String,
    /// Whether an external top bar should be started alongside the
    /// compositor; the compositor itself never draws one.
    pub top_bar: bool,
    /// Action name and the key combinations bound to it. Every action of
    /// the built-in table has an entry unless the settings replaced it.
    pub shortcuts: Vec<(String, Vec<String>)>,
    /// Connector name and its settings; outputs not listed use the
    /// defaults.
    pub outputs: Vec<(String, OutputSettings)>,
}

/// An output table with names as character sequences.
pub open spec fn output_table(e: Seq<(String, OutputSettings)>) -> Seq<(Seq<char>, OutputSettingsView)> {
    e.map_values(|p: (String, OutputSettings)| (p.0@, p.1@))
}

/// The key combinations bound to `action` after `raw` has been read over
/// the built-in table: the file's entry replaces the built-in one, and
/// actions the file does not name keep theirs.
pub open spec fn merged_shortcut(raw: Seq<(Seq<char>, Seq<Seq<char>>)>, action: Seq<char>) -> Option<Seq<Seq<char>>> {
    match lookup(raw, action) {
        Some(keys) => Some(keys),
        None => lookup(spec_default_shortcuts(), action),
    }
}

impl Config {
    /// No action and no output is listed twice.
    pub open spec fn wf(&self) -> bool {
        &&& distinct_keys(shortcut_table(self.shortcuts@))
        &&& distinct_keys(output_table(self.outputs@))
    }
}

/// The built-in table names each action once.
proof fn lemma_default_names_distinct()
    ensures
        distinct_keys(spec_default_shortcuts()),
{
    law_known_actions_are_distinct();
    law_default_shortcuts_name_the_known_actions();
    let d = spec_default_shortcuts();
    let names = d.map_values(|e: (Seq<char>, Seq<Seq<char>>)| e.0);
    assert forall|i: int, j: int| 0 <= i < j < d.len() implies d[i].0 != d[j].0 by {
        assert(names[i] == d[i].0);
        assert(names[j] == d[j].0);
    }
}

/// `c` holds the built-in settings: empty keyboard settings (the keymap
/// compiler's defaults), the default terminal, no top bar, the built-in
/// shortcuts and no output settings.
pub open spec fn is_default_config(c: Config) -> bool {
    &&& c.keyboard.rules@.len() == 0
    &&& c.keyboard.model@.len() == 0
    &&& c.keyboard.layout@.len() == 0
    &&& c.keyboard.variant@.len() == 0
    &&& c.keyboard.options@.len() == 0
    &&& c.terminal@ == spec_default_terminal()
    &&& !c.top_bar
    &&& shortcut_table(c.shortcuts@) == spec_default_shortcuts()
    &&& c.outputs@.len() == 0
    &&& c.wf()
}

/// `c` holds the settings a settings file describes: its keyboard settings
/// and top-bar flag, its terminal or else the default one, the built-in
/// shortcuts with the file's entries laid over them, and its output
/// settings, each name once.
pub open spec fn is_config_of(c: Config, raw: RawConfig) -> bool {
    &&& c.keyboard == raw.keyboard
    &&& c.terminal@ == match raw.terminal {
        Some(t) => t@,
        None => spec_default_terminal(),
    }
    &&& c.top_bar == raw.top_bar
    &&& c.wf()
    &&& forall|action: Seq<char>| #[trigger] lookup(shortcut_table(c.shortcuts@), action)
        == merged_shortcut(shortcut_table(raw.shortcuts@), action)
    &&& forall|name: Seq<char>| #[trigger] lookup(output_table(c.outputs@), name)
        == lookup(output_table(raw.outputs@), name)
}

/// What reading one candidate settings file gave.
pub enum ConfigFile {
    /// No file at that path.
    Missing,
    /// The file exists but could not be read.
    Unreadable,
    /// The file was read but does not parse.
    Malformed,
    /// The file's settings.
    Read(RawConfig),
}

/// What to do after reading one candidate settings file.
pub enum ConfigStep {
    /// Go on to the next path of the search.
    TryNext,
    /// Stop the search and use these settings.
    Use(Config),
}

/// One step of the search for the settings file: a missing or unreadable
/// file sends the search on, a malformed one ends it with the built-in
/// settings, and a parsed one ends it with its settings.
pub fn config_step(file: ConfigFile) -> (r: ConfigStep)
    ensures
        match file {
            ConfigFile::Missing | ConfigFile::Unreadable => r is TryNext,
            ConfigFile::Malformed => r matches ConfigStep::Use(c) && is_default_config(c),
            ConfigFile::Read(raw) => r matches ConfigStep::Use(c) && is_config_of(c, raw),
        },
{
    match file {
        ConfigFile::Missing | ConfigFile::Unreadable => ConfigStep::TryNext,
        ConfigFile::Malformed => ConfigStep::Use(Config::default()),
        ConfigFile::Read(raw) => ConfigStep::Use(Config::from_raw(raw)),
    }
}

impl Default for Config {
    fn default() -> (r: Self)
        ensures
            is_default_config(r),
    {
        proof {
            lemma_default_names_distinct();
        }
        Config {
            keyboard: KeyboardSettings::default(),
            terminal: default_terminal(),
            top_bar: false,
            shortcuts: default_shortcuts(),
            outputs: Vec::new(),
        }
    }
}

proof fn lemma_shortcut_lookup(e: Seq<(String, Vec<String>)>, key: Seq<char>)
    ensures
        lookup(shortcut_table(e), key) == match lookup(keyed(e), key) {
            Some(v) => Some(string_views(v@)),
            None => None,
        },
{
    let f = |v: Vec<String>| string_views(v@);
    lemma_lookup_map(keyed(e), f, key);
    assert(shortcut_table(e) =~= keyed(e).map_values(|p: (Seq<char>, Vec<String>)| (p.0, f(p.1))));
}

proof fn lemma_output_lookup(e: Seq<(String, OutputSettings)>, key: Seq<char>)
    ensures
        lookup(output_table(e), key) == match lookup(keyed(e), key) {
            Some(v) => Some(v@),
            None => None,
        },
{
    let f = |v: OutputSettings| v@;
    lemma_lookup_map(keyed(e), f, key);
    assert(output_table(e) =~= keyed(e).map_values(|p: (Seq<char>, OutputSettings)| (p.0, f(p.1))));
}

impl Config {
    /// The settings described by a settings file: the built-in shortcuts
    /// with the file's entries laid over them, and the default terminal
    /// unless the file names one.
    pub fn from_raw(raw: RawConfig) -> (r: Config)
        ensures
            is_config_of(r, raw),
    {
        let ghost raw_shortcuts = raw.shortcuts@;
        let ghost raw_outputs = raw.outputs@;
        let defaults = default_shortcuts();
        let ghost default_entries = defaults@;
        let mut shortcuts: Vec<(String, Vec<String>)> = Vec::new();
        merge_entries(&mut shortcuts, defaults);
        merge_entries(&mut shortcuts, raw.shortcuts);
        let mut outputs: Vec<(String, OutputSettings)> = Vec::new();
        merge_entries(&mut outputs, raw.outputs);
        let terminal = match raw.terminal {
            Some(t) => t,
            None => default_terminal(),
        };
        proof {
            assert forall|action: Seq<char>| #[trigger] lookup(shortcut_table(shortcuts@), action)
                == merged_shortcut(shortcut_table(raw_shortcuts), action) by {
                lemma_shortcut_lookup(shortcuts@, action);
                lemma_shortcut_lookup(raw_shortcuts, action);
                lemma_shortcut_lookup(default_entries, action);
                assert(lookup(keyed(Seq::<(String, Vec<String>)>::empty()), action) is None);
            }
            assert forall|name: Seq<char>| #[trigger] lookup(output_table(outputs@), name)
                == lookup(output_table(raw_outputs), name) by {
                lemma_output_lookup(outputs@, name);
                lemma_output_lookup(raw_outputs, name);
                assert(lookup(keyed(Seq::<(String, OutputSettings)>::empty()), name) is None);
            }
            assert(shortcut_table(shortcuts@).map_values(|p: (Seq<char>, Seq<Seq<char>>)| p.0)
                =~= keyed(shortcuts@).map_values(|p: (Seq<char>, Vec<String>)| p.0));
            assert forall|i: int, j: int| 0 <= i < j < shortcut_table(shortcuts@).len()
                implies shortcut_table(shortcuts@)[i].0 != shortcut_table(shortcuts@)[j].0 by {
                assert(keyed(shortcuts@)[i].0 != keyed(shortcuts@)[j].0);
            }
            assert forall|i: int, j: int| 0 <= i < j < output_table(outputs@).len()
                implies output_table(outputs@)[i].0 != output_table(outputs@)[j].0 by {
                assert(keyed(outputs@)[i].0 != keyed(outputs@)[j].0);
            }
        }
        Config { keyboard: raw.keyboard, terminal, top_bar: raw.top_bar, shortcuts, outputs }
    }

    /// Settings for the output named `name`, or the defaults (auto-placed,
    /// extended, not primary) if it is not configured.
    pub fn output_settings(&self, name: &str) -> (r: OutputSettings)
        ensures
            r@ == match lookup(output_table(self.outputs@), name@) {
                Some(s) => s,
                None => default_output_settings(),
            },
    {
        let key = name.to_owned();
        proof {
            lemma_output_lookup(self.outputs@, name@);
        }
        match find_last(&self.outputs, &key) {
            Some(i) => self.outputs[i].1.duplicate(),
            None => OutputSettings::default(),
        }
    }

    /// Name of the first output marked primary, if any.
    pub fn primary_output_name(&self) -> (r: Option<&str>)
        ensures
            match r {
                Some(n) => exists|i: int| 0 <= i < self.outputs@.len() && self.outputs@[i].1.primary
                    && self.outputs@[i].0@ == n@ && forall|j: int| 0 <= j < i ==> !self.outputs@[j].1.primary,
                None => forall|i: int| 0 <= i < self.outputs@.len() ==> !self.outputs@[i].1.primary,
            },
    {
        for i in 0..self.outputs.len()
            invariant
                forall|j: int| 0 <= j < i ==> !self.outputs@[j].1.primary,
        {
            if self.outputs[i].1.primary {
                return Some(self.outputs[i].0.as_str());
            }
        }
        None
    }
}

/// A binding request by its values: modifiers, key lookup name, whether
/// case may be ignored, and action.
pub open spec fn request_view(r: BindingRequest) -> (KeyModifiers, Seq<char>, bool, Seq<char>) {
    (r.modifiers, r.key.name@, r.key.case_insensitive, r.action@)
}

/// The bindings of one action, in the order of its key combinations, those
/// that do not parse left out.
pub open spec fn requests_of(action: Seq<char>, specs: Seq<Seq<char>>) -> Seq<(KeyModifiers, Seq<char>, bool, Seq<char>)>
    decreases specs.len(),
{
    if specs.len() == 0 {
        seq![]
    } else {
        let rest = requests_of(action, specs.drop_last());
        match spec_parse_binding(specs.last()) {
            Some((m, name, ci)) => rest.push((m, name, ci, action)),
            None => rest,
        }
    }
}

/// The bindings of a shortcut table, entry by entry; entries whose action
/// is not known are left out.
pub open spec fn all_requests(table: Seq<(Seq<char>, Seq<Seq<char>>)>) -> Seq<(KeyModifiers, Seq<char>, bool, Seq<char>)>
    decreases table.len(),
{
    if table.len() == 0 {
        seq![]
    } else {
        let (action, specs) = table.last();
        all_requests(table.drop_last()) + if spec_known_actions().contains(action) {
            requests_of(action, specs)
        } else {
            seq![]
        }
    }
}

fn is_known_action(action: &String) -> (r: bool)
    ensures
        r == spec_known_actions().contains(action@),
{
    let known = known_actions();
    let ghost names = known@.map_values(|a: &str| a@);
    for i in 0..known.len()
        invariant
            names == spec_known_actions(),
            names == known@.map_values(|a: &str| a@),
            forall|j: int| 0 <= j < i ==> names[j] != action@,
    {
        let name = known[i].to_owned();
        assert(name@ == names[i as int]);
        if name == *action {
            return true;
        }
    }
    false
}

impl Config {
    /// Parses every configured binding of a known action into its modifiers
    /// and key lookup; bindings that do not parse and actions that are not
    /// known are skipped.
    pub fn parsed_keybindings(&self) -> (r: Vec<BindingRequest>)
        ensures
            r@.map_values(|b: BindingRequest| request_view(b)) == all_requests(shortcut_table(self.shortcuts@)),
    {
        let ghost table = shortcut_table(self.shortcuts@);
        let mut out: Vec<BindingRequest> = Vec::new();
        for i in 0..self.shortcuts.len()
            invariant
                table == shortcut_table(self.shortcuts@),
                out@.map_values(|b: BindingRequest| request_view(b)) == all_requests(table.take(i as int)),
        {
            let (action, specs) = (&self.shortcuts[i].0, &self.shortcuts[i].1);
            proof {
                assert(table.take(i + 1).drop_last() == table.take(i as int));
                assert(table.take(i + 1).last() == (action@, string_views(specs@)));
            }
            if is_known_action(action) {
                let ghost start = out@.map_values(|b: BindingRequest| request_view(b));
                for k in 0..specs.len()
                    invariant
                        out@.map_values(|b: BindingRequest| request_view(b)) == start + requests_of(
                            action@,
                            string_views(specs@).take(k as int),
                        ),
                {
                    let ghost before = out@;
                    proof {
                        let sv = string_views(specs@);
                        assert(sv.take(k + 1).drop_last() == sv.take(k as int));
                        assert(sv.take(k + 1).last() == specs@[k as int]@);
                    }
                    match parse_binding(specs[k].as_str()) {
                        Some((modifiers, key)) => {
                            out.push(BindingRequest { modifiers, key, action: action.clone() });
                            assert(out@.map_values(|b: BindingRequest| request_view(b))
                                =~= before.map_values(|b: BindingRequest| request_view(b)).push(
                                request_view(out@.last()),
                            ));
                        },
                        None => {},
                    }
                }
                assert(string_views(specs@).take(specs@.len() as int) == string_views(specs@));
            }
        }
        assert(table.take(self.shortcuts@.len() as int) == table);
        out
    }
}

/// A resolved binding by its values: modifiers, keysym and action.
pub open spec fn binding_view(b: Keybinding) -> (KeyModifiers, u32, Seq<char>) {
    (b.modifiers, b.keysym, b.action@)
}

/// The bindings that `reqs` give once the `i`-th has the keysym
/// `keysyms[i]`: a request whose lookup found no keysym (0) gives none, the
/// others keep their order.
pub open spec fn resolved(
    reqs: Seq<(KeyModifiers, Seq<char>, bool, Seq<char>)>,
    keysyms: Seq<u32>,
) -> Seq<(KeyModifiers, u32, Seq<char>)>
    decreases reqs.len(),
{
    if reqs.len() == 0 {
        seq![]
    } else {
        let n = reqs.len() - 1;
        let rest = resolved(reqs.take(n), keysyms);
        if keysyms[n] == 0 {
            rest
        } else {
            rest.push((reqs[n].0, keysyms[n], reqs[n].3))
        }
    }
}

/// Completes each binding request with the keysym found for its key
/// (`keysyms[i]` for `requests[i]`), dropping those whose key names no
/// keysym.
pub fn resolve_keybindings(requests: Vec<BindingRequest>, keysyms: &Vec<u32>) -> (r: Vec<Keybinding>)
    requires
        requests.len() == keysyms.len(),
    ensures
        r@.map_values(|b: Keybinding| binding_view(b)) == resolved(
            requests@.map_values(|q: BindingRequest| request_view(q)),
            keysyms@,
        ),
{
    let ghost reqs = requests@.map_values(|q: BindingRequest| request_view(q));
    let mut out: Vec<Keybinding> = Vec::new();
    let mut i: usize = 0;
    for q in it: requests
        invariant
            i == it.index(),
            it.seq() == requests@,
            reqs == requests@.map_values(|q: BindingRequest| request_view(q)),
            requests.len() == keysyms.len(),
            out@.map_values(|b: Keybinding| binding_view(b)) == resolved(reqs.take(i as int), keysyms@),
    {
        let ghost before = out@;
        proof {
            assert(reqs.take(i + 1).take(i as int) == reqs.take(i as int));
            assert(reqs.take(i + 1)[i as int] == request_view(q));
        }
        match Keybinding::from_lookup(q, keysyms[i]) {
            Some(b) => {
                out.push(b);
                assert(out@.map_values(|b: Keybinding| binding_view(b)) =~= before.map_values(
                    |b: Keybinding| binding_view(b),
                ).push(binding_view(b)));
            },
            None => {},
        }
        i = i + 1;
    }
    assert(reqs.take(reqs.len() as int) == reqs);
    out
}

/// The built-in table binds exactly the known actions, in the same order:
/// the two lists cannot drift apart.
pub proof fn law_default_shortcuts_name_the_known_actions()
    ensures
        spec_default_shortcuts().map_values(|e: (Seq<char>, Seq<Seq<char>>)| e.0) == spec_known_actions(),
{
    assert(spec_default_shortcuts().map_values(|e: (Seq<char>, Seq<Seq<char>>)| e.0) =~= spec_known_actions());
}

/// `k` is a keysym that `lookup` may return for a key looked up as the
/// request `q` says (by `q.1`, ignoring case where `q.2` holds).
pub open spec fn looked_up<F: Fn(&KeyLookup) -> u32>(
    lookup: F,
    q: (KeyModifiers, Seq<char>, bool, Seq<char>),
    k: u32,
) -> bool {
    exists|key: KeyLookup| key.name@ == q.1 && key.case_insensitive == q.2 && #[trigger] lookup.ensures((&key,), k)
}

impl Config {
    /// Every configured binding of a known action whose spec parses, with
    /// its key looked up by `lookup` (the keysym table: 0 where no keysym
    /// has that name); bindings whose key names no keysym are left out.
    pub fn keybindings<F: Fn(&KeyLookup) -> u32>(&self, lookup: F) -> (r: Vec<Keybinding>)
        requires
            forall|key: &KeyLookup| #[trigger] lookup.requires((key,)),
        ensures
            exists|ks: Seq<u32>| {
                &&& ks.len() == all_requests(shortcut_table(self.shortcuts@)).len()
                &&& forall|i: int| 0 <= i < ks.len() ==> #[trigger] looked_up(
                    lookup,
                    all_requests(shortcut_table(self.shortcuts@))[i],
                    ks[i],
                )
                &&& r@.map_values(|b: Keybinding| binding_view(b)) == resolved(
                    all_requests(shortcut_table(self.shortcuts@)),
                    ks,
                )
            },
    {
        let requests = self.parsed_keybindings();
        let ghost reqs = requests@.map_values(|q: BindingRequest| request_view(q));
        let mut keysyms: Vec<u32> = Vec::new();
        for i in 0..requests.len()
            invariant
                reqs == requests@.map_values(|q: BindingRequest| request_view(q)),
                forall|key: &KeyLookup| #[trigger] lookup.requires((key,)),
                keysyms@.len() == i,
                forall|j: int| 0 <= j < i ==> #[trigger] looked_up(lookup, reqs[j], keysyms@[j]),
        {
            let k = lookup(&requests[i].key);
            proof {
                let key = requests@[i as int].key;
                assert(key.name@ == reqs[i as int].1 && key.case_insensitive == reqs[i as int].2);
                assert(lookup.ensures((&key,), k));
            }
            let ghost prev = keysyms@;
            keysyms.push(k);
            proof {
                assert forall|j: int| 0 <= j < i + 1 implies #[trigger] looked_up(lookup, reqs[j], keysyms@[j]) by {
                    if j < i {
                        assert(keysyms@[j] == prev[j]);
                    }
                }
            }
        }
        let r = resolve_keybindings(requests, &keysyms);
        assert(keysyms@.len() == reqs.len());
        r
    }
}

/// The action names at positions `i < j` of the list differ: by length,
/// or else at their first differing character.
proof fn lemma_known_action_differs(i: int, j: int)
    requires
        0 <= i < j < spec_known_actions().len(),
    ensures
        spec_known_actions()[i] != spec_known_actions()[j],
{
    let ka = spec_known_actions();
    reveal_strlit("quit");
    reveal_strlit("run_terminal");
    reveal_strlit("toggle_launcher");
    reveal_strlit("toggle_floating");
    reveal_strlit("kill_window");
    reveal_strlit("focus_left");
    reveal_strlit("focus_right");
    reveal_strlit("focus_up");
    reveal_strlit("focus_down");
    reveal_strlit("swap_left");
    reveal_strlit("swap_right");
    reveal_strlit("swap_up");
    reveal_strlit("swap_down");
    reveal_strlit("resize_left");
    reveal_strlit("resize_right");
    reveal_strlit("resize_up");
    reveal_strlit("resize_down");
    reveal_strlit("scale_up");
    reveal_strlit("scale_down");
    reveal_strlit("toggle_preview");
    reveal_strlit("rotate_output");
    reveal_strlit("toggle_tint");
    reveal_strlit("toggle_decorations");
    if i == 0 {
        if j == 1 {
            assert(ka[0].len() != ka[1].len());
        } else if j == 2 {
            assert(ka[0].len() != ka[2].len());
        } else if j == 3 {
            assert(ka[0].len() != ka[3].len());
        } else if j == 4 {
            assert(ka[0].len() != ka[4].len());
        } else if j == 5 {
            assert(ka[0].len() != ka[5].len());
        } else if j == 6 {
            assert(ka[0].len() != ka[6].len());
        } else if j == 7 {
            assert(ka[0].len() != ka[7].len());
        } else if j == 8 {
            assert(ka[0].len() != ka[8].len());
        } else if j == 9 {
            assert(ka[0].len() != ka[9].len());
        } else if j == 10 {
            assert(ka[0].len() != ka[10].len());
        } else if j == 11 {
            assert(ka[0].len() != ka[11].len());
        } else if j == 12 {
            assert(ka[0].len() != ka[12].len());
        } else if j == 13 {
            assert(ka[0].len() != ka[13].len());
        } else if j == 14 {
            assert(ka[0].len() != ka[14].len());
        } else if j == 15 {
            assert(ka[0].len() != ka[15].len());
        } else if j == 16 {
            assert(ka[0].len() != ka[16].len());
        } else if j == 17 {
            assert(ka[0].len() != ka[17].len());
        } else if j == 18 {
            assert(ka[0].len() != ka[18].len());
        } else if j == 19 {
            assert(ka[0].len() != ka[19].len());
        } else if j == 20 {
            assert(ka[0].len() != ka[20].len());
        } else if j == 21 {
            assert(ka[0].len() != ka[21].len());
        } else {
            assert(ka[0].len() != ka[22].len());
        }
    } else if i == 1 {
        if j == 2 {
            assert(ka[1].len() != ka[2].len());
        } else if j == 3 {
            assert(ka[1].len() != ka[3].len());
        } else if j == 4 {
            assert(ka[1].len() != ka[4].len());
        } else if j == 5 {
            assert(ka[1].len() != ka[5].len());
        } else if j == 6 {
            assert(ka[1].len() != ka[6].len());
        } else if j == 7 {
            assert(ka[1].len() != ka[7].len());
        } else if j == 8 {
            assert(ka[1].len() != ka[8].len());
        } else if j == 9 {
            assert(ka[1].len() != ka[9].len());
        } else if j == 10 {
            assert(ka[1].len() != ka[10].len());
        } else if j == 11 {
            assert(ka[1].len() != ka[11].len());
        } else if j == 12 {
            assert(ka[1].len() != ka[12].len());
        } else if j == 13 {
            assert(ka[1].len() != ka[13].len());
        } else if j == 14 {
            assert(ka[1][1] != ka[14][1]);
        } else if j == 15 {
            assert(ka[1].len() != ka[15].len());
        } else if j == 16 {
            assert(ka[1].len() != ka[16].len());
        } else if j == 17 {
            assert(ka[1].len() != ka[17].len());
        } else if j == 18 {
            assert(ka[1].len() != ka[18].len());
        } else if j == 19 {
            assert(ka[1].len() != ka[19].len());
        } else if j == 20 {
            assert(ka[1].len() != ka[20].len());
        } else if j == 21 {
            assert(ka[1].len() != ka[21].len());
        } else {
            assert(ka[1].len() != ka[22].len());
        }
    } else if i == 2 {
        if j == 3 {
            assert(ka[2][7] != ka[3][7]);
        } else if j == 4 {
            assert(ka[2].len() != ka[4].len());
        } else if j == 5 {
            assert(ka[2].len() != ka[5].len());
        } else if j == 6 {
            assert(ka[2].len() != ka[6].len());
        } else if j == 7 {
            assert(ka[2].len() != ka[7].len());
        } else if j == 8 {
            assert(ka[2].len() != ka[8].len());
        } else if j == 9 {
            assert(ka[2].len() != ka[9].len());
        } else if j == 10 {
            assert(ka[2].len() != ka[10].len());
        } else if j == 11 {
            assert(ka[2].len() != ka[11].len());
        } else if j == 12 {
            assert(ka[2].len() != ka[12].len());
        } else if j == 13 {
            assert(ka[2].len() != ka[13].len());
        } else if j == 14 {
            assert(ka[2].len() != ka[14].len());
        } else if j == 15 {
            assert(ka[2].len() != ka[15].len());
        } else if j == 16 {
            assert(ka[2].len() != ka[16].len());
        } else if j == 17 {
            assert(ka[2].len() != ka[17].len());
        } else if j == 18 {
            assert(ka[2].len() != ka[18].len());
        } else if j == 19 {
            assert(ka[2].len() != ka[19].len());
        } else if j == 20 {
            assert(ka[2].len() != ka[20].len());
        } else if j == 21 {
            assert(ka[2].len() != ka[21].len());
        } else {
            assert(ka[2].len() != ka[22].len());
        }
    } else if i == 3 {
        if j == 4 {
            assert(ka[3].len() != ka[4].len());
        } else if j == 5 {
            assert(ka[3].len() != ka[5].len());
        } else if j == 6 {
            assert(ka[3].len() != ka[6].len());
        } else if j == 7 {
            assert(ka[3].len() != ka[7].len());
        } else if j == 8 {
            assert(ka[3].len() != ka[8].len());
        } else if j == 9 {
            assert(ka[3].len() != ka[9].len());
        } else if j == 10 {
            assert(ka[3].len() != ka[10].len());
        } else if j == 11 {
            assert(ka[3].len() != ka[11].len());
        } else if j == 12 {
            assert(ka[3].len() != ka[12].len());
        } else if j == 13 {
            assert(ka[3].len() != ka[13].len());
        } else if j == 14 {
            assert(ka[3].len() != ka[14].len());
        } else if j == 15 {
            assert(ka[3].len() != ka[15].len());
        } else if j == 16 {
            assert(ka[3].len() != ka[16].len());
        } else if j == 17 {
            assert(ka[3].len() != ka[17].len());
        } else if j == 18 {
            assert(ka[3].len() != ka[18].len());
        } else if j == 19 {
            assert(ka[3].len() != ka[19].len());
        } else if j == 20 {
            assert(ka[3].len() != ka[20].len());
        } else if j == 21 {
            assert(ka[3].len() != ka[21].len());
        } else {
            assert(ka[3].len() != ka[22].len());
        }
    } else if i == 4 {
        if j == 5 {
            assert(ka[4].len() != ka[5].len());
        } else if j == 6 {
            assert(ka[4][0] != ka[6][0]);
        } else if j == 7 {
            assert(ka[4].len() != ka[7].len());
        } else if j == 8 {
            assert(ka[4].len() != ka[8].len());
        } else if j == 9 {
            assert(ka[4].len() != ka[9].len());
        } else if j == 10 {
            assert(ka[4].len() != ka[10].len());
        } else if j == 11 {
            assert(ka[4].len() != ka[11].len());
        } else if j == 12 {
            assert(ka[4].len() != ka[12].len());
        } else if j == 13 {
            assert(ka[4][0] != ka[13][0]);
        } else if j == 14 {
            assert(ka[4].len() != ka[14].len());
        } else if j == 15 {
            assert(ka[4].len() != ka[15].len());
        } else if j == 16 {
            assert(ka[4][0] != ka[16][0]);
        } else if j == 17 {
            assert(ka[4].len() != ka[17].len());
        } else if j == 18 {
            assert(ka[4].len() != ka[18].len());
        } else if j == 19 {
            assert(ka[4].len() != ka[19].len());
        } else if j == 20 {
            assert(ka[4].len() != ka[20].len());
        } else if j == 21 {
            assert(ka[4][0] != ka[21][0]);
        } else {
            assert(ka[4].len() != ka[22].len());
        }
    } else if i == 5 {
        if j == 6 {
            assert(ka[5].len() != ka[6].len());
        } else if j == 7 {
            assert(ka[5].len() != ka[7].len());
        } else if j == 8 {
            assert(ka[5][6] != ka[8][6]);
        } else if j == 9 {
            assert(ka[5].len() != ka[9].len());
        } else if j == 10 {
            assert(ka[5][0] != ka[10][0]);
        } else if j == 11 {
            assert(ka[5].len() != ka[11].len());
        } else if j == 12 {
            assert(ka[5].len() != ka[12].len());
        } else if j == 13 {
            assert(ka[5].len() != ka[13].len());
        } else if j == 14 {
            assert(ka[5].len() != ka[14].len());
        } else if j == 15 {
            assert(ka[5].len() != ka[15].len());
        } else if j == 16 {
            assert(ka[5].len() != ka[16].len());
        } else if j == 17 {
            assert(ka[5].len() != ka[17].len());
        } else if j == 18 {
            assert(ka[5][0] != ka[18][0]);
        } else if j == 19 {
            assert(ka[5].len() != ka[19].len());
        } else if j == 20 {
            assert(ka[5].len() != ka[20].len());
        } else if j == 21 {
            assert(ka[5].len() != ka[21].len());
        } else {
            assert(ka[5].len() != ka[22].len());
        }
    } else if i == 6 {
        if j == 7 {
            assert(ka[6].len() != ka[7].len());
        } else if j == 8 {
            assert(ka[6].len() != ka[8].len());
        } else if j == 9 {
            assert(ka[6].len() != ka[9].len());
        } else if j == 10 {
            assert(ka[6].len() != ka[10].len());
        } else if j == 11 {
            assert(ka[6].len() != ka[11].len());
        } else if j == 12 {
            assert(ka[6].len() != ka[12].len());
        } else if j == 13 {
            assert(ka[6][0] != ka[13][0]);
        } else if j == 14 {
            assert(ka[6].len() != ka[14].len());
        } else if j == 15 {
            assert(ka[6].len() != ka[15].len());
        } else if j == 16 {
            assert(ka[6][0] != ka[16][0]);
        } else if j == 17 {
            assert(ka[6].len() != ka[17].len());
        } else if j == 18 {
            assert(ka[6].len() != ka[18].len());
        } else if j == 19 {
            assert(ka[6].len() != ka[19].len());
        } else if j == 20 {
            assert(ka[6].len() != ka[20].len());
        } else if j == 21 {
            assert(ka[6][0] != ka[21][0]);
        } else {
            assert(ka[6].len() != ka[22].len());
        }
    } else if i == 7 {
        if j == 8 {
            assert(ka[7].len() != ka[8].len());
        } else if j == 9 {
            assert(ka[7].len() != ka[9].len());
        } else if j == 10 {
            assert(ka[7].len() != ka[10].len());
        } else if j == 11 {
            assert(ka[7].len() != ka[11].len());
        } else if j == 12 {
            assert(ka[7].len() != ka[12].len());
        } else if j == 13 {
            assert(ka[7].len() != ka[13].len());
        } else if j == 14 {
            assert(ka[7].len() != ka[14].len());
        } else if j == 15 {
            assert(ka[7].len() != ka[15].len());
        } else if j == 16 {
            assert(ka[7].len() != ka[16].len());
        } else if j == 17 {
            assert(ka[7][0] != ka[17][0]);
        } else if j == 18 {
            assert(ka[7].len() != ka[18].len());
        } else if j == 19 {
            assert(ka[7].len() != ka[19].len());
        } else if j == 20 {
            assert(ka[7].len() != ka[20].len());
        } else if j == 21 {
            assert(ka[7].len() != ka[21].len());
        } else {
            assert(ka[7].len() != ka[22].len());
        }
    } else if i == 8 {
        if j == 9 {
            assert(ka[8].len() != ka[9].len());
        } else if j == 10 {
            assert(ka[8][0] != ka[10][0]);
        } else if j == 11 {
            assert(ka[8].len() != ka[11].len());
        } else if j == 12 {
            assert(ka[8].len() != ka[12].len());
        } else if j == 13 {
            assert(ka[8].len() != ka[13].len());
        } else if j == 14 {
            assert(ka[8].len() != ka[14].len());
        } else if j == 15 {
            assert(ka[8].len() != ka[15].len());
        } else if j == 16 {
            assert(ka[8].len() != ka[16].len());
        } else if j == 17 {
            assert(ka[8].len() != ka[17].len());
        } else if j == 18 {
            assert(ka[8][0] != ka[18][0]);
        } else if j == 19 {
            assert(ka[8].len() != ka[19].len());
        } else if j == 20 {
            assert(ka[8].len() != ka[20].len());
        } else if j == 21 {
            assert(ka[8].len() != ka[21].len());
        } else {
            assert(ka[8].len() != ka[22].len());
        }
    } else if i == 9 {
        if j == 10 {
            assert(ka[9].len() != ka[10].len());
        } else if j == 11 {
            assert(ka[9].len() != ka[11].len());
        } else if j == 12 {
            assert(ka[9][5] != ka[12][5]);
        } else if j == 13 {
            assert(ka[9].len() != ka[13].len());
        } else if j == 14 {
            assert(ka[9].len() != ka[14].len());
        } else if j == 15 {
            assert(ka[9][0] != ka[15][0]);
        } else if j == 16 {
            assert(ka[9].len() != ka[16].len());
        } else if j == 17 {
            assert(ka[9].len() != ka[17].len());
        } else if j == 18 {
            assert(ka[9].len() != ka[18].len());
        } else if j == 19 {
            assert(ka[9].len() != ka[19].len());
        } else if j == 20 {
            assert(ka[9].len() != ka[20].len());
        } else if j == 21 {
            assert(ka[9].len() != ka[21].len());
        } else {
            assert(ka[9].len() != ka[22].len());
        }
    } else if i == 10 {
        if j == 11 {
            assert(ka[10].len() != ka[11].len());
        } else if j == 12 {
            assert(ka[10].len() != ka[12].len());
        } else if j == 13 {
            assert(ka[10].len() != ka[13].len());
        } else if j == 14 {
            assert(ka[10].len() != ka[14].len());
        } else if j == 15 {
            assert(ka[10].len() != ka[15].len());
        } else if j == 16 {
            assert(ka[10].len() != ka[16].len());
        } else if j == 17 {
            assert(ka[10].len() != ka[17].len());
        } else if j == 18 {
            assert(ka[10][1] != ka[18][1]);
        } else if j == 19 {
            assert(ka[10].len() != ka[19].len());
        } else if j == 20 {
            assert(ka[10].len() != ka[20].len());
        } else if j == 21 {
            assert(ka[10].len() != ka[21].len());
        } else {
            assert(ka[10].len() != ka[22].len());
        }
    } else if i == 11 {
        if j == 12 {
            assert(ka[11].len() != ka[12].len());
        } else if j == 13 {
            assert(ka[11].len() != ka[13].len());
        } else if j == 14 {
            assert(ka[11].len() != ka[14].len());
        } else if j == 15 {
            assert(ka[11].len() != ka[15].len());
        } else if j == 16 {
            assert(ka[11].len() != ka[16].len());
        } else if j == 17 {
            assert(ka[11].len() != ka[17].len());
        } else if j == 18 {
            assert(ka[11].len() != ka[18].len());
        } else if j == 19 {
            assert(ka[11].len() != ka[19].len());
        } else if j == 20 {
            assert(ka[11].len() != ka[20].len());
        } else if j == 21 {
            assert(ka[11].len() != ka[21].len());
        } else {
            assert(ka[11].len() != ka[22].len());
        }
    } else if i == 12 {
        if j == 13 {
            assert(ka[12].len() != ka[13].len());
        } else if j == 14 {
            assert(ka[12].len() != ka[14].len());
        } else if j == 15 {
            assert(ka[12][0] != ka[15][0]);
        } else if j == 16 {
            assert(ka[12].len() != ka[16].len());
        } else if j == 17 {
            assert(ka[12].len() != ka[17].len());
        } else if j == 18 {
            assert(ka[12].len() != ka[18].len());
        } else if j == 19 {
            assert(ka[12].len() != ka[19].len());
        } else if j == 20 {
            assert(ka[12].len() != ka[20].len());
        } else if j == 21 {
            assert(ka[12].len() != ka[21].len());
        } else {
            assert(ka[12].len() != ka[22].len());
        }
    } else if i == 13 {
        if j == 14 {
            assert(ka[13].len() != ka[14].len());
        } else if j == 15 {
            assert(ka[13].len() != ka[15].len());
        } else if j == 16 {
            assert(ka[13][7] != ka[16][7]);
        } else if j == 17 {
            assert(ka[13].len() != ka[17].len());
        } else if j == 18 {
            assert(ka[13].len() != ka[18].len());
        } else if j == 19 {
            assert(ka[13].len() != ka[19].len());
        } else if j == 20 {
            assert(ka[13].len() != ka[20].len());
        } else if j == 21 {
            assert(ka[13][0] != ka[21][0]);
        } else {
            assert(ka[13].len() != ka[22].len());
        }
    } else if i == 14 {
        if j == 15 {
            assert(ka[14].len() != ka[15].len());
        } else if j == 16 {
            assert(ka[14].len() != ka[16].len());
        } else if j == 17 {
            assert(ka[14].len() != ka[17].len());
        } else if j == 18 {
            assert(ka[14].len() != ka[18].len());
        } else if j == 19 {
            assert(ka[14].len() != ka[19].len());
        } else if j == 20 {
            assert(ka[14].len() != ka[20].len());
        } else if j == 21 {
            assert(ka[14].len() != ka[21].len());
        } else {
            assert(ka[14].len() != ka[22].len());
        }
    } else if i == 15 {
        if j == 16 {
            assert(ka[15].len() != ka[16].len());
        } else if j == 17 {
            assert(ka[15].len() != ka[17].len());
        } else if j == 18 {
            assert(ka[15].len() != ka[18].len());
        } else if j == 19 {
            assert(ka[15].len() != ka[19].len());
        } else if j == 20 {
            assert(ka[15].len() != ka[20].len());
        } else if j == 21 {
            assert(ka[15].len() != ka[21].len());
        } else {
            assert(ka[15].len() != ka[22].len());
        }
    } else if i == 16 {
        if j == 17 {
            assert(ka[16].len() != ka[17].len());
        } else if j == 18 {
            assert(ka[16].len() != ka[18].len());
        } else if j == 19 {
            assert(ka[16].len() != ka[19].len());
        } else if j == 20 {
            assert(ka[16].len() != ka[20].len());
        } else if j == 21 {
            assert(ka[16][0] != ka[21][0]);
        } else {
            assert(ka[16].len() != ka[22].len());
        }
    } else if i == 17 {
        if j == 18 {
            assert(ka[17].len() != ka[18].len());
        } else if j == 19 {
            assert(ka[17].len() != ka[19].len());
        } else if j == 20 {
            assert(ka[17].len() != ka[20].len());
        } else if j == 21 {
            assert(ka[17].len() != ka[21].len());
        } else {
            assert(ka[17].len() != ka[22].len());
        }
    } else if i == 18 {
        if j == 19 {
            assert(ka[18].len() != ka[19].len());
        } else if j == 20 {
            assert(ka[18].len() != ka[20].len());
        } else if j == 21 {
            assert(ka[18].len() != ka[21].len());
        } else {
            assert(ka[18].len() != ka[22].len());
        }
    } else if i == 19 {
        if j == 20 {
            assert(ka[19].len() != ka[20].len());
        } else if j == 21 {
            assert(ka[19].len() != ka[21].len());
        } else {
            assert(ka[19].len() != ka[22].len());
        }
    } else if i == 20 {
        if j == 21 {
            assert(ka[20].len() != ka[21].len());
        } else {
            assert(ka[20].len() != ka[22].len());
        }
    } else {
        assert(ka[21].len() != ka[22].len());
    }
}

/// No action name is listed twice.
pub proof fn law_known_actions_are_distinct()
    ensures
        spec_known_actions().no_duplicates(),
{
    let ka = spec_known_actions();
    assert forall|i: int, j: int| 0 <= i < ka.len() && 0 <= j < ka.len() && i != j implies ka[i] != ka[j] by {
        if i < j {
            lemma_known_action_differs(i, j);
        } else {
            lemma_known_action_differs(j, i);
        }
    }
}

/// Reading a settings file that rebinds some actions replaces the bindings
/// of exactly those actions; every other action keeps its built-in keys,
/// so every known action stays bound unless the file rebinds it.
pub proof fn law_partial_shortcuts_override_only_named_actions(
    raw: Seq<(Seq<char>, Seq<Seq<char>>)>,
    action: Seq<char>,
)
    ensures
        lookup(raw, action) is Some ==> merged_shortcut(raw, action) == lookup(raw, action),
        lookup(raw, action) is None ==> merged_shortcut(raw, action) == lookup(spec_default_shortcuts(), action),
        spec_known_actions().contains(action) ==> merged_shortcut(raw, action) is Some,
{
    if spec_known_actions().contains(action) {
        law_default_shortcuts_name_the_known_actions();
        let i = choose|i: int| 0 <= i < spec_known_actions().len() && spec_known_actions()[i] == action;
        let d = spec_default_shortcuts();
        assert(d.map_values(|e: (Seq<char>, Seq<Seq<char>>)| e.0)[i] == d[i].0);
        lemma_lookup_index(d, action);
    }
}

/// A binding that holds Shift looks a letter key up by its upper-case
/// keysym (what a shifted key reports), one without Shift by its
/// lower-case keysym, however the letter was cased in the settings.
pub proof fn law_letter_keys_follow_shift(c: char, shift: bool)
    requires
        spec_is_ascii_alphabetic(c),
    ensures
        lookup_of(seq![c], shift) == lookup_of(seq![spec_ascii_upper(c)], shift),
        lookup_of(seq![c], shift) == lookup_of(seq![spec_ascii_lower(c)], shift),
        lookup_of(seq![c], shift).0 == seq![if shift { spec_ascii_upper(c) } else { spec_ascii_lower(c) }],
        spec_is_ascii_upper(lookup_of(seq![c], true).0[0]),
        spec_is_ascii_lower(lookup_of(seq![c], false).0[0]),
        !lookup_of(seq![c], shift).1,
{
    let u = spec_ascii_upper(c);
    let l = spec_ascii_lower(c);
    assert(spec_is_ascii_alphabetic(u));
    assert(spec_is_ascii_alphabetic(l));
    assert(seq![c][0] == c);
    assert(seq![u][0] == u);
    assert(seq![l][0] == l);
    assert(spec_ascii_upper(u) == u);
    assert(spec_ascii_lower(l) == l);
    assert(spec_ascii_upper(l) == u);
    assert(spec_ascii_lower(u) == l);
}



/// A part of a shortcut spec that is read back as it stands: not empty, no
/// `+`, no white space.
pub open spec fn plain_part(p: Seq<char>) -> bool {
    &&& p.len() > 0
    &&& forall|k: int| 0 <= k < p.len() ==> p[k] != '+' && !spec_is_whitespace(#[trigger] p[k])
}

/// Text without `+` appended to a spec only extends the part being read.
proof fn lemma_scan_plus_extend(s: Seq<char>, t: Seq<char>)
    requires
        forall|k: int| 0 <= k < t.len() ==> t[k] != '+',
    ensures
        scan_plus(s + t) == (scan_plus(s).0, scan_plus(s).1 + t),
    decreases t.len(),
{
    if t.len() == 0 {
        assert(s + t =~= s);
        assert(scan_plus(s).1 + t =~= scan_plus(s).1);
    } else {
        let u = t.drop_last();
        lemma_scan_plus_extend(s, u);
        assert((s + t).drop_last() =~= s + u);
        assert((s + t).last() == t.last());
        assert(scan_plus(s).1 + t =~= (scan_plus(s).1 + u).push(t.last()));
    }
}

proof fn lemma_plain_part_trims(p: Seq<char>)
    requires
        plain_part(p),
    ensures
        trim(p) == p,
{
    assert(!spec_is_whitespace(p[0]));
    assert(!spec_is_whitespace(p.last()));
}

/// `a+b` splits into `a` and `b`.
proof fn lemma_parts_of_two(a: Seq<char>, b: Seq<char>)
    requires
        plain_part(a),
        plain_part(b),
    ensures
        binding_parts(a + seq!['+'] + b) == seq![a, b],
{
    let e: Seq<char> = seq![];
    lemma_scan_plus_extend(e, a);
    assert(e + a =~= a);
    let ap = a + seq!['+'];
    assert(ap.drop_last() =~= a);
    lemma_plain_part_trims(a);
    assert(scan_plus(ap) == (seq![a], e));
    lemma_scan_plus_extend(ap, b);
    assert(e + b =~= b);
    lemma_plain_part_trims(b);
    assert(seq![a].push(b) =~= seq![a, b]);
}

/// `a+b+c` splits into `a`, `b` and `c`.
proof fn lemma_parts_of_three(a: Seq<char>, b: Seq<char>, c: Seq<char>)
    requires
        plain_part(a),
        plain_part(b),
        plain_part(c),
    ensures
        binding_parts(a + seq!['+'] + b + seq!['+'] + c) == seq![a, b, c],
{
    let e: Seq<char> = seq![];
    lemma_scan_plus_extend(e, a);
    assert(e + a =~= a);
    let ap = a + seq!['+'];
    assert(ap.drop_last() =~= a);
    lemma_plain_part_trims(a);
    lemma_plain_part_trims(b);
    lemma_plain_part_trims(c);
    assert(scan_plus(ap) == (seq![a], e));
    lemma_scan_plus_extend(ap, b);
    assert(e + b =~= b);
    let bp = ap + b + seq!['+'];
    assert(bp.drop_last() =~= ap + b);
    assert(seq![a].push(b) =~= seq![a, b]);
    assert(scan_plus(bp) == (seq![a, b], e));
    lemma_scan_plus_extend(bp, c);
    assert(e + c =~= c);
    assert(seq![a, b].push(c) =~= seq![a, b, c]);
}

/// The modifier names the built-in shortcuts use, read in any ASCII case.
proof fn lemma_default_modifier_names(m: KeyModifiers)
    ensures
        add_modifier(Some(m), "super"@) == Some(KeyModifiers { logo: true, ..m }),
        add_modifier(Some(m), "shift"@) == Some(KeyModifiers { shift: true, ..m }),
        add_modifier(Some(m), "alt"@) == Some(KeyModifiers { alt: true, ..m }),
{
    reveal_strlit("super");
    reveal_strlit("shift");
    reveal_strlit("alt");
    reveal_strlit("ctrl");
    reveal_strlit("control");
    assert(seq_ascii_lower("super"@) =~= "super"@);
    assert("super"@[1] != "shift"@[1]);
    assert(seq_ascii_lower("shift"@) =~= "shift"@);
    assert(seq_ascii_lower("alt"@) =~= "alt"@);
}

/// A spec of one or two modifiers the parser knows and a plain key parses.
proof fn lemma_plain_spec_parses(mods: Seq<Seq<char>>, key: Seq<char>)
    requires
        1 <= mods.len() <= 2,
        forall|i: int| 0 <= i < mods.len() ==> plain_part(#[trigger] mods[i]),
        plain_part(key),
        modifiers_of(mods) is Some,
    ensures
        mods.len() == 1 ==> spec_parse_binding(mods[0] + seq!['+'] + key) is Some,
        mods.len() == 2 ==> spec_parse_binding(mods[0] + seq!['+'] + mods[1] + seq!['+'] + key) is Some,
{
    if mods.len() == 1 {
        lemma_parts_of_two(mods[0], key);
        assert(seq![mods[0], key].drop_last() =~= mods);
    } else {
        lemma_parts_of_three(mods[0], mods[1], key);
        assert(seq![mods[0], mods[1], key].drop_last() =~= mods);
    }
}

/// The modifier lists the built-in shortcuts use are all known.
proof fn lemma_default_modifier_lists()
    ensures
        modifiers_of(seq!["super"@]) is Some,
        modifiers_of(seq!["super"@, "shift"@]) is Some,
        modifiers_of(seq!["super"@, "alt"@]) is Some,
{
    let n = no_modifiers();
    lemma_default_modifier_names(n);
    lemma_default_modifier_names(KeyModifiers { logo: true, ..n });
    let e: Seq<Seq<char>> = seq![];
    assert(seq!["super"@].drop_last() =~= e);
    assert(seq!["super"@, "shift"@].drop_last() =~= seq!["super"@]);
    assert(seq!["super"@, "alt"@].drop_last() =~= seq!["super"@]);
    let s1 = seq!["super"@];
    assert(s1.last() == "super"@);
    assert(modifiers_of(e) == Some(n));
    assert(modifiers_of(s1) == add_modifier(Some(n), "super"@));
    assert(modifiers_of(s1) == Some(KeyModifiers { logo: true, ..n }));
    let s2 = seq!["super"@, "shift"@];
    assert(s2.last() == "shift"@);
    assert(modifiers_of(s2) == add_modifier(modifiers_of(s1), "shift"@));
}

/// The `k`-th key combination of the `i`-th built-in shortcut parses.
proof fn lemma_default_shortcut_parses(i: int, k: int)
    requires
        0 <= i < spec_default_shortcuts().len(),
        0 <= k < spec_default_shortcuts()[i].1.len(),
    ensures
        spec_parse_binding(spec_default_shortcuts()[i].1[k]) is Some,
{
    lemma_default_modifier_lists();
    reveal_strlit("super");
    reveal_strlit("shift");
    reveal_strlit("alt");
    if i == 0 {
        if k == 0 {
            reveal_strlit("super+alt+backspace");
            reveal_strlit("backspace");
            assert("super+alt+backspace"@ =~= "super"@ + seq!['+'] + "alt"@ + seq!['+'] + "backspace"@);
            lemma_plain_spec_parses(seq!["super"@, "alt"@], "backspace"@);
        } else {
            reveal_strlit("super+q");
            reveal_strlit("q");
            assert("super+q"@ =~= "super"@ + seq!['+'] + "q"@);
            lemma_plain_spec_parses(seq!["super"@], "q"@);
        }
    } else if i == 1 {
        reveal_strlit("super+c");
        reveal_strlit("c");
        assert("super+c"@ =~= "super"@ + seq!['+'] + "c"@);
        lemma_plain_spec_parses(seq!["super"@], "c"@);
    } else if i == 2 {
        reveal_strlit("super+space");
        reveal_strlit("space");
        assert("super+space"@ =~= "super"@ + seq!['+'] + "space"@);
        lemma_plain_spec_parses(seq!["super"@], "space"@);
    } else if i == 3 {
        reveal_strlit("super+shift+space");
        reveal_strlit("space");
        assert("super+shift+space"@ =~= "super"@ + seq!['+'] + "shift"@ + seq!['+'] + "space"@);
        lemma_plain_spec_parses(seq!["super"@, "shift"@], "space"@);
    } else if i == 4 {
        reveal_strlit("super+x");
        reveal_strlit("x");
        assert("super+x"@ =~= "super"@ + seq!['+'] + "x"@);
        lemma_plain_spec_parses(seq!["super"@], "x"@);
    } else if i == 5 {
        reveal_strlit("super+left");
        reveal_strlit("left");
        assert("super+left"@ =~= "super"@ + seq!['+'] + "left"@);
        lemma_plain_spec_parses(seq!["super"@], "left"@);
    } else if i == 6 {
        reveal_strlit("super+right");
        reveal_strlit("right");
        assert("super+right"@ =~= "super"@ + seq!['+'] + "right"@);
        lemma_plain_spec_parses(seq!["super"@], "right"@);
    } else if i == 7 {
        reveal_strlit("super+up");
        reveal_strlit("up");
        assert("super+up"@ =~= "super"@ + seq!['+'] + "up"@);
        lemma_plain_spec_parses(seq!["super"@], "up"@);
    } else if i == 8 {
        reveal_strlit("super+down");
        reveal_strlit("down");
        assert("super+down"@ =~= "super"@ + seq!['+'] + "down"@);
        lemma_plain_spec_parses(seq!["super"@], "down"@);
    } else if i == 9 {
        reveal_strlit("super+shift+left");
        reveal_strlit("left");
        assert("super+shift+left"@ =~= "super"@ + seq!['+'] + "shift"@ + seq!['+'] + "left"@);
        lemma_plain_spec_parses(seq!["super"@, "shift"@], "left"@);
    } else if i == 10 {
        reveal_strlit("super+shift+right");
        reveal_strlit("right");
        assert("super+shift+right"@ =~= "super"@ + seq!['+'] + "shift"@ + seq!['+'] + "right"@);
        lemma_plain_spec_parses(seq!["super"@, "shift"@], "right"@);
    } else if i == 11 {
        reveal_strlit("super+shift+up");
        reveal_strlit("up");
        assert("super+shift+up"@ =~= "super"@ + seq!['+'] + "shift"@ + seq!['+'] + "up"@);
        lemma_plain_spec_parses(seq!["super"@, "shift"@], "up"@);
    } else if i == 12 {
        reveal_strlit("super+shift+down");
        reveal_strlit("down");
        assert("super+shift+down"@ =~= "super"@ + seq!['+'] + "shift"@ + seq!['+'] + "down"@);
        lemma_plain_spec_parses(seq!["super"@, "shift"@], "down"@);
    } else if i == 13 {
        reveal_strlit("super+alt+left");
        reveal_strlit("left");
        assert("super+alt+left"@ =~= "super"@ + seq!['+'] + "alt"@ + seq!['+'] + "left"@);
        lemma_plain_spec_parses(seq!["super"@, "alt"@], "left"@);
    } else if i == 14 {
        reveal_strlit("super+alt+right");
        reveal_strlit("right");
        assert("super+alt+right"@ =~= "super"@ + seq!['+'] + "alt"@ + seq!['+'] + "right"@);
        lemma_plain_spec_parses(seq!["super"@, "alt"@], "right"@);
    } else if i == 15 {
        reveal_strlit("super+alt+up");
        reveal_strlit("up");
        assert("super+alt+up"@ =~= "super"@ + seq!['+'] + "alt"@ + seq!['+'] + "up"@);
        lemma_plain_spec_parses(seq!["super"@, "alt"@], "up"@);
    } else if i == 16 {
        reveal_strlit("super+alt+down");
        reveal_strlit("down");
        assert("super+alt+down"@ =~= "super"@ + seq!['+'] + "alt"@ + seq!['+'] + "down"@);
        lemma_plain_spec_parses(seq!["super"@, "alt"@], "down"@);
    } else if i == 17 {
        reveal_strlit("super+shift+p");
        reveal_strlit("p");
        assert("super+shift+p"@ =~= "super"@ + seq!['+'] + "shift"@ + seq!['+'] + "p"@);
        lemma_plain_spec_parses(seq!["super"@, "shift"@], "p"@);
    } else if i == 18 {
        reveal_strlit("super+shift+m");
        reveal_strlit("m");
        assert("super+shift+m"@ =~= "super"@ + seq!['+'] + "shift"@ + seq!['+'] + "m"@);
        lemma_plain_spec_parses(seq!["super"@, "shift"@], "m"@);
    } else if i == 19 {
        reveal_strlit("super+shift+w");
        reveal_strlit("w");
        assert("super+shift+w"@ =~= "super"@ + seq!['+'] + "shift"@ + seq!['+'] + "w"@);
        lemma_plain_spec_parses(seq!["super"@, "shift"@], "w"@);
    } else if i == 20 {
        reveal_strlit("super+shift+r");
        reveal_strlit("r");
        assert("super+shift+r"@ =~= "super"@ + seq!['+'] + "shift"@ + seq!['+'] + "r"@);
        lemma_plain_spec_parses(seq!["super"@, "shift"@], "r"@);
    } else if i == 21 {
        reveal_strlit("super+shift+t");
        reveal_strlit("t");
        assert("super+shift+t"@ =~= "super"@ + seq!['+'] + "shift"@ + seq!['+'] + "t"@);
        lemma_plain_spec_parses(seq!["super"@, "shift"@], "t"@);
    } else {
        reveal_strlit("super+shift+d");
        reveal_strlit("d");
        assert("super+shift+d"@ =~= "super"@ + seq!['+'] + "shift"@ + seq!['+'] + "d"@);
        lemma_plain_spec_parses(seq!["super"@, "shift"@], "d"@);
    }
}

/// Every key combination in the built-in shortcut table parses: the
/// defaults never lose a binding to a typo in a modifier name or in the
/// way the parts are joined.
pub proof fn law_default_shortcuts_parse()
    ensures
        forall|i: int, k: int|
            0 <= i < spec_default_shortcuts().len() && 0 <= k < spec_default_shortcuts()[i].1.len()
                ==> spec_parse_binding(#[trigger] spec_default_shortcuts()[i].1[k]) is Some,
{
    assert forall|i: int, k: int|
        0 <= i < spec_default_shortcuts().len() && 0 <= k < spec_default_shortcuts()[i].1.len()
            implies spec_parse_binding(#[trigger] spec_default_shortcuts()[i].1[k]) is Some by {
        lemma_default_shortcut_parses(i, k);
    }
}

} // verus!
