//! The application launcher overlay's state (query, matches, selection and
//! whether its picture is current) and the frame-rate counter's value.
//! Rasterising and uploading the pictures is left to the caller.

use vstd::prelude::*;
use crate::geometry::{Point, Rect, Size};
use crate::launcher::{DesktopEntry, filter_entries, filter_result};
use crate::text::{chars_of, string_from_chars, unicode_lower};

verus! {

pub const LAUNCHER_WIDTH: i32 = 480;
pub const LAUNCHER_ROW_HEIGHT: i32 = 26;
pub const LAUNCHER_HEADER_HEIGHT: i32 = 36;
pub const LAUNCHER_PADDING: i32 = 10;
pub const LAUNCHER_MAX_ROWS: usize = 8;

/// `s` cut to at most `max_chars` characters, ending in `..` when cut.
pub open spec fn spec_truncate(s: Seq<char>, max_chars: nat) -> Seq<char> {
    if s.len() <= max_chars {
        s
    } else if max_chars >= 2 {
        s.take(max_chars - 2) + seq!['.', '.']
    } else {
        seq!['.', '.']
    }
}

/// Shortens a name to fit `max_chars` characters: names that are too long
/// keep `max_chars - 2` characters followed by `..`.
pub fn truncate(s: &str, max_chars: usize) -> (r: String)
    ensures
        r@ == spec_truncate(s@, max_chars as nat),
{
    let chars = chars_of(s);
    if chars.len() <= max_chars {
        return string_from_chars(chars.as_slice());
    }
    let keep: usize = if max_chars >= 2 { max_chars - 2 } else { 0 };
    let mut out: Vec<char> = Vec::new();
    for i in 0..keep
        invariant
            keep < chars@.len(),
            out@ == chars@.take(i as int),
    {
        out.push(chars[i]);
        assert(chars@.take(i + 1) == chars@.take(i as int).push(chars@[i as int]));
    }
    out.push('.');
    out.push('.');
    assert(out@ =~= spec_truncate(s@, max_chars as nat));
    string_from_chars(out.as_slice())
}

/// What to do about the launcher's picture before drawing a frame.
#[derive(Debug, Clone, Copy, PartialEq, Eq, Structural)]
pub enum BufferStep {
    /// The launcher is hidden: draw nothing.
    Hidden,
    /// The state changed or there is no picture: rasterise it anew.
    Rebuild,
    /// The last picture is current.
    Reuse,
}

/// The launcher overlay: a search query over desktop entries.
pub struct LauncherState {
    visible: bool,
    query: Vec<char>,
    entries: Vec<DesktopEntry>,
    filtered: Vec<usize>,
    selected: usize,
    dirty: bool,
    rendered: bool,
}

impl LauncherState {
    /// The overlay is shown.
    pub closed spec fn shown(&self) -> bool {
        self.visible
    }

    pub closed spec fn query(&self) -> Seq<char> {
        self.query@
    }

    pub closed spec fn entries(&self) -> Seq<DesktopEntry> {
        self.entries@
    }

    /// Indices into `entries` of the matches, in display order.
    pub closed spec fn filtered(&self) -> Seq<usize> {
        self.filtered@
    }

    pub closed spec fn selected(&self) -> nat {
        self.selected as nat
    }

    /// The state changed since the picture was last built.
    pub closed spec fn dirty(&self) -> bool {
        self.dirty
    }

    /// A picture has been built and not discarded since.
    pub closed spec fn rendered(&self) -> bool {
        self.rendered
    }

    /// The matches are those of the current query, and the selection is
    /// one of them (or 0 when there are none).
    pub open spec fn wf(&self) -> bool {
        &&& filter_result(self.entries(), self.query(), self.filtered())
        &&& (self.selected() < self.filtered().len() || (self.filtered().len() == 0 && self.selected() == 0))
    }

    /// Refreshes the matches for the current query and selects the first.
    fn refresh_filter(&mut self)
        ensures
            final(self).shown() == old(self).shown(),
            final(self).query() == old(self).query(),
            final(self).entries() == old(self).entries(),
            filter_result(final(self).entries(), final(self).query(), final(self).filtered()),
            final(self).query().len() == 0 ==> final(self).filtered() == Seq::new(
                final(self).entries().len(),
                |i: int| i as usize,
            ),
            final(self).selected() == 0,
            final(self).dirty(),
            final(self).rendered() == old(self).rendered(),
    {
        let q = string_from_chars(self.query.as_slice());
        self.filtered = filter_entries(self.entries.as_slice(), q.as_str());
        self.selected = 0;
        self.dirty = true;
    }
}

impl Default for LauncherState {
    fn default() -> (r: Self)
        ensures
            r.wf(),
            !r.shown(),
            r.query().len() == 0,
            r.entries().len() == 0,
            r.filtered().len() == 0,
            r.selected() == 0,
            r.dirty(),
            !r.rendered(),
    {
        let r = LauncherState {
            visible: false,
            query: Vec::new(),
            entries: Vec::new(),
            filtered: Vec::new(),
            selected: 0,
            dirty: true,
            rendered: false,
        };
        assert(r.filtered@ =~= Seq::new(r.entries@.len(), |i: int| i as usize));
        r
    }
}

impl LauncherState {
    pub fn is_visible(&self) -> (r: bool)
        ensures
            r == self.shown(),
    {
        self.visible
    }

    /// Opens the launcher on a fresh scan of the desktop entries, with an
    /// empty query and every entry listed.
    pub fn open(&mut self, entries: Vec<DesktopEntry>)
        ensures
            final(self).wf(),
            final(self).shown(),
            final(self).entries() == entries@,
            final(self).query().len() == 0,
            final(self).filtered() == Seq::new(entries@.len(), |i: int| i as usize),
            final(self).selected() == 0,
            final(self).dirty(),
            final(self).rendered() == old(self).rendered(),
    {
        self.entries = entries;
        self.query = Vec::new();
        self.refresh_filter();
        self.visible = true;
    }

    /// Hides the launcher and discards its picture.
    pub fn close(&mut self)
        ensures
            final(self).wf() == old(self).wf(),
            !final(self).shown(),
            !final(self).rendered(),
            final(self).dirty(),
            final(self).query() == old(self).query(),
            final(self).entries() == old(self).entries(),
            final(self).filtered() == old(self).filtered(),
            final(self).selected() == old(self).selected(),
    {
        self.visible = false;
        self.rendered = false;
        self.dirty = true;
    }

    /// Closes the launcher if it is open. Returns `true` when it was closed
    /// and is to be opened: the caller then scans the desktop entries and
    /// calls [`LauncherState::open`] with them.
    pub fn toggle(&mut self) -> (wants_open: bool)
        ensures
            final(self).wf() == old(self).wf(),
            wants_open == !old(self).shown(),
            old(self).shown() ==> !final(self).shown() && !final(self).rendered() && final(self).dirty()
                && final(self).query() == old(self).query() && final(self).entries() == old(self).entries()
                && final(self).filtered() == old(self).filtered() && final(self).selected() == old(self).selected(),
            !old(self).shown() ==> *final(self) == *old(self),
    {
        if self.visible {
            self.close();
            false
        } else {
            true
        }
    }

    /// Appends a character to the query and refilters.
    pub fn push_char(&mut self, c: char)
        ensures
            final(self).wf(),
            final(self).shown() == old(self).shown(),
            final(self).query() == old(self).query().push(c),
            final(self).entries() == old(self).entries(),
            final(self).selected() == 0,
            final(self).dirty(),
            final(self).rendered() == old(self).rendered(),
    {
        self.query.push(c);
        self.refresh_filter();
    }

    /// Removes the query's last character, if any, and refilters.
    pub fn backspace(&mut self)
        ensures
            final(self).wf(),
            final(self).shown() == old(self).shown(),
            final(self).query() == if old(self).query().len() > 0 {
                old(self).query().drop_last()
            } else {
                old(self).query()
            },
            final(self).entries() == old(self).entries(),
            final(self).selected() == 0,
            final(self).dirty(),
            final(self).rendered() == old(self).rendered(),
    {
        self.query.pop();
        self.refresh_filter();
    }

    /// Moves the selection by `delta` rows, wrapping around at both ends.
    /// Does nothing when nothing matches.
    pub fn move_selection(&mut self, delta: i32)
        requires
            old(self).wf(),
            old(self).filtered().len() <= i32::MAX,
            i32::MIN <= old(self).selected() + delta <= i32::MAX,
        ensures
            final(self).wf(),
            old(self).filtered().len() == 0 ==> *final(self) == *old(self),
            old(self).filtered().len() > 0 ==> {
                &&& final(self).selected() == (old(self).selected() + delta) % (old(self).filtered().len() as int)
                &&& final(self).dirty()
                &&& final(self).shown() == old(self).shown()
                &&& final(self).query() == old(self).query()
                &&& final(self).entries() == old(self).entries()
                &&& final(self).filtered() == old(self).filtered()
                &&& final(self).rendered() == old(self).rendered()
            },
    {
        if self.filtered.len() == 0 {
            return;
        }
        let len: i64 = self.filtered.len() as i64;
        let s: i64 = self.selected as i64 + delta as i64;
        let next: i64 = if s >= 0 {
            s % len
        } else {
            let m: i64 = (-s) % len;
            if m == 0 {
                0
            } else {
                len - m
            }
        };
        proof {
            let l = len as int;
            let si = s as int;
            if si < 0 {
                let m = (-si) % l;
                assert(((-si) / l) * l + m == -si) by (nonlinear_arith)
                    requires
                        l > 0,
                        m == (-si) % l,
                ;
                if m == 0 {
                    assert(si == -((-si) / l) * l) by (nonlinear_arith)
                        requires
                            ((-si) / l) * l == -si,
                    ;
                    assert(si % l == 0) by (nonlinear_arith)
                        requires
                            l > 0,
                            si == -((-si) / l) * l,
                    ;
                } else {
                    assert(si == (-((-si) / l) - 1) * l + (l - m)) by (nonlinear_arith)
                        requires
                            ((-si) / l) * l + m == -si,
                    ;
                    assert(si % l == l - m) by (nonlinear_arith)
                        requires
                            l > 0,
                            0 < m < l,
                            si == (-((-si) / l) - 1) * l + (l - m),
                    ;
                }
            }
        }
        self.selected = next as usize;
        self.dirty = true;
    }

    /// Closes the launcher and returns the selected entry, if any.
    pub fn activate(&mut self) -> (r: Option<DesktopEntry>)
        ensures
            final(self).wf() == old(self).wf(),
            !final(self).shown(),
            !final(self).rendered(),
            final(self).dirty(),
            final(self).query() == old(self).query(),
            final(self).entries() == old(self).entries(),
            final(self).filtered() == old(self).filtered(),
            final(self).selected() == old(self).selected(),
            ({
                let (f, e, s) = (old(self).filtered(), old(self).entries(), old(self).selected());
                if s < f.len() && f[s as int] < e.len() {
                    r matches Some(d) && d.id@ == e[f[s as int] as int].id@ && d.name@ == e[f[
                        s as int] as int].name@ && d.command@ == e[f[s as int] as int].command@
                        && d.terminal == e[f[s as int] as int].terminal
                } else {
                    r is None
                }
            }),
    {
        let entry = if self.selected < self.filtered.len() && self.filtered[self.selected]
            < self.entries.len() {
            Some(self.entries[self.filtered[self.selected]].duplicate())
        } else {
            None
        };
        self.close();
        entry
    }

    /// The overlay's logical size: a header, one row per match (at least
    /// one, at most `LAUNCHER_MAX_ROWS`) and padding.
    pub fn logical_size(&self) -> (r: Size)
        ensures
            r.w == LAUNCHER_WIDTH,
            r.h == LAUNCHER_HEADER_HEIGHT + LAUNCHER_ROW_HEIGHT * (if self.filtered().len() < 1 {
                1
            } else if self.filtered().len() > LAUNCHER_MAX_ROWS {
                LAUNCHER_MAX_ROWS as int
            } else {
                self.filtered().len() as int
            }) + 2 * LAUNCHER_PADDING,
    {
        let n = self.filtered.len();
        let rows: i32 = if n < 1 {
            1
        } else if n > LAUNCHER_MAX_ROWS {
            8
        } else {
            n as i32
        };
        Size { w: LAUNCHER_WIDTH, h: LAUNCHER_HEADER_HEIGHT + rows * LAUNCHER_ROW_HEIGHT + LAUNCHER_PADDING * 2 }
    }

    /// Decides whether the picture must be rebuilt before drawing; a
    /// rebuild counts as done once this returns.
    pub fn ensure_buffer(&mut self) -> (r: BufferStep)
        ensures
            final(self).wf() == old(self).wf(),
            !old(self).shown() ==> r == BufferStep::Hidden && *final(self) == *old(self),
            old(self).shown() && (old(self).dirty() || !old(self).rendered()) ==> r == BufferStep::Rebuild
                && !final(self).dirty() && final(self).rendered(),
            old(self).shown() && !old(self).dirty() && old(self).rendered() ==> r == BufferStep::Reuse
                && *final(self) == *old(self),
            final(self).shown() == old(self).shown(),
            final(self).query() == old(self).query(),
            final(self).entries() == old(self).entries(),
            final(self).filtered() == old(self).filtered(),
            final(self).selected() == old(self).selected(),
    {
        if !self.visible {
            return BufferStep::Hidden;
        }
        if self.dirty || !self.rendered {
            self.dirty = false;
            self.rendered = true;
            BufferStep::Rebuild
        } else {
            BufferStep::Reuse
        }
    }

    /// The header text: a prompt followed by the query.
    pub fn prompt(&self) -> (r: String)
        ensures
            r@ == seq!['>', ' '] + self.query(),
    {
        let mut v: Vec<char> = Vec::new();
        v.push('>');
        v.push(' ');
        for i in 0..self.query.len()
            invariant
                v@ == seq!['>', ' '] + self.query@.take(i as int),
        {
            v.push(self.query[i]);
            assert(self.query@.take(i + 1) == self.query@.take(i as int).push(self.query@[i as int]));
        }
        assert(self.query@.take(self.query@.len() as int) == self.query@);
        string_from_chars(v.as_slice())
    }

    /// The rows to draw: the names of the first `LAUNCHER_MAX_ROWS`
    /// matches, shortened to `max_chars`, each with whether it is selected.
    pub fn display_rows(&self, max_chars: usize) -> (r: Vec<(String, bool)>)
        requires
            self.wf(),
        ensures
            r@.len() == if self.filtered().len() > LAUNCHER_MAX_ROWS {
                LAUNCHER_MAX_ROWS as int
            } else {
                self.filtered().len() as int
            },
            forall|k: int| 0 <= k < r@.len() ==> {
                &&& (#[trigger] r@[k]).0@ == spec_truncate(self.entries()[self.filtered()[k] as int].name@, max_chars as nat)
                &&& r@[k].1 == (k == self.selected())
            },
    {
        let n = if self.filtered.len() > LAUNCHER_MAX_ROWS { LAUNCHER_MAX_ROWS } else { self.filtered.len() };
        let mut rows: Vec<(String, bool)> = Vec::new();
        for k in 0..n
            invariant
                self.wf(),
                n <= self.filtered@.len(),
                rows@.len() == k,
                forall|j: int| 0 <= j < k ==> {
                    &&& (#[trigger] rows@[j]).0@ == spec_truncate(self.entries()[self.filtered()[j] as int].name@, max_chars as nat)
                    &&& rows@[j].1 == (j == self.selected())
                },
        {
            let idx = self.filtered[k];
            proof {
                if unicode_lower(self.query()).len() == 0 {
                    assert(self.filtered()[k as int] == k as usize);
                }
                assert(self.filtered()[k as int] < self.entries().len());
            }
            let name = truncate(self.entries[idx].name.as_str(), max_chars);
            rows.push((name, k == self.selected));
        }
        rows
    }
}

/// The decimal digits of `n`, most significant first.
pub open spec fn decimal_digits(n: nat) -> Seq<u32>
    decreases n,
{
    if n < 10 {
        seq![n as u32]
    } else {
        decimal_digits(n / 10).push((n % 10) as u32)
    }
}

/// Where each digit's picture sits in the counter's digit atlas: three
/// columns of 22 by 35 pixels, 9 6 3 1 / 8 0 2 / 7 4 5 row by row.
pub open spec fn spec_digit_cell(digit: u32) -> (int, int) {
    if digit == 9 {
        (0, 0)
    } else if digit == 6 {
        (22, 0)
    } else if digit == 3 {
        (44, 0)
    } else if digit == 1 {
        (66, 0)
    } else if digit == 8 {
        (0, 35)
    } else if digit == 0 {
        (22, 35)
    } else if digit == 2 {
        (44, 35)
    } else if digit == 7 {
        (0, 70)
    } else if digit == 4 {
        (22, 70)
    } else {
        (44, 70)
    }
}

/// The atlas rectangle holding the picture of `digit`.
pub fn digit_atlas_rect(digit: u32) -> (r: Rect)
    requires
        digit <= 9,
    ensures
        (r.loc.x as int, r.loc.y as int) == spec_digit_cell(digit),
        r.size == (Size { w: 22, h: 35 }),
{
    let (x, y): (i32, i32) = if digit == 9 {
        (0, 0)
    } else if digit == 6 {
        (22, 0)
    } else if digit == 3 {
        (44, 0)
    } else if digit == 1 {
        (66, 0)
    } else if digit == 8 {
        (0, 35)
    } else if digit == 0 {
        (22, 35)
    } else if digit == 2 {
        (44, 35)
    } else if digit == 7 {
        (0, 70)
    } else if digit == 4 {
        (22, 70)
    } else {
        (44, 70)
    };
    Rect { loc: Point { x, y }, size: Size { w: 22, h: 35 } }
}

/// The value the frame-rate counter shows.
pub struct FpsCounter {
    value: u32,
}

impl FpsCounter {
    pub closed spec fn value(&self) -> u32 {
        self.value
    }

    pub fn new() -> (r: FpsCounter)
        ensures
            r.value() == 0,
    {
        FpsCounter { value: 0 }
    }

    /// Shows `fps`. Returns whether the value changed, that is whether the
    /// element's picture has to be redrawn.
    pub fn update_fps(&mut self, fps: u32) -> (changed: bool)
        ensures
            final(self).value() == fps,
            changed == (old(self).value() != fps),
    {
        if self.value != fps {
            self.value = fps;
            true
        } else {
            false
        }
    }

    /// The digits drawn, most significant first: those of the value, capped
    /// at 999.
    pub fn shown_digits(&self) -> (d: Vec<u32>)
        ensures
            d@ == decimal_digits(if self.value() < 999 { self.value() as nat } else { 999 }),
    {
        let n: u32 = if self.value < 999 { self.value } else { 999 };
        let ghost g = n as nat;
        proof {
            reveal_with_fuel(decimal_digits, 3);
        }
        let mut d: Vec<u32> = Vec::new();
        if n < 10 {
            d.push(n);
        } else if n < 100 {
            d.push(n / 10);
            d.push(n % 10);
            assert(decimal_digits(g / 10) == seq![n / 10]);
        } else {
            d.push(n / 100);
            d.push((n / 10) % 10);
            d.push(n % 10);
            assert((g / 10) / 10 == n / 100);
            assert(decimal_digits((g / 10) / 10) == seq![n / 100]);
            assert(decimal_digits(g / 10) == seq![n / 100, (n / 10) % 10]);
        }
        assert(d@ =~= decimal_digits(g));
        d
    }

    /// How many digits are drawn: one below 10, two below 100, else three.
    pub fn digits(&self) -> (d: i32)
        ensures
            d == if self.value() < 10 {
                1i32
            } else if self.value() < 100 {
                2i32
            } else {
                3i32
            },
    {
        if self.value < 10 {
            1
        } else if self.value < 100 {
            2
        } else {
            3
        }
    }
}

} // verus!
