use vstd::prelude::*;

use crate::entry::Entry;
use crate::file::swapped;
use crate::text::{
    byte_len, char_rows, char_width_of, chars_of, decimal, extend_chars, lemma_byte_len_concat,
    lemma_byte_len_push, lemma_truncated_bound, push_decimal, string_from_chars, trim, trim_chars,
    truncate_chars, truncate_ok, truncated, usize_to_string, words, words_of,
};
use crate::ui::io::Action;

verus! {

/// How a line of the screen is drawn.
#[derive(Debug, Clone, Copy, PartialEq, Eq)]
pub enum LineStyle {
    Plain,
    Magenta,
    Underlined,
    UnderlinedMagenta,
    ItalicDarkGrey,
}

/// A line of text to draw, with its style.
#[derive(Debug, Clone, PartialEq, Eq)]
pub struct StyledLine {
    pub text: String,
    pub style: LineStyle,
}

/// The value of a [`StyledLine`].
pub struct SpecLine {
    pub text: Seq<char>,
    pub style: LineStyle,
}

impl View for StyledLine {
    type V = SpecLine;

    open spec fn view(&self) -> SpecLine {
        SpecLine { text: self.text@, style: self.style }
    }
}

/// The characters of each string.
pub open spec fn string_rows(v: Seq<String>) -> Seq<Seq<char>> {
    v.map_values(|s: String| s@)
}

/// The lines `rows`, each drawn in `style`.
pub open spec fn styled(rows: Seq<Seq<char>>, style: LineStyle) -> Seq<SpecLine> {
    rows.map_values(|t: Seq<char>| SpecLine { text: t, style: style })
}

/// The values of each line.
pub open spec fn line_views(v: Seq<StyledLine>) -> Seq<SpecLine> {
    v.map_values(|l: StyledLine| l@)
}

// Wrapping comments
/// One step of wrapping the words `ws` into lines of at most `w` bytes: word `k`
/// joins the current line; if the next word still fits after a space, a space
/// follows, else the line is finished, cut to `w` bytes.
pub open spec fn wrap_step(ws: Seq<Seq<char>>, w: int, st: (Seq<Seq<char>>, Seq<char>), k: int) -> (
    Seq<Seq<char>>,
    Seq<char>,
) {
    let cur = st.1 + ws[k];
    if k + 1 < ws.len() && byte_len(ws[k + 1]) + byte_len(cur) <= w - 1 {
        (st.0, cur.push(' '))
    } else {
        (st.0.push(truncated(cur, w as nat)), Seq::<char>::empty())
    }
}

/// The lines finished, and the line being built, after the first `n` words.
pub open spec fn wrap_fold(ws: Seq<Seq<char>>, w: int, n: nat) -> (Seq<Seq<char>>, Seq<char>)
    decreases n,
{
    if n == 0 {
        (Seq::<Seq<char>>::empty(), Seq::<char>::empty())
    } else {
        wrap_step(ws, w, wrap_fold(ws, w, (n - 1) as nat), n - 1)
    }
}

/// The words `ws` wrapped into lines of at most `w` bytes.
pub open spec fn wrap_words(ws: Seq<Seq<char>>, w: int) -> Seq<Seq<char>> {
    wrap_fold(ws, w, ws.len()).0
}

/// Wrapping the words `ws` at `w` bytes does not panic: a width of zero leaves no
/// room for a second word, and each cut falls on a character boundary.
pub open spec fn wrap_safe(ws: Seq<Seq<char>>, w: int) -> bool {
    &&& (ws.len() >= 2 ==> w >= 1)
    &&& forall|k: int|
        0 <= k < ws.len() ==> truncate_ok(
            #[trigger] wrap_fold(ws, w, k as nat).1 + ws[k],
            w as nat,
        )
}

/// The lines that show a comment on a screen `total_width` columns wide.
pub open spec fn comment_lines(comment: Option<Seq<char>>, total_width: u16) -> Seq<Seq<char>> {
    match comment {
        Some(c) => wrap_words(words(c), total_width - 10),
        None => Seq::<Seq<char>>::empty(),
    }
}

/// A comment can be shown on a screen `total_width` columns wide without a panic.
pub open spec fn comment_fits(comment: Option<Seq<char>>, total_width: u16) -> bool {
    &&& total_width >= 10
    &&& match comment {
        Some(c) => wrap_safe(words(c), total_width - 10),
        None => true,
    }
}

/// The wrapped comment lines `comments` belong, one list per entry, to `entries`.
pub open spec fn comments_match(entries: Seq<Entry>, comments: Seq<Vec<String>>, x_size: u16) -> bool {
    &&& comments.len() == entries.len()
    &&& forall|i: int|
        0 <= i < entries.len() ==> string_rows(#[trigger] comments[i]@) == comment_lines(
            entries[i]@.comment,
            x_size,
        )
}

/// `min(byte_len(v), cap)`.
fn byte_len_upto(v: &Vec<char>, cap: usize) -> (r: usize)
    requires
        cap <= 0xFFFF,
    ensures
        r == if byte_len(v@) < cap {
            byte_len(v@)
        } else {
            cap as nat
        },
{
    let mut acc: usize = 0;
    let mut i: usize = 0;
    while i < v.len() && acc < cap
        invariant
            i <= v.len(),
            acc == byte_len(v@.take(i as int)),
            acc <= cap + 4,
            cap <= 0xFFFF,
        decreases v.len() - i,
    {
        proof {
            assert(v@.take(i + 1) =~= v@.take(i as int).push(v@[i as int]));
            lemma_byte_len_push(v@.take(i as int), v@[i as int]);
        }
        acc = acc + char_width_of(v[i]);
        i = i + 1;
    }
    proof {
        lemma_byte_len_concat(v@.take(i as int), v@.skip(i as int));
        assert(v@.take(i as int) + v@.skip(i as int) =~= v@);
        if i == v.len() {
            assert(v@.take(i as int) =~= v@);
        }
    }
    if acc < cap {
        acc
    } else {
        cap
    }
}

/// Whether cutting `v` to `w` bytes falls on a character boundary (or is no cut).
fn truncate_is_ok(v: &Vec<char>, w: usize) -> (b: bool)
    requires
        w < 0xFFFF,
    ensures
        b == truncate_ok(v@, w as nat),
{
    let t = truncate_chars(v, w);
    proof {
        lemma_truncated_bound(v@, w as nat);
    }
    let whole = byte_len_upto(v, w + 1);
    let cut = byte_len_upto(&t, w + 1);
    whole <= w || cut == w
}

impl UIState {
    /// The width left for an entry on a screen `total_width` columns wide.
    pub fn get_entry_max_width(total_width: u16) -> (w: u16)
        requires
            total_width >= 10,
        ensures
            w == total_width - 10,
    {
        total_width - 10
    }

    /// A comment wrapped into lines of at most `total_width - 10` bytes, or `None`
    /// where the wrapping panics (a screen narrower than 10 columns, no room for a
    /// second word, or a cut inside a character).
    pub fn try_split_entry_comments(entry: &Entry, total_width: u16) -> (r: Option<Vec<String>>)
        ensures
            r is Some <==> comment_fits(entry@.comment, total_width),
            r matches Some(v) ==> string_rows(v@) == comment_lines(entry@.comment, total_width),
    {
        if total_width < 10 {
            return None;
        }
        let max_width = Self::get_entry_max_width(total_width) as usize;
        let mut result: Vec<String> = Vec::new();
        match &entry.comment {
            Some(comment) => {
                let cs = chars_of(comment.as_str());
                let ws = words_of(&cs);
                let ghost wsv = char_rows(ws@);
                let ghost w = max_width as int;
                let mut cur: Vec<char> = Vec::new();
                let mut k: usize = 0;
                assert(string_rows(result@) =~= Seq::<Seq<char>>::empty());
                if ws.len() >= 2 && max_width == 0 {
                    assert(!wrap_safe(wsv, w));
                    return None;
                }
                while k < ws.len()
                    invariant
                        k <= ws.len(),
                        wsv == char_rows(ws@),
                        wsv == words(cs@),
                        cs@ == comment@,
                        entry@.comment == Some(cs@),
                        w == max_width,
                        max_width == total_width - 10,
                        wsv.len() >= 2 ==> w >= 1,
                        forall|j: int|
                            0 <= j < k ==> truncate_ok(
                                #[trigger] wrap_fold(wsv, w, j as nat).1 + wsv[j],
                                w as nat,
                            ),
                        string_rows(result@) == wrap_fold(wsv, w, k as nat).0,
                        cur@ == wrap_fold(wsv, w, k as nat).1,
                    decreases ws.len() - k,
                {
                    let ghost ki = k as int;
                    let ghost st = wrap_fold(wsv, w, ki as nat);
                    assert(wsv[ki] == ws@[ki]@);
                    extend_chars(&mut cur, &ws[k]);
                    assert(cur@ == wrap_fold(wsv, w, ki as nat).1 + wsv[ki]);
                    let mut fits = false;
                    if k + 1 < ws.len() {
                        assert(wsv[k + 1] == ws@[k + 1]@);
                        let a = byte_len_upto(&ws[k + 1], max_width);
                        let b = byte_len_upto(&cur, max_width);
                        fits = a + b <= max_width - 1;
                    }
                    assert(fits == (k + 1 < wsv.len() && byte_len(wsv[k + 1]) + byte_len(cur@) <= w
                        - 1));
                    if fits {
                        cur.push(' ');
                    } else {
                        if !truncate_is_ok(&cur, max_width) {
                            assert(!wrap_safe(wsv, w));
                            return None;
                        }
                        let t = truncate_chars(&cur, max_width);
                        let line = string_from_chars(&t);
                        let ghost before = string_rows(result@);
                        result.push(line);
                        assert(string_rows(result@) =~= before.push(t@));
                        cur = Vec::new();
                        assert(cur@ =~= Seq::<char>::empty());
                    }
                    assert(truncate_ok(wrap_fold(wsv, w, ki as nat).1 + wsv[ki], w as nat));
                    k = k + 1;
                }
                assert(wrap_safe(wsv, w));
            },
            None => {},
        }
        Some(result)
    }

    /// A comment wrapped into lines of at most `total_width - 10` bytes: words are
    /// split at white space and joined by single spaces while the next word fits;
    /// a line longer than the width is cut.
    pub fn split_entry_comments(entry: &Entry, total_width: u16) -> (r: Vec<String>)
        requires
            comment_fits(entry@.comment, total_width),
        ensures
            string_rows(r@) == comment_lines(entry@.comment, total_width),
    {
        match Self::try_split_entry_comments(entry, total_width) {
            Some(v) => v,
            None => Vec::new(),
        }
    }

    /// Whether the comment of `entry` can be shown `total_width` columns wide.
    pub fn comment_fits_width(entry: &Entry, total_width: u16) -> (b: bool)
        ensures
            b == comment_fits(entry@.comment, total_width),
    {
        Self::try_split_entry_comments(entry, total_width).is_some()
    }

    /// Whether the comments of all `entries` can be shown `total_width` columns wide.
    pub fn all_comments_fit(entries: &Vec<Entry>, total_width: u16) -> (b: bool)
        ensures
            b == forall|i: int| 0 <= i < entries.len() ==> comment_fits(#[trigger] entries[i]@.comment, total_width),
    {
        let mut i: usize = 0;
        while i < entries.len()
            invariant
                i <= entries.len(),
                forall|j: int| 0 <= j < i ==> comment_fits(#[trigger] entries[j]@.comment, total_width),
            decreases entries.len() - i,
        {
            if !Self::comment_fits_width(&entries[i], total_width) {
                return false;
            }
            i = i + 1;
        }
        true
    }
}

/// Every line of wrapped words is at most `w` bytes long.
pub proof fn wrapped_lines_fit(ws: Seq<Seq<char>>, w: nat)
    ensures
        forall|i: int|
            0 <= i < wrap_words(ws, w as int).len() ==> byte_len(
                #[trigger] wrap_words(ws, w as int)[i],
            ) <= w,
{
    lemma_wrap_fold_fit(ws, w, ws.len());
}

proof fn lemma_wrap_fold_fit(ws: Seq<Seq<char>>, w: nat, n: nat)
    ensures
        forall|i: int|
            0 <= i < wrap_fold(ws, w as int, n).0.len() ==> byte_len(
                #[trigger] wrap_fold(ws, w as int, n).0[i],
            ) <= w,
    decreases n,
{
    if n > 0 {
        lemma_wrap_fold_fit(ws, w, (n - 1) as nat);
        let st = wrap_fold(ws, w as int, (n - 1) as nat);
        lemma_truncated_bound(st.1 + ws[n - 1], w);
    }
}

/// How many entries, counted upwards from entry `n - 1`, fit together in `fill`
/// rows: each takes its comment lines and two more rows, and a row of gap
/// follows it if there is room.
pub open spec fn fit_entries(heights: Seq<int>, n: nat, fill: int) -> nat
    decreases n,
{
    if n == 0 || heights[n - 1] + 2 > fill {
        0
    } else {
        let left = fill - (heights[n - 1] + 2);
        1 + fit_entries(heights, (n - 1) as nat, if left >= 1 { left - 1 } else { 0 })
    }
}

/// No more entries fit than there are.
pub proof fn lemma_fit_entries_bound(heights: Seq<int>, n: nat, fill: int)
    ensures
        fit_entries(heights, n, fill) <= n,
    decreases n,
{
    if n > 0 {
        let left = fill - (heights[n - 1] + 2);
        lemma_fit_entries_bound(heights, (n - 1) as nat, if left >= 1 { left - 1 } else { 0 });
    }
}

/// The selection and the first entry drawn after selecting entry `index` (or
/// the last one, if `index` is past it) among `len` entries of `heights` comment
/// lines, keeping `threshold` entries visible around it in a window of `window`
/// rows: when the selection comes within `threshold` of the top, the list
/// scrolls up; when it comes within `threshold` of the bottom, the list scrolls
/// so that as many entries as fit end at the `threshold`-th entry below it.
pub open spec fn select_outcome(
    len: int,
    heights: Seq<int>,
    top: usize,
    bottom: usize,
    index: int,
    window: usize,
    threshold: usize,
) -> (usize, usize) {
    let last = len - 1;
    let sel = if index < last {
        index
    } else {
        last
    };
    let up = if sel >= threshold {
        sel - threshold
    } else {
        0
    };
    if up < top {
        (sel as usize, up as usize)
    } else if sel + threshold >= bottom {
        let goal = if sel + threshold < last {
            sel + threshold
        } else {
            last
        };
        (sel as usize, (goal + 1 - fit_entries(heights, (goal + 1) as nat, window as int)) as usize)
    } else {
        (sel as usize, top)
    }
}

/// Selecting entry `index` panics: the list scrolls down and every entry from the
/// goal entry up to the first one fits in the window, so that the count of the
/// first entry drawn steps below zero.
pub open spec fn select_panics(
    len: int,
    heights: Seq<int>,
    top: usize,
    bottom: usize,
    index: int,
    window: usize,
    threshold: usize,
) -> bool {
    let last = len - 1;
    let sel = if index < last {
        index
    } else {
        last
    };
    let up = if sel >= threshold {
        sel - threshold
    } else {
        0
    };
    let goal = if sel + threshold < last {
        sel + threshold
    } else {
        last
    };
    &&& !(up < top)
    &&& sel + threshold >= bottom
    &&& fit_entries(heights, (goal + 1) as nat, window as int) == goal + 1
}

/// The heights held by a vector.
pub open spec fn heights_of(v: Seq<usize>) -> Seq<int> {
    v.map_values(|h: usize| h as int)
}

/// `fit_entries` on the heights `heights`.
fn fit_entries_of(heights: &Vec<usize>, n: usize, window: usize) -> (r: usize)
    requires
        n <= heights.len(),
    ensures
        r == fit_entries(heights_of(heights@), n as nat, window as int),
{
    let ghost hs = heights_of(heights@);
    let mut fill = window;
    let mut count: usize = 0;
    let mut stop = false;
    while !stop && count < n
        invariant
            n <= heights.len(),
            hs == heights_of(heights@),
            count <= n,
            fit_entries(hs, n as nat, window as int) == count + (if stop {
                0
            } else {
                fit_entries(hs, (n - count) as nat, fill as int)
            }),
        decreases 2 * (n - count) + if stop {
            0int
        } else {
            1int
        },
    {
        let h = heights[n - 1 - count];
        assert(hs[n - 1 - count] == h);
        if fill < 2 || h > fill - 2 {
            stop = true;
        } else {
            fill = fill - (h + 2);
            fill = if fill >= 1 {
                fill - 1
            } else {
                0
            };
            count = count + 1;
        }
    }
    count
}

/// Whether selecting entry `index` among `len` entries of `heights` comment lines
/// panics.
fn select_panics_of(
    len: usize,
    heights: &Vec<usize>,
    top: usize,
    bottom: usize,
    index: usize,
    window: usize,
    threshold: usize,
) -> (b: bool)
    requires
        0 < len == heights.len(),
        (if index < len - 1 {
            index as int
        } else {
            len - 1
        }) + threshold <= usize::MAX,
    ensures
        b == select_panics(len as int, heights_of(heights@), top, bottom, index as int, window, threshold),
{
    let last = len - 1;
    let sel = if index < last {
        index
    } else {
        last
    };
    let up = if sel >= threshold {
        sel - threshold
    } else {
        0
    };
    let goal = if sel + threshold < last {
        sel + threshold
    } else {
        last
    };
    !(up < top) && sel + threshold >= bottom && fit_entries_of(heights, goal + 1, window) == goal + 1
}

/// Scrolling keeps this many entries visible beyond the selected one.
pub const SCROLL_THRESHOLD_ITEMS: usize = 2;

/// The state of the interactive list: the entries, their wrapped comments, the
/// selected entry, the first and one past the last entry drawn, the screen
/// size and the previous action.
pub struct UIState {
    pub entries: Vec<Entry>,
    pub entry_comments: Vec<Vec<String>>,
    pub selected_entry_index: usize,
    pub top_index: usize,
    pub bottom_index: usize,
    pub y_size: u16,
    pub x_size: u16,
    pub previous_action: Option<Action>,
}

impl UIState {
    /// The state's invariant: one list of wrapped comment lines per entry, made
    /// for the current width; the selection names an entry, or is 0 when there
    /// is none; the screen is wide enough for entries.
    pub open spec fn wf(&self) -> bool {
        &&& self.lists_ok()
        &&& (self.selected_entry_index < self.entries.len() || (self.entries.len() == 0
            && self.selected_entry_index == 0))
    }

    /// The part of the invariant that does not concern the selection.
    pub open spec fn lists_ok(&self) -> bool {
        &&& self.entries.len() < usize::MAX
        &&& comments_match(self.entries@, self.entry_comments@, self.x_size)
        &&& self.x_size >= 10
    }

    /// The number of comment lines of each entry.
    pub open spec fn heights(&self) -> Seq<int> {
        self.entry_comments@.map_values(|c: Vec<String>| c.len() as int)
    }

    /// The selection and the first entry drawn after `select_entry(index,
    /// window, threshold)`.
    pub open spec fn select_result(&self, index: usize, window: usize, threshold: usize) -> (
        usize,
        usize,
    ) {
        select_outcome(
            self.entries.len() as int,
            self.heights(),
            self.top_index,
            self.bottom_index,
            index as int,
            window,
            threshold,
        )
    }

    /// A state for `entries` on a screen of `x_size` by `y_size`, with the first
    /// entry selected and drawn at the top.
    pub fn new(entries: Vec<Entry>, x_size: u16, y_size: u16) -> (s: Self)
        requires
            entries.len() < usize::MAX,
            x_size >= 10,
            forall|i: int| 0 <= i < entries.len() ==> comment_fits(#[trigger] entries[i]@.comment, x_size),
        ensures
            s.wf(),
            s.entries@ == entries@,
            s.selected_entry_index == 0,
            s.top_index == 0,
            s.bottom_index == 0,
            s.x_size == x_size,
            s.y_size == y_size,
            s.previous_action is None,
    {
        let entry_comments = Self::wrap_all(&entries, x_size);
        UIState {
            entries,
            entry_comments,
            selected_entry_index: 0,
            top_index: 0,
            bottom_index: 0,
            y_size,
            x_size,
            previous_action: None,
        }
    }

    /// The wrapped comment lines of each entry.
    fn wrap_all(entries: &Vec<Entry>, x_size: u16) -> (r: Vec<Vec<String>>)
        requires
            forall|i: int| 0 <= i < entries.len() ==> comment_fits(#[trigger] entries[i]@.comment, x_size),
        ensures
            comments_match(entries@, r@, x_size),
    {
        let mut r: Vec<Vec<String>> = Vec::new();
        let mut i: usize = 0;
        while i < entries.len()
            invariant
                i <= entries.len(),
                forall|j: int| 0 <= j < entries.len() ==> comment_fits(#[trigger] entries[j]@.comment, x_size),
                r.len() == i,
                forall|j: int| 0 <= j < i ==> string_rows(#[trigger] r@[j]@) == comment_lines(entries@[j]@.comment, x_size),
            decreases entries.len() - i,
        {
            let lines = Self::split_entry_comments(&entries[i], x_size);
            r.push(lines);
            i = i + 1;
        }
        r
    }

    /// Takes a new screen size, wrapping the comments again for the new width.
    pub fn resize(&mut self, y_size: u16, x_size: u16)
        requires
            old(self).wf(),
            x_size >= 10,
            forall|i: int| 0 <= i < old(self).entries.len() ==> comment_fits(#[trigger] old(self).entries[i]@.comment, x_size),
        ensures
            final(self).wf(),
            final(self).entries@ == old(self).entries@,
            final(self).x_size == x_size,
            final(self).y_size == y_size,
            final(self).selected_entry_index == old(self).selected_entry_index,
            final(self).top_index == old(self).top_index,
            final(self).bottom_index == old(self).bottom_index,
            final(self).previous_action == old(self).previous_action,
    {
        self.x_size = x_size;
        self.y_size = y_size;
        self.entry_comments = Self::wrap_all(&self.entries, x_size);
    }

    /// Selects entry `index` (or the last entry), scrolling as `select_result` says.
    pub fn select_entry(&mut self, index: usize, window_height: usize, edge_threshold: usize)
        requires
            old(self).lists_ok(),
            old(self).entries.len() > 0,
            (if index < old(self).entries.len() - 1 {
                index as int
            } else {
                old(self).entries.len() - 1
            }) + edge_threshold <= usize::MAX,
            !select_panics(
                old(self).entries.len() as int,
                old(self).heights(),
                old(self).top_index,
                old(self).bottom_index,
                index as int,
                window_height,
                edge_threshold,
            ),
        ensures
            final(self).wf(),
            (final(self).selected_entry_index, final(self).top_index) == old(self).select_result(
                index,
                window_height,
                edge_threshold,
            ),
            final(self).entries@ == old(self).entries@,
            final(self).entry_comments@ == old(self).entry_comments@,
            final(self).bottom_index == old(self).bottom_index,
            final(self).x_size == old(self).x_size,
            final(self).y_size == old(self).y_size,
            final(self).previous_action == old(self).previous_action,
    {
        let last = self.entries.len() - 1;
        let sel = if index < last {
            index
        } else {
            last
        };
        self.selected_entry_index = sel;
        let up = if sel >= edge_threshold {
            sel - edge_threshold
        } else {
            0
        };
        if up < self.top_index {
            self.top_index = up;
            return ;
        }
        if sel + edge_threshold >= self.bottom_index {
            let goal = if sel + edge_threshold < last {
                sel + edge_threshold
            } else {
                last
            };
            let ghost hs = self.heights();
            let mut fill = window_height;
            let mut count: usize = 0;
            let mut stop = false;
            while !stop && count <= goal
                invariant
                    goal < self.entry_comments.len(),
                    hs == self.heights(),
                    count <= goal + 1,
                    fit_entries(hs, (goal + 1) as nat, window_height as int) == count + (if stop {
                        0
                    } else {
                        fit_entries(hs, (goal + 1 - count) as nat, fill as int)
                    }),
                decreases 2 * (goal + 1 - count) + if stop {
                    0int
                } else {
                    1int
                },
            {
                let idx = goal - count;
                let h = self.entry_comments[idx].len();
                assert(hs[idx as int] == h);
                if fill < 2 || h > fill - 2 {
                    stop = true;
                } else {
                    fill = fill - (h + 2);
                    fill = if fill >= 1 {
                        fill - 1
                    } else {
                        0
                    };
                    count = count + 1;
                }
            }
            proof {
                lemma_fit_entries_bound(hs, (goal + 1) as nat, window_height as int);
            }
            self.top_index = goal - count + 1;
        }
    }

    /// The selection counter shown in the corner: the position of the selected
    /// entry (at most the number of entries), a slash, and the number of entries.
    pub fn render_selected_index(&self) -> (r: Vec<StyledLine>)
        requires
            self.wf(),
        ensures
            line_views(r@) == seq![
                SpecLine {
                    text: decimal(
                        (if self.selected_entry_index + 1 < self.entries.len() {
                            self.selected_entry_index + 1
                        } else {
                            self.entries.len() as int
                        }) as nat,
                    ),
                    style: LineStyle::Magenta,
                },
                SpecLine { text: seq!['/'], style: LineStyle::Plain },
                SpecLine { text: decimal(self.entries.len() as nat), style: LineStyle::Plain },
            ],
    {
        let len = self.entries.len();
        let pos = if self.selected_entry_index + 1 < len {
            self.selected_entry_index + 1
        } else {
            len
        };
        let mut slash: Vec<char> = Vec::new();
        slash.push('/');
        assert(slash@ =~= seq!['/']);
        let mut r: Vec<StyledLine> = Vec::new();
        r.push(StyledLine { text: usize_to_string(pos), style: LineStyle::Magenta });
        r.push(StyledLine { text: string_from_chars(&slash), style: LineStyle::Plain });
        r.push(StyledLine { text: usize_to_string(len), style: LineStyle::Plain });
        assert(line_views(r@) =~= seq![
            SpecLine { text: decimal(pos as nat), style: LineStyle::Magenta },
            SpecLine { text: seq!['/'], style: LineStyle::Plain },
            SpecLine { text: decimal(len as nat), style: LineStyle::Plain },
        ]);
        r
    }

    /// The lines that draw an entry: its comment lines, then `dir:line`
    /// underlined, then the trimmed source line if there is one; the selected
    /// entry is drawn in magenta; the last two lines are cut to `x_size` bytes.
    pub open spec fn entry_lines(
        &self,
        line: usize,
        entry_index: usize,
        relative_dir: Seq<char>,
        source_line: Option<Seq<char>>,
        x_size: u16,
    ) -> Seq<SpecLine> {
        let highlight = self.selected_entry_index == entry_index;
        let comments = if entry_index < self.entry_comments.len() {
            styled(
                string_rows(self.entry_comments@[entry_index as int]@),
                if highlight {
                    LineStyle::Magenta
                } else {
                    LineStyle::Plain
                },
            )
        } else {
            Seq::<SpecLine>::empty()
        };
        let location = SpecLine {
            text: truncated(relative_dir, x_size as nat) + seq![':'] + decimal(line as nat),
            style: if highlight {
                LineStyle::UnderlinedMagenta
            } else {
                LineStyle::Underlined
            },
        };
        let code = match source_line {
            Some(l) => seq![
                SpecLine {
                    text: truncated(trim(l), x_size as nat),
                    style: LineStyle::ItalicDarkGrey,
                },
            ],
            None => Seq::<SpecLine>::empty(),
        };
        comments.push(location) + code
    }

    /// Draws `entry`, the entry at `entry_index`, given the directory of its file
    /// relative to the working directory and, if it could be read, the line of
    /// source it points at.
    pub fn render_entry(
        &self,
        entry: &Entry,
        entry_index: usize,
        relative_dir: &str,
        source_line: Option<&str>,
        x_size: u16,
    ) -> (r: Vec<StyledLine>)
        requires
            truncate_ok(relative_dir@, x_size as nat),
            source_line matches Some(l) ==> truncate_ok(trim(l@), x_size as nat),
        ensures
            line_views(r@) == self.entry_lines(
                entry.line,
                entry_index,
                relative_dir@,
                match source_line {
                    Some(l) => Some(l@),
                    None => None,
                },
                x_size,
            ),
    {
        let highlight = self.selected_entry_index == entry_index;
        let mut result: Vec<StyledLine> = Vec::new();
        let ghost spec_lines = self.entry_lines(
            entry.line,
            entry_index,
            relative_dir@,
            match source_line {
                Some(l) => Some(l@),
                None => None,
            },
            x_size,
        );
        let style = if highlight {
            LineStyle::Magenta
        } else {
            LineStyle::Plain
        };
        if entry_index < self.entry_comments.len() {
            let comments = &self.entry_comments[entry_index];
            let ghost rows = string_rows(comments@);
            let mut i: usize = 0;
            while i < comments.len()
                invariant
                    i <= comments.len(),
                    rows == string_rows(comments@),
                    line_views(result@) == styled(rows.take(i as int), style),
                decreases comments.len() - i,
            {
                let ghost before = line_views(result@);
                let line = StyledLine { text: comments[i].clone(), style };
                result.push(line);
                assert(rows[i as int] == comments@[i as int]@);
                assert(line_views(result@) =~= before.push(line@));
                i = i + 1;
                assert(styled(rows.take(i as int), style) =~= styled(rows.take(i - 1), style).push(
                    line@,
                ));
            }
            assert(rows.take(i as int) =~= rows);
        } else {
            assert(line_views(result@) =~= Seq::<SpecLine>::empty());
        }
        let dir_chars = chars_of(relative_dir);
        let mut location = truncate_chars(&dir_chars, x_size as usize);
        location.push(':');
        push_decimal(&mut location, entry.line);
        assert(location@ =~= truncated(relative_dir@, x_size as nat) + seq![':'] + decimal(
            entry.line as nat,
        ));
        let ghost comment_part = line_views(result@);
        assert(comment_part == if entry_index < self.entry_comments.len() {
            styled(string_rows(self.entry_comments@[entry_index as int]@), style)
        } else {
            Seq::<SpecLine>::empty()
        });
        let location_style = if highlight {
            LineStyle::UnderlinedMagenta
        } else {
            LineStyle::Underlined
        };
        let ghost before = line_views(result@);
        result.push(StyledLine { text: string_from_chars(&location), style: location_style });
        assert(line_views(result@) =~= before.push(result@[before.len() as int]@));
        match source_line {
            Some(l) => {
                let cs = chars_of(l);
                let t = trim_chars(&cs);
                let cut = truncate_chars(&t, x_size as usize);
                let ghost before2 = line_views(result@);
                result.push(
                    StyledLine { text: string_from_chars(&cut), style: LineStyle::ItalicDarkGrey },
                );
                assert(line_views(result@) =~= before2.push(result@[before2.len() as int]@));
            },
            None => {},
        }
        assert(line_views(result@) =~= spec_lines) by {
            let loc = SpecLine {
                text: truncated(relative_dir@, x_size as nat) + seq![':'] + decimal(
                    entry.line as nat,
                ),
                style: location_style,
            };
            match source_line {
                Some(l) => {
                    assert(line_views(result@) =~= comment_part.push(loc) + seq![
                        SpecLine {
                            text: truncated(trim(l@), x_size as nat),
                            style: LineStyle::ItalicDarkGrey,
                        },
                    ]);
                },
                None => {
                    assert(line_views(result@) =~= comment_part.push(loc) + Seq::<SpecLine>::empty());
                },
            }
        }
        result
    }
}

/// Every entry is drawn with all of its wrapped comment lines first, selected
/// or not; the selection changes only the styles. After the comment come the
/// location line and, if the source line was read, that line.
pub proof fn entry_drawing_shows_comment(
    s: UIState,
    line: usize,
    entry_index: usize,
    relative_dir: Seq<char>,
    source_line: Option<Seq<char>>,
    x_size: u16,
)
    requires
        s.lists_ok(),
        entry_index < s.entries.len(),
    ensures
        ({
            let out = s.entry_lines(line, entry_index, relative_dir, source_line, x_size);
            let cs = comment_lines(s.entries@[entry_index as int]@.comment, s.x_size);
            let selected = s.selected_entry_index == entry_index;
            &&& out.len() == cs.len() + 1 + if source_line is Some {
                1int
            } else {
                0int
            }
            &&& forall|i: int|
                0 <= i < cs.len() ==> (#[trigger] out[i]).text == cs[i] && out[i].style == if selected {
                    LineStyle::Magenta
                } else {
                    LineStyle::Plain
                }
            &&& out[cs.len() as int].text == truncated(relative_dir, x_size as nat) + seq![':']
                + decimal(line as nat)
            &&& out[cs.len() as int].style == if selected {
                LineStyle::UnderlinedMagenta
            } else {
                LineStyle::Underlined
            }
            &&& source_line matches Some(l) ==> out[cs.len() as int + 1] == (SpecLine {
                text: truncated(trim(l), x_size as nat),
                style: LineStyle::ItalicDarkGrey,
            })
        }),
{
    let out = s.entry_lines(line, entry_index, relative_dir, source_line, x_size);
    let rows = string_rows(s.entry_comments@[entry_index as int]@);
    assert(rows == comment_lines(s.entries@[entry_index as int]@.comment, s.x_size));
}

/// A blank line.
pub open spec fn blank_line() -> SpecLine {
    SpecLine { text: Seq::<char>::empty(), style: LineStyle::Plain }
}

/// One step of filling a screen of `y` rows with drawn entries: an entry that
/// fits is added, with a blank line after it if there is room; the first entry
/// that does not fit ends the filling.
pub open spec fn layout_step(st: (Seq<SpecLine>, nat, bool), r: Seq<SpecLine>, y: nat) -> (
    Seq<SpecLine>,
    nat,
    bool,
) {
    if st.2 {
        st
    } else if st.0.len() + r.len() > y {
        (st.0, st.1, true)
    } else {
        let out = st.0 + r;
        (
            if out.len() < y {
                out.push(blank_line())
            } else {
                out
            },
            st.1 + 1,
            false,
        )
    }
}

/// The lines drawn, the number of entries drawn, and whether filling stopped,
/// for the drawn entries `rs` on a screen of `y` rows.
pub open spec fn layout(rs: Seq<Seq<SpecLine>>, y: nat) -> (Seq<SpecLine>, nat, bool)
    decreases rs.len(),
{
    if rs.len() == 0 {
        (Seq::<SpecLine>::empty(), 0, false)
    } else {
        layout_step(layout(rs.drop_last(), y), rs.last(), y)
    }
}

/// The values of each drawn entry.
pub open spec fn entry_line_views(rs: Seq<Vec<StyledLine>>) -> Seq<Seq<SpecLine>> {
    rs.map_values(|r: Vec<StyledLine>| line_views(r@))
}

/// The screen never gets more lines than it has rows, nor more entries than
/// were offered.
pub proof fn layout_fits(rs: Seq<Seq<SpecLine>>, y: nat)
    ensures
        layout(rs, y).0.len() <= y,
        layout(rs, y).1 <= rs.len(),
    decreases rs.len(),
{
    if rs.len() > 0 {
        layout_fits(rs.drop_last(), y);
    }
}

/// The drawn entries `rs` one after the other, each followed by a blank line
/// while the screen of `y` rows still has room for one.
pub open spec fn stacked(rs: Seq<Seq<SpecLine>>, y: nat) -> Seq<SpecLine>
    decreases rs.len(),
{
    if rs.len() == 0 {
        Seq::<SpecLine>::empty()
    } else {
        let out = stacked(rs.drop_last(), y) + rs.last();
        if out.len() < y {
            out.push(blank_line())
        } else {
            out
        }
    }
}

/// The screen shows a prefix of the drawn entries, in order and whole: the
/// first `c` of them stacked, with `c` the number of entries drawn; filling
/// stopped exactly when some entry was left out, and the first entry left out
/// is one that did not fit in the rows that were left. Nothing of a later
/// entry is shown.
pub proof fn layout_draws_prefix(rs: Seq<Seq<SpecLine>>, y: nat)
    ensures
        layout(rs, y).1 <= rs.len(),
        layout(rs, y).0 == stacked(rs.take(layout(rs, y).1 as int), y),
        layout(rs, y).2 <==> layout(rs, y).1 < rs.len(),
        layout(rs, y).1 < rs.len() ==> layout(rs, y).0.len() + rs[layout(rs, y).1 as int].len()
            > y,
    decreases rs.len(),
{
    if rs.len() > 0 {
        let n = rs.len() as int;
        let prev = rs.drop_last();
        layout_draws_prefix(prev, y);
        let c = layout(prev, y).1 as int;
        assert(prev.take(c) =~= rs.take(c));
        if c < n - 1 {
            assert(prev[c] == rs[c]);
        } else {
            assert(rs.last() == rs[n - 1]);
            assert(rs.take(n) =~= rs);
            assert(rs.take(n).drop_last() =~= prev);
        }
    } else {
        assert(rs.take(0) =~= rs);
    }
}

fn copy_line(l: &StyledLine) -> (r: StyledLine)
    ensures
        r@ == l@,
{
    StyledLine { text: l.text.clone(), style: l.style }
}

impl UIState {
    /// Fills a screen of `y_size` rows with the drawn entries `rendered`, which
    /// are the entries from `top_index` on, and records one past the last entry
    /// drawn as `bottom_index`.
    pub fn render_entries(&mut self, rendered: &Vec<Vec<StyledLine>>, y_size: u16) -> (r: Vec<
        StyledLine,
    >)
        requires
            old(self).wf(),
            rendered.len() == if old(self).top_index <= old(self).entries.len() {
                old(self).entries.len() - old(self).top_index
            } else {
                0
            },
        ensures
            final(self).wf(),
            line_views(r@) == layout(entry_line_views(rendered@), y_size as nat).0,
            final(self).bottom_index == old(self).top_index + layout(
                entry_line_views(rendered@),
                y_size as nat,
            ).1,
            final(self).bottom_index <= final(self).entries.len() || final(self).bottom_index == old(self).top_index,
            final(self).entries@ == old(self).entries@,
            final(self).entry_comments@ == old(self).entry_comments@,
            final(self).selected_entry_index == old(self).selected_entry_index,
            final(self).top_index == old(self).top_index,
            final(self).x_size == old(self).x_size,
            final(self).y_size == old(self).y_size,
            final(self).previous_action == old(self).previous_action,
    {
        let ghost rs = entry_line_views(rendered@);
        let y = y_size as usize;
        let mut result: Vec<StyledLine> = Vec::new();
        let mut count: usize = 0;
        let mut stop = false;
        let mut k: usize = 0;
        while k < rendered.len()
            invariant
                k <= rendered.len(),
                rs == entry_line_views(rendered@),
                y == y_size,
                (line_views(result@), count as nat, stop) == layout(rs.take(k as int), y as nat),
                result.len() <= y,
                count <= k,
            decreases rendered.len() - k,
        {
            assert(rs.take(k + 1).drop_last() =~= rs.take(k as int));
            assert(rs.take(k + 1).last() == line_views(rendered@[k as int]@));
            let r = &rendered[k];
            if !stop {
                if r.len() > y - result.len() {
                    stop = true;
                } else {
                    let ghost before = line_views(result@);
                    let mut j: usize = 0;
                    while j < r.len()
                        invariant
                            j <= r.len(),
                            line_views(result@) == before + line_views(r@).take(j as int),
                        decreases r.len() - j,
                    {
                        let ghost b2 = line_views(result@);
                        let l = copy_line(&r[j]);
                        assert(l@ == line_views(r@)[j as int]);
                        result.push(l);
                        assert(line_views(result@) =~= b2.push(l@));
                        j = j + 1;
                        assert(line_views(result@) =~= before + line_views(r@).take(j as int));
                    }
                    assert(line_views(r@).take(j as int) =~= line_views(r@));
                    if result.len() < y {
                        let ghost b3 = line_views(result@);
                        result.push(StyledLine { text: String::new(), style: LineStyle::Plain });
                        assert(line_views(result@) =~= b3.push(blank_line()));
                    }
                    count = count + 1;
                }
            }
            k = k + 1;
        }
        assert(rs.take(k as int) =~= rs);
        proof {
            layout_fits(rs, y as nat);
        }
        self.bottom_index = self.top_index + count;
        result
    }
}

/// A change that the file of entries must undergo.
#[derive(Debug, Clone, Copy, PartialEq, Eq)]
pub enum FileChange {
    Swap { index_a: usize, index_b: usize },
    Remove { index: usize },
}

/// What is to be done once an action is taken: nothing, draw the screen again,
/// change the file and then draw the screen again, or leave.
#[derive(Debug, Clone, Copy, PartialEq, Eq)]
pub enum UiCommand {
    Nothing,
    Redraw,
    ChangeFile(FileChange),
    Exit,
}

fn swap_adjacent<T>(v: &mut Vec<T>, i: usize)
    requires
        0 < i < old(v).len(),
    ensures
        final(v)@ == swapped(old(v)@, i as int, i - 1),
        final(v)@ == swapped(old(v)@, i - 1, i as int),
{
    let e = v.remove(i);
    v.insert(i - 1, e);
    assert(v@ =~= swapped(old(v)@, i as int, i - 1));
    assert(v@ =~= swapped(old(v)@, i - 1, i as int));
}

proof fn lemma_comments_match_swap(es: Seq<Entry>, cs: Seq<Vec<String>>, x: u16, a: int, b: int)
    requires
        comments_match(es, cs, x),
        0 <= a < es.len(),
        0 <= b < es.len(),
    ensures
        comments_match(swapped(es, a, b), swapped(cs, a, b), x),
{
    let e2 = swapped(es, a, b);
    let c2 = swapped(cs, a, b);
    assert forall|i: int| 0 <= i < e2.len() implies string_rows(#[trigger] c2[i]@) == comment_lines(
        e2[i]@.comment,
        x,
    ) by {
        if i == b {
            assert(c2[i] == cs[a] && e2[i] == es[a]);
        } else if i == a {
            assert(c2[i] == cs[b] && e2[i] == es[b]);
        } else {
            assert(c2[i] == cs[i] && e2[i] == es[i]);
        }
    }
}

proof fn lemma_comments_match_remove(es: Seq<Entry>, cs: Seq<Vec<String>>, x: u16, k: int)
    requires
        comments_match(es, cs, x),
        0 <= k < es.len(),
    ensures
        comments_match(es.remove(k), cs.remove(k), x),
{
    let e2 = es.remove(k);
    let c2 = cs.remove(k);
    assert forall|i: int| 0 <= i < e2.len() implies string_rows(#[trigger] c2[i]@) == comment_lines(
        e2[i]@.comment,
        x,
    ) by {
        if i < k {
            assert(c2[i] == cs[i] && e2[i] == es[i]);
        } else {
            assert(c2[i] == cs[i + 1] && e2[i] == es[i + 1]);
        }
    }
}

impl UIState {
    /// The action deletes the selected entry: it is the second delete in a row.
    pub open spec fn deletes(&self, a: Action) -> bool {
        a is DeleteSelectedEntry && self.previous_action matches Some(Action::DeleteSelectedEntry)
    }

    /// The action moves the selected entry up.
    pub open spec fn swaps_up(&self, a: Action) -> bool {
        a is SwapEntryUp && self.entries.len() > 1 && self.selected_entry_index > 0
    }

    /// The action moves the selected entry down.
    pub open spec fn swaps_down(&self, a: Action) -> bool {
        a is SwapEntryDown && self.entries.len() > 1 && self.selected_entry_index
            < self.entries.len() - 1
    }

    /// Half the number of entries drawn: how far a jump moves.
    pub open spec fn jump_amount(&self) -> int {
        (self.bottom_index - self.top_index) / 2
    }

    /// The action can be taken without a panic: its own arithmetic does not
    /// overflow, and the selection it makes does not panic.
    pub open spec fn action_ok(&self, a: Action) -> bool {
        &&& self.arithmetic_ok(a)
        &&& (self.select_request(a) matches Some(r) ==> !select_panics(
            self.entries_after(a).len() as int,
            self.heights_after(a),
            self.top_index,
            self.bottom_index,
            r.0,
            self.y_size as usize,
            r.1,
        ))
    }

    /// The number of comment lines of each entry after an action other than a
    /// resize.
    pub open spec fn heights_after(&self, a: Action) -> Seq<int> {
        self.comments_after(a).map_values(|c: Vec<String>| c.len() as int)
    }

    /// The action's own steps do not overflow (nor remove from an empty list).
    pub open spec fn arithmetic_ok(&self, a: Action) -> bool {
        let len = self.entries.len();
        match a {
            Action::MoveDown => len > 0,
            Action::DeleteSelectedEntry => self.deletes(a) ==> len >= 2,
            Action::JumpDown => self.bottom_index >= self.top_index && len > 0
                && self.selected_entry_index + self.jump_amount() <= usize::MAX,
            Action::JumpUp => self.bottom_index >= self.top_index && len > 0,
            Action::JumpToTop => len > 0,
            Action::JumpToBottom => len > 0,
            Action::Resize { y_size, x_size } => x_size >= 10 && forall|i: int|
                0 <= i < len ==> comment_fits(#[trigger] self.entries[i]@.comment, x_size),
            _ => true,
        }
    }

    /// The entries after the action.
    pub open spec fn entries_after(&self, a: Action) -> Seq<Entry> {
        let sel = self.selected_entry_index as int;
        if self.swaps_up(a) {
            swapped(self.entries@, sel, sel - 1)
        } else if self.swaps_down(a) {
            swapped(self.entries@, sel, sel + 1)
        } else if self.deletes(a) {
            self.entries@.remove(sel)
        } else {
            self.entries@
        }
    }

    /// The wrapped comments after an action other than a resize.
    pub open spec fn comments_after(&self, a: Action) -> Seq<Vec<String>> {
        let sel = self.selected_entry_index as int;
        if self.swaps_up(a) {
            swapped(self.entry_comments@, sel, sel - 1)
        } else if self.swaps_down(a) {
            swapped(self.entry_comments@, sel, sel + 1)
        } else if self.deletes(a) {
            self.entry_comments@.remove(sel)
        } else {
            self.entry_comments@
        }
    }

    /// The entry that the action selects, and how many entries it keeps visible
    /// around it, if it selects one.
    pub open spec fn select_request(&self, a: Action) -> Option<(int, usize)> {
        let sel = self.selected_entry_index as int;
        let len = self.entries.len() as int;
        match a {
            Action::MoveDown => if sel < len - 1 {
                Some((sel + 1, SCROLL_THRESHOLD_ITEMS))
            } else {
                None
            },
            Action::MoveUp => if sel > 0 {
                Some((sel - 1, SCROLL_THRESHOLD_ITEMS))
            } else {
                None
            },
            Action::SwapEntryUp => if self.swaps_up(a) {
                Some((sel - 1, SCROLL_THRESHOLD_ITEMS))
            } else {
                None
            },
            Action::SwapEntryDown => if self.swaps_down(a) {
                Some((sel + 1, SCROLL_THRESHOLD_ITEMS))
            } else {
                None
            },
            Action::DeleteSelectedEntry => if self.deletes(a) {
                Some((sel, 0))
            } else {
                None
            },
            Action::JumpDown => Some(
                (
                    if sel + self.jump_amount() < len - 1 {
                        sel + self.jump_amount()
                    } else {
                        len - 1
                    },
                    SCROLL_THRESHOLD_ITEMS,
                ),
            ),
            Action::JumpUp => Some(
                (
                    if sel >= self.jump_amount() {
                        sel - self.jump_amount()
                    } else {
                        0
                    },
                    SCROLL_THRESHOLD_ITEMS,
                ),
            ),
            Action::JumpToTop => Some((0, SCROLL_THRESHOLD_ITEMS)),
            Action::JumpToBottom => Some((len - 1, SCROLL_THRESHOLD_ITEMS)),
            _ => None,
        }
    }

    /// The selection and the first entry drawn after the action.
    pub open spec fn selection_after(&self, a: Action) -> (usize, usize) {
        match self.select_request(a) {
            Some(r) => select_outcome(
                self.entries_after(a).len() as int,
                self.heights_after(a),
                self.top_index,
                self.bottom_index,
                r.0,
                self.y_size as usize,
                r.1,
            ),
            None => (self.selected_entry_index, self.top_index),
        }
    }

    /// What is to be done once the action is taken.
    pub open spec fn command_for(&self, a: Action) -> UiCommand {
        let sel = self.selected_entry_index;
        match a {
            Action::Exit => UiCommand::Exit,
            Action::Resize { .. } => UiCommand::Redraw,
            Action::SwapEntryUp => if self.swaps_up(a) {
                UiCommand::ChangeFile(FileChange::Swap { index_a: sel, index_b: (sel - 1) as usize })
            } else {
                UiCommand::Nothing
            },
            Action::SwapEntryDown => if self.swaps_down(a) {
                UiCommand::ChangeFile(FileChange::Swap { index_a: sel, index_b: (sel + 1) as usize })
            } else {
                UiCommand::Nothing
            },
            Action::DeleteSelectedEntry => if self.deletes(a) {
                UiCommand::ChangeFile(FileChange::Remove { index: sel })
            } else {
                UiCommand::Nothing
            },
            _ => if self.select_request(a) is Some {
                UiCommand::Redraw
            } else {
                UiCommand::Nothing
            },
        }
    }

    /// The action remembered after the action: none after a deletion; the old one
    /// when leaving; else the action itself.
    pub open spec fn previous_after(&self, a: Action) -> Option<Action> {
        if self.deletes(a) {
            None
        } else if a is Exit {
            self.previous_action
        } else {
            Some(a)
        }
    }

    /// The screen size after the action.
    pub open spec fn size_after(&self, a: Action) -> (u16, u16) {
        match a {
            Action::Resize { y_size, x_size } => (y_size, x_size),
            _ => (self.y_size, self.x_size),
        }
    }

    /// The number of comment lines of each entry.
    fn heights_vec(&self) -> (v: Vec<usize>)
        ensures
            heights_of(v@) == self.heights(),
            v.len() == self.entry_comments.len(),
    {
        let mut v: Vec<usize> = Vec::new();
        let mut i: usize = 0;
        while i < self.entry_comments.len()
            invariant
                i <= self.entry_comments.len(),
                v.len() == i,
                heights_of(v@) == self.heights().take(i as int),
            decreases self.entry_comments.len() - i,
        {
            let ghost before = v@;
            v.push(self.entry_comments[i].len());
            assert(v@ == before.push(self.entry_comments@[i as int].len()));
            i = i + 1;
            assert(heights_of(v@) =~= self.heights().take(i as int));
        }
        assert(self.heights().take(i as int) =~= self.heights());
        v
    }

    /// Whether `action` can be taken without a panic.
    pub fn can_handle(&self, action: &Action) -> (b: bool)
        requires
            self.wf(),
        ensures
            b == self.action_ok(*action),
    {
        if !self.arithmetic_fits(action) {
            return false;
        }
        let len = self.entries.len();
        let sel = self.selected_entry_index;
        let top = self.top_index;
        let bottom = self.bottom_index;
        let window = self.y_size as usize;
        let mut hs = self.heights_vec();
        let ghost a = *action;
        match action {
            Action::MoveDown => {
                if sel < len - 1 {
                    !select_panics_of(len, &hs, top, bottom, sel + 1, window, SCROLL_THRESHOLD_ITEMS)
                } else {
                    true
                }
            },
            Action::MoveUp => {
                if sel > 0 {
                    !select_panics_of(len, &hs, top, bottom, sel - 1, window, SCROLL_THRESHOLD_ITEMS)
                } else {
                    true
                }
            },
            Action::SwapEntryUp => {
                if len > 1 && sel > 0 {
                    let ghost before = hs@;
                    swap_adjacent(&mut hs, sel);
                    proof {
                        let i = sel as int;
                        assert(self.heights_after(a) =~= swapped(self.heights(), i, i - 1));
                        assert(heights_of(hs@) =~= swapped(heights_of(before), i, i - 1));
                    }
                    !select_panics_of(len, &hs, top, bottom, sel - 1, window, SCROLL_THRESHOLD_ITEMS)
                } else {
                    true
                }
            },
            Action::SwapEntryDown => {
                if len > 1 && sel < len - 1 {
                    let ghost before = hs@;
                    swap_adjacent(&mut hs, sel + 1);
                    proof {
                        let i = sel as int;
                        assert(self.heights_after(a) =~= swapped(self.heights(), i, i + 1));
                        assert(heights_of(hs@) =~= swapped(heights_of(before), i, i + 1));
                    }
                    !select_panics_of(len, &hs, top, bottom, sel + 1, window, SCROLL_THRESHOLD_ITEMS)
                } else {
                    true
                }
            },
            Action::DeleteSelectedEntry => {
                let again = match &self.previous_action {
                    Some(Action::DeleteSelectedEntry) => true,
                    _ => false,
                };
                if again {
                    let ghost before = hs@;
                    hs.remove(sel);
                    proof {
                        let i = sel as int;
                        assert(self.heights_after(a) =~= self.heights().remove(i));
                        assert(heights_of(hs@) =~= heights_of(before).remove(i));
                    }
                    !select_panics_of(len - 1, &hs, top, bottom, sel, window, 0)
                } else {
                    true
                }
            },
            Action::JumpDown => {
                let jump = (bottom - top) / 2;
                let target = if sel + jump < len - 1 {
                    sel + jump
                } else {
                    len - 1
                };
                !select_panics_of(len, &hs, top, bottom, target, window, SCROLL_THRESHOLD_ITEMS)
            },
            Action::JumpUp => {
                let jump = (bottom - top) / 2;
                let target = if sel >= jump {
                    sel - jump
                } else {
                    0
                };
                !select_panics_of(len, &hs, top, bottom, target, window, SCROLL_THRESHOLD_ITEMS)
            },
            Action::JumpToTop => !select_panics_of(
                len,
                &hs,
                top,
                bottom,
                0,
                window,
                SCROLL_THRESHOLD_ITEMS,
            ),
            Action::JumpToBottom => !select_panics_of(
                len,
                &hs,
                top,
                bottom,
                len - 1,
                window,
                SCROLL_THRESHOLD_ITEMS,
            ),
            _ => true,
        }
    }

    /// The change to the file that `action` makes, if any.
    pub fn file_change_for(&self, action: &Action) -> (r: Option<FileChange>)
        requires
            self.wf(),
        ensures
            r == match self.command_for(*action) {
                UiCommand::ChangeFile(c) => Some(c),
                _ => None::<FileChange>,
            },
    {
        let len = self.entries.len();
        let sel = self.selected_entry_index;
        match action {
            Action::SwapEntryUp => if len > 1 && sel > 0 {
                Some(FileChange::Swap { index_a: sel, index_b: sel - 1 })
            } else {
                None
            },
            Action::SwapEntryDown => if len > 1 && sel < len - 1 {
                Some(FileChange::Swap { index_a: sel, index_b: sel + 1 })
            } else {
                None
            },
            Action::DeleteSelectedEntry => match &self.previous_action {
                Some(Action::DeleteSelectedEntry) => Some(FileChange::Remove { index: sel }),
                _ => None,
            },
            _ => None,
        }
    }

    /// Whether the steps of `action` itself do not overflow.
    fn arithmetic_fits(&self, action: &Action) -> (b: bool)
        requires
            self.wf(),
        ensures
            b == self.arithmetic_ok(*action),
    {
        let len = self.entries.len();
        match action {
            Action::MoveDown => len > 0,
            Action::DeleteSelectedEntry => {
                let again = match &self.previous_action {
                    Some(Action::DeleteSelectedEntry) => true,
                    _ => false,
                };
                !again || len >= 2
            },
            Action::JumpDown => {
                if self.bottom_index < self.top_index || len == 0 {
                    false
                } else {
                    let jump = (self.bottom_index - self.top_index) / 2;
                    self.selected_entry_index <= usize::MAX - jump
                }
            },
            Action::JumpUp => self.bottom_index >= self.top_index && len > 0,
            Action::JumpToTop => len > 0,
            Action::JumpToBottom => len > 0,
            Action::Resize { y_size, x_size } => *x_size >= 10 && Self::all_comments_fit(
                &self.entries,
                *x_size,
            ),
            _ => true,
        }
    }

    /// Takes an action: moves or jumps the selection, moves the selected entry
    /// up or down, deletes it on the second delete in a row, takes a new screen
    /// size; and says what is to be done next.
    #[verifier::spinoff_prover]
    #[verifier::rlimit(40)]
    pub fn handle_action(&mut self, action: Action) -> (cmd: UiCommand)
        requires
            old(self).wf(),
            old(self).action_ok(action),
        ensures
            final(self).wf(),
            cmd == old(self).command_for(action),
            final(self).entries@ == old(self).entries_after(action),
            !(action is Resize) ==> final(self).entry_comments@ == old(self).comments_after(action),
            (final(self).selected_entry_index, final(self).top_index) == old(self).selection_after(
                action,
            ),
            final(self).bottom_index == old(self).bottom_index,
            (final(self).y_size, final(self).x_size) == old(self).size_after(action),
            final(self).previous_action == old(self).previous_after(action),
    {
        let ghost old_self = *self;
        let len = self.entries.len();
        let sel = self.selected_entry_index;
        let window = self.y_size as usize;
        let again = match &self.previous_action {
            Some(Action::DeleteSelectedEntry) => true,
            _ => false,
        };
        let mut cmd = UiCommand::Nothing;
        let mut remember = true;
        match &action {
            Action::Exit => {
                return UiCommand::Exit;
            },
            Action::MoveDown => {
                if sel < len - 1 {
                    self.select_entry(sel + 1, window, SCROLL_THRESHOLD_ITEMS);
                    cmd = UiCommand::Redraw;
                }
            },
            Action::MoveUp => {
                if sel > 0 {
                    self.select_entry(sel - 1, window, SCROLL_THRESHOLD_ITEMS);
                    cmd = UiCommand::Redraw;
                }
            },
            Action::SwapEntryUp => {
                if len > 1 && sel > 0 {
                    cmd = UiCommand::ChangeFile(FileChange::Swap { index_a: sel, index_b: sel - 1 });
                    proof {
                        lemma_comments_match_swap(
                            self.entries@,
                            self.entry_comments@,
                            self.x_size,
                            sel as int,
                            sel - 1,
                        );
                    }
                    swap_adjacent(&mut self.entries, sel);
                    swap_adjacent(&mut self.entry_comments, sel);
                    self.select_entry(sel - 1, window, SCROLL_THRESHOLD_ITEMS);
                }
            },
            Action::SwapEntryDown => {
                if len > 1 && sel < len - 1 {
                    cmd = UiCommand::ChangeFile(FileChange::Swap { index_a: sel, index_b: sel + 1 });
                    proof {
                        lemma_comments_match_swap(
                            self.entries@,
                            self.entry_comments@,
                            self.x_size,
                            sel as int,
                            sel + 1,
                        );
                    }
                    swap_adjacent(&mut self.entries, sel + 1);
                    swap_adjacent(&mut self.entry_comments, sel + 1);
                    self.select_entry(sel + 1, window, SCROLL_THRESHOLD_ITEMS);
                }
            },
            Action::DeleteSelectedEntry => {
                if again {
                    cmd = UiCommand::ChangeFile(FileChange::Remove { index: sel });
                    remember = false;
                    proof {
                        lemma_comments_match_remove(
                            self.entries@,
                            self.entry_comments@,
                            self.x_size,
                            sel as int,
                        );
                    }
                    self.entries.remove(sel);
                    self.entry_comments.remove(sel);
                    self.select_entry(sel, window, 0);
                }
            },
            Action::JumpDown => {
                let jump = (self.bottom_index - self.top_index) / 2;
                let target = if sel + jump < len - 1 {
                    sel + jump
                } else {
                    len - 1
                };
                self.select_entry(target, window, SCROLL_THRESHOLD_ITEMS);
                cmd = UiCommand::Redraw;
            },
            Action::JumpUp => {
                let jump = (self.bottom_index - self.top_index) / 2;
                let target = if sel >= jump {
                    sel - jump
                } else {
                    0
                };
                self.select_entry(target, window, SCROLL_THRESHOLD_ITEMS);
                cmd = UiCommand::Redraw;
            },
            Action::JumpToTop => {
                self.select_entry(0, window, SCROLL_THRESHOLD_ITEMS);
                cmd = UiCommand::Redraw;
            },
            Action::JumpToBottom => {
                self.select_entry(len - 1, window, SCROLL_THRESHOLD_ITEMS);
                cmd = UiCommand::Redraw;
            },
            Action::Resize { y_size, x_size } => {
                self.resize(*y_size, *x_size);
                cmd = UiCommand::Redraw;
            },
            _ => {},
        }
        if remember {
            self.previous_action = Some(action);
        } else {
            self.previous_action = None;
        }
        cmd
    }
}

/// Moving the selected entry up and then down again restores the entries, their
/// comments and the selection.
pub proof fn swap_up_then_down_restores(s0: UIState, s1: UIState)
    requires
        s0.wf(),
        s0.swaps_up(Action::SwapEntryUp),
        s1.entries@ == s0.entries_after(Action::SwapEntryUp),
        s1.entry_comments@ == s0.comments_after(Action::SwapEntryUp),
        s1.selected_entry_index == s0.selection_after(Action::SwapEntryUp).0,
    ensures
        s1.swaps_down(Action::SwapEntryDown),
        s1.entries_after(Action::SwapEntryDown) == s0.entries@,
        s1.comments_after(Action::SwapEntryDown) == s0.entry_comments@,
        s1.selection_after(Action::SwapEntryDown).0 == s0.selected_entry_index,
{
    let sel = s0.selected_entry_index as int;
    assert(s1.selected_entry_index == sel - 1);
    assert(swapped(swapped(s0.entries@, sel, sel - 1), sel - 1, sel) =~= s0.entries@);
    assert(swapped(swapped(s0.entry_comments@, sel, sel - 1), sel - 1, sel) =~= s0.entry_comments@);
}

/// Moving the selection down and then up again restores it.
pub proof fn move_down_then_up_restores(s0: UIState, s1: UIState)
    requires
        s0.wf(),
        s0.selected_entry_index + 1 < s0.entries.len(),
        s1.entries@ == s0.entries_after(Action::MoveDown),
        s1.selected_entry_index == s0.selection_after(Action::MoveDown).0,
    ensures
        s1.selection_after(Action::MoveUp).0 == s0.selected_entry_index,
{
}

/// The first delete only arms the deletion: nothing changes and nothing is
/// stored, but the delete is remembered; a delete right after a delete removes
/// the selected entry, from the list and from the file.
pub proof fn delete_needs_two_presses(s: UIState)
    requires
        s.wf(),
    ensures
        !(s.previous_action matches Some(Action::DeleteSelectedEntry)) ==> {
            &&& s.entries_after(Action::DeleteSelectedEntry) == s.entries@
            &&& s.command_for(Action::DeleteSelectedEntry) == UiCommand::Nothing
            &&& s.previous_after(Action::DeleteSelectedEntry) == Some(Action::DeleteSelectedEntry)
        },
        (s.previous_action matches Some(Action::DeleteSelectedEntry)) && s.entries.len() >= 2 ==> {
            &&& s.entries_after(Action::DeleteSelectedEntry) == s.entries@.remove(
                s.selected_entry_index as int,
            )
            &&& s.command_for(Action::DeleteSelectedEntry) == UiCommand::ChangeFile(
                FileChange::Remove { index: s.selected_entry_index },
            )
            &&& s.previous_after(Action::DeleteSelectedEntry) == None::<Action>
        },
{
}

/// Selecting an entry always selects one that exists and never leaves the first
/// drawn entry past the end of the list.
pub proof fn selection_in_list(
    len: int,
    heights: Seq<int>,
    top: usize,
    bottom: usize,
    index: int,
    window: usize,
    threshold: usize,
)
    requires
        0 < len < usize::MAX,
        0 <= index,
        top <= len,
    ensures
        select_outcome(len, heights, top, bottom, index, window, threshold).0 < len,
        select_outcome(len, heights, top, bottom, index, window, threshold).1 <= len,
{
    let last = len - 1;
    let sel = if index < last {
        index
    } else {
        last
    };
    let goal = if sel + threshold < last {
        sel + threshold
    } else {
        last
    };
    lemma_fit_entries_bound(heights, (goal + 1) as nat, window as int);
}

// What scrolling down guarantees, in terms of the entries' heights

/// The rows that entries `a..b` take when drawn one after the other: each its
/// comment lines and two more rows, with one row of gap after each, the last
/// gap left out (so the total is this sum minus one).
pub open spec fn rows_sum(heights: Seq<int>, a: int, b: int) -> int
    decreases b - a,
{
    if b <= a {
        0
    } else {
        rows_sum(heights, a, b - 1) + heights[b - 1] + 3
    }
}

proof fn lemma_rows_sum_lower(heights: Seq<int>, a: int, b: int)
    requires
        a <= b <= heights.len(),
        0 <= a,
        forall|i: int| 0 <= i < heights.len() ==> heights[i] >= 0,
    ensures
        rows_sum(heights, a, b) >= 3 * (b - a),
    decreases b - a,
{
    if a < b {
        lemma_rows_sum_lower(heights, a, b - 1);
    }
}

proof fn lemma_fit_entries_iff(heights: Seq<int>, n: nat, fill: int, k: nat)
    requires
        fill >= 0,
        1 <= k <= n,
        n <= heights.len(),
        forall|i: int| 0 <= i < heights.len() ==> heights[i] >= 0,
    ensures
        (fit_entries(heights, n, fill) >= k) == (rows_sum(heights, n - k, n as int) - 1 <= fill),
    decreases n,
{
    let h = heights[n - 1];
    lemma_rows_sum_lower(heights, n - k, n - 1);
    if h + 2 > fill {
    } else {
        let left = fill - (h + 2);
        let f2 = if left >= 1 {
            left - 1
        } else {
            0
        };
        if k >= 2 {
            lemma_fit_entries_iff(heights, (n - 1) as nat, f2, (k - 1) as nat);
        }
    }
}

/// When selecting an entry scrolls the list down, the entries from the new first
/// entry drawn through the goal entry (the selection plus the threshold, at most
/// the last entry) fit in the window, each taking its comment lines and two rows
/// with a row of gap between; and the entry above the first one drawn would not
/// fit as well. The selection is the entry asked for, or the last one.
pub proof fn scroll_down_fills_window(
    len: int,
    heights: Seq<int>,
    top: usize,
    bottom: usize,
    index: int,
    window: usize,
    threshold: usize,
)
    requires
        0 < len <= usize::MAX,
        heights.len() == len,
        0 <= index,
        forall|i: int| 0 <= i < heights.len() ==> heights[i] >= 0,
        ({
            let sel = if index < len - 1 {
                index
            } else {
                len - 1
            };
            let up = if sel >= threshold {
                sel - threshold
            } else {
                0
            };
            up >= top && sel + threshold >= bottom
        }),
    ensures
        ({
            let sel = if index < len - 1 {
                index
            } else {
                len - 1
            };
            let goal = if sel + threshold < len - 1 {
                sel + threshold
            } else {
                len - 1
            };
            let r = select_outcome(len, heights, top, bottom, index, window, threshold);
            &&& r.0 == sel
            &&& r.1 <= goal + 1
            &&& (r.1 <= goal ==> rows_sum(heights, r.1 as int, goal + 1) - 1 <= window)
            &&& (r.1 > 0 ==> rows_sum(heights, r.1 - 1, goal + 1) - 1 > window)
        }),
{
    let sel = if index < len - 1 {
        index
    } else {
        len - 1
    };
    let goal = if sel + threshold < len - 1 {
        sel + threshold
    } else {
        len - 1
    };
    let n = (goal + 1) as nat;
    let c = fit_entries(heights, n, window as int);
    lemma_fit_entries_bound(heights, n, window as int);
    if c >= 1 {
        lemma_fit_entries_iff(heights, n, window as int, c);
    }
    if c < n {
        lemma_fit_entries_iff(heights, n, window as int, c + 1);
    }
}

/// Selecting an entry selects it, or the last entry if it is past the end;
/// unless the list must scroll down to show `threshold` entries below the
/// selection, the first entry drawn becomes the lesser of the old first entry
/// and the entry `threshold` above the selection (or the first entry), so
/// those entries above the selection stay in view.
pub proof fn selection_keeps_entries_above(
    len: int,
    heights: Seq<int>,
    top: usize,
    bottom: usize,
    index: int,
    window: usize,
    threshold: usize,
)
    requires
        0 < len <= usize::MAX,
        0 <= index,
    ensures
        ({
            let sel = if index < len - 1 {
                index
            } else {
                len - 1
            };
            let up = if sel >= threshold {
                sel - threshold
            } else {
                0
            };
            let r = select_outcome(len, heights, top, bottom, index, window, threshold);
            &&& r.0 == sel
            &&& (up < top || sel + threshold < bottom) ==> r.1 == if up < top {
                up
            } else {
                top as int
            }
        }),
{
}

// What wrapping guarantees, in terms of the words

/// The words `ws` joined by single spaces.
pub open spec fn join_spaced(ws: Seq<Seq<char>>) -> Seq<char>
    decreases ws.len(),
{
    if ws.len() == 0 {
        Seq::<char>::empty()
    } else if ws.len() == 1 {
        ws[0]
    } else {
        join_spaced(ws.drop_last()) + seq![' '] + ws.last()
    }
}

/// `lines` are the words `ws` cut into runs at the increasing positions `b`:
/// line `i` is words `b[i]..b[i+1]` joined by single spaces, the runs cover all
/// words in order, and each line is closed only because the next word would
/// not fit in `w` bytes after a space.
pub open spec fn greedy_lines(ws: Seq<Seq<char>>, w: int, lines: Seq<Seq<char>>, b: Seq<int>) -> bool {
    &&& b.len() == lines.len() + 1
    &&& b[0] == 0
    &&& b[lines.len() as int] == ws.len()
    &&& forall|i: int, j: int| 0 <= i < j <= lines.len() ==> #[trigger] b[i] < #[trigger] b[j]
    &&& forall|i: int|
        0 <= i < lines.len() ==> #[trigger] lines[i] == join_spaced(ws.subrange(b[i], b[i + 1]))
    &&& forall|i: int|
        0 <= i < lines.len() && b[i + 1] < ws.len() ==> byte_len(#[trigger] lines[i]) + 1
            + byte_len(ws[b[i + 1]]) > w
}

/// The first `lines.len()` runs of `greedy_lines`, without asking that they
/// reach the last word.
spec fn runs_ok(ws: Seq<Seq<char>>, w: int, lines: Seq<Seq<char>>, b: Seq<int>) -> bool {
    &&& b.len() == lines.len() + 1
    &&& b[0] == 0
    &&& forall|i: int, j: int| 0 <= i < j <= lines.len() ==> #[trigger] b[i] < #[trigger] b[j]
    &&& forall|i: int|
        0 <= i < lines.len() ==> #[trigger] lines[i] == join_spaced(ws.subrange(b[i], b[i + 1]))
    &&& forall|i: int|
        0 <= i < lines.len() && b[i + 1] < ws.len() ==> byte_len(#[trigger] lines[i]) + 1
            + byte_len(ws[b[i + 1]]) > w
}

/// Where the line being built starts after `k` words (a witness for the proof).
spec fn wrap_start(ws: Seq<Seq<char>>, w: int, k: nat) -> int
    decreases k,
{
    if k == 0 {
        0
    } else {
        let cur = wrap_fold(ws, w, (k - 1) as nat).1 + ws[k - 1];
        if k < ws.len() && byte_len(ws[k as int]) + byte_len(cur) <= w - 1 {
            wrap_start(ws, w, (k - 1) as nat)
        } else {
            k as int
        }
    }
}

/// Where the finished lines start and end after `k` words (a witness).
spec fn wrap_breaks(ws: Seq<Seq<char>>, w: int, k: nat) -> Seq<int>
    decreases k,
{
    if k == 0 {
        seq![0int]
    } else {
        let cur = wrap_fold(ws, w, (k - 1) as nat).1 + ws[k - 1];
        if k < ws.len() && byte_len(ws[k as int]) + byte_len(cur) <= w - 1 {
            wrap_breaks(ws, w, (k - 1) as nat)
        } else {
            wrap_breaks(ws, w, (k - 1) as nat).push(k as int)
        }
    }
}

proof fn lemma_join_spaced_step(ws: Seq<Seq<char>>, j: int, k: int)
    requires
        0 <= j < k <= ws.len(),
    ensures
        join_spaced(ws.subrange(j, k)) == if j == k - 1 {
            ws[k - 1]
        } else {
            join_spaced(ws.subrange(j, k - 1)) + seq![' '] + ws[k - 1]
        },
{
    assert(ws.subrange(j, k).drop_last() =~= ws.subrange(j, k - 1));
    assert(ws.subrange(j, k).last() == ws[k - 1]);
    if j == k - 1 {
        assert(ws.subrange(j, k)[0] == ws[k - 1]);
    }
}

proof fn lemma_wrap_invariant(ws: Seq<Seq<char>>, w: int, k: nat)
    requires
        k <= ws.len(),
        forall|i: int| 0 <= i < ws.len() ==> byte_len(#[trigger] ws[i]) <= w,
    ensures
        0 <= wrap_start(ws, w, k) <= k,
        runs_ok(ws, w, wrap_fold(ws, w, k).0, wrap_breaks(ws, w, k)),
        wrap_breaks(ws, w, k)[wrap_fold(ws, w, k).0.len() as int] == wrap_start(ws, w, k),
        wrap_fold(ws, w, k).1 == if wrap_start(ws, w, k) == k {
            Seq::<char>::empty()
        } else {
            join_spaced(ws.subrange(wrap_start(ws, w, k), k as int)) + seq![' ']
        },
        wrap_start(ws, w, k) < k ==> k < ws.len() && byte_len(
            join_spaced(ws.subrange(wrap_start(ws, w, k), k as int)),
        ) + byte_len(ws[k as int]) <= w - 1,
    decreases k,
{
    if k > 0 {
        let k1 = (k - 1) as nat;
        lemma_wrap_invariant(ws, w, k1);
        let st = wrap_fold(ws, w, k1);
        let j = wrap_start(ws, w, k1);
        let b = wrap_breaks(ws, w, k1);
        let cur = st.1 + ws[k - 1];
        lemma_join_spaced_step(ws, j, k as int);
        let joined = join_spaced(ws.subrange(j, k as int));
        if j == k1 {
            assert(cur =~= joined);
        } else {
            assert(cur =~= joined);
            lemma_byte_len_concat(join_spaced(ws.subrange(j, k - 1)) + seq![' '], ws[k - 1]);
            lemma_byte_len_push(join_spaced(ws.subrange(j, k - 1)), ' ');
            assert(join_spaced(ws.subrange(j, k - 1)) + seq![' '] =~= join_spaced(
                ws.subrange(j, k - 1),
            ).push(' '));
        }
        assert(byte_len(cur) <= w);
        if k < ws.len() && byte_len(ws[k as int]) + byte_len(cur) <= w - 1 {
            assert(cur.push(' ') =~= joined + seq![' ']);
            assert(wrap_fold(ws, w, k) == (st.0, cur.push(' ')));
            assert(wrap_start(ws, w, k) == j);
            assert(wrap_breaks(ws, w, k) == b);
        } else {
            lemma_truncated_bound(cur, w as nat);
            let lines2 = st.0.push(cur);
            let b2 = b.push(k as int);
            assert(wrap_fold(ws, w, k).0 == lines2);
            assert(wrap_breaks(ws, w, k) == b2);
            assert forall|i: int, m: int| 0 <= i < m <= lines2.len() implies #[trigger] b2[i]
                < #[trigger] b2[m] by {
                if m <= st.0.len() {
                    assert(b2[i] == b[i] && b2[m] == b[m]);
                } else {
                    assert(b2[m] == k);
                    assert(b2[i] == b[i]);
                    if i < st.0.len() {
                        assert(b[i] < b[st.0.len() as int]);
                    }
                }
            }
            assert forall|i: int| 0 <= i < lines2.len() implies #[trigger] lines2[i]
                == join_spaced(ws.subrange(b2[i], b2[i + 1])) by {
                if i < st.0.len() {
                    assert(lines2[i] == st.0[i]);
                    assert(b2[i] == b[i] && b2[i + 1] == b[i + 1]);
                } else {
                    assert(lines2[i] == cur);
                    assert(b2[i] == j && b2[i + 1] == k);
                }
            }
            assert forall|i: int|
                0 <= i < lines2.len() && b2[i + 1] < ws.len() implies byte_len(
                #[trigger] lines2[i],
            ) + 1 + byte_len(ws[b2[i + 1]]) > w by {
                if i < st.0.len() {
                    assert(lines2[i] == st.0[i]);
                    assert(b2[i + 1] == b[i + 1]);
                } else {
                    assert(lines2[i] == cur);
                    assert(b2[i + 1] == k);
                }
            }
            assert(runs_ok(ws, w, lines2, b2));
            assert(wrap_start(ws, w, k) == k);
        }
    } else {
        assert(wrap_breaks(ws, w, 0) =~= seq![0int]);
    }
}

/// When every word fits in `w` bytes, wrapping loses nothing: the lines are runs
/// of consecutive words joined by single spaces, covering all the words in
/// order, and a line ends only where the next word would not fit after it.
pub proof fn wrapping_keeps_words(ws: Seq<Seq<char>>, w: int)
    requires
        forall|i: int| 0 <= i < ws.len() ==> byte_len(#[trigger] ws[i]) <= w,
    ensures
        exists|b: Seq<int>| greedy_lines(ws, w, wrap_words(ws, w), b),
{
    lemma_wrap_invariant(ws, w, ws.len());
    let b = wrap_breaks(ws, w, ws.len());
    let lines = wrap_words(ws, w);
    assert(runs_ok(ws, w, lines, b));
    assert(greedy_lines(ws, w, lines, b));
}

} // verus!
