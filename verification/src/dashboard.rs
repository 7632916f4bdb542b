//! What the text interface of a search keeps and decides: the list of
//! solutions sorted by score, the selected solution, the panels shown, and
//! what each key press asks of the search.
use vstd::prelude::*;

use crate::text::{chars_of, commas, decimal, decimal_chars, lemma_decimal_len, string_from_chars, with_commas};
use crate::compare::{byte_len, utf8_bytes, utf8_len};
use crate::ui::{ThreadStatus, UISignal};

verus! {

/// A key the user pressed.
#[derive(Copy, Clone, PartialEq, Eq, Structural, Debug)]
pub enum Key {
    Char(char),
    Esc,
    Other,
}

/// The state of the dashboard that the keys act on.
pub struct Dashboard {
    solutions_found: Vec<(String, usize, Option<String>)>,
    solution_selected: Option<usize>,
    in_quit_dialog: bool,
    paused: bool,
    description_shown: bool,
    inspector_shown: bool,
    stats_shown: bool,
    threads_shown: bool,
    news_feed_shown: bool,
}

/// The scores of the solutions.
pub open spec fn scores(s: Seq<(String, usize, Option<String>)>) -> Seq<usize> {
    Seq::new(s.len(), |i: int| s[i].1)
}

/// The number of solutions whose score is at most `score`.
pub open spec fn count_at_most(s: Seq<usize>, score: usize) -> int
    decreases s.len(),
{
    if s.len() == 0 {
        0
    } else {
        count_at_most(s.drop_last(), score) + if s.last() <= score {
            1int
        } else {
            0int
        }
    }
}

/// Whether each panel is shown: description, inspector, stats, threads and
/// news feed.
pub struct Panels {
    pub description: bool,
    pub inspector: bool,
    pub stats: bool,
    pub threads: bool,
    pub news_feed: bool,
}

impl Dashboard {
    /// The solutions found, lowest score first, with their inspections.
    pub closed spec fn solutions(&self) -> Seq<(String, usize, Option<String>)> {
        self.solutions_found@
    }

    /// The selected solution.
    pub closed spec fn selected(&self) -> Option<usize> {
        self.solution_selected
    }

    /// Whether the interface asks the user to confirm quitting.
    pub closed spec fn quitting(&self) -> bool {
        self.in_quit_dialog
    }

    /// Whether the search is shown as paused.
    pub closed spec fn is_paused(&self) -> bool {
        self.paused
    }

    /// Which panels are shown.
    pub closed spec fn shown(&self) -> (bool, bool, bool, bool, bool) {
        (
            self.description_shown,
            self.inspector_shown,
            self.stats_shown,
            self.threads_shown,
            self.news_feed_shown,
        )
    }

    /// The selected solution, if any, is one of the solutions.
    pub proof fn lemma_selection_in_range(&self)
        requires
            self.wf(),
        ensures
            self.selected() matches Some(s) ==> s < self.solutions().len(),
    {
    }

    /// The solutions are sorted by score, and the selection is one of them.
    pub closed spec fn wf(&self) -> bool {
        &&& forall|i: int, j: int|
            0 <= i <= j < self.solutions_found@.len() ==> self.solutions_found@[i].1
                <= self.solutions_found@[j].1
        &&& self.solution_selected matches Some(s) ==> s < self.solutions_found@.len()
    }

    /// An empty dashboard with every panel shown; the debug banner is the
    /// driver's business.
    pub fn new() -> (r: Self)
        ensures
            r.wf(),
            r.solutions().len() == 0,
            r.selected() is None,
            !r.quitting(),
            !r.is_paused(),
            r.shown() == (true, true, true, true, true),
    {
        Dashboard {
            solutions_found: Vec::new(),
            solution_selected: None,
            in_quit_dialog: false,
            paused: false,
            description_shown: true,
            inspector_shown: true,
            stats_shown: true,
            threads_shown: true,
            news_feed_shown: true,
        }
    }

    /// The solutions found, lowest score first.
    pub fn solutions_found(&self) -> (r: &Vec<(String, usize, Option<String>)>)
        ensures
            r@ == self.solutions(),
    {
        &self.solutions_found
    }

    /// The selected solution.
    pub fn solution_selected(&self) -> (r: Option<usize>)
        ensures
            r == self.selected(),
    {
        self.solution_selected
    }

    /// Whether the quit dialog is open.
    pub fn in_quit_dialog(&self) -> (r: bool)
        ensures
            r == self.quitting(),
    {
        self.in_quit_dialog
    }

    /// Whether the search is shown as paused.
    pub fn paused(&self) -> (r: bool)
        ensures
            r == self.is_paused(),
    {
        self.paused
    }

    /// Which panels are shown.
    pub fn panels(&self) -> (r: Panels)
        ensures
            (r.description, r.inspector, r.stats, r.threads, r.news_feed) == self.shown(),
    {
        Panels {
            description: self.description_shown,
            inspector: self.inspector_shown,
            stats: self.stats_shown,
            threads: self.threads_shown,
            news_feed: self.news_feed_shown,
        }
    }

    /// Add a solution after every solution whose score is not above its own,
    /// keeping the same solution selected.
    pub fn push_solution(&mut self, face: String, score: usize, inspection: Option<String>)
        requires
            old(self).wf(),
        ensures
            final(self).wf(),
            ({
                let p = count_at_most(scores(old(self).solutions()), score);
                &&& final(self).solutions() == old(self).solutions().insert(
                    p,
                    (face, score, inspection),
                )
                &&& final(self).selected() == match old(self).selected() {
                    Some(s) => Some(
                        if p <= s {
                            (s + 1) as usize
                        } else {
                            s
                        },
                    ),
                    None => None,
                }
            }),
            old(self).selected() matches Some(s) ==> (final(self).selected() matches Some(t)
                && final(self).solutions()[t as int] == old(self).solutions()[s as int]),
            final(self).quitting() == old(self).quitting(),
            final(self).is_paused() == old(self).is_paused(),
            final(self).shown() == old(self).shown(),
    {
        let ghost sc = scores(self.solutions_found@);
        let n = self.solutions_found.len();
        let mut position: usize = 0;
        proof {
            assert(sc.take(0) =~= Seq::<usize>::empty());
        }
        while position < n && self.solutions_found[position].1 <= score
            invariant
                n == self.solutions_found@.len(),
                sc == scores(self.solutions_found@),
                self.wf(),
                position <= n,
                count_at_most(sc.take(position as int), score) == position,
                forall|i: int| 0 <= i < position ==> self.solutions_found@[i].1 <= score,
            decreases n - position,
        {
            proof {
                assert(sc.take(position + 1).drop_last() =~= sc.take(position as int));
            }
            position = position + 1;
        }
        proof {
            lemma_count_at_most_rest(sc, position as int, score);
        }
        self.solution_selected = match self.solution_selected {
            Some(selected) => Some(
                if position <= selected {
                    selected + 1
                } else {
                    selected
                },
            ),
            None => None,
        };
        self.solutions_found.insert(position, (face, score, inspection));
        proof {
            let s = self.solutions_found@;
            assert forall|i: int, j: int| 0 <= i <= j < s.len() implies s[i].1 <= s[j].1 by {
                let o = old(self).solutions_found@;
                if i < position && j > position {
                    assert(s[j] == o[j - 1]);
                    assert(o[i].1 <= o[j - 1].1);
                } else if i == position && j > position {
                    assert(s[j] == o[j - 1]);
                } else if j == position && i < position {
                    assert(s[i] == o[i]);
                } else if i > position {
                    assert(s[i] == o[i - 1] && s[j] == o[j - 1]);
                } else if j < position {
                    assert(s[i] == o[i] && s[j] == o[j]);
                }
            }
        }
    }

    /// Act on a key press. The result is the request it makes of the search:
    /// `y` in the quit dialog quits (any other key closes the dialog), `q`
    /// opens the dialog, `j` and `k` move the selection down and up, `+` and
    /// `-` ask for one worker more or less, `p` pauses or resumes, `d`,
    /// `i`, `s`, `t` and `n` show or hide the description, inspector,
    /// stats, threads and news panels, and `Esc` clears the selection.
    pub fn press(&mut self, key: Key) -> (r: Option<UISignal>)
        requires
            old(self).wf(),
        ensures
            final(self).wf(),
            final(self).solutions() == old(self).solutions(),
            old(self).quitting() ==> {
                &&& r == if key == Key::Char('y') {
                    Some(UISignal::Quit)
                } else {
                    None
                }
                &&& final(self).quitting() == (key == Key::Char('y'))
                &&& final(self).selected() == old(self).selected()
                &&& final(self).is_paused() == old(self).is_paused()
                &&& final(self).shown() == old(self).shown()
            },
            !old(self).quitting() ==> {
                &&& r == match key {
                    Key::Char('+') => Some(UISignal::IncreaseThreadCount),
                    Key::Char('-') => Some(UISignal::DecreaseThreadCount),
                    Key::Char('p') => Some(UISignal::PauseUnpause),
                    _ => None,
                }
                &&& final(self).quitting() == (key == Key::Char('q'))
                &&& final(self).is_paused() == (old(self).is_paused() != (key == Key::Char('p')))
                &&& final(self).selected() == match key {
                    Key::Char('j') => match old(self).selected() {
                        Some(s) => Some(
                            if s + 1 < old(self).solutions().len() {
                                (s + 1) as usize
                            } else {
                                s
                            },
                        ),
                        None => if old(self).solutions().len() == 0 {
                            None
                        } else {
                            Some(0usize)
                        },
                    },
                    Key::Char('k') => match old(self).selected() {
                        Some(s) => Some(
                            if s > 0 {
                                (s - 1) as usize
                            } else {
                                0usize
                            },
                        ),
                        None => if old(self).solutions().len() == 0 {
                            None
                        } else {
                            Some(0usize)
                        },
                    },
                    Key::Esc => None,
                    _ => old(self).selected(),
                }
                &&& final(self).shown() == (
                    old(self).shown().0 != (key == Key::Char('d')),
                    old(self).shown().1 != (key == Key::Char('i')),
                    old(self).shown().2 != (key == Key::Char('s')),
                    old(self).shown().3 != (key == Key::Char('t')),
                    old(self).shown().4 != (key == Key::Char('n')),
                )
            },
    {
        if self.in_quit_dialog {
            if key == Key::Char('y') {
                return Some(UISignal::Quit);
            } else {
                self.in_quit_dialog = false;
                return None;
            }
        }
        let n = self.solutions_found.len();
        match key {
            Key::Char('q') => {
                self.in_quit_dialog = true;
                None
            },
            Key::Char('j') => {
                self.solution_selected = match self.solution_selected {
                    Some(number) => Some(
                        if number + 1 < n {
                            number + 1
                        } else {
                            n - 1
                        },
                    ),
                    None => if n == 0 {
                        None
                    } else {
                        Some(0)
                    },
                };
                None
            },
            Key::Char('k') => {
                self.solution_selected = match self.solution_selected {
                    Some(number) => Some(
                        if number > 0 {
                            number - 1
                        } else {
                            0
                        },
                    ),
                    None => if n == 0 {
                        None
                    } else {
                        Some(0)
                    },
                };
                None
            },
            Key::Char('+') => Some(UISignal::IncreaseThreadCount),
            Key::Char('-') => Some(UISignal::DecreaseThreadCount),
            Key::Char('p') => {
                self.paused = !self.paused;
                Some(UISignal::PauseUnpause)
            },
            Key::Char('d') => {
                self.description_shown = !self.description_shown;
                None
            },
            Key::Char('i') => {
                self.inspector_shown = !self.inspector_shown;
                None
            },
            Key::Char('s') => {
                self.stats_shown = !self.stats_shown;
                None
            },
            Key::Char('t') => {
                self.threads_shown = !self.threads_shown;
                None
            },
            Key::Char('n') => {
                self.news_feed_shown = !self.news_feed_shown;
                None
            },
            Key::Esc => {
                self.solution_selected = None;
                None
            },
            _ => None,
        }
    }
}

/// Past the solutions whose score is not above `score`, none is.
proof fn lemma_count_at_most_rest(s: Seq<usize>, p: int, score: usize)
    requires
        0 <= p <= s.len(),
        forall|i: int, j: int| 0 <= i <= j < s.len() ==> s[i] <= s[j],
        count_at_most(s.take(p), score) == p,
        p == s.len() || s[p] > score,
    ensures
        count_at_most(s, score) == p,
    decreases s.len() - p,
{
    if p == s.len() {
        assert(s.take(p) =~= s);
    } else {
        lemma_count_none_above(s, p, s.len() as int, score);
        assert(s.take(s.len() as int) =~= s);
    }
}

proof fn lemma_count_none_above(s: Seq<usize>, p: int, q: int, score: usize)
    requires
        0 <= p < q <= s.len(),
        forall|i: int, j: int| 0 <= i <= j < s.len() ==> s[i] <= s[j],
        s[p] > score,
    ensures
        count_at_most(s.take(q), score) == count_at_most(s.take(p), score),
    decreases q - p,
{
    assert(s.take(q).drop_last() =~= s.take(q - 1));
    assert(s[q - 1] >= s[p]);
    if q - 1 > p {
        lemma_count_none_above(s, p, q - 1, score);
    }
}

/// The news item for a finished length: `Tried 1,234 exprs of length 7.`
pub open spec fn news_text(length: nat, count: nat) -> Seq<char> {
    "Tried "@ + commas(decimal(count)) + " expr"@ + (if count == 1 {
        ""@
    } else {
        "s"@
    }) + " of length "@ + decimal(length) + "."@
}

/// The number of blanks between the label and the values of a line of the
/// statistics panel, whose lines are 50 characters wide.
pub fn stat_padding(label: &str, alt_value: &str, main_value: &str) -> (r: usize)
    requires
        label@.len() + alt_value@.len() + main_value@.len() <= 50,
    ensures
        r == 50 - (label@.len() + alt_value@.len() + main_value@.len()),
{
    let a = chars_of(label).len();
    let b = chars_of(alt_value).len();
    let c = chars_of(main_value).len();
    50 - (a + b + c)
}

/// The news item telling that every expression of a length was tried.
pub fn news_item(length: usize, count: u128) -> (r: String)
    ensures
        r@ == news_text(length as nat, count as nat),
{
    let mut v = chars_of("Tried ");
    let n = with_commas(count);
    append(&mut v, chars_of(n.as_str()));
    append(&mut v, chars_of(" expr"));
    if count == 1 {
        append(&mut v, chars_of(""));
    } else {
        append(&mut v, chars_of("s"));
    }
    append(&mut v, chars_of(" of length "));
    append(&mut v, decimal_chars(length as u128));
    append(&mut v, chars_of("."));
    string_from_chars(&v)
}

fn append(r: &mut Vec<char>, tail: Vec<char>)
    ensures
        final(r)@ == old(r)@ + tail@,
{
    let mut i: usize = 0;
    while i < tail.len()
        invariant
            i <= tail@.len(),
            r@ == old(r)@ + tail@.take(i as int),
        decreases tail.len() - i,
    {
        r.push(tail[i]);
        proof {
            assert(tail@.take(i + 1) =~= tail@.take(i as int).push(tail@[i as int]));
        }
        i = i + 1;
    }
    proof {
        assert(tail@.take(tail@.len() as int) =~= tail@);
    }
}


/// The texts of vectors of characters.
pub open spec fn texts_of(v: Seq<Vec<char>>) -> Seq<Seq<char>> {
    v.map_values(|x: Vec<char>| x@)
}

/// The pieces of `s` between its spaces, as `str::split(' ')` gives them:
/// one more piece than there are spaces.
pub open spec fn split_spaces(s: Seq<char>) -> Seq<Seq<char>>
    decreases s.len(),
{
    if s.len() == 0 {
        seq![Seq::empty()]
    } else {
        let p = split_spaces(s.drop_last());
        if s.last() == ' ' {
            p.push(Seq::empty())
        } else {
            p.update(p.len() - 1, p.last().push(s.last()))
        }
    }
}

/// One step of wrapping words into lines of `width` bytes: the lines done
/// so far and the line being filled, after `w` is added. A word that does
/// not fit after the words of a non-empty line starts a new line.
pub open spec fn wrap_step(state: (Seq<Seq<char>>, Seq<char>), w: Seq<char>, width: nat) -> (Seq<Seq<char>>, Seq<char>) {
    let (lines, cur) = state;
    if cur.len() > 0 && byte_len(cur) + 1 + byte_len(w) > width {
        (lines.push(cur), w)
    } else if cur.len() > 0 {
        (lines, cur + seq![' '] + w)
    } else {
        (lines, w)
    }
}

/// The state after wrapping all of `words`.
pub open spec fn wrap_words(words: Seq<Seq<char>>, width: nat) -> (Seq<Seq<char>>, Seq<char>)
    decreases words.len(),
{
    if words.len() == 0 {
        (Seq::empty(), Seq::empty())
    } else {
        wrap_step(wrap_words(words.drop_last(), width), words.last(), width)
    }
}

/// A line of text wrapped at its spaces into lines of at most `width`
/// bytes (a single word longer than that keeps a line of its own).
pub open spec fn wrap_text(line: Seq<char>, width: nat) -> Seq<Seq<char>> {
    let (lines, cur) = wrap_words(split_spaces(line), width);
    lines.push(cur)
}

proof fn lemma_byte_len_bound(s: Seq<char>)
    ensures
        byte_len(s) <= 4 * s.len(),
    decreases s.len(),
{
    if s.len() > 0 {
        lemma_byte_len_bound(s.drop_last());
    }
}

/// The number of bytes of `v` in UTF-8.
fn bytes_of(v: &Vec<char>) -> (r: u128)
    ensures
        r == byte_len(v@),
{
    let mut total: u128 = 0;
    let mut i: usize = 0;
    proof {
        assert(v@.take(0) =~= Seq::<char>::empty());
    }
    while i < v.len()
        invariant
            i <= v@.len(),
            total == byte_len(v@.take(i as int)),
            total <= 4 * i,
        decreases v@.len() - i,
    {
        proof {
            assert(v@.take(i + 1).drop_last() =~= v@.take(i as int));
        }
        total = total + utf8_bytes(v[i]) as u128;
        i = i + 1;
    }
    proof {
        assert(v@.take(i as int) =~= v@);
    }
    total
}

/// Wrap a line of the description panel at its spaces into lines of at
/// most `width` bytes.
pub fn wrap_line(line: &str, width: usize) -> (r: Vec<String>)
    ensures
        r@.len() == wrap_text(line@, width as nat).len(),
        forall|i: int| 0 <= i < r@.len() ==> #[trigger] r@[i]@ == wrap_text(line@, width as nat)[i],
{
    let chars = chars_of(line);
    let mut words: Vec<Vec<char>> = Vec::new();
    words.push(Vec::new());
    let mut i: usize = 0;
    proof {
        assert(chars@.take(0) =~= Seq::<char>::empty());
        assert(texts_of(words@) =~= split_spaces(Seq::<char>::empty()));
    }
    while i < chars.len()
        invariant
            i <= chars@.len(),
            texts_of(words@) == split_spaces(chars@.take(i as int)),
            words@.len() >= 1,
        decreases chars@.len() - i,
    {
        let c = chars[i];
        let ghost before = texts_of(words@);
        proof {
            assert(chars@.take(i + 1).drop_last() =~= chars@.take(i as int));
        }
        if c == ' ' {
            words.push(Vec::new());
            proof {
                assert(texts_of(words@) =~= before.push(Seq::<char>::empty()));
            }
        } else {
            let mut last = words.pop().unwrap();
            last.push(c);
            words.push(last);
            proof {
                assert(texts_of(words@) =~= before.update(before.len() - 1, before.last().push(c)));
            }
        }
        i = i + 1;
    }
    proof {
        assert(chars@.take(i as int) =~= line@);
    }
    let ghost all = texts_of(words@);
    let mut lines: Vec<Vec<char>> = Vec::new();
    let mut cur: Vec<char> = Vec::new();
    let mut cur_bytes: u128 = 0;
    let mut j: usize = 0;
    proof {
        assert(all.take(0) =~= Seq::<Seq<char>>::empty());
        assert(texts_of(lines@) =~= Seq::<Seq<char>>::empty());
    }
    while j < words.len()
        invariant
            all == texts_of(words@),
            j <= all.len(),
            (texts_of(lines@), cur@) == wrap_words(all.take(j as int), width as nat),
            cur_bytes == byte_len(cur@),
        decreases all.len() - j,
    {
        let w = &words[j];
        let wb = bytes_of(w);
        let cl = cur.len();
        let wl = w.len();
        proof {
            assert(all.take(j + 1).drop_last() =~= all.take(j as int));
            assert(all.take(j + 1).last() == w@);
            lemma_byte_len_bound(cur@);
            lemma_byte_len_bound(w@);
            assert(cur_bytes <= 4 * usize::MAX);
            assert(wb <= 4 * usize::MAX);
        }
        let ghost lines0 = texts_of(lines@);
        let ghost cur0 = cur@;
        if cl > 0 && cur_bytes + 1 + wb > width as u128 {
            let done = cur;
            lines.push(done);
            cur = w.clone();
            cur_bytes = wb;
            proof {
                assert(texts_of(lines@) =~= lines0.push(cur0));
            }
        } else if cl > 0 {
            cur.push(' ');
            let mut k: usize = 0;
            let ghost base = cur@;
            while k < w.len()
                invariant
                    k <= w@.len(),
                    cur@ == base + w@.take(k as int),
                decreases w@.len() - k,
            {
                cur.push(w[k]);
                proof {
                    assert(w@.take(k + 1) =~= w@.take(k as int).push(w@[k as int]));
                }
                k = k + 1;
            }
            proof {
                assert(w@.take(k as int) =~= w@);
                assert(cur@ =~= cur0 + seq![' '] + w@);
                lemma_byte_len_concat(cur0 + seq![' '], w@);
                lemma_byte_len_concat(cur0, seq![' ']);
                assert(byte_len(seq![' ']) == 1) by {
                    assert(seq![' '].drop_last() =~= Seq::<char>::empty());
                    assert(byte_len(Seq::<char>::empty()) == 0);
                    assert(utf8_len(' ') == 1);
                }
            }
            cur_bytes = cur_bytes + 1 + wb;
        } else {
            cur = w.clone();
            cur_bytes = wb;
        }
        j = j + 1;
    }
    proof {
        assert(all.take(j as int) =~= all);
    }
    lines.push(cur);
    let mut r: Vec<String> = Vec::new();
    let mut m: usize = 0;
    let ghost full = texts_of(lines@);
    proof {
        assert(full == wrap_text(line@, width as nat));
    }
    while m < lines.len()
        invariant
            m <= lines@.len(),
            full == texts_of(lines@),
            r@.len() == m,
            forall|t: int| 0 <= t < m ==> #[trigger] r@[t]@ == full[t],
        decreases lines@.len() - m,
    {
        let s = string_from_chars(&lines[m]);
        r.push(s);
        m = m + 1;
    }
    r
}

proof fn lemma_byte_len_concat(a: Seq<char>, b: Seq<char>)
    ensures
        byte_len(a + b) == byte_len(a) + byte_len(b),
    decreases b.len(),
{
    if b.len() == 0 {
        assert(a + b =~= a);
    } else {
        assert((a + b).drop_last() =~= a + b.drop_last());
        lemma_byte_len_concat(a, b.drop_last());
    }
}

/// The width left for the control hint in the title line of the solution
/// inspector, after `used` columns of title and solution.
pub open spec fn controls_width(used: nat) -> nat {
    if used <= 47 {
        (50 - used) as nat
    } else {
        3
    }
}

/// The control hint of the solution inspector, cut (with `...`) or padded
/// with blanks to exactly the width left for it.
pub open spec fn controls_text(used: nat) -> Seq<char> {
    let hint = "(J/K: navigate, I: hide)"@;
    let w = controls_width(used);
    if hint.len() > w {
        hint.take(w - 3) + "..."@
    } else {
        hint + Seq::new((w - hint.len()) as nat, |i: int| ' ')
    }
}

/// The control hint of the solution inspector for a title line whose other
/// parts take `used` columns.
pub fn inspector_controls(used: usize) -> (r: String)
    ensures
        r@ == controls_text(used as nat),
{
    let hint = chars_of("(J/K: navigate, I: hide)");
    proof {
        reveal_strlit("(J/K: navigate, I: hide)");
        reveal_strlit("...");
    }
    let w: usize = if used <= 47 { 50 - used } else { 3 };
    let mut v: Vec<char> = Vec::new();
    if hint.len() > w {
        let mut i: usize = 0;
        while i < w - 3
            invariant
                w >= 3,
                w - 3 <= hint@.len(),
                i <= w - 3,
                v@ == hint@.take(i as int),
            decreases w - 3 - i,
        {
            v.push(hint[i]);
            proof {
                assert(hint@.take(i + 1) =~= hint@.take(i as int).push(hint@[i as int]));
            }
            i = i + 1;
        }
        v.push('.');
        v.push('.');
        v.push('.');
        proof {
            assert(v@ =~= hint@.take(w - 3) + "..."@);
        }
    } else {
        let mut i: usize = 0;
        while i < hint.len()
            invariant
                i <= hint@.len(),
                v@ == hint@.take(i as int),
            decreases hint@.len() - i,
        {
            v.push(hint[i]);
            proof {
                assert(hint@.take(i + 1) =~= hint@.take(i as int).push(hint@[i as int]));
            }
            i = i + 1;
        }
        let mut k: usize = hint.len();
        proof {
            assert(hint@.take(i as int) =~= hint@);
        }
        while k < w
            invariant
                hint@.len() <= k <= w,
                v@ == hint@ + Seq::new((k - hint@.len()) as nat, |t: int| ' '),
            decreases w - k,
        {
            v.push(' ');
            proof {
                assert(v@ =~= hint@ + Seq::new((k + 1 - hint@.len()) as nat, |t: int| ' '));
            }
            k = k + 1;
        }
    }
    string_from_chars(&v)
}

/// The number of threads that are not paused.
pub open spec fn unpaused_count(statuses: Seq<Option<ThreadStatus>>) -> nat
    decreases statuses.len(),
{
    if statuses.len() == 0 {
        0
    } else {
        unpaused_count(statuses.drop_last()) + if statuses.last() matches Some(ThreadStatus::Paused(_)) {
            0nat
        } else {
            1nat
        }
    }
}

/// The number of threads whose last status is not a pause.
pub fn unpaused_thread_count(statuses: &Vec<Option<ThreadStatus>>) -> (r: usize)
    ensures
        r == unpaused_count(statuses@),
{
    let mut n: usize = 0;
    let mut i: usize = 0;
    proof {
        assert(statuses@.take(0) =~= Seq::<Option<ThreadStatus>>::empty());
    }
    while i < statuses.len()
        invariant
            i <= statuses@.len(),
            n == unpaused_count(statuses@.take(i as int)),
            n <= i,
        decreases statuses@.len() - i,
    {
        proof {
            assert(statuses@.take(i + 1).drop_last() =~= statuses@.take(i as int));
        }
        match &statuses[i] {
            Some(ThreadStatus::Paused(_)) => {},
            _ => {
                n = n + 1;
            },
        }
        i = i + 1;
    }
    proof {
        assert(statuses@.take(i as int) =~= statuses@);
    }
    n
}


/// The label in front of thread `id` in the thread viewer, when `count`
/// threads are shown: `id.` right-aligned in one column more than `count`
/// has digits, and a blank.
pub open spec fn thread_label_text(id: nat, count: nat) -> Seq<char> {
    let text = decimal(id) + "."@;
    let width = 1 + decimal(count).len();
    Seq::new(if text.len() < width { (width - text.len()) as nat } else { 0 }, |i: int| ' ') + text + " "@
}

/// The label in front of thread `id` in the thread viewer.
pub fn thread_label(id: usize, count: usize) -> (r: String)
    ensures
        r@ == thread_label_text(id as nat, count as nat),
{
    proof {
        reveal_strlit(".");
        reveal_strlit(" ");
        lemma_decimal_len(count as nat);
        lemma_decimal_len(id as nat);
    }
    let mut text = decimal_chars(id as u128);
    text.push('.');
    let width = 1 + decimal_chars(count as u128).len();
    let pad: usize = if text.len() < width { width - text.len() } else { 0 };
    let mut v: Vec<char> = Vec::new();
    let mut k: usize = 0;
    while k < pad
        invariant
            k <= pad,
            v@ == Seq::new(k as nat, |i: int| ' '),
        decreases pad - k,
    {
        v.push(' ');
        proof {
            assert(v@ =~= Seq::new((k + 1) as nat, |i: int| ' '));
        }
        k = k + 1;
    }
    append(&mut v, text);
    v.push(' ');
    proof {
        assert(v@ =~= thread_label_text(id as nat, count as nat));
    }
    string_from_chars(&v)
}

} // verus!
