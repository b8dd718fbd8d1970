//! The configuration file: `key = value` lines; blank lines and `#`
//! comments are skipped, and a later line for a key overrides an earlier one.

use vstd::prelude::*;
use crate::json::str_equal;
use crate::text::{chars_of, find_chars, find_seq, lemma_find_seq_bounds, pieces_view, split_chars, split_on, string_of};

verus! {

pub open spec fn is_blank(c: char) -> bool {
    c == ' ' || c == '\t' || c == '\r' || c == '\n' || c == '\x0b' || c == '\x0c'
}

/// The first index in `lo..hi` of a character that is not blank, or `hi`.
pub open spec fn first_solid(s: Seq<char>, lo: int, hi: int) -> int
    decreases hi - lo,
{
    if lo >= hi {
        hi
    } else if !is_blank(s[lo]) {
        lo
    } else {
        first_solid(s, lo + 1, hi)
    }
}

/// One past the last index in `lo..hi` of a character that is not blank, or `lo`.
pub open spec fn last_solid(s: Seq<char>, lo: int, hi: int) -> int
    decreases hi - lo,
{
    if lo >= hi {
        lo
    } else if !is_blank(s[hi - 1]) {
        hi
    } else {
        last_solid(s, lo, hi - 1)
    }
}

/// `s[lo..hi]` without blanks at either end.
pub open spec fn trimmed(s: Seq<char>, lo: int, hi: int) -> Seq<char> {
    let a = first_solid(s, lo, hi);
    s.subrange(a, last_solid(s, a, hi))
}

/// The setting that a line makes, if it makes one.
pub open spec fn setting_of(line: Seq<char>) -> Option<(Seq<char>, Seq<char>)> {
    let t = trimmed(line, 0, line.len() as int);
    let eq = find_seq(t, seq!['='], 0);
    if t.len() == 0 || t[0] == '#' || eq >= t.len() {
        None
    } else {
        Some((trimmed(t, 0, eq), trimmed(t, eq + 1, t.len() as int)))
    }
}

/// The settings that lines make, in order.
pub open spec fn settings_of(lines: Seq<Seq<char>>) -> Seq<(Seq<char>, Seq<char>)>
    decreases lines.len(),
{
    if lines.len() == 0 {
        Seq::empty()
    } else {
        match setting_of(lines.last()) {
            Some(st) => settings_of(lines.drop_last()).push(st),
            None => settings_of(lines.drop_last()),
        }
    }
}

/// The value of the last setting of `key`.
pub open spec fn value_in(settings: Seq<(Seq<char>, Seq<char>)>, key: Seq<char>) -> Option<Seq<char>>
    decreases settings.len(),
{
    if settings.len() == 0 {
        None
    } else if settings.last().0 == key {
        Some(settings.last().1)
    } else {
        value_in(settings.drop_last(), key)
    }
}

pub open spec fn config_lines(text: Seq<char>) -> Seq<Seq<char>> {
    split_on(text, seq!['\n'])
}

pub open spec fn setting_views(v: Seq<(String, String)>) -> Seq<(Seq<char>, Seq<char>)> {
    v.map_values(|e: (String, String)| (e.0@, e.1@))
}

pub struct Config {
    settings: Vec<(String, String)>,
}

impl View for Config {
    type V = Seq<(Seq<char>, Seq<char>)>;

    closed spec fn view(&self) -> Seq<(Seq<char>, Seq<char>)> {
        setting_views(self.settings@)
    }
}

fn first_solid_in(s: &Vec<char>, lo: usize, hi: usize) -> (r: usize)
    requires
        lo <= hi <= s@.len(),
    ensures
        r as int == first_solid(s@, lo as int, hi as int),
        lo <= r <= hi,
{
    let mut i = lo;
    while i < hi
        invariant
            lo <= i <= hi <= s@.len(),
            first_solid(s@, lo as int, hi as int) == first_solid(s@, i as int, hi as int),
        decreases hi - i,
    {
        let c = s[i];
        if !(c == ' ' || c == '\t' || c == '\r' || c == '\n' || c == '\x0b' || c == '\x0c') {
            return i;
        }
        i = i + 1;
    }
    i
}

fn last_solid_in(s: &Vec<char>, lo: usize, hi: usize) -> (r: usize)
    requires
        lo <= hi <= s@.len(),
    ensures
        r as int == last_solid(s@, lo as int, hi as int),
        lo <= r <= hi,
{
    let mut j = hi;
    while j > lo
        invariant
            lo <= j <= hi <= s@.len(),
            last_solid(s@, lo as int, hi as int) == last_solid(s@, lo as int, j as int),
        decreases j - lo,
    {
        let c = s[j - 1];
        if !(c == ' ' || c == '\t' || c == '\r' || c == '\n' || c == '\x0b' || c == '\x0c') {
            return j;
        }
        j = j - 1;
    }
    j
}

fn copy_range(s: &Vec<char>, lo: usize, hi: usize) -> (r: Vec<char>)
    requires
        lo <= hi <= s@.len(),
    ensures
        r@ == s@.subrange(lo as int, hi as int),
{
    let mut out: Vec<char> = Vec::new();
    let mut i = lo;
    while i < hi
        invariant
            lo <= i <= hi <= s@.len(),
            out@ == s@.subrange(lo as int, i as int),
        decreases hi - i,
    {
        out.push(s[i]);
        assert(s@.subrange(lo as int, i + 1) =~= s@.subrange(lo as int, i as int).push(s@[i as int]));
        i = i + 1;
    }
    out
}

fn trim(s: &Vec<char>, lo: usize, hi: usize) -> (r: Vec<char>)
    requires
        lo <= hi <= s@.len(),
    ensures
        r@ == trimmed(s@, lo as int, hi as int),
{
    let a = first_solid_in(s, lo, hi);
    let b = last_solid_in(s, a, hi);
    copy_range(s, a, b)
}

fn setting(line: &Vec<char>) -> (r: Option<(String, String)>)
    ensures
        match setting_of(line@) {
            None => r is None,
            Some((k, v)) => r matches Some(e) && e.0@ == k && e.1@ == v,
        },
{
    let t = trim(line, 0, line.len());
    let eq_sign: [char; 1] = ['='];
    assert(eq_sign@ =~= seq!['=']);
    if t.len() == 0 || t[0] == '#' {
        return None;
    }
    let eq = find_chars(&t, eq_sign.as_slice(), 0);
    proof {
        lemma_find_seq_bounds(t@, seq!['='], 0);
    }
    if eq >= t.len() {
        return None;
    }
    let key = trim(&t, 0, eq);
    let value = trim(&t, eq + 1, t.len());
    Some((string_of(key.as_slice()), string_of(value.as_slice())))
}

impl Config {
    /// Reads the settings of a configuration text.
    pub fn parse(text: &str) -> (r: Config)
        ensures
            r@ == settings_of(config_lines(text@)),
    {
        let cs = chars_of(text);
        let newline: [char; 1] = ['\n'];
        assert(newline@ =~= seq!['\n']);
        let lines = split_chars(&cs, newline.as_slice());
        let ghost lv = pieces_view(lines@);
        let mut settings: Vec<(String, String)> = Vec::new();
        let mut i: usize = 0;
        assert(lv.subrange(0, 0) =~= Seq::<Seq<char>>::empty());
        assert(setting_views(settings@) =~= Seq::<(Seq<char>, Seq<char>)>::empty());
        while i < lines.len()
            invariant
                i <= lines@.len(),
                lv == pieces_view(lines@),
                setting_views(settings@) == settings_of(lv.subrange(0, i as int)),
            decreases lines@.len() - i,
        {
            assert(lv.subrange(0, i + 1).drop_last() =~= lv.subrange(0, i as int));
            assert(lv[i as int] == lines@[i as int]@);
            match setting(&lines[i]) {
                Some(e) => {
                    let ghost ev = (e.0@, e.1@);
                    let ghost before = settings@;
                    settings.push(e);
                    assert(setting_views(settings@) =~= setting_views(before).push(ev));
                },
                None => {},
            }
            i = i + 1;
        }
        assert(lv.subrange(0, lines@.len() as int) =~= lv);
        Config { settings }
    }

    /// The value of the last setting of `key`.
    pub fn get(&self, key: &str) -> (r: Option<&str>)
        ensures
            match value_in(self@, key@) {
                None => r is None,
                Some(v) => r matches Some(s) && s@ == v,
            },
    {
        let mut i = self.settings.len();
        assert(self@.subrange(0, i as int) =~= self@);
        while i > 0
            invariant
                i <= self.settings@.len(),
                value_in(self@, key@) == value_in(self@.subrange(0, i as int), key@),
            decreases i,
        {
            assert(self@.subrange(0, i as int).drop_last() =~= self@.subrange(0, i - 1));
            assert(self@[i - 1] == (self.settings@[i - 1].0@, self.settings@[i - 1].1@));
            if str_equal(self.settings[i - 1].0.as_str(), key) {
                return Some(self.settings[i - 1].1.as_str());
            }
            i = i - 1;
        }
        None
    }
}

} // verus!
