//! Omarchy theme palettes, read from `colors.toml` or, for older themes,
//! from Alacritty's configuration.
use vstd::prelude::*;

use crate::props::{insert_entry, key_index, lookup, unique_keys};
use crate::text::{index_of, split_on, trim};

verus! {

/// Palette keys and their colours; a key appears once (a map).
#[derive(Debug)]
pub struct Palette {
    entries: Vec<(String, String)>,
}

impl View for Palette {
    type V = Seq<(Seq<char>, Seq<char>)>;

    closed spec fn view(&self) -> Seq<(Seq<char>, Seq<char>)> {
        self.entries@.map_values(|p: (String, String)| (p.0@, p.1@))
    }
}

impl Clone for Palette {
    fn clone(&self) -> (r: Self)
        ensures
            r@ == self@,
    {
        proof {
            use_type_invariant(self);
        }
        Palette { entries: self.pairs() }
    }
}

impl Palette {
    /// Each key appears once.
    #[verifier::type_invariant]
    spec fn keys_once(&self) -> bool {
        unique_keys(self@)
    }

    pub fn new() -> (r: Palette)
        ensures
            r@ == Seq::<(Seq<char>, Seq<char>)>::empty(),
    {
        let r = Palette { entries: Vec::new() };
        assert(r@ =~= Seq::<(Seq<char>, Seq<char>)>::empty());
        r
    }

    fn find(&self, k: &str) -> (r: Option<usize>)
        ensures
            match r {
                Some(i) => key_index(self@, k@) == Some(i as int),
                None => key_index(self@, k@) is None,
            },
    {
        let kc = crate::text::chars_of(k);
        let mut i: usize = 0;
        while i < self.entries.len()
            invariant
                i <= self.entries@.len(),
                kc@ == k@,
                forall|j: int| 0 <= j < i ==> self@[j].0 != k@,
            decreases self.entries@.len() - i,
        {
            if crate::text::eq_chars(crate::text::chars_of(self.entries[i].0.as_str()).as_slice(), kc.as_slice()) {
                proof {
                    crate::props::lemma_key_index_found(self@, k@, i as int);
                }
                return Some(i);
            }
            i = i + 1;
        }
        proof {
            crate::props::lemma_key_index_none(self@, k@);
        }
        None
    }

    /// The colour of key `k`.
    pub fn get(&self, k: &str) -> (r: Option<&str>)
        ensures
            match lookup(self@, k@) {
                Some(v) => r matches Some(s) && s@ == v,
                None => r is None,
            },
    {
        proof {
            crate::props::lemma_key_index(self@, k@);
        }
        match self.find(k) {
            Some(i) => {
                assert(self@[i as int] == (self.entries@[i as int].0@, self.entries@[i as int].1@));
                Some(self.entries[i].1.as_str())
            },
            None => None,
        }
    }

    pub fn contains_key(&self, k: &str) -> (r: bool)
        ensures
            r == (key_index(self@, k@) is Some),
    {
        self.find(k).is_some()
    }

    /// Sets the colour of `k` (`HashMap::insert`).
    pub fn insert(&mut self, k: String, v: String)
        ensures
            final(self)@ == insert_entry(old(self)@, k@, v@),
    {
        let ghost kv = k@;
        let ghost vv = v@;
        proof {
            use_type_invariant(&*self);
            crate::props::lemma_key_index(old(self)@, k@);
            crate::props::lemma_insert_unique(old(self)@, kv, vv);
        }
        let found = self.find(k.as_str());
        let mut es: Vec<(String, String)> = Vec::new();
        std::mem::swap(&mut es, &mut self.entries);
        let ghost before = es@;
        assert(before.map_values(|p: (String, String)| (p.0@, p.1@)) == old(self)@);
        match found {
            Some(i) => {
                es.set(i, (k, v));
                assert(es@.map_values(|p: (String, String)| (p.0@, p.1@)) =~= old(self)@.update(i as int, (kv, vv)));
            },
            None => {
                es.push((k, v));
                assert(es@.map_values(|p: (String, String)| (p.0@, p.1@)) =~= old(self)@.push((kv, vv)));
            },
        }
        self.entries = es;
    }

    /// Sets the colour of `k` unless it has one (`entry(k).or_insert(v)`).
    pub fn or_insert(&mut self, k: String, v: String)
        ensures
            final(self)@ == (if key_index(old(self)@, k@) is Some {
                old(self)@
            } else {
                insert_entry(old(self)@, k@, v@)
            }),
    {
        if !self.contains_key(k.as_str()) {
            self.insert(k, v);
        }
    }

    /// The keys and colours.
    pub fn pairs(&self) -> (r: Vec<(String, String)>)
        ensures
            r@.map_values(|p: (String, String)| (p.0@, p.1@)) == self@,
    {
        let mut r: Vec<(String, String)> = Vec::new();
        let mut i: usize = 0;
        while i < self.entries.len()
            invariant
                i <= self.entries@.len(),
                r@.map_values(|p: (String, String)| (p.0@, p.1@)) == self@.take(i as int),
            decreases self.entries@.len() - i,
        {
            let k = self.entries[i].0.clone();
            let v = self.entries[i].1.clone();
            assert(self@[i as int] == (self.entries@[i as int].0@, self.entries@[i as int].1@));
            let ghost before = r@;
            r.push((k, v));
            assert(r@.map_values(|p: (String, String)| (p.0@, p.1@)) =~= before.map_values(|p: (String, String)| (p.0@, p.1@)).push(self@[i as int]));
            i = i + 1;
            assert(r@.map_values(|p: (String, String)| (p.0@, p.1@)) =~= self@.take(i as int));
        }
        assert(self@.take(self@.len() as int) =~= self@);
        r
    }
}

/// The theme Omarchy is using.
#[derive(Debug, Clone)]
pub struct OmarchyTheme {
    /// Directory name of the theme, e.g. "tokyo-night".
    pub name: String,
    /// "dark" or "light".
    pub mode: String,
    /// Palette keys as used by Omarchy (background, foreground, accent, …).
    pub colors: Palette,
}

// ---------------------------------------------------------------------------
// colors.toml
// ---------------------------------------------------------------------------

/// The value of a `key = value` line: what is inside the quotes when it is
/// quoted, else what comes before a `#`, trimmed.
pub open spec fn toml_value(v: Seq<char>) -> Seq<char> {
    if v.len() > 0 && v[0] == '"' {
        let rest = v.drop_first();
        match index_of(rest, '"') {
            Some(i) => rest.take(i),
            None => rest,
        }
    } else {
        trim(
            match index_of(v, '#') {
                Some(i) => v.take(i),
                None => v,
            },
        )
    }
}

/// A line of `colors.toml` read into the palette: comments, tables and
/// lines without `=` or with an empty value are skipped.
pub open spec fn colors_line(acc: Seq<(Seq<char>, Seq<char>)>, line: Seq<char>) -> Seq<(Seq<char>, Seq<char>)> {
    let l = trim(line);
    if l.len() > 0 && (l[0] == '#' || l[0] == '[') {
        acc
    } else {
        match index_of(l, '=') {
            None => acc,
            Some(i) => {
                let v = toml_value(trim(l.skip(i + 1)));
                if v.len() == 0 {
                    acc
                } else {
                    insert_entry(acc, trim(l.take(i)), v)
                }
            },
        }
    }
}

pub open spec fn colors_from(lines: Seq<Seq<char>>) -> Seq<(Seq<char>, Seq<char>)>
    decreases lines.len(),
{
    if lines.len() == 0 {
        Seq::empty()
    } else {
        colors_line(colors_from(lines.drop_last()), lines.last())
    }
}

/// The palette of a `colors.toml` (each line trimmed, so `\r\n` endings
/// read as `\n` ones).
pub open spec fn parse_colors_spec(text: Seq<char>) -> Seq<(Seq<char>, Seq<char>)> {
    colors_from(split_on(text, '\n'))
}

/// The trimmed characters `l[lo..hi]`.
fn trimmed(l: &[char], lo: usize, hi: usize) -> (r: Vec<char>)
    requires
        lo <= hi <= l@.len(),
    ensures
        r@ == trim(l@.subrange(lo as int, hi as int)),
{
    let (a, b) = crate::text::trim_range(l, lo, hi);
    crate::text::copy_range(l, a, b)
}

/// The value of a `key = value` line, from its trimmed text after `=`.
fn toml_value_of(v: &[char]) -> (r: Vec<char>)
    ensures
        r@ == toml_value(v@),
{
    if v.len() > 0 && v[0] == '"' {
        proof {
            crate::text::lemma_index_of_props(v@.drop_first(), '"');
        }
        match crate::text::find_char(v, 1, v.len(), '"') {
            Some(i) => {
                proof {
                    crate::text::lemma_index_of_found(v@.drop_first(), '"', i - 1);
                }
                let r = crate::text::copy_range(v, 1, i);
                assert(r@ =~= v@.drop_first().take(i - 1));
                r
            },
            None => {
                proof {
                    crate::text::lemma_index_of_none(v@.drop_first(), '"');
                }
                let r = crate::text::copy_range(v, 1, v.len());
                assert(r@ =~= v@.drop_first());
                r
            },
        }
    } else {
        proof {
            crate::text::lemma_index_of_props(v@, '#');
        }
        match crate::text::find_char(v, 0, v.len(), '#') {
            Some(i) => {
                proof {
                    crate::text::lemma_index_of_found(v@, '#', i as int);
                    assert(v@.subrange(0, i as int) =~= v@.take(i as int));
                }
                trimmed(v, 0, i)
            },
            None => {
                proof {
                    crate::text::lemma_index_of_none(v@, '#');
                    assert(v@.subrange(0, v@.len() as int) =~= v@);
                }
                trimmed(v, 0, v.len())
            },
        }
    }
}

/// Reads a palette from the text of a `colors.toml`.
pub fn parse_colors_toml(text: &str) -> (r: Palette)
    ensures
        r@ == parse_colors_spec(text@),
{
    let cs = crate::text::chars_of(text);
    let lines = crate::text::split_chars(cs.as_slice(), '\n');
    let ghost ls = split_on(text@, '\n');
    let mut out = Palette::new();
    let mut n: usize = 0;
    while n < lines.len()
        invariant
            n <= lines@.len(),
            lines@.len() == ls.len(),
            forall|i: int| 0 <= i < lines@.len() ==> #[trigger] lines@[i]@ == ls[i],
            out@ == colors_from(ls.take(n as int)),
        decreases lines@.len() - n,
    {
        let line = lines[n].as_slice();
        proof {
            assert(ls.take(n + 1).drop_last() =~= ls.take(n as int));
            assert(ls.take(n + 1).last() == ls[n as int]);
            assert(line@ == ls[n as int]);
        }
        let l = trimmed(line, 0, line.len());
        assert(line@.subrange(0, line@.len() as int) =~= line@);
        if l.len() > 0 && (l[0] == '#' || l[0] == '[') {
        } else {
            proof {
                crate::text::lemma_index_of_props(l@, '=');
            }
            match crate::text::find_char(l.as_slice(), 0, l.len(), '=') {
                None => {
                    proof {
                        crate::text::lemma_index_of_none(l@, '=');
                    }
                },
                Some(i) => {
                    proof {
                        crate::text::lemma_index_of_found(l@, '=', i as int);
                        assert(l@.subrange(i + 1, l@.len() as int) =~= l@.skip(i + 1));
                        assert(l@.subrange(0, i as int) =~= l@.take(i as int));
                    }
                    let tv = trimmed(l.as_slice(), i + 1, l.len());
                    let v = toml_value_of(tv.as_slice());
                    if v.len() > 0 {
                        let k = trimmed(l.as_slice(), 0, i);
                        out.insert(crate::text::string_of(k.as_slice()), crate::text::string_of(v.as_slice()));
                    }
                },
            }
        }
        n = n + 1;
    }
    assert(ls.take(ls.len() as int) =~= ls);
    out
}

// ---------------------------------------------------------------------------
// alacritty.toml
// ---------------------------------------------------------------------------

/// `s` without the characters `a` and `b` at either end.
pub open spec fn trim_pair(s: Seq<char>, a: char, b: char) -> Seq<char>
    decreases s.len(),
{
    if s.len() > 0 && (s[0] == a || s[0] == b) {
        trim_pair(s.drop_first(), a, b)
    } else if s.len() > 0 && (s.last() == a || s.last() == b) {
        trim_pair(s.drop_last(), a, b)
    } else {
        s
    }
}

/// A line of Alacritty's configuration read into the section and palette:
/// `[section]` lines change the section; the primary background and
/// foreground, the normal and bright colours (`bright_` before the latter)
/// and the selection background are kept.
pub open spec fn alacritty_line(
    st: (Seq<char>, Seq<(Seq<char>, Seq<char>)>),
    line: Seq<char>,
) -> (Seq<char>, Seq<(Seq<char>, Seq<char>)>) {
    let l = trim(line);
    let (section, out) = st;
    if l.len() > 0 && l[0] == '[' {
        (trim_pair(l, '[', ']'), out)
    } else {
        match index_of(l, '=') {
            None => st,
            Some(i) => {
                let k = trim(l.take(i));
                let v = trim_pair(trim(l.skip(i + 1)), '"', '"');
                if section == "colors.primary"@ && k == "background"@ {
                    (section, insert_entry(out, "background"@, v))
                } else if section == "colors.primary"@ && k == "foreground"@ {
                    (section, insert_entry(out, "foreground"@, v))
                } else if section == "colors.normal"@ {
                    (section, insert_entry(out, k, v))
                } else if section == "colors.bright"@ {
                    (section, insert_entry(out, "bright_"@ + k, v))
                } else if section == "colors.selection"@ && k == "background"@ {
                    (section, insert_entry(out, "selection"@, v))
                } else {
                    st
                }
            },
        }
    }
}

pub open spec fn alacritty_from(lines: Seq<Seq<char>>) -> (Seq<char>, Seq<(Seq<char>, Seq<char>)>)
    decreases lines.len(),
{
    if lines.len() == 0 {
        (Seq::empty(), Seq::empty())
    } else {
        alacritty_line(alacritty_from(lines.drop_last()), lines.last())
    }
}

/// The palette of an Alacritty configuration, its blue the accent unless
/// one is set.
pub open spec fn parse_alacritty_spec(text: Seq<char>) -> Seq<(Seq<char>, Seq<char>)> {
    let out = alacritty_from(split_on(text, '\n')).1;
    match lookup(out, "blue"@) {
        Some(b) => if key_index(out, "accent"@) is Some {
            out
        } else {
            insert_entry(out, "accent"@, b)
        },
        None => out,
    }
}

/// The bounds of `s[lo..hi]` without the characters `a` and `b` at either end.
fn trim_pair_range(s: &[char], lo: usize, hi: usize, a: char, b: char) -> (r: (usize, usize))
    requires
        lo <= hi <= s@.len(),
    ensures
        lo <= r.0 <= r.1 <= hi,
        s@.subrange(r.0 as int, r.1 as int) == trim_pair(s@.subrange(lo as int, hi as int), a, b),
{
    let mut x = lo;
    let mut y = hi;
    while x < y && (s[x] == a || s[x] == b || s[y - 1] == a || s[y - 1] == b)
        invariant
            lo <= x <= y <= hi <= s@.len(),
            trim_pair(s@.subrange(lo as int, hi as int), a, b) == trim_pair(s@.subrange(x as int, y as int), a, b),
        decreases y - x,
    {
        let ghost t = s@.subrange(x as int, y as int);
        if s[x] == a || s[x] == b {
            assert(t.drop_first() =~= s@.subrange(x + 1, y as int));
            x = x + 1;
        } else {
            assert(t.drop_last() =~= s@.subrange(x as int, y - 1));
            y = y - 1;
        }
    }
    (x, y)
}

fn is_word(a: &[char], w: &str) -> (r: bool)
    ensures
        r == (a@ == w@),
{
    crate::text::eq_chars(a, crate::text::chars_of(w).as_slice())
}

/// Reads a palette from an Alacritty configuration.
pub fn parse_alacritty(text: &str) -> (r: Palette)
    ensures
        r@ == parse_alacritty_spec(text@),
{
    let cs = crate::text::chars_of(text);
    let lines = crate::text::split_chars(cs.as_slice(), '\n');
    let ghost ls = split_on(text@, '\n');
    let mut out = Palette::new();
    let mut section: Vec<char> = Vec::new();
    let mut n: usize = 0;
    while n < lines.len()
        invariant
            n <= lines@.len(),
            lines@.len() == ls.len(),
            forall|i: int| 0 <= i < lines@.len() ==> #[trigger] lines@[i]@ == ls[i],
            (section@, out@) == alacritty_from(ls.take(n as int)),
        decreases lines@.len() - n,
    {
        let line = lines[n].as_slice();
        proof {
            assert(ls.take(n + 1).drop_last() =~= ls.take(n as int));
            assert(ls.take(n + 1).last() == ls[n as int]);
            assert(line@ == ls[n as int]);
        }
        let l = trimmed(line, 0, line.len());
        assert(line@.subrange(0, line@.len() as int) =~= line@);
        if l.len() > 0 && l[0] == '[' {
            let (x, y) = trim_pair_range(l.as_slice(), 0, l.len(), '[', ']');
            assert(l@.subrange(0, l@.len() as int) =~= l@);
            section = crate::text::copy_range(l.as_slice(), x, y);
        } else {
            proof {
                crate::text::lemma_index_of_props(l@, '=');
            }
            match crate::text::find_char(l.as_slice(), 0, l.len(), '=') {
                None => {
                    proof {
                        crate::text::lemma_index_of_none(l@, '=');
                    }
                },
                Some(i) => {
                    proof {
                        crate::text::lemma_index_of_found(l@, '=', i as int);
                        assert(l@.subrange(i + 1, l@.len() as int) =~= l@.skip(i + 1));
                        assert(l@.subrange(0, i as int) =~= l@.take(i as int));
                    }
                    let k = trimmed(l.as_slice(), 0, i);
                    let tv = trimmed(l.as_slice(), i + 1, l.len());
                    let (x, y) = trim_pair_range(tv.as_slice(), 0, tv.len(), '"', '"');
                    assert(tv@.subrange(0, tv@.len() as int) =~= tv@);
                    let v = crate::text::string_of(crate::text::copy_range(tv.as_slice(), x, y).as_slice());
                    let s = section.as_slice();
                    let kk = k.as_slice();
                    if is_word(s, "colors.primary") && is_word(kk, "background") {
                        out.insert("background".to_owned(), v);
                    } else if is_word(s, "colors.primary") && is_word(kk, "foreground") {
                        out.insert("foreground".to_owned(), v);
                    } else if is_word(s, "colors.normal") {
                        out.insert(crate::text::string_of(kk), v);
                    } else if is_word(s, "colors.bright") {
                        let mut name = crate::text::chars_of("bright_");
                        crate::text::push_all(&mut name, kk);
                        out.insert(crate::text::string_of(name.as_slice()), v);
                    } else if is_word(s, "colors.selection") && is_word(kk, "background") {
                        out.insert("selection".to_owned(), v);
                    }
                },
            }
        }
        n = n + 1;
    }
    assert(ls.take(ls.len() as int) =~= ls);
    let blue = match out.get("blue") {
        Some(b) => Some(b.to_owned()),
        None => None,
    };
    match blue {
        Some(b) => out.or_insert("accent".to_owned(), b),
        None => {},
    }
    out
}

/// The name of the current theme: the trimmed content of the `theme.name`
/// file next to it when there is one and it is not blank, else the name of
/// the directory the theme resolves to unless that is `theme` itself, else
/// `omarchy`.
pub open spec fn theme_name_spec(name_file: Option<Seq<char>>, resolved: Option<Seq<char>>) -> Seq<char> {
    match name_file {
        Some(n) if trim(n).len() > 0 => trim(n),
        _ => match resolved {
            Some(d) if d != "theme"@ => d,
            _ => "omarchy"@,
        },
    }
}

/// The name of the current theme, from what the `theme.name` file holds and
/// the name of the directory the theme resolves to.
pub fn theme_name_from(name_file: Option<&str>, resolved: Option<&str>) -> (r: String)
    ensures
        r@ == theme_name_spec(
            match name_file {
                Some(n) => Some(n@),
                None => None,
            },
            match resolved {
                Some(d) => Some(d@),
                None => None,
            },
        ),
{
    if let Some(n) = name_file {
        let nc = crate::text::chars_of(n);
        let (a, b) = crate::text::trim_range(nc.as_slice(), 0, nc.len());
        assert(nc@.subrange(0, nc@.len() as int) =~= n@);
        if a < b {
            let mut t: Vec<char> = Vec::new();
            let mut k = a;
            while k < b
                invariant
                    a <= k <= b <= nc@.len(),
                    t@ =~= nc@.subrange(a as int, k as int),
                decreases b - k,
            {
                t.push(nc[k]);
                k = k + 1;
            }
            return crate::text::string_of(t.as_slice());
        }
    }
    if let Some(d) = resolved {
        let dc = crate::text::chars_of(d);
        if !crate::text::eq_chars(dc.as_slice(), crate::text::chars_of("theme").as_slice()) {
            return crate::text::string_of(dc.as_slice());
        }
    }
    crate::text::string_of(crate::text::chars_of("omarchy").as_slice())
}

/// The ANSI colours that also get a name, as (name, key of the colour).
pub open spec fn ansi_names() -> Seq<(Seq<char>, Seq<char>)> {
    seq![
        ("red"@, "color1"@),
        ("green"@, "color2"@),
        ("yellow"@, "color3"@),
        ("blue"@, "color4"@),
        ("magenta"@, "color5"@),
        ("cyan"@, "color6"@),
        ("bright_red"@, "color9"@),
        ("bright_green"@, "color10"@),
        ("bright_yellow"@, "color11"@),
        ("bright_blue"@, "color12"@),
        ("bright_magenta"@, "color13"@),
        ("bright_cyan"@, "color14"@),
    ]
}

/// `es` with `k` set to `v` unless it has a colour for `k` already.
pub open spec fn or_insert_spec(es: Seq<(Seq<char>, Seq<char>)>, k: Seq<char>, v: Seq<char>) -> Seq<(Seq<char>, Seq<char>)> {
    if key_index(es, k) is Some {
        es
    } else {
        insert_entry(es, k, v)
    }
}

/// `es` after giving, in order, each name of `pairs` the colour of its key
/// when the palette has that colour and no colour under the name yet.
pub open spec fn named_colors(es: Seq<(Seq<char>, Seq<char>)>, pairs: Seq<(Seq<char>, Seq<char>)>) -> Seq<(Seq<char>, Seq<char>)>
    decreases pairs.len(),
{
    if pairs.len() == 0 {
        es
    } else {
        let prev = named_colors(es, pairs.drop_last());
        match lookup(prev, pairs.last().1) {
            Some(v) => or_insert_spec(prev, pairs.last().0, v),
            None => prev,
        }
    }
}

/// A palette with its ANSI colours named, and `accent` set to its blue when
/// it has none: the keys a theme defines itself are kept.
pub open spec fn names_spec(es: Seq<(Seq<char>, Seq<char>)>) -> Seq<(Seq<char>, Seq<char>)> {
    let n = named_colors(es, ansi_names());
    match lookup(n, "blue"@) {
        Some(v) => or_insert_spec(n, "accent"@, v),
        None => n,
    }
}

/// Names the ANSI colours of a palette and gives it an accent colour (the
/// part of completing a palette that needs no colour arithmetic).
pub fn name_colors(c: &mut Palette)
    ensures
        final(c)@ == names_spec(old(c)@),
{
    let ansi: [(&str, &str); 12] = [
        ("red", "color1"),
        ("green", "color2"),
        ("yellow", "color3"),
        ("blue", "color4"),
        ("magenta", "color5"),
        ("cyan", "color6"),
        ("bright_red", "color9"),
        ("bright_green", "color10"),
        ("bright_yellow", "color11"),
        ("bright_blue", "color12"),
        ("bright_magenta", "color13"),
        ("bright_cyan", "color14"),
    ];
    let ghost pairs = ansi_names();
    assert(ansi@.map_values(|p: (&str, &str)| (p.0@, p.1@)) =~= pairs);
    let mut i: usize = 0;
    while i < 12
        invariant
            i <= 12,
            ansi@.map_values(|p: (&str, &str)| (p.0@, p.1@)) == pairs,
            pairs == ansi_names(),
            c@ == named_colors(old(c)@, pairs.take(i as int)),
        decreases 12 - i,
    {
        let (name, key) = ansi[i];
        assert(pairs[i as int] == (name@, key@));
        assert(pairs.take(i as int + 1).drop_last() =~= pairs.take(i as int));
        assert(pairs.take(i as int + 1).last() == pairs[i as int]);
        let found = match c.get(key) {
            Some(v) => Some(crate::text::string_of(crate::text::chars_of(v).as_slice())),
            None => None,
        };
        if let Some(v) = found {
            c.or_insert(crate::text::string_of(crate::text::chars_of(name).as_slice()), v);
        }
        i = i + 1;
    }
    assert(pairs.take(12) =~= pairs);
    let blue = match c.get("blue") {
        Some(v) => Some(crate::text::string_of(crate::text::chars_of(v).as_slice())),
        None => None,
    };
    if let Some(v) = blue {
        c.or_insert(crate::text::string_of(crate::text::chars_of("accent").as_slice()), v);
    }
}

/// The configuration line `k = "v"`.
pub open spec fn kv_line(k: Seq<char>, v: Seq<char>) -> Seq<char> {
    k + " = \""@ + v + "\""@
}

/// The configuration line `foreground = "v"`.
pub open spec fn foreground_line(v: Seq<char>) -> Seq<char> {
    kv_line("foreground"@, v)
}

/// The section line `[name]`.
pub open spec fn section_line(name: Seq<char>) -> Seq<char> {
    "["@ + name + "]"@
}

/// A key as it can be written before ` = `: not empty, without `=`, and
/// without white space at either end.
pub open spec fn plain_key(k: Seq<char>) -> bool {
    &&& k.len() > 0
    &&& crate::readback::free_of(k, '=')
    &&& !crate::text::is_ws(k[0])
    &&& !crate::text::is_ws(k.last())
}

/// A section name as it can be written between brackets: not empty and not
/// starting or ending with a bracket.
pub open spec fn plain_name(n: Seq<char>) -> bool {
    n.len() > 0 && n[0] != '[' && n[0] != ']' && n.last() != '[' && n.last() != ']'
}

/// Trimming leaves a text that starts and ends with other than white space.
proof fn lemma_trim_same(s: Seq<char>)
    requires
        s.len() > 0,
        !crate::text::is_ws(s[0]),
        !crate::text::is_ws(s.last()),
    ensures
        trim(s) == s,
{
    assert(crate::text::trim_start(s) == s);
}

/// How a `k = "v"` line reads: it is trimmed already, its `=` comes right
/// after the key and a space, and the two sides trim to `k` and `"v"`.
proof fn lemma_kv_parts(k: Seq<char>, v: Seq<char>)
    requires
        plain_key(k),
    ensures
        trim(kv_line(k, v)) == kv_line(k, v),
        kv_line(k, v)[0] == k[0],
        index_of(kv_line(k, v), '=') == Some(k.len() + 1int),
        trim(kv_line(k, v).take(k.len() + 1int)) == k,
        trim(kv_line(k, v).skip(k.len() + 2int)) == "\""@ + v + "\""@,
{
    reveal_strlit(" = \"");
    reveal_strlit("\"");
    reveal_strlit(" \"");
    let f = kv_line(k, v);
    let q = "\""@;
    let n: int = k.len() as int;
    assert(f.len() == n + 5 + v.len());
    assert(f[0] == k[0]);
    assert(f.last() == '"');
    lemma_trim_same(f);
    assert(f[n + 1] == '=');
    crate::text::lemma_index_of_props(f, '=');
    assert forall|j: int| 0 <= j < n + 1 implies f[j] != '=' by {
        if j < n {
            assert(f[j] == k[j]);
        } else {
            assert(f[j] == ' ');
        }
    }
    assert(index_of(f, '=') == Some(n + 1));
    let kk = f.take(n + 1);
    assert(kk =~= k.push(' '));
    assert(kk.drop_last() =~= k);
    assert(crate::text::trim_end(k) == k);
    assert(crate::text::trim_end(kk) == k);
    assert(crate::text::trim_start(kk) == kk);
    let x = f.skip(n + 2);
    let y = q + v + q;
    assert(x =~= " \""@ + v + q);
    assert(x.drop_first() =~= y);
    assert(crate::text::trim_start(y) == y);
    assert(crate::text::trim_start(x) == y);
    assert(crate::text::trim_end(y) == y);
}

/// The quotes around a value without quotes come off.
proof fn lemma_unquote(v: Seq<char>)
    requires
        crate::readback::free_of(v, '"'),
    ensures
        trim_pair("\""@ + v + "\""@, '"', '"') == v,
{
    reveal_strlit("\"");
    let q = "\""@;
    let y = q + v + q;
    let z = y.drop_first();
    assert(z =~= v + q);
    if v.len() == 0 {
        assert(z.drop_first() =~= Seq::<char>::empty());
        assert(trim_pair(z.drop_first(), '"', '"') == v);
        assert(trim_pair(z, '"', '"') == v);
    } else {
        assert(z[0] == v[0]);
        assert(v[0] != '"');
        assert(v.last() != '"');
        assert(z.drop_last() =~= v);
        assert(trim_pair(v, '"', '"') == v);
        assert(trim_pair(z, '"', '"') == v);
    }
}

/// A `[name]` line opens the section `name` and keeps the palette.
pub proof fn lemma_section_line(st: (Seq<char>, Seq<(Seq<char>, Seq<char>)>), name: Seq<char>)
    requires
        plain_name(name),
    ensures
        alacritty_line(st, section_line(name)) == (name, st.1),
{
    reveal_strlit("[");
    reveal_strlit("]");
    let h = section_line(name);
    assert(h[0] == '[');
    assert(h.last() == ']');
    lemma_trim_same(h);
    let g = h.drop_first();
    assert(g =~= name + "]"@);
    assert(g[0] == name[0]);
    assert(g.drop_last() =~= name);
    assert(trim_pair(name, '[', ']') == name);
    assert(trim_pair(g, '[', ']') == name);
    assert(trim_pair(h, '[', ']') == name);
}

/// What a `k = "v"` line of Alacritty's configuration does in each section:
/// the primary background and foreground, the normal colours under their
/// names, the bright ones under `bright_` and their names, the selection
/// background as `selection`; other sections and keys change nothing.
pub proof fn lemma_alacritty_kv(st: (Seq<char>, Seq<(Seq<char>, Seq<char>)>), k: Seq<char>, v: Seq<char>)
    requires
        plain_key(k),
        k[0] != '[',
        crate::readback::free_of(v, '"'),
    ensures
        alacritty_line(st, kv_line(k, v)).0 == st.0,
        st.0 == "colors.primary"@ && k == "background"@ ==> lookup(alacritty_line(st, kv_line(k, v)).1, "background"@)
            == Some(v),
        st.0 == "colors.primary"@ && k == "foreground"@ ==> lookup(alacritty_line(st, kv_line(k, v)).1, "foreground"@)
            == Some(v),
        st.0 == "colors.normal"@ ==> lookup(alacritty_line(st, kv_line(k, v)).1, k) == Some(v),
        st.0 == "colors.bright"@ ==> lookup(alacritty_line(st, kv_line(k, v)).1, "bright_"@ + k) == Some(v),
        st.0 == "colors.selection"@ && k == "background"@ ==> lookup(alacritty_line(st, kv_line(k, v)).1, "selection"@)
            == Some(v),
        st.0 != "colors.primary"@ && st.0 != "colors.normal"@ && st.0 != "colors.bright"@ && st.0
            != "colors.selection"@ ==> alacritty_line(st, kv_line(k, v)) == st,
{
    lemma_kv_parts(k, v);
    lemma_unquote(v);
    reveal_strlit("foreground");
    reveal_strlit("background");
    reveal_strlit("colors.primary");
    reveal_strlit("colors.normal");
    reveal_strlit("colors.bright");
    reveal_strlit("colors.selection");
    assert("colors.bright"@ != "colors.primary"@ && "colors.bright"@ != "colors.normal"@) by {
        assert("colors.bright"@[7] != "colors.primary"@[7]);
        assert("colors.bright"@[7] != "colors.normal"@[7]);
    }
    assert("colors.selection"@ != "colors.primary"@ && "colors.selection"@ != "colors.normal"@
        && "colors.selection"@ != "colors.bright"@) by {
        assert("colors.selection"@[7] != "colors.primary"@[7]);
        assert("colors.selection"@[7] != "colors.normal"@[7]);
        assert("colors.selection"@[7] != "colors.bright"@[7]);
    }
    assert("colors.normal"@ != "colors.primary"@) by {
        assert("colors.normal"@[7] != "colors.primary"@[7]);
    }
    assert("foreground"@ != "background"@) by {
        assert("foreground"@[0] != "background"@[0]);
    }
    let out = st.1;
    crate::props::lemma_lookup_insert(out, "background"@, v, "background"@);
    crate::props::lemma_lookup_insert(out, "foreground"@, v, "foreground"@);
    crate::props::lemma_lookup_insert(out, k, v, k);
    crate::props::lemma_lookup_insert(out, "bright_"@ + k, v, "bright_"@ + k);
    crate::props::lemma_lookup_insert(out, "selection"@, v, "selection"@);
}

/// Under `[colors.primary]`, a `foreground = "v"` line makes `v` the
/// palette's foreground.
pub proof fn lemma_primary_foreground(st: (Seq<char>, Seq<(Seq<char>, Seq<char>)>), v: Seq<char>)
    requires
        st.0 == "colors.primary"@,
        crate::readback::free_of(v, '"'),
    ensures
        lookup(alacritty_line(st, foreground_line(v)).1, "foreground"@) == Some(v),
{
    reveal_strlit("foreground");
    let k = "foreground"@;
    assert(crate::readback::free_of(k, '=')) by {
        assert forall|i: int| 0 <= i < k.len() implies #[trigger] k[i] != '=' by {}
    }
    lemma_alacritty_kv(st, k, v);
}

/// Whether `lines` may be joined with line breaks and split back.
pub open spec fn one_line_each(lines: Seq<Seq<char>>) -> bool {
    forall|i: int| 0 <= i < lines.len() ==> crate::readback::free_of(#[trigger] lines[i], '\n')
}

/// The palette's accent, put in from `blue` when the configuration sets
/// none, leaves every other key's colour as the configuration gives it.
proof fn lemma_accent_keeps(out: Seq<(Seq<char>, Seq<char>)>, k: Seq<char>)
    requires
        k != "accent"@,
    ensures
        lookup(
            match lookup(out, "blue"@) {
                Some(b) => if key_index(out, "accent"@) is Some {
                    out
                } else {
                    insert_entry(out, "accent"@, b)
                },
                None => out,
            },
            k,
        ) == lookup(out, k),
{
    match lookup(out, "blue"@) {
        Some(b) => {
            crate::props::lemma_lookup_insert(out, "accent"@, b, k);
        },
        None => {},
    }
}

/// Lines joined with line breaks read back as those lines.
proof fn lemma_lines_back(all: Seq<Seq<char>>)
    requires
        all.len() > 0,
        one_line_each(all),
    ensures
        split_on(crate::text::join(all, seq!['\n']), '\n') == all,
{
    crate::readback::lemma_split_of_join(all, '\n');
}

/// A value ends where it was written when the line has no line break.
proof fn lemma_kv_one_line(k: Seq<char>, v: Seq<char>)
    requires
        crate::readback::free_of(k, '\n'),
        crate::readback::free_of(v, '\n'),
    ensures
        crate::readback::free_of(kv_line(k, v), '\n'),
{
    reveal_strlit(" = \"");
    reveal_strlit("\"");
    let f = kv_line(k, v);
    let n: int = k.len() as int;
    assert forall|j: int| 0 <= j < f.len() implies #[trigger] f[j] != '\n' by {
        if j < n {
            assert(f[j] == k[j]);
        } else if n + 4 <= j < n + 4 + v.len() {
            assert(f[j] == v[j - n - 4]);
        }
    }
}

/// The palette of an Alacritty configuration that ends with a section line
/// `[name]` and a line `k = "v"` holds `v` where that section puts it,
/// whatever came before.
pub proof fn lemma_palette_alacritty(lines: Seq<Seq<char>>, name: Seq<char>, k: Seq<char>, v: Seq<char>)
    requires
        one_line_each(lines),
        plain_name(name),
        crate::readback::free_of(name, '\n'),
        plain_key(k),
        k[0] != '[',
        crate::readback::free_of(k, '\n'),
        crate::readback::free_of(v, '"'),
        crate::readback::free_of(v, '\n'),
    ensures
        ({
            let p = parse_alacritty_spec(
                crate::text::join(lines + seq![section_line(name), kv_line(k, v)], seq!['\n']),
            );
            &&& name == "colors.primary"@ && k == "foreground"@ ==> lookup(p, "foreground"@) == Some(v)
            &&& name == "colors.primary"@ && k == "background"@ ==> lookup(p, "background"@) == Some(v)
            &&& name == "colors.normal"@ && k != "accent"@ ==> lookup(p, k) == Some(v)
            &&& name == "colors.bright"@ ==> lookup(p, "bright_"@ + k) == Some(v)
            &&& name == "colors.selection"@ && k == "background"@ ==> lookup(p, "selection"@) == Some(v)
        }),
{
    reveal_strlit("[");
    reveal_strlit("]");
    reveal_strlit("accent");
    reveal_strlit("bright_");
    reveal_strlit("foreground");
    reveal_strlit("background");
    reveal_strlit("selection");
    let h = section_line(name);
    let f = kv_line(k, v);
    let all = lines + seq![h, f];
    lemma_kv_one_line(k, v);
    assert forall|i: int| 0 <= i < all.len() implies crate::readback::free_of(#[trigger] all[i], '\n') by {
        if i < lines.len() {
            assert(all[i] == lines[i]);
        } else if i == lines.len() {
            assert(all[i] == h);
            assert forall|j: int| 0 <= j < h.len() implies #[trigger] h[j] != '\n' by {
                if 1 <= j < 1 + name.len() {
                    assert(h[j] == name[j - 1]);
                }
            }
        } else {
            assert(all[i] == f);
        }
    }
    lemma_lines_back(all);
    assert(all.drop_last() =~= lines.push(h));
    assert(lines.push(h).drop_last() =~= lines);
    let st0 = alacritty_from(lines);
    lemma_section_line(st0, name);
    let st1 = alacritty_from(lines.push(h));
    assert(st1 == alacritty_line(st0, h));
    lemma_alacritty_kv(st1, k, v);
    let out = alacritty_from(all).1;
    assert("accent"@ != "foreground"@) by {
        assert("accent"@[0] != "foreground"@[0]);
    }
    assert("accent"@ != "background"@) by {
        assert("accent"@[0] != "background"@[0]);
    }
    assert("accent"@ != "selection"@) by {
        assert("accent"@[0] != "selection"@[0]);
    }
    assert("accent"@ != "bright_"@ + k) by {
        assert(("bright_"@ + k)[0] == 'b');
    }
    lemma_accent_keeps(out, "foreground"@);
    lemma_accent_keeps(out, "background"@);
    lemma_accent_keeps(out, "selection"@);
    lemma_accent_keeps(out, "bright_"@ + k);
    if k != "accent"@ {
        lemma_accent_keeps(out, k);
    }
}

/// The palette of a configuration that ends with `[colors.primary]` and
/// `foreground = "v"` has `v` for its foreground, whatever came before.
pub proof fn lemma_palette_foreground(lines: Seq<Seq<char>>, v: Seq<char>)
    requires
        one_line_each(lines),
        crate::readback::free_of(v, '"'),
        crate::readback::free_of(v, '\n'),
    ensures
        lookup(
            parse_alacritty_spec(
                crate::text::join(lines + seq![section_line("colors.primary"@), foreground_line(v)], seq!['\n']),
            ),
            "foreground"@,
        ) == Some(v),
{
    reveal_strlit("colors.primary");
    reveal_strlit("foreground");
    let n = "colors.primary"@;
    let k = "foreground"@;
    assert(crate::readback::free_of(n, '\n')) by {
        assert forall|i: int| 0 <= i < n.len() implies #[trigger] n[i] != '\n' by {}
    }
    assert(crate::readback::free_of(k, '\n')) by {
        assert forall|i: int| 0 <= i < k.len() implies #[trigger] k[i] != '\n' by {}
    }
    assert(crate::readback::free_of(k, '=')) by {
        assert forall|i: int| 0 <= i < k.len() implies #[trigger] k[i] != '=' by {}
    }
    lemma_palette_alacritty(lines, n, k, v);
}

/// A `k = "v"` line of `colors.toml` with a value puts `v` under `k`.
pub proof fn lemma_colors_kv(acc: Seq<(Seq<char>, Seq<char>)>, k: Seq<char>, v: Seq<char>)
    requires
        plain_key(k),
        k[0] != '[',
        k[0] != '#',
        v.len() > 0,
        crate::readback::free_of(v, '"'),
    ensures
        lookup(colors_line(acc, kv_line(k, v)), k) == Some(v),
{
    reveal_strlit("\"");
    lemma_kv_parts(k, v);
    let y = "\""@ + v + "\""@;
    let rest = y.drop_first();
    assert(rest =~= v + "\""@);
    crate::text::lemma_index_of_props(rest, '"');
    assert(rest[v.len() as int] == '"');
    assert forall|j: int| 0 <= j < v.len() implies rest[j] != '"' by {
        assert(rest[j] == v[j]);
    }
    assert(index_of(rest, '"') == Some(v.len() as int));
    assert(rest.take(v.len() as int) =~= v);
    assert(toml_value(y) == v);
    crate::props::lemma_lookup_insert(acc, k, v, k);
}

/// The palette of a `colors.toml` that ends with a line `k = "v"` (a value
/// given) holds `v` under `k`, whatever came before.
pub proof fn lemma_palette_colors(lines: Seq<Seq<char>>, k: Seq<char>, v: Seq<char>)
    requires
        one_line_each(lines),
        plain_key(k),
        k[0] != '[',
        k[0] != '#',
        crate::readback::free_of(k, '\n'),
        v.len() > 0,
        crate::readback::free_of(v, '"'),
        crate::readback::free_of(v, '\n'),
    ensures
        lookup(parse_colors_spec(crate::text::join(lines.push(kv_line(k, v)), seq!['\n'])), k) == Some(v),
{
    let all = lines.push(kv_line(k, v));
    lemma_kv_one_line(k, v);
    assert forall|i: int| 0 <= i < all.len() implies crate::readback::free_of(#[trigger] all[i], '\n') by {
        if i < lines.len() {
            assert(all[i] == lines[i]);
        }
    }
    lemma_lines_back(all);
    assert(all.drop_last() =~= lines);
    lemma_colors_kv(colors_from(lines), k, v);
}

} // verus!
