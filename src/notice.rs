//! Notices: warnings, errors and other messages pretty-printed for users.
use vstd::prelude::*;
use vstd::string::StrSliceExecFns;

use crate::text::{stylize_str, stylized, TextColor, TextStyle};

verus! {

/// A message with a coloured prefix, a header and labelled fields.
#[derive(Clone, Debug)]
pub struct Notice {
    color: TextColor,
    prefix: String,
    header: String,
    fields: Vec<(String, String)>,
}

/// Presets for common notices.
#[derive(Clone, Copy, Debug, PartialEq, Eq, Structural)]
pub enum NoticePreset {
    /// A red notice with the prefix "ERROR".
    Error,
    /// A yellow notice with the prefix "WARN".
    Warning,
    /// A green notice with the prefix "DONE".
    Success,
    /// A cyan notice with the prefix "STATS".
    Statistics,
}

pub open spec fn preset_color(p: NoticePreset) -> TextColor {
    match p {
        NoticePreset::Error => TextColor::Red,
        NoticePreset::Warning => TextColor::Yellow,
        NoticePreset::Success => TextColor::Green,
        NoticePreset::Statistics => TextColor::Cyan,
    }
}

pub open spec fn preset_prefix(p: NoticePreset) -> Seq<char> {
    match p {
        NoticePreset::Error => "ERROR"@,
        NoticePreset::Warning => "WARN"@,
        NoticePreset::Success => "DONE"@,
        NoticePreset::Statistics => "STATS"@,
    }
}

/// The lines of the fields from the `i`-th on: each is its label in the
/// notice's style, then its content.
pub open spec fn field_lines(color: TextColor, fields: Seq<(Seq<char>, Seq<char>)>) -> Seq<char>
    decreases fields.len(),
{
    if fields.len() == 0 {
        Seq::empty()
    } else {
        field_lines(color, fields.drop_last())
            + stylized("  "@ + fields.last().0 + ": "@, Some(TextStyle::Bold), Some(color), None)
            + fields.last().1 + "\n"@
    }
}

impl Notice {
    pub closed spec fn color(&self) -> TextColor {
        self.color
    }

    pub closed spec fn prefix(&self) -> Seq<char> {
        self.prefix@
    }

    pub closed spec fn header(&self) -> Seq<char> {
        self.header@
    }

    /// The fields, labels and contents, in the order they were added.
    pub closed spec fn fields(&self) -> Seq<(Seq<char>, Seq<char>)> {
        self.fields@.map_values(|f: (String, String)| (f.0@, f.1@))
    }

    /// The text of the notice: a title line `[prefix - header]` in bold and
    /// in the notice's colour, then one line per field.
    pub open spec fn rendered(&self) -> Seq<char> {
        stylized("["@ + self.prefix() + " - "@ + self.header() + "]"@, Some(TextStyle::Bold), Some(self.color()), None) + "\n"@
            + field_lines(self.color(), self.fields())
    }

    /// A notice with no fields.
    pub fn new(color: TextColor, prefix: &str, header: &str) -> (r: Self)
        ensures
            r.color() == color,
            r.prefix() == prefix@,
            r.header() == header@,
            r.fields().len() == 0,
    {
        let r = Notice { color, prefix: prefix.to_owned(), header: header.to_owned(), fields: Vec::new() };
        assert(r.fields() =~= Seq::<(Seq<char>, Seq<char>)>::empty());
        r
    }

    /// A notice with the colour and prefix of a preset.
    pub fn from_preset(preset: NoticePreset, header: &str) -> (r: Self)
        ensures
            r.color() == preset_color(preset),
            r.prefix() == preset_prefix(preset),
            r.header() == header@,
            r.fields().len() == 0,
    {
        match preset {
            NoticePreset::Error => Notice::new(TextColor::Red, "ERROR", header),
            NoticePreset::Warning => Notice::new(TextColor::Yellow, "WARN", header),
            NoticePreset::Success => Notice::new(TextColor::Green, "DONE", header),
            NoticePreset::Statistics => Notice::new(TextColor::Cyan, "STATS", header),
        }
    }

    /// This notice with one more field, shown after the others as
    /// `label: content`.
    pub fn add_field(self, label: &str, content: &str) -> (r: Self)
        ensures
            r.color() == self.color(),
            r.prefix() == self.prefix(),
            r.header() == self.header(),
            r.fields() == self.fields().push((label@, content@)),
    {
        let mut n = self;
        n.fields.push((label.to_owned(), content.to_owned()));
        assert(n.fields() =~= self.fields().push((label@, content@)));
        n
    }

    /// The text of this notice, one line for the title and one for each
    /// field.
    pub fn render(&self) -> (r: String)
        ensures
            r@ == self.rendered(),
    {
        let mut title = String::from_str("[");
        title.append(self.prefix.as_str());
        title.append(" - ");
        title.append(self.header.as_str());
        title.append("]");
        let mut out = stylize_str(title.as_str(), Some(TextStyle::Bold), Some(self.color), None);
        out.append("\n");
        let ghost head = out@;
        let mut i: usize = 0;
        while i < self.fields.len()
            invariant
                0 <= i <= self.fields@.len(),
                out@ == head + field_lines(self.color, self.fields().take(i as int)),
            decreases self.fields.len() - i,
        {
            let mut label = String::from_str("  ");
            label.append(self.fields[i].0.as_str());
            label.append(": ");
            let styled = stylize_str(label.as_str(), Some(TextStyle::Bold), Some(self.color), None);
            out.append(styled.as_str());
            out.append(self.fields[i].1.as_str());
            out.append("\n");
            proof {
                assert(self.fields().take(i + 1).drop_last() =~= self.fields().take(i as int));
                assert(self.fields().take(i + 1).last() == (self.fields@[i as int].0@, self.fields@[i as int].1@));
            }
            i += 1;
            assert(out@ =~= head + field_lines(self.color, self.fields().take(i as int)));
        }
        assert(self.fields().take(self.fields@.len() as int) =~= self.fields());
        assert(out@ =~= self.rendered());
        out
    }
}

/// Each item followed by `, `, one after another.
pub open spec fn with_separators(items: Seq<Seq<char>>) -> Seq<char>
    decreases items.len(),
{
    if items.len() == 0 {
        Seq::empty()
    } else {
        with_separators(items.drop_last()) + items.last() + ", "@
    }
}

/// `s` without any number of trailing `, `.
pub open spec fn trim_separators(s: Seq<char>) -> Seq<char>
    decreases s.len(),
{
    if s.len() >= 2 && s[s.len() - 2] == ',' && s[s.len() - 1] == ' ' {
        trim_separators(s.subrange(0, s.len() - 2))
    } else {
        s
    }
}

/// The items separated by `, `, with every trailing `, ` trimmed.
pub fn display_slice(items: &Vec<String>) -> (r: String)
    ensures
        r@ == trim_separators(with_separators(items@.map_values(|s: String| s@))),
{
    let ghost views = items@.map_values(|s: String| s@);
    let mut out = String::new();
    let mut i: usize = 0;
    while i < items.len()
        invariant
            0 <= i <= items@.len(),
            views == items@.map_values(|s: String| s@),
            out@ == with_separators(views.take(i as int)),
        decreases items.len() - i,
    {
        out.append(items[i].as_str());
        out.append(", ");
        proof {
            assert(views.take(i + 1).drop_last() =~= views.take(i as int));
        }
        i += 1;
    }
    assert(views.take(items@.len() as int) =~= views);
    proof {
        reveal_strlit(", ");
    }
    let mut n = out.as_str().unicode_len();
    assert(out@.subrange(0, n as int) =~= out@);
    while n >= 2 && out.as_str().get_char(n - 2) == ',' && out.as_str().get_char(n - 1) == ' '
        invariant
            n <= out@.len(),
            trim_separators(out@) == trim_separators(out@.subrange(0, n as int)),
        decreases n,
    {
        assert(out@.subrange(0, n - 2) =~= out@.subrange(0, n as int).subrange(0, n - 2));
        n -= 2;
    }
    let r = String::from_str(out.as_str().substring_char(0, n));
    proof {
        let t = out@.subrange(0, n as int);
        if t.len() >= 2 {
            assert(t[t.len() - 2] == out@[n - 2] && t[t.len() - 1] == out@[n - 1]);
        }
    }
    r
}


/// Each character of `s` followed by `to`.
pub open spec fn each_followed(s: Seq<char>, to: Seq<char>) -> Seq<char>
    decreases s.len(),
{
    if s.len() == 0 {
        Seq::empty()
    } else {
        seq![s[0]] + to + each_followed(s.drop_first(), to)
    }
}

/// `s` with every match of `from`, from left to right and without overlap,
/// replaced by `to`; an empty `from` matches before every character and at
/// the end.
pub open spec fn replaced(s: Seq<char>, from: Seq<char>, to: Seq<char>) -> Seq<char>
    decreases s.len(),
{
    if from.len() == 0 {
        to + each_followed(s, to)
    } else if s.len() == 0 {
        s
    } else if from.len() <= s.len() && s.take(from.len() as int) == from {
        to + replaced(s.skip(from.len() as int), from, to)
    } else {
        seq![s[0]] + replaced(s.drop_first(), from, to)
    }
}

/// `text` with each substitution of `subs` applied in turn.
pub open spec fn substituted(text: Seq<char>, subs: Seq<(Seq<char>, Seq<char>)>) -> Seq<char>
    decreases subs.len(),
{
    if subs.len() == 0 {
        text
    } else {
        replaced(substituted(text, subs.drop_last()), subs.last().0, subs.last().1)
    }
}

/// Whether `from` occurs in `s` at character `i`.
fn occurs_at(s: &str, n: usize, i: usize, from: &str, m: usize) -> (r: bool)
    requires
        n == s@.len(),
        m == from@.len(),
        i <= n,
    ensures
        r == (i + m <= n && s@.subrange(i as int, i + m) == from@),
{
    if m > n - i {
        return false;
    }
    let mut k: usize = 0;
    while k < m
        invariant
            0 <= k <= m,
            i + m <= n,
            n == s@.len(),
            m == from@.len(),
            forall|q: int| 0 <= q < k ==> s@[i + q] == from@[q],
        decreases m - k,
    {
        if s.get_char(i + k) != from.get_char(k) {
            assert(s@.subrange(i as int, i + m)[k as int] != from@[k as int]);
            return false;
        }
        k += 1;
    }
    assert(s@.subrange(i as int, i + m) =~= from@);
    true
}

/// `s` with every match of `from` replaced by `to`, as `str::replace` does.
pub fn replace_all(s: &str, from: &str, to: &str) -> (r: String)
    ensures
        r@ == replaced(s@, from@, to@),
{
    let n = s.unicode_len();
    let m = from.unicode_len();
    let mut out = String::new();
    let mut i: usize = 0;
    if m == 0 {
        out.append(to);
        assert(s@.skip(0) =~= s@);
        while i < n
            invariant
                0 <= i <= n,
                n == s@.len(),
                from@.len() == 0,
                out@ + each_followed(s@.skip(i as int), to@) == to@ + each_followed(s@, to@),
            decreases n - i,
        {
            let ghost o0 = out@;
            out.append(s.substring_char(i, i + 1));
            out.append(to);
            proof {
                assert(s@.skip(i as int).drop_first() =~= s@.skip(i + 1));
                assert(s@.subrange(i as int, i + 1) =~= seq![s@.skip(i as int)[0]]);
                assert(out@ + each_followed(s@.skip(i + 1), to@) =~= o0 + each_followed(s@.skip(i as int), to@));
            }
            i += 1;
        }
        assert(s@.skip(n as int) =~= Seq::<char>::empty());
        assert(out@ =~= out@ + each_followed(s@.skip(n as int), to@));
        return out;
    }
    assert(s@.skip(0) =~= s@);
    while i < n
        invariant
            0 <= i <= n,
            n == s@.len(),
            m == from@.len(),
            m > 0,
            out@ + replaced(s@.skip(i as int), from@, to@) == replaced(s@, from@, to@),
        decreases n - i,
    {
        let ghost o0 = out@;
        let ghost rest = s@.skip(i as int);
        if occurs_at(s, n, i, from, m) {
            out.append(to);
            proof {
                assert(rest.take(m as int) =~= s@.subrange(i as int, i + m));
                assert(rest.skip(m as int) =~= s@.skip(i + m));
                assert(out@ + replaced(s@.skip(i + m), from@, to@) =~= o0 + replaced(rest, from@, to@));
            }
            i += m;
        } else {
            out.append(s.substring_char(i, i + 1));
            proof {
                if m <= rest.len() {
                    assert(rest.take(m as int) =~= s@.subrange(i as int, i + m));
                }
                assert(rest.drop_first() =~= s@.skip(i + 1));
                assert(s@.subrange(i as int, i + 1) =~= seq![rest[0]]);
                assert(out@ + replaced(s@.skip(i + 1), from@, to@) =~= o0 + replaced(rest, from@, to@));
            }
            i += 1;
        }
    }
    assert(s@.skip(n as int) =~= Seq::<char>::empty());
    assert(out@ =~= out@ + replaced(s@.skip(n as int), from@, to@));
    out
}

/// `text` with each substitution of `map`, a pattern and its replacement,
/// applied in turn to the result of the ones before.
pub fn apply_string_sub_map(text: &str, map: &Vec<(String, String)>) -> (r: String)
    ensures
        r@ == substituted(text@, map@.map_values(|p: (String, String)| (p.0@, p.1@))),
{
    let ghost subs = map@.map_values(|p: (String, String)| (p.0@, p.1@));
    let mut out = String::from_str(text);
    let mut i: usize = 0;
    while i < map.len()
        invariant
            0 <= i <= map@.len(),
            subs == map@.map_values(|p: (String, String)| (p.0@, p.1@)),
            out@ == substituted(text@, subs.take(i as int)),
        decreases map.len() - i,
    {
        out = replace_all(out.as_str(), map[i].0.as_str(), map[i].1.as_str());
        proof {
            assert(subs.take(i + 1).drop_last() =~= subs.take(i as int));
            assert(subs.take(i + 1).last() == (map@[i as int].0@, map@[i as int].1@));
        }
        i += 1;
    }
    assert(subs.take(map@.len() as int) =~= subs);
    out
}

} // verus!
