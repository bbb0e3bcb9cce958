use vstd::prelude::*;
use vstd::string::*;
use crate::text::{trim, trim_str};

verus! {

/// The kind of a configuration value, as the configuration view shows it.
#[derive(Debug, Clone, Copy, PartialEq, Eq, Structural)]
pub enum ValueKind {
    Null,
    Boolean(bool),
    Integer,
    Float,
    String,
    Array,
    Object,
}

/// The character that closes a value opened on its own line: `]` for an
/// array written as `[`, `}` for a table written as `{`.
pub fn multiline_closing(kind: ValueKind, value_text: &str) -> (r: Option<char>)
    ensures
        r == if kind == ValueKind::Array && value_text@ == seq!['['] {
            Some(']')
        } else if kind == ValueKind::Object && value_text@ == seq!['{'] {
            Some('}')
        } else {
            None::<char>
        },
{
    let one = value_text.unicode_len() == 1;
    if one {
        assert(value_text@ =~= seq![value_text@[0]]);
    }
    match kind {
        ValueKind::Array => if one && value_text.get_char(0) == '[' {
            Some(']')
        } else {
            None
        },
        ValueKind::Object => if one && value_text.get_char(0) == '{' {
            Some('}')
        } else {
            None
        },
        _ => None,
    }
}

/// Does `line` begin with `expected`?
pub fn line_starts_with(line: &str, expected: char) -> (r: bool)
    ensures
        r == (line@.len() > 0 && line@[0] == expected),
{
    line.unicode_len() > 0 && line.get_char(0) == expected
}

/// Index of the first `c` in `s`, or its length.
pub open spec fn char_index(s: Seq<char>, c: char) -> nat
    decreases s.len(),
{
    if s.len() > 0 && s[0] != c {
        1 + char_index(s.drop_first(), c)
    } else {
        0
    }
}

/// The pieces of `s` between the copies of `c` (`str::split`).
pub open spec fn split_on(s: Seq<char>, c: char) -> Seq<Seq<char>>
    decreases s.len(),
{
    let i = char_index(s, c) as int;
    if i >= s.len() {
        seq![s]
    } else {
        seq![s.take(i)] + split_on(s.skip(i + 1), c)
    }
}

proof fn lemma_char_index(s: Seq<char>, c: char, n: int)
    requires
        0 <= n <= s.len(),
        forall|j: int| 0 <= j < n ==> #[trigger] s[j] != c,
        n == s.len() || s[n] == c,
    ensures
        char_index(s, c) == n,
    decreases n,
{
    if n > 0 {
        let t = s.drop_first();
        assert forall|j: int| 0 <= j < n - 1 implies #[trigger] t[j] != c by {
            assert(t[j] == s[j + 1]);
        }
        lemma_char_index(t, c, n - 1);
    }
}

/// The pieces of `s` between the copies of `c`, each trimmed.
pub open spec fn trimmed_pieces(s: Seq<char>, c: char) -> Seq<Seq<char>> {
    split_on(s, c).map_values(|p: Seq<char>| trim(p))
}

/// The pieces of `s` between the copies of `c`, each trimmed.
fn split_trimmed(s: &str, c: char) -> (r: Vec<String>)
    ensures
        r.deep_view() == trimmed_pieces(s@, c),
{
    let len = s.unicode_len();
    let mut out: Vec<String> = Vec::new();
    let mut i: usize = 0;
    let ghost full = split_on(s@, c);
    assert(s@.skip(0) =~= s@);
    assert(full =~= Seq::<Seq<char>>::empty() + split_on(s@.skip(0), c));
    loop
        invariant
            i <= len,
            len == s@.len(),
            full == split_on(s@, c),
            exists|pre: Seq<Seq<char>>|
                #![trigger pre.len()]
                full == pre + split_on(s@.skip(i as int), c) && out.deep_view() == pre.map_values(
                    |p: Seq<char>| trim(p),
                ),
        decreases len - i,
    {
        let ghost pre = choose|pre: Seq<Seq<char>>|
            #![trigger pre.len()]
            full == pre + split_on(s@.skip(i as int), c) && out.deep_view() == pre.map_values(
                |p: Seq<char>| trim(p),
            );
        let mut j = i;
        while j < len && s.get_char(j) != c
            invariant
                i <= j <= len,
                len == s@.len(),
                forall|x: int| i <= x < j ==> #[trigger] s@[x] != c,
            decreases len - j,
        {
            j = j + 1;
        }
        let ghost t = s@.skip(i as int);
        proof {
            assert forall|x: int| 0 <= x < j - i implies #[trigger] t[x] != c by {
                assert(t[x] == s@[i + x]);
            }
            if j < len {
                assert(t[j - i] == s@[j as int]);
            }
            lemma_char_index(t, c, j - i);
        }
        let piece = trim_str(s.substring_char(i, j));
        let ghost before = out.deep_view();
        out.push(piece);
        assert(out.deep_view() =~= before.push(piece@));
        if j == len {
            proof {
                assert(t.take(j - i) =~= t);
                assert(s@.subrange(i as int, j as int) =~= t);
                assert(split_on(t, c) == seq![t]);
                assert(full == pre + seq![t]);
                assert(out.deep_view() =~= (pre + seq![t]).map_values(|p: Seq<char>| trim(p)));
                assert(full.map_values(|p: Seq<char>| trim(p)) =~= out.deep_view());
            }
            return out;
        }
        proof {
            assert(t.take(j - i) =~= s@.subrange(i as int, j as int));
            assert(t.skip(j - i + 1) =~= s@.skip(j + 1));
            let npre = pre + seq![t.take(j - i)];
            assert(full =~= npre + split_on(s@.skip(j + 1), c));
            assert(out.deep_view() =~= npre.map_values(|p: Seq<char>| trim(p)));
            assert(npre.len() == npre.len());
        }
        i = j + 1;
    }
}

/// `s` is `open`, some inner text, and `close`.
pub open spec fn wrapped(s: Seq<char>, open: Seq<char>, close: Seq<char>) -> bool {
    s.len() >= open.len() + close.len() && s.take(open.len() as int) == open && s.skip(
        s.len() - close.len(),
    ) == close
}

pub open spec fn inner(s: Seq<char>, open: Seq<char>, close: Seq<char>) -> Seq<char> {
    s.subrange(open.len() as int, s.len() - close.len())
}

/// The path of a table header line, `[a.b]` or `[[a.b]]`: its dotted
/// segments, trimmed.
pub open spec fn table_path(line: Seq<char>) -> Option<Seq<Seq<char>>> {
    if wrapped(line, seq!['[', '['], seq![']', ']']) {
        Some(trimmed_pieces(inner(line, seq!['[', '['], seq![']', ']']), '.'))
    } else if wrapped(line, seq!['['], seq![']']) {
        Some(trimmed_pieces(inner(line, seq!['['], seq![']']), '.'))
    } else {
        None
    }
}

fn is_wrapped(s: &str, open: char, close: char, width: usize) -> (r: bool)
    requires
        width == 1 || width == 2,
    ensures
        r == wrapped(
            s@,
            if width == 1 { seq![open] } else { seq![open, open] },
            if width == 1 { seq![close] } else { seq![close, close] },
        ),
{
    let n = s.unicode_len();
    if n < 2 * width {
        return false;
    }
    let ok = if width == 1 {
        s.get_char(0) == open && s.get_char(n - 1) == close
    } else {
        s.get_char(0) == open && s.get_char(1) == open && s.get_char(n - 2) == close && s.get_char(
            n - 1,
        ) == close
    };
    proof {
        if width == 1 {
            if ok {
                assert(s@.take(1) =~= seq![open]);
                assert(s@.skip(n - 1) =~= seq![close]);
            } else {
                if s@.take(1) == seq![open] {
                    assert(s@.take(1)[0] == s@[0]);
                }
                if s@.skip(n - 1) == seq![close] {
                    assert(s@.skip(n - 1)[0] == s@[n - 1]);
                }
            }
        } else {
            if ok {
                assert(s@.take(2) =~= seq![open, open]);
                assert(s@.skip(n - 2) =~= seq![close, close]);
            } else {
                if s@.take(2) == seq![open, open] {
                    assert(s@.take(2)[0] == s@[0]);
                    assert(s@.take(2)[1] == s@[1]);
                }
                if s@.skip(n - 2) == seq![close, close] {
                    assert(s@.skip(n - 2)[0] == s@[n - 2]);
                    assert(s@.skip(n - 2)[1] == s@[n - 1]);
                }
            }
        }
    }
    ok
}

/// The path of a table header line, or `None` for any other line.
pub fn parse_table_path(line: &str) -> (r: Option<Vec<String>>)
    ensures
        match (r, table_path(line@)) {
            (Some(v), Some(p)) => v.deep_view() == p,
            (None, None) => true,
            _ => false,
        },
{
    let n = line.unicode_len();
    if is_wrapped(line, '[', ']', 2) {
        return Some(split_trimmed(line.substring_char(2, n - 2), '.'));
    }
    if is_wrapped(line, '[', ']', 1) {
        return Some(split_trimmed(line.substring_char(1, n - 1), '.'));
    }
    None
}

/// The colours of one kind of value: the value's own and a softer one for
/// notes.
#[derive(Debug, Clone, Copy)]
pub struct Palette {
    pub primary: (u8, u8, u8),
    pub secondary: (u8, u8, u8),
}

/// Halfway from `c` to full intensity.
pub open spec fn soft(c: u8) -> int {
    c + (255 - c) / 2
}

/// A channel halfway to full intensity.
pub fn soften_channel(channel: u8) -> (r: u8)
    ensures
        r as int == soft(channel),
{
    channel + ((255 - channel) / 2)
}

/// A colour halfway to white.
pub fn soften(color: (u8, u8, u8)) -> (r: (u8, u8, u8))
    ensures
        r.0 as int == soft(color.0),
        r.1 as int == soft(color.1),
        r.2 as int == soft(color.2),
{
    let (r, g, b) = color;
    (soften_channel(r), soften_channel(g), soften_channel(b))
}

pub open spec fn primary_of(kind: ValueKind) -> (u8, u8, u8) {
    match kind {
        ValueKind::Null => (140, 140, 140),
        ValueKind::Boolean(true) => (60, 179, 113),
        ValueKind::Boolean(false) => (229, 88, 88),
        ValueKind::Integer => (215, 166, 47),
        ValueKind::Float => (202, 156, 64),
        ValueKind::String => (108, 182, 255),
        ValueKind::Array => (160, 141, 229),
        ValueKind::Object => (110, 139, 199),
    }
}

/// The colours of a kind of value.
pub fn palette_for(kind: ValueKind) -> (r: Palette)
    ensures
        r.primary == primary_of(kind),
        r.secondary.0 as int == soft(r.primary.0),
        r.secondary.1 as int == soft(r.primary.1),
        r.secondary.2 as int == soft(r.primary.2),
{
    let primary: (u8, u8, u8) = match kind {
        ValueKind::Null => (140, 140, 140),
        ValueKind::Boolean(true) => (60, 179, 113),
        ValueKind::Boolean(false) => (229, 88, 88),
        ValueKind::Integer => (215, 166, 47),
        ValueKind::Float => (202, 156, 64),
        ValueKind::String => (108, 182, 255),
        ValueKind::Array => (160, 141, 229),
        ValueKind::Object => (110, 139, 199),
    };
    let secondary = soften(primary);
    Palette { primary, secondary }
}

pub open spec fn kind_label(kind: ValueKind) -> Seq<char> {
    match kind {
        ValueKind::Null => "null"@,
        ValueKind::Boolean(_) => "bool"@,
        ValueKind::Integer => "int"@,
        ValueKind::Float => "float"@,
        ValueKind::String => "string"@,
        ValueKind::Array => "array"@,
        ValueKind::Object => "table"@,
    }
}

/// The name under which a kind of value is shown.
pub fn describe_type(kind: ValueKind) -> (r: &'static str)
    ensures
        r@ == kind_label(kind),
{
    match kind {
        ValueKind::Null => "null",
        ValueKind::Boolean(_) => "bool",
        ValueKind::Integer => "int",
        ValueKind::Float => "float",
        ValueKind::String => "string",
        ValueKind::Array => "array",
        ValueKind::Object => "table",
    }
}

/// A value of kind `current` fits a sample of kind `sample`: any value fits
/// a null sample, numbers fit numbers, and otherwise the kinds agree.
pub open spec fn consistent(current: ValueKind, sample: ValueKind) -> bool {
    match (current, sample) {
        (_, ValueKind::Null) => true,
        (ValueKind::Boolean(_), ValueKind::Boolean(_)) => true,
        (ValueKind::Integer, ValueKind::Integer) => true,
        (ValueKind::Float, ValueKind::Float) => true,
        (ValueKind::Integer, ValueKind::Float) => true,
        (ValueKind::Float, ValueKind::Integer) => true,
        (ValueKind::String, ValueKind::String) => true,
        (ValueKind::Array, ValueKind::Array) => true,
        (ValueKind::Object, ValueKind::Object) => true,
        _ => false,
    }
}

/// Does a value of kind `current` fit a sample of kind `sample`?
pub fn type_consistent(current: ValueKind, sample: ValueKind) -> (r: bool)
    ensures
        r == consistent(current, sample),
{
    match (current, sample) {
        (_, ValueKind::Null) => true,
        (ValueKind::Boolean(_), ValueKind::Boolean(_)) => true,
        (ValueKind::Integer, ValueKind::Integer) => true,
        (ValueKind::Float, ValueKind::Float) => true,
        (ValueKind::Integer, ValueKind::Float) => true,
        (ValueKind::Float, ValueKind::Integer) => true,
        (ValueKind::String, ValueKind::String) => true,
        (ValueKind::Array, ValueKind::Array) => true,
        (ValueKind::Object, ValueKind::Object) => true,
        _ => false,
    }
}

/// The kind whose type a value is shown with: the default's, unless the
/// default is null.
pub fn select_type_sample(default: ValueKind, current: ValueKind) -> (r: ValueKind)
    ensures
        r == if default == ValueKind::Null { current } else { default },
{
    match default {
        ValueKind::Null => current,
        _ => default,
    }
}

} // verus!
