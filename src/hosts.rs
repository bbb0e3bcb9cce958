use vstd::prelude::*;
use vstd::string::*;
use crate::proxy::{decimal, push_decimal};
use crate::text::{
    first_is_char, blank, is_blank, split_lines, split_lines_str, split_tokens, tokens, trim, trim_str,
};

verus! {

/// One entry of the hosts registry: a host pattern and, optionally, the proxy
/// that this host uses instead of the default one.
#[derive(Debug)]
pub struct HostEntry {
    pub pattern: String,
    pub proxy: Option<String>,
}

/// What a [`HostEntry`] holds, as character sequences.
pub struct HostSpec {
    pub pattern: Seq<char>,
    pub proxy: Option<Seq<char>>,
}

impl View for HostEntry {
    type V = HostSpec;

    open spec fn view(&self) -> HostSpec {
        HostSpec { pattern: self.pattern@, proxy: self.proxy.deep_view() }
    }
}

/// Why one line of the hosts registry could not be read.
#[derive(Debug)]
pub enum HostLineError {
    /// The line holds no host pattern.
    MissingPattern,
    /// A second proxy was given without the `proxy=` prefix.
    UnexpectedToken(String),
    /// A second `proxy=` token; holds it.
    DuplicateProxy(String),
    /// A `proxy=` token with nothing after it; holds the host pattern.
    EmptyProxy(String),
}

pub enum LineFault {
    MissingPattern,
    UnexpectedToken(Seq<char>),
    DuplicateProxy(Seq<char>),
    EmptyProxy(Seq<char>),
}

impl View for HostLineError {
    type V = LineFault;

    open spec fn view(&self) -> LineFault {
        match self {
            HostLineError::MissingPattern => LineFault::MissingPattern,
            HostLineError::UnexpectedToken(t) => LineFault::UnexpectedToken(t@),
            HostLineError::DuplicateProxy(t) => LineFault::DuplicateProxy(t@),
            HostLineError::EmptyProxy(p) => LineFault::EmptyProxy(p@),
        }
    }
}

/// A line of the hosts registry that could not be read, with the registry's
/// path and the line's 1-based number.
#[derive(Debug)]
pub struct HostsParseError {
    pub path: String,
    pub line: usize,
    pub error: HostLineError,
}

/// The text of a line fault.
pub open spec fn fault_text(f: LineFault) -> Seq<char> {
    match f {
        LineFault::MissingPattern => "missing host pattern"@,
        LineFault::UnexpectedToken(t) => "unexpected token '"@ + t + "'"@,
        LineFault::DuplicateProxy(t) => "second proxy token '"@ + t + "'"@,
        LineFault::EmptyProxy(p) => "empty proxy value for host '"@ + p + "'"@,
    }
}

impl HostsParseError {
    /// A human-readable description: the file, the line number and the fault.
    pub fn message(&self) -> (r: String)
        ensures
            r@ == "Failed to parse hosts file "@ + self.path@ + seq![':'] + decimal(self.line as nat)
                + seq![':', ' '] + fault_text(self.error@),
    {
        let mut m = String::from_str("Failed to parse hosts file ");
        m.append(self.path.as_str());
        m.append(":");
        proof {
            reveal_strlit(":");
            reveal_strlit(": ");
        }
        push_decimal(self.line as u64, &mut m);
        m.append(": ");
        match &self.error {
            HostLineError::MissingPattern => {
                m.append("missing host pattern");
            },
            HostLineError::UnexpectedToken(t) => {
                m.append("unexpected token '");
                m.append(t.as_str());
                m.append("'");
            },
            HostLineError::DuplicateProxy(t) => {
                m.append("second proxy token '");
                m.append(t.as_str());
                m.append("'");
            },
            HostLineError::EmptyProxy(p) => {
                m.append("empty proxy value for host '");
                m.append(p.as_str());
                m.append("'");
            },
        }
        m
    }
}

/// `s` begins with `p`.
pub open spec fn has_prefix(s: Seq<char>, p: Seq<char>) -> bool {
    p.len() <= s.len() && s.take(p.len() as int) == p
}

/// Reads the tokens after the host pattern, given the override found so far.
pub open spec fn scan_tokens(
    pattern: Seq<char>,
    toks: Seq<Seq<char>>,
    proxy: Option<Seq<char>>,
) -> Result<Option<Seq<char>>, LineFault>
    decreases toks.len(),
{
    if toks.len() == 0 {
        Ok(proxy)
    } else {
        let t = toks[0];
        if first_is_char(t, '#') {
            Ok(proxy)
        } else if proxy is Some {
            if has_prefix(t, "proxy="@) {
                Err(LineFault::DuplicateProxy(t))
            } else {
                Err(LineFault::UnexpectedToken(t))
            }
        } else {
            let value = if has_prefix(t, "proxy="@) {
                t.skip("proxy="@.len() as int)
            } else {
                t
            };
            if value.len() == 0 {
                Err(LineFault::EmptyProxy(pattern))
            } else {
                scan_tokens(pattern, toks.drop_first(), Some(value))
            }
        }
    }
}

/// The entry that one registry line describes.
pub open spec fn parse_line(l: Seq<char>) -> Result<HostSpec, LineFault> {
    let toks = tokens(l);
    if toks.len() == 0 {
        Err(LineFault::MissingPattern)
    } else {
        match scan_tokens(toks[0], toks.drop_first(), None) {
            Ok(p) => Ok(HostSpec { pattern: toks[0], proxy: p }),
            Err(e) => Err(e),
        }
    }
}

/// A registry line that holds no entry: blank, or a comment.
pub open spec fn skipped_line(l: Seq<char>) -> bool {
    trim(l).len() == 0 || first_is_char(trim(l), '#')
}

/// The entries of the registry lines from index `i` on; an error carries the
/// 1-based number of the first line that could not be read.
pub open spec fn parse_lines(ls: Seq<Seq<char>>, i: int) -> Result<Seq<HostSpec>, (int, LineFault)>
    decreases ls.len() - i,
{
    if i < 0 || i >= ls.len() {
        Ok(seq![])
    } else if skipped_line(ls[i]) {
        parse_lines(ls, i + 1)
    } else {
        match parse_line(trim(ls[i])) {
            Err(e) => Err((i + 1, e)),
            Ok(h) => match parse_lines(ls, i + 1) {
                Ok(r) => Ok(seq![h] + r),
                Err(x) => Err(x),
            },
        }
    }
}

/// The entries of a whole registry text.
pub open spec fn parse_registry(text: Seq<char>) -> Result<Seq<HostSpec>, (int, LineFault)> {
    parse_lines(split_lines(text), 0)
}

/// `p` begins with `q`.
pub fn str_has_prefix(p: &str, q: &str) -> (r: bool)
    ensures
        r == has_prefix(p@, q@),
{
    let n = p.unicode_len();
    let m = q.unicode_len();
    if m > n {
        return false;
    }
    let mut i: usize = 0;
    while i < m
        invariant
            i <= m <= n,
            n == p@.len(),
            m == q@.len(),
            forall|j: int| 0 <= j < i ==> p@[j] == q@[j],
        decreases m - i,
    {
        if p.get_char(i) != q.get_char(i) {
            assert(p@.take(m as int)[i as int] != q@[i as int]);
            return false;
        }
        i = i + 1;
    }
    assert(p@.take(m as int) =~= q@);
    true
}

fn starts_with_char(s: &str, c: char) -> (r: bool)
    ensures
        r == first_is_char(s@, c),
{
    s.unicode_len() > 0 && s.get_char(0) == c
}

/// Reads one registry line: the first word is the host pattern; one later
/// word, `proxy=<value>` or bare, gives the proxy, and any further word is an
/// error; a word that begins with `#` ends the line.
pub fn parse_host_line(line: &str) -> (r: Result<HostEntry, HostLineError>)
    ensures
        match (r, parse_line(line@)) {
            (Ok(e), Ok(h)) => e@ == h,
            (Err(e), Err(f)) => e@ == f,
            _ => false,
        },
{
    let toks = split_tokens(line);
    if toks.len() == 0 {
        return Err(HostLineError::MissingPattern);
    }
    let pattern = toks[0].clone();
    let mut proxy: Option<String> = None;
    let mut i: usize = 1;
    let ghost tv = toks.deep_view();
    assert(tv.skip(1) =~= tv.drop_first());
    while i < toks.len()
        invariant
            1 <= i <= toks.len(),
            tv == toks.deep_view(),
            tv == tokens(line@),
            pattern@ == tv[0],
            scan_tokens(tv[0], tv.drop_first(), None) == scan_tokens(
                tv[0],
                tv.skip(i as int),
                proxy.deep_view(),
            ),
        decreases toks.len() - i,
    {
        let part = toks[i].as_str();
        let ghost rest = tv.skip(i as int);
        assert(rest[0] == part@);
        assert(rest.drop_first() =~= tv.skip(i + 1));
        if starts_with_char(part, '#') {
            return Ok(HostEntry { pattern, proxy });
        }
        let prefixed = str_has_prefix(part, "proxy=");
        if proxy.is_some() {
            if prefixed {
                return Err(HostLineError::DuplicateProxy(String::from_str(part)));
            }
            return Err(HostLineError::UnexpectedToken(String::from_str(part)));
        }
        let value = if prefixed {
            part.substring_char("proxy=".unicode_len(), part.unicode_len())
        } else {
            part
        };
        if value.unicode_len() == 0 {
            return Err(HostLineError::EmptyProxy(pattern));
        }
        proxy = Some(String::from_str(value));
        i = i + 1;
    }
    assert(tv.skip(i as int) =~= Seq::<Seq<char>>::empty());
    Ok(HostEntry { pattern, proxy })
}

/// Reads a whole hosts registry. Blank lines and lines that begin with `#`
/// are skipped; an error names `path` and the 1-based number of the first
/// line that could not be read.
pub fn parse_hosts(path: &str, content: &str) -> (r: Result<Vec<HostEntry>, HostsParseError>)
    ensures
        match (r, parse_registry(content@)) {
            (Ok(v), Ok(hs)) => v@.map_values(|e: HostEntry| e@) == hs,
            (Err(e), Err((n, f))) => e.line == n && e.error@ == f && e.path@ == path@,
            _ => false,
        },
{
    let lines = split_lines_str(content);
    let ghost ls = lines.deep_view();
    let mut out: Vec<HostEntry> = Vec::new();
    let mut i: usize = 0;
    assert(out@.map_values(|e: HostEntry| e@) + Seq::<HostSpec>::empty() =~= Seq::<
        HostSpec,
    >::empty());
    while i < lines.len()
        invariant
            i <= lines.len(),
            ls == lines.deep_view(),
            ls == split_lines(content@),
            parse_lines(ls, 0) == match parse_lines(ls, i as int) {
                Ok(r) => Ok(out@.map_values(|e: HostEntry| e@) + r),
                Err(x) => Err(x),
            },
        decreases lines.len() - i,
    {
        let t = trim_str(lines[i].as_str());
        assert(ls[i as int] == lines[i as int]@);
        if blank(t.as_str()) || starts_with_char(t.as_str(), '#') {
            proof {
                if is_blank(t@) {
                    assert(trim(ls[i as int]).len() == 0) by {
                        if trim(ls[i as int]).len() > 0 {
                            crate::text::lemma_trim_ends(ls[i as int]);
                        }
                    }
                }
            }
        } else {
            proof {
                if trim(ls[i as int]).len() == 0 {
                    assert(is_blank(t@));
                }
            }
            match parse_host_line(t.as_str()) {
                Ok(e) => {
                    let ghost before = out@.map_values(|e: HostEntry| e@);
                    out.push(e);
                    proof {
                        assert(out@.map_values(|e: HostEntry| e@) =~= before.push(e@));
                        let r = parse_lines(ls, i + 1);
                        if let Ok(rr) = r {
                            assert(before + (seq![e@] + rr) =~= out@.map_values(
                                |e: HostEntry| e@,
                            ) + rr);
                        }
                    }
                },
                Err(err) => {
                    return Err(HostsParseError { path: String::from_str(path), line: i + 1, error: err });
                },
            }
        }
        i = i + 1;
    }
    proof {
        assert(out@.map_values(|e: HostEntry| e@) + Seq::<HostSpec>::empty() =~= out@.map_values(
            |e: HostEntry| e@,
        ));
    }
    Ok(out)
}

} // verus!
