use vstd::prelude::*;
use vstd::string::*;
use crate::hosts::{HostEntry, HostSpec};
use crate::text::{
    nl_index, strip_cr, fold, occurs_ci_at, contains_ci, contains_ci_from, ends_with_nl, eq_ci, is_blank, join_lines, join_lines_str,
    leading_ws, split_lines, split_lines_str, split_tokens, starts_ci, starts_with_ci_at, tokens,
    trim, trim_start, trim_str, ws_prefix_len, blank, is_ws, lemma_ws_prefix, lemma_ws_prefix_stop,
    lemma_ws_prefix_bound,
};

verus! {

/// The entries' contents, in order.
pub open spec fn entry_views(v: Seq<HostEntry>) -> Seq<HostSpec> {
    v.map_values(|e: HostEntry| e@)
}

/// A line that opens a host block: `Host ` after leading whitespace, in any case.
pub open spec fn host_line(l: Seq<char>) -> bool {
    starts_ci(trim_start(l), "host "@)
}

/// A `ProxyCommand` directive, in any case.
pub open spec fn proxy_command_line(l: Seq<char>) -> bool {
    starts_ci(trim_start(l), "proxycommand "@)
}

/// A `ProxyCommand` directive that this tool writes: it runs `/usr/bin/nc -X`.
pub open spec fn tool_line(l: Seq<char>) -> bool {
    proxy_command_line(l) && contains_ci(trim_start(l), "/usr/bin/nc -x"@)
}

/// The directive written for `proxy`.
pub open spec fn proxy_line(proxy: Seq<char>) -> Seq<char> {
    "ProxyCommand /usr/bin/nc -X connect -x "@ + proxy + " %h %p"@
}

/// Index of the first host line at or after `i`, or the number of lines.
pub open spec fn block_end(ls: Seq<Seq<char>>, i: int) -> int
    decreases ls.len() - i,
{
    if i >= ls.len() {
        ls.len() as int
    } else if i >= 0 && host_line(ls[i]) {
        i
    } else {
        block_end(ls, i + 1)
    }
}

/// The proxy that the registry assigns to `key` (compared up to ASCII case):
/// the last matching entry wins, and one without an override takes `default`.
pub open spec fn lookup(es: Seq<HostSpec>, key: Seq<char>, default: Seq<char>) -> Option<
    Seq<char>,
>
    decreases es.len(),
{
    if es.len() == 0 {
        None
    } else if eq_ci(es.last().pattern, key) {
        Some(
            match es.last().proxy {
                Some(p) => p,
                None => default,
            },
        )
    } else {
        lookup(es.drop_last(), key, default)
    }
}

/// The proxies of those patterns that the registry knows, in pattern order.
pub open spec fn matched(pats: Seq<Seq<char>>, es: Seq<HostSpec>, default: Seq<char>) -> Seq<
    Seq<char>,
>
    decreases pats.len(),
{
    if pats.len() == 0 {
        seq![]
    } else {
        matched(pats.drop_last(), es, default) + match lookup(es, pats.last(), default) {
            Some(p) => seq![p],
            None => seq![],
        }
    }
}

/// The host patterns of a `Host` line: its words after the first.
pub open spec fn patterns(l: Seq<char>) -> Seq<Seq<char>> {
    if tokens(l).len() == 0 {
        seq![]
    } else {
        tokens(l).drop_first()
    }
}

/// Two of the matched proxies differ.
pub open spec fn conflicting(m: Seq<Seq<char>>) -> bool {
    exists|j: int| 0 <= j < m.len() && #[trigger] m[j] != m[0]
}

/// A line whose indentation a block's directive takes: it has leading
/// whitespace, and after it a character that does not open a comment.
pub open spec fn indent_candidate(l: Seq<char>) -> bool {
    0 < ws_prefix_len(l) < l.len() && l[ws_prefix_len(l) as int] != '#'
}

/// The indentation of the first line in `[i, end)` that is indented, not
/// blank and not a comment; four spaces where there is none.
pub open spec fn indent_in(ls: Seq<Seq<char>>, i: int, end: int) -> Seq<char>
    decreases end - i,
{
    if i >= end || i < 0 || i >= ls.len() {
        "    "@
    } else {
        if indent_candidate(ls[i]) {
            ls[i].take(ws_prefix_len(ls[i]) as int)
        } else {
            indent_in(ls, i + 1, end)
        }
    }
}

/// Index of the first `ProxyCommand` line in `[i, end)`, or `end`.
pub open spec fn first_proxy_command(ls: Seq<Seq<char>>, i: int, end: int) -> int
    decreases end - i,
{
    if i >= end || i < 0 || i >= ls.len() {
        end
    } else if proxy_command_line(ls[i]) {
        i
    } else {
        first_proxy_command(ls, i + 1, end)
    }
}

/// The directive that block `b` should hold for the proxy `p`.
pub open spec fn expected_line(b: Seq<Seq<char>>, p: Seq<char>) -> Seq<char> {
    indent_in(b, 1, b.len() as int) + proxy_line(p)
}

/// One host block after adding: unchanged when none of its patterns is in the
/// registry; an error, holding the trimmed `Host` line, when its patterns get
/// different proxies; else its first `ProxyCommand` line becomes the expected
/// one, or the expected line is inserted after the `Host` line. The flag says
/// whether the block changed.
pub open spec fn add_block(b: Seq<Seq<char>>, es: Seq<HostSpec>, default: Seq<char>) -> Result<
    (Seq<Seq<char>>, bool),
    Seq<char>,
> {
    let m = matched(patterns(b[0]), es, default);
    if m.len() == 0 {
        Ok((b, false))
    } else if conflicting(m) {
        Err(trim(b[0]))
    } else {
        let f = expected_line(b, m[0]);
        let k = first_proxy_command(b, 1, b.len() as int);
        if k < b.len() {
            Ok((b.update(k, f), b[k] != f))
        } else {
            Ok((b.insert(1, f), true))
        }
    }
}

/// The blocks from line `i` on, after adding; the first conflict wins.
pub open spec fn add_from(ls: Seq<Seq<char>>, es: Seq<HostSpec>, default: Seq<char>, i: int) -> Result<
    (Seq<Seq<char>>, bool),
    Seq<char>,
>
    decreases ls.len() - i,
{
    if i < 0 || i >= ls.len() {
        Ok((seq![], false))
    } else {
        let e = block_end(ls, i + 1);
        if e <= i || e > ls.len() {
            Ok((seq![], false))
        } else {
            match add_block(ls.subrange(i, e), es, default) {
                Err(x) => Err(x),
                Ok((nb, c)) => match add_from(ls, es, default, e) {
                    Err(x) => Err(x),
                    Ok((r, c2)) => Ok((nb + r, c || c2)),
                },
            }
        }
    }
}

/// The document's lines after adding the directives: the lines before the
/// first host block stay as they are.
pub open spec fn add_lines(ls: Seq<Seq<char>>, es: Seq<HostSpec>, default: Seq<char>) -> Result<
    (Seq<Seq<char>>, bool),
    Seq<char>,
> {
    let p = block_end(ls, 0);
    match add_from(ls, es, default, p) {
        Ok((r, c)) => Ok((ls.take(p) + r, c)),
        Err(x) => Err(x),
    }
}

/// A block whose `Host` line names a pattern of the registry.
pub open spec fn selected(l: Seq<char>, es: Seq<HostSpec>) -> bool {
    matched(patterns(l), es, seq![]).len() > 0
}

/// The lines that are not directives of this tool.
pub open spec fn keep_lines(ls: Seq<Seq<char>>) -> Seq<Seq<char>>
    decreases ls.len(),
{
    if ls.len() == 0 {
        seq![]
    } else {
        keep_lines(ls.drop_last()) + if tool_line(ls.last()) {
            seq![]
        } else {
            seq![ls.last()]
        }
    }
}

/// The block without the blank lines directly after its `Host` line that
/// are followed by another blank line or by the end of the block.
pub open spec fn collapse(k: Seq<Seq<char>>) -> Seq<Seq<char>>
    decreases k.len(),
{
    if k.len() >= 2 && is_blank(k[1]) && (k.len() == 2 || is_blank(k[2])) {
        collapse(k.remove(1))
    } else {
        k
    }
}

/// One host block after removal: in a selected block the tool's directives go,
/// and then the blank lines after the `Host` line collapse (see `collapse`).
/// The flag says whether a directive went.
pub open spec fn remove_block(b: Seq<Seq<char>>, es: Seq<HostSpec>) -> (Seq<Seq<char>>, bool) {
    if !selected(b[0], es) {
        (b, false)
    } else {
        let kept = seq![b[0]] + keep_lines(b.drop_first());
        if kept.len() == b.len() {
            (b, false)
        } else {
            (collapse(kept), true)
        }
    }
}

pub open spec fn remove_from(ls: Seq<Seq<char>>, es: Seq<HostSpec>, i: int) -> (Seq<Seq<char>>, bool)
    decreases ls.len() - i,
{
    if i < 0 || i >= ls.len() {
        (seq![], false)
    } else {
        let e = block_end(ls, i + 1);
        if e <= i || e > ls.len() {
            (seq![], false)
        } else {
            let (nb, c) = remove_block(ls.subrange(i, e), es);
            let (r, c2) = remove_from(ls, es, e);
            (nb + r, c || c2)
        }
    }
}

/// The document's lines after removing the directives.
pub open spec fn remove_lines(ls: Seq<Seq<char>>, es: Seq<HostSpec>) -> (Seq<Seq<char>>, bool) {
    let p = block_end(ls, 0);
    let (r, c) = remove_from(ls, es, p);
    (ls.take(p) + r, c)
}

/// The text to write after adding, and whether anything changed.
pub open spec fn add_text(doc: Seq<char>, es: Seq<HostSpec>, default: Seq<char>) -> Result<
    (Seq<char>, bool),
    Seq<char>,
> {
    match add_lines(split_lines(doc), es, default) {
        Ok((ls, c)) => {
            let j = join_lines(ls);
            Ok(
                (
                    if ends_with_nl(doc) || j.len() > 0 {
                        j.push('\n')
                    } else {
                        j
                    },
                    c,
                ),
            )
        },
        Err(x) => Err(x),
    }
}

/// The text to write after removal, and whether anything changed.
pub open spec fn remove_text(doc: Seq<char>, es: Seq<HostSpec>) -> (Seq<char>, bool) {
    let (ls, c) = remove_lines(split_lines(doc), es);
    let j = join_lines(ls);
    (
        if ends_with_nl(doc) && !ends_with_nl(j) {
            j.push('\n')
        } else {
            j
        },
        c,
    )
}

/// A host block whose patterns the registry maps to different proxies.
#[derive(Debug)]
pub struct ConflictError {
    /// The block's `Host` line, trimmed.
    pub host_line: String,
}

impl ConflictError {
    /// A human-readable description of the conflict.
    pub fn message(&self) -> (r: String)
        ensures
            r@ == "Host block '"@ + self.host_line@
                + "' matches multiple proxy assignments; split hosts with differing proxies"@,
    {
        let mut m = String::from_str("Host block '");
        m.append(self.host_line.as_str());
        m.append("' matches multiple proxy assignments; split hosts with differing proxies");
        m
    }
}

/// Does `line` open a host block?
pub fn is_host_line(line: &str) -> (r: bool)
    ensures
        r == host_line(line@),
{
    let n = leading_ws(line);
    starts_with_ci_at(line, n, "host ")
}

/// Is `line` a `ProxyCommand` directive?
pub fn is_proxy_command_line(line: &str) -> (r: bool)
    ensures
        r == proxy_command_line(line@),
{
    let n = leading_ws(line);
    starts_with_ci_at(line, n, "proxycommand ")
}

/// Is `line` a `ProxyCommand` directive that this tool wrote?
pub fn is_tool_line(line: &str) -> (r: bool)
    ensures
        r == tool_line(line@),
{
    let n = leading_ws(line);
    starts_with_ci_at(line, n, "proxycommand ") && contains_ci_from(line, n, "/usr/bin/nc -x")
}

/// The host patterns of a `Host` line: its words after the first.
pub fn host_patterns_from_line(line: &str) -> (r: Vec<String>)
    ensures
        r.deep_view() == patterns(line@),
{
    let toks = split_tokens(line);
    let mut out: Vec<String> = Vec::new();
    let mut i: usize = 1;
    while i < toks.len()
        invariant
            1 <= i <= toks.len() || toks.len() == 0,
            toks.len() == 0 ==> i == 1,
            toks.len() > 0 ==> out.deep_view() =~= toks.deep_view().subrange(1, i as int),
            toks.len() == 0 ==> out.deep_view().len() == 0,
        decreases toks.len() - i,
    {
        let ghost before = out.deep_view();
        out.push(toks[i].clone());
        assert(out.deep_view() =~= before.push(toks[i as int]@));
        i = i + 1;
    }
    proof {
        if toks.len() > 0 {
            assert(toks.deep_view().subrange(1, toks.len() as int) =~= toks.deep_view().drop_first());
        } else {
            assert(out.deep_view() =~= Seq::<Seq<char>>::empty());
        }
    }
    out
}

/// Index of the first host line at or after `index`, or the number of lines.
pub fn find_block_end(lines: &Vec<String>, index: usize) -> (r: usize)
    requires
        index <= lines.len(),
    ensures
        r as int == block_end(lines.deep_view(), index as int),
        index <= r <= lines.len(),
{
    let ghost v = lines.deep_view();
    let mut i = index;
    while i < lines.len() && !is_host_line(lines[i].as_str())
        invariant
            index <= i <= lines.len(),
            v == lines.deep_view(),
            block_end(v, index as int) == block_end(v, i as int),
        decreases lines.len() - i,
    {
        i = i + 1;
    }
    i
}

/// `a` and `b` are equal up to ASCII case.
pub fn eq_ignore_case(a: &str, b: &str) -> (r: bool)
    ensures
        r == eq_ci(a@, b@),
{
    assert(a@.skip(0) =~= a@);
    a.unicode_len() == b.unicode_len() && starts_with_ci_at(a, 0, b)
}

/// The proxy that the registry assigns to `key`.
pub fn lookup_proxy(entries: &Vec<HostEntry>, key: &str, default: &str) -> (r: Option<String>)
    ensures
        r.deep_view() == lookup(entry_views(entries@), key@, default@),
{
    let ghost es = entry_views(entries@);
    let mut i = entries.len();
    assert(es.take(i as int) =~= es);
    while i > 0
        invariant
            i <= entries.len(),
            es == entry_views(entries@),
            lookup(es, key@, default@) == lookup(es.take(i as int), key@, default@),
        decreases i,
    {
        let e = &entries[i - 1];
        let ghost t = es.take(i as int);
        assert(t.last() == e@);
        assert(t.drop_last() =~= es.take(i - 1));
        if eq_ignore_case(e.pattern.as_str(), key) {
            return match &e.proxy {
                Some(p) => Some(p.clone()),
                None => Some(String::from_str(default)),
            };
        }
        i = i - 1;
    }
    None
}

/// The proxies that the registry assigns to the given patterns, in order.
pub fn matched_proxies(pats: &Vec<String>, entries: &Vec<HostEntry>, default: &str) -> (r: Vec<
    String,
>)
    ensures
        r.deep_view() == matched(pats.deep_view(), entry_views(entries@), default@),
{
    let ghost es = entry_views(entries@);
    let ghost pv = pats.deep_view();
    let mut out: Vec<String> = Vec::new();
    let mut i: usize = 0;
    assert(pv.take(0) =~= Seq::<Seq<char>>::empty());
    while i < pats.len()
        invariant
            i <= pats.len(),
            es == entry_views(entries@),
            pv == pats.deep_view(),
            out.deep_view() == matched(pv.take(i as int), es, default@),
        decreases pats.len() - i,
    {
        let ghost t = pv.take(i + 1);
        assert(t.drop_last() =~= pv.take(i as int));
        assert(t.last() == pats[i as int]@);
        let ghost before = out.deep_view();
        match lookup_proxy(entries, pats[i].as_str(), default) {
            Some(p) => {
                out.push(p);
                assert(out.deep_view() =~= before + seq![p@]);
            },
            None => {
                assert(before + Seq::<Seq<char>>::empty() =~= before);
            },
        }
        i = i + 1;
    }
    assert(pv.take(pats.len() as int) =~= pv);
    out
}

/// The indentation of the first line in `[start, end)` that has leading
/// whitespace and is not blank; four spaces where there is none.
pub fn determine_block_indent(lines: &Vec<String>, start: usize, end: usize) -> (r: String)
    requires
        start <= end <= lines.len(),
    ensures
        r@ == indent_in(lines.deep_view(), start as int, end as int),
{
    let ghost v = lines.deep_view();
    let mut i = start;
    while i < end
        invariant
            start <= i <= end <= lines.len(),
            v == lines.deep_view(),
            indent_in(v, start as int, end as int) == indent_in(v, i as int, end as int),
        decreases end - i,
    {
        let line = lines[i].as_str();
        let n = leading_ws(line);
        if 0 < n && n < line.unicode_len() && line.get_char(n) != '#' {
            return String::from_str(line.substring_char(0, n));
        }
        i = i + 1;
    }
    String::from_str("    ")
}

/// Index of the first `ProxyCommand` line in `[start, end)`, or `end`.
fn find_proxy_command(lines: &Vec<String>, start: usize, end: usize) -> (r: usize)
    requires
        start <= end <= lines.len(),
    ensures
        r as int == first_proxy_command(lines.deep_view(), start as int, end as int),
        start <= r <= end,
{
    let ghost v = lines.deep_view();
    let mut i = start;
    while i < end && !is_proxy_command_line(lines[i].as_str())
        invariant
            start <= i <= end <= lines.len(),
            v == lines.deep_view(),
            first_proxy_command(v, start as int, end as int) == first_proxy_command(
                v,
                i as int,
                end as int,
            ),
        decreases end - i,
    {
        i = i + 1;
    }
    i
}

/// Copies of the lines `[from, to)`.
fn copy_range(lines: &Vec<String>, from: usize, to: usize) -> (r: Vec<String>)
    requires
        from <= to <= lines.len(),
    ensures
        r.deep_view() == lines.deep_view().subrange(from as int, to as int),
{
    let mut out: Vec<String> = Vec::new();
    let mut i = from;
    while i < to
        invariant
            from <= i <= to <= lines.len(),
            out.deep_view() =~= lines.deep_view().subrange(from as int, i as int),
        decreases to - i,
    {
        let ghost before = out.deep_view();
        out.push(lines[i].clone());
        assert(out.deep_view() =~= before.push(lines[i as int]@));
        i = i + 1;
    }
    out
}

/// The directive for `proxy`.
pub fn proxy_command_for(proxy: &str) -> (r: String)
    ensures
        r@ == proxy_line(proxy@),
{
    let mut s = String::from_str("ProxyCommand /usr/bin/nc -X connect -x ");
    s.append(proxy);
    s.append(" %h %p");
    s
}

/// One host block after adding the directive.
fn sync_block(b: &Vec<String>, entries: &Vec<HostEntry>, default: &str) -> (r: Result<
    (Vec<String>, bool),
    ConflictError,
>)
    requires
        b.len() >= 1,
    ensures
        match (r, add_block(b.deep_view(), entry_views(entries@), default@)) {
            (Ok((v, c)), Ok((s, c2))) => v.deep_view() == s && c == c2,
            (Err(e), Err(x)) => e.host_line@ == x,
            _ => false,
        },
{
    let ghost bv = b.deep_view();
    let ghost es = entry_views(entries@);
    let pats = host_patterns_from_line(b[0].as_str());
    let m = matched_proxies(&pats, entries, default);
    let ghost mv = m.deep_view();
    if m.len() == 0 {
        return Ok((copy_range(b, 0, b.len()), false));
    }
    let mut j: usize = 0;
    while j < m.len()
        invariant
            j <= m.len(),
            m.len() > 0,
            b.len() >= 1,
            bv == b.deep_view(),
            es == entry_views(entries@),
            mv == matched(patterns(bv[0]), es, default@),
            mv == m.deep_view(),
            forall|x: int| 0 <= x < j ==> #[trigger] mv[x] == mv[0],
        decreases m.len() - j,
    {
        if m[j] != m[0] {
            assert(mv[j as int] != mv[0]);
            return Err(ConflictError { host_line: trim_str(b[0].as_str()) });
        }
        j = j + 1;
    }
    assert(!(exists|x: int| 0 <= x < mv.len() && #[trigger] mv[x] != mv[0]));
    let mut f = determine_block_indent(b, 1, b.len());
    let pl = proxy_command_for(m[0].as_str());
    f.append(pl.as_str());
    let k = find_proxy_command(b, 1, b.len());
    let mut out: Vec<String> = Vec::new();
    if k < b.len() {
        let changed = b[k] != f;
        let ghost target = bv.update(k as int, f@);
        let mut i: usize = 0;
        while i < b.len()
            invariant
                i <= b.len(),
                k < b.len(),
                bv == b.deep_view(),
                target == bv.update(k as int, f@),
                out.deep_view() =~= target.take(i as int),
            decreases b.len() - i,
        {
            let ghost before = out.deep_view();
            if i == k {
                out.push(f.clone());
                assert(out.deep_view() =~= before.push(f@));
            } else {
                out.push(b[i].clone());
                assert(out.deep_view() =~= before.push(b[i as int]@));
            }
            i = i + 1;
        }
        assert(target.take(b.len() as int) =~= target);
        Ok((out, changed))
    } else {
        let ghost target = bv.insert(1, f@);
        let ghost fv = f@;
        out.push(b[0].clone());
        out.push(f);
        assert(out.deep_view() =~= seq![bv[0], fv]);
        let mut i: usize = 1;
        while i < b.len()
            invariant
                1 <= i <= b.len(),
                bv == b.deep_view(),
                target == bv.insert(1, fv),
                out.deep_view() =~= target.take(i as int + 1),
            decreases b.len() - i,
        {
            let ghost before = out.deep_view();
            out.push(b[i].clone());
            assert(out.deep_view() =~= before.push(b[i as int]@));
            i = i + 1;
        }
        assert(target.take(b.len() as int + 1) =~= target);
        Ok((out, true))
    }
}

/// Adds to each host block whose patterns the registry knows the
/// `ProxyCommand` directive for its proxy (an entry's own, else
/// `default_proxy`), keeping every other line as it is. Fails, naming the
/// block's `Host` line, where one block's patterns get different proxies.
/// The flag says whether any line changed.
pub fn add_proxy_commands(lines: &Vec<String>, entries: &Vec<HostEntry>, default_proxy: &str) -> (r:
    Result<(Vec<String>, bool), ConflictError>)
    ensures
        match (r, add_lines(lines.deep_view(), entry_views(entries@), default_proxy@)) {
            (Ok((v, c)), Ok((s, c2))) => v.deep_view() == s && c == c2,
            (Err(e), Err(x)) => e.host_line@ == x,
            _ => false,
        },
{
    let ghost v = lines.deep_view();
    let ghost es = entry_views(entries@);
    let ghost d = default_proxy@;
    let p = find_block_end(lines, 0);
    let mut out = copy_range(lines, 0, p);
    assert(v.subrange(0, p as int) =~= v.take(p as int));
    let mut changed = false;
    let mut i = p;
    proof {
        match add_from(v, es, d, p as int) {
            Ok((r, c)) => {
                assert(false || c == c);
            },
            Err(_) => {},
        }
    }
    while i < lines.len()
        invariant
            p <= i <= lines.len(),
            v == lines.deep_view(),
            es == entry_views(entries@),
            d == default_proxy@,
            add_lines(v, es, d) == match add_from(v, es, d, i as int) {
                Ok((r, c)) => Ok((out.deep_view() + r, changed || c)),
                Err(x) => Err(x),
            },
        decreases lines.len() - i,
    {
        let e = find_block_end(lines, i + 1);
        let b = copy_range(lines, i, e);
        match sync_block(&b, entries, default_proxy) {
            Err(x) => {
                return Err(x);
            },
            Ok((mut nb, c)) => {
                let ghost o = out.deep_view();
                let ghost nbv = nb.deep_view();
                out.append(&mut nb);
                assert(out.deep_view() =~= o + nbv);
                proof {
                    match add_from(v, es, d, e as int) {
                        Ok((r, c2)) => {
                            assert(o + (nbv + r) =~= (o + nbv) + r);
                        },
                        Err(_) => {},
                    }
                }
                changed = changed || c;
            },
        }
        i = e;
    }
    proof {
        assert(out.deep_view() + Seq::<Seq<char>>::empty() =~= out.deep_view());
    }
    Ok((out, changed))
}

/// The lines that are not directives of this tool, in order.
fn kept_lines(b: &Vec<String>, from: usize) -> (r: Vec<String>)
    requires
        from <= b.len(),
    ensures
        r.deep_view() == keep_lines(b.deep_view().skip(from as int)),
{
    let ghost s = b.deep_view().skip(from as int);
    let mut out: Vec<String> = Vec::new();
    let mut i = from;
    assert(s.take(0) =~= Seq::<Seq<char>>::empty());
    while i < b.len()
        invariant
            from <= i <= b.len(),
            s == b.deep_view().skip(from as int),
            out.deep_view() == keep_lines(s.take(i - from)),
        decreases b.len() - i,
    {
        let ghost t = s.take(i - from + 1);
        assert(t.drop_last() =~= s.take(i - from));
        assert(t.last() == b[i as int]@);
        let ghost before = out.deep_view();
        if !is_tool_line(b[i].as_str()) {
            out.push(b[i].clone());
            assert(out.deep_view() =~= before + seq![b[i as int]@]);
        } else {
            assert(before + Seq::<Seq<char>>::empty() =~= before);
        }
        i = i + 1;
    }
    assert(s.take(b.len() - from) =~= s);
    out
}

/// One host block after removing the tool's directives.
fn unsync_block(b: &Vec<String>, entries: &Vec<HostEntry>) -> (r: (Vec<String>, bool))
    requires
        b.len() >= 1,
    ensures
        (r.0.deep_view(), r.1) == remove_block(b.deep_view(), entry_views(entries@)),
{
    let ghost bv = b.deep_view();
    let pats = host_patterns_from_line(b[0].as_str());
    let m = matched_proxies(&pats, entries, "");
    proof {
        reveal_strlit("");
        assert(""@ =~= Seq::<char>::empty());
    }
    if m.len() == 0 {
        return (copy_range(b, 0, b.len()), false);
    }
    let mut rest = kept_lines(b, 1);
    assert(bv.skip(1) =~= bv.drop_first());
    if rest.len() == b.len() - 1 {
        return (copy_range(b, 0, b.len()), false);
    }
    let mut out: Vec<String> = Vec::new();
    out.push(b[0].clone());
    assert(out.deep_view() =~= seq![bv[0]]);
    let ghost rv = rest.deep_view();
    out.append(&mut rest);
    let ghost kept = seq![bv[0]] + rv;
    assert(out.deep_view() =~= kept);
    while out.len() >= 2 && blank(out[1].as_str()) && (out.len() == 2 || blank(out[2].as_str()))
        invariant
            collapse(kept) == collapse(out.deep_view()),
        decreases out.len(),
    {
        let ghost before = out.deep_view();
        out.remove(1);
        assert(out.deep_view() =~= before.remove(1));
    }
    (out, true)
}

/// Removes from each host block whose patterns the registry knows the
/// `ProxyCommand` directives that this tool writes, leaving other
/// `ProxyCommand` lines alone. The flag says whether any directive went.
pub fn remove_proxy_commands(lines: &Vec<String>, entries: &Vec<HostEntry>) -> (r: (
    Vec<String>,
    bool,
))
    ensures
        (r.0.deep_view(), r.1) == remove_lines(lines.deep_view(), entry_views(entries@)),
{
    let ghost v = lines.deep_view();
    let ghost es = entry_views(entries@);
    let p = find_block_end(lines, 0);
    let mut out = copy_range(lines, 0, p);
    assert(v.subrange(0, p as int) =~= v.take(p as int));
    let mut changed = false;
    let mut i = p;
    while i < lines.len()
        invariant
            p <= i <= lines.len(),
            v == lines.deep_view(),
            es == entry_views(entries@),
            remove_lines(v, es) == ({
                let (r, c) = remove_from(v, es, i as int);
                (out.deep_view() + r, changed || c)
            }),
        decreases lines.len() - i,
    {
        let e = find_block_end(lines, i + 1);
        let b = copy_range(lines, i, e);
        let (mut nb, c) = unsync_block(&b, entries);
        let ghost o = out.deep_view();
        let ghost nbv = nb.deep_view();
        out.append(&mut nb);
        assert(out.deep_view() =~= o + nbv);
        proof {
            let (r, c2) = remove_from(v, es, e as int);
            assert(o + (nbv + r) =~= (o + nbv) + r);
        }
        changed = changed || c;
        i = e;
    }
    proof {
        assert(out.deep_view() + Seq::<Seq<char>>::empty() =~= out.deep_view());
    }
    (out, changed)
}

/// The lines of a document (`str::lines`; none for an empty one).
pub fn collect_lines(content: &str) -> (r: Vec<String>)
    ensures
        r.deep_view() == split_lines(content@),
{
    split_lines_str(content)
}

fn ends_with_newline(s: &str) -> (r: bool)
    ensures
        r == ends_with_nl(s@),
{
    let n = s.unicode_len();
    n > 0 && s.get_char(n - 1) == '\n'
}

/// Adds the directives to the text of an SSH client configuration; gives the
/// text to write back and whether anything changed.
pub fn apply_add(document: &str, entries: &Vec<HostEntry>, default_proxy: &str) -> (r: Result<
    (String, bool),
    ConflictError,
>)
    ensures
        match (r, add_text(document@, entry_views(entries@), default_proxy@)) {
            (Ok((t, c)), Ok((s, c2))) => t@ == s && c == c2,
            (Err(e), Err(x)) => e.host_line@ == x,
            _ => false,
        },
{
    let had_newline = ends_with_newline(document);
    let lines = collect_lines(document);
    match add_proxy_commands(&lines, entries, default_proxy) {
        Err(e) => Err(e),
        Ok((new_lines, changed)) => {
            let mut text = join_lines_str(&new_lines);
            if had_newline || text.unicode_len() > 0 {
                text.append("\n");
                proof {
                    reveal_strlit("\n");
                }
            }
            Ok((text, changed))
        },
    }
}

/// Removes the tool's directives from the text of an SSH client
/// configuration; gives the text to write back and whether anything changed.
pub fn apply_removal(document: &str, entries: &Vec<HostEntry>) -> (r: (String, bool))
    ensures
        (r.0@, r.1) == remove_text(document@, entry_views(entries@)),
{
    let had_newline = ends_with_newline(document);
    let lines = collect_lines(document);
    let (new_lines, changed) = remove_proxy_commands(&lines, entries);
    let mut text = join_lines_str(&new_lines);
    if had_newline && !ends_with_newline(text.as_str()) {
        text.append("\n");
        proof {
            reveal_strlit("\n");
        }
    }
    (text, changed)
}

/// `block_end` lies between its start and the end, and never past a host line.
pub proof fn lemma_block_end_bounds(ls: Seq<Seq<char>>, k: int)
    requires
        0 <= k <= ls.len(),
    ensures
        k <= block_end(ls, k) <= ls.len(),
        forall|t: int| k <= t < ls.len() && host_line(ls[t]) ==> block_end(ls, k) <= t,
        block_end(ls, k) < ls.len() ==> host_line(ls[block_end(ls, k)]),
        forall|m: int| k <= m < block_end(ls, k) ==> !host_line(#[trigger] ls[m]),
    decreases ls.len() - k,
{
    if k < ls.len() && !host_line(ls[k]) {
        lemma_block_end_bounds(ls, k + 1);
    }
}

proof fn lemma_add_from_conflict(ls: Seq<Seq<char>>, es: Seq<HostSpec>, d: Seq<char>, i: int, t: int)
    requires
        0 <= i <= t < ls.len(),
        host_line(ls[t]),
        conflicting(matched(patterns(ls[t]), es, d)),
    ensures
        add_from(ls, es, d, i) is Err,
    decreases t - i,
{
    let e = block_end(ls, i + 1);
    lemma_block_end_bounds(ls, i + 1);
    if i < t {
        assert(e <= t);
        match add_block(ls.subrange(i, e), es, d) {
            Err(_) => {},
            Ok(_) => {
                lemma_add_from_conflict(ls, es, d, e, t);
            },
        }
    } else {
        assert(ls.subrange(i, e)[0] == ls[t]);
    }
}

/// Conflict detection: where the patterns of one `Host` line get different
/// proxies from the registry, adding fails (and so nothing is written).
pub proof fn lemma_conflict_detected(ls: Seq<Seq<char>>, es: Seq<HostSpec>, default: Seq<char>, t: int)
    requires
        0 <= t < ls.len(),
        host_line(ls[t]),
        conflicting(matched(patterns(ls[t]), es, default)),
    ensures
        add_lines(ls, es, default) is Err,
{
    lemma_block_end_bounds(ls, 0);
    lemma_add_from_conflict(ls, es, default, block_end(ls, 0), t);
}

/// Indentation preservation: the directive written into a block takes the
/// indentation of the block's first indented line after the `Host` line that
/// is neither blank nor a comment.
pub proof fn lemma_indent_follows_block(b: Seq<Seq<char>>, j: int, proxy: Seq<char>)
    requires
        1 <= j < b.len(),
        indent_candidate(b[j]),
        forall|m: int| 1 <= m < j ==> !#[trigger] indent_candidate(b[m]),
    ensures
        expected_line(b, proxy) == b[j].take(ws_prefix_len(b[j]) as int) + proxy_line(proxy),
{
    lemma_indent_skip(b, 1, j, b.len() as int);
}

proof fn lemma_indent_skip(b: Seq<Seq<char>>, i: int, j: int, end: int)
    requires
        1 <= i <= j < end <= b.len(),
        forall|m: int| i <= m < j ==> !#[trigger] indent_candidate(b[m]),
    ensures
        indent_in(b, i, end) == indent_in(b, j, end),
    decreases j - i,
{
    if i < j {
        lemma_indent_skip(b, i + 1, j, end);
    }
}

/// The lines `blk` stand in `r` from position `k` on.
pub open spec fn lines_at(r: Seq<Seq<char>>, k: int, blk: Seq<Seq<char>>) -> bool {
    0 <= k && k + blk.len() <= r.len() && r.subrange(k, k + blk.len()) == blk
}

/// The lines `blk` stand together somewhere in `r`.
pub open spec fn holds_lines(r: Seq<Seq<char>>, blk: Seq<Seq<char>>) -> bool {
    exists|k: int| lines_at(r, k, blk)
}

proof fn lemma_isolated_from(ls: Seq<Seq<char>>, es: Seq<HostSpec>, d: Seq<char>, i: int, t: int)
    requires
        0 <= i <= t < ls.len(),
        host_line(ls[t]),
        matched(patterns(ls[t]), es, d).len() == 0,
        add_from(ls, es, d, i) is Ok,
    ensures
        ({
            let e = block_end(ls, t + 1);
            let r = add_from(ls, es, d, i)->Ok_0.0;
            holds_lines(r, ls.subrange(t, e))
        }),
    decreases t - i,
{
    let e = block_end(ls, i + 1);
    lemma_block_end_bounds(ls, i + 1);
    let r = add_from(ls, es, d, i)->Ok_0.0;
    if i < t {
        assert(e <= t);
        let nb = add_block(ls.subrange(i, e), es, d)->Ok_0.0;
        let rest = add_from(ls, es, d, e)->Ok_0.0;
        lemma_isolated_from(ls, es, d, e, t);
        let et = block_end(ls, t + 1);
        let blk = ls.subrange(t, et);
        let k2 = choose|k: int| lines_at(rest, k, blk);
        assert(r == nb + rest);
        assert(r.subrange(nb.len() + k2, nb.len() + k2 + blk.len()) =~= rest.subrange(k2, k2 + blk.len()));
        assert(lines_at(r, nb.len() + k2, blk));
    } else {
        let b = ls.subrange(i, e);
        assert(b[0] == ls[t]);
        let rest = add_from(ls, es, d, e)->Ok_0.0;
        assert(r == b + rest);
        assert(r.subrange(0, b.len() as int) =~= b);
        assert(lines_at(r, 0, b));
    }
}

/// Block isolation: a block whose patterns the registry does not know comes
/// through adding with its lines unchanged.
pub proof fn lemma_block_isolation(ls: Seq<Seq<char>>, es: Seq<HostSpec>, default: Seq<char>, t: int)
    requires
        0 <= t < ls.len(),
        host_line(ls[t]),
        matched(patterns(ls[t]), es, default).len() == 0,
        add_lines(ls, es, default) is Ok,
    ensures
        ({
            let e = block_end(ls, t + 1);
            let r = add_lines(ls, es, default)->Ok_0.0;
            holds_lines(r, ls.subrange(t, e))
        }),
{
    let p = block_end(ls, 0);
    lemma_block_end_bounds(ls, 0);
    lemma_isolated_from(ls, es, default, p, t);
    let e = block_end(ls, t + 1);
    let rest = add_from(ls, es, default, p)->Ok_0.0;
    let blk = ls.subrange(t, e);
    let k2 = choose|k: int| lines_at(rest, k, blk);
    let r = add_lines(ls, es, default)->Ok_0.0;
    assert(r == ls.take(p) + rest);
    assert(r.subrange(p + k2, p + k2 + blk.len()) =~= rest.subrange(k2, k2 + blk.len()));
    assert(lines_at(r, p + k2, blk));
}

/// A non-empty run of whitespace followed by the directive: its leading
/// whitespace is that run, and it is a `ProxyCommand` line, not a host line.
proof fn lemma_directive_line(ind: Seq<char>, p: Seq<char>)
    requires
        ind.len() > 0,
        is_blank(ind),
    ensures
        ws_prefix_len(ind + proxy_line(p)) == ind.len(),
        ind.len() < (ind + proxy_line(p)).len(),
        (ind + proxy_line(p))[ind.len() as int] == 'P',
        (ind + proxy_line(p)).take(ind.len() as int) == ind,
        proxy_command_line(ind + proxy_line(p)),
        !host_line(ind + proxy_line(p)),
{
    let f = ind + proxy_line(p);
    reveal_strlit("ProxyCommand /usr/bin/nc -X connect -x ");
    reveal_strlit(" %h %p");
    reveal_strlit("proxycommand ");
    reveal_strlit("host ");
    let pl = proxy_line(p);
    assert(pl[0] == 'P');
    assert(f[ind.len() as int] == 'P');
    assert forall|j: int| 0 <= j < ind.len() implies is_ws(#[trigger] f[j]) by {
        assert(f[j] == ind[j]);
    }
    lemma_ws_prefix(f, ind.len() as int);
    assert(f.take(ind.len() as int) =~= ind);
    assert(trim_start(f) =~= pl);
    let pc = "proxycommand "@;
    assert forall|i: int| 0 <= i < pc.len() implies fold(#[trigger] pl[i]) == fold(pc[i]) by {
        assert(pl[i] == "ProxyCommand /usr/bin/nc -X connect -x "@[i]);
    }
    assert(fold(pl[0]) != fold("host "@[0]));
}

/// The indentation chosen for a block is a non-empty run of whitespace.
proof fn lemma_indent_blank(ls: Seq<Seq<char>>, i: int, end: int)
    ensures
        indent_in(ls, i, end).len() > 0,
        is_blank(indent_in(ls, i, end)),
    decreases end - i,
{
    if i >= end || i < 0 || i >= ls.len() {
        reveal_strlit("    ");
    } else {
        let n = ws_prefix_len(ls[i]);
        if indent_candidate(ls[i]) {
            lemma_ws_prefix_stop(ls[i]);
            let t = ls[i].take(n as int);
            assert forall|j: int| 0 <= j < t.len() implies is_ws(#[trigger] t[j]) by {
                assert(t[j] == ls[i][j]);
            }
        } else {
            lemma_indent_blank(ls, i + 1, end);
        }
    }
}

/// Two line sequences that agree on `[i, k)` choose the same indentation
/// from `i`, or each chooses what it chooses from `k`.
proof fn lemma_indent_agree(b1: Seq<Seq<char>>, b2: Seq<Seq<char>>, i: int, k: int, end: int)
    requires
        0 <= i <= k,
        b1.len() == b2.len(),
        forall|m: int| i <= m < k && m < b1.len() ==> #[trigger] b1[m] == b2[m],
    ensures
        indent_in(b1, i, end) == indent_in(b2, i, end) || (indent_in(b1, i, end) == indent_in(
            b1,
            k,
            end,
        ) && indent_in(b2, i, end) == indent_in(b2, k, end)),
    decreases k - i,
{
    if i < k && i < end && i < b1.len() {
        assert(b1[i] == b2[i]);
        lemma_indent_agree(b1, b2, i + 1, k, end);
    }
}

proof fn lemma_first_pc_props(ls: Seq<Seq<char>>, i: int, end: int)
    requires
        0 <= i <= end <= ls.len(),
    ensures
        i <= first_proxy_command(ls, i, end) <= end,
        forall|m: int| i <= m < first_proxy_command(ls, i, end) ==> !proxy_command_line(#[trigger] ls[m]),
        first_proxy_command(ls, i, end) < end ==> proxy_command_line(ls[first_proxy_command(ls, i, end)]),
    decreases end - i,
{
    if i < end && !proxy_command_line(ls[i]) {
        lemma_first_pc_props(ls, i + 1, end);
    }
}

proof fn lemma_first_pc_at(ls: Seq<Seq<char>>, i: int, k: int, end: int)
    requires
        0 <= i <= k < end <= ls.len(),
        forall|m: int| i <= m < k ==> !proxy_command_line(#[trigger] ls[m]),
        proxy_command_line(ls[k]),
    ensures
        first_proxy_command(ls, i, end) == k,
    decreases k - i,
{
    if i < k {
        lemma_first_pc_at(ls, i + 1, k, end);
    }
}

/// Adding to a block that adding produced changes nothing; the block keeps
/// its `Host` line and gains no other host line.
proof fn lemma_block_idempotent(b: Seq<Seq<char>>, es: Seq<HostSpec>, d: Seq<char>)
    requires
        b.len() >= 1,
        forall|m: int| 1 <= m < b.len() ==> !host_line(#[trigger] b[m]),
        add_block(b, es, d) is Ok,
    ensures
        ({
            let nb = add_block(b, es, d)->Ok_0.0;
            &&& add_block(nb, es, d) == Ok::<(Seq<Seq<char>>, bool), Seq<char>>((nb, false))
            &&& nb.len() >= 1
            &&& nb[0] == b[0]
            &&& forall|m: int| 1 <= m < nb.len() ==> !host_line(#[trigger] nb[m])
        }),
{
    let m = matched(patterns(b[0]), es, d);
    if m.len() > 0 {
        let ind = indent_in(b, 1, b.len() as int);
        let f = expected_line(b, m[0]);
        lemma_indent_blank(b, 1, b.len() as int);
        lemma_directive_line(ind, m[0]);
        lemma_first_pc_props(b, 1, b.len() as int);
        let k = first_proxy_command(b, 1, b.len() as int);
        if k < b.len() {
            let nb = b.update(k, f);
            assert(nb[0] == b[0]);
            lemma_indent_agree(b, nb, 1, k, b.len() as int);
            if indent_in(b, 1, b.len() as int) != indent_in(nb, 1, b.len() as int) {
                assert(nb[k] == f);
                assert(indent_candidate(f));
                assert(indent_in(nb, k, nb.len() as int) == f.take(ind.len() as int));
            }
            assert forall|x: int| 1 <= x < k implies !proxy_command_line(#[trigger] nb[x]) by {
                assert(nb[x] == b[x]);
            }
            lemma_first_pc_at(nb, 1, k, nb.len() as int);
            assert(nb.update(k, f) =~= nb);
            assert forall|x: int| 1 <= x < nb.len() implies !host_line(#[trigger] nb[x]) by {
                if x != k {
                    assert(nb[x] == b[x]);
                }
            }
        } else {
            let nb = b.insert(1, f);
            assert(nb[0] == b[0]);
            assert(nb[1] == f);
            assert(indent_candidate(f));
            assert(indent_in(nb, 1, nb.len() as int) == f.take(ind.len() as int));
            lemma_first_pc_at(nb, 1, 1, nb.len() as int);
            assert(nb.update(1, f) =~= nb);
            assert forall|x: int| 1 <= x < nb.len() implies !host_line(#[trigger] nb[x]) by {
                if x > 1 {
                    assert(nb[x] == b[x - 1]);
                }
            }
        }
    }
}

proof fn lemma_block_end_exact(ls: Seq<Seq<char>>, k: int, t: int)
    requires
        0 <= k <= t <= ls.len(),
        forall|m: int| k <= m < t ==> !host_line(#[trigger] ls[m]),
        t == ls.len() || host_line(ls[t]),
    ensures
        block_end(ls, k) == t,
    decreases t - k,
{
    if k < t {
        lemma_block_end_exact(ls, k + 1, t);
    }
}

proof fn lemma_block_end_shift(x: Seq<Seq<char>>, y: Seq<Seq<char>>, k: int)
    requires
        0 <= k <= y.len(),
    ensures
        block_end(x + y, x.len() + k) == x.len() + block_end(y, k),
    decreases y.len() - k,
{
    if k < y.len() {
        assert((x + y)[x.len() + k] == y[k]);
        lemma_block_end_shift(x, y, k + 1);
    }
}

/// Adding from line `x.len() + j` of `x + y` is adding from line `j` of `y`.
proof fn lemma_add_from_shift(x: Seq<Seq<char>>, y: Seq<Seq<char>>, es: Seq<HostSpec>, d: Seq<char>, j: int)
    requires
        0 <= j <= y.len(),
    ensures
        add_from(x + y, es, d, x.len() + j) == add_from(y, es, d, j),
    decreases y.len() - j,
{
    if j < y.len() {
        lemma_block_end_shift(x, y, j + 1);
        lemma_block_end_bounds(y, j + 1);
        let e = block_end(y, j + 1);
        assert((x + y).subrange(x.len() + j, x.len() + e) =~= y.subrange(j, e));
        lemma_add_from_shift(x, y, es, d, e);
    }
}

proof fn lemma_add_from_idempotent(ls: Seq<Seq<char>>, es: Seq<HostSpec>, d: Seq<char>, i: int)
    requires
        0 <= i <= ls.len(),
        i == ls.len() || host_line(ls[i]),
        add_from(ls, es, d, i) is Ok,
    ensures
        ({
            let r = add_from(ls, es, d, i)->Ok_0.0;
            &&& add_from(r, es, d, 0) == Ok::<(Seq<Seq<char>>, bool), Seq<char>>((r, false))
            &&& (r.len() == 0 <==> i == ls.len())
            &&& (r.len() > 0 ==> host_line(r[0]))
        }),
    decreases ls.len() - i,
{
    if i < ls.len() {
        let e = block_end(ls, i + 1);
        lemma_block_end_bounds(ls, i + 1);
        let b = ls.subrange(i, e);
        assert forall|m: int| 1 <= m < b.len() implies !host_line(#[trigger] b[m]) by {
            assert(b[m] == ls[i + m]);
        }
        lemma_block_idempotent(b, es, d);
        let nb = add_block(b, es, d)->Ok_0.0;
        lemma_add_from_idempotent(ls, es, d, e);
        let r2 = add_from(ls, es, d, e)->Ok_0.0;
        let r = nb + r2;
        assert(add_from(ls, es, d, i)->Ok_0.0 == r);
        assert forall|m: int| 1 <= m < nb.len() implies !host_line(#[trigger] r[m]) by {
            assert(r[m] == nb[m]);
        }
        if r2.len() > 0 {
            assert(r[nb.len() as int] == r2[0]);
        }
        lemma_block_end_exact(r, 1, nb.len() as int);
        assert(r.subrange(0, nb.len() as int) =~= nb);
        lemma_add_from_shift(nb, r2, es, d, 0);
        assert(r[0] == b[0]);
        assert(b[0] == ls[i]);
    }
}

/// Idempotence: adding to what adding produced changes nothing.
pub proof fn lemma_add_idempotent(ls: Seq<Seq<char>>, es: Seq<HostSpec>, default: Seq<char>)
    requires
        add_lines(ls, es, default) is Ok,
    ensures
        ({
            let r = add_lines(ls, es, default)->Ok_0.0;
            add_lines(r, es, default) == Ok::<(Seq<Seq<char>>, bool), Seq<char>>((r, false))
        }),
{
    let p = block_end(ls, 0);
    lemma_block_end_bounds(ls, 0);
    lemma_add_from_idempotent(ls, es, default, p);
    let rp = add_from(ls, es, default, p)->Ok_0.0;
    let x = ls.take(p);
    let r = x + rp;
    assert forall|m: int| 0 <= m < p implies !host_line(#[trigger] r[m]) by {
        assert(r[m] == ls[m]);
    }
    if rp.len() > 0 {
        assert(r[p] == rp[0]);
    }
    lemma_block_end_exact(r, 0, p);
    lemma_add_from_shift(x, rp, es, default, 0);
    assert(r.take(p) + rp =~= r);
}

proof fn lemma_lookup_some(es: Seq<HostSpec>, key: Seq<char>, d1: Seq<char>, d2: Seq<char>)
    ensures
        (lookup(es, key, d1) is Some) == (lookup(es, key, d2) is Some),
    decreases es.len(),
{
    if es.len() > 0 && !eq_ci(es.last().pattern, key) {
        lemma_lookup_some(es.drop_last(), key, d1, d2);
    }
}

/// Whether a pattern list matches does not depend on the default proxy.
proof fn lemma_matched_len(pats: Seq<Seq<char>>, es: Seq<HostSpec>, d1: Seq<char>, d2: Seq<char>)
    ensures
        matched(pats, es, d1).len() == matched(pats, es, d2).len(),
    decreases pats.len(),
{
    if pats.len() > 0 {
        lemma_lookup_some(es, pats.last(), d1, d2);
        lemma_matched_len(pats.drop_last(), es, d1, d2);
    }
}

proof fn lemma_keep_concat(a: Seq<Seq<char>>, b: Seq<Seq<char>>)
    ensures
        keep_lines(a + b) == keep_lines(a) + keep_lines(b),
    decreases b.len(),
{
    if b.len() == 0 {
        assert(a + b =~= a);
        assert(keep_lines(a) + keep_lines(b) =~= keep_lines(a));
    } else {
        assert((a + b).drop_last() =~= a + b.drop_last());
        assert((a + b).last() == b.last());
        lemma_keep_concat(a, b.drop_last());
        assert(keep_lines(a + b) =~= keep_lines(a) + keep_lines(b));
    }
}

proof fn lemma_keep_all(b: Seq<Seq<char>>)
    requires
        forall|m: int| 0 <= m < b.len() ==> !proxy_command_line(#[trigger] b[m]),
    ensures
        keep_lines(b) == b,
    decreases b.len(),
{
    if b.len() > 0 {
        lemma_keep_all(b.drop_last());
        assert(!proxy_command_line(b[b.len() - 1]));
        assert(keep_lines(b.drop_last()) + seq![b.last()] =~= b);
    }
}

/// A block that the round trip restores: no `ProxyCommand` line, and no
/// blank line after the `Host` line that removal would collapse.
pub open spec fn plain_block(b: Seq<Seq<char>>) -> bool {
    (forall|m: int| 1 <= m < b.len() ==> !proxy_command_line(#[trigger] b[m])) && !(b.len() >= 2
        && is_blank(b[1]) && (b.len() == 2 || is_blank(b[2])))
}

/// Every block that the registry selects is plain.
#[verifier::opaque]
pub open spec fn plain_selected_blocks(ls: Seq<Seq<char>>, es: Seq<HostSpec>) -> bool {
    forall|t: int|
        0 <= t < ls.len() && #[trigger] host_line(ls[t]) && selected(ls[t], es) ==> plain_block(
            ls.subrange(t, block_end(ls, t + 1)),
        )
}

proof fn lemma_block_round_trip(b: Seq<Seq<char>>, es: Seq<HostSpec>, d: Seq<char>)
    requires
        b.len() >= 1,
        add_block(b, es, d) is Ok,
        selected(b[0], es) ==> plain_block(b),
    ensures
        remove_block(add_block(b, es, d)->Ok_0.0, es).0 == b,
{
    let m = matched(patterns(b[0]), es, d);
    lemma_matched_len(patterns(b[0]), es, d, seq![]);
    if m.len() > 0 {
        let ind = indent_in(b, 1, b.len() as int);
        let f = expected_line(b, m[0]);
        lemma_indent_blank(b, 1, b.len() as int);
        lemma_directive_line(ind, m[0]);
        lemma_first_pc_props(b, 1, b.len() as int);
        let k = first_proxy_command(b, 1, b.len() as int);
        if k < b.len() {
            assert(proxy_command_line(b[k]));
            assert(false);
        }
        let nb = b.insert(1, f);
        reveal_strlit("ProxyCommand /usr/bin/nc -X connect -x ");
        reveal_strlit("/usr/bin/nc -x");
        let pl = proxy_line(m[0]);
        let sig = "/usr/bin/nc -x"@;
        assert forall|i: int| 0 <= i < sig.len() implies fold(#[trigger] pl[13 + i]) == fold(sig[i]) by {
            assert(pl[13 + i] == "ProxyCommand /usr/bin/nc -X connect -x "@[13 + i]);
        }
        assert(trim_start(f) =~= pl) by {
            lemma_ws_prefix_bound(f);
        }
        assert(occurs_ci_at(trim_start(f), sig, 13));
        assert(tool_line(f));
        let rest = b.drop_first();
        assert(nb.drop_first() =~= seq![f] + rest);
        lemma_keep_concat(seq![f], rest);
        assert(seq![f].drop_last() =~= Seq::<Seq<char>>::empty());
        assert(seq![f].last() == f);
        assert(keep_lines(Seq::<Seq<char>>::empty()) =~= Seq::<Seq<char>>::empty());
        assert(keep_lines(seq![f]) =~= Seq::<Seq<char>>::empty());
        assert forall|x: int| 0 <= x < rest.len() implies !proxy_command_line(#[trigger] rest[x]) by {
            assert(rest[x] == b[x + 1]);
        }
        lemma_keep_all(rest);
        assert(seq![nb[0]] + keep_lines(nb.drop_first()) =~= b);
        assert(collapse(b) == b);
    }
}

proof fn lemma_remove_from_shift(x: Seq<Seq<char>>, y: Seq<Seq<char>>, es: Seq<HostSpec>, j: int)
    requires
        0 <= j <= y.len(),
    ensures
        remove_from(x + y, es, x.len() + j) == remove_from(y, es, j),
    decreases y.len() - j,
{
    if j < y.len() {
        lemma_block_end_shift(x, y, j + 1);
        lemma_block_end_bounds(y, j + 1);
        let e = block_end(y, j + 1);
        assert((x + y).subrange(x.len() + j, x.len() + e) =~= y.subrange(j, e));
        lemma_remove_from_shift(x, y, es, e);
    }
}

proof fn lemma_round_trip_from(ls: Seq<Seq<char>>, es: Seq<HostSpec>, d: Seq<char>, i: int)
    requires
        0 <= i <= ls.len(),
        i == ls.len() || host_line(ls[i]),
        add_from(ls, es, d, i) is Ok,
        plain_selected_blocks(ls, es),
    ensures
        remove_from(add_from(ls, es, d, i)->Ok_0.0, es, 0).0 == ls.subrange(i, ls.len() as int),
    decreases ls.len() - i,
{
    lemma_add_from_idempotent(ls, es, d, i);
    if i < ls.len() {
        let e = block_end(ls, i + 1);
        lemma_block_end_bounds(ls, i + 1);
        let b = ls.subrange(i, e);
        assert forall|m: int| 1 <= m < b.len() implies !host_line(#[trigger] b[m]) by {
            assert(b[m] == ls[i + m]);
        }
        assert(b[0] == ls[i]);
        assert(host_line(ls[i]));
        assert(selected(b[0], es) ==> plain_block(b)) by {
            reveal(plain_selected_blocks);
        }
        lemma_block_idempotent(b, es, d);
        lemma_block_round_trip(b, es, d);
        let nb = add_block(b, es, d)->Ok_0.0;
        lemma_add_from_idempotent(ls, es, d, e);
        lemma_round_trip_from(ls, es, d, e);
        let r2 = add_from(ls, es, d, e)->Ok_0.0;
        let r = nb + r2;
        assert(add_from(ls, es, d, i)->Ok_0.0 == r);
        assert forall|m: int| 1 <= m < nb.len() implies !host_line(#[trigger] r[m]) by {
            assert(r[m] == nb[m]);
        }
        if r2.len() > 0 {
            assert(r[nb.len() as int] == r2[0]);
        }
        lemma_block_end_exact(r, 1, nb.len() as int);
        assert(r.subrange(0, nb.len() as int) =~= nb);
        lemma_remove_from_shift(nb, r2, es, 0);
        assert(b + ls.subrange(e, ls.len() as int) =~= ls.subrange(i, ls.len() as int));
    } else {
        assert(ls.subrange(i, ls.len() as int) =~= Seq::<Seq<char>>::empty());
    }
}

/// Round trip: removing after adding gives back the document, where every
/// block that the registry selects held no `ProxyCommand` line and no blank
/// line after its `Host` line that is followed by a blank line or the
/// block's end.
pub proof fn lemma_add_remove_round_trip(ls: Seq<Seq<char>>, es: Seq<HostSpec>, default: Seq<char>)
    requires
        add_lines(ls, es, default) is Ok,
        plain_selected_blocks(ls, es),
    ensures
        remove_lines(add_lines(ls, es, default)->Ok_0.0, es).0 == ls,
{
    let p = block_end(ls, 0);
    lemma_block_end_bounds(ls, 0);
    lemma_add_from_idempotent(ls, es, default, p);
    lemma_round_trip_from(ls, es, default, p);
    let rp = add_from(ls, es, default, p)->Ok_0.0;
    let x = ls.take(p);
    let r = x + rp;
    assert forall|m: int| 0 <= m < p implies !host_line(#[trigger] r[m]) by {
        assert(r[m] == ls[m]);
    }
    if rp.len() > 0 {
        assert(r[p] == rp[0]);
    }
    lemma_block_end_exact(r, 0, p);
    lemma_remove_from_shift(x, rp, es, 0);
    assert(r.take(p) + ls.subrange(p, ls.len() as int) =~= ls);
}

/// The `Host` line `l` lists `pattern`, up to ASCII case.
pub open spec fn names_pattern(l: Seq<char>, pattern: Seq<char>) -> bool {
    exists|j: int| 0 <= j < patterns(l).len() && eq_ci(#[trigger] patterns(l)[j], pattern)
}

/// The block that opens at line `t` holds a directive of this tool.
pub open spec fn block_has_tool_line(ls: Seq<Seq<char>>, t: int) -> bool {
    exists|m: int| t < m < block_end(ls, t + 1) && tool_line(#[trigger] ls[m])
}

/// Some block that lists `pattern` holds a directive of this tool.
pub open spec fn host_configured(ls: Seq<Seq<char>>, pattern: Seq<char>) -> bool {
    exists|t: int|
        0 <= t < ls.len() && #[trigger] host_line(ls[t]) && names_pattern(ls[t], pattern)
            && block_has_tool_line(ls, t)
}

fn lists_pattern(line: &str, pattern: &str) -> (r: bool)
    ensures
        r == names_pattern(line@, pattern@),
{
    let pats = host_patterns_from_line(line);
    let ghost pv = pats.deep_view();
    let mut j: usize = 0;
    while j < pats.len()
        invariant
            j <= pats.len(),
            pv == pats.deep_view(),
            pv == patterns(line@),
            forall|x: int| 0 <= x < j ==> !eq_ci(#[trigger] pv[x], pattern@),
        decreases pats.len() - j,
    {
        if eq_ignore_case(pats[j].as_str(), pattern) {
            assert(eq_ci(pv[j as int], pattern@));
            return true;
        }
        j = j + 1;
    }
    false
}

fn holds_tool_line(lines: &Vec<String>, t: usize) -> (r: bool)
    requires
        t < lines.len(),
    ensures
        r == block_has_tool_line(lines.deep_view(), t as int),
{
    let ghost v = lines.deep_view();
    let e = find_block_end(lines, t + 1);
    let mut m = t + 1;
    while m < e
        invariant
            t + 1 <= m <= e <= lines.len(),
            v == lines.deep_view(),
            e as int == block_end(v, t + 1),
            forall|x: int| t < x < m ==> !tool_line(#[trigger] v[x]),
        decreases e - m,
    {
        if is_tool_line(lines[m].as_str()) {
            assert(tool_line(v[m as int]));
            return true;
        }
        m = m + 1;
    }
    false
}

/// Does some block that lists `pattern` hold a directive of this tool?
pub fn host_is_configured(lines: &Vec<String>, pattern: &str) -> (r: bool)
    ensures
        r == host_configured(lines.deep_view(), pattern@),
{
    let ghost v = lines.deep_view();
    let mut t: usize = 0;
    while t < lines.len()
        invariant
            t <= lines.len(),
            v == lines.deep_view(),
            forall|x: int|
                0 <= x < t ==> !(#[trigger] host_line(v[x]) && names_pattern(v[x], pattern@)
                    && block_has_tool_line(v, x)),
        decreases lines.len() - t,
    {
        let line = lines[t].as_str();
        if is_host_line(line) && lists_pattern(line, pattern) && holds_tool_line(lines, t) {
            assert(host_line(v[t as int]));
            return true;
        }
        t = t + 1;
    }
    false
}

/// The SSH side of the status, from the least to the most complete.
#[derive(Debug, Clone, Copy, PartialEq, Eq, Structural)]
pub enum SshState {
    HostsFileMissing,
    ConfigMissing,
    NoHosts,
    Configured,
    PartiallyConfigured,
}

/// The SSH state: the hosts file, then the configuration file, must exist;
/// then it depends on how many of the tracked hosts are missing their
/// directive.
pub fn ssh_state(hosts_file_exists: bool, config_exists: bool, n_hosts: usize, n_missing: usize) -> (r:
    SshState)
    ensures
        r == if !hosts_file_exists {
            SshState::HostsFileMissing
        } else if !config_exists {
            SshState::ConfigMissing
        } else if n_hosts == 0 {
            SshState::NoHosts
        } else if n_missing == 0 {
            SshState::Configured
        } else {
            SshState::PartiallyConfigured
        },
{
    if !hosts_file_exists {
        SshState::HostsFileMissing
    } else if !config_exists {
        SshState::ConfigMissing
    } else if n_hosts == 0 {
        SshState::NoHosts
    } else if n_missing == 0 {
        SshState::Configured
    } else {
        SshState::PartiallyConfigured
    }
}

proof fn lemma_keep_contains(b: Seq<Seq<char>>, m: int)
    requires
        0 <= m < b.len(),
        !tool_line(b[m]),
    ensures
        keep_lines(b).contains(b[m]),
    decreases b.len(),
{
    let k = keep_lines(b.drop_last());
    if m == b.len() - 1 {
        assert(keep_lines(b) == k + seq![b.last()]);
        assert(keep_lines(b)[k.len() as int] == b[m]);
    } else {
        assert(b.drop_last()[m] == b[m]);
        lemma_keep_contains(b.drop_last(), m);
        let j = choose|j: int| 0 <= j < k.len() && k[j] == b[m];
        assert(keep_lines(b)[j] == b[m]);
    }
}

proof fn lemma_remove_block_keeps(b: Seq<Seq<char>>, es: Seq<HostSpec>, m: int)
    requires
        0 <= m < b.len(),
        m == 0 || (!tool_line(b[m]) && !is_blank(b[m])),
    ensures
        remove_block(b, es).0.contains(b[m]),
{
    let r = remove_block(b, es).0;
    if !selected(b[0], es) {
        assert(r[m] == b[m]);
    } else {
        let rest = b.drop_first();
        let kept = seq![b[0]] + keep_lines(rest);
        if kept.len() == b.len() {
            assert(r[m] == b[m]);
        } else if m == 0 {
            lemma_collapse_keeps(kept, 0);
        } else {
            assert(rest[m - 1] == b[m]);
            lemma_keep_contains(rest, m - 1);
            let j = choose|j: int| 0 <= j < keep_lines(rest).len() && keep_lines(rest)[j] == b[m];
            assert(kept[j + 1] == b[m]);
            lemma_collapse_keeps(kept, j + 1);
        }
    }
}

/// Collapsing keeps the `Host` line and every line that is not blank.
proof fn lemma_collapse_keeps(k: Seq<Seq<char>>, j: int)
    requires
        0 <= j < k.len(),
        j == 0 || !is_blank(k[j]),
    ensures
        collapse(k).contains(k[j]),
        collapse(k).len() > 0 && collapse(k)[0] == k[0],
    decreases k.len(),
{
    if k.len() >= 2 && is_blank(k[1]) && (k.len() == 2 || is_blank(k[2])) {
        let k2 = k.remove(1);
        assert(k2[0] == k[0]);
        if j == 0 {
            lemma_collapse_keeps(k2, 0);
        } else {
            assert(j != 1);
            assert(k2[j - 1] == k[j]);
            lemma_collapse_keeps(k2, j - 1);
        }
    } else {
        assert(k[j] == k[j]);
    }
}

proof fn lemma_remove_from_keeps(ls: Seq<Seq<char>>, es: Seq<HostSpec>, i: int, m: int)
    requires
        0 <= i <= m < ls.len(),
        m == i || (!tool_line(ls[m]) && !is_blank(ls[m])),
    ensures
        remove_from(ls, es, i).0.contains(ls[m]),
    decreases ls.len() - i,
{
    let e = block_end(ls, i + 1);
    lemma_block_end_bounds(ls, i + 1);
    let b = ls.subrange(i, e);
    let nb = remove_block(b, es).0;
    let r2 = remove_from(ls, es, e).0;
    let r = remove_from(ls, es, i).0;
    assert(r == nb + r2);
    if m < e {
        assert(b[m - i] == ls[m]);
        lemma_remove_block_keeps(b, es, m - i);
        let j = choose|j: int| 0 <= j < nb.len() && nb[j] == ls[m];
        assert(r[j] == ls[m]);
    } else {
        lemma_remove_from_keeps(ls, es, e, m);
        let j = choose|j: int| 0 <= j < r2.len() && r2[j] == ls[m];
        assert(r[nb.len() + j] == ls[m]);
    }
}

/// Removal keeps every line that is not a directive of this tool, save that
/// a blank line may go: in particular other `ProxyCommand` lines stay.
pub proof fn lemma_removal_keeps_foreign_lines(ls: Seq<Seq<char>>, es: Seq<HostSpec>, m: int)
    requires
        0 <= m < ls.len(),
        !tool_line(ls[m]),
        !is_blank(ls[m]),
    ensures
        remove_lines(ls, es).0.contains(ls[m]),
{
    let p = block_end(ls, 0);
    lemma_block_end_bounds(ls, 0);
    let rp = remove_from(ls, es, p).0;
    let r = remove_lines(ls, es).0;
    assert(r == ls.take(p) + rp);
    if m < p {
        assert(r[m] == ls[m]);
    } else {
        lemma_remove_from_keeps(ls, es, p, m);
        let j = choose|j: int| 0 <= j < rp.len() && rp[j] == ls[m];
        assert(r[p + j] == ls[m]);
    }
}

/// A `Host` line whose patterns get different proxies from the registry.
pub open spec fn conflict_at(ls: Seq<Seq<char>>, es: Seq<HostSpec>, default: Seq<char>, t: int) -> bool {
    0 <= t < ls.len() && host_line(ls[t]) && conflicting(matched(patterns(ls[t]), es, default))
}

proof fn lemma_add_from_err_has_conflict(ls: Seq<Seq<char>>, es: Seq<HostSpec>, d: Seq<char>, i: int)
    requires
        0 <= i <= ls.len(),
        i == ls.len() || host_line(ls[i]),
        add_from(ls, es, d, i) is Err,
    ensures
        exists|t: int| #[trigger] conflict_at(ls, es, d, t),
    decreases ls.len() - i,
{
    let e = block_end(ls, i + 1);
    lemma_block_end_bounds(ls, i + 1);
    let b = ls.subrange(i, e);
    assert(b[0] == ls[i]);
    if add_block(b, es, d) is Err {
        assert(conflict_at(ls, es, d, i));
    } else {
        lemma_add_from_err_has_conflict(ls, es, d, e);
    }
}

/// Conflict detection on a whole document: adding fails exactly when some
/// `Host` line of the document gets different proxies for its patterns.
pub proof fn lemma_conflict_iff(doc: Seq<char>, es: Seq<HostSpec>, default: Seq<char>)
    ensures
        (add_text(doc, es, default) is Err) <==> exists|t: int|
            #[trigger] conflict_at(split_lines(doc), es, default, t),
{
    let ls = split_lines(doc);
    if add_text(doc, es, default) is Err {
        lemma_block_end_bounds(ls, 0);
        lemma_add_from_err_has_conflict(ls, es, default, block_end(ls, 0));
    }
    if exists|t: int| #[trigger] conflict_at(ls, es, default, t) {
        let t = choose|t: int| #[trigger] conflict_at(ls, es, default, t);
        lemma_conflict_detected(ls, es, default, t);
    }
}

/// A line that joining and splitting give back as it is: no `'\n'` in it,
/// and no `'\r'` at its end.
pub open spec fn clean_line(l: Seq<char>) -> bool {
    (forall|i: int| 0 <= i < l.len() ==> #[trigger] l[i] != '\n') && !(l.len() > 0 && l.last()
        == '\r')
}

/// No `'\n'` in `s`.
pub open spec fn no_newline(s: Seq<char>) -> bool {
    forall|i: int| 0 <= i < s.len() ==> #[trigger] s[i] != '\n'
}

proof fn lemma_join_front_lines(h: Seq<char>, rest: Seq<Seq<char>>)
    requires
        rest.len() > 0,
    ensures
        join_lines(seq![h] + rest) == h + seq!['\n'] + join_lines(rest),
    decreases rest.len(),
{
    let a = seq![h] + rest;
    if rest.len() == 1 {
        assert(a.drop_last() =~= seq![h]);
        assert(join_lines(seq![h]) == h);
        assert(join_lines(a) =~= h + seq!['\n'] + join_lines(rest));
    } else {
        assert(a.drop_last() =~= seq![h] + rest.drop_last());
        lemma_join_front_lines(h, rest.drop_last());
        assert(join_lines(a) =~= h + seq!['\n'] + join_lines(rest));
    }
}

/// Splitting lines that were joined, with a final line ending, gives them back.
proof fn lemma_split_join(r: Seq<Seq<char>>)
    requires
        r.len() > 0,
        forall|k: int| 0 <= k < r.len() ==> clean_line(#[trigger] r[k]),
    ensures
        split_lines(join_lines(r).push('\n')) == r,
    decreases r.len(),
{
    let h = r[0];
    assert(clean_line(r[0]));
    let s = if r.len() == 1 {
        h.push('\n')
    } else {
        h + seq!['\n'] + join_lines(r.drop_first()).push('\n')
    };
    if r.len() > 1 {
        assert(r =~= seq![h] + r.drop_first());
        lemma_join_front_lines(h, r.drop_first());
        assert(join_lines(r).push('\n') =~= s);
    } else {
        assert(join_lines(r) == h);
    }
    assert forall|j: int| 0 <= j < h.len() implies #[trigger] s[j] != '\n' by {
        assert(s[j] == h[j]);
    }
    crate::text::lemma_nl_index(s, h.len() as int);
    assert(s.take(h.len() as int) =~= h);
    if r.len() > 1 {
        let rest = r.drop_first();
        assert forall|k: int| 0 <= k < rest.len() implies clean_line(#[trigger] rest[k]) by {
            assert(rest[k] == r[k + 1]);
        }
        lemma_split_join(rest);
        assert(strip_cr(h) == h);
        assert(s.skip(h.len() as int + 1) =~= join_lines(rest).push('\n'));
        assert(split_lines(s) =~= seq![h] + rest);
    } else {
        assert(s.skip(h.len() as int + 1) =~= Seq::<char>::empty());
        assert(strip_cr(h) == h);
        assert(split_lines(Seq::<char>::empty()) == Seq::<Seq<char>>::empty());
        assert(split_lines(s) =~= seq![h]);
    }
}

/// The lines of a text hold no `'\n'`.
proof fn lemma_split_no_newline(s: Seq<char>)
    ensures
        forall|k: int| 0 <= k < split_lines(s).len() ==> no_newline(#[trigger] split_lines(s)[k]),
    decreases s.len(),
{
    if s.len() > 0 {
        let i = nl_index(s) as int;
        crate::text::lemma_nl_index_props(s);
        if i < s.len() {
            lemma_split_no_newline(s.skip(i + 1));
            let l = strip_cr(s.take(i));
            assert forall|j: int| 0 <= j < l.len() implies #[trigger] l[j] != '\n' by {
                assert(l[j] == s[j]);
            }
            let ls = split_lines(s);
            assert forall|k: int| 0 <= k < ls.len() implies no_newline(#[trigger] ls[k]) by {
                if k > 0 {
                    assert(ls[k] == split_lines(s.skip(i + 1))[k - 1]);
                }
            }
        }
    }
}

/// Every proxy that the registry can assign holds no `'\n'`.
pub open spec fn proxies_clean(es: Seq<HostSpec>, default: Seq<char>) -> bool {
    no_newline(default) && forall|k: int|
        0 <= k < es.len() ==> match (#[trigger] es[k]).proxy {
            Some(p) => no_newline(p),
            None => true,
        }
}

proof fn lemma_lookup_clean(es: Seq<HostSpec>, key: Seq<char>, d: Seq<char>)
    requires
        proxies_clean(es, d),
    ensures
        lookup(es, key, d) matches Some(p) ==> no_newline(p),
    decreases es.len(),
{
    if es.len() > 0 {
        assert(es.last() == es[es.len() - 1]);
        if !eq_ci(es.last().pattern, key) {
            assert forall|k: int| 0 <= k < es.drop_last().len() implies match (#[trigger] es.drop_last()[k]).proxy {
                Some(p) => no_newline(p),
                None => true,
            } by {
                assert(es.drop_last()[k] == es[k]);
            }
            lemma_lookup_clean(es.drop_last(), key, d);
        }
    }
}

proof fn lemma_matched_clean(pats: Seq<Seq<char>>, es: Seq<HostSpec>, d: Seq<char>)
    requires
        proxies_clean(es, d),
    ensures
        forall|k: int| 0 <= k < matched(pats, es, d).len() ==> no_newline(#[trigger] matched(pats, es, d)[k]),
    decreases pats.len(),
{
    if pats.len() > 0 {
        lemma_matched_clean(pats.drop_last(), es, d);
        lemma_lookup_clean(es, pats.last(), d);
        let m0 = matched(pats.drop_last(), es, d);
        let m = matched(pats, es, d);
        assert forall|k: int| 0 <= k < m.len() implies no_newline(#[trigger] m[k]) by {
            if k < m0.len() {
                assert(m[k] == m0[k]);
            }
        }
    }
}

proof fn lemma_indent_no_newline(ls: Seq<Seq<char>>, i: int, end: int)
    requires
        forall|k: int| 0 <= k < ls.len() ==> no_newline(#[trigger] ls[k]),
    ensures
        no_newline(indent_in(ls, i, end)),
    decreases end - i,
{
    if i >= end || i < 0 || i >= ls.len() {
        reveal_strlit("    ");
    } else if indent_candidate(ls[i]) {
        let l = ls[i];
        assert(no_newline(l));
        let t = l.take(ws_prefix_len(l) as int);
        assert forall|j: int| 0 <= j < t.len() implies #[trigger] t[j] != '\n' by {
            assert(t[j] == l[j]);
        }
    } else {
        lemma_indent_no_newline(ls, i + 1, end);
    }
}

proof fn lemma_directive_clean(ind: Seq<char>, p: Seq<char>)
    requires
        no_newline(ind),
        no_newline(p),
    ensures
        clean_line(ind + proxy_line(p)),
{
    reveal_strlit("ProxyCommand /usr/bin/nc -X connect -x ");
    reveal_strlit(" %h %p");
    let a = "ProxyCommand /usr/bin/nc -X connect -x "@;
    let z = " %h %p"@;
    let f = ind + proxy_line(p);
    assert(f =~= ind + a + p + z);
    assert forall|i: int| 0 <= i < f.len() implies #[trigger] f[i] != '\n' by {
        if i < ind.len() {
            assert(f[i] == ind[i]);
        } else if i < ind.len() + a.len() {
            assert(f[i] == a[i - ind.len()]);
        } else if i < ind.len() + a.len() + p.len() {
            assert(f[i] == p[i - ind.len() - a.len()]);
        } else {
            assert(f[i] == z[i - ind.len() - a.len() - p.len()]);
        }
    }
    assert(f.last() == z.last());
}

proof fn lemma_block_clean(b: Seq<Seq<char>>, es: Seq<HostSpec>, d: Seq<char>)
    requires
        b.len() >= 1,
        forall|k: int| 0 <= k < b.len() ==> clean_line(#[trigger] b[k]),
        proxies_clean(es, d),
        add_block(b, es, d) is Ok,
    ensures
        forall|k: int|
            0 <= k < add_block(b, es, d)->Ok_0.0.len() ==> clean_line(
                #[trigger] add_block(b, es, d)->Ok_0.0[k],
            ),
{
    let m = matched(patterns(b[0]), es, d);
    if m.len() > 0 {
        lemma_matched_clean(patterns(b[0]), es, d);
        assert(no_newline(m[0]));
        assert forall|k: int| 0 <= k < b.len() implies no_newline(#[trigger] b[k]) by {
            assert(clean_line(b[k]));
        }
        lemma_indent_no_newline(b, 1, b.len() as int);
        let f = expected_line(b, m[0]);
        lemma_directive_clean(indent_in(b, 1, b.len() as int), m[0]);
        let k = first_proxy_command(b, 1, b.len() as int);
        let nb = add_block(b, es, d)->Ok_0.0;
        lemma_first_pc_props(b, 1, b.len() as int);
        assert(!conflicting(m));
        assert(clean_line(f));
        if k < b.len() {
            assert(nb == b.update(k, f));
            assert forall|x: int| 0 <= x < nb.len() implies clean_line(#[trigger] nb[x]) by {
                if x != k {
                    assert(nb[x] == b[x]);
                }
            }
        } else {
            assert(nb == b.insert(1, f));
            assert forall|x: int| 0 <= x < nb.len() implies clean_line(#[trigger] nb[x]) by {
                if x == 0 {
                    assert(nb[x] == b[0]);
                } else if x > 1 {
                    assert(nb[x] == b[x - 1]);
                }
            }
        }
    }
}

proof fn lemma_add_from_clean(ls: Seq<Seq<char>>, es: Seq<HostSpec>, d: Seq<char>, i: int)
    requires
        0 <= i <= ls.len(),
        forall|k: int| 0 <= k < ls.len() ==> clean_line(#[trigger] ls[k]),
        proxies_clean(es, d),
        add_from(ls, es, d, i) is Ok,
    ensures
        forall|k: int|
            0 <= k < add_from(ls, es, d, i)->Ok_0.0.len() ==> clean_line(
                #[trigger] add_from(ls, es, d, i)->Ok_0.0[k],
            ),
    decreases ls.len() - i,
{
    if i < ls.len() {
        let e = block_end(ls, i + 1);
        lemma_block_end_bounds(ls, i + 1);
        let b = ls.subrange(i, e);
        assert forall|k: int| 0 <= k < b.len() implies clean_line(#[trigger] b[k]) by {
            assert(b[k] == ls[i + k]);
        }
        lemma_block_clean(b, es, d);
        lemma_add_from_clean(ls, es, d, e);
        let nb = add_block(b, es, d)->Ok_0.0;
        let r2 = add_from(ls, es, d, e)->Ok_0.0;
        let r = add_from(ls, es, d, i)->Ok_0.0;
        assert(r == nb + r2);
        assert forall|k: int| 0 <= k < r.len() implies clean_line(#[trigger] r[k]) by {
            if k < nb.len() {
                assert(r[k] == nb[k]);
            } else {
                assert(r[k] == r2[k - nb.len()]);
            }
        }
    }
}

/// Idempotence on the text: adding to the text that adding produced finds
/// nothing to change and gives the same text back, where no line of the
/// document ends with `'\r'` and no proxy holds a `'\n'`.
pub proof fn lemma_add_text_idempotent(doc: Seq<char>, es: Seq<HostSpec>, default: Seq<char>)
    requires
        add_text(doc, es, default) is Ok,
        forall|k: int|
            0 <= k < split_lines(doc).len() ==> !(#[trigger] split_lines(doc)[k].len() > 0
                && split_lines(doc)[k].last() == '\r'),
        proxies_clean(es, default),
    ensures
        ({
            let t = add_text(doc, es, default)->Ok_0.0;
            add_text(t, es, default) == Ok::<(Seq<char>, bool), Seq<char>>((t, false))
        }),
{
    let ls = split_lines(doc);
    lemma_split_no_newline(doc);
    assert forall|k: int| 0 <= k < ls.len() implies clean_line(#[trigger] ls[k]) by {
        assert(no_newline(ls[k]));
        assert(!(ls[k].len() > 0 && ls[k].last() == '\r'));
    }
    let p = block_end(ls, 0);
    lemma_block_end_bounds(ls, 0);
    lemma_add_from_clean(ls, es, default, p);
    let rp = add_from(ls, es, default, p)->Ok_0.0;
    let r = add_lines(ls, es, default)->Ok_0.0;
    assert(r == ls.take(p) + rp);
    assert forall|k: int| 0 <= k < r.len() implies clean_line(#[trigger] r[k]) by {
        if k < p {
            assert(r[k] == ls[k]);
        } else {
            assert(r[k] == rp[k - p]);
        }
    }
    lemma_add_idempotent(ls, es, default);
    let j = join_lines(r);
    let t = add_text(doc, es, default)->Ok_0.0;
    if ends_with_nl(doc) || j.len() > 0 {
        assert(t == j.push('\n'));
        assert(ends_with_nl(t));
        if r.len() > 0 {
            lemma_split_join(r);
            assert(add_lines(split_lines(t), es, default) == Ok::<(Seq<Seq<char>>, bool), Seq<char>>((r, false)));
            assert(join_lines(split_lines(t)) == j);
            assert(add_text(t, es, default) == Ok::<(Seq<char>, bool), Seq<char>>((t, false)));
        } else {
            assert(t =~= seq!['\n']);
            let one = seq![Seq::<char>::empty()];
            assert(nl_index(t) == 0);
            assert(t.take(0) =~= Seq::<char>::empty());
            assert(t.skip(1) =~= Seq::<char>::empty());
            assert(strip_cr(Seq::<char>::empty()) == Seq::<char>::empty());
            assert(split_lines(Seq::<char>::empty()) == Seq::<Seq<char>>::empty());
            assert(split_lines(t) =~= one);
            assert(!host_line(Seq::<char>::empty()));
            assert(block_end(one, 1) == 1);
            assert(block_end(one, 0) == 1);
            assert(one.take(1) =~= one);
            assert(one.take(1) + Seq::<Seq<char>>::empty() =~= one);
            assert(add_from(one, es, default, 1) == Ok::<(Seq<Seq<char>>, bool), Seq<char>>((Seq::<Seq<char>>::empty(), false)));
            assert(add_lines(one, es, default) == Ok::<(Seq<Seq<char>>, bool), Seq<char>>((one, false)));
            assert(join_lines(one) == Seq::<char>::empty());
            assert(Seq::<char>::empty().push('\n') =~= t);
            assert(add_text(t, es, default) == Ok::<(Seq<char>, bool), Seq<char>>((t, false)));
        }
    } else {
        assert(t == j);
        assert(t.len() == 0);
        assert(t =~= Seq::<char>::empty());
        assert(split_lines(t) == Seq::<Seq<char>>::empty());
        let none = Seq::<Seq<char>>::empty();
        assert(block_end(none, 0) == 0);
        assert(none.take(0) + none =~= none);
        assert(add_lines(none, es, default) == Ok::<(Seq<Seq<char>>, bool), Seq<char>>((none, false)));
        assert(join_lines(none) == Seq::<char>::empty());
        assert(!ends_with_nl(t));
        assert(add_text(t, es, default) == Ok::<(Seq<char>, bool), Seq<char>>((t, false)));
    }
}

proof fn lemma_keep_no_tool(b: Seq<Seq<char>>)
    ensures
        forall|k: int| 0 <= k < keep_lines(b).len() ==> !tool_line(#[trigger] keep_lines(b)[k]),
        keep_lines(b).len() <= b.len(),
        keep_lines(b).len() == b.len() ==> forall|k: int| 0 <= k < b.len() ==> !tool_line(#[trigger] b[k]),
    decreases b.len(),
{
    if b.len() > 0 {
        let d = b.drop_last();
        lemma_keep_no_tool(d);
        let kb = keep_lines(b);
        let kd = keep_lines(d);
        assert forall|k: int| 0 <= k < kb.len() implies !tool_line(#[trigger] kb[k]) by {
            if k < kd.len() {
                assert(kb[k] == kd[k]);
            }
        }
        if kb.len() == b.len() {
            assert forall|k: int| 0 <= k < b.len() implies !tool_line(#[trigger] b[k]) by {
                if k < d.len() {
                    assert(b[k] == d[k]);
                }
            }
        }
    }
}

proof fn lemma_collapse_within(k: Seq<Seq<char>>)
    ensures
        forall|j: int| 0 <= j < collapse(k).len() ==> k.contains(#[trigger] collapse(k)[j]),
    decreases k.len(),
{
    if k.len() >= 2 && is_blank(k[1]) && (k.len() == 2 || is_blank(k[2])) {
        let k2 = k.remove(1);
        lemma_collapse_within(k2);
        assert(collapse(k) == collapse(k2));
        assert forall|j: int| 0 <= j < collapse(k).len() implies k.contains(#[trigger] collapse(k)[j]) by {
            assert(k2.contains(collapse(k2)[j]));
            let x = choose|x: int| 0 <= x < k2.len() && k2[x] == collapse(k2)[j];
            if x == 0 {
                assert(k[0] == k2[0]);
            } else {
                assert(k[x + 1] == k2[x]);
            }
        }
    } else {
        assert forall|j: int| 0 <= j < k.len() implies k.contains(#[trigger] k[j]) by {}
    }
}

/// Removal clears a selected block of the tool's directives: none is left
/// in what removal makes of it.
pub proof fn lemma_removed_block_has_no_tool_line(b: Seq<Seq<char>>, es: Seq<HostSpec>)
    requires
        b.len() >= 1,
        host_line(b[0]),
        selected(b[0], es),
    ensures
        forall|k: int| 0 <= k < remove_block(b, es).0.len() ==> !tool_line(#[trigger] remove_block(b, es).0[k]),
{
    reveal_strlit("host ");
    reveal_strlit("proxycommand ");
    assert(fold(trim_start(b[0])[0]) != fold("proxycommand "@[0]));
    assert(!tool_line(b[0]));
    let rest = b.drop_first();
    lemma_keep_no_tool(rest);
    let kept = seq![b[0]] + keep_lines(rest);
    let r = remove_block(b, es).0;
    if kept.len() == b.len() {
        assert forall|k: int| 0 <= k < b.len() implies !tool_line(#[trigger] b[k]) by {
            if k > 0 {
                assert(b[k] == rest[k - 1]);
            }
        }
    } else {
        assert forall|k: int| 0 <= k < kept.len() implies !tool_line(#[trigger] kept[k]) by {
            if k > 0 {
                assert(kept[k] == keep_lines(rest)[k - 1]);
            }
        }
        lemma_collapse_within(kept);
        assert forall|k: int| 0 <= k < r.len() implies !tool_line(#[trigger] r[k]) by {
            let x = choose|x: int| 0 <= x < kept.len() && kept[x] == r[k];
            assert(!tool_line(kept[x]));
        }
    }
}

} // verus!
